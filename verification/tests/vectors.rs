//! Vector indexes.
use nusadb_sql::value::{Row, Value};
use nusadb_sql::vector::search::{
    can_serve, exact_vector_knn, index_rows, pick_hits, plan_maintenance, refresh_action, rehydrate,
    run_vector_knn, values_equal, GraphFacts, KnnAnswer, KnnAsk, KnnQuery, KnnStep, Maintenance, Picked,
    Refresh,
};
use nusadb_sql::vector::{
    assemble_chunks, chunk_rows, collect_chunks, decode_graph_blob, encode_graph_blob, resolve_ef_search,
    GraphBlob, Tid,
};

fn vector(xs: &[f32]) -> Value {
    Value::Vector(xs.iter().map(|x| x.to_bits()).collect())
}

fn items(vectors: &[&[f32]]) -> Vec<Row> {
    vectors.iter().enumerate().map(|(i, v)| vec![Value::Int(i as i64 + 1), vector(v)]).collect()
}

fn tids(n: u64) -> Vec<Tid> {
    (0..n).map(|i| Tid { page: i / 3, slot: (i % 3) as u16 }).collect()
}

/// What a catalog holds after an index of this many nodes was persisted.
fn persisted(name: &str, signature: u64, graph: Vec<u8>, nodes: &Vec<Tid>) -> Vec<Row> {
    chunk_rows(name, &encode_graph_blob(signature, &graph, nodes))
}

/// The nodes of the persisted graph, where it may serve rows of this signature.
fn load(catalog: &Vec<Row>, name: &str, signature: u64, dim: usize, live: &Vec<Tid>) -> Option<Vec<usize>> {
    load_graph(catalog, name, signature, dim, live).map(|loaded| loaded.1)
}

/// The persisted graph with the places of its rows, where it may serve rows of this signature.
fn load_graph(
    catalog: &Vec<Row>,
    name: &str,
    signature: u64,
    dim: usize,
    live: &Vec<Tid>,
) -> Option<(GraphBlob, Vec<usize>)> {
    let blob = assemble_chunks(&collect_chunks(catalog, name));
    let stored = decode_graph_blob(&blob)?;
    let facts = GraphFacts { dim, nodes: stored.nodes.len(), metric: 1 };
    if !can_serve(stored.signature, signature, facts, dim, 1, &stored.nodes) {
        return None;
    }
    let places = rehydrate(&stored.nodes, live)?;
    Some((stored, places))
}

#[test]
fn every_row_with_a_vector_is_indexed() {
    let rows = items(&[&[1.0, 0.0, 0.0], &[0.0, 1.0, 0.0], &[0.0, 0.0, 1.0]]);
    // All three non-NULL vectors are in the graph.
    assert_eq!(index_rows(&rows, 1, 3, 0).len(), 3);
}

#[test]
fn rows_without_a_vector_of_the_dimension_are_left_out() {
    let mut rows = items(&[&[1.0, 0.0], &[1.0]]);
    rows.push(vec![Value::Int(3), Value::Null]);
    rows.push(vec![Value::Int(4)]);
    assert_eq!(index_rows(&rows, 1, 2, 0), vec![0]);
}

#[test]
fn restart_loads_persisted_graph_instead_of_rebuilding() {
    let live = tids(4);
    let catalog = persisted("items_emb", 42, vec![9; 100], &live);
    let (graph, places) =
        load_graph(&catalog, "items_emb", 42, 3, &live).expect("the persisted graph is loaded");
    assert_eq!(graph.nodes.len(), 4);
    assert_eq!(places.len(), 4);
    assert_eq!(graph.signature, 42);
}

#[test]
fn a_write_refreshes_the_persisted_graph() {
    let before = tids(4);
    let after = tids(5);
    let old_rows = items(&[&[1.0, 0.0, 0.0], &[0.0, 1.0, 0.0], &[1.0, 1.0, 0.0], &[0.9, 0.1, 0.0]]);
    let mut new_rows = items(&[&[1.0, 0.0, 0.0], &[0.0, 1.0, 0.0], &[1.0, 1.0, 0.0], &[0.9, 0.1, 0.0]]);
    new_rows.push(vec![Value::Int(5), vector(&[0.5, 0.5, 0.0])]);
    assert_eq!(refresh_action(Some(1), 2), Refresh::Maintain);
    assert_eq!(
        plan_maintenance(&before, &old_rows, &after, &new_rows),
        Maintenance::Append(vec![4])
    );
    let catalog = persisted("items_emb", 2, vec![9; 100], &after);
    assert_eq!(load(&catalog, "items_emb", 2, 3, &after).expect("re-persisted").len(), 5);
}

#[test]
fn a_changed_or_deleted_row_rebuilds() {
    let live = tids(2);
    let rows = items(&[&[1.0], &[2.0]]);
    let changed = items(&[&[1.0], &[3.0]]);
    assert_eq!(plan_maintenance(&live, &rows, &live, &changed), Maintenance::Rebuild);
    let fewer = tids(1);
    let first = items(&[&[1.0]]);
    assert_eq!(plan_maintenance(&live, &rows, &fewer, &first), Maintenance::Rebuild);
    assert_eq!(refresh_action(None, 2), Refresh::Build);
    assert_eq!(refresh_action(Some(2), 2), Refresh::Keep);
}

#[test]
fn a_signature_mismatch_declines_the_persisted_graph() {
    let live = tids(4);
    let catalog = persisted("items_emb", 42, vec![9; 100], &live);
    assert!(load(&catalog, "items_emb", 43, 3, &live).is_none());
}

#[test]
fn dropping_the_index_removes_the_persisted_graph() {
    let live = tids(4);
    let catalog: Vec<Row> = persisted("items_emb", 42, vec![9; 100], &live)
        .into_iter()
        .filter(|r| r[0] != Value::Text("items_emb".to_owned()))
        .collect();
    assert!(load(&catalog, "items_emb", 42, 3, &live).is_none());
}

#[test]
fn create_index_and_reload_at_realistic_dimensions() {
    let live = tids(20);
    // A graph far larger than one catalog row may be.
    let graph: Vec<u8> = (0..20_000u32).map(|i| (i % 251) as u8).collect();
    let mut catalog = persisted("docs_emb", 42, graph.clone(), &live);
    assert!(catalog.len() > 1);
    for row in &catalog {
        match &row[2] {
            Value::Bytes(b) => assert!(b.len() <= 6000),
            other => panic!("{other:?}"),
        }
    }
    // The chunks may be read in any order.
    catalog.reverse();
    assert_eq!(load(&catalog, "docs_emb", 42, 128, &live).expect("reassembled").len(), 20);
    let blob = assemble_chunks(&collect_chunks(&catalog, "docs_emb"));
    assert_eq!(decode_graph_blob(&blob).unwrap().graph, graph);
}

#[test]
fn foreign_and_damaged_blobs_are_declined() {
    let blob = encode_graph_blob(7, &vec![1, 2, 3], &tids(2));
    assert!(decode_graph_blob(&blob).is_some());
    for cut in 0..blob.len() {
        assert!(decode_graph_blob(&blob[..cut]).is_none(), "{cut}");
    }
    let mut foreign = blob.clone();
    foreign[0] ^= 1;
    assert!(decode_graph_blob(&foreign).is_none());
    let mut newer = blob.clone();
    newer[4] = 2;
    assert!(decode_graph_blob(&newer).is_none());
}

#[test]
fn vectors_are_equal_by_their_numbers() {
    assert!(values_equal(&vector(&[0.0]), &vector(&[-0.0])));
    assert!(!values_equal(&vector(&[f32::NAN]), &vector(&[f32::NAN])));
    assert!(!values_equal(&vector(&[1.0]), &vector(&[2.0])));
    assert!(values_equal(&Value::Float(0.0f64.to_bits()), &Value::Float((-0.0f64).to_bits())));
}

#[test]
fn the_exact_search_gives_the_nearest_first() {
    let d = |x: f64| Some(x.to_bits());
    assert_eq!(exact_vector_knn(&vec![d(2.0), None, d(0.5), d(0.5), d(1.0)], 3), vec![2, 3, 4]);
    assert_eq!(exact_vector_knn(&vec![d(2.0)], 5), vec![0]);
}

#[test]
fn hits_are_picked_until_there_are_enough() {
    let places = vec![10, 11, 12];
    assert_eq!(pick_hits(&vec![2, 0, 1], &places, 20, false, &vec![], 2), Picked::Complete(vec![12, 10]));
    assert_eq!(pick_hits(&vec![2, 0], &places, 20, true, &vec![], 2), Picked::Needs(12));
    assert_eq!(
        pick_hits(
            &vec![2, 0],
            &places,
            20,
            true,
            &vec![Value::Bool(false), Value::Bool(true)],
            2
        ),
        Picked::Complete(vec![10])
    );
}

#[test]
fn the_beam_is_wide_enough() {
    assert!(resolve_ef_search(10, None) >= 10);
    assert_eq!(resolve_ef_search(10, Some("200")), 200);
    assert_eq!(resolve_ef_search(500, Some("200")), 500);
}

#[test]
fn a_search_without_an_index_is_exact() {
    let q = KnnQuery { query: Some(1), column: 1, k: 2, filtered: false };
    let rows = items(&[&[3.0], &[1.0], &[2.0]]);
    let mut answers: Vec<KnnAnswer> = Vec::new();
    match run_vector_knn(q, None, &answers) {
        KnnStep::Ask(KnnAsk::Index) => {}
        other => panic!("{other:?}"),
    }
    answers.push(KnnAnswer::Index(None));
    match run_vector_knn(q, None, &answers) {
        KnnStep::Ask(KnnAsk::Exact) => {}
        other => panic!("{other:?}"),
    }
    answers.push(KnnAnswer::Rows(rows.clone()));
    match run_vector_knn(q, None, &answers) {
        KnnStep::Score(vectors) => assert_eq!(vectors.len(), 3),
        other => panic!("{other:?}"),
    }
    let d = |x: f64| Some(x.to_bits());
    answers.push(KnnAnswer::Distances(vec![d(3.0), d(1.0), d(2.0)]));
    assert_eq!(
        run_vector_knn(q, None, &answers),
        KnnStep::Done(vec![rows[1].clone(), rows[2].clone()])
    );
}

#[test]
fn an_exact_search_gives_the_nearest_rows_of_the_filter() {
    let q = KnnQuery { query: Some(1), column: 1, k: 2, filtered: true };
    let rows = items(&[&[3.0], &[1.0], &[2.0]]);
    let mut answers = vec![KnnAnswer::Index(None), KnnAnswer::Rows(rows.clone())];
    assert_eq!(run_vector_knn(q, None, &answers), KnnStep::Judge(rows.clone()));
    let verdicts = vec![Value::Bool(true), Value::Bool(false), Value::Bool(true)];
    answers.push(KnnAnswer::Verdicts(verdicts));
    match run_vector_knn(q, None, &answers) {
        KnnStep::Score(vectors) => assert_eq!(vectors.len(), 2),
        other => panic!("{other:?}"),
    }
    answers.push(KnnAnswer::Distances(vec![Some(3.0f64.to_bits()), Some(2.0f64.to_bits())]));
    assert_eq!(
        run_vector_knn(q, None, &answers),
        KnnStep::Done(vec![rows[2].clone(), rows[0].clone()])
    );
}

#[test]
fn a_search_of_the_graph_judges_its_hits_and_falls_back_where_too_few_pass() {
    let q = KnnQuery { query: Some(1), column: 1, k: 1, filtered: true };
    let rows = items(&[&[3.0], &[1.0], &[2.0]]);
    let prefix = || {
        vec![
            KnnAnswer::Index(Some(1)),
            KnnAnswer::Signature(7),
            KnnAnswer::Cached(Some(7)),
            KnnAnswer::Hits { hits: vec![1, 2], places: vec![0, 1, 2], rows: rows.clone() },
        ]
    };
    assert_eq!(run_vector_knn(q, None, &prefix()), KnnStep::Judge(vec![rows[1].clone()]));
    let mut passes = prefix();
    passes.push(KnnAnswer::Verdicts(vec![Value::Bool(false)]));
    assert_eq!(run_vector_knn(q, None, &passes), KnnStep::Judge(vec![rows[2].clone()]));
    passes.push(KnnAnswer::Verdicts(vec![Value::Bool(true)]));
    assert_eq!(run_vector_knn(q, None, &passes), KnnStep::Done(vec![rows[2].clone()]));
    let mut fails = prefix();
    fails.push(KnnAnswer::Verdicts(vec![Value::Bool(false)]));
    fails.push(KnnAnswer::Verdicts(vec![Value::Null]));
    assert_eq!(run_vector_knn(q, None, &fails), KnnStep::Ask(KnnAsk::Exact));
}
