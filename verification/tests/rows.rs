//! Operators on rows, in memory and spilled.
use nusadb_sql::error::{Error, Stage};
use nusadb_sql::exec::IntSeries;
use nusadb_sql::operators::cursor::{JoinCursor, JoinNext, LeftBuildCursor};
use nusadb_sql::operators::{distinct_on, filter_rows, join_rows, join_rows_left_build, limit_rows, JoinKind};
use nusadb_sql::order::{group_keys_equal, value_compare, ColumnOrder, NullOrdering, Order, SortKey};
use nusadb_sql::recursive::{may_go_on, start_recursion, take_round, Round, WorkingSets};
use nusadb_sql::row::{encode, Encoding};
use nusadb_sql::scan::{count_table, project_rows, scan_rows_projected, scan_table, Tuple};
use nusadb_sql::series::{
    eval_set_returning, eval_set_returning_pairs, eval_unnest_multi, generate_series,
    generate_series_temporal, pull_series, temporal_micros, wrap_elements, wrap_pairs, ElementKind,
    SeriesSource, SetError, SetFunc, SetStep, SetTask, TemporalSeries,
};
use nusadb_sql::setops::{
    combine_set, consume_matching, dedupe_rows, eval_set_tree, filter_by_membership, is_hash_safe_value,
    SetOp, SetTree,
};
use nusadb_sql::shape::{
    estimated_group_state_bytes, join_scan_estimate, layout_preserved_scan, lazy_int_series, output_column_types,
    output_columns, route_select, settle_batch, BatchReply, ColumnSummary, OutputColumn, Shape, ShapeNode,
};
use nusadb_sql::sort::{apply_ties_limit, sort_rows, top_n_rows};
use nusadb_sql::spill_setop::{eval_set_tree_spilling, sort_based_distinct};
use nusadb_sql::spill_sort::{cut_runs, external_sort, lowest_head};
use nusadb_sql::types::{is_hash_safe_key_type, CatalogType, ColumnType};
use nusadb_sql::value::{Decimal, Row, Value};
use nusadb_sql::window::{
    assign_distribution, assign_navigation, assign_ntile, frame_places, peer_group, FrameBound, RangeOffset,
    Shifts, WindowExclude, WindowFrame, WindowFunc,
};

const O: ColumnOrder = ColumnOrder;

fn ints(xs: &[i64]) -> Vec<Row> {
    xs.iter().map(|&x| vec![Value::Int(x)]).collect()
}

fn text(s: &str) -> Value {
    Value::Text(s.to_owned())
}

fn asc() -> Vec<SortKey> {
    vec![SortKey { ascending: true, nulls: NullOrdering::Default }]
}

// ---------------------------------------------------------------- orders

#[test]
fn values_are_ordered_within_and_across_types() {
    let d = |mantissa: i128, scale: u8| Value::Numeric(Decimal { mantissa, scale });
    assert_eq!(value_compare(&d(150, 2), &d(15, 1)), Order::Equal);
    assert_eq!(value_compare(&d(-1, 0), &d(1, 38)), Order::Less);
    let f = |x: f64| Value::Float(x.to_bits());
    assert_eq!(value_compare(&f(-1.0), &f(1.0)), Order::Less);
    assert_eq!(value_compare(&f(-0.0), &f(0.0)), Order::Less);
    assert_eq!(value_compare(&f(f64::INFINITY), &f(f64::NAN)), Order::Less);
    assert_eq!(value_compare(&Value::Bool(true), &Value::Int(0)), Order::Less);
    assert_eq!(value_compare(&text("b"), &text("ab")), Order::Greater);
    assert!(group_keys_equal(&O, &vec![Value::Null], &vec![Value::Null]));
    assert!(!group_keys_equal(&O, &vec![Value::Null], &vec![Value::Int(0)]));
}

#[test]
fn hash_safe_types_hold_hash_safe_values() {
    assert!(is_hash_safe_value(&Value::Int(1)) && is_hash_safe_value(&Value::Null));
    assert!(!is_hash_safe_value(&Value::Float(0)));
    assert!(is_hash_safe_key_type(&CatalogType::Column(ColumnType::VarChar(3))));
    assert!(is_hash_safe_key_type(&CatalogType::Inet));
    assert!(!is_hash_safe_key_type(&CatalogType::Column(ColumnType::Real)));
    assert!(!is_hash_safe_key_type(&CatalogType::Enum));
}

// ---------------------------------------------------------------- sets

#[test]
fn set_operators_count_rows() {
    let a = || ints(&[1, 1, 1, 2, 3]);
    let b = || ints(&[1, 1, 3, 4]);
    for (op, all, expect) in [
        (SetOp::Union, true, ints(&[1, 1, 1, 2, 3, 1, 1, 3, 4])),
        (SetOp::Union, false, ints(&[1, 2, 3, 4])),
        (SetOp::Intersect, true, ints(&[1, 1, 3])),
        (SetOp::Intersect, false, ints(&[1, 3])),
        (SetOp::Except, true, ints(&[1, 2])),
        (SetOp::Except, false, ints(&[2])),
    ] {
        assert_eq!(combine_set(&O, op, all, a(), b()), expect, "{op:?} {all}");
        let tree = SetTree::Node {
            op,
            all,
            left: Box::new(SetTree::Leaf(0)),
            right: Box::new(SetTree::Leaf(1)),
        };
        let inputs = vec![a(), b()];
        assert_eq!(eval_set_tree(&O, &tree, &inputs), expect);
        // Spilling gives the same rows, sorted.
        let spilled = eval_set_tree_spilling(&O, &tree, &inputs, 1, 1);
        let mut sorted: Vec<i64> = expect
            .iter()
            .map(|r| match r[0] {
                Value::Int(i) => i,
                _ => 0,
            })
            .collect();
        sorted.sort_unstable();
        let mut got: Vec<i64> = spilled
            .iter()
            .map(|r| match r[0] {
                Value::Int(i) => i,
                _ => 0,
            })
            .collect();
        got.sort_unstable();
        assert_eq!(got, sorted, "{op:?} {all} spilled");
    }
}

#[test]
fn partners_are_used_up() {
    assert_eq!(consume_matching(&O, ints(&[1, 1, 2]), &ints(&[1]), true), ints(&[1]));
    assert_eq!(consume_matching(&O, ints(&[1, 1, 2]), &ints(&[1]), false), ints(&[1, 2]));
    assert_eq!(filter_by_membership(&O, ints(&[1, 1, 2]), &ints(&[1]), true), ints(&[1, 1]));
    assert_eq!(filter_by_membership(&O, ints(&[1, 1, 2]), &ints(&[1]), false), ints(&[2]));
    assert_eq!(dedupe_rows(&O, ints(&[2, 1, 2])), ints(&[2, 1]));
    assert_eq!(sort_based_distinct(&O, &ints(&[2, 1, 2]), 1, 1).len(), 2);
}

// ---------------------------------------------------------------- sorts

#[test]
fn an_external_sort_is_the_sort_in_memory() {
    let rows: Vec<Row> = (0..50).map(|i| vec![Value::Int(i * 37 % 10), Value::Int(i)]).collect();
    let keys: Vec<Vec<Value>> = rows.iter().map(|r| vec![r[0].clone()]).collect();
    let sorted = sort_rows(&O, &rows, &keys, &asc());
    for limit in [1, 300, 1_000_000] {
        assert_eq!(external_sort(&O, &rows, &keys, &asc(), limit), sorted);
    }
    // Rows of equal keys stay as they came.
    assert_eq!(sorted[0], vec![Value::Int(0), Value::Int(0)]);
    assert_eq!(sorted[1], vec![Value::Int(0), Value::Int(10)]);
}

#[test]
fn runs_are_cut_at_the_limit() {
    let rows = ints(&[1, 2, 3, 4]);
    let one = nusadb_sql::memory::row_bytes(&rows[0]);
    // The rows with which a further run begins.
    assert_eq!(cut_runs(&rows, one * 2), vec![2]);
    assert_eq!(cut_runs(&rows, 1), vec![1, 2, 3]);
    assert_eq!(cut_runs(&rows, 0), vec![]);
    let keys = ints(&[5, 3, 3]);
    assert_eq!(lowest_head(&O, &keys, &asc(), &vec![Some(0), None, Some(2), Some(1)]), Some(2));
    assert_eq!(lowest_head(&O, &keys, &asc(), &vec![None, None]), None);
}

#[test]
fn the_top_rows_are_held_to_the_budget() {
    let rows = ints(&[3, 1, 2]);
    let keys = ints(&[3, 1, 2]);
    assert_eq!(top_n_rows(&O, &rows, &keys, &asc(), 2, 0), Ok(ints(&[1, 2])));
    match top_n_rows(&O, &rows, &keys, &asc(), 2, 1) {
        Err(Error::OutOfMemory { budget: 1, stage: Stage::TopN, .. }) => {}
        other => panic!("{other:?}"),
    }
    let sorted = ints(&[1, 2, 2, 3]);
    let keys = ints(&[1, 2, 2, 3]);
    assert_eq!(apply_ties_limit(&O, &sorted, &keys, &asc(), 0, 2), ints(&[1, 2, 2]));
    assert_eq!(apply_ties_limit(&O, &sorted, &keys, &asc(), 3, 1), ints(&[3]));
}

// ---------------------------------------------------------------- filters, limits, joins

#[test]
fn only_true_keeps_a_row() {
    let verdicts = vec![Value::Bool(true), Value::Null, Value::Bool(false), Value::Int(1)];
    assert_eq!(filter_rows(&ints(&[1, 2, 3, 4]), &verdicts), ints(&[1]));
    assert_eq!(limit_rows(&ints(&[1, 2, 3]), 1, 1), ints(&[2]));
    assert_eq!(limit_rows(&ints(&[1, 2, 3]), 2, u64::MAX), ints(&[3]));
    let rows = ints(&[1, 2, 3]);
    assert_eq!(distinct_on(&O, &rows, &ints(&[7, 7, 8])), ints(&[1, 3]));
}

#[test]
fn the_build_side_only_changes_the_order() {
    let left = ints(&[1, 2, 3]);
    let right = ints(&[2, 1, 2]);
    let by_left = vec![vec![1], vec![0, 2], vec![]];
    let by_right = vec![vec![1], vec![0], vec![1]];
    let pair = |a: i64, b: i64| vec![Value::Int(a), Value::Int(b)];
    assert_eq!(
        join_rows(&left, &right, &by_left, JoinKind::Inner, 1, 1),
        vec![pair(1, 1), pair(2, 2), pair(2, 2)]
    );
    assert_eq!(
        join_rows_left_build(&left, &right, &by_right),
        vec![pair(2, 2), pair(1, 1), pair(2, 2)]
    );
    let kept = join_rows(&left, &right, &vec![vec![], vec![0], vec![]], JoinKind::Right, 1, 1);
    assert_eq!(kept, vec![
        pair(2, 2),
        vec![Value::Null, Value::Int(1)],
        vec![Value::Null, Value::Int(2)]
    ]);
}

// ---------------------------------------------------------------- scans

fn tuple(tid: u64, row: &[Value], schema: &[ColumnType]) -> Tuple {
    match encode(row, schema, &[]) {
        Ok(Encoding::Complete(bytes)) => Tuple { tid, bytes },
        other => panic!("{other:?}"),
    }
}

#[test]
fn a_scan_reads_what_is_not_hidden() {
    let schema = vec![ColumnType::Int, ColumnType::Text];
    let tuples: Vec<Tuple> =
        (0..3).map(|i| tuple(i, &[Value::Int(i as i64), text("x")], &schema)).collect();
    let hidden = vec![(9, 1), (8, 2)];
    let rows = scan_table(9, &tuples, &hidden, &schema, &vec![]).unwrap();
    assert_eq!(rows.iter().map(|r| r.tid).collect::<Vec<_>>(), vec![0, 2]);
    assert_eq!(count_table(9, &tuples, &hidden), 2);
    assert_eq!(
        scan_rows_projected(9, &tuples, &hidden, &schema, &vec![0]).unwrap(),
        ints(&[0, 2])
    );
    assert_eq!(project_rows(&vec![vec![Value::Int(1), text("x")]], &vec![1, 5]), vec![vec![text("x")]]);
    let bad = vec![Tuple { tid: 0, bytes: vec![7] }];
    assert_eq!(
        scan_rows_projected(9, &bad, &vec![], &schema, &vec![]),
        Err(Error::MalformedTuple { offset: 0 })
    );
    assert_eq!(count_table(9, &bad, &vec![]), 1);
}

// ---------------------------------------------------------------- recursion

#[test]
fn working_sets_are_bound_and_restored() {
    let mut sets = WorkingSets::new();
    assert_eq!(sets.working_set(1), None);
    sets.bind(1, ints(&[1]));
    sets.bind(1, ints(&[2]));
    assert_eq!(sets.working_set(1), Some(ints(&[2])));
    sets.unbind();
    assert_eq!(sets.working_set(1), Some(ints(&[1])));
    sets.unbind();
    assert_eq!(sets.working_set(1), None);
}

#[test]
fn rounds_go_on_until_nothing_is_new() {
    let state = start_recursion(&O, false, ints(&[1, 1]));
    assert_eq!(state.working, ints(&[1]));
    let state = match take_round(&O, state, ints(&[1, 2]), 0) {
        Ok(Round::Again(s)) => s,
        _ => panic!("a new row goes on"),
    };
    assert_eq!(state.working, ints(&[2]));
    match take_round(&O, state, ints(&[1, 2]), 0) {
        Ok(Round::Done(rows)) => assert_eq!(rows, ints(&[1, 2])),
        _ => panic!("nothing new ends"),
    }
    assert_eq!(may_go_on(0), Ok(()));
    assert_eq!(may_go_on(10_000_000), Err(Error::RecursionLimit));
    assert_eq!(may_go_on(9_999_999), Ok(()));
}

// ---------------------------------------------------------------- series

#[test]
fn a_series_ends_at_its_stop() {
    let vals = |xs: &[i64]| xs.iter().map(|&x| Value::Int(x)).collect::<Vec<_>>();
    assert_eq!(generate_series(1, 7, 3), Ok(vals(&[1, 4, 7])));
    assert_eq!(generate_series(3, 1, -1), Ok(vals(&[3, 2, 1])));
    assert_eq!(generate_series(3, 1, 1), Ok(vec![]));
    assert_eq!(generate_series(i64::MAX - 1, i64::MAX, 1), Ok(vals(&[i64::MAX - 1, i64::MAX])));
    assert_eq!(generate_series(1, 2, 0), Err(SetError::ZeroStep));
    let mut source = SeriesSource::new(1, 3, 2);
    assert_eq!(source.try_next(), Ok(Some(1)));
    assert_eq!(source.try_next(), Ok(Some(3)));
    assert_eq!(source.try_next(), Ok(None));
    assert_eq!(pull_series(1, 2, 1), (vals(&[1, 2]), false));
}

#[test]
fn a_temporal_series_asks_for_each_next_time() {
    match generate_series_temporal(0, 10, &vec![4, 8, 12], false) {
        Ok(TemporalSeries::Complete(vs)) => assert_eq!(vs, vec![
            Value::Timestamp(0),
            Value::Timestamp(4),
            Value::Timestamp(8)
        ]),
        other => panic!("{other:?}"),
    }
    assert_eq!(generate_series_temporal(0, 10, &vec![4], true), Ok(TemporalSeries::Needs(4)));
    assert_eq!(temporal_micros(&Value::Date(1)), Some(86_400_000_000));
    assert_eq!(temporal_micros(&Value::Int(1)), None);
}

#[test]
fn set_returning_functions_give_or_ask() {
    let arr = Value::Array(vec![Value::Int(1), Value::Null]);
    assert_eq!(
        eval_set_returning(SetFunc::Unnest, &vec![arr.clone()]),
        Ok(SetStep::Elements(vec![Value::Int(1), Value::Null]))
    );
    assert_eq!(
        eval_set_returning(SetFunc::JsonArrayElements, &vec![Value::Json("[1]".to_owned())]),
        Ok(SetStep::Ask(SetTask::JsonElements("[1]".to_owned())))
    );
    assert_eq!(
        eval_set_returning(SetFunc::JsonEach, &vec![Value::Json("{}".to_owned())]),
        Err(SetError::GivesPairs)
    );
    assert_eq!(
        eval_set_returning_pairs(SetFunc::Unnest, &vec![Value::Json("{}".to_owned())]),
        Err(SetError::GivesNoPairs)
    );
    // A value that is no document has no pairs.
    assert_eq!(
        eval_set_returning_pairs(SetFunc::JsonEach, &vec![Value::Null]),
        Ok(SetStep::Elements(vec![]))
    );
    assert_eq!(
        eval_set_returning_pairs(SetFunc::JsonEach, &vec![Value::Json("{}".to_owned())]),
        Ok(SetStep::Ask(SetTask::JsonMembers("{}".to_owned())))
    );
    assert_eq!(
        eval_unnest_multi(&vec![arr, Value::Array(vec![Value::Int(9)])]),
        vec![vec![Value::Int(1), Value::Null], vec![Value::Int(9), Value::Null]]
    );
    assert_eq!(
        wrap_elements(ElementKind::Text, vec![Some("a".to_owned()), None]),
        vec![text("a"), Value::Null]
    );
    assert_eq!(wrap_pairs(SetFunc::JsonEach, None), Err(SetError::NotAnObject));
    assert_eq!(
        wrap_pairs(SetFunc::JsonEachText, Some((vec!["k".to_owned()], vec![None]))),
        Ok((vec![text("k")], vec![Value::Null]))
    );
}

// ---------------------------------------------------------------- windows

fn frame(start: FrameBound, end: FrameBound, peer_based: bool, exclude: WindowExclude) -> WindowFrame {
    WindowFrame { start, end, peer_based, range_descending: false, exclude }
}

const NO_SHIFT: Shifts = Shifts { start: None, end: None };

#[test]
fn frames_hold_the_rows_between_their_bounds() {
    let keys = ints(&[1, 2, 2, 4, 9]);
    let at = |f: WindowFrame, k: usize| frame_places(&O, &Some(f), true, &keys, k, NO_SHIFT);
    let rows = frame(FrameBound::Preceding(1), FrameBound::Following(1), false, WindowExclude::NoOthers);
    assert_eq!(at(rows, 0), vec![0, 1]);
    assert_eq!(at(rows, 2), vec![1, 2, 3]);
    let groups = frame(FrameBound::CurrentRow, FrameBound::CurrentRow, true, WindowExclude::NoOthers);
    assert_eq!(at(groups, 1), vec![1, 2]);
    let range = frame(
        FrameBound::RangePreceding(RangeOffset::Int(2)),
        FrameBound::CurrentRow,
        true,
        WindowExclude::NoOthers,
    );
    assert_eq!(at(range, 3), vec![1, 2, 3]);
    let all = |exclude| {
        frame(FrameBound::UnboundedPreceding, FrameBound::UnboundedFollowing, false, exclude)
    };
    assert_eq!(at(all(WindowExclude::CurrentRow), 1), vec![0, 2, 3, 4]);
    assert_eq!(at(all(WindowExclude::Group), 1), vec![0, 3, 4]);
    assert_eq!(at(all(WindowExclude::Ties), 1), vec![0, 1, 3, 4]);
    // Both places are those of peers.
    assert_eq!(peer_group(&O, &keys, 2), (1, 2));
}

#[test]
fn ntile_divides_evenly() {
    let vals = |xs: &[i64]| xs.iter().map(|&x| Value::Int(x)).collect::<Vec<_>>();
    assert_eq!(assign_ntile(5, 2), Ok(vals(&[1, 1, 1, 2, 2])));
    assert_eq!(assign_ntile(2, 4), Ok(vals(&[1, 2])));
    assert_eq!(assign_ntile(2, 0), Err(Error::BucketCount));
}

#[test]
fn distributions_count_rows_before_and_among_peers() {
    let keys = ints(&[1, 2, 2, 3]);
    assert_eq!(
        assign_distribution(&O, &keys, WindowFunc::CumeDist),
        vec![(1, 4), (3, 4), (3, 4), (4, 4)]
    );
    assert_eq!(
        assign_distribution(&O, &keys, WindowFunc::PercentRank),
        vec![(0, 3), (1, 3), (1, 3), (3, 3)]
    );
}

#[test]
fn lag_and_lead_look_to_the_sides() {
    let keys = ints(&[1, 2, 3]);
    let args: Vec<Vec<Value>> =
        (1..4).map(|i| vec![Value::Int(i * 10), Value::Int(1), Value::Int(-1)]).collect();
    let shifts = vec![NO_SHIFT; 3];
    let go = |f| assign_navigation(&O, f, &None, true, &keys, &args, &shifts);
    assert_eq!(go(WindowFunc::Lag), vec![Value::Int(-1), Value::Int(10), Value::Int(20)]);
    assert_eq!(go(WindowFunc::Lead), vec![Value::Int(20), Value::Int(30), Value::Int(-1)]);
}

// ---------------------------------------------------------------- shapes

fn shape(node: ShapeNode, children: Vec<Shape>) -> Shape {
    Shape { node, children }
}

fn scan_of(table: u64, kept: &[usize]) -> Shape {
    shape(
        ShapeNode::SeqScan {
            table,
            source: vec!["id".to_owned(), "grp".to_owned()],
            kept: kept.to_vec(),
        },
        vec![],
    )
}

fn column(name: &str, ty: ColumnType) -> OutputColumn {
    OutputColumn { name: name.to_owned(), ty }
}

#[test]
fn describe_column_types_align_with_names_and_resolve_types() {
    let project = shape(
        ShapeNode::Project {
            columns: vec![
                column("id", ColumnType::Int),
                column("name", ColumnType::Text),
                column("active", ColumnType::Bool),
                column("ts", ColumnType::Timestamp),
            ],
        },
        vec![scan_of(1, &[])],
    );
    let names = output_columns(&project);
    let types = output_column_types(&project);
    assert_eq!(names, vec!["id", "name", "active", "ts"]);
    assert_eq!(
        types,
        vec![ColumnType::Int, ColumnType::Text, ColumnType::Bool, ColumnType::Timestamp]
    );
    assert_eq!(names.len(), types.len());
}

#[test]
fn appended_columns_are_named_after_their_function() {
    let set = shape(
        ShapeNode::ProjectSet {
            columns: vec![column("key", ColumnType::Text)],
            appended: "value".to_owned(),
            extra: vec![ColumnType::Json],
            ordinality: false,
            series: None,
        },
        vec![],
    );
    let limit = shape(ShapeNode::Limit, vec![set]);
    let with = shape(ShapeNode::With, vec![shape(ShapeNode::Other, vec![]), limit]);
    assert_eq!(output_columns(&with), vec!["key", "value"]);
    assert_eq!(output_column_types(&with), vec![ColumnType::Text, ColumnType::Json]);
    assert!(output_columns(&scan_of(1, &[])).is_empty());
}

#[test]
fn vectorized_routing_uses_plan_time_scan_estimate() {
    let op = shape(ShapeNode::Filter, vec![scan_of(1, &[])]);
    let threshold = 50_000;
    let none: Vec<(u64, u64)> = vec![];
    assert!(!route_select(&op, false, None, &none, threshold));
    assert!(!route_select(&op, false, Some(0), &none, threshold));
    assert!(route_select(&op, false, Some(60_000), &none, threshold));
    assert!(!route_select(&op, false, Some(100), &none, threshold));
    assert!(route_select(&op, true, None, &none, threshold));
    // A join is routed by its largest table.
    let join = shape(ShapeNode::HashJoin, vec![scan_of(1, &[]), scan_of(2, &[])]);
    let counts = vec![(1, 10), (2, 70_000)];
    assert_eq!(join_scan_estimate(&join, &counts), Some(70_000));
    assert!(route_select(&join, false, None, &counts, threshold));
    assert_eq!(join_scan_estimate(&op, &counts), None);
    assert_eq!(join_scan_estimate(&join, &none), None);
}

#[test]
fn a_failed_batch_falls_back_to_rows() {
    assert_eq!(settle_batch(BatchReply::Failed, 0), Ok(None));
    assert_eq!(settle_batch(BatchReply::Declined, 0), Ok(None));
    assert_eq!(settle_batch(BatchReply::Rows(ints(&[1])), 0), Ok(Some(ints(&[1]))));
    assert!(matches!(
        settle_batch(BatchReply::Rows(ints(&[1])), 1),
        Err(Error::OutOfMemory { budget: 1, .. })
    ));
}

#[test]
fn groups_are_estimated_from_statistics() {
    let stats = vec![
        ColumnSummary { column: "id".to_owned(), distinct_count: 100, null_count: 0 },
        ColumnSummary { column: "grp".to_owned(), distinct_count: 7, null_count: 3 },
    ];
    let filtered = shape(ShapeNode::Filter, vec![scan_of(1, &[])]);
    let est = |s: &Shape, keys: &Vec<Option<usize>>| estimated_group_state_bytes(s, keys, Some(&stats));
    assert_eq!(est(&filtered, &vec![Some(1)]), Some(8 * 360));
    assert_eq!(est(&filtered, &vec![Some(0), Some(1)]), Some(800 * 360));
    // A scan that keeps only `grp` has it at ordinal 0.
    assert_eq!(est(&scan_of(1, &[1]), &vec![Some(0)]), Some(8 * 360));
    assert_eq!(est(&scan_of(1, &[1]), &vec![Some(1)]), None);
    assert_eq!(est(&filtered, &vec![None]), None);
    assert_eq!(est(&filtered, &vec![Some(9)]), None);
    let reshaped = shape(ShapeNode::Project { columns: vec![] }, vec![scan_of(1, &[])]);
    assert_eq!(est(&reshaped, &vec![Some(1)]), None);
    assert!(layout_preserved_scan(&reshaped).is_none());
    assert_eq!(estimated_group_state_bytes(&filtered, &vec![Some(1)], None), None);
    let huge = vec![ColumnSummary { column: "id".to_owned(), distinct_count: u64::MAX, null_count: 1 }];
    assert_eq!(estimated_group_state_bytes(&filtered, &vec![Some(0)], Some(&huge)), Some(u64::MAX));
}

#[test]
fn a_literal_series_is_recognized() {
    let series = |args: Vec<Option<i64>>, ordinality: bool, over: ShapeNode| {
        shape(
            ShapeNode::ProjectSet {
                columns: vec![column("generate_series", ColumnType::Int)],
                appended: String::new(),
                extra: vec![],
                ordinality,
                series: Some(args),
            },
            vec![shape(over, vec![])],
        )
    };
    assert_eq!(
        lazy_int_series(&series(vec![Some(1), Some(9)], false, ShapeNode::OneRow)),
        Some(IntSeries { start: 1, stop: 9, step: 1 })
    );
    assert_eq!(
        lazy_int_series(&series(vec![Some(9), Some(1), Some(-2)], false, ShapeNode::OneRow)),
        Some(IntSeries { start: 9, stop: 1, step: -2 })
    );
    for s in [
        series(vec![Some(1), None], false, ShapeNode::OneRow),
        series(vec![Some(1), Some(9), Some(0)], false, ShapeNode::OneRow),
        series(vec![Some(1), Some(9)], true, ShapeNode::OneRow),
        series(vec![Some(1), Some(9)], false, ShapeNode::Other),
        series(vec![Some(1)], false, ShapeNode::OneRow),
    ] {
        assert_eq!(lazy_int_series(&s), None);
    }
}

#[test]
fn a_join_read_row_by_row_gives_the_joined_rows() {
    let left = ints(&[1, 2, 3]);
    let right = ints(&[2, 2, 9]);
    let matches: Vec<Vec<usize>> = vec![vec![], vec![0, 1], vec![]];
    for kind in [JoinKind::Inner, JoinKind::Left, JoinKind::Right, JoinKind::Full] {
        let mut cursor = JoinCursor::open_join(right.clone(), kind, 1, 1);
        let mut out: Vec<Row> = Vec::new();
        let mut probed = 0;
        loop {
            match cursor.try_next() {
                JoinNext::Row(row) => out.push(row),
                JoinNext::NeedsLeft if probed < left.len() => {
                    cursor.probe(&left[probed], &matches[probed]);
                    probed += 1;
                }
                JoinNext::NeedsLeft => cursor.end_left(),
                JoinNext::End => break,
            }
        }
        assert_eq!(out, join_rows(&left, &right, &matches, kind, 1, 1), "{kind:?}");
    }
}

#[test]
fn a_join_built_on_the_left_is_read_from_the_right() {
    let left = ints(&[1, 2]);
    let right = ints(&[2, 1, 2]);
    let matches: Vec<Vec<usize>> = vec![vec![1], vec![0], vec![1, 7]];
    let mut cursor = LeftBuildCursor::open_join(left.clone());
    let mut out: Vec<Row> = Vec::new();
    for (row, ms) in right.iter().zip(&matches) {
        assert_eq!(cursor.try_next(), None);
        cursor.probe(row, ms);
        while let Some(row) = cursor.try_next() {
            out.push(row);
        }
    }
    assert_eq!(out, join_rows_left_build(&left, &right, &matches));
}
