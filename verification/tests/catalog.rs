//! The system catalogs.
use nusadb_sql::catalog::partition::{
    accepts, decode_payload, encode_payload, parent_key_column, parent_row, parent_strategy,
    partition_bound, partition_parent, partition_row, partitions_of, remove_for, value_hash, Hashed,
    PartitionBound, PartitionStrategy, Payload, Routing,
};
use nusadb_sql::catalog::procedure::{
    call_result, check_call, check_create, check_drop, find_procedure, procedure_row, CallDepth,
    CallResult, Procedure, MAX_CALL_DEPTH,
};
use nusadb_sql::catalog::sequences::{apply_change, list, read_sequence, sequence_row, SequenceChange, SequenceDef};
use nusadb_sql::catalog::{find_named, join_texts, split_text};
use nusadb_sql::error::Error;
use nusadb_sql::names::NameMap;
use nusadb_sql::numbers::{parse_i64, parse_u64, print_i64, print_u64};
use nusadb_sql::order::ColumnOrder;
use nusadb_sql::types::ColumnType;
use nusadb_sql::value::{Row, Value};

fn text(s: &str) -> Value {
    Value::Text(s.to_owned())
}

// ---------------------------------------------------------------- texts

#[test]
fn numbers_are_read_back() {
    for n in [0, 7, 10, 4_096, i64::MAX, i64::MIN, -1] {
        assert_eq!(print_i64(n), n.to_string());
        assert_eq!(parse_i64(&print_i64(n)), Some(n));
    }
    assert_eq!(print_u64(u64::MAX), "18446744073709551615");
    assert_eq!(parse_u64("18446744073709551616"), None);
    for s in ["", "-", "+", "1x", " 1", "--1"] {
        assert_eq!(parse_i64(s), None, "{s:?}");
        assert!(s.parse::<i64>().is_err());
    }
    assert_eq!(parse_i64("+5"), Some(5));
    assert_eq!(parse_u64("-5"), None);
}

#[test]
fn lists_are_divided_where_they_were_joined() {
    let parts = vec!["a".to_owned(), String::new(), "bc".to_owned()];
    let joined = join_texts(&parts, ',');
    assert_eq!(joined, "a,,bc");
    assert_eq!(split_text(&joined, ','), parts);
    assert_eq!(split_text("", ','), vec![String::new()]);
}

// ---------------------------------------------------------------- partitions

fn payload(bound: &PartitionBound, ty: ColumnType) -> (PartitionStrategy, String) {
    match encode_payload(bound, ty, &Vec::new()) {
        Ok((kind, Payload::Complete(s))) => (kind, s),
        other => panic!("{other:?}"),
    }
}

fn word(kind: PartitionStrategy) -> &'static str {
    nusadb_sql::catalog::partition::strategy_str(kind)
}

#[test]
fn bounds_are_read_back_from_their_payloads() {
    for bound in [
        PartitionBound::Range { lo: Value::Int(10), hi: Value::Int(20) },
        PartitionBound::List(vec![Value::Int(1), Value::Null, Value::Int(-5)]),
        PartitionBound::Hash { modulus: 4, remainder: 3 },
    ] {
        let (kind, s) = payload(&bound, ColumnType::Int);
        assert_eq!(decode_payload(word(kind), &s, ColumnType::Int), Ok(bound));
    }
}

#[test]
fn payloads_have_their_documented_form() {
    let hash = PartitionBound::Hash { modulus: 4, remainder: 3 };
    assert_eq!(payload(&hash, ColumnType::Int), (PartitionStrategy::Hash, "4|3".to_owned()));
    let range = PartitionBound::Range { lo: Value::Bool(false), hi: Value::Bool(true) };
    assert_eq!(
        payload(&range, ColumnType::Bool),
        (PartitionStrategy::Range, "0100|0101".to_owned())
    );
    assert_eq!(
        decode_payload("range", "01FF|01", ColumnType::Bool),
        Err(Error::MalformedTuple { offset: 1 })
    );
}

#[test]
fn malformed_payloads_are_refused() {
    for (kind, s) in [
        ("range", "0100"),
        ("range", "01zz|0101"),
        ("list", ""),
        ("hash", "4"),
        ("hash", "four|3"),
        ("other", "4|3"),
    ] {
        assert!(
            matches!(
                decode_payload(kind, s, ColumnType::Bool),
                Err(Error::MalformedTuple { offset: 0 })
            ),
            "{kind} {s}"
        );
    }
}

fn routed(key: &Value, bound: &PartitionBound) -> bool {
    match accepts(&ColumnOrder, key, bound, ColumnType::Int, &Vec::new()) {
        Routing::Decided(b) => b,
        other => panic!("{other:?}"),
    }
}

#[test]
fn keys_are_routed_by_range_list_and_hash() {
    let range = PartitionBound::Range { lo: Value::Int(10), hi: Value::Int(20) };
    assert!(!routed(&Value::Int(9), &range));
    assert!(routed(&Value::Int(10), &range));
    assert!(routed(&Value::Int(19), &range));
    assert!(!routed(&Value::Int(20), &range));
    assert!(!routed(&Value::Null, &range));
    let list = PartitionBound::List(vec![Value::Int(1), Value::Null]);
    assert!(routed(&Value::Int(1), &list));
    assert!(routed(&Value::Null, &list));
    assert!(!routed(&Value::Int(2), &list));
    let owners = (0..4)
        .filter(|&remainder| {
            routed(&Value::Int(77), &PartitionBound::Hash { modulus: 4, remainder })
        })
        .count();
    assert_eq!(owners, 1);
    assert!(!routed(&Value::Null, &PartitionBound::Hash { modulus: 1, remainder: 0 }));
    assert!(!routed(&Value::Int(1), &PartitionBound::Hash { modulus: 0, remainder: 0 }));
}

#[test]
fn a_key_hashes_as_its_tuple() {
    let bytes = [1u8, 5, 0, 0, 0, 0, 0, 0, 0];
    assert_eq!(
        value_hash(&Value::Int(5), ColumnType::Int, &Vec::new()),
        Hashed::Complete(nusadb_sql::rng::fnv1a(&bytes))
    );
    // A key that cannot be stored hashes like no bytes.
    assert_eq!(
        value_hash(&text("x"), ColumnType::Bool, &Vec::new()),
        Hashed::Complete(0xcbf2_9ce4_8422_2325)
    );
}

#[test]
fn the_partition_catalog_is_looked_up() {
    let bound = PartitionBound::Hash { modulus: 2, remainder: 1 };
    let (kind, s) = payload(&bound, ColumnType::Int);
    let rows: Vec<Row> = vec![
        parent_row("m", "k", PartitionStrategy::Hash),
        partition_row("p1", "m", kind, &s),
        parent_row("other", "j", PartitionStrategy::List),
    ];
    assert_eq!(parent_key_column(&rows, "m"), Some("k".to_owned()));
    assert_eq!(parent_strategy(&rows, "m"), Some("hash".to_owned()));
    assert_eq!(parent_key_column(&rows, "p1"), None);
    assert_eq!(partition_parent(&rows, "p1"), Some("m".to_owned()));
    assert_eq!(partition_parent(&rows, "m"), None);
    let (parent, found) = partition_bound(&rows, "p1", ColumnType::Int).unwrap().unwrap();
    assert_eq!(parent, "m");
    assert_eq!(found, bound);
    let entries = partitions_of(&rows, "m", ColumnType::Int).unwrap();
    assert_eq!(entries.len(), 1);
    assert_eq!(entries[0].table, "p1");
    assert_eq!(remove_for(&rows, "m"), vec![0, 1]);
    assert_eq!(remove_for(&rows, "p1"), vec![1]);
}

// ---------------------------------------------------------------- procedures

fn procedure(count: usize, outs: &[&str]) -> Procedure {
    Procedure {
        param_count: count,
        out_params: outs.iter().map(|s| (*s).to_owned()).collect(),
        body: "SELECT 1".to_owned(),
    }
}

#[test]
fn procedures_are_recorded_found_and_dropped() {
    let rows = vec![procedure_row("p", &procedure(2, &["a", "b"])), procedure_row("q", &procedure(0, &[]))];
    assert_eq!(rows[0], vec![text("p"), text("2"), text("a,b"), text("SELECT 1")]);
    assert_eq!(find_procedure(&rows, "p"), Some(procedure(2, &["a", "b"])));
    assert_eq!(find_procedure(&rows, "q"), Some(procedure(0, &[])));
    assert_eq!(find_procedure(&rows, "r"), None);
    assert_eq!(check_create(&rows, "p", false), Err(Error::ProcedureExists("p".to_owned())));
    assert_eq!(check_create(&rows, "p", true), Ok(vec![0]));
    assert_eq!(check_create(&rows, "r", false), Ok(vec![]));
    assert_eq!(check_drop(&rows, "q", false), Ok(vec![1]));
    assert_eq!(check_drop(&rows, "r", true), Ok(vec![]));
    assert_eq!(check_drop(&rows, "r", false), Err(Error::ProcedureNotFound("r".to_owned())));
}

#[test]
fn calls_are_checked() {
    let rows = vec![procedure_row("p", &procedure(2, &[]))];
    assert_eq!(check_call(&rows, "p", 2), Ok(procedure(2, &[])));
    assert_eq!(
        check_call(&rows, "p", 1),
        Err(Error::ProcedureArgCount { name: "p".to_owned(), expected: 2, found: 1 })
    );
    assert_eq!(check_call(&rows, "q", 0), Err(Error::ProcedureNotFound("q".to_owned())));
}

#[test]
fn a_call_gives_its_out_parameters() {
    let mut env: NameMap<Value> = NameMap::new();
    env.insert("a".to_owned(), Value::Int(7));
    assert_eq!(call_result(vec![], &env), CallResult::Called);
    assert_eq!(
        call_result(vec!["a".to_owned(), "b".to_owned()], &env),
        CallResult::Rows {
            columns: vec!["a".to_owned(), "b".to_owned()],
            row: vec![Value::Int(7), Value::Null],
        }
    );
}

#[test]
fn calls_nest_only_so_deep() {
    let mut depth = CallDepth::new();
    for _ in 0..MAX_CALL_DEPTH {
        assert_eq!(depth.enter(), Ok(()));
    }
    assert_eq!(depth.enter(), Err(Error::ProcedureRecursionLimit { limit: 64 }));
    depth.leave();
    assert_eq!(depth.enter(), Ok(()));
}

// ---------------------------------------------------------------- sequences

fn sequence(name: &str) -> SequenceDef {
    SequenceDef {
        name: name.to_owned(),
        start: -3,
        increment: 2,
        min_value: i64::MIN,
        max_value: i64::MAX,
        cycle: true,
    }
}

#[test]
fn sequences_are_read_back() {
    let row = sequence_row(&sequence("s"));
    assert_eq!(row[1], text("-3"));
    assert_eq!(row[5], text("true"));
    assert_eq!(read_sequence(&row), sequence("s"));
    assert_eq!(list(&vec![row]), vec![sequence("s")]);
}

#[test]
fn fields_that_spell_nothing_have_defaults() {
    let d = read_sequence(&vec![text("s"), text("x"), Value::Null]);
    assert_eq!(
        d,
        SequenceDef {
            name: "s".to_owned(),
            start: 1,
            increment: 1,
            min_value: 1,
            max_value: i64::MAX,
            cycle: false,
        }
    );
}

#[test]
fn a_change_sets_what_it_gives() {
    let rows = vec![sequence_row(&sequence("s"))];
    let change = SequenceChange {
        start: None,
        increment: Some(5),
        min_value: None,
        max_value: Some(9),
        cycle: Some(false),
    };
    let d = apply_change(&rows, "s", &change).unwrap();
    assert_eq!((d.start, d.increment, d.min_value, d.max_value, d.cycle), (-3, 5, i64::MIN, 9, false));
    assert_eq!(apply_change(&rows, "t", &change), None);
    assert_eq!(find_named(&rows, "s"), vec![0]);
    assert_eq!(find_named(&rows, "t"), Vec::<usize>::new());
}
