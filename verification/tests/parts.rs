//! The smaller parts that the operators are made of, and the limits they keep.
use nusadb_sql::bind::{bind, bind_vars, select, FromItem, Syntax, SyntaxNode};
use nusadb_sql::catalog::cut_text;
use nusadb_sql::catalog::partition::{from_hex, to_hex};
use nusadb_sql::error::{Error, Stage};
use nusadb_sql::exec::plan::execute_op;
use nusadb_sql::exec::{Answer, Context, Failure, Flow, OpNode, Operator};
use nusadb_sql::info_schema::{constraint_type_name, fk_rule_text, ConstraintKind, FkAction};
use nusadb_sql::memory::{enforce_budget, row_bytes, rows_bytes};
use nusadb_sql::names::NameMap;
use nusadb_sql::operators::{choose_build_side, expand_sets, lateral_step, pair_rows, Expansion, JoinKind};
use nusadb_sql::order::{
    compare_keys, compare_order_key, lex_compare, value_compare, ColumnOrder, NullOrdering, Order, SortKey,
};
use nusadb_sql::recursive::WorkingSets;
use nusadb_sql::row::{
    decode_present_value, encode_one, field_tag, read_bool_field, read_f64_field, read_i64_field,
    read_text_field, runtime_type_of, skip_value, Encoding,
};
use nusadb_sql::script::{run_block, Event, ScriptBlock, ScriptError, ScriptStmt};
use nusadb_sql::series::{generate_series, SetError};
use nusadb_sql::setops::{finish_set_operation, SetOp, SetTree};
use nusadb_sql::sort::{pick_rows, sort_places};
use nusadb_sql::spill::file::{read_bytes, write_bytes};
use nusadb_sql::spill_setop::{all_column_keys, compare_rows, merge_set};
use nusadb_sql::stats::column::{equi_depth_histogram, min_max};
use nusadb_sql::text::to_lower;
use nusadb_sql::types::{ArrayElem, ColumnType};
use nusadb_sql::value::{Interval, Row, Value};
use nusadb_sql::vector::search::{find_tid, rows_equal};
use nusadb_sql::vector::Tid;
use nusadb_sql::window::run::{partition_rows, run_window};
use nusadb_sql::window::{
    assign_ranking, frame_bounds, frame_excludes, group_step, range_boundary, range_key, range_scan,
    FrameBound, RangeOffset, Shifts, WindowExclude, WindowFrame, WindowFunc,
};

const O: ColumnOrder = ColumnOrder;

fn ints(xs: &[i64]) -> Vec<Row> {
    xs.iter().map(|&x| vec![Value::Int(x)]).collect()
}

fn nums(xs: &[i64]) -> Vec<Value> {
    xs.iter().map(|&x| Value::Int(x)).collect()
}

fn text(s: &str) -> Value {
    Value::Text(s.to_owned())
}

fn key(ascending: bool, nulls: NullOrdering) -> SortKey {
    SortKey { ascending, nulls }
}

// ---------------------------------------------------------------- orders

#[test]
fn sort_keys_direct_values_and_nulls() {
    let one = Value::Int(1);
    let two = Value::Int(2);
    let null = Value::Null;
    let asc = key(true, NullOrdering::Default);
    let desc = key(false, NullOrdering::Default);
    assert_eq!(compare_order_key(&O, &one, &two, asc), Order::Less);
    assert_eq!(compare_order_key(&O, &one, &two, desc), Order::Greater);
    // NULL is last ascending and first descending, unless it is said otherwise.
    assert_eq!(compare_order_key(&O, &null, &two, asc), Order::Greater);
    assert_eq!(compare_order_key(&O, &null, &two, desc), Order::Less);
    assert_eq!(compare_order_key(&O, &null, &two, key(true, NullOrdering::First)), Order::Less);
    assert_eq!(compare_order_key(&O, &null, &two, key(false, NullOrdering::Last)), Order::Greater);
    assert_eq!(compare_keys(&O, &nums(&[1, 2]), &nums(&[1, 1]), &vec![asc, desc]), Order::Less);
    assert_eq!(compare_rows(&O, &nums(&[1, 2]), &nums(&[1, 1])), Order::Greater);
    assert_eq!(lex_compare(b"ab", b"abc"), Order::Less);
    assert_eq!(lex_compare(b"b", b"abc"), Order::Greater);
}

#[test]
fn values_of_one_type_are_ordered_throughout() {
    let span = |months: i32, days: i32, micros: i64| Value::Interval(Interval { months, days, micros });
    assert_eq!(value_compare(&Value::TimeTz(1), &Value::TimeTz(2)), Order::Less);
    assert_eq!(value_compare(&Value::TimeTz(2), &Value::TimeTz(2)), Order::Equal);
    // A month counts as thirty days; spans of one length are told apart by their parts.
    assert_eq!(value_compare(&span(1, 0, 0), &span(0, 29, 0)), Order::Greater);
    assert_eq!(value_compare(&span(1, 0, 0), &span(0, 31, 0)), Order::Less);
    assert_ne!(value_compare(&span(1, 0, 0), &span(0, 30, 0)), Order::Equal);
    let array = |xs: &[i64]| Value::Array(nums(xs));
    assert_eq!(value_compare(&array(&[1, 2]), &array(&[1, 3])), Order::Less);
    assert_eq!(value_compare(&array(&[1, 2]), &array(&[1])), Order::Greater);
    assert_eq!(value_compare(&array(&[2]), &array(&[1, 9])), Order::Greater);
    let vector = |xs: &[f32]| Value::Vector(xs.iter().map(|x| x.to_bits()).collect());
    assert_eq!(value_compare(&vector(&[1.0]), &vector(&[1.5])), Order::Less);
    assert_eq!(value_compare(&vector(&[-1.0]), &vector(&[1.0])), Order::Less);
    assert_eq!(value_compare(&vector(&[1.0]), &vector(&[1.0])), Order::Equal);
}

#[test]
fn places_are_sorted_and_picked() {
    let keys = ints(&[3, 1, 2, 1]);
    let asc = vec![key(true, NullOrdering::Default)];
    assert_eq!(sort_places(&O, &keys, &asc), vec![1, 3, 2, 0]);
    assert_eq!(pick_rows(&ints(&[30, 10, 20]), &vec![1, 1, 0]), ints(&[10, 10, 30]));
    let rows = ints(&[30, 10, 20]);
    assert_eq!(finish_set_operation(&O, ints(&[30, 10, 20]), &rows, &asc, Some(2)), ints(&[10, 20]));
    assert_eq!(finish_set_operation(&O, ints(&[30, 10]), &vec![], &vec![], Some(1)), ints(&[30]));
}

#[test]
fn sorted_inputs_are_merged_by_group() {
    let a = ints(&[1, 1, 1, 2]);
    let b = ints(&[1, 1, 3]);
    assert_eq!(merge_set(&O, SetOp::Except, true, &a, &b, 1), ints(&[1, 2]));
    assert_eq!(merge_set(&O, SetOp::Except, false, &a, &b, 1), ints(&[2]));
    assert_eq!(merge_set(&O, SetOp::Intersect, true, &a, &b, 1), ints(&[1, 1]));
    assert_eq!(merge_set(&O, SetOp::Intersect, false, &a, &b, 1), ints(&[1]));
    assert_eq!(merge_set(&O, SetOp::Union, false, &a, &b, 1), ints(&[1, 2, 3]));
    assert_eq!(merge_set(&O, SetOp::Union, true, &a, &b, 1).len(), 7);
    assert_eq!(all_column_keys(2).len(), 2);
}

#[test]
fn least_and_greatest_values_bound_a_histogram() {
    let values = nums(&[3, 1, 2, 1, 3]);
    assert_eq!(min_max(&values), Some((1, 0)));
    assert_eq!(min_max(&vec![]), None);
    let places = equi_depth_histogram(&values);
    assert_eq!(values[places[0]], Value::Int(1));
    assert_eq!(values[places[places.len() - 1]], Value::Int(3));
}

// ---------------------------------------------------------------- windows

#[test]
fn ranks_count_rows_and_groups() {
    let keys = ints(&[10, 20, 20, 30]);
    assert_eq!(assign_ranking(&O, &keys, WindowFunc::RowNumber), nums(&[1, 2, 3, 4]));
    assert_eq!(assign_ranking(&O, &keys, WindowFunc::Rank), nums(&[1, 2, 2, 4]));
    assert_eq!(assign_ranking(&O, &keys, WindowFunc::DenseRank), nums(&[1, 2, 2, 3]));
}

#[test]
fn partitions_hold_the_rows_of_a_group() {
    let keys = vec![vec![text("a")], vec![Value::Null], vec![text("a")], vec![Value::Null]];
    assert_eq!(partition_rows(&O, &keys), vec![vec![0, 2], vec![1, 3]]);
    let columns = vec![nums(&[7, 8])];
    assert_eq!(run_window(ints(&[1, 2]), &columns), vec![nums(&[1, 7]), nums(&[2, 8])]);
}

#[test]
fn bounds_step_by_groups_and_ranges() {
    let keys = ints(&[1, 2, 2, 4]);
    assert_eq!(group_step(&O, &keys, 3, 3, 1, false, true), 1);
    assert_eq!(group_step(&O, &keys, 3, 3, 1, false, false), 2);
    assert_eq!(group_step(&O, &keys, 0, 0, 9, true, false), 3);
    assert_eq!(range_key(&Value::Int(5)), Some(5));
    assert_eq!(range_key(&text("5")), None);
    assert_eq!(range_boundary(5, RangeOffset::Int(2), true, true, None), Some(3));
    assert_eq!(range_boundary(5, RangeOffset::Int(2), true, false, None), Some(7));
    assert_eq!(range_boundary(5, RangeOffset::Unsupported, true, true, None), None);
    assert_eq!(range_scan(&keys, 2, true, true), 1);
    assert_eq!(range_scan(&keys, 3, false, true), 2);
    assert_eq!(range_scan(&keys, 0, false, true), -1);
    assert!(frame_excludes(WindowExclude::Ties, 1, 2, 1, 2));
    assert!(!frame_excludes(WindowExclude::Ties, 2, 2, 1, 2));
    let after = WindowFrame {
        start: FrameBound::Following(1),
        end: FrameBound::UnboundedFollowing,
        peer_based: false,
        range_descending: false,
        exclude: WindowExclude::NoOthers,
    };
    let still = Shifts { start: None, end: None };
    assert_eq!(frame_bounds(&O, &after, 2, &keys, still), Some((3, 3)));
    assert_eq!(frame_bounds(&O, &after, 3, &keys, still), None);
    // An offset beyond the last row ends at the last row.
    let far = WindowFrame {
        start: FrameBound::UnboundedPreceding,
        end: FrameBound::Following(i64::MAX as u64),
        peer_based: false,
        range_descending: false,
        exclude: WindowExclude::NoOthers,
    };
    assert_eq!(frame_bounds(&O, &far, 1, &ints(&[1, 2]), still), Some((0, 1)));
}

// ---------------------------------------------------------------- stored fields

#[test]
fn fields_are_read_and_skipped() {
    let value = Value::Int(-2);
    let Ok(Encoding::Complete(bytes)) = encode_one(&value, ColumnType::BigInt, &vec![], 0) else {
        panic!("an integer needs no conversion");
    };
    assert_eq!(field_tag(&bytes, 0), Ok((true, 1)));
    let (read, end) = read_i64_field(&bytes, 1).unwrap();
    assert_eq!((read, end), (-2, bytes.len()));
    assert_eq!(skip_value(&bytes, 1, ColumnType::BigInt), Ok(end));
    assert_eq!(decode_present_value(&bytes, 1, ColumnType::BigInt), Ok((value, end)));
    let short = &bytes[..end - 1];
    assert!(matches!(read_i64_field(short, 1), Err(Error::MalformedTuple { .. })));
    assert_eq!(skip_value(short, 1, ColumnType::BigInt), read_i64_field(short, 1).map(|r| r.1));
    assert_eq!(field_tag(&[9], 0), Err(Error::MalformedTuple { offset: 0 }));
    assert_eq!(read_bool_field(&[1], 0), Ok((true, 1)));
    assert_eq!(read_f64_field(&1.5f64.to_le_bytes(), 0), Ok((1.5f64.to_bits(), 8)));
    assert_eq!(read_text_field(&[2, 0, 0, 0, b'h', b'i'], 0), Ok(("hi".to_owned(), 6)));
    assert_eq!(
        runtime_type_of(&Value::Array(nums(&[1]))),
        ColumnType::Array(ArrayElem::Int)
    );
}

#[test]
fn records_are_read_back() {
    let mut run: Vec<u8> = Vec::new();
    assert_eq!(write_bytes(&mut run, b"one"), Ok(()));
    assert_eq!(write_bytes(&mut run, b""), Ok(()));
    assert_eq!(run[..4], [3, 0, 0, 0]);
    assert_eq!(read_bytes(&run, 0), Ok(Some((b"one".to_vec(), 7))));
    assert_eq!(read_bytes(&run, 7), Ok(Some((vec![], 11))));
    assert_eq!(read_bytes(&run, 11), Ok(None));
    assert_eq!(read_bytes(&run[..6], 0), Err(Error::TruncatedRecord));
}

// ---------------------------------------------------------------- joins and sets

#[test]
fn a_left_row_is_kept_without_a_partner() {
    let left: Row = nums(&[1]);
    let pairs = pair_rows(&left, &ints(&[8, 9]));
    assert_eq!(pairs, vec![nums(&[1, 8]), nums(&[1, 9])]);
    let verdicts = vec![Value::Bool(false), Value::Bool(true)];
    assert_eq!(lateral_step(&pairs, &verdicts, &left, JoinKind::Left, 1), vec![nums(&[1, 9])]);
    let none = vec![Value::Null, Value::Bool(false)];
    assert_eq!(lateral_step(&pairs, &none, &left, JoinKind::Left, 1), vec![vec![
        Value::Int(1),
        Value::Null
    ]]);
    assert!(lateral_step(&pairs, &none, &left, JoinKind::Inner, 1).is_empty());
    assert!(choose_build_side(JoinKind::Inner, false, 2, 8));
    assert!(!choose_build_side(JoinKind::Inner, false, 3, 8));
    assert!(!choose_build_side(JoinKind::Inner, true, 2, 8));
    assert!(!choose_build_side(JoinKind::Left, false, 2, 8));
}

#[test]
fn sets_are_expanded_beside_the_other_columns() {
    let sets = vec![
        Expansion {
            scalars: vec![text("a"), Value::Null],
            pos: 1,
            elements: nums(&[5, 6]),
            extra: vec![nums(&[50])],
        },
        Expansion { scalars: vec![text("b"), Value::Null], pos: 1, elements: vec![], extra: vec![vec![]] },
    ];
    assert_eq!(expand_sets(&sets, true), vec![
        vec![text("a"), Value::Int(5), Value::Int(50), Value::Int(1)],
        vec![text("a"), Value::Int(6), Value::Null, Value::Int(2)],
    ]);
}

// ---------------------------------------------------------------- names and texts

#[test]
fn binding_without_variables_or_twice_changes_nothing() {
    let stmt = || {
        select(
            vec![],
            vec![FromItem { table: Some("t".to_owned()), parts: vec![], on: None }],
            vec![
                Syntax { node: SyntaxNode::Column("n".to_owned()), parts: vec![] },
                Syntax { node: SyntaxNode::Column("id".to_owned()), parts: vec![] },
            ],
        )
    };
    let mut schemas: NameMap<Vec<String>> = NameMap::new();
    schemas.insert("t".to_owned(), vec!["id".to_owned()]);
    let none: NameMap<Value> = NameMap::new();
    assert_eq!(bind(&stmt(), &none, &schemas), stmt());
    let mut env: NameMap<Value> = NameMap::new();
    env.insert("n".to_owned(), Value::Int(1));
    env.insert("id".to_owned(), Value::Int(2));
    let once = bind(&stmt(), &env, &schemas);
    assert_ne!(once, stmt());
    assert_eq!(bind(&once, &env, &schemas), once);
    let name = Syntax { node: SyntaxNode::Column("n".to_owned()), parts: vec![] };
    assert_eq!(bind_vars(&name, &env, &schemas, &vec!["n".to_owned()]), name);
}

#[test]
fn texts_are_cut_folded_and_spelled() {
    assert_eq!(cut_text("a|b|c", '|'), Some(("a".to_owned(), "b|c".to_owned())));
    assert_eq!(cut_text("abc", '|'), None);
    assert_eq!(to_lower("AbÇ"), "abÇ");
    assert_eq!(to_hex(&[0, 0xab, 0x0f]), "00ab0f");
    assert_eq!(from_hex("00AB0f"), Some(vec![0, 0xab, 0x0f]));
    assert_eq!(from_hex("0"), None);
    assert_eq!(from_hex("zz"), None);
    assert_eq!(constraint_type_name(ConstraintKind::ForeignKey), "FOREIGN KEY");
    assert_eq!(fk_rule_text(FkAction::SetDefault), "SET DEFAULT");
}

#[test]
fn addresses_and_rows_are_compared() {
    let tids = vec![Tid { page: 1, slot: 0 }, Tid { page: 1, slot: 2 }];
    assert_eq!(find_tid(&tids, Tid { page: 1, slot: 2 }), Some(1));
    assert_eq!(find_tid(&tids, Tid { page: 2, slot: 0 }), None);
    assert!(rows_equal(&nums(&[1, 2]), &nums(&[1, 2])));
    assert!(!rows_equal(&nums(&[1, 2]), &nums(&[1])));
}

// ---------------------------------------------------------------- limits

#[test]
fn rows_are_held_to_a_budget() {
    let rows = ints(&[1, 2]);
    assert_eq!(rows_bytes(&rows), 2 * row_bytes(&rows[0]));
    assert_eq!(enforce_budget(0, 99, Stage::TopN), Ok(()));
    assert_eq!(enforce_budget(99, 99, Stage::TopN), Ok(()));
    assert_eq!(
        enforce_budget(98, 99, Stage::TopN),
        Err(Error::OutOfMemory { budget: 98, used: 99, stage: Stage::TopN })
    );
}

#[test]
fn a_series_has_a_greatest_length() {
    assert_eq!(generate_series(1, i64::MAX, 1), Err(SetError::SeriesLimit));
}

#[test]
fn loops_of_a_script_have_a_greatest_length() {
    let endless = ScriptBlock {
        body: vec![ScriptStmt::While { cond: 0, body: vec![] }],
        handler: None,
    };
    let events: Vec<Event> = (0..1_000_001).map(|_| Event::Value(Value::Bool(true))).collect();
    assert_eq!(run_block(&endless, 0, &events).0, Err(ScriptError::WhileLimit));
    let long = ScriptBlock {
        body: vec![ScriptStmt::For { var: "i".to_owned(), low: 0, high: 1, body: vec![] }],
        handler: None,
    };
    let events = vec![Event::Value(Value::Int(0)), Event::Value(Value::Int(i64::MAX))];
    assert_eq!(run_block(&long, 0, &events).0, Err(ScriptError::ForLimit));
}

// ---------------------------------------------------------------- answers that do not fit

fn failure(op: &Operator, spill: Option<usize>, answers: Vec<Answer>) -> Option<Failure> {
    let cx = Context { budget: 0, spill, outer: vec![], bound: WorkingSets::new(), hidden: vec![], beam: None };
    match execute_op(&O, op, &cx, &answers) {
        Flow::Rows { failed, .. } => failed,
        Flow::Failed { failure, .. } => Some(failure),
        Flow::Needs(_) => None,
    }
}

#[test]
fn answers_that_do_not_fit_are_refused() {
    let source = |id| Operator { id, node: OpNode::Source, children: vec![] };
    let filter = Operator { id: 1, node: OpNode::Filter, children: vec![source(2)] };
    let rows = |xs: &[i64]| Answer::Rows { rows: ints(xs), failed: false };
    assert_eq!(
        failure(&filter, None, vec![rows(&[1]), rows(&[1])]),
        Some(Failure::BadAnswer)
    );
    let two = vec![Value::Bool(true), Value::Bool(true)];
    assert_eq!(
        failure(&filter, None, vec![rows(&[1]), Answer::Values(two)]),
        Some(Failure::BadAnswer)
    );
    assert_eq!(
        failure(&filter, None, vec![rows(&[1]), Answer::Values(vec![])]),
        Some(Failure::Outside)
    );
    assert_eq!(failure(&filter, None, vec![Answer::Failed]), Some(Failure::Outside));
    let set = Operator {
        id: 1,
        node: OpNode::SetOperation {
            tree: SetTree::Node {
                op: SetOp::Union,
                all: false,
                left: Box::new(SetTree::Leaf(0)),
                right: Box::new(SetTree::Leaf(1)),
            },
            keys: vec![],
            limit: None,
            width: 2,
        },
        children: vec![source(2), source(3)],
    };
    assert_eq!(failure(&set, Some(1), vec![rows(&[1]), rows(&[2])]), Some(Failure::BadRow));
}
