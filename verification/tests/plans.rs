//! Plans, executed and read as streams over tables held here.
use std::collections::HashMap;

use nusadb_sql::exec::plan::{execute_op, stream_op};
use nusadb_sql::exec::pull::{open_pipe, PipeStage, Step};
use nusadb_sql::exec::{
    Answer, Ask, Context, Failure, Flow, IntSeries, LockReply, OnceCte, OpNode, Operator, RecursiveCte,
    Request, SetInput, TiesLimit,
};
use nusadb_sql::error::Stage;
use nusadb_sql::operators::{join_rows, JoinKind};
use nusadb_sql::order::{ColumnOrder, NullOrdering, SortKey};
use nusadb_sql::recursive::WorkingSets;
use nusadb_sql::row::{encode, runtime_type_of, Encoding};
use nusadb_sql::scan::Tuple;
use nusadb_sql::series::{SetError, SetFunc, SetTask};
use nusadb_sql::setops::{SetOp, SetTree};
use nusadb_sql::shape::{ColumnSummary, Shape, ShapeNode};
use nusadb_sql::types::ColumnType;
use nusadb_sql::value::{Interval, Row, Value};
use nusadb_sql::vector::search::{KnnAnswer, KnnAsk, KnnStep};
use nusadb_sql::window::run::{compute_window, Window, WindowCell};
use nusadb_sql::window::{FrameBound, Shifts, WindowExclude, WindowFrame, WindowFunc};

fn num(i: i64) -> Value {
    Value::Int(i)
}

fn text(s: &str) -> Value {
    Value::Text(s.to_owned())
}

fn ints(xs: &[i64]) -> Vec<Row> {
    xs.iter().map(|&x| vec![num(x)]).collect()
}

/// What an operator evaluates.
enum Does {
    Nothing,
    Rows(Vec<Row>),
    /// The rows of a table that is searched by its vectors.
    Near(Vec<Row>),
    Test(Box<dyn Fn(&Row, &[Row]) -> Value>),
    Each(Box<dyn Fn(&Row) -> Row>),
    /// The other columns of a set-returning projection, and the arguments of its function.
    Sets(Box<dyn Fn(&Row) -> (Row, Vec<Value>)>),
    Fold(Box<dyn Fn(&[Row]) -> Vec<Row>>),
    Pair(Box<dyn Fn(&Row, &Row) -> bool>, Box<dyn Fn(&Row) -> Row>),
    /// The partition, the order and the arguments of each window function.
    Windows(Vec<Box<dyn Fn(&Row) -> (Vec<Value>, Vec<Value>, Vec<Value>)>>),
}

/// The tables, and what the operators of a plan evaluate.
struct World {
    tables: HashMap<u64, Vec<Row>>,
    table_of: HashMap<u64, u64>,
    does: HashMap<u64, Does>,
    kinds: HashMap<u64, (JoinKind, usize, usize)>,
    locked: Vec<u64>,
    next: u64,
}

impl World {
    fn new() -> World {
        World {
            tables: HashMap::new(),
            table_of: HashMap::new(),
            does: HashMap::new(),
            kinds: HashMap::new(),
            locked: Vec::new(),
            next: 0,
        }
    }

    fn table(&mut self, id: u64, rows: Vec<Row>) {
        self.tables.insert(id, rows);
    }

    fn op(&mut self, node: OpNode, does: Does, children: Vec<Operator>) -> Operator {
        self.next += 1;
        self.does.insert(self.next, does);
        Operator { id: self.next, node, children }
    }

    fn scan(&mut self, table: u64) -> Operator {
        self.narrow_scan(table, vec![])
    }

    fn narrow_scan(&mut self, table: u64, keep: Vec<usize>) -> Operator {
        let schema = self.schema(table);
        let op = self.op(OpNode::Scan { table, schema, keep }, Does::Nothing, vec![]);
        self.table_of.insert(op.id, table);
        op
    }

    fn filter(&mut self, child: Operator, test: impl Fn(&Row) -> Value + 'static) -> Operator {
        self.op(OpNode::Filter, Does::Test(Box::new(move |r, _| test(r))), vec![child])
    }

    fn project(&mut self, child: Operator, map: impl Fn(&Row) -> Row + 'static) -> Operator {
        self.op(OpNode::Project { sequence_calls: false }, Does::Each(Box::new(map)), vec![child])
    }

    fn columns(&mut self, child: Operator, columns: &[usize]) -> Operator {
        let columns: Vec<usize> = columns.to_vec();
        self.project(child, move |r| columns.iter().map(|&c| r[c].clone()).collect())
    }

    fn sort(&mut self, child: Operator, keys: Vec<(usize, SortKey)>, top_n: Option<u64>) -> Operator {
        let directions: Vec<SortKey> = keys.iter().map(|k| k.1).collect();
        self.op(
            OpNode::Sort { keys: directions, has_subquery: false, ties: None, top_n },
            Does::Each(Box::new(move |r| keys.iter().map(|k| r[k.0].clone()).collect())),
            vec![child],
        )
    }

    fn limit(&mut self, child: Operator, count: u64, offset: u64) -> Operator {
        self.op(OpNode::Limit { count, offset }, Does::Nothing, vec![child])
    }

    fn hash_join(
        &mut self,
        left: Operator,
        right: Operator,
        kind: JoinKind,
        widths: (usize, usize),
        on: impl Fn(&Row, &Row) -> bool + 'static,
    ) -> Operator {
        let op = self.op(
            OpNode::HashJoin {
                kind,
                left_width: widths.0,
                right_width: widths.1,
                merges: false,
                one_table: false,
            },
            Does::Pair(Box::new(on), Box::new(|r| r.clone())),
            vec![left, right],
        );
        self.kinds.insert(op.id, (kind, widths.0, widths.1));
        op
    }

    /// The types of a table's columns, as far as its rows tell.
    fn schema(&self, table: u64) -> Vec<ColumnType> {
        let Some(rows) = self.tables.get(&table) else {
            return vec![];
        };
        let width = rows.first().map_or(0, |r| r.len());
        (0..width)
            .map(|c| {
                rows.iter()
                    .map(|r| &r[c])
                    .find(|v| **v != Value::Null)
                    .map_or(ColumnType::Int, |v| runtime_type_of(v))
            })
            .collect()
    }

    /// The stored tuples of the table that an operator reads.
    fn tuples_of(&self, id: u64) -> Vec<Tuple> {
        let table = self.table_of[&id];
        let schema = self.schema(table);
        self.tables[&table]
            .iter()
            .enumerate()
            .map(|(i, row)| match encode(row, &schema, &vec![]) {
                Ok(Encoding::Complete(bytes)) => Tuple { tid: i as u64, bytes },
                other => panic!("{other:?}"),
            })
            .collect()
    }

    fn answer(&self, request: &Request) -> Answer {
        let done = |rows: Vec<Row>| Answer::Rows { rows, failed: false };
        match (&request.ask, &self.does[&request.id]) {
            (Ask::Scan, _) => Answer::Tuples { tuples: self.tuples_of(request.id), failed: false },
            (Ask::Source | Ask::Modify, Does::Rows(rows)) => done(clone_rows(rows)),
            (Ask::Query, Does::Near(_)) => Answer::Values(vec![Value::Vector(vec![0])]),
            (Ask::Search(step), Does::Near(rows)) => Answer::Knn(match step {
                KnnStep::Ask(KnnAsk::Index) => KnnAnswer::Index(None),
                KnnStep::Ask(KnnAsk::Exact) => KnnAnswer::Rows(clone_rows(rows)),
                // The vectors are numbers from zero on, and zero is the query.
                KnnStep::Score(vectors) => KnnAnswer::Distances(
                    vectors
                        .iter()
                        .map(|v| v.as_ref().map(|x| f64::from(f32::from_bits(x[0])).to_bits()))
                        .collect(),
                ),
                other => panic!("{other:?}"),
            }),
            (Ask::Stats(_), _) => Answer::Stats(None),
            (Ask::LeftBuild, _) => Answer::Flag(false),
            (Ask::GraceBuild, _) => Answer::Flag(true),
            (Ask::Lock(t), _) => Answer::Lock(if self.locked.contains(t) {
                LockReply::Conflict
            } else {
                LockReply::Taken
            }),
            (Ask::Verdicts(rows), Does::Test(f)) => {
                Answer::Values(rows.iter().map(|r| f(r, &request.outer)).collect())
            }
            (Ask::Keys(rows), Does::Each(f)) => done(rows.iter().map(|r| f(r)).collect()),
            (Ask::Project { rows, .. }, Does::Each(f)) => done(rows.iter().map(|r| f(r)).collect()),
            (Ask::SetInput(rows), Does::Sets(f)) => Answer::SetInputs(
                rows.iter()
                    .map(|r| {
                        let (scalars, args) = f(r);
                        SetInput { scalars, args }
                    })
                    .collect(),
            ),
            (Ask::SetTask(task), _) => find(task),
            (Ask::Fold { rows, .. }, Does::Fold(f)) => done(f(rows)),
            (Ask::Keys(rows), Does::Windows(fs)) => done(rows.iter().map(|r| fs[0](r).1).collect()),
            (Ask::WindowInput { window, rows }, Does::Windows(fs)) => Answer::Window {
                partition: rows.iter().map(|r| fs[*window](r).0).collect(),
                order: rows.iter().map(|r| fs[*window](r).1).collect(),
                args: rows.iter().map(|r| fs[*window](r).2).collect(),
                shifts: vec![Shifts { start: None, end: None }; rows.len()],
            },
            // The sum of the first column over each frame.
            (Ask::WindowFolds { rows, frames, .. }, _) => Answer::Values(
                frames
                    .iter()
                    .map(|f| num(f.iter().map(|&p| number(&rows[p][0])).sum()))
                    .collect(),
            ),
            (Ask::Shares(shares), _) => Answer::Values(
                shares
                    .iter()
                    .map(|&(n, d)| Value::Float((n as f64 / d as f64).to_bits()))
                    .collect(),
            ),
            (Ask::Match { left, right }, Does::Pair(on, _)) => Answer::Matches(
                left.iter()
                    .map(|l| (0..right.len()).filter(|&j| on(l, &right[j])).collect())
                    .collect(),
            ),
            (Ask::MatchLeft { left, right }, Does::Pair(on, _)) => Answer::Matches(
                right
                    .iter()
                    .map(|r| (0..left.len()).filter(|&i| on(&left[i], r)).collect())
                    .collect(),
            ),
            (Ask::Merge(rows), Does::Pair(_, merge)) => done(rows.iter().map(|r| merge(r)).collect()),
            (Ask::Join { left, right }, Does::Pair(on, _)) => {
                let matches: Vec<Vec<usize>> = left
                    .iter()
                    .map(|l| (0..right.len()).filter(|&j| on(l, &right[j])).collect())
                    .collect();
                let (kind, lw, rw) =
                    self.kinds.get(&request.id).copied().unwrap_or((JoinKind::Inner, 0, 0));
                done(join_rows(left, right, &matches, kind, lw, rw))
            }
            _ => Answer::Failed,
        }
    }

    fn drive(&self, op: &Operator, cx: &Context, lazy: bool) -> Result<Vec<Row>, Failure> {
        let mut answers: Vec<Answer> = Vec::new();
        loop {
            let flow = if lazy {
                stream_op(&ColumnOrder, op, cx, &answers)
            } else {
                execute_op(&ColumnOrder, op, cx, &answers)
            };
            match flow {
                Flow::Needs(request) => answers.push(self.answer(&request)),
                Flow::Rows { rows, failed: None, .. } => return Ok(rows),
                Flow::Rows { failed: Some(f), .. } | Flow::Failed { failure: f, .. } => return Err(f),
            }
        }
    }

    fn run(&self, op: &Operator) -> Vec<Row> {
        match self.drive(op, &context(0, None), false) {
            Ok(rows) => rows,
            Err(f) => panic!("{f:?}"),
        }
    }
}

fn number(v: &Value) -> i64 {
    match v {
        Value::Int(n) => *n,
        other => panic!("{other:?}"),
    }
}

/// What the functions on documents, patterns and calendars find.
fn find(task: &SetTask) -> Answer {
    match task {
        SetTask::Split { text, separator } => Answer::Found(Some(
            text.split(separator.as_str()).map(|s| Some(s.to_owned())).collect(),
        )),
        SetTask::MatchPattern { .. } => Answer::Values(vec![Value::Array(vec![text("ab")])]),
        SetTask::JsonElements(d) if d == "[1,null]" => {
            Answer::Found(Some(vec![Some("1".to_owned()), Some("null".to_owned())]))
        }
        SetTask::JsonElementsText(d) if d == "[1,null]" => {
            Answer::Found(Some(vec![Some("1".to_owned()), None]))
        }
        SetTask::JsonElements(_) => Answer::Found(None),
        SetTask::JsonMembers(d) if d == "{\"a\":1}" => {
            Answer::Members(Some((vec!["a".to_owned()], vec![Some("1".to_owned())])))
        }
        SetTask::JsonMembers(_) => Answer::Members(None),
        // Calendar steps of a number of microseconds.
        SetTask::Temporal { start, stop, step, .. } => {
            let mut nexts = vec![start + step.micros];
            while step.micros > 0 && nexts[nexts.len() - 1] <= *stop {
                nexts.push(nexts[nexts.len() - 1] + step.micros);
            }
            Answer::Times(nexts)
        }
        _ => Answer::Failed,
    }
}

fn clone_rows(rows: &[Row]) -> Vec<Row> {
    rows.iter().map(|r| r.to_vec()).collect()
}

fn context(budget: usize, spill: Option<usize>) -> Context {
    Context { budget, spill, outer: vec![], bound: WorkingSets::new(), hidden: vec![], beam: None }
}

fn key(ascending: bool) -> SortKey {
    SortKey { ascending, nulls: NullOrdering::Default }
}

fn gt(v: &Value, n: i64) -> Value {
    match v {
        Value::Int(x) => Value::Bool(*x > n),
        _ => Value::Null,
    }
}

fn same(a: &Value, b: &Value) -> bool {
    matches!((a, b), (Value::Int(x), Value::Int(y)) if x == y)
}

// ---------------------------------------------------------------- select

const USERS: u64 = 1;

/// A user: id, name, age, score, active.
fn user(id: i64, name: Value, age: Value) -> Row {
    vec![num(id), name, age, Value::Null, Value::Null]
}

#[test]
fn select_where_filters_rows() {
    let mut w = World::new();
    w.table(USERS, vec![
        user(1, Value::Null, num(10)),
        user(2, Value::Null, num(30)),
        user(3, Value::Null, num(50)),
    ]);
    let scan = w.scan(USERS);
    let filter = w.filter(scan, |r| gt(&r[2], 20));
    let op = w.columns(filter, &[0]);
    assert_eq!(w.run(&op), ints(&[2, 3]));
}

#[test]
fn select_order_by_sorts_rows() {
    let mut w = World::new();
    w.table(USERS, vec![
        user(1, Value::Null, num(30)),
        user(2, Value::Null, num(10)),
        user(3, Value::Null, num(20)),
    ]);
    let scan = w.scan(USERS);
    let sort = w.sort(scan, vec![(2, key(true))], None);
    let op = w.columns(sort, &[0]);
    assert_eq!(w.run(&op), ints(&[2, 3, 1]));
}

#[test]
fn select_order_by_desc_sorts_descending() {
    let mut w = World::new();
    w.table(USERS, ints(&[1, 2, 3]));
    let scan = w.scan(USERS);
    let op = w.sort(scan, vec![(0, key(false))], None);
    assert_eq!(w.run(&op), ints(&[3, 2, 1]));
}

#[test]
fn select_limit_caps_row_count() {
    let mut w = World::new();
    w.table(USERS, ints(&[1, 2, 3, 4, 5]));
    let scan = w.scan(USERS);
    let op = w.limit(scan, 2, 0);
    assert_eq!(w.run(&op).len(), 2);
}

#[test]
fn select_computed_projection() {
    let mut w = World::new();
    w.table(USERS, vec![user(1, Value::Null, num(30))]);
    let scan = w.scan(USERS);
    let op = w.project(scan, |r| match &r[2] {
        Value::Int(a) => vec![num(a + 1)],
        _ => vec![Value::Null],
    });
    assert_eq!(w.run(&op), ints(&[31]));
}

#[test]
fn select_is_null_handling() {
    let mut w = World::new();
    w.table(USERS, vec![user(1, Value::Null, Value::Null), user(2, text("x"), Value::Null)]);
    let scan = w.scan(USERS);
    let filter = w.filter(scan, |r| Value::Bool(r[1] == Value::Null));
    let op = w.columns(filter, &[0]);
    assert_eq!(w.run(&op), ints(&[1]));
}

#[test]
fn select_without_from_returns_literal() {
    let mut w = World::new();
    let one = w.op(OpNode::OneRow, Does::Nothing, vec![]);
    let op = w.project(one, |_| vec![num(1)]);
    assert_eq!(w.run(&op), ints(&[1]));
}

#[test]
fn select_null_sorts_last_in_ascending() {
    let mut w = World::new();
    w.table(USERS, vec![
        user(1, Value::Null, Value::Null),
        user(2, Value::Null, num(10)),
        user(3, Value::Null, Value::Null),
        user(4, Value::Null, num(20)),
    ]);
    let scan = w.scan(USERS);
    let sort = w.sort(scan, vec![(2, key(true))], None);
    let op = w.columns(sort, &[0]);
    let ids: Vec<i64> =
        w.run(&op).iter().map(|r| if let Value::Int(i) = &r[0] { *i } else { 0 }).collect();
    assert_eq!(&ids[..2], &[2, 4]);
    assert!(ids[2..].contains(&1) && ids[2..].contains(&3));
}

#[test]
fn division_by_zero_aborts_select() {
    let mut w = World::new();
    w.table(USERS, ints(&[1]));
    let scan = w.scan(USERS);
    // A projection that cannot be evaluated has no answer.
    let op = w.op(OpNode::Project { sequence_calls: false }, Does::Nothing, vec![scan]);
    assert_eq!(w.drive(&op, &context(0, None), false), Err(Failure::Outside));
}

// ---------------------------------------------------------------- streams

/// A grouping of a table by its third column.
fn grouping() -> OpNode {
    OpNode::GroupAggregate {
        input: Shape {
            node: ShapeNode::SeqScan {
                table: USERS,
                source: ["id", "name", "age"].iter().map(|s| (*s).to_owned()).collect(),
                kept: vec![],
            },
            children: vec![],
        },
        keys: vec![Some(2)],
    }
}

#[test]
fn stream_op_matches_execute_op_for_linear_and_blocking_plans() {
    let mut w = World::new();
    w.table(USERS, vec![
        vec![num(1), text("alice"), num(30), Value::Float(9.5f64.to_bits()), Value::Bool(true)],
        vec![num(2), text("bob"), Value::Null, Value::Float(1.0f64.to_bits()), Value::Bool(false)],
    ]);
    let mut plans: Vec<(Operator, usize)> = Vec::new();
    let scan = w.scan(USERS);
    plans.push((scan, 2));
    let scan = w.scan(USERS);
    plans.push((w.columns(scan, &[0, 1]), 2));
    let scan = w.scan(USERS);
    let filter = w.filter(scan, |r| gt(&r[2], 10));
    plans.push((w.columns(filter, &[0]), 1));
    let scan = w.scan(USERS);
    let filter = w.filter(scan, |r| Value::Bool(r[2] == Value::Null));
    plans.push((w.columns(filter, &[0]), 1));
    let scan = w.scan(USERS);
    let filter = w.filter(scan, |r| gt(&r[2], 0));
    let columns = w.columns(filter, &[0, 2]);
    plans.push((w.limit(columns, 1, 0), 1));
    let scan = w.scan(USERS);
    let columns = w.columns(scan, &[0]);
    plans.push((w.limit(columns, 1, 1), 1));
    let scan = w.scan(USERS);
    let columns = w.columns(scan, &[0]);
    plans.push((w.sort(columns, vec![(0, key(true))], None), 2));
    let scan = w.scan(USERS);
    let groups = |rows: &[Row]| {
        let mut out: Vec<Row> = Vec::new();
        for r in rows {
            match out.iter_mut().find(|g| g[0] == r[2]) {
                Some(g) => {
                    if let Value::Int(n) = g[1] {
                        g[1] = num(n + 1);
                    }
                }
                None => out.push(vec![r[2].clone(), num(1)]),
            }
        }
        out
    };
    plans.push((w.op(grouping(), Does::Fold(Box::new(groups)), vec![scan]), 2));
    let scan = w.scan(USERS);
    let columns = w.columns(scan, &[4]);
    plans.push((w.op(OpNode::Distinct { width: 1 }, Does::Nothing, vec![columns]), 2));
    for (kind, on, expect) in [
        (JoinKind::Inner, 0usize, 2usize),
        (JoinKind::Left, 2, 2),
        (JoinKind::Right, 2, 2),
        (JoinKind::Full, 2, 4),
    ] {
        let (u, v) = (w.scan(USERS), w.scan(USERS));
        let join = w.hash_join(u, v, kind, (5, 5), move |l, r| same(&l[0], &r[on]));
        plans.push((w.columns(join, &[1, 6]), expect));
    }
    let (u, v) = (w.scan(USERS), w.scan(USERS));
    let join = w.hash_join(u, v, JoinKind::Inner, (5, 5), |l, r| {
        same(&l[0], &r[0]) && gt(&l[2], 10) == Value::Bool(true)
    });
    plans.push((w.columns(join, &[0, 5]), 1));
    // Equal columns are merged into one.
    let (u, v) = (w.scan(USERS), w.scan(USERS));
    let join = w.op(
        OpNode::HashJoin {
            kind: JoinKind::Inner,
            left_width: 5,
            right_width: 5,
            merges: true,
            one_table: true,
        },
        Does::Pair(
            Box::new(|l, r| same(&l[0], &r[0])),
            Box::new(|r| r.iter().take(5).chain(r.iter().skip(6)).cloned().collect()),
        ),
        vec![u, v],
    );
    plans.push((w.columns(join, &[0, 1]), 2));
    let (u, v) = (w.scan(USERS), w.scan(USERS));
    let join = w.hash_join(u, v, JoinKind::Inner, (5, 5), |l, r| same(&l[0], &r[0]));
    plans.push((
        w.op(
            OpNode::ScalarAggregate { count_star: false },
            Does::Fold(Box::new(|rows| vec![vec![num(rows.len() as i64)]])),
            vec![join],
        ),
        1,
    ));
    for (i, (op, expect)) in plans.iter().enumerate() {
        for cx in [context(0, None), context(0, Some(1 << 20))] {
            let executed = w.drive(op, &cx, false).unwrap();
            let streamed = w.drive(op, &cx, true).unwrap();
            assert_eq!(streamed, executed, "plan {i}");
            assert_eq!(executed.len(), *expect, "plan {i}");
        }
    }
}

#[test]
fn a_literal_series_streams_what_it_expands_to() {
    let mut w = World::new();
    let one = w.op(OpNode::OneRow, Does::Nothing, vec![]);
    let op = w.op(
        OpNode::ProjectSet {
            func: SetFunc::GenerateSeries,
            pos: 0,
            ordinality: false,
            series: Some(IntSeries { start: 1, stop: 5, step: 2 }),
        },
        Does::Sets(Box::new(|_| (vec![Value::Null], vec![num(1), num(5), num(2)]))),
        vec![one],
    );
    assert_eq!(w.run(&op), ints(&[1, 3, 5]));
    assert_eq!(w.drive(&op, &context(0, None), true), Ok(ints(&[1, 3, 5])));
}

// ---------------------------------------------------------------- top n

#[test]
fn top_n_sort_is_result_identical_to_full_sort() {
    let mut w = World::new();
    let rows: Vec<Row> = (0..60)
        .map(|id| vec![num(id), if id % 11 == 0 { Value::Null } else { num(id % 7) }])
        .collect();
    w.table(1, rows);
    let grp = |ascending: bool, nulls: NullOrdering| (1usize, SortKey { ascending, nulls });
    for order in [
        vec![grp(true, NullOrdering::Default)],
        vec![grp(false, NullOrdering::Default)],
        vec![grp(true, NullOrdering::First)],
        vec![grp(false, NullOrdering::Last)],
        vec![grp(true, NullOrdering::Default), (0, key(false))],
    ] {
        let scan = w.scan(1);
        let full = w.sort(scan, order.clone(), None);
        let full = w.run(&full);
        assert_eq!(full.len(), 60);
        for k in [0_usize, 1, 5, 13, 60, 100] {
            let scan = w.scan(1);
            let sort = w.sort(scan, order.clone(), Some(k as u64));
            let op = w.limit(sort, k as u64, 0);
            let expected: Vec<Row> = full.iter().take(k).cloned().collect();
            assert_eq!(w.run(&op), expected, "top-{k} of {order:?}");
        }
    }
}

/// A ranking of all rows by the second column.
fn ranking(w: &mut World, child: Operator, func: WindowFunc, top_n: Option<u64>) -> Operator {
    w.op(
        OpNode::Window {
            windows: vec![Window { func, frame: None, order: vec![key(true)] }],
            top_n,
        },
        Does::Windows(vec![Box::new(|r| (vec![], vec![r[1].clone()], vec![]))]),
        vec![child],
    )
}

#[test]
fn top_n_ranking_window_is_result_identical_to_full() {
    let mut w = World::new();
    w.table(1, (0..50).map(|id| vec![num(id), num(id % 6)]).collect());
    for func in [WindowFunc::RowNumber, WindowFunc::Rank, WindowFunc::DenseRank] {
        let scan = w.scan(1);
        let window = ranking(&mut w, scan, func, None);
        let sort = w.sort(window, vec![(1, key(true))], None);
        let full = w.columns(sort, &[0, 2]);
        let full = w.run(&full);
        for k in [0_usize, 1, 5, 13, 50, 80] {
            // The first rows in window order are all that a ranking of them needs.
            let scan = w.scan(1);
            let window = ranking(&mut w, scan, func, Some(k as u64));
            let columns = w.columns(window, &[0, 2]);
            let op = w.limit(columns, k as u64, 0);
            let expected: Vec<Row> = full.iter().take(k).cloned().collect();
            assert_eq!(w.run(&op), expected, "top-{k} of {func:?}");
        }
    }
}

// ---------------------------------------------------------------- joins

const CUST: u64 = 1;
const ORD: u64 = 2;

fn setup_join() -> World {
    let mut w = World::new();
    w.table(CUST, vec![
        vec![num(1), text("a")],
        vec![num(2), text("b")],
        vec![num(3), text("c")],
    ]);
    w.table(ORD, vec![
        vec![num(1), num(100)],
        vec![num(1), num(50)],
        vec![num(2), num(200)],
        vec![num(5), num(999)],
    ]);
    w
}

fn join_names(w: &mut World, kind: JoinKind, on: impl Fn(&Row, &Row) -> bool + 'static) -> Vec<Row> {
    let (c, o) = (w.scan(CUST), w.scan(ORD));
    let join = w.hash_join(c, o, kind, (2, 2), on);
    let op = w.columns(join, &[1, 3]);
    w.run(&op)
}

fn on_id(c: &Row, o: &Row) -> bool {
    same(&c[0], &o[0])
}

#[test]
fn hash_inner_join_matches_pairs_in_order() {
    let mut w = setup_join();
    assert_eq!(join_names(&mut w, JoinKind::Inner, on_id), vec![
        vec![text("a"), num(100)],
        vec![text("a"), num(50)],
        vec![text("b"), num(200)],
    ]);
}

#[test]
fn hash_left_join_keeps_unmatched_left_null_padded() {
    let mut w = setup_join();
    assert_eq!(join_names(&mut w, JoinKind::Left, on_id), vec![
        vec![text("a"), num(100)],
        vec![text("a"), num(50)],
        vec![text("b"), num(200)],
        vec![text("c"), Value::Null],
    ]);
}

#[test]
fn hash_full_join_keeps_both_unmatched_sides() {
    let mut w = setup_join();
    assert_eq!(join_names(&mut w, JoinKind::Full, on_id), vec![
        vec![text("a"), num(100)],
        vec![text("a"), num(50)],
        vec![text("b"), num(200)],
        vec![text("c"), Value::Null],
        vec![Value::Null, num(999)],
    ]);
}

#[test]
fn hash_join_residual_filters_pairs() {
    let mut w = setup_join();
    let rows = join_names(&mut w, JoinKind::Inner, |c, o| {
        on_id(c, o) && gt(&o[1], 60) == Value::Bool(true)
    });
    assert_eq!(rows, vec![vec![text("a"), num(100)], vec![text("b"), num(200)]]);
}

#[test]
fn hash_join_null_key_never_matches() {
    let mut w = World::new();
    w.table(CUST, vec![vec![num(1), text("a")]]);
    w.table(ORD, vec![vec![num(1), num(100)], vec![Value::Null, num(999)]]);
    assert_eq!(join_names(&mut w, JoinKind::Inner, on_id), vec![vec![text("a"), num(100)]]);
}

#[test]
fn a_join_built_on_the_left_has_the_same_rows() {
    let mut w = World::new();
    w.table(CUST, vec![vec![num(1), text("a")]]);
    w.table(ORD, (0..8).map(|i| vec![num(i % 2), num(i)]).collect());
    // One row against eight is built on the left.
    assert_eq!(join_names(&mut w, JoinKind::Inner, on_id), vec![
        vec![text("a"), num(1)],
        vec![text("a"), num(3)],
        vec![text("a"), num(5)],
        vec![text("a"), num(7)],
    ]);
}

/// Join two tables on their first columns, each two columns wide.
fn equal_join(w: &mut World, left: u64, right: u64) -> Operator {
    let (l, r) = (w.scan(left), w.scan(right));
    w.op(
        OpNode::HashJoin {
            kind: JoinKind::Inner,
            left_width: 2,
            right_width: 2,
            merges: false,
            one_table: true,
        },
        Does::Pair(Box::new(|l, r| same(&l[0], &r[0])), Box::new(|r| r.clone())),
        vec![l, r],
    )
}

/// The rows of a stream whose joins are built on the left.
fn stream_left_built(w: &World, op: &Operator) -> Vec<Row> {
    let cx = context(0, None);
    let mut answers: Vec<Answer> = Vec::new();
    loop {
        match stream_op(&ColumnOrder, op, &cx, &answers) {
            Flow::Needs(Request { ask: Ask::LeftBuild, .. }) => answers.push(Answer::Flag(true)),
            Flow::Needs(request) => answers.push(w.answer(&request)),
            Flow::Rows { rows, failed: None, .. } => return rows,
            _ => panic!("the stream succeeds"),
        }
    }
}

/// The rows are the same, each as often.
fn assert_same_in_some_order(mut a: Vec<Row>, b: &[Row]) {
    for row in b {
        let place = a.iter().position(|r| r == row).expect("the row is there");
        a.remove(place);
    }
    assert!(a.is_empty());
}

#[test]
fn a_stream_built_on_the_left_has_the_rows_of_an_execution() {
    let mut w = World::new();
    w.table(CUST, vec![
        vec![num(1), text("a")],
        vec![num(2), text("b")],
        vec![num(1), text("c")],
    ]);
    let op = equal_join(&mut w, CUST, CUST);
    let executed = w.run(&op);
    let streamed = stream_left_built(&w, &op);
    assert_eq!(executed.len(), 5);
    assert_ne!(streamed, executed);
    assert_same_in_some_order(streamed, &executed);
    // Below a filter and a projection as well.
    let filtered = w.filter(op, |r| Value::Bool(r[1] != text("b")));
    let top = w.columns(filtered, &[1, 3]);
    let executed = w.run(&top);
    let streamed = stream_left_built(&w, &top);
    assert_eq!(executed.len(), 4);
    assert_ne!(streamed, executed);
    assert_same_in_some_order(streamed, &executed);
}

#[test]
fn joins_built_on_the_left_stream_in_the_order_of_an_execution() {
    let mut w = World::new();
    w.table(CUST, vec![vec![num(1), text("a")], vec![num(2), text("b")]]);
    w.table(
        ORD,
        [2, 1, 3, 2, 1, 3, 2, 1].iter().zip(10..).map(|(&k, i)| vec![num(k), num(i)]).collect(),
    );
    let op = equal_join(&mut w, CUST, ORD);
    let pair = |k: i64, name: &str, i: i64| vec![num(k), text(name), num(k), num(i)];
    let expected = vec![
        pair(2, "b", 10),
        pair(1, "a", 11),
        pair(2, "b", 13),
        pair(1, "a", 14),
        pair(2, "b", 16),
        pair(1, "a", 17),
    ];
    assert_eq!(w.run(&op), expected);
    assert_eq!(stream_left_built(&w, &op), expected);
    let filtered = w.filter(op, |r| gt(&r[3], 11));
    let top = w.columns(filtered, &[1, 3]);
    let expected = vec![
        vec![text("b"), num(13)],
        vec![text("a"), num(14)],
        vec![text("b"), num(16)],
        vec![text("a"), num(17)],
    ];
    assert_eq!(w.run(&top), expected);
    assert_eq!(stream_left_built(&w, &top), expected);
}

// ---------------------------------------------------------------- distinct

fn distinct(w: &mut World, table: u64, columns: &[usize]) -> Operator {
    let scan = w.scan(table);
    let project = w.columns(scan, columns);
    w.op(OpNode::Distinct { width: columns.len() }, Does::Nothing, vec![project])
}

#[test]
fn distinct_removes_duplicates_first_seen_order() {
    let mut w = World::new();
    w.table(1, vec![
        vec![num(1), num(10)],
        vec![num(2), num(20)],
        vec![num(3), num(10)],
        vec![num(4), num(20)],
    ]);
    let op = distinct(&mut w, 1, &[1]);
    assert_eq!(w.run(&op), ints(&[10, 20]));
}

#[test]
fn distinct_treats_null_as_not_distinct_from_null() {
    let mut w = World::new();
    w.table(1, vec![
        vec![num(1), Value::Null],
        vec![num(2), Value::Null],
        vec![num(3), text("x")],
    ]);
    let op = distinct(&mut w, 1, &[1]);
    assert_eq!(w.run(&op), vec![vec![Value::Null], vec![text("x")]]);
}

#[test]
fn distinct_over_multiple_columns() {
    let mut w = World::new();
    w.table(1, vec![vec![num(1), num(10)], vec![num(1), num(10)], vec![num(1), num(20)]]);
    let op = distinct(&mut w, 1, &[0, 1]);
    assert_eq!(w.run(&op).len(), 2);
    // Spilling gives the same groups.
    assert_eq!(w.drive(&op, &context(0, Some(1)), false).unwrap().len(), 2);
}

#[test]
fn distinct_then_limit_caps_deduped_rows() {
    let mut w = World::new();
    w.table(1, vec![
        vec![num(1), num(10)],
        vec![num(2), num(10)],
        vec![num(3), num(20)],
        vec![num(4), num(30)],
    ]);
    let dedup = distinct(&mut w, 1, &[1]);
    let op = w.limit(dedup, 2, 0);
    assert_eq!(w.run(&op), ints(&[10, 20]));
}

// ---------------------------------------------------------------- recursive queries

const NUMS: u64 = 9;

fn recursive(
    w: &mut World,
    base: Operator,
    term: impl FnOnce(&mut World) -> Operator,
    union_all: bool,
) -> Operator {
    let term = term(w);
    let scan = w.scan(NUMS);
    let body = w.sort(scan, vec![(0, key(true))], None);
    w.op(
        OpNode::WithRecursive { ctes: vec![RecursiveCte { table: NUMS, union_all }] },
        Does::Nothing,
        vec![base, term, body],
    )
}

fn one(w: &mut World) -> Operator {
    let row = w.op(OpNode::OneRow, Does::Nothing, vec![]);
    w.project(row, |_| vec![num(1)])
}

fn plus_one(r: &Row) -> Row {
    match &r[0] {
        Value::Int(n) => vec![num(n + 1)],
        _ => vec![Value::Null],
    }
}

#[test]
fn recursive_cte_counts_up_with_union_all() {
    let mut w = World::new();
    let base = one(&mut w);
    let op = recursive(
        &mut w,
        base,
        |w| {
            let scan = w.scan(NUMS);
            let filter = w.filter(scan, |r| match &r[0] {
                Value::Int(n) => Value::Bool(*n < 5),
                _ => Value::Null,
            });
            w.project(filter, plus_one)
        },
        true,
    );
    assert_eq!(w.run(&op), ints(&[1, 2, 3, 4, 5]));
}

#[test]
fn recursive_cte_union_distinct_reaches_fixpoint() {
    let mut w = World::new();
    let base = one(&mut w);
    let op = recursive(
        &mut w,
        base,
        |w| {
            let scan = w.scan(NUMS);
            w.project(scan, |r| match &r[0] {
                Value::Int(n) if *n < 3 => vec![num(n + 1)],
                other => vec![other.clone()],
            })
        },
        false,
    );
    assert_eq!(w.run(&op), ints(&[1, 2, 3]));
}

#[test]
fn recursive_cte_traverses_a_seeded_hierarchy() {
    const EDGE: u64 = 1;
    let mut w = World::new();
    w.table(
        EDGE,
        [(1, 2), (1, 3), (2, 4), (3, 5), (4, 6)].iter().map(|&(p, c)| vec![num(p), num(c)]).collect(),
    );
    let scan = w.scan(EDGE);
    let roots = w.filter(scan, |r| Value::Bool(r[0] == num(1)));
    let base = w.columns(roots, &[1]);
    let op = recursive(
        &mut w,
        base,
        |w| {
            let (e, reach) = (w.scan(EDGE), w.scan(NUMS));
            let join = w.hash_join(e, reach, JoinKind::Inner, (2, 1), |e, r| same(&e[0], &r[0]));
            w.columns(join, &[1])
        },
        true,
    );
    assert_eq!(w.run(&op), ints(&[2, 3, 4, 5, 6]));
}

#[test]
fn a_recursion_is_held_to_the_work_memory() {
    let mut w = World::new();
    let base = one(&mut w);
    let op = recursive(
        &mut w,
        base,
        |w| {
            let scan = w.scan(NUMS);
            w.project(scan, plus_one)
        },
        true,
    );
    match w.drive(&op, &context(1024, None), false) {
        Err(Failure::OutOfMemory { budget: 1024, used, stage: Stage::Recursive }) => assert!(used > 1024),
        other => panic!("{other:?}"),
    }
}

// ---------------------------------------------------------------- set-returning projections

fn arrays() -> World {
    let mut w = World::new();
    w.table(1, vec![
        vec![num(1), Value::Array(vec![num(10), num(20), num(30)])],
        vec![num(2), Value::Array(vec![])],
        vec![num(3), Value::Null],
    ]);
    w
}

/// A projection with a set-returning function, and what it takes of a row.
fn project_set(
    w: &mut World,
    child: Operator,
    func: SetFunc,
    pos: usize,
    ordinality: bool,
    input: impl Fn(&Row) -> (Row, Vec<Value>) + 'static,
) -> Operator {
    w.op(
        OpNode::ProjectSet { func, pos, ordinality, series: None },
        Does::Sets(Box::new(input)),
        vec![child],
    )
}

/// The rows of a set-returning function of these arguments.
fn set_of(func: SetFunc, ordinality: bool, args: Vec<Value>) -> Result<Vec<Row>, Failure> {
    let mut w = World::new();
    let one = w.op(OpNode::OneRow, Does::Nothing, vec![]);
    let op = project_set(&mut w, one, func, 0, ordinality, move |_| (vec![Value::Null], args.clone()));
    w.drive(&op, &context(0, None), false)
}

#[test]
fn unnest_expands_an_array_into_rows() {
    let mut w = arrays();
    let scan = w.scan(1);
    let op = project_set(&mut w, scan, SetFunc::Unnest, 1, false, |r| {
        (vec![r[0].clone(), Value::Null], vec![r[1].clone()])
    });
    assert_eq!(w.run(&op), vec![
        vec![num(1), num(10)],
        vec![num(1), num(20)],
        vec![num(1), num(30)],
    ]);
}

#[test]
fn unnest_alone_and_composed_with_concat() {
    for (twice, expect) in [(false, 3), (true, 6)] {
        let mut w = arrays();
        let scan = w.scan(1);
        let first = w.filter(scan, |r| Value::Bool(r[0] == num(1)));
        let op = project_set(&mut w, first, SetFunc::Unnest, 0, false, move |r| {
            let array = match &r[1] {
                Value::Array(items) if twice => Value::Array([items.clone(), items.clone()].concat()),
                other => other.clone(),
            };
            (vec![Value::Null], vec![array])
        });
        let rows = w.run(&op);
        assert_eq!(rows.len(), expect);
        assert_eq!(rows[..3].to_vec(), ints(&[10, 20, 30]));
    }
}

#[test]
fn ordinality_numbers_the_elements() {
    let mut w = arrays();
    let scan = w.scan(1);
    let op = project_set(&mut w, scan, SetFunc::Unnest, 0, true, |r| {
        (vec![Value::Null], vec![r[1].clone()])
    });
    assert_eq!(w.run(&op), vec![
        vec![num(10), num(1)],
        vec![num(20), num(2)],
        vec![num(30), num(3)],
    ]);
}

#[test]
fn several_arrays_are_unnested_side_by_side() {
    let a = Value::Array(vec![num(1), num(2)]);
    let b = Value::Array(vec![text("x")]);
    assert_eq!(
        set_of(SetFunc::Unnest, true, vec![a, b]),
        Ok(vec![vec![num(1), text("x"), num(1)], vec![num(2), Value::Null, num(2)]])
    );
}

#[test]
fn sets_are_found_in_texts_and_documents() {
    let words = vec![text("a,b"), text(",")];
    assert_eq!(
        set_of(SetFunc::StringToTable, false, words),
        Ok(vec![vec![text("a")], vec![text("b")]])
    );
    let list = vec![Value::Json("[1,null]".to_owned())];
    assert_eq!(
        set_of(SetFunc::JsonArrayElements, false, list.clone()),
        Ok(vec![vec![Value::Json("1".to_owned())], vec![Value::Json("null".to_owned())]])
    );
    assert_eq!(
        set_of(SetFunc::JsonArrayElementsText, false, list),
        Ok(vec![vec![text("1")], vec![Value::Null]])
    );
    let object = vec![Value::Json("{\"a\":1}".to_owned())];
    assert_eq!(
        set_of(SetFunc::JsonEach, false, object),
        Ok(vec![vec![text("a"), Value::Json("1".to_owned())]])
    );
    let number = vec![Value::Json("1".to_owned())];
    assert_eq!(set_of(SetFunc::JsonArrayElements, false, number.clone()), Ok(vec![]));
    assert_eq!(
        set_of(SetFunc::JsonEach, false, number),
        Err(Failure::SetRefused(SetError::NotAnObject))
    );
    assert_eq!(set_of(SetFunc::JsonEach, false, vec![Value::Null]), Ok(vec![]));
    let pattern = vec![text("xaby"), text("a.")];
    assert_eq!(
        set_of(SetFunc::RegexpMatches, false, pattern),
        Ok(vec![vec![Value::Array(vec![text("ab")])]])
    );
}

#[test]
fn series_of_numbers_and_times_are_expanded() {
    assert_eq!(
        set_of(SetFunc::GenerateSeries, false, vec![num(3), num(1), num(-1)]),
        Ok(ints(&[3, 2, 1]))
    );
    assert_eq!(
        set_of(SetFunc::GenerateSeries, false, vec![num(1), num(2), num(0)]),
        Err(Failure::SetRefused(SetError::ZeroStep))
    );
    assert_eq!(
        set_of(SetFunc::GenerateSeries, false, vec![num(1), num(i64::MAX)]),
        Err(Failure::SeriesLimit)
    );
    let time = |t: i64| Value::Timestamp(t);
    let hours = |n: i64| Value::Interval(Interval { months: 0, days: 0, micros: n });
    assert_eq!(
        set_of(SetFunc::GenerateSeries, false, vec![time(0), time(25), hours(10)]),
        Ok(vec![vec![time(0)], vec![time(10)], vec![time(20)]])
    );
    assert_eq!(
        set_of(SetFunc::GenerateSeries, false, vec![time(0), time(25), hours(0)]),
        Err(Failure::SetRefused(SetError::ZeroStep))
    );
}

// ---------------------------------------------------------------- windows

/// A window function over the rows `(k, v)`, ordered by the first column or not at all.
fn window_values(
    rows: &[Row],
    func: WindowFunc,
    frame: Option<WindowFrame>,
    ordered: bool,
    n: Option<i64>,
) -> Vec<Value> {
    let order = if ordered { vec![key(true)] } else { vec![] };
    let win = Window { func, frame, order };
    let part: Vec<Vec<Value>> = rows.iter().map(|_| vec![]).collect();
    let keys: Vec<Vec<Value>> =
        rows.iter().map(|r| if ordered { vec![r[0].clone()] } else { vec![] }).collect();
    let args: Vec<Vec<Value>> = rows
        .iter()
        .map(|r| match n {
            Some(n) => vec![r[1].clone(), num(n)],
            None => vec![r[1].clone()],
        })
        .collect();
    let shifts = vec![Shifts { start: None, end: None }; rows.len()];
    compute_window(&ColumnOrder, &win, &part, &keys, &args, &shifts)
        .unwrap()
        .into_iter()
        .map(|c| match c {
            WindowCell::Value(v) => v,
            other => panic!("{other:?}"),
        })
        .collect()
}

#[test]
fn window_default_frame_runs_through_current_peer_group() {
    let w: Vec<Row> = vec![vec![num(1), num(10)], vec![num(2), num(20)], vec![num(3), num(30)]];
    assert_eq!(window_values(&w, WindowFunc::LastValue, None, true, None), [num(10), num(20), num(30)]);
    assert_eq!(
        window_values(&w, WindowFunc::NthValue, None, true, Some(2)),
        [Value::Null, num(20), num(20)]
    );
    assert_eq!(
        window_values(&w, WindowFunc::FirstValue, None, true, None),
        [num(10), num(10), num(10)]
    );
    let whole = WindowFrame {
        start: FrameBound::UnboundedPreceding,
        end: FrameBound::UnboundedFollowing,
        peer_based: false,
        range_descending: false,
        exclude: WindowExclude::NoOthers,
    };
    assert_eq!(
        window_values(&w, WindowFunc::LastValue, Some(whole), true, None),
        [num(30), num(30), num(30)]
    );
    assert_eq!(
        window_values(&w, WindowFunc::LastValue, None, false, None),
        [num(30), num(30), num(30)]
    );
    let t: Vec<Row> = vec![
        vec![num(1), num(10)],
        vec![num(2), num(20)],
        vec![num(2), num(25)],
        vec![num(3), num(30)],
    ];
    assert_eq!(
        window_values(&t, WindowFunc::LastValue, None, true, None),
        [num(10), num(25), num(25), num(30)]
    );
}

#[test]
fn window_function_over_group_by_ranks_aggregated_rows() {
    // dept, sum(sal), count(*)
    let groups: Vec<Row> = vec![
        vec![text("a"), num(300), num(2)],
        vec![text("b"), num(100), num(2)],
        vec![text("c"), num(300), num(1)],
    ];
    let rank = |func: WindowFunc, part: Option<usize>, by: usize, ascending: bool| -> Vec<Value> {
        let win = Window { func, frame: None, order: vec![key(ascending)] };
        let pk: Vec<Vec<Value>> = groups
            .iter()
            .map(|r| part.map(|p| vec![r[p].clone()]).unwrap_or_default())
            .collect();
        let keys: Vec<Vec<Value>> = groups.iter().map(|r| vec![r[by].clone()]).collect();
        let args: Vec<Vec<Value>> = groups.iter().map(|_| vec![]).collect();
        let shifts = vec![Shifts { start: None, end: None }; groups.len()];
        compute_window(&ColumnOrder, &win, &pk, &keys, &args, &shifts)
            .unwrap()
            .into_iter()
            .map(|c| match c {
                WindowCell::Value(v) => v,
                other => panic!("{other:?}"),
            })
            .collect()
    };
    assert_eq!(rank(WindowFunc::Rank, None, 1, false), [num(1), num(3), num(1)]);
    assert_eq!(rank(WindowFunc::Rank, None, 0, true), [num(1), num(2), num(3)]);
    assert_eq!(rank(WindowFunc::RowNumber, Some(2), 0, true), [num(1), num(2), num(1)]);
}

#[test]
fn aggregates_get_the_rows_of_their_frame() {
    let win = Window {
        func: WindowFunc::Aggregate,
        frame: Some(WindowFrame {
            start: FrameBound::Preceding(1),
            end: FrameBound::CurrentRow,
            peer_based: false,
            range_descending: false,
            exclude: WindowExclude::NoOthers,
        }),
        order: vec![key(false)],
    };
    let part: Vec<Vec<Value>> = vec![vec![]; 3];
    let keys: Vec<Vec<Value>> = ints(&[1, 2, 3]);
    let shifts = vec![Shifts { start: None, end: None }; 3];
    let cells = compute_window(&ColumnOrder, &win, &part, &keys, &part, &shifts).unwrap();
    assert_eq!(cells, vec![
        WindowCell::Frame(vec![1, 0]),
        WindowCell::Frame(vec![2, 1]),
        WindowCell::Frame(vec![2]),
    ]);
}

#[test]
fn window_columns_are_appended() {
    let mut w = World::new();
    w.table(1, vec![
        vec![num(1), text("a")],
        vec![num(2), text("b")],
        vec![num(4), text("a")],
        vec![num(8), text("a")],
    ]);
    let running = WindowFrame {
        start: FrameBound::Preceding(1),
        end: FrameBound::CurrentRow,
        peer_based: false,
        range_descending: false,
        exclude: WindowExclude::NoOthers,
    };
    let scan = w.scan(1);
    let by_text = |r: &Row| (vec![r[1].clone()], vec![r[0].clone()], vec![]);
    let op = w.op(
        OpNode::Window {
            windows: vec![
                Window { func: WindowFunc::RowNumber, frame: None, order: vec![key(false)] },
                Window { func: WindowFunc::Aggregate, frame: Some(running), order: vec![key(true)] },
                Window { func: WindowFunc::CumeDist, frame: None, order: vec![key(true)] },
            ],
            top_n: None,
        },
        Does::Windows(vec![Box::new(by_text), Box::new(by_text), Box::new(by_text)]),
        vec![scan],
    );
    let float = |x: f64| Value::Float(x.to_bits());
    assert_eq!(w.run(&op), vec![
        vec![num(1), text("a"), num(3), num(1), float(1.0 / 3.0)],
        vec![num(2), text("b"), num(1), num(2), float(1.0)],
        vec![num(4), text("a"), num(2), num(5), float(2.0 / 3.0)],
        vec![num(8), text("a"), num(1), num(12), float(1.0)],
    ]);
}

#[test]
fn a_bucket_count_below_one_is_refused() {
    let mut w = World::new();
    w.table(1, ints(&[1, 2]));
    for (buckets, expect) in [
        (0, Err(Failure::BucketCount)),
        (2, Ok(vec![vec![num(1), num(1)], vec![num(2), num(2)]])),
    ] {
        let scan = w.scan(1);
        let op = w.op(
            OpNode::Window {
                windows: vec![Window { func: WindowFunc::Ntile, frame: None, order: vec![key(true)] }],
                top_n: None,
            },
            Does::Windows(vec![Box::new(move |r| (vec![], vec![r[0].clone()], vec![num(buckets)]))]),
            vec![scan],
        );
        assert_eq!(w.drive(&op, &context(0, None), false), expect);
    }
}

// ---------------------------------------------------------------- other operators

#[test]
fn a_set_operation_combines_sorts_and_limits() {
    let mut w = World::new();
    w.table(1, ints(&[3, 1, 2, 2]));
    w.table(2, ints(&[2, 4]));
    for (op, all, expect) in [
        (SetOp::Union, false, ints(&[1, 2, 3])),
        (SetOp::Union, true, ints(&[1, 2, 2])),
        (SetOp::Intersect, false, ints(&[2])),
        (SetOp::Except, false, ints(&[1, 3])),
        (SetOp::Except, true, ints(&[1, 2, 3])),
    ] {
        let (a, b) = (w.scan(1), w.scan(2));
        let tree = SetTree::Node {
            op,
            all,
            left: Box::new(SetTree::Leaf(0)),
            right: Box::new(SetTree::Leaf(1)),
        };
        let plan = w.op(
            OpNode::SetOperation { tree, keys: vec![key(true)], limit: Some(3), width: 1 },
            Does::Each(Box::new(|r| r.clone())),
            vec![a, b],
        );
        assert_eq!(w.run(&plan), expect, "{op:?} {all}");
        assert_eq!(w.drive(&plan, &context(0, Some(1)), false), Ok(expect), "{op:?} {all} spilled");
    }
}

#[test]
fn ties_of_the_last_row_are_kept() {
    let mut w = World::new();
    w.table(1, ints(&[2, 1, 2, 3]));
    let scan = w.scan(1);
    let op = w.op(
        OpNode::Sort {
            keys: vec![key(true)],
            has_subquery: false,
            ties: Some(TiesLimit { offset: 0, count: 2 }),
            top_n: None,
        },
        Does::Each(Box::new(|r| r.clone())),
        vec![scan],
    );
    assert_eq!(w.run(&op), ints(&[1, 2, 2]));
}

#[test]
fn ties_with_a_subquery_are_refused() {
    let mut w = World::new();
    w.table(1, ints(&[1]));
    let scan = w.scan(1);
    let op = w.op(
        OpNode::Sort {
            keys: vec![key(true)],
            has_subquery: true,
            ties: Some(TiesLimit { offset: 0, count: 1 }),
            top_n: None,
        },
        Does::Each(Box::new(|r| r.clone())),
        vec![scan],
    );
    assert_eq!(w.drive(&op, &context(0, None), false), Err(Failure::TiesWithSubquery));
}

fn locking(w: &mut World, skip_locked: bool, nowait: bool) -> Operator {
    let scan = w.scan(1);
    let schema = w.schema(1);
    let node = OpNode::LockRows { table: 1, schema, predicate: false, skip_locked, nowait };
    let op = w.op(node, Does::Nothing, vec![scan]);
    w.table_of.insert(op.id, 1);
    op
}

#[test]
fn only_the_rows_of_a_predicate_are_locked() {
    let mut w = World::new();
    w.table(1, ints(&[10, 20, 30]));
    w.locked = vec![1];
    for (least, expect) in [(25, Ok(ints(&[10, 20, 30]))), (15, Err(Failure::LockNotAvailable))] {
        let scan = w.scan(1);
        let schema = w.schema(1);
        let node =
            OpNode::LockRows { table: 1, schema, predicate: true, skip_locked: false, nowait: true };
        let op = w.op(node, Does::Test(Box::new(move |r, _| gt(&r[0], least))), vec![scan]);
        w.table_of.insert(op.id, 1);
        assert_eq!(w.drive(&op, &context(0, None), false), expect);
    }
}

#[test]
fn locked_rows_are_skipped_or_refused() {
    let mut w = World::new();
    w.table(1, ints(&[10, 20, 30]));
    w.locked = vec![1];
    let skip = locking(&mut w, true, false);
    assert_eq!(w.run(&skip), ints(&[10, 30]));
    let nowait = locking(&mut w, false, true);
    assert_eq!(w.drive(&nowait, &context(0, None), false), Err(Failure::LockNotAvailable));
    let wait = locking(&mut w, false, false);
    assert_eq!(w.drive(&wait, &context(0, None), false), Err(Failure::LockConflict));
    w.locked.clear();
    assert_eq!(w.run(&wait), ints(&[10, 20, 30]));
}

#[test]
fn a_lateral_join_pairs_each_left_row_with_its_own_rows() {
    let mut w = World::new();
    w.table(1, ints(&[1, 2, 3]));
    w.table(2, ints(&[1, 2, 2]));
    let left = w.scan(1);
    let scan = w.scan(2);
    let right = w.op(
        OpNode::Filter,
        Does::Test(Box::new(|r, outer| Value::Bool(same(&r[0], &outer[outer.len() - 1][0])))),
        vec![scan],
    );
    let op = w.op(
        OpNode::LateralJoin { kind: JoinKind::Left, right_width: 1 },
        Does::Test(Box::new(|_, _| Value::Bool(true))),
        vec![left, right],
    );
    assert_eq!(w.run(&op), vec![
        vec![num(1), num(1)],
        vec![num(2), num(2)],
        vec![num(2), num(2)],
        vec![num(3), Value::Null],
    ]);
}

#[test]
fn q50_delete_returning_cte_rows_are_read_by_the_body() {
    let mut w = World::new();
    let modified = w.op(OpNode::Source, Does::Rows(ints(&[7, 8])), vec![]);
    let scan = w.scan(NUMS);
    let body = w.filter(scan, |r| gt(&r[0], 7));
    let op = w.op(
        OpNode::WithModifying { ctes: vec![OnceCte { table: NUMS, reads: false }] },
        Does::Nothing,
        vec![modified, body],
    );
    assert_eq!(w.run(&op), ints(&[8]));
}

#[test]
fn a_stage_is_held_to_the_work_memory() {
    let mut w = World::new();
    w.table(1, vec![vec![Value::Text("x".repeat(4096))]]);
    let op = w.scan(1);
    match w.drive(&op, &context(1024, None), false) {
        Err(Failure::OutOfMemory { budget: 1024, used, stage: Stage::Materialized }) => {
            assert!(used > 4096)
        }
        other => panic!("{other:?}"),
    }
    // A stream holds no rows.
    assert_eq!(w.drive(&op, &context(1024, None), true).unwrap().len(), 1);
}

#[test]
fn a_plan_without_the_children_it_calls_for_is_refused() {
    let mut w = World::new();
    let op = w.op(OpNode::Filter, Does::Nothing, vec![]);
    assert_eq!(w.drive(&op, &context(0, None), false), Err(Failure::BadPlan));
}

// ---------------------------------------------------------------- scans and failures

#[test]
fn a_scan_keeps_the_named_columns() {
    let mut w = World::new();
    w.table(1, vec![vec![num(1), text("a"), num(7)], vec![num(2), text("b"), num(8)]]);
    let op = w.narrow_scan(1, vec![0, 2]);
    let expect = vec![vec![num(1), num(7)], vec![num(2), num(8)]];
    assert_eq!(w.run(&op), expect);
    assert_eq!(w.drive(&op, &context(0, None), true), Ok(expect));
}

#[test]
fn a_tuple_that_cannot_be_read_ends_a_stream_and_fails_an_execution() {
    let mut w = World::new();
    w.table(1, ints(&[1, 2]));
    let op = w.scan(1);
    let answers = || {
        let mut tuples = w.tuples_of(op.id);
        tuples[1].bytes.truncate(3);
        vec![Answer::Tuples { tuples, failed: false }]
    };
    let cx = context(0, None);
    match stream_op(&ColumnOrder, &op, &cx, &answers()) {
        Flow::Rows { rows, failed: Some(Failure::MalformedTuple { .. }), used: 1 } => {
            assert_eq!(rows, ints(&[1]))
        }
        _ => panic!("a stream gives the rows before"),
    }
    match execute_op(&ColumnOrder, &op, &cx, &answers()) {
        Flow::Failed { failure: Failure::MalformedTuple { .. }, used: 1 } => {}
        _ => panic!("an execution fails"),
    }
}

#[test]
fn a_window_of_no_rows_keeps_the_failure_of_a_child_that_is_not_read_row_by_row() {
    let mut w = World::new();
    w.table(1, ints(&[1]));
    let cx = context(0, None);
    let source = w.op(OpNode::Source, Does::Nothing, vec![]);
    let op = w.limit(source, 0, 0);
    assert_eq!(w.drive(&op, &cx, false), Err(Failure::Outside));
    assert_eq!(w.drive(&op, &cx, true), Err(Failure::Outside));
    // A scan that fails later is not read.
    let scan = w.scan(1);
    let op = w.limit(scan, 0, 0);
    let failing = vec![Answer::Tuples { tuples: vec![], failed: true }];
    match execute_op(&ColumnOrder, &op, &cx, &failing) {
        Flow::Rows { rows, failed: None, .. } => assert!(rows.is_empty()),
        _ => panic!("no row is read"),
    }
}

#[test]
fn statistics_decide_how_groups_are_made() {
    let mut w = World::new();
    w.table(USERS, vec![user(1, text("x"), num(30))]);
    let scan = w.scan(USERS);
    let op = w.op(grouping(), Does::Nothing, vec![scan]);
    let tuples = || Answer::Tuples { tuples: w.tuples_of(op.children[0].id), failed: false };
    let asked = |spill: usize, stats: Option<Vec<ColumnSummary>>| {
        let cx = context(0, Some(spill));
        match execute_op(&ColumnOrder, &op, &cx, &vec![]) {
            Flow::Needs(Request { ask: Ask::Stats(USERS), .. }) => {}
            _ => panic!("statistics come first"),
        }
        match execute_op(&ColumnOrder, &op, &cx, &vec![Answer::Stats(stats), tuples()]) {
            Flow::Needs(Request { ask: Ask::Fold { sorted, .. }, .. }) => sorted,
            _ => panic!("the groups are folded"),
        }
    };
    let ages = || {
        Some(vec![ColumnSummary { column: "age".to_owned(), distinct_count: 2, null_count: 0 }])
    };
    // Two groups of 360 bytes are half of this budget, and no more.
    assert!(!asked(1440, ages()));
    assert!(asked(1438, ages()));
    assert!(asked(1 << 30, None));
}

#[test]
fn rows_bound_in_memory_are_scanned() {
    let mut w = World::new();
    let op = w.narrow_scan(NUMS, vec![1]);
    let mut cx = context(0, None);
    cx.bound.bind(NUMS, vec![vec![num(1), num(2)]]);
    assert_eq!(w.drive(&op, &cx, false), Ok(ints(&[2])));
    // A stream gives them at full width.
    assert_eq!(w.drive(&op, &cx, true), Ok(vec![vec![num(1), num(2)]]));
}

#[test]
fn the_rows_of_a_scan_are_counted_without_reading_them() {
    let mut w = World::new();
    w.table(1, ints(&[10, 20, 30]));
    let scan = w.scan(1);
    let op = w.op(OpNode::ScalarAggregate { count_star: true }, Does::Nothing, vec![scan]);
    assert_eq!(w.run(&op), ints(&[3]));
    // A hidden row is not counted, and one that cannot be read is.
    let mut cx = context(0, None);
    cx.hidden = vec![(1, 0)];
    let mut tuples = w.tuples_of(op.children[0].id);
    tuples[1].bytes.clear();
    match execute_op(&ColumnOrder, &op, &cx, &vec![Answer::Tuples { tuples, failed: false }]) {
        Flow::Rows { rows, failed: None, used: 1 } => assert_eq!(rows, ints(&[2])),
        _ => panic!("a count"),
    }
    // Any other child is folded.
    let scan = w.scan(1);
    let filter = w.filter(scan, |r| gt(&r[0], 15));
    let op = w.op(
        OpNode::ScalarAggregate { count_star: true },
        Does::Fold(Box::new(|rows| vec![vec![num(rows.len() as i64)]])),
        vec![filter],
    );
    assert_eq!(w.run(&op), ints(&[2]));
}

#[test]
fn a_plan_searches_for_the_nearest_rows() {
    let mut w = World::new();
    let item = |id: i64, x: f32| vec![num(id), Value::Vector(vec![x.to_bits()])];
    let rows = vec![item(1, 3.0), item(2, 0.5), vec![num(3), Value::Null], item(4, 1.0)];
    let near = w.op(OpNode::VectorKnn { column: 1, k: 2, filtered: false }, Does::Near(rows), vec![]);
    let op = w.columns(near, &[0]);
    assert_eq!(w.run(&op), ints(&[2, 4]));
}

/// The rows that pulling from this source one at a time gives, and how many rows were pulled.
fn pull(w: &World, op: &Operator, source: &[Row]) -> (Vec<Row>, usize) {
    let (mut pipe, _) = open_pipe(op);
    let mut out: Vec<Row> = Vec::new();
    let mut pulled = 0;
    while pipe.wants_row() && pulled < source.len() {
        let mut step = pipe.offer(0, source[pulled].clone());
        pulled += 1;
        loop {
            step = match step {
                Step::Dropped => break,
                Step::Out(row) => {
                    out.push(row);
                    break;
                }
                Step::Judge { stage, row } => match (pipe.stages[stage], &row) {
                    (PipeStage::Filter { id }, r) => match &w.does[&id] {
                        Does::Test(f) => {
                            let verdict = f(r, &[]);
                            pipe.judged(stage, row, &verdict)
                        }
                        _ => panic!("no filter"),
                    },
                    _ => panic!("no filter"),
                },
                Step::Project { stage, row } => match pipe.stages[stage] {
                    PipeStage::Project { id } => match &w.does[&id] {
                        Does::Each(f) => pipe.offer(stage + 1, f(&row)),
                        _ => panic!("no projection"),
                    },
                    _ => panic!("no projection"),
                },
            };
        }
    }
    (out, pulled)
}

#[test]
fn rows_pulled_one_at_a_time_are_those_of_a_stream() {
    let rows = ints(&[5, 1, 6, 2, 7, 8, 9]);
    let mut w = World::new();
    w.table(1, rows.clone());
    // Two of the rows above four, after the first: the last row is not needed.
    let scan = w.scan(1);
    let filter = w.filter(scan, |r| gt(&r[0], 4));
    let window = w.limit(filter, 2, 1);
    let op = w.project(window, plus_one);
    assert_eq!(w.drive(&op, &context(0, None), true), Ok(ints(&[7, 8])));
    assert_eq!(pull(&w, &op, &rows), (ints(&[7, 8]), 5));
    // A window over a projection pulls what it skips and lets through.
    let scan = w.scan(1);
    let project = w.project(scan, plus_one);
    let op = w.limit(project, 2, 1);
    assert_eq!(pull(&w, &op, &rows), (ints(&[2, 7]), 3));
    // A window of no rows pulls none.
    let scan = w.scan(1);
    let op = w.limit(scan, 0, 0);
    assert_eq!(pull(&w, &op, &rows), (vec![], 0));
    // Without a window every row is pulled.
    let scan = w.scan(1);
    let op = w.filter(scan, |r| gt(&r[0], 7));
    assert_eq!(pull(&w, &op, &rows), (ints(&[8, 9]), 7));
}

#[test]
fn a_row_that_cannot_be_evaluated_fails_after_the_rows_before_it() {
    let mut w = World::new();
    let source = w.op(OpNode::Source, Does::Rows(ints(&[1, 2])), vec![]);
    let op = project_set(&mut w, source, SetFunc::GenerateSeries, 0, false, |_| (vec![], vec![]));
    let cx = context(0, None);
    for (step, failure) in [
        (1, Failure::Outside),
        (0, Failure::SetRefused(SetError::ZeroStep)),
    ] {
        let first = SetInput { scalars: vec![Value::Null], args: vec![num(1), num(2), num(step)] };
        let answers = vec![
            Answer::Rows { rows: ints(&[1, 2]), failed: false },
            Answer::SetInputs(vec![first]),
        ];
        match execute_op(&ColumnOrder, &op, &cx, &answers) {
            Flow::Failed { failure: f, used: 2 } => assert_eq!(f, failure),
            _ => panic!("the second row fails"),
        }
    }
}
