//! Operators on stored tables: scans, the rows that a locking query locks, and what the statistics of a
//! table say of a grouping.
use vstd::prelude::*;
use crate::error::Error;
use crate::exec;
use crate::exec::{Answer, AnswerView, Ask, AskView, Context, ContextView, Failure, Flow, FlowView, Tape};
use crate::operators;
use crate::recursive;
use crate::scan;
use crate::scan::{Located, Tuple};
use crate::setops::Rows;
use crate::shape;
use crate::shape::{Shape, ShapeNode};
use crate::sort;
use crate::types::ColumnType;
use crate::value::{Row, Value, ValueView};

verus! {

// ---------------------------------------------------------------- scans

/// The rows that a scan of a table with bound rows gives: narrowed to the kept columns, if any are
/// named, except in a stream.
pub open spec fn bound_scan(rows: Rows, keep: Seq<usize>, lazy: bool) -> Rows {
    if lazy || keep.len() == 0 {
        rows
    } else {
        rows.map_values(|row: Seq<ValueView>| scan::narrowed(row, keep, keep.len()))
    }
}

/// How a scan of these tuples ends: with the first tuple that cannot be read, or else as reading ended.
pub open spec fn scan_end(bad: Option<nat>, failed: bool) -> Option<Failure> {
    match bad {
        Some(at) => Some(Failure::MalformedTuple { offset: at as usize }),
        None => if failed {
            Some(Failure::Outside)
        } else {
            None
        },
    }
}

/// The rows of a table: those bound to it, or those of its tuples that are not hidden.
pub open spec fn scan_step(
    cx: ContextView,
    id: u64,
    table: u64,
    schema: Seq<ColumnType>,
    keep: Seq<usize>,
    tape: Tape,
    used: nat,
    lazy: bool,
) -> FlowView {
    match recursive::bound_rows(cx.bound, table, cx.bound.len()) {
        Some(rows) => FlowView::Rows(bound_scan(rows, keep, lazy), None, used),
        None => if used >= tape.len() {
            exec::asking(cx, id, AskView::Scan)
        } else {
            match tape[used as int] {
                AnswerView::Tuples(tuples, failed) => {
                    let (rows, bad) = scan::readable(
                        table,
                        tuples,
                        cx.hidden,
                        schema,
                        keep,
                        tuples.len(),
                    );
                    exec::settled(lazy, rows, scan_end(bad, failed), used + 1)
                },
                AnswerView::Failed => exec::failing(Failure::Outside, used + 1),
                _ => exec::failing(Failure::BadAnswer, used + 1),
            }
        },
    }
}

/// The failure that an unreadable tuple is.
pub open spec fn unreadable(e: Error) -> Failure {
    match e {
        Error::MalformedTuple { offset } => Failure::MalformedTuple { offset },
        _ => Failure::Outside,
    }
}

fn tuple_failure(e: Error) -> (r: Failure)
    ensures
        r == unreadable(e),
{
    match e {
        Error::MalformedTuple { offset } => Failure::MalformedTuple { offset },
        _ => Failure::Outside,
    }
}

pub(crate) fn scan_flow(
    cx: &Context,
    id: u64,
    table: u64,
    schema: &Vec<ColumnType>,
    keep: &Vec<usize>,
    tape: &Vec<Answer>,
    used: usize,
    lazy: bool,
) -> (r: Flow)
    ensures
        r@ == scan_step(cx@, id, table, schema@, keep@, tape.deep_view(), used as nat, lazy),
{
    if let Some(rows) = cx.bound.working_set(table) {
        if lazy || keep.len() == 0 {
            return Flow::Rows { rows, failed: None, used };
        }
        let ghost rv = rows.deep_view();
        let out = scan::project_rows(&rows, keep);
        assert(out.deep_view() =~= bound_scan(rv, keep@, lazy)) by {
            assert forall|i: int| 0 <= i < out@.len() implies out.deep_view()[i] == bound_scan(
                rv,
                keep@,
                lazy,
            )[i] by {
                assert(out.deep_view()[i] == out@[i].deep_view());
                assert(rv[i] == rows@[i].deep_view());
            }
        }
        return Flow::Rows { rows: out, failed: None, used };
    }
    if used >= tape.len() {
        return exec::needs(cx, id, Ask::Scan);
    }
    assert(tape.deep_view()[used as int] == tape@[used as int]@);
    match &tape[used] {
        Answer::Tuples { tuples, failed } => {
            proof {
                scan::law_readable_rows_are_scanned(
                    table,
                    tuples@,
                    cx.hidden@,
                    schema@,
                    keep@,
                    tuples@.len(),
                );
            }
            if lazy {
                let (rows, bad) = scan::read_rows(table, tuples, &cx.hidden, schema, keep);
                let end: Option<Failure> = match bad {
                    Some(e) => Some(tuple_failure(e)),
                    None => if *failed {
                        Some(Failure::Outside)
                    } else {
                        None
                    },
                };
                return exec::settle(true, rows, end, used + 1);
            }
            match scan::scan_rows_projected(table, tuples, &cx.hidden, schema, keep) {
                Ok(rows) => {
                    if *failed {
                        exec::fail(Failure::Outside, used + 1)
                    } else {
                        Flow::Rows { rows, failed: None, used: used + 1 }
                    }
                },
                Err(e) => exec::fail(tuple_failure(e), used + 1),
            }
        },
        Answer::Failed => exec::fail(Failure::Outside, used + 1),
        _ => exec::fail(Failure::BadAnswer, used + 1),
    }
}

/// A count as a row, where it can be one.
pub open spec fn counted(n: nat, used: nat) -> FlowView {
    if n > i64::MAX {
        exec::failing(Failure::TooManyRows, used)
    } else {
        FlowView::Rows(seq![seq![ValueView::Int(n as i64)]], None, used)
    }
}

/// How many rows a table has: of those bound to it, or of its tuples that are not hidden, none of which
/// is read.
pub open spec fn count_step(cx: ContextView, id: u64, table: u64, tape: Tape, used: nat) -> FlowView {
    match recursive::bound_rows(cx.bound, table, cx.bound.len()) {
        Some(rows) => counted(rows.len(), used),
        None => if used >= tape.len() {
            exec::asking(cx, id, AskView::Scan)
        } else {
            match tape[used as int] {
                AnswerView::Tuples(tuples, failed) => if failed {
                    exec::failing(Failure::Outside, used + 1)
                } else {
                    counted(scan::visible(table, tuples, cx.hidden, tuples.len()), used + 1)
                },
                AnswerView::Failed => exec::failing(Failure::Outside, used + 1),
                _ => exec::failing(Failure::BadAnswer, used + 1),
            }
        },
    }
}

fn count_row(n: usize, used: usize) -> (r: Flow)
    ensures
        r@ == counted(n as nat, used as nat),
{
    if n as u128 > i64::MAX as u128 {
        return exec::fail(Failure::TooManyRows, used);
    }
    let mut row: Row = Vec::new();
    row.push(Value::Int(n as i64));
    assert(row.deep_view() =~= seq![ValueView::Int(n as i64)]);
    let mut rows: Vec<Row> = Vec::new();
    rows.push(row);
    assert(rows.deep_view() =~= seq![seq![ValueView::Int(n as i64)]]);
    Flow::Rows { rows, failed: None, used }
}

pub(crate) fn count_flow(cx: &Context, id: u64, table: u64, tape: &Vec<Answer>, used: usize) -> (r: Flow)
    ensures
        r@ == count_step(cx@, id, table, tape.deep_view(), used as nat),
{
    if let Some(rows) = cx.bound.working_set(table) {
        return count_row(rows.len(), used);
    }
    if used >= tape.len() {
        return exec::needs(cx, id, Ask::Scan);
    }
    assert(tape.deep_view()[used as int] == tape@[used as int]@);
    match &tape[used] {
        Answer::Tuples { tuples, failed } => {
            if *failed {
                return exec::fail(Failure::Outside, used + 1);
            }
            count_row(scan::count_table(table, tuples, &cx.hidden), used + 1)
        },
        Answer::Failed => exec::fail(Failure::Outside, used + 1),
        _ => exec::fail(Failure::BadAnswer, used + 1),
    }
}

/// Counting a table without reading it gives the number of rows that scanning it gives, where the scan
/// succeeds.
pub proof fn law_count_is_the_number_of_scanned_rows(
    cx: ContextView,
    id: u64,
    table: u64,
    schema: Seq<ColumnType>,
    keep: Seq<usize>,
    tape: Tape,
    used: nat,
)
    requires
        scan_step(cx, id, table, schema, keep, tape, used, false) matches FlowView::Rows(rows, _, _)
            && rows.len() <= i64::MAX,
    ensures
        ({
            let scan = scan_step(cx, id, table, schema, keep, tape, used, false);
            count_step(cx, id, table, tape, used) == FlowView::Rows(
                seq![seq![ValueView::Int(scan->Rows_0.len() as i64)]],
                None,
                scan->Rows_2,
            )
        }),
{
    if used < tape.len() {
        if let AnswerView::Tuples(tuples, failed) = tape[used as int] {
            let n = tuples.len();
            scan::law_readable_rows_are_scanned(table, tuples, cx.hidden, schema, keep, n);
            if scan::scanned(table, tuples, cx.hidden, schema, keep, n) is Ok {
                scan::law_count_is_the_length_of_the_scan(table, tuples, cx.hidden, schema, keep, n);
            }
        }
    }
}

// ---------------------------------------------------------------- rows to lock

/// The addresses of those of the first `n` rows of which the predicate holds.
pub open spec fn targets(all: Seq<(u64, Seq<ValueView>)>, verdicts: Seq<ValueView>, n: nat) -> Seq<u64>
    decreases n,
{
    if n == 0 {
        Seq::empty()
    } else {
        let head = targets(all, verdicts, (n - 1) as nat);
        if operators::holds(verdicts[n - 1]) {
            head.push(all[n - 1].0)
        } else {
            head
        }
    }
}

/// The rows to lock, and the failure of the predicate that ends them if it has one.
pub enum TargetsStep {
    Targets(Seq<u64>, Option<Failure>, nat),
    Stop(FlowView),
}

/// The rows of a table that a locking query locks: those of which its predicate holds, or all of them.
pub open spec fn targets_step(
    cx: ContextView,
    id: u64,
    table: u64,
    schema: Seq<ColumnType>,
    predicate: bool,
    tape: Tape,
    used: nat,
) -> TargetsStep {
    if used >= tape.len() {
        TargetsStep::Stop(exec::asking(cx, id, AskView::Scan))
    } else {
        match tape[used as int] {
            AnswerView::Tuples(tuples, failed) => match scan::scanned(
                table,
                tuples,
                cx.hidden,
                schema,
                Seq::empty(),
                tuples.len(),
            ) {
                Err(at) => TargetsStep::Stop(
                    exec::failing(Failure::MalformedTuple { offset: at as usize }, used + 1),
                ),
                Ok(all) => if failed {
                    TargetsStep::Stop(exec::failing(Failure::Outside, used + 1))
                } else if !predicate {
                    TargetsStep::Targets(
                        all.map_values(|t: (u64, Seq<ValueView>)| t.0),
                        None,
                        used + 1,
                    )
                } else if used + 1 >= tape.len() {
                    TargetsStep::Stop(exec::asking(cx, id, AskView::Verdicts(scan::rows_of(all))))
                } else {
                    match tape[(used + 1) as int] {
                        AnswerView::Values(vs) => if vs.len() > all.len() {
                            TargetsStep::Stop(exec::failing(Failure::BadAnswer, used + 2))
                        } else {
                            TargetsStep::Targets(
                                targets(all, vs, vs.len()),
                                exec::short(vs.len(), all.len(), None),
                                used + 2,
                            )
                        },
                        AnswerView::Failed => TargetsStep::Stop(
                            exec::failing(Failure::Outside, used + 2),
                        ),
                        _ => TargetsStep::Stop(exec::failing(Failure::BadAnswer, used + 2)),
                    }
                },
            },
            AnswerView::Failed => TargetsStep::Stop(exec::failing(Failure::Outside, used + 1)),
            _ => TargetsStep::Stop(exec::failing(Failure::BadAnswer, used + 1)),
        }
    }
}

fn addresses(all: &Vec<Located>) -> (r: Vec<u64>)
    ensures
        r@ == all.deep_view().map_values(|t: (u64, Seq<ValueView>)| t.0),
{
    let mut out: Vec<u64> = Vec::new();
    let mut i: usize = 0;
    while i < all.len()
        invariant
            i <= all@.len(),
            out@.len() == i,
            forall|k: int| 0 <= k < i ==> #[trigger] out@[k] == all@[k].tid,
        decreases all@.len() - i,
    {
        out.push(all[i].tid);
        i += 1;
    }
    assert(out@ =~= all.deep_view().map_values(|t: (u64, Seq<ValueView>)| t.0));
    out
}

fn rows_alone(all: &Vec<Located>) -> (r: Vec<Row>)
    ensures
        r.deep_view() == scan::rows_of(all.deep_view()),
{
    let mut out: Vec<Row> = Vec::new();
    let mut i: usize = 0;
    while i < all.len()
        invariant
            i <= all@.len(),
            out@.len() == i,
            forall|k: int| 0 <= k < i ==> (#[trigger] out@[k]).deep_view() == all@[k].row.deep_view(),
        decreases all@.len() - i,
    {
        out.push(sort::clone_row(&all[i].row));
        i += 1;
    }
    assert(out.deep_view() =~= scan::rows_of(all.deep_view()));
    out
}

fn passing(all: &Vec<Located>, verdicts: &Vec<Value>) -> (r: Vec<u64>)
    requires
        verdicts@.len() <= all@.len(),
    ensures
        r@ == targets(all.deep_view(), verdicts.deep_view(), verdicts@.len()),
{
    let mut out: Vec<u64> = Vec::new();
    let mut i: usize = 0;
    while i < verdicts.len()
        invariant
            verdicts@.len() <= all@.len(),
            i <= verdicts@.len(),
            out@ == targets(all.deep_view(), verdicts.deep_view(), i as nat),
        decreases verdicts@.len() - i,
    {
        assert(verdicts.deep_view()[i as int] == verdicts@[i as int]@);
        assert(all.deep_view()[i as int] == all@[i as int].deep_view());
        if operators::is_true(&verdicts[i]) {
            out.push(all[i].tid);
        }
        i += 1;
    }
    out
}

pub(crate) fn find_targets(
    cx: &Context,
    id: u64,
    table: u64,
    schema: &Vec<ColumnType>,
    predicate: bool,
    tape: &Vec<Answer>,
    used: usize,
) -> (r: Result<(Vec<u64>, Option<Failure>, usize), Flow>)
    ensures
        match targets_step(cx@, id, table, schema@, predicate, tape.deep_view(), used as nat) {
            TargetsStep::Targets(ts, end, u) => r matches Ok(x) && x.0@ == ts && x.1 == end && x.2 == u,
            TargetsStep::Stop(f) => r matches Err(flow) && flow@ == f,
        },
{
    if used >= tape.len() {
        return Err(exec::needs(cx, id, Ask::Scan));
    }
    let total: usize = tape.len();
    assert(tape.deep_view()[used as int] == tape@[used as int]@);
    match &tape[used] {
        Answer::Tuples { tuples, failed } => {
            let whole: Vec<usize> = Vec::new();
            assert(whole@ =~= Seq::<usize>::empty());
            match scan::scan_table(table, tuples, &cx.hidden, schema, &whole) {
                Err(e) => Err(exec::fail(tuple_failure(e), used + 1)),
                Ok(all) => {
                    if *failed {
                        return Err(exec::fail(Failure::Outside, used + 1));
                    }
                    if !predicate {
                        return Ok((addresses(&all), None, used + 1));
                    }
                    if used + 1 >= total {
                        return Err(exec::needs(cx, id, Ask::Verdicts(rows_alone(&all))));
                    }
                    let next: usize = used + 1;
                    assert(tape.deep_view()[next as int] == tape@[next as int]@);
                    match &tape[next] {
                        Answer::Values(vs) => {
                            if vs.len() > all.len() {
                                return Err(exec::fail(Failure::BadAnswer, next + 1));
                            }
                            let end = exec::shortfall(vs.len(), all.len(), None);
                            Ok((passing(&all, vs), end, next + 1))
                        },
                        Answer::Failed => Err(exec::fail(Failure::Outside, next + 1)),
                        _ => Err(exec::fail(Failure::BadAnswer, next + 1)),
                    }
                },
            }
        },
        Answer::Failed => Err(exec::fail(Failure::Outside, used + 1)),
        _ => Err(exec::fail(Failure::BadAnswer, used + 1)),
    }
}

// ---------------------------------------------------------------- grouping

/// Whether a grouping is done by sorting, or where finding out stopped.
pub enum GroupStep {
    Sorted(bool, nat),
    Stop(FlowView),
}

/// Whether the estimated state of a grouping takes at most half the spill budget.
pub open spec fn groups_fit(estimate: Option<u64>, threshold: usize) -> bool {
    match estimate {
        Some(e) => e <= threshold / 2,
        None => false,
    }
}

/// The table that a shape scans.
pub open spec fn scanned_table(s: Shape) -> u64 {
    match s.node {
        ShapeNode::SeqScan { table, .. } => table,
        _ => 0,
    }
}

/// Grouping under a spill budget sorts, except where the statistics of the table beneath bound the
/// state of its groups to half the budget.
pub open spec fn group_step(
    cx: ContextView,
    id: u64,
    input: Shape,
    keys: Seq<Option<usize>>,
    threshold: usize,
    tape: Tape,
    used: nat,
) -> GroupStep {
    match shape::scan_beneath(input) {
        None => GroupStep::Sorted(true, used),
        Some(s) => if used >= tape.len() {
            GroupStep::Stop(exec::asking(cx, id, AskView::Stats(scanned_table(s))))
        } else {
            match tape[used as int] {
                AnswerView::Stats(stats) => GroupStep::Sorted(
                    !groups_fit(shape::group_state(input, keys, stats), threshold),
                    used + 1,
                ),
                AnswerView::Failed => GroupStep::Stop(exec::failing(Failure::Outside, used + 1)),
                _ => GroupStep::Stop(exec::failing(Failure::BadAnswer, used + 1)),
            }
        },
    }
}

pub(crate) fn sorts_groups(
    cx: &Context,
    id: u64,
    input: &Shape,
    keys: &Vec<Option<usize>>,
    threshold: usize,
    tape: &Vec<Answer>,
    used: usize,
) -> (r: Result<(bool, usize), Flow>)
    ensures
        match group_step(cx@, id, *input, keys@, threshold, tape.deep_view(), used as nat) {
            GroupStep::Sorted(sorted, u) => r matches Ok(x) && x.0 == sorted && x.1 == u,
            GroupStep::Stop(f) => r matches Err(flow) && flow@ == f,
        },
{
    let table: u64 = match shape::layout_preserved_scan(input) {
        None => {
            return Ok((true, used));
        },
        Some(s) => match &s.node {
            ShapeNode::SeqScan { table, .. } => *table,
            _ => 0,
        },
    };
    if used >= tape.len() {
        return Err(exec::needs(cx, id, Ask::Stats(table)));
    }
    assert(tape.deep_view()[used as int] == tape@[used as int]@);
    match &tape[used] {
        Answer::Stats(stats) => {
            let known: Option<&Vec<shape::ColumnSummary>> = match stats {
                Some(s) => Some(s),
                None => None,
            };
            let fits: bool = match shape::estimated_group_state_bytes(input, keys, known) {
                Some(bytes) => bytes <= (threshold / 2) as u64,
                None => false,
            };
            Ok((!fits, used + 1))
        },
        Answer::Failed => Err(exec::fail(Failure::Outside, used + 1)),
        _ => Err(exec::fail(Failure::BadAnswer, used + 1)),
    }
}

} // verus!
