//! What each operator of a plan makes of its input and of the answers it gets.
use vstd::prelude::*;
use crate::error::Stage;
use crate::exec;
use crate::exec::nearest;
use crate::exec::plan;
use crate::exec::plan::LocksStep;
use crate::exec::tables;
use crate::exec::{
    AnswerView, AskView, ContextView, Failure, FlowView, LockReply, OnceCte, OpNode, Operator, RecursiveCte,
    RequestView, Tape,
};
use crate::memory;
use crate::operators;
use crate::operators::JoinKind;
use crate::order::ValueOrder;
use crate::recursive;
use crate::recursive::BindingView;
use crate::setops;
use crate::setops::Rows;
use crate::sort;
use crate::types::ColumnType;
use crate::value::ValueView;
use crate::vector::search::{KnnAsk, KnnStepView};
use crate::window::run;

verus! {

/// A request of an operator, with the outer rows in force.
pub open spec fn asks(cx: ContextView, op: Operator, ask: AskView) -> FlowView {
    FlowView::Needs(RequestView { id: op.id, outer: cx.outer, ask })
}

// ---------------------------------------------------------------- budget

/// Executed rows that exceed the budget of memory fail with what they take; others are given, and without
/// a budget all are.
pub proof fn law_rows_over_budget_fail(cx: ContextView, rows: Rows, used: nat)
    requires
        memory::rows_size(rows, rows.len()) <= usize::MAX,
    ensures
        ({
            let size = memory::rows_size(rows, rows.len());
            let flow = exec::within_budget(cx, FlowView::Rows(rows, None, used));
            &&& cx.budget == 0 || size <= cx.budget ==> flow == FlowView::Rows(rows, None, used)
            &&& cx.budget != 0 && size > cx.budget ==> flow == FlowView::Failed(
                Failure::OutOfMemory { budget: cx.budget, used: size as usize, stage: Stage::Materialized },
                used,
            )
        }),
{
}

// ---------------------------------------------------------------- single inputs

/// An executed filter asks for the verdict on each row and keeps the rows that it is true of. Fewer verdicts
/// than rows are a failure.
pub proof fn law_filter_asks_and_keeps<O: ValueOrder>(
    o: &O,
    op: Operator,
    cx: ContextView,
    tape: Tape,
    used: nat,
    rows: Rows,
    u: nat,
)
    requires
        op.node is Filter,
        op.children@.len() == 1,
        plan::flow_of(o, op.children@[0], cx, tape, used, false) == FlowView::Rows(rows, None, u),
    ensures
        u >= tape.len() ==> plan::executed(o, op, cx, tape, used) == asks(cx, op, AskView::Verdicts(rows)),
        u < tape.len() ==> (tape[u as int] matches AnswerView::Values(vs) ==> {
            &&& vs.len() == rows.len() ==> plan::executed(o, op, cx, tape, used) == FlowView::Rows(
                operators::kept(rows, vs, rows.len()),
                None,
                u + 1,
            )
            &&& vs.len() < rows.len() ==> plan::executed(o, op, cx, tape, used) == FlowView::Failed(
                Failure::Outside,
                u + 1,
            )
        }),
        u < tape.len() && tape[u as int] is Failed ==> plan::executed(o, op, cx, tape, used)
            == FlowView::Failed(Failure::Outside, u + 1),
{
}

/// An executed projection asks for each row's projection and gives it; the sequence calls in it are made
/// only where there is one row.
pub proof fn law_projection_asks_and_gives<O: ValueOrder>(
    o: &O,
    op: Operator,
    cx: ContextView,
    tape: Tape,
    used: nat,
    rows: Rows,
    u: nat,
)
    requires
        op.node is Project,
        op.children@.len() == 1,
        plan::flow_of(o, op.children@[0], cx, tape, used, false) == FlowView::Rows(rows, None, u),
    ensures
        u >= tape.len() ==> plan::executed(o, op, cx, tape, used) == asks(
            cx,
            op,
            AskView::Project(rows, op.node->sequence_calls && rows.len() == 1),
        ),
        u < tape.len() ==> (tape[u as int] matches AnswerView::Rows(out, failed) ==> {
            &&& out.len() == rows.len() ==> plan::executed(o, op, cx, tape, used) == FlowView::Rows(
                out,
                None,
                u + 1,
            )
            &&& out.len() < rows.len() ==> plan::executed(o, op, cx, tape, used) == FlowView::Failed(
                Failure::Outside,
                u + 1,
            )
        }),
{
}

/// An executed limit gives the rows after the offset, as many as it says; a failure of its input after them
/// does not matter to it.
pub proof fn law_limit_gives_its_window<O: ValueOrder>(
    o: &O,
    op: Operator,
    cx: ContextView,
    tape: Tape,
    used: nat,
    rows: Rows,
    failed: Option<Failure>,
    u: nat,
)
    requires
        op.node is Limit,
        op.children@.len() == 1,
        plan::flow_of(o, op.children@[0], cx, tape, used, true) == FlowView::Rows(rows, failed, u),
    ensures
        ({
            let count = op.node->count as nat;
            let offset = op.node->offset as nat;
            &&& failed is None || rows.len() >= offset + count ==> plan::executed(o, op, cx, tape, used)
                == FlowView::Rows(operators::limit_window(rows, offset, count), None, u)
            &&& (failed matches Some(f) && count > 0 && rows.len() < offset + count) ==> plan::executed(
                o,
                op,
                cx,
                tape,
                used,
            ) == FlowView::Failed(failed->Some_0, u)
        }),
{
}

/// An executed sort asks for the keys of the rows and gives the rows in their order.
pub proof fn law_sort_gives_the_rows_by_key<O: ValueOrder>(
    o: &O,
    op: Operator,
    cx: ContextView,
    tape: Tape,
    used: nat,
    rows: Rows,
    keys: Rows,
    u: nat,
)
    requires
        op.node matches OpNode::Sort { has_subquery: false, ties: None, top_n: None, .. },
        op.children@.len() == 1,
        plan::flow_of(o, op.children@[0], cx, tape, used, cx.spill is Some) == FlowView::Rows(rows, None, u),
    ensures
        u >= tape.len() ==> plan::executed(o, op, cx, tape, used) == asks(cx, op, AskView::Keys(rows)),
        u < tape.len() && tape[u as int] == AnswerView::Rows(keys, false) && keys.len() == rows.len() && (
        forall|i: int| 0 <= i < keys.len() ==> (#[trigger] keys[i]).len() == op.node->Sort_keys@.len())
            ==> plan::executed(o, op, cx, tape, used) == FlowView::Rows(
            sort::picked(rows, sort::sorted_order(o, keys, op.node->Sort_keys@)),
            None,
            u + 1,
        ),
{
}

/// An executed `DISTINCT` that does not spill gives the first of the rows that are not distinct, and
/// `DISTINCT ON` the first row of each key.
pub proof fn law_distinct_gives_the_first_rows<O: ValueOrder>(
    o: &O,
    op: Operator,
    cx: ContextView,
    tape: Tape,
    used: nat,
    rows: Rows,
    keys: Rows,
    u: nat,
)
    requires
        op.children@.len() == 1,
        cx.spill is None,
        plan::flow_of(o, op.children@[0], cx, tape, used, false) == FlowView::Rows(rows, None, u),
    ensures
        op.node is Distinct ==> plan::executed(o, op, cx, tape, used) == FlowView::Rows(
            setops::distinct(o, rows),
            None,
            u,
        ),
        op.node is DistinctOn && u >= tape.len() ==> plan::executed(o, op, cx, tape, used) == asks(
            cx,
            op,
            AskView::Keys(rows),
        ),
        op.node is DistinctOn && u < tape.len() && tape[u as int] == AnswerView::Rows(keys, false)
            && keys.len() == rows.len() ==> plan::executed(o, op, cx, tape, used) == FlowView::Rows(
            operators::first_by_key(o, rows, keys, rows.len()),
            None,
            u + 1,
        ),
{
}

/// A plan without a source has one row, without columns.
pub proof fn law_one_row_is_one_row<O: ValueOrder>(o: &O, op: Operator, cx: ContextView, tape: Tape, used: nat)
    requires
        op.node is OneRow,
        op.children@.len() == 0,
    ensures
        plan::executed(o, op, cx, tape, used) matches FlowView::Rows(rows, None, u) && u == used && rows.len()
            == 1 && rows[0].len() == 0,
{
}

/// What the input asks for, or fails with, the operator asks for, or fails with.
pub proof fn law_requests_and_failures_come_through<O: ValueOrder>(
    o: &O,
    op: Operator,
    cx: ContextView,
    tape: Tape,
    used: nat,
    flow: FlowView,
)
    requires
        op.node is Filter || op.node is Project || op.node is DistinctOn,
        op.children@.len() == 1,
        plan::flow_of(o, op.children@[0], cx, tape, used, false) == flow,
        !(flow is Rows),
    ensures
        plan::executed(o, op, cx, tape, used) == flow,
{
}

// ---------------------------------------------------------------- joins

/// An executed hash join that is built on the right asks for the matches of each left row and joins by
/// them.
pub proof fn law_hash_join_joins_by_matches<O: ValueOrder>(
    o: &O,
    op: Operator,
    cx: ContextView,
    tape: Tape,
    used: nat,
    left: Rows,
    u: nat,
    right: Rows,
    v: nat,
    ms: Seq<Seq<usize>>,
)
    requires
        op.node matches OpNode::HashJoin { merges: false, .. },
        op.children@.len() == 2,
        cx.spill is None,
        plan::flow_of(o, op.children@[0], cx, tape, used, false) == FlowView::Rows(left, None, u),
        plan::flow_of(o, op.children@[1], cx, tape, u, false) == FlowView::Rows(right, None, v),
    ensures
        ({
            let kind = op.node->HashJoin_kind;
            let small = kind is Inner && left.len() * 4 <= right.len();
            let out = plan::executed(o, op, cx, tape, used);
            &&& !small && v >= tape.len() ==> out == asks(cx, op, AskView::Match(left, right))
            &&& small && v >= tape.len() ==> out == asks(cx, op, AskView::MatchLeft(left, right))
            &&& !small && v < tape.len() && tape[v as int] == AnswerView::Matches(ms) && ms.len() == left.len()
                ==> out == FlowView::Rows(
                operators::joined(
                    left,
                    right,
                    ms,
                    kind,
                    op.node->left_width as nat,
                    op.node->HashJoin_right_width as nat,
                ),
                None,
                v + 1,
            )
            &&& small && v < tape.len() && tape[v as int] == AnswerView::Matches(ms) && ms.len()
                == right.len() ==> out == FlowView::Rows(
                operators::probed_right(left, right, ms, right.len()),
                None,
                v + 1,
            )
        }),
{
}

/// A nested-loop join executes its left side, then its right side, and asks for their join.
pub proof fn law_nested_loops_join_left_with_right<O: ValueOrder>(
    o: &O,
    op: Operator,
    cx: ContextView,
    tape: Tape,
    used: nat,
    left: Rows,
    u: nat,
    right: Rows,
    v: nat,
    out: Rows,
)
    requires
        op.node is NestedLoopJoin,
        op.children@.len() == 2,
        plan::flow_of(o, op.children@[0], cx, tape, used, false) == FlowView::Rows(left, None, u),
        plan::flow_of(o, op.children@[1], cx, tape, u, false) == FlowView::Rows(right, None, v),
    ensures
        v >= tape.len() ==> plan::executed(o, op, cx, tape, used) == asks(cx, op, AskView::Join(left, right)),
        v < tape.len() && tape[v as int] == AnswerView::Rows(out, false) ==> plan::executed(
            o,
            op,
            cx,
            tape,
            used,
        ) == FlowView::Rows(out, None, v + 1),
{
    assert(plan::executed(o, op, cx, tape, used) == plan::join_from(o, op, cx, tape, used, false));
}

/// A lateral join executes its right side anew for each left row, with that row as the outer one, and adds
/// the pairs of which the condition is true.
pub proof fn law_lateral_join_goes_row_by_row<O: ValueOrder>(
    o: &O,
    op: Operator,
    kind: JoinKind,
    right_width: usize,
    cx: ContextView,
    tape: Tape,
    used: nat,
    left: Rows,
    i: nat,
    out: Rows,
    right: Rows,
    u: nat,
    vs: Seq<ValueView>,
)
    requires
        op.children@.len() == 2,
        i < left.len(),
        plan::flow_of(
            o,
            op.children@[1],
            ContextView { outer: cx.outer.push(left[i as int]), ..cx },
            tape,
            used,
            false,
        ) == FlowView::Rows(right, None, u),
    ensures
        plan::lateral_from(o, op, kind, right_width, cx, tape, used, left, left.len(), out) == FlowView::Rows(
            out,
            None,
            used,
        ),
        u < tape.len() && tape[u as int] == AnswerView::Values(vs) && vs.len() == right.len()
            ==> plan::lateral_from(o, op, kind, right_width, cx, tape, used, left, i, out)
            == plan::lateral_from(
            o,
            op,
            kind,
            right_width,
            cx,
            tape,
            u + 1,
            left,
            i + 1,
            out + operators::lateral_rows(
                operators::all_pairs(left[i as int], right),
                vs,
                left[i as int],
                kind,
                right_width as nat,
            ),
        ),
{
}

// ---------------------------------------------------------------- locks

/// Rows are locked one after the other. One that is locked elsewhere is hidden where locked rows are
/// skipped; else the statement fails at once, as not available with `NOWAIT` and as a conflict without.
pub proof fn law_locks_are_taken_in_turn(
    cx: ContextView,
    id: u64,
    table: u64,
    skip_locked: bool,
    nowait: bool,
    rows: Seq<u64>,
    i: nat,
    hidden: Seq<(u64, u64)>,
    tape: Tape,
    used: nat,
)
    ensures
        i >= rows.len() ==> plan::locks_from(
            cx,
            id,
            table,
            skip_locked,
            nowait,
            rows,
            i,
            hidden,
            tape,
            used,
        ) == LocksStep::Done(hidden, used),
        i < rows.len() && used >= tape.len() ==> plan::locks_from(
            cx,
            id,
            table,
            skip_locked,
            nowait,
            rows,
            i,
            hidden,
            tape,
            used,
        ) == LocksStep::Stop(
            FlowView::Needs(RequestView { id, outer: cx.outer, ask: AskView::Lock(rows[i as int]) }),
        ),
        i < rows.len() && used < tape.len() && tape[used as int] == AnswerView::Lock(LockReply::Taken)
            ==> plan::locks_from(cx, id, table, skip_locked, nowait, rows, i, hidden, tape, used)
            == plan::locks_from(
            cx,
            id,
            table,
            skip_locked,
            nowait,
            rows,
            i + 1,
            hidden,
            tape,
            used + 1,
        ),
        i < rows.len() && used < tape.len() && tape[used as int] == AnswerView::Lock(LockReply::Conflict) ==> {
            let out = plan::locks_from(cx, id, table, skip_locked, nowait, rows, i, hidden, tape, used);
            &&& skip_locked ==> out == plan::locks_from(
                cx,
                id,
                table,
                skip_locked,
                nowait,
                rows,
                i + 1,
                hidden.push((table, rows[i as int])),
                tape,
                used + 1,
            )
            &&& !skip_locked && nowait ==> out == LocksStep::Stop(
                FlowView::Failed(Failure::LockNotAvailable, used + 1),
            )
            &&& !skip_locked && !nowait ==> out == LocksStep::Stop(
                FlowView::Failed(Failure::LockConflict, used + 1),
            )
        },
{
}

// ---------------------------------------------------------------- queries that are bound

/// A recursive query ends, with all rows found, where a round added nothing; it fails after ten million
/// rounds.
pub proof fn law_recursion_ends<O: ValueOrder>(
    o: &O,
    op: Operator,
    term: nat,
    cte: RecursiveCte,
    cx: ContextView,
    tape: Tape,
    used: nat,
    known: Rows,
    working: Rows,
    n: nat,
)
    requires
        term < op.children@.len(),
    ensures
        working.len() == 0 ==> plan::rounds_from(o, op, term, cte, cx, tape, used, known, working, n)
            == FlowView::Rows(known, None, used),
        working.len() > 0 && n >= 10_000_000 ==> plan::rounds_from(
            o,
            op,
            term,
            cte,
            cx,
            tape,
            used,
            known,
            working,
            n,
        ) == FlowView::Failed(Failure::RecursionLimit, used),
{
}

/// A round of a recursive query executes the recursive term over the rows that the last round added, and
/// adds what it produced: all of it with `UNION ALL`, else what was not known. The next round goes on with
/// what was added, unless that exceeds the budget of memory.
#[verifier::rlimit(60)]
#[verifier::spinoff_prover]
pub proof fn law_recursion_goes_on_with_what_was_added<O: ValueOrder>(
    o: &O,
    op: Operator,
    term: nat,
    cte: RecursiveCte,
    cx: ContextView,
    tape: Tape,
    used: nat,
    known: Rows,
    working: Rows,
    n: nat,
    produced: Rows,
    u: nat,
)
    requires
        term < op.children@.len(),
        working.len() > 0,
        n < 10_000_000,
        plan::flow_of(
            o,
            op.children@[term as int],
            ContextView { bound: cx.bound.push(BindingView { table: cte.table, rows: working }), ..cx },
            tape,
            used,
            false,
        ) == FlowView::Rows(produced, None, u),
    ensures
        ({
            let added = if cte.union_all {
                produced
            } else {
                recursive::added_rows(o, false, known, produced)
            };
            let found = known + added;
            let out = plan::rounds_from(o, op, term, cte, cx, tape, used, known, working, n);
            &&& added.len() == 0 ==> out == FlowView::Rows(known, None, u)
            &&& added.len() > 0 && (cx.budget == 0 || memory::rows_size(found, found.len()) <= cx.budget)
                ==> out == plan::rounds_from(o, op, term, cte, cx, tape, u, found, added, n + 1)
            &&& added.len() > 0 && 0 < cx.budget < usize::MAX && memory::rows_size(found, found.len()) > cx.budget ==> (
            out matches FlowView::Failed(Failure::OutOfMemory { budget, stage, .. }, v) && v == u && budget
                == cx.budget && stage is Recursive)
        }),
{
    let added = recursive::added_rows(o, cte.union_all, known, produced);
    let inner = plan::with_binding(cx, cte.table, working);
    assert(inner == ContextView {
        bound: cx.bound.push(BindingView { table: cte.table, rows: working }),
        ..cx
    });
    assert(cte.union_all ==> added == produced);
}

/// A recursive query starts with the rows of its base, without those that are not distinct unless it is a
/// `UNION ALL`; what it found is bound for the queries after it and the body.
pub proof fn law_recursion_starts_with_its_base<O: ValueOrder>(
    o: &O,
    op: Operator,
    ctes: Seq<RecursiveCte>,
    cx: ContextView,
    tape: Tape,
    used: nat,
    k: nat,
    done: Seq<BindingView>,
    base: Rows,
    u: nat,
    found: Rows,
    v: nat,
)
    requires
        op.children@.len() == 2 * ctes.len() + 1,
    ensures
        k == ctes.len() ==> plan::recursive_from(o, op, ctes, cx, tape, used, k, done) == plan::flow_of(
            o,
            op.children@[2 * ctes.len() as int],
            ContextView { bound: cx.bound + done, ..cx },
            tape,
            used,
            false,
        ),
        k < ctes.len() && plan::flow_of(o, op.children@[2 * k as int], cx, tape, used, false)
            == FlowView::Rows(base, None, u) && plan::rounds_from(
            o,
            op,
            2 * k + 1,
            ctes[k as int],
            cx,
            tape,
            u,
            if ctes[k as int].union_all {
                base
            } else {
                setops::distinct(o, base)
            },
            if ctes[k as int].union_all {
                base
            } else {
                setops::distinct(o, base)
            },
            0,
        ) == FlowView::Rows(found, None, v) ==> plan::recursive_from(o, op, ctes, cx, tape, used, k, done)
            == plan::recursive_from(
            o,
            op,
            ctes,
            cx,
            tape,
            v,
            k + 1,
            done.push(BindingView { table: ctes[k as int].table, rows: found }),
        ),
{
}

/// A query that is run once is bound for those after it and for the body; one that modifies is asked for.
pub proof fn law_queries_are_run_once<O: ValueOrder>(
    o: &O,
    op: Operator,
    ctes: Seq<OnceCte>,
    cx: ContextView,
    tape: Tape,
    used: nat,
    k: nat,
    rows: Rows,
    u: nat,
)
    requires
        op.children@.len() == ctes.len() + 1,
    ensures
        k == ctes.len() ==> plan::modifying_from(o, op, ctes, cx, tape, used, k) == plan::flow_of(
            o,
            op.children@[ctes.len() as int],
            cx,
            tape,
            used,
            false,
        ),
        k < ctes.len() && ctes[k as int].reads && plan::flow_of(o, op.children@[k as int], cx, tape, used, false)
            == FlowView::Rows(rows, None, u) ==> plan::modifying_from(o, op, ctes, cx, tape, used, k)
            == plan::modifying_from(
            o,
            op,
            ctes,
            ContextView {
                bound: cx.bound.push(BindingView { table: ctes[k as int].table, rows }),
                ..cx
            },
            tape,
            u,
            k + 1,
        ),
        k < ctes.len() && !ctes[k as int].reads && used < tape.len() && tape[used as int] == AnswerView::Rows(
            rows,
            false,
        ) ==> plan::modifying_from(o, op, ctes, cx, tape, used, k) == plan::modifying_from(
            o,
            op,
            ctes,
            ContextView {
                bound: cx.bound.push(BindingView { table: ctes[k as int].table, rows }),
                ..cx
            },
            tape,
            used + 1,
            k + 1,
        ),
        k < ctes.len() && !ctes[k as int].reads && used >= tape.len() ==> plan::modifying_from(
            o,
            op,
            ctes,
            cx,
            tape,
            used,
            k,
        ) == FlowView::Needs(
            RequestView { id: op.children@[k as int].id, outer: cx.outer, ask: AskView::Modify },
        ),
{
}

// ---------------------------------------------------------------- tables

/// A scan of a table that rows are bound to gives those rows; one of any other table asks for its tuples.
pub proof fn law_bound_rows_are_scanned(
    cx: ContextView,
    id: u64,
    table: u64,
    schema: Seq<ColumnType>,
    keep: Seq<usize>,
    tape: Tape,
    used: nat,
    rows: Rows,
)
    ensures
        ({
            let inner = ContextView { bound: cx.bound.push(BindingView { table, rows }), ..cx };
            let unbound = ContextView { bound: Seq::empty(), ..cx };
            &&& tables::scan_step(inner, id, table, schema, Seq::empty(), tape, used, false) == FlowView::Rows(
                rows,
                None,
                used,
            )
            &&& used >= tape.len() ==> tables::scan_step(unbound, id, table, schema, keep, tape, used, false)
                == FlowView::Needs(RequestView { id, outer: cx.outer, ask: AskView::Scan })
            &&& rows.len() <= i64::MAX ==> tables::count_step(inner, id, table, tape, used) == FlowView::Rows(
                seq![seq![ValueView::Int(rows.len() as i64)]],
                None,
                used,
            )
        }),
{
    recursive::law_binding_is_read_back(cx.bound, BindingView { table, rows }, table);
}

/// The rows to lock are those of which the predicate is true.
pub proof fn law_rows_that_pass_are_locked(
    all: Seq<(u64, Seq<ValueView>)>,
    verdicts: Seq<ValueView>,
    n: nat,
)
    requires
        n < all.len(),
        n < verdicts.len(),
    ensures
        tables::targets(all, verdicts, 0) == Seq::<u64>::empty(),
        verdicts[n as int] == ValueView::Bool(true) ==> tables::targets(all, verdicts, n + 1) == tables::targets(
            all,
            verdicts,
            n,
        ).push(all[n as int].0),
        verdicts[n as int] != ValueView::Bool(true) ==> tables::targets(all, verdicts, n + 1) == tables::targets(
            all,
            verdicts,
            n,
        ),
{
}

/// Groups are held in memory where what they take is known to be no more than half the budget.
pub proof fn law_groups_are_held_within_half_the_budget(estimate: u64, threshold: usize)
    ensures
        2 * estimate <= threshold ==> tables::groups_fit(Some(estimate), threshold),
        2 * estimate > threshold ==> !tables::groups_fit(Some(estimate), threshold),
        !tables::groups_fit(None, threshold),
{
}

// ---------------------------------------------------------------- window columns

/// The columns of window functions stand behind those of the row, in the order of the functions.
pub proof fn law_window_columns_stand_behind_the_row(
    row: Seq<ValueView>,
    columns: Seq<Seq<ValueView>>,
    i: int,
    j: int,
)
    requires
        0 <= j < columns.len(),
        0 <= i < columns[j].len(),
    ensures
        run::with_columns(row, columns, i).len() == row.len() + columns.len(),
        run::with_columns(row, columns, i).take(row.len() as int) == row,
        run::with_columns(row, columns, i)[row.len() + j] == columns[j][i],
{
    assert(run::with_columns(row, columns, i).take(row.len() as int) =~= row);
}

/// A vector search is made with the number of components of the query; a query that is no vector finds
/// nothing.
pub proof fn law_queries_are_vectors(
    cx: ContextView,
    id: u64,
    column: usize,
    k: u64,
    filtered: bool,
    tape: Tape,
    used: nat,
    query: ValueView,
)
    requires
        used < tape.len(),
        tape[used as int] == AnswerView::Values(seq![query]),
    ensures
        !(query is Vector) ==> nearest::nearest_step(cx, id, column, k, filtered, tape, used) == FlowView::Rows(
            Seq::empty(),
            None,
            used + 1,
        ),
        query is Vector && k > 0 && used + 1 == tape.len() ==> nearest::nearest_step(
            cx,
            id,
            column,
            k,
            filtered,
            tape,
            used,
        ) == FlowView::Needs(
            RequestView { id, outer: cx.outer, ask: AskView::Search(KnnStepView::Ask(KnnAsk::Index)) },
        ),
        (query matches ValueView::Vector(v) && v.len() <= usize::MAX) ==> nearest::search_for(
            query,
            column,
            k,
            filtered,
        ).query == Some(query->Vector_0.len() as usize),
{
    assert(seq![query][0] == query);
}

} // verus!
