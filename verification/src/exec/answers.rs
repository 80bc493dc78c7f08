//! The answers that a plan uses: its rows depend on these alone, wherever on a tape they stand.
use vstd::prelude::*;
use crate::exec;
use crate::exec::nearest;
use crate::exec::plan;
use crate::exec::plan::{InputsStep, LocksStep};
use crate::exec::sets;
use crate::exec::sets::ElementsStep;
use crate::exec::tables;
use crate::exec::windows;
use crate::exec::windows::ColumnStep;
use crate::exec::{AnswerView, AskView, ContextView, FlowView, OnceCte, OpNode, Operator, RecursiveCte, SetInputView, Tape, TiesLimit};
use crate::operators;
use crate::operators::{ExpansionView, JoinKind};
use crate::order::{SortKey, ValueOrder};
use crate::recursive;
use crate::recursive::BindingView;
use crate::series::{SetFunc, TaskView};
use crate::setops;
use crate::setops::{Rows, SetTree};
use crate::value::ValueView;
use crate::vector::search;
use crate::vector::search::{KnnAnswerView, KnnQuery};
use crate::window::run::Window;

verus! {

/// Two tapes, and a place on each.
pub struct Places {
    pub run: Tape,
    pub at: nat,
    pub read: Tape,
    pub from: nat,
}

/// Where the second tape stands when the first stands at `u`.
pub open spec fn moved(p: Places, u: nat) -> nat {
    (u - p.at + p.from) as nat
}

/// The answer at `k` on the first tape also stands on the second, at the place that it moves to.
pub open spec fn same_answer(p: Places, k: int) -> bool {
    k - p.at + p.from < p.read.len() && p.run[k] == p.read[k - p.at + p.from]
}

/// From their places on, the tapes hold the same answers until the first stands at `u`.
pub open spec fn agree(p: Places, u: nat) -> bool {
    forall|k: int|
        #![trigger p.run[k]]
        #![trigger same_answer(p, k)]
        p.at <= k < u ==> same_answer(p, k)
}

/// Where a flow that is not waiting has come to.
pub open spec fn end_of(f: FlowView) -> nat {
    match f {
        FlowView::Rows(_, _, u) => u,
        FlowView::Failed(_, u) => u,
        FlowView::Needs(_) => 0,
    }
}

/// A flow as it is on the second tape.
pub open spec fn shifted(p: Places, f: FlowView) -> FlowView {
    match f {
        FlowView::Rows(rows, failed, u) => FlowView::Rows(rows, failed, moved(p, u)),
        FlowView::Failed(failure, u) => FlowView::Failed(failure, moved(p, u)),
        FlowView::Needs(r) => FlowView::Needs(r),
    }
}

/// The flow `a` on the first tape, unless it waits, is `b` on the second where the tapes hold the same
/// answers as far as `a` has come.
pub open spec fn follows(p: Places, a: FlowView, b: FlowView) -> bool {
    a !is Needs ==> end_of(a) >= p.at && (agree(p, end_of(a)) ==> b == shifted(p, a))
}

/// The places further on.
pub open spec fn past(p: Places, u: nat) -> Places {
    Places { at: u, from: moved(p, u), ..p }
}

proof fn lemma_past(p: Places, u: nat, a: FlowView, b: FlowView)
    requires
        u >= p.at,
        follows(past(p, u), a, b),
    ensures
        follows(p, a, b),
{
    if a !is Needs && agree(p, end_of(a)) {
        lemma_agree_past(p, u, end_of(a));
    }
}

proof fn lemma_agree_past(p: Places, u: nat, v: nat)
    requires
        p.at <= u <= v,
        agree(p, v),
    ensures
        agree(past(p, u), v),
        agree(p, u),
{
    let q = past(p, u);
    assert forall|k: int| q.at <= k < v implies #[trigger] same_answer(q, k) by {
        assert(same_answer(p, k));
    }
}

// ---------------------------------------------------------------- steps

proof fn lemma_rows(p: Places, cx: ContextView, id: u64, ask: AskView, lazy: bool)
    ensures
        follows(
            p,
            exec::rows_step(cx, id, ask, p.run, p.at, lazy),
            exec::rows_step(cx, id, ask, p.read, p.from, lazy),
        ),
{
}

proof fn lemma_budget(p: Places, cx: ContextView, a: FlowView, b: FlowView)
    requires
        follows(p, a, b),
    ensures
        follows(p, exec::within_budget(cx, a), exec::within_budget(cx, b)),
{
}

proof fn lemma_filter(p: Places, cx: ContextView, id: u64, a: FlowView, b: FlowView, lazy: bool)
    requires
        follows(p, a, b),
    ensures
        follows(
            p,
            exec::filter_step(cx, id, a, p.run, lazy),
            exec::filter_step(cx, id, b, p.read, lazy),
        ),
{
}

proof fn lemma_project(p: Places, cx: ContextView, id: u64, once: bool, a: FlowView, b: FlowView, lazy: bool)
    requires
        follows(p, a, b),
    ensures
        follows(
            p,
            exec::project_step(cx, id, once, a, p.run, lazy),
            exec::project_step(cx, id, once, b, p.read, lazy),
        ),
{
}

proof fn lemma_limit(p: Places, count: u64, offset: u64, a: FlowView, b: FlowView, lazy: bool)
    requires
        follows(p, a, b),
    ensures
        follows(p, exec::limit_step(count, offset, a, lazy), exec::limit_step(count, offset, b, lazy)),
{
}

proof fn lemma_top_n<O: ValueOrder>(
    p: Places,
    o: &O,
    cx: ContextView,
    id: u64,
    a: FlowView,
    b: FlowView,
    ks: Seq<SortKey>,
    m: u64,
)
    requires
        follows(p, a, b),
    ensures
        follows(
            p,
            exec::top_n_step(o, cx, id, a, ks, m, p.run),
            exec::top_n_step(o, cx, id, b, ks, m, p.read),
        ),
{
}

proof fn lemma_sort<O: ValueOrder>(
    p: Places,
    o: &O,
    cx: ContextView,
    id: u64,
    a: FlowView,
    b: FlowView,
    ks: Seq<SortKey>,
    ties: Option<TiesLimit>,
)
    requires
        follows(p, a, b),
    ensures
        follows(
            p,
            exec::sort_step(o, cx, id, a, ks, ties, p.run),
            exec::sort_step(o, cx, id, b, ks, ties, p.read),
        ),
{
}

proof fn lemma_distinct_on<O: ValueOrder>(p: Places, o: &O, cx: ContextView, id: u64, a: FlowView, b: FlowView)
    requires
        follows(p, a, b),
    ensures
        follows(
            p,
            exec::distinct_on_step(o, cx, id, a, p.run),
            exec::distinct_on_step(o, cx, id, b, p.read),
        ),
{
}

proof fn lemma_fold(p: Places, cx: ContextView, id: u64, a: FlowView, b: FlowView, sorted: bool)
    requires
        follows(p, a, b),
    ensures
        follows(
            p,
            exec::fold_step(cx, id, a, sorted, p.run),
            exec::fold_step(cx, id, b, sorted, p.read),
        ),
{
}

proof fn lemma_merge(p: Places, cx: ContextView, id: u64, merges: bool, a: FlowView, b: FlowView, lazy: bool)
    requires
        follows(p, a, b),
    ensures
        follows(
            p,
            plan::merge_step(cx, id, merges, a, p.run, lazy),
            plan::merge_step(cx, id, merges, b, p.read, lazy),
        ),
{
}

// ---------------------------------------------------------------- locks, sets, windows, searches

spec fn locks_follow(p: Places, a: LocksStep, b: LocksStep) -> bool {
    match a {
        LocksStep::Done(hidden, u) => u >= p.at && (agree(p, u) ==> b == LocksStep::Done(
            hidden,
            moved(p, u),
        )),
        LocksStep::Stop(f) => f !is Needs ==> end_of(f) >= p.at && (agree(p, end_of(f)) ==> b
            == LocksStep::Stop(shifted(p, f))),
    }
}

proof fn lemma_locks(
    p: Places,
    cx: ContextView,
    id: u64,
    table: u64,
    skip_locked: bool,
    nowait: bool,
    rows: Seq<u64>,
    i: nat,
    hidden: Seq<(u64, u64)>,
)
    ensures
        locks_follow(
            p,
            plan::locks_from(cx, id, table, skip_locked, nowait, rows, i, hidden, p.run, p.at),
            plan::locks_from(cx, id, table, skip_locked, nowait, rows, i, hidden, p.read, p.from),
        ),
    decreases rows.len() - i,
{
    if i < rows.len() && p.at < p.run.len() {
        let q = past(p, p.at + 1);
        lemma_locks(q, cx, id, table, skip_locked, nowait, rows, i + 1, hidden);
        lemma_locks(
            q,
            cx,
            id,
            table,
            skip_locked,
            nowait,
            rows,
            i + 1,
            hidden.push((table, rows[i as int])),
        );
        let a = plan::locks_from(cx, id, table, skip_locked, nowait, rows, i, hidden, p.run, p.at);
        let end = match a {
            LocksStep::Done(_, u) => u,
            LocksStep::Stop(f) => end_of(f),
        };
        if p.at + 1 <= end && agree(p, end) {
            lemma_agree_past(p, p.at + 1, end);
            assert(same_answer(p, p.at as int));
        }
    }
}

spec fn elements_follow(p: Places, a: ElementsStep, b: ElementsStep) -> bool {
    match a {
        ElementsStep::Elements(es, extra, u) => u >= p.at && (agree(p, u) ==> b
            == ElementsStep::Elements(es, extra, moved(p, u))),
        ElementsStep::Stop(f) => f !is Needs ==> end_of(f) >= p.at && (agree(p, end_of(f)) ==> b
            == ElementsStep::Stop(shifted(p, f))),
    }
}

proof fn lemma_task(p: Places, cx: ContextView, id: u64, func: SetFunc, task: TaskView)
    ensures
        elements_follow(
            p,
            sets::task_step(cx, id, func, task, p.run, p.at),
            sets::task_step(cx, id, func, task, p.read, p.from),
        ),
{
    if p.at < p.run.len() && agree(p, p.at + 1) {
        assert(same_answer(p, p.at as int));
    }
}

proof fn lemma_elements(p: Places, cx: ContextView, id: u64, func: SetFunc, args: Seq<ValueView>)
    ensures
        elements_follow(
            p,
            sets::elements_step(cx, id, func, args, p.run, p.at),
            sets::elements_step(cx, id, func, args, p.read, p.from),
        ),
{
    let outcome = if sets::gives_pairs(func) {
        crate::series::pair_outcome(func, args)
    } else {
        crate::series::set_outcome(func, args)
    };
    if let crate::series::SetOutcome::Ask(task) = outcome {
        lemma_task(p, cx, id, func, task);
    }
}

proof fn lemma_sets(
    p: Places,
    cx: ContextView,
    id: u64,
    func: SetFunc,
    pos: usize,
    ordinality: bool,
    inputs: Seq<SetInputView>,
    i: nat,
    done: Seq<ExpansionView>,
)
    ensures
        follows(
            p,
            sets::sets_from(cx, id, func, pos, ordinality, inputs, p.run, p.at, i, done),
            sets::sets_from(cx, id, func, pos, ordinality, inputs, p.read, p.from, i, done),
        ),
    decreases inputs.len() - i,
{
    if i < inputs.len() {
        let args = inputs[i as int].args;
        lemma_elements(p, cx, id, func, args);
        if let ElementsStep::Elements(elements, extra, u) = sets::elements_step(
            cx,
            id,
            func,
            args,
            p.run,
            p.at,
        ) {
            let more = done.push(
                ExpansionView { scalars: inputs[i as int].scalars, pos, elements, extra },
            );
            lemma_sets(past(p, u), cx, id, func, pos, ordinality, inputs, i + 1, more);
            let a = sets::sets_from(cx, id, func, pos, ordinality, inputs, p.run, u, i + 1, more);
            let b = sets::sets_from(
                cx,
                id,
                func,
                pos,
                ordinality,
                inputs,
                p.read,
                moved(p, u),
                i + 1,
                more,
            );
            lemma_past(p, u, a, b);
            if a !is Needs && agree(p, end_of(a)) {
                lemma_agree_past(p, u, end_of(a));
            }
        }
    }
}

proof fn lemma_expand(
    p: Places,
    cx: ContextView,
    id: u64,
    func: SetFunc,
    pos: usize,
    ordinality: bool,
    a: FlowView,
    b: FlowView,
)
    requires
        follows(p, a, b),
    ensures
        follows(
            p,
            sets::expand_step(cx, id, func, pos, ordinality, a, p.run),
            sets::expand_step(cx, id, func, pos, ordinality, b, p.read),
        ),
{
    if let FlowView::Rows(rows, None, u) = a {
        if u < p.run.len() {
            if let AnswerView::SetInputs(inputs) = p.run[u as int] {
                let q = past(p, u + 1);
                lemma_sets(q, cx, id, func, pos, ordinality, inputs, 0, Seq::empty());
                let x = sets::sets_from(
                    cx,
                    id,
                    func,
                    pos,
                    ordinality,
                    inputs,
                    p.run,
                    u + 1,
                    0,
                    Seq::empty(),
                );
                let y = sets::sets_from(
                    cx,
                    id,
                    func,
                    pos,
                    ordinality,
                    inputs,
                    p.read,
                    moved(p, u + 1),
                    0,
                    Seq::empty(),
                );
                lemma_past(p, u + 1, x, y);
                if x !is Needs && agree(p, end_of(x)) {
                    lemma_agree_past(p, u + 1, end_of(x));
                    lemma_agree_past(p, u, end_of(x));
                }
            }
        }
    }
}

spec fn column_follows(p: Places, a: ColumnStep, b: ColumnStep) -> bool {
    match a {
        ColumnStep::Column(vs, u) => u >= p.at && (agree(p, u) ==> b == ColumnStep::Column(
            vs,
            moved(p, u),
        )),
        ColumnStep::Stop(f) => f !is Needs ==> end_of(f) >= p.at && (agree(p, end_of(f)) ==> b
            == ColumnStep::Stop(shifted(p, f))),
    }
}

proof fn lemma_asked_column(p: Places, cx: ContextView, id: u64, ask: AskView, n: nat)
    ensures
        column_follows(
            p,
            windows::asked_column(cx, id, ask, n, p.run, p.at),
            windows::asked_column(cx, id, ask, n, p.read, p.from),
        ),
{
}

proof fn lemma_column<O: ValueOrder>(
    p: Places,
    o: &O,
    cx: ContextView,
    id: u64,
    win: Window,
    window: usize,
    rows: Rows,
)
    ensures
        column_follows(
            p,
            windows::column_step(o, cx, id, win, window, rows, p.run, p.at),
            windows::column_step(o, cx, id, win, window, rows, p.read, p.from),
        ),
{
    if p.at < p.run.len() {
        if let AnswerView::Window { partition, order, args, shifts } = p.run[p.at as int] {
            let q = past(p, p.at + 1);
            let cells = crate::window::run::cells_of(o, win, partition, order, args, shifts);
            lemma_asked_column(
                q,
                cx,
                id,
                AskView::WindowFolds(window, rows, windows::frames_of(cells)),
                rows.len(),
            );
            lemma_asked_column(q, cx, id, AskView::Shares(windows::shares_of(cells)), rows.len());
        }
        let a = windows::column_step(o, cx, id, win, window, rows, p.run, p.at);
        let end = match a {
            ColumnStep::Column(_, u) => u,
            ColumnStep::Stop(f) => end_of(f),
        };
        if p.at + 1 <= end && agree(p, end) {
            lemma_agree_past(p, p.at + 1, end);
            assert(same_answer(p, p.at as int));
        }
    }
}

proof fn lemma_columns<O: ValueOrder>(
    p: Places,
    o: &O,
    cx: ContextView,
    id: u64,
    all: Seq<Window>,
    rows: Rows,
    j: nat,
    columns: Seq<Seq<ValueView>>,
)
    ensures
        follows(
            p,
            windows::columns_from(o, cx, id, all, rows, p.run, p.at, j, columns),
            windows::columns_from(o, cx, id, all, rows, p.read, p.from, j, columns),
        ),
    decreases all.len() - j,
{
    if j < all.len() {
        lemma_column(p, o, cx, id, all[j as int], j as usize, rows);
        if let ColumnStep::Column(vs, u) = windows::column_step(
            o,
            cx,
            id,
            all[j as int],
            j as usize,
            rows,
            p.run,
            p.at,
        ) {
            lemma_columns(past(p, u), o, cx, id, all, rows, j + 1, columns.push(vs));
            let a = windows::columns_from(o, cx, id, all, rows, p.run, u, j + 1, columns.push(vs));
            let b = windows::columns_from(
                o,
                cx,
                id,
                all,
                rows,
                p.read,
                moved(p, u),
                j + 1,
                columns.push(vs),
            );
            lemma_past(p, u, a, b);
            if a !is Needs && agree(p, end_of(a)) {
                lemma_agree_past(p, u, end_of(a));
            }
        }
    }
}

proof fn lemma_windows<O: ValueOrder>(
    p: Places,
    o: &O,
    cx: ContextView,
    id: u64,
    all: Seq<Window>,
    a: FlowView,
    b: FlowView,
)
    requires
        follows(p, a, b),
    ensures
        follows(
            p,
            windows::windows_step(o, cx, id, all, a, p.run),
            windows::windows_step(o, cx, id, all, b, p.read),
        ),
{
    if let FlowView::Rows(rows, None, u) = a {
        lemma_columns(past(p, u), o, cx, id, all, rows, 0, Seq::empty());
        let x = windows::columns_from(o, cx, id, all, rows, p.run, u, 0, Seq::empty());
        let y = windows::columns_from(o, cx, id, all, rows, p.read, moved(p, u), 0, Seq::empty());
        lemma_past(p, u, x, y);
        if x !is Needs && agree(p, end_of(x)) {
            lemma_agree_past(p, u, end_of(x));
        }
    }
}

proof fn lemma_search(p: Places, cx: ContextView, id: u64, q: KnnQuery, answers: Seq<KnnAnswerView>)
    ensures
        follows(
            p,
            nearest::search_from(cx, id, q, p.run, p.at, answers),
            nearest::search_from(cx, id, q, p.read, p.from, answers),
        ),
    decreases p.run.len() - p.at,
{
    if p.at < p.run.len() {
        if let AnswerView::Knn(x) = p.run[p.at as int] {
            lemma_search(past(p, p.at + 1), cx, id, q, answers.push(x));
        }
        let a = nearest::search_from(cx, id, q, p.run, p.at, answers);
        if a !is Needs && p.at + 1 <= end_of(a) && agree(p, end_of(a)) {
            lemma_agree_past(p, p.at + 1, end_of(a));
            assert(same_answer(p, p.at as int));
        }
    }
}

proof fn lemma_nearest(p: Places, cx: ContextView, id: u64, column: usize, k: u64, filtered: bool)
    ensures
        follows(
            p,
            nearest::nearest_step(cx, id, column, k, filtered, p.run, p.at),
            nearest::nearest_step(cx, id, column, k, filtered, p.read, p.from),
        ),
{
    if p.at < p.run.len() {
        if let AnswerView::Values(vs) = p.run[p.at as int] {
            if vs.len() == 1 {
                lemma_search(
                    past(p, p.at + 1),
                    cx,
                    id,
                    nearest::search_for(vs[0], column, k, filtered),
                    Seq::empty(),
                );
            }
        }
        let a = nearest::nearest_step(cx, id, column, k, filtered, p.run, p.at);
        if a !is Needs && p.at + 1 <= end_of(a) && agree(p, end_of(a)) {
            lemma_agree_past(p, p.at + 1, end_of(a));
            assert(same_answer(p, p.at as int));
        }
    }
}

// ---------------------------------------------------------------- operators

/// What goes on from where a first flow has come to follows too, and where it ends well both tapes gave
/// the first flow the same answers.
proof fn lemma_then(p: Places, first: FlowView, other: FlowView, a: FlowView, b: FlowView)
    requires
        follows(p, first, other),
        first !is Needs,
        follows(past(p, end_of(first)), a, b),
    ensures
        follows(p, a, b),
        a !is Needs && agree(p, end_of(a)) ==> other == shifted(p, first),
{
    let u = end_of(first);
    lemma_past(p, u, a, b);
    if a !is Needs && agree(p, end_of(a)) {
        lemma_agree_past(p, u, end_of(a));
    }
}

proof fn lemma_match(
    p: Places,
    cx: ContextView,
    id: u64,
    left: Rows,
    failed: Option<exec::Failure>,
    right: Rows,
    kind: JoinKind,
    left_width: usize,
    right_width: usize,
    lazy: bool,
)
    ensures
        follows(
            p,
            plan::match_step(
                cx,
                id,
                left,
                failed,
                right,
                p.at,
                kind,
                left_width,
                right_width,
                p.run,
                lazy,
            ),
            plan::match_step(
                cx,
                id,
                left,
                failed,
                right,
                p.from,
                kind,
                left_width,
                right_width,
                p.read,
                lazy,
            ),
        ),
{
}

proof fn lemma_match_left(
    p: Places,
    cx: ContextView,
    id: u64,
    left: Rows,
    right: Rows,
    failed: Option<exec::Failure>,
    lazy: bool,
)
    ensures
        follows(
            p,
            plan::match_left_step(cx, id, left, right, failed, p.at, p.run, lazy),
            plan::match_left_step(cx, id, left, right, failed, p.from, p.read, lazy),
        ),
{
}

proof fn lemma_child<O: ValueOrder>(p: Places, o: &O, op: Operator, i: int, cx: ContextView, lazy: bool)
    requires
        0 <= i < op.children@.len(),
    ensures
        follows(
            p,
            plan::flow_of(o, op.children@[i], cx, p.run, p.at, lazy),
            plan::flow_of(o, op.children@[i], cx, p.read, p.from, lazy),
        ),
    decreases op, 0nat, 0nat,
{
    law_rows_depend_on_the_answers_used(p, o, op.children@[i], cx, lazy);
}

/// The rows of a plan, executed or read as a stream, depend on the answers that it uses alone: on
/// another tape that holds the same ones, wherever they stand, it gives the same rows or fails alike.
pub proof fn law_rows_depend_on_the_answers_used<O: ValueOrder>(
    p: Places,
    o: &O,
    op: Operator,
    cx: ContextView,
    lazy: bool,
)
    ensures
        follows(
            p,
            plan::flow_of(o, op, cx, p.run, p.at, lazy),
            plan::flow_of(o, op, cx, p.read, p.from, lazy),
        ),
    decreases op, 4nat, 0nat,
{
    if plan::has_children(op) {
        if lazy && plan::streams(op.node, cx.spill) {
            lemma_streamed(p, o, op, cx);
        } else {
            lemma_executed(p, o, op, cx);
            lemma_budget(
                p,
                cx,
                plan::executed(o, op, cx, p.run, p.at),
                plan::executed(o, op, cx, p.read, p.from),
            );
        }
    }
}

#[verifier::spinoff_prover]
#[verifier::rlimit(40)]
proof fn lemma_executed<O: ValueOrder>(p: Places, o: &O, op: Operator, cx: ContextView)
    requires
        plan::has_children(op),
    ensures
        follows(
            p,
            plan::executed(o, op, cx, p.run, p.at),
            plan::executed(o, op, cx, p.read, p.from),
        ),
    decreases op, 3nat, 0nat,
{
    match op.node {
        OpNode::Scan { .. } => {},
        OpNode::Source => {
            lemma_rows(p, cx, op.id, AskView::Source, false);
        },
        OpNode::VectorKnn { column, k, filtered } => {
            lemma_nearest(p, cx, op.id, column, k, filtered);
        },
        OpNode::OneRow => {},
        OpNode::SetOperation { .. } => {
            lemma_set_operation(p, o, op, cx);
        },
        OpNode::LockRows { .. } => {
            lemma_lock_rows(p, o, op, cx);
        },
        OpNode::Filter => {
            lemma_child(p, o, op, 0, cx, false);
            let c = op.children@[0];
            lemma_filter(
                p,
                cx,
                op.id,
                plan::flow_of(o, c, cx, p.run, p.at, false),
                plan::flow_of(o, c, cx, p.read, p.from, false),
                false,
            );
        },
        OpNode::Sort { .. } => {
            lemma_sort_operator(p, o, op, cx);
        },
        OpNode::Project { .. } => {
            lemma_project_operator(p, o, op, cx);
        },
        OpNode::ProjectSet { func, pos, ordinality, .. } => {
            lemma_child(p, o, op, 0, cx, false);
            let c = op.children@[0];
            lemma_expand(
                p,
                cx,
                op.id,
                func,
                pos,
                ordinality,
                plan::flow_of(o, c, cx, p.run, p.at, false),
                plan::flow_of(o, c, cx, p.read, p.from, false),
            );
        },
        OpNode::Limit { count, offset } => {
            lemma_child(p, o, op, 0, cx, true);
            let c = op.children@[0];
            lemma_limit(
                p,
                count,
                offset,
                plan::flow_of(o, c, cx, p.run, p.at, true),
                plan::flow_of(o, c, cx, p.read, p.from, true),
                false,
            );
        },
        OpNode::Distinct { .. } => {
            lemma_child(p, o, op, 0, cx, cx.spill is Some);
        },
        OpNode::DistinctOn => {
            lemma_child(p, o, op, 0, cx, false);
            let c = op.children@[0];
            lemma_distinct_on(
                p,
                o,
                cx,
                op.id,
                plan::flow_of(o, c, cx, p.run, p.at, false),
                plan::flow_of(o, c, cx, p.read, p.from, false),
            );
        },
        OpNode::ScalarAggregate { .. } => {
            lemma_scalar(p, o, op, cx);
        },
        OpNode::GroupAggregate { .. } => {
            lemma_group(p, o, op, cx);
        },
        OpNode::GroupingSetsAggregate => {
            lemma_child(p, o, op, 0, cx, true);
            let c = op.children@[0];
            lemma_fold(
                p,
                cx,
                op.id,
                plan::flow_of(o, c, cx, p.run, p.at, true),
                plan::flow_of(o, c, cx, p.read, p.from, true),
                false,
            );
        },
        OpNode::Window { .. } => {
            lemma_window_operator(p, o, op, cx);
        },
        OpNode::NestedLoopJoin => {
            lemma_join(p, o, op, cx, false);
        },
        OpNode::HashJoin { .. } => {
            lemma_hash_join(p, o, op, cx);
        },
        OpNode::LateralJoin { kind, right_width } => {
            lemma_child(p, o, op, 0, cx, false);
            let x = plan::flow_of(o, op.children@[0], cx, p.run, p.at, false);
            let y = plan::flow_of(o, op.children@[0], cx, p.read, p.from, false);
            if let FlowView::Rows(left, None, u) = x {
                let q = past(p, u);
                lemma_lateral(q, o, op, kind, right_width, cx, left, 0, Seq::empty());
                lemma_then(
                    p,
                    x,
                    y,
                    plan::lateral_from(
                        o,
                        op,
                        kind,
                        right_width,
                        cx,
                        p.run,
                        u,
                        left,
                        0,
                        Seq::empty(),
                    ),
                    plan::lateral_from(
                        o,
                        op,
                        kind,
                        right_width,
                        cx,
                        p.read,
                        q.from,
                        left,
                        0,
                        Seq::empty(),
                    ),
                );
            }
        },
        OpNode::WithRecursive { ctes } => {
            lemma_recursive(p, o, op, ctes@, cx, 0, Seq::empty());
        },
        OpNode::WithModifying { ctes } => {
            lemma_modifying(p, o, op, ctes@, cx, 0);
        },
    }
}

proof fn lemma_set<O: ValueOrder>(
    p: Places,
    o: &O,
    cx: ContextView,
    id: u64,
    tree: SetTree,
    ks: Seq<SortKey>,
    limit: Option<u64>,
    width: usize,
    inputs: Seq<Rows>,
)
    ensures
        follows(
            p,
            plan::set_step(o, cx, id, tree, ks, limit, width, inputs, p.at, p.run),
            plan::set_step(o, cx, id, tree, ks, limit, width, inputs, p.from, p.read),
        ),
{
    if p.at < p.run.len() && agree(p, p.at + 1) {
        assert(same_answer(p, p.at as int));
    }
}

proof fn lemma_set_operation<O: ValueOrder>(p: Places, o: &O, op: Operator, cx: ContextView)
    requires
        plan::has_children(op),
        op.node is SetOperation,
    ensures
        follows(
            p,
            plan::executed(o, op, cx, p.run, p.at),
            plan::executed(o, op, cx, p.read, p.from),
        ),
    decreases op, 2nat, op.children@.len() + 1,
{
    if let OpNode::SetOperation { tree, keys, limit, width } = op.node {
        lemma_inputs(p, o, op, cx, 0, Seq::empty());
        if let InputsStep::All(inputs, u) = plan::inputs_from(o, op, cx, p.run, p.at, 0, Seq::empty()) {
            let q = past(p, u);
            lemma_set(q, o, cx, op.id, tree, keys@, limit, width, inputs);
            let a = plan::set_step(o, cx, op.id, tree, keys@, limit, width, inputs, u, p.run);
            let b = plan::set_step(o, cx, op.id, tree, keys@, limit, width, inputs, q.from, p.read);
            lemma_past(p, u, a, b);
            if a !is Needs && agree(p, end_of(a)) {
                lemma_agree_past(p, u, end_of(a));
            }
        }
    }
}

spec fn inputs_follow(p: Places, a: InputsStep, b: InputsStep) -> bool {
    match a {
        InputsStep::All(inputs, u) => u >= p.at && (agree(p, u) ==> b == InputsStep::All(
            inputs,
            moved(p, u),
        )),
        InputsStep::Stop(f) => f !is Needs ==> end_of(f) >= p.at && (agree(p, end_of(f)) ==> b
            == InputsStep::Stop(shifted(p, f))),
    }
}

proof fn lemma_inputs<O: ValueOrder>(p: Places, o: &O, op: Operator, cx: ContextView, k: nat, done: Seq<Rows>)
    ensures
        inputs_follow(
            p,
            plan::inputs_from(o, op, cx, p.run, p.at, k, done),
            plan::inputs_from(o, op, cx, p.read, p.from, k, done),
        ),
    decreases op, 2nat, op.children@.len() - k,
{
    if k < op.children@.len() {
        let lazy = cx.spill is Some;
        lemma_child(p, o, op, k as int, cx, lazy);
        if let FlowView::Rows(rows, None, u) = plan::flow_of(
            o,
            op.children@[k as int],
            cx,
            p.run,
            p.at,
            lazy,
        ) {
            lemma_inputs(past(p, u), o, op, cx, k + 1, done.push(rows));
            let end = match plan::inputs_from(o, op, cx, p.run, u, k + 1, done.push(rows)) {
                InputsStep::All(_, v) => v,
                InputsStep::Stop(f) => end_of(f),
            };
            if u <= end && agree(p, end) {
                lemma_agree_past(p, u, end);
            }
        }
    }
}

proof fn lemma_lock_rows<O: ValueOrder>(p: Places, o: &O, op: Operator, cx: ContextView)
    requires
        plan::has_children(op),
        op.node is LockRows,
    ensures
        follows(
            p,
            plan::executed(o, op, cx, p.run, p.at),
            plan::executed(o, op, cx, p.read, p.from),
        ),
    decreases op, 2nat, 0nat,
{
    if let OpNode::LockRows { table, schema, predicate, skip_locked, nowait } = op.node {
        let x = tables::targets_step(cx, op.id, table, schema@, predicate, p.run, p.at);
        let y = tables::targets_step(cx, op.id, table, schema@, predicate, p.read, p.from);
        if let tables::TargetsStep::Targets(ts, end, u) = x {
            let q = past(p, u);
            lemma_locks(q, cx, op.id, table, skip_locked, nowait, ts, 0, cx.hidden);
            let z = plan::locks_from(
                cx,
                op.id,
                table,
                skip_locked,
                nowait,
                ts,
                0,
                cx.hidden,
                p.run,
                u,
            );
            let a = plan::executed(o, op, cx, p.run, p.at);
            if let LocksStep::Done(hidden, v) = z {
                let inner = plan::with_hidden(cx, hidden);
                let r = past(q, v);
                lemma_child(r, o, op, 0, inner, false);
                if end is None {
                    let c = plan::flow_of(o, op.children@[0], inner, p.run, v, false);
                    let d = plan::flow_of(o, op.children@[0], inner, p.read, r.from, false);
                    lemma_past(q, v, c, d);
                    if c !is Needs && agree(q, end_of(c)) {
                        lemma_agree_past(q, v, end_of(c));
                    }
                }
            }
            if a !is Needs && u <= end_of(a) && agree(p, end_of(a)) {
                lemma_agree_past(p, u, end_of(a));
                lemma_agree_past(p, p.at, end_of(a));
            }
        }
        if agree(p, p.at + 1) {
            assert(same_answer(p, p.at as int));
        }
        if agree(p, p.at + 2) {
            assert(same_answer(p, p.at as int));
            assert(same_answer(p, p.at as int + 1));
        }
    }
}

proof fn lemma_sort_operator<O: ValueOrder>(p: Places, o: &O, op: Operator, cx: ContextView)
    requires
        plan::has_children(op),
        op.node is Sort,
    ensures
        follows(
            p,
            plan::executed(o, op, cx, p.run, p.at),
            plan::executed(o, op, cx, p.read, p.from),
        ),
    decreases op, 2nat, 0nat,
{
    if let OpNode::Sort { keys, has_subquery, ties, top_n } = op.node {
        let c = op.children@[0];
        if top_n is Some && !has_subquery {
            lemma_child(p, o, op, 0, cx, true);
            lemma_top_n(
                p,
                o,
                cx,
                op.id,
                plan::flow_of(o, c, cx, p.run, p.at, true),
                plan::flow_of(o, c, cx, p.read, p.from, true),
                keys@,
                top_n->0,
            );
        } else {
            let lazy = ties is None && !has_subquery && cx.spill is Some;
            lemma_child(p, o, op, 0, cx, lazy);
            lemma_sort(
                p,
                o,
                cx,
                op.id,
                plan::flow_of(o, c, cx, p.run, p.at, lazy),
                plan::flow_of(o, c, cx, p.read, p.from, lazy),
                keys@,
                ties,
            );
        }
    }
}

proof fn lemma_project_operator<O: ValueOrder>(p: Places, o: &O, op: Operator, cx: ContextView)
    requires
        plan::has_children(op),
        op.node is Project,
    ensures
        follows(
            p,
            plan::executed(o, op, cx, p.run, p.at),
            plan::executed(o, op, cx, p.read, p.from),
        ),
    decreases op, 2nat, 0nat,
{
    if let OpNode::Project { sequence_calls } = op.node {
        lemma_child(p, o, op, 0, cx, false);
        let x = plan::flow_of(o, op.children@[0], cx, p.run, p.at, false);
        let y = plan::flow_of(o, op.children@[0], cx, p.read, p.from, false);
        let once = sequence_calls && (x matches FlowView::Rows(rows, _, _) && rows.len() == 1);
        lemma_project(p, cx, op.id, once, x, y, false);
        let a = exec::project_step(cx, op.id, once, x, p.run, false);
        if a !is Needs && agree(p, end_of(a)) {
            lemma_agree_past(p, end_of(x), end_of(a));
        }
    }
}

proof fn lemma_scalar<O: ValueOrder>(p: Places, o: &O, op: Operator, cx: ContextView)
    requires
        op.children@.len() == 1,
    ensures
        follows(
            p,
            plan::scalar_from(o, op, cx, p.run, p.at),
            plan::scalar_from(o, op, cx, p.read, p.from),
        ),
    decreases op, 2nat, 0nat,
{
    lemma_child(p, o, op, 0, cx, true);
    let c = op.children@[0];
    lemma_fold(
        p,
        cx,
        op.id,
        plan::flow_of(o, c, cx, p.run, p.at, true),
        plan::flow_of(o, c, cx, p.read, p.from, true),
        false,
    );
}

proof fn lemma_group<O: ValueOrder>(p: Places, o: &O, op: Operator, cx: ContextView)
    requires
        plan::has_children(op),
        op.node is GroupAggregate,
    ensures
        follows(
            p,
            plan::executed(o, op, cx, p.run, p.at),
            plan::executed(o, op, cx, p.read, p.from),
        ),
        follows(
            p,
            exec::fold_step(
                cx,
                op.id,
                plan::flow_of(o, op.children@[0], cx, p.run, p.at, true),
                false,
                p.run,
            ),
            exec::fold_step(
                cx,
                op.id,
                plan::flow_of(o, op.children@[0], cx, p.read, p.from, true),
                false,
                p.read,
            ),
        ),
    decreases op, 2nat, 0nat,
{
    let c = op.children@[0];
    lemma_child(p, o, op, 0, cx, true);
    let x = plan::flow_of(o, c, cx, p.run, p.at, true);
    let y = plan::flow_of(o, c, cx, p.read, p.from, true);
    lemma_fold(p, cx, op.id, x, y, false);
    lemma_fold(p, cx, op.id, x, y, true);
    let q = past(p, p.at + 1);
    lemma_child(q, o, op, 0, cx, true);
    let v = plan::flow_of(o, c, cx, q.run, q.at, true);
    let w = plan::flow_of(o, c, cx, q.read, q.from, true);
    lemma_fold(q, cx, op.id, v, w, false);
    lemma_fold(q, cx, op.id, v, w, true);
    let a = plan::executed(o, op, cx, p.run, p.at);
    if a !is Needs && p.at + 1 <= end_of(a) && agree(p, end_of(a)) {
        lemma_agree_past(p, p.at + 1, end_of(a));
        assert(same_answer(p, p.at as int));
    }
}

proof fn lemma_window_operator<O: ValueOrder>(p: Places, o: &O, op: Operator, cx: ContextView)
    requires
        plan::has_children(op),
        op.node is Window,
    ensures
        follows(
            p,
            plan::executed(o, op, cx, p.run, p.at),
            plan::executed(o, op, cx, p.read, p.from),
        ),
    decreases op, 2nat, 0nat,
{
    if let OpNode::Window { windows: all, top_n } = op.node {
        let c = op.children@[0];
        match top_n {
            Some(m) => {
                lemma_child(p, o, op, 0, cx, true);
                let x = plan::flow_of(o, c, cx, p.run, p.at, true);
                let y = plan::flow_of(o, c, cx, p.read, p.from, true);
                let ks = windows::first_order(all@);
                lemma_top_n(p, o, cx, op.id, x, y, ks, m);
                lemma_windows(
                    p,
                    o,
                    cx,
                    op.id,
                    all@,
                    exec::top_n_step(o, cx, op.id, x, ks, m, p.run),
                    exec::top_n_step(o, cx, op.id, y, ks, m, p.read),
                );
            },
            None => {
                lemma_child(p, o, op, 0, cx, false);
                lemma_windows(
                    p,
                    o,
                    cx,
                    op.id,
                    all@,
                    plan::flow_of(o, c, cx, p.run, p.at, false),
                    plan::flow_of(o, c, cx, p.read, p.from, false),
                );
            },
        }
    }
}

proof fn lemma_join<O: ValueOrder>(p: Places, o: &O, op: Operator, cx: ContextView, lazy: bool)
    requires
        op.children@.len() == 2,
    ensures
        follows(
            p,
            plan::join_from(o, op, cx, p.run, p.at, lazy),
            plan::join_from(o, op, cx, p.read, p.from, lazy),
        ),
    decreases op, 2nat, 0nat,
{
    lemma_child(p, o, op, 0, cx, lazy);
    let x = plan::flow_of(o, op.children@[0], cx, p.run, p.at, lazy);
    let y = plan::flow_of(o, op.children@[0], cx, p.read, p.from, lazy);
    if let FlowView::Rows(left, None, u) = x {
        let q = past(p, u);
        lemma_child(q, o, op, 1, cx, lazy);
        let z = plan::flow_of(o, op.children@[1], cx, p.run, u, lazy);
        let w = plan::flow_of(o, op.children@[1], cx, p.read, q.from, lazy);
        if let FlowView::Rows(right, None, v) = z {
            let r = past(q, v);
            lemma_rows(r, cx, op.id, AskView::Join(left, right), false);
            let a = exec::rows_step(cx, op.id, AskView::Join(left, right), p.run, v, false);
            let b = exec::rows_step(cx, op.id, AskView::Join(left, right), p.read, r.from, false);
            lemma_then(q, z, w, a, b);
            lemma_then(p, x, y, a, b);
            if a !is Needs && agree(p, end_of(a)) {
                lemma_agree_past(p, u, end_of(a));
            }
        } else if z !is Needs {
            lemma_then(p, x, y, z, w);
            if agree(p, end_of(z)) {
                lemma_agree_past(p, u, end_of(z));
            }
        }
    }
}

pub(crate) proof fn lemma_hash_join<O: ValueOrder>(p: Places, o: &O, op: Operator, cx: ContextView)
    requires
        plan::has_children(op),
        op.node is HashJoin,
    ensures
        follows(
            p,
            plan::executed(o, op, cx, p.run, p.at),
            plan::executed(o, op, cx, p.read, p.from),
        ),
    decreases op, 2nat, 1nat,
{
    if let OpNode::HashJoin { kind, left_width, right_width, merges, .. } = op.node {
        if cx.spill is Some {
            lemma_join(p, o, op, cx, true);
            lemma_merge(
                p,
                cx,
                op.id,
                merges,
                plan::join_from(o, op, cx, p.run, p.at, true),
                plan::join_from(o, op, cx, p.read, p.from, true),
                false,
            );
        } else {
            lemma_child(p, o, op, 0, cx, false);
            let x = plan::flow_of(o, op.children@[0], cx, p.run, p.at, false);
            let y = plan::flow_of(o, op.children@[0], cx, p.read, p.from, false);
            if let FlowView::Rows(left, None, u) = x {
                let q = past(p, u);
                lemma_child(q, o, op, 1, cx, false);
                let z = plan::flow_of(o, op.children@[1], cx, p.run, u, false);
                let w = plan::flow_of(o, op.children@[1], cx, p.read, q.from, false);
                if let FlowView::Rows(right, None, v) = z {
                    let r = past(q, v);
                    lemma_match_left(r, cx, op.id, left, right, None, false);
                    lemma_match(
                        r,
                        cx,
                        op.id,
                        left,
                        None,
                        right,
                        kind,
                        left_width,
                        right_width,
                        false,
                    );
                    let flips = operators::builds_left(kind, merges, left.len(), right.len());
                    let m = matched(cx, op, flips, left, right, p.run, v);
                    let n = matched(cx, op, flips, left, right, p.read, r.from);
                    lemma_merge(r, cx, op.id, merges, m, n, false);
                    let a = plan::merge_step(cx, op.id, merges, m, p.run, false);
                    let b = plan::merge_step(cx, op.id, merges, n, p.read, false);
                    lemma_then(q, z, w, a, b);
                    lemma_then(p, x, y, a, b);
                    assert(plan::executed(o, op, cx, p.run, p.at) == a);
                    if a !is Needs && agree(p, end_of(a)) {
                        lemma_agree_past(p, u, end_of(a));
                    }
                } else if z !is Needs {
                    lemma_then(p, x, y, z, w);
                    if agree(p, end_of(z)) {
                        lemma_agree_past(p, u, end_of(z));
                    }
                }
            }
        }
    }
}

/// The rows of an executed hash join before equal columns are merged.
spec fn matched(
    cx: ContextView,
    op: Operator,
    flips: bool,
    left: Rows,
    right: Rows,
    tape: Tape,
    used: nat,
) -> FlowView {
    if flips {
        plan::match_left_step(cx, op.id, left, right, None, used, tape, false)
    } else {
        plan::match_step(
            cx,
            op.id,
            left,
            None,
            right,
            used,
            op.node->HashJoin_kind,
            op.node->left_width,
            op.node->HashJoin_right_width,
            tape,
            false,
        )
    }
}

proof fn lemma_lateral<O: ValueOrder>(
    p: Places,
    o: &O,
    op: Operator,
    kind: JoinKind,
    right_width: usize,
    cx: ContextView,
    left: Rows,
    i: nat,
    out: Rows,
)
    ensures
        follows(
            p,
            plan::lateral_from(o, op, kind, right_width, cx, p.run, p.at, left, i, out),
            plan::lateral_from(o, op, kind, right_width, cx, p.read, p.from, left, i, out),
        ),
    decreases op, 2nat, left.len() - i,
{
    if op.children@.len() == 2 && i < left.len() {
        let inner = plan::in_outer(cx, left[i as int]);
        lemma_child(p, o, op, 1, inner, false);
        let x = plan::flow_of(o, op.children@[1], inner, p.run, p.at, false);
        if let FlowView::Rows(right, None, u) = x {
            let pairs = operators::all_pairs(left[i as int], right);
            let a = plan::lateral_from(o, op, kind, right_width, cx, p.run, p.at, left, i, out);
            if u < p.run.len() {
                if let AnswerView::Values(vs) = p.run[u as int] {
                    let more = out + operators::lateral_rows(
                        pairs,
                        vs,
                        left[i as int],
                        kind,
                        right_width as nat,
                    );
                    lemma_lateral(
                        past(p, u + 1),
                        o,
                        op,
                        kind,
                        right_width,
                        cx,
                        left,
                        i + 1,
                        more,
                    );
                }
            }
            if a !is Needs && u + 1 <= end_of(a) && agree(p, end_of(a)) {
                lemma_agree_past(p, u + 1, end_of(a));
                lemma_agree_past(p, u, end_of(a));
                assert(same_answer(p, u as int));
            }
        }
    }
}

proof fn lemma_rounds<O: ValueOrder>(
    p: Places,
    o: &O,
    op: Operator,
    term: nat,
    cte: RecursiveCte,
    cx: ContextView,
    known: Rows,
    working: Rows,
    n: nat,
)
    ensures
        follows(
            p,
            plan::rounds_from(o, op, term, cte, cx, p.run, p.at, known, working, n),
            plan::rounds_from(o, op, term, cte, cx, p.read, p.from, known, working, n),
        ),
    decreases op, 1nat, recursive::MAX_RECURSIVE_ITERATIONS - n,
{
    if term < op.children@.len() && working.len() > 0 && n < recursive::MAX_RECURSIVE_ITERATIONS {
        let inner = plan::with_binding(cx, cte.table, working);
        lemma_child(p, o, op, term as int, inner, false);
        let x = plan::flow_of(o, op.children@[term as int], inner, p.run, p.at, false);
        let y = plan::flow_of(o, op.children@[term as int], inner, p.read, p.from, false);
        if let FlowView::Rows(produced, None, u) = x {
            let added = recursive::added_rows(o, cte.union_all, known, produced);
            if added.len() > 0 && !recursive::over(cx.budget, known + added) {
                let q = past(p, u);
                lemma_rounds(q, o, op, term, cte, cx, known + added, added, n + 1);
                let a = plan::rounds_from(
                    o,
                    op,
                    term,
                    cte,
                    cx,
                    p.run,
                    u,
                    known + added,
                    added,
                    n + 1,
                );
                let b = plan::rounds_from(
                    o,
                    op,
                    term,
                    cte,
                    cx,
                    p.read,
                    q.from,
                    known + added,
                    added,
                    n + 1,
                );
                lemma_then(p, x, y, a, b);
            }
        }
    }
}

proof fn lemma_recursive<O: ValueOrder>(
    p: Places,
    o: &O,
    op: Operator,
    ctes: Seq<RecursiveCte>,
    cx: ContextView,
    k: nat,
    done: Seq<BindingView>,
)
    ensures
        follows(
            p,
            plan::recursive_from(o, op, ctes, cx, p.run, p.at, k, done),
            plan::recursive_from(o, op, ctes, cx, p.read, p.from, k, done),
        ),
    decreases op, 2nat, ctes.len() - k,
{
    if op.children@.len() == 2 * ctes.len() + 1 {
        if k >= ctes.len() {
            lemma_child(p, o, op, 2 * ctes.len() as int, plan::with_bindings(cx, done), false);
        } else {
            let cte = ctes[k as int];
            lemma_child(p, o, op, 2 * k as int, cx, false);
            let x = plan::flow_of(o, op.children@[2 * k as int], cx, p.run, p.at, false);
            let y = plan::flow_of(o, op.children@[2 * k as int], cx, p.read, p.from, false);
            if let FlowView::Rows(base, None, u) = x {
                let start = if cte.union_all {
                    base
                } else {
                    setops::distinct(o, base)
                };
                let q = past(p, u);
                lemma_rounds(q, o, op, 2 * k + 1, cte, cx, start, start, 0);
                let z = plan::rounds_from(o, op, 2 * k + 1, cte, cx, p.run, u, start, start, 0);
                let w = plan::rounds_from(
                    o,
                    op,
                    2 * k + 1,
                    cte,
                    cx,
                    p.read,
                    q.from,
                    start,
                    start,
                    0,
                );
                lemma_then(p, x, y, z, w);
                if let FlowView::Rows(rows, None, v) = z {
                    let r = past(p, v);
                    let more = done.push(BindingView { table: cte.table, rows });
                    lemma_recursive(r, o, op, ctes, cx, k + 1, more);
                    let a = plan::recursive_from(o, op, ctes, cx, p.run, v, k + 1, more);
                    let b = plan::recursive_from(o, op, ctes, cx, p.read, r.from, k + 1, more);
                    lemma_then(p, z, w, a, b);
                    if a !is Needs && agree(p, end_of(a)) {
                        lemma_agree_past(p, v, end_of(a));
                        lemma_agree_past(p, u, end_of(a));
                    }
                }
            }
        }
    }
}

proof fn lemma_modifying<O: ValueOrder>(
    p: Places,
    o: &O,
    op: Operator,
    ctes: Seq<OnceCte>,
    cx: ContextView,
    k: nat,
)
    ensures
        follows(
            p,
            plan::modifying_from(o, op, ctes, cx, p.run, p.at, k),
            plan::modifying_from(o, op, ctes, cx, p.read, p.from, k),
        ),
    decreases op, 2nat, ctes.len() - k,
{
    if op.children@.len() == ctes.len() + 1 {
        if k >= ctes.len() {
            lemma_child(p, o, op, ctes.len() as int, cx, false);
        } else {
            let c = op.children@[k as int];
            lemma_child(p, o, op, k as int, cx, false);
            lemma_rows(p, cx, c.id, AskView::Modify, false);
            let reads = ctes[k as int].reads;
            let x = if reads {
                plan::flow_of(o, c, cx, p.run, p.at, false)
            } else {
                exec::rows_step(cx, c.id, AskView::Modify, p.run, p.at, false)
            };
            let y = if reads {
                plan::flow_of(o, c, cx, p.read, p.from, false)
            } else {
                exec::rows_step(cx, c.id, AskView::Modify, p.read, p.from, false)
            };
            if let FlowView::Rows(rows, None, u) = x {
                let q = past(p, u);
                let inner = plan::with_binding(cx, ctes[k as int].table, rows);
                lemma_modifying(q, o, op, ctes, inner, k + 1);
                lemma_then(
                    p,
                    x,
                    y,
                    plan::modifying_from(o, op, ctes, inner, p.run, u, k + 1),
                    plan::modifying_from(o, op, ctes, inner, p.read, q.from, k + 1),
                );
            }
        }
    }
}

// ---------------------------------------------------------------- streams

proof fn lemma_probe<O: ValueOrder>(
    p: Places,
    o: &O,
    op: Operator,
    cx: ContextView,
    right: Rows,
    kind: JoinKind,
    left_width: usize,
    right_width: usize,
    merges: bool,
)
    ensures
        follows(
            p,
            plan::probe_from(
                o,
                op,
                cx,
                p.run,
                p.at,
                right,
                kind,
                left_width,
                right_width,
                merges,
            ),
            plan::probe_from(
                o,
                op,
                cx,
                p.read,
                p.from,
                right,
                kind,
                left_width,
                right_width,
                merges,
            ),
        ),
    decreases op, 2nat, 1nat,
{
    if op.children@.len() == 2 {
        lemma_child(p, o, op, 0, cx, true);
        let x = plan::flow_of(o, op.children@[0], cx, p.run, p.at, true);
        let y = plan::flow_of(o, op.children@[0], cx, p.read, p.from, true);
        if let FlowView::Rows(left, failed, u) = x {
            let q = past(p, u);
            lemma_match(q, cx, op.id, left, failed, right, kind, left_width, right_width, true);
            let m = plan::match_step(
                cx,
                op.id,
                left,
                failed,
                right,
                u,
                kind,
                left_width,
                right_width,
                p.run,
                true,
            );
            let n = plan::match_step(
                cx,
                op.id,
                left,
                failed,
                right,
                q.from,
                kind,
                left_width,
                right_width,
                p.read,
                true,
            );
            lemma_merge(q, cx, op.id, merges, m, n, true);
            lemma_then(
                p,
                x,
                y,
                plan::merge_step(cx, op.id, merges, m, p.run, true),
                plan::merge_step(cx, op.id, merges, n, p.read, true),
            );
        }
    }
}

proof fn lemma_build_right<O: ValueOrder>(
    p: Places,
    o: &O,
    op: Operator,
    cx: ContextView,
    kind: JoinKind,
    left_width: usize,
    right_width: usize,
    merges: bool,
)
    requires
        op.children@.len() == 2,
    ensures
        follows(
            p,
            plan::build_right_from(
                o,
                op,
                cx,
                p.run,
                p.at,
                kind,
                left_width,
                right_width,
                merges,
            ),
            plan::build_right_from(
                o,
                op,
                cx,
                p.read,
                p.from,
                kind,
                left_width,
                right_width,
                merges,
            ),
        ),
    decreases op, 2nat, 2nat,
{
    let grace = cx.spill is Some;
    let q = if grace {
        past(p, p.at + 1)
    } else {
        p
    };
    lemma_child(q, o, op, 1, cx, grace);
    let x = plan::flow_of(o, op.children@[1], cx, p.run, q.at, grace);
    let y = plan::flow_of(o, op.children@[1], cx, p.read, q.from, grace);
    if let FlowView::Rows(right, None, u) = x {
        let r = past(q, u);
        lemma_probe(r, o, op, cx, right, kind, left_width, right_width, merges);
        lemma_then(
            q,
            x,
            y,
            plan::probe_from(
                o,
                op,
                cx,
                p.run,
                u,
                right,
                kind,
                left_width,
                right_width,
                merges,
            ),
            plan::probe_from(
                o,
                op,
                cx,
                p.read,
                r.from,
                right,
                kind,
                left_width,
                right_width,
                merges,
            ),
        );
    }
    if grace {
        lemma_join(q, o, op, cx, true);
        lemma_merge(
            q,
            cx,
            op.id,
            merges,
            plan::join_from(o, op, cx, q.run, q.at, true),
            plan::join_from(o, op, cx, q.read, q.from, true),
            false,
        );
        let a = plan::build_right_from(
            o,
            op,
            cx,
            p.run,
            p.at,
            kind,
            left_width,
            right_width,
            merges,
        );
        if a !is Needs && p.at + 1 <= end_of(a) && agree(p, end_of(a)) {
            lemma_agree_past(p, p.at + 1, end_of(a));
            assert(same_answer(p, p.at as int));
        }
    }
}

proof fn lemma_left_built<O: ValueOrder>(p: Places, o: &O, op: Operator, cx: ContextView)
    requires
        op.children@.len() == 2,
    ensures
        follows(
            p,
            left_built(o, op, cx, p.run, p.at),
            left_built(o, op, cx, p.read, p.from),
        ),
    decreases op, 2nat, 1nat,
{
    lemma_child(p, o, op, 0, cx, false);
    let x = plan::flow_of(o, op.children@[0], cx, p.run, p.at, false);
    let y = plan::flow_of(o, op.children@[0], cx, p.read, p.from, false);
    if let FlowView::Rows(left, None, u) = x {
        let q = past(p, u);
        lemma_child(q, o, op, 1, cx, true);
        let z = plan::flow_of(o, op.children@[1], cx, p.run, u, true);
        let w = plan::flow_of(o, op.children@[1], cx, p.read, q.from, true);
        if let FlowView::Rows(right, failed, v) = z {
            let r = past(q, v);
            lemma_match_left(r, cx, op.id, left, right, failed, true);
            let a = plan::match_left_step(cx, op.id, left, right, failed, v, p.run, true);
            let b = plan::match_left_step(cx, op.id, left, right, failed, r.from, p.read, true);
            lemma_then(q, z, w, a, b);
            lemma_then(p, x, y, a, b);
            if a !is Needs && agree(p, end_of(a)) {
                lemma_agree_past(p, u, end_of(a));
            }
        } else if z !is Needs {
            lemma_then(p, x, y, z, w);
            if agree(p, end_of(z)) {
                lemma_agree_past(p, u, end_of(z));
            }
        }
    }
}

/// A streamed hash join that is built on the left.
spec fn left_built<O: ValueOrder>(o: &O, op: Operator, cx: ContextView, tape: Tape, used: nat) -> FlowView {
    match plan::flow_of(o, op.children@[0], cx, tape, used, false) {
        FlowView::Rows(left, None, u) => match plan::flow_of(o, op.children@[1], cx, tape, u, true) {
            FlowView::Rows(right, failed, v) => plan::match_left_step(
                cx,
                op.id,
                left,
                right,
                failed,
                v,
                tape,
                true,
            ),
            other => other,
        },
        other => other,
    }
}

#[verifier::spinoff_prover]
proof fn lemma_streamed<O: ValueOrder>(p: Places, o: &O, op: Operator, cx: ContextView)
    requires
        plan::has_children(op),
    ensures
        follows(
            p,
            plan::streamed(o, op, cx, p.run, p.at),
            plan::streamed(o, op, cx, p.read, p.from),
        ),
    decreases op, 3nat, 0nat,
{
    match op.node {
        OpNode::Filter => {
            lemma_child(p, o, op, 0, cx, true);
            let c = op.children@[0];
            lemma_filter(
                p,
                cx,
                op.id,
                plan::flow_of(o, c, cx, p.run, p.at, true),
                plan::flow_of(o, c, cx, p.read, p.from, true),
                true,
            );
        },
        OpNode::Project { sequence_calls } => {
            lemma_child(p, o, op, 0, cx, true);
            let c = op.children@[0];
            lemma_project(
                p,
                cx,
                op.id,
                sequence_calls && c.node is OneRow,
                plan::flow_of(o, c, cx, p.run, p.at, true),
                plan::flow_of(o, c, cx, p.read, p.from, true),
                true,
            );
        },
        OpNode::Limit { count, offset } => {
            lemma_child(p, o, op, 0, cx, true);
            let c = op.children@[0];
            lemma_limit(
                p,
                count,
                offset,
                plan::flow_of(o, c, cx, p.run, p.at, true),
                plan::flow_of(o, c, cx, p.read, p.from, true),
                true,
            );
        },
        OpNode::ScalarAggregate { .. } => {
            lemma_scalar(p, o, op, cx);
        },
        OpNode::GroupAggregate { .. } => {
            lemma_group(p, o, op, cx);
        },
        OpNode::HashJoin { kind, left_width, right_width, merges, one_table } => {
            let asks = kind is Inner && !merges && one_table;
            if asks {
                let q = past(p, p.at + 1);
                lemma_build_right(q, o, op, cx, kind, left_width, right_width, merges);
                lemma_left_built(q, o, op, cx);
                let a = plan::streamed(o, op, cx, p.run, p.at);
                if a !is Needs && p.at + 1 <= end_of(a) && agree(p, end_of(a)) {
                    lemma_agree_past(p, p.at + 1, end_of(a));
                    assert(same_answer(p, p.at as int));
                }
            } else {
                lemma_build_right(p, o, op, cx, kind, left_width, right_width, merges);
            }
        },
        _ => {},
    }
}

} // verus!
