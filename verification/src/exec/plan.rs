//! Running plans: executing an operator into its rows, and streaming it.
use vstd::prelude::*;
use crate::error::{Error, Stage};
use crate::exec;
use crate::exec::nearest;
use crate::exec::sets;
use crate::exec::tables;
use crate::exec::tables::{GroupStep, TargetsStep};
use crate::exec::windows;
use crate::exec::{Answer, AnswerView, Ask, AskView, Context, ContextView, Failure, Flow, FlowView, IntSeries, KeysStep, LockReply, OnceCte, OpNode, Operator, RecursiveCte, Tape};
use crate::memory;
use crate::operators;
use crate::operators::JoinKind;
use crate::order::{SortKey, ValueOrder};
use crate::recursive;
use crate::recursive::{BindingView, Round};
use crate::series;
use crate::setops;
use crate::setops::{Rows, SetTree};
use crate::sort;
use crate::spill_setop;
use crate::value::{Row, Value, ValueView};

verus! {

// ---------------------------------------------------------------- contexts

pub open spec fn in_outer(cx: ContextView, row: Seq<ValueView>) -> ContextView {
    ContextView { outer: cx.outer.push(row), ..cx }
}

pub open spec fn with_binding(cx: ContextView, table: u64, rows: Rows) -> ContextView {
    ContextView { bound: cx.bound.push(BindingView { table, rows }), ..cx }
}

pub open spec fn with_bindings(cx: ContextView, more: Seq<BindingView>) -> ContextView {
    ContextView { bound: cx.bound + more, ..cx }
}

pub open spec fn with_hidden(cx: ContextView, hidden: Seq<(u64, u64)>) -> ContextView {
    ContextView { hidden, ..cx }
}

fn copy_pairs(pairs: &Vec<(u64, u64)>) -> (r: Vec<(u64, u64)>)
    ensures
        r@ == pairs@,
{
    let mut out: Vec<(u64, u64)> = Vec::new();
    let mut i: usize = 0;
    while i < pairs.len()
        invariant
            i <= pairs@.len(),
            out@ == pairs@.take(i as int),
        decreases pairs@.len() - i,
    {
        out.push(pairs[i]);
        assert(pairs@.take(i + 1) =~= pairs@.take(i as int).push(pairs@[i as int]));
        i += 1;
    }
    assert(pairs@.take(pairs@.len() as int) =~= pairs@);
    out
}

fn copy_context(cx: &Context) -> (r: Context)
    ensures
        r@ == cx@,
{
    Context {
        budget: cx.budget,
        spill: cx.spill,
        outer: setops::clone_rows(&cx.outer),
        bound: cx.bound.copy(),
        hidden: copy_pairs(&cx.hidden),
        beam: match &cx.beam {
            Some(s) => Some(s.clone()),
            None => None,
        },
    }
}

fn context_in_outer(cx: &Context, row: &Row) -> (r: Context)
    ensures
        r@ == in_outer(cx@, row.deep_view()),
{
    let mut out = copy_context(cx);
    let ghost before = out.outer.deep_view();
    let copy = sort::clone_row(row);
    out.outer.push(copy);
    assert(out.outer.deep_view() =~= before.push(row.deep_view()));
    out
}

fn context_with_binding(cx: &Context, table: u64, rows: Vec<Row>) -> (r: Context)
    ensures
        r@ == with_binding(cx@, table, rows.deep_view()),
{
    let mut out = copy_context(cx);
    out.bound.bind(table, rows);
    out
}

fn context_with_hidden(cx: &Context, hidden: Vec<(u64, u64)>) -> (r: Context)
    ensures
        r@ == with_hidden(cx@, hidden@),
{
    let mut out = copy_context(cx);
    out.hidden = hidden;
    out
}

// ---------------------------------------------------------------- locks

/// How far locking has come.
pub enum LocksStep {
    /// Every row is locked, or hidden from the query.
    Done(Seq<(u64, u64)>, nat),
    Stop(FlowView),
}

/// Lock the rows from `i` on. A row that another transaction holds is hidden with `skip_locked`, and
/// else fails the query.
pub open spec fn locks_from(
    cx: ContextView,
    id: u64,
    table: u64,
    skip_locked: bool,
    nowait: bool,
    rows: Seq<u64>,
    i: nat,
    hidden: Seq<(u64, u64)>,
    tape: Tape,
    used: nat,
) -> LocksStep
    decreases rows.len() - i,
{
    if i >= rows.len() {
        LocksStep::Done(hidden, used)
    } else if used >= tape.len() {
        LocksStep::Stop(exec::asking(cx, id, AskView::Lock(rows[i as int])))
    } else {
        match tape[used as int] {
            AnswerView::Lock(LockReply::Taken) => locks_from(
                cx,
                id,
                table,
                skip_locked,
                nowait,
                rows,
                i + 1,
                hidden,
                tape,
                used + 1,
            ),
            AnswerView::Lock(LockReply::Conflict) => if skip_locked {
                locks_from(
                    cx,
                    id,
                    table,
                    skip_locked,
                    nowait,
                    rows,
                    i + 1,
                    hidden.push((table, rows[i as int])),
                    tape,
                    used + 1,
                )
            } else if nowait {
                LocksStep::Stop(exec::failing(Failure::LockNotAvailable, used + 1))
            } else {
                LocksStep::Stop(exec::failing(Failure::LockConflict, used + 1))
            },
            AnswerView::Lock(LockReply::Failed) | AnswerView::Failed => LocksStep::Stop(
                exec::failing(Failure::Outside, used + 1),
            ),
            _ => LocksStep::Stop(exec::failing(Failure::BadAnswer, used + 1)),
        }
    }
}

fn take_locks(
    cx: &Context,
    id: u64,
    table: u64,
    skip_locked: bool,
    nowait: bool,
    rows: &Vec<u64>,
    tape: &Vec<Answer>,
    used: usize,
) -> (r: Result<(Vec<(u64, u64)>, usize), Flow>)
    ensures
        match locks_from(
            cx@,
            id,
            table,
            skip_locked,
            nowait,
            rows@,
            0,
            cx@.hidden,
            tape.deep_view(),
            used as nat,
        ) {
            LocksStep::Done(hidden, u) => r matches Ok(done) && done.0@ == hidden && done.1 == u,
            LocksStep::Stop(f) => r matches Err(flow) && flow@ == f,
        },
{
    let mut hidden = copy_pairs(&cx.hidden);
    let mut at: usize = used;
    let mut i: usize = 0;
    while i < rows.len()
        invariant
            i <= rows@.len(),
            locks_from(
                cx@,
                id,
                table,
                skip_locked,
                nowait,
                rows@,
                0,
                cx@.hidden,
                tape.deep_view(),
                used as nat,
            ) == locks_from(
                cx@,
                id,
                table,
                skip_locked,
                nowait,
                rows@,
                i as nat,
                hidden@,
                tape.deep_view(),
                at as nat,
            ),
        decreases rows@.len() - i,
    {
        if at >= tape.len() {
            return Err(exec::needs(cx, id, Ask::Lock(rows[i])));
        }
        assert(tape.deep_view()[at as int] == tape@[at as int]@);
        match &tape[at] {
            Answer::Lock(LockReply::Taken) => {},
            Answer::Lock(LockReply::Conflict) => {
                if skip_locked {
                    hidden.push((table, rows[i]));
                } else if nowait {
                    return Err(exec::fail(Failure::LockNotAvailable, at + 1));
                } else {
                    return Err(exec::fail(Failure::LockConflict, at + 1));
                }
            },
            Answer::Lock(LockReply::Failed) | Answer::Failed => {
                return Err(exec::fail(Failure::Outside, at + 1));
            },
            _ => {
                return Err(exec::fail(Failure::BadAnswer, at + 1));
            },
        }
        at += 1;
        i += 1;
    }
    Ok((hidden, at))
}

// ---------------------------------------------------------------- joins

/// Merge the equal columns of a join's rows, where it merges any.
pub open spec fn merge_step(cx: ContextView, id: u64, merges: bool, flow: FlowView, tape: Tape, lazy: bool) -> FlowView {
    if !merges {
        flow
    } else {
        match flow {
            FlowView::Rows(rows, failed, used) => {
                if !lazy && failed is Some {
                    flow
                } else if used >= tape.len() {
                    exec::asking(cx, id, AskView::Merge(rows))
                } else {
                    match tape[used as int] {
                        AnswerView::Rows(out, _) => if out.len() > rows.len() {
                            exec::failing(Failure::BadAnswer, used + 1)
                        } else {
                            exec::settled(
                                lazy,
                                out,
                                exec::short(out.len(), rows.len(), failed),
                                used + 1,
                            )
                        },
                        AnswerView::Failed => exec::failing(Failure::Outside, used + 1),
                        _ => exec::failing(Failure::BadAnswer, used + 1),
                    }
                }
            },
            other => other,
        }
    }
}

fn merge_flow(cx: &Context, id: u64, merges: bool, flow: Flow, tape: &Vec<Answer>, lazy: bool) -> (r: Flow)
    ensures
        r@ == merge_step(cx@, id, merges, flow@, tape.deep_view(), lazy),
{
    if !merges {
        return flow;
    }
    match flow {
        Flow::Rows { rows, failed, used } => {
            if !lazy && failed.is_some() {
                return Flow::Rows { rows, failed, used };
            }
            if used >= tape.len() {
                return exec::needs(cx, id, Ask::Merge(rows));
            }
            assert(tape.deep_view()[used as int] == tape@[used as int]@);
            match &tape[used] {
                Answer::Rows { rows: out, .. } => {
                    if out.len() > rows.len() {
                        return exec::fail(Failure::BadAnswer, used + 1);
                    }
                    let end = exec::shortfall(out.len(), rows.len(), failed);
                    exec::settle(lazy, setops::clone_rows(out), end, used + 1)
                },
                Answer::Failed => exec::fail(Failure::Outside, used + 1),
                _ => exec::fail(Failure::BadAnswer, used + 1),
            }
        },
        other => other,
    }
}

/// A hash join built on the right: what each left row adds as far as its matches were found, and the
/// right rows without a match once every left row is through.
pub open spec fn match_step(
    cx: ContextView,
    id: u64,
    left: Rows,
    failed: Option<Failure>,
    right: Rows,
    used: nat,
    kind: JoinKind,
    left_width: usize,
    right_width: usize,
    tape: Tape,
    lazy: bool,
) -> FlowView {
    if used >= tape.len() {
        exec::asking(cx, id, AskView::Match(left, right))
    } else {
        match tape[used as int] {
            AnswerView::Matches(ms) => if ms.len() > left.len() {
                exec::failing(Failure::BadAnswer, used + 1)
            } else {
                let end = exec::short(ms.len(), left.len(), failed);
                exec::settled(
                    lazy,
                    if end is None {
                        operators::joined(
                            left,
                            right,
                            ms,
                            kind,
                            left_width as nat,
                            right_width as nat,
                        )
                    } else {
                        operators::probed(left, right, ms, kind, right_width as nat, ms.len())
                    },
                    end,
                    used + 1,
                )
            },
            AnswerView::Failed => exec::failing(Failure::Outside, used + 1),
            _ => exec::failing(Failure::BadAnswer, used + 1),
        }
    }
}

proof fn lemma_probed_prefix(
    left: Rows,
    right: Rows,
    ms: Seq<Seq<usize>>,
    kind: JoinKind,
    right_width: nat,
    n: nat,
    m: nat,
)
    requires
        n <= m <= left.len(),
    ensures
        operators::probed(left.take(m as int), right, ms, kind, right_width, n) == operators::probed(
            left,
            right,
            ms,
            kind,
            right_width,
            n,
        ),
    decreases n,
{
    if n > 0 {
        lemma_probed_prefix(left, right, ms, kind, right_width, (n - 1) as nat, m);
    }
}

fn match_flow(
    cx: &Context,
    id: u64,
    left: &Vec<Row>,
    failed: Option<Failure>,
    right: &Vec<Row>,
    used: usize,
    kind: JoinKind,
    left_width: usize,
    right_width: usize,
    tape: &Vec<Answer>,
    lazy: bool,
) -> (r: Flow)
    ensures
        r@ == match_step(
            cx@,
            id,
            left.deep_view(),
            failed,
            right.deep_view(),
            used as nat,
            kind,
            left_width,
            right_width,
            tape.deep_view(),
            lazy,
        ),
{
    if used >= tape.len() {
        return exec::needs(
            cx,
            id,
            Ask::Match { left: setops::clone_rows(left), right: setops::clone_rows(right) },
        );
    }
    assert(tape.deep_view()[used as int] == tape@[used as int]@);
    match &tape[used] {
        Answer::Matches(ms) => {
            if ms.len() > left.len() {
                return exec::fail(Failure::BadAnswer, used + 1);
            }
            let end = exec::shortfall(ms.len(), left.len(), failed);
            if end.is_none() {
                let rows = operators::join_rows(left, right, ms, kind, left_width, right_width);
                return exec::settle(lazy, rows, end, used + 1);
            }
            // The stream ends early: the rows probed so far, without the unmatched right rows.
            let head = operators::limit_rows(left, 0, ms.len() as u64);
            let ghost lv = left.deep_view();
            let ghost n = ms@.len();
            assert(head.deep_view() =~= lv.take(n as int));
            let probing: JoinKind = match kind {
                JoinKind::Left | JoinKind::Full => JoinKind::Left,
                _ => JoinKind::Inner,
            };
            let rows = operators::join_rows(&head, right, ms, probing, left_width, right_width);
            proof {
                let rv = right.deep_view();
                let mv = ms.deep_view();
                lemma_probed_prefix(lv, rv, mv, probing, right_width as nat, n, n);
                lemma_probed_kind(lv, rv, mv, kind, probing, right_width as nat, n);
                let p = operators::probed(lv, rv, mv, kind, right_width as nat, n);
                assert(p + Seq::empty() =~= p);
            }
            exec::settle(lazy, rows, end, used + 1)
        },
        Answer::Failed => exec::fail(Failure::Outside, used + 1),
        _ => exec::fail(Failure::BadAnswer, used + 1),
    }
}

proof fn lemma_probed_kind(
    left: Rows,
    right: Rows,
    ms: Seq<Seq<usize>>,
    a: JoinKind,
    b: JoinKind,
    right_width: nat,
    n: nat,
)
    requires
        operators::keeps_left(a) == operators::keeps_left(b),
    ensures
        operators::probed(left, right, ms, a, right_width, n) == operators::probed(
            left,
            right,
            ms,
            b,
            right_width,
            n,
        ),
    decreases n,
{
    if n > 0 {
        lemma_probed_kind(left, right, ms, a, b, right_width, (n - 1) as nat);
    }
}

/// An inner hash join built on the left: what each right row adds as far as its matches were found. That
/// the rows come in the order of the right side, executed as well as streamed, is taken as given.
pub open spec fn match_left_step(
    cx: ContextView,
    id: u64,
    left: Rows,
    right: Rows,
    failed: Option<Failure>,
    used: nat,
    tape: Tape,
    lazy: bool,
) -> FlowView {
    if used >= tape.len() {
        exec::asking(cx, id, AskView::MatchLeft(left, right))
    } else {
        match tape[used as int] {
            AnswerView::Matches(ms) => if ms.len() > right.len() {
                exec::failing(Failure::BadAnswer, used + 1)
            } else {
                exec::settled(
                    lazy,
                    operators::probed_right(left, right, ms, ms.len()),
                    exec::short(ms.len(), right.len(), failed),
                    used + 1,
                )
            },
            AnswerView::Failed => exec::failing(Failure::Outside, used + 1),
            _ => exec::failing(Failure::BadAnswer, used + 1),
        }
    }
}

proof fn lemma_probed_right_prefix(
    left: Rows,
    right: Rows,
    ms: Seq<Seq<usize>>,
    n: nat,
    m: nat,
)
    requires
        n <= m <= right.len(),
    ensures
        operators::probed_right(left, right.take(m as int), ms, n) == operators::probed_right(
            left,
            right,
            ms,
            n,
        ),
    decreases n,
{
    if n > 0 {
        lemma_probed_right_prefix(left, right, ms, (n - 1) as nat, m);
    }
}

fn match_left_flow(
    cx: &Context,
    id: u64,
    left: &Vec<Row>,
    right: &Vec<Row>,
    failed: Option<Failure>,
    used: usize,
    tape: &Vec<Answer>,
    lazy: bool,
) -> (r: Flow)
    ensures
        r@ == match_left_step(
            cx@,
            id,
            left.deep_view(),
            right.deep_view(),
            failed,
            used as nat,
            tape.deep_view(),
            lazy,
        ),
{
    if used >= tape.len() {
        return exec::needs(
            cx,
            id,
            Ask::MatchLeft { left: setops::clone_rows(left), right: setops::clone_rows(right) },
        );
    }
    assert(tape.deep_view()[used as int] == tape@[used as int]@);
    match &tape[used] {
        Answer::Matches(ms) => {
            if ms.len() > right.len() {
                return exec::fail(Failure::BadAnswer, used + 1);
            }
            let end = exec::shortfall(ms.len(), right.len(), failed);
            let head = operators::limit_rows(right, 0, ms.len() as u64);
            let ghost rv = right.deep_view();
            let ghost n = ms@.len();
            assert(head.deep_view() =~= rv.take(n as int));
            let rows = operators::join_rows_left_build(left, &head, ms);
            proof {
                lemma_probed_right_prefix(left.deep_view(), rv, ms.deep_view(), n, n);
            }
            exec::settle(lazy, rows, end, used + 1)
        },
        Answer::Failed => exec::fail(Failure::Outside, used + 1),
        _ => exec::fail(Failure::BadAnswer, used + 1),
    }
}

// ---------------------------------------------------------------- set operations

/// The inputs of a set operation, or where collecting them stopped.
pub enum InputsStep {
    All(Seq<Rows>, nat),
    Stop(FlowView),
}

/// Every row of every input is `width` wide.
pub open spec fn inputs_wide(inputs: Seq<Rows>, width: nat) -> bool {
    forall|k: int| 0 <= k < inputs.len() ==> sort::keyed(#[trigger] inputs[k], width)
}

/// Combine the inputs of a set operation, sort the rows where there are keys, and limit them.
pub open spec fn set_step<O: ValueOrder>(
    o: &O,
    cx: ContextView,
    id: u64,
    tree: SetTree,
    ks: Seq<SortKey>,
    limit: Option<u64>,
    width: usize,
    inputs: Seq<Rows>,
    used: nat,
    tape: Tape,
) -> FlowView {
    if cx.spill is Some && !inputs_wide(inputs, width as nat) {
        exec::failing(Failure::BadRow, used)
    } else {
        let rows = if cx.spill is Some {
            spill_setop::spilled_rows(o, tree, inputs, width as nat)
        } else {
            setops::tree_rows(o, tree, inputs)
        };
        if ks.len() == 0 {
            FlowView::Rows(setops::limited(rows, limit), None, used)
        } else {
            match exec::keys_step(cx, id, rows, used, ks.len(), tape) {
                KeysStep::Keys(keys) => FlowView::Rows(
                    setops::limited(exec::sorted_rows(o, rows, keys, ks), limit),
                    None,
                    used + 1,
                ),
                KeysStep::Stop(f) => f,
            }
        }
    }
}

proof fn lemma_leaves_wide(tree: SetTree, inputs: Seq<Rows>, width: nat)
    requires
        setops::leaves_fit(tree, inputs.len()),
        inputs_wide(inputs, width),
    ensures
        spill_setop::leaves_wide(tree, inputs, width),
    decreases tree,
{
    match tree {
        SetTree::Leaf(i) => {
            assert(sort::keyed(inputs[i as int], width));
        },
        SetTree::Node { left, right, .. } => {
            lemma_leaves_wide(*left, inputs, width);
            lemma_leaves_wide(*right, inputs, width);
        },
    }
}

fn inputs_are_wide(inputs: &Vec<Vec<Row>>, width: usize) -> (r: bool)
    ensures
        r == inputs_wide(inputs.deep_view(), width as nat),
{
    let ghost iv = inputs.deep_view();
    let mut k: usize = 0;
    while k < inputs.len()
        invariant
            iv == inputs.deep_view(),
            k <= inputs@.len(),
            forall|j: int| 0 <= j < k ==> sort::keyed(#[trigger] iv[j], width as nat),
        decreases inputs@.len() - k,
    {
        assert(iv[k as int] == inputs@[k as int].deep_view());
        if !exec::rows_are_wide(&inputs[k], width) {
            assert(!sort::keyed(iv[k as int], width as nat));
            return false;
        }
        k += 1;
    }
    true
}

fn tree_fits(tree: &SetTree, n: usize) -> (r: bool)
    ensures
        r == setops::leaves_fit(*tree, n as nat),
    decreases *tree,
{
    match tree {
        SetTree::Leaf(i) => *i < n,
        SetTree::Node { left, right, .. } => tree_fits(left, n) && tree_fits(right, n),
    }
}

fn set_flow<O: ValueOrder>(
    o: &O,
    cx: &Context,
    id: u64,
    tree: &SetTree,
    ks: &Vec<SortKey>,
    limit: Option<u64>,
    width: usize,
    inputs: &Vec<Vec<Row>>,
    used: usize,
    tape: &Vec<Answer>,
) -> (r: Flow)
    requires
        setops::leaves_fit(*tree, inputs@.len()),
    ensures
        r@ == set_step(
            o,
            cx@,
            id,
            *tree,
            ks@,
            limit,
            width,
            inputs.deep_view(),
            used as nat,
            tape.deep_view(),
        ),
{
    let rows: Vec<Row> = match cx.spill {
        Some(threshold) => {
            if !inputs_are_wide(inputs, width) {
                return exec::fail(Failure::BadRow, used);
            }
            proof {
                lemma_leaves_wide(*tree, inputs.deep_view(), width as nat);
            }
            spill_setop::eval_set_tree_spilling(o, tree, inputs, width, threshold)
        },
        None => setops::eval_set_tree(o, tree, inputs),
    };
    if ks.len() == 0 {
        let none: Vec<Vec<Value>> = Vec::new();
        let out = setops::finish_set_operation(o, rows, &none, ks, limit);
        return Flow::Rows { rows: out, failed: None, used };
    }
    match exec::take_keys(cx, id, &rows, used, ks.len(), tape) {
        Ok(keys) => {
            let out = setops::finish_set_operation(o, rows, &keys, ks, limit);
            Flow::Rows { rows: out, failed: None, used: used + 1 }
        },
        Err(flow) => flow,
    }
}

// ---------------------------------------------------------------- the recursion

/// Whether an operator is streamed, where it is read as a stream. The others are executed.
pub open spec fn streams(node: OpNode, spill: Option<usize>) -> bool {
    match node {
        OpNode::Scan { .. }
        | OpNode::Filter
        | OpNode::Project { .. }
        | OpNode::Limit { .. }
        | OpNode::ScalarAggregate { .. }
        | OpNode::HashJoin { .. } => true,
        OpNode::GroupAggregate { .. } => spill is None,
        OpNode::ProjectSet { series: Some(s), .. } => s.step != 0,
        _ => false,
    }
}

/// The operator has as many children as its node calls for.
pub open spec fn has_children(op: Operator) -> bool {
    match exec::arity(op.node) {
        Some(n) => op.children@.len() == n,
        None => true,
    }
}

/// The rows of an operator, executed or, with `lazy`, read as a stream.
pub open spec fn flow_of<O: ValueOrder>(
    o: &O,
    op: Operator,
    cx: ContextView,
    tape: Tape,
    used: nat,
    lazy: bool,
) -> FlowView
    decreases op, 4nat, 0nat,
{
    if !has_children(op) {
        exec::failing(Failure::BadPlan, used)
    } else if lazy && streams(op.node, cx.spill) {
        streamed(o, op, cx, tape, used)
    } else {
        exec::within_budget(cx, executed(o, op, cx, tape, used))
    }
}

/// The rows of an operator, executed.
pub open spec fn executed<O: ValueOrder>(o: &O, op: Operator, cx: ContextView, tape: Tape, used: nat) -> FlowView
    decreases op, 3nat, 0nat,
{
    if !has_children(op) {
        exec::failing(Failure::BadPlan, used)
    } else {
        match op.node {
            OpNode::Scan { table, schema, keep } => tables::scan_step(
                cx,
                op.id,
                table,
                schema@,
                keep@,
                tape,
                used,
                false,
            ),
            OpNode::Source => exec::rows_step(cx, op.id, AskView::Source, tape, used, false),
            OpNode::VectorKnn { column, k, filtered } => nearest::nearest_step(
                cx,
                op.id,
                column,
                k,
                filtered,
                tape,
                used,
            ),
            OpNode::OneRow => FlowView::Rows(seq![Seq::<ValueView>::empty()], None, used),
            OpNode::SetOperation { tree, keys, limit, width } => {
                if !setops::leaves_fit(tree, op.children@.len()) {
                    exec::failing(Failure::BadPlan, used)
                } else {
                    match inputs_from(o, op, cx, tape, used, 0, Seq::empty()) {
                        InputsStep::All(inputs, u) => set_step(
                            o,
                            cx,
                            op.id,
                            tree,
                            keys@,
                            limit,
                            width,
                            inputs,
                            u,
                            tape,
                        ),
                        InputsStep::Stop(f) => f,
                    }
                }
            },
            OpNode::LockRows { table, schema, predicate, skip_locked, nowait } => {
                match tables::targets_step(cx, op.id, table, schema@, predicate, tape, used) {
                    TargetsStep::Targets(ts, end, u) => match locks_from(
                        cx,
                        op.id,
                        table,
                        skip_locked,
                        nowait,
                        ts,
                        0,
                        cx.hidden,
                        tape,
                        u,
                    ) {
                        LocksStep::Done(hidden, v) => match end {
                            Some(f) => exec::failing(f, v),
                            None => flow_of(
                                o,
                                op.children@[0],
                                with_hidden(cx, hidden),
                                tape,
                                v,
                                false,
                            ),
                        },
                        LocksStep::Stop(f) => f,
                    },
                    TargetsStep::Stop(f) => f,
                }
            },
            OpNode::Filter => exec::filter_step(
                cx,
                op.id,
                flow_of(o, op.children@[0], cx, tape, used, false),
                tape,
                false,
            ),
            OpNode::Sort { keys, has_subquery, ties, top_n } => {
                if top_n is Some && !has_subquery {
                    exec::top_n_step(
                        o,
                        cx,
                        op.id,
                        flow_of(o, op.children@[0], cx, tape, used, true),
                        keys@,
                        top_n->0,
                        tape,
                    )
                } else if ties is Some && has_subquery {
                    exec::failing(Failure::TiesWithSubquery, used)
                } else {
                    let lazy = ties is None && !has_subquery && cx.spill is Some;
                    exec::sort_step(
                        o,
                        cx,
                        op.id,
                        flow_of(o, op.children@[0], cx, tape, used, lazy),
                        keys@,
                        ties,
                        tape,
                    )
                }
            },
            OpNode::Project { sequence_calls } => {
                let child = flow_of(o, op.children@[0], cx, tape, used, false);
                let once = sequence_calls && (child matches FlowView::Rows(rows, _, _) && rows.len()
                    == 1);
                exec::project_step(cx, op.id, once, child, tape, false)
            },
            OpNode::ProjectSet { func, pos, ordinality, .. } => sets::expand_step(
                cx,
                op.id,
                func,
                pos,
                ordinality,
                flow_of(o, op.children@[0], cx, tape, used, false),
                tape,
            ),
            OpNode::Limit { count, offset } => exec::limit_step(
                count,
                offset,
                flow_of(o, op.children@[0], cx, tape, used, true),
                false,
            ),
            OpNode::Distinct { width } => exec::distinct_step(
                o,
                width,
                flow_of(o, op.children@[0], cx, tape, used, cx.spill is Some),
                cx.spill is Some,
            ),
            OpNode::DistinctOn => exec::distinct_on_step(
                o,
                cx,
                op.id,
                flow_of(o, op.children@[0], cx, tape, used, false),
                tape,
            ),
            OpNode::ScalarAggregate { .. } => scalar_from(o, op, cx, tape, used),
            OpNode::GroupAggregate { input, keys } => match cx.spill {
                Some(threshold) => match tables::group_step(
                    cx,
                    op.id,
                    input,
                    keys@,
                    threshold,
                    tape,
                    used,
                ) {
                    GroupStep::Sorted(sorted, u) => exec::fold_step(
                        cx,
                        op.id,
                        flow_of(o, op.children@[0], cx, tape, u, true),
                        sorted,
                        tape,
                    ),
                    GroupStep::Stop(f) => f,
                },
                None => exec::fold_step(
                    cx,
                    op.id,
                    flow_of(o, op.children@[0], cx, tape, used, true),
                    false,
                    tape,
                ),
            },
            OpNode::GroupingSetsAggregate => exec::fold_step(
                cx,
                op.id,
                flow_of(o, op.children@[0], cx, tape, used, true),
                false,
                tape,
            ),
            OpNode::Window { windows, top_n } => windows::windows_step(
                o,
                cx,
                op.id,
                windows@,
                match top_n {
                    Some(m) => exec::top_n_step(
                        o,
                        cx,
                        op.id,
                        flow_of(o, op.children@[0], cx, tape, used, true),
                        windows::first_order(windows@),
                        m,
                        tape,
                    ),
                    None => flow_of(o, op.children@[0], cx, tape, used, false),
                },
                tape,
            ),
            OpNode::NestedLoopJoin => join_from(o, op, cx, tape, used, false),
            OpNode::HashJoin { kind, left_width, right_width, merges, .. } => {
                if cx.spill is Some {
                    merge_step(cx, op.id, merges, join_from(o, op, cx, tape, used, true), tape, false)
                } else {
                    match flow_of(o, op.children@[0], cx, tape, used, false) {
                        FlowView::Rows(left, None, u) => match flow_of(
                            o,
                            op.children@[1],
                            cx,
                            tape,
                            u,
                            false,
                        ) {
                            FlowView::Rows(right, None, v) => merge_step(
                                cx,
                                op.id,
                                merges,
                                if operators::builds_left(kind, merges, left.len(), right.len()) {
                                    match_left_step(cx, op.id, left, right, None, v, tape, false)
                                } else {
                                    match_step(
                                        cx,
                                        op.id,
                                        left,
                                        None,
                                        right,
                                        v,
                                        kind,
                                        left_width,
                                        right_width,
                                        tape,
                                        false,
                                    )
                                },
                                tape,
                                false,
                            ),
                            other => other,
                        },
                        other => other,
                    }
                }
            },
            OpNode::LateralJoin { kind, right_width } => match flow_of(
                o,
                op.children@[0],
                cx,
                tape,
                used,
                false,
            ) {
                FlowView::Rows(left, None, u) => lateral_from(
                    o,
                    op,
                    kind,
                    right_width,
                    cx,
                    tape,
                    u,
                    left,
                    0,
                    Seq::empty(),
                ),
                other => other,
            },
            OpNode::WithRecursive { ctes } => recursive_from(
                o,
                op,
                ctes@,
                cx,
                tape,
                used,
                0,
                Seq::empty(),
            ),
            OpNode::WithModifying { ctes } => modifying_from(o, op, ctes@, cx, tape, used, 0),
        }
    }
}

/// The rows of an operator, read as a stream.
pub open spec fn streamed<O: ValueOrder>(o: &O, op: Operator, cx: ContextView, tape: Tape, used: nat) -> FlowView
    decreases op, 3nat, 0nat,
{
    if !has_children(op) {
        exec::failing(Failure::BadPlan, used)
    } else {
        match op.node {
            OpNode::Scan { table, schema, keep } => tables::scan_step(
                cx,
                op.id,
                table,
                schema@,
                keep@,
                tape,
                used,
                true,
            ),
            OpNode::Filter => exec::filter_step(
                cx,
                op.id,
                flow_of(o, op.children@[0], cx, tape, used, true),
                tape,
                true,
            ),
            OpNode::Project { sequence_calls } => exec::project_step(
                cx,
                op.id,
                sequence_calls && op.children@[0].node is OneRow,
                flow_of(o, op.children@[0], cx, tape, used, true),
                tape,
                true,
            ),
            OpNode::Limit { count, offset } => exec::limit_step(
                count,
                offset,
                flow_of(o, op.children@[0], cx, tape, used, true),
                true,
            ),
            OpNode::ScalarAggregate { .. } => scalar_from(o, op, cx, tape, used),
            OpNode::GroupAggregate { .. } => exec::fold_step(
                cx,
                op.id,
                flow_of(o, op.children@[0], cx, tape, used, true),
                false,
                tape,
            ),
            OpNode::ProjectSet { series: Some(s), .. } => exec::series_flow(s, used),
            OpNode::HashJoin { kind, left_width, right_width, merges, one_table } => {
                if kind is Inner && !merges && one_table {
                    if used >= tape.len() {
                        exec::asking(cx, op.id, AskView::LeftBuild)
                    } else {
                        match tape[used as int] {
                            AnswerView::Flag(true) => match flow_of(
                                o,
                                op.children@[0],
                                cx,
                                tape,
                                used + 1,
                                false,
                            ) {
                                FlowView::Rows(left, None, u) => match flow_of(
                                    o,
                                    op.children@[1],
                                    cx,
                                    tape,
                                    u,
                                    true,
                                ) {
                                    FlowView::Rows(right, failed, v) => match_left_step(
                                        cx,
                                        op.id,
                                        left,
                                        right,
                                        failed,
                                        v,
                                        tape,
                                        true,
                                    ),
                                    other => other,
                                },
                                other => other,
                            },
                            AnswerView::Flag(false) => build_right_from(
                                o,
                                op,
                                cx,
                                tape,
                                used + 1,
                                kind,
                                left_width,
                                right_width,
                                merges,
                            ),
                            AnswerView::Failed => exec::failing(Failure::Outside, used + 1),
                            _ => exec::failing(Failure::BadAnswer, used + 1),
                        }
                    }
                } else {
                    build_right_from(
                        o,
                        op,
                        cx,
                        tape,
                        used,
                        kind,
                        left_width,
                        right_width,
                        merges,
                    )
                }
            },
            _ => exec::failing(Failure::BadPlan, used),
        }
    }
}

/// A scalar aggregate: the count of a scan's rows without reading them, or else a fold of the child.
pub open spec fn scalar_from<O: ValueOrder>(o: &O, op: Operator, cx: ContextView, tape: Tape, used: nat) -> FlowView
    decreases op, 2nat, 0nat,
{
    if op.children@.len() != 1 {
        exec::failing(Failure::BadPlan, used)
    } else {
        match (op.node, op.children@[0].node) {
            (OpNode::ScalarAggregate { count_star: true }, OpNode::Scan { table, .. }) => {
                tables::count_step(cx, op.children@[0].id, table, tape, used)
            },
            _ => exec::fold_step(
                cx,
                op.id,
                flow_of(o, op.children@[0], cx, tape, used, true),
                false,
                tape,
            ),
        }
    }
}

/// A join of two complete children, executed or streamed, that is asked for as a whole.
pub open spec fn join_from<O: ValueOrder>(
    o: &O,
    op: Operator,
    cx: ContextView,
    tape: Tape,
    used: nat,
    lazy: bool,
) -> FlowView
    decreases op, 2nat, 0nat,
{
    if op.children@.len() != 2 {
        exec::failing(Failure::BadPlan, used)
    } else {
        match flow_of(o, op.children@[0], cx, tape, used, lazy) {
            FlowView::Rows(left, None, u) => match flow_of(o, op.children@[1], cx, tape, u, lazy) {
                FlowView::Rows(right, None, v) => exec::rows_step(
                    cx,
                    op.id,
                    AskView::Join(left, right),
                    tape,
                    v,
                    false,
                ),
                FlowView::Rows(_, Some(f), v) => exec::failing(f, v),
                other => other,
            },
            FlowView::Rows(_, Some(f), u) => exec::failing(f, u),
            other => other,
        }
    }
}

/// A streamed hash join built on the right. Where the right side does not fit the spill budget, the
/// join is asked for as a whole.
pub open spec fn build_right_from<O: ValueOrder>(
    o: &O,
    op: Operator,
    cx: ContextView,
    tape: Tape,
    used: nat,
    kind: JoinKind,
    left_width: usize,
    right_width: usize,
    merges: bool,
) -> FlowView
    decreases op, 2nat, 2nat,
{
    if op.children@.len() != 2 {
        exec::failing(Failure::BadPlan, used)
    } else if cx.spill is None {
        match flow_of(o, op.children@[1], cx, tape, used, false) {
            FlowView::Rows(right, None, u) => probe_from(
                o,
                op,
                cx,
                tape,
                u,
                right,
                kind,
                left_width,
                right_width,
                merges,
            ),
            other => other,
        }
    } else if used >= tape.len() {
        exec::asking(cx, op.id, AskView::GraceBuild)
    } else {
        match tape[used as int] {
            AnswerView::Flag(true) => match flow_of(o, op.children@[1], cx, tape, used + 1, true) {
                FlowView::Rows(right, None, u) => probe_from(
                    o,
                    op,
                    cx,
                    tape,
                    u,
                    right,
                    kind,
                    left_width,
                    right_width,
                    merges,
                ),
                FlowView::Rows(_, Some(f), u) => exec::failing(f, u),
                other => other,
            },
            AnswerView::Flag(false) => merge_step(
                cx,
                op.id,
                merges,
                join_from(o, op, cx, tape, used + 1, true),
                tape,
                false,
            ),
            AnswerView::Failed => exec::failing(Failure::Outside, used + 1),
            _ => exec::failing(Failure::BadAnswer, used + 1),
        }
    }
}

/// Stream the left side of a hash join against its right rows.
pub open spec fn probe_from<O: ValueOrder>(
    o: &O,
    op: Operator,
    cx: ContextView,
    tape: Tape,
    used: nat,
    right: Rows,
    kind: JoinKind,
    left_width: usize,
    right_width: usize,
    merges: bool,
) -> FlowView
    decreases op, 2nat, 1nat,
{
    if op.children@.len() != 2 {
        exec::failing(Failure::BadPlan, used)
    } else {
        match flow_of(o, op.children@[0], cx, tape, used, true) {
            FlowView::Rows(left, failed, u) => merge_step(
                cx,
                op.id,
                merges,
                match_step(
                    cx,
                    op.id,
                    left,
                    failed,
                    right,
                    u,
                    kind,
                    left_width,
                    right_width,
                    tape,
                    true,
                ),
                tape,
                true,
            ),
            other => other,
        }
    }
}

/// The rows of the children from `k` on, as the inputs of a set operation: executed, or streamed
/// where spilling is on.
pub open spec fn inputs_from<O: ValueOrder>(
    o: &O,
    op: Operator,
    cx: ContextView,
    tape: Tape,
    used: nat,
    k: nat,
    done: Seq<Rows>,
) -> InputsStep
    decreases op, 2nat, op.children@.len() - k,
{
    if k >= op.children@.len() {
        InputsStep::All(done, used)
    } else {
        match flow_of(o, op.children@[k as int], cx, tape, used, cx.spill is Some) {
            FlowView::Rows(rows, None, u) => inputs_from(o, op, cx, tape, u, k + 1, done.push(rows)),
            FlowView::Rows(_, Some(f), u) => InputsStep::Stop(exec::failing(f, u)),
            other => InputsStep::Stop(other),
        }
    }
}

/// A lateral join of the left rows from `i` on: the right side is executed anew for each left row,
/// inside of it.
pub open spec fn lateral_from<O: ValueOrder>(
    o: &O,
    op: Operator,
    kind: JoinKind,
    right_width: usize,
    cx: ContextView,
    tape: Tape,
    used: nat,
    left: Rows,
    i: nat,
    out: Rows,
) -> FlowView
    decreases op, 2nat, left.len() - i,
{
    if op.children@.len() != 2 {
        exec::failing(Failure::BadPlan, used)
    } else if i >= left.len() {
        FlowView::Rows(out, None, used)
    } else {
        match flow_of(o, op.children@[1], in_outer(cx, left[i as int]), tape, used, false) {
            FlowView::Rows(right, None, u) => {
                let pairs = operators::all_pairs(left[i as int], right);
                if u >= tape.len() {
                    exec::asking(cx, op.id, AskView::Verdicts(pairs))
                } else {
                    match tape[u as int] {
                        AnswerView::Values(vs) => if vs.len() > pairs.len() {
                            exec::failing(Failure::BadAnswer, u + 1)
                        } else if vs.len() < pairs.len() {
                            exec::failing(Failure::Outside, u + 1)
                        } else {
                            lateral_from(
                                o,
                                op,
                                kind,
                                right_width,
                                cx,
                                tape,
                                u + 1,
                                left,
                                i + 1,
                                out + operators::lateral_rows(
                                    pairs,
                                    vs,
                                    left[i as int],
                                    kind,
                                    right_width as nat,
                                ),
                            )
                        },
                        AnswerView::Failed => exec::failing(Failure::Outside, u + 1),
                        _ => exec::failing(Failure::BadAnswer, u + 1),
                    }
                }
            },
            other => other,
        }
    }
}

/// The rows of a recursive query after `n` rounds, going on from the `working` rows.
pub open spec fn rounds_from<O: ValueOrder>(
    o: &O,
    op: Operator,
    term: nat,
    cte: RecursiveCte,
    cx: ContextView,
    tape: Tape,
    used: nat,
    known: Rows,
    working: Rows,
    n: nat,
) -> FlowView
    decreases op, 1nat, recursive::MAX_RECURSIVE_ITERATIONS - n,
{
    if term >= op.children@.len() {
        exec::failing(Failure::BadPlan, used)
    } else if working.len() == 0 {
        FlowView::Rows(known, None, used)
    } else if n >= recursive::MAX_RECURSIVE_ITERATIONS {
        exec::failing(Failure::RecursionLimit, used)
    } else {
        match flow_of(
            o,
            op.children@[term as int],
            with_binding(cx, cte.table, working),
            tape,
            used,
            false,
        ) {
            FlowView::Rows(produced, None, u) => {
                let added = recursive::added_rows(o, cte.union_all, known, produced);
                if added.len() == 0 {
                    FlowView::Rows(known, None, u)
                } else if recursive::over(cx.budget, known + added) {
                    exec::failing(
                        Failure::OutOfMemory {
                            budget: cx.budget,
                            used: memory::clamp(
                                memory::rows_size(known + added, (known + added).len()),
                            ),
                            stage: Stage::Recursive,
                        },
                        u,
                    )
                } else {
                    rounds_from(o, op, term, cte, cx, tape, u, known + added, added, n + 1)
                }
            },
            other => other,
        }
    }
}

/// The recursive queries from `k` on, and then the body with all of them bound.
pub open spec fn recursive_from<O: ValueOrder>(
    o: &O,
    op: Operator,
    ctes: Seq<RecursiveCte>,
    cx: ContextView,
    tape: Tape,
    used: nat,
    k: nat,
    done: Seq<BindingView>,
) -> FlowView
    decreases op, 2nat, ctes.len() - k,
{
    if op.children@.len() != 2 * ctes.len() + 1 {
        exec::failing(Failure::BadPlan, used)
    } else if k >= ctes.len() {
        flow_of(o, op.children@[2 * ctes.len() as int], with_bindings(cx, done), tape, used, false)
    } else {
        match flow_of(o, op.children@[2 * k as int], cx, tape, used, false) {
            FlowView::Rows(base, None, u) => {
                let start = if ctes[k as int].union_all {
                    base
                } else {
                    setops::distinct(o, base)
                };
                match rounds_from(o, op, 2 * k + 1, ctes[k as int], cx, tape, u, start, start, 0) {
                    FlowView::Rows(rows, None, v) => recursive_from(
                        o,
                        op,
                        ctes,
                        cx,
                        tape,
                        v,
                        k + 1,
                        done.push(BindingView { table: ctes[k as int].table, rows }),
                    ),
                    other => other,
                }
            },
            other => other,
        }
    }
}

/// The queries that run once from `k` on, each bound before the next, and then the body.
pub open spec fn modifying_from<O: ValueOrder>(
    o: &O,
    op: Operator,
    ctes: Seq<OnceCte>,
    cx: ContextView,
    tape: Tape,
    used: nat,
    k: nat,
) -> FlowView
    decreases op, 2nat, ctes.len() - k,
{
    if op.children@.len() != ctes.len() + 1 {
        exec::failing(Failure::BadPlan, used)
    } else if k >= ctes.len() {
        flow_of(o, op.children@[ctes.len() as int], cx, tape, used, false)
    } else {
        let once = if ctes[k as int].reads {
            flow_of(o, op.children@[k as int], cx, tape, used, false)
        } else {
            exec::rows_step(cx, op.children@[k as int].id, AskView::Modify, tape, used, false)
        };
        match once {
            FlowView::Rows(rows, None, u) => modifying_from(
                o,
                op,
                ctes,
                with_binding(cx, ctes[k as int].table, rows),
                tape,
                u,
                k + 1,
            ),
            other => other,
        }
    }
}

fn count_children(op: &Operator) -> (r: bool)
    ensures
        r == has_children(*op),
{
    let n: usize = op.children.len();
    match &op.node {
        OpNode::Scan { .. } | OpNode::Source | OpNode::VectorKnn { .. } | OpNode::OneRow => n == 0,
        OpNode::SetOperation { .. } => true,
        OpNode::NestedLoopJoin | OpNode::HashJoin { .. } | OpNode::LateralJoin { .. } => n == 2,
        OpNode::WithRecursive { ctes } => n % 2 == 1 && n / 2 == ctes.len(),
        OpNode::WithModifying { ctes } => n > 0 && n - 1 == ctes.len(),
        _ => n == 1,
    }
}

fn is_streamed(node: &OpNode, spill: Option<usize>) -> (r: bool)
    ensures
        r == streams(*node, spill),
{
    match node {
        OpNode::Scan { .. }
        | OpNode::Filter
        | OpNode::Project { .. }
        | OpNode::Limit { .. }
        | OpNode::ScalarAggregate { .. }
        | OpNode::HashJoin { .. } => true,
        OpNode::GroupAggregate { .. } => spill.is_none(),
        OpNode::ProjectSet { series: Some(s), .. } => s.step != 0,
        _ => false,
    }
}

/// The rows of an operator, executed or, with `lazy`, read as a stream.
fn run_op<O: ValueOrder>(
    o: &O,
    op: &Operator,
    cx: &Context,
    tape: &Vec<Answer>,
    used: usize,
    lazy: bool,
) -> (r: Flow)
    ensures
        r@ == flow_of(o, *op, cx@, tape.deep_view(), used as nat, lazy),
    decreases *op, 4nat, 0nat,
{
    if !count_children(op) {
        return exec::fail(Failure::BadPlan, used);
    }
    if lazy && is_streamed(&op.node, cx.spill) {
        stream_op_inner(o, op, cx, tape, used)
    } else {
        let flow = execute_op_inner(o, op, cx, tape, used);
        exec::enforce(cx, flow)
    }
}

fn run_child<O: ValueOrder>(
    o: &O,
    op: &Operator,
    i: usize,
    cx: &Context,
    tape: &Vec<Answer>,
    used: usize,
    lazy: bool,
) -> (r: Flow)
    requires
        i < op.children@.len(),
    ensures
        r@ == flow_of(o, op.children@[i as int], cx@, tape.deep_view(), used as nat, lazy),
    decreases *op, 0nat, 0nat,
{
    assert(decreases_to!(*op => op.children));
    assert(decreases_to!(op.children => op.children[i as int]));
    run_op(o, &op.children[i], cx, tape, used, lazy)
}

/// The rows of an operator, executed.
#[verifier::rlimit(60)]
#[verifier::spinoff_prover]
fn execute_op_inner<O: ValueOrder>(o: &O, op: &Operator, cx: &Context, tape: &Vec<Answer>, used: usize) -> (r:
    Flow)
    requires
        has_children(*op),
    ensures
        r@ == executed(o, *op, cx@, tape.deep_view(), used as nat),
    decreases *op, 3nat, 0nat,
{
    match &op.node {
        OpNode::Scan { table, schema, keep } => tables::scan_flow(
            cx,
            op.id,
            *table,
            schema,
            keep,
            tape,
            used,
            false,
        ),
        OpNode::Source => exec::take_rows(cx, op.id, Ask::Source, tape, used, false),
        OpNode::VectorKnn { column, k, filtered } => nearest::nearest_flow(
            cx,
            op.id,
            *column,
            *k,
            *filtered,
            tape,
            used,
        ),
        OpNode::OneRow => {
            let mut rows: Vec<Row> = Vec::new();
            let empty: Row = Vec::new();
            assert(empty.deep_view() =~= Seq::<ValueView>::empty());
            rows.push(empty);
            assert(rows.deep_view() =~= seq![Seq::<ValueView>::empty()]);
            Flow::Rows { rows, failed: None, used }
        },
        OpNode::SetOperation { tree, keys, limit, width } => {
            if !tree_fits(tree, op.children.len()) {
                return exec::fail(Failure::BadPlan, used);
            }
            match collect_inputs(o, op, cx, tape, used) {
                Ok((inputs, u)) => set_flow(
                    o,
                    cx,
                    op.id,
                    tree,
                    keys,
                    *limit,
                    *width,
                    &inputs,
                    u,
                    tape,
                ),
                Err(flow) => flow,
            }
        },
        OpNode::LockRows { table, schema, predicate, skip_locked, nowait } => {
            let (ts, end, u) = match tables::find_targets(
                cx,
                op.id,
                *table,
                schema,
                *predicate,
                tape,
                used,
            ) {
                Ok(found) => found,
                Err(flow) => {
                    return flow;
                },
            };
            match take_locks(cx, op.id, *table, *skip_locked, *nowait, &ts, tape, u) {
                Ok((hidden, v)) => {
                    if let Some(f) = end {
                        return exec::fail(f, v);
                    }
                    let inner = context_with_hidden(cx, hidden);
                    run_child(o, op, 0, &inner, tape, v, false)
                },
                Err(flow) => flow,
            }
        },
        OpNode::Filter => {
            let child = run_child(o, op, 0, cx, tape, used, false);
            exec::filter_flow(cx, op.id, child, tape, false)
        },
        OpNode::Sort { keys, has_subquery, ties, top_n } => {
            if let Some(m) = top_n {
                if !*has_subquery {
                    let child = run_child(o, op, 0, cx, tape, used, true);
                    return exec::top_n_flow(o, cx, op.id, child, keys, *m, tape);
                }
            }
            if ties.is_some() && *has_subquery {
                return exec::fail(Failure::TiesWithSubquery, used);
            }
            let spill: Option<usize> = if ties.is_none() && !*has_subquery {
                cx.spill
            } else {
                None
            };
            let child = run_child(o, op, 0, cx, tape, used, spill.is_some());
            exec::sort_flow(o, cx, op.id, child, keys, *ties, spill, tape)
        },
        OpNode::Project { sequence_calls } => {
            let child = run_child(o, op, 0, cx, tape, used, false);
            let single: bool = match &child {
                Flow::Rows { rows, .. } => rows.len() == 1,
                _ => false,
            };
            exec::project_flow(cx, op.id, *sequence_calls && single, child, tape, false)
        },
        OpNode::ProjectSet { func, pos, ordinality, .. } => {
            let child = run_child(o, op, 0, cx, tape, used, false);
            sets::expand_flow(cx, op.id, *func, *pos, *ordinality, child, tape)
        },
        OpNode::Limit { count, offset } => {
            let child = run_child(o, op, 0, cx, tape, used, true);
            exec::limit_flow(*count, *offset, child, false)
        },
        OpNode::Distinct { width } => {
            let child = run_child(o, op, 0, cx, tape, used, cx.spill.is_some());
            exec::distinct_flow(o, *width, child, cx.spill)
        },
        OpNode::DistinctOn => {
            let child = run_child(o, op, 0, cx, tape, used, false);
            exec::distinct_on_flow(o, cx, op.id, child, tape)
        },
        OpNode::ScalarAggregate { .. } => scalar_flow(o, op, cx, tape, used),
        OpNode::GroupAggregate { .. } => group_flow(o, op, cx, tape, used),
        OpNode::GroupingSetsAggregate => {
            let child = run_child(o, op, 0, cx, tape, used, true);
            exec::fold_flow(cx, op.id, child, false, tape)
        },
        OpNode::Window { windows, top_n } => {
            let child = match top_n {
                Some(m) => {
                    let child = run_child(o, op, 0, cx, tape, used, true);
                    let keys = windows::leading_order(windows);
                    exec::top_n_flow(o, cx, op.id, child, &keys, *m, tape)
                },
                None => run_child(o, op, 0, cx, tape, used, false),
            };
            windows::windows_flow(o, cx, op.id, windows, child, tape)
        },
        OpNode::NestedLoopJoin => join_flow(o, op, cx, tape, used, false),
        OpNode::HashJoin { .. } => hash_join_flow(o, op, cx, tape, used),
        OpNode::LateralJoin { kind, right_width } => match run_child(
            o,
            op,
            0,
            cx,
            tape,
            used,
            false,
        ) {
            Flow::Rows { rows: left, failed: None, used: u } => lateral_flow(
                o,
                op,
                *kind,
                *right_width,
                cx,
                tape,
                u,
                &left,
            ),
            other => other,
        },
        OpNode::WithRecursive { ctes } => recursive_flow(o, op, ctes, cx, tape, used),
        OpNode::WithModifying { ctes } => modifying_flow(o, op, ctes, cx, tape, used),
    }
}

/// The rows of an operator, read as a stream.
fn stream_op_inner<O: ValueOrder>(o: &O, op: &Operator, cx: &Context, tape: &Vec<Answer>, used: usize) -> (r:
    Flow)
    requires
        has_children(*op),
        streams(op.node, cx@.spill),
    ensures
        r@ == streamed(o, *op, cx@, tape.deep_view(), used as nat),
    decreases *op, 3nat, 0nat,
{
    match &op.node {
        OpNode::Scan { table, schema, keep } => tables::scan_flow(
            cx,
            op.id,
            *table,
            schema,
            keep,
            tape,
            used,
            true,
        ),
        OpNode::Filter => {
            let child = run_child(o, op, 0, cx, tape, used, true);
            exec::filter_flow(cx, op.id, child, tape, true)
        },
        OpNode::Project { sequence_calls } => {
            let once: bool = match &op.children[0].node {
                OpNode::OneRow => *sequence_calls,
                _ => false,
            };
            let child = run_child(o, op, 0, cx, tape, used, true);
            exec::project_flow(cx, op.id, once, child, tape, true)
        },
        OpNode::Limit { count, offset } => {
            let child = run_child(o, op, 0, cx, tape, used, true);
            exec::limit_flow(*count, *offset, child, true)
        },
        OpNode::ScalarAggregate { .. } => scalar_flow(o, op, cx, tape, used),
        OpNode::GroupAggregate { .. } => {
            let child = run_child(o, op, 0, cx, tape, used, true);
            exec::fold_flow(cx, op.id, child, false, tape)
        },
        OpNode::ProjectSet { series: Some(s), .. } => exec::stream_series(*s, used),
        OpNode::HashJoin { kind, left_width, right_width, merges, one_table } => {
            let flips: bool = match kind {
                JoinKind::Inner => !*merges && *one_table,
                _ => false,
            };
            if !flips {
                return build_right_flow(
                    o,
                    op,
                    cx,
                    tape,
                    used,
                    *kind,
                    *left_width,
                    *right_width,
                    *merges,
                );
            }
            if used >= tape.len() {
                return exec::needs(cx, op.id, Ask::LeftBuild);
            }
            assert(tape.deep_view()[used as int] == tape@[used as int]@);
            match &tape[used] {
                Answer::Flag(true) => match run_child(o, op, 0, cx, tape, used + 1, false) {
                    Flow::Rows { rows: left, failed: None, used: u } => match run_child(
                        o,
                        op,
                        1,
                        cx,
                        tape,
                        u,
                        true,
                    ) {
                        Flow::Rows { rows: right, failed, used: v } => match_left_flow(
                            cx,
                            op.id,
                            &left,
                            &right,
                            failed,
                            v,
                            tape,
                            true,
                        ),
                        other => other,
                    },
                    other => other,
                },
                Answer::Flag(false) => build_right_flow(
                    o,
                    op,
                    cx,
                    tape,
                    used + 1,
                    *kind,
                    *left_width,
                    *right_width,
                    *merges,
                ),
                Answer::Failed => exec::fail(Failure::Outside, used + 1),
                _ => exec::fail(Failure::BadAnswer, used + 1),
            }
        },
        _ => exec::fail(Failure::BadPlan, used),
    }
}

fn scalar_flow<O: ValueOrder>(o: &O, op: &Operator, cx: &Context, tape: &Vec<Answer>, used: usize) -> (r: Flow)
    requires
        op.children@.len() == 1,
    ensures
        r@ == scalar_from(o, *op, cx@, tape.deep_view(), used as nat),
    decreases *op, 2nat, 0nat,
{
    if let OpNode::ScalarAggregate { count_star: true } = &op.node {
        if let OpNode::Scan { table, .. } = &op.children[0].node {
            return tables::count_flow(cx, op.children[0].id, *table, tape, used);
        }
    }
    let child = run_child(o, op, 0, cx, tape, used, true);
    exec::fold_flow(cx, op.id, child, false, tape)
}

fn group_flow<O: ValueOrder>(o: &O, op: &Operator, cx: &Context, tape: &Vec<Answer>, used: usize) -> (r: Flow)
    requires
        has_children(*op),
        op.node is GroupAggregate,
    ensures
        r@ == executed(o, *op, cx@, tape.deep_view(), used as nat),
    decreases *op, 2nat, 0nat,
{
    match &op.node {
        OpNode::GroupAggregate { input, keys } => match cx.spill {
            Some(threshold) => match tables::sorts_groups(
                cx,
                op.id,
                input,
                keys,
                threshold,
                tape,
                used,
            ) {
                Ok((sorted, u)) => {
                    let child = run_child(o, op, 0, cx, tape, u, true);
                    exec::fold_flow(cx, op.id, child, sorted, tape)
                },
                Err(flow) => flow,
            },
            None => {
                let child = run_child(o, op, 0, cx, tape, used, true);
                exec::fold_flow(cx, op.id, child, false, tape)
            },
        },
        _ => exec::fail(Failure::BadPlan, used),
    }
}

fn join_flow<O: ValueOrder>(o: &O, op: &Operator, cx: &Context, tape: &Vec<Answer>, used: usize, lazy: bool) -> (r:
    Flow)
    requires
        op.children@.len() == 2,
    ensures
        r@ == join_from(o, *op, cx@, tape.deep_view(), used as nat, lazy),
    decreases *op, 2nat, 0nat,
{
    match run_child(o, op, 0, cx, tape, used, lazy) {
        Flow::Rows { rows: left, failed: None, used: u } => match run_child(
            o,
            op,
            1,
            cx,
            tape,
            u,
            lazy,
        ) {
            Flow::Rows { rows: right, failed: None, used: v } => exec::take_rows(
                cx,
                op.id,
                Ask::Join { left, right },
                tape,
                v,
                false,
            ),
            Flow::Rows { rows: _, failed: Some(f), used: v } => exec::fail(f, v),
            other => other,
        },
        Flow::Rows { rows: _, failed: Some(f), used: u } => exec::fail(f, u),
        other => other,
    }
}

fn hash_join_flow<O: ValueOrder>(o: &O, op: &Operator, cx: &Context, tape: &Vec<Answer>, used: usize) -> (r: Flow)
    requires
        has_children(*op),
        op.node is HashJoin,
    ensures
        r@ == executed(o, *op, cx@, tape.deep_view(), used as nat),
    decreases *op, 2nat, 1nat,
{
    match &op.node {
        OpNode::HashJoin { kind, left_width, right_width, merges, .. } => {
            if cx.spill.is_some() {
                let flow = join_flow(o, op, cx, tape, used, true);
                return merge_flow(cx, op.id, *merges, flow, tape, false);
            }
            match run_child(o, op, 0, cx, tape, used, false) {
                Flow::Rows { rows: left, failed: None, used: u } => match run_child(
                    o,
                    op,
                    1,
                    cx,
                    tape,
                    u,
                    false,
                ) {
                    Flow::Rows { rows: right, failed: None, used: v } => {
                        let flow = if operators::choose_build_side(
                            *kind,
                            *merges,
                            left.len(),
                            right.len(),
                        ) {
                            match_left_flow(cx, op.id, &left, &right, None, v, tape, false)
                        } else {
                            match_flow(
                                cx,
                                op.id,
                                &left,
                                None,
                                &right,
                                v,
                                *kind,
                                *left_width,
                                *right_width,
                                tape,
                                false,
                            )
                        };
                        merge_flow(cx, op.id, *merges, flow, tape, false)
                    },
                    other => other,
                },
                other => other,
            }
        },
        _ => exec::fail(Failure::BadPlan, used),
    }
}

fn build_right_flow<O: ValueOrder>(
    o: &O,
    op: &Operator,
    cx: &Context,
    tape: &Vec<Answer>,
    used: usize,
    kind: JoinKind,
    left_width: usize,
    right_width: usize,
    merges: bool,
) -> (r: Flow)
    requires
        op.children@.len() == 2,
    ensures
        r@ == build_right_from(
            o,
            *op,
            cx@,
            tape.deep_view(),
            used as nat,
            kind,
            left_width,
            right_width,
            merges,
        ),
    decreases *op, 2nat, 2nat,
{
    if cx.spill.is_none() {
        return match run_child(o, op, 1, cx, tape, used, false) {
            Flow::Rows { rows: right, failed: None, used: u } => probe_flow(
                o,
                op,
                cx,
                tape,
                u,
                &right,
                kind,
                left_width,
                right_width,
                merges,
            ),
            other => other,
        };
    }
    if used >= tape.len() {
        return exec::needs(cx, op.id, Ask::GraceBuild);
    }
    assert(tape.deep_view()[used as int] == tape@[used as int]@);
    match &tape[used] {
        Answer::Flag(true) => match run_child(o, op, 1, cx, tape, used + 1, true) {
            Flow::Rows { rows: right, failed: None, used: u } => probe_flow(
                o,
                op,
                cx,
                tape,
                u,
                &right,
                kind,
                left_width,
                right_width,
                merges,
            ),
            Flow::Rows { rows: _, failed: Some(f), used: u } => exec::fail(f, u),
            other => other,
        },
        Answer::Flag(false) => {
            let flow = join_flow(o, op, cx, tape, used + 1, true);
            merge_flow(cx, op.id, merges, flow, tape, false)
        },
        Answer::Failed => exec::fail(Failure::Outside, used + 1),
        _ => exec::fail(Failure::BadAnswer, used + 1),
    }
}

fn probe_flow<O: ValueOrder>(
    o: &O,
    op: &Operator,
    cx: &Context,
    tape: &Vec<Answer>,
    used: usize,
    right: &Vec<Row>,
    kind: JoinKind,
    left_width: usize,
    right_width: usize,
    merges: bool,
) -> (r: Flow)
    requires
        op.children@.len() == 2,
    ensures
        r@ == probe_from(
            o,
            *op,
            cx@,
            tape.deep_view(),
            used as nat,
            right.deep_view(),
            kind,
            left_width,
            right_width,
            merges,
        ),
    decreases *op, 2nat, 1nat,
{
    match run_child(o, op, 0, cx, tape, used, true) {
        Flow::Rows { rows: left, failed, used: u } => {
            let flow = match_flow(
                cx,
                op.id,
                &left,
                failed,
                right,
                u,
                kind,
                left_width,
                right_width,
                tape,
                true,
            );
            merge_flow(cx, op.id, merges, flow, tape, true)
        },
        other => other,
    }
}

fn collect_inputs<O: ValueOrder>(o: &O, op: &Operator, cx: &Context, tape: &Vec<Answer>, used: usize) -> (r: Result<
    (Vec<Vec<Row>>, usize),
    Flow,
>)
    ensures
        match inputs_from(o, *op, cx@, tape.deep_view(), used as nat, 0, Seq::empty()) {
            InputsStep::All(inputs, u) => r matches Ok(all) && all.0.deep_view() == inputs && all.1 == u
                && inputs.len() == op.children@.len(),
            InputsStep::Stop(f) => r matches Err(flow) && flow@ == f,
        },
    decreases *op, 2nat, 0nat,
{
    let mut inputs: Vec<Vec<Row>> = Vec::new();
    let mut at: usize = used;
    let mut k: usize = 0;
    assert(inputs.deep_view() =~= Seq::empty());
    while k < op.children.len()
        invariant
            k <= op.children@.len(),
            inputs@.len() == k,
            inputs_from(o, *op, cx@, tape.deep_view(), used as nat, 0, Seq::empty()) == inputs_from(
                o,
                *op,
                cx@,
                tape.deep_view(),
                at as nat,
                k as nat,
                inputs.deep_view(),
            ),
        decreases op.children@.len() - k,
    {
        let ghost before = inputs.deep_view();
        match run_child(o, op, k, cx, tape, at, cx.spill.is_some()) {
            Flow::Rows { rows, failed: None, used: u } => {
                inputs.push(rows);
                assert(inputs.deep_view() =~= before.push(rows.deep_view()));
                at = u;
            },
            Flow::Rows { rows: _, failed: Some(f), used: u } => {
                return Err(exec::fail(f, u));
            },
            other => {
                return Err(other);
            },
        }
        k += 1;
    }
    Ok((inputs, at))
}

fn lateral_flow<O: ValueOrder>(
    o: &O,
    op: &Operator,
    kind: JoinKind,
    right_width: usize,
    cx: &Context,
    tape: &Vec<Answer>,
    used: usize,
    left: &Vec<Row>,
) -> (r: Flow)
    requires
        op.children@.len() == 2,
    ensures
        r@ == lateral_from(
            o,
            *op,
            kind,
            right_width,
            cx@,
            tape.deep_view(),
            used as nat,
            left.deep_view(),
            0,
            Seq::empty(),
        ),
    decreases *op, 2nat, 0nat,
{
    let ghost lv = left.deep_view();
    let mut out: Vec<Row> = Vec::new();
    let mut at: usize = used;
    let mut i: usize = 0;
    assert(out.deep_view() =~= Seq::empty());
    while i < left.len()
        invariant
            op.children@.len() == 2,
            lv == left.deep_view(),
            i <= left@.len(),
            lateral_from(
                o,
                *op,
                kind,
                right_width,
                cx@,
                tape.deep_view(),
                used as nat,
                lv,
                0,
                Seq::empty(),
            ) == lateral_from(
                o,
                *op,
                kind,
                right_width,
                cx@,
                tape.deep_view(),
                at as nat,
                lv,
                i as nat,
                out.deep_view(),
            ),
        decreases left@.len() - i,
    {
        assert(lv[i as int] == left@[i as int].deep_view());
        let inner = context_in_outer(cx, &left[i]);
        match run_child(o, op, 1, &inner, tape, at, false) {
            Flow::Rows { rows: right, failed: None, used: u } => {
                let pairs = operators::pair_rows(&left[i], &right);
                if u >= tape.len() {
                    return exec::needs(cx, op.id, Ask::Verdicts(pairs));
                }
                assert(tape.deep_view()[u as int] == tape@[u as int]@);
                match &tape[u] {
                    Answer::Values(vs) => {
                        if vs.len() > pairs.len() {
                            return exec::fail(Failure::BadAnswer, u + 1);
                        }
                        if vs.len() < pairs.len() {
                            return exec::fail(Failure::Outside, u + 1);
                        }
                        let ghost before = out.deep_view();
                        let mut more = operators::lateral_step(
                            &pairs,
                            vs,
                            &left[i],
                            kind,
                            right_width,
                        );
                        let ghost added = more.deep_view();
                        out.append(&mut more);
                        assert(out.deep_view() =~= before + added);
                        at = u + 1;
                    },
                    Answer::Failed => {
                        return exec::fail(Failure::Outside, u + 1);
                    },
                    _ => {
                        return exec::fail(Failure::BadAnswer, u + 1);
                    },
                }
            },
            other => {
                return other;
            },
        }
        i += 1;
    }
    Flow::Rows { rows: out, failed: None, used: at }
}

fn rounds_flow<O: ValueOrder>(
    o: &O,
    op: &Operator,
    term: usize,
    cte: RecursiveCte,
    cx: &Context,
    tape: &Vec<Answer>,
    used: usize,
    base: Vec<Row>,
) -> (r: Flow)
    requires
        term < op.children@.len(),
    ensures
        ({
            let start = if cte.union_all {
                base.deep_view()
            } else {
                setops::distinct(o, base.deep_view())
            };
            r@ == rounds_from(
                o,
                *op,
                term as nat,
                cte,
                cx@,
                tape.deep_view(),
                used as nat,
                start,
                start,
                0,
            )
        }),
    decreases *op, 1nat, 0nat,
{
    let ghost start = if cte.union_all {
        base.deep_view()
    } else {
        setops::distinct(o, base.deep_view())
    };
    let mut state = recursive::start_recursion(o, cte.union_all, base);
    let mut at: usize = used;
    let mut n: usize = 0;
    loop
        invariant
            term < op.children@.len(),
            start == if cte.union_all {
                base.deep_view()
            } else {
                setops::distinct(o, base.deep_view())
            },
            n <= recursive::MAX_RECURSIVE_ITERATIONS,
            state.union_all == cte.union_all,
            rounds_from(
                o,
                *op,
                term as nat,
                cte,
                cx@,
                tape.deep_view(),
                used as nat,
                start,
                start,
                0,
            ) == rounds_from(
                o,
                *op,
                term as nat,
                cte,
                cx@,
                tape.deep_view(),
                at as nat,
                state.accumulated.deep_view(),
                state.working.deep_view(),
                n as nat,
            ),
        decreases recursive::MAX_RECURSIVE_ITERATIONS - n,
    {
        if state.working.len() == 0 {
            return Flow::Rows { rows: state.accumulated, failed: None, used: at };
        }
        if recursive::may_go_on(n).is_err() {
            return exec::fail(Failure::RecursionLimit, at);
        }
        let inner = context_with_binding(cx, cte.table, setops::clone_rows(&state.working));
        match run_child(o, op, term, &inner, tape, at, false) {
            Flow::Rows { rows: produced, failed: None, used: u } => {
                match recursive::take_round(o, state, produced, cx.budget) {
                    Ok(Round::Done(rows)) => {
                        return Flow::Rows { rows, failed: None, used: u };
                    },
                    Ok(Round::Again(next)) => {
                        state = next;
                        at = u;
                    },
                    Err(e) => {
                        let bytes: usize = match e {
                            Error::OutOfMemory { used: b, .. } => b,
                            _ => 0,
                        };
                        return exec::fail(
                            Failure::OutOfMemory {
                                budget: cx.budget,
                                used: bytes,
                                stage: Stage::Recursive,
                            },
                            u,
                        );
                    },
                }
            },
            other => {
                return other;
            },
        }
        n += 1;
    }
}

fn recursive_flow<O: ValueOrder>(
    o: &O,
    op: &Operator,
    ctes: &Vec<RecursiveCte>,
    cx: &Context,
    tape: &Vec<Answer>,
    used: usize,
) -> (r: Flow)
    requires
        op.children@.len() == 2 * ctes@.len() + 1,
    ensures
        r@ == recursive_from(o, *op, ctes@, cx@, tape.deep_view(), used as nat, 0, Seq::empty()),
    decreases *op, 2nat, 0nat,
{
    let total: usize = op.children.len();
    let mut inner = copy_context(cx);
    let ghost mut done: Seq<BindingView> = Seq::empty();
    let mut at: usize = used;
    let mut k: usize = 0;
    assert(cx@.bound + done =~= cx@.bound);
    while k < ctes.len()
        invariant
            total == op.children@.len(),
            op.children@.len() == 2 * ctes@.len() + 1,
            k <= ctes@.len(),
            inner@ == with_bindings(cx@, done),
            recursive_from(o, *op, ctes@, cx@, tape.deep_view(), used as nat, 0, Seq::empty())
                == recursive_from(
                o,
                *op,
                ctes@,
                cx@,
                tape.deep_view(),
                at as nat,
                k as nat,
                done,
            ),
        decreases ctes@.len() - k,
    {
        match run_child(o, op, 2 * k, cx, tape, at, false) {
            Flow::Rows { rows: base, failed: None, used: u } => match rounds_flow(
                o,
                op,
                2 * k + 1,
                ctes[k],
                cx,
                tape,
                u,
                base,
            ) {
                Flow::Rows { rows, failed: None, used: v } => {
                    let ghost b = BindingView { table: ctes@[k as int].table, rows: rows.deep_view() };
                    inner.bound.bind(ctes[k].table, rows);
                    proof {
                        assert(cx@.bound + done.push(b) =~= (cx@.bound + done).push(b));
                        done = done.push(b);
                    }
                    at = v;
                },
                other => {
                    return other;
                },
            },
            other => {
                return other;
            },
        }
        k += 1;
    }
    run_child(o, op, 2 * ctes.len(), &inner, tape, at, false)
}

fn modifying_flow<O: ValueOrder>(
    o: &O,
    op: &Operator,
    ctes: &Vec<OnceCte>,
    cx: &Context,
    tape: &Vec<Answer>,
    used: usize,
) -> (r: Flow)
    requires
        op.children@.len() == ctes@.len() + 1,
    ensures
        r@ == modifying_from(o, *op, ctes@, cx@, tape.deep_view(), used as nat, 0),
    decreases *op, 2nat, 0nat,
{
    let mut inner = copy_context(cx);
    let mut at: usize = used;
    let mut k: usize = 0;
    while k < ctes.len()
        invariant
            op.children@.len() == ctes@.len() + 1,
            k <= ctes@.len(),
            modifying_from(o, *op, ctes@, cx@, tape.deep_view(), used as nat, 0) == modifying_from(
                o,
                *op,
                ctes@,
                inner@,
                tape.deep_view(),
                at as nat,
                k as nat,
            ),
        decreases ctes@.len() - k,
    {
        let once = if ctes[k].reads {
            run_child(o, op, k, &inner, tape, at, false)
        } else {
            exec::take_rows(&inner, op.children[k].id, Ask::Modify, tape, at, false)
        };
        match once {
            Flow::Rows { rows, failed: None, used: u } => {
                inner.bound.bind(ctes[k].table, rows);
                at = u;
            },
            other => {
                return other;
            },
        }
        k += 1;
    }
    run_child(o, op, ctes.len(), &inner, tape, at, false)
}

/// Execute a plan with the answers so far: its rows, or the next request.
pub fn execute_op<O: ValueOrder>(o: &O, op: &Operator, cx: &Context, answers: &Vec<Answer>) -> (r: Flow)
    ensures
        r@ == flow_of(o, *op, cx@, answers.deep_view(), 0, false),
{
    run_op(o, op, cx, answers, 0, false)
}

/// Read a plan as a stream with the answers so far: its rows and the failure that ends them if one
/// does, or the next request.
pub fn stream_op<O: ValueOrder>(o: &O, op: &Operator, cx: &Context, answers: &Vec<Answer>) -> (r: Flow)
    ensures
        r@ == flow_of(o, *op, cx@, answers.deep_view(), 0, true),
{
    run_op(o, op, cx, answers, 0, true)
}

// ---------------------------------------------------------------- laws

/// Filtering keeps rows of the input and nothing else.
pub proof fn law_filter_keeps_rows_of_its_child(rows: Rows, verdicts: Seq<ValueView>, n: nat)
    requires
        n <= rows.len(),
        n <= verdicts.len(),
    ensures
        operators::kept(rows, verdicts, n).len() <= n,
        forall|k: int|
            0 <= k < operators::kept(rows, verdicts, n).len() ==> rows.contains(
                #[trigger] operators::kept(rows, verdicts, n)[k],
            ),
    decreases n,
{
    if n > 0 {
        law_filter_keeps_rows_of_its_child(rows, verdicts, (n - 1) as nat);
        let head = operators::kept(rows, verdicts, (n - 1) as nat);
        let all = operators::kept(rows, verdicts, n);
        assert forall|k: int| 0 <= k < all.len() implies rows.contains(#[trigger] all[k]) by {
            if k < head.len() {
                assert(all[k] == head[k]);
            } else {
                assert(all[k] == rows[n - 1]);
            }
        }
    }
}

} // verus!
