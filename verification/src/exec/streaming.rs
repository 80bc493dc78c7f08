//! Streams and executions: on which plans, and with which answers, a stream gives exactly the rows of an
//! execution.
use vstd::prelude::*;
use crate::exec;
use crate::exec::answers;
use crate::exec::answers::Places;
use crate::exec::plan;
use crate::exec::sets;
use crate::exec::{AnswerView, AskView, ContextView, FlowView, IntSeries, OpNode, Operator, SetInputView, Tape};
use crate::operators;
use crate::operators::JoinKind;
use crate::order::ValueOrder;
use crate::recursive;
use crate::series;
use crate::series::{SetError, SetFunc, SetOutcome};
use crate::setops::Rows;
use crate::value::ValueView;

verus! {

/// The stream that a window skips the first `offset` rows of does not fail before it has given them.
pub open spec fn skips_cleanly(child: FlowView, offset: u64) -> bool {
    child matches FlowView::Rows(rows, failed, _) ==> failed is None || rows.len() >= offset
}

/// Reading the operator as a stream asks for the same things in the same order as executing it, and
/// reads the same rows. That leaves out a hash join, whose sides are read in another order, and a
/// literal series, which is not asked for. It leaves out a window of no rows whose stream fails while
/// rows are skipped, since execution does not read it, and a scan that is narrowed of rows bound in
/// memory, which a stream gives at full width.
pub open spec fn aligned<O: ValueOrder>(o: &O, op: Operator, cx: ContextView, tape: Tape, used: nat) -> bool
    decreases op,
{
    match op.node {
        OpNode::HashJoin { .. } => false,
        OpNode::ProjectSet { series: Some(s), .. } => s.step == 0,
        OpNode::Scan { table, keep, .. } => keep@.len() == 0 || recursive::bound_rows(
            cx.bound,
            table,
            cx.bound.len(),
        ) is None,
        OpNode::Limit { count, offset } => count > 0 || op.children@.len() != 1 || skips_cleanly(
            plan::flow_of(o, op.children@[0], cx, tape, used, true),
            offset,
        ),
        OpNode::Filter | OpNode::Project { .. } => op.children@.len() == 1 && aligned(
            o,
            op.children@[0],
            cx,
            tape,
            used,
        ),
        _ => true,
    }
}

/// Where execution succeeds, a stream that asks for the same things gives exactly the rows that
/// execution gives, in the same order, from the same answers.
pub proof fn law_streaming_gives_the_executed_rows<O: ValueOrder>(
    o: &O,
    op: Operator,
    cx: ContextView,
    tape: Tape,
    used: nat,
)
    requires
        aligned(o, op, cx, tape, used),
        plan::flow_of(o, op, cx, tape, used, false) matches FlowView::Rows(_, None, _),
    ensures
        plan::flow_of(o, op, cx, tape, used, false) == plan::flow_of(o, op, cx, tape, used, true),
    decreases op,
{
    match op.node {
        OpNode::Filter | OpNode::Project { .. } => {
            let c = op.children@[0];
            let executed_child = plan::flow_of(o, c, cx, tape, used, false);
            assert(executed_child matches FlowView::Rows(_, None, _));
            law_streaming_gives_the_executed_rows(o, c, cx, tape, used);
        },
        _ => {},
    }
}

/// A window that keeps some row, or skips none, is aligned whatever it reads.
pub proof fn law_windows_without_offset_are_aligned<O: ValueOrder>(
    o: &O,
    op: Operator,
    cx: ContextView,
    tape: Tape,
    used: nat,
)
    requires
        op.node matches OpNode::Limit { count, offset } && (count > 0 || offset == 0),
    ensures
        aligned(o, op, cx, tape, used),
{
}

/// What a literal series takes of the one row that it is over.
pub open spec fn literal_input(s: IntSeries) -> SetInputView {
    SetInputView {
        scalars: seq![ValueView::Null],
        args: seq![ValueView::Int(s.start), ValueView::Int(s.stop), ValueView::Int(s.step)],
    }
}

/// A hash join that spills, executed as a whole with the answers `run` from `at` on, and probed with the
/// answers `read` from `from` on: its sides get the same answers, and the whole is the join by the
/// matches that are found.
pub open spec fn same_probe<O: ValueOrder>(
    o: &O,
    op: Operator,
    cx: ContextView,
    run: Tape,
    at: nat,
    read: Tape,
    from: nat,
) -> bool {
    op.node matches OpNode::HashJoin { kind, left_width, right_width, merges, .. } && (plan::flow_of(
        o,
        op.children@[0],
        cx,
        run,
        at,
        true,
    ) matches FlowView::Rows(left, None, u) && (plan::flow_of(
        o,
        op.children@[1],
        cx,
        run,
        u,
        true,
    ) matches FlowView::Rows(right, None, v) && {
        let w = (from + (v - u)) as nat;
        let x = (w + (u - at)) as nat;
        &&& answers::agree(Places { run, at: u, read, from }, v)
        &&& answers::agree(Places { run, at, read, from: w }, u)
        &&& x < read.len() && (read[x as int] matches AnswerView::Matches(ms) && ms.len() == left.len()
            && run[v as int] == AnswerView::Rows(
            operators::joined(left, right, ms, kind, left_width as nat, right_width as nat),
            false,
        ))
        &&& merges ==> x + 1 < read.len() && run[v as int + 1] == read[x as int + 1]
    }))
}

/// Executing the operator with the answers `run` from `at` on, and reading it as a stream with the
/// answers `read` from `from` on, every part of the plan gets the same answers. They come in another
/// order where a hash join, built on the same side both times or asked for as a whole, reads its sides.
/// A literal series is asked for its literals when it is executed. A join that is executed as a whole,
/// and probed when it is read, is the join by the matches that are found, in the order of the side that
/// is probed.
pub open spec fn same_answers<O: ValueOrder>(
    o: &O,
    op: Operator,
    cx: ContextView,
    run: Tape,
    at: nat,
    read: Tape,
    from: nat,
) -> bool
    decreases op,
{
    match op.node {
        OpNode::ProjectSet { func, pos, ordinality, series: Some(s) } if s.step != 0 => {
            &&& func is GenerateSeries && pos == 0 && !ordinality
            &&& op.children@.len() == 1 && op.children@[0].node is OneRow && plan::has_children(
                op.children@[0],
            )
            &&& at < run.len()
            &&& run[at as int] == AnswerView::SetInputs(seq![literal_input(s)])
        },
        OpNode::HashJoin { kind, merges, one_table, .. } => {
            let asks = kind is Inner && !merges && one_table;
            let start = if asks {
                from + 1
            } else {
                from
            };
            &&& op.children@.len() == 2
            &&& asks ==> from < read.len()
            &&& if asks && read[from as int] == AnswerView::Flag(true) && cx.spill is Some {
                plan::flow_of(o, op.children@[0], cx, run, at, true) matches FlowView::Rows(
                    left,
                    None,
                    u,
                ) && (plan::flow_of(o, op.children@[1], cx, run, u, true) matches FlowView::Rows(
                    right,
                    None,
                    v,
                ) && {
                    let first = plan::flow_of(o, op.children@[0], cx, read, from + 1, false);
                    let w = answers::end_of(first);
                    let q = Places { run, at: u, read, from: w };
                    let x = answers::moved(q, v);
                    &&& first matches FlowView::Rows(_, None, _)
                    &&& same_answers(o, op.children@[0], cx, read, from + 1, run, at)
                    &&& answers::agree(q, v)
                    &&& x < read.len() && (read[x as int] matches AnswerView::Matches(ms) && ms.len()
                        == right.len() && run[v as int] == AnswerView::Rows(
                        operators::probed_right(left, right, ms, ms.len()),
                        false,
                    ))
                })
            } else if asks && read[from as int] == AnswerView::Flag(true) {
                plan::flow_of(o, op.children@[0], cx, run, at, false) matches FlowView::Rows(
                    left,
                    None,
                    u,
                ) && (plan::flow_of(o, op.children@[1], cx, run, u, false) matches FlowView::Rows(
                    right,
                    None,
                    v,
                ) && {
                    let p = Places { run, at, read, from: from + 1 };
                    let w = answers::moved(p, u);
                    let x = answers::end_of(plan::flow_of(o, op.children@[1], cx, read, w, true));
                    &&& answers::agree(p, u)
                    &&& same_answers(o, op.children@[1], cx, run, u, read, w)
                    &&& operators::builds_left(kind, merges, left.len(), right.len())
                    &&& x < read.len() && run[v as int] == read[x as int]
                })
            } else if asks && read[from as int] != AnswerView::Flag(false) {
                false
            } else if cx.spill is Some {
                start < read.len() && match read[start as int] {
                    AnswerView::Flag(true) => same_probe(o, op, cx, run, at, read, start + 1),
                    AnswerView::Flag(false) => answers::agree(
                        Places { run, at, read, from: start + 1 },
                        answers::end_of(plan::executed(o, op, cx, run, at)),
                    ),
                    _ => false,
                }
            } else {
                plan::flow_of(o, op.children@[0], cx, run, at, false) matches FlowView::Rows(
                    left,
                    None,
                    u,
                ) && (plan::flow_of(o, op.children@[1], cx, run, u, false) matches FlowView::Rows(
                    right,
                    None,
                    v,
                ) && {
                    let w = (start + (v - u)) as nat;
                    let x = answers::end_of(plan::flow_of(o, op.children@[0], cx, read, w, true));
                    &&& answers::agree(Places { run, at: u, read, from: start }, v)
                    &&& same_answers(o, op.children@[0], cx, run, at, read, w)
                    &&& !operators::builds_left(kind, merges, left.len(), right.len())
                    &&& x < read.len() && run[v as int] == read[x as int]
                    &&& merges ==> x + 1 < read.len() && run[v as int + 1] == read[x as int + 1]
                })
            }
        },
        OpNode::Filter | OpNode::Project { .. } => {
            let u = answers::end_of(plan::flow_of(o, op.children@[0], cx, run, at, false));
            let v = answers::end_of(plan::flow_of(o, op.children@[0], cx, read, from, true));
            &&& op.children@.len() == 1
            &&& same_answers(o, op.children@[0], cx, run, at, read, from)
            &&& v < read.len() && run[u as int] == read[v as int]
        },
        _ => {
            &&& aligned(o, op, cx, run, at)
            &&& answers::agree(
                Places { run, at, read, from },
                answers::end_of(plan::flow_of(o, op, cx, run, at, false)),
            )
        },
    }
}

pub(crate) proof fn lemma_executed_join<O: ValueOrder>(
    o: &O,
    op: Operator,
    cx: ContextView,
    run: Tape,
    at: nat,
    left: Rows,
    u: nat,
    right: Rows,
    v: nat,
)
    requires
        op.node is HashJoin,
        op.children@.len() == 2,
        cx.spill is None,
        plan::flow_of(o, op.children@[0], cx, run, at, false) == FlowView::Rows(left, None, u),
        plan::flow_of(o, op.children@[1], cx, run, u, false) == FlowView::Rows(right, None, v),
        !operators::builds_left(
            op.node->HashJoin_kind,
            op.node->merges,
            left.len(),
            right.len(),
        ),
    ensures
        plan::executed(o, op, cx, run, at) == plan::merge_step(
            cx,
            op.id,
            op.node->merges,
            plan::match_step(
                cx,
                op.id,
                left,
                None,
                right,
                v,
                op.node->HashJoin_kind,
                op.node->left_width,
                op.node->HashJoin_right_width,
                run,
                false,
            ),
            run,
            false,
        ),
{
}

pub(crate) proof fn lemma_streamed_join<O: ValueOrder>(
    o: &O,
    op: Operator,
    cx: ContextView,
    read: Tape,
    from: nat,
    start: nat,
    right: Rows,
    w: nat,
    left: Rows,
    x: nat,
)
    requires
        op.node is HashJoin,
        op.children@.len() == 2,
        cx.spill is None,
        ({
            let asks = op.node->HashJoin_kind is Inner && !op.node->merges && op.node->one_table;
            &&& asks ==> from < read.len() && read[from as int] == AnswerView::Flag(false) && start
                == from + 1
            &&& !asks ==> start == from
        }),
        plan::flow_of(o, op.children@[1], cx, read, start, false) == FlowView::Rows(right, None, w),
        plan::flow_of(o, op.children@[0], cx, read, w, true) == FlowView::Rows(left, None, x),
    ensures
        plan::streamed(o, op, cx, read, from) == plan::merge_step(
            cx,
            op.id,
            op.node->merges,
            plan::match_step(
                cx,
                op.id,
                left,
                None,
                right,
                x,
                op.node->HashJoin_kind,
                op.node->left_width,
                op.node->HashJoin_right_width,
                read,
                true,
            ),
            read,
            true,
        ),
{
    let kind = op.node->HashJoin_kind;
    let left_width = op.node->left_width;
    let right_width = op.node->HashJoin_right_width;
    let merges = op.node->merges;
    let probe = plan::probe_from(
        o,
        op,
        cx,
        read,
        w,
        right,
        kind,
        left_width,
        right_width,
        merges,
    );
    assert(plan::build_right_from(o, op, cx, read, start, kind, left_width, right_width, merges) == probe);
    assert(plan::streamed(o, op, cx, read, from) == probe);
}

pub(crate) proof fn lemma_streamed_left<O: ValueOrder>(
    o: &O,
    op: Operator,
    cx: ContextView,
    read: Tape,
    from: nat,
    left: Rows,
    w: nat,
    right: Rows,
    x: nat,
)
    requires
        op.node matches OpNode::HashJoin { kind: JoinKind::Inner, merges: false, one_table: true, .. },
        op.children@.len() == 2,
        from < read.len(),
        read[from as int] == AnswerView::Flag(true),
        plan::flow_of(o, op.children@[0], cx, read, from + 1, false) == FlowView::Rows(left, None, w),
        plan::flow_of(o, op.children@[1], cx, read, w, true) == FlowView::Rows(right, None, x),
    ensures
        plan::streamed(o, op, cx, read, from) == plan::match_left_step(
            cx,
            op.id,
            left,
            right,
            None,
            x,
            read,
            true,
        ),
{
}

pub(crate) proof fn lemma_executed_whole<O: ValueOrder>(
    o: &O,
    op: Operator,
    cx: ContextView,
    run: Tape,
    at: nat,
    left: Rows,
    u: nat,
    right: Rows,
    v: nat,
)
    requires
        op.node is HashJoin,
        op.children@.len() == 2,
        cx.spill is Some,
        plan::flow_of(o, op.children@[0], cx, run, at, true) == FlowView::Rows(left, None, u),
        plan::flow_of(o, op.children@[1], cx, run, u, true) == FlowView::Rows(right, None, v),
    ensures
        plan::executed(o, op, cx, run, at) == plan::merge_step(
            cx,
            op.id,
            op.node->merges,
            exec::rows_step(cx, op.id, AskView::Join(left, right), run, v, false),
            run,
            false,
        ),
{
    let whole = plan::join_from(o, op, cx, run, at, true);
    assert(whole == exec::rows_step(cx, op.id, AskView::Join(left, right), run, v, false));
}

proof fn lemma_same_join(
    cx: ContextView,
    id: u64,
    merges: bool,
    left: Rows,
    right: Rows,
    kind: JoinKind,
    left_width: usize,
    right_width: usize,
    run: Tape,
    v: nat,
    read: Tape,
    x: nat,
)
    requires
        x < read.len(),
        run[v as int] == read[x as int],
        merges ==> x + 1 < read.len() && run[v as int + 1] == read[x as int + 1],
        plan::merge_step(
            cx,
            id,
            merges,
            plan::match_step(cx, id, left, None, right, v, kind, left_width, right_width, run, false),
            run,
            false,
        ) matches FlowView::Rows(_, None, _),
    ensures
        plan::merge_step(
            cx,
            id,
            merges,
            plan::match_step(cx, id, left, None, right, x, kind, left_width, right_width, read, true),
            read,
            true,
        ) matches FlowView::Rows(rows, None, _) && rows == plan::merge_step(
            cx,
            id,
            merges,
            plan::match_step(cx, id, left, None, right, v, kind, left_width, right_width, run, false),
            run,
            false,
        )->Rows_0,
{
}

proof fn lemma_executed_series<O: ValueOrder>(
    o: &O,
    op: Operator,
    cx: ContextView,
    run: Tape,
    at: nat,
    s: IntSeries,
)
    requires
        op.node matches OpNode::ProjectSet { func: SetFunc::GenerateSeries, pos: 0, ordinality: false, .. },
        s.step != 0,
        op.children@.len() == 1,
        op.children@[0].node is OneRow,
        plan::has_children(op.children@[0]),
        at < run.len(),
        run[at as int] == AnswerView::SetInputs(seq![literal_input(s)]),
        plan::executed(o, op, cx, run, at) matches FlowView::Rows(_, None, _),
    ensures
        plan::executed(o, op, cx, run, at)->Rows_0 == exec::series_flow(s, 0)->Rows_0,
        exec::series_flow(s, 0)->Rows_1 is None,
{
    let child = plan::flow_of(o, op.children@[0], cx, run, at, false);
    let input = literal_input(s);
    let one = seq![Seq::<ValueView>::empty()];
    assert(plan::executed(o, op.children@[0], cx, run, at) == FlowView::Rows(one, None, at));
    if !(child is Rows) {
        assert(plan::executed(o, op, cx, run, at) == child);
    }
    assert(child == FlowView::Rows(one, None, at));
    let n = series::series_len(s.start, s.stop, s.step);
    assert(input.args[0] == ValueView::Int(s.start));
    assert(input.args[1] == ValueView::Int(s.stop));
    assert(input.args[2] == ValueView::Int(s.step));
    let inputs = seq![input];
    let first = sets::sets_from(
        cx,
        op.id,
        SetFunc::GenerateSeries,
        0,
        false,
        inputs,
        run,
        at + 1,
        0,
        Seq::empty(),
    );
    assert(plan::executed(o, op, cx, run, at) == first);
    if n > series::MAX_SERIES_ROWS {
        assert(series::set_outcome(SetFunc::GenerateSeries, input.args) == SetOutcome::Refused(
            SetError::SeriesLimit,
        ));
        assert(first is Failed);
    }
    assert(series::set_outcome(SetFunc::GenerateSeries, input.args) == SetOutcome::Elements(
        series::series_values(s.start, s.step, n),
    ));
    let set = operators::ExpansionView {
        scalars: input.scalars,
        pos: 0,
        elements: series::series_values(s.start, s.step, n),
        extra: Seq::empty(),
    };
    reveal_with_fuel(sets::sets_from, 2);
    assert(Seq::<operators::ExpansionView>::empty().push(set) =~= seq![set]);
    law_series_streams_its_elements(s, 0);
}

proof fn lemma_streamed_filter<O: ValueOrder>(
    o: &O,
    op: Operator,
    cx: ContextView,
    run: Tape,
    at: nat,
    read: Tape,
    from: nat,
    rows: Rows,
    u: nat,
    v: nat,
)
    requires
        op.node is Filter || op.node is Project,
        op.children@.len() == 1,
        plan::flow_of(o, op.children@[0], cx, run, at, false) == FlowView::Rows(rows, None, u),
        plan::flow_of(o, op.children@[0], cx, read, from, true) == FlowView::Rows(rows, None, v),
        v < read.len(),
        run[u as int] == read[v as int],
        plan::executed(o, op, cx, run, at) matches FlowView::Rows(_, None, _),
    ensures
        plan::streamed(o, op, cx, read, from) matches FlowView::Rows(out, None, _) && out == plan::executed(
            o,
            op,
            cx,
            run,
            at,
        )->Rows_0,
{
}

proof fn lemma_same_probe<O: ValueOrder>(
    o: &O,
    op: Operator,
    cx: ContextView,
    run: Tape,
    at: nat,
    read: Tape,
    from: nat,
    start: nat,
)
    requires
        op.node is HashJoin,
        op.children@.len() == 2,
        cx.spill is Some,
        ({
            let asks = op.node->HashJoin_kind is Inner && !op.node->merges && op.node->one_table;
            &&& asks ==> from < read.len() && read[from as int] == AnswerView::Flag(false) && start
                == from + 1
            &&& !asks ==> start == from
        }),
        start < read.len(),
        read[start as int] == AnswerView::Flag(true),
        same_probe(o, op, cx, run, at, read, start + 1),
        plan::executed(o, op, cx, run, at) matches FlowView::Rows(_, None, _),
    ensures
        plan::streamed(o, op, cx, read, from) matches FlowView::Rows(rows, None, _) && rows
            == plan::executed(o, op, cx, run, at)->Rows_0,
{
    let kind = op.node->HashJoin_kind;
    let left_width = op.node->left_width;
    let right_width = op.node->HashJoin_right_width;
    let merges = op.node->merges;
    let left_run = plan::flow_of(o, op.children@[0], cx, run, at, true);
    let u = left_run->Rows_2;
    let left = left_run->Rows_0;
    let right_run = plan::flow_of(o, op.children@[1], cx, run, u, true);
    let v = right_run->Rows_2;
    let right = right_run->Rows_0;
    let q = Places { run, at: u, read, from: start + 1 };
    answers::law_rows_depend_on_the_answers_used(q, o, op.children@[1], cx, true);
    let w = answers::moved(q, v);
    let p = Places { run, at, read, from: w };
    answers::law_rows_depend_on_the_answers_used(p, o, op.children@[0], cx, true);
    let x = answers::moved(p, u);
    let whole = plan::join_from(o, op, cx, run, at, true);
    assert(plan::executed(o, op, cx, run, at) == plan::merge_step(cx, op.id, merges, whole, run, false));
    let probe = plan::probe_from(
        o,
        op,
        cx,
        read,
        w,
        right,
        kind,
        left_width,
        right_width,
        merges,
    );
    assert(plan::build_right_from(o, op, cx, read, start, kind, left_width, right_width, merges)
        == probe);
    assert(plan::streamed(o, op, cx, read, from) == probe);
    let met = plan::match_step(
        cx,
        op.id,
        left,
        None,
        right,
        x,
        kind,
        left_width,
        right_width,
        read,
        true,
    );
    assert(probe == plan::merge_step(cx, op.id, merges, met, read, true));
}

/// Where execution succeeds, a stream whose parts get the same answers gives exactly the rows that
/// execution gives, in the same order.
pub proof fn law_streaming_with_the_same_answers<O: ValueOrder>(
    o: &O,
    op: Operator,
    cx: ContextView,
    run: Tape,
    at: nat,
    read: Tape,
    from: nat,
)
    requires
        same_answers(o, op, cx, run, at, read, from),
        plan::flow_of(o, op, cx, run, at, false) matches FlowView::Rows(_, None, _),
    ensures
        plan::flow_of(o, op, cx, read, from, true) matches FlowView::Rows(rows, None, _) && rows == plan::flow_of(
            o,
            op,
            cx,
            run,
            at,
            false,
        )->Rows_0,
    decreases op,
{
    match op.node {
        OpNode::ProjectSet { series: Some(s), .. } if s.step != 0 => {
            lemma_executed_series(o, op, cx, run, at, s);
        },
        OpNode::HashJoin { kind, left_width, right_width, merges, one_table } => {
            let asks = kind is Inner && !merges && one_table;
            let start = if asks {
                from + 1
            } else {
                from
            };
            if asks && read[from as int] == AnswerView::Flag(true) && cx.spill is Some {
                let left_run = plan::flow_of(o, op.children@[0], cx, run, at, true);
                let u = left_run->Rows_2;
                let left = left_run->Rows_0;
                let right_run = plan::flow_of(o, op.children@[1], cx, run, u, true);
                let v = right_run->Rows_2;
                let right = right_run->Rows_0;
                let w = answers::end_of(plan::flow_of(o, op.children@[0], cx, read, from + 1, false));
                let q = Places { run, at: u, read, from: w };
                law_streaming_with_the_same_answers(
                    o,
                    op.children@[0],
                    cx,
                    read,
                    from + 1,
                    run,
                    at,
                );
                answers::law_rows_depend_on_the_answers_used(q, o, op.children@[1], cx, true);
                let x = answers::moved(q, v);
                lemma_executed_whole(o, op, cx, run, at, left, u, right, v);
                lemma_streamed_left(o, op, cx, read, from, left, w, right, x);
            } else if asks && read[from as int] == AnswerView::Flag(true) {
                let left_run = plan::flow_of(o, op.children@[0], cx, run, at, false);
                let u = left_run->Rows_2;
                let left = left_run->Rows_0;
                let right_run = plan::flow_of(o, op.children@[1], cx, run, u, false);
                let v = right_run->Rows_2;
                let right = right_run->Rows_0;
                let p = Places { run, at, read, from: from + 1 };
                let w = answers::moved(p, u);
                answers::law_rows_depend_on_the_answers_used(p, o, op.children@[0], cx, false);
                law_streaming_with_the_same_answers(o, op.children@[1], cx, run, u, read, w);
                let x = answers::end_of(plan::flow_of(o, op.children@[1], cx, read, w, true));
                assert(plan::executed(o, op, cx, run, at) == plan::match_left_step(
                    cx,
                    op.id,
                    left,
                    right,
                    None,
                    v,
                    run,
                    false,
                ));
                lemma_streamed_left(o, op, cx, read, from, left, w, right, x);
            } else if cx.spill is Some && read[start as int] == AnswerView::Flag(true) {
                lemma_same_probe(o, op, cx, run, at, read, from, start);
            } else if cx.spill is Some {
                let p = Places { run, at, read, from: start + 1 };
                answers::lemma_hash_join(p, o, op, cx);
                assert(plan::executed(o, op, cx, read, start + 1) == plan::merge_step(
                    cx,
                    op.id,
                    merges,
                    plan::join_from(o, op, cx, read, start + 1, true),
                    read,
                    false,
                ));
                assert(plan::build_right_from(
                    o,
                    op,
                    cx,
                    read,
                    start,
                    kind,
                    left_width,
                    right_width,
                    merges,
                ) == plan::executed(o, op, cx, read, start + 1));
                assert(plan::streamed(o, op, cx, read, from) == plan::executed(
                    o,
                    op,
                    cx,
                    read,
                    start + 1,
                ));
            } else {
                let left_run = plan::flow_of(o, op.children@[0], cx, run, at, false);
                let u = left_run->Rows_2;
                let right_run = plan::flow_of(o, op.children@[1], cx, run, u, false);
                let v = right_run->Rows_2;
                let left = left_run->Rows_0;
                let right = right_run->Rows_0;
                let q = Places { run, at: u, read, from: start };
                answers::law_rows_depend_on_the_answers_used(q, o, op.children@[1], cx, false);
                let w = answers::moved(q, v);
                law_streaming_with_the_same_answers(o, op.children@[0], cx, run, at, read, w);
                let x = answers::end_of(plan::flow_of(o, op.children@[0], cx, read, w, true));
                lemma_executed_join(o, op, cx, run, at, left, u, right, v);
                lemma_streamed_join(o, op, cx, read, from, start, right, w, left, x);
                lemma_same_join(
                    cx,
                    op.id,
                    merges,
                    left,
                    right,
                    kind,
                    left_width,
                    right_width,
                    run,
                    v,
                    read,
                    x,
                );
            }
        },
        OpNode::Filter | OpNode::Project { .. } => {
            let c = op.children@[0];
            let child = plan::flow_of(o, c, cx, run, at, false);
            assert(child matches FlowView::Rows(_, None, _));
            let u = child->Rows_2;
            let rows = child->Rows_0;
            law_streaming_with_the_same_answers(o, c, cx, run, at, read, from);
            let v = plan::flow_of(o, c, cx, read, from, true)->Rows_2;
            lemma_streamed_filter(o, op, cx, run, at, read, from, rows, u, v);
        },
        _ => {
            law_streaming_gives_the_executed_rows(o, op, cx, run, at);
            answers::law_rows_depend_on_the_answers_used(
                Places { run, at, read, from },
                o,
                op,
                cx,
                true,
            );
        },
    }
}

/// A literal series read as a stream gives the rows that expanding its elements gives.
pub proof fn law_series_streams_its_elements(s: IntSeries, used: nat)
    requires
        s.step != 0,
        series::series_len(s.start, s.stop, s.step) <= series::MAX_SERIES_ROWS,
    ensures
        exec::series_flow(s, used) == FlowView::Rows(
            operators::expanded(
                seq![
                    operators::ExpansionView {
                        scalars: seq![ValueView::Null],
                        pos: 0,
                        elements: series::series_values(
                            s.start,
                            s.step,
                            series::series_len(s.start, s.stop, s.step),
                        ),
                        extra: Seq::empty(),
                    },
                ],
                false,
                1,
            ),
            None,
            used,
        ),
{
    let n = series::series_len(s.start, s.stop, s.step);
    let e = operators::ExpansionView {
        scalars: seq![ValueView::Null],
        pos: 0,
        elements: series::series_values(s.start, s.step, n),
        extra: Seq::empty(),
    };
    let rows = e.elements.map_values(|v: ValueView| seq![v]);
    let out = operators::expanded(seq![e], false, 1);
    assert(operators::expanded(seq![e], false, 0) =~= Seq::empty());
    assert(out =~= operators::expansion_rows(e, false));
    assert forall|i: int| 0 <= i < rows.len() implies #[trigger] rows[i] == out[i] by {
        assert(operators::element_row(e, i, false) =~= seq![e.elements[i]]);
    }
    assert(rows =~= out);
}

/// An inner hash join that is built on the left both when it is executed and when it is read as a
/// stream, and that does not spill, gives the same rows in the same order, where its left side is
/// executed with the same answers, its right side gets the same answers, and the same matches are found.
pub proof fn law_joins_built_on_the_left_stream_in_order<O: ValueOrder>(
    o: &O,
    op: Operator,
    cx: ContextView,
    run: Tape,
    at: nat,
    read: Tape,
    from: nat,
    left: Rows,
    u: nat,
    right: Rows,
    v: nat,
)
    requires
        op.node matches OpNode::HashJoin { kind: JoinKind::Inner, merges: false, one_table: true, .. },
        op.children@.len() == 2,
        cx.spill is None,
        from < read.len(),
        read[from as int] == AnswerView::Flag(true),
        plan::flow_of(o, op.children@[0], cx, run, at, false) == FlowView::Rows(left, None, u),
        plan::flow_of(o, op.children@[1], cx, run, u, false) == FlowView::Rows(right, None, v),
        operators::builds_left(JoinKind::Inner, false, left.len(), right.len()),
        ({
            let p = Places { run, at, read, from: from + 1 };
            let w = answers::moved(p, u);
            let x = answers::end_of(plan::flow_of(o, op.children@[1], cx, read, w, true));
            &&& answers::agree(p, u)
            &&& same_answers(o, op.children@[1], cx, run, u, read, w)
            &&& x < read.len() && run[v as int] == read[x as int]
        }),
        plan::flow_of(o, op, cx, run, at, false) matches FlowView::Rows(_, None, _),
    ensures
        plan::flow_of(o, op, cx, read, from, true) matches FlowView::Rows(rows, None, _) && rows
            == plan::flow_of(o, op, cx, run, at, false)->Rows_0,
{
    law_streaming_with_the_same_answers(o, op, cx, run, at, read, from);
}

} // verus!
