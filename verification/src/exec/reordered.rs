//! Streams and executions whose joins are built on different sides, or whose joins spill to one of them
//! only: they give the same rows, each as often, in some order.
use vstd::prelude::*;
use crate::exec::answers;
use crate::exec::answers::Places;
use crate::exec::plan;
use crate::exec::pull::Evaluator;
use crate::exec::streaming;
use crate::exec::{AnswerView, ContextView, FlowView, OpNode, Operator, Tape};
use crate::operators;
use crate::operators::sides;
use crate::operators::JoinKind;
use crate::order::ValueOrder;
use crate::setops::Rows;
use crate::value::ValueView;

verus! {

/// An inner hash join that is executed built on the right, and streamed built on the left: its sides get
/// the same answers, and the matches that are found for each left row and for each right row are the
/// same.
pub open spec fn flipped_in_the_stream<O: ValueOrder>(
    o: &O,
    op: Operator,
    cx: ContextView,
    run: Tape,
    at: nat,
    read: Tape,
    from: nat,
) -> bool {
    op.node matches OpNode::HashJoin { kind: JoinKind::Inner, merges: false, one_table: true, .. }
        && op.children@.len() == 2 && cx.spill is None && from < read.len() && read[from as int]
        == AnswerView::Flag(true) && (plan::flow_of(o, op.children@[0], cx, run, at, false) matches FlowView::Rows(
        left,
        None,
        u,
    ) && (plan::flow_of(o, op.children@[1], cx, run, u, false) matches FlowView::Rows(right, None, v) && {
        let p = Places { run, at, read, from: from + 1 };
        let w = answers::moved(p, u);
        let x = answers::end_of(plan::flow_of(o, op.children@[1], cx, read, w, true));
        &&& answers::agree(p, u)
        &&& streaming::same_answers(o, op.children@[1], cx, run, u, read, w)
        &&& !operators::builds_left(JoinKind::Inner, false, left.len(), right.len())
        &&& v < run.len() && x < read.len()
        &&& (run[v as int] matches AnswerView::Matches(by_left) && (read[x as int] matches AnswerView::Matches(
            by_right,
        ) && by_left.len() == left.len() && by_right.len() == right.len() && sides::same_matches(
            by_left,
            by_right,
        )))
    }))
}

/// An inner hash join whose stream is built on the left gives the rows of an execution that is built on
/// the right, each as often; only their order may differ.
pub proof fn law_flipped_stream_gives_the_rows_in_some_order<O: ValueOrder>(
    o: &O,
    op: Operator,
    cx: ContextView,
    run: Tape,
    at: nat,
    read: Tape,
    from: nat,
)
    requires
        flipped_in_the_stream(o, op, cx, run, at, read, from),
        plan::flow_of(o, op, cx, run, at, false) matches FlowView::Rows(_, None, _),
    ensures
        plan::flow_of(o, op, cx, read, from, true) matches FlowView::Rows(rows, None, _)
            && rows.to_multiset() == plan::flow_of(o, op, cx, run, at, false)->Rows_0.to_multiset(),
{
    let left_run = plan::flow_of(o, op.children@[0], cx, run, at, false);
    let u = left_run->Rows_2;
    let left = left_run->Rows_0;
    let right_run = plan::flow_of(o, op.children@[1], cx, run, u, false);
    let v = right_run->Rows_2;
    let right = right_run->Rows_0;
    let p = Places { run, at, read, from: from + 1 };
    let w = answers::moved(p, u);
    answers::law_rows_depend_on_the_answers_used(p, o, op.children@[0], cx, false);
    streaming::law_streaming_with_the_same_answers(o, op.children@[1], cx, run, u, read, w);
    let x = answers::end_of(plan::flow_of(o, op.children@[1], cx, read, w, true));
    let by_left = run[v as int]->Matches_0;
    let by_right = read[x as int]->Matches_0;
    let left_width = op.node->left_width;
    let right_width = op.node->HashJoin_right_width;
    streaming::lemma_executed_join(o, op, cx, run, at, left, u, right, v);
    assert(plan::executed(o, op, cx, run, at) == FlowView::Rows(
        operators::joined(
            left,
            right,
            by_left,
            JoinKind::Inner,
            left_width as nat,
            right_width as nat,
        ),
        None,
        v + 1,
    ));
    assert(plan::streamed(o, op, cx, read, from) == plan::match_left_step(
        cx,
        op.id,
        left,
        right,
        None,
        x,
        read,
        true,
    ));
    sides::law_build_side_keeps_the_rows(
        left,
        right,
        by_left,
        by_right,
        left_width as nat,
        right_width as nat,
    );
}

/// An inner hash join that is executed built on the left, and streamed built on the right: its sides get
/// the same answers, and the matches that are found for each left row and for each right row are the
/// same.
pub open spec fn flipped_in_the_execution<O: ValueOrder>(
    o: &O,
    op: Operator,
    cx: ContextView,
    run: Tape,
    at: nat,
    read: Tape,
    from: nat,
) -> bool {
    op.node matches OpNode::HashJoin { kind: JoinKind::Inner, merges: false, one_table, .. }
        && op.children@.len() == 2 && cx.spill is None && (one_table ==> from < read.len() && read[from as int]
        == AnswerView::Flag(false)) && (plan::flow_of(o, op.children@[0], cx, run, at, false) matches FlowView::Rows(
        left,
        None,
        u,
    ) && (plan::flow_of(o, op.children@[1], cx, run, u, false) matches FlowView::Rows(right, None, v) && {
        let start = if one_table {
            from + 1
        } else {
            from
        };
        let q = Places { run, at: u, read, from: start };
        let w = answers::moved(q, v);
        let x = answers::end_of(plan::flow_of(o, op.children@[0], cx, read, w, true));
        &&& answers::agree(q, v)
        &&& streaming::same_answers(o, op.children@[0], cx, run, at, read, w)
        &&& operators::builds_left(JoinKind::Inner, false, left.len(), right.len())
        &&& v < run.len() && x < read.len()
        &&& (run[v as int] matches AnswerView::Matches(by_right) && (read[x as int] matches AnswerView::Matches(
            by_left,
        ) && by_left.len() == left.len() && by_right.len() == right.len() && sides::same_matches(
            by_left,
            by_right,
        )))
    }))
}

/// An inner hash join whose execution is built on the left gives the rows of a stream that is built on
/// the right, each as often; only their order may differ.
pub proof fn law_flipped_execution_gives_the_rows_in_some_order<O: ValueOrder>(
    o: &O,
    op: Operator,
    cx: ContextView,
    run: Tape,
    at: nat,
    read: Tape,
    from: nat,
)
    requires
        flipped_in_the_execution(o, op, cx, run, at, read, from),
        plan::flow_of(o, op, cx, run, at, false) matches FlowView::Rows(_, None, _),
    ensures
        plan::flow_of(o, op, cx, read, from, true) matches FlowView::Rows(rows, None, _)
            && rows.to_multiset() == plan::flow_of(o, op, cx, run, at, false)->Rows_0.to_multiset(),
{
    let left_run = plan::flow_of(o, op.children@[0], cx, run, at, false);
    let u = left_run->Rows_2;
    let left = left_run->Rows_0;
    let right_run = plan::flow_of(o, op.children@[1], cx, run, u, false);
    let v = right_run->Rows_2;
    let right = right_run->Rows_0;
    let start = if op.node->one_table {
        from + 1
    } else {
        from
    };
    let q = Places { run, at: u, read, from: start };
    let w = answers::moved(q, v);
    answers::law_rows_depend_on_the_answers_used(q, o, op.children@[1], cx, false);
    streaming::law_streaming_with_the_same_answers(o, op.children@[0], cx, run, at, read, w);
    let x = answers::end_of(plan::flow_of(o, op.children@[0], cx, read, w, true));
    let by_right = run[v as int]->Matches_0;
    let by_left = read[x as int]->Matches_0;
    let left_width = op.node->left_width;
    let right_width = op.node->HashJoin_right_width;
    streaming::lemma_streamed_join(o, op, cx, read, from, start, right, w, left, x);
    assert(plan::streamed(o, op, cx, read, from) == FlowView::Rows(
        operators::joined(
            left,
            right,
            by_left,
            JoinKind::Inner,
            left_width as nat,
            right_width as nat,
        ),
        None,
        x + 1,
    ));
    assert(plan::executed(o, op, cx, run, at) == plan::match_left_step(
        cx,
        op.id,
        left,
        right,
        None,
        v,
        run,
        false,
    ));
    sides::law_build_side_keeps_the_rows(
        left,
        right,
        by_left,
        by_right,
        left_width as nat,
        right_width as nat,
    );
}

/// A hash join that spills and merges no columns, executed as a whole with the answers `run` from `at`
/// on, and read with the answers `read` from `from` on, probed from either side: its sides get the same
/// answers, and the whole holds the rows of the join by the matches that are found, in some order.
pub open spec fn spilled_in_some_order<O: ValueOrder>(
    o: &O,
    op: Operator,
    cx: ContextView,
    run: Tape,
    at: nat,
    read: Tape,
    from: nat,
) -> bool {
    op.node matches OpNode::HashJoin { kind, merges: false, one_table, left_width, right_width, .. }
        && op.children@.len() == 2 && cx.spill is Some && from < read.len() && (plan::flow_of(
        o,
        op.children@[0],
        cx,
        run,
        at,
        true,
    ) matches FlowView::Rows(left, None, u) && (plan::flow_of(o, op.children@[1], cx, run, u, true) matches FlowView::Rows(
        right,
        None,
        v,
    ) && v < run.len() && (run[v as int] matches AnswerView::Rows(whole, false) && {
        let asks = kind is Inner && one_table;
        if asks && read[from as int] == AnswerView::Flag(true) {
            let first = plan::flow_of(o, op.children@[0], cx, read, from + 1, false);
            let w = answers::end_of(first);
            let q = Places { run, at: u, read, from: w };
            let x = answers::moved(q, v);
            &&& first matches FlowView::Rows(_, None, _)
            &&& streaming::same_answers(o, op.children@[0], cx, read, from + 1, run, at)
            &&& answers::agree(q, v)
            &&& x < read.len() && (read[x as int] matches AnswerView::Matches(ms) && ms.len()
                == right.len() && whole.to_multiset() == operators::probed_right(
                left,
                right,
                ms,
                ms.len(),
            ).to_multiset())
        } else {
            let start = if asks {
                from + 1
            } else {
                from
            };
            let q = Places { run, at: u, read, from: start + 1 };
            let w = answers::moved(q, v);
            let p = Places { run, at, read, from: w };
            let x = answers::moved(p, u);
            &&& asks ==> read[from as int] == AnswerView::Flag(false)
            &&& start < read.len() && read[start as int] == AnswerView::Flag(true)
            &&& answers::agree(q, v)
            &&& answers::agree(p, u)
            &&& x < read.len() && (read[x as int] matches AnswerView::Matches(ms) && ms.len()
                == left.len() && whole.to_multiset() == operators::joined(
                left,
                right,
                ms,
                kind,
                left_width as nat,
                right_width as nat,
            ).to_multiset())
        }
    })))
}

/// The sides of a hash join that spills, and the place of the answer after them.
spec fn spilled_sides<O: ValueOrder>(o: &O, op: Operator, cx: ContextView, run: Tape, at: nat) -> (
    Rows,
    Rows,
    nat,
) {
    let left = plan::flow_of(o, op.children@[0], cx, run, at, true);
    let right = plan::flow_of(o, op.children@[1], cx, run, left->Rows_2, true);
    (left->Rows_0, right->Rows_0, right->Rows_2)
}

/// The rows that a hash join that spills is as a whole.
spec fn spilled_rows<O: ValueOrder>(o: &O, op: Operator, cx: ContextView, run: Tape, at: nat) -> Rows {
    run[spilled_sides(o, op, cx, run, at).2 as int]->Rows_0
}

proof fn lemma_join_flows<O: ValueOrder>(o: &O, op: Operator, cx: ContextView, tape: Tape, used: nat)
    requires
        op.node is HashJoin,
        op.children@.len() == 2,
    ensures
        plan::flow_of(o, op, cx, tape, used, false) matches FlowView::Rows(_, None, _) ==> plan::flow_of(
            o,
            op,
            cx,
            tape,
            used,
            false,
        ) == plan::executed(o, op, cx, tape, used),
        plan::flow_of(o, op, cx, tape, used, true) == plan::streamed(o, op, cx, tape, used),
{
}

proof fn lemma_streamed_probe<O: ValueOrder>(
    o: &O,
    op: Operator,
    cx: ContextView,
    read: Tape,
    from: nat,
    start: nat,
    right: Rows,
    w: nat,
    left: Rows,
    x: nat,
)
    requires
        op.node matches OpNode::HashJoin { merges: false, .. },
        op.children@.len() == 2,
        cx.spill is Some,
        ({
            let asks = op.node->HashJoin_kind is Inner && op.node->one_table;
            &&& asks ==> from < read.len() && read[from as int] == AnswerView::Flag(false) && start
                == from + 1
            &&& !asks ==> start == from
        }),
        start < read.len(),
        read[start as int] == AnswerView::Flag(true),
        plan::flow_of(o, op.children@[1], cx, read, start + 1, true) == FlowView::Rows(right, None, w),
        plan::flow_of(o, op.children@[0], cx, read, w, true) == FlowView::Rows(left, None, x),
    ensures
        plan::streamed(o, op, cx, read, from) == plan::match_step(
            cx,
            op.id,
            left,
            None,
            right,
            x,
            op.node->HashJoin_kind,
            op.node->left_width,
            op.node->HashJoin_right_width,
            read,
            true,
        ),
{
    let kind = op.node->HashJoin_kind;
    let left_width = op.node->left_width;
    let right_width = op.node->HashJoin_right_width;
    let probe = plan::probe_from(
        o,
        op,
        cx,
        read,
        w,
        right,
        kind,
        left_width,
        right_width,
        false,
    );
    assert(plan::build_right_from(o, op, cx, read, start, kind, left_width, right_width, false)
        == probe);
    assert(plan::streamed(o, op, cx, read, from) == probe);
}

proof fn lemma_executed_spilled<O: ValueOrder>(
    o: &O,
    op: Operator,
    cx: ContextView,
    run: Tape,
    at: nat,
    read: Tape,
    from: nat,
)
    requires
        spilled_in_some_order(o, op, cx, run, at, read, from),
    ensures
        plan::executed(o, op, cx, run, at) == FlowView::Rows(
            spilled_rows(o, op, cx, run, at),
            None,
            spilled_sides(o, op, cx, run, at).2 + 1,
        ),
{
    let left_run = plan::flow_of(o, op.children@[0], cx, run, at, true);
    let u = left_run->Rows_2;
    let right_run = plan::flow_of(o, op.children@[1], cx, run, u, true);
    streaming::lemma_executed_whole(
        o,
        op,
        cx,
        run,
        at,
        left_run->Rows_0,
        u,
        right_run->Rows_0,
        right_run->Rows_2,
    );
}

proof fn lemma_read_from_the_right<O: ValueOrder>(
    o: &O,
    op: Operator,
    cx: ContextView,
    run: Tape,
    at: nat,
    read: Tape,
    from: nat,
)
    requires
        spilled_in_some_order(o, op, cx, run, at, read, from),
        op.node->HashJoin_kind is Inner && op.node->one_table && read[from as int] == AnswerView::Flag(true),
    ensures
        plan::streamed(o, op, cx, read, from) matches FlowView::Rows(rows, None, _) && rows.to_multiset()
            == spilled_rows(o, op, cx, run, at).to_multiset(),
{
    let (left, right, v) = spilled_sides(o, op, cx, run, at);
    let u = plan::flow_of(o, op.children@[0], cx, run, at, true)->Rows_2;
    let w = answers::end_of(plan::flow_of(o, op.children@[0], cx, read, from + 1, false));
    let q = Places { run, at: u, read, from: w };
    streaming::law_streaming_with_the_same_answers(o, op.children@[0], cx, read, from + 1, run, at);
    answers::law_rows_depend_on_the_answers_used(q, o, op.children@[1], cx, true);
    let x = answers::moved(q, v);
    streaming::lemma_streamed_left(o, op, cx, read, from, left, w, right, x);
}

proof fn lemma_read_from_the_left<O: ValueOrder>(
    o: &O,
    op: Operator,
    cx: ContextView,
    run: Tape,
    at: nat,
    read: Tape,
    from: nat,
)
    requires
        spilled_in_some_order(o, op, cx, run, at, read, from),
        !(op.node->HashJoin_kind is Inner && op.node->one_table && read[from as int] == AnswerView::Flag(
            true,
        )),
    ensures
        plan::streamed(o, op, cx, read, from) matches FlowView::Rows(rows, None, _) && rows.to_multiset()
            == spilled_rows(o, op, cx, run, at).to_multiset(),
{
    let (left, right, v) = spilled_sides(o, op, cx, run, at);
    let u = plan::flow_of(o, op.children@[0], cx, run, at, true)->Rows_2;
    let start = if op.node->HashJoin_kind is Inner && op.node->one_table {
        from + 1
    } else {
        from
    };
    let q = Places { run, at: u, read, from: start + 1 };
    answers::law_rows_depend_on_the_answers_used(q, o, op.children@[1], cx, true);
    let w = answers::moved(q, v);
    let p = Places { run, at, read, from: w };
    answers::law_rows_depend_on_the_answers_used(p, o, op.children@[0], cx, true);
    let x = answers::moved(p, u);
    lemma_streamed_probe(o, op, cx, read, from, start, right, w, left, x);
}

/// A hash join that spills when it is executed gives the rows that probing it gives, each as often; only
/// their order may differ.
pub proof fn law_spilled_execution_gives_the_rows_in_some_order<O: ValueOrder>(
    o: &O,
    op: Operator,
    cx: ContextView,
    run: Tape,
    at: nat,
    read: Tape,
    from: nat,
)
    requires
        spilled_in_some_order(o, op, cx, run, at, read, from),
        plan::flow_of(o, op, cx, run, at, false) matches FlowView::Rows(_, None, _),
    ensures
        plan::flow_of(o, op, cx, read, from, true) matches FlowView::Rows(rows, None, _)
            && rows.to_multiset() == plan::flow_of(o, op, cx, run, at, false)->Rows_0.to_multiset(),
{
    lemma_join_flows(o, op, cx, run, at);
    lemma_join_flows(o, op, cx, read, from);
    lemma_executed_spilled(o, op, cx, run, at, read, from);
    if op.node->HashJoin_kind is Inner && op.node->one_table && read[from as int] == AnswerView::Flag(true) {
        lemma_read_from_the_right(o, op, cx, run, at, read, from);
    } else {
        lemma_read_from_the_left(o, op, cx, run, at, read, from);
    }
}

/// Below filters and projections whose answers are those of the evaluator, both when the plan is
/// executed and when it is read, stands a part that gets the same answers both times, or a hash join that
/// is built on different sides or spills to one of them.
pub open spec fn same_in_some_order<O: ValueOrder>(
    e: Evaluator,
    o: &O,
    op: Operator,
    cx: ContextView,
    run: Tape,
    at: nat,
    read: Tape,
    from: nat,
) -> bool
    decreases op,
{
    if op.node is Filter || op.node is Project {
        &&& op.children@.len() == 1
        &&& same_in_some_order(e, o, op.children@[0], cx, run, at, read, from)
        &&& (plan::flow_of(o, op.children@[0], cx, run, at, false) matches FlowView::Rows(a, None, u)
            && u < run.len() && run[u as int] == answered(e, op, a))
        &&& (plan::flow_of(o, op.children@[0], cx, read, from, true) matches FlowView::Rows(b, None, v)
            && v < read.len() && read[v as int] == answered(e, op, b))
    } else {
        ||| streaming::same_answers(o, op, cx, run, at, read, from)
        ||| flipped_in_the_stream(o, op, cx, run, at, read, from)
        ||| flipped_in_the_execution(o, op, cx, run, at, read, from)
        ||| spilled_in_some_order(o, op, cx, run, at, read, from)
    }
}

/// What the evaluator answers a filter, or a projection, for all rows.
pub open spec fn answered(e: Evaluator, op: Operator, rows: Rows) -> AnswerView {
    if op.node is Filter {
        AnswerView::Values(rows.map_values(|r: Seq<ValueView>| (e.judge)(op.id, r)))
    } else {
        AnswerView::Rows(rows.map_values(|r: Seq<ValueView>| (e.project)(op.id, r)), false)
    }
}

/// A row is kept as often as it was there, if its verdict holds.
proof fn lemma_kept_counts(
    judge: spec_fn(Seq<ValueView>) -> ValueView,
    rows: Rows,
    n: nat,
    row: Seq<ValueView>,
)
    requires
        n <= rows.len(),
    ensures
        operators::kept(rows, rows.map_values(judge), n).to_multiset().count(row) == (
        if operators::holds(judge(row)) {
            rows.take(n as int).to_multiset().count(row)
        } else {
            0
        }),
    decreases n,
{
    broadcast use vstd::seq_lib::group_to_multiset_ensures;

    if n == 0 {
        assert(rows.take(0) =~= Seq::empty());
        assert(!Seq::<Seq<ValueView>>::empty().contains(row));
    } else {
        lemma_kept_counts(judge, rows, (n - 1) as nat, row);
        let head = operators::kept(rows, rows.map_values(judge), (n - 1) as nat);
        assert(rows.take(n as int) =~= rows.take(n - 1).push(rows[n - 1]));
        assert(rows.take(n - 1).push(rows[n - 1]).to_multiset() =~= rows.take(n - 1).to_multiset().insert(
            rows[n - 1],
        ));
        assert(head.push(rows[n - 1]).to_multiset() =~= head.to_multiset().insert(rows[n - 1]));
    }
}

/// Filtering does not depend on the order of the rows.
proof fn lemma_kept_in_some_order(judge: spec_fn(Seq<ValueView>) -> ValueView, a: Rows, b: Rows)
    requires
        a.to_multiset() == b.to_multiset(),
    ensures
        operators::kept(a, a.map_values(judge), a.len()).to_multiset() == operators::kept(
            b,
            b.map_values(judge),
            b.len(),
        ).to_multiset(),
{
    let x = operators::kept(a, a.map_values(judge), a.len()).to_multiset();
    let y = operators::kept(b, b.map_values(judge), b.len()).to_multiset();
    assert(a.take(a.len() as int) =~= a);
    assert(b.take(b.len() as int) =~= b);
    assert forall|row: Seq<ValueView>| #[trigger] x.count(row) == y.count(row) by {
        lemma_kept_counts(judge, a, a.len(), row);
        lemma_kept_counts(judge, b, b.len(), row);
    }
    assert(x =~= y);
}

/// Projecting row by row does not depend on the order of the rows.
proof fn lemma_mapped_in_some_order(project: spec_fn(Seq<ValueView>) -> Seq<ValueView>, a: Rows, b: Rows)
    requires
        a.to_multiset() == b.to_multiset(),
    ensures
        a.map_values(project).to_multiset() == b.map_values(project).to_multiset(),
    decreases a.len(),
{
    a.to_multiset_ensures();
    b.to_multiset_ensures();
    assert(a.len() == b.len());
    if a.len() == 0 {
        assert(a.map_values(project) =~= b.map_values(project));
    } else {
        let last = a[a.len() - 1];
        assert(a.contains(last));
        assert(a.to_multiset().count(last) > 0);
        assert(b.to_multiset().count(last) > 0);
        assert(b.contains(last));
        let i = choose|i: int| 0 <= i < b.len() && b[i] == last;
        let n = a.len() - 1;
        assert(a.remove(n).to_multiset() =~= a.to_multiset().remove(last));
        assert(b.remove(i).to_multiset() =~= b.to_multiset().remove(last));
        lemma_mapped_in_some_order(project, a.remove(n), b.remove(i));
        let ma = a.map_values(project);
        let mb = b.map_values(project);
        ma.to_multiset_ensures();
        mb.to_multiset_ensures();
        assert(ma.remove(n) =~= a.remove(n).map_values(project));
        assert(mb.remove(i) =~= b.remove(i).map_values(project));
        assert(ma.contains(ma[n]));
        assert(mb.contains(mb[i]));
        assert(ma.remove(n).to_multiset() =~= ma.to_multiset().remove(project(last)));
        assert(mb.remove(i).to_multiset() =~= mb.to_multiset().remove(project(last)));
        assert(ma.to_multiset() =~= ma.remove(n).to_multiset().insert(project(last)));
        assert(mb.to_multiset() =~= mb.remove(i).to_multiset().insert(project(last)));
    }
}

/// Where execution succeeds, filters and projections over a hash join that is built on different sides,
/// or that spills to one of them, give the same rows when they are read as a stream, each as often; only
/// their order may differ.
pub proof fn law_streaming_gives_the_rows_in_some_order<O: ValueOrder>(
    e: Evaluator,
    o: &O,
    op: Operator,
    cx: ContextView,
    run: Tape,
    at: nat,
    read: Tape,
    from: nat,
)
    requires
        same_in_some_order(e, o, op, cx, run, at, read, from),
        plan::flow_of(o, op, cx, run, at, false) matches FlowView::Rows(_, None, _),
    ensures
        plan::flow_of(o, op, cx, read, from, true) matches FlowView::Rows(rows, None, _)
            && rows.to_multiset() == plan::flow_of(o, op, cx, run, at, false)->Rows_0.to_multiset(),
    decreases op,
{
    if op.node is Filter || op.node is Project {
        let c = op.children@[0];
        law_streaming_gives_the_rows_in_some_order(e, o, c, cx, run, at, read, from);
        let a = plan::flow_of(o, c, cx, run, at, false)->Rows_0;
        let b = plan::flow_of(o, c, cx, read, from, true)->Rows_0;
        if op.node is Filter {
            lemma_kept_in_some_order(|r: Seq<ValueView>| (e.judge)(op.id, r), a, b);
        } else {
            lemma_mapped_in_some_order(|r: Seq<ValueView>| (e.project)(op.id, r), a, b);
        }
    } else if streaming::same_answers(o, op, cx, run, at, read, from) {
        streaming::law_streaming_with_the_same_answers(o, op, cx, run, at, read, from);
    } else if flipped_in_the_stream(o, op, cx, run, at, read, from) {
        law_flipped_stream_gives_the_rows_in_some_order(o, op, cx, run, at, read, from);
    } else if flipped_in_the_execution(o, op, cx, run, at, read, from) {
        law_flipped_execution_gives_the_rows_in_some_order(o, op, cx, run, at, read, from);
    } else {
        law_spilled_execution_gives_the_rows_in_some_order(o, op, cx, run, at, read, from);
    }
}

} // verus!
