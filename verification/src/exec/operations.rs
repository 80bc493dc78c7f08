//! What the operators that sort, combine, count and lock make of their inputs.
use vstd::prelude::*;
use crate::exec;
use crate::exec::meaning::asks;
use crate::exec::plan;
use crate::exec::plan::{InputsStep, LocksStep};
use crate::exec::sets;
use crate::exec::sets::ElementsStep;
use crate::exec::tables;
use crate::exec::tables::TargetsStep;
use crate::exec::{AnswerView, AskView, ContextView, Failure, FlowView, OpNode, Operator, Tape, TiesLimit};
use crate::order::ValueOrder;
use crate::series;
use crate::series::{SetError, SetFunc, TaskView, TemporalView};
use crate::setops;
use crate::setops::{Rows, SetTree};
use crate::sort;
use crate::value::{Interval, ValueView};

verus! {

/// A sort of which only the first rows are wanted gives those, in their order, where memory is not limited.
pub proof fn law_top_n_gives_the_first_of_the_sorted_rows<O: ValueOrder>(
    o: &O,
    op: Operator,
    cx: ContextView,
    tape: Tape,
    used: nat,
    rows: Rows,
    keys: Rows,
    u: nat,
    m: u64,
)
    requires
        op.node matches OpNode::Sort { has_subquery: false, top_n: Some(n), .. } && n == m,
        op.children@.len() == 1,
        cx.budget == 0,
        m <= usize::MAX,
        keys.len() == rows.len() <= usize::MAX,
        plan::flow_of(o, op.children@[0], cx, tape, used, true) == FlowView::Rows(rows, None, u),
        u < tape.len(),
        tape[u as int] == AnswerView::Rows(keys, false),
        forall|i: int| 0 <= i < keys.len() ==> (#[trigger] keys[i]).len() == op.node->Sort_keys@.len(),
    ensures
        ({
            let all = sort::sorted_order(o, keys, op.node->Sort_keys@);
            &&& m < all.len() ==> plan::executed(o, op, cx, tape, used) == FlowView::Rows(
                sort::picked(rows, all.take(m as int)),
                None,
                u + 1,
            )
            &&& m >= all.len() ==> plan::executed(o, op, cx, tape, used) == FlowView::Rows(
                sort::picked(rows, all),
                None,
                u + 1,
            )
        }),
{
    let ks = op.node->Sort_keys@;
    assert(exec::keys_fit(keys, rows.len(), ks.len()));
    sort::meaning::law_top_n_gives_the_first_rows(o, keys, ks, sort::row_sizes(rows), m as nat, 0);
    let all = sort::sorted_order(o, keys, ks);
    if let sort::TopN::Holds { kept, .. } = sort::top_n(
        o,
        keys,
        ks,
        sort::row_sizes(rows),
        m as nat,
        0,
        keys.len(),
    ) {
        if m < all.len() {
            assert(kept =~= all.take(m as int));
        } else {
            assert(kept =~= all);
        }
    }
}

/// A sort with ties gives the rows from its offset on, as many as it counts and those that tie with the
/// last of them; with a subquery among its keys it fails.
pub proof fn law_sort_with_ties_gives_a_part<O: ValueOrder>(
    o: &O,
    op: Operator,
    cx: ContextView,
    tape: Tape,
    used: nat,
    rows: Rows,
    keys: Rows,
    u: nat,
    t: TiesLimit,
)
    requires
        op.node matches OpNode::Sort { ties: Some(x), top_n: None, .. } && x == t,
        op.children@.len() == 1,
        keys.len() == rows.len(),
        plan::flow_of(o, op.children@[0], cx, tape, used, false) == FlowView::Rows(rows, None, u),
        u < tape.len(),
        tape[u as int] == AnswerView::Rows(keys, false),
        forall|i: int| 0 <= i < keys.len() ==> (#[trigger] keys[i]).len() == op.node->Sort_keys@.len(),
    ensures
        op.node->has_subquery ==> plan::executed(o, op, cx, tape, used) == FlowView::Failed(
            Failure::TiesWithSubquery,
            used,
        ),
        !op.node->has_subquery ==> ({
            let ks = op.node->Sort_keys@;
            let at = sort::sorted_order(o, keys, ks);
            let (lo, hi) = sort::ties_range(o, sort::picked(keys, at), ks, t.offset as nat, t.count as nat);
            plan::executed(o, op, cx, tape, used) == FlowView::Rows(
                sort::picked(rows, at).subrange(lo as int, hi as int),
                None,
                u + 1,
            )
        }),
{
    let ks = op.node->Sort_keys@;
    assert(exec::keys_fit(keys, rows.len(), ks.len()));
}

/// A set operation gives what its tree makes of the inputs, and of that no more rows than its limit.
pub proof fn law_set_operations_follow_their_tree<O: ValueOrder>(
    o: &O,
    op: Operator,
    cx: ContextView,
    tape: Tape,
    used: nat,
    tree: SetTree,
    limit: Option<u64>,
    inputs: Seq<Rows>,
    u: nat,
)
    requires
        op.node matches OpNode::SetOperation { tree: x, keys, limit: l, .. } && x == tree && keys@.len() == 0 && l
            == limit,
        setops::leaves_fit(tree, op.children@.len()),
        plan::has_children(op),
        cx.spill is None,
        plan::inputs_from(o, op, cx, tape, used, 0, Seq::empty()) == InputsStep::All(inputs, u),
    ensures
        limit is None ==> plan::executed(o, op, cx, tape, used) == FlowView::Rows(
            setops::tree_rows(o, tree, inputs),
            None,
            u,
        ),
        limit matches Some(n) ==> plan::executed(o, op, cx, tape, used) == FlowView::Rows(
            if n < setops::tree_rows(o, tree, inputs).len() {
                setops::tree_rows(o, tree, inputs).take(n as int)
            } else {
                setops::tree_rows(o, tree, inputs)
            },
            None,
            u,
        ),
{
}

/// The inputs of a set operation are executed one after the other.
pub proof fn law_inputs_are_executed_in_turn<O: ValueOrder>(
    o: &O,
    op: Operator,
    cx: ContextView,
    tape: Tape,
    used: nat,
    k: nat,
    done: Seq<Rows>,
    rows: Rows,
    u: nat,
)
    requires
        k <= op.children@.len(),
    ensures
        k == op.children@.len() ==> plan::inputs_from(o, op, cx, tape, used, k, done) == InputsStep::All(done, used),
        k < op.children@.len() && plan::flow_of(
            o,
            op.children@[k as int],
            cx,
            tape,
            used,
            cx.spill is Some,
        ) == FlowView::Rows(rows, None, u) ==> plan::inputs_from(o, op, cx, tape, used, k, done)
            == plan::inputs_from(o, op, cx, tape, u, k + 1, done.push(rows)),
{
}

/// An aggregate asks for the fold of all rows of its input, and gives what it is answered.
pub proof fn law_aggregates_fold_their_input<O: ValueOrder>(
    o: &O,
    op: Operator,
    cx: ContextView,
    tape: Tape,
    used: nat,
    rows: Rows,
    u: nat,
    out: Rows,
)
    requires
        op.node is GroupAggregate || op.node is GroupingSetsAggregate || op.node matches OpNode::ScalarAggregate {
            count_star: false,
        },
        op.children@.len() == 1,
        cx.spill is None,
        plan::flow_of(o, op.children@[0], cx, tape, used, true) == FlowView::Rows(rows, None, u),
    ensures
        u >= tape.len() ==> plan::executed(o, op, cx, tape, used) == asks(cx, op, AskView::Fold(rows, false)),
        u < tape.len() && tape[u as int] == AnswerView::Rows(out, false) ==> plan::executed(
            o,
            op,
            cx,
            tape,
            used,
        ) == FlowView::Rows(out, None, u + 1),
{
    assert(plan::has_children(op));
}

/// A locking query locks first, and then executes its input without the rows that it passed over.
pub proof fn law_locked_rows_are_read_after_locking<O: ValueOrder>(
    o: &O,
    op: Operator,
    cx: ContextView,
    tape: Tape,
    used: nat,
    rows: Seq<u64>,
    u: nat,
    hidden: Seq<(u64, u64)>,
    v: nat,
)
    requires
        op.children@.len() == 1,
        op.node matches OpNode::LockRows { table, schema, predicate, skip_locked, nowait } && tables::targets_step(
            cx,
            op.id,
            table,
            schema@,
            predicate,
            tape,
            used,
        ) == TargetsStep::Targets(rows, None, u) && plan::locks_from(
            cx,
            op.id,
            table,
            skip_locked,
            nowait,
            rows,
            0,
            cx.hidden,
            tape,
            u,
        ) == LocksStep::Done(hidden, v),
    ensures
        plan::executed(o, op, cx, tape, used) == plan::flow_of(
            o,
            op.children@[0],
            ContextView { hidden, ..cx },
            tape,
            v,
            false,
        ),
{
    assert(plan::has_children(op));
}

/// Sets are expanded row by row, each with the elements that its function gives; several arrays stand side
/// by side, with NULLs where one is shorter.
pub proof fn law_sets_are_expanded_row_by_row(
    cx: ContextView,
    id: u64,
    args: Seq<ValueView>,
    tape: Tape,
    used: nat,
    j: int,
    i: int,
)
    requires
        args.len() > 1,
        0 <= j < args.len() - 1,
    ensures
        sets::elements_step(cx, id, SetFunc::Unnest, args, tape, used) matches ElementsStep::Elements(
            first,
            others,
            u,
        ) && u == used && others.len() == args.len() - 1 && others[j].len() == first.len() && first.len()
            >= series::unnested(args[0]).len() && (0 <= i < series::unnested(args[0]).len() ==> first[i]
            == series::unnested(args[0])[i]) && (0 <= i < series::unnested(args[j + 1]).len() ==> others[j][i]
            == series::unnested(args[j + 1])[i]) && (series::unnested(args[0]).len() <= i < first.len()
            ==> first[i] is Null),
{
    let columns = args.map_values(|v: ValueView| series::unnested(v));
    let n = series::longest(columns, columns.len());
    series::meaning::law_columns_get_the_length_of_the_longest(columns);
    series::meaning::law_short_columns_end_in_nulls(columns[0], n);
    series::meaning::law_short_columns_end_in_nulls(columns[j + 1], n);
}

/// The elements found in a document are documents, unless they are wanted as text; keys and the parts of a
/// text are text. Where nothing was found there is no element.
pub proof fn law_found_elements_have_their_kind(
    cx: ContextView,
    id: u64,
    func: SetFunc,
    d: Seq<char>,
    e: Seq<char>,
    f: Seq<char>,
    tape: Tape,
    used: nat,
    texts: Seq<Option<Seq<char>>>,
    i: int,
    s: Seq<char>,
)
    requires
        used < tape.len(),
        0 <= i < texts.len(),
        texts[i] == Some(s),
    ensures
        ({
            let step = |task: TaskView| sets::task_step(cx, id, func, task, tape, used);
            let gives = |task: TaskView, v: ValueView|
                step(task) matches ElementsStep::Elements(vs, extra, u) && vs.len() == texts.len() && vs[i] == v
                    && extra.len() == 0 && u == used + 1;
            let empty = |task: TaskView|
                step(task) matches ElementsStep::Elements(vs, extra, u) && vs.len() == 0 && u == used + 1;
            &&& tape[used as int] == AnswerView::Found(Some(texts)) ==> {
                &&& gives(TaskView::JsonElements(d), ValueView::Json(s))
                &&& gives(TaskView::JsonPath(d, e), ValueView::Json(s))
                &&& gives(TaskView::JsonElementsText(d), ValueView::Text(s))
                &&& gives(TaskView::JsonKeys(d), ValueView::Text(s))
                &&& gives(TaskView::Split(d, e), ValueView::Text(s))
                &&& gives(TaskView::SplitPattern(d, e, f), ValueView::Text(s))
            }
            &&& tape[used as int] == AnswerView::Found(None) ==> empty(TaskView::JsonElements(d)) && empty(
                TaskView::JsonKeys(d),
            )
            &&& tape[used as int] is Failed ==> step(TaskView::JsonKeys(d)) == ElementsStep::Stop(
                FlowView::Failed(Failure::Outside, used + 1),
            )
        }),
{
}

/// The members of an object are its names as text, and beside them its values, as documents or as text. What
/// is no object is refused.
pub proof fn law_members_are_names_and_values(
    cx: ContextView,
    id: u64,
    d: Seq<char>,
    tape: Tape,
    used: nat,
    names: Seq<Seq<char>>,
    values: Seq<Option<Seq<char>>>,
    i: int,
    s: Seq<char>,
)
    requires
        used < tape.len(),
        0 <= i < names.len() == values.len(),
        values[i] == Some(s),
    ensures
        tape[used as int] == AnswerView::Members(Some((names, values))) ==> {
            &&& sets::task_step(cx, id, SetFunc::JsonEach, TaskView::JsonMembers(d), tape, used)
                matches ElementsStep::Elements(vs, extra, u) && vs[i] == ValueView::Text(names[i]) && extra.len()
                == 1 && extra[0][i] == ValueView::Json(s) && u == used + 1
            &&& sets::task_step(cx, id, SetFunc::JsonEachText, TaskView::JsonMembersText(d), tape, used)
                matches ElementsStep::Elements(vs, extra, u) && vs[i] == ValueView::Text(names[i]) && extra.len()
                == 1 && extra[0][i] == ValueView::Text(s) && u == used + 1
        },
        tape[used as int] == AnswerView::Members(None) ==> sets::task_step(
            cx,
            id,
            SetFunc::JsonEach,
            TaskView::JsonMembers(d),
            tape,
            used,
        ) == ElementsStep::Stop(FlowView::Failed(Failure::SetRefused(SetError::NotAnObject), used + 1)),
{
}

/// The elements of a series of times are the times that it runs through, with a time zone if its bounds
/// have one; a series that is too long is refused.
pub proof fn law_times_are_the_elements_of_their_series(
    cx: ContextView,
    id: u64,
    func: SetFunc,
    start: i64,
    stop: i64,
    step: Interval,
    tape: Tape,
    used: nat,
    nexts: Seq<i64>,
    times: Seq<i64>,
    i: int,
)
    requires
        used < tape.len(),
        tape[used as int] == AnswerView::Times(nexts),
        series::temporal_series(start, stop, nexts) == TemporalView::Complete(times),
        0 <= i < times.len(),
    ensures
        sets::task_step(cx, id, func, TaskView::Temporal(start, stop, step, true), tape, used)
            matches ElementsStep::Elements(vs, _, u) && vs.len() == times.len() && vs[i]
            == ValueView::TimestampTz(times[i]) && u == used + 1,
        sets::task_step(cx, id, func, TaskView::Temporal(start, stop, step, false), tape, used)
            matches ElementsStep::Elements(vs, _, u) && vs.len() == times.len() && vs[i]
            == ValueView::Timestamp(times[i]) && u == used + 1,
{
}

} // verus!
