//! Set-returning projections: the elements of each row's set are worked out, or asked for, and expanded.
use vstd::prelude::*;
use crate::exec;
use crate::exec::{Answer, AnswerView, Ask, AskView, Context, ContextView, Failure, Flow, FlowView, SetInput, SetInputView, Tape};
use crate::operators;
use crate::operators::{Expansion, ExpansionView};
use crate::series;
use crate::series::{ElementKind, SetError, SetFunc, SetOutcome, SetStep, SetTask, TaskView, TemporalSeries, TemporalView};
use crate::setops;
use crate::sort;
use crate::value::{Value, ValueView};

verus! {

/// The elements of a set and its further columns, or where working them out stopped.
pub enum ElementsStep {
    Elements(Seq<ValueView>, Seq<Seq<ValueView>>, nat),
    Stop(FlowView),
}

/// The failure that a refused function is.
pub open spec fn refusal(e: SetError) -> Failure {
    match e {
        SetError::SeriesLimit => Failure::SeriesLimit,
        other => Failure::SetRefused(other),
    }
}

fn refuse(e: SetError) -> (r: Failure)
    ensures
        r == refusal(e),
{
    match e {
        SetError::SeriesLimit => Failure::SeriesLimit,
        other => Failure::SetRefused(other),
    }
}

/// What the elements that a task finds are; `None` for a task whose answer is not a list of texts.
pub open spec fn found_kind(task: TaskView) -> Option<ElementKind> {
    match task {
        TaskView::JsonElements(_) | TaskView::JsonPath(_, _) => Some(ElementKind::Json),
        TaskView::JsonElementsText(_)
        | TaskView::JsonKeys(_)
        | TaskView::Split(_, _)
        | TaskView::SplitPattern(_, _, _) => Some(ElementKind::Text),
        _ => None,
    }
}

fn kind_of(task: &SetTask) -> (r: Option<ElementKind>)
    ensures
        r == found_kind(task@),
{
    match task {
        SetTask::JsonElements(_) | SetTask::JsonPath { .. } => Some(ElementKind::Json),
        SetTask::JsonElementsText(_)
        | SetTask::JsonKeys(_)
        | SetTask::Split { .. }
        | SetTask::SplitPattern { .. } => Some(ElementKind::Text),
        _ => None,
    }
}

/// The kind of the values of an object's members.
pub open spec fn member_kind(func: SetFunc) -> ElementKind {
    if func is JsonEach {
        ElementKind::Json
    } else {
        ElementKind::Text
    }
}

/// The elements that an answer to a task gives: the texts that were found, the matches of a pattern, the
/// times of a series, or the members of an object, whose values are a further column.
pub open spec fn task_step(
    cx: ContextView,
    id: u64,
    func: SetFunc,
    task: TaskView,
    tape: Tape,
    used: nat,
) -> ElementsStep {
    if used >= tape.len() {
        ElementsStep::Stop(exec::asking(cx, id, AskView::SetTask(task)))
    } else {
        match (tape[used as int], task) {
            (AnswerView::Failed, _) => ElementsStep::Stop(exec::failing(Failure::Outside, used + 1)),
            (AnswerView::Values(vs), TaskView::MatchPattern(_, _, _)) => ElementsStep::Elements(
                vs,
                Seq::empty(),
                used + 1,
            ),
            (AnswerView::Times(nexts), TaskView::Temporal(start, stop, _, tzaware)) => {
                match series::temporal_series(start, stop, nexts) {
                    TemporalView::Complete(ts) => ElementsStep::Elements(
                        ts.map_values(|t: i64| series::timestamp(t, tzaware)),
                        Seq::empty(),
                        used + 1,
                    ),
                    TemporalView::Needs(_) => ElementsStep::Stop(
                        exec::failing(Failure::Outside, used + 1),
                    ),
                    TemporalView::Refused(e) => ElementsStep::Stop(
                        exec::failing(refusal(e), used + 1),
                    ),
                }
            },
            (AnswerView::Members(members), TaskView::JsonMembers(_) | TaskView::JsonMembersText(_)) => {
                match members {
                    Some((names, values)) => ElementsStep::Elements(
                        names.map_values(|k: Seq<char>| ValueView::Text(k)),
                        seq![values.map_values(
                            |v: Option<Seq<char>>| series::element(member_kind(func), v),
                        )],
                        used + 1,
                    ),
                    None => ElementsStep::Stop(
                        exec::failing(refusal(SetError::NotAnObject), used + 1),
                    ),
                }
            },
            (AnswerView::Found(found), _) => match (found_kind(task), found) {
                (Some(kind), Some(texts)) => ElementsStep::Elements(
                    texts.map_values(|t: Option<Seq<char>>| series::element(kind, t)),
                    Seq::empty(),
                    used + 1,
                ),
                (Some(_), None) => ElementsStep::Elements(Seq::empty(), Seq::empty(), used + 1),
                (None, _) => ElementsStep::Stop(exec::failing(Failure::BadAnswer, used + 1)),
            },
            _ => ElementsStep::Stop(exec::failing(Failure::BadAnswer, used + 1)),
        }
    }
}

/// The function gives a key and a value for each element.
pub open spec fn gives_pairs(func: SetFunc) -> bool {
    func is JsonEach || func is JsonEachText
}

/// How a set-returning function goes on: several arrays are unnested side by side, a function that gives
/// pairs goes on with its pairs, and any other with its elements.
pub open spec fn elements_step(
    cx: ContextView,
    id: u64,
    func: SetFunc,
    args: Seq<ValueView>,
    tape: Tape,
    used: nat,
) -> ElementsStep {
    if func is Unnest && args.len() > 1 {
        let columns = args.map_values(|v: ValueView| series::unnested(v));
        let n = series::longest(columns, columns.len());
        ElementsStep::Elements(
            series::padded(columns[0], n),
            Seq::new((args.len() - 1) as nat, |i: int| series::padded(columns[i + 1], n)),
            used,
        )
    } else {
        match if gives_pairs(func) {
            series::pair_outcome(func, args)
        } else {
            series::set_outcome(func, args)
        } {
            SetOutcome::Elements(vs) => ElementsStep::Elements(
                vs,
                if gives_pairs(func) {
                    seq![Seq::<ValueView>::empty()]
                } else {
                    Seq::empty()
                },
                used,
            ),
            SetOutcome::Ask(task) => task_step(cx, id, func, task, tape, used),
            SetOutcome::Refused(e) => ElementsStep::Stop(exec::failing(refusal(e), used)),
        }
    }
}

/// The sets of the rows, those from `i` on behind the ones that are there already.
pub open spec fn sets_from(
    cx: ContextView,
    id: u64,
    func: SetFunc,
    pos: usize,
    ordinality: bool,
    inputs: Seq<SetInputView>,
    tape: Tape,
    used: nat,
    i: nat,
    sets: Seq<ExpansionView>,
) -> FlowView
    decreases inputs.len() - i,
{
    if i >= inputs.len() {
        FlowView::Rows(operators::expanded(sets, ordinality, sets.len()), None, used)
    } else {
        match elements_step(cx, id, func, inputs[i as int].args, tape, used) {
            ElementsStep::Elements(elements, extra, u) => sets_from(
                cx,
                id,
                func,
                pos,
                ordinality,
                inputs,
                tape,
                u,
                i + 1,
                sets.push(ExpansionView { scalars: inputs[i as int].scalars, pos, elements, extra }),
            ),
            ElementsStep::Stop(f) => f,
        }
    }
}

/// The rows, unless there was a further one, which failed.
pub open spec fn all_or_fail(all: bool, flow: FlowView) -> FlowView {
    match flow {
        FlowView::Rows(_, _, used) => if all {
            flow
        } else {
            exec::failing(Failure::Outside, used)
        },
        other => other,
    }
}

/// Expand the sets of a set-returning projection of an executed child. A row that cannot be evaluated
/// fails the projection once the rows before it have been expanded.
pub open spec fn expand_step(
    cx: ContextView,
    id: u64,
    func: SetFunc,
    pos: usize,
    ordinality: bool,
    child: FlowView,
    tape: Tape,
) -> FlowView {
    match child {
        FlowView::Rows(rows, None, used) => if used >= tape.len() {
            exec::asking(cx, id, AskView::SetInput(rows))
        } else {
            match tape[used as int] {
                AnswerView::SetInputs(inputs) => if inputs.len() > rows.len() {
                    exec::failing(Failure::BadAnswer, used + 1)
                } else {
                    all_or_fail(
                        inputs.len() == rows.len(),
                        sets_from(
                            cx,
                            id,
                            func,
                            pos,
                            ordinality,
                            inputs,
                            tape,
                            used + 1,
                            0,
                            Seq::empty(),
                        ),
                    )
                },
                AnswerView::Failed => exec::failing(Failure::Outside, used + 1),
                _ => exec::failing(Failure::BadAnswer, used + 1),
            }
        },
        other => other,
    }
}

fn copy_texts(texts: &Vec<Option<String>>) -> (r: Vec<Option<String>>)
    ensures
        r.deep_view() == texts.deep_view(),
{
    let mut out: Vec<Option<String>> = Vec::new();
    let mut i: usize = 0;
    while i < texts.len()
        invariant
            i <= texts@.len(),
            out@.len() == i,
            forall|k: int| 0 <= k < i ==> (#[trigger] out@[k]).deep_view() == texts@[k].deep_view(),
        decreases texts@.len() - i,
    {
        match &texts[i] {
            Some(s) => {
                out.push(Some(s.clone()));
            },
            None => {
                out.push(None);
            },
        }
        i += 1;
    }
    assert(out.deep_view() =~= texts.deep_view());
    out
}

fn copy_names(names: &Vec<String>) -> (r: Vec<String>)
    ensures
        r.deep_view() == names.deep_view(),
{
    let mut out: Vec<String> = Vec::new();
    let mut i: usize = 0;
    while i < names.len()
        invariant
            i <= names@.len(),
            out@.len() == i,
            forall|k: int| 0 <= k < i ==> (#[trigger] out@[k])@ == names@[k]@,
        decreases names@.len() - i,
    {
        out.push(names[i].clone());
        i += 1;
    }
    assert(out.deep_view() =~= names.deep_view());
    out
}

fn no_columns() -> (r: Vec<Vec<Value>>)
    ensures
        r.deep_view() == Seq::<Seq<ValueView>>::empty(),
{
    let out: Vec<Vec<Value>> = Vec::new();
    assert(out.deep_view() =~= Seq::<Seq<ValueView>>::empty());
    out
}

fn one_column(column: Vec<Value>) -> (r: Vec<Vec<Value>>)
    ensures
        r.deep_view() == seq![column.deep_view()],
{
    let ghost cv = column.deep_view();
    let mut out: Vec<Vec<Value>> = Vec::new();
    out.push(column);
    assert(out.deep_view() =~= seq![cv]);
    out
}

fn do_task(cx: &Context, id: u64, func: SetFunc, task: SetTask, tape: &Vec<Answer>, used: usize) -> (r: Result<
    (Vec<Value>, Vec<Vec<Value>>, usize),
    Flow,
>)
    ensures
        match task_step(cx@, id, func, task@, tape.deep_view(), used as nat) {
            ElementsStep::Elements(es, extra, u) => r matches Ok(x) && x.0.deep_view() == es
                && x.1.deep_view() == extra && x.2 == u,
            ElementsStep::Stop(f) => r matches Err(flow) && flow@ == f,
        },
{
    if used >= tape.len() {
        return Err(exec::needs(cx, id, Ask::SetTask(task)));
    }
    assert(tape.deep_view()[used as int] == tape@[used as int]@);
    match &tape[used] {
        Answer::Failed => Err(exec::fail(Failure::Outside, used + 1)),
        Answer::Values(vs) => match &task {
            SetTask::MatchPattern { .. } => Ok((sort::clone_row(vs), no_columns(), used + 1)),
            _ => Err(exec::fail(Failure::BadAnswer, used + 1)),
        },
        Answer::Times(nexts) => match &task {
            SetTask::Temporal { start, stop, tzaware, .. } => {
                match series::generate_series_temporal(*start, *stop, nexts, *tzaware) {
                    Ok(TemporalSeries::Complete(vs)) => Ok((vs, no_columns(), used + 1)),
                    Ok(TemporalSeries::Needs(_)) => Err(exec::fail(Failure::Outside, used + 1)),
                    Err(e) => Err(exec::fail(refuse(e), used + 1)),
                }
            },
            _ => Err(exec::fail(Failure::BadAnswer, used + 1)),
        },
        Answer::Members(members) => {
            let asked: bool = match &task {
                SetTask::JsonMembers(_) | SetTask::JsonMembersText(_) => true,
                _ => false,
            };
            if !asked {
                return Err(exec::fail(Failure::BadAnswer, used + 1));
            }
            let own: Option<(Vec<String>, Vec<Option<String>>)> = match members {
                Some(m) => Some((copy_names(&m.0), copy_texts(&m.1))),
                None => None,
            };
            let ghost ov = own;
            match series::wrap_pairs(func, own) {
                Ok((names, values)) => {
                    proof {
                        let m = ov->Some_0;
                        assert(names.deep_view() =~= m.0.deep_view().map_values(
                            |k: Seq<char>| ValueView::Text(k),
                        ));
                        assert(values.deep_view() =~= m.1.deep_view().map_values(
                            |v: Option<Seq<char>>| series::element(member_kind(func), v),
                        ));
                    }
                    Ok((names, one_column(values), used + 1))
                },
                Err(e) => Err(exec::fail(refuse(e), used + 1)),
            }
        },
        Answer::Found(found) => match kind_of(&task) {
            None => Err(exec::fail(Failure::BadAnswer, used + 1)),
            Some(kind) => match found {
                Some(texts) => {
                    let own = copy_texts(texts);
                    let ghost ov = own;
                    let elements = series::wrap_elements(kind, own);
                    assert(elements.deep_view() =~= ov.deep_view().map_values(
                        |t: Option<Seq<char>>| series::element(kind, t),
                    ));
                    Ok((elements, no_columns(), used + 1))
                },
                None => {
                    let none: Vec<Value> = Vec::new();
                    assert(none.deep_view() =~= Seq::<ValueView>::empty());
                    Ok((none, no_columns(), used + 1))
                },
            },
        },
        _ => Err(exec::fail(Failure::BadAnswer, used + 1)),
    }
}

fn find_elements(
    cx: &Context,
    id: u64,
    func: SetFunc,
    args: &Vec<Value>,
    tape: &Vec<Answer>,
    used: usize,
) -> (r: Result<(Vec<Value>, Vec<Vec<Value>>, usize), Flow>)
    ensures
        match elements_step(cx@, id, func, args.deep_view(), tape.deep_view(), used as nat) {
            ElementsStep::Elements(es, extra, u) => r matches Ok(x) && x.0.deep_view() == es
                && x.1.deep_view() == extra && x.2 == u,
            ElementsStep::Stop(f) => r matches Err(flow) && flow@ == f,
        },
{
    let several: bool = match func {
        SetFunc::Unnest => args.len() > 1,
        _ => false,
    };
    if several {
        let mut columns = series::eval_unnest_multi(args);
        let ghost all = columns.deep_view();
        let ghost each = args.deep_view().map_values(|v: ValueView| series::unnested(v));
        let ghost n = series::longest(each, each.len());
        let first = columns.remove(0);
        assert(first.deep_view() == all[0]);
        proof {
            let want = Seq::new(
                (args.deep_view().len() - 1) as nat,
                |i: int| series::padded(each[i + 1], n),
            );
            assert forall|i: int| 0 <= i < want.len() implies columns.deep_view()[i] == want[i] by {
                assert(columns.deep_view()[i] == all[i + 1]);
            }
            assert(columns.deep_view() =~= want);
        }
        return Ok((first, columns, used));
    }
    let pairs: bool = match func {
        SetFunc::JsonEach | SetFunc::JsonEachText => true,
        _ => false,
    };
    let step = if pairs {
        series::eval_set_returning_pairs(func, args)
    } else {
        series::eval_set_returning(func, args)
    };
    match step {
        Ok(SetStep::Elements(elements)) => {
            let extra = if pairs {
                let none: Vec<Value> = Vec::new();
                assert(none.deep_view() =~= Seq::<ValueView>::empty());
                one_column(none)
            } else {
                no_columns()
            };
            Ok((elements, extra, used))
        },
        Ok(SetStep::Ask(task)) => do_task(cx, id, func, task, tape, used),
        Err(e) => Err(exec::fail(refuse(e), used)),
    }
}

pub(crate) fn expand_flow(
    cx: &Context,
    id: u64,
    func: SetFunc,
    pos: usize,
    ordinality: bool,
    child: Flow,
    tape: &Vec<Answer>,
) -> (r: Flow)
    ensures
        r@ == expand_step(cx@, id, func, pos, ordinality, child@, tape.deep_view()),
{
    let ghost want = expand_step(cx@, id, func, pos, ordinality, child@, tape.deep_view());
    match child {
        Flow::Rows { rows, failed: None, used } => {
            if used >= tape.len() {
                return exec::needs(cx, id, Ask::SetInput(rows));
            }
            assert(tape.deep_view()[used as int] == tape@[used as int]@);
            match &tape[used] {
                Answer::SetInputs(inputs) => {
                    if inputs.len() > rows.len() {
                        return exec::fail(Failure::BadAnswer, used + 1);
                    }
                    let ghost iv = inputs.deep_view();
                    let whole: bool = inputs.len() == rows.len();
                    let mut sets: Vec<Expansion> = Vec::new();
                    let mut at: usize = used + 1;
                    let mut i: usize = 0;
                    assert(sets.deep_view() =~= Seq::empty());
                    while i < inputs.len()
                        invariant
                            want == expand_step(
                                cx@,
                                id,
                                func,
                                pos,
                                ordinality,
                                child@,
                                tape.deep_view(),
                            ),
                            iv == inputs.deep_view(),
                            i <= inputs@.len(),
                            whole == (iv.len() == rows.deep_view().len()),
                            want == all_or_fail(whole, sets_from(
                                cx@,
                                id,
                                func,
                                pos,
                                ordinality,
                                iv,
                                tape.deep_view(),
                                at as nat,
                                i as nat,
                                sets.deep_view(),
                            )),
                        decreases inputs@.len() - i,
                    {
                        assert(iv[i as int] == inputs@[i as int].deep_view());
                        match find_elements(cx, id, func, &inputs[i].args, tape, at) {
                            Ok((elements, extra, u)) => {
                                let ghost before = sets.deep_view();
                                let set = Expansion {
                                    scalars: sort::clone_row(&inputs[i].scalars),
                                    pos,
                                    elements,
                                    extra,
                                };
                                let ghost sv = set@;
                                sets.push(set);
                                assert(sets.deep_view() =~= before.push(sv));
                                at = u;
                            },
                            Err(flow) => {
                                return flow;
                            },
                        }
                        i += 1;
                    }
                    if !whole {
                        return exec::fail(Failure::Outside, at);
                    }
                    let out = operators::expand_sets(&sets, ordinality);
                    Flow::Rows { rows: out, failed: None, used: at }
                },
                Answer::Failed => exec::fail(Failure::Outside, used + 1),
                _ => exec::fail(Failure::BadAnswer, used + 1),
            }
        },
        other => other,
    }
}

} // verus!
