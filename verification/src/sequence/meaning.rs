//! What sequence calls come to.
use vstd::prelude::*;
use crate::error::SequenceError;
use crate::expr;
use crate::expr::{ExprView, NodeView, Op, ScalarFunc};
use crate::sequence;
use crate::sequence::SeqResolved;
use crate::types::ColumnType;
use crate::value::{Value, ValueView};

verus! {

/// A call of a sequence function.
pub open spec fn call(func: ScalarFunc, ty: ColumnType, args: Seq<ExprView>) -> ExprView {
    ExprView { node: NodeView::Op(Op::ScalarFunction(func)), ty, children: args }
}

/// The function is `nextval`, `currval` or `setval`.
pub open spec fn of_sequences(func: ScalarFunc) -> bool {
    func is SequenceNext || func is SequenceCurrent || func is SequenceSet
}

/// A call whose arguments hold none becomes the constant that it gave, and uses up one answer; while that
/// is not there it is asked for, with its function and its arguments.
pub proof fn law_calls_become_what_they_gave(
    func: ScalarFunc,
    ty: ColumnType,
    args: Seq<ExprView>,
    answers: Seq<i64>,
    used: nat,
)
    requires
        of_sequences(func),
        forall|i: int| 0 <= i < args.len() ==> !expr::has_sequence_call(#[trigger] args[i]),
    ensures
        used < answers.len() ==> (sequence::resolve(call(func, ty, args), answers, used) matches SeqResolved::Done {
            expr: x,
            used: u,
        } && u == used + 1 && x.node == NodeView::Literal(ValueView::Int(answers[used as int])) && x.ty == ty
            && x.children.len() == 0),
        used >= answers.len() ==> sequence::resolve(call(func, ty, args), answers, used) == (SeqResolved::Needs {
            func,
            args,
        }),
{
    lemma_args_unchanged(args, args.len(), answers, used);
    assert(args.take(args.len() as int) =~= args);
}

proof fn lemma_args_unchanged(es: Seq<ExprView>, n: nat, answers: Seq<i64>, used: nat)
    requires
        n <= es.len(),
        forall|i: int| 0 <= i < es.len() ==> !expr::has_sequence_call(#[trigger] es[i]),
    ensures
        sequence::resolve_all(es, n, answers, used) == (sequence::SeqResolvedAll::Done {
            exprs: es.take(n as int),
            used,
        }),
    decreases n,
{
    if n > 0 {
        lemma_args_unchanged(es, (n - 1) as nat, answers, used);
        sequence::law_without_calls_nothing_changes(es[n - 1], answers, used);
        assert(es.take(n as int) =~= es.take(n - 1).push(es[n - 1]));
    } else {
        assert(es.take(0) =~= Seq::<ExprView>::empty());
    }
}

/// Calls are made from left to right: of two operands that are calls, the left one gets the first answer.
pub proof fn law_calls_are_made_from_left_to_right(
    op: Op,
    ty: ColumnType,
    f: ScalarFunc,
    g: ScalarFunc,
    t: ColumnType,
    none: Seq<ExprView>,
    answers: Seq<i64>,
    used: nat,
)
    requires
        none.len() == 0,
        of_sequences(f),
        of_sequences(g),
        !expr::is_subquery(NodeView::Op(op)),
        !expr::is_sequence_func(NodeView::Op(op)),
        used + 2 <= answers.len(),
    ensures
        ({
            let e = ExprView {
                node: NodeView::Op(op),
                ty,
                children: seq![call(f, t, none), call(g, t, none)],
            };
            sequence::resolve(e, answers, used) matches SeqResolved::Done { expr: x, used: u } && u == used + 2
                && x.node == e.node && x.ty == ty && x.children.len() == 2 && x.children[0].node
                == NodeView::Literal(ValueView::Int(answers[used as int])) && x.children[1].node
                == NodeView::Literal(ValueView::Int(answers[used as int + 1]))
        }),
{
    let a = call(f, t, none);
    let b = call(g, t, none);
    let es = seq![a, b];
    law_calls_become_what_they_gave(f, t, none, answers, used);
    law_calls_become_what_they_gave(g, t, none, answers, used + 1);
    assert(es[0] == a && es[1] == b);
    let x = sequence::resolve(a, answers, used)->Done_expr;
    let y = sequence::resolve(b, answers, used + 1)->Done_expr;
    assert(sequence::resolve_all(es, 0, answers, used) == (sequence::SeqResolvedAll::Done {
        exprs: Seq::empty(),
        used,
    }));
    assert(sequence::resolve_all(es, 1, answers, used) == (sequence::SeqResolvedAll::Done {
        exprs: Seq::empty().push(x),
        used: used + 1,
    }));
    assert(sequence::resolve_all(es, 2, answers, used) == (sequence::SeqResolvedAll::Done {
        exprs: Seq::empty().push(x).push(y),
        used: used + 2,
    }));
    let e = ExprView { node: NodeView::Op(op), ty, children: es };
    assert(e.children.len() == 2);
}

/// `nextval` and `currval` are never refused for their arguments. `setval` is refused unless its target is
/// an integer, and for an `is_called` that is not true.
pub proof fn law_setval_wants_an_integer(func: ScalarFunc, name: Value, target: Value, called: Value)
    ensures
        func is SequenceNext || func is SequenceCurrent ==> sequence::call_refusal(func, seq![name, target])
            is None && sequence::call_refusal(func, seq![name]) is None,
        func is Other ==> sequence::call_refusal(func, seq![name]) == Some(SequenceError::NotSequence),
        func is SequenceSet ==> {
            &&& sequence::call_refusal(func, seq![name]) == Some(SequenceError::TargetNotInteger)
            &&& target is Null ==> sequence::call_refusal(func, seq![name, target]) == Some(
                SequenceError::TargetIsNull,
            )
            &&& !(target is Null) && !(target is Int) ==> sequence::call_refusal(func, seq![name, target])
                == Some(SequenceError::TargetNotInteger)
            &&& target is Int ==> sequence::call_refusal(func, seq![name, target]) is None
            &&& target is Int && called == Value::Bool(true) ==> sequence::call_refusal(
                func,
                seq![name, target, called],
            ) is None
            &&& target is Int && called == Value::Bool(false) ==> sequence::call_refusal(
                func,
                seq![name, target, called],
            ) == Some(SequenceError::CalledFalse)
            &&& target is Int && called is Null ==> sequence::call_refusal(func, seq![name, target, called])
                == Some(SequenceError::CalledIsNull)
            &&& target is Int && !(called is Null) && !(called is Bool) ==> sequence::call_refusal(
                func,
                seq![name, target, called],
            ) == Some(SequenceError::CalledNotBool)
        },
{
}

} // verus!
