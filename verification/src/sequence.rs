//! Sequence calls (`nextval`, `currval`, `setval`) in expressions.
use vstd::prelude::*;
use crate::error::{Error, SequenceError};
use crate::expr;
use crate::expr::{Expr, ExprView, NodeView, Op, ScalarFunc};
use crate::value::{Value, ValueView};

pub mod meaning;

verus! {

/// How far resolving gets with the answers at hand.
pub enum SeqResolved {
    Done { expr: ExprView, used: nat },
    /// The result of this call on these operands is needed next.
    Needs { func: ScalarFunc, args: Seq<ExprView> },
}

pub enum SeqResolvedAll {
    Done { exprs: Seq<ExprView>, used: nat },
    Stopped(SeqResolved),
}

pub open spec fn sequence_func(n: NodeView) -> ScalarFunc {
    match n {
        NodeView::Op(Op::ScalarFunction(f)) => f,
        _ => ScalarFunc::Other(0),
    }
}

/// `e` with its sequence calls replaced by their results, operands first and from left to right.
/// Subqueries are left alone.
pub open spec fn resolve(e: ExprView, answers: Seq<i64>, used: nat) -> SeqResolved
    decreases e, 0nat,
{
    if expr::is_subquery(e.node) {
        SeqResolved::Done { expr: e, used }
    } else {
        match resolve_all(e.children, e.children.len(), answers, used) {
            SeqResolvedAll::Done { exprs, used } => if !expr::is_sequence_func(e.node) {
                SeqResolved::Done { expr: ExprView { node: e.node, ty: e.ty, children: exprs }, used }
            } else if used >= answers.len() {
                SeqResolved::Needs { func: sequence_func(e.node), args: exprs }
            } else {
                SeqResolved::Done {
                    expr: expr::literal(ValueView::Int(answers[used as int]), e.ty),
                    used: used + 1,
                }
            },
            SeqResolvedAll::Stopped(r) => r,
        }
    }
}

/// `resolve` for the first `n` of `es`, one after the other.
pub open spec fn resolve_all(es: Seq<ExprView>, n: nat, answers: Seq<i64>, used: nat) -> SeqResolvedAll
    decreases es, n,
{
    if n == 0 || n > es.len() {
        SeqResolvedAll::Done { exprs: Seq::empty(), used }
    } else {
        match resolve_all(es, (n - 1) as nat, answers, used) {
            SeqResolvedAll::Done { exprs, used } => match resolve(es[n - 1], answers, used) {
                SeqResolved::Done { expr, used } => SeqResolvedAll::Done {
                    exprs: exprs.push(expr),
                    used,
                },
                r => SeqResolvedAll::Stopped(r),
            },
            stopped => stopped,
        }
    }
}

/// How far `resolve_sequence_calls` got.
#[derive(Debug, PartialEq, Eq)]
pub enum SequenceResolution {
    /// The rewritten expression, and how many answers were used.
    Complete { expr: Expr, used: usize },
    /// Make this call next.
    Needs { func: ScalarFunc, args: Vec<Expr> },
}

/// `expr` with its sequence calls replaced by their results.
///
/// `answers` holds the results of the calls made so far, in the order in which they were asked for;
/// as long as one is missing the result is the call to make next. An expression is to be resolved
/// only where it is evaluated exactly once, so that each call advances its sequence once.
pub fn resolve_sequence_calls(expr: &Expr, answers: &Vec<i64>, used: usize) -> (r: SequenceResolution)
    requires
        used <= answers@.len(),
    ensures
        match resolve(expr@, answers@, used as nat) {
            SeqResolved::Done { expr: x, used: n } => r matches SequenceResolution::Complete {
                expr: e,
                used: u,
            } && e@ == x && u == n && u <= answers@.len(),
            SeqResolved::Needs { func, args } => r matches SequenceResolution::Needs {
                func: f,
                args: a,
            } && f == func && a.deep_view() == args,
        },
    decreases expr,
{
    proof {
        expr::lemma_expr_view(*expr);
    }
    if expr::node_plan(&expr.node).is_some() {
        return SequenceResolution::Complete { expr: expr.clone(), used };
    }
    let ghost kids = expr@.children;
    let mut out: Vec<Expr> = Vec::new();
    let mut k: usize = used;
    let mut i: usize = 0;
    assert(out.deep_view() =~= Seq::<ExprView>::empty());
    while i < expr.children.len()
        invariant
            kids == expr.children.deep_view(),
            kids == expr@.children,
            !expr::is_subquery(expr@.node),
            i <= expr.children@.len(),
            k <= answers@.len(),
            resolve_all(kids, i as nat, answers@, used as nat) matches SeqResolvedAll::Done {
                exprs,
                used: u,
            } && exprs == out.deep_view() && u == k,
        decreases expr.children@.len() - i,
    {
        assert(decreases_to!(*expr => expr.children));
        assert(decreases_to!(expr.children => expr.children[i as int]));
        assert(kids[i as int] == expr.children@[i as int]@);
        let ghost before = out.deep_view();
        match resolve_sequence_calls(&expr.children[i], answers, k) {
            SequenceResolution::Complete { expr: e, used: u } => {
                out.push(e);
                k = u;
                assert(out.deep_view() =~= before.push(e@));
            },
            other => {
                proof {
                    lemma_resolve_all_stops(kids, (i + 1) as nat, kids.len(), answers@, used as nat);
                }
                return other;
            },
        }
        i += 1;
    }
    match expr::node_is_sequence(&expr.node) {
        Some(func) => {
            if k >= answers.len() {
                return SequenceResolution::Needs { func, args: out };
            }
            SequenceResolution::Complete {
                expr: expr::literal_expr(Value::Int(answers[k]), expr.ty),
                used: k + 1,
            }
        },
        None => {
            let r = Expr { node: expr.node.clone(), ty: expr.ty, children: out };
            proof {
                expr::lemma_expr_view(r);
            }
            SequenceResolution::Complete { expr: r, used: k }
        },
    }
}

proof fn lemma_resolve_all_stops(es: Seq<ExprView>, k: nat, n: nat, answers: Seq<i64>, used: nat)
    requires
        k <= n <= es.len(),
        resolve_all(es, k, answers, used) is Stopped,
    ensures
        resolve_all(es, n, answers, used) == resolve_all(es, k, answers, used),
    decreases n,
{
    if k < n {
        lemma_resolve_all_stops(es, k, (n - 1) as nat, answers, used);
    }
}

/// Once an expression is resolved it holds no sequence call in its own scope.
pub proof fn law_no_sequence_call_left(e: ExprView, answers: Seq<i64>, used: nat)
    ensures
        resolve(e, answers, used) matches SeqResolved::Done { expr, used: u }
            ==> !expr::has_sequence_call(expr) && expr.ty == e.ty && u >= used,
    decreases e, 0nat,
{
    if !expr::is_subquery(e.node) {
        lemma_all_resolved(e.children, e.children.len(), answers, used);
    }
}

proof fn lemma_all_resolved(es: Seq<ExprView>, n: nat, answers: Seq<i64>, used: nat)
    requires
        n <= es.len(),
    ensures
        match resolve_all(es, n, answers, used) {
            SeqResolvedAll::Done { exprs, used: u } => exprs.len() == n && u >= used && forall|i: int|
                0 <= i < n ==> !expr::has_sequence_call(#[trigger] exprs[i]),
            SeqResolvedAll::Stopped(r) => !(r is Done),
        },
    decreases es, n,
{
    if n > 0 {
        lemma_all_resolved(es, (n - 1) as nat, answers, used);
        if let SeqResolvedAll::Done { exprs, used: u } = resolve_all(
            es,
            (n - 1) as nat,
            answers,
            used,
        ) {
            law_no_sequence_call_left(es[n - 1], answers, u);
        }
    }
}

/// An expression that holds no sequence call in its own scope is left as it is, and no answer is used.
pub proof fn law_without_calls_nothing_changes(e: ExprView, answers: Seq<i64>, used: nat)
    requires
        !expr::has_sequence_call(e),
    ensures
        resolve(e, answers, used) == (SeqResolved::Done { expr: e, used }),
    decreases e, 0nat,
{
    if !expr::is_subquery(e.node) {
        assert forall|i: int| 0 <= i < e.children.len() implies !expr::has_sequence_call(
            #[trigger] e.children[i],
        ) by {}
        lemma_nothing_changes(e.children, e.children.len(), answers, used);
        assert(e.children.take(e.children.len() as int) =~= e.children);
    }
}

proof fn lemma_nothing_changes(es: Seq<ExprView>, n: nat, answers: Seq<i64>, used: nat)
    requires
        n <= es.len(),
        forall|i: int| 0 <= i < es.len() ==> !expr::has_sequence_call(#[trigger] es[i]),
    ensures
        resolve_all(es, n, answers, used) == (SeqResolvedAll::Done { exprs: es.take(n as int), used }),
    decreases es, n,
{
    if n > 0 {
        lemma_nothing_changes(es, (n - 1) as nat, answers, used);
        law_without_calls_nothing_changes(es[n - 1], answers, used);
        assert(es.take(n as int) =~= es.take(n - 1).push(es[n - 1]));
    } else {
        assert(es.take(0) =~= Seq::<ExprView>::empty());
    }
}

/// How many sequence calls `e` makes in its own scope.
pub open spec fn call_count(e: ExprView) -> nat
    decreases e, 0nat,
{
    if expr::is_subquery(e.node) {
        0
    } else {
        count_all(e.children, e.children.len()) + if expr::is_sequence_func(e.node) {
            1nat
        } else {
            0nat
        }
    }
}

pub open spec fn count_all(es: Seq<ExprView>, n: nat) -> nat
    decreases es, n,
{
    if n == 0 || n > es.len() {
        0
    } else {
        count_all(es, (n - 1) as nat) + call_count(es[n - 1])
    }
}

/// Resolving makes each call exactly once: it uses as many answers as there are calls, and with
/// that many at hand it completes.
pub proof fn law_each_call_once(e: ExprView, answers: Seq<i64>, used: nat)
    requires
        used <= answers.len(),
    ensures
        used + call_count(e) <= answers.len() <==> resolve(e, answers, used) is Done,
        resolve(e, answers, used) matches SeqResolved::Done { used: u, .. } ==> u == used
            + call_count(e),
    decreases e, 0nat,
{
    if !expr::is_subquery(e.node) {
        lemma_each_call_once(e.children, e.children.len(), answers, used);
    }
}

proof fn lemma_each_call_once(es: Seq<ExprView>, n: nat, answers: Seq<i64>, used: nat)
    requires
        n <= es.len(),
        used <= answers.len(),
    ensures
        used + count_all(es, n) <= answers.len() <==> resolve_all(es, n, answers, used) is Done,
        match resolve_all(es, n, answers, used) {
            SeqResolvedAll::Done { used: u, .. } => u == used + count_all(es, n),
            SeqResolvedAll::Stopped(r) => !(r is Done),
        },
    decreases es, n,
{
    if n > 0 {
        lemma_each_call_once(es, (n - 1) as nat, answers, used);
        if let SeqResolvedAll::Done { used: u, .. } = resolve_all(
            es,
            (n - 1) as nat,
            answers,
            used,
        ) {
            law_each_call_once(es[n - 1], answers, u);
        }
    }
}

// ---------------------------------------------------------------- one call

/// What a sequence call asks of the sequence store.
#[derive(Debug, PartialEq, Eq)]
pub enum SequenceAction {
    /// Advance the sequence and return the new value.
    Next(u64),
    /// Return the current value.
    Current(u64),
    /// Make this the current value, and return it.
    Assign(u64, i64),
}

/// The name that a sequence call gives: its first argument, which must be text.
pub fn sequence_name(args: &Vec<Value>) -> (r: Result<String, Error>)
    ensures
        args@.len() == 0 ==> r == Err::<String, Error>(Error::Sequence(SequenceError::NameMissing)),
        args@.len() > 0 && args@[0] is Null ==> r == Err::<String, Error>(
            Error::Sequence(SequenceError::NameIsNull),
        ),
        args@.len() > 0 && !(args@[0] is Null) && !(args@[0] is Text) ==> r == Err::<String, Error>(
            Error::Sequence(SequenceError::NameNotText),
        ),
        args@.len() > 0 && args@[0] is Text ==> (r matches Ok(s) && s@ == args@[0]->Text_0@),
{
    if args.len() == 0 {
        return Err(Error::Sequence(SequenceError::NameMissing));
    }
    match &args[0] {
        Value::Text(s) => Ok(s.clone()),
        Value::Null => Err(Error::Sequence(SequenceError::NameIsNull)),
        _ => Err(Error::Sequence(SequenceError::NameNotText)),
    }
}

/// Why a call of `func` on `args`, with a name that is in order, is refused.
pub open spec fn call_refusal(func: ScalarFunc, args: Seq<Value>) -> Option<SequenceError> {
    if func is Other {
        Some(SequenceError::NotSequence)
    } else if !(func is SequenceSet) {
        None
    } else if args.len() > 1 && args[1] is Null {
        Some(SequenceError::TargetIsNull)
    } else if args.len() <= 1 || !(args[1] is Int) {
        Some(SequenceError::TargetNotInteger)
    } else if args.len() <= 2 || args[2] == Value::Bool(true) {
        None
    } else if args[2] == Value::Bool(false) {
        Some(SequenceError::CalledFalse)
    } else if args[2] is Null {
        Some(SequenceError::CalledIsNull)
    } else {
        Some(SequenceError::CalledNotBool)
    }
}

/// What the call of `func` on the evaluated `args` asks of the sequence store, `id` being the
/// sequence that goes by the name in the first argument.
///
/// Refused when the name is not in order or names no sequence, and then when the other arguments of
/// `setval` are not in order; only its default `is_called = true` is supported.
pub fn eval_sequence_call(func: ScalarFunc, args: &Vec<Value>, id: Option<u64>) -> (r: Result<
    SequenceAction,
    Error,
>)
    ensures
        args@.len() == 0 ==> r == Err::<SequenceAction, Error>(
            Error::Sequence(SequenceError::NameMissing),
        ),
        args@.len() > 0 && args@[0] is Null ==> r == Err::<SequenceAction, Error>(
            Error::Sequence(SequenceError::NameIsNull),
        ),
        args@.len() > 0 && !(args@[0] is Null) && !(args@[0] is Text) ==> r == Err::<
            SequenceAction,
            Error,
        >(Error::Sequence(SequenceError::NameNotText)),
        args@.len() > 0 && args@[0] is Text && id is None ==> (r matches Err(
            Error::Sequence(SequenceError::NotFound(n)),
        ) && n@ == args@[0]->Text_0@),
        args@.len() > 0 && args@[0] is Text && id is Some ==> match call_refusal(func, args@) {
            Some(e) => r == Err::<SequenceAction, Error>(Error::Sequence(e)),
            None => r == Ok::<SequenceAction, Error>(
                match func {
                    ScalarFunc::SequenceNext => SequenceAction::Next(id->0),
                    ScalarFunc::SequenceCurrent => SequenceAction::Current(id->0),
                    _ => SequenceAction::Assign(id->0, args@[1]->Int_0),
                },
            ),
        },
{
    let name = match sequence_name(args) {
        Ok(n) => n,
        Err(e) => {
            return Err(e);
        },
    };
    let id: u64 = match id {
        Some(id) => id,
        None => {
            return Err(Error::Sequence(SequenceError::NotFound(name)));
        },
    };
    match func {
        ScalarFunc::SequenceNext => Ok(SequenceAction::Next(id)),
        ScalarFunc::SequenceCurrent => Ok(SequenceAction::Current(id)),
        ScalarFunc::SequenceSet => {
            if args.len() <= 1 {
                return Err(Error::Sequence(SequenceError::TargetNotInteger));
            }
            let value: i64 = match &args[1] {
                Value::Int(v) => *v,
                Value::Null => {
                    return Err(Error::Sequence(SequenceError::TargetIsNull));
                },
                _ => {
                    return Err(Error::Sequence(SequenceError::TargetNotInteger));
                },
            };
            if args.len() > 2 {
                match &args[2] {
                    Value::Bool(true) => {},
                    Value::Bool(false) => {
                        return Err(Error::Sequence(SequenceError::CalledFalse));
                    },
                    Value::Null => {
                        return Err(Error::Sequence(SequenceError::CalledIsNull));
                    },
                    _ => {
                        return Err(Error::Sequence(SequenceError::CalledNotBool));
                    },
                }
            }
            Ok(SequenceAction::Assign(id, value))
        },
        ScalarFunc::Other(_) => Err(Error::Sequence(SequenceError::NotSequence)),
    }
}

} // verus!
