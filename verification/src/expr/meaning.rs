//! What expressions whose subqueries have been resolved come to, in three-valued logic.
use vstd::prelude::*;
use crate::expr;
use crate::expr::{Answers, BinaryOp, Expr, ExprView, Node, NodeView, Op, PlanId, Resolved, SelectPlan};
use crate::types::ColumnType;
use crate::value::ValueView;

verus! {

/// An evaluator: what an expression's value is, and how values compare; `None` stands for unknown.
pub struct Evaluation {
    pub value: spec_fn(ExprView) -> ValueView,
    pub compare: spec_fn(BinaryOp, ValueView, ValueView) -> Option<bool>,
}

/// True where both are, false where one is, else unknown.
pub open spec fn both(a: Option<bool>, b: Option<bool>) -> Option<bool> {
    if a == Some(true) && b == Some(true) {
        Some(true)
    } else if a == Some(false) || b == Some(false) {
        Some(false)
    } else {
        None
    }
}

/// True where one is, false where both are, else unknown.
pub open spec fn either(a: Option<bool>, b: Option<bool>) -> Option<bool> {
    if a == Some(true) || b == Some(true) {
        Some(true)
    } else if a == Some(false) && b == Some(false) {
        Some(false)
    } else {
        None
    }
}

/// What the operand of a comparison is: a constant itself.
pub open spec fn operand(ev: Evaluation, e: ExprView) -> ValueView {
    match e.node {
        NodeView::Literal(v) => v,
        _ => (ev.value)(e),
    }
}

/// Whether a condition made of constants, comparisons, `AND`, `OR` and `IN` holds.
pub open spec fn truth(ev: Evaluation, e: ExprView) -> Option<bool>
    decreases e,
{
    match e.node {
        NodeView::Literal(ValueView::Bool(b)) => Some(b),
        NodeView::Op(Op::Binary(BinaryOp::And)) => if e.children.len() == 2 {
            both(truth(ev, e.children[0]), truth(ev, e.children[1]))
        } else {
            None
        },
        NodeView::Op(Op::Binary(BinaryOp::Or)) => if e.children.len() == 2 {
            either(truth(ev, e.children[0]), truth(ev, e.children[1]))
        } else {
            None
        },
        NodeView::Op(Op::Binary(op)) => if e.children.len() == 2 {
            (ev.compare)(op, operand(ev, e.children[0]), operand(ev, e.children[1]))
        } else {
            None
        },
        NodeView::Op(Op::InList { negated }) => if exists|i: int|
            1 <= i < e.children.len() && (ev.compare)(
                BinaryOp::Eq,
                operand(ev, e.children[0]),
                operand(ev, #[trigger] e.children[i]),
            ) == Some(true) {
            Some(!negated)
        } else if forall|i: int|
            1 <= i < e.children.len() ==> (ev.compare)(
                BinaryOp::Eq,
                operand(ev, e.children[0]),
                operand(ev, #[trigger] e.children[i]),
            ) == Some(false) {
            Some(negated)
        } else {
            None
        },
        _ => None,
    }
}

/// How the probe compares with the first value of a row; a row without values counts as NULL.
pub open spec fn compared(ev: Evaluation, probe: ExprView, op: BinaryOp, row: Seq<ValueView>) -> Option<bool> {
    (ev.compare)(
        op,
        operand(ev, probe),
        if row.len() == 0 {
            ValueView::Null
        } else {
            row[0]
        },
    )
}

/// A subquery expression.
pub open spec fn asking(op: Op, ty: ColumnType, probe: Seq<ExprView>) -> ExprView {
    ExprView { node: NodeView::Op(op), ty, children: probe }
}

proof fn lemma_chain(ev: Evaluation, probe: ExprView, op: BinaryOp, all: bool, rows: Seq<Seq<ValueView>>, n: nat)
    requires
        op != BinaryOp::And,
        op != BinaryOp::Or,
        1 <= n <= rows.len(),
    ensures
        ({
            let c = expr::quantified_chain(probe, op, all, rows, n);
            let t = truth(ev, c);
            &&& all ==> (t == Some(true) <==> forall|i: int|
                0 <= i < n ==> compared(ev, probe, op, #[trigger] rows[i]) == Some(true))
            &&& all ==> (t == Some(false) <==> exists|i: int|
                0 <= i < n && compared(ev, probe, op, #[trigger] rows[i]) == Some(false))
            &&& !all ==> (t == Some(true) <==> exists|i: int|
                0 <= i < n && compared(ev, probe, op, #[trigger] rows[i]) == Some(true))
            &&& !all ==> (t == Some(false) <==> forall|i: int|
                0 <= i < n ==> compared(ev, probe, op, #[trigger] rows[i]) == Some(false))
        }),
    decreases n,
{
    let last = expr::quantified_term(probe, op, rows[n - 1]);
    assert(last.children.len() == 2);
    assert(truth(ev, last) == compared(ev, probe, op, rows[n - 1]));
    if n > 1 {
        lemma_chain(ev, probe, op, all, rows, (n - 1) as nat);
        let c = expr::quantified_chain(probe, op, all, rows, n);
        let head = expr::quantified_chain(probe, op, all, rows, (n - 1) as nat);
        assert(c.children.len() == 2 && c.children[0] == head && c.children[1] == last);
        assert(truth(ev, c) == if all {
            both(truth(ev, head), truth(ev, last))
        } else {
            either(truth(ev, head), truth(ev, last))
        });
    }
}

/// `probe op ALL (rows)` is true exactly if the comparison is true for every row, and false exactly if it
/// is false for some row.
pub proof fn law_all_holds_of_every_row(
    ev: Evaluation,
    op: BinaryOp,
    plan: PlanId,
    ty: ColumnType,
    probe: ExprView,
    plans: Seq<SelectPlan>,
    answers: Answers,
    used: nat,
)
    requires
        op != BinaryOp::And,
        op != BinaryOp::Or,
        !expr::has_subquery(probe),
        used < answers.len(),
    ensures
        ({
            let rows = answers[used as int];
            let e = asking(Op::QuantifiedSubquery { op, all: true, plan }, ty, seq![probe]);
            expr::resolve(e, false, plans, answers, used) matches Resolved::Done { expr: x, used: u } && {
                &&& u == used + 1
                &&& x.ty == ty
                &&& truth(ev, x) == Some(true) <==> forall|i: int|
                    0 <= i < rows.len() ==> compared(ev, probe, op, #[trigger] rows[i]) == Some(true)
                &&& truth(ev, x) == Some(false) <==> exists|i: int|
                    0 <= i < rows.len() && compared(ev, probe, op, #[trigger] rows[i]) == Some(false)
            }
        }),
{
    lemma_quantified(ev, op, true, plan, ty, probe, plans, answers, used);
}

/// `probe op ANY (rows)` is true exactly if the comparison is true for some row, and false exactly if it
/// is false for every row.
pub proof fn law_any_holds_of_some_row(
    ev: Evaluation,
    op: BinaryOp,
    plan: PlanId,
    ty: ColumnType,
    probe: ExprView,
    plans: Seq<SelectPlan>,
    answers: Answers,
    used: nat,
)
    requires
        op != BinaryOp::And,
        op != BinaryOp::Or,
        !expr::has_subquery(probe),
        used < answers.len(),
    ensures
        ({
            let rows = answers[used as int];
            let e = asking(Op::QuantifiedSubquery { op, all: false, plan }, ty, seq![probe]);
            expr::resolve(e, false, plans, answers, used) matches Resolved::Done { expr: x, used: u } && {
                &&& u == used + 1
                &&& x.ty == ty
                &&& truth(ev, x) == Some(true) <==> exists|i: int|
                    0 <= i < rows.len() && compared(ev, probe, op, #[trigger] rows[i]) == Some(true)
                &&& truth(ev, x) == Some(false) <==> forall|i: int|
                    0 <= i < rows.len() ==> compared(ev, probe, op, #[trigger] rows[i]) == Some(false)
            }
        }),
{
    lemma_quantified(ev, op, false, plan, ty, probe, plans, answers, used);
}

proof fn lemma_quantified(
    ev: Evaluation,
    op: BinaryOp,
    all: bool,
    plan: PlanId,
    ty: ColumnType,
    probe: ExprView,
    plans: Seq<SelectPlan>,
    answers: Answers,
    used: nat,
)
    requires
        op != BinaryOp::And,
        op != BinaryOp::Or,
        !expr::has_subquery(probe),
        used < answers.len(),
    ensures
        ({
            let rows = answers[used as int];
            let e = asking(Op::QuantifiedSubquery { op, all, plan }, ty, seq![probe]);
            expr::resolve(e, false, plans, answers, used) matches Resolved::Done { expr: x, used: u } && {
                let t = truth(ev, x);
                &&& u == used + 1
                &&& x.ty == ty
                &&& all ==> (t == Some(true) <==> forall|i: int|
                    0 <= i < rows.len() ==> compared(ev, probe, op, #[trigger] rows[i]) == Some(true))
                &&& all ==> (t == Some(false) <==> exists|i: int|
                    0 <= i < rows.len() && compared(ev, probe, op, #[trigger] rows[i]) == Some(false))
                &&& !all ==> (t == Some(true) <==> exists|i: int|
                    0 <= i < rows.len() && compared(ev, probe, op, #[trigger] rows[i]) == Some(true))
                &&& !all ==> (t == Some(false) <==> forall|i: int|
                    0 <= i < rows.len() ==> compared(ev, probe, op, #[trigger] rows[i]) == Some(false))
            }
        }),
{
    let rows = answers[used as int];
    let e = asking(Op::QuantifiedSubquery { op, all, plan }, ty, seq![probe]);
    expr::law_subquery_free_is_unchanged(probe, false, plans, answers, used);
    assert(e.children[0] == probe);
    if rows.len() > 0 {
        lemma_chain(ev, probe, op, all, rows, rows.len());
        let chain = expr::quantified_chain(probe, op, all, rows, rows.len());
        let x = ExprView { node: chain.node, ty, children: chain.children };
        assert(truth(ev, x) == truth(ev, chain));
    }
}

/// `probe IN (rows)` is true exactly if the probe equals some row, and false exactly if it equals none;
/// `NOT IN` is false and true then.
pub proof fn law_in_holds_of_a_row_that_is_equal(
    ev: Evaluation,
    negated: bool,
    plan: PlanId,
    ty: ColumnType,
    probe: ExprView,
    plans: Seq<SelectPlan>,
    answers: Answers,
    used: nat,
)
    requires
        !expr::has_subquery(probe),
        used < answers.len(),
    ensures
        ({
            let rows = answers[used as int];
            let e = asking(Op::InSubquery { plan, negated }, ty, seq![probe]);
            expr::resolve(e, false, plans, answers, used) matches Resolved::Done { expr: x, used: u } && {
                &&& u == used + 1
                &&& x.ty == ty
                &&& truth(ev, x) == Some(!negated) <==> exists|i: int|
                    0 <= i < rows.len() && compared(ev, probe, BinaryOp::Eq, #[trigger] rows[i]) == Some(
                        true,
                    )
                &&& truth(ev, x) == Some(negated) <==> forall|i: int|
                    0 <= i < rows.len() ==> compared(ev, probe, BinaryOp::Eq, #[trigger] rows[i])
                        == Some(false)
            }
        }),
{
    let rows = answers[used as int];
    let e = asking(Op::InSubquery { plan, negated }, ty, seq![probe]);
    expr::law_subquery_free_is_unchanged(probe, false, plans, answers, used);
    assert(e.children[0] == probe);
    let x = expr::answered(e, probe, rows)->Some_0;
    assert(x.children[0] == probe);
    assert(x.children.len() == rows.len() + 1);
    assert forall|i: int| 1 <= i < x.children.len() implies (ev.compare)(
        BinaryOp::Eq,
        operand(ev, x.children[0]),
        operand(ev, #[trigger] x.children[i]),
    ) == compared(ev, probe, BinaryOp::Eq, rows[i - 1]) by {}
    assert forall|i: int| 0 <= i < rows.len() implies compared(ev, probe, BinaryOp::Eq, #[trigger] rows[i])
        == (ev.compare)(BinaryOp::Eq, operand(ev, x.children[0]), operand(ev, x.children[i + 1])) by {}
    if exists|i: int|
        0 <= i < rows.len() && compared(ev, probe, BinaryOp::Eq, #[trigger] rows[i]) == Some(true) {
        let i = choose|i: int|
            0 <= i < rows.len() && compared(ev, probe, BinaryOp::Eq, #[trigger] rows[i]) == Some(true);
        let child = x.children[i + 1];
        assert((ev.compare)(BinaryOp::Eq, operand(ev, x.children[0]), operand(ev, child)) == Some(true));
    }
    if forall|i: int|
        1 <= i < x.children.len() ==> (ev.compare)(
            BinaryOp::Eq,
            operand(ev, x.children[0]),
            operand(ev, #[trigger] x.children[i]),
        ) == Some(false) {
        assert forall|i: int| 0 <= i < rows.len() implies compared(
            ev,
            probe,
            BinaryOp::Eq,
            #[trigger] rows[i],
        ) == Some(false) by {
            let child = x.children[i + 1];
            assert((ev.compare)(BinaryOp::Eq, operand(ev, x.children[0]), operand(ev, child)) == Some(
                false,
            ));
        }
    }
}

/// `EXISTS` is true exactly if there is a row, `NOT EXISTS` exactly if there is none. A scalar subquery is
/// NULL without a row, the first value of its only row, and an error with more rows.
pub proof fn law_rows_decide_exists_and_scalars(
    ev: Evaluation,
    plan: PlanId,
    ty: ColumnType,
    none: Seq<ExprView>,
    plans: Seq<SelectPlan>,
    answers: Answers,
    used: nat,
)
    requires
        none.len() == 0,
        used < answers.len(),
    ensures
        ({
            let rows = answers[used as int];
            let exists_ = asking(Op::Exists { plan, negated: false }, ty, none);
            let lacks = asking(Op::Exists { plan, negated: true }, ty, none);
            let scalar = asking(Op::ScalarSubquery(plan), ty, none);
            &&& expr::resolve(exists_, false, plans, answers, used) matches Resolved::Done { expr: x, used: u }
                && u == used + 1 && x.ty == ty && truth(ev, x) == Some(rows.len() != 0)
            &&& expr::resolve(lacks, false, plans, answers, used) matches Resolved::Done { expr: x, used: u }
                && u == used + 1 && x.ty == ty && truth(ev, x) == Some(rows.len() == 0)
            &&& rows.len() > 1 ==> expr::resolve(scalar, false, plans, answers, used)
                is TooManyRows
            &&& rows.len() <= 1 ==> (expr::resolve(scalar, false, plans, answers, used) matches Resolved::Done {
                expr: x,
                used: u,
            } && u == used + 1 && x.ty == ty && x.node is Literal)
            &&& rows.len() == 0 ==> operand(
                ev,
                expr::resolve(scalar, false, plans, answers, used)->Done_expr,
            ) is Null
            &&& rows.len() == 1 && rows[0].len() > 0 ==> operand(
                ev,
                expr::resolve(scalar, false, plans, answers, used)->Done_expr,
            ) == rows[0][0]
        }),
{
}

/// What is no subquery keeps its operator, its type and its operands, each of them resolved in its place;
/// the operands use up the answers one after the other.
pub proof fn law_operators_keep_their_operands(
    e: ExprView,
    defer: bool,
    plans: Seq<SelectPlan>,
    answers: Answers,
    used: nat,
)
    requires
        !expr::is_subquery(e.node),
    ensures
        expr::resolve(e, defer, plans, answers, used) matches Resolved::Done { expr: x, used: u } ==> {
            &&& x.node == e.node
            &&& x.ty == e.ty
            &&& x.children.len() == e.children.len()
            &&& forall|i: int|
                0 <= i < x.children.len() ==> comes_of(
                    e.children[i],
                    defer,
                    plans,
                    answers,
                    #[trigger] x.children[i],
                )
        },
        e.children.len() > 0 && !(expr::resolve(e.children[0], defer, plans, answers, used) is Done)
            ==> expr::resolve(e, defer, plans, answers, used) == expr::resolve(
            e.children[0],
            defer,
            plans,
            answers,
            used,
        ),
{
    lemma_each_resolved(e.children, e.children.len(), defer, plans, answers, used);
    if let expr::ResolvedAll::Done { exprs, used: u } = expr::resolve_all(
        e.children,
        e.children.len(),
        defer,
        plans,
        answers,
        used,
    ) {
        let x = ExprView { node: e.node, ty: e.ty, children: exprs };
        assert(expr::resolve(e, defer, plans, answers, used) == (Resolved::Done { expr: x, used: u }));
        assert forall|i: int| 0 <= i < x.children.len() implies comes_of(
            e.children[i],
            defer,
            plans,
            answers,
            #[trigger] x.children[i],
        ) by {
            assert(comes_of(e.children[i], defer, plans, answers, exprs[i]));
        }
    }
    if e.children.len() > 0 {
        lemma_first_stops(e.children, e.children.len(), defer, plans, answers, used);
    }
}

/// Resolving the operand with the answers from the `v`-th on gives `x`.
pub open spec fn resolves_to(
    e: ExprView,
    defer: bool,
    plans: Seq<SelectPlan>,
    answers: Answers,
    v: nat,
    x: ExprView,
) -> bool {
    expr::resolve(e, defer, plans, answers, v) matches Resolved::Done { expr, .. } && expr == x
}

/// Resolving the operand with the answers from some place on gives `x`.
pub open spec fn comes_of(
    e: ExprView,
    defer: bool,
    plans: Seq<SelectPlan>,
    answers: Answers,
    x: ExprView,
) -> bool {
    exists|v: nat| #[trigger] resolves_to(e, defer, plans, answers, v, x)
}

proof fn lemma_first_stops(
    es: Seq<ExprView>,
    n: nat,
    defer: bool,
    plans: Seq<SelectPlan>,
    answers: Answers,
    used: nat,
)
    requires
        1 <= n <= es.len(),
    ensures
        !(expr::resolve(es[0], defer, plans, answers, used) is Done) ==> expr::resolve_all(
            es,
            n,
            defer,
            plans,
            answers,
            used,
        ) == expr::ResolvedAll::Stopped(expr::resolve(es[0], defer, plans, answers, used)),
    decreases n,
{
    if n > 1 {
        lemma_first_stops(es, (n - 1) as nat, defer, plans, answers, used);
    } else {
        reveal_with_fuel(expr::resolve_all, 3);
    }
}

proof fn lemma_each_resolved(
    es: Seq<ExprView>,
    n: nat,
    defer: bool,
    plans: Seq<SelectPlan>,
    answers: Answers,
    used: nat,
)
    requires
        n <= es.len(),
    ensures
        expr::resolve_all(es, n, defer, plans, answers, used) matches expr::ResolvedAll::Done { exprs, .. }
            ==> exprs.len() == n && forall|i: int|
            0 <= i < n ==> comes_of(es[i], defer, plans, answers, #[trigger] exprs[i]),
        expr::resolve_all(es, n, defer, plans, answers, used) matches expr::ResolvedAll::Stopped(r) ==> !(
        r is Done),
    decreases n,
{
    if n > 0 {
        lemma_each_resolved(es, (n - 1) as nat, defer, plans, answers, used);
        if let expr::ResolvedAll::Done { exprs: head, used: v } = expr::resolve_all(
            es,
            (n - 1) as nat,
            defer,
            plans,
            answers,
            used,
        ) {
            if let Resolved::Done { expr: x, .. } = expr::resolve(es[n - 1], defer, plans, answers, v) {
                let exprs = head.push(x);
                assert(resolves_to(es[n - 1], defer, plans, answers, v, x));
                assert forall|i: int| 0 <= i < n implies comes_of(
                    es[i],
                    defer,
                    plans,
                    answers,
                    #[trigger] exprs[i],
                ) by {
                    if i < n - 1 {
                        assert(exprs[i] == head[i]);
                    }
                }
            }
        }
    }
}

/// A subquery whose rows are not there yet is asked for by its own plan. With deferring, one that refers
/// to an enclosing query is left as it is.
pub proof fn law_subqueries_are_asked_for(
    e: ExprView,
    defer: bool,
    plans: Seq<SelectPlan>,
    answers: Answers,
    plan: PlanId,
)
    requires
        e.children.len() == 0,
        ({
            ||| e.node == NodeView::Op(Op::ScalarSubquery(plan))
            ||| e.node == NodeView::Op(Op::Exists { plan, negated: true })
            ||| e.node == NodeView::Op(Op::Exists { plan, negated: false })
        }),
    ensures
        defer && expr::plan_outer(plans, plan as nat) ==> expr::resolve(
            e,
            defer,
            plans,
            answers,
            answers.len(),
        ) == (Resolved::Done { expr: e, used: answers.len() }),
        !(defer && expr::plan_outer(plans, plan as nat)) ==> expr::resolve(
            e,
            defer,
            plans,
            answers,
            answers.len(),
        ) == Resolved::Needs(plan),
{
}

// ---------------------------------------------------------------- outer columns

/// The expression is a column of an enclosing query, or has one among its operands.
pub open spec fn names_outer(e: Expr) -> bool
    decreases e,
{
    e.node matches Node::Op(Op::OuterColumn { .. }) || exists|i: int|
        0 <= i < e.children@.len() && names_outer(#[trigger] e.children@[i])
}

/// The expression stands somewhere in the plan.
pub open spec fn stands_in(p: SelectPlan, e: Expr) -> bool {
    ||| p.projection@.contains(e)
    ||| p.filter == Some(e)
    ||| p.having == Some(e)
    ||| p.group_keys@.contains(e)
    ||| p.distinct_on@.contains(e)
    ||| p.order_by@.contains(e)
    ||| exists|i: int| 0 <= i < p.joins@.len() && (#[trigger] p.joins@[i]).on == e
    ||| exists|i: int|
        0 <= i < p.aggregates@.len() && ((#[trigger] p.aggregates@[i]).arg == Some(e)
            || p.aggregates@[i].arg2 == Some(e) || p.aggregates@[i].row_args@.contains(e)
            || p.aggregates@[i].order_by@.contains(e) || p.aggregates@[i].filter == Some(e))
    ||| exists|i: int|
        0 <= i < p.windows@.len() && ((#[trigger] p.windows@[i]).args@.contains(e)
            || p.windows@[i].partition@.contains(e) || p.windows@[i].order@.contains(e)
            || p.windows@[i].filter == Some(e))
}

proof fn lemma_named(e: Expr, plans: Seq<SelectPlan>, bound: nat)
    requires
        names_outer(e),
    ensures
        expr::expr_outer(e, plans, bound),
    decreases e,
{
    if !(e.node matches Node::Op(Op::OuterColumn { .. })) {
        let i = choose|i: int| 0 <= i < e.children@.len() && names_outer(#[trigger] e.children@[i]);
        lemma_named(e.children@[i], plans, bound);
    }
}

/// A plan refers to an enclosing query if any of its expressions names a column of one, at any depth.
pub proof fn law_outer_columns_are_seen_everywhere(plans: Seq<SelectPlan>, id: nat, e: Expr)
    requires
        id < plans.len(),
        stands_in(plans[id as int], e),
        names_outer(e),
    ensures
        expr::plan_outer(plans, id),
{
    lemma_named(e, plans, id);
    lemma_stands(plans, id, e);
}

proof fn lemma_held(es: Seq<Expr>, e: Expr, plans: Seq<SelectPlan>, bound: nat)
    requires
        expr::expr_outer(e, plans, bound),
        es.contains(e),
    ensures
        expr::any_outer(es, plans, bound),
{
    let i = choose|i: int| 0 <= i < es.len() && es[i] == e;
    assert(expr::expr_outer(es[i], plans, bound));
}

proof fn lemma_stands(plans: Seq<SelectPlan>, id: nat, e: Expr)
    requires
        id < plans.len(),
        stands_in(plans[id as int], e),
        expr::expr_outer(e, plans, id),
    ensures
        expr::plan_outer(plans, id),
{
    let p = plans[id as int];
    if p.projection@.contains(e) {
        lemma_held(p.projection@, e, plans, id);
    } else if p.group_keys@.contains(e) {
        lemma_held(p.group_keys@, e, plans, id);
    } else if p.distinct_on@.contains(e) {
        lemma_held(p.distinct_on@, e, plans, id);
    } else if p.order_by@.contains(e) {
        lemma_held(p.order_by@, e, plans, id);
    } else if p.filter == Some(e) {
        assert(expr::opt_outer(p.filter, plans, id));
    } else if p.having == Some(e) {
        assert(expr::opt_outer(p.having, plans, id));
    } else if exists|i: int| 0 <= i < p.joins@.len() && (#[trigger] p.joins@[i]).on == e {
        let i = choose|i: int| 0 <= i < p.joins@.len() && (#[trigger] p.joins@[i]).on == e;
        assert(expr::expr_outer(p.joins@[i].on, plans, id));
    } else if exists|i: int|
        0 <= i < p.aggregates@.len() && ((#[trigger] p.aggregates@[i]).arg == Some(e)
            || p.aggregates@[i].arg2 == Some(e) || p.aggregates@[i].row_args@.contains(e)
            || p.aggregates@[i].order_by@.contains(e) || p.aggregates@[i].filter == Some(e)) {
        let i = choose|i: int|
            0 <= i < p.aggregates@.len() && ((#[trigger] p.aggregates@[i]).arg == Some(e)
                || p.aggregates@[i].arg2 == Some(e) || p.aggregates@[i].row_args@.contains(e)
                || p.aggregates@[i].order_by@.contains(e) || p.aggregates@[i].filter == Some(e));
        let a = p.aggregates@[i];
        if a.row_args@.contains(e) {
            lemma_held(a.row_args@, e, plans, id);
        } else if a.order_by@.contains(e) {
            lemma_held(a.order_by@, e, plans, id);
        } else {
            assert(expr::opt_outer(Some(e), plans, id));
        }
        assert(expr::aggregate_outer(p.aggregates@[i], plans, id));
    } else {
        let i = choose|i: int|
            0 <= i < p.windows@.len() && ((#[trigger] p.windows@[i]).args@.contains(e)
                || p.windows@[i].partition@.contains(e) || p.windows@[i].order@.contains(e)
                || p.windows@[i].filter == Some(e));
        let w = p.windows@[i];
        if w.args@.contains(e) {
            lemma_held(w.args@, e, plans, id);
        } else if w.partition@.contains(e) {
            lemma_held(w.partition@, e, plans, id);
        } else if w.order@.contains(e) {
            lemma_held(w.order@, e, plans, id);
        } else {
            assert(expr::opt_outer(Some(e), plans, id));
        }
        assert(expr::window_outer(p.windows@[i], plans, id));
    }
}

} // verus!
