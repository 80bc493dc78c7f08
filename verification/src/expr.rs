//! Typed expressions and the walks over them.
//!
//! An expression is a node with its operands as children, in the order in which they are visited.
//! The plans of its subqueries stand in a list of their own and are named by their position there;
//! a plan refers only to plans before it.
use vstd::prelude::*;
use crate::error::Error;
use crate::types::ColumnType;
use crate::value;
use crate::value::{Row, Value, ValueView};

pub mod meaning;

verus! {

/// The position of a subquery's plan in the list of plans.
pub type PlanId = usize;

#[derive(Clone, Copy, Debug, PartialEq, Eq, Structural)]
pub enum BinaryOp {
    And,
    Or,
    Eq,
    NotEq,
    Lt,
    LtEq,
    Gt,
    GtEq,
    Plus,
    Minus,
    Multiply,
    Divide,
    Modulo,
    Concat,
    /// Any other operator, by its number.
    Other(u32),
}

#[derive(Clone, Copy, Debug, PartialEq, Eq, Structural)]
pub enum UnaryOp {
    Not,
    Neg,
    Plus,
}

/// A built-in scalar function.
#[derive(Clone, Copy, Debug, PartialEq, Eq, Structural)]
pub enum ScalarFunc {
    /// `nextval(name)`.
    SequenceNext,
    /// `currval(name)`.
    SequenceCurrent,
    /// `setval(name, value [, is_called])`.
    SequenceSet,
    /// Any other function, by its number.
    Other(u32),
}

/// What a node computes from its children. The comment gives the children.
#[derive(Clone, Copy, Debug, PartialEq, Eq, Structural)]
#[allow(inconsistent_fields)]
pub enum Op {
    /// A column of the current row: none.
    Column(usize),
    /// A column of the row of an enclosing query: none.
    OuterColumn { level: usize, index: usize },
    /// An aggregate's result: none.
    AggregateRef(usize),
    /// Left, right.
    Binary(BinaryOp),
    /// Left, right.
    IsDistinctFrom { negated: bool },
    /// The operand.
    Unary(UnaryOp),
    /// The operand.
    IsNull { negated: bool },
    /// The operand.
    IsJson { negated: bool },
    /// The operand.
    IsBool { value: bool, negated: bool },
    /// The operand.
    Cast(ColumnType),
    /// The probe, then the list.
    InList { negated: bool },
    /// The operand, low, high.
    Between { negated: bool },
    /// Start and end of the first period, start and end of the second.
    Overlaps,
    /// The operand, the pattern.
    Like { negated: bool },
    /// The operand, the pattern.
    RegexMatch { negated: bool },
    /// The operand, the pattern.
    SimilarTo { negated: bool },
    /// The operand if there is one, then each branch's condition and result, then the default if
    /// there is one.
    Case { operand: bool, default: bool },
    /// The arguments.
    Coalesce,
    /// The arguments.
    ScalarFunction(ScalarFunc),
    /// The arguments of a user-defined function.
    ScalarUdf(u64),
    /// The arguments of a script function.
    NusaCall(u64),
    /// The elements.
    ArrayLiteral,
    /// The arguments of a set-returning function.
    SetReturning(u32),
    /// The value, the key.
    Crypto { decrypt: bool },
    /// The probe, the array.
    QuantifiedArray { op: BinaryOp, all: bool },
    /// The base, the index.
    Subscript,
    /// The base, then the bounds that there are.
    ArraySlice { lower: bool, upper: bool },
    /// The parts of a composite operation.
    Composite(u32),
    /// `(SELECT ..)`: none.
    ScalarSubquery(PlanId),
    /// `[NOT] EXISTS (SELECT ..)`: none.
    Exists { plan: PlanId, negated: bool },
    /// `probe [NOT] IN (SELECT ..)`: the probe.
    InSubquery { plan: PlanId, negated: bool },
    /// `probe op ANY|ALL (SELECT ..)`: the probe.
    QuantifiedSubquery { op: BinaryOp, all: bool, plan: PlanId },
}

/// A constant, or something computed from the children.
#[derive(Debug, PartialEq, Eq)]
pub enum Node {
    Literal(Value),
    Op(Op),
}

#[derive(Debug, PartialEq, Eq)]
pub struct Expr {
    pub node: Node,
    pub ty: ColumnType,
    pub children: Vec<Expr>,
}

pub enum NodeView {
    Literal(ValueView),
    Op(Op),
}

/// What an [`Expr`] says, as a mathematical value.
pub struct ExprView {
    pub node: NodeView,
    pub ty: ColumnType,
    pub children: Seq<ExprView>,
}

pub open spec fn node_view(n: Node) -> NodeView {
    match n {
        Node::Literal(v) => NodeView::Literal(v@),
        Node::Op(op) => NodeView::Op(op),
    }
}

pub open spec fn expr_view(e: Expr) -> ExprView
    decreases e,
{
    ExprView {
        node: node_view(e.node),
        ty: e.ty,
        children: Seq::new(
            e.children@.len(),
            |i: int|
                if 0 <= i < e.children@.len() {
                    expr_view(e.children@[i])
                } else {
                    arbitrary()
                },
        ),
    }
}

impl DeepView for Expr {
    type V = ExprView;

    open spec fn deep_view(&self) -> ExprView {
        expr_view(*self)
    }
}

impl View for Expr {
    type V = ExprView;

    open spec fn view(&self) -> ExprView {
        expr_view(*self)
    }
}

pub proof fn lemma_expr_view(e: Expr)
    ensures
        e@.node == node_view(e.node),
        e@.ty == e.ty,
        e@.children == e.children.deep_view(),
        e@ == (ExprView { node: node_view(e.node), ty: e.ty, children: e.children.deep_view() }),
{
    assert(e@.children =~= e.children.deep_view());
}

impl Clone for Node {
    fn clone(&self) -> (r: Node)
        ensures
            node_view(r) == node_view(*self),
    {
        match self {
            Node::Literal(v) => Node::Literal(v.clone()),
            Node::Op(op) => Node::Op(*op),
        }
    }
}

impl Clone for Expr {
    fn clone(&self) -> (r: Expr)
        ensures
            r@ == self@,
        decreases self,
    {
        let mut out: Vec<Expr> = Vec::new();
        let mut i: usize = 0;
        while i < self.children.len()
            invariant
                i <= self.children@.len(),
                out@.len() == i,
                forall|k: int| 0 <= k < i ==> out@[k]@ == self.children@[k]@,
            decreases self.children@.len() - i,
        {
            assert(decreases_to!(*self => self.children));
            assert(decreases_to!(self.children => self.children[i as int]));
            out.push(self.children[i].clone());
            i += 1;
        }
        let r = Expr { node: self.node.clone(), ty: self.ty, children: out };
        proof {
            lemma_expr_view(*self);
            lemma_expr_view(r);
            assert(r.children.deep_view() =~= self.children.deep_view());
        }
        r
    }
}

// ---------------------------------------------------------------- what an expression contains

/// A node that runs a plan.
pub open spec fn is_subquery(n: NodeView) -> bool {
    match n {
        NodeView::Op(Op::ScalarSubquery(_)) => true,
        NodeView::Op(Op::Exists { .. }) => true,
        NodeView::Op(Op::InSubquery { .. }) => true,
        NodeView::Op(Op::QuantifiedSubquery { .. }) => true,
        _ => false,
    }
}

/// The plan that a subquery node runs.
pub open spec fn subquery_plan(n: NodeView) -> PlanId {
    match n {
        NodeView::Op(Op::ScalarSubquery(p)) => p,
        NodeView::Op(Op::Exists { plan, .. }) => plan,
        NodeView::Op(Op::InSubquery { plan, .. }) => plan,
        NodeView::Op(Op::QuantifiedSubquery { plan, .. }) => plan,
        _ => 0,
    }
}

/// `e` or an operand of it, at any depth, is a subquery.
pub open spec fn has_subquery(e: ExprView) -> bool
    decreases e,
{
    is_subquery(e.node) || exists|i: int|
        0 <= i < e.children.len() && has_subquery(#[trigger] e.children[i])
}

pub open spec fn is_sequence_func(n: NodeView) -> bool {
    match n {
        NodeView::Op(Op::ScalarFunction(ScalarFunc::SequenceNext)) => true,
        NodeView::Op(Op::ScalarFunction(ScalarFunc::SequenceCurrent)) => true,
        NodeView::Op(Op::ScalarFunction(ScalarFunc::SequenceSet)) => true,
        _ => false,
    }
}

/// `e` or an operand of it, at any depth but not beyond a subquery, is a sequence call.
pub open spec fn has_sequence_call(e: ExprView) -> bool
    decreases e,
{
    !is_subquery(e.node) && (is_sequence_func(e.node) || exists|i: int|
        0 <= i < e.children.len() && has_sequence_call(#[trigger] e.children[i]))
}

/// Whether the node runs a plan, and which.
pub(crate) fn node_plan(n: &Node) -> (r: Option<PlanId>)
    ensures
        r is Some <==> is_subquery(node_view(*n)),
        r matches Some(p) ==> p == subquery_plan(node_view(*n)),
{
    match n {
        Node::Op(Op::ScalarSubquery(p)) => Some(*p),
        Node::Op(Op::Exists { plan, .. }) => Some(*plan),
        Node::Op(Op::InSubquery { plan, .. }) => Some(*plan),
        Node::Op(Op::QuantifiedSubquery { plan, .. }) => Some(*plan),
        _ => None,
    }
}

pub(crate) fn node_is_sequence(n: &Node) -> (r: Option<ScalarFunc>)
    ensures
        r is Some <==> is_sequence_func(node_view(*n)),
        r matches Some(f) ==> node_view(*n) == NodeView::Op(Op::ScalarFunction(f)),
{
    match n {
        Node::Op(Op::ScalarFunction(ScalarFunc::Other(_))) => None,
        Node::Op(Op::ScalarFunction(f)) => Some(*f),
        _ => None,
    }
}

/// Whether `expr` contains a subquery.
pub fn contains_subquery(expr: &Expr) -> (r: bool)
    ensures
        r == has_subquery(expr@),
    decreases expr,
{
    proof {
        lemma_expr_view(*expr);
    }
    if node_plan(&expr.node).is_some() {
        return true;
    }
    let mut i: usize = 0;
    while i < expr.children.len()
        invariant
            i <= expr.children@.len(),
            expr@.children == expr.children.deep_view(),
            forall|k: int| 0 <= k < i ==> !has_subquery(#[trigger] expr@.children[k]),
        decreases expr.children@.len() - i,
    {
        assert(decreases_to!(*expr => expr.children));
        assert(decreases_to!(expr.children => expr.children[i as int]));
        assert(expr@.children[i as int] == expr.children@[i as int]@);
        if contains_subquery(&expr.children[i]) {
            return true;
        }
        i += 1;
    }
    false
}

/// Whether `expr` contains a sequence call in its own scope. One inside a subquery is that
/// subquery's concern.
pub fn contains_sequence_call(expr: &Expr) -> (r: bool)
    ensures
        r == has_sequence_call(expr@),
    decreases expr,
{
    proof {
        lemma_expr_view(*expr);
    }
    if node_plan(&expr.node).is_some() {
        return false;
    }
    if node_is_sequence(&expr.node).is_some() {
        return true;
    }
    let mut i: usize = 0;
    while i < expr.children.len()
        invariant
            i <= expr.children@.len(),
            expr@.children == expr.children.deep_view(),
            !is_subquery(expr@.node),
            forall|k: int| 0 <= k < i ==> !has_sequence_call(#[trigger] expr@.children[k]),
        decreases expr.children@.len() - i,
    {
        assert(decreases_to!(*expr => expr.children));
        assert(decreases_to!(expr.children => expr.children[i as int]));
        assert(expr@.children[i as int] == expr.children@[i as int]@);
        if contains_sequence_call(&expr.children[i]) {
            return true;
        }
        i += 1;
    }
    false
}

// ---------------------------------------------------------------- plans

/// A join of a select plan.
pub struct JoinPlan {
    pub on: Expr,
    /// The plan of the joined input, when it is a subquery or CTE.
    pub input_cte: Option<PlanId>,
}

/// An aggregate call of a select plan.
pub struct AggregateCall {
    pub arg: Option<Expr>,
    pub arg2: Option<Expr>,
    pub row_args: Vec<Expr>,
    pub order_by: Vec<Expr>,
    pub filter: Option<Expr>,
}

/// A window call of a select plan.
pub struct WindowCall {
    pub args: Vec<Expr>,
    pub partition: Vec<Expr>,
    pub order: Vec<Expr>,
    pub filter: Option<Expr>,
}

/// A recursive CTE of a select plan.
pub struct RecursiveCte {
    pub base: PlanId,
    pub recursive: PlanId,
}

/// The expressions and sub-plans of a select plan.
pub struct SelectPlan {
    pub projection: Vec<Expr>,
    pub filter: Option<Expr>,
    pub having: Option<Expr>,
    pub group_keys: Vec<Expr>,
    pub distinct_on: Vec<Expr>,
    pub order_by: Vec<Expr>,
    pub joins: Vec<JoinPlan>,
    pub aggregates: Vec<AggregateCall>,
    pub windows: Vec<WindowCall>,
    pub from_cte: Option<PlanId>,
    pub recursive_ctes: Vec<RecursiveCte>,
}

/// Whether `e` refers to a column of an enclosing query, in its own nodes or in the plans of its
/// subqueries. `plans` are the plans before `bound`; a plan from there on is none of its own.
pub open spec fn expr_outer(e: Expr, plans: Seq<SelectPlan>, bound: nat) -> bool
    decreases bound, 0nat, e,
{
    ||| e.node matches Node::Op(Op::OuterColumn { .. })
    ||| (is_subquery(node_view(e.node)) && subquery_plan(node_view(e.node)) < bound && plan_outer(
        plans,
        subquery_plan(node_view(e.node)) as nat,
    ))
    ||| exists|i: int|
        0 <= i < e.children@.len() && expr_outer(#[trigger] e.children@[i], plans, bound)
}

/// One of `es` refers to a column of an enclosing query.
pub open spec fn any_outer(es: Seq<Expr>, plans: Seq<SelectPlan>, bound: nat) -> bool
    decreases bound, 1nat, arbitrary::<Expr>(),
{
    exists|i: int| 0 <= i < es.len() && expr_outer(#[trigger] es[i], plans, bound)
}

pub open spec fn opt_outer(e: Option<Expr>, plans: Seq<SelectPlan>, bound: nat) -> bool
    decreases bound, 1nat, arbitrary::<Expr>(),
{
    e matches Some(x) && expr_outer(x, plans, bound)
}

pub open spec fn aggregate_outer(a: AggregateCall, plans: Seq<SelectPlan>, bound: nat) -> bool
    decreases bound, 2nat, arbitrary::<Expr>(),
{
    opt_outer(a.arg, plans, bound) || opt_outer(a.arg2, plans, bound) || any_outer(
        a.row_args@,
        plans,
        bound,
    ) || any_outer(a.order_by@, plans, bound) || opt_outer(a.filter, plans, bound)
}

pub open spec fn window_outer(w: WindowCall, plans: Seq<SelectPlan>, bound: nat) -> bool
    decreases bound, 2nat, arbitrary::<Expr>(),
{
    any_outer(w.args@, plans, bound) || any_outer(w.partition@, plans, bound) || any_outer(
        w.order@,
        plans,
        bound,
    ) || opt_outer(w.filter, plans, bound)
}

pub open spec fn sub_outer(p: PlanId, plans: Seq<SelectPlan>, bound: nat) -> bool
    decreases bound, 1nat, arbitrary::<Expr>(),
{
    p < bound && plan_outer(plans, p as nat)
}

/// Whether an expression of the plan at `id`, or of a plan that it takes its input from, refers to
/// a column of an enclosing query.
pub open spec fn plan_outer(plans: Seq<SelectPlan>, id: nat) -> bool
    decreases id, 3nat, arbitrary::<Expr>(),
{
    if id >= plans.len() {
        false
    } else {
        let p = plans[id as int];
        ||| any_outer(p.projection@, plans, id)
        ||| opt_outer(p.filter, plans, id)
        ||| opt_outer(p.having, plans, id)
        ||| any_outer(p.group_keys@, plans, id)
        ||| any_outer(p.distinct_on@, plans, id)
        ||| any_outer(p.order_by@, plans, id)
        ||| exists|i: int| 0 <= i < p.joins@.len() && expr_outer((#[trigger] p.joins@[i]).on, plans, id)
        ||| exists|i: int|
            0 <= i < p.aggregates@.len() && aggregate_outer(#[trigger] p.aggregates@[i], plans, id)
        ||| exists|i: int|
            0 <= i < p.windows@.len() && window_outer(#[trigger] p.windows@[i], plans, id)
        ||| (p.from_cte matches Some(c) && sub_outer(c, plans, id))
        ||| exists|i: int|
            0 <= i < p.joins@.len() && ((#[trigger] p.joins@[i]).input_cte matches Some(c)
                && sub_outer(c, plans, id))
        ||| exists|i: int|
            0 <= i < p.recursive_ctes@.len() && (sub_outer(
                (#[trigger] p.recursive_ctes@[i]).base,
                plans,
                id,
            ) || sub_outer(p.recursive_ctes@[i].recursive, plans, id))
    }
}

/// Whether `expr` refers to a column of an enclosing query; see [`expr_outer`].
pub fn expr_has_outer_column(expr: &Expr, plans: &Vec<SelectPlan>, bound: usize) -> (r: bool)
    ensures
        r == expr_outer(*expr, plans@, bound as nat),
    decreases bound, 0nat, *expr,
{
    if let Node::Op(Op::OuterColumn { .. }) = &expr.node {
        return true;
    }
    if let Some(p) = node_plan(&expr.node) {
        if p < bound && plan_has_outer_column(plans, p) {
            return true;
        }
    }
    let mut i: usize = 0;
    while i < expr.children.len()
        invariant
            i <= expr.children@.len(),
            forall|k: int|
                0 <= k < i ==> !expr_outer(#[trigger] expr.children@[k], plans@, bound as nat),
        decreases expr.children@.len() - i,
    {
        assert(decreases_to!(*expr => expr.children));
        assert(decreases_to!(expr.children => expr.children[i as int]));
        if expr_has_outer_column(&expr.children[i], plans, bound) {
            return true;
        }
        i += 1;
    }
    false
}

fn any_has_outer_column(es: &Vec<Expr>, plans: &Vec<SelectPlan>, bound: usize) -> (r: bool)
    ensures
        r == any_outer(es@, plans@, bound as nat),
    decreases bound, 1nat, arbitrary::<Expr>(),
{
    let mut i: usize = 0;
    while i < es.len()
        invariant
            i <= es@.len(),
            forall|k: int| 0 <= k < i ==> !expr_outer(#[trigger] es@[k], plans@, bound as nat),
        decreases es@.len() - i,
    {
        if expr_has_outer_column(&es[i], plans, bound) {
            return true;
        }
        i += 1;
    }
    false
}

fn opt_has_outer_column(e: &Option<Expr>, plans: &Vec<SelectPlan>, bound: usize) -> (r: bool)
    ensures
        r == opt_outer(*e, plans@, bound as nat),
    decreases bound, 1nat, arbitrary::<Expr>(),
{
    match e {
        Some(x) => expr_has_outer_column(x, plans, bound),
        None => false,
    }
}

fn aggregate_has_outer_column(a: &AggregateCall, plans: &Vec<SelectPlan>, bound: usize) -> (r: bool)
    ensures
        r == aggregate_outer(*a, plans@, bound as nat),
    decreases bound, 2nat, arbitrary::<Expr>(),
{
    opt_has_outer_column(&a.arg, plans, bound) || opt_has_outer_column(&a.arg2, plans, bound)
        || any_has_outer_column(&a.row_args, plans, bound) || any_has_outer_column(
        &a.order_by,
        plans,
        bound,
    ) || opt_has_outer_column(&a.filter, plans, bound)
}

fn window_has_outer_column(w: &WindowCall, plans: &Vec<SelectPlan>, bound: usize) -> (r: bool)
    ensures
        r == window_outer(*w, plans@, bound as nat),
    decreases bound, 2nat, arbitrary::<Expr>(),
{
    any_has_outer_column(&w.args, plans, bound) || any_has_outer_column(&w.partition, plans, bound)
        || any_has_outer_column(&w.order, plans, bound) || opt_has_outer_column(
        &w.filter,
        plans,
        bound,
    )
}

fn sub_has_outer_column(p: PlanId, plans: &Vec<SelectPlan>, bound: usize) -> (r: bool)
    ensures
        r == sub_outer(p, plans@, bound as nat),
    decreases bound, 1nat, arbitrary::<Expr>(),
{
    p < bound && plan_has_outer_column(plans, p)
}

/// Whether the plan at `id` refers to a column of an enclosing query, so that it must be run once
/// per row of that query.
pub fn plan_has_outer_column(plans: &Vec<SelectPlan>, id: PlanId) -> (r: bool)
    ensures
        r == plan_outer(plans@, id as nat),
    decreases id, 3nat, arbitrary::<Expr>(),
{
    if id >= plans.len() {
        return false;
    }
    let p = &plans[id];
    if any_has_outer_column(&p.projection, plans, id) || opt_has_outer_column(&p.filter, plans, id)
        || opt_has_outer_column(&p.having, plans, id) || any_has_outer_column(
        &p.group_keys,
        plans,
        id,
    ) || any_has_outer_column(&p.distinct_on, plans, id) || any_has_outer_column(
        &p.order_by,
        plans,
        id,
    ) {
        return true;
    }
    let mut i: usize = 0;
    while i < p.joins.len()
        invariant
            i <= p.joins@.len(),
            id < plans@.len(),
            *p == plans@[id as int],
            forall|k: int|
                0 <= k < i ==> !expr_outer((#[trigger] p.joins@[k]).on, plans@, id as nat),
            forall|k: int|
                0 <= k < i ==> !((#[trigger] p.joins@[k]).input_cte matches Some(c) && sub_outer(
                    c,
                    plans@,
                    id as nat,
                )),
        decreases p.joins@.len() - i,
    {
        let j = &p.joins[i];
        if expr_has_outer_column(&j.on, plans, id) {
            return true;
        }
        if let Some(c) = j.input_cte {
            if sub_has_outer_column(c, plans, id) {
                return true;
            }
        }
        i += 1;
    }
    let mut i: usize = 0;
    while i < p.aggregates.len()
        invariant
            i <= p.aggregates@.len(),
            id < plans@.len(),
            *p == plans@[id as int],
            forall|k: int|
                0 <= k < i ==> !aggregate_outer(#[trigger] p.aggregates@[k], plans@, id as nat),
        decreases p.aggregates@.len() - i,
    {
        if aggregate_has_outer_column(&p.aggregates[i], plans, id) {
            return true;
        }
        i += 1;
    }
    let mut i: usize = 0;
    while i < p.windows.len()
        invariant
            i <= p.windows@.len(),
            id < plans@.len(),
            *p == plans@[id as int],
            forall|k: int|
                0 <= k < i ==> !window_outer(#[trigger] p.windows@[k], plans@, id as nat),
        decreases p.windows@.len() - i,
    {
        if window_has_outer_column(&p.windows[i], plans, id) {
            return true;
        }
        i += 1;
    }
    if let Some(c) = p.from_cte {
        if sub_has_outer_column(c, plans, id) {
            return true;
        }
    }
    let mut i: usize = 0;
    while i < p.recursive_ctes.len()
        invariant
            i <= p.recursive_ctes@.len(),
            id < plans@.len(),
            *p == plans@[id as int],
            forall|k: int|
                0 <= k < i ==> !(sub_outer(
                    (#[trigger] p.recursive_ctes@[k]).base,
                    plans@,
                    id as nat,
                ) || sub_outer(p.recursive_ctes@[k].recursive, plans@, id as nat)),
        decreases p.recursive_ctes@.len() - i,
    {
        let c = &p.recursive_ctes[i];
        if sub_has_outer_column(c.base, plans, id) || sub_has_outer_column(c.recursive, plans, id) {
            return true;
        }
        i += 1;
    }
    false
}

// ---------------------------------------------------------------- resolving subqueries

/// How far resolving gets with the answers at hand.
pub enum Resolved {
    /// The rewritten expression, and how many answers have been used up.
    Done { expr: ExprView, used: nat },
    /// The rows of this plan are needed next.
    Needs(PlanId),
    /// A scalar subquery returned more than one row.
    TooManyRows,
}

/// How far resolving several expressions gets.
pub enum ResolvedAll {
    Done { exprs: Seq<ExprView>, used: nat },
    Stopped(Resolved),
}

/// The rows that each plan run so far returned.
pub type Answers = Seq<Seq<Seq<ValueView>>>;

pub open spec fn literal(v: ValueView, ty: ColumnType) -> ExprView {
    ExprView { node: NodeView::Literal(v), ty, children: Seq::empty() }
}

/// The first value of a row, or NULL.
pub open spec fn first_value(row: Seq<ValueView>) -> ValueView {
    if row.len() == 0 {
        ValueView::Null
    } else {
        row[0]
    }
}

/// `probe op value`.
pub open spec fn quantified_term(probe: ExprView, op: BinaryOp, row: Seq<ValueView>) -> ExprView {
    ExprView {
        node: NodeView::Op(Op::Binary(op)),
        ty: ColumnType::Bool,
        children: seq![probe, literal(first_value(row), probe.ty)],
    }
}

/// `(probe op r0) AND|OR (probe op r1) ..` over the first `n` rows.
pub open spec fn quantified_chain(
    probe: ExprView,
    op: BinaryOp,
    all: bool,
    rows: Seq<Seq<ValueView>>,
    n: nat,
) -> ExprView
    decreases n,
{
    if n <= 1 {
        quantified_term(probe, op, rows[0])
    } else {
        ExprView {
            node: NodeView::Op(
                Op::Binary(
                    if all {
                        BinaryOp::And
                    } else {
                        BinaryOp::Or
                    },
                ),
            ),
            ty: ColumnType::Bool,
            children: seq![
                quantified_chain(probe, op, all, rows, (n - 1) as nat),
                quantified_term(probe, op, rows[n - 1]),
            ],
        }
    }
}

/// The subquery node `e` once its rows are known; `probe` is its resolved probe where it has one.
pub open spec fn answered(e: ExprView, probe: ExprView, rows: Seq<Seq<ValueView>>) -> Option<
    ExprView,
> {
    match e.node {
        NodeView::Op(Op::ScalarSubquery(_)) => if rows.len() > 1 {
            None
        } else {
            Some(
                literal(
                    if rows.len() == 0 {
                        ValueView::Null
                    } else {
                        first_value(rows[0])
                    },
                    e.ty,
                ),
            )
        },
        NodeView::Op(Op::Exists { negated, .. }) => Some(
            literal(ValueView::Bool((rows.len() > 0) != negated), e.ty),
        ),
        NodeView::Op(Op::InSubquery { negated, .. }) => Some(
            ExprView {
                node: NodeView::Op(Op::InList { negated }),
                ty: e.ty,
                children: seq![probe] + rows.map_values(
                    |row: Seq<ValueView>| literal(first_value(row), probe.ty),
                ),
            },
        ),
        NodeView::Op(Op::QuantifiedSubquery { op, all, .. }) => Some(
            if rows.len() == 0 {
                literal(ValueView::Bool(all), e.ty)
            } else {
                let chain = quantified_chain(probe, op, all, rows, rows.len());
                ExprView { node: chain.node, ty: e.ty, children: chain.children }
            },
        ),
        _ => None,
    }
}

/// A subquery node whose probe is its only child.
pub open spec fn has_probe(n: NodeView) -> bool {
    match n {
        NodeView::Op(Op::InSubquery { .. }) => true,
        NodeView::Op(Op::QuantifiedSubquery { .. }) => true,
        _ => false,
    }
}

/// `e` with its subqueries replaced by what their rows amount to: operands first, and each
/// subquery's probe before the subquery. With `defer`, a subquery that refers to an enclosing query
/// is left in place.
pub open spec fn resolve(
    e: ExprView,
    defer: bool,
    plans: Seq<SelectPlan>,
    answers: Answers,
    used: nat,
) -> Resolved
    decreases e, 0nat,
{
    if is_subquery(e.node) {
        let plan = subquery_plan(e.node);
        if defer && plan_outer(plans, plan as nat) {
            Resolved::Done { expr: e, used }
        } else if has_probe(e.node) && e.children.len() > 0 {
            match resolve(e.children[0], defer, plans, answers, used) {
                Resolved::Done { expr: probe, used } => answer(e, probe, plan, answers, used),
                other => other,
            }
        } else {
            answer(e, e, plan, answers, used)
        }
    } else {
        match resolve_all(e.children, e.children.len(), defer, plans, answers, used) {
            ResolvedAll::Done { exprs, used } => Resolved::Done {
                expr: ExprView { node: e.node, ty: e.ty, children: exprs },
                used,
            },
            ResolvedAll::Stopped(r) => r,
        }
    }
}

pub open spec fn answer(
    e: ExprView,
    probe: ExprView,
    plan: PlanId,
    answers: Answers,
    used: nat,
) -> Resolved {
    if used >= answers.len() {
        Resolved::Needs(plan)
    } else {
        match answered(e, probe, answers[used as int]) {
            Some(expr) => Resolved::Done { expr, used: used + 1 },
            None => Resolved::TooManyRows,
        }
    }
}

/// `resolve` for the first `n` of `es`, one after the other.
pub open spec fn resolve_all(
    es: Seq<ExprView>,
    n: nat,
    defer: bool,
    plans: Seq<SelectPlan>,
    answers: Answers,
    used: nat,
) -> ResolvedAll
    decreases es, n,
{
    if n == 0 || n > es.len() {
        ResolvedAll::Done { exprs: Seq::empty(), used }
    } else {
        match resolve_all(es, (n - 1) as nat, defer, plans, answers, used) {
            ResolvedAll::Done { exprs, used } => match resolve(
                es[n - 1],
                defer,
                plans,
                answers,
                used,
            ) {
                Resolved::Done { expr, used } => ResolvedAll::Done { exprs: exprs.push(expr), used },
                r => ResolvedAll::Stopped(r),
            },
            stopped => stopped,
        }
    }
}

/// How far `resolve_subqueries` got.
#[derive(Debug, PartialEq, Eq)]
pub enum Resolution {
    /// The rewritten expression, and how many answers were used.
    Complete { expr: Expr, used: usize },
    /// Run this plan next.
    Needs(PlanId),
}

pub(crate) fn literal_expr(v: Value, ty: ColumnType) -> (r: Expr)
    ensures
        r@ == literal(v@, ty),
{
    let r = Expr { node: Node::Literal(v), ty, children: Vec::new() };
    proof {
        lemma_expr_view(r);
        assert(r.children.deep_view() =~= Seq::<ExprView>::empty());
    }
    r
}

fn op_expr(op: Op, ty: ColumnType, children: Vec<Expr>) -> (r: Expr)
    ensures
        r@ == (ExprView { node: NodeView::Op(op), ty, children: children.deep_view() }),
{
    let r = Expr { node: Node::Op(op), ty, children };
    proof {
        lemma_expr_view(r);
    }
    r
}

fn row_value(row: &Row) -> (r: Value)
    ensures
        r@ == first_value(row.deep_view()),
{
    if row.len() == 0 {
        Value::Null
    } else {
        row[0].clone()
    }
}

/// The value of a scalar subquery: NULL for no row, the first value of the only row.
pub fn scalar_subquery_value(rows: &Vec<Row>) -> (r: Result<Value, Error>)
    ensures
        rows@.len() > 1 ==> r == Err::<Value, Error>(Error::ScalarSubqueryRows),
        rows@.len() == 1 ==> (r matches Ok(v) && v@ == first_value(rows@[0].deep_view())),
        rows@.len() == 0 ==> r == Ok::<Value, Error>(Value::Null),
{
    if rows.len() > 1 {
        return Err(Error::ScalarSubqueryRows);
    }
    if rows.len() == 0 {
        return Ok(Value::Null);
    }
    Ok(row_value(&rows[0]))
}

fn quantified_term_expr(probe: &Expr, op: BinaryOp, row: &Row) -> (r: Expr)
    ensures
        r@ == quantified_term(probe@, op, row.deep_view()),
{
    proof {
        lemma_expr_view(*probe);
    }
    let mut children: Vec<Expr> = Vec::new();
    children.push(probe.clone());
    children.push(literal_expr(row_value(row), probe.ty));
    assert(children.deep_view() =~= quantified_term(probe@, op, row.deep_view()).children);
    op_expr(Op::Binary(op), ColumnType::Bool, children)
}

/// The subquery node `expr`, whose probe has been resolved to `probe` where it has one, rewritten by
/// its plan's rows.
///
/// A scalar subquery becomes its value, `EXISTS` a boolean, `IN` a list of literals, and a
/// quantified comparison a chain of `AND`s or `OR`s, which for no rows is `TRUE` or `FALSE`.
/// Refused when a scalar subquery has more than one row.
fn answer_subquery(expr: &Expr, probe: &Expr, rows: &Vec<Row>) -> (r: Result<Expr, Error>)
    requires
        is_subquery(node_view(expr.node)),
    ensures
        match answered(expr@, probe@, rows.deep_view()) {
            Some(x) => r matches Ok(e) && e@ == x,
            None => r == Err::<Expr, Error>(Error::ScalarSubqueryRows),
        },
{
    let ghost view = rows.deep_view();
    proof {
        lemma_expr_view(*expr);
        lemma_expr_view(*probe);
        assert forall|i: int| 0 <= i < rows@.len() implies view[i] == #[trigger] rows@[i].deep_view() by {}
    }
    match &expr.node {
        Node::Op(Op::ScalarSubquery(_)) => match scalar_subquery_value(rows) {
            Ok(v) => Ok(literal_expr(v, expr.ty)),
            Err(e) => Err(e),
        },
        Node::Op(Op::Exists { negated, .. }) => Ok(
            literal_expr(Value::Bool((rows.len() > 0) != *negated), expr.ty),
        ),
        Node::Op(Op::InSubquery { negated, .. }) => {
            let mut children: Vec<Expr> = Vec::new();
            children.push(probe.clone());
            let ghost lits = view.map_values(
                |row: Seq<ValueView>| literal(first_value(row), probe@.ty),
            );
            let mut i: usize = 0;
            assert(children.deep_view() =~= seq![probe@] + lits.take(0));
            while i < rows.len()
                invariant
                    i <= rows@.len(),
                    view == rows.deep_view(),
                    probe@.ty == probe.ty,
                    lits == view.map_values(
                        |row: Seq<ValueView>| literal(first_value(row), probe@.ty),
                    ),
                    children.deep_view() == seq![probe@] + lits.take(i as int),
                decreases rows@.len() - i,
            {
                let ghost before = children.deep_view();
                assert(view[i as int] == rows@[i as int].deep_view());
                children.push(literal_expr(row_value(&rows[i]), probe.ty));
                i += 1;
                assert(children.deep_view() =~= before.push(lits[i - 1]));
                assert(children.deep_view() =~= seq![probe@] + lits.take(i as int));
            }
            assert(lits.take(lits.len() as int) =~= lits);
            Ok(op_expr(Op::InList { negated: *negated }, expr.ty, children))
        },
        Node::Op(Op::QuantifiedSubquery { op, all, .. }) => {
            if rows.len() == 0 {
                return Ok(literal_expr(Value::Bool(*all), expr.ty));
            }
            assert(view[0] == rows@[0].deep_view());
            let mut chain: Expr = quantified_term_expr(probe, *op, &rows[0]);
            let mut i: usize = 1;
            while i < rows.len()
                invariant
                    1 <= i <= rows@.len(),
                    view == rows.deep_view(),
                    chain@ == quantified_chain(probe@, *op, *all, view, i as nat),
                decreases rows@.len() - i,
            {
                assert(view[i as int] == rows@[i as int].deep_view());
                let term = quantified_term_expr(probe, *op, &rows[i]);
                let mut children: Vec<Expr> = Vec::new();
                let ghost head = chain@;
                children.push(chain);
                children.push(term);
                assert(children.deep_view() =~= seq![head, term@]);
                chain =
                op_expr(
                    Op::Binary(
                        if *all {
                            BinaryOp::And
                        } else {
                            BinaryOp::Or
                        },
                    ),
                    ColumnType::Bool,
                    children,
                );
                i += 1;
            }
            proof {
                lemma_expr_view(chain);
            }
            let r = Expr { node: chain.node, ty: expr.ty, children: chain.children };
            proof {
                lemma_expr_view(r);
            }
            Ok(r)
        },
        _ => Err(Error::ScalarSubqueryRows),
    }
}

/// `expr` with its subqueries replaced by what their rows amount to.
///
/// `answers` holds the rows of the plans run so far, in the order in which they were asked for. As
/// long as one is missing the result is the plan to run next; call again with its rows added. With
/// `defer`, a subquery that refers to an enclosing query stays in place. Refused when a scalar
/// subquery returned more than one row.
pub fn resolve_subqueries(
    expr: &Expr,
    defer: bool,
    plans: &Vec<SelectPlan>,
    answers: &Vec<Vec<Row>>,
    used: usize,
) -> (r: Result<Resolution, Error>)
    requires
        used <= answers@.len(),
    ensures
        match resolve(expr@, defer, plans@, answers.deep_view(), used as nat) {
            Resolved::Done { expr: x, used: n } => r matches Ok(
                Resolution::Complete { expr: e, used: u },
            ) && e@ == x && u == n && u <= answers@.len(),
            Resolved::Needs(p) => r == Ok::<Resolution, Error>(Resolution::Needs(p)),
            Resolved::TooManyRows => r == Err::<Resolution, Error>(Error::ScalarSubqueryRows),
        },
    decreases expr,
{
    let ghost ans = answers.deep_view();
    proof {
        lemma_expr_view(*expr);
    }
    if let Some(plan) = node_plan(&expr.node) {
        if defer && plan_has_outer_column(plans, plan) {
            return Ok(Resolution::Complete { expr: expr.clone(), used });
        }
        let mut k: usize = used;
        let probe: Expr = match &expr.node {
            Node::Op(Op::InSubquery { .. }) | Node::Op(Op::QuantifiedSubquery { .. }) => {
                if expr.children.len() > 0 {
                    assert(decreases_to!(*expr => expr.children));
                    assert(decreases_to!(expr.children => expr.children[0]));
                    assert(expr@.children[0] == expr.children@[0]@);
                    match resolve_subqueries(&expr.children[0], defer, plans, answers, used) {
                        Ok(Resolution::Complete { expr: p, used: u }) => {
                            k = u;
                            p
                        },
                        other => {
                            return other;
                        },
                    }
                } else {
                    expr.clone()
                }
            },
            _ => expr.clone(),
        };
        if k >= answers.len() {
            return Ok(Resolution::Needs(plan));
        }
        assert(ans[k as int] == answers@[k as int].deep_view());
        match answer_subquery(expr, &probe, &answers[k]) {
            Ok(e) => Ok(Resolution::Complete { expr: e, used: k + 1 }),
            Err(e) => Err(e),
        }
    } else {
        let ghost kids = expr@.children;
        let mut out: Vec<Expr> = Vec::new();
        let mut k: usize = used;
        let mut i: usize = 0;
        assert(out.deep_view() =~= Seq::<ExprView>::empty());
        while i < expr.children.len()
            invariant
                kids == expr.children.deep_view(),
                kids == expr@.children,
                !is_subquery(expr@.node),
                ans == answers.deep_view(),
                i <= expr.children@.len(),
                k <= answers@.len(),
                resolve_all(kids, i as nat, defer, plans@, ans, used as nat) matches ResolvedAll::Done {
                    exprs,
                    used: u,
                } && exprs == out.deep_view() && u == k,
            decreases expr.children@.len() - i,
        {
            assert(decreases_to!(*expr => expr.children));
            assert(decreases_to!(expr.children => expr.children[i as int]));
            assert(kids[i as int] == expr.children@[i as int]@);
            let ghost before = out.deep_view();
            match resolve_subqueries(&expr.children[i], defer, plans, answers, k) {
                Ok(Resolution::Complete { expr: e, used: u }) => {
                    out.push(e);
                    k = u;
                    assert(out.deep_view() =~= before.push(e@));
                },
                other => {
                    proof {
                        lemma_resolve_all_stops(
                            kids,
                            (i + 1) as nat,
                            kids.len(),
                            defer,
                            plans@,
                            ans,
                            used as nat,
                        );
                    }
                    return other;
                },
            }
            i += 1;
        }
        let r = Expr { node: expr.node.clone(), ty: expr.ty, children: out };
        proof {
            lemma_expr_view(r);
        }
        Ok(Resolution::Complete { expr: r, used: k })
    }
}

proof fn lemma_resolve_all_stops(
    es: Seq<ExprView>,
    k: nat,
    n: nat,
    defer: bool,
    plans: Seq<SelectPlan>,
    answers: Answers,
    used: nat,
)
    requires
        k <= n <= es.len(),
        resolve_all(es, k, defer, plans, answers, used) is Stopped,
    ensures
        resolve_all(es, n, defer, plans, answers, used) == resolve_all(
            es,
            k,
            defer,
            plans,
            answers,
            used,
        ),
    decreases n,
{
    if k < n {
        lemma_resolve_all_stops(es, k, (n - 1) as nat, defer, plans, answers, used);
    }
}

/// Every subquery left in `e` is one that `defer` leaves: one that refers to an enclosing query.
pub open spec fn settled(e: ExprView, defer: bool, plans: Seq<SelectPlan>) -> bool
    decreases e,
{
    if is_subquery(e.node) {
        defer && plan_outer(plans, subquery_plan(e.node) as nat)
    } else {
        forall|i: int| 0 <= i < e.children.len() ==> settled(#[trigger] e.children[i], defer, plans)
    }
}

proof fn lemma_literal_settled(v: ValueView, ty: ColumnType, defer: bool, plans: Seq<SelectPlan>)
    ensures
        settled(literal(v, ty), defer, plans),
{
}

proof fn lemma_term_settled(
    probe: ExprView,
    op: BinaryOp,
    row: Seq<ValueView>,
    defer: bool,
    plans: Seq<SelectPlan>,
)
    requires
        settled(probe, defer, plans),
    ensures
        settled(quantified_term(probe, op, row), defer, plans),
{
    let t = quantified_term(probe, op, row);
    lemma_literal_settled(first_value(row), probe.ty, defer, plans);
    assert forall|i: int| 0 <= i < t.children.len() implies settled(
        #[trigger] t.children[i],
        defer,
        plans,
    ) by {
        if i == 0 {
            assert(t.children[0] == probe);
        } else {
            assert(t.children[1] == literal(first_value(row), probe.ty));
        }
    }
}

proof fn lemma_chain_settled(
    probe: ExprView,
    op: BinaryOp,
    all: bool,
    rows: Seq<Seq<ValueView>>,
    n: nat,
    defer: bool,
    plans: Seq<SelectPlan>,
)
    requires
        settled(probe, defer, plans),
        1 <= n <= rows.len(),
    ensures
        settled(quantified_chain(probe, op, all, rows, n), defer, plans),
        !is_subquery(quantified_chain(probe, op, all, rows, n).node),
    decreases n,
{
    if n == 1 {
        lemma_term_settled(probe, op, rows[0], defer, plans);
    } else {
        lemma_chain_settled(probe, op, all, rows, (n - 1) as nat, defer, plans);
        lemma_term_settled(probe, op, rows[n - 1], defer, plans);
        let c = quantified_chain(probe, op, all, rows, n);
        assert forall|i: int| 0 <= i < c.children.len() implies settled(
            #[trigger] c.children[i],
            defer,
            plans,
        ) by {
            if i == 0 {
                assert(c.children[0] == quantified_chain(probe, op, all, rows, (n - 1) as nat));
            } else {
                assert(c.children[1] == quantified_term(probe, op, rows[n - 1]));
            }
        }
    }
}

proof fn lemma_answer_settled(
    e: ExprView,
    probe: ExprView,
    rows: Seq<Seq<ValueView>>,
    defer: bool,
    plans: Seq<SelectPlan>,
)
    requires
        has_probe(e.node) ==> settled(probe, defer, plans),
        answered(e, probe, rows) is Some,
    ensures
        settled(answered(e, probe, rows)->0, defer, plans),
        answered(e, probe, rows)->0.ty == e.ty,
{
    let x = answered(e, probe, rows)->0;
    match e.node {
        NodeView::Op(Op::InSubquery { .. }) => {
            assert forall|i: int| 0 <= i < x.children.len() implies settled(
                #[trigger] x.children[i],
                defer,
                plans,
            ) by {
                if i == 0 {
                    assert(x.children[0] == probe);
                } else {
                    assert(x.children[i] == literal(first_value(rows[i - 1]), probe.ty));
                    lemma_literal_settled(first_value(rows[i - 1]), probe.ty, defer, plans);
                }
            }
        },
        NodeView::Op(Op::QuantifiedSubquery { op, all, .. }) => {
            if rows.len() > 0 {
                lemma_chain_settled(probe, op, all, rows, rows.len(), defer, plans);
                let c = quantified_chain(probe, op, all, rows, rows.len());
                assert(x.children == c.children);
                assert forall|i: int| 0 <= i < x.children.len() implies settled(
                    #[trigger] x.children[i],
                    defer,
                    plans,
                ) by {
                    assert(settled(c.children[i], defer, plans));
                }
            }
        },
        _ => {},
    }
}

/// Resolving keeps the type, and leaves only subqueries that refer to an enclosing query, and those
/// only when they are deferred. (A probe-less `IN` or quantified subquery is not an expression.)
pub proof fn law_resolving_settles(
    e: ExprView,
    defer: bool,
    plans: Seq<SelectPlan>,
    answers: Answers,
    used: nat,
)
    requires
        well_formed(e),
    ensures
        resolve(e, defer, plans, answers, used) matches Resolved::Done { expr, used: u } ==> settled(
            expr,
            defer,
            plans,
        ) && expr.ty == e.ty && u >= used,
    decreases e, 0nat,
{
    if is_subquery(e.node) {
        let plan = subquery_plan(e.node);
        if defer && plan_outer(plans, plan as nat) {
        } else if has_probe(e.node) {
            law_resolving_settles(e.children[0], defer, plans, answers, used);
            if let Resolved::Done { expr: probe, used: u } = resolve(
                e.children[0],
                defer,
                plans,
                answers,
                used,
            ) {
                if u < answers.len() && answered(e, probe, answers[u as int]) is Some {
                    lemma_answer_settled(e, probe, answers[u as int], defer, plans);
                }
            }
        } else {
            if used < answers.len() && answered(e, e, answers[used as int]) is Some {
                lemma_answer_settled(e, e, answers[used as int], defer, plans);
            }
        }
    } else {
        lemma_resolve_all_settles(e.children, e.children.len(), defer, plans, answers, used);
        if let ResolvedAll::Done { exprs, used: u } = resolve_all(
            e.children,
            e.children.len(),
            defer,
            plans,
            answers,
            used,
        ) {
            let x = ExprView { node: e.node, ty: e.ty, children: exprs };
            assert forall|i: int| 0 <= i < x.children.len() implies settled(
                #[trigger] x.children[i],
                defer,
                plans,
            ) by {
                assert(settled(exprs[i], defer, plans));
            }
        }
    }
}

/// Every subquery that compares a probe has one.
pub open spec fn well_formed(e: ExprView) -> bool
    decreases e,
{
    &&& has_probe(e.node) ==> e.children.len() == 1
    &&& forall|i: int| 0 <= i < e.children.len() ==> well_formed(#[trigger] e.children[i])
}

proof fn lemma_resolve_all_settles(
    es: Seq<ExprView>,
    n: nat,
    defer: bool,
    plans: Seq<SelectPlan>,
    answers: Answers,
    used: nat,
)
    requires
        n <= es.len(),
        forall|i: int| 0 <= i < es.len() ==> well_formed(#[trigger] es[i]),
    ensures
        match resolve_all(es, n, defer, plans, answers, used) {
            ResolvedAll::Done { exprs, used: u } => exprs.len() == n && u >= used && forall|i: int|
                0 <= i < n ==> settled(#[trigger] exprs[i], defer, plans),
            ResolvedAll::Stopped(r) => !(r is Done),
        },
    decreases es, n,
{
    if n > 0 {
        lemma_resolve_all_settles(es, (n - 1) as nat, defer, plans, answers, used);
        if let ResolvedAll::Done { exprs, used: u } = resolve_all(
            es,
            (n - 1) as nat,
            defer,
            plans,
            answers,
            used,
        ) {
            assert(well_formed(es[n - 1]));
            law_resolving_settles(es[n - 1], defer, plans, answers, u);
        }
    }
}

/// Without deferring, no subquery is left.
pub proof fn law_no_subquery_left(e: ExprView, plans: Seq<SelectPlan>, answers: Answers, used: nat)
    requires
        well_formed(e),
    ensures
        resolve(e, false, plans, answers, used) matches Resolved::Done { expr, .. }
            ==> !has_subquery(expr),
{
    law_resolving_settles(e, false, plans, answers, used);
    if let Resolved::Done { expr, .. } = resolve(e, false, plans, answers, used) {
        lemma_settled_has_none(expr, plans);
    }
}

proof fn lemma_settled_has_none(e: ExprView, plans: Seq<SelectPlan>)
    requires
        settled(e, false, plans),
    ensures
        !has_subquery(e),
    decreases e,
{
    assert forall|i: int| 0 <= i < e.children.len() implies !has_subquery(#[trigger] e.children[i]) by {
        assert(settled(e.children[i], false, plans));
        lemma_settled_has_none(e.children[i], plans);
    }
}

/// An expression without a subquery is left as it is, and needs no answer.
pub proof fn law_subquery_free_is_unchanged(
    e: ExprView,
    defer: bool,
    plans: Seq<SelectPlan>,
    answers: Answers,
    used: nat,
)
    requires
        !has_subquery(e),
    ensures
        resolve(e, defer, plans, answers, used) == (Resolved::Done { expr: e, used }),
    decreases e, 0nat,
{
    lemma_all_unchanged(e.children, e.children.len(), defer, plans, answers, used);
    assert(e.children.take(e.children.len() as int) =~= e.children);
}

proof fn lemma_all_unchanged(
    es: Seq<ExprView>,
    n: nat,
    defer: bool,
    plans: Seq<SelectPlan>,
    answers: Answers,
    used: nat,
)
    requires
        n <= es.len(),
        forall|i: int| 0 <= i < es.len() ==> !has_subquery(#[trigger] es[i]),
    ensures
        resolve_all(es, n, defer, plans, answers, used) == (ResolvedAll::Done {
            exprs: es.take(n as int),
            used,
        }),
    decreases es, n,
{
    if n > 0 {
        lemma_all_unchanged(es, (n - 1) as nat, defer, plans, answers, used);
        assert(!has_subquery(es[n - 1]));
        law_subquery_free_is_unchanged(es[n - 1], defer, plans, answers, used);
        assert(es.take(n as int) =~= es.take(n - 1).push(es[n - 1]));
    } else {
        assert(es.take(0) =~= Seq::<ExprView>::empty());
    }
}

/// `expr` with its subqueries resolved, but for those that refer to an enclosing query; `None` when
/// it has no subquery, so that it can be used as it is.
pub fn resolved_expr(expr: &Expr, plans: &Vec<SelectPlan>, answers: &Vec<Vec<Row>>) -> (r: Result<
    Option<Resolution>,
    Error,
>)
    ensures
        !has_subquery(expr@) ==> r == Ok::<Option<Resolution>, Error>(None),
        has_subquery(expr@) ==> match resolve(expr@, true, plans@, answers.deep_view(), 0) {
            Resolved::Done { expr: x, used: n } => r matches Ok(
                Some(Resolution::Complete { expr: e, used: u }),
            ) && e@ == x && u == n,
            Resolved::Needs(p) => r == Ok::<Option<Resolution>, Error>(Some(Resolution::Needs(p))),
            Resolved::TooManyRows => r == Err::<Option<Resolution>, Error>(
                Error::ScalarSubqueryRows,
            ),
        },
{
    if !contains_subquery(expr) {
        return Ok(None);
    }
    match resolve_subqueries(expr, true, plans, answers, 0) {
        Ok(x) => Ok(Some(x)),
        Err(e) => Err(e),
    }
}

} // verus!
