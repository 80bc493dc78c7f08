//! Executing a plan: operators, what they ask for, and what each makes of its answers.
//!
//! Storage, expression evaluation and aggregation are asked for. The executor takes the answers so
//! far and either completes or names the next request, so that whoever drives it answers the request
//! and runs it again.
use vstd::prelude::*;
use crate::error::{Error, Stage};
use crate::memory;
use crate::operators;
use crate::operators::JoinKind;
use crate::order::{SortKey, ValueOrder};
use crate::recursive;
use crate::recursive::WorkingSets;
use crate::scan::Tuple;
use crate::series;
use crate::series::{SetError, SetFunc, SetTask, TaskView};
use crate::setops;
use crate::setops::{Rows, SetTree};
use crate::shape::{ColumnSummary, Shape};
use crate::sort;
use crate::sort::KeyRows;
use crate::spill_setop;
use crate::spill_sort;
use crate::types::ColumnType;
use crate::value::{Row, Value, ValueView};
use crate::vector::search::{KnnAnswer, KnnAnswerView, KnnStep, KnnStepView};
use crate::window::run::Window;
use crate::window::Shifts;

pub mod answers;
pub mod meaning;
pub mod nearest;
pub mod operations;
pub mod plan;
pub mod pull;
pub mod reordered;
pub mod sets;
pub mod streaming;
pub mod tables;
pub mod windows;

verus! {

// ---------------------------------------------------------------- plans

/// Skip `offset` rows, keep `count`, and with them the ties of the last.
#[derive(Clone, Copy, Debug, PartialEq, Eq, Structural)]
pub struct TiesLimit {
    pub offset: u64,
    pub count: u64,
}

/// A series of integers with literal bounds.
#[derive(Clone, Copy, Debug, PartialEq, Eq, Structural)]
pub struct IntSeries {
    pub start: i64,
    pub stop: i64,
    pub step: i64,
}

/// A recursive query: the table that its rows are bound to, and whether it keeps duplicates.
#[derive(Clone, Copy, Debug, PartialEq, Eq, Structural)]
pub struct RecursiveCte {
    pub table: u64,
    pub union_all: bool,
}

/// A query that runs once before the body: the table that its rows are bound to, and whether it only
/// reads.
#[derive(Clone, Copy, Debug, PartialEq, Eq, Structural)]
pub struct OnceCte {
    pub table: u64,
    pub reads: bool,
}

/// What an operator does. Its expressions are known to whoever evaluates them, by the operator's id.
#[allow(inconsistent_fields)]
pub enum OpNode {
    /// The rows of a table with these columns; where ordinals are given, only those of each.
    Scan { table: u64, schema: Vec<ColumnType>, keep: Vec<usize> },
    /// Rows from elsewhere: an index, a system view, literal rows.
    Source,
    /// The `k` rows of a table whose vectors in a column are nearest to a query vector; only those of a
    /// filter, if `filtered`.
    VectorKnn { column: usize, k: u64, filtered: bool },
    /// One row without columns.
    OneRow,
    /// The children combined by set operators, sorted and limited.
    SetOperation { tree: SetTree, keys: Vec<SortKey>, limit: Option<u64>, width: usize },
    /// The child's rows, after locking the rows of a table; only those of a predicate, if `predicate`.
    LockRows {
        table: u64,
        schema: Vec<ColumnType>,
        predicate: bool,
        skip_locked: bool,
        nowait: bool,
    },
    Filter,
    Sort { keys: Vec<SortKey>, has_subquery: bool, ties: Option<TiesLimit>, top_n: Option<u64> },
    Project { sequence_calls: bool },
    /// A projection with a set-returning function in the column at `pos`; `series` where it is a literal
    /// series alone.
    ProjectSet { func: SetFunc, pos: usize, ordinality: bool, series: Option<IntSeries> },
    Limit { count: u64, offset: u64 },
    Distinct { width: usize },
    DistinctOn,
    /// One row of aggregates over all rows; `count_star` where it is the count of all rows alone.
    ScalarAggregate { count_star: bool },
    /// An aggregate of each group. The input's shape, and which of its columns each key is, if any.
    GroupAggregate { input: Shape, keys: Vec<Option<usize>> },
    GroupingSetsAggregate,
    /// A column for each window function.
    Window { windows: Vec<Window>, top_n: Option<u64> },
    NestedLoopJoin,
    /// `merges` where equal columns are merged; `one_table` where both sides read one table.
    HashJoin { kind: JoinKind, left_width: usize, right_width: usize, merges: bool, one_table: bool },
    LateralJoin { kind: JoinKind, right_width: usize },
    /// Children: the base and the recursive term of each query, and the body.
    WithRecursive { ctes: Vec<RecursiveCte> },
    /// Children: each query, and the body.
    WithModifying { ctes: Vec<OnceCte> },
}

/// An operator over the rows of its children.
pub struct Operator {
    pub id: u64,
    pub node: OpNode,
    pub children: Vec<Operator>,
}

/// How many children an operator has; `None` where the node leaves it open.
pub open spec fn arity(node: OpNode) -> Option<nat> {
    match node {
        OpNode::Scan { .. } | OpNode::Source | OpNode::VectorKnn { .. } | OpNode::OneRow => Some(0),
        OpNode::SetOperation { .. } => None,
        OpNode::NestedLoopJoin | OpNode::HashJoin { .. } | OpNode::LateralJoin { .. } => Some(2),
        OpNode::WithRecursive { ctes } => Some(2 * ctes@.len() + 1),
        OpNode::WithModifying { ctes } => Some(ctes@.len() + 1),
        _ => Some(1),
    }
}

// ---------------------------------------------------------------- requests and answers

/// What is asked for.
pub enum Ask {
    /// The tuples of the table.
    Scan,
    /// The rows of a source.
    Source,
    /// The query of a vector search.
    Query,
    /// What a vector search goes on with.
    Search(KnnStep),
    /// The statistics of a table, where it has them.
    Stats(u64),
    /// Whether the left side is estimated to be so much smaller that the hash table is built on it.
    LeftBuild,
    /// Whether the right side fits the spill budget.
    GraceBuild,
    /// A lock on a row.
    Lock(u64),
    /// The rows that a modifying query returns.
    Modify,
    /// What the operator's predicate is of each row.
    Verdicts(Vec<Row>),
    /// The operator's keys of each row.
    Keys(Vec<Row>),
    /// The projection of each row; `once` resolves sequence calls, which may happen only once.
    Project { rows: Vec<Row>, once: bool },
    /// Of each row, the other columns of a set-returning projection, and the arguments of its function.
    SetInput(Vec<Row>),
    /// What a set-returning function finds in its arguments.
    SetTask(SetTask),
    /// Of each row, what the window function of this number takes: its keys, its arguments, and where
    /// the calendar offsets of its frame lead.
    WindowInput { window: usize, rows: Vec<Row> },
    /// The aggregate of the window function of this number over the rows of each frame.
    WindowFolds { window: usize, rows: Vec<Row>, frames: Vec<Vec<usize>> },
    /// The values of these shares, each a numerator and a denominator.
    Shares(Vec<(usize, usize)>),
    /// The aggregates of the rows, by hashing or by sorting.
    Fold { rows: Vec<Row>, sorted: bool },
    /// The right rows that each left row matches.
    Match { left: Vec<Row>, right: Vec<Row> },
    /// The left rows that each right row matches.
    MatchLeft { left: Vec<Row>, right: Vec<Row> },
    /// The rows of a join.
    Join { left: Vec<Row>, right: Vec<Row> },
    /// The rows of a join with equal columns merged.
    Merge(Vec<Row>),
}

pub enum AskView {
    Scan,
    Source,
    Query,
    Search(KnnStepView),
    Stats(u64),
    LeftBuild,
    GraceBuild,
    Lock(u64),
    Modify,
    Verdicts(Rows),
    Keys(Rows),
    Project(Rows, bool),
    SetInput(Rows),
    SetTask(TaskView),
    WindowInput(usize, Rows),
    WindowFolds(usize, Rows, Seq<Seq<usize>>),
    Shares(Seq<(usize, usize)>),
    Fold(Rows, bool),
    Match(Rows, Rows),
    MatchLeft(Rows, Rows),
    Join(Rows, Rows),
    Merge(Rows),
}

impl View for Ask {
    type V = AskView;

    open spec fn view(&self) -> AskView {
        match self {
            Ask::Scan => AskView::Scan,
            Ask::Source => AskView::Source,
            Ask::Query => AskView::Query,
            Ask::Search(step) => AskView::Search(step@),
            Ask::Stats(table) => AskView::Stats(*table),
            Ask::LeftBuild => AskView::LeftBuild,
            Ask::GraceBuild => AskView::GraceBuild,
            Ask::Lock(t) => AskView::Lock(*t),
            Ask::Modify => AskView::Modify,
            Ask::Verdicts(rows) => AskView::Verdicts(rows.deep_view()),
            Ask::Keys(rows) => AskView::Keys(rows.deep_view()),
            Ask::Project { rows, once } => AskView::Project(rows.deep_view(), *once),
            Ask::SetInput(rows) => AskView::SetInput(rows.deep_view()),
            Ask::SetTask(task) => AskView::SetTask(task@),
            Ask::WindowInput { window, rows } => AskView::WindowInput(*window, rows.deep_view()),
            Ask::WindowFolds { window, rows, frames } => AskView::WindowFolds(
                *window,
                rows.deep_view(),
                frames.deep_view(),
            ),
            Ask::Shares(shares) => AskView::Shares(shares@),
            Ask::Fold { rows, sorted } => AskView::Fold(rows.deep_view(), *sorted),
            Ask::Match { left, right } => AskView::Match(left.deep_view(), right.deep_view()),
            Ask::MatchLeft { left, right } => AskView::MatchLeft(
                left.deep_view(),
                right.deep_view(),
            ),
            Ask::Join { left, right } => AskView::Join(left.deep_view(), right.deep_view()),
            Ask::Merge(rows) => AskView::Merge(rows.deep_view()),
        }
    }
}

/// A request of the operator `id`, whose expressions may refer to the `outer` rows, the innermost
/// last.
pub struct Request {
    pub id: u64,
    pub outer: Vec<Row>,
    pub ask: Ask,
}

pub struct RequestView {
    pub id: u64,
    pub outer: Rows,
    pub ask: AskView,
}

impl View for Request {
    type V = RequestView;

    open spec fn view(&self) -> RequestView {
        RequestView { id: self.id, outer: self.outer.deep_view(), ask: self.ask@ }
    }
}

#[derive(Clone, Copy, Debug, PartialEq, Eq, Structural)]
pub enum LockReply {
    Taken,
    /// Another transaction holds the row.
    Conflict,
    Failed,
}

/// What a set-returning projection takes of a row: the other columns, and the arguments of its function.
pub struct SetInput {
    pub scalars: Row,
    pub args: Vec<Value>,
}

pub struct SetInputView {
    pub scalars: Seq<ValueView>,
    pub args: Seq<ValueView>,
}

impl DeepView for SetInput {
    type V = SetInputView;

    open spec fn deep_view(&self) -> SetInputView {
        SetInputView { scalars: self.scalars.deep_view(), args: self.args.deep_view() }
    }
}

/// An answer. One that gives an item for each row stops before the first row that fails.
#[allow(inconsistent_fields)]
pub enum Answer {
    /// Stored tuples; `failed` where reading them failed after these.
    Tuples { tuples: Vec<Tuple>, failed: bool },
    /// Rows; `failed` where producing them failed after these.
    Rows { rows: Vec<Row>, failed: bool },
    Values(Vec<Value>),
    SetInputs(Vec<SetInput>),
    /// What a task found, each as text, `None` for a null; `None` where there is nothing to look in.
    Found(Option<Vec<Option<String>>>),
    /// The members of an object: their names and their values; `None` where it is no object.
    Members(Option<(Vec<String>, Vec<Option<String>>)>),
    /// The times one calendar step after each time of a series.
    Times(Vec<i64>),
    /// Of each row, what a window function takes.
    Window {
        partition: Vec<Vec<Value>>,
        order: Vec<Vec<Value>>,
        args: Vec<Vec<Value>>,
        shifts: Vec<Shifts>,
    },
    Matches(Vec<Vec<usize>>),
    Knn(KnnAnswer),
    Lock(LockReply),
    Stats(Option<Vec<ColumnSummary>>),
    Flag(bool),
    Failed,
}

#[allow(inconsistent_fields)]
pub enum AnswerView {
    Tuples(Seq<Tuple>, bool),
    Rows(Rows, bool),
    Values(Seq<ValueView>),
    SetInputs(Seq<SetInputView>),
    Found(Option<Seq<Option<Seq<char>>>>),
    Members(Option<(Seq<Seq<char>>, Seq<Option<Seq<char>>>)>),
    Times(Seq<i64>),
    Window { partition: KeyRows, order: KeyRows, args: Seq<Seq<ValueView>>, shifts: Seq<Shifts> },
    Matches(Seq<Seq<usize>>),
    Knn(KnnAnswerView),
    Lock(LockReply),
    Stats(Option<Seq<ColumnSummary>>),
    Flag(bool),
    Failed,
}

impl View for Answer {
    type V = AnswerView;

    open spec fn view(&self) -> AnswerView {
        match self {
            Answer::Rows { rows, failed } => AnswerView::Rows(rows.deep_view(), *failed),
            Answer::Values(vs) => AnswerView::Values(vs.deep_view()),
            Answer::Tuples { tuples, failed } => AnswerView::Tuples(tuples@, *failed),
            Answer::SetInputs(inputs) => AnswerView::SetInputs(inputs.deep_view()),
            Answer::Found(found) => AnswerView::Found(
                match found {
                    Some(texts) => Some(texts.deep_view()),
                    None => None,
                },
            ),
            Answer::Members(members) => AnswerView::Members(
                match members {
                    Some(m) => Some((m.0.deep_view(), m.1.deep_view())),
                    None => None,
                },
            ),
            Answer::Times(ts) => AnswerView::Times(ts@),
            Answer::Window { partition, order, args, shifts } => AnswerView::Window {
                partition: partition.deep_view(),
                order: order.deep_view(),
                args: args.deep_view(),
                shifts: shifts@,
            },
            Answer::Matches(ms) => AnswerView::Matches(ms.deep_view()),
            Answer::Knn(a) => AnswerView::Knn(a@),
            Answer::Lock(l) => AnswerView::Lock(*l),
            Answer::Stats(stats) => AnswerView::Stats(
                match stats {
                    Some(s) => Some(s@),
                    None => None,
                },
            ),
            Answer::Flag(b) => AnswerView::Flag(*b),
            Answer::Failed => AnswerView::Failed,
        }
    }
}

impl DeepView for Answer {
    type V = AnswerView;

    open spec fn deep_view(&self) -> AnswerView {
        self@
    }
}

/// Why execution failed.
#[derive(Clone, Copy, Debug, PartialEq, Eq, Structural)]
pub enum Failure {
    /// What was asked for failed.
    Outside,
    OutOfMemory { budget: usize, used: usize, stage: Stage },
    /// Ties cannot be kept where a sort key holds a subquery.
    TiesWithSubquery,
    /// A row is locked, and the query does not wait.
    LockNotAvailable,
    /// A row is locked by a concurrent transaction.
    LockConflict,
    RecursionLimit,
    SeriesLimit,
    /// A set-returning function was refused.
    SetRefused(SetError),
    /// `NTILE` was asked for less than one bucket.
    BucketCount,
    /// A stored tuple stops making sense at this byte.
    MalformedTuple { offset: usize },
    /// There are more rows than can be numbered.
    TooManyRows,
    /// The answer is not one to what was asked.
    BadAnswer,
    /// A row is not as wide as the plan says.
    BadRow,
    /// An operator lacks the children that it calls for.
    BadPlan,
}

/// Rows produced so far, or the request to go on.
pub enum Flow {
    Needs(Request),
    /// The rows, and the failure that ended them if one did; `used` answers have been used.
    Rows { rows: Vec<Row>, failed: Option<Failure>, used: usize },
    /// There are no rows: the operator failed before its first row could be read.
    Failed { failure: Failure, used: usize },
}

pub enum FlowView {
    Needs(RequestView),
    Rows(Rows, Option<Failure>, nat),
    Failed(Failure, nat),
}

impl View for Flow {
    type V = FlowView;

    open spec fn view(&self) -> FlowView {
        match self {
            Flow::Needs(r) => FlowView::Needs(r@),
            Flow::Rows { rows, failed, used } => FlowView::Rows(
                rows.deep_view(),
                *failed,
                *used as nat,
            ),
            Flow::Failed { failure, used } => FlowView::Failed(*failure, *used as nat),
        }
    }
}

/// What an execution knows beside its plan: the work-memory budget, the spill threshold where spilling
/// is on, the rows that the query is nested in, the bound tables, the hidden rows, and the session's
/// setting of the beam of a vector search.
pub struct Context {
    pub budget: usize,
    pub spill: Option<usize>,
    pub outer: Vec<Row>,
    pub bound: WorkingSets,
    pub hidden: Vec<(u64, u64)>,
    pub beam: Option<String>,
}

pub struct ContextView {
    pub budget: usize,
    pub spill: Option<usize>,
    pub outer: Rows,
    pub bound: Seq<recursive::BindingView>,
    pub hidden: Seq<(u64, u64)>,
    pub beam: Option<Seq<char>>,
}

impl View for Context {
    type V = ContextView;

    open spec fn view(&self) -> ContextView {
        ContextView {
            budget: self.budget,
            spill: self.spill,
            outer: self.outer.deep_view(),
            bound: self.bound@,
            hidden: self.hidden@,
            beam: match self.beam {
                Some(s) => Some(s@),
                None => None,
            },
        }
    }
}

pub type Tape = Seq<AnswerView>;

// ---------------------------------------------------------------- steps

/// The flow of an operator that fails before its first row.
pub open spec fn failing(f: Failure, used: nat) -> FlowView {
    FlowView::Failed(f, used)
}

/// A flow as an execution gives it: no rows where it failed, while a stream gives those before.
pub open spec fn settled(lazy: bool, rows: Rows, failed: Option<Failure>, used: nat) -> FlowView {
    if lazy || failed is None {
        FlowView::Rows(rows, failed, used)
    } else {
        failing(failed->0, used)
    }
}

pub open spec fn asking(cx: ContextView, id: u64, ask: AskView) -> FlowView {
    FlowView::Needs(RequestView { id, outer: cx.outer, ask })
}

pub(crate) fn fail(f: Failure, used: usize) -> (r: Flow)
    ensures
        r@ == failing(f, used as nat),
{
    Flow::Failed { failure: f, used }
}

pub(crate) fn settle(lazy: bool, rows: Vec<Row>, failed: Option<Failure>, used: usize) -> (r: Flow)
    ensures
        r@ == settled(lazy, rows.deep_view(), failed, used as nat),
{
    if lazy {
        return Flow::Rows { rows, failed, used };
    }
    match failed {
        None => Flow::Rows { rows, failed, used },
        Some(f) => fail(f, used),
    }
}

pub(crate) fn needs(cx: &Context, id: u64, ask: Ask) -> (r: Flow)
    ensures
        r@ == asking(cx@, id, ask@),
{
    Flow::Needs(Request { id, outer: setops::clone_rows(&cx.outer), ask })
}

/// The failure of an answer that gave `got` items for `want` rows, where the rows themselves ended in
/// `failed`.
pub open spec fn short(got: nat, want: nat, failed: Option<Failure>) -> Option<Failure> {
    if got < want {
        Some(Failure::Outside)
    } else {
        failed
    }
}

pub(crate) fn shortfall(got: usize, want: usize, failed: Option<Failure>) -> (r: Option<Failure>)
    ensures
        r == short(got as nat, want as nat, failed),
{
    if got < want {
        Some(Failure::Outside)
    } else {
        failed
    }
}

/// Hold an executed flow to the work-memory budget.
pub open spec fn within_budget(cx: ContextView, flow: FlowView) -> FlowView {
    match flow {
        FlowView::Rows(rows, None, used) => {
            let bytes = memory::clamp(memory::rows_size(rows, rows.len()));
            if cx.budget != 0 && bytes > cx.budget {
                failing(
                    Failure::OutOfMemory {
                        budget: cx.budget,
                        used: bytes,
                        stage: Stage::Materialized,
                    },
                    used,
                )
            } else {
                flow
            }
        },
        _ => flow,
    }
}

pub(crate) fn enforce(cx: &Context, flow: Flow) -> (r: Flow)
    ensures
        r@ == within_budget(cx@, flow@),
{
    match flow {
        Flow::Rows { rows, failed: None, used } => {
            match memory::enforce_work_mem(cx.budget, &rows) {
                Ok(()) => Flow::Rows { rows, failed: None, used },
                Err(_) => {
                    let bytes: usize = memory::rows_bytes(&rows);
                    fail(
                        Failure::OutOfMemory {
                            budget: cx.budget,
                            used: bytes,
                            stage: Stage::Materialized,
                        },
                        used,
                    )
                },
            }
        },
        other => other,
    }
}

/// The rows that an answer to `ask` gives.
pub open spec fn rows_step(
    cx: ContextView,
    id: u64,
    ask: AskView,
    tape: Tape,
    used: nat,
    lazy: bool,
) -> FlowView {
    if used >= tape.len() {
        asking(cx, id, ask)
    } else {
        match tape[used as int] {
            AnswerView::Rows(rows, failed) => settled(
                lazy,
                rows,
                if failed {
                    Some(Failure::Outside)
                } else {
                    None
                },
                used + 1,
            ),
            AnswerView::Failed => failing(Failure::Outside, used + 1),
            _ => failing(Failure::BadAnswer, used + 1),
        }
    }
}

pub(crate) fn take_rows(cx: &Context, id: u64, ask: Ask, tape: &Vec<Answer>, used: usize, lazy: bool) -> (r:
    Flow)
    ensures
        r@ == rows_step(cx@, id, ask@, tape.deep_view(), used as nat, lazy),
{
    if used >= tape.len() {
        return needs(cx, id, ask);
    }
    assert(tape.deep_view()[used as int] == tape@[used as int]@);
    match &tape[used] {
        Answer::Rows { rows, failed } => settle(
            lazy,
            setops::clone_rows(rows),
            if *failed {
                Some(Failure::Outside)
            } else {
                None
            },
            used + 1,
        ),
        Answer::Failed => fail(Failure::Outside, used + 1),
        _ => fail(Failure::BadAnswer, used + 1),
    }
}

/// Filter a child's rows.
pub open spec fn filter_step(cx: ContextView, id: u64, child: FlowView, tape: Tape, lazy: bool) -> FlowView {
    match child {
        FlowView::Rows(rows, failed, used) => {
            if !lazy && failed is Some {
                child
            } else if used >= tape.len() {
                asking(cx, id, AskView::Verdicts(rows))
            } else {
                match tape[used as int] {
                    AnswerView::Values(vs) => if vs.len() > rows.len() {
                        failing(Failure::BadAnswer, used + 1)
                    } else {
                        settled(
                            lazy,
                            operators::kept(rows, vs, vs.len()),
                            short(vs.len(), rows.len(), failed),
                            used + 1,
                        )
                    },
                    AnswerView::Failed => failing(Failure::Outside, used + 1),
                    _ => failing(Failure::BadAnswer, used + 1),
                }
            }
        },
        other => other,
    }
}

pub(crate) fn filter_flow(cx: &Context, id: u64, child: Flow, tape: &Vec<Answer>, lazy: bool) -> (r: Flow)
    ensures
        r@ == filter_step(cx@, id, child@, tape.deep_view(), lazy),
{
    match child {
        Flow::Rows { rows, failed, used } => {
            if !lazy && failed.is_some() {
                return Flow::Rows { rows, failed, used };
            }
            if used >= tape.len() {
                return needs(cx, id, Ask::Verdicts(rows));
            }
            assert(tape.deep_view()[used as int] == tape@[used as int]@);
            match &tape[used] {
                Answer::Values(vs) => {
                    if vs.len() > rows.len() {
                        return fail(Failure::BadAnswer, used + 1);
                    }
                    let end = shortfall(vs.len(), rows.len(), failed);
                    settle(lazy, operators::filter_rows(&rows, vs), end, used + 1)
                },
                Answer::Failed => fail(Failure::Outside, used + 1),
                _ => fail(Failure::BadAnswer, used + 1),
            }
        },
        other => other,
    }
}

/// Project a child's rows.
pub open spec fn project_step(
    cx: ContextView,
    id: u64,
    once: bool,
    child: FlowView,
    tape: Tape,
    lazy: bool,
) -> FlowView {
    match child {
        FlowView::Rows(rows, failed, used) => {
            if !lazy && failed is Some {
                child
            } else if used >= tape.len() {
                asking(cx, id, AskView::Project(rows, once))
            } else {
                match tape[used as int] {
                    AnswerView::Rows(out, _) => if out.len() > rows.len() {
                        failing(Failure::BadAnswer, used + 1)
                    } else {
                        settled(lazy, out, short(out.len(), rows.len(), failed), used + 1)
                    },
                    AnswerView::Failed => failing(Failure::Outside, used + 1),
                    _ => failing(Failure::BadAnswer, used + 1),
                }
            }
        },
        other => other,
    }
}

pub(crate) fn project_flow(
    cx: &Context,
    id: u64,
    once: bool,
    child: Flow,
    tape: &Vec<Answer>,
    lazy: bool,
) -> (r: Flow)
    ensures
        r@ == project_step(cx@, id, once, child@, tape.deep_view(), lazy),
{
    match child {
        Flow::Rows { rows, failed, used } => {
            if !lazy && failed.is_some() {
                return Flow::Rows { rows, failed, used };
            }
            if used >= tape.len() {
                return needs(cx, id, Ask::Project { rows, once });
            }
            assert(tape.deep_view()[used as int] == tape@[used as int]@);
            match &tape[used] {
                Answer::Rows { rows: out, .. } => {
                    if out.len() > rows.len() {
                        return fail(Failure::BadAnswer, used + 1);
                    }
                    let end = shortfall(out.len(), rows.len(), failed);
                    settle(lazy, setops::clone_rows(out), end, used + 1)
                },
                Answer::Failed => fail(Failure::Outside, used + 1),
                _ => fail(Failure::BadAnswer, used + 1),
            }
        },
        other => other,
    }
}

/// Limit a streamed child. The child is read no further than the window goes, so a failure to read a
/// row beyond it is not met; one that comes before the first row is. Executed, a window of no rows
/// reads no row at all.
pub open spec fn limit_step(count: u64, offset: u64, child: FlowView, lazy: bool) -> FlowView {
    match child {
        FlowView::Rows(rows, failed, used) => {
            let end = if (!lazy && count == 0) || rows.len() >= offset + count {
                None
            } else {
                failed
            };
            settled(lazy, operators::limit_window(rows, offset as nat, count as nat), end, used)
        },
        other => other,
    }
}

pub(crate) fn limit_flow(count: u64, offset: u64, child: Flow, lazy: bool) -> (r: Flow)
    ensures
        r@ == limit_step(count, offset, child@, lazy),
{
    match child {
        Flow::Rows { rows, failed, used } => {
            let n: u64 = rows.len() as u64;
            let filled: bool = n >= offset && n - offset >= count;
            let end: Option<Failure> = if (!lazy && count == 0) || filled {
                None
            } else {
                failed
            };
            settle(lazy, operators::limit_rows(&rows, offset, count), end, used)
        },
        other => other,
    }
}

/// A literal series as a stream.
pub open spec fn series_flow(s: IntSeries, used: nat) -> FlowView {
    let n = series::series_len(s.start, s.stop, s.step);
    let over = n > series::MAX_SERIES_ROWS;
    let given = if over {
        series::MAX_SERIES_ROWS as nat
    } else {
        n
    };
    FlowView::Rows(
        series::series_values(s.start, s.step, given).map_values(|v: ValueView| seq![v]),
        if over {
            Some(Failure::SeriesLimit)
        } else {
            None
        },
        used,
    )
}

pub(crate) fn stream_series(s: IntSeries, used: usize) -> (r: Flow)
    requires
        s.step != 0,
    ensures
        r@ == series_flow(s, used as nat),
{
    let (values, over) = series::pull_series(s.start, s.stop, s.step);
    let ghost vv = values.deep_view();
    let ghost all = values@;
    let mut rows: Vec<Row> = Vec::new();
    for v in it: values
        invariant
            it.seq() == all,
            rows@.len() == it.index(),
            forall|k: int|
                0 <= k < rows@.len() ==> (#[trigger] rows@[k]).deep_view() == seq![all[k]@],
    {
        let mut row: Row = Vec::new();
        row.push(v);
        assert(row.deep_view() =~= seq![v@]);
        rows.push(row);
    }
    assert(rows.deep_view() =~= vv.map_values(|v: ValueView| seq![v]));
    let failed: Option<Failure> = if over {
        Some(Failure::SeriesLimit)
    } else {
        None
    };
    Flow::Rows { rows, failed, used }
}

/// The keys of each row, as an answer gave them.
pub enum KeysStep {
    Keys(sort::KeyRows),
    Stop(FlowView),
}

/// The answer gives `width` keys for each of `n` rows.
pub open spec fn keys_fit(keys: sort::KeyRows, n: nat, width: nat) -> bool {
    keys.len() == n && sort::keyed(keys, width)
}

/// Ask for the keys of complete rows.
pub open spec fn keys_step(
    cx: ContextView,
    id: u64,
    rows: Rows,
    used: nat,
    width: nat,
    tape: Tape,
) -> KeysStep {
    if used >= tape.len() {
        KeysStep::Stop(asking(cx, id, AskView::Keys(rows)))
    } else {
        match tape[used as int] {
            AnswerView::Rows(keys, _) => if keys.len() < rows.len() {
                KeysStep::Stop(failing(Failure::Outside, used + 1))
            } else if !keys_fit(keys, rows.len(), width) {
                KeysStep::Stop(failing(Failure::BadAnswer, used + 1))
            } else {
                KeysStep::Keys(keys)
            },
            AnswerView::Failed => KeysStep::Stop(failing(Failure::Outside, used + 1)),
            _ => KeysStep::Stop(failing(Failure::BadAnswer, used + 1)),
        }
    }
}

/// Whether every row has `width` values.
pub(crate) fn rows_are_wide(rows: &Vec<Row>, width: usize) -> (r: bool)
    ensures
        r == sort::keyed(rows.deep_view(), width as nat),
{
    let ghost rv = rows.deep_view();
    let mut i: usize = 0;
    while i < rows.len()
        invariant
            rv == rows.deep_view(),
            i <= rows@.len(),
            forall|k: int| 0 <= k < i ==> (#[trigger] rv[k]).len() == width,
        decreases rows@.len() - i,
    {
        assert(rv[i as int] == rows@[i as int].deep_view());
        if rows[i].len() != width {
            assert(rv[i as int].len() != width);
            return false;
        }
        i += 1;
    }
    true
}

pub(crate) fn take_keys(
    cx: &Context,
    id: u64,
    rows: &Vec<Row>,
    used: usize,
    width: usize,
    tape: &Vec<Answer>,
) -> (r: Result<Vec<Vec<Value>>, Flow>)
    ensures
        match keys_step(cx@, id, rows.deep_view(), used as nat, width as nat, tape.deep_view()) {
            KeysStep::Keys(keys) => r matches Ok(k) && k.deep_view() == keys && keys_fit(
                keys,
                rows@.len(),
                width as nat,
            ) && used < usize::MAX,
            KeysStep::Stop(f) => r matches Err(flow) && flow@ == f,
        },
{
    if used >= tape.len() {
        return Err(needs(cx, id, Ask::Keys(setops::clone_rows(rows))));
    }
    assert(tape.deep_view()[used as int] == tape@[used as int]@);
    match &tape[used] {
        Answer::Rows { rows: keys, .. } => {
            if keys.len() < rows.len() {
                return Err(fail(Failure::Outside, used + 1));
            }
            if keys.len() != rows.len() || !rows_are_wide(keys, width) {
                return Err(fail(Failure::BadAnswer, used + 1));
            }
            Ok(setops::clone_rows(keys))
        },
        Answer::Failed => Err(fail(Failure::Outside, used + 1)),
        _ => Err(fail(Failure::BadAnswer, used + 1)),
    }
}

/// The rows of `rows` in sorted order.
pub open spec fn sorted_rows<O: ValueOrder>(o: &O, rows: Rows, keys: sort::KeyRows, ks: Seq<SortKey>) -> Rows {
    sort::picked(rows, sort::sorted_order(o, keys, ks))
}

pub open spec fn machine_count(n: u64) -> nat {
    if n <= usize::MAX {
        n as nat
    } else {
        usize::MAX as nat
    }
}

/// The first `m` rows of a complete child in sorted order.
pub open spec fn top_n_step<O: ValueOrder>(
    o: &O,
    cx: ContextView,
    id: u64,
    child: FlowView,
    ks: Seq<SortKey>,
    m: u64,
    tape: Tape,
) -> FlowView {
    match child {
        FlowView::Rows(rows, None, used) => match keys_step(cx, id, rows, used, ks.len(), tape) {
            KeysStep::Keys(keys) => match sort::top_n(
                o,
                keys,
                ks,
                sort::row_sizes(rows),
                machine_count(m),
                cx.budget,
                keys.len(),
            ) {
                sort::TopN::Holds { kept, .. } => FlowView::Rows(
                    sort::picked(rows, kept),
                    None,
                    used + 1,
                ),
                sort::TopN::Over(bytes) => failing(
                    Failure::OutOfMemory { budget: cx.budget, used: bytes, stage: Stage::TopN },
                    used + 1,
                ),
            },
            KeysStep::Stop(f) => f,
        },
        FlowView::Rows(_, Some(f), used) => failing(f, used),
        other => other,
    }
}

pub(crate) fn top_n_flow<O: ValueOrder>(
    o: &O,
    cx: &Context,
    id: u64,
    child: Flow,
    ks: &Vec<SortKey>,
    m: u64,
    tape: &Vec<Answer>,
) -> (r: Flow)
    ensures
        r@ == top_n_step(o, cx@, id, child@, ks@, m, tape.deep_view()),
{
    match child {
        Flow::Rows { rows, failed: None, used } => {
            match take_keys(cx, id, &rows, used, ks.len(), tape) {
                Ok(keys) => {
                    let n: usize = if m <= usize::MAX as u64 {
                        m as usize
                    } else {
                        usize::MAX
                    };
                    match sort::top_n_rows(o, &rows, &keys, ks, n, cx.budget) {
                        Ok(out) => Flow::Rows { rows: out, failed: None, used: used + 1 },
                        Err(e) => {
                            let bytes: usize = match e {
                                Error::OutOfMemory { used: b, .. } => b,
                                _ => 0,
                            };
                            fail(
                                Failure::OutOfMemory {
                                    budget: cx.budget,
                                    used: bytes,
                                    stage: Stage::TopN,
                                },
                                used + 1,
                            )
                        },
                    }
                },
                Err(flow) => flow,
            }
        },
        Flow::Rows { rows: _, failed: Some(f), used } => fail(f, used),
        other => other,
    }
}

/// A complete child's rows in sorted order, cut to a limit with its ties where there is one.
pub open spec fn sort_step<O: ValueOrder>(
    o: &O,
    cx: ContextView,
    id: u64,
    child: FlowView,
    ks: Seq<SortKey>,
    ties: Option<TiesLimit>,
    tape: Tape,
) -> FlowView {
    match child {
        FlowView::Rows(rows, None, used) => match keys_step(cx, id, rows, used, ks.len(), tape) {
            KeysStep::Keys(keys) => {
                let out = sorted_rows(o, rows, keys, ks);
                match ties {
                    Some(t) => {
                        let sorted_keys = sorted_rows(o, keys, keys, ks);
                        let range = sort::ties_range(
                            o,
                            sorted_keys,
                            ks,
                            t.offset as nat,
                            t.count as nat,
                        );
                        FlowView::Rows(
                            out.subrange(range.0 as int, range.1 as int),
                            None,
                            used + 1,
                        )
                    },
                    None => FlowView::Rows(out, None, used + 1),
                }
            },
            KeysStep::Stop(f) => f,
        },
        FlowView::Rows(_, Some(f), used) => failing(f, used),
        other => other,
    }
}

pub(crate) fn sort_flow<O: ValueOrder>(
    o: &O,
    cx: &Context,
    id: u64,
    child: Flow,
    ks: &Vec<SortKey>,
    ties: Option<TiesLimit>,
    spill: Option<usize>,
    tape: &Vec<Answer>,
) -> (r: Flow)
    ensures
        r@ == sort_step(o, cx@, id, child@, ks@, ties, tape.deep_view()),
{
    match child {
        Flow::Rows { rows, failed: None, used } => {
            match take_keys(cx, id, &rows, used, ks.len(), tape) {
                Ok(keys) => {
                    let ghost kv = keys.deep_view();
                    let out = match spill {
                        Some(limit) => spill_sort::external_sort(o, &rows, &keys, ks, limit),
                        None => sort::sort_rows(o, &rows, &keys, ks),
                    };
                    match ties {
                        Some(t) => {
                            let sorted = sort::sort_rows(o, &keys, &keys, ks);
                            assert(out.deep_view().len() == sorted.deep_view().len());
                            let cut = sort::apply_ties_limit(o, &out, &sorted, ks, t.offset, t.count);
                            Flow::Rows { rows: cut, failed: None, used: used + 1 }
                        },
                        None => Flow::Rows { rows: out, failed: None, used: used + 1 },
                    }
                },
                Err(flow) => flow,
            }
        },
        Flow::Rows { rows: _, failed: Some(f), used } => fail(f, used),
        other => other,
    }
}

/// A complete child's rows without duplicates, found by sorting where `sorted`.
pub open spec fn distinct_step<O: ValueOrder>(o: &O, width: usize, child: FlowView, sorted: bool) -> FlowView {
    match child {
        FlowView::Rows(rows, None, used) => if !sorted {
            FlowView::Rows(setops::distinct(o, rows), None, used)
        } else if !sort::keyed(rows, width as nat) {
            failing(Failure::BadRow, used)
        } else {
            FlowView::Rows(
                spill_setop::merged_from(
                    o,
                    setops::SetOp::Union,
                    false,
                    spill_setop::column_sorted(o, rows, width as nat),
                    Seq::empty(),
                    0,
                    0,
                ),
                None,
                used,
            )
        },
        FlowView::Rows(_, Some(f), used) => failing(f, used),
        other => other,
    }
}

pub(crate) fn distinct_flow<O: ValueOrder>(o: &O, width: usize, child: Flow, spill: Option<usize>) -> (r: Flow)
    ensures
        r@ == distinct_step(o, width, child@, spill is Some),
{
    match child {
        Flow::Rows { rows, failed: None, used } => match spill {
            None => Flow::Rows { rows: setops::dedupe_rows(o, rows), failed: None, used },
            Some(limit) => {
                if !rows_are_wide(&rows, width) {
                    return fail(Failure::BadRow, used);
                }
                let out = spill_setop::sort_based_distinct(o, &rows, width, limit);
                Flow::Rows { rows: out, failed: None, used }
            },
        },
        Flow::Rows { rows: _, failed: Some(f), used } => fail(f, used),
        other => other,
    }
}

/// The first row of each key of a complete child.
pub open spec fn distinct_on_step<O: ValueOrder>(
    o: &O,
    cx: ContextView,
    id: u64,
    child: FlowView,
    tape: Tape,
) -> FlowView {
    match child {
        FlowView::Rows(rows, None, used) => if used >= tape.len() {
            asking(cx, id, AskView::Keys(rows))
        } else {
            match tape[used as int] {
                AnswerView::Rows(keys, _) => if keys.len() < rows.len() {
                    failing(Failure::Outside, used + 1)
                } else if keys.len() > rows.len() {
                    failing(Failure::BadAnswer, used + 1)
                } else {
                    FlowView::Rows(
                        operators::first_by_key(o, rows, keys, rows.len()),
                        None,
                        used + 1,
                    )
                },
                AnswerView::Failed => failing(Failure::Outside, used + 1),
                _ => failing(Failure::BadAnswer, used + 1),
            }
        },
        other => other,
    }
}

pub(crate) fn distinct_on_flow<O: ValueOrder>(o: &O, cx: &Context, id: u64, child: Flow, tape: &Vec<Answer>) -> (r:
    Flow)
    ensures
        r@ == distinct_on_step(o, cx@, id, child@, tape.deep_view()),
{
    match child {
        Flow::Rows { rows, failed: None, used } => {
            if used >= tape.len() {
                return needs(cx, id, Ask::Keys(rows));
            }
            assert(tape.deep_view()[used as int] == tape@[used as int]@);
            match &tape[used] {
                Answer::Rows { rows: keys, .. } => {
                    if keys.len() < rows.len() {
                        return fail(Failure::Outside, used + 1);
                    }
                    if keys.len() > rows.len() {
                        return fail(Failure::BadAnswer, used + 1);
                    }
                    let out = operators::distinct_on(o, &rows, keys);
                    Flow::Rows { rows: out, failed: None, used: used + 1 }
                },
                Answer::Failed => fail(Failure::Outside, used + 1),
                _ => fail(Failure::BadAnswer, used + 1),
            }
        },
        other => other,
    }
}

/// Fold a streamed child, all of which is read.
pub open spec fn fold_step(cx: ContextView, id: u64, child: FlowView, sorted: bool, tape: Tape) -> FlowView {
    match child {
        FlowView::Rows(rows, None, used) => rows_step(
            cx,
            id,
            AskView::Fold(rows, sorted),
            tape,
            used,
            false,
        ),
        FlowView::Rows(_, Some(f), used) => failing(f, used),
        other => other,
    }
}

pub(crate) fn fold_flow(cx: &Context, id: u64, child: Flow, sorted: bool, tape: &Vec<Answer>) -> (r: Flow)
    ensures
        r@ == fold_step(cx@, id, child@, sorted, tape.deep_view()),
{
    match child {
        Flow::Rows { rows, failed: None, used } => take_rows(
            cx,
            id,
            Ask::Fold { rows, sorted },
            tape,
            used,
            false,
        ),
        Flow::Rows { rows: _, failed: Some(f), used } => fail(f, used),
        other => other,
    }
}

} // verus!
