//! Pulling rows one at a time: each row of a source goes through filters, projections and windows, and
//! no more rows are pulled than the windows let through.
use vstd::prelude::*;
use crate::exec;
use crate::exec::plan;
use crate::exec::{AnswerView, ContextView, FlowView, OpNode, Operator, Tape};
use crate::operators;
use crate::order::ValueOrder;
use crate::setops::Rows;
use crate::value::{Row, Value, ValueView};

verus! {

/// What a row goes through. A filter and a projection are known by their operator's id; a window still
/// skips `skip` rows, and then lets `left` rows through.
#[derive(Clone, Copy, Debug, PartialEq, Eq, Structural)]
pub enum PipeStage {
    Filter { id: u64 },
    Project { id: u64 },
    Window { skip: u64, left: u64 },
}

/// A window that lets no more rows through.
pub open spec fn is_full(s: PipeStage) -> bool {
    s matches PipeStage::Window { skip: 0, left: 0 }
}

/// A further row can come through the stages.
pub open spec fn reads_on(stages: Seq<PipeStage>) -> bool {
    forall|i: int| 0 <= i < stages.len() ==> !is_full(#[trigger] stages[i])
}

/// How a row goes on.
#[derive(Debug, PartialEq, Eq)]
pub enum Step {
    /// It is dropped; the next one is to be pulled.
    Dropped,
    /// What the predicate of the filter at this stage is of it is needed.
    Judge { stage: usize, row: Row },
    /// Its projection at this stage is needed.
    Project { stage: usize, row: Row },
    /// It has come through.
    Out(Row),
}

pub enum StepView {
    Dropped,
    Judge(nat, Seq<ValueView>),
    Project(nat, Seq<ValueView>),
    Out(Seq<ValueView>),
}

impl View for Step {
    type V = StepView;

    open spec fn view(&self) -> StepView {
        match self {
            Step::Dropped => StepView::Dropped,
            Step::Judge { stage, row } => StepView::Judge(*stage as nat, row.deep_view()),
            Step::Project { stage, row } => StepView::Project(*stage as nat, row.deep_view()),
            Step::Out(row) => StepView::Out(row.deep_view()),
        }
    }
}

/// A row that stands before the stage `at`: how far it gets, and the stages after it.
pub open spec fn passed(stages: Seq<PipeStage>, at: nat, row: Seq<ValueView>) -> (Seq<PipeStage>, StepView)
    decreases stages.len() - at,
{
    if at >= stages.len() {
        (stages, StepView::Out(row))
    } else {
        match stages[at as int] {
            PipeStage::Filter { .. } => (stages, StepView::Judge(at, row)),
            PipeStage::Project { .. } => (stages, StepView::Project(at, row)),
            PipeStage::Window { skip, left } => if skip > 0 {
                (
                    stages.update(at as int, PipeStage::Window { skip: (skip - 1) as u64, left }),
                    StepView::Dropped,
                )
            } else if left == 0 {
                (stages, StepView::Dropped)
            } else {
                passed(
                    stages.update(at as int, PipeStage::Window { skip: 0, left: (left - 1) as u64 }),
                    at + 1,
                    row,
                )
            },
        }
    }
}

/// The stages that rows go through, the innermost first. It holds no row.
#[derive(Debug, PartialEq, Eq)]
pub struct Pipe {
    pub stages: Vec<PipeStage>,
}

impl Pipe {
    /// Whether a further row of the source is to be pulled.
    pub fn wants_row(&self) -> (r: bool)
        ensures
            r == reads_on(self.stages@),
    {
        let mut i: usize = 0;
        while i < self.stages.len()
            invariant
                i <= self.stages@.len(),
                forall|k: int| 0 <= k < i ==> !is_full(#[trigger] self.stages@[k]),
            decreases self.stages@.len() - i,
        {
            if let PipeStage::Window { skip, left } = self.stages[i] {
                if skip == 0 && left == 0 {
                    assert(is_full(self.stages@[i as int]));
                    return false;
                }
            }
            i += 1;
        }
        true
    }

    /// Let a row go on from the stage `at`; a row of the source goes on from stage 0, and one that a
    /// filter let through or that was projected from the next stage.
    pub fn offer(&mut self, at: usize, row: Row) -> (r: Step)
        ensures
            (final(self).stages@, r@) == passed(old(self).stages@, at as nat, row.deep_view()),
    {
        let ghost want = passed(self.stages@, at as nat, row.deep_view());
        let mut i: usize = at;
        while i < self.stages.len()
            invariant
                want == passed(old(self).stages@, at as nat, row.deep_view()),
                want == passed(self.stages@, i as nat, row.deep_view()),
            decreases self.stages@.len() - i,
        {
            match self.stages[i] {
                PipeStage::Filter { .. } => {
                    return Step::Judge { stage: i, row };
                },
                PipeStage::Project { .. } => {
                    return Step::Project { stage: i, row };
                },
                PipeStage::Window { skip, left } => {
                    if skip > 0 {
                        self.stages.set(i, PipeStage::Window { skip: skip - 1, left });
                        return Step::Dropped;
                    }
                    if left == 0 {
                        return Step::Dropped;
                    }
                    self.stages.set(i, PipeStage::Window { skip: 0, left: left - 1 });
                },
            }
            i += 1;
        }
        Step::Out(row)
    }

    /// Let a row that was judged at a stage go on, if the predicate holds of it.
    pub fn judged(&mut self, stage: usize, row: Row, verdict: &Value) -> (r: Step)
        requires
            stage < old(self).stages@.len(),
        ensures
            (final(self).stages@, r@) == if operators::holds(verdict@) {
                passed(old(self).stages@, (stage + 1) as nat, row.deep_view())
            } else {
                (old(self).stages@, StepView::Dropped)
            },
    {
        let total: usize = self.stages.len();
        if operators::is_true(verdict) {
            self.offer(stage + 1, row)
        } else {
            Step::Dropped
        }
    }
}

// ---------------------------------------------------------------- plans

/// The stages of a plan: its filters, projections and windows down to its source.
pub open spec fn stages_of(op: Operator) -> Seq<PipeStage>
    decreases op,
{
    if op.children@.len() != 1 {
        Seq::empty()
    } else {
        match op.node {
            OpNode::Filter => stages_of(op.children@[0]).push(PipeStage::Filter { id: op.id }),
            OpNode::Project { .. } => stages_of(op.children@[0]).push(PipeStage::Project { id: op.id }),
            OpNode::Limit { count, offset } => stages_of(op.children@[0]).push(
                PipeStage::Window { skip: offset, left: count },
            ),
            _ => Seq::empty(),
        }
    }
}

/// The operator that the rows of a plan come from, under its filters, projections and windows.
pub open spec fn source_of(op: Operator) -> Operator
    decreases op,
{
    if op.children@.len() == 1 && (op.node is Filter || op.node is Project || op.node is Limit) {
        source_of(op.children@[0])
    } else {
        op
    }
}

/// The stages of a plan, and the operator that its rows come from.
pub fn open_pipe(op: &Operator) -> (r: (Pipe, &Operator))
    ensures
        r.0.stages@ == stages_of(*op),
        *r.1 == source_of(*op),
    decreases *op,
{
    if op.children.len() == 1 {
        let stage: Option<PipeStage> = match &op.node {
            OpNode::Filter => Some(PipeStage::Filter { id: op.id }),
            OpNode::Project { .. } => Some(PipeStage::Project { id: op.id }),
            OpNode::Limit { count, offset } => Some(PipeStage::Window { skip: *offset, left: *count }),
            _ => None,
        };
        if let Some(s) = stage {
            assert(decreases_to!(*op => op.children));
            assert(decreases_to!(op.children => op.children[0]));
            let (mut pipe, source) = open_pipe(&op.children[0]);
            pipe.stages.push(s);
            return (pipe, source);
        }
    }
    (Pipe { stages: Vec::new() }, op)
}

// ---------------------------------------------------------------- laws

/// What the predicates and the projections are of each row, by their operator's id.
pub struct Evaluator {
    pub judge: spec_fn(u64, Seq<ValueView>) -> ValueView,
    pub project: spec_fn(u64, Seq<ValueView>) -> Seq<ValueView>,
}

/// A row that stands before the stage `at` taken through all of them: the stages after it, and the row
/// that comes out, if one does.
pub open spec fn through(e: Evaluator, stages: Seq<PipeStage>, at: nat, row: Seq<ValueView>) -> (
    Seq<PipeStage>,
    Option<Seq<ValueView>>,
)
    decreases stages.len() - at,
{
    if at >= stages.len() {
        (stages, Some(row))
    } else {
        match stages[at as int] {
            PipeStage::Filter { id } => if operators::holds((e.judge)(id, row)) {
                through(e, stages, at + 1, row)
            } else {
                (stages, None)
            },
            PipeStage::Project { id } => through(e, stages, at + 1, (e.project)(id, row)),
            PipeStage::Window { skip, left } => if skip > 0 {
                (stages.update(at as int, PipeStage::Window { skip: (skip - 1) as u64, left }), None)
            } else if left == 0 {
                (stages, None)
            } else {
                through(
                    e,
                    stages.update(at as int, PipeStage::Window { skip: 0, left: (left - 1) as u64 }),
                    at + 1,
                    row,
                )
            },
        }
    }
}

/// Letting a row go on step by step, with each judgement and projection as evaluated, takes it through
/// all stages.
pub proof fn law_steps_take_a_row_through(e: Evaluator, stages: Seq<PipeStage>, at: nat, row: Seq<ValueView>)
    ensures
        through(e, stages, at, row) == match passed(stages, at, row) {
            (s, StepView::Dropped) => (s, None),
            (s, StepView::Out(r)) => (s, Some(r)),
            (s, StepView::Judge(k, r)) => if operators::holds((e.judge)(s[k as int]->Filter_id, r)) {
                through(e, s, k + 1, r)
            } else {
                (s, None)
            },
            (s, StepView::Project(k, r)) => through(
                e,
                s,
                k + 1,
                (e.project)(s[k as int]->Project_id, r),
            ),
        },
    decreases stages.len() - at,
{
    if at < stages.len() {
        if let PipeStage::Window { skip, left } = stages[at as int] {
            if skip == 0 && left > 0 {
                law_steps_take_a_row_through(
                    e,
                    stages.update(at as int, PipeStage::Window { skip: 0, left: (left - 1) as u64 }),
                    at + 1,
                    row,
                );
            }
        }
    }
}

/// Pulling from the first `n` rows of a source for as long as a further row can come through: the
/// stages at the end, and the rows that came out.
pub open spec fn pulled(e: Evaluator, stages: Seq<PipeStage>, rows: Rows, n: nat) -> (Seq<PipeStage>, Rows)
    decreases n,
{
    if n == 0 {
        (stages, Seq::empty())
    } else {
        let (s, out) = pulled(e, stages, rows, (n - 1) as nat);
        if !reads_on(s) {
            (s, out)
        } else {
            match through(e, s, 0, rows[n - 1]) {
                (t, Some(r)) => (t, out.push(r)),
                (t, None) => (t, out),
            }
        }
    }
}

/// What a stage makes of all rows at once.
pub open spec fn stage_rows(e: Evaluator, s: PipeStage, rows: Rows) -> Rows {
    match s {
        PipeStage::Filter { id } => operators::kept(
            rows,
            rows.map_values(|r: Seq<ValueView>| (e.judge)(id, r)),
            rows.len(),
        ),
        PipeStage::Project { id } => rows.map_values(|r: Seq<ValueView>| (e.project)(id, r)),
        PipeStage::Window { skip, left } => operators::limit_window(rows, skip as nat, left as nat),
    }
}

/// What the first `k` stages make of all rows at once, one after the other.
pub open spec fn chained(e: Evaluator, stages: Seq<PipeStage>, rows: Rows, k: nat) -> Rows
    decreases k,
{
    if k == 0 {
        rows
    } else {
        stage_rows(e, stages[k - 1], chained(e, stages, rows, (k - 1) as nat))
    }
}

/// What a further row `r` adds to the rows that come out of the first `k` stages.
spec fn given(e: Evaluator, stages: Seq<PipeStage>, rows: Rows, r: Seq<ValueView>, k: nat) -> Option<
    Seq<ValueView>,
>
    decreases k,
{
    if k == 0 {
        Some(r)
    } else {
        match given(e, stages, rows, r, (k - 1) as nat) {
            None => None,
            Some(x) => match stages[k - 1] {
                PipeStage::Filter { id } => if operators::holds((e.judge)(id, x)) {
                    Some(x)
                } else {
                    None
                },
                PipeStage::Project { id } => Some((e.project)(id, x)),
                PipeStage::Window { skip, left } => {
                    let n = chained(e, stages, rows, (k - 1) as nat).len();
                    if skip <= n < skip + left {
                        Some(x)
                    } else {
                        None
                    }
                },
            },
        }
    }
}

proof fn lemma_kept_prefix(a: Rows, va: Seq<ValueView>, b: Rows, vb: Seq<ValueView>, n: nat)
    requires
        n <= a.len(),
        n <= b.len(),
        n <= va.len(),
        n <= vb.len(),
        a.take(n as int) == b.take(n as int),
        va.take(n as int) == vb.take(n as int),
    ensures
        operators::kept(a, va, n) == operators::kept(b, vb, n),
    decreases n,
{
    if n > 0 {
        assert(a.take(n as int)[n - 1] == b.take(n as int)[n - 1]);
        assert(a.take(n - 1) =~= a.take(n as int).take(n - 1));
        assert(b.take(n - 1) =~= b.take(n as int).take(n - 1));
        assert(va.take(n - 1) =~= va.take(n as int).take(n - 1));
        assert(vb.take(n - 1) =~= vb.take(n as int).take(n - 1));
        let (x, y) = (va.take(n as int), vb.take(n as int));
        assert(x == y);
        assert(x[n - 1] == va[n - 1]);
        assert(y[n - 1] == vb[n - 1]);
        assert(a[n - 1] == b[n - 1]);
        lemma_kept_prefix(a, va, b, vb, (n - 1) as nat);
    }
}

proof fn lemma_stage_grows(e: Evaluator, s: PipeStage, rows: Rows, x: Seq<ValueView>)
    ensures
        stage_rows(e, s, rows.push(x)) == match s {
            PipeStage::Filter { id } => if operators::holds((e.judge)(id, x)) {
                stage_rows(e, s, rows).push(x)
            } else {
                stage_rows(e, s, rows)
            },
            PipeStage::Project { id } => stage_rows(e, s, rows).push((e.project)(id, x)),
            PipeStage::Window { skip, left } => if skip <= rows.len() < skip + left {
                stage_rows(e, s, rows).push(x)
            } else {
                stage_rows(e, s, rows)
            },
        },
{
    let more = rows.push(x);
    match s {
        PipeStage::Filter { id } => {
            let f = |r: Seq<ValueView>| (e.judge)(id, r);
            let n = rows.len();
            assert(more.take(n as int) =~= rows.take(n as int));
            assert(more.map_values(f).take(n as int) =~= rows.map_values(f).take(n as int));
            lemma_kept_prefix(more, more.map_values(f), rows, rows.map_values(f), n);
            assert(more.map_values(f)[n as int] == (e.judge)(id, x));
        },
        PipeStage::Project { id } => {
            let f = |r: Seq<ValueView>| (e.project)(id, r);
            assert(more.map_values(f) =~= rows.map_values(f).push((e.project)(id, x)));
        },
        PipeStage::Window { skip, left } => {
            let a = operators::limit_window(rows, skip as nat, left as nat);
            let b = operators::limit_window(more, skip as nat, left as nat);
            if skip <= rows.len() < skip + left {
                assert(b =~= a.push(x));
            } else {
                assert(b =~= a);
            }
        },
    }
}

proof fn lemma_chain_grows(e: Evaluator, stages: Seq<PipeStage>, rows: Rows, r: Seq<ValueView>, k: nat)
    requires
        k <= stages.len(),
    ensures
        chained(e, stages, rows.push(r), k) == match given(e, stages, rows, r, k) {
            Some(x) => chained(e, stages, rows, k).push(x),
            None => chained(e, stages, rows, k),
        },
    decreases k,
{
    if k > 0 {
        lemma_chain_grows(e, stages, rows, r, (k - 1) as nat);
        if let Some(x) = given(e, stages, rows, r, (k - 1) as nat) {
            lemma_stage_grows(e, stages[k - 1], chained(e, stages, rows, (k - 1) as nat), x);
        }
    }
}

proof fn lemma_given_none(e: Evaluator, stages: Seq<PipeStage>, rows: Rows, r: Seq<ValueView>, k: nat, j: nat)
    requires
        k <= j,
        given(e, stages, rows, r, k) is None,
    ensures
        given(e, stages, rows, r, j) is None,
    decreases j - k,
{
    if k < j {
        lemma_given_none(e, stages, rows, r, k + 1, j);
    }
}

/// How a window stands after `n` rows have come to it.
spec fn after(s: PipeStage, n: nat) -> PipeStage {
    match s {
        PipeStage::Window { skip, left } => if n <= skip {
            PipeStage::Window { skip: (skip - n) as u64, left }
        } else if n <= skip + left {
            PipeStage::Window { skip: 0, left: (left - (n - skip)) as u64 }
        } else {
            PipeStage::Window { skip: 0, left: 0 }
        },
        other => other,
    }
}

/// How the stages stand after the rows have been pulled.
spec fn standing(e: Evaluator, stages: Seq<PipeStage>, rows: Rows) -> Seq<PipeStage> {
    Seq::new(stages.len(), |k: int| after(stages[k], chained(e, stages, rows, k as nat).len()))
}

/// The stages while the row `r` is before the stage `k`: those that it has come through stand as after
/// it.
spec fn between(e: Evaluator, stages: Seq<PipeStage>, rows: Rows, r: Seq<ValueView>, k: nat) -> Seq<PipeStage> {
    Seq::new(
        stages.len(),
        |i: int|
            if i < k {
                standing(e, stages, rows.push(r))[i]
            } else {
                standing(e, stages, rows)[i]
            },
    )
}

proof fn lemma_row_goes_through(
    e: Evaluator,
    stages: Seq<PipeStage>,
    rows: Rows,
    r: Seq<ValueView>,
    k: nat,
    x: Seq<ValueView>,
)
    requires
        k <= stages.len(),
        reads_on(standing(e, stages, rows)),
        given(e, stages, rows, r, k) == Some(x),
    ensures
        through(e, between(e, stages, rows, r, k), k, x) == (
            standing(e, stages, rows.push(r)),
            given(e, stages, rows, r, stages.len()),
        ),
    decreases stages.len() - k,
{
    let here = between(e, stages, rows, r, k);
    let end = standing(e, stages, rows.push(r));
    if k == stages.len() {
        assert(here =~= end);
    } else {
        let n = chained(e, stages, rows, k).len();
        let next = between(e, stages, rows, r, k + 1);
        lemma_chain_grows(e, stages, rows, r, k);
        lemma_chain_grows(e, stages, rows, r, k + 1);
        assert(here[k as int] == after(stages[k as int], n));
        assert(next[k as int] == after(stages[k as int], n + 1));
        assert(!is_full(standing(e, stages, rows)[k as int]));
        assert(next =~= here.update(k as int, after(stages[k as int], n + 1)));
        if given(e, stages, rows, r, k + 1) is None {
            lemma_given_none(e, stages, rows, r, k + 1, stages.len());
            assert forall|j: int| k < j < stages.len() implies end[j] == here[j] by {
                lemma_given_none(e, stages, rows, r, k + 1, j as nat);
                lemma_chain_grows(e, stages, rows, r, j as nat);
            }
            assert(next =~= end);
            if !(stages[k as int] is Window) {
                assert(here =~= next);
            }
        } else {
            let y = given(e, stages, rows, r, k + 1)->Some_0;
            lemma_row_goes_through(e, stages, rows, r, k + 1, y);
            if !(stages[k as int] is Window) {
                assert(here =~= next);
            }
        }
    }
}

proof fn lemma_full_stage_adds_nothing(
    e: Evaluator,
    stages: Seq<PipeStage>,
    rows: Rows,
    r: Seq<ValueView>,
    j: nat,
)
    requires
        j < stages.len(),
        is_full(standing(e, stages, rows)[j as int]),
    ensures
        chained(e, stages, rows.push(r), stages.len()) == chained(e, stages, rows, stages.len()),
        is_full(standing(e, stages, rows.push(r))[j as int]),
{
    lemma_chain_grows(e, stages, rows, r, j);
    lemma_chain_grows(e, stages, rows, r, j + 1);
    lemma_chain_grows(e, stages, rows, r, stages.len());
    assert(given(e, stages, rows, r, j + 1) is None);
    lemma_given_none(e, stages, rows, r, j + 1, stages.len());
}

proof fn lemma_pulled(e: Evaluator, stages: Seq<PipeStage>, rows: Rows, n: nat)
    requires
        n <= rows.len(),
    ensures
        pulled(e, stages, rows, n).1 == chained(e, stages, rows.take(n as int), stages.len()),
        reads_on(pulled(e, stages, rows, n).0) ==> pulled(e, stages, rows, n).0 == standing(
            e,
            stages,
            rows.take(n as int),
        ),
        !reads_on(pulled(e, stages, rows, n).0) ==> !reads_on(
            standing(e, stages, rows.take(n as int)),
        ),
    decreases n,
{
    if n == 0 {
        let none = rows.take(0);
        assert(none =~= Seq::empty());
        lemma_chain_of_none(e, stages, none, stages.len());
        assert forall|k: int| 0 <= k < stages.len() implies standing(e, stages, none)[k] == stages[k] by {
            lemma_chain_of_none(e, stages, none, k as nat);
        }
        assert(standing(e, stages, none) =~= stages);
    } else {
        lemma_pulled(e, stages, rows, (n - 1) as nat);
        let before = rows.take(n - 1);
        let r = rows[n - 1];
        assert(rows.take(n as int) =~= before.push(r));
        let (s, out) = pulled(e, stages, rows, (n - 1) as nat);
        if reads_on(s) {
            assert(between(e, stages, before, r, 0) =~= standing(e, stages, before));
            lemma_row_goes_through(e, stages, before, r, 0, r);
            lemma_chain_grows(e, stages, before, r, stages.len());
        } else {
            let st = standing(e, stages, before);
            let j = choose|j: int| 0 <= j < st.len() && is_full(#[trigger] st[j]);
            lemma_full_stage_adds_nothing(e, stages, before, r, j as nat);
            assert(is_full(standing(e, stages, before.push(r))[j]));
        }
    }
}

proof fn lemma_chain_of_none(e: Evaluator, stages: Seq<PipeStage>, none: Rows, k: nat)
    requires
        none.len() == 0,
        k <= stages.len(),
    ensures
        chained(e, stages, none, k) == none,
    decreases k,
{
    if k > 0 {
        lemma_chain_of_none(e, stages, none, (k - 1) as nat);
        assert(stage_rows(e, stages[k - 1], none) =~= none);
    }
}

/// Pulling the rows of a source one at a time, and stopping as soon as a window is full, gives exactly
/// the rows that the stages make of all rows at once.
pub proof fn law_pulling_gives_all_rows(e: Evaluator, stages: Seq<PipeStage>, rows: Rows)
    ensures
        pulled(e, stages, rows, rows.len()).1 == chained(e, stages, rows, stages.len()),
{
    lemma_pulled(e, stages, rows, rows.len());
    assert(rows.take(rows.len() as int) =~= rows);
}

/// A window over projections pulls no more rows than it skips and lets through.
pub proof fn law_window_pulls_no_more_than_it_needs(
    e: Evaluator,
    stages: Seq<PipeStage>,
    k: nat,
    rows: Rows,
    n: nat,
)
    requires
        n <= rows.len(),
        k < stages.len(),
        forall|i: int| 0 <= i < k ==> (#[trigger] stages[i]) is Project,
        stages[k as int] is Window,
        reads_on(pulled(e, stages, rows, n).0),
    ensures
        n < stages[k as int]->skip + stages[k as int]->left,
{
    lemma_pulled(e, stages, rows, n);
    let st = standing(e, stages, rows.take(n as int));
    lemma_projections_keep_count(e, stages, rows.take(n as int), k);
    assert(!is_full(st[k as int]));
}

proof fn lemma_projections_keep_count(e: Evaluator, stages: Seq<PipeStage>, rows: Rows, k: nat)
    requires
        k <= stages.len(),
        forall|i: int| 0 <= i < k ==> (#[trigger] stages[i]) is Project,
    ensures
        chained(e, stages, rows, k).len() == rows.len(),
    decreases k,
{
    if k > 0 {
        lemma_projections_keep_count(e, stages, rows, (k - 1) as nat);
        assert(stages[k - 1] is Project);
    }
}

/// The answers that a stream through filters, projections and windows gets are those of the evaluator,
/// and its source gives its rows.
pub open spec fn evaluates<O: ValueOrder>(
    e: Evaluator,
    o: &O,
    op: Operator,
    cx: ContextView,
    tape: Tape,
    used: nat,
) -> bool
    decreases op,
{
    if op.children@.len() == 1 && (op.node is Filter || op.node is Project || op.node is Limit) {
        &&& evaluates(e, o, op.children@[0], cx, tape, used)
        &&& (plan::flow_of(o, op.children@[0], cx, tape, used, true) matches FlowView::Rows(rows, None, u)
            && match op.node {
            OpNode::Filter => u < tape.len() && tape[u as int] == AnswerView::Values(
                rows.map_values(|r: Seq<ValueView>| (e.judge)(op.id, r)),
            ),
            OpNode::Project { .. } => u < tape.len() && tape[u as int] == AnswerView::Rows(
                rows.map_values(|r: Seq<ValueView>| (e.project)(op.id, r)),
                false,
            ),
            _ => true,
        })
    } else {
        plan::flow_of(o, op, cx, tape, used, true) matches FlowView::Rows(_, None, _)
    }
}

/// A stream through filters, projections and windows gives the rows that pulling from its source one
/// row at a time gives.
pub proof fn law_stream_gives_the_pulled_rows<O: ValueOrder>(
    e: Evaluator,
    o: &O,
    op: Operator,
    cx: ContextView,
    tape: Tape,
    used: nat,
)
    requires
        evaluates(e, o, op, cx, tape, used),
    ensures
        plan::flow_of(o, source_of(op), cx, tape, used, true) matches FlowView::Rows(rows, None, _)
            && plan::flow_of(o, op, cx, tape, used, true) matches FlowView::Rows(out, None, _) && out
            == pulled(e, stages_of(op), rows, rows.len()).1,
{
    lemma_stream_is_chained(e, o, op, cx, tape, used);
    let rows = plan::flow_of(o, source_of(op), cx, tape, used, true)->Rows_0;
    law_pulling_gives_all_rows(e, stages_of(op), rows);
}

proof fn lemma_chain_prefix(e: Evaluator, a: Seq<PipeStage>, b: Seq<PipeStage>, rows: Rows, k: nat)
    requires
        k <= a.len(),
        k <= b.len(),
        forall|i: int| 0 <= i < k ==> a[i] == b[i],
    ensures
        chained(e, a, rows, k) == chained(e, b, rows, k),
    decreases k,
{
    if k > 0 {
        lemma_chain_prefix(e, a, b, rows, (k - 1) as nat);
    }
}

proof fn lemma_stream_is_chained<O: ValueOrder>(
    e: Evaluator,
    o: &O,
    op: Operator,
    cx: ContextView,
    tape: Tape,
    used: nat,
)
    requires
        evaluates(e, o, op, cx, tape, used),
    ensures
        plan::flow_of(o, source_of(op), cx, tape, used, true) matches FlowView::Rows(rows, None, _)
            && plan::flow_of(o, op, cx, tape, used, true) matches FlowView::Rows(out, None, _) && out
            == chained(e, stages_of(op), rows, stages_of(op).len()),
    decreases op,
{
    if op.children@.len() == 1 && (op.node is Filter || op.node is Project || op.node is Limit) {
        let c = op.children@[0];
        lemma_stream_is_chained(e, o, c, cx, tape, used);
        let rows = plan::flow_of(o, source_of(op), cx, tape, used, true)->Rows_0;
        let inner = stages_of(c);
        let all = stages_of(op);
        lemma_chain_prefix(e, inner, all, rows, inner.len());
        let child = plan::flow_of(o, c, cx, tape, used, true);
        let given_rows = child->Rows_0;
        assert(given_rows == chained(e, all, rows, inner.len()));
        assert(all.len() == inner.len() + 1);
        assert(chained(e, all, rows, all.len()) == stage_rows(e, all[inner.len() as int], given_rows));
        assert(plan::flow_of(o, op, cx, tape, used, true) == plan::streamed(o, op, cx, tape, used));
    }
}

} // verus!
