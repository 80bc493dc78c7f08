//! Recursive common table expressions: working sets, and the iteration to a fixpoint.
use vstd::prelude::*;
use crate::error::{Error, Stage};
use crate::memory;
use crate::order;
use crate::order::ValueOrder;
use crate::setops;
use crate::setops::Rows;
use crate::value::{Row, ValueView};

verus! {

// ---------------------------------------------------------------- working sets

/// One table and the rows bound to it.
pub struct Binding {
    pub table: u64,
    pub rows: Vec<Row>,
}

pub struct BindingView {
    pub table: u64,
    pub rows: Rows,
}

impl View for Binding {
    type V = BindingView;

    open spec fn view(&self) -> BindingView {
        BindingView { table: self.table, rows: self.rows.deep_view() }
    }
}

impl DeepView for Binding {
    type V = BindingView;

    open spec fn deep_view(&self) -> BindingView {
        self@
    }
}

/// The rows bound to tables. A later binding of a table stands in front of an earlier one until it is
/// taken off.
pub struct WorkingSets {
    bindings: Vec<Binding>,
}

/// The rows bound to `table` among the first `n` bindings: those of the last one.
pub open spec fn bound_rows(bindings: Seq<BindingView>, table: u64, n: nat) -> Option<Rows>
    decreases n,
{
    if n == 0 {
        None
    } else if bindings[n - 1].table == table {
        Some(bindings[n - 1].rows)
    } else {
        bound_rows(bindings, table, (n - 1) as nat)
    }
}

impl View for WorkingSets {
    type V = Seq<BindingView>;

    closed spec fn view(&self) -> Seq<BindingView> {
        self.bindings.deep_view()
    }
}

impl WorkingSets {
    /// No table is bound.
    pub fn new() -> (r: WorkingSets)
        ensures
            r@ == Seq::<BindingView>::empty(),
    {
        let bindings: Vec<Binding> = Vec::new();
        assert(bindings.deep_view() =~= Seq::empty());
        WorkingSets { bindings }
    }

    /// The rows bound to `table`; `None` for a table that is not bound.
    pub fn working_set(&self, table: u64) -> (r: Option<Vec<Row>>)
        ensures
            match bound_rows(self@, table, self@.len()) {
                Some(rows) => r matches Some(v) && v.deep_view() == rows,
                None => r is None,
            },
    {
        let ghost bv = self@;
        let mut n: usize = self.bindings.len();
        while n > 0
            invariant
                bv == self.bindings.deep_view(),
                n <= self.bindings@.len(),
                bound_rows(bv, table, bv.len()) == bound_rows(bv, table, n as nat),
            decreases n,
        {
            assert(bv[n - 1] == self.bindings@[n - 1]@);
            if self.bindings[n - 1].table == table {
                return Some(setops::clone_rows(&self.bindings[n - 1].rows));
            }
            n -= 1;
        }
        None
    }

    /// Bind `rows` to `table`.
    pub fn bind(&mut self, table: u64, rows: Vec<Row>)
        ensures
            final(self)@ == old(self)@.push(BindingView { table, rows: rows.deep_view() }),
    {
        let ghost before = self@;
        self.bindings.push(Binding { table, rows });
        assert(self@ =~= before.push(BindingView { table, rows: rows.deep_view() }));
    }

    /// Take off the last binding.
    pub fn unbind(&mut self)
        requires
            old(self)@.len() > 0,
        ensures
            final(self)@ == old(self)@.drop_last(),
    {
        let ghost before = self@;
        self.bindings.pop();
        assert(self@ =~= before.drop_last());
    }

    /// Copy the bindings.
    pub fn copy(&self) -> (r: WorkingSets)
        ensures
            r@ == self@,
    {
        let mut bindings: Vec<Binding> = Vec::new();
        let mut i: usize = 0;
        while i < self.bindings.len()
            invariant
                i <= self.bindings@.len(),
                bindings@.len() == i,
                forall|k: int| 0 <= k < i ==> (#[trigger] bindings@[k])@ == self.bindings@[k]@,
            decreases self.bindings@.len() - i,
        {
            bindings.push(
                Binding {
                    table: self.bindings[i].table,
                    rows: setops::clone_rows(&self.bindings[i].rows),
                },
            );
            i += 1;
        }
        assert(bindings.deep_view() =~= self.bindings.deep_view());
        WorkingSets { bindings }
    }
}

/// Binding a table gives its rows, and leaves every other table as it was.
pub proof fn law_binding_is_read_back(bindings: Seq<BindingView>, b: BindingView, table: u64)
    ensures
        bound_rows(bindings.push(b), table, bindings.len() + 1) == if table == b.table {
            Some(b.rows)
        } else {
            bound_rows(bindings, table, bindings.len())
        },
{
    if table != b.table {
        lemma_bound_prefix(bindings, b, table, bindings.len());
    }
}

proof fn lemma_bound_prefix(bindings: Seq<BindingView>, b: BindingView, table: u64, n: nat)
    requires
        n <= bindings.len(),
    ensures
        bound_rows(bindings.push(b), table, n) == bound_rows(bindings, table, n),
    decreases n,
{
    if n > 0 {
        lemma_bound_prefix(bindings, b, table, (n - 1) as nat);
    }
}

/// Taking off a binding restores what was bound before it.
pub proof fn law_unbinding_restores(bindings: Seq<BindingView>, b: BindingView)
    ensures
        bindings.push(b).drop_last() == bindings,
{
    assert(bindings.push(b).drop_last() =~= bindings);
}

// ---------------------------------------------------------------- the iteration

/// The rounds after which a recursion that goes on is given up.
pub const MAX_RECURSIVE_ITERATIONS: usize = 10_000_000;

/// A recursion under way: all rows so far, and those that the next round starts from.
pub struct Recursion {
    pub union_all: bool,
    pub accumulated: Vec<Row>,
    pub working: Vec<Row>,
}

/// Those of the first `n` produced rows that are new: not among the rows so far.
pub open spec fn new_rows<O: ValueOrder>(o: &O, known: Rows, produced: Rows, n: nat) -> Rows
    decreases n,
{
    if n == 0 {
        Seq::empty()
    } else {
        let head = new_rows(o, known, produced, (n - 1) as nat);
        if setops::member(o, known, produced[n - 1]) {
            head
        } else {
            head.push(produced[n - 1])
        }
    }
}

/// The rows that a round adds: all that it produced, or for `UNION` the first of each group that is
/// not there yet.
pub open spec fn added_rows<O: ValueOrder>(o: &O, union_all: bool, known: Rows, produced: Rows) -> Rows {
    if union_all {
        produced
    } else {
        let d = setops::distinct(o, produced);
        new_rows(o, known, d, d.len())
    }
}

/// Whether the rows exceed the budget in bytes, of which 0 is unlimited.
pub open spec fn over(budget: usize, rows: Rows) -> bool {
    budget != 0 && memory::clamp(memory::rows_size(rows, rows.len())) > budget
}

/// How a recursion goes on after a round.
pub enum Round {
    /// Another round is needed.
    Again(Recursion),
    /// The round added nothing: these are all rows.
    Done(Vec<Row>),
}

/// Start a recursion from the rows of its base term.
pub fn start_recursion<O: ValueOrder>(o: &O, union_all: bool, base: Vec<Row>) -> (r: Recursion)
    ensures
        r.union_all == union_all,
        r.accumulated.deep_view() == if union_all {
            base.deep_view()
        } else {
            setops::distinct(o, base.deep_view())
        },
        r.working.deep_view() == r.accumulated.deep_view(),
{
    let accumulated = if union_all {
        base
    } else {
        setops::dedupe_rows(o, base)
    };
    let working = setops::clone_rows(&accumulated);
    Recursion { union_all, accumulated, working }
}

fn keep_new<O: ValueOrder>(o: &O, known: &Vec<Row>, produced: Vec<Row>) -> (r: Vec<Row>)
    ensures
        r.deep_view() == new_rows(
            o,
            known.deep_view(),
            produced.deep_view(),
            produced@.len(),
        ),
{
    let ghost all = produced@;
    let ghost pv = produced.deep_view();
    let ghost kv = known.deep_view();
    let mut out: Vec<Row> = Vec::new();
    assert(out.deep_view() =~= Seq::empty());
    for row in it: produced
        invariant
            it.seq() == all,
            kv == known.deep_view(),
            pv.len() == all.len(),
            forall|i: int| 0 <= i < all.len() ==> pv[i] == (#[trigger] all[i]).deep_view(),
            out.deep_view() == new_rows(o, kv, pv, it.index() as nat),
    {
        let ghost before = out.deep_view();
        if !setops::contains_row(o, known, &row) {
            out.push(row);
            assert(out.deep_view() =~= before.push(row.deep_view()));
        }
    }
    out
}

/// Take the rows that a round produced. A round that adds nothing ends the recursion; one that
/// brings the rows over the budget is refused.
pub fn take_round<O: ValueOrder>(o: &O, state: Recursion, produced: Vec<Row>, budget: usize) -> (r: Result<
    Round,
    Error,
>)
    ensures
        ({
            let known = state.accumulated.deep_view();
            let added = added_rows(o, state.union_all, known, produced.deep_view());
            if added.len() == 0 {
                r matches Ok(Round::Done(rows)) && rows.deep_view() == known
            } else if over(budget, known + added) {
                r == Err::<Round, Error>(
                    Error::OutOfMemory {
                        budget,
                        used: memory::clamp(
                            memory::rows_size(known + added, (known + added).len()),
                        ),
                        stage: Stage::Recursive,
                    },
                )
            } else {
                r matches Ok(Round::Again(next)) && next.union_all == state.union_all
                    && next.accumulated.deep_view() == known + added && next.working.deep_view()
                    == added
            }
        }),
{
    let ghost known = state.accumulated.deep_view();
    let union_all: bool = state.union_all;
    let mut accumulated = state.accumulated;
    let fresh = if union_all {
        produced
    } else {
        keep_new(o, &accumulated, setops::dedupe_rows(o, produced))
    };
    let ghost added = fresh.deep_view();
    if fresh.len() == 0 {
        return Ok(Round::Done(accumulated));
    }
    let mut copy = setops::clone_rows(&fresh);
    accumulated.append(&mut copy);
    assert(accumulated.deep_view() =~= known + added);
    let used: usize = memory::rows_bytes(&accumulated);
    match memory::enforce_budget(budget, used, Stage::Recursive) {
        Ok(()) => Ok(Round::Again(Recursion { union_all, accumulated, working: fresh })),
        Err(e) => Err(e),
    }
}

/// Whether a round may still be run, after `rounds` of them.
pub fn may_go_on(rounds: usize) -> (r: Result<(), Error>)
    ensures
        rounds < MAX_RECURSIVE_ITERATIONS ==> r == Ok::<(), Error>(()),
        rounds >= MAX_RECURSIVE_ITERATIONS ==> r == Err::<(), Error>(Error::RecursionLimit),
{
    if rounds < MAX_RECURSIVE_ITERATIONS {
        Ok(())
    } else {
        Err(Error::RecursionLimit)
    }
}

proof fn lemma_new_rows<O: ValueOrder>(o: &O, known: Rows, produced: Rows, n: nat, v: Seq<ValueView>)
    requires
        n <= produced.len(),
    ensures
        setops::count(o, new_rows(o, known, produced, n), v) == if setops::member(o, known, v) {
            0
        } else {
            setops::count(o, produced.take(n as int), v)
        },
    decreases n,
{
    if n > 0 {
        let head = new_rows(o, known, produced, (n - 1) as nat);
        let last = produced[n - 1];
        lemma_new_rows(o, known, produced, (n - 1) as nat, v);
        assert(produced.take(n as int) =~= produced.take(n - 1).push(last));
        setops::lemma_count_push(o, produced.take(n - 1), last, v);
        setops::lemma_count_push(o, head, last, v);
        if order::same_group(o, last, v) {
            setops::lemma_count_group(o, known, last, v);
            setops::lemma_count_member(o, known, last);
            setops::lemma_count_member(o, known, v);
        }
    } else {
        assert(produced.take(0) =~= Seq::empty());
    }
}

/// A recursion by `UNION` never holds a group twice, and a round adds exactly the groups that it
/// produced and that were not there.
pub proof fn law_union_rounds_add_new_groups<O: ValueOrder>(
    o: &O,
    known: Rows,
    produced: Rows,
    v: Seq<ValueView>,
)
    requires
        setops::count(o, known, v) <= 1,
    ensures
        setops::count(o, known + added_rows(o, false, known, produced), v) == if setops::member(o, known, v)
            || setops::member(o, produced, v) {
            1nat
        } else {
            0nat
        },
{
    let d = setops::distinct(o, produced);
    let e = Seq::<Seq<ValueView>>::empty();
    lemma_new_rows(o, known, d, d.len(), v);
    assert(d.take(d.len() as int) =~= d);
    setops::lemma_count_concat(o, known, added_rows(o, false, known, produced), v);
    setops::law_set_operation_counts(o, setops::SetOp::Union, false, produced, e, v);
    assert(produced + e =~= produced);
    setops::lemma_count_member(o, known, v);
    setops::lemma_count_member(o, produced, v);
}

} // verus!
