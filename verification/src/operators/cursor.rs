//! A hash join read row by row: the right rows are held, and the left rows are probed one at a time.
use vstd::prelude::*;
use crate::operators;
use crate::operators::JoinKind;
use crate::setops::Rows;
use crate::sort;
use crate::value::{Row, ValueView};

verus! {

/// A hash join that is being read. Its right rows are held, with a flag for each that has been matched;
/// the rows of the last left row that have not been given yet are pending; and once the left rows have
/// ended the unmatched right rows are given, from a place on.
#[derive(Debug, PartialEq, Eq)]
pub struct JoinCursor {
    right: Vec<Row>,
    kind: JoinKind,
    left_width: usize,
    right_width: usize,
    flags: Vec<bool>,
    pending: Vec<Row>,
    drain: Option<usize>,
}

pub struct CursorView {
    pub right: Rows,
    pub kind: JoinKind,
    pub left_width: nat,
    pub right_width: nat,
    pub flags: Seq<bool>,
    pub pending: Rows,
    pub drain: Option<nat>,
}

impl View for JoinCursor {
    type V = CursorView;

    closed spec fn view(&self) -> CursorView {
        CursorView {
            right: self.right.deep_view(),
            kind: self.kind,
            left_width: self.left_width as nat,
            right_width: self.right_width as nat,
            flags: self.flags@,
            pending: self.pending.deep_view(),
            drain: match self.drain {
                Some(i) => Some(i as nat),
                None => None,
            },
        }
    }
}

/// The next of a join.
#[derive(Debug, PartialEq, Eq)]
pub enum JoinNext {
    Row(Row),
    /// The next left row is to be probed.
    NeedsLeft,
    End,
}

pub enum NextView {
    Row(Seq<ValueView>),
    NeedsLeft,
    End,
}

impl View for JoinNext {
    type V = NextView;

    open spec fn view(&self) -> NextView {
        match self {
            JoinNext::Row(row) => NextView::Row(row.deep_view()),
            JoinNext::NeedsLeft => NextView::NeedsLeft,
            JoinNext::End => NextView::End,
        }
    }
}

/// A join whose left rows have not been read.
pub open spec fn opened(right: Rows, kind: JoinKind, left_width: nat, right_width: nat) -> CursorView {
    CursorView {
        right,
        kind,
        left_width,
        right_width,
        flags: Seq::new(right.len(), |j: int| false),
        pending: Seq::empty(),
        drain: None,
    }
}

/// The join after a left row that matches these right rows.
pub open spec fn after_probe(c: CursorView, left: Seq<ValueView>, matches: Seq<usize>) -> CursorView {
    CursorView {
        flags: Seq::new(c.flags.len(), |j: int| c.flags[j] || sort::lists(matches, j)),
        pending: c.pending + operators::probe_rows(left, c.right, matches, c.kind, c.right_width),
        ..c
    }
}

/// The join after its last left row: only one that keeps them goes on to the unmatched right rows.
pub open spec fn after_left(c: CursorView) -> CursorView {
    CursorView {
        drain: Some(
            if operators::keeps_right(c.kind) {
                0
            } else {
                c.right.len()
            },
        ),
        ..c
    }
}

/// The first right row from `i` on that has not been matched; the number of right rows where there is
/// none.
pub open spec fn unmatched_from(flags: Seq<bool>, i: nat) -> nat
    decreases flags.len() - i,
{
    if i >= flags.len() || !flags[i as int] {
        i
    } else {
        unmatched_from(flags, i + 1)
    }
}

/// What a join gives next.
pub open spec fn next_of(c: CursorView) -> (CursorView, NextView) {
    if c.pending.len() > 0 {
        (CursorView { pending: c.pending.drop_first(), ..c }, NextView::Row(c.pending[0]))
    } else {
        match c.drain {
            None => (c, NextView::NeedsLeft),
            Some(i) => {
                let j = unmatched_from(c.flags, i);
                if j < c.right.len() {
                    (
                        CursorView { drain: Some(j + 1), ..c },
                        NextView::Row(operators::nulls(c.left_width) + c.right[j as int]),
                    )
                } else {
                    (CursorView { drain: Some(j), ..c }, NextView::End)
                }
            },
        }
    }
}

impl JoinCursor {
    /// There is a flag for each right row, and no more right rows than those are drained.
    pub open spec fn wf(&self) -> bool {
        self@.flags.len() == self@.right.len() && (self@.drain matches Some(i) ==> i <= self@.right.len())
    }

    /// A join with these right rows.
    pub fn open_join(right: Vec<Row>, kind: JoinKind, left_width: usize, right_width: usize) -> (r: JoinCursor)
        ensures
            r.wf(),
            r@ == opened(right.deep_view(), kind, left_width as nat, right_width as nat),
    {
        let ghost rv = right.deep_view();
        let n: usize = right.len();
        let mut flags: Vec<bool> = Vec::new();
        let mut j: usize = 0;
        while j < n
            invariant
                j <= n,
                flags@.len() == j,
                forall|k: int| 0 <= k < j ==> #[trigger] flags@[k] == false,
            decreases n - j,
        {
            flags.push(false);
            j += 1;
        }
        let pending: Vec<Row> = Vec::new();
        assert(pending.deep_view() =~= Seq::<Seq<ValueView>>::empty());
        let r = JoinCursor { right, kind, left_width, right_width, flags, pending, drain: None };
        assert(r@.flags =~= opened(rv, kind, left_width as nat, right_width as nat).flags);
        r
    }

    /// Probe a left row, which matches these right rows.
    pub fn probe(&mut self, left: &Row, matches: &Vec<usize>)
        requires
            old(self).wf(),
        ensures
            final(self).wf(),
            final(self)@ == after_probe(old(self)@, left.deep_view(), matches@),
    {
        let ghost was = self@;
        operators::push_probe(
            left,
            &self.right,
            matches,
            self.kind,
            self.right_width,
            &mut self.pending,
        );
        operators::mark(&mut self.flags, matches);
        assert(self@.flags =~= after_probe(was, left.deep_view(), matches@).flags);
        assert(self@ == after_probe(was, left.deep_view(), matches@));
    }

    /// The left rows have ended.
    pub fn end_left(&mut self)
        requires
            old(self).wf(),
        ensures
            final(self).wf(),
            final(self)@ == after_left(old(self)@),
    {
        let keep: bool = match self.kind {
            JoinKind::Right | JoinKind::Full => true,
            _ => false,
        };
        if keep {
            self.drain = Some(0);
        } else {
            self.drain = Some(self.right.len());
        }
    }

    /// The next row of the join.
    pub fn try_next(&mut self) -> (r: JoinNext)
        requires
            old(self).wf(),
        ensures
            final(self).wf(),
            (final(self)@, r@) == next_of(old(self)@),
    {
        let ghost was = self@;
        if self.pending.len() > 0 {
            assert(was.pending[0] == self.pending@[0].deep_view());
            let row = self.pending.remove(0);
            assert(self.pending.deep_view() =~= was.pending.drop_first());
            return JoinNext::Row(row);
        }
        match self.drain {
            None => JoinNext::NeedsLeft,
            Some(from) => {
                let mut j: usize = from;
                while j < self.right.len() && self.flags[j]
                    invariant
                        self@ == was,
                        self.wf(),
                        j <= self.right@.len(),
                        self@.right.len() == self.right@.len(),
                        self@.flags == self.flags@,
                        unmatched_from(was.flags, from as nat) == unmatched_from(was.flags, j as nat),
                    decreases self.right@.len() - j,
                {
                    j += 1;
                }
                if j < self.right.len() {
                    assert(was.right[j as int] == self.right@[j as int].deep_view());
                    let pad = operators::null_row(self.left_width);
                    let row = operators::concat_rows(&pad, &self.right[j]);
                    self.drain = Some(j + 1);
                    JoinNext::Row(row)
                } else {
                    self.drain = Some(j);
                    JoinNext::End
                }
            },
        }
    }
}

/// An inner hash join that is being read from the right: the left rows are held, and the rows of the
/// last right row that have not been given yet are pending.
#[derive(Debug, PartialEq, Eq)]
pub struct LeftBuildCursor {
    left: Vec<Row>,
    pending: Vec<Row>,
}

impl LeftBuildCursor {
    pub closed spec fn held(&self) -> Rows {
        self.left.deep_view()
    }

    pub closed spec fn waiting(&self) -> Rows {
        self.pending.deep_view()
    }

    /// A join with these left rows.
    pub fn open_join(left: Vec<Row>) -> (r: LeftBuildCursor)
        ensures
            r.held() == left.deep_view(),
            r.waiting() == Seq::<Seq<ValueView>>::empty(),
    {
        let pending: Vec<Row> = Vec::new();
        assert(pending.deep_view() =~= Seq::<Seq<ValueView>>::empty());
        LeftBuildCursor { left, pending }
    }

    /// Probe a right row, which matches these left rows.
    pub fn probe(&mut self, right: &Row, matches: &Vec<usize>)
        ensures
            final(self).held() == old(self).held(),
            final(self).waiting() == old(self).waiting() + operators::left_pairs(
                old(self).held(),
                right.deep_view(),
                matches@,
                matches@.len(),
            ),
    {
        operators::push_left_pairs(&self.left, right, matches, &mut self.pending);
    }

    /// The next row; `None` where the next right row is to be probed.
    pub fn try_next(&mut self) -> (r: Option<Row>)
        ensures
            final(self).held() == old(self).held(),
            match r {
                Some(row) => old(self).waiting() == seq![row.deep_view()] + final(self).waiting(),
                None => old(self).waiting().len() == 0 && final(self).waiting().len() == 0,
            },
    {
        let ghost was = self.waiting();
        if self.pending.len() == 0 {
            return None;
        }
        assert(was[0] == self.pending@[0].deep_view());
        let row = self.pending.remove(0);
        assert(self.waiting() =~= was.drop_first());
        assert(was =~= seq![was[0]] + was.drop_first());
        Some(row)
    }
}

// ---------------------------------------------------------------- laws

/// The right rows from `i` on that have not been matched, with NULLs for the left columns.
pub open spec fn unmatched_rows(c: CursorView, i: nat) -> Rows
    decreases c.right.len() - i,
{
    if i >= c.right.len() {
        Seq::empty()
    } else if c.flags[i as int] {
        unmatched_rows(c, i + 1)
    } else {
        seq![operators::nulls(c.left_width) + c.right[i as int]] + unmatched_rows(c, i + 1)
    }
}

/// The rows that a join gives before it needs a left row or ends.
pub open spec fn gives(c: CursorView) -> Rows {
    c.pending + match c.drain {
        Some(i) => unmatched_rows(c, i),
        None => Seq::empty(),
    }
}

/// Reading on gives these rows one after another, and nothing else.
pub proof fn law_next_gives_the_rows_in_turn(c: CursorView)
    requires
        c.flags.len() == c.right.len(),
    ensures
        match next_of(c) {
            (d, NextView::Row(row)) => gives(c) == seq![row] + gives(d) && d.flags == c.flags && d.right
                == c.right,
            _ => gives(c).len() == 0,
        },
{
    if c.pending.len() > 0 {
        let d = next_of(c).0;
        if let Some(i) = c.drain {
            lemma_unmatched_rows_depend(c, d, i);
        }
        assert(gives(c) =~= seq![c.pending[0]] + gives(d));
    } else if let Some(i) = c.drain {
        lemma_skip_matched(c, i);
        let j = unmatched_from(c.flags, i);
        let d = next_of(c).0;
        if j < c.right.len() {
            lemma_unmatched_rows_depend(c, d, j + 1);
            assert(gives(c) =~= unmatched_rows(c, j));
            assert(gives(d) =~= unmatched_rows(c, j + 1));
        }
    }
}

proof fn lemma_unmatched_rows_depend(c: CursorView, d: CursorView, i: nat)
    requires
        c.right == d.right,
        c.flags == d.flags,
        c.left_width == d.left_width,
    ensures
        unmatched_rows(c, i) == unmatched_rows(d, i),
    decreases c.right.len() - i,
{
    if i < c.right.len() {
        lemma_unmatched_rows_depend(c, d, i + 1);
    }
}

proof fn lemma_skip_matched(c: CursorView, i: nat)
    requires
        c.flags.len() == c.right.len(),
    ensures
        unmatched_rows(c, i) == unmatched_rows(c, unmatched_from(c.flags, i)),
        unmatched_from(c.flags, i) >= i,
        unmatched_from(c.flags, i) < c.flags.len() ==> !c.flags[unmatched_from(c.flags, i) as int],
    decreases c.flags.len() - i,
{
    if i < c.flags.len() && c.flags[i as int] {
        lemma_skip_matched(c, i + 1);
    }
}

/// Reading a join of the first `n` left rows: the join at the end, and the rows that it gave.
pub open spec fn read_left(c: CursorView, left: Rows, matches: Seq<Seq<usize>>, n: nat) -> (CursorView, Rows)
    decreases n,
{
    if n == 0 {
        (c, Seq::empty())
    } else {
        let (d, out) = read_left(c, left, matches, (n - 1) as nat);
        let probed = after_probe(d, left[n - 1], matches[n - 1]);
        (CursorView { pending: Seq::empty(), ..probed }, out + gives(probed))
    }
}

proof fn lemma_read_left(
    right: Rows,
    kind: JoinKind,
    left_width: nat,
    right_width: nat,
    left: Rows,
    matches: Seq<Seq<usize>>,
    n: nat,
)
    requires
        n <= left.len(),
        matches.len() == left.len(),
    ensures
        ({
            let (c, out) = read_left(opened(right, kind, left_width, right_width), left, matches, n);
            &&& out == operators::probed(left, right, matches, kind, right_width, n)
            &&& c.right == right && c.kind == kind && c.left_width == left_width && c.right_width
                == right_width
            &&& c.pending.len() == 0 && c.drain is None && c.flags.len() == right.len()
            &&& forall|j: int|
                0 <= j < right.len() ==> #[trigger] c.flags[j] == operators::is_matched(
                    matches.take(n as int),
                    j,
                )
        }),
    decreases n,
{
    let start = opened(right, kind, left_width, right_width);
    if n == 0 {
        assert(matches.take(0).len() == 0);
    } else {
        lemma_read_left(right, kind, left_width, right_width, left, matches, (n - 1) as nat);
        let (d, out) = read_left(start, left, matches, (n - 1) as nat);
        let c = read_left(start, left, matches, n).0;
        let probed = after_probe(d, left[n - 1], matches[n - 1]);
        assert(gives(probed) =~= operators::probe_rows(
            left[n - 1],
            right,
            matches[n - 1],
            kind,
            right_width,
        ));
        assert forall|j: int| 0 <= j < right.len() implies #[trigger] c.flags[j] == operators::is_matched(
            matches.take(n as int),
            j,
        ) by {
            let now = matches.take(n as int);
            let was = matches.take(n - 1);
            assert(d.flags[j] == operators::is_matched(was, j));
            if operators::is_matched(was, j) {
                let a = choose|a: int| 0 <= a < was.len() && sort::lists(#[trigger] was[a], j);
                assert(now[a] == was[a]);
            }
            if sort::lists(matches[n - 1], j) {
                assert(now[n - 1] == matches[n - 1]);
            }
            if operators::is_matched(now, j) {
                let a = choose|a: int| 0 <= a < now.len() && sort::lists(#[trigger] now[a], j);
                if a < n - 1 {
                    assert(was[a] == now[a]);
                }
            }
        }
    }
}

proof fn lemma_unmatched_suffix(c: CursorView, matches: Seq<Seq<usize>>, i: nat)
    requires
        i <= c.right.len(),
        c.flags.len() == c.right.len(),
        forall|j: int| 0 <= j < c.right.len() ==> #[trigger] c.flags[j] == operators::is_matched(matches, j),
    ensures
        operators::unmatched_right(c.right, matches, c.left_width, c.right.len())
            == operators::unmatched_right(c.right, matches, c.left_width, i) + unmatched_rows(c, i),
    decreases c.right.len() - i,
{
    let n = c.right.len();
    if i < n {
        lemma_unmatched_suffix(c, matches, i + 1);
        let head = operators::unmatched_right(c.right, matches, c.left_width, i);
        let next = operators::unmatched_right(c.right, matches, c.left_width, i + 1);
        assert(c.flags[i as int] == operators::is_matched(matches, i as int));
        assert(next + unmatched_rows(c, i + 1) =~= head + unmatched_rows(c, i));
    } else {
        let all = operators::unmatched_right(c.right, matches, c.left_width, n);
        assert(all + Seq::<Seq<ValueView>>::empty() =~= all);
    }
}

/// Reading a join row by row gives exactly the rows of the join, in the same order.
pub proof fn law_reading_gives_the_joined_rows(
    right: Rows,
    kind: JoinKind,
    left_width: nat,
    right_width: nat,
    left: Rows,
    matches: Seq<Seq<usize>>,
)
    requires
        matches.len() == left.len(),
    ensures
        ({
            let start = opened(right, kind, left_width, right_width);
            let (c, out) = read_left(start, left, matches, left.len());
            out + gives(after_left(c)) == operators::joined(
                left,
                right,
                matches,
                kind,
                left_width,
                right_width,
            )
        }),
{
    let start = opened(right, kind, left_width, right_width);
    lemma_read_left(right, kind, left_width, right_width, left, matches, left.len());
    let (c, out) = read_left(start, left, matches, left.len());
    assert(matches.take(left.len() as int) =~= matches);
    let d = after_left(c);
    if operators::keeps_right(kind) {
        assert forall|j: int| 0 <= j < d.right.len() implies #[trigger] d.flags[j] == operators::is_matched(
            matches,
            j,
        ) by {
            assert(c.flags[j] == operators::is_matched(matches.take(left.len() as int), j));
        }
        lemma_unmatched_suffix(d, matches, 0);
        let none = operators::unmatched_right(right, matches, left_width, 0);
        assert(none + unmatched_rows(d, 0) =~= unmatched_rows(d, 0));
        assert(gives(d) =~= unmatched_rows(d, 0));
    } else {
        assert(gives(d) =~= Seq::<Seq<ValueView>>::empty());
    }
}

} // verus!
