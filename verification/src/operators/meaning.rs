//! What the relational operators give, row by row.
use vstd::prelude::*;
use crate::operators;
use crate::operators::{ExpansionView, JoinKind};
use crate::order;
use crate::order::ValueOrder;
use crate::setops::Rows;
use crate::sort;
use crate::value::ValueView;

verus! {

// ---------------------------------------------------------------- filters and windows

/// A filter keeps a row exactly if its predicate is true, and drops it if that is false or NULL; the rows
/// that are kept stay in order.
pub proof fn law_filter_keeps_what_is_true(rows: Rows, verdicts: Seq<ValueView>, row: Seq<ValueView>, v: ValueView)
    requires
        verdicts.len() == rows.len(),
    ensures
        operators::kept(Seq::empty(), Seq::empty(), 0) == Rows::empty(),
        v == ValueView::Bool(true) ==> operators::kept(rows.push(row), verdicts.push(v), rows.len() + 1)
            == operators::kept(rows, verdicts, rows.len()).push(row),
        v != ValueView::Bool(true) ==> operators::kept(rows.push(row), verdicts.push(v), rows.len() + 1)
            == operators::kept(rows, verdicts, rows.len()),
{
    lemma_kept_prefix(rows, rows.push(row), verdicts, verdicts.push(v), rows.len());
}

proof fn lemma_kept_prefix(a: Rows, b: Rows, va: Seq<ValueView>, vb: Seq<ValueView>, n: nat)
    requires
        n <= a.len(),
        n <= va.len(),
        forall|i: int| 0 <= i < n ==> a[i] == b[i],
        forall|i: int| 0 <= i < n ==> va[i] == vb[i],
    ensures
        operators::kept(a, va, n) == operators::kept(b, vb, n),
    decreases n,
{
    if n > 0 {
        lemma_kept_prefix(a, b, va, vb, (n - 1) as nat);
        assert(a[n - 1] == b[n - 1]);
        assert(va[n - 1] == vb[n - 1]);
    }
}

/// `LIMIT` and `OFFSET` give the rows after the first `offset`, as many as there are, but no more than
/// `count`.
pub proof fn law_limit_counts_from_the_offset(rows: Rows, offset: nat, count: nat)
    ensures
        ({
            let out = operators::limit_window(rows, offset, count);
            &&& offset >= rows.len() ==> out.len() == 0
            &&& offset < rows.len() && count <= rows.len() - offset ==> out.len() == count
            &&& offset < rows.len() && count > rows.len() - offset ==> out.len() == rows.len() - offset
            &&& forall|i: int| 0 <= i < out.len() ==> #[trigger] out[i] == rows[offset + i]
        }),
{
}

/// `DISTINCT ON` keeps the first row of each key: a row is dropped exactly if an earlier one has its key.
pub proof fn law_distinct_on_keeps_the_first<O: ValueOrder>(
    o: &O,
    rows: Rows,
    keys: Rows,
    row: Seq<ValueView>,
    key: Seq<ValueView>,
)
    requires
        keys.len() == rows.len(),
    ensures
        operators::first_by_key(o, Seq::empty(), Seq::empty(), 0) == Rows::empty(),
        (exists|i: int| 0 <= i < keys.len() && order::same_group(o, #[trigger] keys[i], key))
            ==> operators::first_by_key(o, rows.push(row), keys.push(key), rows.len() + 1)
            == operators::first_by_key(o, rows, keys, rows.len()),
        !(exists|i: int| 0 <= i < keys.len() && order::same_group(o, #[trigger] keys[i], key))
            ==> operators::first_by_key(o, rows.push(row), keys.push(key), rows.len() + 1)
            == operators::first_by_key(o, rows, keys, rows.len()).push(row),
{
    lemma_first_prefix(o, rows, rows.push(row), keys, keys.push(key), rows.len());
    assert(keys.push(key).take(keys.len() as int) =~= keys);
}

proof fn lemma_first_prefix<O: ValueOrder>(o: &O, a: Rows, b: Rows, ka: Rows, kb: Rows, n: nat)
    requires
        n <= a.len() <= b.len(),
        n <= ka.len() <= kb.len(),
        forall|i: int| 0 <= i < n ==> a[i] == b[i],
        forall|i: int| 0 <= i < n ==> ka[i] == kb[i],
    ensures
        operators::first_by_key(o, a, ka, n) == operators::first_by_key(o, b, kb, n),
    decreases n,
{
    if n > 0 {
        lemma_first_prefix(o, a, b, ka, kb, (n - 1) as nat);
        assert(ka.take(n - 1) =~= kb.take(n - 1));
        assert(a[n - 1] == b[n - 1]);
        assert(ka[n - 1] == kb[n - 1]);
    }
}

// ---------------------------------------------------------------- joins

/// The row consists of NULLs.
pub open spec fn all_null(row: Seq<ValueView>) -> bool {
    forall|i: int| 0 <= i < row.len() ==> #[trigger] row[i] is Null
}

/// An inner join gives each left row with each right row that it matches, left columns first, in the order
/// of the left rows and then of the matches. A left join does too, and gives a left row that matches none
/// once, with NULLs.
pub proof fn law_join_pairs_a_row_with_its_matches(
    left: Rows,
    right: Rows,
    matches: Seq<Seq<usize>>,
    row: Seq<ValueView>,
    found: Seq<usize>,
    kind: JoinKind,
    left_width: nat,
    right_width: nat,
)
    requires
        matches.len() == left.len(),
        forall|i: int| 0 <= i < found.len() ==> (#[trigger] found[i]) < right.len(),
        kind is Inner || kind is Left,
    ensures
        operators::joined(Seq::empty(), right, Seq::empty(), kind, left_width, right_width)
            == Rows::empty(),
        ({
            let before = operators::joined(left, right, matches, kind, left_width, right_width);
            let after = operators::joined(
                left.push(row),
                right,
                matches.push(found),
                kind,
                left_width,
                right_width,
            );
            &&& before.len() <= after.len()
            &&& after.take(before.len() as int) == before
            &&& found.len() > 0 ==> after.len() == before.len() + found.len()
            &&& forall|i: int|
                0 <= i < found.len() ==> after[before.len() + i] == row + right[#[trigger] found[i] as int]
            &&& found.len() == 0 && kind is Inner ==> after.len() == before.len()
            &&& found.len() == 0 && kind is Left ==> after.len() == before.len() + 1
            &&& found.len() == 0 && kind is Left ==> {
                let last = after[before.len() as int];
                &&& last.len() == row.len() + right_width
                &&& last.take(row.len() as int) == row
                &&& all_null(last.skip(row.len() as int))
            }
        }),
{
    let n = left.len();
    lemma_probed_prefix(
        left,
        left.push(row),
        right,
        matches,
        matches.push(found),
        kind,
        right_width,
        n,
    );
    let before = operators::joined(left, right, matches, kind, left_width, right_width);
    let after = operators::joined(
        left.push(row),
        right,
        matches.push(found),
        kind,
        left_width,
        right_width,
    );
    let block = operators::probe_rows(row, right, found, kind, right_width);
    assert(before =~= operators::probed(left, right, matches, kind, right_width, n));
    assert(after =~= before + block);
    lemma_pairs(row, right, found, found.len());
    assert(after.take(before.len() as int) =~= before);
    if found.len() == 0 && kind is Left {
        let last = after[before.len() as int];
        assert(last == row + operators::nulls(right_width));
        assert(last.take(row.len() as int) =~= row);
        assert(last.skip(row.len() as int) =~= operators::nulls(right_width));
    }
    assert forall|i: int| 0 <= i < found.len() implies after[before.len() + i] == row + right[#[trigger] found[i]
        as int] by {
        assert(after[before.len() + i] == block[i]);
    }
}

proof fn lemma_pairs(row: Seq<ValueView>, right: Rows, found: Seq<usize>, n: nat)
    requires
        n <= found.len(),
        forall|i: int| 0 <= i < found.len() ==> (#[trigger] found[i]) < right.len(),
    ensures
        operators::pairs(row, right, found, n).len() == n,
        forall|i: int|
            0 <= i < n ==> #[trigger] operators::pairs(row, right, found, n)[i] == row + right[found[i] as int],
    decreases n,
{
    if n > 0 {
        lemma_pairs(row, right, found, (n - 1) as nat);
        assert(found[n - 1] < right.len());
    }
}

proof fn lemma_probed_prefix(
    a: Rows,
    b: Rows,
    right: Rows,
    ma: Seq<Seq<usize>>,
    mb: Seq<Seq<usize>>,
    kind: JoinKind,
    right_width: nat,
    n: nat,
)
    requires
        n <= a.len(),
        n <= ma.len(),
        forall|i: int| 0 <= i < n ==> a[i] == b[i],
        forall|i: int| 0 <= i < n ==> ma[i] == mb[i],
    ensures
        operators::probed(a, right, ma, kind, right_width, n) == operators::probed(
            b,
            right,
            mb,
            kind,
            right_width,
            n,
        ),
    decreases n,
{
    if n > 0 {
        lemma_probed_prefix(a, b, right, ma, mb, kind, right_width, (n - 1) as nat);
        assert(a[n - 1] == b[n - 1]);
        assert(ma[n - 1] == mb[n - 1]);
    }
}

/// A right join gives the rows of an inner join, and after them every right row that no left row matches,
/// with NULLs before it; a full join gives those after the rows of a left join.
pub proof fn law_right_and_full_joins_add_the_unmatched(
    left: Rows,
    right: Rows,
    matches: Seq<Seq<usize>>,
    left_width: nat,
    right_width: nat,
)
    ensures
        ({
            let rest = operators::unmatched_right(right, matches, left_width, right.len());
            &&& operators::joined(left, right, matches, JoinKind::Right, left_width, right_width)
                == operators::joined(left, right, matches, JoinKind::Inner, left_width, right_width) + rest
            &&& operators::joined(left, right, matches, JoinKind::Full, left_width, right_width)
                == operators::joined(left, right, matches, JoinKind::Left, left_width, right_width) + rest
        }),
{
    lemma_same_probe(left, right, matches, JoinKind::Right, JoinKind::Inner, right_width, left.len());
    lemma_same_probe(left, right, matches, JoinKind::Full, JoinKind::Left, right_width, left.len());
    let rest = operators::unmatched_right(right, matches, left_width, right.len());
    assert(operators::joined(left, right, matches, JoinKind::Right, left_width, right_width)
        =~= operators::joined(left, right, matches, JoinKind::Inner, left_width, right_width) + rest);
    assert(operators::joined(left, right, matches, JoinKind::Full, left_width, right_width)
        =~= operators::joined(left, right, matches, JoinKind::Left, left_width, right_width) + rest);
}

proof fn lemma_same_probe(
    left: Rows,
    right: Rows,
    matches: Seq<Seq<usize>>,
    a: JoinKind,
    b: JoinKind,
    right_width: nat,
    n: nat,
)
    requires
        (a is Right && b is Inner) || (a is Full && b is Left),
    ensures
        operators::probed(left, right, matches, a, right_width, n) == operators::probed(
            left,
            right,
            matches,
            b,
            right_width,
            n,
        ),
    decreases n,
{
    if n > 0 {
        lemma_same_probe(left, right, matches, a, b, right_width, (n - 1) as nat);
    }
}

/// The right rows that are not matched are exactly those that stand in no left row's matches, in order,
/// each after as many NULLs as the left side has columns.
pub proof fn law_unmatched_rows_stand_in_no_match(
    right: Rows,
    row: Seq<ValueView>,
    matches: Seq<Seq<usize>>,
    left_width: nat,
)
    requires
        right.len() < usize::MAX,
    ensures
        operators::unmatched_right(Seq::empty(), matches, left_width, 0) == Rows::empty(),
        (exists|i: int| 0 <= i < matches.len() && (#[trigger] matches[i]).contains(right.len() as usize))
            ==> operators::unmatched_right(right.push(row), matches, left_width, right.len() + 1)
            == operators::unmatched_right(right, matches, left_width, right.len()),
        !(exists|i: int| 0 <= i < matches.len() && (#[trigger] matches[i]).contains(right.len() as usize))
            ==> {
            let before = operators::unmatched_right(right, matches, left_width, right.len());
            let after = operators::unmatched_right(right.push(row), matches, left_width, right.len() + 1);
            &&& after.len() == before.len() + 1
            &&& after.drop_last() == before
            &&& after.last().len() == left_width + row.len()
            &&& all_null(after.last().take(left_width as int))
            &&& after.last().skip(left_width as int) == row
        },
{
    let n = right.len();
    lemma_unmatched_prefix(right, right.push(row), matches, left_width, n);
    let before = operators::unmatched_right(right, matches, left_width, n);
    let after = operators::unmatched_right(right.push(row), matches, left_width, n + 1);
    if exists|i: int| 0 <= i < matches.len() && (#[trigger] matches[i]).contains(n as usize) {
        let i = choose|i: int| 0 <= i < matches.len() && (#[trigger] matches[i]).contains(n as usize);
        let k = choose|k: int| 0 <= k < matches[i].len() && matches[i][k] == n as usize;
        assert(sort::lists(matches[i], n as int));
        assert(operators::is_matched(matches, n as int));
    } else {
        if operators::is_matched(matches, n as int) {
            let i = choose|i: int| 0 <= i < matches.len() && sort::lists(#[trigger] matches[i], n as int);
            let k = choose|k: int| 0 <= k < matches[i].len() && #[trigger] matches[i][k] == n;
            assert(matches[i][k] == n as usize);
            assert(matches[i].contains(n as usize));
        }
        assert(after == before.push(operators::nulls(left_width) + row));
        assert(after.drop_last() =~= before);
        assert(after.last().take(left_width as int) =~= operators::nulls(left_width));
        assert(after.last().skip(left_width as int) =~= row);
    }
}

proof fn lemma_unmatched_prefix(a: Rows, b: Rows, matches: Seq<Seq<usize>>, left_width: nat, n: nat)
    requires
        n <= a.len(),
        forall|i: int| 0 <= i < n ==> a[i] == b[i],
    ensures
        operators::unmatched_right(a, matches, left_width, n) == operators::unmatched_right(
            b,
            matches,
            left_width,
            n,
        ),
    decreases n,
{
    if n > 0 {
        lemma_unmatched_prefix(a, b, matches, left_width, (n - 1) as nat);
        assert(a[n - 1] == b[n - 1]);
    }
}

/// A join is built on its left side only if it is an inner join that merges no columns, and its right side
/// has at least four times as many rows.
pub proof fn law_small_left_sides_are_built_on(kind: JoinKind, merges: bool, left: nat, right: nat)
    ensures
        operators::builds_left(kind, merges, left, right) <==> kind is Inner && !merges && left + left + left
            + left <= right,
{
}

/// A lateral join gives each left row with those of its own right rows of which the condition is true; a
/// left or full one gives a row without such a partner once, with NULLs.
pub proof fn law_lateral_join_pairs_a_row_with_its_own(
    left: Seq<ValueView>,
    right: Rows,
    verdicts: Seq<ValueView>,
    kind: JoinKind,
    right_width: nat,
)
    requires
        verdicts.len() == right.len(),
    ensures
        ({
            let pairs = operators::all_pairs(left, right);
            let out = operators::lateral_rows(pairs, verdicts, left, kind, right_width);
            let some = exists|i: int| 0 <= i < verdicts.len() && #[trigger] verdicts[i] == ValueView::Bool(true);
            &&& pairs.len() == right.len()
            &&& forall|i: int| 0 <= i < pairs.len() ==> #[trigger] pairs[i] == left + right[i]
            &&& some ==> out == operators::kept(pairs, verdicts, pairs.len())
            &&& !some && (kind is Left || kind is Full) ==> out.len() == 1 && out[0].len() == left.len()
                + right_width && out[0].take(left.len() as int) == left && all_null(
                out[0].skip(left.len() as int),
            )
            &&& !some && !(kind is Left) && !(kind is Full) ==> out.len() == 0
        }),
{
    let pairs = operators::all_pairs(left, right);
    lemma_kept_some(pairs, verdicts, verdicts.len());
    let row = left + operators::nulls(right_width);
    assert(row.take(left.len() as int) =~= left);
    assert(row.skip(left.len() as int) =~= operators::nulls(right_width));
}

proof fn lemma_kept_some(rows: Rows, verdicts: Seq<ValueView>, n: nat)
    requires
        n <= verdicts.len(),
    ensures
        operators::kept(rows, verdicts, n).len() > 0 <==> exists|i: int|
            0 <= i < n && #[trigger] verdicts[i] == ValueView::Bool(true),
    decreases n,
{
    if n > 0 {
        lemma_kept_some(rows, verdicts, (n - 1) as nat);
        if verdicts[n - 1] == ValueView::Bool(true) {
        } else if exists|i: int| 0 <= i < n && #[trigger] verdicts[i] == ValueView::Bool(true) {
            let i = choose|i: int| 0 <= i < n && #[trigger] verdicts[i] == ValueView::Bool(true);
            assert(i < n - 1);
        }
    }
}

// ---------------------------------------------------------------- set-returning projections

/// A set-returning projection gives one row for each element, in order: the other columns of the row with
/// the element in its place, then the further columns of the set, NULL where one is shorter, and with
/// ordinality the number of the element, counted from one.
pub proof fn law_elements_become_rows(e: ExpansionView, i: int)
    requires
        0 <= i < e.elements.len() < i64::MAX,
        e.pos < e.scalars.len(),
    ensures
        operators::expansion_rows(e, false).len() == e.elements.len(),
        ({
            let row = operators::expansion_rows(e, false)[i];
            let w = e.scalars.len() as int;
            &&& row.len() == e.scalars.len() + e.extra.len()
            &&& row[e.pos as int] == e.elements[i]
            &&& forall|c: int| 0 <= c < w && c != e.pos ==> #[trigger] row[c] == e.scalars[c]
            &&& forall|c: int|
                0 <= c < e.extra.len() ==> row[w + c] == if i < (#[trigger] e.extra[c]).len() {
                    e.extra[c][i]
                } else {
                    ValueView::Null
                }
            &&& operators::expansion_rows(e, true).len() == e.elements.len()
            &&& operators::expansion_rows(e, true)[i] == row.push(ValueView::Int((i + 1) as i64))
        }),
{
}

/// The rows of several sets come one set after the other.
pub proof fn law_sets_are_expanded_in_order(sets: Seq<ExpansionView>, e: ExpansionView, ordinality: bool)
    ensures
        operators::expanded(Seq::empty(), ordinality, 0) == Rows::empty(),
        operators::expanded(sets.push(e), ordinality, sets.len() + 1) == operators::expanded(
            sets,
            ordinality,
            sets.len(),
        ) + operators::expansion_rows(e, ordinality),
{
    lemma_expanded_prefix(sets, sets.push(e), ordinality, sets.len());
}

proof fn lemma_expanded_prefix(a: Seq<ExpansionView>, b: Seq<ExpansionView>, ordinality: bool, n: nat)
    requires
        n <= a.len(),
        forall|i: int| 0 <= i < n ==> a[i] == b[i],
    ensures
        operators::expanded(a, ordinality, n) == operators::expanded(b, ordinality, n),
    decreases n,
{
    if n > 0 {
        lemma_expanded_prefix(a, b, ordinality, (n - 1) as nat);
        assert(a[n - 1] == b[n - 1]);
    }
}

} // verus!
