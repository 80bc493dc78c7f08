//! The side that a hash join is built on does not change its rows.
use vstd::prelude::*;
use vstd::multiset::Multiset;
use crate::operators;
use crate::operators::JoinKind;
use crate::setops::Rows;
use crate::sort;
use crate::value::ValueView;

verus! {

/// A bag of rows.
pub type Bag = Multiset<Seq<ValueView>>;

/// The matches found for each left row and those found for each right row are the same matches, each
/// found once.
pub open spec fn same_matches(by_left: Seq<Seq<usize>>, by_right: Seq<Seq<usize>>) -> bool {
    &&& forall|i: int| 0 <= i < by_left.len() ==> once_below(#[trigger] by_left[i], by_right.len())
    &&& forall|j: int| 0 <= j < by_right.len() ==> once_below(#[trigger] by_right[j], by_left.len())
    &&& forall|i: int, j: int|
        #![trigger by_left[i], by_right[j]]
        0 <= i < by_left.len() && 0 <= j < by_right.len() ==> (sort::lists(by_left[i], j)
            <==> sort::lists(by_right[j], i))
}

/// The list holds nothing twice and nothing from `n` on.
pub open spec fn once_below(list: Seq<usize>, n: nat) -> bool {
    list.no_duplicates() && forall|k: int| 0 <= k < list.len() ==> #[trigger] list[k] < n
}

/// The row of a pair, if it is a match.
spec fn cell(found: bool, row: Seq<ValueView>) -> Bag {
    if found {
        Multiset::singleton(row)
    } else {
        Multiset::empty()
    }
}

/// A left row with those of the first `m` right rows that it matches.
spec fn across(left: Seq<ValueView>, right: Rows, list: Seq<usize>, m: nat) -> Bag
    decreases m,
{
    if m == 0 {
        Multiset::empty()
    } else {
        across(left, right, list, (m - 1) as nat).add(
            cell(sort::lists(list, m - 1), left + right[m - 1]),
        )
    }
}

/// A right row with those of the first `n` left rows that it matches.
spec fn down(left: Rows, right: Seq<ValueView>, list: Seq<usize>, n: nat) -> Bag
    decreases n,
{
    if n == 0 {
        Multiset::empty()
    } else {
        down(left, right, list, (n - 1) as nat).add(
            cell(sort::lists(list, n - 1), left[n - 1] + right),
        )
    }
}

/// The first `n` left rows with those of the first `m` right rows that they match.
spec fn grid(left: Rows, right: Rows, by_left: Seq<Seq<usize>>, n: nat, m: nat) -> Bag
    decreases n,
{
    if n == 0 {
        Multiset::empty()
    } else {
        grid(left, right, by_left, (n - 1) as nat, m).add(
            across(left[n - 1], right, by_left[n - 1], m),
        )
    }
}

proof fn lemma_across_push(left: Seq<ValueView>, right: Rows, list: Seq<usize>, x: usize, m: nat)
    requires
        !sort::lists(list, x as int),
    ensures
        across(left, right, list.push(x), m) == across(left, right, list, m).add(
            cell(x < m, left + right[x as int]),
        ),
    decreases m,
{
    broadcast use vstd::multiset::group_multiset_axioms;

    let more = list.push(x);
    if m > 0 {
        lemma_across_push(left, right, list, x, (m - 1) as nat);
        lemma_lists_push(list, x, m - 1);
        assert(across(left, right, more, m) =~= across(left, right, list, m).add(
            cell(x < m, left + right[x as int]),
        ));
    } else {
        assert(across(left, right, more, m) =~= across(left, right, list, m).add(
            cell(x < m, left + right[x as int]),
        ));
    }
}

proof fn lemma_down_push(left: Rows, right: Seq<ValueView>, list: Seq<usize>, x: usize, n: nat)
    requires
        !sort::lists(list, x as int),
    ensures
        down(left, right, list.push(x), n) == down(left, right, list, n).add(
            cell(x < n, left[x as int] + right),
        ),
    decreases n,
{
    broadcast use vstd::multiset::group_multiset_axioms;

    let more = list.push(x);
    if n > 0 {
        lemma_down_push(left, right, list, x, (n - 1) as nat);
        lemma_lists_push(list, x, n - 1);
        assert(down(left, right, more, n) =~= down(left, right, list, n).add(
            cell(x < n, left[x as int] + right),
        ));
    } else {
        assert(down(left, right, more, n) =~= down(left, right, list, n).add(
            cell(x < n, left[x as int] + right),
        ));
    }
}

proof fn lemma_lists_push(list: Seq<usize>, x: usize, y: int)
    ensures
        sort::lists(list.push(x), y) <==> sort::lists(list, y) || x == y,
{
    let more = list.push(x);
    if sort::lists(list, y) {
        let a = choose|a: int| 0 <= a < list.len() && #[trigger] list[a] == y;
        assert(more[a] == y);
    }
    if x == y {
        assert(more[list.len() as int] == y);
    }
    if sort::lists(more, y) {
        let a = choose|a: int| 0 <= a < more.len() && #[trigger] more[a] == y;
        if a < list.len() {
            assert(list[a] == y);
        }
    }
}

/// A list without duplicates does not list its next entry before.
proof fn lemma_next_is_new(list: Seq<usize>, k: int)
    requires
        list.no_duplicates(),
        0 <= k < list.len(),
    ensures
        !sort::lists(list.take(k), list[k] as int),
        list.take(k + 1) == list.take(k).push(list[k]),
{
    assert(list.take(k + 1) =~= list.take(k).push(list[k]));
    if sort::lists(list.take(k), list[k] as int) {
        let a = choose|a: int| 0 <= a < k && #[trigger] list.take(k)[a] == list[k];
        assert(list[a] == list[k]);
    }
}

proof fn lemma_empty_across(left: Seq<ValueView>, right: Rows, m: nat)
    ensures
        across(left, right, Seq::empty(), m) == Bag::empty(),
    decreases m,
{
    broadcast use vstd::multiset::group_multiset_axioms;

    if m > 0 {
        lemma_empty_across(left, right, (m - 1) as nat);
        assert(across(left, right, Seq::empty(), m) =~= Bag::empty());
    }
}

proof fn lemma_empty_down(left: Rows, right: Seq<ValueView>, n: nat)
    ensures
        down(left, right, Seq::empty(), n) == Bag::empty(),
    decreases n,
{
    broadcast use vstd::multiset::group_multiset_axioms;

    if n > 0 {
        lemma_empty_down(left, right, (n - 1) as nat);
        assert(down(left, right, Seq::empty(), n) =~= Bag::empty());
    }
}

proof fn lemma_pairs_bag(left: Seq<ValueView>, right: Rows, list: Seq<usize>, k: nat)
    requires
        once_below(list, right.len()),
        k <= list.len(),
    ensures
        operators::pairs(left, right, list, k).to_multiset() == across(
            left,
            right,
            list.take(k as int),
            right.len(),
        ),
    decreases k,
{
    broadcast use vstd::seq_lib::group_to_multiset_ensures;
    broadcast use vstd::multiset::group_multiset_axioms;

    if k > 0 {
        let j = (k - 1) as nat;
        lemma_pairs_bag(left, right, list, j);
        lemma_next_is_new(list, j as int);
        lemma_across_push(left, right, list.take(j as int), list[j as int], right.len());
        let head = operators::pairs(left, right, list, j);
        let row = left + right[list[j as int] as int];
        assert(list[j as int] < right.len());
        assert(operators::pairs(left, right, list, k) == head.push(row));
        assert(head.push(row).to_multiset() =~= head.to_multiset().insert(row));
        assert(head.to_multiset().insert(row) =~= head.to_multiset().add(Multiset::singleton(row)));
    } else {
        lemma_empty_across(left, right, right.len());
        assert(list.take(0) =~= Seq::<usize>::empty());
        assert(operators::pairs(left, right, list, 0).to_multiset() =~= Bag::empty());
    }
}

proof fn lemma_left_pairs_bag(left: Rows, right: Seq<ValueView>, list: Seq<usize>, k: nat)
    requires
        once_below(list, left.len()),
        k <= list.len(),
    ensures
        operators::left_pairs(left, right, list, k).to_multiset() == down(
            left,
            right,
            list.take(k as int),
            left.len(),
        ),
    decreases k,
{
    broadcast use vstd::seq_lib::group_to_multiset_ensures;
    broadcast use vstd::multiset::group_multiset_axioms;

    if k > 0 {
        let j = (k - 1) as nat;
        lemma_left_pairs_bag(left, right, list, j);
        lemma_next_is_new(list, j as int);
        lemma_down_push(left, right, list.take(j as int), list[j as int], left.len());
        let head = operators::left_pairs(left, right, list, j);
        let row = left[list[j as int] as int] + right;
        assert(list[j as int] < left.len());
        assert(operators::left_pairs(left, right, list, k) == head.push(row));
        assert(head.push(row).to_multiset() =~= head.to_multiset().insert(row));
        assert(head.to_multiset().insert(row) =~= head.to_multiset().add(Multiset::singleton(row)));
    } else {
        lemma_empty_down(left, right, left.len());
        assert(list.take(0) =~= Seq::<usize>::empty());
        assert(operators::left_pairs(left, right, list, 0).to_multiset() =~= Bag::empty());
    }
}

proof fn lemma_probed_bag(left: Rows, right: Rows, by_left: Seq<Seq<usize>>, width: nat, n: nat)
    requires
        n <= left.len() == by_left.len(),
        forall|i: int| 0 <= i < by_left.len() ==> once_below(#[trigger] by_left[i], right.len()),
    ensures
        operators::probed(left, right, by_left, JoinKind::Inner, width, n).to_multiset() == grid(
            left,
            right,
            by_left,
            n,
            right.len(),
        ),
    decreases n,
{
    broadcast use vstd::seq_lib::group_to_multiset_ensures;
    broadcast use vstd::multiset::group_multiset_axioms;

    if n > 0 {
        let k = (n - 1) as nat;
        lemma_probed_bag(left, right, by_left, width, k);
        let list = by_left[k as int];
        lemma_pairs_bag(left[k as int], right, list, list.len());
        assert(list.take(list.len() as int) =~= list);
        let head = operators::probed(left, right, by_left, JoinKind::Inner, width, k);
        let tail = operators::pairs(left[k as int], right, list, list.len());
        vstd::seq_lib::lemma_multiset_commutative(head, tail);
    } else {
        assert(operators::probed(left, right, by_left, JoinKind::Inner, width, 0).to_multiset()
            =~= Bag::empty());
    }
}

/// The sum of `down` over the first `m` right rows.
spec fn columns(left: Rows, right: Rows, by_right: Seq<Seq<usize>>, m: nat) -> Bag
    decreases m,
{
    if m == 0 {
        Multiset::empty()
    } else {
        columns(left, right, by_right, (m - 1) as nat).add(
            down(left, right[m - 1], by_right[m - 1], left.len()),
        )
    }
}

proof fn lemma_probed_right_bag(left: Rows, right: Rows, by_right: Seq<Seq<usize>>, m: nat)
    requires
        m <= right.len() == by_right.len(),
        forall|j: int| 0 <= j < by_right.len() ==> once_below(#[trigger] by_right[j], left.len()),
    ensures
        operators::probed_right(left, right, by_right, m).to_multiset() == columns(
            left,
            right,
            by_right,
            m,
        ),
    decreases m,
{
    broadcast use vstd::seq_lib::group_to_multiset_ensures;
    broadcast use vstd::multiset::group_multiset_axioms;

    if m > 0 {
        let k = (m - 1) as nat;
        lemma_probed_right_bag(left, right, by_right, k);
        let list = by_right[k as int];
        lemma_left_pairs_bag(left, right[k as int], list, list.len());
        assert(list.take(list.len() as int) =~= list);
        let head = operators::probed_right(left, right, by_right, k);
        let tail = operators::left_pairs(left, right[k as int], list, list.len());
        vstd::seq_lib::lemma_multiset_commutative(head, tail);
    } else {
        assert(operators::probed_right(left, right, by_right, 0).to_multiset() =~= Bag::empty());
    }
}

/// One more column of the grid is what its right row adds.
proof fn lemma_grid_column(
    left: Rows,
    right: Rows,
    by_left: Seq<Seq<usize>>,
    by_right: Seq<Seq<usize>>,
    n: nat,
    m: nat,
)
    requires
        same_matches(by_left, by_right),
        n <= by_left.len(),
        0 < m <= by_right.len(),
    ensures
        grid(left, right, by_left, n, m) == grid(left, right, by_left, n, (m - 1) as nat).add(
            down(left, right[m - 1], by_right[m - 1], n),
        ),
    decreases n,
{
    broadcast use vstd::multiset::group_multiset_axioms;

    if n > 0 {
        lemma_grid_column(left, right, by_left, by_right, (n - 1) as nat, m);
        assert(sort::lists(by_left[n - 1], m - 1) <==> sort::lists(by_right[m - 1], n - 1));
        assert(grid(left, right, by_left, n, m) =~= grid(left, right, by_left, n, (m - 1) as nat).add(
            down(left, right[m - 1], by_right[m - 1], n),
        ));
    } else {
        assert(grid(left, right, by_left, n, m) =~= grid(left, right, by_left, n, (m - 1) as nat).add(
            down(left, right[m - 1], by_right[m - 1], n),
        ));
    }
}

proof fn lemma_grid_is_columns(
    left: Rows,
    right: Rows,
    by_left: Seq<Seq<usize>>,
    by_right: Seq<Seq<usize>>,
    m: nat,
)
    requires
        same_matches(by_left, by_right),
        left.len() == by_left.len(),
        m <= by_right.len(),
    ensures
        grid(left, right, by_left, left.len(), m) == columns(left, right, by_right, m),
    decreases m,
{
    if m > 0 {
        lemma_grid_is_columns(left, right, by_left, by_right, (m - 1) as nat);
        lemma_grid_column(left, right, by_left, by_right, left.len(), m);
    } else {
        lemma_empty_grid(left, right, by_left, left.len());
    }
}

proof fn lemma_empty_grid(left: Rows, right: Rows, by_left: Seq<Seq<usize>>, n: nat)
    ensures
        grid(left, right, by_left, n, 0) == Bag::empty(),
    decreases n,
{
    broadcast use vstd::multiset::group_multiset_axioms;

    if n > 0 {
        lemma_empty_grid(left, right, by_left, (n - 1) as nat);
        assert(grid(left, right, by_left, n, 0) =~= Bag::empty());
    }
}

/// An inner join has the same rows, each as often, whichever side it is built on; only their order
/// may differ.
pub proof fn law_build_side_keeps_the_rows(
    left: Rows,
    right: Rows,
    by_left: Seq<Seq<usize>>,
    by_right: Seq<Seq<usize>>,
    left_width: nat,
    right_width: nat,
)
    requires
        by_left.len() == left.len(),
        by_right.len() == right.len(),
        same_matches(by_left, by_right),
    ensures
        operators::joined(
            left,
            right,
            by_left,
            JoinKind::Inner,
            left_width,
            right_width,
        ).to_multiset() == operators::probed_right(left, right, by_right, right.len()).to_multiset(),
{
    let rows = operators::probed(left, right, by_left, JoinKind::Inner, right_width, left.len());
    assert(operators::joined(left, right, by_left, JoinKind::Inner, left_width, right_width) =~= rows);
    lemma_probed_bag(left, right, by_left, right_width, left.len());
    lemma_probed_right_bag(left, right, by_right, right.len());
    lemma_grid_is_columns(left, right, by_left, by_right, right.len());
}

} // verus!
