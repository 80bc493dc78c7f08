//! What sorting and limits with ties give.
use vstd::prelude::*;
use crate::order;
use crate::order::{SortKey, ValueOrder};
use crate::sort;
use crate::sort::{KeyRows, TopN};
use crate::value::ValueView;

verus! {

/// Sorting puts every row at one place, none before a row that its keys come before, and leaves rows whose
/// keys tie in the order in which they came.
pub proof fn law_sorting_orders_and_is_stable<O: ValueOrder>(o: &O, keys: KeyRows, ks: Seq<SortKey>)
    requires
        sort::keyed(keys, ks.len()),
        keys.len() <= usize::MAX,
    ensures
        ({
            let at = sort::sorted_order(o, keys, ks);
            &&& at.no_duplicates()
            &&& forall|a: int| 0 <= a < at.len() ==> (#[trigger] at[a]) < keys.len()
            &&& forall|x: usize| x < keys.len() ==> #[trigger] at.contains(x)
            &&& forall|a: int, b: int|
                0 <= a < b < at.len() ==> !(order::keys_order(
                    o,
                    keys[#[trigger] at[a] as int],
                    keys[#[trigger] at[b] as int],
                    ks,
                    0,
                ) is Greater)
            &&& forall|a: int, b: int|
                0 <= a < b < at.len() && order::keys_order(
                    o,
                    keys[#[trigger] at[a] as int],
                    keys[#[trigger] at[b] as int],
                    ks,
                    0,
                ) is Equal ==> at[a] < at[b]
        }),
{
    sort::law_sorted_order_is_sorted(o, keys, ks);
    let at = sort::sorted_order(o, keys, ks);
    assert forall|a: int, b: int| 0 <= a < b < at.len() implies at[a] != at[b] by {
        assert(sort::before(o, keys, ks, at[a] as int, at[b] as int));
        order::lemma_keys_flip(o, keys[at[a] as int], keys[at[a] as int], ks, 0);
    }
    assert forall|x: usize| x < keys.len() implies #[trigger] at.contains(x) by {
        assert(sort::lists(at, x as int));
        let a = choose|a: int| 0 <= a < at.len() && #[trigger] at[a] == x as int;
        assert(at[a] == x);
    }
    assert forall|a: int, b: int| 0 <= a < b < at.len() implies !(order::keys_order(
        o,
        keys[#[trigger] at[a] as int],
        keys[#[trigger] at[b] as int],
        ks,
        0,
    ) is Greater) by {
        assert(sort::before(o, keys, ks, at[a] as int, at[b] as int));
    }
    assert forall|a: int, b: int|
        0 <= a < b < at.len() && order::keys_order(
            o,
            keys[#[trigger] at[a] as int],
            keys[#[trigger] at[b] as int],
            ks,
            0,
        ) is Equal implies at[a] < at[b] by {
        assert(sort::before(o, keys, ks, at[a] as int, at[b] as int));
    }
}

/// Rows are picked by their places.
pub proof fn law_rows_are_picked_by_place(rows: KeyRows, places: Seq<usize>)
    ensures
        sort::picked(rows, places).len() == places.len(),
        forall|i: int|
            0 <= i < places.len() ==> #[trigger] sort::picked(rows, places)[i] == rows[places[i] as int],
{
}

/// `FETCH FIRST n ROWS WITH TIES` skips `offset` rows and keeps `n`, or as many as there are, and after them
/// every further row, up to the first that does not tie with the last one. Of no rows it keeps none.
pub proof fn law_ties_extend_the_limit<O: ValueOrder>(
    o: &O,
    keys: KeyRows,
    ks: Seq<SortKey>,
    offset: nat,
    count: nat,
)
    ensures
        ({
            let (lo, hi) = sort::ties_range(o, keys, ks, offset, count);
            let kept = if offset + count <= keys.len() {
                offset + count
            } else {
                keys.len()
            };
            &&& count == 0 || offset >= keys.len() ==> lo == hi
            &&& count > 0 && offset < keys.len() ==> {
                &&& lo == offset
                &&& kept <= hi <= keys.len()
                &&& forall|j: int|
                    kept <= j < hi ==> order::keys_order(o, keys[kept - 1], #[trigger] keys[j], ks, 0)
                        is Equal
                &&& hi < keys.len() ==> !(order::keys_order(o, keys[kept - 1], keys[hi as int], ks, 0)
                    is Equal)
            }
        }),
{
    if count > 0 && offset < keys.len() {
        let kept = if offset + count <= keys.len() {
            offset + count
        } else {
            keys.len()
        };
        lemma_tie_end(o, keys, ks, kept - 1, kept);
    }
}

proof fn lemma_tie_end<O: ValueOrder>(o: &O, keys: KeyRows, ks: Seq<SortKey>, last: int, from: nat)
    requires
        from <= keys.len(),
    ensures
        ({
            let hi = sort::tie_end(o, keys, ks, last, from);
            &&& from <= hi <= keys.len()
            &&& forall|j: int|
                from <= j < hi ==> order::keys_order(o, keys[last], #[trigger] keys[j], ks, 0) is Equal
            &&& hi < keys.len() ==> !(order::keys_order(o, keys[last], keys[hi as int], ks, 0) is Equal)
        }),
    decreases keys.len() - from,
{
    if from < keys.len() && sort::ties(o, keys, ks, last, from as int) {
        lemma_tie_end(o, keys, ks, last, from + 1);
    }
}

/// A bounded sort that succeeds gives the first rows of the sorted order. It is refused only over a budget,
/// with the bytes that exceed it; without a budget it never is.
pub proof fn law_top_n_gives_the_first_rows<O: ValueOrder>(
    o: &O,
    keys: KeyRows,
    ks: Seq<SortKey>,
    sizes: Seq<usize>,
    m: nat,
    budget: usize,
)
    requires
        sort::keyed(keys, ks.len()),
        keys.len() <= usize::MAX,
    ensures
        match sort::top_n(o, keys, ks, sizes, m, budget, keys.len()) {
            TopN::Holds { kept, .. } => {
                let at = sort::sorted_order(o, keys, ks);
                &&& kept.len() == if m < at.len() {
                    m
                } else {
                    at.len()
                }
                &&& forall|i: int| 0 <= i < kept.len() ==> #[trigger] kept[i] == at[i]
            },
            TopN::Over(used) => budget != 0 && used > budget,
        },
{
    sort::law_top_n_is_the_sorted_prefix(o, keys, ks, sizes, m, budget);
    lemma_over(o, keys, ks, sizes, m, budget, keys.len());
}

proof fn lemma_over<O: ValueOrder>(
    o: &O,
    keys: KeyRows,
    ks: Seq<SortKey>,
    sizes: Seq<usize>,
    m: nat,
    budget: usize,
    n: nat,
)
    ensures
        sort::top_n(o, keys, ks, sizes, m, budget, n) matches TopN::Over(used) ==> budget != 0 && used > budget,
    decreases n,
{
    if n > 0 {
        lemma_over(o, keys, ks, sizes, m, budget, (n - 1) as nat);
    }
}

/// A bounded sort keeps the size of what it holds: while there is room a row adds its bytes, and a sort
/// that refuses a row does so exactly because the rows held with it exceed the budget.
pub proof fn law_top_n_counts_what_it_holds<O: ValueOrder>(
    o: &O,
    keys: KeyRows,
    ks: Seq<SortKey>,
    sizes: Seq<usize>,
    m: nat,
    budget: usize,
    n: nat,
)
    requires
        n < sizes.len(),
    ensures
        sort::top_n(o, keys, ks, sizes, m, budget, n) matches TopN::Holds { kept, bytes } ==> {
            let next = sort::top_n(o, keys, ks, sizes, m, budget, n + 1);
            &&& kept.len() < m && bytes + sizes[n as int] <= usize::MAX && (budget == 0 || bytes + sizes[n as int]
                <= budget) ==> (next matches TopN::Holds { bytes: b, .. } && b == bytes + sizes[n as int])
            &&& kept.len() < m && budget != 0 && budget < bytes + sizes[n as int] <= usize::MAX ==> next
                == TopN::Over((bytes + sizes[n as int]) as usize)
        },
{
}

} // verus!
