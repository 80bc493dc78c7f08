//! What the statistics of a column say of its values.
use vstd::prelude::*;
use vstd::arithmetic::power2::{lemma_pow2_unfold, pow2};
use crate::order;
use crate::rng;
use crate::row::OutcomeView;
use crate::stats;
use crate::stats::column;
use crate::stats::column::Gathered;
use crate::stats::common;
use crate::stats::common::Counter;
use crate::types::ColumnType;
use crate::value::ValueView;

verus! {

// ---------------------------------------------------------------- least and greatest

/// The least of integers is an integer that none is below, and the greatest one that none is above.
pub proof fn law_least_and_greatest_integers(values: Seq<ValueView>, xs: Seq<i64>, lo: int, hi: int)
    requires
        values.len() == xs.len(),
        forall|i: int| 0 <= i < xs.len() ==> #[trigger] values[i] == ValueView::Int(xs[i]),
        column::is_least(values, lo),
        column::is_greatest(values, hi),
    ensures
        0 <= lo < xs.len(),
        0 <= hi < xs.len(),
        forall|j: int| 0 <= j < xs.len() ==> xs[lo] <= #[trigger] xs[j] <= xs[hi],
{
    assert forall|j: int| 0 <= j < xs.len() implies xs[lo] <= #[trigger] xs[j] <= xs[hi] by {
        assert(values[j] == ValueView::Int(xs[j]));
        assert(values[lo] == ValueView::Int(xs[lo]));
        assert(values[hi] == ValueView::Int(xs[hi]));
        order::meaning::law_integers_stand_by_size(xs[lo], xs[j]);
        order::meaning::law_integers_stand_by_size(xs[hi], xs[j]);
    }
}

/// The least of dates is the earliest, and the greatest is the latest.
pub proof fn law_earliest_and_latest_dates(values: Seq<ValueView>, days: Seq<i32>, lo: int, hi: int)
    requires
        values.len() == days.len(),
        forall|i: int| 0 <= i < days.len() ==> #[trigger] values[i] == ValueView::Date(days[i]),
        column::is_least(values, lo),
        column::is_greatest(values, hi),
    ensures
        0 <= lo < days.len(),
        0 <= hi < days.len(),
        forall|j: int| 0 <= j < days.len() ==> days[lo] <= #[trigger] days[j] <= days[hi],
{
    assert forall|j: int| 0 <= j < days.len() implies days[lo] <= #[trigger] days[j] <= days[hi] by {
        assert(values[j] == ValueView::Date(days[j]));
        assert(values[lo] == ValueView::Date(days[lo]));
        assert(values[hi] == ValueView::Date(days[hi]));
        order::meaning::law_dates_stand_by_day(days[lo], days[j]);
        order::meaning::law_dates_stand_by_day(days[hi], days[j]);
    }
}

/// The boundaries of a histogram of dates ascend from the earliest date to the latest.
pub proof fn law_date_histogram_ascends(values: Seq<ValueView>, days: Seq<i32>)
    requires
        0 < values.len() <= usize::MAX,
        values.len() == days.len(),
        forall|i: int| 0 <= i < days.len() ==> #[trigger] values[i] == ValueView::Date(days[i]),
    ensures
        ({
            let at = column::boundaries(values);
            &&& at.len() > 0
            &&& forall|a: int| 0 <= a < at.len() ==> (#[trigger] at[a]) < days.len()
            &&& forall|a: int, b: int|
                0 <= a < b < at.len() ==> days[#[trigger] at[a] as int] <= days[#[trigger] at[b] as int]
            &&& forall|j: int|
                0 <= j < days.len() ==> days[at[0] as int] <= #[trigger] days[j] <= days[at.last() as int]
        }),
{
    assert forall|i: int| 0 <= i < values.len() implies !((#[trigger] values[i]) is Null) by {}
    column::law_histogram_ascends_from_least_to_greatest(values);
    let at = column::boundaries(values);
    assert forall|a: int, b: int| 0 <= a < b < at.len() implies days[#[trigger] at[a] as int]
        <= days[#[trigger] at[b] as int] by {
        let x = at[a] as int;
        let y = at[b] as int;
        assert(values[x] == ValueView::Date(days[x]) && values[y] == ValueView::Date(days[y]));
        order::meaning::law_dates_stand_by_day(days[x], days[y]);
    }
    assert forall|j: int| 0 <= j < days.len() implies days[at[0] as int] <= #[trigger] days[j]
        <= days[at.last() as int] by {
        let x = at[0] as int;
        let y = at[at.len() - 1] as int;
        assert(values[x] == ValueView::Date(days[x]) && values[y] == ValueView::Date(days[y]));
        assert(values[j] == ValueView::Date(days[j]));
        order::meaning::law_dates_stand_by_day(days[x], days[j]);
        order::meaning::law_dates_stand_by_day(days[j], days[y]);
    }
}

/// A histogram of more than 64 values has 65 boundaries, which stand evenly among the sorted values: the
/// `i`-th of them `i` parts of 64 of the way from the first to the last.
pub proof fn law_histogram_divides_evenly(values: Seq<ValueView>, i: int)
    requires
        values.len() > 64,
        0 <= i <= 64,
    ensures
        column::boundaries(values).len() == 65,
        column::boundaries(values)[i] == column::ascending(values)[(i * (values.len() - 1)) / 64],
{
    lemma_cuts_spread(values.len(), 65);
}

proof fn lemma_cuts_spread(n: nat, m: nat)
    requires
        n > 64,
        m <= 65,
    ensures
        column::cuts(n, m).len() == m,
        forall|i: int|
            0 <= i < m ==> #[trigger] column::cuts(n, m)[i] == (i * (n - 1)) / 64,
    decreases m,
{
    if m > 0 {
        lemma_cuts_spread(n, (m - 1) as nat);
        if m >= 2 {
            let a = (m - 2) * (n - 1);
            let b = (m - 1) * (n - 1);
            assert(b == a + (n - 1)) by (nonlinear_arith)
                requires
                    a == (m - 2) * (n - 1),
                    b == (m - 1) * (n - 1),
            ;
            assert(b / 64 > a / 64);
        }
    }
}

// ---------------------------------------------------------------- what is gathered

/// The values of a column that statistics are of are those that are not NULL, in order, and so the others
/// are counted as NULL.
pub proof fn law_statistics_are_of_what_is_not_null(
    values: Seq<ValueView>,
    ty: ColumnType,
    answers: Seq<Seq<OutcomeView>>,
)
    ensures
        column::gathered(values, ty, answers, values.len()) matches Gathered::Done { present, keys }
            ==> present == values.filter(|v: ValueView| !(v is Null)) && keys.len() == present.len(),
{
    lemma_present(values, ty, answers, values.len());
    assert(values.take(values.len() as int) =~= values);
}

proof fn lemma_present(values: Seq<ValueView>, ty: ColumnType, answers: Seq<Seq<OutcomeView>>, n: nat)
    requires
        n <= values.len(),
    ensures
        column::gathered(values, ty, answers, n) matches Gathered::Done { present, keys } ==> present
            == values.take(n as int).filter(|v: ValueView| !(v is Null)) && keys.len() == present.len(),
    decreases n,
{
    let not_null = |v: ValueView| !(v is Null);
    reveal(Seq::filter);
    if n > 0 {
        lemma_present(values, ty, answers, (n - 1) as nat);
        let all = values.take(n as int);
        assert(all.drop_last() =~= values.take(n - 1));
        assert(all.last() == values[n - 1]);
    } else {
        assert(values.take(0) =~= Seq::empty());
    }
}

// ---------------------------------------------------------------- the sketch

/// A key falls into the register of the low twelve bits of its hash. Its rank is one more than the number
/// of leading zeros of the other 52 bits.
pub proof fn law_hashes_fall_into_registers(h: u64)
    ensures
        0 <= stats::register_of(h) < 4096,
        stats::register_of(h) == h as int - (h as int / 4096) * 4096,
        h < 4096 ==> stats::rank_of(h) == 53,
        h >= 4096 ==> 1 <= stats::rank_of(h) <= 52 && pow2((52 - stats::rank_of(h)) as nat) <= h as int / 4096
            < pow2((53 - stats::rank_of(h)) as nat),
{
    let w = h as nat / 4096;
    lemma_bits(w);
    if w > 0 {
        let l = stats::bit_length(w);
        vstd::arithmetic::power2::lemma2_to64_rest();
        if l > 52 {
            vstd::arithmetic::power2::lemma_pow2_strictly_increases(51, (l - 1) as nat);
            if l > 53 {
                vstd::arithmetic::power2::lemma_pow2_strictly_increases(52, (l - 1) as nat);
            }
            assert(false);
        }
    }
}

proof fn lemma_bits(w: nat)
    ensures
        w == 0 ==> stats::bit_length(w) == 0,
        w > 0 ==> stats::bit_length(w) >= 1 && pow2((stats::bit_length(w) - 1) as nat) <= w < pow2(
            stats::bit_length(w),
        ),
    decreases w,
{
    if w > 0 {
        lemma_bits(w / 2);
        let l = stats::bit_length(w);
        lemma_pow2_unfold(l);
        if w == 1 {
            assert(stats::bit_length(0) == 0);
            vstd::arithmetic::power2::lemma2_to64();
        } else {
            lemma_pow2_unfold((l - 1) as nat);
        }
    }
}

/// Each register holds the greatest rank of the keys that fall into it, and zero if none does.
pub proof fn law_registers_hold_the_greatest_rank(keys: Seq<Seq<u8>>, r: int)
    requires
        0 <= r < 4096,
    ensures
        stats::sketched(keys).len() == 4096,
        forall|k: int|
            0 <= k < keys.len() && stats::register_of(rng::hashed(#[trigger] keys[k])) == r ==> stats::rank_of(
                rng::hashed(keys[k]),
            ) <= stats::sketched(keys)[r],
        stats::sketched(keys)[r] == 0 || exists|k: int|
            0 <= k < keys.len() && stats::register_of(rng::hashed(#[trigger] keys[k])) == r && stats::rank_of(
                rng::hashed(keys[k]),
            ) == stats::sketched(keys)[r],
{
    stats::lemma_sketched(keys, r);
    assert forall|k: int|
        0 <= k < keys.len() && stats::register_of(rng::hashed(#[trigger] keys[k])) == r implies stats::rank_of(
        rng::hashed(keys[k]),
    ) <= stats::sketched(keys)[r] by {
        assert(stats::falls(keys[k], r, stats::rank_of(rng::hashed(keys[k]))));
    }
    if stats::sketched(keys)[r] != 0 {
        let k = choose|k: int|
            0 <= k < keys.len() && #[trigger] stats::falls(keys[k], r, stats::sketched(keys)[r]);
        assert(stats::register_of(rng::hashed(keys[k])) == r);
    }
}

/// The registers that are zero are counted one by one.
pub proof fn law_empty_registers_are_counted(registers: Seq<u8>, r: u8)
    ensures
        stats::empty_registers(Seq::empty(), 0) == 0,
        stats::empty_registers(registers.push(r), registers.len() + 1) == stats::empty_registers(
            registers,
            registers.len(),
        ) + if r == 0 {
            1nat
        } else {
            0nat
        },
{
    lemma_empty_prefix(registers, registers.push(r), registers.len());
}

proof fn lemma_empty_prefix(a: Seq<u8>, b: Seq<u8>, n: nat)
    requires
        n <= a.len(),
        forall|i: int| 0 <= i < n ==> a[i] == b[i],
    ensures
        stats::empty_registers(a, n) == stats::empty_registers(b, n),
    decreases n,
{
    if n > 0 {
        lemma_empty_prefix(a, b, (n - 1) as nat);
        assert(a[n - 1] == b[n - 1]);
    }
}

// ---------------------------------------------------------------- the most common values

/// The most common values are those with the greatest counts, the most common first, none that was seen
/// but once, and no more than asked for; of two with one count the lesser key comes first.
pub proof fn law_most_common_come_first(table: Seq<Counter>, k: usize, top: Seq<Counter>)
    requires
        common::is_top(table, k, top),
    ensures
        top.len() <= k,
        forall|i: int| 0 <= i < top.len() ==> table.contains(#[trigger] top[i]) && top[i].1 >= 2,
        forall|i: int, j: int| 0 <= i < j < top.len() ==> (#[trigger] top[i]).1 >= (#[trigger] top[j]).1,
        forall|i: int, j: int|
            0 <= i < j < top.len() && (#[trigger] top[i]).1 == (#[trigger] top[j]).1 ==> order::lex_order(
                top[i].0,
                top[j].0,
            ) is Less,
        forall|e: int, i: int|
            0 <= e < table.len() && 0 <= i < top.len() && (#[trigger] table[e]).1 > (#[trigger] top[i]).1
                ==> top.contains(table[e]),
        top.len() < k ==> forall|e: int|
            0 <= e < table.len() && (#[trigger] table[e]).1 >= 2 ==> top.contains(table[e]),
{
}

/// In a full table a new key takes the place of the least common one, and of several such of the one with
/// the least key; it is counted once more than that was. A key that is in the table is counted once more,
/// and one that finds room is counted once.
pub proof fn law_new_keys_replace_the_least_common(table: Seq<Counter>, capacity: usize, key: Seq<u8>, i: int)
    requires
        common::no_twins(table),
        table.len() <= capacity,
        0 <= i < table.len(),
    ensures
        table[i].0 == key ==> common::offered(table, capacity, key) == table.update(
            i,
            (key, (table[i].1 + 1) as u64),
        ),
        (forall|j: int| 0 <= j < table.len() ==> (#[trigger] table[j]).0 != key) && table.len() < capacity
            ==> common::offered(table, capacity, key) == table.push((key, 1u64)),
        (forall|j: int| 0 <= j < table.len() ==> (#[trigger] table[j]).0 != key) && table.len() == capacity && (
        forall|j: int|
            0 <= j < table.len() && j != i ==> table[i].1 < (#[trigger] table[j]).1 || (table[i].1
                == table[j].1 && order::lex_order(table[i].0, table[j].0) is Less))
            ==> common::offered(table, capacity, key) == table.update(i, (key, (table[i].1 + 1) as u64)),
{
    if table[i].0 == key {
        common::lemma_place(table, i);
    } else if forall|j: int|
        0 <= j < table.len() && j != i ==> table[i].1 < (#[trigger] table[j]).1 || (table[i].1 == table[j].1
            && order::lex_order(table[i].0, table[j].0) is Less) {
        assert(common::is_victim(table, i));
        common::lemma_one_victim(table, i);
    }
}

} // verus!
