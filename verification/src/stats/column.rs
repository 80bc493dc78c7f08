//! The statistics of one column.
use vstd::prelude::*;
use crate::error::Error;
use crate::order;
use crate::order::{value_compare, ColumnOrder, NullOrdering, Order, SortKey};
use crate::row;
use crate::row::{encode_one, Conversion, Encoding, Items, Outcome, OutcomeView, Writing};
use crate::sort;
use crate::sort::sort_places;
use crate::stats;
use crate::stats::Hll;
use crate::stats::common;
use crate::stats::common::{copy_bytes, SpaceSaving};
use crate::types::ColumnType;
use crate::value::{Value, ValueView};

verus! {

/// The number of counters for the most common values.
pub const MCV_CAPACITY: usize = 256;

/// The number of most common values that are kept.
pub const MCV_KEEP: usize = 32;

/// The number of buckets of a histogram.
pub const HISTOGRAM_BUCKETS: usize = 64;

// ---------------------------------------------------------------- extremes

/// `i` is the first place of a least value.
pub open spec fn is_least(values: Seq<ValueView>, i: int) -> bool {
    &&& 0 <= i < values.len()
    &&& forall|j: int|
        0 <= j < values.len() ==> !(order::value_order(values[i], #[trigger] values[j]) is Greater)
    &&& forall|j: int| 0 <= j < i ==> order::value_order(values[i], #[trigger] values[j]) is Less
}

/// `i` is the first place of a greatest value.
pub open spec fn is_greatest(values: Seq<ValueView>, i: int) -> bool {
    &&& 0 <= i < values.len()
    &&& forall|j: int|
        0 <= j < values.len() ==> !(order::value_order(values[i], #[trigger] values[j]) is Less)
    &&& forall|j: int| 0 <= j < i ==> order::value_order(values[i], #[trigger] values[j]) is Greater
}

/// The places of the least and of the greatest value; the first one of several that are equal.
pub fn min_max(values: &Vec<Value>) -> (r: Option<(usize, usize)>)
    ensures
        match r {
            Some((lo, hi)) => is_least(values.deep_view(), lo as int) && is_greatest(
                values.deep_view(),
                hi as int,
            ),
            None => values@.len() == 0,
        },
{
    if values.len() == 0 {
        return None;
    }
    let ghost vs = values.deep_view();
    let n: usize = values.len();
    let mut lo: usize = 0;
    let mut hi: usize = 0;
    let mut i: usize = 1;
    proof {
        order::law_value_order_is_total(vs[0], vs[0], vs[0]);
    }
    while i < n
        invariant
            vs == values.deep_view(),
            n == values@.len(),
            1 <= i <= n,
            lo < i,
            hi < i,
            forall|j: int|
                0 <= j < i ==> !(order::value_order(vs[lo as int], #[trigger] vs[j]) is Greater),
            forall|j: int| 0 <= j < lo ==> order::value_order(vs[lo as int], #[trigger] vs[j]) is Less,
            forall|j: int|
                0 <= j < i ==> !(order::value_order(vs[hi as int], #[trigger] vs[j]) is Less),
            forall|j: int|
                0 <= j < hi ==> order::value_order(vs[hi as int], #[trigger] vs[j]) is Greater,
        decreases n - i,
    {
        let ghost v = vs[i as int];
        assert(v == values@[i as int]@);
        assert(vs[lo as int] == values@[lo as int]@);
        assert(vs[hi as int] == values@[hi as int]@);
        let below = value_compare(&values[i], &values[lo]);
        let above = value_compare(&values[i], &values[hi]);
        proof {
            order::law_value_order_is_total(v, vs[lo as int], v);
            order::law_value_order_is_total(v, vs[hi as int], v);
            order::law_value_order_is_total(v, v, v);
        }
        match below {
            Order::Less => {
                proof {
                    assert forall|j: int| 0 <= j < i implies order::value_order(
                        v,
                        #[trigger] vs[j],
                    ) is Less by {
                        order::law_value_order_is_total(v, vs[lo as int], vs[j]);
                    }
                }
                lo = i;
            },
            _ => {},
        }
        match above {
            Order::Greater => {
                proof {
                    assert forall|j: int| 0 <= j < i implies order::value_order(
                        v,
                        #[trigger] vs[j],
                    ) is Greater by {
                        order::law_value_order_is_total(vs[j], vs[hi as int], v);
                        order::law_value_order_is_total(vs[j], vs[hi as int], vs[j]);
                        order::law_value_order_is_total(vs[hi as int], v, v);
                        order::law_value_order_is_total(vs[j], v, v);
                    }
                }
                hi = i;
            },
            _ => {},
        }
        i += 1;
    }
    Some((lo, hi))
}

// ---------------------------------------------------------------- histogram

/// The number of buckets that `n` values are divided into.
pub open spec fn buckets(n: nat) -> nat {
    if n < 64 {
        n
    } else {
        64
    }
}

/// Where the `i`-th boundary falls among `n` sorted values.
pub open spec fn cut(n: nat, i: nat) -> int {
    (i * (n - 1)) / (buckets(n) as int)
}

/// The first `m` boundaries among `n` sorted values, each place once.
pub open spec fn cuts(n: nat, m: nat) -> Seq<int>
    decreases m,
{
    if m == 0 {
        Seq::empty()
    } else if m >= 2 && cut(n, (m - 1) as nat) == cut(n, (m - 2) as nat) {
        cuts(n, (m - 1) as nat)
    } else {
        cuts(n, (m - 1) as nat).push(cut(n, (m - 1) as nat))
    }
}

/// Each value as a sort key of its own.
pub open spec fn singles(values: Seq<ValueView>) -> Seq<Seq<ValueView>> {
    Seq::new(values.len(), |i: int| seq![values[i]])
}

/// The one sort key of a histogram.
pub open spec fn upward() -> Seq<SortKey> {
    seq![SortKey { ascending: true, nulls: NullOrdering::Default }]
}

/// The places of the values in ascending order, equal ones as they came.
pub open spec fn ascending(values: Seq<ValueView>) -> Seq<usize> {
    sort::sorted_order(&ColumnOrder, singles(values), upward())
}

/// The places of the values that bound the buckets.
pub open spec fn boundaries(values: Seq<ValueView>) -> Seq<usize> {
    if values.len() == 0 {
        Seq::empty()
    } else {
        let at = cuts(values.len(), buckets(values.len()) + 1);
        Seq::new(at.len(), |i: int| ascending(values)[at[i]])
    }
}

proof fn lemma_cut(n: nat, i: nat)
    requires
        n > 0,
        i <= buckets(n),
    ensures
        0 <= cut(n, i) <= n - 1,
        cut(n, 0) == 0,
        cut(n, buckets(n)) == n - 1,
        i > 0 ==> cut(n, (i - 1) as nat) <= cut(n, i),
{
    let b = buckets(n) as int;
    let m = n - 1;
    assert(0 <= i * m <= b * m) by (nonlinear_arith)
        requires
            0 <= i <= b,
            m >= 0,
    ;
    vstd::arithmetic::div_mod::lemma_div_is_ordered(0, i * m, b);
    vstd::arithmetic::div_mod::lemma_div_is_ordered(i * m, b * m, b);
    vstd::arithmetic::div_mod::lemma_div_multiples_vanish(m, b);
    assert(0int / b == 0) by {
        vstd::arithmetic::div_mod::lemma_div_of0(b);
    }
    assert(0 * m == 0) by (nonlinear_arith);
    if i > 0 {
        assert((i - 1) * m <= i * m) by (nonlinear_arith)
            requires
                m >= 0,
        ;
        vstd::arithmetic::div_mod::lemma_div_is_ordered((i - 1) * m, i * m, b);
    }
}

proof fn lemma_cuts(n: nat, m: nat)
    requires
        n > 0,
        1 <= m <= buckets(n) + 1,
    ensures
        1 <= cuts(n, m).len() <= m,
        cuts(n, m)[0] == 0,
        cuts(n, m).last() == cut(n, (m - 1) as nat),
        forall|i: int| 0 <= i < cuts(n, m).len() ==> 0 <= #[trigger] cuts(n, m)[i] < n,
        forall|i: int, j: int|
            0 <= i < j < cuts(n, m).len() ==> #[trigger] cuts(n, m)[i] < #[trigger] cuts(n, m)[j],
    decreases m,
{
    lemma_cut(n, (m - 1) as nat);
    if m > 1 {
        lemma_cuts(n, (m - 1) as nat);
        let head = cuts(n, (m - 1) as nat);
        let all = cuts(n, m);
        if cut(n, (m - 1) as nat) != cut(n, (m - 2) as nat) {
            assert(all == head.push(cut(n, (m - 1) as nat)));
            assert forall|i: int, j: int| 0 <= i < j < all.len() implies #[trigger] all[i]
                < #[trigger] all[j] by {
                if j == head.len() && i < head.len() - 1 {
                    assert(head[i] < head[head.len() - 1]);
                }
            }
        }
    } else {
        reveal_with_fuel(cuts, 2);
    }
}

proof fn lemma_keyed(values: Seq<ValueView>)
    ensures
        sort::keyed(singles(values), upward().len()),
{
}

/// The places of the values that bound the buckets of an equi-depth histogram: evenly spaced among
/// the sorted values, from the least to the greatest.
pub fn equi_depth_histogram(values: &Vec<Value>) -> (r: Vec<usize>)
    ensures
        r@ == boundaries(values.deep_view()),
        forall|i: int| 0 <= i < r@.len() ==> (#[trigger] r@[i]) < values@.len(),
{
    let n: usize = values.len();
    if n == 0 {
        return Vec::new();
    }
    let ghost vs = values.deep_view();
    let mut keys: Vec<Vec<Value>> = Vec::new();
    let mut i: usize = 0;
    while i < n
        invariant
            vs == values.deep_view(),
            n == values@.len(),
            i <= n,
            keys@.len() == i,
            forall|k: int| 0 <= k < i ==> (#[trigger] keys@[k]).deep_view() == seq![vs[k]],
        decreases n - i,
    {
        let mut one: Vec<Value> = Vec::new();
        one.push(values[i].clone());
        assert(one.deep_view() =~= seq![vs[i as int]]);
        keys.push(one);
        i += 1;
    }
    assert(keys.deep_view() =~= singles(vs));
    let mut ks: Vec<SortKey> = Vec::new();
    ks.push(SortKey { ascending: true, nulls: NullOrdering::Default });
    assert(ks@ =~= upward());
    proof {
        lemma_keyed(vs);
    }
    let places = sort_places(&ColumnOrder, &keys, &ks);
    proof {
        lemma_full_length(vs, places@);
    }
    let count: usize = if n < HISTOGRAM_BUCKETS {
        n
    } else {
        HISTOGRAM_BUCKETS
    };
    let mut out: Vec<usize> = Vec::new();
    let mut last: Option<usize> = None;
    let mut b: usize = 0;
    while b <= count
        invariant
            vs == values.deep_view(),
            n == values@.len() == vs.len(),
            n > 0,
            count == buckets(n as nat),
            b <= count + 1,
            count <= 64,
            places@ == ascending(vs),
            places@.len() == n,
            forall|a: int| 0 <= a < n ==> (#[trigger] places@[a]) < n,
            match last {
                Some(p) => b > 0 && p == cut(n as nat, (b - 1) as nat),
                None => b == 0,
            },
            out@ == Seq::new(
                cuts(n as nat, b as nat).len(),
                |i: int| ascending(vs)[cuts(n as nat, b as nat)[i]],
            ),
            forall|a: int| 0 <= a < out@.len() ==> (#[trigger] out@[a]) < n,
        decreases count + 1 - b,
    {
        proof {
            lemma_cut(n as nat, b as nat);
            assert(0 <= b * (n - 1) <= 64 * (n - 1)) by (nonlinear_arith)
                requires
                    0 <= b <= 64,
                    n > 0,
            ;
        }
        let product: u128 = (b as u128) * ((n - 1) as u128);
        let pos: usize = (product / (count as u128)) as usize;
        assert(pos == cut(n as nat, b as nat));
        let again: bool = match last {
            Some(p) => p == pos,
            None => false,
        };
        let ghost before = cuts(n as nat, b as nat);
        if !again {
            out.push(places[pos]);
            last = Some(pos);
        }
        assert(out@ =~= Seq::new(
            cuts(n as nat, (b + 1) as nat).len(),
            |i: int| ascending(vs)[cuts(n as nat, (b + 1) as nat)[i]],
        ));
        b += 1;
    }
    out
}

proof fn lemma_full_length(vs: Seq<ValueView>, places: Seq<usize>)
    requires
        sort::is_sorted(&ColumnOrder, singles(vs), upward(), places, 0, vs.len() as int),
    ensures
        places.len() == vs.len(),
{
    lemma_keyed(vs);
    sort::lemma_sorted_len(&ColumnOrder, singles(vs), upward(), places, 0, vs.len() as int);
}

proof fn lemma_ascending(values: Seq<ValueView>, a: int, b: int)
    requires
        0 < values.len() <= usize::MAX,
        forall|i: int| 0 <= i < values.len() ==> !((#[trigger] values[i]) is Null),
        0 <= a <= b < values.len(),
        ascending(values).len() == values.len(),
    ensures
        !(order::value_order(
            values[ascending(values)[a] as int],
            values[ascending(values)[b] as int],
        ) is Greater),
{
    let p = ascending(values);
    lemma_keyed(values);
    sort::law_sorted_order_is_sorted(&ColumnOrder, singles(values), upward());
    let x = p[a] as int;
    let y = p[b] as int;
    assert(0 <= x < values.len() && 0 <= y < values.len());
    order::law_value_order_is_total(values[x], values[x], values[x]);
    if a < b {
        assert(sort::before(&ColumnOrder, singles(values), upward(), x, y));
        lemma_single_order(values[x], values[y]);
        assert(singles(values)[x] == seq![values[x]]);
        assert(singles(values)[y] == seq![values[y]]);
    }
}

proof fn lemma_single_order(a: ValueView, b: ValueView)
    requires
        !(a is Null),
        !(b is Null),
    ensures
        order::keys_order(&ColumnOrder, seq![a], seq![b], upward(), 0) == order::value_order(a, b),
{
    reveal_with_fuel(order::keys_order, 2);
    assert(order::key_at(upward(), 0).ascending);
}

/// The boundaries of a histogram ascend from a least to a greatest value, and there are at most one
/// more of them than there are buckets.
pub proof fn law_histogram_ascends_from_least_to_greatest(values: Seq<ValueView>)
    requires
        0 < values.len() <= usize::MAX,
        forall|i: int| 0 <= i < values.len() ==> !((#[trigger] values[i]) is Null),
    ensures
        ({
            let at = boundaries(values);
            &&& 1 <= at.len() <= 65
            &&& forall|a: int| 0 <= a < at.len() ==> (#[trigger] at[a]) < values.len()
            &&& forall|a: int, b: int|
                0 <= a < b < at.len() ==> !(order::value_order(
                    values[#[trigger] at[a] as int],
                    values[#[trigger] at[b] as int],
                ) is Greater)
            &&& forall|j: int|
                0 <= j < values.len() ==> !(order::value_order(
                    values[at[0] as int],
                    #[trigger] values[j],
                ) is Greater) && !(order::value_order(
                    values[j],
                    values[at.last() as int],
                ) is Greater)
        }),
{
    let n = values.len();
    let m = buckets(n) + 1;
    let at = boundaries(values);
    let c = cuts(n, m);
    let p = ascending(values);
    lemma_keyed(values);
    sort::law_sorted_order_is_sorted(&ColumnOrder, singles(values), upward());
    lemma_full_length(values, p);
    lemma_cuts(n, m);
    lemma_cut(n, 0);
    assert forall|a: int, b: int| 0 <= a < b < at.len() implies !(order::value_order(
        values[#[trigger] at[a] as int],
        values[#[trigger] at[b] as int],
    ) is Greater) by {
        assert(at[a] == p[c[a]] && at[b] == p[c[b]]);
        assert(c[a] < c[b]);
        lemma_ascending(values, c[a], c[b]);
    }
    assert forall|j: int| 0 <= j < values.len() implies !(order::value_order(
        values[at[0] as int],
        #[trigger] values[j],
    ) is Greater) && !(order::value_order(values[j], values[at.last() as int]) is Greater) by {
        assert(sort::lists(p, j));
        let a = choose|a: int| 0 <= a < p.len() && #[trigger] p[a] == j;
        assert(at[0] == p[0]);
        assert(at.last() == p[n - 1]);
        lemma_ascending(values, 0, a);
        lemma_ascending(values, a, n - 1);
    }
}

// ---------------------------------------------------------------- one column

/// How far gathering gets with the outcomes at hand.
pub enum Gathered {
    /// The values that are not NULL, and the tuple of each.
    Done { present: Seq<ValueView>, keys: Seq<Seq<u8>> },
    /// The value at this place could not be stored.
    Stopped { place: nat, how: Items },
}

/// Gathering the first `n` values.
pub open spec fn gathered(
    values: Seq<ValueView>,
    ty: ColumnType,
    answers: Seq<Seq<OutcomeView>>,
    n: nat,
) -> Gathered
    decreases n,
{
    if n == 0 {
        Gathered::Done { present: Seq::empty(), keys: Seq::empty() }
    } else {
        match gathered(values, ty, answers, (n - 1) as nat) {
            Gathered::Done { present, keys } => if values[n - 1] is Null {
                Gathered::Done { present, keys }
            } else {
                match row::stored_alone(values[n - 1], ty, row::outcomes_at(answers, (n - 1) as nat)) {
                    Items::Done { bytes, .. } => Gathered::Done {
                        present: present.push(values[n - 1]),
                        keys: keys.push(bytes),
                    },
                    how => Gathered::Stopped { place: (n - 1) as nat, how },
                }
            },
            stopped => stopped,
        }
    }
}

proof fn lemma_gathering_stops(
    values: Seq<ValueView>,
    ty: ColumnType,
    answers: Seq<Seq<OutcomeView>>,
    k: nat,
    n: nat,
)
    requires
        k <= n,
        gathered(values, ty, answers, k) is Stopped,
    ensures
        gathered(values, ty, answers, n) == gathered(values, ty, answers, k),
    decreases n - k,
{
    if k < n {
        lemma_gathering_stops(values, ty, answers, k + 1, n);
    }
}

/// The statistics of a column. The values are in their stored form.
#[derive(Debug, PartialEq, Eq)]
pub struct ColumnStats {
    /// The column's name.
    pub column: String,
    /// How many values are NULL.
    pub null_count: u64,
    /// The sketch that the number of different values is estimated from.
    pub distinct: Hll,
    /// A least value.
    pub min: Option<Vec<u8>>,
    /// A greatest value.
    pub max: Option<Vec<u8>>,
    /// The most common values, with their counts.
    pub most_common: Vec<(Vec<u8>, u64)>,
    /// The boundaries of an equi-depth histogram.
    pub histogram: Vec<Vec<u8>>,
}

/// How far `column_stats` got.
#[derive(Debug, PartialEq, Eq)]
pub enum Gathering {
    /// The statistics.
    Complete(ColumnStats),
    /// The next conversion to make, for the value at `place`.
    Needs { place: usize, conversion: Conversion },
}

/// `s` are the statistics of `total` values, of which `present` are not NULL and have these tuples.
pub open spec fn describes(
    s: ColumnStats,
    total: nat,
    present: Seq<ValueView>,
    keys: Seq<Seq<u8>>,
) -> bool {
    &&& s.null_count == total - present.len()
    &&& s.distinct@ == stats::sketched(keys)
    &&& match (s.min, s.max) {
        (Some(lo), Some(hi)) => {
            &&& exists|i: int| is_least(present, i) && lo@ == #[trigger] keys[i]
            &&& exists|i: int| is_greatest(present, i) && hi@ == #[trigger] keys[i]
        },
        (None, None) => present.len() == 0,
        _ => false,
    }
    &&& common::is_top(
        common::tallied(MCV_CAPACITY, keys),
        MCV_KEEP,
        common::counters_view(s.most_common@),
    )
    &&& s.histogram.deep_view() == Seq::new(
        boundaries(present).len(),
        |i: int| keys[boundaries(present)[i] as int],
    )
}

/// Compute the statistics of a column of type `ty` from all its values.
///
/// The entry of `answers` at a value's place holds the outcomes of the conversions made for it so
/// far. As long as one is missing the result is the conversion to make next; call again with its
/// outcome added. The first value that cannot be stored as a `ty` is refused.
pub fn column_stats(
    name: String,
    values: &Vec<Value>,
    ty: ColumnType,
    answers: &Vec<Vec<Outcome>>,
) -> (r: Result<Gathering, Error>)
    ensures
        match gathered(values.deep_view(), ty, answers.deep_view(), values@.len()) {
            Gathered::Done { present, keys } => r matches Ok(Gathering::Complete(s)) && s.column@
                == name@ && s.distinct.wf() && describes(s, values@.len(), present, keys),
            Gathered::Stopped { place, how: Items::Stopped(Writing::Needs { value, ty }) } => r matches Ok(
                Gathering::Needs { place: p, conversion },
            ) && p == place && conversion.value@ == value && conversion.ty == ty,
            Gathered::Stopped { how: Items::Stopped(Writing::Refused(f)), .. } => r matches Err(e)
                && row::reports(e, f),
            _ => false,
        },
{
    let n: usize = values.len();
    let ghost vs = values.deep_view();
    let ghost ans = answers.deep_view();
    let mut hll = Hll::new();
    let mut mcv = SpaceSaving::new(MCV_CAPACITY);
    let mut nulls: u64 = 0;
    let mut present: Vec<Value> = Vec::new();
    let mut keys: Vec<Vec<u8>> = Vec::new();
    let mut i: usize = 0;
    assert(present.deep_view() =~= Seq::<ValueView>::empty());
    assert(keys.deep_view() =~= Seq::<Seq<u8>>::empty());
    while i < n
        invariant
            n == values@.len(),
            vs == values.deep_view(),
            ans == answers.deep_view(),
            i <= n,
            nulls == i - present@.len(),
            present@.len() == keys@.len(),
            present@.len() <= i,
            gathered(vs, ty, ans, i as nat) == (Gathered::Done {
                present: present.deep_view(),
                keys: keys.deep_view(),
            }),
            hll.wf(),
            hll@ == stats::sketched(keys.deep_view()),
            mcv.wf(),
            mcv.room() == MCV_CAPACITY,
            mcv@ == common::tallied(MCV_CAPACITY, keys.deep_view()),
        decreases n - i,
    {
        assert(vs[i as int] == values@[i as int]@);
        let is_null: bool = match &values[i] {
            Value::Null => true,
            _ => false,
        };
        if is_null {
            nulls += 1;
        } else {
            match encode_one(&values[i], ty, answers, i) {
                Ok(Encoding::Complete(key)) => {
                    let ghost kv = keys.deep_view();
                    let ghost pv = present.deep_view();
                    proof {
                        assert(key.deep_view() =~= key@);
                        assert(kv.len() <= i);
                        common::lemma_counts_small(MCV_CAPACITY, kv);
                    }
                    hll.add(key.as_slice());
                    mcv.offer(copy_bytes(&key));
                    present.push(values[i].clone());
                    keys.push(key);
                    proof {
                        assert(keys.deep_view() =~= kv.push(key@));
                        assert(present.deep_view() =~= pv.push(vs[i as int]));
                        assert(keys.deep_view().drop_last() =~= kv);
                        assert(keys.deep_view().last() == key@);
                    }
                },
                Ok(Encoding::Needs(conversion)) => {
                    proof {
                        lemma_gathering_stops(vs, ty, ans, (i + 1) as nat, n as nat);
                    }
                    return Ok(Gathering::Needs { place: i, conversion });
                },
                Err(e) => {
                    proof {
                        lemma_gathering_stops(vs, ty, ans, (i + 1) as nat, n as nat);
                    }
                    return Err(e);
                },
            }
        }
        i += 1;
    }
    let ghost pv = present.deep_view();
    let ghost kv = keys.deep_view();
    let (min, max): (Option<Vec<u8>>, Option<Vec<u8>>) = match min_max(&present) {
        Some((lo, hi)) => {
            assert(kv[lo as int] == keys@[lo as int]@);
            assert(kv[hi as int] == keys@[hi as int]@);
            (Some(copy_bytes(&keys[lo])), Some(copy_bytes(&keys[hi])))
        },
        None => (None, None),
    };
    let at = equi_depth_histogram(&present);
    let mut histogram: Vec<Vec<u8>> = Vec::new();
    let mut b: usize = 0;
    while b < at.len()
        invariant
            kv == keys.deep_view(),
            kv.len() == keys@.len(),
            b <= at@.len(),
            forall|i: int| 0 <= i < at@.len() ==> (#[trigger] at@[i]) < keys@.len(),
            histogram.deep_view() == Seq::new(b as nat, |i: int| kv[at@[i] as int]),
        decreases at@.len() - b,
    {
        let ghost was = histogram.deep_view();
        let p: usize = at[b];
        assert(kv[p as int] == keys@[p as int]@);
        histogram.push(copy_bytes(&keys[p]));
        assert(histogram.deep_view() =~= was.push(kv[p as int]));
        assert(histogram.deep_view() =~= Seq::new((b + 1) as nat, |i: int| kv[at@[i] as int]));
        b += 1;
    }
    let most_common = mcv.top_k(MCV_KEEP);
    Ok(
        Gathering::Complete(
            ColumnStats {
                column: name,
                null_count: nulls,
                distinct: hll,
                min,
                max,
                most_common,
                histogram,
            },
        ),
    )
}

} // verus!
