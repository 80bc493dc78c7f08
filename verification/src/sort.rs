//! Sorting rows, and the operators that rest on it.
use vstd::prelude::*;
use crate::error::{Error, Stage};
use crate::memory;
use crate::order;
use crate::order::{Order, SortKey, ValueOrder};
use crate::value::{Row, Value, ValueView};

pub mod meaning;

verus! {

/// The evaluated sort keys of each row.
pub type KeyRows = Seq<Seq<ValueView>>;

/// Row `i` comes before row `j`: by the keys, and by their places where the keys do not tell.
pub open spec fn before<O: ValueOrder>(o: &O, keys: KeyRows, ks: Seq<SortKey>, i: int, j: int) -> bool {
    match order::keys_order(o, keys[i], keys[j], ks, 0) {
        Order::Less => true,
        Order::Equal => i < j,
        Order::Greater => false,
    }
}

/// Every row has one value for each of the `width` keys.
pub open spec fn keyed(keys: KeyRows, width: nat) -> bool {
    forall|i: int| 0 <= i < keys.len() ==> (#[trigger] keys[i]).len() == width
}

/// `x` is among `perm`.
pub open spec fn lists(perm: Seq<usize>, x: int) -> bool {
    exists|a: int| 0 <= a < perm.len() && #[trigger] perm[a] == x
}

/// `perm` lists the rows `lo..hi`, each once, in the order of their keys, rows of equal keys in the
/// order of their places.
pub open spec fn is_sorted<O: ValueOrder>(
    o: &O,
    keys: KeyRows,
    ks: Seq<SortKey>,
    perm: Seq<usize>,
    lo: int,
    hi: int,
) -> bool {
    &&& forall|a: int| 0 <= a < perm.len() ==> lo <= #[trigger] perm[a] < hi
    &&& forall|x: int| lo <= x < hi ==> #[trigger] lists(perm, x)
    &&& forall|a: int, b: int|
        0 <= a < b < perm.len() ==> before(
            o,
            keys,
            ks,
            #[trigger] perm[a] as int,
            #[trigger] perm[b] as int,
        )
}

/// The places of the rows in sorted order.
pub open spec fn sorted_order<O: ValueOrder>(o: &O, keys: KeyRows, ks: Seq<SortKey>) -> Seq<usize> {
    choose|perm: Seq<usize>| is_sorted(o, keys, ks, perm, 0, keys.len() as int)
}

pub proof fn lemma_before_asym<O: ValueOrder>(o: &O, keys: KeyRows, ks: Seq<SortKey>, i: int, j: int)
    ensures
        before(o, keys, ks, i, j) ==> !before(o, keys, ks, j, i),
        i != j ==> before(o, keys, ks, i, j) || before(o, keys, ks, j, i),
        !before(o, keys, ks, i, i),
{
    order::lemma_keys_flip(o, keys[i], keys[j], ks, 0);
    order::lemma_keys_flip(o, keys[i], keys[i], ks, 0);
}

pub proof fn lemma_before_trans<O: ValueOrder>(
    o: &O,
    keys: KeyRows,
    ks: Seq<SortKey>,
    width: nat,
    i: int,
    j: int,
    k: int,
)
    requires
        keyed(keys, width),
        0 <= i < keys.len(),
        0 <= j < keys.len(),
        0 <= k < keys.len(),
        before(o, keys, ks, i, j),
        before(o, keys, ks, j, k),
    ensures
        before(o, keys, ks, i, k),
{
    order::lemma_keys_trans(o, keys[i], keys[j], keys[k], ks, 0);
    order::lemma_keys_flip(o, keys[i], keys[k], ks, 0);
}

/// There is only one sorted order.
proof fn lemma_sorted_unique<O: ValueOrder>(
    o: &O,
    keys: KeyRows,
    ks: Seq<SortKey>,
    p: Seq<usize>,
    q: Seq<usize>,
    lo: int,
    hi: int,
    n: nat,
)
    requires
        is_sorted(o, keys, ks, p, lo, hi),
        is_sorted(o, keys, ks, q, lo, hi),
    ensures
        n <= p.len() && n <= q.len() ==> p.take(n as int) == q.take(n as int),
    decreases n,
{
    if 0 < n <= p.len() && n <= q.len() {
        let m = (n - 1) as nat;
        lemma_sorted_unique(o, keys, ks, p, q, lo, hi, m);
        let x = p[m as int];
        let y = q[m as int];
        if x != y {
            assert(lists(q, x as int) && lists(p, y as int));
            let b = choose|b: int| 0 <= b < q.len() && #[trigger] q[b] == x as int;
            let a = choose|a: int| 0 <= a < p.len() && #[trigger] p[a] == y as int;
            if b < m {
                assert(q.take(m as int)[b] == q[b]);
                assert(p.take(m as int)[b] == p[b]);
                lemma_before_asym(o, keys, ks, x as int, x as int);
                assert(before(o, keys, ks, p[b] as int, p[m as int] as int));
            }
            if a < m {
                assert(q.take(m as int)[a] == q[a]);
                assert(p.take(m as int)[a] == p[a]);
                lemma_before_asym(o, keys, ks, y as int, y as int);
                assert(before(o, keys, ks, q[a] as int, q[m as int] as int));
            }
            assert(before(o, keys, ks, q[m as int] as int, q[b] as int));
            assert(before(o, keys, ks, p[m as int] as int, p[a] as int));
            lemma_before_asym(o, keys, ks, x as int, y as int);
        }
        assert(p.take(n as int) =~= p.take(m as int).push(x));
        assert(q.take(n as int) =~= q.take(m as int).push(y));
    } else {
        assert(p.take(n as int) =~= q.take(n as int) || n > 0);
    }
}

pub proof fn lemma_sorted_same_len<O: ValueOrder>(
    o: &O,
    keys: KeyRows,
    ks: Seq<SortKey>,
    p: Seq<usize>,
    q: Seq<usize>,
    lo: int,
    hi: int,
)
    requires
        is_sorted(o, keys, ks, p, lo, hi),
        is_sorted(o, keys, ks, q, lo, hi),
    ensures
        p == q,
{
    let n = if p.len() <= q.len() {
        p.len()
    } else {
        q.len()
    };
    lemma_sorted_unique(o, keys, ks, p, q, lo, hi, n);
    if p.len() < q.len() {
        let x = q[n as int];
        assert(lists(p, x as int));
        let a = choose|a: int| 0 <= a < p.len() && #[trigger] p[a] == x as int;
        assert(p.take(n as int)[a] == q.take(n as int)[a]);
        assert(before(o, keys, ks, q[a] as int, q[n as int] as int));
        lemma_before_asym(o, keys, ks, x as int, x as int);
    } else if q.len() < p.len() {
        let x = p[n as int];
        assert(lists(q, x as int));
        let a = choose|a: int| 0 <= a < q.len() && #[trigger] q[a] == x as int;
        assert(p.take(n as int)[a] == q.take(n as int)[a]);
        assert(before(o, keys, ks, p[a] as int, p[n as int] as int));
        lemma_before_asym(o, keys, ks, x as int, x as int);
    }
    assert(p.take(n as int) =~= p);
    assert(q.take(n as int) =~= q);
}

/// Compare the keys of two rows.
pub(crate) fn compare_rows<O: ValueOrder>(
    o: &O,
    keys: &Vec<Vec<Value>>,
    ks: &Vec<SortKey>,
    i: usize,
    j: usize,
) -> (r: Order)
    requires
        i < keys@.len(),
        j < keys@.len(),
    ensures
        r == order::keys_order(o, keys.deep_view()[i as int], keys.deep_view()[j as int], ks@, 0),
{
    assert(keys.deep_view()[i as int] == keys@[i as int].deep_view());
    assert(keys.deep_view()[j as int] == keys@[j as int].deep_view());
    order::compare_keys(o, &keys[i], &keys[j], ks)
}

/// Merge two sorted lists of rows, all of the first before all of the second by place.
fn merge<O: ValueOrder>(
    o: &O,
    keys: &Vec<Vec<Value>>,
    ks: &Vec<SortKey>,
    a: &Vec<usize>,
    b: &Vec<usize>,
    Ghost(lo): Ghost<int>,
    Ghost(mid): Ghost<int>,
    Ghost(hi): Ghost<int>,
    Ghost(width): Ghost<nat>,
) -> (r: Vec<usize>)
    requires
        0 <= lo <= mid <= hi <= keys@.len(),
        keyed(keys.deep_view(), width),
        is_sorted(o, keys.deep_view(), ks@, a@, lo, mid),
        is_sorted(o, keys.deep_view(), ks@, b@, mid, hi),
    ensures
        is_sorted(o, keys.deep_view(), ks@, r@, lo, hi),
{
    let ghost kv = keys.deep_view();
    let mut out: Vec<usize> = Vec::new();
    let mut i: usize = 0;
    let mut j: usize = 0;
    while i < a.len() || j < b.len()
        invariant
            0 <= lo <= mid <= hi <= keys@.len(),
            kv == keys.deep_view(),
            keyed(kv, width),
            is_sorted(o, kv, ks@, a@, lo, mid),
            is_sorted(o, kv, ks@, b@, mid, hi),
            i <= a@.len(),
            j <= b@.len(),
            out@.len() == i + j,
            forall|c: int| 0 <= c < out@.len() ==> lo <= #[trigger] out@[c] < hi,
            forall|c: int|
                0 <= c < i ==> lists(out@, #[trigger] a@[c] as int),
            forall|c: int|
                0 <= c < j ==> lists(out@, #[trigger] b@[c] as int),
            forall|c: int, d: int|
                0 <= c < d < out@.len() ==> before(
                    o,
                    kv,
                    ks@,
                    #[trigger] out@[c] as int,
                    #[trigger] out@[d] as int,
                ),
            forall|c: int, d: int|
                0 <= c < out@.len() && i <= d < a@.len() ==> before(
                    o,
                    kv,
                    ks@,
                    #[trigger] out@[c] as int,
                    #[trigger] a@[d] as int,
                ),
            forall|c: int, d: int|
                0 <= c < out@.len() && j <= d < b@.len() ==> before(
                    o,
                    kv,
                    ks@,
                    #[trigger] out@[c] as int,
                    #[trigger] b@[d] as int,
                ),
        decreases a@.len() - i + b@.len() - j,
    {
        let take_a: bool = if i >= a.len() {
            false
        } else if j >= b.len() {
            true
        } else {
            compare_rows(o, keys, ks, a[i], b[j]) != Order::Greater
        };
        let ghost old_out = out@;
        if take_a {
            let x: usize = a[i];
            out.push(x);
            proof {
                if j < b@.len() {
                    assert(before(o, kv, ks@, x as int, b@[j as int] as int));
                    assert forall|d: int| j <= d < b@.len() implies before(
                        o,
                        kv,
                        ks@,
                        x as int,
                        #[trigger] b@[d] as int,
                    ) by {
                        if d > j {
                            assert(before(o, kv, ks@, b@[j as int] as int, b@[d] as int));
                            lemma_before_trans(
                                o,
                                kv,
                                ks@,
                                width,
                                x as int,
                                b@[j as int] as int,
                                b@[d] as int,
                            );
                        }
                    }
                }
                assert forall|c: int| 0 <= c < i + 1 implies lists(out@, #[trigger] a@[c] as int) by {
                    if c < i {
                        let d = choose|d: int| 0 <= d < old_out.len() && #[trigger] old_out[d] == a@[c];
                        assert(out@[d] == a@[c]);
                    } else {
                        assert(out@[old_out.len() as int] == a@[c]);
                    }
                }
                assert forall|c: int| 0 <= c < j implies lists(out@, #[trigger] b@[c] as int) by {
                    let d = choose|d: int| 0 <= d < old_out.len() && #[trigger] old_out[d] == b@[c];
                    assert(out@[d] == b@[c]);
                }
            }
            i += 1;
        } else {
            let x: usize = b[j];
            out.push(x);
            proof {
                if i < a@.len() {
                    order::lemma_keys_flip(o, kv[a@[i as int] as int], kv[x as int], ks@, 0);
                    assert(before(o, kv, ks@, x as int, a@[i as int] as int));
                    assert forall|d: int| i <= d < a@.len() implies before(
                        o,
                        kv,
                        ks@,
                        x as int,
                        #[trigger] a@[d] as int,
                    ) by {
                        if d > i {
                            assert(before(o, kv, ks@, a@[i as int] as int, a@[d] as int));
                            lemma_before_trans(
                                o,
                                kv,
                                ks@,
                                width,
                                x as int,
                                a@[i as int] as int,
                                a@[d] as int,
                            );
                        }
                    }
                }
                assert forall|c: int| 0 <= c < j + 1 implies lists(out@, #[trigger] b@[c] as int) by {
                    if c < j {
                        let d = choose|d: int| 0 <= d < old_out.len() && #[trigger] old_out[d] == b@[c];
                        assert(out@[d] == b@[c]);
                    } else {
                        assert(out@[old_out.len() as int] == b@[c]);
                    }
                }
                assert forall|c: int| 0 <= c < i implies lists(out@, #[trigger] a@[c] as int) by {
                    let d = choose|d: int| 0 <= d < old_out.len() && #[trigger] old_out[d] == a@[c];
                    assert(out@[d] == a@[c]);
                }
            }
            j += 1;
        }
    }
    proof {
        assert forall|x: int| lo <= x < hi implies #[trigger] lists(out@, x) by {
            if x < mid {
                assert(lists(a@, x));
                let c = choose|c: int| 0 <= c < a@.len() && #[trigger] a@[c] == x;
                assert(lists(out@, a@[c] as int));
            } else {
                assert(lists(b@, x));
                let c = choose|c: int| 0 <= c < b@.len() && #[trigger] b@[c] == x;
                assert(lists(out@, b@[c] as int));
            }
        }
    }
    out
}

pub(crate) fn sort_range<O: ValueOrder>(
    o: &O,
    keys: &Vec<Vec<Value>>,
    ks: &Vec<SortKey>,
    lo: usize,
    hi: usize,
    Ghost(width): Ghost<nat>,
) -> (r: Vec<usize>)
    requires
        lo <= hi <= keys@.len(),
        keyed(keys.deep_view(), width),
    ensures
        is_sorted(o, keys.deep_view(), ks@, r@, lo as int, hi as int),
    decreases hi - lo,
{
    if hi - lo <= 1 {
        let mut out: Vec<usize> = Vec::new();
        if lo < hi {
            out.push(lo);
            assert(out@[0] == lo);
        }
        return out;
    }
    let mid: usize = lo + (hi - lo) / 2;
    let a = sort_range(o, keys, ks, lo, mid, Ghost(width));
    let b = sort_range(o, keys, ks, mid, hi, Ghost(width));
    merge(o, keys, ks, &a, &b, Ghost(lo as int), Ghost(mid as int), Ghost(hi as int), Ghost(width))
}

/// The rows in sorted order, as their places: by their keys, rows of equal keys as they came.
pub fn sort_places<O: ValueOrder>(o: &O, keys: &Vec<Vec<Value>>, ks: &Vec<SortKey>) -> (r: Vec<usize>)
    requires
        keyed(keys.deep_view(), ks@.len()),
    ensures
        r@ == sorted_order(o, keys.deep_view(), ks@),
        is_sorted(o, keys.deep_view(), ks@, r@, 0, keys@.len() as int),
{
    let ghost kv = keys.deep_view();
    let r = sort_range(o, keys, ks, 0, keys.len(), Ghost(ks@.len()));
    proof {
        lemma_sorted_same_len(o, kv, ks@, r@, sorted_order(o, kv, ks@), 0, kv.len() as int);
    }
    r
}

/// The rows at the given places.
pub open spec fn picked(rows: Seq<Seq<ValueView>>, places: Seq<usize>) -> Seq<Seq<ValueView>> {
    places.map_values(|p: usize| rows[p as int])
}

pub fn clone_row(row: &Row) -> (r: Row)
    ensures
        r.deep_view() == row.deep_view(),
{
    let mut out: Vec<Value> = Vec::new();
    let mut i: usize = 0;
    while i < row.len()
        invariant
            i <= row@.len(),
            out@.len() == i,
            forall|k: int| 0 <= k < i ==> (#[trigger] out@[k])@ == row@[k]@,
        decreases row@.len() - i,
    {
        out.push(row[i].clone());
        i += 1;
    }
    assert(out.deep_view() =~= row.deep_view());
    out
}

/// The rows at the given places.
pub fn pick_rows(rows: &Vec<Row>, places: &Vec<usize>) -> (r: Vec<Row>)
    requires
        forall|a: int| 0 <= a < places@.len() ==> #[trigger] places@[a] < rows@.len(),
    ensures
        r.deep_view() == picked(rows.deep_view(), places@),
{
    let mut out: Vec<Row> = Vec::new();
    let mut i: usize = 0;
    let ghost want = picked(rows.deep_view(), places@);
    while i < places.len()
        invariant
            i <= places@.len(),
            want == picked(rows.deep_view(), places@),
            forall|a: int| 0 <= a < places@.len() ==> #[trigger] places@[a] < rows@.len(),
            out@.len() == i,
            forall|k: int| 0 <= k < i ==> (#[trigger] out@[k]).deep_view() == want[k],
        decreases places@.len() - i,
    {
        let p: usize = places[i];
        assert(rows.deep_view()[p as int] == rows@[p as int].deep_view());
        out.push(clone_row(&rows[p]));
        i += 1;
    }
    assert(out.deep_view() =~= want);
    out
}

/// Sort rows by their evaluated keys, rows of equal keys as they came.
pub fn sort_rows<O: ValueOrder>(o: &O, rows: &Vec<Row>, keys: &Vec<Vec<Value>>, ks: &Vec<SortKey>) -> (r:
    Vec<Row>)
    requires
        rows@.len() == keys@.len(),
        keyed(keys.deep_view(), ks@.len()),
    ensures
        r.deep_view() == picked(rows.deep_view(), sorted_order(o, keys.deep_view(), ks@)),
{
    let places = sort_places(o, keys, ks);
    pick_rows(rows, &places)
}

/// The sorted order lists every row once: each before those that follow it.
pub proof fn law_sorted_order_is_sorted<O: ValueOrder>(o: &O, keys: KeyRows, ks: Seq<SortKey>)
    requires
        keyed(keys, ks.len()),
        keys.len() <= usize::MAX,
    ensures
        is_sorted(o, keys, ks, sorted_order(o, keys, ks), 0, keys.len() as int),
{
    lemma_sorted_exists(o, keys, ks, keys.len());
}

/// Where the `n`-th row goes among the sorted rows before it.
proof fn lemma_sorted_exists<O: ValueOrder>(o: &O, keys: KeyRows, ks: Seq<SortKey>, n: nat)
    requires
        keyed(keys, ks.len()),
        n <= keys.len() <= usize::MAX,
    ensures
        exists|perm: Seq<usize>| is_sorted(o, keys, ks, perm, 0, n as int),
    decreases n,
{
    if n == 0 {
        assert(is_sorted(o, keys, ks, Seq::<usize>::empty(), 0, 0));
    } else {
        let m = (n - 1) as nat;
        lemma_sorted_exists(o, keys, ks, m);
        let p = choose|perm: Seq<usize>| is_sorted(o, keys, ks, perm, 0, m as int);
        let k = insertion_point(o, keys, ks, p, m as int);
        lemma_insertion_point(o, keys, ks, p, m as int);
        let q = p.insert(k as int, m as usize);
        lemma_insert_sorted(o, keys, ks, p, m as int, k);
        assert(is_sorted(o, keys, ks, q, 0, n as int));
    }
}

/// How many of the sorted `p` come before row `x`.
pub open spec fn insertion_point<O: ValueOrder>(
    o: &O,
    keys: KeyRows,
    ks: Seq<SortKey>,
    p: Seq<usize>,
    x: int,
) -> nat
    decreases p.len(),
{
    if p.len() == 0 {
        0
    } else if before(o, keys, ks, p.last() as int, x) {
        p.len()
    } else {
        insertion_point(o, keys, ks, p.drop_last(), x)
    }
}

/// `p` lists rows in sorted order.
pub open spec fn ascending<O: ValueOrder>(o: &O, keys: KeyRows, ks: Seq<SortKey>, p: Seq<usize>) -> bool {
    forall|a: int, b: int|
        0 <= a < b < p.len() ==> before(o, keys, ks, #[trigger] p[a] as int, #[trigger] p[b] as int)
}

proof fn lemma_insertion_point<O: ValueOrder>(
    o: &O,
    keys: KeyRows,
    ks: Seq<SortKey>,
    p: Seq<usize>,
    x: int,
)
    requires
        keyed(keys, ks.len()),
        0 <= x < keys.len(),
        ascending(o, keys, ks, p),
        forall|a: int| 0 <= a < p.len() ==> #[trigger] p[a] < keys.len() && p[a] != x,
    ensures
        insertion_point(o, keys, ks, p, x) <= p.len(),
        forall|a: int|
            0 <= a < insertion_point(o, keys, ks, p, x) ==> before(
                o,
                keys,
                ks,
                #[trigger] p[a] as int,
                x,
            ),
        forall|a: int|
            insertion_point(o, keys, ks, p, x) <= a < p.len() ==> before(
                o,
                keys,
                ks,
                x,
                #[trigger] p[a] as int,
            ),
    decreases p.len(),
{
    if p.len() > 0 {
        let last = p.last() as int;
        if before(o, keys, ks, last, x) {
            assert forall|a: int| 0 <= a < p.len() implies before(
                o,
                keys,
                ks,
                #[trigger] p[a] as int,
                x,
            ) by {
                if a < p.len() - 1 {
                    assert(before(o, keys, ks, p[a] as int, p[p.len() - 1] as int));
                    lemma_before_trans(o, keys, ks, ks.len(), p[a] as int, last, x);
                }
            }
        } else {
            let init = p.drop_last();
            assert forall|a: int| 0 <= a < init.len() implies #[trigger] init[a] < keys.len()
                && init[a] != x by {
                assert(init[a] == p[a]);
            }
            assert forall|a: int, b: int| 0 <= a < b < init.len() implies before(
                o,
                keys,
                ks,
                #[trigger] init[a] as int,
                #[trigger] init[b] as int,
            ) by {
                assert(before(o, keys, ks, p[a] as int, p[b] as int));
            }
            lemma_insertion_point(o, keys, ks, init, x);
            let k = insertion_point(o, keys, ks, init, x);
            lemma_before_asym(o, keys, ks, last, x);
            assert(p[p.len() - 1] != x);
            assert forall|a: int| 0 <= a < k implies before(
                o,
                keys,
                ks,
                #[trigger] p[a] as int,
                x,
            ) by {
                assert(p[a] == init[a]);
            }
            assert forall|a: int| k <= a < p.len() implies before(
                o,
                keys,
                ks,
                x,
                #[trigger] p[a] as int,
            ) by {
                if a < p.len() - 1 {
                    assert(p[a] == init[a]);
                }
            }
        }
    }
}

proof fn lemma_insert_sorted<O: ValueOrder>(
    o: &O,
    keys: KeyRows,
    ks: Seq<SortKey>,
    p: Seq<usize>,
    m: int,
    k: nat,
)
    requires
        0 <= m < usize::MAX,
        is_sorted(o, keys, ks, p, 0, m),
        k <= p.len(),
        forall|a: int| 0 <= a < k ==> before(o, keys, ks, #[trigger] p[a] as int, m),
        forall|a: int| k <= a < p.len() ==> before(o, keys, ks, m, #[trigger] p[a] as int),
    ensures
        is_sorted(o, keys, ks, p.insert(k as int, m as usize), 0, m + 1),
{
    let q = p.insert(k as int, m as usize);
    assert forall|a: int| 0 <= a < q.len() implies 0 <= #[trigger] q[a] < m + 1 by {
        if a < k {
            assert(q[a] == p[a]);
        } else if a > k {
            assert(q[a] == p[a - 1]);
        }
    }
    assert forall|x: int| 0 <= x < m + 1 implies #[trigger] lists(q, x) by {
        if x == m {
            assert(q[k as int] == x);
        } else {
            assert(lists(p, x));
            let c = choose|c: int| 0 <= c < p.len() && #[trigger] p[c] == x;
            if c < k {
                assert(q[c] == x);
            } else {
                assert(q[c + 1] == x);
            }
        }
    }
    assert forall|a: int, b: int| 0 <= a < b < q.len() implies before(
        o,
        keys,
        ks,
        #[trigger] q[a] as int,
        #[trigger] q[b] as int,
    ) by {
        let pa = if a < k {
            a
        } else {
            a - 1
        };
        let pb = if b < k {
            b
        } else {
            b - 1
        };
        if a != k && b != k {
            assert(before(o, keys, ks, p[pa] as int, p[pb] as int));
        } else if a == k {
            assert(q[b] == p[b - 1]);
        } else {
            assert(q[a] == p[a]);
        }
    }
}

// ---------------------------------------------------------------- FETCH FIRST .. WITH TIES

/// Rows `i` and `j` tie: no key tells them apart.
pub open spec fn ties<O: ValueOrder>(o: &O, keys: KeyRows, ks: Seq<SortKey>, i: int, j: int) -> bool {
    order::keys_order(o, keys[i], keys[j], ks, 0) is Equal
}

/// The first row from `from` on that does not tie with row `last`, or the end.
pub open spec fn tie_end<O: ValueOrder>(
    o: &O,
    keys: KeyRows,
    ks: Seq<SortKey>,
    last: int,
    from: nat,
) -> nat
    decreases keys.len() - from,
{
    if from < keys.len() && ties(o, keys, ks, last, from as int) {
        tie_end(o, keys, ks, last, from + 1)
    } else {
        from
    }
}

/// The rows that `FETCH FIRST count ROWS WITH TIES` keeps after skipping `offset` rows: from where
/// to where.
pub open spec fn ties_range<O: ValueOrder>(
    o: &O,
    keys: KeyRows,
    ks: Seq<SortKey>,
    offset: nat,
    count: nat,
) -> (nat, nat) {
    if count == 0 || offset >= keys.len() {
        (0, 0)
    } else {
        let kept = if count <= keys.len() - offset {
            offset + count
        } else {
            keys.len()
        };
        (offset, tie_end(o, keys, ks, kept - 1, kept))
    }
}

/// Skip `offset` of the sorted rows, keep `count`, and with them every row that ties with the last.
pub fn apply_ties_limit<O: ValueOrder>(
    o: &O,
    rows: &Vec<Row>,
    keys: &Vec<Vec<Value>>,
    ks: &Vec<SortKey>,
    offset: u64,
    count: u64,
) -> (r: Vec<Row>)
    requires
        rows@.len() == keys@.len(),
    ensures
        ({
            let range = ties_range(o, keys.deep_view(), ks@, offset as nat, count as nat);
            r.deep_view() == rows.deep_view().subrange(range.0 as int, range.1 as int)
        }),
{
    let ghost kv = keys.deep_view();
    let ghost rv = rows.deep_view();
    let mut out: Vec<Row> = Vec::new();
    let n: usize = rows.len();
    if count == 0 || offset >= n as u64 {
        assert(out.deep_view() =~= rv.subrange(0, 0));
        return out;
    }
    let start: usize = offset as usize;
    let kept: usize = if count <= (n - start) as u64 {
        start + count as usize
    } else {
        n
    };
    let mut end: usize = kept;
    let last: usize = kept - 1;
    while end < n && compare_rows(o, keys, ks, last, end) == Order::Equal
        invariant
            kv == keys.deep_view(),
            n == keys@.len(),
            last < kept <= end <= n,
            tie_end(o, kv, ks@, last as int, kept as nat) == tie_end(
                o,
                kv,
                ks@,
                last as int,
                end as nat,
            ),
        decreases n - end,
    {
        end += 1;
    }
    let mut i: usize = start;
    assert(out.deep_view() =~= rv.subrange(start as int, start as int));
    while i < end
        invariant
            rv == rows.deep_view(),
            start <= i <= end <= rows@.len(),
            out.deep_view() == rv.subrange(start as int, i as int),
        decreases end - i,
    {
        let ghost before_push = out.deep_view();
        assert(rv[i as int] == rows@[i as int].deep_view());
        out.push(clone_row(&rows[i]));
        assert(out.deep_view() =~= before_push.push(rv[i as int]));
        i += 1;
        assert(out.deep_view() =~= rv.subrange(start as int, i as int));
    }
    out
}

/// The end of the kept rows never splits a tie: where the rows are sorted, no row after the last
/// kept one ties with it.
pub proof fn law_ties_are_not_split<O: ValueOrder>(
    o: &O,
    keys: KeyRows,
    ks: Seq<SortKey>,
    offset: nat,
    count: nat,
    j: int,
)
    requires
        keyed(keys, ks.len()),
        forall|a: int, b: int|
            0 <= a < b < keys.len() ==> !(order::keys_order(
                o,
                #[trigger] keys[a],
                #[trigger] keys[b],
                ks,
                0,
            ) is Greater),
        count > 0,
        offset < keys.len(),
        ties_range(o, keys, ks, offset, count).1 <= j < keys.len(),
    ensures
        !ties(o, keys, ks, ties_range(o, keys, ks, offset, count).1 - 1, j),
{
    let kept = if count <= keys.len() - offset {
        offset + count
    } else {
        keys.len()
    };
    let last = kept - 1;
    let end = ties_range(o, keys, ks, offset, count).1 as int;
    lemma_tie_end(o, keys, ks, last, kept);
    assert(kept <= end < keys.len());
    assert(!ties(o, keys, ks, last, end));
    // the last kept row ties with row `last`
    order::lemma_keys_flip(o, keys[last], keys[last], ks, 0);
    assert(ties(o, keys, ks, last, end - 1));
    if ties(o, keys, ks, end - 1, j) {
        order::lemma_keys_trans(o, keys[last], keys[end - 1], keys[j], ks, 0);
        order::lemma_keys_flip(o, keys[last], keys[j], ks, 0);
        order::lemma_keys_flip(o, keys[last], keys[end - 1], ks, 0);
        order::lemma_keys_flip(o, keys[end - 1], keys[j], ks, 0);
        order::lemma_keys_trans(o, keys[j], keys[end - 1], keys[last], ks, 0);
        assert(order::keys_order(o, keys[last], keys[j], ks, 0) is Equal);
        if j > end {
            assert(!(order::keys_order(o, keys[end], keys[j], ks, 0) is Greater));
            assert(!(order::keys_order(o, keys[last], keys[end], ks, 0) is Greater));
            order::lemma_keys_trans(o, keys[last], keys[end], keys[j], ks, 0);
        }
    }
}

proof fn lemma_tie_end<O: ValueOrder>(o: &O, keys: KeyRows, ks: Seq<SortKey>, last: int, from: nat)
    requires
        from <= keys.len(),
    ensures
        from <= tie_end(o, keys, ks, last, from) <= keys.len(),
        forall|a: int| from <= a < tie_end(o, keys, ks, last, from) ==> #[trigger] ties(o, keys, ks, last, a),
        tie_end(o, keys, ks, last, from) < keys.len() ==> !ties(
            o,
            keys,
            ks,
            last,
            tie_end(o, keys, ks, last, from) as int,
        ),
    decreases keys.len() - from,
{
    if from < keys.len() && ties(o, keys, ks, last, from as int) {
        lemma_tie_end(o, keys, ks, last, from + 1);
    }
}

// ---------------------------------------------------------------- limited sorts

/// What a limited sort holds after some rows.
pub enum TopN {
    /// The places of the rows kept, in order, and their bytes.
    Holds { kept: Seq<usize>, bytes: usize },
    /// It exceeded its budget with this many bytes.
    Over(usize),
}

pub open spec fn saturating_sum(a: usize, b: usize) -> usize {
    if a + b > usize::MAX {
        usize::MAX
    } else {
        (a + b) as usize
    }
}

pub open spec fn saturating_difference(a: usize, b: usize) -> usize {
    if a >= b {
        (a - b) as usize
    } else {
        0
    }
}

/// Row `x` put in its place.
pub open spec fn placed<O: ValueOrder>(
    o: &O,
    keys: KeyRows,
    ks: Seq<SortKey>,
    kept: Seq<usize>,
    x: int,
) -> Seq<usize> {
    kept.insert(insertion_point(o, keys, ks, kept, x) as int, x as usize)
}

/// What a limited sort to `m` rows holds after the first `n` rows, of these sizes. A row is kept as
/// long as fewer than `m` are, and then in place of the last where it comes before that; the budget,
/// of which 0 is unlimited, is checked whenever a row is kept.
pub open spec fn top_n<O: ValueOrder>(
    o: &O,
    keys: KeyRows,
    ks: Seq<SortKey>,
    sizes: Seq<usize>,
    m: nat,
    budget: usize,
    n: nat,
) -> TopN
    decreases n,
{
    if n == 0 {
        TopN::Holds { kept: Seq::empty(), bytes: 0 }
    } else {
        let x = n - 1;
        match top_n(o, keys, ks, sizes, m, budget, x as nat) {
            TopN::Holds { kept, bytes } => if kept.len() < m {
                let now = saturating_sum(bytes, sizes[x]);
                if budget != 0 && now > budget {
                    TopN::Over(now)
                } else {
                    TopN::Holds { kept: placed(o, keys, ks, kept, x), bytes: now }
                }
            } else if kept.len() > 0 && before(o, keys, ks, x, kept.last() as int) {
                let now = saturating_sum(
                    saturating_difference(bytes, sizes[kept.last() as int]),
                    sizes[x],
                );
                if budget != 0 && now > budget {
                    TopN::Over(now)
                } else {
                    TopN::Holds { kept: placed(o, keys, ks, kept.drop_last(), x), bytes: now }
                }
            } else {
                TopN::Holds { kept, bytes }
            },
            over => over,
        }
    }
}

/// The first `m` rows in sorted order, without sorting the rest.
///
/// Refused when the rows kept on the way exceed the budget in bytes, of which 0 is unlimited.
pub fn top_n_rows<O: ValueOrder>(
    o: &O,
    rows: &Vec<Row>,
    keys: &Vec<Vec<Value>>,
    ks: &Vec<SortKey>,
    m: usize,
    budget: usize,
) -> (r: Result<Vec<Row>, Error>)
    requires
        rows@.len() == keys@.len(),
        keyed(keys.deep_view(), ks@.len()),
    ensures
        match top_n(
            o,
            keys.deep_view(),
            ks@,
            row_sizes(rows.deep_view()),
            m as nat,
            budget,
            keys@.len(),
        ) {
            TopN::Holds { kept, .. } => r matches Ok(out) && out.deep_view() == picked(
                rows.deep_view(),
                kept,
            ),
            TopN::Over(used) => r == Err::<Vec<Row>, Error>(
                Error::OutOfMemory { budget, used, stage: Stage::TopN },
            ),
        },
{
    let ghost kv = keys.deep_view();
    let ghost sizes = row_sizes(rows.deep_view());
    let mut kept: Vec<usize> = Vec::new();
    let mut bytes: usize = 0;
    let mut x: usize = 0;
    assert(kept@ =~= Seq::<usize>::empty());
    while x < keys.len()
        invariant
            kv == keys.deep_view(),
            sizes == row_sizes(rows.deep_view()),
            rows@.len() == keys@.len(),
            keyed(kv, ks@.len()),
            x <= keys@.len(),
            forall|a: int| 0 <= a < kept@.len() ==> #[trigger] kept@[a] < x,
            top_n(o, kv, ks@, sizes, m as nat, budget, x as nat) == (TopN::Holds {
                kept: kept@,
                bytes,
            }),
        decreases keys@.len() - x,
    {
        assert(rows.deep_view()[x as int] == rows@[x as int].deep_view());
        let size: usize = memory::row_bytes(&rows[x]);
        let ghost old_kept = kept@;
        let keep: bool = if kept.len() < m {
            bytes = bytes.saturating_add(size);
            true
        } else if kept.len() == 0 {
            false
        } else {
            let last: usize = kept[kept.len() - 1];
            let less: bool = compare_rows(o, keys, ks, x, last) == Order::Less;
            assert(less == before(o, kv, ks@, x as int, last as int));
            if less {
                assert(rows.deep_view()[last as int] == rows@[last as int].deep_view());
                let gone: usize = memory::row_bytes(&rows[last]);
                bytes = bytes.saturating_sub(gone).saturating_add(size);
                let _ = kept.pop();
                assert(kept@ =~= old_kept.drop_last());
            }
            less
        };
        if keep {
            match memory::enforce_budget(budget, bytes, Stage::TopN) {
                Ok(()) => {},
                Err(e) => {
                    proof {
                        lemma_over_stays(
                            o,
                            kv,
                            ks@,
                            sizes,
                            m as nat,
                            budget,
                            (x + 1) as nat,
                            kv.len(),
                        );
                    }
                    return Err(e);
                },
            }
            place(o, keys, ks, &mut kept, x);
        }
        x += 1;
    }
    Ok(pick_rows(rows, &kept))
}

/// The estimated bytes of each row.
pub open spec fn row_sizes(rows: Seq<Seq<ValueView>>) -> Seq<usize> {
    rows.map_values(|r: Seq<ValueView>| memory::clamp(memory::row_size(r)))
}

/// Put row `x` in its place.
fn place<O: ValueOrder>(
    o: &O,
    keys: &Vec<Vec<Value>>,
    ks: &Vec<SortKey>,
    kept: &mut Vec<usize>,
    x: usize,
)
    requires
        x < keys@.len(),
        forall|a: int| 0 <= a < old(kept)@.len() ==> #[trigger] old(kept)@[a] < x,
    ensures
        final(kept)@ == placed(o, keys.deep_view(), ks@, old(kept)@, x as int),
        forall|a: int| 0 <= a < final(kept)@.len() ==> #[trigger] final(kept)@[a] <= x,
{
    let ghost kv = keys.deep_view();
    let mut k: usize = kept.len();
    assert(kept@.take(k as int) =~= kept@);
    while k > 0 && compare_rows(o, keys, ks, kept[k - 1], x) == Order::Greater
        invariant
            kv == keys.deep_view(),
            x < keys@.len(),
            kept@ == old(kept)@,
            k <= kept@.len(),
            forall|a: int| 0 <= a < kept@.len() ==> #[trigger] kept@[a] < x,
            insertion_point(o, kv, ks@, kept@, x as int) == insertion_point(
                o,
                kv,
                ks@,
                kept@.take(k as int),
                x as int,
            ),
        decreases k,
    {
        assert(kept@.take(k as int).last() == kept@[k - 1]);
        assert(kept@.take(k as int).drop_last() =~= kept@.take(k - 1));
        k -= 1;
    }
    proof {
        if k > 0 {
            assert(kept@.take(k as int).last() == kept@[k - 1]);
        }
    }
    kept.insert(k, x);
}

proof fn lemma_over_stays<O: ValueOrder>(
    o: &O,
    keys: KeyRows,
    ks: Seq<SortKey>,
    sizes: Seq<usize>,
    m: nat,
    budget: usize,
    k: nat,
    n: nat,
)
    requires
        k <= n,
        top_n(o, keys, ks, sizes, m, budget, k) is Over,
    ensures
        top_n(o, keys, ks, sizes, m, budget, n) == top_n(o, keys, ks, sizes, m, budget, k),
    decreases n,
{
    if k < n {
        lemma_over_stays(o, keys, ks, sizes, m, budget, k, (n - 1) as nat);
    }
}

/// A limited sort gives what the full sort would give first: what it holds after all rows, unless they
/// exceed the budget, are the first `m` of them in sorted order.
pub proof fn law_top_n_is_the_sorted_prefix<O: ValueOrder>(
    o: &O,
    keys: KeyRows,
    ks: Seq<SortKey>,
    sizes: Seq<usize>,
    m: nat,
    budget: usize,
)
    requires
        keyed(keys, ks.len()),
        keys.len() <= usize::MAX,
    ensures
        top_n(o, keys, ks, sizes, m, budget, keys.len()) matches TopN::Holds { kept, .. } ==> kept
            == first(sorted_order(o, keys, ks), m),
{
    law_sorted_order_is_sorted(o, keys, ks);
    let p = sorted_order(o, keys, ks);
    lemma_top_n(o, keys, ks, sizes, m, budget, keys.len());
    if let TopN::Holds { kept, .. } = top_n(o, keys, ks, sizes, m, budget, keys.len()) {
        let q = choose|q: Seq<usize>|
            is_sorted(o, keys, ks, q, 0, keys.len() as int) && kept == first(q, m);
        lemma_sorted_same_len(o, keys, ks, p, q, 0, keys.len() as int);
    }
}

/// The first `m` of `s`, or all of it.
pub open spec fn first(s: Seq<usize>, m: nat) -> Seq<usize> {
    if m < s.len() {
        s.take(m as int)
    } else {
        s
    }
}

/// The places of the rows `lo..hi` in sorted order are `hi - lo` of them.
pub proof fn lemma_sorted_len<O: ValueOrder>(
    o: &O,
    keys: KeyRows,
    ks: Seq<SortKey>,
    p: Seq<usize>,
    lo: int,
    hi: int,
)
    requires
        is_sorted(o, keys, ks, p, lo, hi),
        lo <= hi,
    ensures
        p.len() == hi - lo,
{
    let q = Seq::new(p.len(), |a: int| p[a] as int);
    assert(q.no_duplicates()) by {
        assert forall|a: int, b: int| 0 <= a < b < q.len() implies q[a] != q[b] by {
            assert(before(o, keys, ks, p[a] as int, p[b] as int));
            lemma_before_asym(o, keys, ks, p[a] as int, p[b] as int);
        }
    }
    q.unique_seq_to_set();
    vstd::set_lib::lemma_int_range(lo, hi);
    assert(q.to_set() =~= vstd::set_lib::set_int_range(lo, hi)) by {
        assert forall|x: int| lo <= x < hi implies q.to_set().contains(x) by {
            assert(lists(p, x));
            let a = choose|a: int| 0 <= a < p.len() && #[trigger] p[a] == x;
            assert(q[a] == x);
        }
        assert forall|x: int| q.to_set().contains(x) implies lo <= x < hi by {
            let a = choose|a: int| 0 <= a < q.len() && q[a] == x;
            assert(lo <= p[a] < hi);
        }
    }
}

proof fn lemma_insertion_unique<O: ValueOrder>(
    o: &O,
    keys: KeyRows,
    ks: Seq<SortKey>,
    p: Seq<usize>,
    x: int,
    k: nat,
)
    requires
        keyed(keys, ks.len()),
        0 <= x < keys.len(),
        ascending(o, keys, ks, p),
        forall|a: int| 0 <= a < p.len() ==> #[trigger] p[a] < keys.len() && p[a] != x,
        k <= p.len(),
        forall|a: int| 0 <= a < k ==> before(o, keys, ks, #[trigger] p[a] as int, x),
        forall|a: int| k <= a < p.len() ==> before(o, keys, ks, x, #[trigger] p[a] as int),
    ensures
        insertion_point(o, keys, ks, p, x) == k,
{
    lemma_insertion_point(o, keys, ks, p, x);
    let j = insertion_point(o, keys, ks, p, x);
    if j < k {
        lemma_before_asym(o, keys, ks, p[j as int] as int, x);
    } else if j > k {
        lemma_before_asym(o, keys, ks, p[k as int] as int, x);
    }
}

proof fn lemma_top_n<O: ValueOrder>(
    o: &O,
    keys: KeyRows,
    ks: Seq<SortKey>,
    sizes: Seq<usize>,
    m: nat,
    budget: usize,
    n: nat,
)
    requires
        keyed(keys, ks.len()),
        n <= keys.len() <= usize::MAX,
    ensures
        top_n(o, keys, ks, sizes, m, budget, n) matches TopN::Holds { kept, .. } ==> exists|
            q: Seq<usize>,
        |
            is_sorted(o, keys, ks, q, 0, n as int) && kept == first(q, m),
    decreases n,
{
    if n == 0 {
        let q = Seq::<usize>::empty();
        assert(is_sorted(o, keys, ks, q, 0, 0));
        assert(first(q, m) =~= q);
    } else {
        let x = n - 1;
        lemma_top_n(o, keys, ks, sizes, m, budget, x as nat);
        if let TopN::Holds { kept, bytes } = top_n(o, keys, ks, sizes, m, budget, x as nat) {
            let p = choose|p: Seq<usize>|
                is_sorted(o, keys, ks, p, 0, x) && kept == first(p, m);
            let k = insertion_point(o, keys, ks, p, x);
            lemma_insertion_point(o, keys, ks, p, x);
            lemma_insert_sorted(o, keys, ks, p, x, k);
            let q = p.insert(k as int, x as usize);
            assert(is_sorted(o, keys, ks, q, 0, n as int));
            if kept.len() < m {
                assert(kept == p);
                assert(first(q, m) =~= q);
            } else if kept.len() > 0 {
                let last = kept.last() as int;
                assert(last == p[m - 1]);
                lemma_before_asym(o, keys, ks, x, last);
                let init = kept.drop_last();
                if before(o, keys, ks, x, last) {
                    assert(k <= m - 1) by {
                        if k > m - 1 {
                            assert(before(o, keys, ks, p[m - 1] as int, x));
                        }
                    }
                    assert forall|a: int, b: int| 0 <= a < b < init.len() implies before(
                        o,
                        keys,
                        ks,
                        #[trigger] init[a] as int,
                        #[trigger] init[b] as int,
                    ) by {
                        assert(init[a] == p[a] && init[b] == p[b]);
                    }
                    assert forall|a: int| 0 <= a < init.len() implies #[trigger] init[a] < keys.len()
                        && init[a] != x by {
                        assert(init[a] == p[a]);
                    }
                    assert forall|a: int| 0 <= a < k implies before(
                        o,
                        keys,
                        ks,
                        #[trigger] init[a] as int,
                        x,
                    ) by {
                        assert(init[a] == p[a]);
                    }
                    assert forall|a: int| k <= a < init.len() implies before(
                        o,
                        keys,
                        ks,
                        x,
                        #[trigger] init[a] as int,
                    ) by {
                        assert(init[a] == p[a]);
                    }
                    lemma_insertion_unique(o, keys, ks, init, x, k);
                    assert(placed(o, keys, ks, init, x) =~= first(q, m));
                } else {
                    assert(k >= m) by {
                        if k < m {
                            assert(before(o, keys, ks, x, p[m - 1] as int));
                        }
                    }
                    assert(kept =~= first(q, m));
                }
            } else {
                assert(m == 0);
                assert(kept =~= first(q, m));
            }
        }
    }
}

} // verus!
