//! The external merge sort: runs that fit the memory budget, sorted one by one and merged.
use vstd::prelude::*;
use crate::memory;
use crate::order::{Order, SortKey, ValueOrder};
use crate::sort;
use crate::spill::budget;
use crate::spill::budget::MemBudget;
use crate::value::{Row, Value, ValueView};

verus! {

/// The bytes that a row is accounted for with.
pub open spec fn bytes_of(row: Seq<ValueView>) -> usize {
    memory::clamp(memory::row_size(row))
}

/// The bytes that the current run holds after the first `n` rows.
pub open spec fn held(limit: usize, rows: Seq<Seq<ValueView>>, n: nat) -> usize
    decreases n,
{
    if n == 0 {
        0
    } else {
        let before = held(limit, rows, (n - 1) as nat);
        let bytes = bytes_of(rows[n - 1]);
        if budget::admits(limit, before, bytes) {
            budget::added(before, bytes)
        } else {
            bytes
        }
    }
}

/// The rows among the first `n` with which a new run begins: those that do not fit behind the rows
/// before them.
pub open spec fn breaks(limit: usize, rows: Seq<Seq<ValueView>>, n: nat) -> Seq<usize>
    decreases n,
{
    if n == 0 {
        Seq::empty()
    } else {
        let head = breaks(limit, rows, (n - 1) as nat);
        if budget::admits(limit, held(limit, rows, (n - 1) as nat), bytes_of(rows[n - 1])) {
            head
        } else {
            head.push((n - 1) as usize)
        }
    }
}

/// A run stays within the budget unless it is one row alone.
pub proof fn law_runs_fit(limit: usize, rows: Seq<Seq<ValueView>>, n: nat)
    requires
        0 < n <= rows.len(),
        rows.len() <= usize::MAX,
    ensures
        limit == 0 || held(limit, rows, n) <= limit || held(limit, rows, n) == bytes_of(rows[n - 1]),
{
}

proof fn lemma_breaks(limit: usize, rows: Seq<Seq<ValueView>>, n: nat)
    requires
        n <= rows.len() <= usize::MAX,
    ensures
        forall|a: int|
            0 <= a < breaks(limit, rows, n).len() ==> 0 <= #[trigger] breaks(limit, rows, n)[a] < n,
        forall|a: int, b: int|
            0 <= a < b < breaks(limit, rows, n).len() ==> #[trigger] breaks(limit, rows, n)[a]
                < #[trigger] breaks(limit, rows, n)[b],
    decreases n,
{
    if n > 0 {
        let head = breaks(limit, rows, (n - 1) as nat);
        let all = breaks(limit, rows, n);
        lemma_breaks(limit, rows, (n - 1) as nat);
        assert(forall|a: int| 0 <= a < head.len() ==> #[trigger] all[a] == head[a]);
    }
}

/// Where the input is cut into runs.
pub fn cut_runs(rows: &Vec<Row>, limit: usize) -> (r: Vec<usize>)
    ensures
        r@ == breaks(limit, rows.deep_view(), rows@.len()),
{
    let ghost view = rows.deep_view();
    let mut out: Vec<usize> = Vec::new();
    let mut budget = MemBudget::new(limit);
    let mut i: usize = 0;
    while i < rows.len()
        invariant
            view == rows.deep_view(),
            i <= rows@.len(),
            budget.cap() == limit,
            budget.held() == held(limit, view, i as nat),
            out@ == breaks(limit, view, i as nat),
        decreases rows@.len() - i,
    {
        assert(view[i as int] == rows@[i as int].deep_view());
        if !budget.try_admit(&rows[i]) {
            budget.reset();
            budget.try_admit(&rows[i]);
            out.push(i);
        }
        i += 1;
    }
    out
}

/// The run whose head comes first, of the heads that are there; `None` where all are drained.
///
/// Of heads with equal keys the first run's comes first, so that merging keeps rows of equal keys in
/// the order in which they were read.
pub fn lowest_head<O: ValueOrder>(
    o: &O,
    keys: &Vec<Vec<Value>>,
    ks: &Vec<SortKey>,
    heads: &Vec<Option<usize>>,
) -> (r: Option<usize>)
    requires
        sort::keyed(keys.deep_view(), ks@.len()),
        forall|s: int|
            0 <= s < heads@.len() && (#[trigger] heads@[s]) is Some ==> heads@[s]->0 < keys@.len(),
        forall|s: int, t: int|
            0 <= s < t < heads@.len() && (#[trigger] heads@[s]) is Some && (#[trigger] heads@[t]) is Some
                ==> heads@[s]->0 < heads@[t]->0,
    ensures
        match r {
            Some(b) => b < heads@.len() && heads@[b as int] is Some && forall|s: int|
                0 <= s < heads@.len() && s != b && (#[trigger] heads@[s]) is Some ==> sort::before(
                    o,
                    keys.deep_view(),
                    ks@,
                    heads@[b as int]->0 as int,
                    heads@[s]->0 as int,
                ),
            None => forall|s: int| 0 <= s < heads@.len() ==> (#[trigger] heads@[s]) is None,
        },
{
    let ghost kv = keys.deep_view();
    let mut best: Option<usize> = None;
    let mut i: usize = 0;
    while i < heads.len()
        invariant
            kv == keys.deep_view(),
            i <= heads@.len(),
            sort::keyed(kv, ks@.len()),
            kv.len() == keys@.len(),
            forall|s: int|
                0 <= s < heads@.len() && (#[trigger] heads@[s]) is Some ==> heads@[s]->0
                    < keys@.len(),
            forall|s: int, t: int|
                0 <= s < t < heads@.len() && (#[trigger] heads@[s]) is Some && (#[trigger] heads@[t]) is Some
                    ==> heads@[s]->0 < heads@[t]->0,
            match best {
                Some(b) => b < i && heads@[b as int] is Some && forall|s: int|
                    0 <= s < i && s != b && (#[trigger] heads@[s]) is Some ==> sort::before(
                        o,
                        kv,
                        ks@,
                        heads@[b as int]->0 as int,
                        heads@[s]->0 as int,
                    ),
                None => forall|s: int| 0 <= s < i ==> (#[trigger] heads@[s]) is None,
            },
        decreases heads@.len() - i,
    {
        if let Some(p) = heads[i] {
            match best {
                None => {
                    best = Some(i);
                },
                Some(b) => {
                    if let Some(q) = heads[b] {
                        if let Order::Less = sort::compare_rows(o, keys, ks, p, q) {
                            proof {
                                assert(sort::before(o, kv, ks@, p as int, q as int));
                                assert forall|s: int|
                                    0 <= s < i + 1 && s != i && (#[trigger] heads@[s]) is Some implies sort::before(
                                    o,
                                    kv,
                                    ks@,
                                    p as int,
                                    heads@[s]->0 as int,
                                ) by {
                                    if s != b {
                                        sort::lemma_before_trans(
                                            o,
                                            kv,
                                            ks@,
                                            ks@.len(),
                                            p as int,
                                            q as int,
                                            heads@[s]->0 as int,
                                        );
                                    }
                                }
                            }
                            best = Some(i);
                        } else {
                            proof {
                                crate::order::lemma_keys_flip(o, kv[p as int], kv[q as int], ks@, 0);
                                assert(heads@[b as int]->0 < heads@[i as int]->0);
                                assert(sort::before(o, kv, ks@, q as int, p as int));
                            }
                        }
                    }
                },
            }
        }
        i += 1;
    }
    best
}

/// How many rows of the first `k` runs are still to be merged.
spec fn left(runs: Seq<Vec<usize>>, pos: Seq<usize>, k: nat) -> int
    decreases k,
{
    if k == 0 {
        0
    } else {
        left(runs, pos, (k - 1) as nat) + runs[k - 1]@.len() - pos[k - 1]
    }
}

proof fn lemma_left_step(runs: Seq<Vec<usize>>, pos: Seq<usize>, k: nat, b: int)
    requires
        k <= runs.len() == pos.len(),
        0 <= b < runs.len(),
        pos[b] < usize::MAX,
    ensures
        left(runs, pos.update(b, (pos[b] + 1) as usize), k) == left(runs, pos, k) - if b < k {
            1int
        } else {
            0int
        },
    decreases k,
{
    if k > 0 {
        lemma_left_step(runs, pos, (k - 1) as nat, b);
    }
}

proof fn lemma_left_bound(runs: Seq<Vec<usize>>, pos: Seq<usize>, k: nat)
    requires
        k <= runs.len() == pos.len(),
        forall|s: int| 0 <= s < runs.len() ==> #[trigger] pos[s] <= runs[s]@.len(),
    ensures
        left(runs, pos, k) >= 0,
    decreases k,
{
    if k > 0 {
        lemma_left_bound(runs, pos, (k - 1) as nat);
        assert(pos[k - 1] <= runs[k - 1]@.len());
    }
}

/// The runs are sorted, and they are the input cut at `bounds`.
spec fn runs_sorted<O: ValueOrder>(
    o: &O,
    kv: sort::KeyRows,
    ks: Seq<SortKey>,
    runs: Seq<Vec<usize>>,
    bounds: Seq<int>,
) -> bool {
    &&& bounds.len() == runs.len() + 1
    &&& bounds[0] == 0
    &&& bounds.last() == kv.len()
    &&& forall|s: int, t: int|
        0 <= s <= t < bounds.len() ==> #[trigger] bounds[s] <= #[trigger] bounds[t]
    &&& forall|s: int|
        0 <= s < runs.len() ==> sort::is_sorted(
            o,
            kv,
            ks,
            (#[trigger] runs[s])@,
            bounds[s],
            bounds[s + 1],
        )
}

/// What has been merged comes before what has not.
spec fn ahead<O: ValueOrder>(
    o: &O,
    kv: sort::KeyRows,
    ks: Seq<SortKey>,
    runs: Seq<Vec<usize>>,
    pos: Seq<usize>,
    out: Seq<usize>,
) -> bool {
    forall|a: int, s: int, i: int|
        0 <= a < out.len() && 0 <= s < runs.len() && pos[s] <= i < runs[s]@.len() ==> sort::before(
            o,
            kv,
            ks,
            #[trigger] out[a] as int,
            #[trigger] runs[s]@[i] as int,
        )
}

fn take_heads(runs: &Vec<Vec<usize>>, pos: &Vec<usize>) -> (r: Vec<Option<usize>>)
    requires
        runs@.len() == pos@.len(),
    ensures
        r@.len() == runs@.len(),
        forall|s: int|
            0 <= s < runs@.len() ==> #[trigger] r@[s] == if pos@[s] < runs@[s]@.len() {
                Some(runs@[s]@[pos@[s] as int])
            } else {
                None
            },
{
    let mut heads: Vec<Option<usize>> = Vec::new();
    let mut i: usize = 0;
    while i < runs.len()
        invariant
            runs@.len() == pos@.len(),
            i <= runs@.len(),
            heads@.len() == i,
            forall|s: int|
                0 <= s < i ==> #[trigger] heads@[s] == if pos@[s] < runs@[s]@.len() {
                    Some(runs@[s]@[pos@[s] as int])
                } else {
                    None
                },
        decreases runs@.len() - i,
    {
        let p: usize = pos[i];
        if p < runs[i].len() {
            heads.push(Some(runs[i][p]));
        } else {
            heads.push(None);
        }
        i += 1;
    }
    heads
}

/// Merge sorted runs.
fn merge_runs<O: ValueOrder>(
    o: &O,
    keys: &Vec<Vec<Value>>,
    ks: &Vec<SortKey>,
    runs: &Vec<Vec<usize>>,
    Ghost(bounds): Ghost<Seq<int>>,
) -> (r: Vec<usize>)
    requires
        sort::keyed(keys.deep_view(), ks@.len()),
        runs_sorted(o, keys.deep_view(), ks@, runs@, bounds),
    ensures
        r@ == sort::sorted_order(o, keys.deep_view(), ks@),
        forall|a: int| 0 <= a < r@.len() ==> #[trigger] r@[a] < keys@.len(),
{
    let ghost kv = keys.deep_view();
    let ghost rv = runs@;
    let mut pos: Vec<usize> = Vec::new();
    let mut i: usize = 0;
    while i < runs.len()
        invariant
            i <= runs@.len(),
            pos@.len() == i,
            forall|s: int| 0 <= s < i ==> #[trigger] pos@[s] == 0,
        decreases runs@.len() - i,
    {
        pos.push(0);
        i += 1;
    }
    let mut out: Vec<usize> = Vec::new();
    loop
        invariant
            kv == keys.deep_view(),
            rv == runs@,
            sort::keyed(kv, ks@.len()),
            runs_sorted(o, kv, ks@, rv, bounds),
            pos@.len() == rv.len(),
            forall|s: int| 0 <= s < rv.len() ==> #[trigger] pos@[s] <= rv[s]@.len(),
            forall|a: int| 0 <= a < out@.len() ==> 0 <= #[trigger] out@[a] < kv.len(),
            forall|a: int, b: int|
                0 <= a < b < out@.len() ==> sort::before(
                    o,
                    kv,
                    ks@,
                    #[trigger] out@[a] as int,
                    #[trigger] out@[b] as int,
                ),
            ahead(o, kv, ks@, rv, pos@, out@),
            forall|s: int, k: int|
                0 <= s < rv.len() && 0 <= k < pos@[s] ==> sort::lists(
                    out@,
                    #[trigger] rv[s]@[k] as int,
                ),
        ensures
            forall|s: int| 0 <= s < rv.len() ==> #[trigger] pos@[s] == rv[s]@.len(),
        decreases left(rv, pos@, rv.len()),
    {
        let heads = take_heads(runs, &pos);
        proof {
            assert forall|s: int| 0 <= s < heads@.len() && (#[trigger] heads@[s]) is Some implies bounds[s]
                <= heads@[s]->0 < bounds[s + 1] && heads@[s]->0 < keys@.len() by {
                let run = rv[s]@;
                assert(sort::is_sorted(o, kv, ks@, run, bounds[s], bounds[s + 1]));
                assert(bounds[s] <= run[pos@[s] as int] < bounds[s + 1]);
                assert(bounds[s + 1] <= bounds[bounds.len() - 1]);
            }
            assert forall|s: int, t: int|
                0 <= s < t < heads@.len() && (#[trigger] heads@[s]) is Some && (#[trigger] heads@[t]) is Some implies heads@[s]->0
                < heads@[t]->0 by {
                assert(bounds[s + 1] <= bounds[t]);
            }
        }
        match lowest_head(o, keys, ks, &heads) {
            None => {
                assert forall|s: int| 0 <= s < rv.len() implies #[trigger] pos@[s] == rv[s]@.len() by {
                    assert(heads@[s] is None);
                }
                break;
            },
            Some(b) => {
                let p: usize = pos[b];
                assert(heads@[b as int] is Some);
                let total: usize = runs[b].len();
                let x: usize = runs[b][p];
                let ghost pos0 = pos@;
                let ghost out0 = out@;
                assert(heads@[b as int] == Some(x));
                out.push(x);
                pos[b] = p + 1;
                proof {
                    lemma_left_step(rv, pos0, rv.len(), b as int);
                    lemma_left_bound(rv, pos@, rv.len());
                    assert(out@ =~= out0.push(x));
                    assert(out@[out0.len() as int] == x);
                    assert forall|a: int, c: int| 0 <= a < c < out@.len() implies sort::before(
                        o,
                        kv,
                        ks@,
                        #[trigger] out@[a] as int,
                        #[trigger] out@[c] as int,
                    ) by {
                        assert(out@[a] == out0[a]);
                        if c == out0.len() {
                            assert(rv[b as int]@[p as int] == x);
                        } else {
                            assert(out@[c] == out0[c]);
                        }
                    }
                    assert(sort::is_sorted(
                        o,
                        kv,
                        ks@,
                        rv[b as int]@,
                        bounds[b as int],
                        bounds[b + 1],
                    ));
                    assert forall|a: int, s: int, i: int|
                        0 <= a < out@.len() && 0 <= s < rv.len() && pos@[s] <= i < rv[s]@.len() implies sort::before(
                        o,
                        kv,
                        ks@,
                        #[trigger] out@[a] as int,
                        #[trigger] rv[s]@[i] as int,
                    ) by {
                        if a < out0.len() {
                            assert(out@[a] == out0[a]);
                            assert(pos0[s] <= i);
                        } else if s == b {
                            assert(rv[b as int]@[p as int] == x);
                        } else {
                            let q = pos0[s];
                            assert(heads@[s] == Some(rv[s]@[q as int]));
                            let h = rv[s]@[q as int];
                            assert(sort::before(o, kv, ks@, x as int, h as int));
                            assert(sort::is_sorted(o, kv, ks@, rv[s]@, bounds[s], bounds[s + 1]));
                            assert(bounds[s + 1] <= bounds[bounds.len() - 1]);
                            assert(bounds[0] <= bounds[s]);
                            if q < i {
                                assert(sort::before(o, kv, ks@, h as int, rv[s]@[i] as int));
                                sort::lemma_before_trans(
                                    o,
                                    kv,
                                    ks@,
                                    ks@.len(),
                                    x as int,
                                    h as int,
                                    rv[s]@[i] as int,
                                );
                            }
                        }
                    }
                    assert forall|s: int, k: int| 0 <= s < rv.len() && 0 <= k < pos@[s] implies sort::lists(
                        out@,
                        #[trigger] rv[s]@[k] as int,
                    ) by {
                        if s == b && k == p {
                            assert(out@[out0.len() as int] == rv[s]@[k]);
                        } else {
                            assert(k < pos0[s]);
                            assert(sort::lists(out0, rv[s]@[k] as int));
                            let a = choose|a: int|
                                0 <= a < out0.len() && #[trigger] out0[a] == rv[s]@[k] as int;
                            assert(out@[a] == out0[a]);
                        }
                    }
                }
            },
        }
    }
    proof {
        assert forall|x: int| 0 <= x < kv.len() implies #[trigger] sort::lists(out@, x) by {
            lemma_run_of(bounds, x, rv.len());
            let s = choose|s: int| 0 <= s < rv.len() && #[trigger] in_run(bounds, s, x);
            assert(sort::is_sorted(o, kv, ks@, rv[s]@, bounds[s], bounds[s + 1]));
            assert(sort::lists(rv[s]@, x));
            let k = choose|k: int| 0 <= k < rv[s]@.len() && #[trigger] rv[s]@[k] == x;
            assert(pos@[s] == rv[s]@.len());
        }
        sort::lemma_sorted_same_len(
            o,
            kv,
            ks@,
            out@,
            sort::sorted_order(o, kv, ks@),
            0,
            kv.len() as int,
        );
    }
    out
}

spec fn in_run(bounds: Seq<int>, s: int, x: int) -> bool {
    bounds[s] <= x < bounds[s + 1]
}

proof fn lemma_run_of(bounds: Seq<int>, x: int, n: nat)
    requires
        n < bounds.len(),
        bounds[0] <= x < bounds[n as int],
    ensures
        exists|s: int| 0 <= s < n && #[trigger] in_run(bounds, s, x),
    decreases n,
{
    if n > 0 {
        if bounds[n - 1] <= x {
            assert(in_run(bounds, n - 1, x));
        } else {
            lemma_run_of(bounds, x, (n - 1) as nat);
        }
    }
}

/// Sort rows by their evaluated keys within a memory budget of `limit` bytes, where 0 is unlimited.
///
/// The rows are cut into runs that fit the budget, each run is sorted, and the runs are merged. The
/// result is that of sorting all rows at once.
pub fn external_sort<O: ValueOrder>(
    o: &O,
    rows: &Vec<Row>,
    keys: &Vec<Vec<Value>>,
    ks: &Vec<SortKey>,
    limit: usize,
) -> (r: Vec<Row>)
    requires
        rows@.len() == keys@.len(),
        sort::keyed(keys.deep_view(), ks@.len()),
    ensures
        r.deep_view() == sort::picked(
            rows.deep_view(),
            sort::sorted_order(o, keys.deep_view(), ks@),
        ),
{
    let ghost kv = keys.deep_view();
    let starts = cut_runs(rows, limit);
    if starts.len() == 0 {
        return sort::sort_rows(o, rows, keys, ks);
    }
    proof {
        assert(rows@.len() <= usize::MAX) by {
            let n: usize = rows.len();
        }
        lemma_breaks(limit, rows.deep_view(), rows@.len());
    }
    let ghost mut bounds: Seq<int> = seq![0int];
    let mut runs: Vec<Vec<usize>> = Vec::new();
    let mut lo: usize = 0;
    let mut i: usize = 0;
    while i < starts.len()
        invariant
            kv == keys.deep_view(),
            kv.len() == keys@.len(),
            sort::keyed(kv, ks@.len()),
            forall|a: int| 0 <= a < starts@.len() ==> 0 <= #[trigger] starts@[a] < kv.len(),
            forall|a: int, b: int|
                0 <= a < b < starts@.len() ==> #[trigger] starts@[a] < #[trigger] starts@[b],
            i <= starts@.len(),
            lo == if i == 0 {
                0
            } else {
                starts@[i - 1]
            },
            lo <= kv.len(),
            runs@.len() == i,
            bounds.len() == i + 1,
            bounds[0] == 0,
            bounds.last() == lo,
            forall|s: int, t: int|
                0 <= s <= t < bounds.len() ==> #[trigger] bounds[s] <= #[trigger] bounds[t],
            forall|s: int|
                0 <= s < runs@.len() ==> sort::is_sorted(
                    o,
                    kv,
                    ks@,
                    (#[trigger] runs@[s])@,
                    bounds[s],
                    bounds[s + 1],
                ),
        decreases starts@.len() - i,
    {
        let hi: usize = starts[i];
        let ghost bounds0 = bounds;
        if i > 0 {
            assert(starts@[i - 1] < starts@[i as int]);
        }
        runs.push(sort::sort_range(o, keys, ks, lo, hi, Ghost(ks@.len())));
        proof {
            bounds = bounds0.push(hi as int);
            assert forall|s: int, t: int| 0 <= s <= t < bounds.len() implies #[trigger] bounds[s]
                <= #[trigger] bounds[t] by {
                if t == bounds0.len() && s < t {
                    assert(bounds0[s] <= bounds0[bounds0.len() - 1]);
                }
            }
        }
        lo = hi;
        i += 1;
    }
    let n: usize = keys.len();
    let ghost bounds0 = bounds;
    runs.push(sort::sort_range(o, keys, ks, lo, n, Ghost(ks@.len())));
    proof {
        bounds = bounds0.push(n as int);
        assert forall|s: int, t: int| 0 <= s <= t < bounds.len() implies #[trigger] bounds[s]
            <= #[trigger] bounds[t] by {
            if t == bounds0.len() && s < t {
                assert(bounds0[s] <= bounds0[bounds0.len() - 1]);
            }
        }
    }
    let places = merge_runs(o, keys, ks, &runs, Ghost(bounds));
    sort::pick_rows(rows, &places)
}

} // verus!
