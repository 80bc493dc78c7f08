//! Running window functions over an input: partitioning, ordering, and one value per row.
use vstd::prelude::*;
use crate::error::Error;
use crate::order;
use crate::order::{SortKey, ValueOrder};
use crate::sort;
use crate::value::{Row, Value, ValueView};
use crate::window;
use crate::window::{Shifts, WindowFrame, WindowFunc};

verus! {

// ---------------------------------------------------------------- partitions

/// The first partition from `p` on whose rows are of the group of `key`.
pub open spec fn bucket_of<O: ValueOrder>(
    o: &O,
    pk: sort::KeyRows,
    parts: Seq<Seq<usize>>,
    key: Seq<ValueView>,
    p: nat,
) -> Option<nat>
    decreases parts.len() - p,
{
    if p >= parts.len() {
        None
    } else if order::same_group(o, pk[parts[p as int][0] as int], key) {
        Some(p)
    } else {
        bucket_of(o, pk, parts, key, p + 1)
    }
}

/// The partitions of the first `n` rows, in the order in which their first rows came.
pub open spec fn partitions<O: ValueOrder>(o: &O, pk: sort::KeyRows, n: nat) -> Seq<Seq<usize>>
    decreases n,
{
    if n == 0 {
        Seq::empty()
    } else {
        let parts = partitions(o, pk, (n - 1) as nat);
        let i = (n - 1) as usize;
        match bucket_of(o, pk, parts, pk[n - 1], 0) {
            Some(p) => parts.update(p as int, parts[p as int].push(i)),
            None => parts.push(seq![i]),
        }
    }
}

/// `parts` sorts the first `n` rows into groups.
pub open spec fn partitioned<O: ValueOrder>(
    o: &O,
    pk: sort::KeyRows,
    n: nat,
    parts: Seq<Seq<usize>>,
) -> bool {
    &&& forall|p: int| 0 <= p < parts.len() ==> (#[trigger] parts[p]).len() > 0
    &&& forall|p: int, a: int|
        0 <= p < parts.len() && 0 <= a < parts[p].len() ==> 0 <= #[trigger] parts[p][a] < n
            && order::same_group(o, pk[parts[p][0] as int], pk[parts[p][a] as int])
    &&& forall|p: int, a: int, b: int|
        0 <= p < parts.len() && 0 <= a < b < parts[p].len() ==> #[trigger] parts[p][a]
            < #[trigger] parts[p][b]
    &&& forall|p: int, q: int|
        0 <= p < q < parts.len() ==> !order::same_group(
            o,
            pk[(#[trigger] parts[p])[0] as int],
            pk[(#[trigger] parts[q])[0] as int],
        )
    &&& forall|i: int| 0 <= i < n ==> #[trigger] has_part(parts, i)
}

/// Row `i` is in one of the partitions.
pub open spec fn has_part(parts: Seq<Seq<usize>>, i: int) -> bool {
    exists|p: int| 0 <= p < parts.len() && sort::lists(#[trigger] parts[p], i)
}

proof fn lemma_bucket_of<O: ValueOrder>(
    o: &O,
    pk: sort::KeyRows,
    parts: Seq<Seq<usize>>,
    key: Seq<ValueView>,
    p: nat,
)
    ensures
        match bucket_of(o, pk, parts, key, p) {
            Some(q) => p <= q < parts.len() && order::same_group(
                o,
                pk[parts[q as int][0] as int],
                key,
            ),
            None => forall|q: int|
                p <= q < parts.len() ==> !order::same_group(
                    o,
                    pk[(#[trigger] parts[q])[0] as int],
                    key,
                ),
        },
    decreases parts.len() - p,
{
    if p < parts.len() && !order::same_group(o, pk[parts[p as int][0] as int], key) {
        lemma_bucket_of(o, pk, parts, key, p + 1);
    }
}

/// Partitioning puts every row into exactly one partition: with the rows of its group, and with no
/// other.
pub proof fn law_partitions_are_the_groups<O: ValueOrder>(o: &O, pk: sort::KeyRows, n: nat)
    requires
        n <= pk.len(),
        pk.len() <= usize::MAX,
    ensures
        partitioned(o, pk, n, partitions(o, pk, n)),
    decreases n,
{
    if n > 0 {
        let m = (n - 1) as nat;
        law_partitions_are_the_groups(o, pk, m);
        let parts = partitions(o, pk, m);
        let all = partitions(o, pk, n);
        let i = m as usize;
        lemma_bucket_of(o, pk, parts, pk[m as int], 0);
        match bucket_of(o, pk, parts, pk[m as int], 0) {
            Some(t) => {
                let t = t as int;
                let grown = parts[t].push(i);
                assert(grown[0] == parts[t][0]);
                assert(all =~= parts.update(t, grown));
                assert forall|p: int| 0 <= p < all.len() implies (#[trigger] all[p]).len() > 0
                    && all[p][0] == parts[p][0] by {
                    assert(parts[p].len() > 0);
                }
                assert forall|p: int, a: int|
                    0 <= p < all.len() && 0 <= a < all[p].len() implies 0 <= #[trigger] all[p][a] < n
                    && order::same_group(o, pk[all[p][0] as int], pk[all[p][a] as int]) by {
                    assert(parts[p].len() > 0);
                    if p == t && a == parts[t].len() {
                    } else {
                        assert(all[p][a] == parts[p][a]);
                    }
                }
                assert forall|p: int, a: int, b: int|
                    0 <= p < all.len() && 0 <= a < b < all[p].len() implies #[trigger] all[p][a]
                    < #[trigger] all[p][b] by {
                    assert(all[p][a] == parts[p][a]);
                    if p == t && b == parts[t].len() {
                    } else {
                        assert(all[p][b] == parts[p][b]);
                    }
                }
                assert forall|p: int, q: int| 0 <= p < q < all.len() implies !order::same_group(
                    o,
                    pk[(#[trigger] all[p])[0] as int],
                    pk[(#[trigger] all[q])[0] as int],
                ) by {
                    assert(parts[p].len() > 0 && parts[q].len() > 0);
                    assert(all[p][0] == parts[p][0] && all[q][0] == parts[q][0]);
                }
                assert forall|x: int| 0 <= x < n implies #[trigger] has_part(all, x) by {
                    if x < m {
                        assert(has_part(parts, x));
                        let p = choose|p: int|
                            0 <= p < parts.len() && sort::lists(#[trigger] parts[p], x);
                        let a = choose|a: int|
                            0 <= a < parts[p].len() && #[trigger] parts[p][a] == x;
                        assert(all[p][a] == x);
                        assert(sort::lists(all[p], x));
                    } else {
                        assert(all[t][parts[t].len() as int] == x);
                        assert(sort::lists(all[t], x));
                    }
                }
            },
            None => {
                let last = parts.len() as int;
                assert(all =~= parts.push(seq![i]));
                assert(all[last] == seq![i]);
                order::law_grouping_is_equivalence(o, pk[m as int], pk[m as int], pk[m as int]);
                assert forall|p: int, a: int|
                    0 <= p < all.len() && 0 <= a < all[p].len() implies 0 <= #[trigger] all[p][a] < n
                    && order::same_group(o, pk[all[p][0] as int], pk[all[p][a] as int]) by {
                    if p < last {
                        assert(all[p] == parts[p]);
                        assert(0 <= parts[p][a] < m);
                    }
                }
                assert forall|p: int, a: int, b: int|
                    0 <= p < all.len() && 0 <= a < b < all[p].len() implies #[trigger] all[p][a]
                    < #[trigger] all[p][b] by {
                    if p < last {
                        assert(all[p] == parts[p]);
                        assert(parts[p][a] < parts[p][b]);
                    }
                }
                assert forall|p: int, q: int| 0 <= p < q < all.len() implies !order::same_group(
                    o,
                    pk[(#[trigger] all[p])[0] as int],
                    pk[(#[trigger] all[q])[0] as int],
                ) by {
                    assert(all[p] == parts[p]);
                    if q < last {
                        assert(all[q] == parts[q]);
                    }
                }
                assert forall|x: int| 0 <= x < n implies #[trigger] has_part(all, x) by {
                    if x < m {
                        assert(has_part(parts, x));
                        let p = choose|p: int|
                            0 <= p < parts.len() && sort::lists(#[trigger] parts[p], x);
                        assert(all[p] == parts[p]);
                        assert(sort::lists(all[p], x));
                    } else {
                        assert(all[last][0] == x);
                        assert(sort::lists(all[last], x));
                    }
                }
            },
        }
    }
}

/// Sort rows into partitions by their partition keys.
pub fn partition_rows<O: ValueOrder>(o: &O, pk: &Vec<Vec<Value>>) -> (r: Vec<Vec<usize>>)
    ensures
        r.deep_view() == partitions(o, pk.deep_view(), pk@.len()),
{
    let ghost kv = pk.deep_view();
    let total: usize = pk.len();
    let mut parts: Vec<Vec<usize>> = Vec::new();
    let mut i: usize = 0;
    assert(parts.deep_view() =~= Seq::empty());
    while i < total
        invariant
            kv == pk.deep_view(),
            total == pk@.len(),
            i <= total,
            parts.deep_view() == partitions(o, kv, i as nat),
        decreases total - i,
    {
        let ghost pv = parts.deep_view();
        proof {
            law_partitions_are_the_groups(o, kv, i as nat);
        }
        assert(kv[i as int] == pk@[i as int].deep_view());
        let mut p: usize = 0;
        let mut found: bool = false;
        while !found && p < parts.len()
            invariant
                kv == pk.deep_view(),
                total == pk@.len(),
                i < total,
                pv == parts.deep_view(),
                kv[i as int] == pk@[i as int].deep_view(),
                partitioned(o, kv, i as nat, pv),
                p <= parts@.len(),
                found ==> p < parts@.len() && bucket_of(o, kv, pv, kv[i as int], 0) == Some(p as nat),
                !found ==> bucket_of(o, kv, pv, kv[i as int], 0) == bucket_of(
                    o,
                    kv,
                    pv,
                    kv[i as int],
                    p as nat,
                ),
            decreases parts@.len() - p + if found { 0int } else { 1int },
        {
            assert(pv[p as int] == parts@[p as int].deep_view());
            assert(pv[p as int].len() > 0);
            assert(pv[p as int][0] == parts@[p as int]@[0]);
            let first: usize = parts[p][0];
            assert(kv[first as int] == pk@[first as int].deep_view());
            if order::group_keys_equal(o, &pk[first], &pk[i]) {
                found = true;
            } else {
                p += 1;
            }
        }
        if found {
            let ghost part = parts@[p as int]@;
            parts[p].push(i);
            assert(parts@[p as int]@ =~= part.push(i));
            assert(parts@[p as int].deep_view() =~= pv[p as int].push(i));
            assert(parts.deep_view() =~= pv.update(p as int, pv[p as int].push(i)));
        } else {
            let mut part: Vec<usize> = Vec::new();
            part.push(i);
            assert(part.deep_view() =~= seq![i]);
            parts.push(part);
            assert(parts.deep_view() =~= pv.push(seq![i]));
        }
        i += 1;
    }
    parts
}

// ---------------------------------------------------------------- cells

/// What a window function gives one row.
#[derive(Debug, PartialEq, Eq)]
pub enum WindowCell {
    Value(Value),
    /// A share of the partition, as a numerator and a denominator.
    Share(usize, usize),
    /// The rows to aggregate, in order.
    Frame(Vec<usize>),
}

pub enum CellView {
    Value(ValueView),
    Share(nat, nat),
    Frame(Seq<usize>),
}

impl View for WindowCell {
    type V = CellView;

    open spec fn view(&self) -> CellView {
        match self {
            WindowCell::Value(v) => CellView::Value(v@),
            WindowCell::Share(n, d) => CellView::Share(*n as nat, *d as nat),
            WindowCell::Frame(places) => CellView::Frame(places@),
        }
    }
}

/// A window function over an ordered partition.
pub struct Window {
    pub func: WindowFunc,
    pub frame: Option<WindowFrame>,
    /// One directive for each ordering key.
    pub order: Vec<SortKey>,
}

/// The rows of a partition in window order.
pub open spec fn in_window_order<O: ValueOrder>(
    o: &O,
    part: Seq<usize>,
    okeys: sort::KeyRows,
    ks: Seq<SortKey>,
) -> Seq<usize> {
    sort::sorted_order(o, sort::picked(okeys, part), ks).map_values(|p: usize| part[p as int])
}

/// What the function gives the row at place `k` of a partition, whose rows in window order are
/// `rows` of the input.
pub open spec fn cell<O: ValueOrder>(
    o: &O,
    func: WindowFunc,
    frame: Option<WindowFrame>,
    ordered: bool,
    rows: Seq<usize>,
    okeys: sort::KeyRows,
    args: Seq<Seq<ValueView>>,
    shifts: Seq<Shifts>,
    k: int,
) -> CellView {
    let keys = sort::picked(okeys, rows);
    let here = sort::picked(args, rows);
    match func {
        WindowFunc::RowNumber | WindowFunc::Rank | WindowFunc::DenseRank => CellView::Value(
            ValueView::Int(window::ranked(o, func, keys, k) as i64),
        ),
        WindowFunc::Aggregate => CellView::Frame(
            window::aggregated(o, frame, ordered, keys, k, shifts[rows[k] as int], keys.len()).map_values(
                |p: usize| rows[p as int],
            ),
        ),
        WindowFunc::Lag
        | WindowFunc::Lead
        | WindowFunc::FirstValue
        | WindowFunc::LastValue
        | WindowFunc::NthValue => CellView::Value(
            window::navigated(o, func, frame, ordered, keys, here, k, shifts[rows[k] as int]),
        ),
        WindowFunc::Ntile => CellView::Value(
            ValueView::Int(
                (window::bucket(keys.len(), window::bucket_count(here) as nat, k as nat) + 1) as i64,
            ),
        ),
        WindowFunc::CumeDist | WindowFunc::PercentRank => {
            let s = window::share(o, func, keys, k);
            CellView::Share(s.0, s.1)
        },
    }
}

/// The function refuses the partition: `NTILE` of less than one bucket.
pub open spec fn refused(func: WindowFunc, rows: Seq<usize>, args: Seq<Seq<ValueView>>) -> bool {
    func is Ntile && window::bucket_count(sort::picked(args, rows)) < 1
}

fn wrap_values(values: Vec<Value>) -> (r: Vec<WindowCell>)
    ensures
        r@.len() == values@.len(),
        forall|k: int|
            0 <= k < r@.len() ==> (#[trigger] r@[k])@ == CellView::Value(values@[k]@),
{
    let ghost all = values@;
    let mut out: Vec<WindowCell> = Vec::new();
    for v in it: values
        invariant
            it.seq() == all,
            out@.len() == it.index(),
            forall|k: int|
                0 <= k < out@.len() ==> (#[trigger] out@[k])@ == CellView::Value(all[k]@),
    {
        out.push(WindowCell::Value(v));
    }
    out
}

/// What the function gives each row of a partition.
fn partition_cells<O: ValueOrder>(
    o: &O,
    win: &Window,
    rows: &Vec<usize>,
    okeys: &Vec<Vec<Value>>,
    args: &Vec<Vec<Value>>,
    shifts: &Vec<Shifts>,
) -> (r: Result<Vec<WindowCell>, Error>)
    requires
        rows@.len() > 0,
        okeys@.len() == args@.len() == shifts@.len(),
        forall|a: int| 0 <= a < rows@.len() ==> #[trigger] rows@[a] < okeys@.len(),
        rows@.len() <= i64::MAX,
    ensures
        match r {
            Ok(cells) => !refused(win.func, rows@, args.deep_view()) && cells@.len() == rows@.len()
                && forall|k: int|
                0 <= k < rows@.len() ==> (#[trigger] cells@[k])@ == cell(
                    o,
                    win.func,
                    win.frame,
                    win.order@.len() > 0,
                    rows@,
                    okeys.deep_view(),
                    args.deep_view(),
                    shifts@,
                    k,
                ),
            Err(e) => refused(win.func, rows@, args.deep_view()) && e is BucketCount,
        },
{
    let ordered: bool = win.order.len() > 0;
    let keys = sort::pick_rows(okeys, rows);
    let here = sort::pick_rows(args, rows);
    let total: usize = rows.len();
    assert(keys.deep_view().len() == rows@.len());
    assert(here.deep_view().len() == rows@.len());
    match win.func {
        WindowFunc::RowNumber | WindowFunc::Rank | WindowFunc::DenseRank => {
            Ok(wrap_values(window::assign_ranking(o, &keys, win.func)))
        },
        WindowFunc::Aggregate => {
            let mut out: Vec<WindowCell> = Vec::new();
            let mut k: usize = 0;
            while k < total
                invariant
                    total == rows@.len(),
                    total == keys@.len(),
                    shifts@.len() == okeys@.len(),
                    win.func is Aggregate,
                    ordered == (win.order@.len() > 0),
                    keys.deep_view() == sort::picked(okeys.deep_view(), rows@),
                    forall|a: int| 0 <= a < rows@.len() ==> #[trigger] rows@[a] < okeys@.len(),
                    rows@.len() <= i64::MAX,
                    k <= total,
                    out@.len() == k,
                    forall|j: int|
                        0 <= j < k ==> (#[trigger] out@[j])@ == cell(
                            o,
                            win.func,
                            win.frame,
                            ordered,
                            rows@,
                            okeys.deep_view(),
                            args.deep_view(),
                            shifts@,
                            j,
                        ),
                decreases total - k,
            {
                let places = window::frame_places(o, &win.frame, ordered, &keys, k, shifts[rows[k]]);
                proof {
                    lemma_aggregated_bound(
                        o,
                        win.frame,
                        ordered,
                        keys.deep_view(),
                        k as int,
                        shifts@[rows@[k as int] as int],
                        total as nat,
                    );
                }
                let mut inputs: Vec<usize> = Vec::new();
                let mut a: usize = 0;
                while a < places.len()
                    invariant
                        a <= places@.len(),
                        total == rows@.len(),
                        forall|b: int| 0 <= b < places@.len() ==> #[trigger] places@[b] < total,
                        inputs@.len() == a,
                        forall|b: int|
                            0 <= b < a ==> #[trigger] inputs@[b] == rows@[places@[b] as int],
                    decreases places@.len() - a,
                {
                    inputs.push(rows[places[a]]);
                    a += 1;
                }
                assert(inputs@ =~= places@.map_values(|p: usize| rows@[p as int]));
                out.push(WindowCell::Frame(inputs));
                k += 1;
            }
            Ok(out)
        },
        WindowFunc::Lag
        | WindowFunc::Lead
        | WindowFunc::FirstValue
        | WindowFunc::LastValue
        | WindowFunc::NthValue => {
            let mut moved: Vec<Shifts> = Vec::new();
            let mut k: usize = 0;
            while k < total
                invariant
                    total == rows@.len(),
                    shifts@.len() == okeys@.len(),
                    forall|a: int| 0 <= a < rows@.len() ==> #[trigger] rows@[a] < okeys@.len(),
                    k <= total,
                    moved@.len() == k,
                    forall|j: int|
                        0 <= j < k ==> #[trigger] moved@[j] == shifts@[rows@[j] as int],
                decreases total - k,
            {
                moved.push(shifts[rows[k]]);
                k += 1;
            }
            Ok(
                wrap_values(
                    window::assign_navigation(
                        o,
                        win.func,
                        &win.frame,
                        ordered,
                        &keys,
                        &here,
                        &moved,
                    ),
                ),
            )
        },
        WindowFunc::Ntile => {
            assert(here.deep_view()[0] == here@[0].deep_view());
            let count: i64 = match window::int_arg(&here[0], 0) {
                Some(n) => n,
                None => 0,
            };
            match window::assign_ntile(total, count) {
                Ok(values) => Ok(wrap_values(values)),
                Err(e) => Err(e),
            }
        },
        WindowFunc::CumeDist | WindowFunc::PercentRank => {
            let shares = window::assign_distribution(o, &keys, win.func);
            let mut out: Vec<WindowCell> = Vec::new();
            let mut k: usize = 0;
            while k < total
                invariant
                    total == shares@.len(),
                    k <= total,
                    out@.len() == k,
                    forall|j: int|
                        0 <= j < k ==> (#[trigger] out@[j])@ == CellView::Share(
                            shares@[j].0 as nat,
                            shares@[j].1 as nat,
                        ),
                decreases total - k,
            {
                out.push(WindowCell::Share(shares[k].0, shares[k].1));
                k += 1;
            }
            assert forall|j: int| 0 <= j < total implies (#[trigger] out@[j])@ == cell(
                o,
                win.func,
                win.frame,
                ordered,
                rows@,
                okeys.deep_view(),
                args.deep_view(),
                shifts@,
                j,
            ) by {
                let s = shares@[j];
                assert(window::share(o, win.func, keys.deep_view(), j) == (s.0 as nat, s.1 as nat));
            }
            Ok(out)
        },
    }
}

proof fn lemma_aggregated_bound<O: ValueOrder>(
    o: &O,
    frame: Option<WindowFrame>,
    ordered: bool,
    keys: sort::KeyRows,
    k: int,
    shifts: Shifts,
    n: nat,
)
    requires
        n <= usize::MAX,
    ensures
        forall|a: int|
            0 <= a < window::aggregated(o, frame, ordered, keys, k, shifts, n).len()
                ==> #[trigger] window::aggregated(o, frame, ordered, keys, k, shifts, n)[a] < n,
    decreases n,
{
    if n > 0 {
        lemma_aggregated_bound(o, frame, ordered, keys, k, shifts, (n - 1) as nat);
        let head = window::aggregated(o, frame, ordered, keys, k, shifts, (n - 1) as nat);
        let all = window::aggregated(o, frame, ordered, keys, k, shifts, n);
        assert forall|a: int| 0 <= a < all.len() implies #[trigger] all[a] < n by {
            if a < head.len() {
                assert(all[a] == head[a]);
            }
        }
    }
}

/// The rows of a partition in window order.
fn order_partition<O: ValueOrder>(
    o: &O,
    part: &Vec<usize>,
    okeys: &Vec<Vec<Value>>,
    ks: &Vec<SortKey>,
) -> (r: Vec<usize>)
    requires
        forall|a: int| 0 <= a < part@.len() ==> #[trigger] part@[a] < okeys@.len(),
        forall|a: int, b: int|
            0 <= a < b < part@.len() ==> #[trigger] part@[a] < #[trigger] part@[b],
        sort::keyed(okeys.deep_view(), ks@.len()),
    ensures
        r@ == in_window_order(o, part@, okeys.deep_view(), ks@),
        r@.len() == part@.len(),
        forall|a: int| 0 <= a < r@.len() ==> sort::lists(part@, #[trigger] r@[a] as int),
        forall|x: int| sort::lists(part@, x) ==> #[trigger] sort::lists(r@, x),
        forall|a: int, b: int| 0 <= a < b < r@.len() ==> #[trigger] r@[a] != #[trigger] r@[b],
{
    let keys = sort::pick_rows(okeys, part);
    let ghost kv = keys.deep_view();
    assert forall|i: int| 0 <= i < kv.len() implies (#[trigger] kv[i]).len() == ks@.len() by {
        assert(kv[i] == okeys.deep_view()[part@[i] as int]);
    }
    let places = sort::sort_places(o, &keys, ks);
    let mut out: Vec<usize> = Vec::new();
    let mut a: usize = 0;
    while a < places.len()
        invariant
            a <= places@.len(),
            forall|b: int| 0 <= b < places@.len() ==> #[trigger] places@[b] < part@.len(),
            out@.len() == a,
            forall|b: int| 0 <= b < a ==> #[trigger] out@[b] == part@[places@[b] as int],
        decreases places@.len() - a,
    {
        out.push(part[places[a]]);
        a += 1;
    }
    proof {
        assert(out@ =~= in_window_order(o, part@, okeys.deep_view(), ks@));
        assert forall|b: int| 0 <= b < out@.len() implies sort::lists(
            part@,
            #[trigger] out@[b] as int,
        ) by {
            assert(out@[b] == part@[places@[b] as int]);
        }
        assert forall|x: int| sort::lists(part@, x) implies #[trigger] sort::lists(out@, x) by {
            let j = choose|j: int| 0 <= j < part@.len() && #[trigger] part@[j] == x;
            assert(sort::lists(places@, j));
            let b = choose|b: int| 0 <= b < places@.len() && #[trigger] places@[b] == j;
            assert(out@[b] == x);
        }
        lemma_permutation_len(o, kv, ks@, places@, part@.len());
        assert forall|a: int, b: int| 0 <= a < b < out@.len() implies #[trigger] out@[a]
            != #[trigger] out@[b] by {
            let x = places@[a] as int;
            let y = places@[b] as int;
            assert(sort::before(o, kv, ks@, x, y));
            sort::lemma_before_asym(o, kv, ks@, x, y);
            assert(out@[a] == part@[x] && out@[b] == part@[y]);
        }
    }
    out
}

pub proof fn lemma_permutation_len<O: ValueOrder>(
    o: &O,
    keys: sort::KeyRows,
    ks: Seq<SortKey>,
    places: Seq<usize>,
    n: nat,
)
    requires
        sort::is_sorted(o, keys, ks, places, 0, n as int),
    ensures
        places.len() == n,
{
    assert forall|a: int, b: int| 0 <= a < b < places.len() implies #[trigger] places[a]
        != #[trigger] places[b] by {
        assert(sort::before(o, keys, ks, places[a] as int, places[b] as int));
        sort::lemma_before_asym(o, keys, ks, places[a] as int, places[b] as int);
    }
    lemma_listed_once(places, n);
}

proof fn lemma_listed_once(places: Seq<usize>, n: nat)
    requires
        forall|a: int| 0 <= a < places.len() ==> 0 <= #[trigger] places[a] < n,
        forall|x: int| 0 <= x < n ==> #[trigger] sort::lists(places, x),
        forall|a: int, b: int|
            0 <= a < b < places.len() ==> #[trigger] places[a] != #[trigger] places[b],
    ensures
        places.len() == n,
    decreases n,
{
    if n == 0 {
        if places.len() > 0 {
            assert(0 <= places[0] < n);
        }
    } else {
        assert(sort::lists(places, n - 1));
        let a = choose|a: int| 0 <= a < places.len() && #[trigger] places[a] == n - 1;
        let rest = places.remove(a);
        assert forall|b: int| 0 <= b < rest.len() implies 0 <= #[trigger] rest[b] < n - 1 by {
            if b < a {
                assert(rest[b] == places[b]);
            } else {
                assert(rest[b] == places[b + 1]);
            }
        }
        assert forall|x: int| 0 <= x < n - 1 implies #[trigger] sort::lists(rest, x) by {
            assert(sort::lists(places, x));
            let b = choose|b: int| 0 <= b < places.len() && #[trigger] places[b] == x;
            if b < a {
                assert(rest[b] == x);
            } else {
                assert(rest[b - 1] == x);
            }
        }
        assert forall|b: int, c: int| 0 <= b < c < rest.len() implies #[trigger] rest[b]
            != #[trigger] rest[c] by {
            let b1 = if b < a {
                b
            } else {
                b + 1
            };
            let c1 = if c < a {
                c
            } else {
                c + 1
            };
            assert(rest[b] == places[b1] && rest[c] == places[c1]);
        }
        lemma_listed_once(rest, (n - 1) as nat);
    }
}

// ---------------------------------------------------------------- the whole input

/// The rows of the `p`-th partition in window order.
pub open spec fn window_rows<O: ValueOrder>(
    o: &O,
    pk: sort::KeyRows,
    okeys: sort::KeyRows,
    ks: Seq<SortKey>,
    p: int,
) -> Seq<usize> {
    in_window_order(o, partitions(o, pk, pk.len())[p], okeys, ks)
}

/// Each row of the first `n` partitions has the cell that the function gives it in its partition.
pub open spec fn filled<O: ValueOrder>(
    o: &O,
    win: Window,
    pk: sort::KeyRows,
    okeys: sort::KeyRows,
    args: Seq<Seq<ValueView>>,
    shifts: Seq<Shifts>,
    cells: Seq<CellView>,
    n: nat,
) -> bool {
    forall|p: int, k: int|
        0 <= p < n && 0 <= k < #[trigger] window_rows(o, pk, okeys, win.order@, p).len()
            ==> cells[#[trigger] window_rows(o, pk, okeys, win.order@, p)[k] as int] == cell(
            o,
            win.func,
            win.frame,
            win.order@.len() > 0,
            window_rows(o, pk, okeys, win.order@, p),
            okeys,
            args,
            shifts,
            k,
        )
}

/// What a window function gives each row of the input, in input order. Of each row, `pk` holds the
/// partition keys, `okeys` the ordering keys, `args` the arguments, and `shifts` where the frame's
/// calendar offsets lead.
///
/// The input is partitioned, each partition is ordered, and the function is applied to it. One
/// partition that the function refuses refuses the whole.
pub fn compute_window<O: ValueOrder>(
    o: &O,
    win: &Window,
    pk: &Vec<Vec<Value>>,
    okeys: &Vec<Vec<Value>>,
    args: &Vec<Vec<Value>>,
    shifts: &Vec<Shifts>,
) -> (r: Result<Vec<WindowCell>, Error>)
    requires
        pk@.len() == okeys@.len() == args@.len() == shifts@.len(),
        sort::keyed(okeys.deep_view(), win.order@.len()),
        pk@.len() <= i64::MAX,
    ensures
        ({
            let kv = pk.deep_view();
            let ov = okeys.deep_view();
            let av = args.deep_view();
            let n = partitions(o, kv, kv.len()).len();
            match r {
                Ok(cells) => {
                    &&& cells@.len() == pk@.len()
                    &&& forall|p: int|
                        0 <= p < n ==> !refused(
                            win.func,
                            #[trigger] window_rows(o, kv, ov, win.order@, p),
                            av,
                        )
                    &&& filled(
                        o,
                        *win,
                        kv,
                        ov,
                        av,
                        shifts@,
                        cells@.map_values(|c: WindowCell| c@),
                        n,
                    )
                },
                Err(e) => e is BucketCount && exists|p: int|
                    0 <= p < n && refused(
                        win.func,
                        #[trigger] window_rows(o, kv, ov, win.order@, p),
                        av,
                    ),
            }
        }),
{
    let ghost kv = pk.deep_view();
    let ghost ov = okeys.deep_view();
    let ghost av = args.deep_view();
    let total: usize = pk.len();
    let mut result: Vec<WindowCell> = Vec::new();
    let mut i: usize = 0;
    while i < total
        invariant
            i <= total,
            result@.len() == i,
        decreases total - i,
    {
        result.push(WindowCell::Value(Value::Null));
        i += 1;
    }
    let parts = partition_rows(o, pk);
    let ghost pv = parts.deep_view();
    proof {
        law_partitions_are_the_groups(o, kv, kv.len());
    }
    let mut p: usize = 0;
    while p < parts.len()
        invariant
            kv == pk.deep_view(),
            ov == okeys.deep_view(),
            av == args.deep_view(),
            pv == parts.deep_view(),
            pv == partitions(o, kv, kv.len()),
            total == pk@.len(),
            total == kv.len(),
            pk@.len() == okeys@.len() == args@.len() == shifts@.len(),
            sort::keyed(ov, win.order@.len()),
            total <= i64::MAX,
            partitioned(o, kv, kv.len(), pv),
            p <= parts@.len(),
            result@.len() == total,
            forall|q: int|
                0 <= q < p ==> !refused(
                    win.func,
                    #[trigger] window_rows(o, kv, ov, win.order@, q),
                    av,
                ),
            filled(
                o,
                *win,
                kv,
                ov,
                av,
                shifts@,
                result@.map_values(|c: WindowCell| c@),
                p as nat,
            ),
        decreases parts@.len() - p,
    {
        let ghost part = pv[p as int];
        assert(part =~= parts@[p as int]@);
        assert forall|a: int| 0 <= a < part.len() implies #[trigger] parts@[p as int]@[a] < okeys@.len() by {
            assert(pv[p as int][a] < kv.len());
        }
        assert forall|a: int, b: int| 0 <= a < b < part.len() implies #[trigger] parts@[p as int]@[a]
            < #[trigger] parts@[p as int]@[b] by {
            assert(pv[p as int][a] < pv[p as int][b]);
        }
        let rows = order_partition(o, &parts[p], okeys, &win.order);
        assert(rows@ == window_rows(o, kv, ov, win.order@, p as int));
        proof {
            assert(part.len() > 0);
            lemma_part_len(o, kv, kv.len(), pv, p as int);
            assert forall|a: int| 0 <= a < rows@.len() implies #[trigger] rows@[a] < okeys@.len() by {
                assert(sort::lists(part, rows@[a] as int));
                let b = choose|b: int| 0 <= b < part.len() && #[trigger] part[b] == rows@[a] as int;
                assert(pv[p as int][b] < kv.len());
            }
        }
        let cells = match partition_cells(o, win, &rows, okeys, args, shifts) {
            Ok(cells) => cells,
            Err(e) => {
                assert(refused(win.func, window_rows(o, kv, ov, win.order@, p as int), av));
                return Err(e);
            },
        };
        let ghost before = result@.map_values(|c: WindowCell| c@);
        let ghost given = cells@;
        let mut k: usize = 0;
        let n: usize = rows.len();
        for c in it: cells
            invariant
                n == rows@.len(),
                it.seq() == given,
                k == it.index(),
                given.len() == rows@.len(),
                total == result@.len(),
                forall|a: int| 0 <= a < rows@.len() ==> #[trigger] rows@[a] < total,
                forall|a: int, b: int|
                    0 <= a < b < rows@.len() ==> #[trigger] rows@[a] != #[trigger] rows@[b],
                before.len() == total,
                forall|a: int|
                    0 <= a < k ==> result@[#[trigger] rows@[a] as int]@ == given[a]@,
                forall|x: int|
                    0 <= x < total && !sort::lists(rows@, x) ==> (#[trigger] result@[x])@ == before[x],
        {
            let at: usize = rows[k];
            let ghost prior = result@;
            result.set(at, c);
            proof {
                assert(result@ =~= prior.update(at as int, c));
                assert(rows@[k as int] == at);
                assert(sort::lists(rows@, at as int));
            }
            k += 1;
        }
        proof {
            let after = result@.map_values(|c: WindowCell| c@);
            assert forall|q: int, k: int|
                0 <= q < p + 1 && 0 <= k < #[trigger] window_rows(o, kv, ov, win.order@, q).len() implies after[#[trigger] window_rows(
                o,
                kv,
                ov,
                win.order@,
                q,
            )[k] as int] == cell(
                o,
                win.func,
                win.frame,
                win.order@.len() > 0,
                window_rows(o, kv, ov, win.order@, q),
                ov,
                av,
                shifts@,
                k,
            ) by {
                let wr = window_rows(o, kv, ov, win.order@, q);
                let x = wr[k] as int;
                if q == p {
                    assert(result@[rows@[k] as int]@ == given[k]@);
                } else {
                    lemma_window_row(o, kv, ov, win.order@, q, k);
                    if sort::lists(rows@, x) {
                        let b = choose|b: int| 0 <= b < rows@.len() && #[trigger] rows@[b] == x;
                        lemma_window_row(o, kv, ov, win.order@, p as int, b);
                        lemma_parts_disjoint(o, kv, kv.len(), pv, q, p as int, x);
                    }
                    lemma_row_in_range(o, kv, pv, q, x);
                    assert(result@[x]@ == before[x]);
                }
            }
        }
        p += 1;
    }
    Ok(result)
}

/// A partition has no more rows than the input.
proof fn lemma_part_len<O: ValueOrder>(
    o: &O,
    pk: sort::KeyRows,
    n: nat,
    parts: Seq<Seq<usize>>,
    p: int,
)
    requires
        partitioned(o, pk, n, parts),
        0 <= p < parts.len(),
    ensures
        parts[p].len() <= n,
{
    lemma_ascending_len(parts[p], n, parts[p].len());
}

proof fn lemma_ascending_len(s: Seq<usize>, n: nat, k: nat)
    requires
        k <= s.len(),
        forall|a: int| 0 <= a < s.len() ==> 0 <= #[trigger] s[a] < n,
        forall|a: int, b: int| 0 <= a < b < s.len() ==> #[trigger] s[a] < #[trigger] s[b],
    ensures
        k <= n,
        k > 0 ==> s[k - 1] >= k - 1,
    decreases k,
{
    if k > 0 {
        lemma_ascending_len(s, n, (k - 1) as nat);
        if k > 1 {
            assert(s[k - 2] < s[k - 1]);
        }
    }
}

proof fn lemma_row_in_range<O: ValueOrder>(
    o: &O,
    pk: sort::KeyRows,
    parts: Seq<Seq<usize>>,
    p: int,
    x: int,
)
    requires
        partitioned(o, pk, pk.len(), parts),
        0 <= p < parts.len(),
        sort::lists(parts[p], x),
    ensures
        0 <= x < pk.len(),
{
    let a = choose|a: int| 0 <= a < parts[p].len() && #[trigger] parts[p][a] == x;
    assert(0 <= parts[p][a] < pk.len());
}

proof fn lemma_parts_disjoint<O: ValueOrder>(
    o: &O,
    pk: sort::KeyRows,
    n: nat,
    parts: Seq<Seq<usize>>,
    p: int,
    q: int,
    x: int,
)
    requires
        partitioned(o, pk, n, parts),
        0 <= p < q < parts.len(),
    ensures
        !(sort::lists(parts[p], x) && sort::lists(parts[q], x)),
{
    if sort::lists(parts[p], x) && sort::lists(parts[q], x) {
        let a = choose|a: int| 0 <= a < parts[p].len() && #[trigger] parts[p][a] == x;
        let b = choose|b: int| 0 <= b < parts[q].len() && #[trigger] parts[q][b] == x;
        let f = pk[parts[p][0] as int];
        let g = pk[parts[q][0] as int];
        assert(order::same_group(o, f, pk[parts[p][a] as int]));
        assert(order::same_group(o, g, pk[parts[q][b] as int]));
        order::law_grouping_is_equivalence(o, f, pk[x], g);
        order::law_grouping_is_equivalence(o, g, pk[x], f);
    }
}

proof fn lemma_window_row<O: ValueOrder>(
    o: &O,
    pk: sort::KeyRows,
    okeys: sort::KeyRows,
    ks: Seq<SortKey>,
    p: int,
    k: int,
)
    requires
        pk.len() == okeys.len(),
        pk.len() <= usize::MAX,
        sort::keyed(okeys, ks.len()),
        partitioned(o, pk, pk.len(), partitions(o, pk, pk.len())),
        0 <= p < partitions(o, pk, pk.len()).len(),
        0 <= k < window_rows(o, pk, okeys, ks, p).len(),
    ensures
        sort::lists(
            partitions(o, pk, pk.len())[p],
            window_rows(o, pk, okeys, ks, p)[k] as int,
        ),
{
    let part = partitions(o, pk, pk.len())[p];
    let keys = sort::picked(okeys, part);
    assert forall|i: int| 0 <= i < keys.len() implies (#[trigger] keys[i]).len() == ks.len() by {
        assert(0 <= part[i] < pk.len());
        assert(keys[i] == okeys[part[i] as int]);
    }
    lemma_part_len(o, pk, pk.len(), partitions(o, pk, pk.len()), p);
    sort::law_sorted_order_is_sorted(o, keys, ks);
    let places = sort::sorted_order(o, keys, ks);
    assert(window_rows(o, pk, okeys, ks, p)[k] == part[places[k] as int]);
}

/// Row `i` of the input stands at place `k` of partition `p` in window order.
pub open spec fn stands_at<O: ValueOrder>(
    o: &O,
    pk: sort::KeyRows,
    okeys: sort::KeyRows,
    ks: Seq<SortKey>,
    i: int,
    p: int,
    k: int,
) -> bool {
    &&& 0 <= p < partitions(o, pk, pk.len()).len()
    &&& 0 <= k < window_rows(o, pk, okeys, ks, p).len()
    &&& window_rows(o, pk, okeys, ks, p)[k] == i
}

/// What a window function gives row `i` of the input: its cell in the partition where it stands.
pub open spec fn cell_of<O: ValueOrder>(
    o: &O,
    win: Window,
    pk: sort::KeyRows,
    okeys: sort::KeyRows,
    args: Seq<Seq<ValueView>>,
    shifts: Seq<Shifts>,
    i: int,
) -> CellView {
    let at = choose|p: int, k: int| #[trigger] stands_at(o, pk, okeys, win.order@, i, p, k);
    cell(
        o,
        win.func,
        win.frame,
        win.order@.len() > 0,
        window_rows(o, pk, okeys, win.order@, at.0),
        okeys,
        args,
        shifts,
        at.1,
    )
}

/// What a window function gives each row of the input.
pub open spec fn cells_of<O: ValueOrder>(
    o: &O,
    win: Window,
    pk: sort::KeyRows,
    okeys: sort::KeyRows,
    args: Seq<Seq<ValueView>>,
    shifts: Seq<Shifts>,
) -> Seq<CellView> {
    Seq::new(pk.len(), |i: int| cell_of(o, win, pk, okeys, args, shifts, i))
}

/// The function refuses one of the partitions.
pub open spec fn refuses<O: ValueOrder>(
    o: &O,
    win: Window,
    pk: sort::KeyRows,
    okeys: sort::KeyRows,
    args: Seq<Seq<ValueView>>,
) -> bool {
    exists|p: int|
        0 <= p < partitions(o, pk, pk.len()).len() && refused(
            win.func,
            #[trigger] window_rows(o, pk, okeys, win.order@, p),
            args,
        )
}

/// Every row of the input stands somewhere in a partition.
pub proof fn law_every_row_stands_somewhere<O: ValueOrder>(
    o: &O,
    pk: sort::KeyRows,
    okeys: sort::KeyRows,
    ks: Seq<SortKey>,
    i: int,
)
    requires
        pk.len() == okeys.len(),
        pk.len() <= usize::MAX,
        sort::keyed(okeys, ks.len()),
        0 <= i < pk.len(),
    ensures
        exists|p: int, k: int| #[trigger] stands_at(o, pk, okeys, ks, i, p, k),
{
    let parts = partitions(o, pk, pk.len());
    law_partitions_are_the_groups(o, pk, pk.len());
    assert(has_part(parts, i));
    let p = choose|p: int| 0 <= p < parts.len() && sort::lists(#[trigger] parts[p], i);
    let part = parts[p];
    let a = choose|a: int| 0 <= a < part.len() && #[trigger] part[a] == i;
    let keys = sort::picked(okeys, part);
    assert forall|j: int| 0 <= j < keys.len() implies (#[trigger] keys[j]).len() == ks.len() by {
        assert(0 <= part[j] < pk.len());
        assert(keys[j] == okeys[part[j] as int]);
    }
    lemma_part_len(o, pk, pk.len(), parts, p);
    sort::law_sorted_order_is_sorted(o, keys, ks);
    let places = sort::sorted_order(o, keys, ks);
    assert(sort::lists(places, a));
    let k = choose|k: int| 0 <= k < places.len() && #[trigger] places[k] == a;
    assert(window_rows(o, pk, okeys, ks, p)[k] == part[places[k] as int]);
    assert(stands_at(o, pk, okeys, ks, i, p, k));
}

/// No row of the input stands at two places.
pub proof fn law_every_row_stands_once<O: ValueOrder>(
    o: &O,
    pk: sort::KeyRows,
    okeys: sort::KeyRows,
    ks: Seq<SortKey>,
    i: int,
    p: int,
    k: int,
    q: int,
    l: int,
)
    requires
        pk.len() == okeys.len(),
        pk.len() <= usize::MAX,
        sort::keyed(okeys, ks.len()),
        stands_at(o, pk, okeys, ks, i, p, k),
        stands_at(o, pk, okeys, ks, i, q, l),
    ensures
        p == q && k == l,
{
    let parts = partitions(o, pk, pk.len());
    law_partitions_are_the_groups(o, pk, pk.len());
    lemma_window_row(o, pk, okeys, ks, p, k);
    lemma_window_row(o, pk, okeys, ks, q, l);
    if p < q {
        lemma_parts_disjoint(o, pk, pk.len(), parts, p, q, i);
    }
    if q < p {
        lemma_parts_disjoint(o, pk, pk.len(), parts, q, p, i);
    }
    let part = parts[p];
    let keys = sort::picked(okeys, part);
    assert forall|j: int| 0 <= j < keys.len() implies (#[trigger] keys[j]).len() == ks.len() by {
        assert(0 <= part[j] < pk.len());
        assert(keys[j] == okeys[part[j] as int]);
    }
    lemma_part_len(o, pk, pk.len(), parts, p);
    sort::law_sorted_order_is_sorted(o, keys, ks);
    let places = sort::sorted_order(o, keys, ks);
    assert(part[places[k] as int] == i);
    assert(part[places[l] as int] == i);
    if places[k] < places[l] {
        assert(part[places[k] as int] < part[places[l] as int]);
    }
    if places[l] < places[k] {
        assert(part[places[l] as int] < part[places[k] as int]);
    }
    sort::lemma_before_asym(o, keys, ks, places[k] as int, places[l] as int);
    if k < l {
        assert(sort::before(o, keys, ks, places[k] as int, places[l] as int));
    }
    if l < k {
        assert(sort::before(o, keys, ks, places[l] as int, places[k] as int));
    }
}

/// The cells of the rows fill every partition: each row has the cell that the function gives it where it
/// stands.
pub proof fn law_cells_fill_the_partitions<O: ValueOrder>(
    o: &O,
    win: Window,
    pk: sort::KeyRows,
    okeys: sort::KeyRows,
    args: Seq<Seq<ValueView>>,
    shifts: Seq<Shifts>,
)
    requires
        pk.len() == okeys.len(),
        pk.len() <= usize::MAX,
        sort::keyed(okeys, win.order@.len()),
    ensures
        filled(
            o,
            win,
            pk,
            okeys,
            args,
            shifts,
            cells_of(o, win, pk, okeys, args, shifts),
            partitions(o, pk, pk.len()).len(),
        ),
{
    let ks = win.order@;
    let parts = partitions(o, pk, pk.len());
    let cells = cells_of(o, win, pk, okeys, args, shifts);
    law_partitions_are_the_groups(o, pk, pk.len());
    assert forall|p: int, k: int|
        0 <= p < parts.len() && 0 <= k < #[trigger] window_rows(o, pk, okeys, ks, p).len() implies cells[
    #[trigger] window_rows(o, pk, okeys, ks, p)[k] as int] == cell(
        o,
        win.func,
        win.frame,
        ks.len() > 0,
        window_rows(o, pk, okeys, ks, p),
        okeys,
        args,
        shifts,
        k,
    ) by {
        let i = window_rows(o, pk, okeys, ks, p)[k] as int;
        lemma_window_row(o, pk, okeys, ks, p, k);
        let a = choose|a: int| 0 <= a < parts[p].len() && #[trigger] parts[p][a] == i;
        assert(0 <= parts[p][a] < pk.len());
        assert(stands_at(o, pk, okeys, ks, i, p, k));
        let at = choose|q: int, l: int| #[trigger] stands_at(o, pk, okeys, ks, i, q, l);
        assert(stands_at(o, pk, okeys, ks, i, at.0, at.1));
        law_every_row_stands_once(o, pk, okeys, ks, i, p, k, at.0, at.1);
    }
}

/// Cells that fill every partition are the cells of the rows.
pub proof fn lemma_filled_cells<O: ValueOrder>(
    o: &O,
    win: Window,
    pk: sort::KeyRows,
    okeys: sort::KeyRows,
    args: Seq<Seq<ValueView>>,
    shifts: Seq<Shifts>,
    cells: Seq<CellView>,
)
    requires
        pk.len() == okeys.len(),
        pk.len() <= usize::MAX,
        sort::keyed(okeys, win.order@.len()),
        cells.len() == pk.len(),
        filled(o, win, pk, okeys, args, shifts, cells, partitions(o, pk, pk.len()).len()),
    ensures
        cells == cells_of(o, win, pk, okeys, args, shifts),
{
    assert forall|i: int| 0 <= i < cells.len() implies #[trigger] cells[i] == cell_of(
        o,
        win,
        pk,
        okeys,
        args,
        shifts,
        i,
    ) by {
        law_every_row_stands_somewhere(o, pk, okeys, win.order@, i);
        let at = choose|p: int, k: int| #[trigger] stands_at(o, pk, okeys, win.order@, i, p, k);
        assert(stands_at(o, pk, okeys, win.order@, i, at.0, at.1));
    }
    assert(cells =~= cells_of(o, win, pk, okeys, args, shifts));
}

/// Append a column of values to each row, in order; a row beyond the end of a column gets NULL.
pub open spec fn with_columns(row: Seq<ValueView>, columns: Seq<Seq<ValueView>>, i: int) -> Seq<
    ValueView,
> {
    row + columns.map_values(
        |c: Seq<ValueView>|
            if i < c.len() {
                c[i]
            } else {
                ValueView::Null
            },
    )
}

/// Append one column of values per window function to the input rows, which keep their order.
pub fn run_window(rows: Vec<Row>, columns: &Vec<Vec<Value>>) -> (r: Vec<Row>)
    ensures
        r@.len() == rows@.len(),
        forall|i: int|
            0 <= i < r@.len() ==> (#[trigger] r.deep_view()[i]) == with_columns(
                rows.deep_view()[i],
                columns.deep_view(),
                i,
            ),
{
    let ghost all = rows@;
    let ghost cv = columns.deep_view();
    let total: usize = rows.len();
    let mut out: Vec<Row> = Vec::new();
    let mut i: usize = 0;
    for row in it: rows
        invariant
            it.seq() == all,
            i == it.index(),
            all.len() == total,
            cv == columns.deep_view(),
            out@.len() == i,
            forall|k: int|
                0 <= k < i ==> (#[trigger] out@[k]).deep_view() == with_columns(
                    all[k].deep_view(),
                    cv,
                    k,
                ),
    {
        let ghost before = row.deep_view();
        let mut wide: Row = row;
        let mut c: usize = 0;
        assert(wide.deep_view() =~= before + with_columns(before, cv, i as int).subrange(
            before.len() as int,
            before.len() as int,
        ));
        while c < columns.len()
            invariant
                cv == columns.deep_view(),
                c <= columns@.len(),
                wide.deep_view() == with_columns(before, cv, i as int).take(before.len() + c),
            decreases columns@.len() - c,
        {
            let ghost want = with_columns(before, cv, i as int);
            let ghost sofar = wide.deep_view();
            assert(cv[c as int] == columns@[c as int].deep_view());
            let value: Value = if i < columns[c].len() {
                assert(cv[c as int][i as int] == columns@[c as int]@[i as int]@);
                columns[c][i].clone()
            } else {
                Value::Null
            };
            assert(want[before.len() + c] == value@);
            wide.push(value);
            assert(wide.deep_view() =~= sofar.push(value@));
            assert(want.take(before.len() + c + 1) =~= want.take(before.len() + c).push(
                want[before.len() + c],
            ));
            c += 1;
        }
        assert(with_columns(before, cv, i as int).take((before.len() + cv.len()) as int) =~= with_columns(
            before,
            cv,
            i as int,
        ));
        out.push(wide);
        i += 1;
    }
    out
}

} // verus!
