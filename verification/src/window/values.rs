//! What window functions give the rows of a partition.
use vstd::prelude::*;
use crate::order;
use crate::order::{SortKey, ValueOrder};
use crate::sort;
use crate::sort::KeyRows;
use crate::value::ValueView;
use crate::window;
use crate::window::frames;
use crate::window::run;
use crate::window::run::{CellView, Window};
use crate::window::{Shifts, WindowExclude, WindowFrame, WindowFunc};

verus! {

/// The rows of a partition in window order, with their ordering keys and their arguments.
pub struct Partition {
    pub rows: Seq<usize>,
    pub okeys: KeyRows,
    pub args: Seq<Seq<ValueView>>,
    pub shifts: Seq<Shifts>,
}

/// The ordering keys of the row at place `k`.
pub open spec fn keys_of(p: Partition) -> KeyRows {
    Seq::new(p.rows.len(), |k: int| p.okeys[p.rows[k] as int])
}

/// The arguments of the function at the row at place `k`.
pub open spec fn args_at(p: Partition, k: int) -> Seq<ValueView> {
    p.args[p.rows[k] as int]
}

/// What a function gives the row at place `k`.
pub open spec fn given<O: ValueOrder>(
    o: &O,
    func: WindowFunc,
    frame: Option<WindowFrame>,
    ordered: bool,
    p: Partition,
    k: int,
) -> CellView {
    run::cell(o, func, frame, ordered, p.rows, p.okeys, p.args, p.shifts, k)
}

proof fn lemma_picked(p: Partition)
    ensures
        sort::picked(p.okeys, p.rows) == keys_of(p),
        forall|k: int|
            0 <= k < p.rows.len() ==> #[trigger] sort::picked(p.args, p.rows)[k] == args_at(p, k),
        sort::picked(p.args, p.rows).len() == p.rows.len(),
{
    assert(sort::picked(p.okeys, p.rows) =~= keys_of(p));
}

/// `ROW_NUMBER` counts the rows from one. `RANK` is one more than the number of rows in the groups before
/// that of the row, and `DENSE_RANK` the number of its group.
pub proof fn law_ranks_count_what_comes_before<O: ValueOrder>(
    o: &O,
    frame: Option<WindowFrame>,
    ordered: bool,
    p: Partition,
    k: int,
)
    requires
        0 <= k < p.rows.len(),
        p.rows.len() < i64::MAX,
    ensures
        given(o, WindowFunc::RowNumber, frame, ordered, p, k) == CellView::Value(
            ValueView::Int((k + 1) as i64),
        ),
        given(o, WindowFunc::Rank, frame, ordered, p, k) matches CellView::Value(ValueView::Int(r)) && 1
            <= r <= k + 1 && forall|j: int|
            0 <= j < p.rows.len() ==> (j < r - 1 <==> #[trigger] frames::group_number(o, keys_of(p), j)
                < frames::group_number(o, keys_of(p), k)),
        given(o, WindowFunc::DenseRank, frame, ordered, p, k) matches CellView::Value(ValueView::Int(r))
            && r == frames::group_number(o, keys_of(p), k),
{
    lemma_picked(p);
    let keys = keys_of(p);
    window::law_peers_are_a_run(o, keys, k);
    lemma_numbers_fit(o, keys, k);
    assert forall|j: int| 0 <= j < p.rows.len() implies (j < window::peer_lo(o, keys, k)
        <==> #[trigger] frames::group_number(o, keys, j) < frames::group_number(o, keys, k)) by {
        frames::lemma_group_run(o, keys, k, j);
    }
}

proof fn lemma_numbers_fit<O: ValueOrder>(o: &O, keys: KeyRows, k: int)
    requires
        0 <= k < keys.len(),
    ensures
        1 <= frames::group_number(o, keys, k) <= k + 1,
    decreases k,
{
    frames::law_groups_are_numbered_in_order(o, keys, k);
    if k > 0 {
        lemma_numbers_fit(o, keys, k - 1);
    }
}

/// `CUME_DIST` is the share of the rows that are in the group of the row or before it, of all rows.
/// `PERCENT_RANK` is the share of the rows in the groups before that of the row, of all other rows; zero in
/// a partition of one row.
pub proof fn law_shares_count_what_comes_before<O: ValueOrder>(
    o: &O,
    frame: Option<WindowFrame>,
    ordered: bool,
    p: Partition,
    k: int,
)
    requires
        0 <= k < p.rows.len(),
    ensures
        given(o, WindowFunc::CumeDist, frame, ordered, p, k) matches CellView::Share(a, b) && b
            == p.rows.len() && forall|j: int|
            0 <= j < p.rows.len() ==> (j < a <==> #[trigger] frames::group_number(o, keys_of(p), j)
                <= frames::group_number(o, keys_of(p), k)),
        p.rows.len() == 1 ==> given(o, WindowFunc::PercentRank, frame, ordered, p, k) == CellView::Share(
            0,
            1,
        ),
        p.rows.len() > 1 ==> (given(o, WindowFunc::PercentRank, frame, ordered, p, k)
            matches CellView::Share(a, b) && b == p.rows.len() - 1 && forall|j: int|
            0 <= j < p.rows.len() ==> (j < a <==> #[trigger] frames::group_number(o, keys_of(p), j)
                < frames::group_number(o, keys_of(p), k))),
{
    lemma_picked(p);
    let keys = keys_of(p);
    window::law_peers_are_a_run(o, keys, k);
    assert forall|j: int| 0 <= j < p.rows.len() implies (j < window::peer_lo(o, keys, k)
        <==> #[trigger] frames::group_number(o, keys, j) < frames::group_number(o, keys, k)) && (j
        <= window::peer_hi(o, keys, k) <==> frames::group_number(o, keys, j) <= frames::group_number(
        o,
        keys,
        k,
    )) by {
        frames::lemma_group_run(o, keys, k, j);
    }
}

/// The first argument at a row, or NULL without one.
pub open spec fn read_at(p: Partition, k: int) -> CellView {
    if args_at(p, k).len() > 0 {
        CellView::Value(args_at(p, k)[0])
    } else {
        CellView::Value(ValueView::Null)
    }
}

/// The third argument at a row, or NULL without one.
pub open spec fn default_at(p: Partition, k: int) -> CellView {
    if args_at(p, k).len() > 2 {
        CellView::Value(args_at(p, k)[2])
    } else {
        CellView::Value(ValueView::Null)
    }
}

/// `LAG` reads so many rows before the row, and `LEAD` so many after it: as many as the second argument
/// says, and one without it. Where the partition does not reach that far, the default is given.
pub proof fn law_lag_looks_back_and_lead_ahead<O: ValueOrder>(
    o: &O,
    frame: Option<WindowFrame>,
    ordered: bool,
    p: Partition,
    k: int,
    n: i64,
)
    requires
        0 <= k < p.rows.len(),
        n > i64::MIN,
        args_at(p, k).len() <= 1 ==> n == 1,
        args_at(p, k).len() > 1 ==> args_at(p, k)[1] == ValueView::Int(n),
    ensures
        given(o, WindowFunc::Lag, frame, ordered, p, k) == if 0 <= k - n < p.rows.len() {
            read_at(p, k - n)
        } else {
            default_at(p, k)
        },
        given(o, WindowFunc::Lead, frame, ordered, p, k) == if 0 <= k + n < p.rows.len() {
            read_at(p, k + n)
        } else {
            default_at(p, k)
        },
{
    lemma_picked(p);
    let here = sort::picked(p.args, p.rows);
    assert(here[k] == args_at(p, k));
    if 0 <= k - n < p.rows.len() {
        assert(here[k - n] == args_at(p, k - n));
    }
    if 0 <= k + n < p.rows.len() {
        assert(here[k + n] == args_at(p, k + n));
    }
}

/// The places of the rows in the frame of a row, before any exclusion.
pub open spec fn framed<O: ValueOrder>(
    o: &O,
    frame: Option<WindowFrame>,
    ordered: bool,
    p: Partition,
    k: int,
) -> Seq<usize> {
    let whole = match frame {
        Some(f) => Some(WindowFrame { exclude: WindowExclude::NoOthers, ..f }),
        None => None,
    };
    window::aggregated(o, whole, ordered, keys_of(p), k, p.shifts[p.rows[k] as int], p.rows.len())
}

/// The frame, before any exclusion, is a run of rows.
proof fn lemma_run<O: ValueOrder>(
    o: &O,
    frame: Option<WindowFrame>,
    ordered: bool,
    keys: KeyRows,
    k: int,
    shifts: Shifts,
    n: nat,
)
    requires
        n <= keys.len() <= usize::MAX,
        0 <= k < keys.len(),
        frame matches Some(f) ==> f.exclude is NoOthers,
    ensures
        ({
            let all = window::aggregated(o, frame, ordered, keys, k, shifts, n);
            match window::value_range(o, frame, ordered, keys, k, shifts) {
                Some(w) => {
                    let end = if w.1 < n {
                        w.1 + 1
                    } else {
                        n as int
                    };
                    &&& 0 <= w.0 <= w.1 < keys.len()
                    &&& all.len() == if end > w.0 {
                        end - w.0
                    } else {
                        0
                    }
                    &&& forall|i: int| 0 <= i < all.len() ==> #[trigger] all[i] == w.0 + i
                },
                None => all.len() == 0,
            }
        }),
    decreases n,
{
    window::law_peers_are_a_run(o, keys, k);
    if n > 0 {
        lemma_run(o, frame, ordered, keys, k, shifts, (n - 1) as nat);
        let head = window::aggregated(o, frame, ordered, keys, k, shifts, (n - 1) as nat);
        let all = window::aggregated(o, frame, ordered, keys, k, shifts, n);
        if window::aggregates(o, frame, ordered, keys, k, shifts, n - 1) {
            assert(all == head.push((n - 1) as usize));
        } else {
            assert(all == head);
        }
    } else {
        lemma_in_partition(o, frame, ordered, keys, k, shifts);
    }
}

proof fn lemma_in_partition<O: ValueOrder>(
    o: &O,
    frame: Option<WindowFrame>,
    ordered: bool,
    keys: KeyRows,
    k: int,
    shifts: Shifts,
)
    requires
        0 <= k < keys.len(),
    ensures
        window::value_range(o, frame, ordered, keys, k, shifts) matches Some(w) ==> 0 <= w.0 <= w.1
            < keys.len(),
{
    window::law_peers_are_a_run(o, keys, k);
}

/// `FIRST_VALUE` reads the first row of the frame, `LAST_VALUE` the last, and `NTH_VALUE` the one of that
/// number, counted from one. Where there is no such row, the default is given.
pub proof fn law_values_are_read_in_the_frame<O: ValueOrder>(
    o: &O,
    frame: Option<WindowFrame>,
    ordered: bool,
    p: Partition,
    k: int,
    n: i64,
)
    requires
        0 <= k < p.rows.len() <= usize::MAX,
    ensures
        ({
            let all = framed(o, frame, ordered, p, k);
            let len = all.len() as int;
            &&& given(o, WindowFunc::FirstValue, frame, ordered, p, k) == if len > 0 {
                read_at(p, all[0] as int)
            } else {
                default_at(p, k)
            }
            &&& given(o, WindowFunc::LastValue, frame, ordered, p, k) == if len > 0 {
                read_at(p, all[len - 1] as int)
            } else {
                default_at(p, k)
            }
            &&& args_at(p, k).len() > 1 && args_at(p, k)[1] == ValueView::Int(n) ==> given(
                o,
                WindowFunc::NthValue,
                frame,
                ordered,
                p,
                k,
            ) == if 1 <= n <= len {
                read_at(p, all[n - 1] as int)
            } else {
                default_at(p, k)
            }
        }),
{
    lemma_picked(p);
    let keys = keys_of(p);
    let here = sort::picked(p.args, p.rows);
    let shifts = p.shifts[p.rows[k] as int];
    let whole = match frame {
        Some(f) => Some(WindowFrame { exclude: WindowExclude::NoOthers, ..f }),
        None => None,
    };
    lemma_run(o, whole, ordered, keys, k, shifts, keys.len());
    if let Some(f) = frame {
        frames::lemma_same_range(
            o,
            f,
            WindowFrame { exclude: WindowExclude::NoOthers, ..f },
            keys,
            k,
            shifts,
        );
    }
    assert(here[k] == args_at(p, k));
    if let Some(w) = window::value_range(o, whole, ordered, keys, k, shifts) {
        assert(here[w.0] == args_at(p, w.0));
        assert(here[w.1] == args_at(p, w.1));
        if 1 <= n && w.0 + n - 1 <= w.1 {
            assert(here[w.0 + n - 1] == args_at(p, w.0 + n - 1));
        }
    }
}

/// An aggregate is of the rows of the input that stand where the frame says.
pub proof fn law_aggregates_are_of_the_framed_rows<O: ValueOrder>(
    o: &O,
    frame: Option<WindowFrame>,
    ordered: bool,
    p: Partition,
    k: int,
)
    requires
        0 <= k < p.rows.len() <= usize::MAX,
    ensures
        ({
            let places = window::aggregated(
                o,
                frame,
                ordered,
                keys_of(p),
                k,
                p.shifts[p.rows[k] as int],
                p.rows.len(),
            );
            given(o, WindowFunc::Aggregate, frame, ordered, p, k) matches CellView::Frame(rows) && {
                &&& rows.len() == places.len()
                &&& forall|i: int| 0 <= i < rows.len() ==> #[trigger] rows[i] == p.rows[places[i] as int]
            }
        }),
{
    lemma_picked(p);
}

/// `NTILE` of `n` cuts the partition into `n` runs, numbered from one, whose lengths differ by at most one
/// row: where the rows do not divide evenly, each of the first runs takes one of those left over.
pub proof fn law_ntile_cuts_evenly<O: ValueOrder>(
    o: &O,
    frame: Option<WindowFrame>,
    ordered: bool,
    p: Partition,
    k: int,
    n: i64,
)
    requires
        0 <= k < p.rows.len(),
        p.rows.len() < i64::MAX,
        n >= 1,
        args_at(p, 0).len() > 0,
        args_at(p, 0)[0] == ValueView::Int(n),
    ensures
        given(o, WindowFunc::Ntile, frame, ordered, p, k) matches CellView::Value(ValueView::Int(b)) && {
            let size = p.rows.len() as int / n as int;
            let over = p.rows.len() as int % n as int;
            &&& 1 <= b <= n
            &&& b <= over ==> (b - 1) * (size + 1) <= k < b * (size + 1)
            &&& b > over ==> over + (b - 1) * size <= k < over + b * size
        },
{
    lemma_picked(p);
    let here = sort::picked(p.args, p.rows);
    assert(here[0] == args_at(p, 0));
    let len = p.rows.len();
    assert(window::bucket_count(here) == n);
    window::law_ntile_buckets(len, n as nat, k as nat);
    let b = window::bucket(len, n as nat, k as nat) as int;
    let size = len / n as nat;
    let over = len % n as nat;
    assert((b + 1) * size == b * size + size) by (nonlinear_arith);
    assert(b * (size + 1) == b * size + b) by (nonlinear_arith);
    assert((b + 1) * (size + 1) == b * size + size + b + 1) by (nonlinear_arith);
}

/// The rows of a partition stand in the order of the window, those that tie in the order in which they came.
pub proof fn law_partitions_stand_in_window_order<O: ValueOrder>(
    o: &O,
    part: Seq<usize>,
    okeys: KeyRows,
    ks: Seq<SortKey>,
    a: int,
    b: int,
)
    requires
        part.len() <= usize::MAX,
        forall|i: int| 0 <= i < part.len() ==> #[trigger] part[i] < okeys.len(),
        forall|i: int, j: int| 0 <= i < j < part.len() ==> part[i] < part[j],
        sort::keyed(okeys, ks.len()),
        0 <= a < b < run::in_window_order(o, part, okeys, ks).len(),
    ensures
        ({
            let rows = run::in_window_order(o, part, okeys, ks);
            let found = order::keys_order(o, okeys[rows[a] as int], okeys[rows[b] as int], ks, 0);
            &&& part.contains(rows[a])
            &&& !(found is Greater)
            &&& found is Equal ==> rows[a] < rows[b]
        }),
{
    let keys = sort::picked(okeys, part);
    let at = sort::sorted_order(o, keys, ks);
    assert(sort::keyed(keys, ks.len()));
    sort::meaning::law_sorting_orders_and_is_stable(o, keys, ks);
    let x = at[a];
    let y = at[b];
    assert(keys[x as int] == okeys[part[x as int] as int]);
    assert(keys[y as int] == okeys[part[y as int] as int]);
    assert(part.contains(part[x as int]));
}

/// Each row gets what the function gives at its place in its partition, which is ordered if the window has
/// an order.
pub proof fn law_rows_get_what_their_place_gives<O: ValueOrder>(
    o: &O,
    win: Window,
    pk: KeyRows,
    okeys: KeyRows,
    args: Seq<Seq<ValueView>>,
    shifts: Seq<Shifts>,
    p: int,
    k: int,
)
    requires
        pk.len() == okeys.len(),
        pk.len() <= usize::MAX,
        sort::keyed(okeys, win.order@.len()),
        0 <= p < run::partitions(o, pk, pk.len()).len(),
        0 <= k < run::window_rows(o, pk, okeys, win.order@, p).len(),
    ensures
        ({
            let rows = run::window_rows(o, pk, okeys, win.order@, p);
            let here = Partition { rows, okeys, args, shifts };
            let cells = run::cells_of(o, win, pk, okeys, args, shifts);
            &&& win.order@.len() == 0 ==> cells[rows[k] as int] == given(o, win.func, win.frame, false, here, k)
            &&& win.order@.len() > 0 ==> cells[rows[k] as int] == given(o, win.func, win.frame, true, here, k)
        }),
{
    run::law_cells_fill_the_partitions(o, win, pk, okeys, args, shifts);
}

/// Two rows are in one partition exactly if their partition keys are not distinct.
pub proof fn law_partitions_share_their_keys<O: ValueOrder>(o: &O, pk: KeyRows, p: int, q: int, a: int)
    requires
        pk.len() <= usize::MAX,
        0 <= p < run::partitions(o, pk, pk.len()).len(),
        0 <= q < run::partitions(o, pk, pk.len()).len(),
        0 <= a < run::partitions(o, pk, pk.len())[p].len(),
    ensures
        ({
            let parts = run::partitions(o, pk, pk.len());
            &&& order::same_group(o, pk[parts[p][0] as int], pk[parts[p][a] as int])
            &&& p < q ==> !order::same_group(o, pk[parts[p][0] as int], pk[parts[q][0] as int])
            &&& a > 0 ==> parts[p][a - 1] < parts[p][a]
        }),
{
    run::law_partitions_are_the_groups(o, pk, pk.len());
}

} // verus!
