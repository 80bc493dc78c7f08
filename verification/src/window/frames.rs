//! Which rows the frame of a row holds.
use vstd::prelude::*;
use crate::order;
use crate::order::{ColumnOrder, ValueOrder};
use crate::sort::KeyRows;
use crate::value::ValueView;
use crate::window;
use crate::window::{FrameBound, RangeOffset, Shifts, WindowExclude, WindowFrame, WindowFunc};

verus! {

/// Row `k` aggregates the row at `p`.
pub open spec fn holds<O: ValueOrder>(
    o: &O,
    frame: Option<WindowFrame>,
    ordered: bool,
    keys: KeyRows,
    k: int,
    shifts: Shifts,
    p: int,
) -> bool {
    window::aggregated(o, frame, ordered, keys, k, shifts, keys.len()).contains(p as usize)
}

/// A frame that excludes nothing.
pub open spec fn between(start: FrameBound, end: FrameBound, peer_based: bool, range_descending: bool) -> WindowFrame {
    WindowFrame { start, end, peer_based, range_descending, exclude: WindowExclude::NoOthers }
}

/// The first ordering value of each row is this integer.
pub open spec fn keyed_by(keys: KeyRows, xs: Seq<i64>) -> bool {
    &&& keys.len() == xs.len()
    &&& keys.len() <= usize::MAX
    &&& forall|i: int| 0 <= i < keys.len() ==> (#[trigger] keys[i]).len() > 0 && keys[i][0] == ValueView::Int(xs[i])
}

/// The first ordering value of each row is a time, so many microseconds after the epoch: a timestamp, or
/// the midnight of a date.
pub open spec fn timed_by(keys: KeyRows, xs: Seq<i64>) -> bool {
    &&& keys.len() == xs.len()
    &&& keys.len() <= usize::MAX
    &&& forall|i: int|
        0 <= i < keys.len() ==> (#[trigger] keys[i]).len() > 0 && match keys[i][0] {
            ValueView::Timestamp(t) => t == xs[i],
            ValueView::TimestampTz(t) => t == xs[i],
            ValueView::Date(d) => d * 86_400_000_000 == xs[i],
            _ => false,
        }
}

pub open spec fn ascends(xs: Seq<i64>) -> bool {
    forall|i: int, j: int| 0 <= i <= j < xs.len() ==> xs[i] <= xs[j]
}

pub open spec fn descends(xs: Seq<i64>) -> bool {
    forall|i: int, j: int| 0 <= i <= j < xs.len() ==> xs[i] >= xs[j]
}

proof fn lemma_aggregated<O: ValueOrder>(
    o: &O,
    frame: Option<WindowFrame>,
    ordered: bool,
    keys: KeyRows,
    k: int,
    shifts: Shifts,
    n: nat,
    p: int,
)
    requires
        n <= keys.len() <= usize::MAX,
        0 <= p < keys.len(),
    ensures
        window::aggregated(o, frame, ordered, keys, k, shifts, n).contains(p as usize) <==> p < n
            && window::aggregates(o, frame, ordered, keys, k, shifts, p),
    decreases n,
{
    let all = window::aggregated(o, frame, ordered, keys, k, shifts, n);
    if n == 0 {
        assert(!all.contains(p as usize));
    } else {
        let head = window::aggregated(o, frame, ordered, keys, k, shifts, (n - 1) as nat);
        lemma_aggregated(o, frame, ordered, keys, k, shifts, (n - 1) as nat, p);
        if window::aggregates(o, frame, ordered, keys, k, shifts, n - 1) {
            assert(all == head.push((n - 1) as usize));
            if head.contains(p as usize) {
                let i = choose|i: int| 0 <= i < head.len() && head[i] == p as usize;
                assert(all[i] == p as usize);
            }
            if all.contains(p as usize) {
                let i = choose|i: int| 0 <= i < all.len() && all[i] == p as usize;
                if i < head.len() {
                    assert(head[i] == p as usize);
                }
            }
            assert(all[all.len() - 1] == (n - 1) as usize);
        }
    }
}

/// The rows that a row aggregates are told in the order of the partition, each once.
pub proof fn law_frames_are_told_in_order<O: ValueOrder>(
    o: &O,
    frame: Option<WindowFrame>,
    ordered: bool,
    keys: KeyRows,
    k: int,
    shifts: Shifts,
)
    requires
        keys.len() <= usize::MAX,
    ensures
        ({
            let all = window::aggregated(o, frame, ordered, keys, k, shifts, keys.len());
            &&& forall|i: int, j: int| 0 <= i < j < all.len() ==> all[i] < all[j]
            &&& forall|i: int| 0 <= i < all.len() ==> #[trigger] all[i] < keys.len()
        }),
{
    lemma_told(o, frame, ordered, keys, k, shifts, keys.len());
}

proof fn lemma_told<O: ValueOrder>(
    o: &O,
    frame: Option<WindowFrame>,
    ordered: bool,
    keys: KeyRows,
    k: int,
    shifts: Shifts,
    n: nat,
)
    requires
        n <= keys.len() <= usize::MAX,
    ensures
        ({
            let all = window::aggregated(o, frame, ordered, keys, k, shifts, n);
            &&& forall|i: int, j: int| 0 <= i < j < all.len() ==> all[i] < all[j]
            &&& forall|i: int| 0 <= i < all.len() ==> #[trigger] all[i] < n
        }),
    decreases n,
{
    if n > 0 {
        lemma_told(o, frame, ordered, keys, k, shifts, (n - 1) as nat);
        let head = window::aggregated(o, frame, ordered, keys, k, shifts, (n - 1) as nat);
        let all = window::aggregated(o, frame, ordered, keys, k, shifts, n);
        if window::aggregates(o, frame, ordered, keys, k, shifts, n - 1) {
            assert(all == head.push((n - 1) as usize));
            assert forall|i: int| 0 <= i < all.len() implies #[trigger] all[i] < n by {
                if i < head.len() {
                    assert(all[i] == head[i]);
                }
            }
            assert forall|i: int, j: int| 0 <= i < j < all.len() implies all[i] < all[j] by {
                assert(all[i] == head[i]);
                if j < head.len() {
                    assert(all[j] == head[j]);
                }
            }
        } else {
            assert(all == head);
            assert forall|i: int| 0 <= i < all.len() implies #[trigger] all[i] < n by {
                assert(head[i] < n - 1);
            }
        }
    }
}

/// A frame is what lies after its start and before its end: it holds the rows that are held both by the
/// frame that is open at its end and by the one that is open at its start.
pub proof fn law_frames_lie_between_their_bounds<O: ValueOrder>(
    o: &O,
    start: FrameBound,
    end: FrameBound,
    peer_based: bool,
    descending: bool,
    ordered: bool,
    keys: KeyRows,
    xs: Seq<i64>,
    k: int,
    shifts: Shifts,
    p: int,
)
    requires
        keyed_by(keys, xs) || timed_by(keys, xs),
        0 <= k < keys.len(),
        0 <= p < keys.len(),
    ensures
        holds(o, Some(between(start, end, peer_based, descending)), ordered, keys, k, shifts, p) <==> holds(
            o,
            Some(between(start, FrameBound::UnboundedFollowing, peer_based, descending)),
            ordered,
            keys,
            k,
            shifts,
            p,
        ) && holds(
            o,
            Some(between(FrameBound::UnboundedPreceding, end, peer_based, descending)),
            ordered,
            keys,
            k,
            shifts,
            p,
        ),
{
    lemma_numbers(keys, xs, k);
    lemma_aggregated(
        o,
        Some(between(start, end, peer_based, descending)),
        ordered,
        keys,
        k,
        shifts,
        keys.len(),
        p,
    );
    lemma_aggregated(
        o,
        Some(between(start, FrameBound::UnboundedFollowing, peer_based, descending)),
        ordered,
        keys,
        k,
        shifts,
        keys.len(),
        p,
    );
    lemma_aggregated(
        o,
        Some(between(FrameBound::UnboundedPreceding, end, peer_based, descending)),
        ordered,
        keys,
        k,
        shifts,
        keys.len(),
        p,
    );
    lemma_start_free(o, start, end, peer_based, descending, keys, k, shifts.start);
    lemma_end_free(o, start, end, peer_based, descending, keys, k, shifts.end);
}

/// The place of a start bound does not depend on the other bound.
proof fn lemma_start_free<O: ValueOrder>(
    o: &O,
    start: FrameBound,
    end: FrameBound,
    peer_based: bool,
    descending: bool,
    keys: KeyRows,
    k: int,
    shifted: Option<i64>,
)
    ensures
        window::bound_place(
            o,
            between(start, end, peer_based, descending),
            start,
            keys,
            k,
            true,
            shifted,
        ) == window::bound_place(
            o,
            between(start, FrameBound::UnboundedFollowing, peer_based, descending),
            start,
            keys,
            k,
            true,
            shifted,
        ),
{
}

/// The place of an end bound does not depend on the other bound.
proof fn lemma_end_free<O: ValueOrder>(
    o: &O,
    start: FrameBound,
    end: FrameBound,
    peer_based: bool,
    descending: bool,
    keys: KeyRows,
    k: int,
    shifted: Option<i64>,
)
    ensures
        window::bound_place(
            o,
            between(start, end, peer_based, descending),
            end,
            keys,
            k,
            false,
            shifted,
        ) == window::bound_place(
            o,
            between(FrameBound::UnboundedPreceding, end, peer_based, descending),
            end,
            keys,
            k,
            false,
            shifted,
        ),
{
}

proof fn lemma_numbers(keys: KeyRows, xs: Seq<i64>, i: int)
    requires
        keyed_by(keys, xs) || timed_by(keys, xs),
        0 <= i < keys.len(),
    ensures
        window::leading_number(keys[i]) == Some(xs[i]),
{
    assert(keys[i].len() > 0);
}

/// Where a start bound at `b` stands in a sorted partition.
proof fn lemma_first(keys: KeyRows, xs: Seq<i64>, b: i64, ascending: bool, j: nat, p: int)
    requires
        keyed_by(keys, xs) || timed_by(keys, xs),
        ascending ==> ascends(xs),
        !ascending ==> descends(xs),
        j <= p < keys.len(),
    ensures
        window::first_inside(keys, b, ascending, j) <= p <==> if ascending {
            xs[p] >= b
        } else {
            xs[p] <= b
        },
    decreases keys.len() - j,
{
    lemma_numbers(keys, xs, j as int);
    if window::inside(keys[j as int], b, true, ascending) {
        assert(xs[j as int] == window::leading_number(keys[j as int])->Some_0);
    } else if j == p {
        lemma_first_from(keys, b, ascending, j + 1);
    } else {
        lemma_first(keys, xs, b, ascending, j + 1, p);
    }
}

proof fn lemma_first_from(keys: KeyRows, b: i64, ascending: bool, j: nat)
    ensures
        j <= keys.len() ==> window::first_inside(keys, b, ascending, j) >= j,
    decreases keys.len() - j,
{
    if j < keys.len() {
        lemma_first_from(keys, b, ascending, j + 1);
    }
}

/// Where an end bound at `b` stands in a sorted partition.
proof fn lemma_last(keys: KeyRows, xs: Seq<i64>, b: i64, ascending: bool, j: nat, p: int)
    requires
        keyed_by(keys, xs) || timed_by(keys, xs),
        ascending ==> ascends(xs),
        !ascending ==> descends(xs),
        0 <= p < j <= keys.len(),
    ensures
        window::last_inside(keys, b, ascending, j) >= p <==> if ascending {
            xs[p] <= b
        } else {
            xs[p] >= b
        },
    decreases j,
{
    lemma_numbers(keys, xs, j - 1);
    if window::inside(keys[j - 1], b, false, ascending) {
    } else if j - 1 == p {
        lemma_last_below(keys, b, ascending, (j - 1) as nat);
    } else {
        lemma_last(keys, xs, b, ascending, (j - 1) as nat, p);
    }
}

proof fn lemma_last_below(keys: KeyRows, b: i64, ascending: bool, j: nat)
    ensures
        window::last_inside(keys, b, ascending, j) < j,
    decreases j,
{
    if j > 0 {
        lemma_last_below(keys, b, ascending, (j - 1) as nat);
    }
}

/// A `RANGE` frame from `n PRECEDING` on, in a sorted partition of integers, holds exactly the rows whose
/// key is not more than `n` before that of the row; one from `n FOLLOWING` on those whose key is at least
/// `n` after it. Before means below in ascending and above in descending order.
pub proof fn law_range_start_holds_the_keys_from_there<O: ValueOrder>(
    o: &O,
    peer_based: bool,
    descending: bool,
    ordered: bool,
    keys: KeyRows,
    xs: Seq<i64>,
    k: int,
    n: i64,
    shifts: Shifts,
    p: int,
)
    requires
        keyed_by(keys, xs),
        if descending {
            descends(xs)
        } else {
            ascends(xs)
        },
        0 <= k < keys.len(),
        0 <= p < keys.len(),
        n >= 0,
    ensures
        holds(
            o,
            Some(
                between(
                    FrameBound::RangePreceding(RangeOffset::Int(n)),
                    FrameBound::UnboundedFollowing,
                    peer_based,
                    descending,
                ),
            ),
            ordered,
            keys,
            k,
            shifts,
            p,
        ) <==> if descending {
            xs[p] <= xs[k] + n
        } else {
            xs[p] >= xs[k] - n
        },
        i64::MIN <= xs[k] - n && xs[k] + n <= i64::MAX ==> (holds(
            o,
            Some(
                between(
                    FrameBound::RangeFollowing(RangeOffset::Int(n)),
                    FrameBound::UnboundedFollowing,
                    peer_based,
                    descending,
                ),
            ),
            ordered,
            keys,
            k,
            shifts,
            p,
        ) <==> if descending {
            xs[p] <= xs[k] - n
        } else {
            xs[p] >= xs[k] + n
        }),
{
    lemma_numbers(keys, xs, k);
    let f = between(
        FrameBound::RangePreceding(RangeOffset::Int(n)),
        FrameBound::UnboundedFollowing,
        peer_based,
        descending,
    );
    let g = between(
        FrameBound::RangeFollowing(RangeOffset::Int(n)),
        FrameBound::UnboundedFollowing,
        peer_based,
        descending,
    );
    lemma_aggregated(o, Some(f), ordered, keys, k, shifts, keys.len(), p);
    lemma_aggregated(o, Some(g), ordered, keys, k, shifts, keys.len(), p);
    if i64::MIN <= xs[k] - n {
        lemma_first(keys, xs, (xs[k] - n) as i64, !descending, 0, p);
        lemma_first_from(keys, (xs[k] - n) as i64, !descending, 0);
    }
    if xs[k] + n <= i64::MAX {
        lemma_first(keys, xs, (xs[k] + n) as i64, !descending, 0, p);
        lemma_first_from(keys, (xs[k] + n) as i64, !descending, 0);
    }
}

/// A `RANGE` frame up to `n FOLLOWING`, in a sorted partition of integers, holds exactly the rows whose key
/// is not more than `n` after that of the row; one up to `n PRECEDING` those whose key is at least `n`
/// before it. Before means below in ascending and above in descending order.
pub proof fn law_range_end_holds_the_keys_up_to_there<O: ValueOrder>(
    o: &O,
    peer_based: bool,
    descending: bool,
    ordered: bool,
    keys: KeyRows,
    xs: Seq<i64>,
    k: int,
    n: i64,
    shifts: Shifts,
    p: int,
)
    requires
        keyed_by(keys, xs),
        if descending {
            descends(xs)
        } else {
            ascends(xs)
        },
        0 <= k < keys.len(),
        0 <= p < keys.len(),
        n >= 0,
    ensures
        holds(
            o,
            Some(
                between(
                    FrameBound::UnboundedPreceding,
                    FrameBound::RangeFollowing(RangeOffset::Int(n)),
                    peer_based,
                    descending,
                ),
            ),
            ordered,
            keys,
            k,
            shifts,
            p,
        ) <==> if descending {
            xs[p] >= xs[k] - n
        } else {
            xs[p] <= xs[k] + n
        },
        i64::MIN <= xs[k] - n && xs[k] + n <= i64::MAX ==> (holds(
            o,
            Some(
                between(
                    FrameBound::UnboundedPreceding,
                    FrameBound::RangePreceding(RangeOffset::Int(n)),
                    peer_based,
                    descending,
                ),
            ),
            ordered,
            keys,
            k,
            shifts,
            p,
        ) <==> if descending {
            xs[p] >= xs[k] + n
        } else {
            xs[p] <= xs[k] - n
        }),
{
    lemma_numbers(keys, xs, k);
    let f = between(
        FrameBound::UnboundedPreceding,
        FrameBound::RangeFollowing(RangeOffset::Int(n)),
        peer_based,
        descending,
    );
    let g = between(
        FrameBound::UnboundedPreceding,
        FrameBound::RangePreceding(RangeOffset::Int(n)),
        peer_based,
        descending,
    );
    lemma_aggregated(o, Some(f), ordered, keys, k, shifts, keys.len(), p);
    lemma_aggregated(o, Some(g), ordered, keys, k, shifts, keys.len(), p);
    if i64::MIN <= xs[k] - n {
        lemma_last(keys, xs, (xs[k] - n) as i64, !descending, keys.len(), p);
        lemma_last_below(keys, (xs[k] - n) as i64, !descending, keys.len());
    }
    if xs[k] + n <= i64::MAX {
        lemma_last(keys, xs, (xs[k] + n) as i64, !descending, keys.len(), p);
        lemma_last_below(keys, (xs[k] + n) as i64, !descending, keys.len());
    }
}

/// In a sorted partition of integers the frame `RANGE BETWEEN n PRECEDING AND m FOLLOWING` of a row with
/// key `x` holds exactly the rows whose key is from `x - n` to `x + m` in ascending order, and from
/// `x - m` to `x + n` in descending order.
pub proof fn law_range_frame_holds_the_keys_within<O: ValueOrder>(
    o: &O,
    peer_based: bool,
    descending: bool,
    ordered: bool,
    keys: KeyRows,
    xs: Seq<i64>,
    k: int,
    n: i64,
    m: i64,
    shifts: Shifts,
    p: int,
)
    requires
        keyed_by(keys, xs),
        if descending {
            descends(xs)
        } else {
            ascends(xs)
        },
        0 <= k < keys.len(),
        0 <= p < keys.len(),
        n >= 0,
        m >= 0,
    ensures
        holds(
            o,
            Some(
                between(
                    FrameBound::RangePreceding(RangeOffset::Int(n)),
                    FrameBound::RangeFollowing(RangeOffset::Int(m)),
                    peer_based,
                    descending,
                ),
            ),
            ordered,
            keys,
            k,
            shifts,
            p,
        ) <==> if descending {
            xs[k] - m <= xs[p] <= xs[k] + n
        } else {
            xs[k] - n <= xs[p] <= xs[k] + m
        },
{
    law_frames_lie_between_their_bounds(
        o,
        FrameBound::RangePreceding(RangeOffset::Int(n)),
        FrameBound::RangeFollowing(RangeOffset::Int(m)),
        peer_based,
        descending,
        ordered,
        keys,
        xs,
        k,
        shifts,
        p,
    );
    law_range_start_holds_the_keys_from_there(
        o,
        peer_based,
        descending,
        ordered,
        keys,
        xs,
        k,
        n,
        shifts,
        p,
    );
    law_range_end_holds_the_keys_up_to_there(
        o,
        peer_based,
        descending,
        ordered,
        keys,
        xs,
        k,
        m,
        shifts,
        p,
    );
}

/// The key at a `RANGE` bound is `n` away from the row's own: below it where the bound precedes in
/// ascending order or follows in descending order, and above it else. There is none where that is no key,
/// or where the offset moves no key; a calendar offset leads to where the calendar says.
pub proof fn law_boundary_is_the_offset_away(key: i64, n: i64, shifted: Option<i64>)
    ensures
        i64::MIN <= key - n <= i64::MAX ==> window::boundary(key, RangeOffset::Int(n), true, true, shifted)
            == Some((key - n) as i64) && window::boundary(key, RangeOffset::Int(n), false, false, shifted)
            == Some((key - n) as i64),
        i64::MIN <= key + n <= i64::MAX ==> window::boundary(key, RangeOffset::Int(n), false, true, shifted)
            == Some((key + n) as i64) && window::boundary(key, RangeOffset::Int(n), true, false, shifted)
            == Some((key + n) as i64),
        !(i64::MIN <= key - n <= i64::MAX) ==> window::boundary(
            key,
            RangeOffset::Int(n),
            true,
            true,
            shifted,
        ) is None && window::boundary(key, RangeOffset::Int(n), false, false, shifted) is None,
        !(i64::MIN <= key + n <= i64::MAX) ==> window::boundary(
            key,
            RangeOffset::Int(n),
            false,
            true,
            shifted,
        ) is None && window::boundary(key, RangeOffset::Int(n), true, false, shifted) is None,
{
}

/// In a sorted partition of times a `RANGE` frame between calendar offsets holds exactly the times
/// between where the calendar moves the row's own time to.
pub proof fn law_calendar_frame_holds_the_times_within<O: ValueOrder>(
    o: &O,
    before: crate::value::Interval,
    after: crate::value::Interval,
    peer_based: bool,
    descending: bool,
    ordered: bool,
    keys: KeyRows,
    xs: Seq<i64>,
    k: int,
    from: i64,
    to: i64,
    p: int,
)
    requires
        timed_by(keys, xs),
        if descending {
            descends(xs)
        } else {
            ascends(xs)
        },
        0 <= k < keys.len(),
        0 <= p < keys.len(),
    ensures
        holds(
            o,
            Some(
                between(
                    FrameBound::RangePreceding(RangeOffset::Interval(before)),
                    FrameBound::RangeFollowing(RangeOffset::Interval(after)),
                    peer_based,
                    descending,
                ),
            ),
            ordered,
            keys,
            k,
            Shifts { start: Some(from), end: Some(to) },
            p,
        ) <==> if descending {
            to <= xs[p] <= from
        } else {
            from <= xs[p] <= to
        },
{
    lemma_numbers(keys, xs, k);
    let f = between(
        FrameBound::RangePreceding(RangeOffset::Interval(before)),
        FrameBound::RangeFollowing(RangeOffset::Interval(after)),
        peer_based,
        descending,
    );
    lemma_aggregated(
        o,
        Some(f),
        ordered,
        keys,
        k,
        Shifts { start: Some(from), end: Some(to) },
        keys.len(),
        p,
    );
    lemma_first(keys, xs, from, !descending, 0, p);
    lemma_first_from(keys, from, !descending, 0);
    lemma_last(keys, xs, to, !descending, keys.len(), p);
    lemma_last_below(keys, to, !descending, keys.len());
}

/// A row is in its own frame where that starts at or before it and ends at or after it.
pub proof fn law_current_row_is_in_its_frame<O: ValueOrder>(
    o: &O,
    start: FrameBound,
    end: FrameBound,
    peer_based: bool,
    descending: bool,
    ordered: bool,
    keys: KeyRows,
    xs: Seq<i64>,
    k: int,
    n: i64,
    m: i64,
    shifts: Shifts,
)
    requires
        keyed_by(keys, xs),
        if descending {
            descends(xs)
        } else {
            ascends(xs)
        },
        0 <= k < keys.len(),
        n >= 0,
        m >= 0,
        start is UnboundedPreceding || start is CurrentRow || start == FrameBound::RangePreceding(
            RangeOffset::Int(n),
        ),
        end is UnboundedFollowing || end is CurrentRow || end == FrameBound::RangeFollowing(
            RangeOffset::Int(m),
        ),
    ensures
        holds(o, Some(between(start, end, peer_based, descending)), ordered, keys, k, shifts, k),
{
    lemma_numbers(keys, xs, k);
    lemma_aggregated(
        o,
        Some(between(start, end, peer_based, descending)),
        ordered,
        keys,
        k,
        shifts,
        keys.len(),
        k,
    );
    window::law_peers_are_a_run(o, keys, k);
    let f = between(start, end, peer_based, descending);
    assert(window::bound_place(o, f, start, keys, k, true, shifts.start) <= k) by {
        if start is RangePreceding {
            let b = if descending {
                xs[k] + n
            } else {
                xs[k] - n
            };
            if i64::MIN <= b <= i64::MAX {
                lemma_first(keys, xs, b as i64, !descending, 0, k);
            }
        }
    }
    assert(window::bound_place(o, f, end, keys, k, false, shifts.end) >= k) by {
        if end is RangeFollowing {
            let b = if descending {
                xs[k] - m
            } else {
                xs[k] + m
            };
            if i64::MIN <= b <= i64::MAX {
                lemma_last(keys, xs, b as i64, !descending, keys.len(), k);
            }
        }
    }
}

/// Two rows keyed by one integer each are peers exactly if the integers are equal.
proof fn lemma_integer_peers(keys: KeyRows, xs: Seq<i64>, i: int, j: int)
    requires
        keyed_by(keys, xs),
        0 <= i < keys.len(),
        0 <= j < keys.len(),
        keys[i].len() == 1,
        keys[j].len() == 1,
    ensures
        order::same_group(&ColumnOrder, keys[i], keys[j]) <==> xs[i] == xs[j],
{
    assert(keys[i].len() > 0 && keys[j].len() > 0);
    order::meaning::law_integers_stand_by_size(xs[i], xs[j]);
    assert(order::not_distinct(&ColumnOrder, keys[i][0], keys[j][0]) <==> xs[i] == xs[j]);
    if order::same_group(&ColumnOrder, keys[i], keys[j]) {
        assert(order::not_distinct(&ColumnOrder, keys[i][0], keys[j][0]));
    }
}

/// In a sorted partition of integers the frame `RANGE BETWEEN CURRENT ROW AND m FOLLOWING` of a row with
/// key `x` holds exactly the rows whose key is from `x` to `x + m`, and `RANGE BETWEEN n PRECEDING AND
/// CURRENT ROW` those whose key is from `x - n` to `x`; in descending order, below and above change
/// places.
pub proof fn law_range_frame_from_the_current_row(
    descending: bool,
    ordered: bool,
    keys: KeyRows,
    xs: Seq<i64>,
    k: int,
    n: i64,
    shifts: Shifts,
    p: int,
)
    requires
        keyed_by(keys, xs),
        forall|i: int| 0 <= i < keys.len() ==> (#[trigger] keys[i]).len() == 1,
        if descending {
            descends(xs)
        } else {
            ascends(xs)
        },
        0 <= k < keys.len(),
        0 <= p < keys.len(),
        n >= 0,
    ensures
        holds(
            &ColumnOrder,
            Some(
                between(
                    FrameBound::CurrentRow,
                    FrameBound::RangeFollowing(RangeOffset::Int(n)),
                    true,
                    descending,
                ),
            ),
            ordered,
            keys,
            k,
            shifts,
            p,
        ) <==> if descending {
            xs[k] - n <= xs[p] <= xs[k]
        } else {
            xs[k] <= xs[p] <= xs[k] + n
        },
        holds(
            &ColumnOrder,
            Some(
                between(
                    FrameBound::RangePreceding(RangeOffset::Int(n)),
                    FrameBound::CurrentRow,
                    true,
                    descending,
                ),
            ),
            ordered,
            keys,
            k,
            shifts,
            p,
        ) <==> if descending {
            xs[k] <= xs[p] <= xs[k] + n
        } else {
            xs[k] - n <= xs[p] <= xs[k]
        },
{
    let o = &ColumnOrder;
    lemma_numbers(keys, xs, k);
    law_frames_lie_between_their_bounds(
        o,
        FrameBound::CurrentRow,
        FrameBound::RangeFollowing(RangeOffset::Int(n)),
        true,
        descending,
        ordered,
        keys,
        xs,
        k,
        shifts,
        p,
    );
    law_frames_lie_between_their_bounds(
        o,
        FrameBound::RangePreceding(RangeOffset::Int(n)),
        FrameBound::CurrentRow,
        true,
        descending,
        ordered,
        keys,
        xs,
        k,
        shifts,
        p,
    );
    law_range_start_holds_the_keys_from_there(o, true, descending, ordered, keys, xs, k, n, shifts, p);
    law_range_end_holds_the_keys_up_to_there(o, true, descending, ordered, keys, xs, k, n, shifts, p);
    let f = between(FrameBound::CurrentRow, FrameBound::UnboundedFollowing, true, descending);
    let g = between(FrameBound::UnboundedPreceding, FrameBound::CurrentRow, true, descending);
    lemma_aggregated(o, Some(f), ordered, keys, k, shifts, keys.len(), p);
    lemma_aggregated(o, Some(g), ordered, keys, k, shifts, keys.len(), p);
    window::law_peers_are_a_run(o, keys, k);
    let lo = window::peer_lo(o, keys, k) as int;
    let hi = window::peer_hi(o, keys, k) as int;
    assert(order::same_group(o, keys[lo], keys[k]));
    assert(order::same_group(o, keys[hi], keys[k]));
    lemma_integer_peers(keys, xs, lo, k);
    lemma_integer_peers(keys, xs, hi, k);
    if lo > 0 {
        lemma_integer_peers(keys, xs, lo - 1, k);
    }
    if hi + 1 < keys.len() {
        lemma_integer_peers(keys, xs, hi + 1, k);
    }
}

// ---------------------------------------------------------------- ROWS and GROUPS

/// `ROWS` bounds count rows: from `n PRECEDING` on are the rows at most `n` before the row, from
/// `n FOLLOWING` on those at least `n` after it, from `CURRENT ROW` on the row and those after it; and up
/// to such a bound in the same way.
pub proof fn law_rows_bounds_count_rows<O: ValueOrder>(
    o: &O,
    descending: bool,
    ordered: bool,
    keys: KeyRows,
    k: int,
    n: u64,
    shifts: Shifts,
    p: int,
)
    requires
        keys.len() <= usize::MAX,
        0 <= k < keys.len(),
        0 <= p < keys.len(),
    ensures
        ({
            let from = |b: FrameBound|
                holds(
                    o,
                    Some(between(b, FrameBound::UnboundedFollowing, false, descending)),
                    ordered,
                    keys,
                    k,
                    shifts,
                    p,
                );
            let up_to = |b: FrameBound|
                holds(
                    o,
                    Some(between(FrameBound::UnboundedPreceding, b, false, descending)),
                    ordered,
                    keys,
                    k,
                    shifts,
                    p,
                );
            &&& from(FrameBound::Preceding(n)) <==> p >= k - n
            &&& from(FrameBound::Following(n)) <==> p >= k + n
            &&& from(FrameBound::CurrentRow) <==> p >= k
            &&& from(FrameBound::UnboundedPreceding)
            &&& up_to(FrameBound::Preceding(n)) <==> p <= k - n
            &&& up_to(FrameBound::Following(n)) <==> p <= k + n
            &&& up_to(FrameBound::CurrentRow) <==> p <= k
        }),
{
    let bounds = seq![
        FrameBound::Preceding(n),
        FrameBound::Following(n),
        FrameBound::CurrentRow,
        FrameBound::UnboundedPreceding,
    ];
    assert forall|i: int| 0 <= i < 4 implies (holds(
        o,
        Some(between(#[trigger] bounds[i], FrameBound::UnboundedFollowing, false, descending)),
        ordered,
        keys,
        k,
        shifts,
        p,
    ) <==> window::aggregates(
        o,
        Some(between(bounds[i], FrameBound::UnboundedFollowing, false, descending)),
        ordered,
        keys,
        k,
        shifts,
        p,
    )) && (holds(
        o,
        Some(between(FrameBound::UnboundedPreceding, bounds[i], false, descending)),
        ordered,
        keys,
        k,
        shifts,
        p,
    ) <==> window::aggregates(
        o,
        Some(between(FrameBound::UnboundedPreceding, bounds[i], false, descending)),
        ordered,
        keys,
        k,
        shifts,
        p,
    )) by {
        lemma_aggregated(
            o,
            Some(between(bounds[i], FrameBound::UnboundedFollowing, false, descending)),
            ordered,
            keys,
            k,
            shifts,
            keys.len(),
            p,
        );
        lemma_aggregated(
            o,
            Some(between(FrameBound::UnboundedPreceding, bounds[i], false, descending)),
            ordered,
            keys,
            k,
            shifts,
            keys.len(),
            p,
        );
    }
    assert(bounds[0] == FrameBound::Preceding(n));
    assert(bounds[1] == FrameBound::Following(n));
    assert(bounds[2] == FrameBound::CurrentRow);
    assert(bounds[3] == FrameBound::UnboundedPreceding);
}

/// The frame `ROWS BETWEEN n PRECEDING AND m FOLLOWING` holds exactly the rows from `n` before the row to
/// `m` after it.
pub proof fn law_rows_frame_holds_the_rows_within<O: ValueOrder>(
    o: &O,
    descending: bool,
    ordered: bool,
    keys: KeyRows,
    k: int,
    n: u64,
    m: u64,
    shifts: Shifts,
    p: int,
)
    requires
        keys.len() <= usize::MAX,
        0 <= k < keys.len(),
        0 <= p < keys.len(),
    ensures
        holds(
            o,
            Some(between(FrameBound::Preceding(n), FrameBound::Following(m), false, descending)),
            ordered,
            keys,
            k,
            shifts,
            p,
        ) <==> k - n <= p <= k + m,
{
    lemma_aggregated(
        o,
        Some(between(FrameBound::Preceding(n), FrameBound::Following(m), false, descending)),
        ordered,
        keys,
        k,
        shifts,
        keys.len(),
        p,
    );
}

/// The number of the peer group of row `p`, counted from the first.
pub open spec fn group_number<O: ValueOrder>(o: &O, keys: KeyRows, p: int) -> int {
    window::ranked(o, WindowFunc::DenseRank, keys, p)
}

/// Rows of one peer group have one number, the next group has the next, and the numbers start at one.
pub proof fn law_groups_are_numbered_in_order<O: ValueOrder>(o: &O, keys: KeyRows, k: int)
    requires
        0 <= k < keys.len(),
    ensures
        k == 0 ==> group_number(o, keys, k) == 1,
        k > 0 ==> group_number(o, keys, k) == group_number(o, keys, k - 1) + if order::same_group(
            o,
            keys[k - 1],
            keys[k],
        ) {
            0int
        } else {
            1
        },
{
}

proof fn lemma_numbers_rise<O: ValueOrder>(o: &O, keys: KeyRows, i: int, j: int)
    requires
        0 <= i <= j < keys.len(),
    ensures
        group_number(o, keys, i) <= group_number(o, keys, j),
    decreases j - i,
{
    if i < j {
        lemma_numbers_rise(o, keys, i, j - 1);
    }
}

/// The peer group of a row is the rows with its group's number.
pub(crate) proof fn lemma_group_run<O: ValueOrder>(o: &O, keys: KeyRows, k: int, p: int)
    requires
        0 <= k < keys.len(),
        0 <= p < keys.len(),
    ensures
        ({
            let lo = window::peer_lo(o, keys, k);
            let hi = window::peer_hi(o, keys, k);
            &&& p >= lo <==> group_number(o, keys, p) >= group_number(o, keys, k)
            &&& p <= hi <==> group_number(o, keys, p) <= group_number(o, keys, k)
            &&& hi + 1 < keys.len() ==> group_number(o, keys, hi as int + 1) == group_number(o, keys, k) + 1
            &&& lo > 0 ==> group_number(o, keys, lo - 1) == group_number(o, keys, k) - 1
        }),
{
    let lo = window::peer_lo(o, keys, k) as int;
    let hi = window::peer_hi(o, keys, k) as int;
    window::law_peers_are_a_run(o, keys, k);
    lemma_level(o, keys, k, lo, k);
    lemma_level(o, keys, k, k, hi);
    if lo > 0 {
        let a = keys[lo - 1];
        let b = keys[lo];
        if order::same_group(o, a, b) {
            assert(order::same_group(o, b, keys[k]));
            order::law_grouping_is_equivalence(o, a, b, keys[k]);
        }
        if p < lo {
            lemma_numbers_rise(o, keys, p, lo - 1);
        }
    }
    if hi + 1 < keys.len() {
        let a = keys[hi];
        let b = keys[hi + 1];
        if order::same_group(o, a, b) {
            assert(order::same_group(o, a, keys[k]));
            order::law_grouping_is_equivalence(o, a, b, b);
            order::law_grouping_is_equivalence(o, b, a, keys[k]);
        }
        if p > hi {
            lemma_numbers_rise(o, keys, hi + 1, p);
        }
    }
    if p >= lo && p <= hi {
        lemma_numbers_rise(o, keys, lo, p);
        lemma_numbers_rise(o, keys, p, hi);
    }
    if p > hi {
        lemma_numbers_rise(o, keys, k, p);
    }
    if p < lo {
        lemma_numbers_rise(o, keys, p, k);
    }
}

proof fn lemma_level<O: ValueOrder>(o: &O, keys: KeyRows, k: int, i: int, j: int)
    requires
        0 <= k < keys.len(),
        window::peer_lo(o, keys, k) <= i <= j <= window::peer_hi(o, keys, k),
    ensures
        group_number(o, keys, i) == group_number(o, keys, j),
    decreases j - i,
{
    window::law_peers_are_a_run(o, keys, k);
    if i < j {
        lemma_level(o, keys, k, i, j - 1);
        assert(order::same_group(o, keys[j - 1], keys[k]));
        assert(order::same_group(o, keys[j], keys[k]));
        order::law_grouping_is_equivalence(o, keys[j], keys[k], keys[k]);
        order::law_grouping_is_equivalence(o, keys[j - 1], keys[k], keys[j]);
    }
}

proof fn lemma_groups_away<O: ValueOrder>(o: &O, keys: KeyRows, k: int, n: nat, forward: bool, p: int)
    requires
        0 <= k < keys.len(),
        0 <= p < keys.len(),
    ensures
        ({
            let g = window::groups_away(
                o,
                keys,
                window::peer_lo(o, keys, k),
                window::peer_hi(o, keys, k),
                n,
                forward,
            );
            let x = group_number(o, keys, k);
            let y = group_number(o, keys, p);
            &&& 0 <= g.0 <= g.1 < keys.len()
            &&& forward ==> (p <= g.1 <==> y <= x + n)
            &&& !forward ==> (p >= g.0 <==> y >= x - n)
            &&& forward && group_number(o, keys, keys.len() - 1) >= x + n ==> (p >= g.0 <==> y >= x + n)
            &&& !forward && x - n >= 1 ==> (p <= g.1 <==> y <= x - n)
        }),
    decreases n,
{
    let lo = window::peer_lo(o, keys, k);
    let hi = window::peer_hi(o, keys, k);
    window::law_peers_are_a_run(o, keys, k);
    lemma_group_run(o, keys, k, p);
    lemma_group_run(o, keys, k, keys.len() - 1);
    lemma_group_run(o, keys, k, 0);
    lemma_numbers_rise(o, keys, p, keys.len() - 1);
    lemma_numbers_rise(o, keys, 0, p);
    if n == 0 || (forward && hi + 1 >= keys.len()) || (!forward && lo == 0) {
    } else {
        let next = if forward {
            hi as int + 1
        } else {
            lo - 1
        };
        lemma_groups_away(o, keys, next, (n - 1) as nat, forward, p);
    }
}

/// `GROUPS` bounds count peer groups: from `n PRECEDING` on are the rows of at most `n` groups before that
/// of the row, up to `n FOLLOWING` those of at most `n` groups after it, and from or up to `CURRENT ROW`
/// its peers are in. From `n FOLLOWING` on, and up to `n PRECEDING`, are the rows at least so many groups
/// away, where there are as many groups.
pub proof fn law_groups_bounds_count_groups<O: ValueOrder>(
    o: &O,
    descending: bool,
    ordered: bool,
    keys: KeyRows,
    k: int,
    n: u64,
    shifts: Shifts,
    p: int,
)
    requires
        keys.len() <= usize::MAX,
        0 <= k < keys.len(),
        0 <= p < keys.len(),
    ensures
        ({
            let x = group_number(o, keys, k);
            let y = group_number(o, keys, p);
            let last = group_number(o, keys, keys.len() - 1);
            let from = |b: FrameBound|
                holds(
                    o,
                    Some(between(b, FrameBound::UnboundedFollowing, true, descending)),
                    ordered,
                    keys,
                    k,
                    shifts,
                    p,
                );
            let up_to = |b: FrameBound|
                holds(
                    o,
                    Some(between(FrameBound::UnboundedPreceding, b, true, descending)),
                    ordered,
                    keys,
                    k,
                    shifts,
                    p,
                );
            &&& from(FrameBound::Preceding(n)) <==> y >= x - n
            &&& from(FrameBound::CurrentRow) <==> y >= x
            &&& last >= x + n ==> (from(FrameBound::Following(n)) <==> y >= x + n)
            &&& up_to(FrameBound::Following(n)) <==> y <= x + n
            &&& up_to(FrameBound::CurrentRow) <==> y <= x
            &&& x - n >= 1 ==> (up_to(FrameBound::Preceding(n)) <==> y <= x - n)
        }),
{
    let bounds = seq![FrameBound::Preceding(n), FrameBound::Following(n), FrameBound::CurrentRow];
    assert forall|i: int| 0 <= i < 3 implies (holds(
        o,
        Some(between(#[trigger] bounds[i], FrameBound::UnboundedFollowing, true, descending)),
        ordered,
        keys,
        k,
        shifts,
        p,
    ) <==> window::aggregates(
        o,
        Some(between(bounds[i], FrameBound::UnboundedFollowing, true, descending)),
        ordered,
        keys,
        k,
        shifts,
        p,
    )) && (holds(
        o,
        Some(between(FrameBound::UnboundedPreceding, bounds[i], true, descending)),
        ordered,
        keys,
        k,
        shifts,
        p,
    ) <==> window::aggregates(
        o,
        Some(between(FrameBound::UnboundedPreceding, bounds[i], true, descending)),
        ordered,
        keys,
        k,
        shifts,
        p,
    )) by {
        lemma_aggregated(
            o,
            Some(between(bounds[i], FrameBound::UnboundedFollowing, true, descending)),
            ordered,
            keys,
            k,
            shifts,
            keys.len(),
            p,
        );
        lemma_aggregated(
            o,
            Some(between(FrameBound::UnboundedPreceding, bounds[i], true, descending)),
            ordered,
            keys,
            k,
            shifts,
            keys.len(),
            p,
        );
    }
    assert(bounds[0] == FrameBound::Preceding(n));
    assert(bounds[1] == FrameBound::Following(n));
    assert(bounds[2] == FrameBound::CurrentRow);
    window::law_peers_are_a_run(o, keys, k);
    lemma_group_run(o, keys, k, p);
    lemma_groups_away(o, keys, k, n as nat, true, p);
    lemma_groups_away(o, keys, k, n as nat, false, p);
}

// ---------------------------------------------------------------- exclusion

/// What a frame excludes: nothing, the row itself, the row with its peers, or its peers but not the row.
pub proof fn law_exclusion_takes_rows_out<O: ValueOrder>(
    o: &O,
    frame: WindowFrame,
    ordered: bool,
    keys: KeyRows,
    k: int,
    shifts: Shifts,
    p: int,
)
    requires
        keys.len() <= usize::MAX,
        0 <= k < keys.len(),
        0 <= p < keys.len(),
    ensures
        ({
            let whole = holds(
                o,
                Some(WindowFrame { exclude: WindowExclude::NoOthers, ..frame }),
                ordered,
                keys,
                k,
                shifts,
                p,
            );
            let peer = group_number(o, keys, p) == group_number(o, keys, k);
            let rest = holds(o, Some(frame), ordered, keys, k, shifts, p);
            &&& frame.exclude is NoOthers ==> (rest <==> whole)
            &&& frame.exclude is CurrentRow ==> (rest <==> whole && p != k)
            &&& frame.exclude is Group ==> (rest <==> whole && !peer)
            &&& frame.exclude is Ties ==> (rest <==> whole && (p == k || !peer))
        }),
{
    let whole = WindowFrame { exclude: WindowExclude::NoOthers, ..frame };
    lemma_aggregated(o, Some(whole), ordered, keys, k, shifts, keys.len(), p);
    lemma_aggregated(o, Some(frame), ordered, keys, k, shifts, keys.len(), p);
    lemma_group_run(o, keys, k, p);
    lemma_same_range(o, frame, whole, keys, k, shifts);
}

pub(crate) proof fn lemma_same_range<O: ValueOrder>(
    o: &O,
    a: WindowFrame,
    b: WindowFrame,
    keys: KeyRows,
    k: int,
    shifts: Shifts,
)
    requires
        b == (WindowFrame { exclude: b.exclude, ..a }),
    ensures
        window::frame_range(o, a, keys, k, shifts) == window::frame_range(o, b, keys, k, shifts),
{
    assert(window::bound_place(o, a, a.start, keys, k, true, shifts.start) == window::bound_place(
        o,
        b,
        b.start,
        keys,
        k,
        true,
        shifts.start,
    ));
    assert(window::bound_place(o, a, a.end, keys, k, false, shifts.end) == window::bound_place(
        o,
        b,
        b.end,
        keys,
        k,
        false,
        shifts.end,
    ));
}

/// Without a frame and without an order a row aggregates the whole partition; without a frame but with an
/// order, the rows of its group and of those before it.
pub proof fn law_without_a_frame<O: ValueOrder>(o: &O, keys: KeyRows, k: int, shifts: Shifts, p: int)
    requires
        keys.len() <= usize::MAX,
        0 <= k < keys.len(),
        0 <= p < keys.len(),
    ensures
        holds(o, None, false, keys, k, shifts, p),
        holds(o, None, true, keys, k, shifts, p) <==> group_number(o, keys, p) <= group_number(o, keys, k),
{
    lemma_aggregated(o, None, false, keys, k, shifts, keys.len(), p);
    lemma_aggregated(o, None, true, keys, k, shifts, keys.len(), p);
    lemma_group_run(o, keys, k, p);
}

/// A row whose ordering value is no number, NULL among them, has as its `RANGE` frame its peers alone.
pub proof fn law_rows_without_a_number_frame_their_peers<O: ValueOrder>(
    o: &O,
    n: i64,
    m: i64,
    descending: bool,
    ordered: bool,
    keys: KeyRows,
    k: int,
    shifts: Shifts,
    p: int,
)
    requires
        keys.len() <= usize::MAX,
        0 <= k < keys.len(),
        0 <= p < keys.len(),
        keys[k].len() == 0 || keys[k][0] is Null || keys[k][0] is Text || keys[k][0] is Bool,
    ensures
        holds(
            o,
            Some(
                between(
                    FrameBound::RangePreceding(RangeOffset::Int(n)),
                    FrameBound::RangeFollowing(RangeOffset::Int(m)),
                    true,
                    descending,
                ),
            ),
            ordered,
            keys,
            k,
            shifts,
            p,
        ) <==> group_number(o, keys, p) == group_number(o, keys, k),
{
    lemma_aggregated(
        o,
        Some(
            between(
                FrameBound::RangePreceding(RangeOffset::Int(n)),
                FrameBound::RangeFollowing(RangeOffset::Int(m)),
                true,
                descending,
            ),
        ),
        ordered,
        keys,
        k,
        shifts,
        keys.len(),
        p,
    );
    lemma_group_run(o, keys, k, p);
}

} // verus!
