//! Window functions: partitions, peers, frames and the values they give each row.
use vstd::prelude::*;
use crate::error::Error;
use crate::order;
use crate::order::{SortKey, ValueOrder};
use crate::sort;
use crate::value::{Interval, Value, ValueView};

pub mod frames;
pub mod run;
pub mod values;

verus! {

/// The offset of a `RANGE` bound.
#[derive(Clone, Copy, Debug, PartialEq, Eq, Structural)]
pub enum RangeOffset {
    Int(i64),
    /// A calendar offset: how far it moves a key depends on the key.
    Interval(Interval),
    /// An offset that no ordering value can be moved by.
    Unsupported,
}

#[derive(Clone, Copy, Debug, PartialEq, Eq, Structural)]
pub enum FrameBound {
    UnboundedPreceding,
    Preceding(u64),
    CurrentRow,
    Following(u64),
    UnboundedFollowing,
    RangePreceding(RangeOffset),
    RangeFollowing(RangeOffset),
}

#[derive(Clone, Copy, Debug, PartialEq, Eq, Structural)]
pub enum WindowExclude {
    NoOthers,
    CurrentRow,
    Group,
    Ties,
}

/// A window frame. `peer_based` frames (`RANGE` and `GROUPS`) resolve the current row to its peers;
/// `range_descending` is the direction of the ordering column.
#[derive(Clone, Copy, Debug, PartialEq, Eq, Structural)]
pub struct WindowFrame {
    pub start: FrameBound,
    pub end: FrameBound,
    pub peer_based: bool,
    pub range_descending: bool,
    pub exclude: WindowExclude,
}

/// Where the calendar offsets of a frame's two bounds move the current row's key to; `None` where
/// the bound has no such offset or the key would leave the range of keys.
#[derive(Clone, Copy, Debug, PartialEq, Eq, Structural)]
pub struct Shifts {
    pub start: Option<i64>,
    pub end: Option<i64>,
}

// ---------------------------------------------------------------- peers

/// The first of the rows that run up to `s` without a break and are of the group of row `k`.
pub open spec fn peers_from<O: ValueOrder>(o: &O, keys: sort::KeyRows, k: int, s: nat) -> nat
    decreases s,
{
    if s > 0 && order::same_group(o, keys[s - 1], keys[k]) {
        peers_from(o, keys, k, (s - 1) as nat)
    } else {
        s
    }
}

/// The last of the rows that run on from `e` without a break and are of the group of row `k`.
pub open spec fn peers_to<O: ValueOrder>(o: &O, keys: sort::KeyRows, k: int, e: nat) -> nat
    decreases keys.len() - e,
{
    if e + 1 < keys.len() && order::same_group(o, keys[e as int + 1], keys[k]) {
        peers_to(o, keys, k, e + 1)
    } else {
        e
    }
}

/// The first peer of row `k`.
pub open spec fn peer_lo<O: ValueOrder>(o: &O, keys: sort::KeyRows, k: int) -> nat {
    peers_from(o, keys, k, k as nat)
}

/// The last peer of row `k`.
pub open spec fn peer_hi<O: ValueOrder>(o: &O, keys: sort::KeyRows, k: int) -> nat {
    peers_to(o, keys, k, k as nat)
}

proof fn lemma_peers_from<O: ValueOrder>(o: &O, keys: sort::KeyRows, k: int, s: nat)
    ensures
        ({
            let lo = peers_from(o, keys, k, s);
            &&& lo <= s
            &&& forall|i: int| lo <= i < s ==> order::same_group(o, #[trigger] keys[i], keys[k])
            &&& lo == 0 || !order::same_group(o, keys[lo - 1], keys[k])
        }),
    decreases s,
{
    if s > 0 && order::same_group(o, keys[s - 1], keys[k]) {
        lemma_peers_from(o, keys, k, (s - 1) as nat);
    }
}

proof fn lemma_peers_to<O: ValueOrder>(o: &O, keys: sort::KeyRows, k: int, e: nat)
    requires
        e < keys.len(),
    ensures
        ({
            let hi = peers_to(o, keys, k, e);
            &&& e <= hi < keys.len()
            &&& forall|i: int| e < i <= hi ==> order::same_group(o, #[trigger] keys[i], keys[k])
            &&& hi + 1 == keys.len() || !order::same_group(o, keys[hi as int + 1], keys[k])
        }),
    decreases keys.len() - e,
{
    if e + 1 < keys.len() && order::same_group(o, keys[e as int + 1], keys[k]) {
        lemma_peers_to(o, keys, k, e + 1);
    }
}

/// The peer group of a row is the longest run of rows around it with its keys.
pub proof fn law_peers_are_a_run<O: ValueOrder>(o: &O, keys: sort::KeyRows, k: int)
    requires
        0 <= k < keys.len(),
    ensures
        peer_lo(o, keys, k) <= k <= peer_hi(o, keys, k) < keys.len(),
        forall|i: int|
            peer_lo(o, keys, k) <= i <= peer_hi(o, keys, k) ==> order::same_group(
                o,
                #[trigger] keys[i],
                keys[k],
            ),
        peer_lo(o, keys, k) == 0 || !order::same_group(o, keys[peer_lo(o, keys, k) - 1], keys[k]),
        peer_hi(o, keys, k) + 1 == keys.len() || !order::same_group(
            o,
            keys[peer_hi(o, keys, k) as int + 1],
            keys[k],
        ),
{
    lemma_peers_from(o, keys, k, k as nat);
    lemma_peers_to(o, keys, k, k as nat);
    order::law_grouping_is_equivalence(o, keys[k], keys[k], keys[k]);
}

/// The places of the first and the last peer of row `k`.
pub fn peer_group<O: ValueOrder>(o: &O, keys: &Vec<Vec<Value>>, k: usize) -> (r: (usize, usize))
    requires
        k < keys@.len(),
    ensures
        r.0 == peer_lo(o, keys.deep_view(), k as int),
        r.1 == peer_hi(o, keys.deep_view(), k as int),
        r.0 <= k <= r.1 < keys@.len(),
{
    let ghost kv = keys.deep_view();
    let total: usize = keys.len();
    assert(kv[k as int] == keys@[k as int].deep_view());
    let mut start: usize = k;
    let mut going: bool = true;
    while going && start > 0
        invariant
            kv == keys.deep_view(),
            kv[k as int] == keys@[k as int].deep_view(),
            start <= k < keys@.len(),
            going ==> peers_from(o, kv, k as int, start as nat) == peer_lo(o, kv, k as int),
            !going ==> start == peer_lo(o, kv, k as int),
        decreases start + if going { 1int } else { 0int },
    {
        assert(kv[start - 1] == keys@[start - 1].deep_view());
        if order::group_keys_equal(o, &keys[start - 1], &keys[k]) {
            start -= 1;
        } else {
            going = false;
        }
    }
    let mut end: usize = k;
    going = true;
    while going && end + 1 < total
        invariant
            kv == keys.deep_view(),
            kv[k as int] == keys@[k as int].deep_view(),
            total == keys@.len(),
            k <= end < total,
            going ==> peers_to(o, kv, k as int, end as nat) == peer_hi(o, kv, k as int),
            !going ==> end == peer_hi(o, kv, k as int),
        decreases total - end + if going { 1int } else { 0int },
    {
        assert(kv[end + 1] == keys@[end + 1].deep_view());
        if order::group_keys_equal(o, &keys[end + 1], &keys[k]) {
            end += 1;
        } else {
            going = false;
        }
    }
    (start, end)
}

/// The peer group `n` groups after, or before, that of rows `lo..=hi`; the last, or the first, group
/// where there are fewer.
pub open spec fn groups_away<O: ValueOrder>(
    o: &O,
    keys: sort::KeyRows,
    lo: nat,
    hi: nat,
    n: nat,
    forward: bool,
) -> (nat, nat)
    decreases n,
{
    if n == 0 || (forward && hi + 1 >= keys.len()) || (!forward && lo == 0) {
        (lo, hi)
    } else {
        let next = if forward {
            hi as int + 1
        } else {
            lo - 1
        };
        groups_away(
            o,
            keys,
            peer_lo(o, keys, next),
            peer_hi(o, keys, next),
            (n - 1) as nat,
            forward,
        )
    }
}

/// The place that a `GROUPS` offset of `n` peer groups leads to: the first row of the group for a
/// start bound, the last for an end bound.
pub fn group_step<O: ValueOrder>(
    o: &O,
    keys: &Vec<Vec<Value>>,
    cur_lo: usize,
    cur_hi: usize,
    n: u64,
    forward: bool,
    at_start: bool,
) -> (r: usize)
    requires
        cur_lo <= cur_hi < keys@.len(),
    ensures
        r < keys@.len(),
        r == ({
            let g = groups_away(
                o,
                keys.deep_view(),
                cur_lo as nat,
                cur_hi as nat,
                n as nat,
                forward,
            );
            if at_start {
                g.0
            } else {
                g.1
            }
        }),
{
    let ghost kv = keys.deep_view();
    let total: usize = keys.len();
    let mut lo: usize = cur_lo;
    let mut hi: usize = cur_hi;
    let mut left: u64 = n;
    while left > 0 && ((forward && total - hi > 1) || (!forward && lo > 0))
        invariant
            kv == keys.deep_view(),
            total == keys@.len(),
            lo <= hi < total,
            groups_away(o, kv, lo as nat, hi as nat, left as nat, forward) == groups_away(
                o,
                kv,
                cur_lo as nat,
                cur_hi as nat,
                n as nat,
                forward,
            ),
        decreases left,
    {
        let next: usize = if forward {
            hi + 1
        } else {
            lo - 1
        };
        let g = peer_group(o, keys, next);
        lo = g.0;
        hi = g.1;
        left -= 1;
    }
    if at_start {
        lo
    } else {
        hi
    }
}

// ---------------------------------------------------------------- ranges

pub const MICROS_PER_DAY: i64 = 86_400_000_000;

/// The number that a `RANGE` frame compares an ordering value by: an integer itself, a date its
/// midnight and a timestamp itself in microseconds; none for NULL and other types.
pub open spec fn range_number(v: ValueView) -> Option<i64> {
    match v {
        ValueView::Int(i) => Some(i),
        ValueView::Date(d) => if i64::MIN <= d * MICROS_PER_DAY <= i64::MAX {
            Some((d * MICROS_PER_DAY) as i64)
        } else {
            None
        },
        ValueView::Timestamp(t) => Some(t),
        ValueView::TimestampTz(t) => Some(t),
        _ => None,
    }
}

/// The number that a `RANGE` frame compares an ordering value by.
pub fn range_key(v: &Value) -> (r: Option<i64>)
    ensures
        r == range_number(v@),
{
    match v {
        Value::Int(i) => Some(*i),
        Value::Date(d) => (*d as i64).checked_mul(MICROS_PER_DAY),
        Value::Timestamp(t) => Some(*t),
        Value::TimestampTz(t) => Some(*t),
        _ => None,
    }
}

/// Whether a bound lies below the current key: a preceding one in ascending order, and a following
/// one in descending order, where the rows that precede have larger keys.
pub open spec fn lies_below(preceding: bool, ascending: bool) -> bool {
    ascending == preceding
}

/// The key at a `RANGE` bound, `offset` away from `key`; `None` where it leaves the range of keys.
pub open spec fn boundary(
    key: i64,
    offset: RangeOffset,
    preceding: bool,
    ascending: bool,
    shifted: Option<i64>,
) -> Option<i64> {
    match offset {
        RangeOffset::Int(n) => {
            let at = if lies_below(preceding, ascending) {
                key - n
            } else {
                key + n
            };
            if i64::MIN <= at <= i64::MAX {
                Some(at as i64)
            } else {
                None
            }
        },
        RangeOffset::Interval(_) => shifted,
        RangeOffset::Unsupported => None,
    }
}

/// The key at a `RANGE` bound. `shifted` is where a calendar offset moves the key to.
pub fn range_boundary(
    key: i64,
    offset: RangeOffset,
    preceding: bool,
    ascending: bool,
    shifted: Option<i64>,
) -> (r: Option<i64>)
    ensures
        r == boundary(key, offset, preceding, ascending, shifted),
{
    match offset {
        RangeOffset::Int(n) => if ascending == preceding {
            key.checked_sub(n)
        } else {
            key.checked_add(n)
        },
        RangeOffset::Interval(_) => shifted,
        RangeOffset::Unsupported => None,
    }
}

/// The number of the first ordering value of a row.
pub open spec fn leading_number(key: Seq<ValueView>) -> Option<i64> {
    if key.len() == 0 {
        None
    } else {
        range_number(key[0])
    }
}

fn leading_key(key: &Vec<Value>) -> (r: Option<i64>)
    ensures
        r == leading_number(key.deep_view()),
{
    if key.len() == 0 {
        None
    } else {
        assert(key.deep_view()[0] == key@[0]@);
        range_key(&key[0])
    }
}

/// Whether a row with these ordering values is on the inner side of a bound at `b`.
pub open spec fn inside(key: Seq<ValueView>, b: i64, at_start: bool, ascending: bool) -> bool {
    match leading_number(key) {
        Some(n) => if at_start == ascending {
            n >= b
        } else {
            n <= b
        },
        None => false,
    }
}

/// The first row from `j` on that is inside a start bound at `b`; the number of rows where none is.
pub open spec fn first_inside(keys: sort::KeyRows, b: i64, ascending: bool, j: nat) -> int
    decreases keys.len() - j,
{
    if j >= keys.len() {
        keys.len() as int
    } else if inside(keys[j as int], b, true, ascending) {
        j as int
    } else {
        first_inside(keys, b, ascending, j + 1)
    }
}

/// The last row before `j` that is inside an end bound at `b`; -1 where none is.
pub open spec fn last_inside(keys: sort::KeyRows, b: i64, ascending: bool, j: nat) -> int
    decreases j,
{
    if j == 0 {
        -1
    } else if inside(keys[j - 1], b, false, ascending) {
        j - 1
    } else {
        last_inside(keys, b, ascending, (j - 1) as nat)
    }
}

/// The place of a `RANGE` bound at `b`.
pub open spec fn range_place(keys: sort::KeyRows, b: i64, at_start: bool, ascending: bool) -> int {
    if at_start {
        first_inside(keys, b, ascending, 0)
    } else {
        last_inside(keys, b, ascending, keys.len())
    }
}

fn is_inside(key: &Vec<Value>, b: i64, at_start: bool, ascending: bool) -> (r: bool)
    ensures
        r == inside(key.deep_view(), b, at_start, ascending),
{
    match leading_key(key) {
        Some(n) => if at_start == ascending {
            n >= b
        } else {
            n <= b
        },
        None => false,
    }
}

/// The place of a `RANGE` bound at `b`: the first row that has reached a start bound, the last that
/// is still within an end bound. Rows without a number are outside of every range.
pub fn range_scan(keys: &Vec<Vec<Value>>, b: i64, at_start: bool, ascending: bool) -> (r: i64)
    requires
        keys@.len() <= i64::MAX,
    ensures
        r == range_place(keys.deep_view(), b, at_start, ascending),
        -1 <= r <= keys@.len(),
{
    let ghost kv = keys.deep_view();
    let total: usize = keys.len();
    if at_start {
        let mut j: usize = 0;
        while j < total
            invariant
                kv == keys.deep_view(),
                total == keys@.len(),
                total <= i64::MAX,
                at_start,
                j <= total,
                first_inside(kv, b, ascending, 0) == first_inside(kv, b, ascending, j as nat),
            decreases total - j,
        {
            assert(kv[j as int] == keys@[j as int].deep_view());
            if is_inside(&keys[j], b, true, ascending) {
                return j as i64;
            }
            j += 1;
        }
        total as i64
    } else {
        let mut j: usize = total;
        while j > 0
            invariant
                kv == keys.deep_view(),
                total == keys@.len(),
                total <= i64::MAX,
                !at_start,
                j <= total,
                last_inside(kv, b, ascending, total as nat) == last_inside(
                    kv,
                    b,
                    ascending,
                    j as nat,
                ),
            decreases j,
        {
            assert(kv[j - 1] == keys@[j - 1].deep_view());
            if is_inside(&keys[j - 1], b, false, ascending) {
                return (j - 1) as i64;
            }
            j -= 1;
        }
        -1
    }
}

// ---------------------------------------------------------------- frames

/// Whether a bound is a `RANGE` bound with a value offset.
pub open spec fn is_range(b: FrameBound) -> bool {
    b is RangePreceding || b is RangeFollowing
}

/// A `ROWS` offset in a partition of `len` rows: one that leads past the partition leads just past its
/// edge.
pub open spec fn capped(n: u64, len: nat) -> int {
    if n <= len {
        n as int
    } else {
        len as int
    }
}

/// The place that a frame bound of row `k` names, which may lie outside of the partition.
pub open spec fn bound_place<O: ValueOrder>(
    o: &O,
    frame: WindowFrame,
    bound: FrameBound,
    keys: sort::KeyRows,
    k: int,
    at_start: bool,
    shifted: Option<i64>,
) -> int {
    let lo = peer_lo(o, keys, k);
    let hi = peer_hi(o, keys, k);
    let edge = if at_start {
        0
    } else {
        keys.len() - 1
    };
    let pick = |g: (nat, nat)|
        if at_start {
            g.0 as int
        } else {
            g.1 as int
        };
    match bound {
        FrameBound::UnboundedPreceding => 0,
        FrameBound::UnboundedFollowing => keys.len() - 1,
        FrameBound::CurrentRow => if frame.peer_based {
            pick((lo, hi))
        } else {
            k
        },
        FrameBound::Preceding(n) => if frame.peer_based {
            pick(groups_away(o, keys, lo, hi, n as nat, false))
        } else {
            k - capped(n, keys.len())
        },
        FrameBound::Following(n) => if frame.peer_based {
            pick(groups_away(o, keys, lo, hi, n as nat, true))
        } else {
            if k + n < keys.len() {
                k + n
            } else {
                keys.len() as int
            }
        },
        FrameBound::RangePreceding(offset) | FrameBound::RangeFollowing(offset) => {
            let ascending = !frame.range_descending;
            match leading_number(keys[k]) {
                None => edge,
                Some(key) => match boundary(
                    key,
                    offset,
                    bound is RangePreceding,
                    ascending,
                    shifted,
                ) {
                    None => edge,
                    Some(b) => range_place(keys, b, at_start, ascending),
                },
            }
        },
    }
}

/// The first and the last row of the frame of row `k`; `None` where the frame is empty.
///
/// A row without a number among its ordering values frames its peers alone where the frame has a
/// `RANGE` offset.
pub open spec fn frame_range<O: ValueOrder>(
    o: &O,
    frame: WindowFrame,
    keys: sort::KeyRows,
    k: int,
    shifts: Shifts,
) -> Option<(int, int)> {
    if (is_range(frame.start) || is_range(frame.end)) && leading_number(keys[k]) is None {
        if frame.peer_based {
            Some((peer_lo(o, keys, k) as int, peer_hi(o, keys, k) as int))
        } else {
            Some((k, k))
        }
    } else {
        let start = bound_place(o, frame, frame.start, keys, k, true, shifts.start);
        let end = bound_place(o, frame, frame.end, keys, k, false, shifts.end);
        let lo = if start < 0 {
            0
        } else {
            start
        };
        let hi = if end > keys.len() - 1 {
            keys.len() - 1
        } else {
            end
        };
        if lo > hi {
            None
        } else {
            Some((lo, hi))
        }
    }
}

fn bound_at<O: ValueOrder>(
    o: &O,
    frame: &WindowFrame,
    bound: &FrameBound,
    keys: &Vec<Vec<Value>>,
    k: usize,
    at_start: bool,
    shifted: Option<i64>,
    peers: (usize, usize),
    key: Option<i64>,
) -> (r: i64)
    requires
        k < keys@.len(),
        keys@.len() <= i64::MAX,
        frame.peer_based ==> peers.0 == peer_lo(o, keys.deep_view(), k as int) && peers.1 == peer_hi(
            o,
            keys.deep_view(),
            k as int,
        ),
        frame.peer_based ==> peers.0 <= peers.1 < keys@.len(),
        key == leading_number(keys.deep_view()[k as int]),
    ensures
        r == bound_place(o, *frame, *bound, keys.deep_view(), k as int, at_start, shifted),
{
    let len: i64 = keys.len() as i64;
    let edge: i64 = if at_start {
        0
    } else {
        len - 1
    };
    match bound {
        FrameBound::UnboundedPreceding => 0,
        FrameBound::UnboundedFollowing => len - 1,
        FrameBound::CurrentRow => if frame.peer_based {
            if at_start {
                peers.0 as i64
            } else {
                peers.1 as i64
            }
        } else {
            k as i64
        },
        FrameBound::Preceding(n) => if frame.peer_based {
            group_step(o, keys, peers.0, peers.1, *n, false, at_start) as i64
        } else {
            let off: i64 = if *n <= len as u64 {
                *n as i64
            } else {
                len
            };
            k as i64 - off
        },
        FrameBound::Following(n) => if frame.peer_based {
            group_step(o, keys, peers.0, peers.1, *n, true, at_start) as i64
        } else {
            if *n < (len - k as i64) as u64 {
                k as i64 + *n as i64
            } else {
                len
            }
        },
        FrameBound::RangePreceding(offset) => {
            let ascending: bool = !frame.range_descending;
            match key {
                None => edge,
                Some(cur) => match range_boundary(cur, *offset, true, ascending, shifted) {
                    None => edge,
                    Some(b) => range_scan(keys, b, at_start, ascending),
                },
            }
        },
        FrameBound::RangeFollowing(offset) => {
            let ascending: bool = !frame.range_descending;
            match key {
                None => edge,
                Some(cur) => match range_boundary(cur, *offset, false, ascending, shifted) {
                    None => edge,
                    Some(b) => range_scan(keys, b, at_start, ascending),
                },
            }
        },
    }
}

fn is_range_bound(b: &FrameBound) -> (r: bool)
    ensures
        r == is_range(*b),
{
    match b {
        FrameBound::RangePreceding(_) | FrameBound::RangeFollowing(_) => true,
        _ => false,
    }
}

/// The first and the last row of the frame of row `k`; `None` where the frame is empty.
pub fn frame_bounds<O: ValueOrder>(
    o: &O,
    frame: &WindowFrame,
    k: usize,
    keys: &Vec<Vec<Value>>,
    shifts: Shifts,
) -> (r: Option<(usize, usize)>)
    requires
        k < keys@.len(),
        keys@.len() <= i64::MAX,
    ensures
        match frame_range(o, *frame, keys.deep_view(), k as int, shifts) {
            Some(w) => r == Some((w.0 as usize, w.1 as usize)) && 0 <= w.0 <= w.1 < keys@.len(),
            None => r is None,
        },
{
    let ghost kv = keys.deep_view();
    proof {
        law_peers_are_a_run(o, kv, k as int);
    }
    let peers: (usize, usize) = if frame.peer_based {
        peer_group(o, keys, k)
    } else {
        (k, k)
    };
    assert(kv[k as int] == keys@[k as int].deep_view());
    let key: Option<i64> = leading_key(&keys[k]);
    if is_range_bound(&frame.start) || is_range_bound(&frame.end) {
        if key.is_none() {
            return Some(peers);
        }
    }
    let len: i64 = keys.len() as i64;
    let start: i64 = bound_at(o, frame, &frame.start, keys, k, true, shifts.start, peers, key);
    let end: i64 = bound_at(o, frame, &frame.end, keys, k, false, shifts.end, peers, key);
    let lo: i64 = if start < 0 {
        0
    } else {
        start
    };
    let hi: i64 = if end > len - 1 {
        len - 1
    } else {
        end
    };
    if lo > hi {
        None
    } else {
        Some((lo as usize, hi as usize))
    }
}

/// Whether place `p` is taken out of the frame of row `k`, whose peers are `lo..=hi`.
pub open spec fn excluded(exclude: WindowExclude, p: int, k: int, lo: int, hi: int) -> bool {
    match exclude {
        WindowExclude::NoOthers => false,
        WindowExclude::CurrentRow => p == k,
        WindowExclude::Group => lo <= p <= hi,
        WindowExclude::Ties => lo <= p <= hi && p != k,
    }
}

/// Whether place `p` is taken out of the frame of row `k`, whose peers are `lo..=hi`.
pub fn frame_excludes(exclude: WindowExclude, p: usize, k: usize, lo: usize, hi: usize) -> (r: bool)
    ensures
        r == excluded(exclude, p as int, k as int, lo as int, hi as int),
{
    match exclude {
        WindowExclude::NoOthers => false,
        WindowExclude::CurrentRow => p == k,
        WindowExclude::Group => lo <= p && p <= hi,
        WindowExclude::Ties => lo <= p && p <= hi && p != k,
    }
}

/// Whether row `k` aggregates the row at `p`: where there is a frame, the rows of it that it does
/// not exclude; else, where the partition is ordered, all rows up to the last peer; else all rows.
pub open spec fn aggregates<O: ValueOrder>(
    o: &O,
    frame: Option<WindowFrame>,
    ordered: bool,
    keys: sort::KeyRows,
    k: int,
    shifts: Shifts,
    p: int,
) -> bool {
    match frame {
        Some(f) => match frame_range(o, f, keys, k, shifts) {
            Some(w) => w.0 <= p <= w.1 && !excluded(
                f.exclude,
                p,
                k,
                peer_lo(o, keys, k) as int,
                peer_hi(o, keys, k) as int,
            ),
            None => false,
        },
        None => if ordered {
            0 <= p <= peer_hi(o, keys, k)
        } else {
            0 <= p < keys.len()
        },
    }
}

/// The places below `n` that row `k` aggregates, in order.
pub open spec fn aggregated<O: ValueOrder>(
    o: &O,
    frame: Option<WindowFrame>,
    ordered: bool,
    keys: sort::KeyRows,
    k: int,
    shifts: Shifts,
    n: nat,
) -> Seq<usize>
    decreases n,
{
    if n == 0 {
        Seq::empty()
    } else {
        let head = aggregated(o, frame, ordered, keys, k, shifts, (n - 1) as nat);
        if aggregates(o, frame, ordered, keys, k, shifts, n - 1) {
            head.push((n - 1) as usize)
        } else {
            head
        }
    }
}

/// The places of the rows that row `k` aggregates, in order.
pub fn frame_places<O: ValueOrder>(
    o: &O,
    frame: &Option<WindowFrame>,
    ordered: bool,
    keys: &Vec<Vec<Value>>,
    k: usize,
    shifts: Shifts,
) -> (r: Vec<usize>)
    requires
        k < keys@.len(),
        keys@.len() <= i64::MAX,
    ensures
        r@ == aggregated(o, *frame, ordered, keys.deep_view(), k as int, shifts, keys@.len()),
{
    let ghost kv = keys.deep_view();
    let total: usize = keys.len();
    let peers = peer_group(o, keys, k);
    let window: Option<(usize, usize)> = match frame {
        Some(f) => frame_bounds(o, f, k, keys, shifts),
        None => if ordered {
            Some((0, peers.1))
        } else {
            Some((0, total - 1))
        },
    };
    let exclude: WindowExclude = match frame {
        Some(f) => f.exclude,
        None => WindowExclude::NoOthers,
    };
    let mut out: Vec<usize> = Vec::new();
    let mut p: usize = 0;
    while p < total
        invariant
            p <= total,
            total == kv.len(),
            forall|q: int|
                0 <= q < total ==> #[trigger] aggregates(o, *frame, ordered, kv, k as int, shifts, q)
                    == (match window {
                    Some(w) => w.0 <= q <= w.1 && !excluded(
                        exclude,
                        q,
                        k as int,
                        peers.0 as int,
                        peers.1 as int,
                    ),
                    None => false,
                }),
            out@ == aggregated(o, *frame, ordered, kv, k as int, shifts, p as nat),
        decreases total - p,
    {
        assert(aggregates(o, *frame, ordered, kv, k as int, shifts, p as int) == aggregates(
            o,
            *frame,
            ordered,
            kv,
            k as int,
            shifts,
            p as int,
        ));
        if let Some(w) = window {
            if w.0 <= p && p <= w.1 && !frame_excludes(exclude, p, k, peers.0, peers.1) {
                out.push(p);
            }
        }
        p += 1;
    }
    out
}

/// Row keys tie exactly when they are of one group.
pub proof fn lemma_tie_is_group<O: ValueOrder>(
    o: &O,
    a: Seq<ValueView>,
    b: Seq<ValueView>,
    ks: Seq<SortKey>,
    i: nat,
)
    requires
        a.len() == b.len(),
        i <= a.len(),
    ensures
        order::keys_order(o, a, b, ks, i) is Equal <==> forall|k: int|
            i <= k < a.len() ==> order::not_distinct(o, #[trigger] a[k], b[k]),
    decreases a.len() - i,
{
    if i < a.len() {
        lemma_tie_is_group(o, a, b, ks, i + 1);
        let k = order::key_at(ks, i);
        o.preorder(a[i as int], b[i as int], a[i as int]);
        if order::key_order(o, a[i as int], b[i as int], k) is Equal {
            assert(order::not_distinct(o, a[i as int], b[i as int]));
        } else {
            assert(!order::not_distinct(o, a[i as int], b[i as int]));
        }
    }
}

/// In a sorted partition the default frame of a row holds exactly the rows that do not come after it
/// by their keys.
pub proof fn law_default_frame_runs_through_peers<O: ValueOrder>(
    o: &O,
    keys: sort::KeyRows,
    ks: Seq<SortKey>,
    k: int,
    p: int,
    shifts: Shifts,
)
    requires
        0 <= k < keys.len(),
        0 <= p < keys.len(),
        sort::keyed(keys, ks.len()),
        forall|i: int, j: int|
            0 <= i <= j < keys.len() ==> !(order::keys_order(
                o,
                #[trigger] keys[i],
                #[trigger] keys[j],
                ks,
                0,
            ) is Greater),
    ensures
        aggregates(o, None, true, keys, k, shifts, p) <==> !(order::keys_order(
            o,
            keys[p],
            keys[k],
            ks,
            0,
        ) is Greater),
{
    law_peers_are_a_run(o, keys, k);
    let hi = peer_hi(o, keys, k);
    if p <= k {
        assert(!(order::keys_order(o, keys[p], keys[k], ks, 0) is Greater));
    } else if p <= hi {
        assert(order::same_group(o, keys[p], keys[k]));
        lemma_tie_is_group(o, keys[p], keys[k], ks, 0);
    } else {
        let n = hi as int + 1;
        lemma_tie_is_group(o, keys[n], keys[k], ks, 0);
        order::lemma_keys_flip(o, keys[k], keys[n], ks, 0);
        order::lemma_keys_flip(o, keys[k], keys[p], ks, 0);
        assert(!(order::keys_order(o, keys[k], keys[n], ks, 0) is Greater));
        assert(!(order::keys_order(o, keys[n], keys[p], ks, 0) is Greater));
        order::lemma_keys_trans(o, keys[k], keys[n], keys[p], ks, 0);
    }
}

// ---------------------------------------------------------------- values

#[derive(Clone, Copy, Debug, PartialEq, Eq, Structural)]
pub enum WindowFunc {
    RowNumber,
    Rank,
    DenseRank,
    Aggregate,
    Lag,
    Lead,
    FirstValue,
    LastValue,
    NthValue,
    Ntile,
    CumeDist,
    PercentRank,
}

/// The number of peer groups up to that of row `k`.
pub open spec fn groups_up_to<O: ValueOrder>(o: &O, keys: sort::KeyRows, k: nat) -> nat
    decreases k,
{
    if k == 0 {
        1
    } else {
        groups_up_to(o, keys, (k - 1) as nat) + if order::same_group(o, keys[k - 1], keys[k as int]) {
            0nat
        } else {
            1nat
        }
    }
}

/// The rank of row `k`: its number, the number of the first of its peers, or the number of its peer
/// group.
pub open spec fn ranked<O: ValueOrder>(o: &O, func: WindowFunc, keys: sort::KeyRows, k: int) -> int {
    match func {
        WindowFunc::RowNumber => k + 1,
        WindowFunc::Rank => peer_lo(o, keys, k) as int + 1,
        _ => groups_up_to(o, keys, k as nat) as int,
    }
}

proof fn lemma_peers_alike<O: ValueOrder>(o: &O, keys: sort::KeyRows, a: int, b: int, s: nat)
    requires
        order::same_group(o, keys[a], keys[b]),
    ensures
        peers_from(o, keys, a, s) == peers_from(o, keys, b, s),
    decreases s,
{
    if s > 0 {
        let x = keys[s - 1];
        order::law_grouping_is_equivalence(o, x, keys[a], keys[b]);
        order::law_grouping_is_equivalence(o, keys[a], keys[b], x);
        order::law_grouping_is_equivalence(o, x, keys[b], keys[a]);
        lemma_peers_alike(o, keys, a, b, (s - 1) as nat);
    }
}

proof fn lemma_groups_bound<O: ValueOrder>(o: &O, keys: sort::KeyRows, k: nat)
    ensures
        1 <= groups_up_to(o, keys, k) <= k + 1,
    decreases k,
{
    if k > 0 {
        lemma_groups_bound(o, keys, (k - 1) as nat);
    }
}

/// The ranks of the rows of an ordered partition.
pub fn assign_ranking<O: ValueOrder>(o: &O, keys: &Vec<Vec<Value>>, func: WindowFunc) -> (r: Vec<Value>)
    requires
        keys@.len() <= i64::MAX,
    ensures
        r@.len() == keys@.len(),
        forall|k: int|
            0 <= k < r@.len() ==> (#[trigger] r@[k])@ == ValueView::Int(
                ranked(o, func, keys.deep_view(), k) as i64,
            ) && 1 <= ranked(o, func, keys.deep_view(), k) <= k + 1,
{
    let ghost kv = keys.deep_view();
    let total: usize = keys.len();
    let mut out: Vec<Value> = Vec::new();
    let mut rank: usize = 0;
    let mut dense: usize = 0;
    let mut k: usize = 0;
    while k < total
        invariant
            kv == keys.deep_view(),
            total == keys@.len(),
            total <= i64::MAX,
            k <= total,
            k > 0 ==> rank == peer_lo(o, kv, k - 1) + 1 && dense == groups_up_to(
                o,
                kv,
                (k - 1) as nat,
            ),
            k == 0 ==> dense == 0,
            out@.len() == k,
            forall|j: int|
                0 <= j < k ==> (#[trigger] out@[j])@ == ValueView::Int(
                    ranked(o, func, kv, j) as i64,
                ) && 1 <= ranked(o, func, kv, j) <= j + 1,
        decreases total - k,
    {
        proof {
            lemma_peers_from(o, kv, k as int, k as nat);
            lemma_groups_bound(o, kv, k as nat);
            if k > 0 {
                lemma_groups_bound(o, kv, (k - 1) as nat);
                if order::same_group(o, kv[k - 1], kv[k as int]) {
                    lemma_peers_alike(o, kv, k - 1, k as int, (k - 1) as nat);
                }
            }
        }
        let fresh: bool = if k == 0 {
            true
        } else {
            assert(kv[k - 1] == keys@[k - 1].deep_view());
            assert(kv[k as int] == keys@[k as int].deep_view());
            !order::group_keys_equal(o, &keys[k - 1], &keys[k])
        };
        if fresh {
            dense += 1;
            rank = k + 1;
        }
        let value: usize = match func {
            WindowFunc::RowNumber => k + 1,
            WindowFunc::Rank => rank,
            _ => dense,
        };
        out.push(Value::Int(value as i64));
        k += 1;
    }
    out
}

/// Peers rank alike, and a row of a later group ranks higher.
pub proof fn law_peers_rank_alike<O: ValueOrder>(o: &O, keys: sort::KeyRows, k: int)
    requires
        0 <= k,
        k + 1 < keys.len(),
    ensures
        order::same_group(o, keys[k], keys[k + 1]) ==> ranked(o, WindowFunc::Rank, keys, k) == ranked(
            o,
            WindowFunc::Rank,
            keys,
            k + 1,
        ) && ranked(o, WindowFunc::DenseRank, keys, k) == ranked(
            o,
            WindowFunc::DenseRank,
            keys,
            k + 1,
        ),
        !order::same_group(o, keys[k], keys[k + 1]) ==> ranked(o, WindowFunc::Rank, keys, k + 1) == k + 2
            && ranked(o, WindowFunc::DenseRank, keys, k + 1) == ranked(
            o,
            WindowFunc::DenseRank,
            keys,
            k,
        ) + 1,
{
    if order::same_group(o, keys[k], keys[k + 1]) {
        lemma_peers_alike(o, keys, k, k + 1, k as nat);
    }
}

/// The window that `FIRST_VALUE`, `LAST_VALUE` and `NTH_VALUE` read.
pub open spec fn value_range<O: ValueOrder>(
    o: &O,
    frame: Option<WindowFrame>,
    ordered: bool,
    keys: sort::KeyRows,
    k: int,
    shifts: Shifts,
) -> Option<(int, int)> {
    match frame {
        Some(f) => frame_range(o, f, keys, k, shifts),
        None => if ordered {
            Some((0, peer_hi(o, keys, k) as int))
        } else {
            Some((0, keys.len() - 1))
        },
    }
}

/// The integer that an argument holds.
pub open spec fn int_at(args: Seq<ValueView>, i: int) -> Option<i64> {
    if 0 <= i < args.len() {
        match args[i] {
            ValueView::Int(n) => Some(n),
            _ => None,
        }
    } else {
        None
    }
}

/// How far `LAG` and `LEAD` look: by the second argument, by one row without it.
pub open spec fn look_ahead(func: WindowFunc, args: Seq<ValueView>) -> int {
    let offset = match int_at(args, 1) {
        Some(n) => n as int,
        None => 1,
    };
    if func is Lag {
        if offset == i64::MIN {
            0
        } else {
            -offset
        }
    } else {
        offset
    }
}

/// The row that a navigation function of row `k` reads.
pub open spec fn target(
    func: WindowFunc,
    range: Option<(int, int)>,
    args: Seq<ValueView>,
    k: int,
    len: int,
) -> Option<int> {
    match func {
        WindowFunc::FirstValue => match range {
            Some(w) => Some(w.0),
            None => None,
        },
        WindowFunc::LastValue => match range {
            Some(w) => Some(w.1),
            None => None,
        },
        WindowFunc::NthValue => match (int_at(args, 1), range) {
            (Some(n), Some(w)) => if n >= 1 && w.0 + n - 1 <= w.1 {
                Some(w.0 + n - 1)
            } else {
                None
            },
            _ => None,
        },
        WindowFunc::Lag | WindowFunc::Lead => {
            let t = k + look_ahead(func, args);
            if 0 <= t < len {
                Some(t)
            } else {
                None
            }
        },
        _ => None,
    }
}

/// What a navigation function gives row `k`: the first argument at the row it reads, or the third
/// argument, or NULL.
pub open spec fn navigated<O: ValueOrder>(
    o: &O,
    func: WindowFunc,
    frame: Option<WindowFrame>,
    ordered: bool,
    keys: sort::KeyRows,
    args: Seq<Seq<ValueView>>,
    k: int,
    shifts: Shifts,
) -> ValueView {
    let range = value_range(o, frame, ordered, keys, k, shifts);
    match target(func, range, args[k], k, keys.len() as int) {
        Some(t) => if args[t].len() > 0 {
            args[t][0]
        } else {
            ValueView::Null
        },
        None => if args[k].len() > 2 {
            args[k][2]
        } else {
            ValueView::Null
        },
    }
}

pub(crate) fn int_arg(args: &Vec<Value>, i: usize) -> (r: Option<i64>)
    ensures
        r == int_at(args.deep_view(), i as int),
{
    if i < args.len() {
        assert(args.deep_view()[i as int] == args@[i as int]@);
        match &args[i] {
            Value::Int(n) => Some(*n),
            _ => None,
        }
    } else {
        None
    }
}

fn find_target(
    func: WindowFunc,
    range: Option<(usize, usize)>,
    args: &Vec<Value>,
    k: usize,
    len: usize,
) -> (r: Option<usize>)
    requires
        k < len <= i64::MAX,
        range matches Some(w) ==> w.0 <= w.1 < len,
    ensures
        match target(
            func,
            match range {
                Some(w) => Some((w.0 as int, w.1 as int)),
                None => None,
            },
            args.deep_view(),
            k as int,
            len as int,
        ) {
            Some(t) => r == Some(t as usize) && 0 <= t < len,
            None => r is None,
        },
{
    match func {
        WindowFunc::FirstValue => match range {
            Some(w) => Some(w.0),
            None => None,
        },
        WindowFunc::LastValue => match range {
            Some(w) => Some(w.1),
            None => None,
        },
        WindowFunc::NthValue => match (int_arg(args, 1), range) {
            (Some(n), Some(w)) => {
                let room: i64 = w.1 as i64 - w.0 as i64;
                if n >= 1 && n - 1 <= room {
                    Some(w.0 + (n - 1) as usize)
                } else {
                    None
                }
            },
            _ => None,
        },
        WindowFunc::Lag | WindowFunc::Lead => {
            let offset: i64 = match int_arg(args, 1) {
                Some(n) => n,
                None => 1,
            };
            let delta: i64 = match func {
                WindowFunc::Lag => if offset == i64::MIN {
                    0
                } else {
                    -offset
                },
                _ => offset,
            };
            match (k as i64).checked_add(delta) {
                Some(t) => if 0 <= t && t < len as i64 {
                    Some(t as usize)
                } else {
                    None
                },
                None => None,
            }
        },
        _ => None,
    }
}

/// The values of a navigation function over an ordered partition, whose arguments at each row are
/// `args`.
pub fn assign_navigation<O: ValueOrder>(
    o: &O,
    func: WindowFunc,
    frame: &Option<WindowFrame>,
    ordered: bool,
    keys: &Vec<Vec<Value>>,
    args: &Vec<Vec<Value>>,
    shifts: &Vec<Shifts>,
) -> (r: Vec<Value>)
    requires
        args@.len() == keys@.len(),
        shifts@.len() == keys@.len(),
        keys@.len() <= i64::MAX,
    ensures
        r@.len() == keys@.len(),
        forall|k: int|
            0 <= k < r@.len() ==> (#[trigger] r@[k])@ == navigated(
                o,
                func,
                *frame,
                ordered,
                keys.deep_view(),
                args.deep_view(),
                k,
                shifts@[k],
            ),
{
    let ghost kv = keys.deep_view();
    let ghost av = args.deep_view();
    let total: usize = keys.len();
    let mut out: Vec<Value> = Vec::new();
    let mut k: usize = 0;
    while k < total
        invariant
            kv == keys.deep_view(),
            av == args.deep_view(),
            total == keys@.len(),
            total == args@.len(),
            total == shifts@.len(),
            total <= i64::MAX,
            total <= i64::MAX,
            k <= total,
            out@.len() == k,
            forall|j: int|
                0 <= j < k ==> (#[trigger] out@[j])@ == navigated(
                    o,
                    func,
                    *frame,
                    ordered,
                    kv,
                    av,
                    j,
                    shifts@[j],
                ),
        decreases total - k,
    {
        assert(av[k as int] == args@[k as int].deep_view());
        proof {
            law_peers_are_a_run(o, kv, k as int);
        }
        let range: Option<(usize, usize)> = match frame {
            Some(f) => frame_bounds(o, f, k, keys, shifts[k]),
            None => if ordered {
                Some((0, peer_group(o, keys, k).1))
            } else {
                Some((0, total - 1))
            },
        };
        let value: Value = match find_target(func, range, &args[k], k, total) {
            Some(t) => {
                assert(av[t as int] == args@[t as int].deep_view());
                if args[t].len() > 0 {
                    assert(av[t as int][0] == args@[t as int]@[0]@);
                    args[t][0].clone()
                } else {
                    Value::Null
                }
            },
            None => {
                if args[k].len() > 2 {
                    assert(av[k as int][2] == args@[k as int]@[2]@);
                    args[k][2].clone()
                } else {
                    Value::Null
                }
            },
        };
        out.push(value);
        k += 1;
    }
    out
}

// ---------------------------------------------------------------- distribution

/// The first row of the `b`-th of `n` buckets of `len` rows, where the first `len % n` buckets have
/// one row more than the others.
pub open spec fn bucket_start(len: nat, n: nat, b: nat) -> int {
    b * (len / n) + if b <= len % n {
        b as int
    } else {
        (len % n) as int
    }
}

/// The bucket of row `k`, from 0.
pub open spec fn bucket(len: nat, n: nat, k: nat) -> nat {
    let base = len / n;
    let rem = len % n;
    let big = rem * (base + 1);
    if base == 0 || k < big {
        k / (base + 1)
    } else {
        rem + (k - big) as nat / base
    }
}

/// `NTILE` cuts the partition into buckets one after the other, of which the first `len % n` have one
/// row more than the others.
pub proof fn law_ntile_buckets(len: nat, n: nat, k: nat)
    requires
        n > 0,
        k < len,
    ensures
        bucket(len, n, k) < n,
        bucket_start(len, n, bucket(len, n, k)) <= k < bucket_start(
            len,
            n,
            bucket(len, n, k) + 1,
        ),
        bucket_start(len, n, bucket(len, n, k) + 1) - bucket_start(len, n, bucket(len, n, k)) == len / n
            + if bucket(len, n, k) < len % n {
            1int
        } else {
            0int
        },
{
    let base = len / n;
    let rem = len % n;
    let big = rem * (base + 1);
    let b = bucket(len, n, k);
    assert((b + 1) * base == b * base + base) by (nonlinear_arith);
    vstd::arithmetic::div_mod::lemma_fundamental_div_mod(len as int, n as int);
    vstd::arithmetic::div_mod::lemma_mod_bound(len as int, n as int);
    if base == 0 || k < big {
        let m = base + 1;
        vstd::arithmetic::div_mod::lemma_fundamental_div_mod(k as int, m as int);
        vstd::arithmetic::div_mod::lemma_mod_bound(k as int, m as int);
        assert(k == m * b + k % m);
        assert(b < rem) by (nonlinear_arith)
            requires
                k == m * b + k % m,
                0 <= k % m,
                k < big || (base == 0 && k < len),
                big == rem * (base + 1),
                m == base + 1,
                len == n * base + rem,
        ;
        assert(b * base + b == m * b) by (nonlinear_arith)
            requires
                m == base + 1,
        ;
        assert((b + 1) * base + b + 1 == m * b + m) by (nonlinear_arith)
            requires
                m == base + 1,
        ;
    } else {
        let d = (k - big) as nat;
        let c = d / base;
        vstd::arithmetic::div_mod::lemma_fundamental_div_mod(d as int, base as int);
        vstd::arithmetic::div_mod::lemma_mod_bound(d as int, base as int);
        assert(d == base * c + d % base);
        assert(b == rem + c);
        assert(big == rem * base + rem) by (nonlinear_arith)
            requires
                big == rem * (base + 1),
        ;
        assert(b * base == rem * base + c * base) by (nonlinear_arith)
            requires
                b == rem + c,
        ;
        assert((b + 1) * base == rem * base + c * base + base) by (nonlinear_arith)
            requires
                b == rem + c,
        ;
        assert(c * base == base * c) by (nonlinear_arith);
        assert(b < n) by (nonlinear_arith)
            requires
                b == rem + c,
                base > 0,
                rem * base + c * base + d % base < n * base,
                0 <= d % base,
                n * base + rem == len,
                k == d + rem * base + rem,
                d == c * base + d % base,
                k < len,
        ;
    }
}

/// The bucket count that `NTILE` is asked for.
pub open spec fn bucket_count(args: Seq<Seq<ValueView>>) -> int {
    match int_at(args[0], 0) {
        Some(n) => n as int,
        None => 0,
    }
}

/// The bucket numbers of the rows of a partition, from 1. A count below one is refused.
pub fn assign_ntile(len: usize, count: i64) -> (r: Result<Vec<Value>, Error>)
    requires
        0 < len <= i64::MAX,
    ensures
        match r {
            Ok(v) => count >= 1 && v@.len() == len && forall|k: int|
                0 <= k < len ==> (#[trigger] v@[k])@ == ValueView::Int(
                    (bucket(len as nat, count as nat, k as nat) + 1) as i64,
                ),
            Err(e) => count < 1 && e is BucketCount,
        },
{
    if count < 1 {
        return Err(Error::BucketCount);
    }
    let rows: u64 = len as u64;
    let n: u64 = count as u64;
    let base: u64 = rows / n;
    let rem: u64 = rows % n;
    proof {
        vstd::arithmetic::div_mod::lemma_fundamental_div_mod(rows as int, n as int);
        vstd::arithmetic::div_mod::lemma_mod_bound(rows as int, n as int);
        assert(base <= rows && rem * (base + 1) <= rows) by (nonlinear_arith)
            requires
                rows == n * base + rem,
                0 <= rem < n,
                0 <= base,
        ;
    }
    let big: u64 = rem * (base + 1);
    let mut out: Vec<Value> = Vec::new();
    let mut k: u64 = 0;
    while k < rows
        invariant
            rows == len,
            rows <= i64::MAX,
            n == count,
            n > 0,
            base == rows as nat / n as nat,
            rem == rows as nat % n as nat,
            base <= rows,
            rem <= rows,
            big == rem * (base + 1),
            k <= rows,
            out@.len() == k,
            forall|j: int|
                0 <= j < k ==> (#[trigger] out@[j])@ == ValueView::Int(
                    (bucket(len as nat, count as nat, j as nat) + 1) as i64,
                ),
        decreases rows - k,
    {
        let b: u64 = if base == 0 || k < big {
            proof {
                vstd::arithmetic::div_mod::lemma_div_is_ordered_by_denominator(
                    k as int,
                    1,
                    base + 1,
                );
                vstd::arithmetic::div_mod::lemma_div_basics(k as int);
            }
            k / (base + 1)
        } else {
            assert((k - big) / base as int <= k - big) by (nonlinear_arith)
                requires
                    k >= big,
                    base > 0,
            ;
            assert(rem <= big) by (nonlinear_arith)
                requires
                    big == rem * (base + 1),
                    base >= 0,
                    rem >= 0,
            ;
            rem + (k - big) / base
        };
        proof {
            assert(b == bucket(rows as nat, n as nat, k as nat));
        }
        out.push(Value::Int(b as i64 + 1));
        k += 1;
    }
    Ok(out)
}

/// The share of the partition that a distribution function gives row `k`, as a numerator and a
/// denominator.
pub open spec fn share<O: ValueOrder>(o: &O, func: WindowFunc, keys: sort::KeyRows, k: int) -> (nat, nat) {
    if func is CumeDist {
        (peer_hi(o, keys, k) + 1, keys.len())
    } else if keys.len() > 1 {
        (peer_lo(o, keys, k), (keys.len() - 1) as nat)
    } else {
        (0, 1)
    }
}

/// The shares that `CUME_DIST` or `PERCENT_RANK` gives the rows of an ordered partition, each as a
/// numerator and a denominator.
pub fn assign_distribution<O: ValueOrder>(o: &O, keys: &Vec<Vec<Value>>, func: WindowFunc) -> (r: Vec<
    (usize, usize),
>)
    ensures
        r@.len() == keys@.len(),
        forall|k: int|
            0 <= k < r@.len() ==> share(o, func, keys.deep_view(), k) == (
                (#[trigger] r@[k]).0 as nat,
                r@[k].1 as nat,
            ) && r@[k].0 <= r@[k].1 && r@[k].1 > 0,
{
    let ghost kv = keys.deep_view();
    let total: usize = keys.len();
    let mut out: Vec<(usize, usize)> = Vec::new();
    let mut k: usize = 0;
    while k < total
        invariant
            kv == keys.deep_view(),
            total == keys@.len(),
            k <= total,
            out@.len() == k,
            forall|j: int|
                0 <= j < k ==> share(o, func, kv, j) == (
                    (#[trigger] out@[j]).0 as nat,
                    out@[j].1 as nat,
                ) && out@[j].0 <= out@[j].1 && out@[j].1 > 0,
        decreases total - k,
    {
        let peers = peer_group(o, keys, k);
        match func {
            WindowFunc::CumeDist => {
                out.push((peers.1 + 1, total));
            },
            _ => if total > 1 {
                out.push((peers.0, total - 1));
            } else {
                out.push((0, 1));
            },
        }
        k += 1;
    }
    out
}

} // verus!
