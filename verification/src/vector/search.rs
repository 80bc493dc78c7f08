//! Keeping a cached vector graph current, and finding the nearest rows with it.
use vstd::prelude::*;
use crate::operators;
use crate::order::{ColumnOrder, NullOrdering, SortKey};
use crate::setops;
use crate::setops::Rows;
use crate::sort;
use crate::value;
use crate::value::{Row, Value, ValueView};
use crate::vector;
use crate::vector::Tid;

verus! {

// ---------------------------------------------------------------- what is in the graph

/// Whether a row is in the graph: its column holds a vector of the right dimension.
pub open spec fn indexable(row: Seq<ValueView>, column: nat, dim: nat) -> bool {
    column < row.len() && (row[column as int] matches ValueView::Vector(v) && v.len() == dim)
}

/// The places of those of the first `n` rows that are in the graph, counted from `start`.
pub open spec fn graph_places(rows: Rows, column: nat, dim: nat, start: nat, n: nat) -> Seq<usize>
    decreases n,
{
    if n == 0 {
        Seq::empty()
    } else {
        let head = graph_places(rows, column, dim, start, (n - 1) as nat);
        if indexable(rows[n - 1], column, dim) {
            head.push((start + n - 1) as usize)
        } else {
            head
        }
    }
}

/// The places of the rows that go into the graph, counted from `start`: node by node, in the order in
/// which the rows are inserted. A row without a vector of the right dimension is left out.
pub fn index_rows(rows: &Vec<Row>, column: usize, dim: usize, start: usize) -> (r: Vec<usize>)
    requires
        start + rows@.len() <= usize::MAX,
    ensures
        r@ == graph_places(rows.deep_view(), column as nat, dim as nat, start as nat, rows@.len()),
{
    let ghost rv = rows.deep_view();
    let mut out: Vec<usize> = Vec::new();
    let mut i: usize = 0;
    while i < rows.len()
        invariant
            rv == rows.deep_view(),
            start + rows@.len() <= usize::MAX,
            i <= rows@.len(),
            out@ == graph_places(rv, column as nat, dim as nat, start as nat, i as nat),
        decreases rows@.len() - i,
    {
        assert(rv[i as int] == rows@[i as int].deep_view());
        if column < rows[i].len() {
            assert(rv[i as int][column as int] == rows@[i as int]@[column as int]@);
            if let Value::Vector(v) = &rows[i][column] {
                if v.len() == dim {
                    out.push(start + i);
                }
            }
        }
        i += 1;
    }
    out
}

// ---------------------------------------------------------------- rehydrating

/// The last place before `n` at which `t` stands.
pub open spec fn place_of(tids: Seq<Tid>, t: Tid, n: nat) -> Option<usize>
    decreases n,
{
    if n == 0 {
        None
    } else if tids[n - 1] == t {
        Some((n - 1) as usize)
    } else {
        place_of(tids, t, (n - 1) as nat)
    }
}

/// The place of a row address among those scanned.
pub fn find_tid(tids: &Vec<Tid>, t: Tid) -> (r: Option<usize>)
    ensures
        r == place_of(tids@, t, tids@.len()),
        r matches Some(i) ==> i < tids@.len() && tids@[i as int] == t,
        r is None ==> !tids@.contains(t),
{
    let mut n: usize = tids.len();
    while n > 0
        invariant
            n <= tids@.len(),
            place_of(tids@, t, tids@.len()) == place_of(tids@, t, n as nat),
            forall|k: int| n <= k < tids@.len() ==> #[trigger] tids@[k] != t,
        decreases n,
    {
        if tids[n - 1] == t {
            return Some(n - 1);
        }
        n -= 1;
    }
    None
}

/// Whether every one of the first `n` nodes is among the scanned rows.
pub open spec fn nodes_present(nodes: Seq<Tid>, tids: Seq<Tid>, n: nat) -> bool {
    forall|i: int| 0 <= i < n ==> place_of(tids, #[trigger] nodes[i], tids.len()) is Some
}

/// The row of each node of a stored graph; `None` where one is gone.
pub fn rehydrate(nodes: &Vec<Tid>, tids: &Vec<Tid>) -> (r: Option<Vec<usize>>)
    ensures
        match r {
            Some(places) => nodes_present(nodes@, tids@, nodes@.len()) && places@.len() == nodes@.len()
                && forall|i: int|
                0 <= i < nodes@.len() ==> Some(#[trigger] places@[i]) == place_of(
                    tids@,
                    nodes@[i],
                    tids@.len(),
                ),
            None => !nodes_present(nodes@, tids@, nodes@.len()),
        },
{
    let mut out: Vec<usize> = Vec::new();
    let mut i: usize = 0;
    while i < nodes.len()
        invariant
            i <= nodes@.len(),
            out@.len() == i,
            forall|k: int|
                0 <= k < i ==> Some(#[trigger] out@[k]) == place_of(tids@, nodes@[k], tids@.len()),
        decreases nodes@.len() - i,
    {
        match find_tid(tids, nodes[i]) {
            Some(p) => {
                out.push(p);
            },
            None => {
                assert(place_of(tids@, nodes@[i as int], tids@.len()) is None);
                return None;
            },
        }
        i += 1;
    }
    assert forall|k: int| 0 <= k < nodes@.len() implies place_of(
        tids@,
        #[trigger] nodes@[k],
        tids@.len(),
    ) is Some by {
        assert(Some(out@[k]) == place_of(tids@, nodes@[k], tids@.len()));
    }
    Some(out)
}

/// What a graph that was deserialized says of itself.
#[derive(Clone, Copy, Debug, PartialEq, Eq, Structural)]
pub struct GraphFacts {
    pub dim: usize,
    pub nodes: usize,
    /// The distance that it was built under.
    pub metric: u8,
}

/// Whether a stored graph can serve: it was built from the rows that are there now, and it is of the
/// dimension, the distance and the size that the index calls for.
pub open spec fn serves(
    signature: u64,
    current: u64,
    facts: GraphFacts,
    dim: usize,
    metric: u8,
    nodes: nat,
) -> bool {
    signature == current && facts.dim == dim && facts.metric == metric && facts.nodes == nodes
}

/// Whether a stored graph can serve.
pub fn can_serve(
    signature: u64,
    current: u64,
    facts: GraphFacts,
    dim: usize,
    metric: u8,
    nodes: &Vec<Tid>,
) -> (r: bool)
    ensures
        r == serves(signature, current, facts, dim, metric, nodes@.len()),
{
    signature == current && facts.dim == dim && facts.metric == metric && facts.nodes == nodes.len()
}

// ---------------------------------------------------------------- comparing rows

/// Whether a 64-bit float is not a number.
pub open spec fn is_nan64(bits: u64) -> bool {
    bits % 0x8000_0000_0000_0000 > 0x7FF0_0000_0000_0000
}

/// Whether a 32-bit float is not a number.
pub open spec fn is_nan32(bits: u32) -> bool {
    bits % 0x8000_0000 > 0x7F80_0000
}

/// Whether two 64-bit floats are equal: neither is not a number, and they are the same or both zero.
pub open spec fn same_float(a: u64, b: u64) -> bool {
    !is_nan64(a) && !is_nan64(b) && (a == b || (a % 0x8000_0000_0000_0000 == 0 && b
        % 0x8000_0000_0000_0000 == 0))
}

/// Whether two 32-bit floats are equal.
pub open spec fn same_component(a: u32, b: u32) -> bool {
    !is_nan32(a) && !is_nan32(b) && (a == b || (a % 0x8000_0000 == 0 && b % 0x8000_0000 == 0))
}

/// Whether two stored values are equal. Floats compare as numbers, so that one that is not a number
/// is not equal to itself.
pub open spec fn same_value(a: ValueView, b: ValueView) -> bool
    decreases a,
{
    match (a, b) {
        (ValueView::Float(x), ValueView::Float(y)) => same_float(x, y),
        (ValueView::Vector(x), ValueView::Vector(y)) => x.len() == y.len() && forall|i: int|
            0 <= i < x.len() ==> same_component(#[trigger] x[i], y[i]),
        (ValueView::Array(x), ValueView::Array(y)) => x.len() == y.len() && forall|i: int|
            0 <= i < x.len() ==> same_value(#[trigger] x[i], y[i]),
        (ValueView::Float(_), _) | (ValueView::Vector(_), _) | (ValueView::Array(_), _) => false,
        _ => a == b,
    }
}

/// Whether two stored rows are equal.
pub open spec fn same_row(a: Seq<ValueView>, b: Seq<ValueView>) -> bool {
    a.len() == b.len() && forall|i: int| 0 <= i < a.len() ==> same_value(#[trigger] a[i], b[i])
}

fn floats_equal(a: u64, b: u64) -> (r: bool)
    ensures
        r == same_float(a, b),
{
    let x: u64 = a % 0x8000_0000_0000_0000;
    let y: u64 = b % 0x8000_0000_0000_0000;
    x <= 0x7FF0_0000_0000_0000 && y <= 0x7FF0_0000_0000_0000 && (a == b || (x == 0 && y == 0))
}

fn components_equal(a: u32, b: u32) -> (r: bool)
    ensures
        r == same_component(a, b),
{
    let x: u32 = a % 0x8000_0000;
    let y: u32 = b % 0x8000_0000;
    x <= 0x7F80_0000 && y <= 0x7F80_0000 && (a == b || (x == 0 && y == 0))
}

fn bytes_equal(a: &[u8], b: &[u8]) -> (r: bool)
    ensures
        r == (a@ == b@),
{
    if a.len() != b.len() {
        return false;
    }
    let n: usize = a.len();
    let mut i: usize = 0;
    while i < n
        invariant
            n == a@.len(),
            n == b@.len(),
            i <= n,
            forall|k: int| 0 <= k < i ==> #[trigger] a@[k] == b@[k],
        decreases n - i,
    {
        if a[i] != b[i] {
            assert(a@[i as int] != b@[i as int]);
            return false;
        }
        i += 1;
    }
    assert(a@ =~= b@);
    true
}

fn vectors_equal(a: &Vec<u32>, b: &Vec<u32>) -> (r: bool)
    ensures
        r == (a@.len() == b@.len() && forall|i: int|
            0 <= i < a@.len() ==> same_component(#[trigger] a@[i], b@[i])),
{
    if a.len() != b.len() {
        return false;
    }
    let mut i: usize = 0;
    while i < a.len()
        invariant
            a@.len() == b@.len(),
            i <= a@.len(),
            forall|k: int| 0 <= k < i ==> same_component(#[trigger] a@[k], b@[k]),
        decreases a@.len() - i,
    {
        if !components_equal(a[i], b[i]) {
            assert(!same_component(a@[i as int], b@[i as int]));
            return false;
        }
        i += 1;
    }
    true
}

/// Whether two stored values are equal.
pub fn values_equal(a: &Value, b: &Value) -> (r: bool)
    ensures
        r == same_value(a@, b@),
    decreases a,
{
    match (a, b) {
        (Value::Null, Value::Null) => true,
        (Value::Bool(x), Value::Bool(y)) => *x == *y,
        (Value::Int(x), Value::Int(y)) => *x == *y,
        (Value::Float(x), Value::Float(y)) => floats_equal(*x, *y),
        (Value::Text(x), Value::Text(y)) => crate::text::same_text(x.as_str(), y.as_str()),
        (Value::Date(x), Value::Date(y)) => *x == *y,
        (Value::Time(x), Value::Time(y)) => *x == *y,
        (Value::Timestamp(x), Value::Timestamp(y)) => *x == *y,
        (Value::TimestampTz(x), Value::TimestampTz(y)) => *x == *y,
        (Value::TimeTz(x), Value::TimeTz(y)) => *x == *y,
        (Value::Uuid(x), Value::Uuid(y)) => bytes_equal(x.as_slice(), y.as_slice()),
        (Value::Numeric(x), Value::Numeric(y)) => *x == *y,
        (Value::Json(x), Value::Json(y)) => crate::text::same_text(x.as_str(), y.as_str()),
        (Value::Interval(x), Value::Interval(y)) => *x == *y,
        (Value::Bytes(x), Value::Bytes(y)) => bytes_equal(x.as_slice(), y.as_slice()),
        (Value::Vector(x), Value::Vector(y)) => vectors_equal(x, y),
        (Value::Array(x), Value::Array(y)) => {
            proof {
                value::lemma_array_view(*x);
                value::lemma_array_view(*y);
            }
            let ghost xv = x.deep_view();
            let ghost yv = y.deep_view();
            if x.len() != y.len() {
                return false;
            }
            let mut i: usize = 0;
            while i < x.len()
                invariant
                    *a == Value::Array(*x),
                    xv == x.deep_view(),
                    yv == y.deep_view(),
                    a@ == ValueView::Array(xv),
                    b@ == ValueView::Array(yv),
                    x@.len() == y@.len(),
                    i <= x@.len(),
                    forall|k: int| 0 <= k < i ==> same_value(#[trigger] xv[k], yv[k]),
                decreases x@.len() - i,
            {
                assert(decreases_to!(*a => (*a)->Array_0));
                assert(decreases_to!(*x => x[i as int]));
                assert(xv[i as int] == x@[i as int]@);
                assert(yv[i as int] == y@[i as int]@);
                if !values_equal(&x[i], &y[i]) {
                    assert(!same_value(xv[i as int], yv[i as int]));
                    return false;
                }
                i += 1;
            }
            true
        },
        _ => false,
    }
}

/// Whether two stored rows are equal.
pub fn rows_equal(a: &Row, b: &Row) -> (r: bool)
    ensures
        r == same_row(a.deep_view(), b.deep_view()),
{
    let ghost av = a.deep_view();
    let ghost bv = b.deep_view();
    if a.len() != b.len() {
        return false;
    }
    let mut i: usize = 0;
    while i < a.len()
        invariant
            av == a.deep_view(),
            bv == b.deep_view(),
            a@.len() == b@.len(),
            i <= a@.len(),
            forall|k: int| 0 <= k < i ==> same_value(#[trigger] av[k], bv[k]),
        decreases a@.len() - i,
    {
        assert(av[i as int] == a@[i as int]@);
        assert(bv[i as int] == b@[i as int]@);
        if !values_equal(&a[i], &b[i]) {
            assert(!same_value(av[i as int], bv[i as int]));
            return false;
        }
        i += 1;
    }
    true
}

// ---------------------------------------------------------------- maintenance

/// How a cached graph is brought up to date.
#[derive(Debug, PartialEq, Eq)]
pub enum Maintenance {
    /// A row is gone or has changed: the graph is built anew.
    Rebuild,
    /// Rows were only added: those at these places of the scan go into the graph.
    Append(Vec<usize>),
}

/// The live row at place `i` is cached with other contents.
pub open spec fn changed(
    cached: Seq<Tid>,
    cached_rows: Rows,
    live: Seq<Tid>,
    live_rows: Rows,
    i: int,
) -> bool {
    match place_of(cached, live[i], cached.len()) {
        Some(p) => p >= cached_rows.len() || !same_row(cached_rows[p as int], live_rows[i]),
        None => false,
    }
}

/// The cached graph must be built anew: a live row has changed, or a cached row is no longer live.
pub open spec fn must_rebuild(
    cached: Seq<Tid>,
    cached_rows: Rows,
    live: Seq<Tid>,
    live_rows: Rows,
) -> bool {
    ||| exists|i: int| 0 <= i < live.len() && #[trigger] changed(cached, cached_rows, live, live_rows, i)
    ||| exists|i: int| 0 <= i < cached.len() && !live.contains(#[trigger] cached[i])
}

/// Those of the first `n` live rows that are not cached.
pub open spec fn added(cached: Seq<Tid>, live: Seq<Tid>, n: nat) -> Seq<usize>
    decreases n,
{
    if n == 0 {
        Seq::empty()
    } else {
        let head = added(cached, live, (n - 1) as nat);
        if place_of(cached, live[n - 1], cached.len()) is None {
            head.push((n - 1) as usize)
        } else {
            head
        }
    }
}

/// How a cached graph is brought up to date with the live rows.
pub fn plan_maintenance(
    cached: &Vec<Tid>,
    cached_rows: &Vec<Row>,
    live: &Vec<Tid>,
    live_rows: &Vec<Row>,
) -> (r: Maintenance)
    requires
        live@.len() == live_rows@.len(),
    ensures
        match r {
            Maintenance::Rebuild => must_rebuild(
                cached@,
                cached_rows.deep_view(),
                live@,
                live_rows.deep_view(),
            ),
            Maintenance::Append(places) => !must_rebuild(
                cached@,
                cached_rows.deep_view(),
                live@,
                live_rows.deep_view(),
            ) && places@ == added(cached@, live@, live@.len()),
        },
{
    let ghost crv = cached_rows.deep_view();
    let ghost lrv = live_rows.deep_view();
    let mut fresh: Vec<usize> = Vec::new();
    let mut i: usize = 0;
    while i < live.len()
        invariant
            crv == cached_rows.deep_view(),
            lrv == live_rows.deep_view(),
            live@.len() == live_rows@.len(),
            i <= live@.len(),
            fresh@ == added(cached@, live@, i as nat),
            forall|k: int| 0 <= k < i ==> !#[trigger] changed(cached@, crv, live@, lrv, k),
        decreases live@.len() - i,
    {
        match find_tid(cached, live[i]) {
            None => {
                fresh.push(i);
            },
            Some(p) => {
                if p >= cached_rows.len() {
                    assert(changed(cached@, crv, live@, lrv, i as int));
                    return Maintenance::Rebuild;
                }
                assert(crv[p as int] == cached_rows@[p as int].deep_view());
                assert(lrv[i as int] == live_rows@[i as int].deep_view());
                if !rows_equal(&cached_rows[p], &live_rows[i]) {
                    assert(changed(cached@, crv, live@, lrv, i as int));
                    return Maintenance::Rebuild;
                }
            },
        }
        i += 1;
    }
    let mut j: usize = 0;
    while j < cached.len()
        invariant
            j <= cached@.len(),
            forall|k: int| 0 <= k < j ==> live@.contains(#[trigger] cached@[k]),
        decreases cached@.len() - j,
    {
        match find_tid(live, cached[j]) {
            None => {
                assert(!live@.contains(cached@[j as int]));
                return Maintenance::Rebuild;
            },
            Some(p) => {
                assert(live@[p as int] == cached@[j as int]);
            },
        }
        j += 1;
    }
    Maintenance::Append(fresh)
}

proof fn lemma_place_of(tids: Seq<Tid>, t: Tid, n: nat)
    requires
        n <= tids.len() <= usize::MAX,
    ensures
        match place_of(tids, t, n) {
            Some(p) => p < n && tids[p as int] == t,
            None => forall|k: int| 0 <= k < n ==> #[trigger] tids[k] != t,
        },
    decreases n,
{
    if n > 0 {
        lemma_place_of(tids, t, (n - 1) as nat);
    }
}

/// Where rows were only added, the cached rows and the added ones are together exactly the live ones.
pub proof fn law_append_covers_the_live_rows(
    cached: Seq<Tid>,
    cached_rows: Rows,
    live: Seq<Tid>,
    live_rows: Rows,
    t: Tid,
)
    requires
        cached.len() <= usize::MAX,
        live.len() <= usize::MAX,
        !must_rebuild(cached, cached_rows, live, live_rows),
    ensures
        live.contains(t) <==> cached.contains(t) || exists|a: int|
            0 <= a < added(cached, live, live.len()).len() && live[#[trigger] added(
                cached,
                live,
                live.len(),
            )[a] as int] == t,
{
    let fresh = added(cached, live, live.len());
    lemma_added(cached, live, live.len());
    if live.contains(t) {
        let i = choose|i: int| 0 <= i < live.len() && live[i] == t;
        lemma_place_of(cached, t, cached.len());
        if place_of(cached, t, cached.len()) is None {
            lemma_added_has(cached, live, live.len(), i);
            let a = choose|a: int| 0 <= a < fresh.len() && fresh[a] == i as usize;
            assert(live[fresh[a] as int] == t);
        } else {
            assert(cached[place_of(cached, t, cached.len())->0 as int] == t);
        }
    }
    if cached.contains(t) {
        let i = choose|i: int| 0 <= i < cached.len() && cached[i] == t;
        assert(live.contains(cached[i]));
    }
}

proof fn lemma_added(cached: Seq<Tid>, live: Seq<Tid>, n: nat)
    requires
        n <= live.len() <= usize::MAX,
    ensures
        forall|a: int|
            0 <= a < added(cached, live, n).len() ==> 0 <= #[trigger] added(cached, live, n)[a] < n,
    decreases n,
{
    if n > 0 {
        lemma_added(cached, live, (n - 1) as nat);
        let head = added(cached, live, (n - 1) as nat);
        let all = added(cached, live, n);
        assert forall|a: int| 0 <= a < all.len() implies 0 <= #[trigger] all[a] < n by {
            if a < head.len() {
                assert(all[a] == head[a]);
            }
        }
    }
}

proof fn lemma_added_has(cached: Seq<Tid>, live: Seq<Tid>, n: nat, i: int)
    requires
        0 <= i < n <= live.len(),
        live.len() <= usize::MAX,
        place_of(cached, live[i], cached.len()) is None,
    ensures
        added(cached, live, n).contains(i as usize),
    decreases n,
{
    let head = added(cached, live, (n - 1) as nat);
    let all = added(cached, live, n);
    if i == n - 1 {
        assert(all[head.len() as int] == i as usize);
    } else {
        lemma_added_has(cached, live, (n - 1) as nat, i);
        let a = choose|a: int| 0 <= a < head.len() && head[a] == i as usize;
        assert(all[a] == i as usize);
    }
}

/// What to do with the cached graph of an index after its table changed.
#[derive(Clone, Copy, Debug, PartialEq, Eq, Structural)]
pub enum Refresh {
    Keep,
    Maintain,
    Build,
}

/// What to do with a cached graph that was built from the rows of signature `cached`.
pub fn refresh_action(cached: Option<u64>, current: u64) -> (r: Refresh)
    ensures
        r == (match cached {
            Some(s) => if s == current {
                Refresh::Keep
            } else {
                Refresh::Maintain
            },
            None => Refresh::Build,
        }),
{
    match cached {
        Some(s) => if s == current {
            Refresh::Keep
        } else {
            Refresh::Maintain
        },
        None => Refresh::Build,
    }
}

// ---------------------------------------------------------------- search hits

/// The row of a hit, where the graph and the cache know one.
pub open spec fn hit_row(places: Seq<usize>, rows: nat, hit: u32) -> Option<usize> {
    if hit < places.len() && places[hit as int] < rows {
        Some(places[hit as int])
    } else {
        None
    }
}

/// How picking hits has come out: the rows picked, or the row that the filter is to be asked about
/// next.
#[derive(Debug, PartialEq, Eq)]
pub enum Picked {
    Complete(Vec<usize>),
    Needs(usize),
}

pub enum PickedView {
    Complete(Seq<usize>),
    Needs(usize),
}

/// The rows of the hits from `i` on that pass the filter, behind those `out` picked already, up to `k`.
/// The verdicts on the rows come in the order of the hits.
pub open spec fn picked_from(
    hits: Seq<u32>,
    places: Seq<usize>,
    rows: nat,
    filtered: bool,
    verdicts: Seq<ValueView>,
    used: nat,
    k: nat,
    i: nat,
    out: Seq<usize>,
) -> PickedView
    decreases hits.len() - i,
{
    if i >= hits.len() || out.len() >= k {
        PickedView::Complete(out)
    } else {
        match hit_row(places, rows, hits[i as int]) {
            None => picked_from(hits, places, rows, filtered, verdicts, used, k, i + 1, out),
            Some(p) => if !filtered {
                picked_from(hits, places, rows, filtered, verdicts, used, k, i + 1, out.push(p))
            } else if used >= verdicts.len() {
                PickedView::Needs(p)
            } else if operators::holds(verdicts[used as int]) {
                picked_from(
                    hits,
                    places,
                    rows,
                    filtered,
                    verdicts,
                    used + 1,
                    k,
                    i + 1,
                    out.push(p),
                )
            } else {
                picked_from(hits, places, rows, filtered, verdicts, used + 1, k, i + 1, out)
            },
        }
    }
}

/// The first `k` rows of the hits, nearest first, that pass the filter if there is one. A hit that is
/// not among the cached rows is passed over.
pub fn pick_hits(
    hits: &Vec<u32>,
    places: &Vec<usize>,
    rows: usize,
    filtered: bool,
    verdicts: &Vec<Value>,
    k: usize,
) -> (r: Picked)
    ensures
        match picked_from(
            hits@,
            places@,
            rows as nat,
            filtered,
            verdicts.deep_view(),
            0,
            k as nat,
            0,
            Seq::empty(),
        ) {
            PickedView::Complete(out) => r matches Picked::Complete(v) && v@ == out,
            PickedView::Needs(p) => r == Picked::Needs(p),
        },
{
    let ghost vv = verdicts.deep_view();
    let mut out: Vec<usize> = Vec::new();
    let mut used: usize = 0;
    let mut i: usize = 0;
    assert(out@ =~= Seq::empty());
    while i < hits.len() && out.len() < k
        invariant
            vv == verdicts.deep_view(),
            i <= hits@.len(),
            used <= verdicts@.len(),
            picked_from(
                hits@,
                places@,
                rows as nat,
                filtered,
                vv,
                0,
                k as nat,
                0,
                Seq::empty(),
            ) == picked_from(
                hits@,
                places@,
                rows as nat,
                filtered,
                vv,
                used as nat,
                k as nat,
                i as nat,
                out@,
            ),
        decreases hits@.len() - i,
    {
        let hit: u32 = hits[i];
        let found: Option<usize> = if (hit as u64) < places.len() as u64 && places[hit as usize] < rows {
            Some(places[hit as usize])
        } else {
            None
        };
        if let Some(p) = found {
            if !filtered {
                out.push(p);
            } else {
                if used >= verdicts.len() {
                    return Picked::Needs(p);
                }
                assert(vv[used as int] == verdicts@[used as int]@);
                let yes: bool = match &verdicts[used] {
                    Value::Bool(b) => *b,
                    _ => false,
                };
                if yes {
                    out.push(p);
                }
                used += 1;
            }
        }
        i += 1;
    }
    Picked::Complete(out)
}

/// How many of the first `i` hits are those of a row: the number of the verdict on hit `i`.
pub open spec fn known_hits(hits: Seq<u32>, places: Seq<usize>, rows: nat, i: nat) -> nat
    decreases i,
{
    if i == 0 {
        0
    } else {
        known_hits(hits, places, rows, (i - 1) as nat) + if hit_row(places, rows, hits[i - 1]) is Some {
            1nat
        } else {
            0nat
        }
    }
}

/// The row at place `p` was hit, and passes the filter if there is one.
pub open spec fn hit_passes(
    hits: Seq<u32>,
    places: Seq<usize>,
    rows: nat,
    filtered: bool,
    verdicts: Seq<ValueView>,
    p: usize,
) -> bool {
    exists|i: int|
        0 <= i < hits.len() && hit_row(places, rows, #[trigger] hits[i]) == Some(p) && (filtered ==> {
            &&& known_hits(hits, places, rows, i as nat) < verdicts.len()
            &&& operators::holds(verdicts[known_hits(hits, places, rows, i as nat) as int])
        })
}

proof fn lemma_picked(
    hits: Seq<u32>,
    places: Seq<usize>,
    rows: nat,
    filtered: bool,
    verdicts: Seq<ValueView>,
    used: nat,
    k: nat,
    i: nat,
    out: Seq<usize>,
)
    requires
        i <= hits.len(),
        out.len() <= k,
        filtered ==> used == known_hits(hits, places, rows, i),
        forall|a: int|
            0 <= a < out.len() ==> hit_passes(hits, places, rows, filtered, verdicts, #[trigger] out[a]),
    ensures
        match picked_from(hits, places, rows, filtered, verdicts, used, k, i, out) {
            PickedView::Complete(all) => all.len() <= k && forall|a: int|
                0 <= a < all.len() ==> hit_passes(
                    hits,
                    places,
                    rows,
                    filtered,
                    verdicts,
                    #[trigger] all[a],
                ),
            PickedView::Needs(p) => p < rows,
        },
    decreases hits.len() - i,
{
    if i < hits.len() && out.len() < k {
        match hit_row(places, rows, hits[i as int]) {
            None => {
                lemma_picked(hits, places, rows, filtered, verdicts, used, k, i + 1, out);
            },
            Some(p) => if !filtered {
                assert(hit_passes(hits, places, rows, filtered, verdicts, p)) by {
                    assert(hit_row(places, rows, hits[i as int]) == Some(p));
                }
                lemma_picked(hits, places, rows, filtered, verdicts, used, k, i + 1, out.push(p));
            } else if used < verdicts.len() {
                if operators::holds(verdicts[used as int]) {
                    assert(hit_passes(hits, places, rows, filtered, verdicts, p)) by {
                        assert(hit_row(places, rows, hits[i as int]) == Some(p));
                    }
                    lemma_picked(hits, places, rows, filtered, verdicts, used + 1, k, i + 1, out.push(p));
                } else {
                    lemma_picked(hits, places, rows, filtered, verdicts, used + 1, k, i + 1, out);
                }
            },
        }
    }
}

/// A search of the graph picks at most `k` rows, and only rows that were hit and pass the filter.
pub proof fn law_picked_rows_pass(
    hits: Seq<u32>,
    places: Seq<usize>,
    rows: nat,
    filtered: bool,
    verdicts: Seq<ValueView>,
    k: nat,
)
    ensures
        match picked_from(hits, places, rows, filtered, verdicts, 0, k, 0, Seq::empty()) {
            PickedView::Complete(all) => all.len() <= k && forall|a: int|
                0 <= a < all.len() ==> (#[trigger] all[a]) < rows && hit_passes(
                    hits,
                    places,
                    rows,
                    filtered,
                    verdicts,
                    all[a],
                ),
            PickedView::Needs(p) => p < rows,
        },
{
    lemma_picked(hits, places, rows, filtered, verdicts, 0, k, 0, Seq::empty());
}

// ---------------------------------------------------------------- exact search

/// The number by which 64-bit floats are put in their total order.
pub open spec fn total_key(bits: u64) -> int {
    if bits < 0x8000_0000_0000_0000 {
        bits as int
    } else {
        0x8000_0000_0000_0000 - bits - 1
    }
}

/// The sort key of a row at a distance: rows without a distance come last, as NULL does.
pub open spec fn distance_key(d: Option<u64>) -> Seq<ValueView> {
    match d {
        Some(bits) => seq![ValueView::Int(total_key(bits) as i64)],
        None => seq![ValueView::Null],
    }
}

/// The order of rows by their distance, rows without one last.
pub open spec fn by_distance(distances: Seq<Option<u64>>) -> Seq<usize> {
    sort::sorted_order(
        &ColumnOrder,
        distances.map_values(|d: Option<u64>| distance_key(d)),
        vector::ascending_key(),
    )
}

/// The first `n` of `s`, or all.
pub open spec fn at_most(s: Seq<usize>, n: nat) -> Seq<usize> {
    if n < s.len() {
        s.take(n as int)
    } else {
        s
    }
}

/// The places of the `k` nearest of the rows at these distances, nearest first. Rows without a
/// distance fill up what is left: the result is that of sorting by distance and limiting to `k`.
pub fn exact_vector_knn(distances: &Vec<Option<u64>>, k: usize) -> (r: Vec<usize>)
    ensures
        r@ == at_most(by_distance(distances@), k as nat),
        forall|a: int| 0 <= a < r@.len() ==> #[trigger] r@[a] < distances@.len(),
{
    let mut keys: Vec<Vec<Value>> = Vec::new();
    let mut i: usize = 0;
    while i < distances.len()
        invariant
            i <= distances@.len(),
            keys@.len() == i,
            forall|j: int|
                0 <= j < i ==> (#[trigger] keys@[j]).deep_view() == distance_key(distances@[j]),
        decreases distances@.len() - i,
    {
        let mut key: Vec<Value> = Vec::new();
        match distances[i] {
            Some(bits) => {
                let n: i64 = if bits < 0x8000_0000_0000_0000 {
                    bits as i64
                } else {
                    -((bits - 0x8000_0000_0000_0000) as i64) - 1
                };
                key.push(Value::Int(n));
                assert(key.deep_view() =~= distance_key(distances@[i as int]));
            },
            None => {
                key.push(Value::Null);
                assert(key.deep_view() =~= distance_key(distances@[i as int]));
            },
        }
        keys.push(key);
        i += 1;
    }
    assert(keys.deep_view() =~= distances@.map_values(|d: Option<u64>| distance_key(d)));
    let mut ks: Vec<SortKey> = Vec::new();
    ks.push(SortKey { ascending: true, nulls: NullOrdering::Default });
    assert(ks@ =~= vector::ascending_key());
    let mut places = sort::sort_places(&ColumnOrder, &keys, &ks);
    if k < places.len() {
        places.truncate(k);
    }
    places
}

/// Every one of the nearest rows is at most as far as any row left out.
pub proof fn law_nearest_rows_come_first(distances: Seq<Option<u64>>, k: nat, a: int, b: int)
    requires
        distances.len() <= usize::MAX,
        0 <= a < k,
        k <= b < by_distance(distances).len(),
    ensures
        ({
            let x = distances[by_distance(distances)[a] as int];
            let y = distances[by_distance(distances)[b] as int];
            x is None ==> y is None
        }),
        ({
            let x = distances[by_distance(distances)[a] as int];
            let y = distances[by_distance(distances)[b] as int];
            x is Some && y is Some ==> total_key(x->0) <= total_key(y->0)
        }),
{
    reveal(crate::order::value_order);
    let o = ColumnOrder;
    let keys = distances.map_values(|d: Option<u64>| distance_key(d));
    let ks = vector::ascending_key();
    assert(sort::keyed(keys, ks.len()));
    sort::law_sorted_order_is_sorted(&o, keys, ks);
    let places = by_distance(distances);
    let i = places[a] as int;
    let j = places[b] as int;
    assert(sort::before(&o, keys, ks, i, j));
    assert(crate::order::keys_order(&o, keys[i], keys[j], ks, 1) == crate::order::Order::Equal);
    assert(crate::order::keys_order(&o, keys[i], keys[j], ks, 0) == crate::order::key_order(
        &o,
        keys[i][0],
        keys[j][0],
        ks[0],
    ));
}

// ---------------------------------------------------------------- the search

/// What is asked for in a vector search, in turn.
#[derive(Clone, Copy, Debug, PartialEq, Eq, Structural)]
pub enum KnnAsk {
    /// The dimension of the index for the column and the distance, if there is one.
    Index,
    /// The signature of the rows that are there now.
    Signature,
    /// The signature that the cached graph was built from, if there is one.
    Cached,
    /// The same, while no other search can change the cache.
    CachedLocked,
    /// Bring the cached graph up to date.
    Maintain { signature: u64 },
    /// Load the stored graph, if it can serve.
    Load { signature: u64 },
    /// Build the graph from the rows.
    Build { signature: u64 },
    /// Search the cached graph.
    Search { want: usize, beam: usize },
    /// The rows of the table.
    Exact,
}

/// An answer in a vector search.
#[allow(inconsistent_fields)]
#[derive(Debug, PartialEq, Eq)]
pub enum KnnAnswer {
    Index(Option<usize>),
    Signature(u64),
    Cached(Option<u64>),
    /// Whether a graph was loaded.
    Loaded(bool),
    /// The cached graph is up to date.
    Ready,
    /// What the graph found, nearest first; the place of each of its nodes among the cached rows; and
    /// the cached rows.
    Hits { hits: Vec<u32>, places: Vec<usize>, rows: Vec<Row> },
    /// The rows of the table, as they are scanned.
    Rows(Vec<Row>),
    /// What the filter is of each row that was to be judged.
    Verdicts(Vec<Value>),
    /// How far each vector that was to be scored is from the query, as the bits of a float; `None`
    /// where it cannot be compared.
    Distances(Vec<Option<u64>>),
}

#[allow(inconsistent_fields)]
pub enum KnnAnswerView {
    Index(Option<usize>),
    Signature(u64),
    Cached(Option<u64>),
    Loaded(bool),
    Ready,
    Hits { hits: Seq<u32>, places: Seq<usize>, rows: Rows },
    Rows(Rows),
    Verdicts(Seq<ValueView>),
    Distances(Seq<Option<u64>>),
}

impl View for KnnAnswer {
    type V = KnnAnswerView;

    open spec fn view(&self) -> KnnAnswerView {
        match self {
            KnnAnswer::Index(d) => KnnAnswerView::Index(*d),
            KnnAnswer::Signature(s) => KnnAnswerView::Signature(*s),
            KnnAnswer::Cached(s) => KnnAnswerView::Cached(*s),
            KnnAnswer::Loaded(b) => KnnAnswerView::Loaded(*b),
            KnnAnswer::Ready => KnnAnswerView::Ready,
            KnnAnswer::Hits { hits, places, rows } => KnnAnswerView::Hits {
                hits: hits@,
                places: places@,
                rows: rows.deep_view(),
            },
            KnnAnswer::Rows(rows) => KnnAnswerView::Rows(rows.deep_view()),
            KnnAnswer::Verdicts(vs) => KnnAnswerView::Verdicts(vs.deep_view()),
            KnnAnswer::Distances(ds) => KnnAnswerView::Distances(ds@),
        }
    }
}

impl DeepView for KnnAnswer {
    type V = KnnAnswerView;

    open spec fn deep_view(&self) -> KnnAnswerView {
        self@
    }
}

/// What a vector search is over: the length of the query vector, `None` for a query that is no
/// vector, the column that it is compared with, and how many rows are wanted of those that pass the
/// filter, if there is one.
#[derive(Clone, Copy, Debug, PartialEq, Eq, Structural)]
pub struct KnnQuery {
    pub query: Option<usize>,
    pub column: usize,
    pub k: u64,
    pub filtered: bool,
}

/// How a vector search goes on.
#[derive(Debug, PartialEq, Eq)]
pub enum KnnStep {
    Done(Vec<Row>),
    Ask(KnnAsk),
    /// What the filter is of each of these rows is needed.
    Judge(Vec<Row>),
    /// How far each of these vectors is from the query is needed; a row without one has no distance.
    Score(Vec<Option<Vec<u32>>>),
    /// An answer is not one to what was asked.
    BadAnswer,
}

pub enum KnnStepView {
    Done(Rows),
    Ask(KnnAsk),
    Judge(Rows),
    Score(Seq<Option<Seq<u32>>>),
    BadAnswer,
}

impl View for KnnStep {
    type V = KnnStepView;

    open spec fn view(&self) -> KnnStepView {
        match self {
            KnnStep::Done(rows) => KnnStepView::Done(rows.deep_view()),
            KnnStep::Ask(a) => KnnStepView::Ask(*a),
            KnnStep::Judge(rows) => KnnStepView::Judge(rows.deep_view()),
            KnnStep::Score(vs) => KnnStepView::Score(vs.deep_view()),
            KnnStep::BadAnswer => KnnStepView::BadAnswer,
        }
    }
}

/// The rows wanted, as a machine number.
pub open spec fn wanted(k: u64) -> usize {
    if k <= usize::MAX {
        k as usize
    } else {
        usize::MAX
    }
}

/// How many candidates are fetched: more where a filter will drop some.
pub open spec fn candidates(q: KnnQuery) -> usize {
    let k = wanted(q.k);
    if q.filtered {
        if k * vector::FILTER_OVERFETCH <= usize::MAX {
            (k * vector::FILTER_OVERFETCH) as usize
        } else {
            usize::MAX
        }
    } else {
        k
    }
}

/// The vector in a row's column, where it holds one.
pub open spec fn vector_in(row: Seq<ValueView>, column: nat) -> Option<Seq<u32>> {
    if column < row.len() {
        match row[column as int] {
            ValueView::Vector(v) => Some(v),
            _ => None,
        }
    } else {
        None
    }
}

/// The vectors in a column of the rows.
pub open spec fn vectors_in(rows: Rows, column: nat) -> Seq<Option<Seq<u32>>> {
    rows.map_values(|r: Seq<ValueView>| vector_in(r, column))
}

/// How far the rows are: a row without a vector has no distance.
pub open spec fn scores(rows: Rows, column: nat, distances: Seq<Option<u64>>) -> Seq<Option<u64>> {
    Seq::new(
        rows.len(),
        |i: int|
            if vector_in(rows[i], column) is Some {
                distances[i]
            } else {
                None
            },
    )
}

/// The nearest of the rows that pass the filter.
pub open spec fn nearest(q: KnnQuery, passing: Rows, distances: Seq<Option<u64>>) -> Rows {
    sort::picked(
        passing,
        at_most(by_distance(scores(passing, q.column as nat, distances)), wanted(q.k) as nat),
    )
}

/// The rows that pass the filter, scored.
pub open spec fn score_step(
    q: KnnQuery,
    passing: Rows,
    answers: Seq<KnnAnswerView>,
    used: nat,
) -> KnnStepView {
    if used >= answers.len() {
        KnnStepView::Score(vectors_in(passing, q.column as nat))
    } else {
        match answers[used as int] {
            KnnAnswerView::Distances(ds) => if ds.len() == passing.len() {
                KnnStepView::Done(nearest(q, passing, ds))
            } else {
                KnnStepView::BadAnswer
            },
            _ => KnnStepView::BadAnswer,
        }
    }
}

/// The exact search: of all rows, those that pass the filter are scored, and the nearest are taken.
pub open spec fn exact_step(q: KnnQuery, answers: Seq<KnnAnswerView>, used: nat) -> KnnStepView {
    if used >= answers.len() {
        KnnStepView::Ask(KnnAsk::Exact)
    } else {
        match answers[used as int] {
            KnnAnswerView::Rows(rows) => if !q.filtered {
                score_step(q, rows, answers, used + 1)
            } else if used + 1 >= answers.len() {
                KnnStepView::Judge(rows)
            } else {
                match answers[used as int + 1] {
                    KnnAnswerView::Verdicts(vs) => if vs.len() == rows.len() {
                        score_step(q, operators::kept(rows, vs, rows.len()), answers, used + 2)
                    } else {
                        KnnStepView::BadAnswer
                    },
                    _ => KnnStepView::BadAnswer,
                }
            },
            _ => KnnStepView::BadAnswer,
        }
    }
}

/// The verdicts on single rows that stand from `from` on.
pub open spec fn verdicts_from(answers: Seq<KnnAnswerView>, from: nat) -> Seq<ValueView>
    decreases answers.len() - from,
{
    if from >= answers.len() {
        Seq::empty()
    } else {
        match answers[from as int] {
            KnnAnswerView::Verdicts(vs) => if vs.len() == 1 {
                vs + verdicts_from(answers, from + 1)
            } else {
                Seq::empty()
            },
            _ => Seq::empty(),
        }
    }
}

/// The verdicts on the hits, where there is a filter.
pub open spec fn verdicts_on_hits(q: KnnQuery, answers: Seq<KnnAnswerView>, from: nat) -> Seq<ValueView> {
    if q.filtered {
        verdicts_from(answers, from)
    } else {
        Seq::empty()
    }
}

/// The hits of the cached graph: those that pass the filter are picked, each judged in turn. Fewer
/// rows than wanted mean that the graph did not hold enough: the exact search decides.
pub open spec fn hits_step(
    q: KnnQuery,
    hits: Seq<u32>,
    places: Seq<usize>,
    rows: Rows,
    answers: Seq<KnnAnswerView>,
    used: nat,
) -> KnnStepView {
    let vs = verdicts_on_hits(q, answers, used);
    match picked_from(hits, places, rows.len(), q.filtered, vs, 0, wanted(q.k) as nat, 0, Seq::empty()) {
        PickedView::Needs(p) => if used + vs.len() < answers.len() {
            KnnStepView::BadAnswer
        } else {
            KnnStepView::Judge(seq![rows[p as int]])
        },
        PickedView::Complete(out) => if out.len() < wanted(q.k) {
            exact_step(q, answers, used + vs.len())
        } else {
            KnnStepView::Done(sort::picked(rows, out))
        },
    }
}

/// The search of the cached graph.
pub open spec fn search_step(
    q: KnnQuery,
    beam: usize,
    answers: Seq<KnnAnswerView>,
    used: nat,
) -> KnnStepView {
    if used >= answers.len() {
        KnnStepView::Ask(KnnAsk::Search { want: candidates(q), beam })
    } else {
        match answers[used as int] {
            KnnAnswerView::Hits { hits, places, rows } => hits_step(
                q,
                hits,
                places,
                rows,
                answers,
                used + 1,
            ),
            _ => KnnStepView::BadAnswer,
        }
    }
}

/// A step that only makes the graph ready, and the search after it.
pub open spec fn ready_step(
    q: KnnQuery,
    beam: usize,
    ask: KnnAsk,
    answers: Seq<KnnAnswerView>,
    used: nat,
) -> KnnStepView {
    if used >= answers.len() {
        KnnStepView::Ask(ask)
    } else {
        match answers[used as int] {
            KnnAnswerView::Ready => search_step(q, beam, answers, used + 1),
            _ => KnnStepView::BadAnswer,
        }
    }
}

/// The stored graph, or where there is none that serves a graph built anew.
pub open spec fn load_step(
    q: KnnQuery,
    beam: usize,
    signature: u64,
    answers: Seq<KnnAnswerView>,
    used: nat,
) -> KnnStepView {
    if used >= answers.len() {
        KnnStepView::Ask(KnnAsk::Load { signature })
    } else {
        match answers[used as int] {
            KnnAnswerView::Loaded(true) => search_step(q, beam, answers, used + 1),
            KnnAnswerView::Loaded(false) => ready_step(
                q,
                beam,
                KnnAsk::Build { signature },
                answers,
                used + 1,
            ),
            _ => KnnStepView::BadAnswer,
        }
    }
}

/// A graph that was not current: looked at again under the lock, brought up to date, or loaded.
pub open spec fn stale_step(
    q: KnnQuery,
    beam: usize,
    signature: u64,
    answers: Seq<KnnAnswerView>,
    used: nat,
) -> KnnStepView {
    if used >= answers.len() {
        KnnStepView::Ask(KnnAsk::CachedLocked)
    } else {
        match answers[used as int] {
            KnnAnswerView::Cached(Some(s)) => if s == signature {
                search_step(q, beam, answers, used + 1)
            } else {
                ready_step(q, beam, KnnAsk::Maintain { signature }, answers, used + 1)
            },
            KnnAnswerView::Cached(None) => load_step(q, beam, signature, answers, used + 1),
            _ => KnnStepView::BadAnswer,
        }
    }
}

/// The search by an index of the right dimension.
pub open spec fn index_step(
    q: KnnQuery,
    setting: Option<Seq<char>>,
    answers: Seq<KnnAnswerView>,
    used: nat,
) -> KnnStepView {
    let beam = vector::beam_width(candidates(q), setting);
    if used >= answers.len() {
        KnnStepView::Ask(KnnAsk::Signature)
    } else {
        match answers[used as int] {
            KnnAnswerView::Signature(signature) => if used + 1 >= answers.len() {
                KnnStepView::Ask(KnnAsk::Cached)
            } else {
                match answers[used as int + 1] {
                    KnnAnswerView::Cached(c) => if c == Some(signature) {
                        search_step(q, beam, answers, used + 2)
                    } else {
                        stale_step(q, beam, signature, answers, used + 2)
                    },
                    _ => KnnStepView::BadAnswer,
                }
            },
            _ => KnnStepView::BadAnswer,
        }
    }
}

/// A vector search with the answers so far. A query that is no vector, or that wants no rows, finds
/// none. Without an index of the query's dimension all rows are searched.
pub open spec fn knn_step(q: KnnQuery, setting: Option<Seq<char>>, answers: Seq<KnnAnswerView>) -> KnnStepView {
    if q.query is None || q.k == 0 {
        KnnStepView::Done(Seq::empty())
    } else if answers.len() == 0 {
        KnnStepView::Ask(KnnAsk::Index)
    } else {
        match answers[0] {
            KnnAnswerView::Index(Some(dim)) => if dim == q.query->0 {
                index_step(q, setting, answers, 1)
            } else {
                exact_step(q, answers, 1)
            },
            KnnAnswerView::Index(None) => exact_step(q, answers, 1),
            _ => KnnStepView::BadAnswer,
        }
    }
}

fn find_vectors(rows: &Vec<Row>, column: usize) -> (r: Vec<Option<Vec<u32>>>)
    ensures
        r.deep_view() == vectors_in(rows.deep_view(), column as nat),
{
    let ghost rv = rows.deep_view();
    let mut out: Vec<Option<Vec<u32>>> = Vec::new();
    let mut i: usize = 0;
    while i < rows.len()
        invariant
            rv == rows.deep_view(),
            i <= rows@.len(),
            out@.len() == i,
            forall|j: int|
                0 <= j < i ==> (#[trigger] out@[j]).deep_view() == vector_in(rv[j], column as nat),
        decreases rows@.len() - i,
    {
        assert(rv[i as int] == rows@[i as int].deep_view());
        let found: Option<Vec<u32>> = if column < rows[i].len() {
            assert(rv[i as int][column as int] == rows@[i as int]@[column as int]@);
            match &rows[i][column] {
                Value::Vector(v) => {
                    let copy = v.clone();
                    assert(copy.deep_view() =~= v@);
                    Some(copy)
                },
                _ => None,
            }
        } else {
            None
        };
        out.push(found);
        i += 1;
    }
    assert(out.deep_view() =~= vectors_in(rv, column as nat));
    out
}

fn score_next(q: KnnQuery, passing: &Vec<Row>, answers: &Vec<KnnAnswer>, used: usize) -> (r: KnnStep)
    ensures
        r@ == score_step(q, passing.deep_view(), answers.deep_view(), used as nat),
{
    let vectors = find_vectors(passing, q.column);
    if used >= answers.len() {
        return KnnStep::Score(vectors);
    }
    assert(answers.deep_view()[used as int] == answers@[used as int]@);
    match &answers[used] {
        KnnAnswer::Distances(ds) => {
            if ds.len() != passing.len() {
                return KnnStep::BadAnswer;
            }
            let ghost pv = passing.deep_view();
            let mut known: Vec<Option<u64>> = Vec::new();
            let mut i: usize = 0;
            while i < ds.len()
                invariant
                    pv == passing.deep_view(),
                    ds@.len() == passing@.len(),
                    vectors.deep_view() == vectors_in(pv, q.column as nat),
                    i <= ds@.len(),
                    known@.len() == i,
                    forall|j: int|
                        0 <= j < i ==> #[trigger] known@[j] == scores(pv, q.column as nat, ds@)[j],
                decreases ds@.len() - i,
            {
                assert(vectors.deep_view().len() == pv.len());
                assert(vectors.deep_view()[i as int] == vectors@[i as int].deep_view());
                if vectors[i].is_some() {
                    known.push(ds[i]);
                } else {
                    known.push(None);
                }
                i += 1;
            }
            assert(known@ =~= scores(pv, q.column as nat, ds@));
            let places = exact_vector_knn(&known, count_wanted(q.k));
            KnnStep::Done(sort::pick_rows(passing, &places))
        },
        _ => KnnStep::BadAnswer,
    }
}

fn exact_next(q: KnnQuery, answers: &Vec<KnnAnswer>, used: usize) -> (r: KnnStep)
    ensures
        r@ == exact_step(q, answers.deep_view(), used as nat),
{
    if used >= answers.len() {
        return KnnStep::Ask(KnnAsk::Exact);
    }
    assert(answers.deep_view()[used as int] == answers@[used as int]@);
    match &answers[used] {
        KnnAnswer::Rows(rows) => {
            if !q.filtered {
                return score_next(q, rows, answers, used + 1);
            }
            let at: usize = used + 1;
            if at >= answers.len() {
                return KnnStep::Judge(setops::clone_rows(rows));
            }
            assert(answers.deep_view()[at as int] == answers@[at as int]@);
            match &answers[at] {
                KnnAnswer::Verdicts(vs) => {
                    if vs.len() != rows.len() {
                        return KnnStep::BadAnswer;
                    }
                    let passing = operators::filter_rows(rows, vs);
                    score_next(q, &passing, answers, at + 1)
                },
                _ => KnnStep::BadAnswer,
            }
        },
        _ => KnnStep::BadAnswer,
    }
}

proof fn lemma_verdicts_fit(answers: Seq<KnnAnswerView>, from: nat)
    requires
        from <= answers.len(),
    ensures
        from + verdicts_from(answers, from).len() <= answers.len(),
    decreases answers.len() - from,
{
    if from < answers.len() {
        lemma_verdicts_fit(answers, from + 1);
    }
}

fn take_verdicts(answers: &Vec<KnnAnswer>, from: usize) -> (r: Vec<Value>)
    requires
        from <= answers@.len(),
    ensures
        r.deep_view() == verdicts_from(answers.deep_view(), from as nat),
        from + r@.len() <= answers@.len(),
{
    let ghost av = answers.deep_view();
    let ghost all = verdicts_from(av, from as nat);
    let mut out: Vec<Value> = Vec::new();
    let mut at: usize = from;
    let mut going: bool = true;
    assert(out.deep_view() + all =~= all);
    while going && at < answers.len()
        invariant
            av == answers.deep_view(),
            all == verdicts_from(av, from as nat),
            from <= at <= answers@.len(),
            going ==> out.deep_view() + verdicts_from(av, at as nat) == all,
            !going ==> out.deep_view() == all,
        decreases answers@.len() - at + if going { 1int } else { 0int },
    {
        assert(av[at as int] == answers@[at as int]@);
        let single: Option<Value> = match &answers[at] {
            KnnAnswer::Verdicts(vs) => if vs.len() == 1 {
                assert(vs.deep_view() =~= seq![vs@[0]@]);
                Some(vs[0].clone())
            } else {
                None
            },
            _ => None,
        };
        let ghost before = out.deep_view();
        match single {
            Some(v) => {
                let ghost vv = v@;
                out.push(v);
                proof {
                    let rest = verdicts_from(av, (at + 1) as nat);
                    assert(out.deep_view() =~= before.push(vv));
                    assert(verdicts_from(av, at as nat) =~= seq![vv] + rest);
                    assert(out.deep_view() + rest =~= before + (seq![vv] + rest));
                }
                at += 1;
            },
            None => {
                going = false;
                assert(verdicts_from(av, at as nat) =~= Seq::empty());
                assert(out.deep_view() =~= all);
            },
        }
    }
    proof {
        if going {
            assert(verdicts_from(av, at as nat) =~= Seq::empty());
            assert(out.deep_view() =~= all);
        }
        lemma_verdicts_fit(av, from as nat);
        assert(out.deep_view().len() == out@.len());
    }
    out
}

fn hits_next(
    q: KnnQuery,
    hits: &Vec<u32>,
    places: &Vec<usize>,
    rows: &Vec<Row>,
    answers: &Vec<KnnAnswer>,
    used: usize,
) -> (r: KnnStep)
    requires
        used <= answers@.len(),
    ensures
        r@ == hits_step(q, hits@, places@, rows.deep_view(), answers.deep_view(), used as nat),
{
    let verdicts: Vec<Value> = if q.filtered {
        take_verdicts(answers, used)
    } else {
        let none: Vec<Value> = Vec::new();
        assert(none.deep_view() =~= Seq::empty());
        none
    };
    let total: usize = answers.len();
    assert(used + verdicts@.len() <= total);
    let k: usize = count_wanted(q.k);
    proof {
        law_picked_rows_pass(
            hits@,
            places@,
            rows@.len(),
            q.filtered,
            verdicts.deep_view(),
            k as nat,
        );
    }
    match pick_hits(hits, places, rows.len(), q.filtered, &verdicts, k) {
        Picked::Needs(p) => {
            if used + verdicts.len() < total {
                return KnnStep::BadAnswer;
            }
            let mut one: Vec<Row> = Vec::new();
            assert(rows.deep_view()[p as int] == rows@[p as int].deep_view());
            one.push(sort::clone_row(&rows[p]));
            assert(one.deep_view() =~= seq![rows.deep_view()[p as int]]);
            KnnStep::Judge(one)
        },
        Picked::Complete(out) => if out.len() < k {
            exact_next(q, answers, used + verdicts.len())
        } else {
            KnnStep::Done(sort::pick_rows(rows, &out))
        },
    }
}

fn count_wanted(k: u64) -> (r: usize)
    ensures
        r == wanted(k),
{
    if k <= usize::MAX as u64 {
        k as usize
    } else {
        usize::MAX
    }
}

fn count_candidates(q: KnnQuery) -> (r: usize)
    ensures
        r == candidates(q),
{
    let k: usize = count_wanted(q.k);
    if q.filtered {
        if k <= usize::MAX / vector::FILTER_OVERFETCH {
            k * vector::FILTER_OVERFETCH
        } else {
            usize::MAX
        }
    } else {
        k
    }
}

fn search_next(q: KnnQuery, beam: usize, answers: &Vec<KnnAnswer>, used: usize) -> (r: KnnStep)
    ensures
        r@ == search_step(q, beam, answers.deep_view(), used as nat),
{
    if used >= answers.len() {
        return KnnStep::Ask(KnnAsk::Search { want: count_candidates(q), beam });
    }
    assert(answers.deep_view()[used as int] == answers@[used as int]@);
    match &answers[used] {
        KnnAnswer::Hits { hits, places, rows } => hits_next(q, hits, places, rows, answers, used + 1),
        _ => KnnStep::BadAnswer,
    }
}

fn ready_next(q: KnnQuery, beam: usize, ask: KnnAsk, answers: &Vec<KnnAnswer>, used: usize) -> (r: KnnStep)
    ensures
        r@ == ready_step(q, beam, ask, answers.deep_view(), used as nat),
{
    if used >= answers.len() {
        return KnnStep::Ask(ask);
    }
    assert(answers.deep_view()[used as int] == answers@[used as int]@);
    match &answers[used] {
        KnnAnswer::Ready => search_next(q, beam, answers, used + 1),
        _ => KnnStep::BadAnswer,
    }
}

fn stale_next(q: KnnQuery, beam: usize, signature: u64, answers: &Vec<KnnAnswer>, used: usize) -> (r: KnnStep)
    ensures
        r@ == stale_step(q, beam, signature, answers.deep_view(), used as nat),
{
    if used >= answers.len() {
        return KnnStep::Ask(KnnAsk::CachedLocked);
    }
    assert(answers.deep_view()[used as int] == answers@[used as int]@);
    match &answers[used] {
        KnnAnswer::Cached(Some(s)) => if *s == signature {
            search_next(q, beam, answers, used + 1)
        } else {
            ready_next(q, beam, KnnAsk::Maintain { signature }, answers, used + 1)
        },
        KnnAnswer::Cached(None) => {
            let at: usize = used + 1;
            if at >= answers.len() {
                return KnnStep::Ask(KnnAsk::Load { signature });
            }
            assert(answers.deep_view()[at as int] == answers@[at as int]@);
            match &answers[at] {
                KnnAnswer::Loaded(true) => search_next(q, beam, answers, at + 1),
                KnnAnswer::Loaded(false) => ready_next(
                    q,
                    beam,
                    KnnAsk::Build { signature },
                    answers,
                    at + 1,
                ),
                _ => KnnStep::BadAnswer,
            }
        },
        _ => KnnStep::BadAnswer,
    }
}

/// Go on with a vector search, with the session's setting of the search beam and the answers so far.
pub fn run_vector_knn(q: KnnQuery, setting: Option<&str>, answers: &Vec<KnnAnswer>) -> (r: KnnStep)
    ensures
        r@ == knn_step(
            q,
            match setting {
                Some(s) => Some(s@),
                None => None,
            },
            answers.deep_view(),
        ),
        r@ matches KnnStepView::Done(rows) ==> rows.len() <= wanted(q.k),
{
    proof {
        law_no_more_rows_than_wanted(
            q,
            match setting {
                Some(s) => Some(s@),
                None => None,
            },
            answers.deep_view(),
        );
    }
    let length: usize = match q.query {
        None => {
            let none: Vec<Row> = Vec::new();
            assert(none.deep_view() =~= Seq::empty());
            return KnnStep::Done(none);
        },
        Some(n) => n,
    };
    if q.k == 0 {
        let none: Vec<Row> = Vec::new();
        assert(none.deep_view() =~= Seq::empty());
        return KnnStep::Done(none);
    }
    if answers.len() == 0 {
        return KnnStep::Ask(KnnAsk::Index);
    }
    assert(answers.deep_view()[0] == answers@[0]@);
    match &answers[0] {
        KnnAnswer::Index(Some(dim)) => {
            if *dim != length {
                return exact_next(q, answers, 1);
            }
            let beam: usize = vector::resolve_ef_search(count_candidates(q), setting);
            if answers.len() < 2 {
                return KnnStep::Ask(KnnAsk::Signature);
            }
            assert(answers.deep_view()[1] == answers@[1]@);
            match &answers[1] {
                KnnAnswer::Signature(signature) => {
                    if answers.len() < 3 {
                        return KnnStep::Ask(KnnAsk::Cached);
                    }
                    assert(answers.deep_view()[2] == answers@[2]@);
                    match &answers[2] {
                        KnnAnswer::Cached(c) => {
                            let current: bool = match c {
                                Some(s) => *s == *signature,
                                None => false,
                            };
                            if current {
                                search_next(q, beam, answers, 3)
                            } else {
                                stale_next(q, beam, *signature, answers, 3)
                            }
                        },
                        _ => KnnStep::BadAnswer,
                    }
                },
                _ => KnnStep::BadAnswer,
            }
        },
        KnnAnswer::Index(None) => exact_next(q, answers, 1),
        _ => KnnStep::BadAnswer,
    }
}

/// An exact search gives the wanted number of the rows that pass the filter, or all of them where there
/// are fewer, nearest first.
pub proof fn law_exact_search_gives_the_nearest(q: KnnQuery, passing: Rows, distances: Seq<Option<u64>>)
    requires
        distances.len() == passing.len() <= usize::MAX,
    ensures
        nearest(q, passing, distances).len() == if wanted(q.k) < passing.len() {
            wanted(q.k) as nat
        } else {
            passing.len()
        },
        forall|a: int|
            0 <= a < nearest(q, passing, distances).len() ==> passing.contains(
                #[trigger] nearest(q, passing, distances)[a],
            ),
{
    let ds = scores(passing, q.column as nat, distances);
    let keys = ds.map_values(|d: Option<u64>| distance_key(d));
    let ks = vector::ascending_key();
    assert(sort::keyed(keys, ks.len()));
    sort::law_sorted_order_is_sorted(&ColumnOrder, keys, ks);
    sort::lemma_sorted_len(&ColumnOrder, keys, ks, by_distance(ds), 0, keys.len() as int);
    let places = at_most(by_distance(ds), wanted(q.k) as nat);
    assert forall|a: int| 0 <= a < nearest(q, passing, distances).len() implies passing.contains(
        #[trigger] nearest(q, passing, distances)[a],
    ) by {
        assert(places[a] == by_distance(ds)[a]);
        assert(0 <= by_distance(ds)[a] < passing.len());
        assert(nearest(q, passing, distances)[a] == passing[places[a] as int]);
    }
}

/// A search of the graph gives back exactly as many rows as wanted, each of them hit and passing the
/// filter; where the graph has fewer, the exact search decides.
pub proof fn law_graph_search_gives_passing_rows(
    q: KnnQuery,
    hits: Seq<u32>,
    places: Seq<usize>,
    rows: Rows,
    answers: Seq<KnnAnswerView>,
    used: nat,
)
    ensures
        ({
            let vs = verdicts_on_hits(q, answers, used);
            match picked_from(
                hits,
                places,
                rows.len(),
                q.filtered,
                vs,
                0,
                wanted(q.k) as nat,
                0,
                Seq::empty(),
            ) {
                PickedView::Needs(_) => !(hits_step(q, hits, places, rows, answers, used) is Done),
                PickedView::Complete(out) => if out.len() < wanted(q.k) {
                    hits_step(q, hits, places, rows, answers, used) == exact_step(
                        q,
                        answers,
                        used + vs.len(),
                    )
                } else {
                    &&& out.len() == wanted(q.k)
                    &&& hits_step(q, hits, places, rows, answers, used) == KnnStepView::Done(
                        sort::picked(rows, out),
                    )
                    &&& forall|a: int|
                        0 <= a < out.len() ==> hit_passes(
                            hits,
                            places,
                            rows.len(),
                            q.filtered,
                            vs,
                            #[trigger] out[a],
                        )
                },
            }
        }),
{
    let vs = verdicts_on_hits(q, answers, used);
    law_picked_rows_pass(hits, places, rows.len(), q.filtered, vs, wanted(q.k) as nat);
}

proof fn lemma_exact_len(q: KnnQuery, answers: Seq<KnnAnswerView>, used: nat)
    ensures
        exact_step(q, answers, used) matches KnnStepView::Done(rows) ==> rows.len() <= wanted(q.k),
{
}

proof fn lemma_search_len(q: KnnQuery, beam: usize, answers: Seq<KnnAnswerView>, used: nat)
    ensures
        search_step(q, beam, answers, used) matches KnnStepView::Done(rows) ==> rows.len() <= wanted(q.k),
{
    if used < answers.len() {
        if let KnnAnswerView::Hits { hits, places, rows } = answers[used as int] {
            let vs = verdicts_on_hits(q, answers, used + 1);
            law_picked_rows_pass(hits, places, rows.len(), q.filtered, vs, wanted(q.k) as nat);
            lemma_exact_len(q, answers, used + 1 + vs.len());
        }
    }
}

/// A search gives back no more rows than are wanted.
pub proof fn law_no_more_rows_than_wanted(
    q: KnnQuery,
    setting: Option<Seq<char>>,
    answers: Seq<KnnAnswerView>,
)
    ensures
        knn_step(q, setting, answers) matches KnnStepView::Done(rows) ==> rows.len() <= wanted(q.k),
{
    let beam = vector::beam_width(candidates(q), setting);
    lemma_exact_len(q, answers, 1);
    assert forall|used: nat| (#[trigger] search_step(q, beam, answers, used)) matches KnnStepView::Done(
        rows,
    ) ==> rows.len() <= wanted(q.k) by {
        lemma_search_len(q, beam, answers, used);
    }
}

} // verus!
