//! What a search for the nearest vectors gives, and when it asks for what.
use vstd::prelude::*;
use crate::memory;
use crate::operators;
use crate::setops::Rows;
use crate::text;
use crate::value::ValueView;
use crate::vector;
use crate::vector::search;
use crate::vector::search::{KnnAnswerView, KnnAsk, KnnQuery, KnnStepView, PickedView};
use crate::vector::Tid;

verus! {

// ---------------------------------------------------------------- distances

/// Distances stand by size: of two that are not negative the one with the lesser bits is the lesser, of
/// two negative ones that with the greater bits, and a negative one is less than one that is not.
pub proof fn law_distances_stand_by_size(a: u64, b: u64)
    ensures
        a < 0x8000_0000_0000_0000 && b < 0x8000_0000_0000_0000 ==> (a < b <==> search::total_key(a)
            < search::total_key(b)),
        a >= 0x8000_0000_0000_0000 && b >= 0x8000_0000_0000_0000 ==> (a > b <==> search::total_key(a)
            < search::total_key(b)),
        a >= 0x8000_0000_0000_0000 && b < 0x8000_0000_0000_0000 ==> search::total_key(a) < search::total_key(b),
        search::total_key(a) == search::total_key(b) <==> a == b,
{
}

/// An exact search ranks nearer rows before farther ones, and those without a distance last.
pub proof fn law_nearer_rows_come_first(distances: Seq<Option<u64>>, a: int, b: int, x: u64, y: u64)
    requires
        distances.len() <= usize::MAX,
        0 <= a < b < search::by_distance(distances).len(),
        distances[search::by_distance(distances)[b] as int] == Some(y),
        x < 0x8000_0000_0000_0000,
        y < 0x8000_0000_0000_0000,
    ensures
        distances[search::by_distance(distances)[a] as int] is Some,
        distances[search::by_distance(distances)[a] as int] == Some(x) ==> x <= y,
{
    search::law_nearest_rows_come_first(distances, b as nat, a, b);
}

/// A row whose column holds no vector has no distance; the others keep theirs.
pub proof fn law_only_vectors_have_a_distance(
    rows: Rows,
    column: nat,
    distances: Seq<Option<u64>>,
    i: int,
    v: Seq<u32>,
)
    requires
        0 <= i < rows.len(),
        column < rows[i].len(),
    ensures
        rows[i][column as int] == ValueView::Vector(v) ==> search::scores(rows, column, distances)[i]
            == distances[i] && search::vectors_in(rows, column)[i] == Some(v),
        !(rows[i][column as int] is Vector) ==> search::scores(rows, column, distances)[i] is None
            && search::vectors_in(rows, column)[i] is None,
{
}

// ---------------------------------------------------------------- the graph

/// A row has a node in the graph exactly if its column holds a vector of the dimension.
pub proof fn law_vectors_of_the_dimension_are_indexed(
    rows: Rows,
    row: Seq<ValueView>,
    column: nat,
    dim: nat,
    start: nat,
)
    requires
        column < row.len(),
        start + rows.len() <= usize::MAX,
    ensures
        ({
            let before = search::graph_places(rows, column, dim, start, rows.len());
            let after = search::graph_places(rows.push(row), column, dim, start, rows.len() + 1);
            &&& (row[column as int] matches ValueView::Vector(v) && v.len() == dim) ==> after == before.push(
                (start + rows.len()) as usize,
            )
            &&& (row[column as int] matches ValueView::Vector(v) && v.len() != dim) ==> after == before
            &&& !(row[column as int] is Vector) ==> after == before
        }),
{
    lemma_graph_prefix(rows, row, column, dim, start, rows.len());
}

proof fn lemma_graph_prefix(rows: Rows, row: Seq<ValueView>, column: nat, dim: nat, start: nat, n: nat)
    requires
        n <= rows.len(),
    ensures
        search::graph_places(rows.push(row), column, dim, start, n) == search::graph_places(
            rows,
            column,
            dim,
            start,
            n,
        ),
    decreases n,
{
    if n > 0 {
        lemma_graph_prefix(rows, row, column, dim, start, (n - 1) as nat);
    }
}

proof fn lemma_place(tids: Seq<Tid>, t: Tid, n: nat)
    requires
        n <= tids.len(),
        n <= usize::MAX,
    ensures
        match search::place_of(tids, t, n) {
            Some(p) => p < n && tids[p as int] == t,
            None => forall|i: int| 0 <= i < n ==> #[trigger] tids[i] != t,
        },
    decreases n,
{
    if n > 0 {
        lemma_place(tids, t, (n - 1) as nat);
    }
}

/// A cached graph is built anew if a row that it holds is gone, or differs from what it was; else it is
/// kept, and only rows that it does not hold are added.
pub proof fn law_changes_force_a_rebuild(
    cached: Seq<Tid>,
    cached_rows: Rows,
    live: Seq<Tid>,
    live_rows: Rows,
)
    requires
        cached.len() == cached_rows.len() <= usize::MAX,
        live.len() == live_rows.len(),
        forall|i: int, j: int| 0 <= i < j < cached.len() ==> cached[i] != cached[j],
    ensures
        forall|p: int|
            0 <= p < cached.len() && !live.contains(#[trigger] cached[p]) ==> search::must_rebuild(
                cached,
                cached_rows,
                live,
                live_rows,
            ),
        forall|p: int, i: int|
            #![trigger cached[p], live[i]]
            0 <= p < cached.len() && 0 <= i < live.len() && cached[p] == live[i] && !search::same_row(
                cached_rows[p],
                live_rows[i],
            ) ==> search::must_rebuild(cached, cached_rows, live, live_rows),
        (forall|p: int| 0 <= p < cached.len() ==> live.contains(#[trigger] cached[p])) && (forall|p: int, i: int|
            #![trigger cached[p], live[i]]
            0 <= p < cached.len() && 0 <= i < live.len() && cached[p] == live[i] ==> search::same_row(
                cached_rows[p],
                live_rows[i],
            )) ==> !search::must_rebuild(cached, cached_rows, live, live_rows),
{
    assert forall|p: int, i: int|
        #![trigger cached[p], live[i]]
        0 <= p < cached.len() && 0 <= i < live.len() && cached[p] == live[i] && !search::same_row(
            cached_rows[p],
            live_rows[i],
        ) implies search::must_rebuild(cached, cached_rows, live, live_rows) by {
        lemma_place(cached, live[i], cached.len());
        assert(search::changed(cached, cached_rows, live, live_rows, i));
    }
    if (forall|p: int| 0 <= p < cached.len() ==> live.contains(#[trigger] cached[p])) && (forall|p: int, i: int|
        #![trigger cached[p], live[i]]
        0 <= p < cached.len() && 0 <= i < live.len() && cached[p] == live[i] ==> search::same_row(
            cached_rows[p],
            live_rows[i],
        )) {
        assert forall|i: int| 0 <= i < live.len() implies !#[trigger] search::changed(
            cached,
            cached_rows,
            live,
            live_rows,
            i,
        ) by {
            lemma_place(cached, live[i], cached.len());
        }
    }
}

/// A row is added to the graph exactly if the graph does not hold it.
pub proof fn law_rows_not_held_are_added(cached: Seq<Tid>, live: Seq<Tid>, t: Tid)
    requires
        cached.len() <= usize::MAX,
        live.len() <= usize::MAX,
    ensures
        cached.contains(t) ==> search::added(cached, live.push(t), live.len() + 1) == search::added(
            cached,
            live,
            live.len(),
        ),
        !cached.contains(t) ==> search::added(cached, live.push(t), live.len() + 1) == search::added(
            cached,
            live,
            live.len(),
        ).push(live.len() as usize),
{
    lemma_added_prefix(cached, live, t, live.len());
    lemma_place(cached, t, cached.len());
}

proof fn lemma_added_prefix(cached: Seq<Tid>, live: Seq<Tid>, t: Tid, n: nat)
    requires
        n <= live.len(),
    ensures
        search::added(cached, live.push(t), n) == search::added(cached, live, n),
    decreases n,
{
    if n > 0 {
        lemma_added_prefix(cached, live, t, (n - 1) as nat);
    }
}

/// Floats are the same if their bits are, and as zeros of either sign; not-a-number is the same as
/// nothing.
pub proof fn law_floats_are_the_same_as_numbers(a: u64, b: u64)
    ensures
        a <= 0x7FF0_0000_0000_0000 ==> search::same_value(ValueView::Float(a), ValueView::Float(a)),
        search::same_value(ValueView::Float(0), ValueView::Float(0x8000_0000_0000_0000)),
        0x7FF0_0000_0000_0000 < a < 0x8000_0000_0000_0000 || a > 0xFFF0_0000_0000_0000
            ==> !search::same_value(ValueView::Float(a), ValueView::Float(b)),
        a != b && a != 0 && a != 0x8000_0000_0000_0000 ==> !search::same_value(
            ValueView::Float(a),
            ValueView::Float(b),
        ),
{
}

// ---------------------------------------------------------------- hits

/// Without a filter the hits are taken in the order in which they came, as many as are wanted.
pub proof fn law_hits_are_taken_in_order(
    hits: Seq<u32>,
    places: Seq<usize>,
    rows: nat,
    verdicts: Seq<ValueView>,
    k: nat,
)
    requires
        forall|i: int| 0 <= i < hits.len() ==> #[trigger] hits[i] < places.len() && places[hits[i] as int] < rows,
    ensures
        search::picked_from(hits, places, rows, false, verdicts, 0, k, 0, Seq::empty()) matches PickedView::Complete(
            out,
        ) && out.len() == (if k < hits.len() {
            k
        } else {
            hits.len()
        }) && (forall|a: int| 0 <= a < out.len() ==> #[trigger] out[a] == places[hits[a] as int]),
{
    lemma_hits_in_order(hits, places, rows, verdicts, k, 0, Seq::empty());
}

proof fn lemma_hits_in_order(
    hits: Seq<u32>,
    places: Seq<usize>,
    rows: nat,
    verdicts: Seq<ValueView>,
    k: nat,
    i: nat,
    so_far: Seq<usize>,
)
    requires
        i <= hits.len(),
        i <= k,
        so_far.len() == i,
        forall|a: int| 0 <= a < i ==> #[trigger] so_far[a] == places[hits[a] as int],
        forall|i: int| 0 <= i < hits.len() ==> #[trigger] hits[i] < places.len() && places[hits[i] as int] < rows,
    ensures
        search::picked_from(hits, places, rows, false, verdicts, 0, k, i, so_far) matches PickedView::Complete(
            out,
        ) && out.len() == (if k < hits.len() {
            k
        } else {
            hits.len()
        }) && (forall|a: int| 0 <= a < out.len() ==> #[trigger] out[a] == places[hits[a] as int]),
    decreases hits.len() - i,
{
    if i < hits.len() && i < k {
        let hit = hits[i as int];
        lemma_hits_in_order(hits, places, rows, verdicts, k, i + 1, so_far.push(places[hit as int]));
    }
}

/// With a filter a hit is judged before it is taken: it counts if the verdict is true and is passed over
/// if it is anything else.
pub proof fn law_judged_hits_count_if_they_pass(
    hits: Seq<u32>,
    places: Seq<usize>,
    rows: nat,
    verdicts: Seq<ValueView>,
    used: nat,
    k: nat,
    i: nat,
    out: Seq<usize>,
)
    requires
        i < hits.len(),
        out.len() < k,
        hits[i as int] < places.len(),
        places[hits[i as int] as int] < rows,
    ensures
        ({
            let place = places[hits[i as int] as int];
            let all = search::picked_from(hits, places, rows, true, verdicts, used, k, i, out);
            &&& used >= verdicts.len() ==> all == PickedView::Needs(place)
            &&& used < verdicts.len() && verdicts[used as int] == ValueView::Bool(true) ==> all
                == search::picked_from(
                hits,
                places,
                rows,
                true,
                verdicts,
                used + 1,
                k,
                i + 1,
                out.push(place),
            )
            &&& used < verdicts.len() && verdicts[used as int] != ValueView::Bool(true) ==> all
                == search::picked_from(hits, places, rows, true, verdicts, used + 1, k, i + 1, out)
        }),
{
}

// ---------------------------------------------------------------- the width of a search

/// A search looks at no fewer candidates than are wanted: at 64 without a setting, or with one that is no
/// number above zero, and else at as many as the setting says.
pub proof fn law_searches_are_wide_enough(k: usize, setting: Seq<char>, n: nat)
    requires
        vector::spelled_number(text::trim(setting)) == Some(n),
        n <= usize::MAX,
    ensures
        k <= 64 ==> vector::beam_width(k, None) == 64,
        k > 64 ==> vector::beam_width(k, None) == k,
        n == 0 ==> vector::beam_width(k, Some(setting)) == vector::beam_width(k, None),
        n > 0 && k <= n ==> vector::beam_width(k, Some(setting)) == n,
        n > 0 && k > n ==> vector::beam_width(k, Some(setting)) == k,
{
}

/// A setting is a number if it consists of digits; another character makes it none.
pub proof fn law_settings_are_spelled_in_digits(s: Seq<char>, n: nat, c: char)
    requires
        vector::spelled_number(s) == Some(n),
        s.len() > 0,
    ensures
        '0' <= c <= '9' ==> vector::spelled_number(s.push(c)) == Some((10 * n + (c as nat - 48)) as nat),
        !('0' <= c <= '9') ==> vector::spelled_number(s.push(c)) is None,
        vector::spelled_number(Seq::empty()) is None,
{
    let digits = if s[0] == '+' {
        s.skip(1)
    } else {
        s
    };
    let more = digits.push(c);
    lemma_digit_count_push(digits, c);
    memory::meaning::law_digits_are_read_from_the_left(digits, '0');
    if s[0] == '+' {
        assert(s.push(c).skip(1) =~= more);
    }
    assert(more.drop_last() =~= digits);
    if '0' <= c <= '9' {
        memory::meaning::law_digits_are_read_from_the_left(digits, c);
    }
}

proof fn lemma_digit_count_push(s: Seq<char>, c: char)
    requires
        memory::digit_count(s) == s.len(),
    ensures
        memory::digit_count(s.push(c)) == s.len() + if '0' <= c <= '9' {
            1nat
        } else {
            0nat
        },
    decreases s.len(),
{
    if s.len() > 0 {
        assert(s.push(c).skip(1) =~= s.skip(1).push(c));
        lemma_digit_count_push(s.skip(1), c);
    } else {
        assert(memory::digit_count(s.push(c).skip(1)) == 0);
    }
}

/// With a filter a search fetches eight times as many candidates as are wanted.
pub proof fn law_filters_fetch_more(q: KnnQuery)
    requires
        q.k * 8 <= usize::MAX,
    ensures
        q.filtered ==> search::candidates(q) == 8 * q.k,
        !q.filtered ==> search::candidates(q) == q.k,
{
}

// ---------------------------------------------------------------- the course of a search

/// Without a query, or for no rows, a search gives nothing. Else it asks for an index first, and searches
/// exactly where there is none or one of another dimension.
pub proof fn law_searches_without_an_index_are_exact(
    q: KnnQuery,
    setting: Option<Seq<char>>,
    dim: usize,
    answers: Seq<KnnAnswerView>,
)
    ensures
        q.query is None || q.k == 0 ==> search::knn_step(q, setting, answers) == KnnStepView::Done(Seq::empty()),
        q.query is Some && q.k > 0 ==> search::knn_step(q, setting, Seq::empty()) == KnnStepView::Ask(
            KnnAsk::Index,
        ),
        q.query is Some && q.k > 0 ==> search::knn_step(q, setting, seq![KnnAnswerView::Index(None)])
            == KnnStepView::Ask(KnnAsk::Exact),
        (q.query matches Some(d) && d != dim) && q.k > 0 ==> search::knn_step(
            q,
            setting,
            seq![KnnAnswerView::Index(Some(dim))],
        ) == KnnStepView::Ask(KnnAsk::Exact),
        q.query == Some(dim) && q.k > 0 ==> search::knn_step(
            q,
            setting,
            seq![KnnAnswerView::Index(Some(dim))],
        ) == KnnStepView::Ask(KnnAsk::Signature),
{
}

/// An exact search judges the rows if there is a filter, and has those that pass scored.
pub proof fn law_exact_searches_judge_first(
    q: KnnQuery,
    setting: Option<Seq<char>>,
    rows: Rows,
    vs: Seq<ValueView>,
    ds: Seq<Option<u64>>,
)
    requires
        q.query is Some,
        q.k > 0,
        vs.len() == rows.len(),
        ds.len() == rows.len(),
    ensures
        ({
            let begun = seq![KnnAnswerView::Index(None), KnnAnswerView::Rows(rows)];
            let passing = operators::kept(rows, vs, rows.len());
            &&& q.filtered ==> search::knn_step(q, setting, begun) == KnnStepView::Judge(rows)
            &&& q.filtered ==> search::knn_step(q, setting, begun.push(KnnAnswerView::Verdicts(vs)))
                == KnnStepView::Score(search::vectors_in(passing, q.column as nat))
            &&& !q.filtered ==> search::knn_step(q, setting, begun) == KnnStepView::Score(
                search::vectors_in(rows, q.column as nat),
            )
            &&& !q.filtered ==> search::knn_step(q, setting, begun.push(KnnAnswerView::Distances(ds)))
                == KnnStepView::Done(search::nearest(q, rows, ds))
        }),
{
}

/// A cached graph of the present signature is searched. One of another signature is looked at again under
/// the lock and maintained; where there is none, a stored one is loaded, or else one is built.
pub proof fn law_graphs_are_brought_up_to_date(
    q: KnnQuery,
    setting: Option<Seq<char>>,
    signature: u64,
    other: u64,
)
    requires
        q.query is Some,
        q.k > 0,
        other != signature,
    ensures
        ({
            let begun = seq![KnnAnswerView::Index(q.query), KnnAnswerView::Signature(signature)];
            let searching = KnnStepView::Ask(
                KnnAsk::Search {
                    want: search::candidates(q),
                    beam: vector::beam_width(search::candidates(q), setting),
                },
            );
            let stale = begun.push(KnnAnswerView::Cached(Some(other)));
            let missing = begun.push(KnnAnswerView::Cached(None)).push(KnnAnswerView::Cached(None));
            let unloaded = missing.push(KnnAnswerView::Loaded(false));
            &&& search::knn_step(q, setting, begun) == KnnStepView::Ask(KnnAsk::Cached)
            &&& search::knn_step(q, setting, begun.push(KnnAnswerView::Cached(Some(signature)))) == searching
            &&& search::knn_step(q, setting, stale) == KnnStepView::Ask(KnnAsk::CachedLocked)
            &&& search::knn_step(q, setting, stale.push(KnnAnswerView::Cached(Some(signature)))) == searching
            &&& search::knn_step(q, setting, stale.push(KnnAnswerView::Cached(Some(other))))
                == KnnStepView::Ask(KnnAsk::Maintain { signature })
            &&& search::knn_step(q, setting, missing) == KnnStepView::Ask(KnnAsk::Load { signature })
            &&& search::knn_step(q, setting, missing.push(KnnAnswerView::Loaded(true))) == searching
            &&& search::knn_step(q, setting, unloaded) == KnnStepView::Ask(KnnAsk::Build { signature })
            &&& search::knn_step(q, setting, unloaded.push(KnnAnswerView::Ready)) == searching
        }),
{
}

// ---------------------------------------------------------------- stored graphs

/// A stored graph is cut into chunks of 6000 bytes, of which only the last may be shorter.
pub proof fn law_chunks_have_6000_bytes(blob: Seq<u8>, i: int, j: int)
    requires
        0 <= i < vector::chunk_count(blob),
    ensures
        i + 1 < vector::chunk_count(blob) ==> vector::chunk_at(blob, i).len() == 6000,
        0 < vector::chunk_at(blob, i).len() <= 6000,
        0 <= j < vector::chunk_at(blob, i).len() ==> vector::chunk_at(blob, i)[j] == blob[6000 * i + j],
{
    assert(vector::chunk_count(blob) == (blob.len() + 5999) / 6000);
    assert(6000 * i < blob.len());
}

} // verus!
