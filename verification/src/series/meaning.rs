//! What the set-returning functions give.
use vstd::prelude::*;
use crate::series;
use crate::series::{SetError, SetFunc, SetOutcome, TaskView, TemporalView, MAX_SERIES_ROWS};
use crate::value::{Interval, ValueView};

verus! {

// ---------------------------------------------------------------- integer series

/// The arguments of an integer series; without a step it goes up by one.
pub open spec fn series_args(start: i64, stop: i64, step: i64, with_step: bool) -> Seq<ValueView> {
    if with_step {
        seq![ValueView::Int(start), ValueView::Int(stop), ValueView::Int(step)]
    } else {
        seq![ValueView::Int(start), ValueView::Int(stop)]
    }
}

/// A series of integers is refused for a step of zero, and for more than ten million rows. Else it holds
/// `start`, `start + step`, `start + 2 * step`, and so on: every one is on the near side of `stop`,
/// inclusively, and the next one would lie beyond it.
pub proof fn law_integer_series_runs_up_to_stop(start: i64, stop: i64, step: i64, with_step: bool)
    requires
        !with_step ==> step == 1,
    ensures
        match series::set_outcome(SetFunc::GenerateSeries, series_args(start, stop, step, with_step)) {
            SetOutcome::Elements(vs) => {
                &&& step != 0
                &&& vs.len() <= 10_000_000
                &&& forall|i: int|
                    0 <= i < vs.len() ==> #[trigger] vs[i] is Int && vs[i]->Int_0 == start + i * step
                &&& step > 0 ==> forall|i: int| 0 <= i < vs.len() ==> (#[trigger] vs[i])->Int_0 <= stop
                &&& step < 0 ==> forall|i: int| 0 <= i < vs.len() ==> (#[trigger] vs[i])->Int_0 >= stop
                &&& step > 0 ==> start + vs.len() * step > stop
                &&& step < 0 ==> start + vs.len() * step < stop
            },
            SetOutcome::Refused(SetError::ZeroStep) => step == 0,
            SetOutcome::Refused(SetError::SeriesLimit) => {
                &&& step > 0 ==> start + 10_000_000 * step <= stop
                &&& step < 0 ==> start + 10_000_000 * step >= stop
                &&& step != 0
            },
            _ => false,
        },
{
    if step != 0 {
        let n = series::series_len(start, stop, step);
        series::law_series_ends_at_stop(start, stop, step, n);
        if n > MAX_SERIES_ROWS {
            series::law_series_ends_at_stop(start, stop, step, MAX_SERIES_ROWS as nat);
        } else {
            let vs = series::series_values(start, step, n);
            assert forall|i: int| 0 <= i < vs.len() implies #[trigger] vs[i] is Int && vs[i]->Int_0 == start
                + i * step && (step > 0 ==> vs[i]->Int_0 <= stop) && (step < 0 ==> vs[i]->Int_0
                >= stop) by {
                series::law_series_ends_at_stop(start, stop, step, i as nat);
            }
        }
    }
}

// ---------------------------------------------------------------- temporal series

/// A temporal series that is complete starts with `start` and goes on with the steps, each strictly
/// further. Every value is on the near side of `stop`, inclusively. The one after the last has strictly
/// passed `stop`, or its step did not advance.
pub proof fn law_temporal_series_runs_up_to_stop(start: i64, stop: i64, nexts: Seq<i64>)
    ensures
        series::temporal_series(start, stop, nexts) matches TemporalView::Complete(ts) ==> {
            let n = ts.len() as int;
            &&& 0 < nexts.len()
            &&& nexts[0] != start
            &&& n <= nexts.len()
            &&& n <= 10_000_000
            &&& 0 < n ==> ts[0] == start
            &&& forall|i: int| 0 < i < n ==> #[trigger] ts[i] == nexts[i - 1]
            &&& nexts[0] > start ==> {
                &&& forall|i: int| 0 <= i < n ==> #[trigger] ts[i] <= stop
                &&& forall|i: int| 0 < i < n ==> nexts[i - 1] > #[trigger] ts[i - 1]
                &&& n == 0 ==> start > stop
                &&& n > 0 ==> nexts[n - 1] > stop || nexts[n - 1] <= ts[n - 1]
            }
            &&& nexts[0] < start ==> {
                &&& forall|i: int| 0 <= i < n ==> #[trigger] ts[i] >= stop
                &&& forall|i: int| 0 < i < n ==> nexts[i - 1] < #[trigger] ts[i - 1]
                &&& n == 0 ==> start < stop
                &&& n > 0 ==> nexts[n - 1] < stop || nexts[n - 1] >= ts[n - 1]
            }
        },
{
    if nexts.len() > 0 && nexts[0] != start {
        lemma_temporal(Seq::empty(), start, start, stop, nexts[0] > start, nexts);
    }
}

/// A further step of a temporal series is asked for exactly from the last value known, while that is on
/// the near side of `stop` and every step so far has advanced. A first step that leads nowhere is
/// refused, and so is a series of more than ten million rows.
pub proof fn law_temporal_series_asks_for_its_next_step(start: i64, stop: i64, nexts: Seq<i64>)
    ensures
        nexts.len() == 0 ==> series::temporal_series(start, stop, nexts) == TemporalView::Needs(start),
        nexts.len() > 0 && nexts[0] == start <==> series::temporal_series(start, stop, nexts)
            == TemporalView::Refused(SetError::ZeroStep),
        series::temporal_series(start, stop, nexts) matches TemporalView::Needs(t) ==> nexts.len() > 0 ==> {
            &&& t == nexts.last()
            &&& nexts[0] > start ==> t <= stop
            &&& nexts[0] < start ==> t >= stop
            &&& nexts[0] > start ==> forall|i: int| 0 < i < nexts.len() ==> nexts[i - 1] < #[trigger] nexts[i]
            &&& nexts[0] < start ==> forall|i: int| 0 < i < nexts.len() ==> nexts[i - 1] > #[trigger] nexts[i]
        },
        series::temporal_series(start, stop, nexts) matches TemporalView::Refused(e) ==> e
            != SetError::ZeroStep ==> {
            &&& e == SetError::SeriesLimit
            &&& nexts.len() >= 10_000_000
            &&& nexts[0] > start ==> nexts[9_999_999] <= stop
            &&& nexts[0] < start ==> nexts[9_999_999] >= stop
        },
{
    if nexts.len() > 0 && nexts[0] != start {
        lemma_temporal(Seq::empty(), start, start, stop, nexts[0] > start, nexts);
    }
}

/// The values `done`, followed by `cur`, are the series from `start` so far.
spec fn walked(done: Seq<i64>, cur: i64, start: i64, stop: i64, forward: bool, nexts: Seq<i64>) -> bool {
    &&& done.len() <= nexts.len()
    &&& done.len() <= MAX_SERIES_ROWS
    &&& done.push(cur)[0] == start
    &&& forall|i: int| 0 < i <= done.len() ==> #[trigger] done.push(cur)[i] == nexts[i - 1]
    &&& forall|i: int|
        0 <= i < done.len() ==> if forward {
            #[trigger] done[i] <= stop && nexts[i] > done[i]
        } else {
            done[i] >= stop && nexts[i] < done[i]
        }
}

proof fn lemma_temporal(done: Seq<i64>, cur: i64, start: i64, stop: i64, forward: bool, nexts: Seq<i64>)
    requires
        nexts.len() > 0,
        walked(done, cur, start, stop, forward, nexts),
    ensures
        match series::temporal_from(done, cur, stop, forward, nexts) {
            TemporalView::Complete(ts) => {
                let n = ts.len() as int;
                &&& n <= nexts.len()
                &&& n <= MAX_SERIES_ROWS
                &&& 0 < n ==> ts[0] == start
                &&& forall|i: int| 0 < i < n ==> #[trigger] ts[i] == nexts[i - 1]
                &&& forall|i: int|
                    0 <= i < n ==> if forward {
                        #[trigger] ts[i] <= stop
                    } else {
                        ts[i] >= stop
                    }
                &&& forall|i: int|
                    0 <= i < n - 1 ==> if forward {
                        nexts[i] > #[trigger] ts[i]
                    } else {
                        nexts[i] < ts[i]
                    }
                &&& n == 0 ==> if forward {
                    start > stop
                } else {
                    start < stop
                }
                &&& n > 0 ==> if forward {
                    nexts[n - 1] > stop || nexts[n - 1] <= ts[n - 1]
                } else {
                    nexts[n - 1] < stop || nexts[n - 1] >= ts[n - 1]
                }
            },
            TemporalView::Needs(t) => {
                &&& t == nexts.last()
                &&& if forward {
                    t <= stop
                } else {
                    t >= stop
                }
                &&& forall|i: int|
                    0 < i < nexts.len() ==> if forward {
                        nexts[i - 1] < #[trigger] nexts[i]
                    } else {
                        nexts[i - 1] > nexts[i]
                    }
            },
            TemporalView::Refused(e) => {
                &&& e == SetError::SeriesLimit
                &&& nexts.len() >= MAX_SERIES_ROWS
                &&& if forward {
                    nexts[MAX_SERIES_ROWS - 1] <= stop
                } else {
                    nexts[MAX_SERIES_ROWS - 1] >= stop
                }
            },
        },
    decreases nexts.len() - done.len(),
{
    let n = done.len() as int;
    assert(done.push(cur)[n] == cur);
    if n > 0 {
        assert(cur == nexts[n - 1]);
        assert(done[n - 1] == done.push(cur)[n - 1]);
    }
    assert forall|i: int| 0 < i < n implies #[trigger] done[i] == nexts[i - 1] by {
        assert(done.push(cur)[i] == nexts[i - 1]);
    }
    let inside = if forward {
        cur <= stop
    } else {
        cur >= stop
    };
    if !inside {
        if n > 0 {
            assert(done[0] == done.push(cur)[0]);
        }
    } else if n < MAX_SERIES_ROWS {
        if n >= nexts.len() {
            assert forall|i: int| 0 < i < nexts.len() implies if forward {
                nexts[i - 1] < #[trigger] nexts[i]
            } else {
                nexts[i - 1] > nexts[i]
            } by {
                assert(done[i] == nexts[i - 1]);
            }
        } else {
            let next = nexts[n];
            let more = done.push(cur);
            if (forward && next <= cur) || (!forward && next >= cur) {
                assert forall|i: int| 0 <= i < n implies #[trigger] more[i] == done[i] by {}
            } else {
                assert(more.push(next)[0] == start);
                assert forall|i: int| 0 < i <= more.len() implies #[trigger] more.push(next)[i] == nexts[i
                    - 1] by {
                    if i <= n {
                        assert(more.push(next)[i] == done.push(cur)[i]);
                    }
                }
                assert forall|i: int| 0 <= i < more.len() implies if forward {
                    #[trigger] more[i] <= stop && nexts[i] > more[i]
                } else {
                    more[i] >= stop && nexts[i] < more[i]
                } by {
                    if i < n {
                        assert(more[i] == done[i]);
                    }
                }
                lemma_temporal(more, next, start, stop, forward, nexts);
            }
        }
    }
}

/// The values of a temporal series are timestamps, with a time zone where the start has one.
pub proof fn law_temporal_values_are_timestamps(t: i64)
    ensures
        series::timestamp(t, true) == ValueView::TimestampTz(t),
        series::timestamp(t, false) == ValueView::Timestamp(t),
{
}

/// A series from one time to another with an interval as its step is asked of the calendar: a date stands
/// for its midnight, and the values have a time zone exactly where the start has.
pub proof fn law_temporal_arguments_are_times(a: ValueView, b: ValueView, step: Interval)
    ensures
        ({
            let found = series::set_outcome(
                SetFunc::GenerateSeries,
                seq![a, b, ValueView::Interval(step)],
            );
            &&& (a matches ValueView::Timestamp(x) && b matches ValueView::Timestamp(y)) ==> found
                == SetOutcome::Ask(TaskView::Temporal(a->Timestamp_0, b->Timestamp_0, step, false))
            &&& (a matches ValueView::TimestampTz(x) && b matches ValueView::TimestampTz(y)) ==> found
                == SetOutcome::Ask(TaskView::Temporal(a->TimestampTz_0, b->TimestampTz_0, step, true))
            &&& (a is Date && b is Date && -100_000_000 <= a->Date_0 <= 100_000_000 && -100_000_000
                <= b->Date_0 <= 100_000_000) ==> found == SetOutcome::Ask(
                TaskView::Temporal(
                    (a->Date_0 * 86_400_000_000) as i64,
                    (b->Date_0 * 86_400_000_000) as i64,
                    step,
                    false,
                ),
            )
            &&& (a is Null || b is Null || a is Int || b is Int) ==> found == SetOutcome::Elements(
                Seq::empty(),
            )
        }),
{
}

// ---------------------------------------------------------------- unnesting

/// Unnesting an array that holds no arrays gives its elements, in order.
pub proof fn law_unnesting_gives_the_elements(items: Seq<ValueView>)
    requires
        forall|i: int| 0 <= i < items.len() ==> !(#[trigger] items[i] is Array),
    ensures
        series::unnested(ValueView::Array(items)) == items,
{
    lemma_flat(items, items.len());
    assert(items.take(items.len() as int) =~= items);
}

proof fn lemma_flat(items: Seq<ValueView>, n: nat)
    requires
        n <= items.len(),
        forall|i: int| 0 <= i < items.len() ==> !(#[trigger] items[i] is Array),
    ensures
        series::leaves_of(items, n) == items.take(n as int),
    decreases n,
{
    if n > 0 {
        lemma_flat(items, (n - 1) as nat);
        assert(!(items[n - 1] is Array));
        assert(series::leaves(items[n - 1]) == seq![items[n - 1]]);
        assert(items.take(n as int) =~= items.take(n - 1) + seq![items[n - 1]]);
    } else {
        assert(items.take(0) =~= Seq::empty());
    }
}

/// An array within an array is unnested where it stands, and what is no array has no elements.
pub proof fn law_inner_arrays_are_unnested_in_place(items: Seq<ValueView>, v: ValueView)
    ensures
        series::unnested(ValueView::Array(items.push(v))) == series::unnested(ValueView::Array(items))
            + if v is Array {
            series::unnested(v)
        } else {
            seq![v]
        },
        !(v is Array) ==> series::unnested(v) == Seq::<ValueView>::empty(),
{
    let all = items.push(v);
    lemma_leaves_of_prefix(items, all, items.len());
    assert(series::leaves_of(all, all.len()) == series::leaves_of(all, items.len()) + series::leaves(v));
}

proof fn lemma_leaves_of_prefix(a: Seq<ValueView>, b: Seq<ValueView>, n: nat)
    requires
        n <= a.len() <= b.len(),
        forall|i: int| 0 <= i < a.len() ==> a[i] == b[i],
    ensures
        series::leaves_of(a, n) == series::leaves_of(b, n),
    decreases n,
{
    if n > 0 {
        lemma_leaves_of_prefix(a, b, (n - 1) as nat);
        assert(a[n - 1] == b[n - 1]);
    }
}

/// Columns that are unnested side by side get the length of the longest one, and no more.
pub proof fn law_columns_get_the_length_of_the_longest(columns: Seq<Seq<ValueView>>)
    ensures
        ({
            let n = series::longest(columns, columns.len());
            &&& forall|i: int| 0 <= i < columns.len() ==> (#[trigger] columns[i]).len() <= n
            &&& n == 0 || exists|i: int| 0 <= i < columns.len() && (#[trigger] columns[i]).len() == n
        }),
{
    lemma_longest(columns, columns.len());
}

proof fn lemma_longest(columns: Seq<Seq<ValueView>>, k: nat)
    requires
        k <= columns.len(),
    ensures
        ({
            let n = series::longest(columns, k);
            &&& forall|i: int| 0 <= i < k ==> (#[trigger] columns[i]).len() <= n
            &&& n == 0 || exists|i: int| 0 <= i < k && (#[trigger] columns[i]).len() == n
        }),
    decreases k,
{
    if k > 0 {
        lemma_longest(columns, (k - 1) as nat);
        if columns[k - 1].len() > series::longest(columns, (k - 1) as nat) {
            assert(columns[k - 1].len() == series::longest(columns, k));
        } else if series::longest(columns, k) != 0 {
            let i = choose|i: int|
                0 <= i < k - 1 && (#[trigger] columns[i]).len() == series::longest(columns, (k - 1) as nat);
            assert(columns[i].len() == series::longest(columns, k));
        }
    }
}

/// A column that is made longer keeps its values and ends in NULLs.
pub proof fn law_short_columns_end_in_nulls(column: Seq<ValueView>, n: nat)
    requires
        column.len() <= n,
    ensures
        series::padded(column, n).len() == n,
        series::padded(column, n).take(column.len() as int) == column,
        forall|i: int| column.len() <= i < n ==> #[trigger] series::padded(column, n)[i] is Null,
{
    assert(series::padded(column, n).take(column.len() as int) =~= column);
}

// ---------------------------------------------------------------- documents and patterns

/// The functions on documents and patterns are asked with their own arguments, flags being empty where
/// none are given; with an argument that is missing or NULL they give no rows.
pub proof fn law_functions_are_asked_with_their_arguments(d: Seq<char>, s: Seq<char>, p: Seq<char>, f: Seq<char>)
    ensures
        ({
            let json = ValueView::Json(d);
            let text = ValueView::Text(s);
            let other = ValueView::Text(p);
            let flags = ValueView::Text(f);
            &&& series::set_outcome(SetFunc::JsonArrayElements, seq![json]) == SetOutcome::Ask(
                TaskView::JsonElements(d),
            )
            &&& series::set_outcome(SetFunc::JsonArrayElementsText, seq![json]) == SetOutcome::Ask(
                TaskView::JsonElementsText(d),
            )
            &&& series::set_outcome(SetFunc::JsonObjectKeys, seq![json]) == SetOutcome::Ask(
                TaskView::JsonKeys(d),
            )
            &&& series::set_outcome(SetFunc::JsonPathQuery, seq![json, other]) == SetOutcome::Ask(
                TaskView::JsonPath(d, p),
            )
            &&& series::set_outcome(SetFunc::StringToTable, seq![text, other]) == SetOutcome::Ask(
                TaskView::Split(s, p),
            )
            &&& series::set_outcome(SetFunc::RegexpSplitToTable, seq![text, other]) == SetOutcome::Ask(
                TaskView::SplitPattern(s, p, Seq::empty()),
            )
            &&& series::set_outcome(SetFunc::RegexpSplitToTable, seq![text, other, flags])
                == SetOutcome::Ask(TaskView::SplitPattern(s, p, f))
            &&& series::set_outcome(SetFunc::RegexpMatches, seq![text, other]) == SetOutcome::Ask(
                TaskView::MatchPattern(s, p, Seq::empty()),
            )
            &&& series::set_outcome(SetFunc::RegexpMatches, seq![text, other, flags])
                == SetOutcome::Ask(TaskView::MatchPattern(s, p, f))
            &&& series::pair_outcome(SetFunc::JsonEach, seq![json]) == SetOutcome::Ask(
                TaskView::JsonMembers(d),
            )
            &&& series::pair_outcome(SetFunc::JsonEachText, seq![json]) == SetOutcome::Ask(
                TaskView::JsonMembersText(d),
            )
        }),
{
}

/// A set-returning function of a NULL, or of nothing, gives no rows; a pair function gives none either,
/// and is refused as a single column.
pub proof fn law_nothing_comes_of_null(func: SetFunc, rest: Seq<ValueView>)
    ensures
        !(func is JsonEach) && !(func is JsonEachText) ==> series::set_outcome(
            func,
            seq![ValueView::Null] + rest,
        ) == SetOutcome::Elements(Seq::empty()),
        !(func is JsonEach) && !(func is JsonEachText) ==> series::set_outcome(func, Seq::empty())
            == SetOutcome::Elements(Seq::empty()),
        series::pair_outcome(func, seq![ValueView::Null] + rest) == SetOutcome::Elements(Seq::empty()),
        func is JsonEach || func is JsonEachText ==> series::set_outcome(func, rest)
            == SetOutcome::Refused(SetError::GivesPairs),
{
    assert((seq![ValueView::Null] + rest)[0] is Null);
}

/// What was found as text is a text, what was found in a document is a document, and a missing element is
/// NULL.
pub proof fn law_elements_keep_what_was_found(s: Seq<char>)
    ensures
        series::element(series::ElementKind::Json, Some(s)) == ValueView::Json(s),
        series::element(series::ElementKind::Text, Some(s)) == ValueView::Text(s),
        series::element(series::ElementKind::Json, None) is Null,
        series::element(series::ElementKind::Text, None) is Null,
{
}

} // verus!
