//! Set-returning functions: series, unnesting, and what is asked of the document and pattern
//! functions.
use vstd::prelude::*;
use crate::value;
use crate::value::{Interval, Value, ValueView};
use crate::window;

pub mod meaning;

verus! {

/// The most rows that a series may have.
pub const MAX_SERIES_ROWS: usize = 10_000_000;

/// Why a set-returning function was refused.
#[derive(Clone, Copy, Debug, PartialEq, Eq, Structural)]
pub enum SetError {
    /// The step of a series leads nowhere.
    ZeroStep,
    /// A series of more rows than a series may have.
    SeriesLimit,
    /// The function gives pairs, and cannot be expanded as a single column.
    GivesPairs,
    /// The function does not give pairs.
    GivesNoPairs,
    /// The document has no members: it is no object.
    NotAnObject,
}

// ---------------------------------------------------------------- integer series

/// Whether `v` has not passed the end of a series.
pub open spec fn in_series(v: int, stop: i64, step: i64) -> bool {
    if step > 0 {
        v <= stop
    } else {
        v >= stop
    }
}

/// How many values `start`, `start + step`, and so on have not passed `stop`.
pub open spec fn series_len(start: i64, stop: i64, step: i64) -> nat {
    if !in_series(start as int, stop, step) {
        0
    } else if step > 0 {
        ((stop - start) / step as int + 1) as nat
    } else {
        ((start - stop) / (-step) + 1) as nat
    }
}

/// The `i`-th value of a series.
pub open spec fn series_at(start: i64, step: i64, i: nat) -> int {
    start + i * step
}

/// The first `n` values of a series, as SQL values.
pub open spec fn series_values(start: i64, step: i64, n: nat) -> Seq<ValueView> {
    Seq::new(n, |i: int| ValueView::Int(series_at(start, step, i as nat) as i64))
}

/// A series holds exactly the values that have not passed its end.
pub proof fn law_series_ends_at_stop(start: i64, stop: i64, step: i64, i: nat)
    requires
        step != 0,
    ensures
        i < series_len(start, stop, step) <==> in_series(series_at(start, step, i), stop, step),
        i < series_len(start, stop, step) ==> i64::MIN <= series_at(start, step, i) <= i64::MAX,
{
    if step > 0 {
        let d = stop - start;
        if d >= 0 {
            vstd::arithmetic::div_mod::lemma_fundamental_div_mod(d, step as int);
            vstd::arithmetic::div_mod::lemma_mod_bound(d, step as int);
            let q = d / step as int;
            assert(i <= q <==> i * step <= d) by (nonlinear_arith)
                requires
                    d == step * q + d % (step as int),
                    0 <= d % (step as int) < step,
                    step > 0,
            ;
        } else {
            assert(i * step >= 0) by (nonlinear_arith)
                requires
                    step > 0,
            ;
        }
        assert(i * step >= 0) by (nonlinear_arith)
            requires
                step > 0,
        ;
    } else {
        let d = start - stop;
        let s = -step;
        assert(i * step == -(i * s)) by (nonlinear_arith)
            requires
                s == -step,
        ;
        assert(i * s >= 0) by (nonlinear_arith)
            requires
                s > 0,
        ;
        if d >= 0 {
            vstd::arithmetic::div_mod::lemma_fundamental_div_mod(d, s as int);
            vstd::arithmetic::div_mod::lemma_mod_bound(d, s as int);
            let q = d / s as int;
            assert(i <= q <==> i * s <= d) by (nonlinear_arith)
                requires
                    d == s * q + d % (s as int),
                    0 <= d % (s as int) < s,
                    s > 0,
            ;
        }
    }
}

/// A series that is read one value at a time.
pub struct SeriesSource {
    next: Option<i64>,
    stop: i64,
    step: i64,
    emitted: usize,
}

impl SeriesSource {
    /// The next value, if there may be one.
    pub closed spec fn upcoming(&self) -> Option<i64> {
        self.next
    }

    pub closed spec fn last(&self) -> i64 {
        self.stop
    }

    pub closed spec fn stride(&self) -> i64 {
        self.step
    }

    /// How many values have been given.
    pub closed spec fn given(&self) -> usize {
        self.emitted
    }

    /// The source stands at the `i`-th value of the series from `start`.
    pub open spec fn stands_at(&self, start: i64, i: nat) -> bool {
        &&& self.given() == i
        &&& match self.upcoming() {
            Some(v) => v == series_at(start, self.stride(), i),
            None => i >= series_len(start, self.last(), self.stride()),
        }
    }

    /// Start a series.
    pub fn new(start: i64, stop: i64, step: i64) -> (r: SeriesSource)
        ensures
            r.upcoming() == Some(start),
            r.last() == stop,
            r.stride() == step,
            r.given() == 0,
    {
        SeriesSource { next: Some(start), stop, step, emitted: 0 }
    }

    /// The next value; `None` at the end. A series that goes on after the most rows that a series may
    /// have is refused.
    pub fn try_next(&mut self) -> (r: Result<Option<i64>, SetError>)
        requires
            old(self).given() <= MAX_SERIES_ROWS,
        ensures
            final(self).last() == old(self).last(),
            final(self).stride() == old(self).stride(),
            match old(self).upcoming() {
                Some(v) => if !in_series(v as int, old(self).last(), old(self).stride()) {
                    r == Ok::<Option<i64>, SetError>(None) && final(self).upcoming() is None
                        && final(self).given() == old(self).given()
                } else if old(self).given() >= MAX_SERIES_ROWS {
                    r == Err::<Option<i64>, SetError>(SetError::SeriesLimit) && *final(self) == *old(
                        self,
                    )
                } else {
                    &&& r == Ok::<Option<i64>, SetError>(Some(v))
                    &&& final(self).given() == old(self).given() + 1
                    &&& final(self).upcoming() == if i64::MIN <= v + old(self).stride() <= i64::MAX {
                        Some((v + old(self).stride()) as i64)
                    } else {
                        None
                    }
                },
                None => r == Ok::<Option<i64>, SetError>(None) && *final(self) == *old(self),
            },
    {
        match self.next {
            None => Ok(None),
            Some(cur) => {
                let inside: bool = if self.step > 0 {
                    cur <= self.stop
                } else {
                    cur >= self.stop
                };
                if !inside {
                    self.next = None;
                    return Ok(None);
                }
                if self.emitted >= MAX_SERIES_ROWS {
                    return Err(SetError::SeriesLimit);
                }
                self.emitted += 1;
                self.next = cur.checked_add(self.step);
                Ok(Some(cur))
            },
        }
    }
}

/// The values of a series, up to the most rows that a series may have, and whether it goes on.
pub fn pull_series(start: i64, stop: i64, step: i64) -> (r: (Vec<Value>, bool))
    requires
        step != 0,
    ensures
        ({
            let n = series_len(start, stop, step);
            &&& r.0.deep_view() == series_values(
                start,
                step,
                if n > MAX_SERIES_ROWS {
                    MAX_SERIES_ROWS as nat
                } else {
                    n
                },
            )
            &&& r.1 == (n > MAX_SERIES_ROWS)
        }),
{
    let mut source = SeriesSource::new(start, stop, step);
    let mut out: Vec<Value> = Vec::new();
    let ghost n = series_len(start, stop, step);
    let mut more: bool = false;
    proof {
        law_series_ends_at_stop(start, stop, step, 0);
    }
    assert(series_at(start, step, 0) == start) by (nonlinear_arith);
    loop
        invariant_except_break
            !more,
        invariant
            step != 0,
            n == series_len(start, stop, step),
            source.last() == stop,
            source.stride() == step,
            source.stands_at(start, out@.len()),
            out@.len() <= MAX_SERIES_ROWS,
            out@.len() <= n,
            forall|k: int|
                0 <= k < out@.len() ==> (#[trigger] out@[k])@ == ValueView::Int(
                    series_at(start, step, k as nat) as i64,
                ),
        ensures
            more == (n > MAX_SERIES_ROWS),
            out@.len() == if n > MAX_SERIES_ROWS {
                MAX_SERIES_ROWS as nat
            } else {
                n
            },
            forall|k: int|
                0 <= k < out@.len() ==> (#[trigger] out@[k])@ == ValueView::Int(
                    series_at(start, step, k as nat) as i64,
                ),
        decreases n - out@.len() + 1,
    {
        let ghost i = out@.len();
        proof {
            law_series_ends_at_stop(start, stop, step, i);
            law_series_ends_at_stop(start, stop, step, i + 1);
            assert(series_at(start, step, i + 1) == series_at(start, step, i) + step)
                by (nonlinear_arith);
        }
        match source.try_next() {
            Ok(Some(v)) => {
                out.push(Value::Int(v));
            },
            Ok(None) => {
                break;
            },
            Err(_) => {
                more = true;
                break;
            },
        }
    }
    assert(out.deep_view() =~= series_values(start, step, out@.len()));
    (out, more)
}

/// The values from `start` to `stop`, `step` apart. A step of zero is refused, and so is a series of
/// more rows than a series may have.
pub fn generate_series(start: i64, stop: i64, step: i64) -> (r: Result<Vec<Value>, SetError>)
    ensures
        ({
            let n = series_len(start, stop, step);
            if step == 0 {
                r == Err::<Vec<Value>, SetError>(SetError::ZeroStep)
            } else if n > MAX_SERIES_ROWS {
                r == Err::<Vec<Value>, SetError>(SetError::SeriesLimit)
            } else {
                r matches Ok(v) && v.deep_view() == series_values(start, step, n)
            }
        }),
{
    if step == 0 {
        return Err(SetError::ZeroStep);
    }
    let (values, more) = pull_series(start, stop, step);
    if more {
        Err(SetError::SeriesLimit)
    } else {
        Ok(values)
    }
}

// ---------------------------------------------------------------- temporal series

/// A temporal bound in microseconds, a date at midnight.
pub open spec fn micros_of(v: ValueView) -> Option<i64> {
    if v is Int {
        None
    } else {
        window::range_number(v)
    }
}

/// A temporal bound in microseconds.
pub fn temporal_micros(v: &Value) -> (r: Option<i64>)
    ensures
        r == micros_of(v@),
{
    match v {
        Value::Int(_) => None,
        other => window::range_key(other),
    }
}

/// How far a temporal series has come.
#[derive(Debug, PartialEq, Eq)]
pub enum TemporalSeries {
    Complete(Vec<Value>),
    /// The value one step after this one is needed.
    Needs(i64),
}

/// How a temporal series comes out, as a model.
pub enum TemporalView {
    Complete(Seq<i64>),
    Needs(i64),
    Refused(SetError),
}

/// The series that goes on with `cur` after the values `done`; `nexts` holds the value one step after
/// each value, as far as known.
pub open spec fn temporal_from(
    done: Seq<i64>,
    cur: i64,
    stop: i64,
    forward: bool,
    nexts: Seq<i64>,
) -> TemporalView
    decreases nexts.len() - done.len(),
{
    let inside = if forward {
        cur <= stop
    } else {
        cur >= stop
    };
    if !inside {
        TemporalView::Complete(done)
    } else if done.len() >= MAX_SERIES_ROWS {
        TemporalView::Refused(SetError::SeriesLimit)
    } else if done.len() >= nexts.len() {
        TemporalView::Needs(cur)
    } else {
        let next = nexts[done.len() as int];
        if (forward && next <= cur) || (!forward && next >= cur) {
            TemporalView::Complete(done.push(cur))
        } else {
            temporal_from(done.push(cur), next, stop, forward, nexts)
        }
    }
}

/// The series from `start` to `stop`. Its direction is that of its first step; a step that does not
/// advance is refused, and one that stops advancing ends the series.
pub open spec fn temporal_series(start: i64, stop: i64, nexts: Seq<i64>) -> TemporalView {
    if nexts.len() == 0 {
        TemporalView::Needs(start)
    } else if nexts[0] == start {
        TemporalView::Refused(SetError::ZeroStep)
    } else {
        temporal_from(Seq::empty(), start, stop, nexts[0] > start, nexts)
    }
}

/// A value of a temporal series.
pub open spec fn timestamp(t: i64, tzaware: bool) -> ValueView {
    if tzaware {
        ValueView::TimestampTz(t)
    } else {
        ValueView::Timestamp(t)
    }
}

/// The timestamps from `start` to `stop`, one calendar step apart. `nexts` holds the value one step
/// after each value of the series, as far as known.
pub fn generate_series_temporal(start: i64, stop: i64, nexts: &Vec<i64>, tzaware: bool) -> (r: Result<
    TemporalSeries,
    SetError,
>)
    ensures
        match temporal_series(start, stop, nexts@) {
            TemporalView::Complete(ts) => r matches Ok(TemporalSeries::Complete(vs))
                && vs.deep_view() == ts.map_values(|t: i64| timestamp(t, tzaware)),
            TemporalView::Needs(t) => r == Ok::<TemporalSeries, SetError>(TemporalSeries::Needs(t)),
            TemporalView::Refused(e) => r == Err::<TemporalSeries, SetError>(e),
        },
{
    if nexts.len() == 0 {
        return Ok(TemporalSeries::Needs(start));
    }
    let first: i64 = nexts[0];
    if first == start {
        return Err(SetError::ZeroStep);
    }
    let forward: bool = first > start;
    let mut out: Vec<Value> = Vec::new();
    let ghost mut done: Seq<i64> = Seq::empty();
    let mut cur: i64 = start;
    loop
        invariant
            forward == (nexts@[0] > start),
            nexts@.len() > 0,
            nexts@[0] != start,
            out@.len() == done.len(),
            done.len() <= nexts@.len(),
            done.len() <= MAX_SERIES_ROWS,
            forall|k: int| 0 <= k < done.len() ==> (#[trigger] out@[k])@ == timestamp(done[k], tzaware),
            temporal_series(start, stop, nexts@) == temporal_from(done, cur, stop, forward, nexts@),
        decreases nexts@.len() - done.len(),
    {
        let inside: bool = if forward {
            cur <= stop
        } else {
            cur >= stop
        };
        if !inside {
            assert(out.deep_view() =~= done.map_values(|t: i64| timestamp(t, tzaware)));
            return Ok(TemporalSeries::Complete(out));
        }
        if out.len() >= MAX_SERIES_ROWS {
            return Err(SetError::SeriesLimit);
        }
        let at: usize = out.len();
        if at >= nexts.len() {
            return Ok(TemporalSeries::Needs(cur));
        }
        let next: i64 = nexts[at];
        if tzaware {
            out.push(Value::TimestampTz(cur));
        } else {
            out.push(Value::Timestamp(cur));
        }
        proof {
            done = done.push(cur);
        }
        if (forward && next <= cur) || (!forward && next >= cur) {
            assert(out.deep_view() =~= done.map_values(|t: i64| timestamp(t, tzaware)));
            return Ok(TemporalSeries::Complete(out));
        }
        cur = next;
    }
}

// ---------------------------------------------------------------- unnesting

/// The leaves of a value: those of its items in order for an array, and the value itself for any
/// other.
pub open spec fn leaves(v: ValueView) -> Seq<ValueView>
    decreases v, 0nat,
{
    match v {
        ValueView::Array(items) => leaves_of(items, items.len()),
        _ => seq![v],
    }
}

/// The leaves of the first `n` items.
pub open spec fn leaves_of(items: Seq<ValueView>, n: nat) -> Seq<ValueView>
    decreases items, n,
{
    if n == 0 || n > items.len() {
        Seq::empty()
    } else {
        leaves_of(items, (n - 1) as nat) + leaves(items[n - 1])
    }
}

/// Append the leaves of a value.
fn push_leaves(v: &Value, out: &mut Vec<Value>)
    ensures
        final(out).deep_view() == old(out).deep_view() + leaves(v@),
    decreases v,
{
    let ghost start = out.deep_view();
    match v {
        Value::Array(items) => {
            proof {
                value::lemma_array_view(*items);
            }
            let ghost iv = items.deep_view();
            let mut i: usize = 0;
            assert(start =~= start + leaves_of(iv, 0));
            while i < items.len()
                invariant
                    *v == Value::Array(*items),
                    iv == items.deep_view(),
                    i <= items@.len(),
                    out.deep_view() == start + leaves_of(iv, i as nat),
                decreases items@.len() - i,
            {
                assert(decreases_to!(*v => (*v)->Array_0));
                assert(decreases_to!(*items => items[i as int]));
                assert(iv[i as int] == items@[i as int]@);
                push_leaves(&items[i], out);
                assert(out.deep_view() =~= start + leaves_of(iv, (i + 1) as nat));
                i += 1;
            }
        },
        other => {
            out.push(other.clone());
            assert(out.deep_view() =~= start + seq![v@]);
        },
    }
}

/// The elements that unnesting a value gives: its leaves for an array, none for any other value.
pub open spec fn unnested(v: ValueView) -> Seq<ValueView> {
    if v is Array {
        leaves(v)
    } else {
        Seq::empty()
    }
}

/// Unnest an array: its leaves in order. Any other value, NULL among them, has none.
pub fn unnest(v: &Value) -> (r: Vec<Value>)
    ensures
        r.deep_view() == unnested(v@),
{
    let mut out: Vec<Value> = Vec::new();
    assert(out.deep_view() =~= Seq::empty());
    match v {
        Value::Array(_) => {
            push_leaves(v, &mut out);
            assert(out.deep_view() =~= unnested(v@));
            out
        },
        _ => out,
    }
}

/// The length of the longest of the first `n` columns.
pub open spec fn longest(columns: Seq<Seq<ValueView>>, n: nat) -> nat
    decreases n,
{
    if n == 0 {
        0
    } else {
        let l = longest(columns, (n - 1) as nat);
        if columns[n - 1].len() > l {
            columns[n - 1].len()
        } else {
            l
        }
    }
}

/// A column, with NULLs up to length `n`.
pub open spec fn padded(column: Seq<ValueView>, n: nat) -> Seq<ValueView> {
    Seq::new(
        n,
        |i: int|
            if i < column.len() {
                column[i]
            } else {
                ValueView::Null
            },
    )
}

/// Unnest several arrays side by side: each is a column, and a shorter one ends in NULLs.
pub fn eval_unnest_multi(args: &Vec<Value>) -> (r: Vec<Vec<Value>>)
    ensures
        r@.len() == args@.len(),
        ({
            let columns = args.deep_view().map_values(|v: ValueView| unnested(v));
            forall|i: int|
                0 <= i < r@.len() ==> (#[trigger] r.deep_view()[i]) == padded(
                    columns[i],
                    longest(columns, columns.len()),
                )
        }),
{
    let ghost columns = args.deep_view().map_values(|v: ValueView| unnested(v));
    let mut out: Vec<Vec<Value>> = Vec::new();
    let mut most: usize = 0;
    let mut i: usize = 0;
    while i < args.len()
        invariant
            columns == args.deep_view().map_values(|v: ValueView| unnested(v)),
            i <= args@.len(),
            out@.len() == i,
            forall|k: int| 0 <= k < i ==> (#[trigger] out@[k]).deep_view() == columns[k],
            most == longest(columns, i as nat),
        decreases args@.len() - i,
    {
        assert(args.deep_view()[i as int] == args@[i as int]@);
        let column = unnest(&args[i]);
        assert(column.deep_view() == columns[i as int]);
        if column.len() > most {
            most = column.len();
        }
        out.push(column);
        i += 1;
    }
    let mut wide: Vec<Vec<Value>> = Vec::new();
    proof {
        assert forall|k: int| 0 <= k < columns.len() implies (#[trigger] columns[k]).len() <= most by {
            lemma_longest(columns, columns.len(), k);
        }
    }
    for col in it: out
        invariant
            columns == args.deep_view().map_values(|v: ValueView| unnested(v)),
            it.seq() == out@,
            out@.len() == columns.len(),
            forall|k: int| 0 <= k < out@.len() ==> (#[trigger] out@[k]).deep_view() == columns[k],
            forall|k: int| 0 <= k < columns.len() ==> (#[trigger] columns[k]).len() <= most,
            most == longest(columns, columns.len()),
            wide@.len() == it.index(),
            forall|k: int|
                0 <= k < wide@.len() ==> (#[trigger] wide@[k]).deep_view() == padded(
                    columns[k],
                    most as nat,
                ),
    {
        let ghost own = col.deep_view();
        let ghost at = wide@.len() as int;
        assert(own == columns[at]);
        let mut full: Vec<Value> = col;
        while full.len() < most
            invariant
                own.len() <= full@.len() <= most,
                forall|k: int|
                    0 <= k < full@.len() ==> (#[trigger] full@[k])@ == if k < own.len() {
                        own[k]
                    } else {
                        ValueView::Null
                    },
            decreases most - full@.len(),
        {
            full.push(Value::Null);
        }
        assert(full.deep_view() =~= padded(own, most as nat));
        wide.push(full);
    }
    wide
}

proof fn lemma_longest(columns: Seq<Seq<ValueView>>, n: nat, k: int)
    requires
        0 <= k < n <= columns.len(),
    ensures
        columns[k].len() <= longest(columns, n),
    decreases n,
{
    if k < n - 1 {
        lemma_longest(columns, (n - 1) as nat, k);
    }
}

// ---------------------------------------------------------------- dispatch

#[derive(Clone, Copy, Debug, PartialEq, Eq, Structural)]
pub enum SetFunc {
    Unnest,
    JsonArrayElements,
    JsonArrayElementsText,
    JsonObjectKeys,
    JsonPathQuery,
    JsonEach,
    JsonEachText,
    StringToTable,
    RegexpSplitToTable,
    RegexpMatches,
    GenerateSeries,
}

/// What is asked of the document, pattern and calendar functions.
#[derive(Debug, PartialEq, Eq)]
pub enum SetTask {
    /// The elements of a JSON array.
    JsonElements(String),
    /// The elements of a JSON array as text.
    JsonElementsText(String),
    /// The keys of a JSON object.
    JsonKeys(String),
    /// The matches of a path in a JSON document.
    JsonPath { document: String, path: String },
    /// The members of a JSON object.
    JsonMembers(String),
    /// The members of a JSON object, their values as text.
    JsonMembersText(String),
    /// The pieces of a text between a separator.
    Split { text: String, separator: String },
    /// The pieces of a text between the matches of a pattern.
    SplitPattern { text: String, pattern: String, flags: String },
    /// The matches of a pattern in a text.
    MatchPattern { text: String, pattern: String, flags: String },
    /// The timestamps of a series.
    Temporal { start: i64, stop: i64, step: Interval, tzaware: bool },
}

pub enum TaskView {
    JsonElements(Seq<char>),
    JsonElementsText(Seq<char>),
    JsonKeys(Seq<char>),
    JsonPath(Seq<char>, Seq<char>),
    JsonMembers(Seq<char>),
    JsonMembersText(Seq<char>),
    Split(Seq<char>, Seq<char>),
    SplitPattern(Seq<char>, Seq<char>, Seq<char>),
    MatchPattern(Seq<char>, Seq<char>, Seq<char>),
    Temporal(i64, i64, Interval, bool),
}

impl View for SetTask {
    type V = TaskView;

    open spec fn view(&self) -> TaskView {
        match self {
            SetTask::JsonElements(d) => TaskView::JsonElements(d@),
            SetTask::JsonElementsText(d) => TaskView::JsonElementsText(d@),
            SetTask::JsonKeys(d) => TaskView::JsonKeys(d@),
            SetTask::JsonPath { document, path } => TaskView::JsonPath(document@, path@),
            SetTask::JsonMembers(d) => TaskView::JsonMembers(d@),
            SetTask::JsonMembersText(d) => TaskView::JsonMembersText(d@),
            SetTask::Split { text, separator } => TaskView::Split(text@, separator@),
            SetTask::SplitPattern { text, pattern, flags } => TaskView::SplitPattern(
                text@,
                pattern@,
                flags@,
            ),
            SetTask::MatchPattern { text, pattern, flags } => TaskView::MatchPattern(
                text@,
                pattern@,
                flags@,
            ),
            SetTask::Temporal { start, stop, step, tzaware } => TaskView::Temporal(
                *start,
                *stop,
                *step,
                *tzaware,
            ),
        }
    }
}

/// How a set-returning function goes on: with its elements, or with a task for the functions that
/// find them.
#[derive(Debug, PartialEq, Eq)]
pub enum SetStep {
    Elements(Vec<Value>),
    Ask(SetTask),
}

/// How a set-returning function goes on, as a model.
pub enum SetOutcome {
    Elements(Seq<ValueView>),
    Ask(TaskView),
    Refused(SetError),
}

/// An argument, NULL where there is none.
pub open spec fn arg(args: Seq<ValueView>, i: int) -> ValueView {
    if 0 <= i < args.len() {
        args[i]
    } else {
        ValueView::Null
    }
}

/// The flags argument of a pattern function: empty where there is none.
pub open spec fn flags_arg(args: Seq<ValueView>) -> ValueView {
    if args.len() > 2 {
        args[2]
    } else {
        ValueView::Text(Seq::empty())
    }
}

/// The outcome of a set-returning function on its evaluated arguments. An argument of another type
/// than the function takes, NULL among them, gives no elements.
pub open spec fn set_outcome(func: SetFunc, args: Seq<ValueView>) -> SetOutcome {
    let none = SetOutcome::Elements(Seq::empty());
    let first = arg(args, 0);
    match func {
        SetFunc::Unnest => SetOutcome::Elements(unnested(first)),
        SetFunc::JsonArrayElements => match first {
            ValueView::Json(d) => SetOutcome::Ask(TaskView::JsonElements(d)),
            _ => none,
        },
        SetFunc::JsonArrayElementsText => match first {
            ValueView::Json(d) => SetOutcome::Ask(TaskView::JsonElementsText(d)),
            _ => none,
        },
        SetFunc::JsonObjectKeys => match first {
            ValueView::Json(d) => SetOutcome::Ask(TaskView::JsonKeys(d)),
            _ => none,
        },
        SetFunc::JsonPathQuery => match (first, arg(args, 1)) {
            (ValueView::Json(d), ValueView::Text(p)) => SetOutcome::Ask(TaskView::JsonPath(d, p)),
            _ => none,
        },
        SetFunc::JsonEach | SetFunc::JsonEachText => SetOutcome::Refused(SetError::GivesPairs),
        SetFunc::StringToTable => match (first, arg(args, 1)) {
            (ValueView::Text(s), ValueView::Text(sep)) => SetOutcome::Ask(TaskView::Split(s, sep)),
            _ => none,
        },
        SetFunc::RegexpSplitToTable => match (first, arg(args, 1), flags_arg(args)) {
            (ValueView::Text(s), ValueView::Text(p), ValueView::Text(f)) => SetOutcome::Ask(
                TaskView::SplitPattern(s, p, f),
            ),
            _ => none,
        },
        SetFunc::RegexpMatches => match (first, arg(args, 1), flags_arg(args)) {
            (ValueView::Text(s), ValueView::Text(p), ValueView::Text(f)) => SetOutcome::Ask(
                TaskView::MatchPattern(s, p, f),
            ),
            _ => none,
        },
        SetFunc::GenerateSeries => {
            let stop = arg(args, 1);
            let step = if args.len() > 2 {
                args[2]
            } else {
                ValueView::Int(1)
            };
            match (micros_of(first), micros_of(stop), step) {
                (Some(a), Some(b), ValueView::Interval(iv)) => SetOutcome::Ask(
                    TaskView::Temporal(a, b, iv, first is TimestampTz),
                ),
                _ => match (first, stop, step) {
                    (ValueView::Int(a), ValueView::Int(b), ValueView::Int(s)) => {
                        if s == 0 {
                            SetOutcome::Refused(SetError::ZeroStep)
                        } else if series_len(a, b, s) > MAX_SERIES_ROWS {
                            SetOutcome::Refused(SetError::SeriesLimit)
                        } else {
                            SetOutcome::Elements(series_values(a, s, series_len(a, b, s)))
                        }
                    },
                    _ => none,
                },
            }
        },
    }
}

fn text_arg(args: &Vec<Value>, i: usize) -> (r: Option<String>)
    ensures
        match arg(args.deep_view(), i as int) {
            ValueView::Text(s) => r matches Some(t) && t@ == s,
            _ => r is None,
        },
{
    if i < args.len() {
        assert(args.deep_view()[i as int] == args@[i as int]@);
        match &args[i] {
            Value::Text(s) => Some(s.clone()),
            _ => None,
        }
    } else {
        None
    }
}

fn json_arg(args: &Vec<Value>, i: usize) -> (r: Option<String>)
    ensures
        match arg(args.deep_view(), i as int) {
            ValueView::Json(s) => r matches Some(t) && t@ == s,
            _ => r is None,
        },
{
    if i < args.len() {
        assert(args.deep_view()[i as int] == args@[i as int]@);
        match &args[i] {
            Value::Json(s) => Some(s.clone()),
            _ => None,
        }
    } else {
        None
    }
}

fn flags_text(args: &Vec<Value>) -> (r: Option<String>)
    ensures
        match flags_arg(args.deep_view()) {
            ValueView::Text(s) => r matches Some(t) && t@ == s,
            _ => r is None,
        },
{
    if args.len() > 2 {
        text_arg(args, 2)
    } else {
        let s = String::new();
        assert(s@ =~= Seq::empty());
        Some(s)
    }
}

fn series_arg(args: &Vec<Value>) -> (r: Result<SetStep, SetError>)
    ensures
        match set_outcome(SetFunc::GenerateSeries, args.deep_view()) {
            SetOutcome::Elements(vs) => r matches Ok(SetStep::Elements(es)) && es.deep_view() == vs,
            SetOutcome::Ask(t) => r matches Ok(SetStep::Ask(task)) && task@ == t,
            SetOutcome::Refused(e) => r == Err::<SetStep, SetError>(e),
        },
{
    let ghost av = args.deep_view();
    let none: Vec<Value> = Vec::new();
    assert(none.deep_view() =~= Seq::empty());
    if args.len() < 2 {
        return Ok(SetStep::Elements(none));
    }
    assert(av[0] == args@[0]@);
    assert(av[1] == args@[1]@);
    let start = temporal_micros(&args[0]);
    let stop = temporal_micros(&args[1]);
    if args.len() > 2 {
        assert(av[2] == args@[2]@);
        if let Value::Interval(step) = &args[2] {
            if let (Some(a), Some(b)) = (start, stop) {
                let tzaware: bool = match &args[0] {
                    Value::TimestampTz(_) => true,
                    _ => false,
                };
                return Ok(
                    SetStep::Ask(SetTask::Temporal { start: a, stop: b, step: *step, tzaware }),
                );
            }
        }
    }
    let step: i64 = if args.len() > 2 {
        match &args[2] {
            Value::Int(s) => *s,
            _ => {
                return Ok(SetStep::Elements(none));
            },
        }
    } else {
        1
    };
    match (&args[0], &args[1]) {
        (Value::Int(a), Value::Int(b)) => match generate_series(*a, *b, step) {
            Ok(vs) => Ok(SetStep::Elements(vs)),
            Err(e) => Err(e),
        },
        _ => Ok(SetStep::Elements(none)),
    }
}

/// How a set-returning function goes on with its evaluated arguments.
pub fn eval_set_returning(func: SetFunc, args: &Vec<Value>) -> (r: Result<SetStep, SetError>)
    ensures
        match set_outcome(func, args.deep_view()) {
            SetOutcome::Elements(vs) => r matches Ok(SetStep::Elements(es)) && es.deep_view() == vs,
            SetOutcome::Ask(t) => r matches Ok(SetStep::Ask(task)) && task@ == t,
            SetOutcome::Refused(e) => r == Err::<SetStep, SetError>(e),
        },
{
    let none: Vec<Value> = Vec::new();
    assert(none.deep_view() =~= Seq::empty());
    match func {
        SetFunc::Unnest => {
            if args.len() > 0 {
                assert(args.deep_view()[0] == args@[0]@);
                Ok(SetStep::Elements(unnest(&args[0])))
            } else {
                Ok(SetStep::Elements(none))
            }
        },
        SetFunc::JsonArrayElements => match json_arg(args, 0) {
            Some(d) => Ok(SetStep::Ask(SetTask::JsonElements(d))),
            None => Ok(SetStep::Elements(none)),
        },
        SetFunc::JsonArrayElementsText => match json_arg(args, 0) {
            Some(d) => Ok(SetStep::Ask(SetTask::JsonElementsText(d))),
            None => Ok(SetStep::Elements(none)),
        },
        SetFunc::JsonObjectKeys => match json_arg(args, 0) {
            Some(d) => Ok(SetStep::Ask(SetTask::JsonKeys(d))),
            None => Ok(SetStep::Elements(none)),
        },
        SetFunc::JsonPathQuery => match (json_arg(args, 0), text_arg(args, 1)) {
            (Some(document), Some(path)) => Ok(SetStep::Ask(SetTask::JsonPath { document, path })),
            _ => Ok(SetStep::Elements(none)),
        },
        SetFunc::JsonEach | SetFunc::JsonEachText => Err(SetError::GivesPairs),
        SetFunc::StringToTable => match (text_arg(args, 0), text_arg(args, 1)) {
            (Some(text), Some(separator)) => Ok(SetStep::Ask(SetTask::Split { text, separator })),
            _ => Ok(SetStep::Elements(none)),
        },
        SetFunc::RegexpSplitToTable => match (
            text_arg(args, 0),
            text_arg(args, 1),
            flags_text(args),
        ) {
            (Some(text), Some(pattern), Some(flags)) => Ok(
                SetStep::Ask(SetTask::SplitPattern { text, pattern, flags }),
            ),
            _ => Ok(SetStep::Elements(none)),
        },
        SetFunc::RegexpMatches => match (text_arg(args, 0), text_arg(args, 1), flags_text(args)) {
            (Some(text), Some(pattern), Some(flags)) => Ok(
                SetStep::Ask(SetTask::MatchPattern { text, pattern, flags }),
            ),
            _ => Ok(SetStep::Elements(none)),
        },
        SetFunc::GenerateSeries => series_arg(args),
    }
}

/// The outcome of a pair function on its document: the pairs are the members of an object. A value
/// that is no document has none.
pub open spec fn pair_outcome(func: SetFunc, args: Seq<ValueView>) -> SetOutcome {
    match arg(args, 0) {
        ValueView::Json(d) => match func {
            SetFunc::JsonEach => SetOutcome::Ask(TaskView::JsonMembers(d)),
            SetFunc::JsonEachText => SetOutcome::Ask(TaskView::JsonMembersText(d)),
            _ => SetOutcome::Refused(SetError::GivesNoPairs),
        },
        _ => SetOutcome::Elements(Seq::empty()),
    }
}

/// How a pair function goes on with its evaluated arguments.
pub fn eval_set_returning_pairs(func: SetFunc, args: &Vec<Value>) -> (r: Result<SetStep, SetError>)
    ensures
        match pair_outcome(func, args.deep_view()) {
            SetOutcome::Elements(vs) => r matches Ok(SetStep::Elements(es)) && es.deep_view() == vs,
            SetOutcome::Ask(t) => r matches Ok(SetStep::Ask(task)) && task@ == t,
            SetOutcome::Refused(e) => r == Err::<SetStep, SetError>(e),
        },
{
    match json_arg(args, 0) {
        Some(d) => match func {
            SetFunc::JsonEach => Ok(SetStep::Ask(SetTask::JsonMembers(d))),
            SetFunc::JsonEachText => Ok(SetStep::Ask(SetTask::JsonMembersText(d))),
            _ => Err(SetError::GivesNoPairs),
        },
        None => {
            let none: Vec<Value> = Vec::new();
            assert(none.deep_view() =~= Seq::empty());
            Ok(SetStep::Elements(none))
        },
    }
}

/// What the elements that a task found are.
#[derive(Clone, Copy, Debug, PartialEq, Eq, Structural)]
pub enum ElementKind {
    Json,
    Text,
}

/// An element that a task found: NULL where it is missing.
pub open spec fn element(kind: ElementKind, found: Option<Seq<char>>) -> ValueView {
    match found {
        Some(s) => match kind {
            ElementKind::Json => ValueView::Json(s),
            ElementKind::Text => ValueView::Text(s),
        },
        None => ValueView::Null,
    }
}

pub open spec fn found_text(found: Option<String>) -> Option<Seq<char>> {
    match found {
        Some(s) => Some(s@),
        None => None,
    }
}

/// The elements that a task found, as values.
pub fn wrap_elements(kind: ElementKind, found: Vec<Option<String>>) -> (r: Vec<Value>)
    ensures
        r.deep_view() == found@.map_values(|f: Option<String>| element(kind, found_text(f))),
{
    let ghost all = found@;
    let mut out: Vec<Value> = Vec::new();
    for f in it: found
        invariant
            it.seq() == all,
            out@.len() == it.index(),
            forall|k: int|
                0 <= k < out@.len() ==> (#[trigger] out@[k])@ == element(kind, found_text(all[k])),
    {
        match f {
            Some(s) => match kind {
                ElementKind::Json => {
                    out.push(Value::Json(s));
                },
                ElementKind::Text => {
                    out.push(Value::Text(s));
                },
            },
            None => {
                out.push(Value::Null);
            },
        }
    }
    assert(out.deep_view() =~= all.map_values(|f: Option<String>| element(kind, found_text(f))));
    out
}

/// The pairs that a task found, as a column of keys and one of values. No members were found in what
/// is no object: that is refused.
pub fn wrap_pairs(func: SetFunc, members: Option<(Vec<String>, Vec<Option<String>>)>) -> (r: Result<
    (Vec<Value>, Vec<Value>),
    SetError,
>)
    ensures
        match members {
            Some(m) => r matches Ok(columns) && columns.0.deep_view() == m.0@.map_values(
                |k: String| ValueView::Text(k@),
            ) && columns.1.deep_view() == m.1@.map_values(
                |f: Option<String>|
                    element(
                        if func is JsonEach {
                            ElementKind::Json
                        } else {
                            ElementKind::Text
                        },
                        found_text(f),
                    ),
            ),
            None => r == Err::<(Vec<Value>, Vec<Value>), SetError>(SetError::NotAnObject),
        },
{
    match members {
        None => Err(SetError::NotAnObject),
        Some((keys, values)) => {
            let ghost all = keys@;
            let mut names: Vec<Value> = Vec::new();
            for k in it: keys
                invariant
                    it.seq() == all,
                    names@.len() == it.index(),
                    forall|i: int|
                        0 <= i < names@.len() ==> (#[trigger] names@[i])@ == ValueView::Text(all[i]@),
            {
                names.push(Value::Text(k));
            }
            assert(names.deep_view() =~= all.map_values(|k: String| ValueView::Text(k@)));
            let kind = match func {
                SetFunc::JsonEach => ElementKind::Json,
                _ => ElementKind::Text,
            };
            Ok((names, wrap_elements(kind, values)))
        },
    }
}

} // verus!
