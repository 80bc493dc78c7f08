//! The definitions of sequences, as the catalog keeps them.
//!
//! A catalog row is `(name, start, increment, min_value, max_value, cycle)`, all text.
use vstd::prelude::*;
use crate::catalog;
use crate::catalog::{field, text_value};
use crate::numbers;
use crate::numbers::{parse_i64, print_i64};
use crate::text::same_text;
use crate::value::{Row, Value, ValueView};

verus! {

/// The definition of a sequence.
#[derive(Debug, PartialEq, Eq)]
pub struct SequenceDef {
    pub name: String,
    pub start: i64,
    pub increment: i64,
    pub min_value: i64,
    pub max_value: i64,
    pub cycle: bool,
}

/// What a [`SequenceDef`] holds.
pub struct SequenceView {
    pub name: Seq<char>,
    pub start: i64,
    pub increment: i64,
    pub min_value: i64,
    pub max_value: i64,
    pub cycle: bool,
}

impl DeepView for SequenceDef {
    type V = SequenceView;

    open spec fn deep_view(&self) -> SequenceView {
        SequenceView {
            name: self.name@,
            start: self.start,
            increment: self.increment,
            min_value: self.min_value,
            max_value: self.max_value,
            cycle: self.cycle,
        }
    }
}

/// A change of a definition: the parts that are given.
#[derive(Clone, Copy, Debug, PartialEq, Eq)]
pub struct SequenceChange {
    pub start: Option<i64>,
    pub increment: Option<i64>,
    pub min_value: Option<i64>,
    pub max_value: Option<i64>,
    pub cycle: Option<bool>,
}

/// The catalog row of a definition.
pub open spec fn recorded(d: SequenceView) -> Seq<ValueView> {
    seq![
        ValueView::Text(d.name),
        ValueView::Text(numbers::decimal(d.start as int)),
        ValueView::Text(numbers::decimal(d.increment as int)),
        ValueView::Text(numbers::decimal(d.min_value as int)),
        ValueView::Text(numbers::decimal(d.max_value as int)),
        ValueView::Text(
            if d.cycle {
                "true"@
            } else {
                "false"@
            },
        ),
    ]
}

/// The catalog row of a definition.
pub fn sequence_row(d: &SequenceDef) -> (r: Row)
    ensures
        r.deep_view() == recorded(d.deep_view()),
{
    let mut out: Vec<Value> = Vec::new();
    out.push(text_value(d.name.as_str()));
    out.push(Value::Text(print_i64(d.start)));
    out.push(Value::Text(print_i64(d.increment)));
    out.push(Value::Text(print_i64(d.min_value)));
    out.push(Value::Text(print_i64(d.max_value)));
    let cycle: &str = if d.cycle {
        "true"
    } else {
        "false"
    };
    out.push(text_value(cycle));
    assert(out.deep_view() =~= recorded(d.deep_view()));
    out
}

/// The number in a field; `default` where it spells none.
pub open spec fn number_field(row: Seq<ValueView>, i: int, default: i64) -> i64 {
    match numbers::spelled_i64(catalog::field_text(row, i)) {
        Some(n) => n,
        None => default,
    }
}

/// The definition that a row holds.
pub open spec fn definition(row: Seq<ValueView>) -> SequenceView {
    SequenceView {
        name: catalog::field_text(row, 0),
        start: number_field(row, 1, 1),
        increment: number_field(row, 2, 1),
        min_value: number_field(row, 3, 1),
        max_value: number_field(row, 4, i64::MAX),
        cycle: catalog::field_text(row, 5) == "true"@,
    }
}

fn read_number(row: &Row, i: usize, default: i64) -> (r: i64)
    ensures
        r == number_field(row.deep_view(), i as int, default),
{
    let s = field(row, i);
    match parse_i64(s.as_str()) {
        Some(n) => n,
        None => default,
    }
}

/// The definition that a row holds.
pub fn read_sequence(row: &Row) -> (r: SequenceDef)
    ensures
        r.deep_view() == definition(row.deep_view()),
{
    let cycle = field(row, 5);
    SequenceDef {
        name: field(row, 0),
        start: read_number(row, 1, 1),
        increment: read_number(row, 2, 1),
        min_value: read_number(row, 3, 1),
        max_value: read_number(row, 4, i64::MAX),
        cycle: same_text(cycle.as_str(), "true"),
    }
}

/// Every definition.
pub open spec fn definitions(rows: Seq<Seq<ValueView>>) -> Seq<SequenceView> {
    rows.map_values(|row: Seq<ValueView>| definition(row))
}

/// Every definition.
pub fn list(rows: &Vec<Row>) -> (r: Vec<SequenceDef>)
    ensures
        r.deep_view() == definitions(rows.deep_view()),
{
    let n: usize = rows.len();
    let ghost want = definitions(rows.deep_view());
    let mut out: Vec<SequenceDef> = Vec::new();
    let mut i: usize = 0;
    while i < n
        invariant
            n == rows@.len(),
            want == definitions(rows.deep_view()),
            i <= n,
            out@.len() == i,
            forall|k: int| 0 <= k < i ==> (#[trigger] out@[k]).deep_view() == want[k],
        decreases n - i,
    {
        assert(rows.deep_view()[i as int] == rows@[i as int].deep_view());
        out.push(read_sequence(&rows[i]));
        i += 1;
    }
    assert(out.deep_view() =~= want);
    out
}

/// The definition with the given parts changed.
pub open spec fn changed(d: SequenceView, c: SequenceChange) -> SequenceView {
    SequenceView {
        name: d.name,
        start: c.start.unwrap_or(d.start),
        increment: c.increment.unwrap_or(d.increment),
        min_value: c.min_value.unwrap_or(d.min_value),
        max_value: c.max_value.unwrap_or(d.max_value),
        cycle: c.cycle.unwrap_or(d.cycle),
    }
}

/// The first definition of `name`, from the `i`-th row on.
pub open spec fn defined_from(rows: Seq<Seq<ValueView>>, name: Seq<char>, i: nat) -> Option<SequenceView>
    decreases rows.len() - i,
{
    if i >= rows.len() {
        None
    } else if definition(rows[i as int]).name == name {
        Some(definition(rows[i as int]))
    } else {
        defined_from(rows, name, i + 1)
    }
}

/// The definition to record after `ALTER SEQUENCE`; none where there is no recorded one.
pub fn apply_change(rows: &Vec<Row>, name: &str, change: &SequenceChange) -> (r: Option<SequenceDef>)
    ensures
        match defined_from(rows.deep_view(), name@, 0) {
            Some(d) => r matches Some(x) && x.deep_view() == changed(d, *change),
            None => r is None,
        },
{
    let n: usize = rows.len();
    let ghost rv = rows.deep_view();
    let mut i: usize = 0;
    while i < n
        invariant
            n == rows@.len(),
            rv == rows.deep_view(),
            i <= n,
            defined_from(rv, name@, 0) == defined_from(rv, name@, i as nat),
        decreases n - i,
    {
        assert(rv[i as int] == rows@[i as int].deep_view());
        let mut d = read_sequence(&rows[i]);
        if same_text(d.name.as_str(), name) {
            if let Some(v) = change.start {
                d.start = v;
            }
            if let Some(v) = change.increment {
                d.increment = v;
            }
            if let Some(v) = change.min_value {
                d.min_value = v;
            }
            if let Some(v) = change.max_value {
                d.max_value = v;
            }
            if let Some(v) = change.cycle {
                d.cycle = v;
            }
            return Some(d);
        }
        i += 1;
    }
    None
}

/// A definition is read back from the catalog as it was recorded.
pub proof fn law_definition_round_trip(d: SequenceView)
    ensures
        definition(recorded(d)) == d,
{
    numbers::law_decimal_round_trip(d.start as int);
    numbers::law_decimal_round_trip(d.increment as int);
    numbers::law_decimal_round_trip(d.min_value as int);
    numbers::law_decimal_round_trip(d.max_value as int);
    reveal_strlit("true");
    reveal_strlit("false");
    assert("true"@.len() != "false"@.len());
}

/// A change that gives nothing leaves the definition as it is.
pub proof fn law_empty_change_keeps_definition(d: SequenceView)
    ensures
        changed(
            d,
            (SequenceChange {
                start: None,
                increment: None,
                min_value: None,
                max_value: None,
                cycle: None,
            }),
        ) == d,
{
}

} // verus!
