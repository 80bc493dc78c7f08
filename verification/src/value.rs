//! Runtime values and rows.
use vstd::prelude::*;

verus! {

/// An exact decimal: `mantissa * 10^-scale`.
#[derive(Clone, Copy, Debug, PartialEq, Eq, Structural)]
pub struct Decimal {
    pub mantissa: i128,
    pub scale: u8,
}

/// A calendar interval; the three components are kept apart.
#[derive(Clone, Copy, Debug, PartialEq, Eq, Structural)]
pub struct Interval {
    pub months: i32,
    pub days: i32,
    pub micros: i64,
}

/// A runtime SQL value.
///
/// Floating-point payloads are held as their IEEE-754 bit patterns: `Float` is the bits of a
/// 64-bit float and each component of `Vector` the bits of a 32-bit one.
#[derive(Debug, PartialEq, Eq)]
pub enum Value {
    Null,
    Bool(bool),
    Int(i64),
    Float(u64),
    Text(String),
    Date(i32),
    Time(i64),
    Timestamp(i64),
    TimestampTz(i64),
    TimeTz(i64),
    Uuid([u8; 16]),
    Numeric(Decimal),
    Json(String),
    Interval(Interval),
    Array(Vec<Value>),
    Vector(Vec<u32>),
    Bytes(Vec<u8>),
}

/// What a [`Value`] holds, as a mathematical value.
pub enum ValueView {
    Null,
    Bool(bool),
    Int(i64),
    Float(u64),
    Text(Seq<char>),
    Date(i32),
    Time(i64),
    Timestamp(i64),
    TimestampTz(i64),
    TimeTz(i64),
    Uuid(Seq<u8>),
    Numeric(Decimal),
    Json(Seq<char>),
    Interval(Interval),
    Array(Seq<ValueView>),
    Vector(Seq<u32>),
    Bytes(Seq<u8>),
}

/// An executor row.
pub type Row = Vec<Value>;

/// The mathematical value that `v` stands for.
pub open spec fn value_view(v: Value) -> ValueView
    decreases v,
{
    match v {
        Value::Null => ValueView::Null,
        Value::Bool(b) => ValueView::Bool(b),
        Value::Int(i) => ValueView::Int(i),
        Value::Float(f) => ValueView::Float(f),
        Value::Text(s) => ValueView::Text(s@),
        Value::Date(d) => ValueView::Date(d),
        Value::Time(t) => ValueView::Time(t),
        Value::Timestamp(t) => ValueView::Timestamp(t),
        Value::TimestampTz(t) => ValueView::TimestampTz(t),
        Value::TimeTz(t) => ValueView::TimeTz(t),
        Value::Uuid(b) => ValueView::Uuid(b@),
        Value::Numeric(d) => ValueView::Numeric(d),
        Value::Json(s) => ValueView::Json(s@),
        Value::Interval(iv) => ValueView::Interval(iv),
        Value::Array(items) => ValueView::Array(
            Seq::new(
                items@.len(),
                |i: int|
                    if 0 <= i < items@.len() {
                        value_view(items@[i])
                    } else {
                        ValueView::Null
                    },
            ),
        ),
        Value::Vector(xs) => ValueView::Vector(xs@),
        Value::Bytes(b) => ValueView::Bytes(b@),
    }
}

impl DeepView for Value {
    type V = ValueView;

    open spec fn deep_view(&self) -> ValueView {
        value_view(*self)
    }
}

impl View for Value {
    type V = ValueView;

    open spec fn view(&self) -> ValueView {
        value_view(*self)
    }
}

/// The view of an array value is the array of its elements' views.
pub proof fn lemma_array_view(items: Vec<Value>)
    ensures
        Value::Array(items)@ == ValueView::Array(items.deep_view()),
{
    assert(Value::Array(items)@->Array_0 =~= items.deep_view());
}

impl Clone for Value {
    fn clone(&self) -> (r: Value)
        ensures
            r@ == self@,
        decreases self,
    {
        match self {
            Value::Null => Value::Null,
            Value::Bool(b) => Value::Bool(*b),
            Value::Int(i) => Value::Int(*i),
            Value::Float(f) => Value::Float(*f),
            Value::Text(s) => Value::Text(s.clone()),
            Value::Date(d) => Value::Date(*d),
            Value::Time(t) => Value::Time(*t),
            Value::Timestamp(t) => Value::Timestamp(*t),
            Value::TimestampTz(t) => Value::TimestampTz(*t),
            Value::TimeTz(t) => Value::TimeTz(*t),
            Value::Uuid(b) => Value::Uuid(*b),
            Value::Numeric(d) => Value::Numeric(*d),
            Value::Json(s) => Value::Json(s.clone()),
            Value::Interval(iv) => Value::Interval(*iv),
            Value::Array(items) => {
                let mut out: Vec<Value> = Vec::new();
                let mut i: usize = 0;
                while i < items.len()
                    invariant
                        *self == Value::Array(*items),
                        i <= items@.len(),
                        out@.len() == i,
                        forall|k: int| 0 <= k < i ==> out@[k]@ == items@[k]@,
                    decreases items@.len() - i,
                {
                    assert(decreases_to!(*self => (*self)->Array_0));
                    assert(decreases_to!(*items => items[i as int]));
                    out.push(items[i].clone());
                    i += 1;
                }
                proof {
                    lemma_array_view(*items);
                    lemma_array_view(out);
                    assert(out.deep_view() =~= items.deep_view());
                }
                Value::Array(out)
            },
            Value::Vector(xs) => Value::Vector(xs.clone()),
            Value::Bytes(b) => Value::Bytes(b.clone()),
        }
    }
}

/// Every uuid in `v` has its 16 bytes.
pub open spec fn sized(v: ValueView) -> bool
    decreases v,
{
    match v {
        ValueView::Uuid(b) => b.len() == 16,
        ValueView::Array(items) => forall|i: int|
            #![trigger items[i]]
            0 <= i < items.len() ==> sized(items[i]),
        _ => true,
    }
}

pub proof fn lemma_value_sized(v: Value)
    ensures
        sized(v@),
    decreases v,
{
    if let Value::Array(items) = v {
        lemma_array_view(items);
        let view = items.deep_view();
        assert forall|i: int| 0 <= i < view.len() implies sized(#[trigger] view[i]) by {
            assert(decreases_to!(v => v->Array_0));
            assert(decreases_to!(items => items[i]));
            lemma_value_sized(items[i]);
        }
    }
}

/// Every uuid in the row has its 16 bytes.
pub open spec fn row_sized(row: Seq<ValueView>) -> bool {
    forall|i: int| 0 <= i < row.len() ==> sized(#[trigger] row[i])
}

/// What a row of values holds is always so.
pub proof fn lemma_row_sized(row: Row)
    ensures
        row_sized(row.deep_view()),
{
    assert forall|i: int| 0 <= i < row.deep_view().len() implies sized(
        #[trigger] row.deep_view()[i],
    ) by {
        lemma_value_sized(row@[i]);
    }
}

} // verus!
