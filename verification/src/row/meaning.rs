//! How each kind of value is laid out in a stored tuple, and which values a column takes.
use vstd::prelude::*;
use vstd::utf8::*;
use crate::error::Oversized;
use crate::le;
use crate::row;
use crate::row::{OutcomeView, Refusal, Writing};
use crate::types::{ArrayElem, ColumnType};
use crate::value::{Decimal, Interval, ValueView};

verus! {

// ---------------------------------------------------------------- layout

/// A value begins with a byte that is 0 for NULL and 1 for any other; a tuple in which that byte is
/// anything else is refused.
pub proof fn law_tags_tell_null_from_present(
    v: ValueView,
    ty: ColumnType,
    outcomes: Seq<OutcomeView>,
    used: nat,
    bytes: Seq<u8>,
    pos: nat,
)
    ensures
        v is Null ==> (row::write_tagged(v, ty, outcomes, used) matches Writing::Done { bytes: b, used: u, .. }
            && b == seq![0u8] && u == used),
        !(v is Null) ==> (row::write_tagged(v, ty, outcomes, used) matches Writing::Done { bytes: b, .. }
            ==> b.len() > 0 && b[0] == 1),
        pos < bytes.len() && bytes[pos as int] == 0 ==> row::tagged(bytes, pos, ty) == Ok::<
            (ValueView, nat),
            nat,
        >((ValueView::Null, pos + 1)),
        pos < bytes.len() && bytes[pos as int] > 1 ==> row::tagged(bytes, pos, ty) == Err::<
            (ValueView, nat),
            nat,
        >(pos),
        pos >= bytes.len() ==> row::tagged(bytes, pos, ty) == Err::<(ValueView, nat), nat>(pos),
{
}

/// Whole numbers and times stand in eight bytes and dates in four, the lowest byte first.
pub proof fn law_numbers_stand_low_byte_first(i: i64, d: i32, f: u64)
    ensures
        row::exact(ValueView::Int(i), ColumnType::Int) matches Some(Ok(b)) && b.len() == 8 && b[0] == i as int
            % 256,
        row::exact(ValueView::Time(i), ColumnType::Time) == row::exact(ValueView::Int(i), ColumnType::Int),
        row::exact(ValueView::TimeTz(i), ColumnType::TimeTz) == row::exact(ValueView::Int(i), ColumnType::Int),
        row::exact(ValueView::Timestamp(i), ColumnType::Timestamp) == row::exact(
            ValueView::Int(i),
            ColumnType::Int,
        ),
        row::exact(ValueView::TimestampTz(i), ColumnType::TimestampTz) == row::exact(
            ValueView::Int(i),
            ColumnType::Int,
        ),
        row::exact(ValueView::Date(d), ColumnType::Date) matches Some(Ok(b)) && b.len() == 4 && b[0] == d as int
            % 256,
        row::exact(ValueView::Float(f), ColumnType::Float) matches Some(Ok(b)) && b.len() == 8 && b[0] == f % 256,
{
    le::lemma_pow256();
    le::meaning::law_low_bytes_come_first(le::twos(i as int, 8), 7);
    le::meaning::law_low_bytes_come_first(le::twos(d as int, 4), 3);
    le::meaning::law_low_bytes_come_first(f as nat, 7);
}

/// Texts, documents and byte strings stand behind their length in bytes.
pub proof fn law_texts_stand_behind_their_length(s: Seq<char>, b: Seq<u8>)
    ensures
        ({
            let utf8 = encode_utf8(s);
            &&& utf8.len() <= 0xFFFF_FFFF ==> (row::exact(ValueView::Text(s), ColumnType::Text) matches Some(
                Ok(x),
            ) && x.len() == 4 + utf8.len() && x[0] == utf8.len() % 256 && x.skip(4) == utf8)
            &&& row::exact(ValueView::Json(s), ColumnType::Json) == match row::exact(
                ValueView::Text(s),
                ColumnType::Text,
            ) {
                Some(Err(_)) => Some(Err(Refusal::TooLarge(Oversized::Json))),
                other => other,
            }
            &&& utf8.len() > 0xFFFF_FFFF ==> row::exact(ValueView::Text(s), ColumnType::Text) == Some(
                Err::<Seq<u8>, Refusal>(Refusal::TooLarge(Oversized::Text)),
            )
        }),
        b.len() <= 0xFFFF_FFFF ==> (row::exact(ValueView::Bytes(b), ColumnType::Bytes) matches Some(Ok(x))
            && x.len() == 4 + b.len() && x[0] == b.len() % 256 && x.skip(4) == b),
        b.len() > 0xFFFF_FFFF ==> row::exact(ValueView::Bytes(b), ColumnType::Bytes) == Some(
            Err::<Seq<u8>, Refusal>(Refusal::TooLarge(Oversized::Bytes)),
        ),
{
    let utf8 = encode_utf8(s);
    le::meaning::law_low_bytes_come_first(utf8.len(), 3);
    le::meaning::law_low_bytes_come_first(b.len(), 3);
    assert(row::blob(utf8).skip(4) =~= utf8);
    assert(row::blob(b).skip(4) =~= b);
}

/// A truth value stands as 1 or 0, and is read as true from any byte but 0.
pub proof fn law_truth_stands_as_one(b: bool, bytes: Seq<u8>, pos: nat)
    requires
        pos < bytes.len(),
    ensures
        row::exact(ValueView::Bool(true), ColumnType::Bool) == Some(Ok::<Seq<u8>, Refusal>(seq![1u8])),
        row::exact(ValueView::Bool(false), ColumnType::Bool) == Some(Ok::<Seq<u8>, Refusal>(seq![0u8])),
        row::field(bytes, pos, ColumnType::Bool) == Ok::<(ValueView, nat), nat>(
            (ValueView::Bool(bytes[pos as int] != 0), pos + 1),
        ),
{
}

/// A span of time stands as its months, its days and then its microseconds; a decimal as sixteen bytes of
/// mantissa and then its scale.
pub proof fn law_spans_and_decimals_stand_in_parts(iv: Interval, d: Decimal)
    ensures
        row::exact(ValueView::Interval(iv), ColumnType::Interval) matches Some(Ok(b)) && b.len() == 16 && b[0]
            == iv.months as int % 256 && b[4] == iv.days as int % 256 && b[8] == iv.micros as int % 256,
        row::decimal_bytes(d).len() == 17,
        row::decimal_bytes(d)[16] == d.scale,
{
    le::lemma_pow256();
    le::meaning::law_low_bytes_come_first(le::twos(iv.months as int, 4), 3);
    le::meaning::law_low_bytes_come_first(le::twos(iv.days as int, 4), 3);
    le::meaning::law_low_bytes_come_first(le::twos(iv.micros as int, 8), 7);
    le::lemma_le_len(le::twos(d.mantissa as int, 16), 16);
}

// ---------------------------------------------------------------- what a column takes

/// Blanks at the end of a text do not count in a `Char` column; in `VarChar` and `Text` columns they stay.
pub proof fn law_char_columns_drop_blanks(s: Seq<char>, n: u32, outcomes: Seq<OutcomeView>, used: nat)
    requires
        encode_utf8(s).len() <= 0xFFFF_FFFF,
    ensures
        row::write_field(ValueView::Text(s.push(' ')), ColumnType::Char(n), outcomes, used) == row::write_field(
            ValueView::Text(s),
            ColumnType::Char(n),
            outcomes,
            used,
        ),
        s.len() == 0 || s.last() != ' ' ==> (row::write_field(
            ValueView::Text(s),
            ColumnType::Char(n),
            outcomes,
            used,
        ) matches Writing::Done { stored, used: u, .. } && stored == ValueView::Text(s) && u == used),
        row::write_field(ValueView::Text(s), ColumnType::VarChar(n), outcomes, used) matches Writing::Done {
            stored,
            used: u,
            ..
        } && stored == ValueView::Text(s) && u == used,
        row::write_field(ValueView::Text(s), ColumnType::Text, outcomes, used) matches Writing::Done {
            stored,
            used: u,
            ..
        } && stored == ValueView::Text(s) && u == used,
{
    assert(s.push(' ').drop_last() =~= s);
}

/// A decimal in a column without a precision stays as it is. In one with a precision it is taken at the
/// declared scale, unless it then has more digits than the precision.
pub proof fn law_decimals_fit_their_precision(
    d: Decimal,
    at_scale: Decimal,
    digits: u32,
    precision: u8,
    scale: u8,
    outcomes: Seq<OutcomeView>,
    used: nat,
)
    requires
        precision > 0,
    ensures
        ({
            let free = ColumnType::Numeric { precision: 0, scale };
            let ty = ColumnType::Numeric { precision, scale };
            let v = ValueView::Numeric(d);
            let out = row::write_field(v, ty, outcomes, used);
            &&& row::write_field(v, free, outcomes, used) matches Writing::Done { stored, used: u, .. } && stored
                == v && u == used
            &&& used >= outcomes.len() ==> out == (Writing::Needs { value: v, ty })
            &&& used < outcomes.len() && outcomes[used as int] == (OutcomeView::Rescaled {
                value: at_scale,
                digits,
            }) && digits <= precision ==> (out matches Writing::Done { stored, used: u, .. } && stored
                == ValueView::Numeric(at_scale) && u == used + 1)
            &&& used < outcomes.len() && outcomes[used as int] == (OutcomeView::Rescaled {
                value: at_scale,
                digits,
            }) && digits > precision ==> out == Writing::Refused(Refusal::Invalid { ty, value: v })
        }),
{
}

/// A whole number in a decimal column is taken as a decimal without a fraction.
pub proof fn law_whole_numbers_are_decimals(
    i: i64,
    precision: u8,
    scale: u8,
    outcomes: Seq<OutcomeView>,
    used: nat,
)
    ensures
        ({
            let ty = ColumnType::Numeric { precision, scale };
            let d = Decimal { mantissa: i as i128, scale: 0 };
            row::write_field(ValueView::Int(i), ty, outcomes, used) == row::write_field(
                ValueView::Numeric(d),
                ty,
                outcomes,
                used,
            )
        }),
{
}

/// A vector is taken only by a column of its dimension.
pub proof fn law_vectors_fit_their_dimension(xs: Seq<u32>, dim: u32, outcomes: Seq<OutcomeView>, used: nat)
    ensures
        ({
            let ty = ColumnType::Vector(dim);
            let v = ValueView::Vector(xs);
            let out = row::write_field(v, ty, outcomes, used);
            &&& xs.len() == dim ==> (out matches Writing::Done { stored, used: u, .. } && stored == v && u == used)
            &&& xs.len() != dim ==> out == Writing::Refused(Refusal::Invalid { ty, value: v })
        }),
{
}

/// Text is converted to the type of a column that holds none, and refused as a value of the type if it
/// cannot be.
pub proof fn law_text_is_converted(s: Seq<char>, ty: ColumnType, outcomes: Seq<OutcomeView>, used: nat)
    requires
        ty is Date || ty is Time || ty is TimeTz || ty is Timestamp || ty is TimestampTz || ty is Uuid || ty is Json
            || ty is Interval || ty is Vector || ty is Bytes,
    ensures
        ({
            let v = ValueView::Text(s);
            let out = row::write_field(v, ty, outcomes, used);
            &&& used >= outcomes.len() ==> out == (Writing::Needs { value: v, ty })
            &&& used < outcomes.len() && outcomes[used as int] is Refused ==> out == Writing::Refused(
                Refusal::Invalid { ty, value: v },
            )
            &&& used < outcomes.len() ==> (outcomes[used as int] matches OutcomeView::Value(x) ==> (
            row::exact(x, ty) matches Some(Ok(b)) ==> out == (Writing::Done {
                bytes: b,
                used: used + 1,
                stored: x,
            })))
        }),
{
}

/// Whole numbers and decimals are converted to floats.
pub proof fn law_numbers_become_floats(i: i64, d: Decimal, ty: ColumnType, outcomes: Seq<OutcomeView>)
    requires
        ty is Float || ty is Real,
    ensures
        row::write_field(ValueView::Int(i), ty, outcomes, outcomes.len()) == (Writing::Needs {
            value: ValueView::Int(i),
            ty: ColumnType::Float,
        }),
        row::write_field(ValueView::Numeric(d), ty, outcomes, outcomes.len()) == (Writing::Needs {
            value: ValueView::Numeric(d),
            ty: ColumnType::Float,
        }),
{
}

/// A value of another type is refused, with the type of the column and its own.
pub proof fn law_other_types_are_refused(
    i: i64,
    b: bool,
    s: Seq<char>,
    f: u64,
    d: i32,
    outcomes: Seq<OutcomeView>,
    used: nat,
)
    ensures
        ({
            let refused = |v: ValueView, ty: ColumnType, expected: ColumnType, found: ColumnType|
                row::write_field(v, ty, outcomes, used) == Writing::Refused(
                    Refusal::Mismatch { expected, found },
                );
            &&& refused(ValueView::Int(i), ColumnType::Text, ColumnType::Text, ColumnType::Int)
            &&& refused(ValueView::Int(i), ColumnType::Bool, ColumnType::Bool, ColumnType::Int)
            &&& refused(ValueView::Int(i), ColumnType::Date, ColumnType::Date, ColumnType::Int)
            &&& refused(ValueView::Bool(b), ColumnType::Int, ColumnType::Int, ColumnType::Bool)
            &&& refused(ValueView::Bool(b), ColumnType::BigInt, ColumnType::Int, ColumnType::Bool)
            &&& refused(ValueView::Text(s), ColumnType::Int, ColumnType::Int, ColumnType::Text)
            &&& refused(ValueView::Text(s), ColumnType::SmallInt, ColumnType::Int, ColumnType::Text)
            &&& refused(ValueView::Text(s), ColumnType::Bool, ColumnType::Bool, ColumnType::Text)
            &&& refused(ValueView::Text(s), ColumnType::Float, ColumnType::Float, ColumnType::Text)
            &&& refused(ValueView::Float(f), ColumnType::Int, ColumnType::Int, ColumnType::Float)
            &&& refused(ValueView::Date(d), ColumnType::Timestamp, ColumnType::Timestamp, ColumnType::Date)
            &&& refused(ValueView::Date(d), ColumnType::Text, ColumnType::Text, ColumnType::Date)
        }),
{
}

// ---------------------------------------------------------------- arrays

/// The elements of an array have the type of the first that is not NULL; an array of NULLs alone is one of
/// whole numbers.
pub proof fn law_arrays_have_the_type_of_their_first_element(items: Seq<ValueView>, i: int)
    requires
        forall|k: int| 0 <= k < i ==> (#[trigger] items[k]) is Null,
        0 <= i <= items.len(),
    ensures
        i == items.len() ==> row::elem_type(items) == ArrayElem::Int,
        i < items.len() && items[i] is Bool ==> row::elem_type(items) == ArrayElem::Bool,
        i < items.len() && items[i] is Int ==> row::elem_type(items) == ArrayElem::Int,
        i < items.len() && items[i] is Float ==> row::elem_type(items) == ArrayElem::Float,
        i < items.len() && items[i] is Text ==> row::elem_type(items) == ArrayElem::Text,
        i < items.len() && items[i] is Date ==> row::elem_type(items) == ArrayElem::Date,
        i < items.len() && items[i] is Time ==> row::elem_type(items) == ArrayElem::Time,
        i < items.len() && items[i] is Timestamp ==> row::elem_type(items) == ArrayElem::Timestamp,
        i < items.len() && items[i] is TimestampTz ==> row::elem_type(items) == ArrayElem::TimestampTz,
        i < items.len() && items[i] is Uuid ==> row::elem_type(items) == ArrayElem::Uuid,
{
    if i < items.len() {
        if items[i] !is Null {
            row::lemma_first_present_is(items, i);
        }
    } else {
        row::lemma_first_present(items);
    }
}

} // verus!
