//! Schema-aware encoding of stored tuples.
//!
//! Per column: one tag byte (`0` for NULL, `1` for present), then, if present, the value:
//!
//! | type | bytes after the tag |
//! |------|---------------------|
//! | `Bool` | 1 byte |
//! | `Int`, `Time`, `TimeTz`, `Timestamp`, `TimestampTz` | 8 bytes |
//! | `Float` | 8 bytes |
//! | `Date` | 4 bytes |
//! | `Uuid` | 16 bytes |
//! | `Text`, `Json`, `Bytes` | 4-byte length and that many bytes |
//! | `Numeric` | 16-byte mantissa and 1-byte scale |
//! | `Interval` | 4-byte months, 4-byte days, 8-byte microseconds |
//! | `Array` | 4-byte count and that many tagged elements |
//! | `Vector` | 4-byte count and that many 4-byte components |
//!
//! Every integer is little-endian. `SmallInt` and `BigInt` are stored as `Int`, `Real` as `Float`,
//! `VarChar` and `Char` as `Text`, `Jsonb` as `Json`.
use vstd::prelude::*;
use vstd::utf8::*;
use crate::error::{Error, Oversized};
use crate::le;
use crate::text;
use crate::setops;
use crate::types;
use crate::types::{ArrayElem, ColumnType};
use crate::value;
use crate::value::{Decimal, Interval, Row, Value, ValueView};

pub mod meaning;

verus! {

pub const TAG_NULL: u8 = 0;

pub const TAG_PRESENT: u8 = 1;

/// The most fractional digits a stored decimal can have. The number is that of the stored format, taken
/// as given here.
pub const MAX_SCALE: u8 = 38;

// ---------------------------------------------------------------- runtime types

/// The first element that is not NULL, if there is one.
pub open spec fn first_present(items: Seq<ValueView>) -> Option<int>
    decreases items.len(),
{
    if items.len() == 0 {
        None
    } else {
        match first_present(items.drop_last()) {
            Some(i) => Some(i),
            None => if items.last() is Null {
                None
            } else {
                Some(items.len() - 1)
            },
        }
    }
}

/// The type that a value has by itself. (NULL counts as a boolean.)
pub open spec fn runtime_type(v: ValueView) -> ColumnType
    decreases v,
{
    match v {
        ValueView::Null | ValueView::Bool(_) => ColumnType::Bool,
        ValueView::Int(_) => ColumnType::Int,
        ValueView::Float(_) => ColumnType::Float,
        ValueView::Text(_) => ColumnType::Text,
        ValueView::Date(_) => ColumnType::Date,
        ValueView::Time(_) => ColumnType::Time,
        ValueView::Timestamp(_) => ColumnType::Timestamp,
        ValueView::TimestampTz(_) => ColumnType::TimestampTz,
        ValueView::TimeTz(_) => ColumnType::TimeTz,
        ValueView::Uuid(_) => ColumnType::Uuid,
        ValueView::Numeric(_) => ColumnType::Numeric { precision: 0, scale: 0 },
        ValueView::Json(_) => ColumnType::Json,
        ValueView::Interval(_) => ColumnType::Interval,
        ValueView::Array(items) => ColumnType::Array(
            match first_present(items) {
                Some(i) => if 0 <= i < items.len() {
                    match types::elem_of_column_type(runtime_type(items[i])) {
                        Some(e) => e,
                        None => ArrayElem::Int,
                    }
                } else {
                    ArrayElem::Int
                },
                None => ArrayElem::Int,
            },
        ),
        ValueView::Vector(xs) => ColumnType::Vector((xs.len() % 0x1_0000_0000) as u32),
        ValueView::Bytes(_) => ColumnType::Bytes,
    }
}

/// The element type of an array of `items`: that of the first element that is not NULL, or `Int`.
pub open spec fn elem_type(items: Seq<ValueView>) -> ArrayElem {
    match first_present(items) {
        Some(i) => match types::elem_of_column_type(runtime_type(items[i])) {
            Some(e) => e,
            None => ArrayElem::Int,
        },
        None => ArrayElem::Int,
    }
}

proof fn lemma_first_present(items: Seq<ValueView>)
    ensures
        match first_present(items) {
            Some(i) => 0 <= i < items.len() && items[i] !is Null && forall|k: int|
                0 <= k < i ==> items[k] is Null,
            None => forall|k: int| 0 <= k < items.len() ==> items[k] is Null,
        },
    decreases items.len(),
{
    if items.len() > 0 {
        lemma_first_present(items.drop_last());
        match first_present(items.drop_last()) {
            Some(i) => {
                assert(items[i] == items.drop_last()[i]);
                assert forall|k: int| 0 <= k < i implies items[k] is Null by {
                    assert(items.drop_last()[k] is Null);
                }
            },
            None => {
                assert forall|k: int| 0 <= k < items.len() - 1 implies items[k] is Null by {
                    assert(items.drop_last()[k] is Null);
                }
            },
        }
    }
}

proof fn lemma_first_present_is(items: Seq<ValueView>, i: int)
    requires
        0 <= i < items.len(),
        items[i] !is Null,
        forall|k: int| 0 <= k < i ==> items[k] is Null,
    ensures
        first_present(items) == Some(i),
{
    lemma_first_present(items);
}

/// The type that `value` has by itself.
pub fn runtime_type_of(value: &Value) -> (r: ColumnType)
    ensures
        r == runtime_type(value@),
    decreases value,
{
    match value {
        Value::Null | Value::Bool(_) => ColumnType::Bool,
        Value::Int(_) => ColumnType::Int,
        Value::Float(_) => ColumnType::Float,
        Value::Text(_) => ColumnType::Text,
        Value::Date(_) => ColumnType::Date,
        Value::Time(_) => ColumnType::Time,
        Value::Timestamp(_) => ColumnType::Timestamp,
        Value::TimestampTz(_) => ColumnType::TimestampTz,
        Value::TimeTz(_) => ColumnType::TimeTz,
        Value::Uuid(_) => ColumnType::Uuid,
        Value::Numeric(_) => ColumnType::Numeric { precision: 0, scale: 0 },
        Value::Json(_) => ColumnType::Json,
        Value::Interval(_) => ColumnType::Interval,
        Value::Array(items) => {
            proof {
                value::lemma_array_view(*items);
                lemma_first_present(items.deep_view());
            }
            let ghost view = items.deep_view();
            let mut i: usize = 0;
            while i < items.len()
                invariant
                    *value == Value::Array(*items),
                    view == items.deep_view(),
                    value@ == ValueView::Array(view),
                    i <= items@.len(),
                    forall|k: int| 0 <= k < i ==> view[k] is Null,
                decreases items@.len() - i,
            {
                assert(view[i as int] == items@[i as int]@);
                assert(decreases_to!(*value => (*value)->Array_0));
                assert(decreases_to!(*items => items[i as int]));
                match &items[i] {
                    Value::Null => {},
                    item => {
                        proof {
                            lemma_first_present_is(view, i as int);
                        }
                        return ColumnType::Array(
                            match ArrayElem::from_column_type(runtime_type_of(item)) {
                                Some(e) => e,
                                None => ArrayElem::Int,
                            },
                        );
                    },
                }
                i += 1;
            }
            proof {
                lemma_first_present(view);
            }
            ColumnType::Array(ArrayElem::Int)
        },
        Value::Vector(xs) => ColumnType::Vector((xs.len() as u64 % 0x1_0000_0000) as u32),
        Value::Bytes(_) => ColumnType::Bytes,
    }
}

/// The element type of an array of `items`: that of the first element that is not NULL, or `Int`.
pub fn array_elem_of(items: &[Value]) -> (r: ArrayElem)
    ensures
        r == elem_type(items.deep_view()),
{
    let ghost view = items.deep_view();
    let mut i: usize = 0;
    while i < items.len()
        invariant
            view == items.deep_view(),
            i <= items@.len(),
            forall|k: int| 0 <= k < i ==> view[k] is Null,
        decreases items@.len() - i,
    {
        assert(view[i as int] == items@[i as int]@);
        match &items[i] {
            Value::Null => {},
            item => {
                proof {
                    lemma_first_present_is(view, i as int);
                }
                return match ArrayElem::from_column_type(runtime_type_of(item)) {
                    Some(e) => e,
                    None => ArrayElem::Int,
                };
            },
        }
        i += 1;
    }
    proof {
        lemma_first_present(view);
    }
    ArrayElem::Int
}

/// The first element whose type differs from that of an earlier one.
pub open spec fn first_odd(items: Seq<ValueView>) -> Option<int> {
    if exists|i: int| odd_at(items, i) {
        Some(choose|i: int| odd_at(items, i))
    } else {
        None
    }
}

/// `items[i]` is the first element that is not NULL and differs in type from the first such one.
pub open spec fn odd_at(items: Seq<ValueView>, i: int) -> bool {
    &&& 0 <= i < items.len()
    &&& items[i] !is Null
    &&& first_present(items) matches Some(f) && runtime_type(items[i]) != runtime_type(items[f])
    &&& forall|k: int|
        0 <= k < i && (#[trigger] items[k]) !is Null ==> runtime_type(items[k]) == runtime_type(
            items[first_present(items)->0],
        )
}

/// The element type of an array literal, whose elements must share one type.
///
/// NULL elements are passed over. The elements are refused exactly when two of the others differ in
/// type; the error names the type of the first and that of the first one unlike it.
pub fn array_elem_checked(items: &[Value]) -> (r: Result<ArrayElem, Error>)
    ensures
        match first_odd(items.deep_view()) {
            None => r == Ok::<ArrayElem, Error>(elem_type(items.deep_view())),
            Some(i) => r == Err::<ArrayElem, Error>(
                Error::TypeMismatch {
                    expected: runtime_type(
                        items.deep_view()[first_present(items.deep_view())->0],
                    ),
                    found: runtime_type(items.deep_view()[i]),
                },
            ),
        },
{
    let ghost view = items.deep_view();
    let ghost mut first: int = 0;
    let mut elem: Option<ColumnType> = None;
    let mut i: usize = 0;
    while i < items.len()
        invariant
            view == items.deep_view(),
            i <= items@.len(),
            elem is None ==> forall|k: int| 0 <= k < i ==> view[k] is Null,
            elem matches Some(ty) ==> {
                &&& 0 <= first < i
                &&& first_present(view) == Some(first)
                &&& runtime_type(view[first]) == ty
                &&& forall|k: int|
                    0 <= k < i && view[k] !is Null ==> runtime_type(#[trigger] view[k]) == ty
            },
        decreases items@.len() - i,
    {
        assert(view[i as int] == items@[i as int]@);
        match &items[i] {
            Value::Null => {},
            item => {
                let ty = runtime_type_of(item);
                match elem {
                    None => {
                        proof {
                            first = i as int;
                            lemma_first_present_is(view, i as int);
                        }
                        elem = Some(ty);
                    },
                    Some(prev) => {
                        if prev != ty {
                            proof {
                                assert(odd_at(view, i as int));
                                let w = choose|w: int| odd_at(view, w);
                                assert(odd_at(view, w));
                                if w < i {
                                    assert(view[w] !is Null);
                                } else if w > i {
                                    assert(runtime_type(view[i as int]) == runtime_type(view[first]));
                                }
                            }
                            return Err(Error::TypeMismatch { expected: prev, found: ty });
                        }
                    },
                }
            },
        }
        i += 1;
    }
    proof {
        assert forall|w: int| !odd_at(view, w) by {
            if odd_at(view, w) {
                assert(view[w] !is Null);
            }
        }
        lemma_first_present(view);
    }
    match elem {
        Some(ty) => match ArrayElem::from_column_type(ty) {
            Some(e) => Ok(e),
            None => Ok(ArrayElem::Int),
        },
        None => Ok(ArrayElem::Int),
    }
}

// ---------------------------------------------------------------- reading

/// A length and that many bytes at `pos`: the bytes and where they end, or where reading stopped.
pub open spec fn bytes_field(bytes: Seq<u8>, pos: nat) -> Result<(Seq<u8>, nat), nat> {
    if pos + 4 > bytes.len() {
        Err(pos)
    } else {
        let n = le::num_at(bytes, pos, 4);
        if pos + 4 + n > bytes.len() {
            Err(pos + 4)
        } else {
            Ok((bytes.subrange((pos + 4) as int, (pos + 4 + n) as int), pos + 4 + n))
        }
    }
}

/// A length and that many bytes of UTF-8 at `pos`.
pub open spec fn text_field(bytes: Seq<u8>, pos: nat) -> Result<(Seq<char>, nat), nat> {
    match bytes_field(bytes, pos) {
        Ok((b, end)) => if valid_utf8(b) {
            Ok((decode_utf8(b), end))
        } else {
            Err(pos + 4)
        },
        Err(at) => Err(at),
    }
}

/// Array types stand above the types of their elements.
pub open spec fn rank(ty: ColumnType) -> nat {
    if ty is Array {
        1
    } else {
        0
    }
}

/// The present value of type `ty` at `pos` and the position after it, or the position at which the
/// bytes are found not to hold one.
pub open spec fn field(bytes: Seq<u8>, pos: nat, ty: ColumnType) -> Result<(ValueView, nat), nat>
    decreases rank(ty), 0nat, 0nat,
{
    match ty {
        ColumnType::Bool => if pos >= bytes.len() {
            Err(pos)
        } else {
            Ok((ValueView::Bool(bytes[pos as int] != 0), pos + 1))
        },
        ColumnType::Int | ColumnType::SmallInt | ColumnType::BigInt => if pos + 8 > bytes.len() {
            Err(pos)
        } else {
            Ok((ValueView::Int(le::i64_at(bytes, pos)), pos + 8))
        },
        ColumnType::Float | ColumnType::Real => if pos + 8 > bytes.len() {
            Err(pos)
        } else {
            Ok((ValueView::Float(le::num_at(bytes, pos, 8) as u64), pos + 8))
        },
        ColumnType::Date => if pos + 4 > bytes.len() {
            Err(pos)
        } else {
            Ok((ValueView::Date(le::i32_at(bytes, pos)), pos + 4))
        },
        ColumnType::Time => if pos + 8 > bytes.len() {
            Err(pos)
        } else {
            Ok((ValueView::Time(le::i64_at(bytes, pos)), pos + 8))
        },
        ColumnType::TimeTz => if pos + 8 > bytes.len() {
            Err(pos)
        } else {
            Ok((ValueView::TimeTz(le::i64_at(bytes, pos)), pos + 8))
        },
        ColumnType::Timestamp => if pos + 8 > bytes.len() {
            Err(pos)
        } else {
            Ok((ValueView::Timestamp(le::i64_at(bytes, pos)), pos + 8))
        },
        ColumnType::TimestampTz => if pos + 8 > bytes.len() {
            Err(pos)
        } else {
            Ok((ValueView::TimestampTz(le::i64_at(bytes, pos)), pos + 8))
        },
        ColumnType::Uuid => if pos + 16 > bytes.len() {
            Err(pos)
        } else {
            Ok((ValueView::Uuid(bytes.subrange(pos as int, (pos + 16) as int)), pos + 16))
        },
        ColumnType::Json | ColumnType::Jsonb => match text_field(bytes, pos) {
            Ok((t, end)) => Ok((ValueView::Json(t), end)),
            Err(at) => Err(at),
        },
        ColumnType::Numeric { .. } => if pos + 16 > bytes.len() {
            Err(pos)
        } else if pos + 17 > bytes.len() || bytes[(pos + 16) as int] > MAX_SCALE {
            Err(pos + 16)
        } else {
            let mantissa = le::untwos(le::num_at(bytes, pos, 16), 16) as i128;
            Ok(
                (
                    ValueView::Numeric(Decimal { mantissa, scale: bytes[(pos + 16) as int] }),
                    pos + 17,
                ),
            )
        },
        ColumnType::Interval => if pos + 4 > bytes.len() {
            Err(pos)
        } else if pos + 8 > bytes.len() {
            Err(pos + 4)
        } else if pos + 16 > bytes.len() {
            Err(pos + 8)
        } else {
            let iv = Interval {
                months: le::i32_at(bytes, pos),
                days: le::i32_at(bytes, pos + 4),
                micros: le::i64_at(bytes, pos + 8),
            };
            Ok((ValueView::Interval(iv), pos + 16))
        },
        ColumnType::Array(elem) => if pos + 4 > bytes.len() {
            Err(pos)
        } else {
            let n = le::num_at(bytes, pos, 4);
            if pos + 4 + n > bytes.len() {
                Err(pos)
            } else {
                match elements(bytes, pos + 4, types::elem_column_type(elem), n) {
                    Ok((items, end)) => Ok((ValueView::Array(items), end)),
                    Err(at) => Err(at),
                }
            }
        },
        ColumnType::Vector(dim) => if pos + 4 > bytes.len() {
            Err(pos)
        } else if le::num_at(bytes, pos, 4) != dim as nat {
            Err(pos)
        } else if pos + 4 + 4 * dim > bytes.len() {
            Err((pos + 4 + 4 * ((bytes.len() - pos - 4) / 4)) as nat)
        } else {
            Ok(
                (
                    ValueView::Vector(le::words_at(bytes, pos + 4, dim as nat)),
                    pos + 4 + 4 * dim as nat,
                ),
            )
        },
        ColumnType::Text | ColumnType::VarChar(_) | ColumnType::Char(_) => match text_field(
            bytes,
            pos,
        ) {
            Ok((t, end)) => Ok((ValueView::Text(t), end)),
            Err(at) => Err(at),
        },
        ColumnType::Bytes => match bytes_field(bytes, pos) {
            Ok((b, end)) => Ok((ValueView::Bytes(b), end)),
            Err(at) => Err(at),
        },
    }
}

/// The tagged value of type `ty` at `pos`: NULL, or a present value.
pub open spec fn tagged(bytes: Seq<u8>, pos: nat, ty: ColumnType) -> Result<(ValueView, nat), nat>
    decreases rank(ty), 1nat, 0nat,
{
    if pos >= bytes.len() {
        Err(pos)
    } else if bytes[pos as int] == TAG_NULL {
        Ok((ValueView::Null, pos + 1))
    } else if bytes[pos as int] == TAG_PRESENT {
        field(bytes, pos + 1, ty)
    } else {
        Err(pos)
    }
}

/// `n` tagged values of type `ty` one after the other from `pos` on.
pub open spec fn elements(bytes: Seq<u8>, pos: nat, ty: ColumnType, n: nat) -> Result<
    (Seq<ValueView>, nat),
    nat,
>
    decreases rank(ty), 2nat, n,
{
    if n == 0 {
        Ok((Seq::empty(), pos))
    } else {
        match tagged(bytes, pos, ty) {
            Ok((v, next)) => match elements(bytes, next, ty, (n - 1) as nat) {
                Ok((rest, end)) => Ok((seq![v] + rest, end)),
                Err(at) => Err(at),
            },
            Err(at) => Err(at),
        }
    }
}

/// The columns of `schema` from the `i`-th on, read from `pos` on.
pub open spec fn columns_from(bytes: Seq<u8>, schema: Seq<ColumnType>, i: nat, pos: nat) -> Result<
    (Seq<ValueView>, nat),
    nat,
>
    decreases schema.len() - i,
{
    if i >= schema.len() {
        Ok((Seq::empty(), pos))
    } else {
        match tagged(bytes, pos, schema[i as int]) {
            Ok((v, next)) => match columns_from(bytes, schema, i + 1, next) {
                Ok((rest, end)) => Ok((seq![v] + rest, end)),
                Err(at) => Err(at),
            },
            Err(at) => Err(at),
        }
    }
}

/// The row that a tuple of `schema` holds; bytes after its last column are not looked at.
pub open spec fn tuple(bytes: Seq<u8>, schema: Seq<ColumnType>) -> Result<(Seq<ValueView>, nat), nat> {
    columns_from(bytes, schema, 0, 0)
}

/// What reading says of its outcome.
pub open spec fn outcome_is(
    expected: Result<(ValueView, nat), nat>,
    r: Result<(Value, usize), Error>,
) -> bool {
    match expected {
        Ok((v, p)) => r matches Ok((x, next)) && x@ == v && next == p,
        Err(at) => r == Err::<(Value, usize), Error>(Error::MalformedTuple { offset: at as usize }),
    }
}

/// Whether `n` bytes stand at `pos`.
fn have(bytes: &[u8], pos: usize, n: usize) -> (r: bool)
    ensures
        r == (pos + n <= bytes@.len()),
        r ==> pos + n <= usize::MAX,
{
    pos <= bytes.len() && n <= bytes.len() - pos
}

/// The NULL/present tag of the field at `pos`: whether it is present, and where its payload starts.
///
/// Refused at `pos` when there is no byte there or it is no tag.
pub fn field_tag(bytes: &[u8], pos: usize) -> (r: Result<(bool, usize), Error>)
    ensures
        pos < bytes@.len() && bytes@[pos as int] == TAG_NULL ==> r == Ok::<(bool, usize), Error>(
            (false, (pos + 1) as usize),
        ),
        pos < bytes@.len() && bytes@[pos as int] == TAG_PRESENT ==> r == Ok::<(bool, usize), Error>(
            (true, (pos + 1) as usize),
        ),
        pos >= bytes@.len() || bytes@[pos as int] > TAG_PRESENT ==> r == Err::<
            (bool, usize),
            Error,
        >(Error::MalformedTuple { offset: pos }),
        r matches Ok((_, next)) ==> next == pos + 1 <= bytes@.len(),
{
    if pos >= bytes.len() {
        return Err(Error::MalformedTuple { offset: pos });
    }
    let tag: u8 = bytes[pos];
    if tag == TAG_NULL {
        Ok((false, pos + 1))
    } else if tag == TAG_PRESENT {
        Ok((true, pos + 1))
    } else {
        Err(Error::MalformedTuple { offset: pos })
    }
}

/// The boolean at `pos` and the position after it.
pub fn read_bool_field(bytes: &[u8], pos: usize) -> (r: Result<(bool, usize), Error>)
    ensures
        pos < bytes@.len() ==> r == Ok::<(bool, usize), Error>(
            (bytes@[pos as int] != 0, (pos + 1) as usize),
        ) && pos + 1 <= usize::MAX,
        pos >= bytes@.len() ==> r == Err::<(bool, usize), Error>(
            Error::MalformedTuple { offset: pos },
        ),
{
    if pos >= bytes.len() {
        return Err(Error::MalformedTuple { offset: pos });
    }
    Ok((bytes[pos] != 0, pos + 1))
}

/// The 64-bit integer at `pos` and the position after it.
pub fn read_i64_field(bytes: &[u8], pos: usize) -> (r: Result<(i64, usize), Error>)
    ensures
        pos + 8 <= bytes@.len() ==> r == Ok::<(i64, usize), Error>(
            (le::i64_at(bytes@, pos as nat), (pos + 8) as usize),
        ) && pos + 8 <= usize::MAX,
        pos + 8 > bytes@.len() ==> r == Err::<(i64, usize), Error>(
            Error::MalformedTuple { offset: pos },
        ),
{
    if !have(bytes, pos, 8) {
        return Err(Error::MalformedTuple { offset: pos });
    }
    Ok((le::bits_i64(le::read_le(bytes, pos, 8)), pos + 8))
}

/// The bits of the 64-bit float at `pos` and the position after it.
pub fn read_f64_field(bytes: &[u8], pos: usize) -> (r: Result<(u64, usize), Error>)
    ensures
        pos + 8 <= bytes@.len() ==> r == Ok::<(u64, usize), Error>(
            (le::num_at(bytes@, pos as nat, 8) as u64, (pos + 8) as usize),
        ) && pos + 8 <= usize::MAX,
        pos + 8 > bytes@.len() ==> r == Err::<(u64, usize), Error>(
            Error::MalformedTuple { offset: pos },
        ),
{
    if !have(bytes, pos, 8) {
        return Err(Error::MalformedTuple { offset: pos });
    }
    let v: u128 = le::read_le(bytes, pos, 8);
    proof {
        le::lemma_pow256();
    }
    Ok((v as u64, pos + 8))
}

/// The 32-bit integer at `pos` and the position after it.
fn read_i32_field(bytes: &[u8], pos: usize) -> (r: Result<(i32, usize), Error>)
    ensures
        pos + 4 <= bytes@.len() ==> r == Ok::<(i32, usize), Error>(
            (le::i32_at(bytes@, pos as nat), (pos + 4) as usize),
        ) && pos + 4 <= usize::MAX,
        pos + 4 > bytes@.len() ==> r == Err::<(i32, usize), Error>(
            Error::MalformedTuple { offset: pos },
        ),
{
    if !have(bytes, pos, 4) {
        return Err(Error::MalformedTuple { offset: pos });
    }
    Ok((le::bits_i32(le::read_le(bytes, pos, 4)), pos + 4))
}

/// The 32-bit count at `pos`.
fn read_count(bytes: &[u8], pos: usize) -> (r: Result<usize, Error>)
    ensures
        pos + 4 <= bytes@.len() ==> pos + 4 <= usize::MAX && (r matches Ok(n) && n as nat
            == le::num_at(bytes@, pos as nat, 4) && n <= u32::MAX),
        pos + 4 > bytes@.len() ==> r == Err::<usize, Error>(Error::MalformedTuple { offset: pos }),
{
    if !have(bytes, pos, 4) {
        return Err(Error::MalformedTuple { offset: pos });
    }
    let v: u128 = le::read_le(bytes, pos, 4);
    proof {
        le::lemma_pow256();
    }
    Ok(v as usize)
}

/// The bounds of the length-prefixed bytes at `pos`.
fn blob_bounds(bytes: &[u8], pos: usize) -> (r: Result<(usize, usize), Error>)
    ensures
        match bytes_field(bytes@, pos as nat) {
            Ok((b, end)) => r matches Ok((s, e)) && s == pos + 4 && e == end && s <= e
                <= bytes@.len() && b == bytes@.subrange(s as int, e as int),
            Err(at) => r == Err::<(usize, usize), Error>(
                Error::MalformedTuple { offset: at as usize },
            ) && at <= usize::MAX,
        },
{
    match read_count(bytes, pos) {
        Ok(n) => {
            let start: usize = pos + 4;
            if !have(bytes, start, n) {
                return Err(Error::MalformedTuple { offset: start });
            }
            Ok((start, start + n))
        },
        Err(e) => Err(e),
    }
}

/// The text at `pos` and the position after it.
///
/// Refused at `pos` when the length is cut short, and after the length when the text is cut short
/// or is not UTF-8.
pub fn read_text_field(bytes: &[u8], pos: usize) -> (r: Result<(String, usize), Error>)
    ensures
        match text_field(bytes@, pos as nat) {
            Ok((t, end)) => r matches Ok((s, e)) && s@ == t && e == end,
            Err(at) => r == Err::<(String, usize), Error>(
                Error::MalformedTuple { offset: at as usize },
            ),
        },
{
    match blob_bounds(bytes, pos) {
        Ok((s, e)) => match text::utf8_to_string(le::copy_bytes(bytes, s, e - s)) {
            Some(t) => Ok((t, e)),
            None => Err(Error::MalformedTuple { offset: s }),
        },
        Err(e) => Err(e),
    }
}

/// `read_text_field` without the text: the position after it.
fn skip_text_field(bytes: &[u8], pos: usize) -> (r: Result<usize, Error>)
    ensures
        match text_field(bytes@, pos as nat) {
            Ok((t, end)) => r == Ok::<usize, Error>(end as usize) && end <= usize::MAX,
            Err(at) => r == Err::<usize, Error>(Error::MalformedTuple { offset: at as usize }),
        },
{
    match blob_bounds(bytes, pos) {
        Ok((s, e)) => {
            if text::is_utf8(bytes, s, e) {
                Ok(e)
            } else {
                Err(Error::MalformedTuple { offset: s })
            }
        },
        Err(e) => Err(e),
    }
}

fn read_uuid(bytes: &[u8], pos: usize) -> (b: [u8; 16])
    requires
        pos + 16 <= bytes@.len(),
    ensures
        b@ == bytes@.subrange(pos as int, pos + 16),
{
    let total: usize = bytes.len();
    let mut b: [u8; 16] = [0u8; 16];
    let mut i: usize = 0;
    while i < 16
        invariant
            i <= 16,
            pos + 16 <= bytes@.len() == total,
            forall|k: int| 0 <= k < i ==> b@[k] == bytes@[pos + k],
        decreases 16 - i,
    {
        b[i] = bytes[pos + i];
        i += 1;
    }
    assert(b@ =~= bytes@.subrange(pos as int, pos + 16));
    b
}

fn read_words(bytes: &[u8], pos: usize, n: usize) -> (r: Result<(Vec<u32>, usize), Error>)
    requires
        pos <= bytes@.len(),
        n <= u32::MAX,
    ensures
        pos + 4 * n <= bytes@.len() ==> (r matches Ok((v, end)) && v@ == le::words_at(
            bytes@,
            pos as nat,
            n as nat,
        ) && end == pos + 4 * n),
        pos + 4 * n > bytes@.len() ==> r == Err::<(Vec<u32>, usize), Error>(
            Error::MalformedTuple { offset: (pos + 4 * ((bytes@.len() - pos) / 4)) as usize },
        ),
{
    let mut out: Vec<u32> = Vec::new();
    let mut p: usize = pos;
    let mut i: usize = 0;
    while i < n
        invariant
            i <= n <= u32::MAX,
            pos <= p <= bytes@.len(),
            p == pos + 4 * i,
            out@ == le::words_at(bytes@, pos as nat, i as nat),
        decreases n - i,
    {
        match read_count(bytes, p) {
            Ok(v) => {
                out.push(v as u32);
                p = p + 4;
            },
            Err(e) => {
                return Err(e);
            },
        }
        i += 1;
        assert(out@ =~= le::words_at(bytes@, pos as nat, i as nat));
    }
    Ok((out, p))
}

/// The value of a present field whose payload starts at `pos`, and the position after it.
pub fn decode_present_value(bytes: &[u8], pos: usize, ty: ColumnType) -> (r: Result<
    (Value, usize),
    Error,
>)
    ensures
        outcome_is(field(bytes@, pos as nat, ty), r),
{
    decode_value(bytes, pos, ty)
}

/// The present value of type `ty` at `pos` and the position after it.
fn decode_value(bytes: &[u8], pos: usize, ty: ColumnType) -> (r: Result<(Value, usize), Error>)
    ensures
        outcome_is(field(bytes@, pos as nat, ty), r),
    decreases rank(ty), 0nat,
{
    match ty {
        ColumnType::Bool => match read_bool_field(bytes, pos) {
            Ok((b, next)) => Ok((Value::Bool(b), next)),
            Err(e) => Err(e),
        },
        ColumnType::Int | ColumnType::SmallInt | ColumnType::BigInt => match read_i64_field(
            bytes,
            pos,
        ) {
            Ok((v, next)) => Ok((Value::Int(v), next)),
            Err(e) => Err(e),
        },
        ColumnType::Float | ColumnType::Real => match read_f64_field(bytes, pos) {
            Ok((v, next)) => Ok((Value::Float(v), next)),
            Err(e) => Err(e),
        },
        ColumnType::Date => match read_i32_field(bytes, pos) {
            Ok((v, next)) => Ok((Value::Date(v), next)),
            Err(e) => Err(e),
        },
        ColumnType::Time => match read_i64_field(bytes, pos) {
            Ok((v, next)) => Ok((Value::Time(v), next)),
            Err(e) => Err(e),
        },
        ColumnType::TimeTz => match read_i64_field(bytes, pos) {
            Ok((v, next)) => Ok((Value::TimeTz(v), next)),
            Err(e) => Err(e),
        },
        ColumnType::Timestamp => match read_i64_field(bytes, pos) {
            Ok((v, next)) => Ok((Value::Timestamp(v), next)),
            Err(e) => Err(e),
        },
        ColumnType::TimestampTz => match read_i64_field(bytes, pos) {
            Ok((v, next)) => Ok((Value::TimestampTz(v), next)),
            Err(e) => Err(e),
        },
        ColumnType::Uuid => {
            if !have(bytes, pos, 16) {
                return Err(Error::MalformedTuple { offset: pos });
            }
            Ok((Value::Uuid(read_uuid(bytes, pos)), pos + 16))
        },
        ColumnType::Json | ColumnType::Jsonb => match read_text_field(bytes, pos) {
            Ok((t, end)) => Ok((Value::Json(t), end)),
            Err(e) => Err(e),
        },
        ColumnType::Numeric { .. } => {
            if !have(bytes, pos, 16) {
                return Err(Error::MalformedTuple { offset: pos });
            }
            let mantissa: i128 = le::bits_i128(le::read_le(bytes, pos, 16));
            if !have(bytes, pos, 17) {
                return Err(Error::MalformedTuple { offset: pos + 16 });
            }
            let scale: u8 = bytes[pos + 16];
            if scale > MAX_SCALE {
                return Err(Error::MalformedTuple { offset: pos + 16 });
            }
            Ok((Value::Numeric(Decimal { mantissa, scale }), pos + 17))
        },
        ColumnType::Interval => {
            let (months, p1): (i32, usize) = match read_i32_field(bytes, pos) {
                Ok(x) => x,
                Err(e) => {
                    return Err(e);
                },
            };
            let (days, p2): (i32, usize) = match read_i32_field(bytes, p1) {
                Ok(x) => x,
                Err(e) => {
                    return Err(e);
                },
            };
            match read_i64_field(bytes, p2) {
                Ok((micros, p3)) => Ok((Value::Interval(Interval { months, days, micros }), p3)),
                Err(e) => Err(e),
            }
        },
        ColumnType::Array(elem) => {
            let n: usize = match read_count(bytes, pos) {
                Ok(n) => n,
                Err(e) => {
                    return Err(e);
                },
            };
            if !have(bytes, pos + 4, n) {
                return Err(Error::MalformedTuple { offset: pos });
            }
            match decode_elements(bytes, pos + 4, elem.column_type(), n) {
                Ok((items, end)) => {
                    proof {
                        value::lemma_array_view(items);
                    }
                    Ok((Value::Array(items), end))
                },
                Err(e) => Err(e),
            }
        },
        ColumnType::Vector(dim) => {
            let n: usize = match read_count(bytes, pos) {
                Ok(n) => n,
                Err(e) => {
                    return Err(e);
                },
            };
            if n != dim as usize {
                return Err(Error::MalformedTuple { offset: pos });
            }
            match read_words(bytes, pos + 4, n) {
                Ok((xs, end)) => Ok((Value::Vector(xs), end)),
                Err(e) => Err(e),
            }
        },
        ColumnType::Text | ColumnType::VarChar(_) | ColumnType::Char(_) => match read_text_field(
            bytes,
            pos,
        ) {
            Ok((t, end)) => Ok((Value::Text(t), end)),
            Err(e) => Err(e),
        },
        ColumnType::Bytes => match blob_bounds(bytes, pos) {
            Ok((s, e)) => Ok((Value::Bytes(le::copy_bytes(bytes, s, e - s)), e)),
            Err(e) => Err(e),
        },
    }
}

/// `head` in front of what was read.
spec fn prepend(head: Seq<ValueView>, rest: Result<(Seq<ValueView>, nat), nat>) -> Result<
    (Seq<ValueView>, nat),
    nat,
> {
    match rest {
        Ok((items, p)) => Ok((head + items, p)),
        Err(at) => Err(at),
    }
}

/// `n` tagged values of a type that is no array type.
fn decode_elements(bytes: &[u8], pos: usize, ty: ColumnType, n: usize) -> (r: Result<
    (Vec<Value>, usize),
    Error,
>)
    requires
        rank(ty) == 0,
    ensures
        match elements(bytes@, pos as nat, ty, n as nat) {
            Ok((items, end)) => r matches Ok((x, e)) && x.deep_view() == items && e == end,
            Err(at) => r == Err::<(Vec<Value>, usize), Error>(
                Error::MalformedTuple { offset: at as usize },
            ),
        },
    decreases rank(ty), 1nat,
{
    let mut out: Vec<Value> = Vec::new();
    let mut p: usize = pos;
    let mut i: usize = 0;
    let ghost data = bytes@;
    let ghost whole = elements(data, pos as nat, ty, n as nat);
    assert(out.deep_view() =~= Seq::<ValueView>::empty());
    assert(whole matches Ok((items, q)) ==> items =~= out.deep_view() + items);
    while i < n
        invariant
            data == bytes@,
            rank(ty) == 0,
            i <= n,
            whole == elements(data, pos as nat, ty, n as nat),
            whole == prepend(out.deep_view(), elements(data, p as nat, ty, (n - i) as nat)),
        decreases n - i,
    {
        let ghost before = out.deep_view();
        let ghost q = p as nat;
        let (present, at): (bool, usize) = match field_tag(bytes, p) {
            Ok(x) => x,
            Err(e) => {
                return Err(e);
            },
        };
        if present {
            match decode_value(bytes, at, ty) {
                Ok((v, next)) => {
                    out.push(v);
                    p = next;
                },
                Err(e) => {
                    return Err(e);
                },
            }
        } else {
            out.push(Value::Null);
            p = at;
        }
        proof {
            let v = out@.last()@;
            assert(tagged(data, q, ty) == Ok::<(ValueView, nat), nat>((v, p as nat)));
            assert(out.deep_view() =~= before.push(v));
            let rest = elements(data, p as nat, ty, (n - i - 1) as nat);
            assert(elements(data, q, ty, (n - i) as nat) == prepend(seq![v], rest));
            if let Ok((items, e)) = rest {
                assert(before + (seq![v] + items) =~= out.deep_view() + items);
            }
        }
        i += 1;
    }
    assert(out.deep_view() + Seq::<ValueView>::empty() =~= out.deep_view());
    Ok((out, p))
}

/// Read a stored tuple back into a row.
///
/// Refused, with the position at which the bytes stop making sense, exactly when `tuple` is.
pub fn decode(bytes: &[u8], schema: &[ColumnType]) -> (r: Result<Row, Error>)
    ensures
        match tuple(bytes@, schema@) {
            Ok((row, end)) => r matches Ok(x) && x.deep_view() == row,
            Err(at) => r == Err::<Row, Error>(Error::MalformedTuple { offset: at as usize }),
        },
{
    let mut out: Vec<Value> = Vec::new();
    let mut p: usize = 0;
    let mut i: usize = 0;
    let ghost data = bytes@;
    let ghost whole = tuple(data, schema@);
    assert(out.deep_view() =~= Seq::<ValueView>::empty());
    assert(whole matches Ok((items, q)) ==> items =~= out.deep_view() + items);
    while i < schema.len()
        invariant
            data == bytes@,
            i <= schema@.len(),
            whole == tuple(data, schema@),
            whole == prepend(out.deep_view(), columns_from(data, schema@, i as nat, p as nat)),
        decreases schema@.len() - i,
    {
        let ghost before = out.deep_view();
        let ghost q = p as nat;
        let ty = schema[i];
        let (present, at): (bool, usize) = match field_tag(bytes, p) {
            Ok(x) => x,
            Err(e) => {
                return Err(e);
            },
        };
        if present {
            match decode_value(bytes, at, ty) {
                Ok((v, next)) => {
                    out.push(v);
                    p = next;
                },
                Err(e) => {
                    return Err(e);
                },
            }
        } else {
            out.push(Value::Null);
            p = at;
        }
        proof {
            let v = out@.last()@;
            assert(tagged(data, q, ty) == Ok::<(ValueView, nat), nat>((v, p as nat)));
            assert(out.deep_view() =~= before.push(v));
            let rest = columns_from(data, schema@, (i + 1) as nat, p as nat);
            assert(columns_from(data, schema@, i as nat, q) == prepend(seq![v], rest));
            if let Ok((items, e)) = rest {
                assert(before + (seq![v] + items) =~= out.deep_view() + items);
            }
        }
        i += 1;
    }
    assert(out.deep_view() + Seq::<ValueView>::empty() =~= out.deep_view());
    Ok(out)
}

/// The position after the present value of type `ty` at `pos`, without building the value.
///
/// The position, and any refusal, are those of reading the value.
pub fn skip_value(bytes: &[u8], pos: usize, ty: ColumnType) -> (r: Result<usize, Error>)
    ensures
        match field(bytes@, pos as nat, ty) {
            Ok((v, p)) => r matches Ok(next) && next == p,
            Err(at) => r == Err::<usize, Error>(Error::MalformedTuple { offset: at as usize }),
        },
{
    match ty {
        ColumnType::Text
        | ColumnType::VarChar(_)
        | ColumnType::Char(_)
        | ColumnType::Json
        | ColumnType::Jsonb => skip_text_field(bytes, pos),
        ColumnType::Bytes => match blob_bounds(bytes, pos) {
            Ok((_, e)) => Ok(e),
            Err(e) => Err(e),
        },
        _ => match decode_value(bytes, pos, ty) {
            Ok((_, next)) => Ok(next),
            Err(e) => Err(e),
        },
    }
}

/// The columns from the `i`-th on, of which only those named by `keep` from its `w`-th entry on are
/// kept: each entry is looked for at or after the columns already passed.
pub open spec fn kept_from(
    bytes: Seq<u8>,
    schema: Seq<ColumnType>,
    keep: Seq<usize>,
    i: nat,
    w: nat,
    pos: nat,
) -> Result<Seq<ValueView>, nat>
    decreases schema.len() - i,
{
    if i >= schema.len() {
        Ok(Seq::empty())
    } else {
        match tagged(bytes, pos, schema[i as int]) {
            Ok((v, next)) => {
                let wanted = w < keep.len() && keep[w as int] == i;
                let rest = kept_from(
                    bytes,
                    schema,
                    keep,
                    i + 1,
                    if wanted {
                        w + 1
                    } else {
                        w
                    },
                    next,
                );
                match rest {
                    Ok(vs) => if wanted {
                        Ok(seq![v] + vs)
                    } else {
                        Ok(vs)
                    },
                    Err(at) => Err(at),
                }
            },
            Err(at) => Err(at),
        }
    }
}

/// Read a stored tuple into a row of only the columns whose ordinals `keep` lists, ascending.
///
/// A dropped column is stepped over without building its value, and is still checked.
pub fn decode_projected(bytes: &[u8], schema: &[ColumnType], keep: &[usize]) -> (r: Result<
    Row,
    Error,
>)
    ensures
        match kept_from(bytes@, schema@, keep@, 0, 0, 0) {
            Ok(row) => r matches Ok(x) && x.deep_view() == row,
            Err(at) => r == Err::<Row, Error>(Error::MalformedTuple { offset: at as usize }),
        },
{
    let mut out: Vec<Value> = Vec::new();
    let mut p: usize = 0;
    let mut i: usize = 0;
    let mut w: usize = 0;
    let ghost data = bytes@;
    let ghost whole = kept_from(data, schema@, keep@, 0, 0, 0);
    assert(out.deep_view() =~= Seq::<ValueView>::empty());
    assert(whole matches Ok(items) ==> items =~= out.deep_view() + items);
    while i < schema.len()
        invariant
            data == bytes@,
            i <= schema@.len(),
            w <= keep@.len(),
            whole == kept_from(data, schema@, keep@, 0, 0, 0),
            whole == prepend_kept(
                out.deep_view(),
                kept_from(data, schema@, keep@, i as nat, w as nat, p as nat),
            ),
        decreases schema@.len() - i,
    {
        let ghost before = out.deep_view();
        let ghost q = p as nat;
        let ghost w0 = w as nat;
        let ty = schema[i];
        let (present, at): (bool, usize) = match field_tag(bytes, p) {
            Ok(x) => x,
            Err(e) => {
                return Err(e);
            },
        };
        let wanted: bool = w < keep.len() && keep[w] == i;
        if present {
            if wanted {
                match decode_value(bytes, at, ty) {
                    Ok((v, next)) => {
                        out.push(v);
                        p = next;
                    },
                    Err(e) => {
                        return Err(e);
                    },
                }
            } else {
                match skip_value(bytes, at, ty) {
                    Ok(next) => {
                        p = next;
                    },
                    Err(e) => {
                        return Err(e);
                    },
                }
            }
        } else {
            if wanted {
                out.push(Value::Null);
            }
            p = at;
        }
        if wanted {
            w = w + 1;
        }
        proof {
            let rest = kept_from(data, schema@, keep@, (i + 1) as nat, w as nat, p as nat);
            let here = kept_from(data, schema@, keep@, i as nat, w0, q);
            assert(tagged(data, q, ty) matches Ok((v, next)) && next == p);
            if wanted {
                let v = out@.last()@;
                assert(tagged(data, q, ty) == Ok::<(ValueView, nat), nat>((v, p as nat)));
                assert(out.deep_view() =~= before.push(v));
                assert(here == prepend_kept(seq![v], rest));
                if let Ok(items) = rest {
                    assert(before + (seq![v] + items) =~= out.deep_view() + items);
                }
            } else {
                assert(here == rest);
            }
        }
        i += 1;
    }
    assert(out.deep_view() + Seq::<ValueView>::empty() =~= out.deep_view());
    Ok(out)
}

spec fn prepend_kept(head: Seq<ValueView>, rest: Result<Seq<ValueView>, nat>) -> Result<
    Seq<ValueView>,
    nat,
> {
    match rest {
        Ok(items) => Ok(head + items),
        Err(at) => Err(at),
    }
}

/// A projected read of ascending ordinals of the schema is the projection of the full read: the same
/// values in the same order, and refused at the same position.
pub proof fn law_projected_read_is_projection(
    bytes: Seq<u8>,
    schema: Seq<ColumnType>,
    keep: Seq<usize>,
)
    requires
        forall|a: int, b: int| 0 <= a < b < keep.len() ==> keep[a] < keep[b],
        forall|a: int| 0 <= a < keep.len() ==> keep[a] < schema.len(),
    ensures
        match tuple(bytes, schema) {
            Ok((row, end)) => kept_from(bytes, schema, keep, 0, 0, 0) == Ok::<Seq<ValueView>, nat>(
                keep.map_values(|k: usize| row[k as int]),
            ),
            Err(at) => kept_from(bytes, schema, keep, 0, 0, 0) == Err::<Seq<ValueView>, nat>(at),
        },
{
    lemma_projected(bytes, schema, keep, 0, 0, 0);
    if let Ok((row, end)) = tuple(bytes, schema) {
        assert(keep.skip(0).map_values(|k: usize| row[k - 0]) =~= keep.map_values(
            |k: usize| row[k as int],
        ));
    }
}

proof fn lemma_projected(
    bytes: Seq<u8>,
    schema: Seq<ColumnType>,
    keep: Seq<usize>,
    i: nat,
    w: nat,
    pos: nat,
)
    requires
        i <= schema.len(),
        w <= keep.len(),
        forall|a: int, b: int| 0 <= a < b < keep.len() ==> keep[a] < keep[b],
        forall|a: int| w <= a < keep.len() ==> i <= #[trigger] keep[a] < schema.len(),
    ensures
        match columns_from(bytes, schema, i, pos) {
            Ok((row, end)) => kept_from(bytes, schema, keep, i, w, pos) == Ok::<Seq<ValueView>, nat>(
                keep.skip(w as int).map_values(|k: usize| row[k - i]),
            ) && row.len() == schema.len() - i,
            Err(at) => kept_from(bytes, schema, keep, i, w, pos) == Err::<Seq<ValueView>, nat>(at),
        },
    decreases schema.len() - i,
{
    if i < schema.len() {
        if let Ok((v, next)) = tagged(bytes, pos, schema[i as int]) {
            let wanted = w < keep.len() && keep[w as int] == i;
            let w2 = if wanted {
                w + 1
            } else {
                w
            };
            assert forall|a: int| w2 <= a < keep.len() implies i + 1 <= #[trigger] keep[a]
                < schema.len() by {
                if wanted {
                    assert(keep[w as int] < keep[a]);
                } else if w < keep.len() {
                    assert(keep[w as int] >= i);
                    if a > w {
                        assert(keep[w as int] < keep[a]);
                    }
                }
            }
            lemma_projected(bytes, schema, keep, i + 1, w2, next);
            if let Ok((row, end)) = columns_from(bytes, schema, i, pos) {
                let rest = columns_from(bytes, schema, i + 1, next)->Ok_0.0;
                assert(row == seq![v] + rest);
                let want = keep.skip(w as int).map_values(|k: usize| row[k - i]);
                let tail = keep.skip(w2 as int).map_values(|k: usize| rest[k - (i + 1)]);
                if wanted {
                    assert(want =~= seq![v] + tail) by {
                        assert forall|a: int| 0 <= a < want.len() implies want[a] == (seq![v]
                            + tail)[a] by {
                            if a > 0 {
                                assert(keep.skip(w as int)[a] == keep[w + a]);
                                assert(keep.skip(w2 as int)[a - 1] == keep[w + a]);
                                assert(i + 1 <= keep[w + a]);
                            }
                        }
                    }
                } else {
                    assert(want =~= tail) by {
                        assert forall|a: int| 0 <= a < want.len() implies want[a] == tail[a] by {
                            assert(keep.skip(w as int)[a] == keep[w + a]);
                            assert(i + 1 <= keep[w + a]);
                        }
                    }
                }
            }
        }
    } else {
        assert(w == keep.len()) by {
            if w < keep.len() {
                assert(keep[w as int] < schema.len());
            }
        }
        if let Ok((row, end)) = columns_from(bytes, schema, i, pos) {
            assert(keep.skip(w as int).map_values(|k: usize| row[k - i]) =~= Seq::<ValueView>::empty());
        }
    }
}

// ---------------------------------------------------------------- writing

/// A conversion that the writer cannot make itself: `value`, which is to be stored as a `ty`.
///
/// Text is parsed as the type, numbers are widened to floats, and decimals are brought to the
/// declared scale.
#[derive(Debug, PartialEq, Eq)]
pub struct Conversion {
    pub value: Value,
    pub ty: ColumnType,
}

/// How a conversion went.
#[derive(Debug, PartialEq, Eq)]
pub enum Outcome {
    /// The value converted to the type.
    Value(Value),
    /// A decimal at the declared scale, and how many digits it then has.
    Rescaled { value: Decimal, digits: u32 },
    /// The value is not one of the type.
    Refused,
}

/// What an [`Outcome`] holds.
pub enum OutcomeView {
    Value(ValueView),
    Rescaled { value: Decimal, digits: u32 },
    Refused,
}

impl DeepView for Outcome {
    type V = OutcomeView;

    open spec fn deep_view(&self) -> OutcomeView {
        match *self {
            Outcome::Value(v) => OutcomeView::Value(v@),
            Outcome::Rescaled { value, digits } => OutcomeView::Rescaled { value, digits },
            Outcome::Refused => OutcomeView::Refused,
        }
    }
}

/// Why a value cannot be stored.
pub enum Refusal {
    Invalid { ty: ColumnType, value: ValueView },
    Mismatch { expected: ColumnType, found: ColumnType },
    TooLarge(Oversized),
    Unexpected,
}

/// `e` reports the refusal `f`.
pub open spec fn reports(e: Error, f: Refusal) -> bool {
    match f {
        Refusal::Invalid { ty, value } => e matches Error::InvalidValue { ty: t, value: v } && t == ty
            && v@ == value,
        Refusal::Mismatch { expected, found } => e == (Error::TypeMismatch { expected, found }),
        Refusal::TooLarge(what) => e == Error::TooLarge(what),
        Refusal::Unexpected => e == Error::UnexpectedOutcome,
    }
}

/// How far writing gets with the outcomes at hand.
pub enum Writing {
    /// Done: the bytes, how many outcomes have been used up, and the value that is now stored.
    Done { bytes: Seq<u8>, used: nat, stored: ValueView },
    /// The next outcome is missing: this value is to be converted to this type.
    Needs { value: ValueView, ty: ColumnType },
    Refused(Refusal),
}

/// `s` without the blanks at its end.
pub open spec fn without_blanks(s: Seq<char>) -> Seq<char>
    decreases s.len(),
{
    if s.len() > 0 && s.last() == ' ' {
        without_blanks(s.drop_last())
    } else {
        s
    }
}

/// The form in which `v` is stored in a column of type `ty`: blanks at the end of a `Char` value
/// do not count.
pub open spec fn canonical(v: ValueView, ty: ColumnType) -> ValueView {
    if ty is Char && v is Text {
        ValueView::Text(without_blanks(v->Text_0))
    } else {
        v
    }
}

/// A length and the bytes themselves.
pub open spec fn blob(b: Seq<u8>) -> Seq<u8> {
    le::le_bytes(b.len(), 4) + b
}

pub open spec fn decimal_bytes(d: Decimal) -> Seq<u8> {
    le::le_bytes(le::twos(d.mantissa as int, 16), 16) + seq![d.scale]
}

/// The bytes of a value that is already of the (physical, non-array) type; `None` for any other.
pub open spec fn exact(v: ValueView, ty: ColumnType) -> Option<Result<Seq<u8>, Refusal>> {
    match (v, ty) {
        (ValueView::Bool(b), ColumnType::Bool) => Some(
            Ok(
                seq![if b {
                    1u8
                } else {
                    0u8
                }],
            ),
        ),
        (ValueView::Int(i), ColumnType::Int) => Some(Ok(le::le_bytes(le::twos(i as int, 8), 8))),
        (ValueView::Float(f), ColumnType::Float) => Some(Ok(le::le_bytes(f as nat, 8))),
        (ValueView::Text(s), ColumnType::Text) => Some(
            if encode_utf8(s).len() <= u32::MAX {
                Ok(blob(encode_utf8(s)))
            } else {
                Err(Refusal::TooLarge(Oversized::Text))
            },
        ),
        (ValueView::Date(d), ColumnType::Date) => Some(Ok(le::le_bytes(le::twos(d as int, 4), 4))),
        (ValueView::Time(t), ColumnType::Time) => Some(Ok(le::le_bytes(le::twos(t as int, 8), 8))),
        (ValueView::TimeTz(t), ColumnType::TimeTz) => Some(
            Ok(le::le_bytes(le::twos(t as int, 8), 8)),
        ),
        (ValueView::Timestamp(t), ColumnType::Timestamp) => Some(
            Ok(le::le_bytes(le::twos(t as int, 8), 8)),
        ),
        (ValueView::TimestampTz(t), ColumnType::TimestampTz) => Some(
            Ok(le::le_bytes(le::twos(t as int, 8), 8)),
        ),
        (ValueView::Uuid(b), ColumnType::Uuid) => Some(Ok(b)),
        (ValueView::Json(s), ColumnType::Json) => Some(
            if encode_utf8(s).len() <= u32::MAX {
                Ok(blob(encode_utf8(s)))
            } else {
                Err(Refusal::TooLarge(Oversized::Json))
            },
        ),
        (ValueView::Interval(iv), ColumnType::Interval) => Some(
            Ok(
                le::le_bytes(le::twos(iv.months as int, 4), 4) + le::le_bytes(
                    le::twos(iv.days as int, 4),
                    4,
                ) + le::le_bytes(le::twos(iv.micros as int, 8), 8),
            ),
        ),
        (ValueView::Vector(xs), ColumnType::Vector(dim)) => Some(
            if xs.len() == dim {
                Ok(le::le_bytes(dim as nat, 4) + le::words(xs))
            } else {
                Err(Refusal::Invalid { ty, value: v })
            },
        ),
        (ValueView::Bytes(b), ColumnType::Bytes) => Some(
            if b.len() <= u32::MAX {
                Ok(blob(b))
            } else {
                Err(Refusal::TooLarge(Oversized::Bytes))
            },
        ),
        _ => None,
    }
}

/// The pairs that a single conversion turns into a value of the type.
pub open spec fn convertible(v: ValueView, ty: ColumnType) -> bool {
    match (v, ty) {
        (ValueView::Int(_), ColumnType::Float) => true,
        (ValueView::Numeric(_), ColumnType::Float) => true,
        (ValueView::Text(_), ColumnType::Date) => true,
        (ValueView::Text(_), ColumnType::Time) => true,
        (ValueView::Text(_), ColumnType::TimeTz) => true,
        (ValueView::Text(_), ColumnType::Timestamp) => true,
        (ValueView::Text(_), ColumnType::TimestampTz) => true,
        (ValueView::Text(_), ColumnType::Uuid) => true,
        (ValueView::Text(_), ColumnType::Json) => true,
        (ValueView::Text(_), ColumnType::Interval) => true,
        (ValueView::Text(_), ColumnType::Vector(_)) => true,
        (ValueView::Text(_), ColumnType::Bytes) => true,
        _ => false,
    }
}

/// Storing the decimal `d` in a column of `precision` and `scale`.
///
/// Without a precision it is stored as it is; otherwise at the declared scale, and only if it then
/// has no more digits than the precision.
pub open spec fn write_decimal(
    d: Decimal,
    precision: u8,
    scale: u8,
    outcomes: Seq<OutcomeView>,
    used: nat,
) -> Writing {
    let ty = ColumnType::Numeric { precision, scale };
    let v = ValueView::Numeric(d);
    if precision == 0 {
        Writing::Done { bytes: decimal_bytes(d), used, stored: v }
    } else if used >= outcomes.len() {
        Writing::Needs { value: v, ty }
    } else {
        match outcomes[used as int] {
            OutcomeView::Rescaled { value, digits } => if digits > precision as u32 {
                Writing::Refused(Refusal::Invalid { ty, value: v })
            } else {
                Writing::Done {
                    bytes: decimal_bytes(value),
                    used: used + 1,
                    stored: ValueView::Numeric(value),
                }
            },
            OutcomeView::Refused => Writing::Refused(Refusal::Invalid { ty, value: v }),
            OutcomeView::Value(_) => Writing::Refused(Refusal::Unexpected),
        }
    }
}

/// Storing the present value `v` in a column of type `declared`, with the outcomes from the
/// `used`-th on.
pub open spec fn write_field(
    v: ValueView,
    declared: ColumnType,
    outcomes: Seq<OutcomeView>,
    used: nat,
) -> Writing
    decreases rank(declared), 0nat, 0nat,
{
    let v = canonical(v, declared);
    let ty = types::physical_type(declared);
    match (v, ty) {
        (ValueView::Numeric(d), ColumnType::Numeric { precision, scale }) => write_decimal(
            d,
            precision,
            scale,
            outcomes,
            used,
        ),
        (ValueView::Int(i), ColumnType::Numeric { precision, scale }) => write_decimal(
            Decimal { mantissa: i as i128, scale: 0 },
            precision,
            scale,
            outcomes,
            used,
        ),
        (ValueView::Float(_), ColumnType::Numeric { precision, scale })
        | (ValueView::Text(_), ColumnType::Numeric { precision, scale }) => if used
            >= outcomes.len() {
            Writing::Needs { value: v, ty }
        } else {
            match outcomes[used as int] {
                OutcomeView::Value(ValueView::Numeric(d)) => write_decimal(
                    d,
                    precision,
                    scale,
                    outcomes,
                    used + 1,
                ),
                OutcomeView::Refused => Writing::Refused(Refusal::Invalid { ty, value: v }),
                _ => Writing::Refused(Refusal::Unexpected),
            }
        },
        (ValueView::Array(items), ColumnType::Array(elem)) => write_array(
            items,
            types::elem_column_type(elem),
            outcomes,
            used,
        ),
        (ValueView::Text(_), ColumnType::Array(elem)) => if used >= outcomes.len() {
            Writing::Needs { value: v, ty }
        } else {
            match outcomes[used as int] {
                OutcomeView::Value(ValueView::Array(items)) => write_array(
                    items,
                    types::elem_column_type(elem),
                    outcomes,
                    used + 1,
                ),
                OutcomeView::Refused => Writing::Refused(Refusal::Invalid { ty, value: v }),
                _ => Writing::Refused(Refusal::Unexpected),
            }
        },
        _ => if convertible(v, ty) {
            if used >= outcomes.len() {
                Writing::Needs { value: v, ty }
            } else {
                match outcomes[used as int] {
                    OutcomeView::Value(x) => match exact(x, ty) {
                        Some(Ok(bytes)) => Writing::Done { bytes, used: used + 1, stored: x },
                        Some(Err(f)) => Writing::Refused(f),
                        None => Writing::Refused(Refusal::Unexpected),
                    },
                    OutcomeView::Refused => Writing::Refused(Refusal::Invalid { ty, value: v }),
                    _ => Writing::Refused(Refusal::Unexpected),
                }
            }
        } else {
            match exact(v, ty) {
                Some(Ok(bytes)) => Writing::Done { bytes, used, stored: v },
                Some(Err(f)) => Writing::Refused(f),
                None => Writing::Refused(
                    Refusal::Mismatch { expected: ty, found: runtime_type(v) },
                ),
            }
        },
    }
}

/// Storing an array of elements of type `ty`: the count and the tagged elements.
pub open spec fn write_array(
    items: Seq<ValueView>,
    ty: ColumnType,
    outcomes: Seq<OutcomeView>,
    used: nat,
) -> Writing
    decreases rank(ty), 3nat, 0nat,
{
    if items.len() > u32::MAX {
        Writing::Refused(Refusal::TooLarge(Oversized::Array))
    } else {
        match write_items(items, items.len(), ty, outcomes, used) {
            Items::Done { bytes, used, stored } => Writing::Done {
                bytes: le::le_bytes(items.len(), 4) + bytes,
                used,
                stored: ValueView::Array(stored),
            },
            Items::Stopped(w) => w,
        }
    }
}

/// How far writing several values gets.
pub enum Items {
    Done { bytes: Seq<u8>, used: nat, stored: Seq<ValueView> },
    Stopped(Writing),
}

/// Storing a value behind its NULL/present tag.
pub open spec fn write_tagged(
    v: ValueView,
    ty: ColumnType,
    outcomes: Seq<OutcomeView>,
    used: nat,
) -> Writing
    decreases rank(ty), 1nat, 0nat,
{
    if v is Null {
        Writing::Done { bytes: seq![TAG_NULL], used, stored: v }
    } else {
        match write_field(v, ty, outcomes, used) {
            Writing::Done { bytes, used, stored } => Writing::Done {
                bytes: seq![TAG_PRESENT] + bytes,
                used,
                stored,
            },
            other => other,
        }
    }
}

/// Storing the first `n` of `items`, each as a `ty`, one after the other.
pub open spec fn write_items(
    items: Seq<ValueView>,
    n: nat,
    ty: ColumnType,
    outcomes: Seq<OutcomeView>,
    used: nat,
) -> Items
    decreases rank(ty), 2nat, n,
{
    if n == 0 {
        Items::Done { bytes: Seq::empty(), used, stored: Seq::empty() }
    } else {
        match write_items(items, (n - 1) as nat, ty, outcomes, used) {
            Items::Done { bytes: head, used, stored } => match write_tagged(
                items[n - 1],
                ty,
                outcomes,
                used,
            ) {
                Writing::Done { bytes, used, stored: v } => Items::Done {
                    bytes: head + bytes,
                    used,
                    stored: stored.push(v),
                },
                w => Items::Stopped(w),
            },
            stopped => stopped,
        }
    }
}

/// Storing the first `n` columns of a row.
pub open spec fn write_columns(
    row: Seq<ValueView>,
    schema: Seq<ColumnType>,
    n: nat,
    outcomes: Seq<OutcomeView>,
) -> Items
    decreases n,
{
    if n == 0 {
        Items::Done { bytes: Seq::empty(), used: 0, stored: Seq::empty() }
    } else {
        match write_columns(row, schema, (n - 1) as nat, outcomes) {
            Items::Done { bytes: head, used, stored } => match write_tagged(
                row[n - 1],
                schema[n - 1],
                outcomes,
                used,
            ) {
                Writing::Done { bytes, used, stored: v } => Items::Done {
                    bytes: head + bytes,
                    used,
                    stored: stored.push(v),
                },
                w => Items::Stopped(w),
            },
            stopped => stopped,
        }
    }
}

/// How far `encode` got.
#[derive(Debug, PartialEq, Eq)]
pub enum Encoding {
    /// The stored tuple.
    Complete(Vec<u8>),
    /// The next conversion to make.
    Needs(Conversion),
}

/// How far a single value got.
enum Progress {
    Done(usize),
    Needs(Conversion),
}

/// What writing one value says of its outcome.
spec fn written(
    w: Writing,
    before: Seq<u8>,
    after: Seq<u8>,
    r: Result<Progress, Error>,
) -> bool {
    match w {
        Writing::Done { bytes, used, stored } => after == before + bytes && (r matches Ok(
            Progress::Done(k),
        ) && k == used),
        Writing::Needs { value, ty } => r matches Ok(Progress::Needs(c)) && c.value@ == value && c.ty
            == ty,
        Writing::Refused(f) => r matches Err(e) && reports(e, f),
    }
}

/// The canonical stored form of a `Char` value that has blanks at its end; `None` when `value` is
/// stored as it is.
fn bpchar_canonical(value: &Value, ty: ColumnType) -> (r: Option<Value>)
    ensures
        match r {
            Some(v) => v@ == canonical(value@, ty),
            None => value@ == canonical(value@, ty),
        },
{
    match (ty, value) {
        (ColumnType::Char(_), Value::Text(s)) => {
            let cs = text::to_chars(s.as_str());
            let mut n: usize = cs.len();
            assert(cs@.take(n as int) =~= cs@);
            while n > 0 && cs[n - 1] == ' '
                invariant
                    n <= cs@.len(),
                    without_blanks(cs@) == without_blanks(cs@.take(n as int)),
                decreases n,
            {
                assert(cs@.take(n as int).drop_last() =~= cs@.take(n - 1));
                n -= 1;
            }
            if n == cs.len() {
                assert(cs@.take(n as int) =~= cs@);
                return None;
            }
            assert(cs@.subrange(0, n as int) =~= cs@.take(n as int));
            Some(Value::Text(text::from_chars(cs.as_slice(), 0, n)))
        },
        _ => None,
    }
}

/// Write months, days and microseconds.
fn put_interval(iv: Interval, out: &mut Vec<u8>)
    ensures
        final(out)@ == old(out)@ + (le::le_bytes(le::twos(iv.months as int, 4), 4) + le::le_bytes(
            le::twos(iv.days as int, 4),
            4,
        ) + le::le_bytes(le::twos(iv.micros as int, 8), 8)),
{
    let ghost start = out@;
    le::push_le(out, le::i32_bits(iv.months), 4);
    le::push_le(out, le::i32_bits(iv.days), 4);
    le::push_le(out, le::i64_bits(iv.micros), 8);
    assert(out@ =~= start + (le::le_bytes(le::twos(iv.months as int, 4), 4) + le::le_bytes(
        le::twos(iv.days as int, 4),
        4,
    ) + le::le_bytes(le::twos(iv.micros as int, 8), 8)));
}

/// Write a length and the bytes; refused as `what` when the length does not fit in 32 bits.
fn put_bytes(b: &[u8], what: Oversized, out: &mut Vec<u8>) -> (r: Result<(), Error>)
    ensures
        b@.len() <= u32::MAX ==> r is Ok && final(out)@ == old(out)@ + blob(b@),
        b@.len() > u32::MAX ==> r == Err::<(), Error>(Error::TooLarge(what)),
{
    let ghost start = out@;
    if b.len() > u32::MAX as usize {
        return Err(Error::TooLarge(what));
    }
    le::push_le(out, b.len() as u128, 4);
    le::push_bytes(out, b);
    assert(out@ =~= start + blob(b@));
    Ok(())
}

/// Write a decimal: mantissa and scale.
fn put_decimal(d: Decimal, out: &mut Vec<u8>)
    ensures
        final(out)@ == old(out)@ + decimal_bytes(d),
{
    let ghost start = out@;
    le::push_le(out, le::i128_bits(d.mantissa), 16);
    out.push(d.scale);
    assert(out@ =~= start + decimal_bytes(d));
}

/// Write a vector of exactly `dim` components.
fn encode_vector(v: &[u32], dim: u32, out: &mut Vec<u8>) -> (r: bool)
    ensures
        r == (v@.len() == dim),
        r ==> final(out)@ == old(out)@ + (le::le_bytes(dim as nat, 4) + le::words(v@)),
{
    if v.len() != dim as usize {
        return false;
    }
    let ghost start = out@;
    le::push_le(out, dim as u128, 4);
    let ghost base = out@;
    let mut i: usize = 0;
    assert(out@ =~= base + le::words(v@.take(0)));
    while i < v.len()
        invariant
            i <= v@.len(),
            out@ == base + le::words(v@.take(i as int)),
        decreases v@.len() - i,
    {
        le::push_le(out, v[i] as u128, 4);
        proof {
            let next = v@.take(i + 1);
            assert(next.drop_last() =~= v@.take(i as int));
            assert(out@ =~= base + le::words(next));
        }
        i += 1;
    }
    assert(v@.take(v@.len() as int) =~= v@);
    assert(out@ =~= start + (le::le_bytes(dim as nat, 4) + le::words(v@)));
    true
}

/// Write a value that is already of the physical, non-array type `ty`; `Ok(false)` for any other.
fn put_exact(value: &Value, ty: ColumnType, out: &mut Vec<u8>) -> (r: Result<bool, Error>)
    ensures
        match exact(value@, ty) {
            None => r == Ok::<bool, Error>(false),
            Some(Ok(bytes)) => r == Ok::<bool, Error>(true) && final(out)@ == old(out)@ + bytes,
            Some(Err(f)) => r matches Err(e) && reports(e, f),
        },
{
    let ghost start = out@;
    match (value, ty) {
        (Value::Bool(b), ColumnType::Bool) => {
            out.push(if *b { 1 } else { 0 });
            assert(out@ =~= start + exact(value@, ty)->0->Ok_0);
        },
        (Value::Int(i), ColumnType::Int) => le::push_le(out, le::i64_bits(*i), 8),
        (Value::Float(f), ColumnType::Float) => le::push_le(out, *f as u128, 8),
        (Value::Text(s), ColumnType::Text) => {
            match put_bytes(s.as_str().as_bytes(), Oversized::Text, out) {
                Ok(()) => {},
                Err(e) => {
                    return Err(e);
                },
            }
        },
        (Value::Date(d), ColumnType::Date) => le::push_le(out, le::i32_bits(*d), 4),
        (Value::Time(t), ColumnType::Time)
        | (Value::TimeTz(t), ColumnType::TimeTz)
        | (Value::Timestamp(t), ColumnType::Timestamp)
        | (Value::TimestampTz(t), ColumnType::TimestampTz) => le::push_le(out, le::i64_bits(*t), 8),
        (Value::Uuid(u), ColumnType::Uuid) => le::push_bytes(out, u.as_slice()),
        (Value::Json(s), ColumnType::Json) => {
            match put_bytes(s.as_str().as_bytes(), Oversized::Json, out) {
                Ok(()) => {},
                Err(e) => {
                    return Err(e);
                },
            }
        },
        (Value::Interval(iv), ColumnType::Interval) => put_interval(*iv, out),
        (Value::Vector(v), ColumnType::Vector(dim)) => {
            if !encode_vector(v.as_slice(), dim, out) {
                return Err(Error::InvalidValue { ty, value: value.clone() });
            }
        },
        (Value::Bytes(b), ColumnType::Bytes) => {
            match put_bytes(b.as_slice(), Oversized::Bytes, out) {
                Ok(()) => {},
                Err(e) => {
                    return Err(e);
                },
            }
        },
        _ => {
            return Ok(false);
        },
    }
    Ok(true)
}

/// Store a decimal in a column of `precision` and `scale`.
fn encode_numeric(
    d: Decimal,
    precision: u8,
    scale: u8,
    outcomes: &[Outcome],
    used: usize,
    out: &mut Vec<u8>,
) -> (r: Result<Progress, Error>)
    requires
        used <= outcomes@.len(),
    ensures
        written(
            write_decimal(d, precision, scale, outcomes.deep_view(), used as nat),
            old(out)@,
            final(out)@,
            r,
        ),
        r matches Ok(Progress::Done(k)) ==> k <= outcomes@.len(),
{
    let ty = ColumnType::Numeric { precision, scale };
    if precision == 0 {
        put_decimal(d, out);
        return Ok(Progress::Done(used));
    }
    if used >= outcomes.len() {
        return Ok(Progress::Needs(Conversion { value: Value::Numeric(d), ty }));
    }
    assert(outcomes.deep_view()[used as int] == outcomes@[used as int].deep_view());
    match &outcomes[used] {
        Outcome::Rescaled { value, digits } => {
            if *digits > precision as u32 {
                Err(Error::InvalidValue { ty, value: Value::Numeric(d) })
            } else {
                put_decimal(*value, out);
                Ok(Progress::Done(used + 1))
            }
        },
        Outcome::Refused => Err(Error::InvalidValue { ty, value: Value::Numeric(d) }),
        Outcome::Value(_) => Err(Error::UnexpectedOutcome),
    }
}

/// Whether a single conversion turns `value` into one of the type.
fn is_convertible(value: &Value, ty: ColumnType) -> (r: bool)
    ensures
        r == convertible(value@, ty),
{
    match (value, ty) {
        (Value::Int(_), ColumnType::Float) => true,
        (Value::Numeric(_), ColumnType::Float) => true,
        (Value::Text(_), ColumnType::Date) => true,
        (Value::Text(_), ColumnType::Time) => true,
        (Value::Text(_), ColumnType::TimeTz) => true,
        (Value::Text(_), ColumnType::Timestamp) => true,
        (Value::Text(_), ColumnType::TimestampTz) => true,
        (Value::Text(_), ColumnType::Uuid) => true,
        (Value::Text(_), ColumnType::Json) => true,
        (Value::Text(_), ColumnType::Interval) => true,
        (Value::Text(_), ColumnType::Vector(_)) => true,
        (Value::Text(_), ColumnType::Bytes) => true,
        _ => false,
    }
}

/// Store a present value in a column of type `declared`, with the outcomes from the `used`-th on.
fn encode_value(
    value: &Value,
    declared: ColumnType,
    outcomes: &[Outcome],
    used: usize,
    out: &mut Vec<u8>,
) -> (r: Result<Progress, Error>)
    requires
        used <= outcomes@.len(),
    ensures
        written(
            write_field(value@, declared, outcomes.deep_view(), used as nat),
            old(out)@,
            final(out)@,
            r,
        ),
        r matches Ok(Progress::Done(k)) ==> k <= outcomes@.len(),
    decreases rank(declared), 1nat,
{
    match bpchar_canonical(value, declared) {
        Some(v) => encode_canonical(&v, value, declared, outcomes, used, out),
        None => encode_canonical(value, value, declared, outcomes, used, out),
    }
}

/// `encode_value` once the value is in its stored form.
fn encode_canonical(
    value: &Value,
    given: &Value,
    declared: ColumnType,
    outcomes: &[Outcome],
    used: usize,
    out: &mut Vec<u8>,
) -> (r: Result<Progress, Error>)
    requires
        used <= outcomes@.len(),
        value@ == canonical(given@, declared),
    ensures
        written(
            write_field(given@, declared, outcomes.deep_view(), used as nat),
            old(out)@,
            final(out)@,
            r,
        ),
        r matches Ok(Progress::Done(k)) ==> k <= outcomes@.len(),
    decreases rank(declared), 0nat,
{
    let ty = declared.physical();
    let ghost outs = outcomes.deep_view();
    proof {
        if used < outcomes@.len() {
            assert(outs[used as int] == outcomes@[used as int].deep_view());
        }
    }
    match (value, ty) {
        (Value::Numeric(d), ColumnType::Numeric { precision, scale }) => encode_numeric(
            *d,
            precision,
            scale,
            outcomes,
            used,
            out,
        ),
        (Value::Int(i), ColumnType::Numeric { precision, scale }) => encode_numeric(
            Decimal { mantissa: *i as i128, scale: 0 },
            precision,
            scale,
            outcomes,
            used,
            out,
        ),
        (Value::Float(_), ColumnType::Numeric { precision, scale })
        | (Value::Text(_), ColumnType::Numeric { precision, scale }) => {
            if used >= outcomes.len() {
                return Ok(Progress::Needs(Conversion { value: value.clone(), ty }));
            }
            match &outcomes[used] {
                Outcome::Value(Value::Numeric(d)) => encode_numeric(
                    *d,
                    precision,
                    scale,
                    outcomes,
                    used + 1,
                    out,
                ),
                Outcome::Refused => Err(Error::InvalidValue { ty, value: value.clone() }),
                _ => Err(Error::UnexpectedOutcome),
            }
        },
        (Value::Array(items), ColumnType::Array(elem)) => {
            proof {
                value::lemma_array_view(*items);
            }
            encode_array(items.as_slice(), elem.column_type(), outcomes, used, out)
        },
        (Value::Text(_), ColumnType::Array(elem)) => {
            if used >= outcomes.len() {
                return Ok(Progress::Needs(Conversion { value: value.clone(), ty }));
            }
            match &outcomes[used] {
                Outcome::Value(Value::Array(items)) => {
                    proof {
                        value::lemma_array_view(*items);
                    }
                    encode_array(items.as_slice(), elem.column_type(), outcomes, used + 1, out)
                },
                Outcome::Refused => Err(Error::InvalidValue { ty, value: value.clone() }),
                _ => Err(Error::UnexpectedOutcome),
            }
        },
        _ => {
            if is_convertible(value, ty) {
                if used >= outcomes.len() {
                    return Ok(Progress::Needs(Conversion { value: value.clone(), ty }));
                }
                match &outcomes[used] {
                    Outcome::Value(x) => match put_exact(x, ty, out) {
                        Ok(true) => Ok(Progress::Done(used + 1)),
                        Ok(false) => Err(Error::UnexpectedOutcome),
                        Err(e) => Err(e),
                    },
                    Outcome::Refused => Err(Error::InvalidValue { ty, value: value.clone() }),
                    _ => Err(Error::UnexpectedOutcome),
                }
            } else {
                match put_exact(value, ty, out) {
                    Ok(true) => Ok(Progress::Done(used)),
                    Ok(false) => Err(
                        Error::TypeMismatch { expected: ty, found: runtime_type_of(value) },
                    ),
                    Err(e) => Err(e),
                }
            }
        },
    }
}

/// Store a value behind its NULL/present tag.
fn encode_tagged(
    value: &Value,
    ty: ColumnType,
    outcomes: &[Outcome],
    used: usize,
    out: &mut Vec<u8>,
) -> (r: Result<Progress, Error>)
    requires
        used <= outcomes@.len(),
    ensures
        written(
            write_tagged(value@, ty, outcomes.deep_view(), used as nat),
            old(out)@,
            final(out)@,
            r,
        ),
        r matches Ok(Progress::Done(k)) ==> k <= outcomes@.len(),
    decreases rank(ty), 2nat,
{
    let ghost start = out@;
    match value {
        Value::Null => {
            out.push(TAG_NULL);
            assert(out@ =~= start + seq![TAG_NULL]);
            Ok(Progress::Done(used))
        },
        _ => {
            out.push(TAG_PRESENT);
            let r = encode_value(value, ty, outcomes, used, out);
            proof {
                if let Writing::Done { bytes, .. } = write_field(
                    value@,
                    ty,
                    outcomes.deep_view(),
                    used as nat,
                ) {
                    assert(out@ =~= start + (seq![TAG_PRESENT] + bytes));
                }
            }
            r
        },
    }
}

/// Store an array of elements of the non-array type `ty`: the count and the tagged elements.
fn encode_array(
    items: &[Value],
    ty: ColumnType,
    outcomes: &[Outcome],
    used: usize,
    out: &mut Vec<u8>,
) -> (r: Result<Progress, Error>)
    requires
        used <= outcomes@.len(),
        rank(ty) == 0,
    ensures
        written(
            write_array(items.deep_view(), ty, outcomes.deep_view(), used as nat),
            old(out)@,
            final(out)@,
            r,
        ),
        r matches Ok(Progress::Done(k)) ==> k <= outcomes@.len(),
    decreases rank(ty), 3nat,
{
    let ghost view = items.deep_view();
    let ghost outs = outcomes.deep_view();
    let ghost start = out@;
    if items.len() > u32::MAX as usize {
        return Err(Error::TooLarge(Oversized::Array));
    }
    le::push_le(out, items.len() as u128, 4);
    let ghost base = out@;
    let mut k: usize = used;
    let mut i: usize = 0;
    assert(out@ =~= base + Seq::<u8>::empty());
    while i < items.len()
        invariant
            view == items.deep_view(),
            outs == outcomes.deep_view(),
            start == old(out)@,
            base == start + le::le_bytes(view.len(), 4),
            i <= items@.len() <= u32::MAX,
            k <= outcomes@.len(),
            rank(ty) == 0,
            write_items(view, i as nat, ty, outs, used as nat) matches Items::Done {
                bytes,
                used: u,
                ..
            } && out@ == base + bytes && u == k,
        decreases items@.len() - i,
    {
        assert(view[i as int] == items@[i as int]@);
        let ghost before = out@;
        let ghost head = write_items(view, i as nat, ty, outs, used as nat)->Done_bytes;
        let ghost one = write_tagged(view[i as int], ty, outs, k as nat);
        let r = encode_tagged(&items[i], ty, outcomes, k, out);
        match r {
            Ok(Progress::Done(next)) => {
                proof {
                    assert(out@ =~= base + (head + one->bytes));
                }
                k = next;
            },
            other => {
                proof {
                    lemma_items_stop(view, (i + 1) as nat, view.len(), ty, outs, used as nat);
                }
                return other;
            },
        }
        i += 1;
    }
    proof {
        let all = write_items(view, view.len(), ty, outs, used as nat)->Done_bytes;
        assert(out@ =~= start + (le::le_bytes(view.len(), 4) + all));
    }
    Ok(Progress::Done(k))
}

proof fn lemma_items_stop(
    items: Seq<ValueView>,
    k: nat,
    n: nat,
    ty: ColumnType,
    outcomes: Seq<OutcomeView>,
    used: nat,
)
    requires
        k <= n <= items.len(),
        write_items(items, k, ty, outcomes, used) is Stopped,
    ensures
        write_items(items, n, ty, outcomes, used) == write_items(items, k, ty, outcomes, used),
    decreases n,
{
    if k < n {
        lemma_items_stop(items, k, (n - 1) as nat, ty, outcomes, used);
    }
}

proof fn lemma_columns_stop(
    row: Seq<ValueView>,
    schema: Seq<ColumnType>,
    k: nat,
    n: nat,
    outcomes: Seq<OutcomeView>,
)
    requires
        k <= n <= row.len(),
        write_columns(row, schema, k, outcomes) is Stopped,
    ensures
        write_columns(row, schema, n, outcomes) == write_columns(row, schema, k, outcomes),
    decreases n,
{
    if k < n {
        lemma_columns_stop(row, schema, k, (n - 1) as nat, outcomes);
    }
}

/// The stored tuple of `row`, whose columns have the types `schema`.
///
/// `outcomes` are those of the conversions made so far, in order. As long as one is missing the
/// result is the conversion to make next; call again with its outcome added. A row of another
/// length than the schema is refused, and so is the first value that cannot be stored.
pub fn encode(row: &[Value], schema: &[ColumnType], outcomes: &[Outcome]) -> (r: Result<
    Encoding,
    Error,
>)
    ensures
        row@.len() != schema@.len() ==> r == Err::<Encoding, Error>(
            Error::ArityMismatch {
                context: "tuple encode",
                expected: schema@.len() as usize,
                found: row@.len() as usize,
            },
        ),
        row@.len() == schema@.len() ==> match write_columns(
            row.deep_view(),
            schema@,
            row@.len(),
            outcomes.deep_view(),
        ) {
            Items::Done { bytes, .. } => r matches Ok(Encoding::Complete(out)) && out@ == bytes,
            Items::Stopped(Writing::Needs { value, ty }) => r matches Ok(Encoding::Needs(c))
                && c.value@ == value && c.ty == ty,
            Items::Stopped(Writing::Refused(f)) => r matches Err(e) && reports(e, f),
            Items::Stopped(Writing::Done { .. }) => false,
        },
{
    if row.len() != schema.len() {
        return Err(
            Error::ArityMismatch { context: "tuple encode", expected: schema.len(), found: row.len() },
        );
    }
    let ghost view = row.deep_view();
    let ghost outs = outcomes.deep_view();
    let mut out: Vec<u8> = Vec::new();
    let mut k: usize = 0;
    let mut i: usize = 0;
    assert(out@ =~= Seq::<u8>::empty());
    while i < row.len()
        invariant
            view == row.deep_view(),
            outs == outcomes.deep_view(),
            row@.len() == schema@.len(),
            i <= row@.len(),
            k <= outcomes@.len(),
            write_columns(view, schema@, i as nat, outs) matches Items::Done { bytes, used: u, .. }
                && out@ == bytes && u == k,
        decreases row@.len() - i,
    {
        assert(view[i as int] == row@[i as int]@);
        match encode_tagged(&row[i], schema[i], outcomes, k, &mut out) {
            Ok(Progress::Done(next)) => {
                k = next;
            },
            Ok(Progress::Needs(c)) => {
                proof {
                    lemma_columns_stop(view, schema@, (i + 1) as nat, view.len(), outs);
                }
                return Ok(Encoding::Needs(c));
            },
            Err(e) => {
                proof {
                    lemma_columns_stop(view, schema@, (i + 1) as nat, view.len(), outs);
                }
                return Err(e);
            },
        }
        i += 1;
    }
    Ok(Encoding::Complete(out))
}

/// The outcomes at hand for the conversions of the value at `i`.
pub open spec fn outcomes_at(answers: Seq<Seq<OutcomeView>>, i: nat) -> Seq<OutcomeView> {
    if i < answers.len() {
        answers[i as int]
    } else {
        Seq::empty()
    }
}

/// Storing a value as a tuple of its own.
#[verifier::opaque]
pub open spec fn stored_alone(v: ValueView, ty: ColumnType, outcomes: Seq<OutcomeView>) -> Items {
    write_columns(seq![v], seq![ty], 1, outcomes)
}

/// The tuple of a value of its own, with the outcomes at hand for the value at `i`.
pub fn encode_one(value: &Value, ty: ColumnType, answers: &Vec<Vec<Outcome>>, i: usize) -> (r: Result<
    Encoding,
    Error,
>)
    ensures
        match stored_alone(value@, ty, outcomes_at(answers.deep_view(), i as nat)) {
            Items::Done { bytes, .. } => r matches Ok(Encoding::Complete(out)) && out@ == bytes,
            Items::Stopped(Writing::Needs { value, ty }) => r matches Ok(Encoding::Needs(c))
                && c.value@ == value && c.ty == ty,
            Items::Stopped(Writing::Refused(f)) => r matches Err(e) && reports(e, f),
            Items::Stopped(Writing::Done { .. }) => false,
        },
{
    let ghost ans = answers.deep_view();
    let mut one: Vec<Value> = Vec::new();
    one.push(value.clone());
    let mut schema: Vec<ColumnType> = Vec::new();
    schema.push(ty);
    let none: Vec<Outcome> = Vec::new();
    let outs: &Vec<Outcome> = if i < answers.len() {
        &answers[i]
    } else {
        &none
    };
    let single: &[Value] = one.as_slice();
    let types: &[ColumnType] = schema.as_slice();
    let known: &[Outcome] = outs.as_slice();
    assert(single.deep_view() =~= seq![value@]);
    assert(types@ =~= seq![ty]);
    proof {
        if i < answers@.len() {
            assert(ans[i as int] == answers@[i as int].deep_view());
        }
        assert(known.deep_view() =~= outcomes_at(ans, i as nat));
    }
    reveal(stored_alone);
    encode(single, types, known)
}

// ---------------------------------------------------------------- laws

/// A value that a stored field can give back: uuids of 16 bytes, decimals of at most `MAX_SCALE`
/// fractional digits.
pub open spec fn storable(v: ValueView) -> bool {
    value::sized(v) && (v matches ValueView::Numeric(d) ==> d.scale <= MAX_SCALE)
}

proof fn lemma_blob_field(bytes: Seq<u8>, pos: nat, b: Seq<u8>)
    requires
        b.len() <= u32::MAX,
        le::stands_at(bytes, pos, blob(b)),
    ensures
        bytes_field(bytes, pos) == Ok::<(Seq<u8>, nat), nat>((b, pos + blob(b).len())),
{
    le::lemma_pow256();
    le::lemma_le_len(b.len(), 4);
    le::lemma_stands_split(bytes, pos, le::le_bytes(b.len(), 4), b);
    le::lemma_num_at(bytes, pos, b.len(), 4);
}

proof fn lemma_exact_round_trip(v: ValueView, ty: ColumnType, bytes: Seq<u8>, pos: nat)
    requires
        value::sized(v),
        exact(v, ty) matches Some(Ok(b)) && le::stands_at(bytes, pos, b),
    ensures
        field(bytes, pos, ty) == Ok::<(ValueView, nat), nat>((v, pos + exact(v, ty)->0->Ok_0.len())),
{
    broadcast use {encode_utf8_valid_utf8, encode_utf8_decode_utf8};

    le::lemma_pow256();
    let b = exact(v, ty)->0->Ok_0;
    match (v, ty) {
        (ValueView::Bool(x), ColumnType::Bool) => {
            assert(bytes.subrange(pos as int, (pos + 1) as int)[0] == b[0]);
        },
        (ValueView::Int(i), ColumnType::Int) => {
            le::lemma_i64_round_trip(bytes, pos, i);
            le::lemma_le_len(le::twos(i as int, 8), 8);
        },
        (ValueView::Float(f), ColumnType::Float) => {
            le::lemma_le_len(f as nat, 8);
            le::lemma_num_at(bytes, pos, f as nat, 8);
        },
        (ValueView::Text(s), ColumnType::Text) => {
            lemma_blob_field(bytes, pos, encode_utf8(s));
        },
        (ValueView::Date(d), ColumnType::Date) => {
            le::lemma_i32_round_trip(bytes, pos, d);
            le::lemma_le_len(le::twos(d as int, 4), 4);
        },
        (ValueView::Time(t), ColumnType::Time)
        | (ValueView::TimeTz(t), ColumnType::TimeTz)
        | (ValueView::Timestamp(t), ColumnType::Timestamp)
        | (ValueView::TimestampTz(t), ColumnType::TimestampTz) => {
            le::lemma_i64_round_trip(bytes, pos, t);
            le::lemma_le_len(le::twos(t as int, 8), 8);
        },
        (ValueView::Uuid(u), ColumnType::Uuid) => {},
        (ValueView::Json(s), ColumnType::Json) => {
            lemma_blob_field(bytes, pos, encode_utf8(s));
        },
        (ValueView::Interval(iv), ColumnType::Interval) => {
            let x = le::le_bytes(le::twos(iv.months as int, 4), 4);
            let y = le::le_bytes(le::twos(iv.days as int, 4), 4);
            let z = le::le_bytes(le::twos(iv.micros as int, 8), 8);
            le::lemma_le_len(le::twos(iv.months as int, 4), 4);
            le::lemma_le_len(le::twos(iv.days as int, 4), 4);
            le::lemma_le_len(le::twos(iv.micros as int, 8), 8);
            le::lemma_stands_split(bytes, pos, x + y, z);
            le::lemma_stands_split(bytes, pos, x, y);
            le::lemma_i32_round_trip(bytes, pos, iv.months);
            le::lemma_i32_round_trip(bytes, pos + 4, iv.days);
            le::lemma_i64_round_trip(bytes, pos + 8, iv.micros);
        },
        (ValueView::Vector(xs), ColumnType::Vector(dim)) => {
            le::lemma_le_len(dim as nat, 4);
            le::lemma_stands_split(bytes, pos, le::le_bytes(dim as nat, 4), le::words(xs));
            le::lemma_num_at(bytes, pos, dim as nat, 4);
            le::lemma_words_round_trip(bytes, pos + 4, xs);
        },
        (ValueView::Bytes(x), ColumnType::Bytes) => {
            lemma_blob_field(bytes, pos, x);
        },
        _ => {},
    }
}

proof fn lemma_decimal_round_trip(d: Decimal, ty: ColumnType, bytes: Seq<u8>, pos: nat)
    requires
        ty is Numeric,
        d.scale <= MAX_SCALE,
        le::stands_at(bytes, pos, decimal_bytes(d)),
    ensures
        field(bytes, pos, ty) == Ok::<(ValueView, nat), nat>(
            (ValueView::Numeric(d), pos + decimal_bytes(d).len()),
        ),
{
    let m = le::twos(d.mantissa as int, 16);
    le::lemma_pow256();
    le::lemma_le_len(m, 16);
    le::lemma_twos_round_trip(d.mantissa as int, 16);
    le::lemma_stands_split(bytes, pos, le::le_bytes(m, 16), seq![d.scale]);
    le::lemma_num_at(bytes, pos, m, 16);
    assert(bytes.subrange((pos + 16) as int, (pos + 17) as int)[0] == d.scale);
}

/// Wherever the bytes written for a value stand, reading there gives the stored value and ends
/// right after it.
pub proof fn lemma_field_round_trip(
    v: ValueView,
    ty: ColumnType,
    outcomes: Seq<OutcomeView>,
    used: nat,
    bytes: Seq<u8>,
    pos: nat,
)
    requires
        write_field(v, ty, outcomes, used) matches Writing::Done { bytes: b, stored, .. }
            && value::sized(stored) && (ty is Numeric ==> storable(stored)) && le::stands_at(
            bytes,
            pos,
            b,
        ),
    ensures
        field(bytes, pos, ty) == Ok::<(ValueView, nat), nat>(
            (
                write_field(v, ty, outcomes, used)->stored,
                pos + write_field(v, ty, outcomes, used)->Done_bytes.len(),
            ),
        ),
    decreases rank(ty), 0nat, 0nat,
{
    let c = canonical(v, ty);
    let phys = types::physical_type(ty);
    let done = write_field(v, ty, outcomes, used);
    assert(field(bytes, pos, ty) == field(bytes, pos, phys));
    match (c, phys) {
        (ValueView::Numeric(_), ColumnType::Numeric { .. })
        | (ValueView::Int(_), ColumnType::Numeric { .. })
        | (ValueView::Float(_), ColumnType::Numeric { .. })
        | (ValueView::Text(_), ColumnType::Numeric { .. }) => {
            lemma_decimal_round_trip(done->stored->Numeric_0, phys, bytes, pos);
        },
        (ValueView::Array(items), ColumnType::Array(elem)) => {
            lemma_array_round_trip(items, elem, outcomes, used, bytes, pos);
        },
        (ValueView::Text(_), ColumnType::Array(elem)) => {
            let items = outcomes[used as int]->Value_0->Array_0;
            lemma_array_round_trip(items, elem, outcomes, used + 1, bytes, pos);
        },
        _ => {
            lemma_exact_round_trip(done->stored, phys, bytes, pos);
        },
    }
}

proof fn lemma_array_round_trip(
    items: Seq<ValueView>,
    elem: ArrayElem,
    outcomes: Seq<OutcomeView>,
    used: nat,
    bytes: Seq<u8>,
    pos: nat,
)
    requires
        write_array(items, types::elem_column_type(elem), outcomes, used) matches Writing::Done {
            bytes: b,
            stored,
            ..
        } && value::sized(stored) && le::stands_at(bytes, pos, b),
    ensures
        field(bytes, pos, ColumnType::Array(elem)) == Ok::<(ValueView, nat), nat>(
            (
                write_array(items, types::elem_column_type(elem), outcomes, used)->stored,
                pos + write_array(
                    items,
                    types::elem_column_type(elem),
                    outcomes,
                    used,
                )->Done_bytes.len(),
            ),
        ),
    decreases 0nat, 3nat, 0nat,
{
    let ty = types::elem_column_type(elem);
    let n = items.len();
    let all = write_items(items, n, ty, outcomes, used);
    lemma_stopped_short(items, n, ty, outcomes, used);
    le::lemma_pow256();
    le::lemma_le_len(n, 4);
    le::lemma_stands_split(bytes, pos, le::le_bytes(n, 4), all->Done_bytes);
    le::lemma_num_at(bytes, pos, n, 4);
    lemma_items_facts(items, n, n, ty, outcomes, used);
    lemma_items_round_trip(items, 0, ty, outcomes, used, bytes, pos + 4);
    let stored = all->Done_stored;
    assert(stored.subrange(0, n as int) =~= stored);
}

proof fn lemma_stopped_short(
    items: Seq<ValueView>,
    n: nat,
    ty: ColumnType,
    outcomes: Seq<OutcomeView>,
    used: nat,
)
    ensures
        write_items(items, n, ty, outcomes, used) matches Items::Stopped(w) ==> !(w is Done),
    decreases n,
{
    if n > 0 {
        lemma_stopped_short(items, (n - 1) as nat, ty, outcomes, used);
    }
}

/// What is written of the first `k` values is where what is written of the first `n` begins.
proof fn lemma_items_facts(
    items: Seq<ValueView>,
    k: nat,
    n: nat,
    ty: ColumnType,
    outcomes: Seq<OutcomeView>,
    used: nat,
)
    requires
        k <= n <= items.len(),
        write_items(items, n, ty, outcomes, used) is Done,
    ensures
        write_items(items, k, ty, outcomes, used) is Done,
        write_items(items, k, ty, outcomes, used)->Done_bytes.len() <= write_items(
            items,
            n,
            ty,
            outcomes,
            used,
        )->Done_bytes.len(),
        write_items(items, n, ty, outcomes, used)->Done_bytes.take(
            write_items(items, k, ty, outcomes, used)->Done_bytes.len() as int,
        ) == write_items(items, k, ty, outcomes, used)->Done_bytes,
        write_items(items, k, ty, outcomes, used)->Done_stored == write_items(
            items,
            n,
            ty,
            outcomes,
            used,
        )->Done_stored.take(k as int),
        write_items(items, n, ty, outcomes, used)->Done_stored.len() == n,
        write_items(items, n, ty, outcomes, used)->Done_bytes.len() >= n,
    decreases n,
{
    let a = write_items(items, k, ty, outcomes, used);
    let c = write_items(items, n, ty, outcomes, used);
    if k < n {
        lemma_items_facts(items, k, (n - 1) as nat, ty, outcomes, used);
        let b = write_items(items, (n - 1) as nat, ty, outcomes, used);
        let one = write_tagged(items[n - 1], ty, outcomes, b->Done_used);
        assert(one->Done_bytes.len() >= 1);
        assert(c->Done_bytes.take(a->Done_bytes.len() as int) =~= b->Done_bytes.take(
            a->Done_bytes.len() as int,
        ));
        assert(c->Done_stored.take(k as int) =~= b->Done_stored.take(k as int));
    } else {
        if n > 0 {
            lemma_items_facts(items, (n - 1) as nat, (n - 1) as nat, ty, outcomes, used);
            let b = write_items(items, (n - 1) as nat, ty, outcomes, used);
            let one = write_tagged(items[n - 1], ty, outcomes, b->Done_used);
            assert(one->Done_bytes.len() >= 1);
        }
        assert(c->Done_bytes.take(c->Done_bytes.len() as int) =~= c->Done_bytes);
        assert(c->Done_stored.take(n as int) =~= c->Done_stored);
    }
}

proof fn lemma_items_round_trip(
    items: Seq<ValueView>,
    k: nat,
    ty: ColumnType,
    outcomes: Seq<OutcomeView>,
    used: nat,
    bytes: Seq<u8>,
    pos: nat,
)
    requires
        k <= items.len(),
        rank(ty) == 0,
        !(ty is Numeric),
        write_items(items, items.len(), ty, outcomes, used) matches Items::Done {
            bytes: b,
            stored,
            ..
        } && value::sized(ValueView::Array(stored)) && le::stands_at(bytes, pos, b),
    ensures
        elements(
            bytes,
            pos + write_items(items, k, ty, outcomes, used)->Done_bytes.len(),
            ty,
            (items.len() - k) as nat,
        ) == Ok::<(Seq<ValueView>, nat), nat>(
            (
                write_items(items, items.len(), ty, outcomes, used)->Done_stored.subrange(
                    k as int,
                    items.len() as int,
                ),
                pos + write_items(items, items.len(), ty, outcomes, used)->Done_bytes.len(),
            ),
        ),
    decreases 0nat, 2nat, items.len() - k,
{
    let n = items.len();
    let all = write_items(items, n, ty, outcomes, used);
    let stored = all->Done_stored;
    lemma_items_facts(items, n, n, ty, outcomes, used);
    if k < n {
        lemma_items_round_trip(items, k + 1, ty, outcomes, used, bytes, pos);
        lemma_items_facts(items, k, n, ty, outcomes, used);
        lemma_items_facts(items, k + 1, n, ty, outcomes, used);
        let a = write_items(items, k, ty, outcomes, used);
        let b = write_items(items, k + 1, ty, outcomes, used);
        let one = write_tagged(items[k as int], ty, outcomes, a->Done_used);
        let x = a->Done_bytes;
        let y = one->Done_bytes;
        let z = all->Done_bytes.skip(b->Done_bytes.len() as int);
        assert(b->Done_bytes == x + y);
        assert(all->Done_bytes =~= x + (y + z)) by {
            assert(all->Done_bytes =~= all->Done_bytes.take(b->Done_bytes.len() as int) + z);
        }
        le::lemma_stands_split(bytes, pos, x, y + z);
        le::lemma_stands_split(bytes, pos + x.len(), y, z);
        assert(stored[k as int] == one->stored) by {
            assert(stored.take((k + 1) as int)[k as int] == stored[k as int]);
        }
        let whole = ValueView::Array(stored);
        assert(value::sized(whole));
        assert(whole->Array_0[k as int] == stored[k as int]);
        assert(value::sized(stored[k as int]));
        lemma_tagged_round_trip(items[k as int], ty, outcomes, a->Done_used, bytes, pos + x.len());
        assert(stored.subrange(k as int, n as int) =~= seq![stored[k as int]] + stored.subrange(
            (k + 1) as int,
            n as int,
        ));
    } else {
        assert(stored.subrange(k as int, n as int) =~= Seq::<ValueView>::empty());
    }
}

proof fn lemma_tagged_round_trip(
    v: ValueView,
    ty: ColumnType,
    outcomes: Seq<OutcomeView>,
    used: nat,
    bytes: Seq<u8>,
    pos: nat,
)
    requires
        write_tagged(v, ty, outcomes, used) matches Writing::Done { bytes: b, stored, .. }
            && value::sized(stored) && (ty is Numeric ==> storable(stored)) && le::stands_at(
            bytes,
            pos,
            b,
        ),
    ensures
        tagged(bytes, pos, ty) == Ok::<(ValueView, nat), nat>(
            (
                write_tagged(v, ty, outcomes, used)->stored,
                pos + write_tagged(v, ty, outcomes, used)->Done_bytes.len(),
            ),
        ),
    decreases rank(ty), 1nat, 0nat,
{
    let done = write_tagged(v, ty, outcomes, used);
    if v is Null {
        assert(bytes.subrange(pos as int, (pos + 1) as int)[0] == TAG_NULL);
    } else {
        let b = write_field(v, ty, outcomes, used)->Done_bytes;
        le::lemma_stands_tag(bytes, pos, TAG_PRESENT, b);
        lemma_field_round_trip(v, ty, outcomes, used, bytes, pos + 1);
    }
}

/// What is stored of a row is what reading the stored tuple gives back, whatever follows it.
pub proof fn law_tuple_round_trip(
    row: Seq<ValueView>,
    schema: Seq<ColumnType>,
    outcomes: Seq<OutcomeView>,
    after: Seq<u8>,
)
    requires
        row.len() == schema.len(),
        write_columns(row, schema, row.len(), outcomes) matches Items::Done { stored, .. }
            && forall|i: int| 0 <= i < stored.len() ==> storable(#[trigger] stored[i]),
    ensures
        tuple(write_columns(row, schema, row.len(), outcomes)->Done_bytes + after, schema) == Ok::<
            (Seq<ValueView>, nat),
            nat,
        >(
            (
                write_columns(row, schema, row.len(), outcomes)->Done_stored,
                write_columns(row, schema, row.len(), outcomes)->Done_bytes.len(),
            ),
        ),
{
    let all = write_columns(row, schema, row.len(), outcomes);
    let bytes = all->Done_bytes + after;
    assert(bytes.subrange(0, all->Done_bytes.len() as int) =~= all->Done_bytes);
    lemma_columns_round_trip(row, schema, 0, outcomes, bytes);
    lemma_columns_facts(row, schema, row.len(), row.len(), outcomes);
    assert(all->Done_stored.subrange(0, row.len() as int) =~= all->Done_stored);
}

proof fn lemma_columns_facts(
    row: Seq<ValueView>,
    schema: Seq<ColumnType>,
    k: nat,
    n: nat,
    outcomes: Seq<OutcomeView>,
)
    requires
        k <= n <= row.len(),
        write_columns(row, schema, n, outcomes) is Done,
    ensures
        write_columns(row, schema, k, outcomes) is Done,
        write_columns(row, schema, k, outcomes)->Done_bytes.len() <= write_columns(
            row,
            schema,
            n,
            outcomes,
        )->Done_bytes.len(),
        write_columns(row, schema, n, outcomes)->Done_bytes.take(
            write_columns(row, schema, k, outcomes)->Done_bytes.len() as int,
        ) == write_columns(row, schema, k, outcomes)->Done_bytes,
        write_columns(row, schema, k, outcomes)->Done_stored == write_columns(
            row,
            schema,
            n,
            outcomes,
        )->Done_stored.take(k as int),
        write_columns(row, schema, n, outcomes)->Done_stored.len() == n,
    decreases n,
{
    let a = write_columns(row, schema, k, outcomes);
    let c = write_columns(row, schema, n, outcomes);
    if k < n {
        lemma_columns_facts(row, schema, k, (n - 1) as nat, outcomes);
        let b = write_columns(row, schema, (n - 1) as nat, outcomes);
        assert(c->Done_bytes.take(a->Done_bytes.len() as int) =~= b->Done_bytes.take(
            a->Done_bytes.len() as int,
        ));
        assert(c->Done_stored.take(k as int) =~= b->Done_stored.take(k as int));
    } else {
        if n > 0 {
            lemma_columns_facts(row, schema, (n - 1) as nat, (n - 1) as nat, outcomes);
        }
        assert(c->Done_bytes.take(c->Done_bytes.len() as int) =~= c->Done_bytes);
        assert(c->Done_stored.take(n as int) =~= c->Done_stored);
    }
}

proof fn lemma_columns_round_trip(
    row: Seq<ValueView>,
    schema: Seq<ColumnType>,
    k: nat,
    outcomes: Seq<OutcomeView>,
    bytes: Seq<u8>,
)
    requires
        row.len() == schema.len(),
        k <= row.len(),
        write_columns(row, schema, row.len(), outcomes) matches Items::Done {
            bytes: b,
            stored,
            ..
        } && le::stands_at(bytes, 0, b) && forall|i: int|
            0 <= i < stored.len() ==> storable(#[trigger] stored[i]),
    ensures
        columns_from(
            bytes,
            schema,
            k,
            write_columns(row, schema, k, outcomes)->Done_bytes.len(),
        ) == Ok::<(Seq<ValueView>, nat), nat>(
            (
                write_columns(row, schema, row.len(), outcomes)->Done_stored.subrange(
                    k as int,
                    row.len() as int,
                ),
                write_columns(row, schema, row.len(), outcomes)->Done_bytes.len(),
            ),
        ),
    decreases row.len() - k,
{
    let n = row.len();
    let all = write_columns(row, schema, n, outcomes);
    let stored = all->Done_stored;
    lemma_columns_facts(row, schema, n, n, outcomes);
    if k < n {
        lemma_columns_round_trip(row, schema, k + 1, outcomes, bytes);
        lemma_columns_facts(row, schema, k, n, outcomes);
        lemma_columns_facts(row, schema, k + 1, n, outcomes);
        let a = write_columns(row, schema, k, outcomes);
        let b = write_columns(row, schema, k + 1, outcomes);
        let one = write_tagged(row[k as int], schema[k as int], outcomes, a->Done_used);
        let x = a->Done_bytes;
        let y = one->Done_bytes;
        let z = all->Done_bytes.skip(b->Done_bytes.len() as int);
        assert(b->Done_bytes == x + y);
        assert(all->Done_bytes =~= x + (y + z)) by {
            assert(all->Done_bytes =~= all->Done_bytes.take(b->Done_bytes.len() as int) + z);
        }
        le::lemma_stands_split(bytes, 0, x, y + z);
        le::lemma_stands_split(bytes, x.len(), y, z);
        assert(stored[k as int] == one->stored) by {
            assert(stored.take((k + 1) as int)[k as int] == stored[k as int]);
        }
        assert(storable(stored[k as int]));
        lemma_tagged_round_trip(
            row[k as int],
            schema[k as int],
            outcomes,
            a->Done_used,
            bytes,
            x.len(),
        );
        assert(stored.subrange(k as int, n as int) =~= seq![stored[k as int]] + stored.subrange(
            (k + 1) as int,
            n as int,
        ));
    } else {
        assert(stored.subrange(k as int, n as int) =~= Seq::<ValueView>::empty());
    }
}

/// A value that is stored in a column of type `ty` without any conversion, as it is.
pub open spec fn settled(v: ValueView, ty: ColumnType) -> bool {
    let phys = types::physical_type(ty);
    ||| v is Null
    ||| (v is Numeric && phys is Numeric && phys->precision == 0)
    ||| (canonical(v, ty) == v && (exact(v, phys) matches Some(Ok(_))))
    ||| match (v, phys) {
        (ValueView::Array(items), ColumnType::Array(elem)) => items.len() <= u32::MAX && forall|i: int|
            0 <= i < items.len() ==> ((#[trigger] items[i]) is Null || (exact(
                items[i],
                types::elem_column_type(elem),
            ) matches Some(Ok(_)))),
        _ => false,
    }
}

proof fn lemma_settled_items(
    items: Seq<ValueView>,
    n: nat,
    elem: ArrayElem,
    outcomes: Seq<OutcomeView>,
    used: nat,
)
    requires
        n <= items.len(),
        forall|i: int|
            0 <= i < items.len() ==> ((#[trigger] items[i]) is Null || (exact(
                items[i],
                types::elem_column_type(elem),
            ) matches Some(Ok(_)))),
    ensures
        write_items(items, n, types::elem_column_type(elem), outcomes, used) matches Items::Done {
            used: u,
            stored,
            ..
        } && u == used && stored == items.take(n as int),
    decreases n,
{
    if n > 0 {
        lemma_settled_items(items, (n - 1) as nat, elem, outcomes, used);
        let v = items[n - 1];
        let ty = types::elem_column_type(elem);
        assert(v is Null || exact(v, ty) is Some);
        assert(types::physical_type(ty) == ty && canonical(v, ty) == v);
        assert(v !is Null ==> !convertible(v, ty));
        assert(v !is Null ==> (write_field(v, ty, outcomes, used) matches Writing::Done {
            used: u,
            stored,
            ..
        } && u == used && stored == v));
        assert(items.take(n as int) =~= items.take(n - 1).push(v));
        assert(items.take((n - 1) as nat as int) == items.take(n - 1));
        assert(write_tagged(v, ty, outcomes, used)->stored == v);
    } else {
        assert(items.take(0) =~= Seq::<ValueView>::empty());
    }
}

/// A decimal for a column with a precision, which is stored at the column's scale.
pub open spec fn rescales(v: ValueView, ty: ColumnType) -> bool {
    let phys = types::physical_type(ty);
    v is Numeric && phys is Numeric && phys->precision > 0
}

/// How many of the first `n` values are rescaled.
pub open spec fn rescaled(row: Seq<ValueView>, schema: Seq<ColumnType>, n: nat) -> nat
    decreases n,
{
    if n == 0 {
        0
    } else {
        rescaled(row, schema, (n - 1) as nat) + if rescales(row[n - 1], schema[n - 1]) {
            1nat
        } else {
            0nat
        }
    }
}

/// The value is stored in a column of type `ty` as it is: without any conversion or, for a decimal
/// with a precision, because rescaling it gives the value itself, with no more digits than the
/// precision.
pub open spec fn kept_as_it_is(v: ValueView, ty: ColumnType, outcomes: Seq<OutcomeView>, used: nat) -> bool {
    if rescales(v, ty) {
        used < outcomes.len() && (outcomes[used as int] matches OutcomeView::Rescaled { value, digits }
            && ValueView::Numeric(value) == v && digits <= types::physical_type(ty)->precision)
    } else {
        settled(v, ty)
    }
}

/// A row whose values are stored as they are is read back from the stored tuple as it was.
pub proof fn law_kept_row_round_trip(
    row: Seq<ValueView>,
    schema: Seq<ColumnType>,
    outcomes: Seq<OutcomeView>,
)
    requires
        row.len() == schema.len(),
        forall|i: int|
            0 <= i < row.len() ==> kept_as_it_is(
                #[trigger] row[i],
                schema[i],
                outcomes,
                rescaled(row, schema, i as nat),
            ),
        forall|i: int| 0 <= i < row.len() ==> storable(#[trigger] row[i]),
    ensures
        write_columns(row, schema, row.len(), outcomes) is Done,
        tuple(write_columns(row, schema, row.len(), outcomes)->Done_bytes, schema) == Ok::<
            (Seq<ValueView>, nat),
            nat,
        >((row, write_columns(row, schema, row.len(), outcomes)->Done_bytes.len())),
{
    lemma_kept_columns(row, schema, row.len(), outcomes);
    assert(row.take(row.len() as int) =~= row);
    law_tuple_round_trip(row, schema, outcomes, Seq::empty());
    let bytes = write_columns(row, schema, row.len(), outcomes)->Done_bytes;
    assert(bytes + Seq::<u8>::empty() =~= bytes);
}

/// A row whose values are settled in their columns is stored without any conversion; so reading the
/// stored tuple gives the row back.
pub proof fn law_settled_row_round_trip(
    row: Seq<ValueView>,
    schema: Seq<ColumnType>,
    outcomes: Seq<OutcomeView>,
)
    requires
        row.len() == schema.len(),
        forall|i: int| 0 <= i < row.len() ==> settled(#[trigger] row[i], schema[i]),
        forall|i: int| 0 <= i < row.len() ==> storable(#[trigger] row[i]),
    ensures
        write_columns(row, schema, row.len(), outcomes) is Done,
        tuple(write_columns(row, schema, row.len(), outcomes)->Done_bytes, schema) == Ok::<
            (Seq<ValueView>, nat),
            nat,
        >((row, write_columns(row, schema, row.len(), outcomes)->Done_bytes.len())),
{
    assert forall|i: int| 0 <= i < row.len() implies kept_as_it_is(
        #[trigger] row[i],
        schema[i],
        outcomes,
        rescaled(row, schema, i as nat),
    ) by {
        assert(settled(row[i], schema[i]));
    }
    law_kept_row_round_trip(row, schema, outcomes);
}

proof fn lemma_kept_columns(
    row: Seq<ValueView>,
    schema: Seq<ColumnType>,
    n: nat,
    outcomes: Seq<OutcomeView>,
)
    requires
        n <= row.len() == schema.len(),
        forall|i: int|
            0 <= i < row.len() ==> kept_as_it_is(
                #[trigger] row[i],
                schema[i],
                outcomes,
                rescaled(row, schema, i as nat),
            ),
    ensures
        write_columns(row, schema, n, outcomes) matches Items::Done { used, stored, .. } && used
            == rescaled(row, schema, n) && stored == row.take(n as int),
    decreases n,
{
    if n > 0 {
        lemma_kept_columns(row, schema, (n - 1) as nat, outcomes);
        let v = row[n - 1];
        let ty = schema[n - 1];
        let used = rescaled(row, schema, (n - 1) as nat);
        assert(kept_as_it_is(v, ty, outcomes, used));
        if let ValueView::Array(items) = v {
            if let ColumnType::Array(elem) = types::physical_type(ty) {
                lemma_settled_items(items, items.len(), elem, outcomes, used);
                assert(items.take(items.len() as int) =~= items);
            }
        }
        assert(row.take(n as int) =~= row.take(n - 1).push(v));
    } else {
        assert(row.take(0) =~= Seq::<ValueView>::empty());
    }
}

/// Every value that a column of a hash-safe type stores without conversion is hash-safe.
pub proof fn law_hash_safe_types_hold_hash_safe_values(v: ValueView, ty: ColumnType)
    requires
        types::hash_safe_type(types::CatalogType::Column(ty)),
        settled(v, ty),
    ensures
        setops::hash_safe(v),
{
}

} // verus!
