//! Self-describing encoding of intermediate rows.
//!
//! A row is its column count followed by its values. Each value is a tag byte followed by a
//! payload; every integer is little-endian, and every length or count is a `u32`.
//!
//! | tag | variant | payload |
//! |-----|---------|---------|
//! | 0 | `Null` | none |
//! | 1 | `Bool` | 1 byte |
//! | 2 | `Int` | `i64` |
//! | 3 | `Float` | 64 bits |
//! | 4 | `Text` | length and UTF-8 bytes |
//! | 5 | `Date` | `i32` |
//! | 6 | `Time` | `i64` |
//! | 7 | `Timestamp` | `i64` |
//! | 8 | `TimestampTz` | `i64` |
//! | 9 | `TimeTz` | `i64` |
//! | 10 | `Uuid` | 16 bytes |
//! | 11 | `Numeric` | `i128` mantissa and `u8` scale |
//! | 12 | `Json` | length and UTF-8 bytes |
//! | 13 | `Interval` | `i32` months, `i32` days, `i64` microseconds |
//! | 14 | `Array` | count and that many values |
//! | 15 | `Vector` | count and that many 32-bit words |
//! | 16 | `Bytes` | length and bytes |
use vstd::prelude::*;
use vstd::utf8::*;
use crate::error::Error;
use crate::le;
use crate::text::utf8_to_string;
use crate::value::{Decimal, Interval, Row, Value, ValueView};

verus! {

pub const TAG_NULL: u8 = 0;
pub const TAG_BOOL: u8 = 1;
pub const TAG_INT: u8 = 2;
pub const TAG_FLOAT: u8 = 3;
pub const TAG_TEXT: u8 = 4;
pub const TAG_DATE: u8 = 5;
pub const TAG_TIME: u8 = 6;
pub const TAG_TIMESTAMP: u8 = 7;
pub const TAG_TIMESTAMPTZ: u8 = 8;
pub const TAG_TIMETZ: u8 = 9;
pub const TAG_UUID: u8 = 10;
pub const TAG_NUMERIC: u8 = 11;
pub const TAG_JSON: u8 = 12;
pub const TAG_INTERVAL: u8 = 13;
pub const TAG_ARRAY: u8 = 14;
pub const TAG_VECTOR: u8 = 15;
pub const TAG_BYTES: u8 = 16;

// ---------------------------------------------------------------- the written form

/// A tag, a length and the bytes themselves; only the tag when the length does not fit.
pub open spec fn emit_blob(tag: u8, b: Seq<u8>) -> (Seq<u8>, bool) {
    if b.len() <= u32::MAX {
        (seq![tag] + le::le_bytes(b.len(), 4) + b, true)
    } else {
        (seq![tag], false)
    }
}

/// What writing `v` puts out, and whether the whole of it could be written: the writing stops
/// before a length that does not fit in 32 bits.
pub open spec fn emit(v: ValueView) -> (Seq<u8>, bool)
    decreases v, 0nat,
{
    match v {
        ValueView::Null => (seq![TAG_NULL], true),
        ValueView::Bool(b) => (seq![TAG_BOOL, if b { 1u8 } else { 0u8 }], true),
        ValueView::Int(i) => (seq![TAG_INT] + le::le_bytes(le::twos(i as int, 8), 8), true),
        ValueView::Float(f) => (seq![TAG_FLOAT] + le::le_bytes(f as nat, 8), true),
        ValueView::Text(s) => emit_blob(TAG_TEXT, encode_utf8(s)),
        ValueView::Date(d) => (seq![TAG_DATE] + le::le_bytes(le::twos(d as int, 4), 4), true),
        ValueView::Time(t) => (seq![TAG_TIME] + le::le_bytes(le::twos(t as int, 8), 8), true),
        ValueView::Timestamp(t) => (seq![TAG_TIMESTAMP] + le::le_bytes(le::twos(t as int, 8), 8), true),
        ValueView::TimestampTz(t) => (seq![TAG_TIMESTAMPTZ] + le::le_bytes(le::twos(t as int, 8), 8), true),
        ValueView::TimeTz(t) => (seq![TAG_TIMETZ] + le::le_bytes(le::twos(t as int, 8), 8), true),
        ValueView::Uuid(b) => (seq![TAG_UUID] + b, true),
        ValueView::Numeric(d) => (
            seq![TAG_NUMERIC] + le::le_bytes(le::twos(d.mantissa as int, 16), 16) + seq![d.scale],
            true,
        ),
        ValueView::Json(s) => emit_blob(TAG_JSON, encode_utf8(s)),
        ValueView::Interval(iv) => (
            seq![TAG_INTERVAL] + le::le_bytes(le::twos(iv.months as int, 4), 4) + le::le_bytes(
                le::twos(iv.days as int, 4),
                4,
            ) + le::le_bytes(le::twos(iv.micros as int, 8), 8),
            true,
        ),
        ValueView::Array(items) => if items.len() <= u32::MAX {
            let rest = emit_all(items, items.len());
            (seq![TAG_ARRAY] + le::le_bytes(items.len(), 4) + rest.0, rest.1)
        } else {
            (seq![TAG_ARRAY], false)
        },
        ValueView::Vector(xs) => if xs.len() <= u32::MAX {
            (seq![TAG_VECTOR] + le::le_bytes(xs.len(), 4) + le::words(xs), true)
        } else {
            (seq![TAG_VECTOR], false)
        },
        ValueView::Bytes(b) => emit_blob(TAG_BYTES, b),
    }
}

/// What writing the first `n` values puts out, up to the first that cannot be written whole.
pub open spec fn emit_all(items: Seq<ValueView>, n: nat) -> (Seq<u8>, bool)
    decreases items, n,
{
    if n == 0 || n > items.len() {
        (Seq::empty(), true)
    } else {
        let head = emit_all(items, (n - 1) as nat);
        if head.1 {
            let last = emit(items[n - 1]);
            (head.0 + last.0, last.1)
        } else {
            head
        }
    }
}

/// What writing a whole row puts out.
pub open spec fn emit_row(row: Seq<ValueView>) -> (Seq<u8>, bool) {
    if row.len() <= u32::MAX {
        let rest = emit_all(row, row.len());
        (le::le_bytes(row.len(), 4) + rest.0, rest.1)
    } else {
        (Seq::empty(), false)
    }
}

// ---------------------------------------------------------------- the read form

/// A length and that many bytes at `pos`: the bytes and where they end, or where reading stopped.
pub open spec fn blob_at(bytes: Seq<u8>, pos: nat) -> Result<(Seq<u8>, nat), nat> {
    if pos + 4 > bytes.len() {
        Err(pos)
    } else {
        let n = le::num_at(bytes, pos, 4);
        if pos + 4 + n > bytes.len() {
            Err(pos + 4)
        } else {
            Ok((bytes.subrange((pos + 4) as int, (pos + 4 + n) as int), pos + 4 + n))
        }
    }
}

/// A length and that many bytes of UTF-8 at `pos`.
pub open spec fn text_at(bytes: Seq<u8>, pos: nat) -> Result<(Seq<char>, nat), nat> {
    match blob_at(bytes, pos) {
        Ok((b, end)) => if valid_utf8(b) {
            Ok((decode_utf8(b), end))
        } else {
            Err(end)
        },
        Err(at) => Err(at),
    }
}

/// The value written at `pos` and the position after it, or the position at which the bytes are
/// found not to be a value.
pub open spec fn parse(bytes: Seq<u8>, pos: nat) -> Result<(ValueView, nat), nat>
    decreases bytes.len() - pos, 0nat,
{
    let p = pos + 1;
    if pos >= bytes.len() {
        Err(pos)
    } else {
        let tag = bytes[pos as int];
        let left = bytes.len() - p;
        if tag == TAG_NULL {
            Ok((ValueView::Null, p))
        } else if tag == TAG_BOOL {
            if left < 1 {
                Err(p)
            } else {
                Ok((ValueView::Bool(bytes[p as int] != 0), p + 1))
            }
        } else if tag == TAG_INT {
            if left < 8 {
                Err(p)
            } else {
                Ok((ValueView::Int(le::i64_at(bytes, p)), p + 8))
            }
        } else if tag == TAG_FLOAT {
            if left < 8 {
                Err(p)
            } else {
                Ok((ValueView::Float(le::num_at(bytes, p, 8) as u64), p + 8))
            }
        } else if tag == TAG_TEXT {
            match text_at(bytes, p) {
                Ok((s, end)) => Ok((ValueView::Text(s), end)),
                Err(at) => Err(at),
            }
        } else if tag == TAG_DATE {
            if left < 4 {
                Err(p)
            } else {
                Ok((ValueView::Date(le::i32_at(bytes, p)), p + 4))
            }
        } else if tag == TAG_TIME {
            if left < 8 {
                Err(p)
            } else {
                Ok((ValueView::Time(le::i64_at(bytes, p)), p + 8))
            }
        } else if tag == TAG_TIMESTAMP {
            if left < 8 {
                Err(p)
            } else {
                Ok((ValueView::Timestamp(le::i64_at(bytes, p)), p + 8))
            }
        } else if tag == TAG_TIMESTAMPTZ {
            if left < 8 {
                Err(p)
            } else {
                Ok((ValueView::TimestampTz(le::i64_at(bytes, p)), p + 8))
            }
        } else if tag == TAG_TIMETZ {
            if left < 8 {
                Err(p)
            } else {
                Ok((ValueView::TimeTz(le::i64_at(bytes, p)), p + 8))
            }
        } else if tag == TAG_UUID {
            if left < 16 {
                Err(p)
            } else {
                Ok((ValueView::Uuid(bytes.subrange(p as int, (p + 16) as int)), p + 16))
            }
        } else if tag == TAG_NUMERIC {
            if left < 16 {
                Err(p)
            } else if left < 17 {
                Err(p + 16)
            } else {
                let mantissa = le::untwos(le::num_at(bytes, p, 16), 16) as i128;
                Ok((ValueView::Numeric(Decimal { mantissa, scale: bytes[(p + 16) as int] }), p + 17))
            }
        } else if tag == TAG_JSON {
            match text_at(bytes, p) {
                Ok((s, end)) => Ok((ValueView::Json(s), end)),
                Err(at) => Err(at),
            }
        } else if tag == TAG_INTERVAL {
            if left < 4 {
                Err(p)
            } else if left < 8 {
                Err(p + 4)
            } else if left < 16 {
                Err(p + 8)
            } else {
                let iv = Interval {
                    months: le::i32_at(bytes, p),
                    days: le::i32_at(bytes, p + 4),
                    micros: le::i64_at(bytes, p + 8),
                };
                Ok((ValueView::Interval(iv), p + 16))
            }
        } else if tag == TAG_ARRAY {
            if left < 4 {
                Err(p)
            } else {
                match parse_all(bytes, p + 4, le::num_at(bytes, p, 4)) {
                    Ok((items, end)) => Ok((ValueView::Array(items), end)),
                    Err(at) => Err(at),
                }
            }
        } else if tag == TAG_VECTOR {
            if left < 4 {
                Err(p)
            } else {
                let n = le::num_at(bytes, p, 4);
                if left < 4 + 4 * n {
                    Err((p + 4 + 4 * ((left - 4) / 4)) as nat)
                } else {
                    Ok((ValueView::Vector(le::words_at(bytes, p + 4, n)), p + 4 + 4 * n))
                }
            }
        } else if tag == TAG_BYTES {
            match blob_at(bytes, p) {
                Ok((b, end)) => Ok((ValueView::Bytes(b), end)),
                Err(at) => Err(at),
            }
        } else {
            Err(pos)
        }
    }
}

/// `n` values written one after the other from `pos` on. (A value takes at least one byte.)
pub open spec fn parse_all(bytes: Seq<u8>, pos: nat, n: nat) -> Result<(Seq<ValueView>, nat), nat>
    decreases bytes.len() - pos, 1nat,
{
    if n == 0 {
        Ok((Seq::empty(), pos))
    } else {
        match parse(bytes, pos) {
            Ok((v, next)) => if pos < next <= bytes.len() {
                match parse_all(bytes, next, (n - 1) as nat) {
                    Ok((rest, end)) => Ok((seq![v] + rest, end)),
                    Err(at) => Err(at),
                }
            } else {
                Err(pos)
            },
            Err(at) => Err(at),
        }
    }
}

/// The row written at the front of `bytes`; bytes after it are not looked at.
pub open spec fn parse_row(bytes: Seq<u8>) -> Result<(Seq<ValueView>, nat), nat> {
    if bytes.len() < 4 {
        Err(0)
    } else {
        parse_all(bytes, 4, le::num_at(bytes, 0, 4))
    }
}

// ---------------------------------------------------------------- writing

/// Write a length or count, refusing one that does not fit in 32 bits.
fn write_len(out: &mut Vec<u8>, n: usize) -> (r: Result<(), Error>)
    ensures
        n <= u32::MAX ==> r is Ok && final(out)@ == old(out)@ + le::le_bytes(n as nat, 4),
        n > u32::MAX ==> *final(out) == *old(out) && r == Err::<(), Error>(
            Error::MalformedTuple { offset: old(out)@.len() as usize },
        ),
{
    if n > u32::MAX as usize {
        return Err(Error::MalformedTuple { offset: out.len() });
    }
    le::push_le(out, n as u128, 4);
    Ok(())
}

fn write_tagged(out: &mut Vec<u8>, tag: u8, v: u128, n: usize)
    ensures
        final(out)@ == old(out)@ + (seq![tag] + le::le_bytes(v as nat, n as nat)),
{
    out.push(tag);
    le::push_le(out, v, n);
    proof {
        assert(final(out)@ =~= old(out)@ + (seq![tag] + le::le_bytes(v as nat, n as nat)));
    }
}

fn write_tagged_i64(out: &mut Vec<u8>, tag: u8, v: i64)
    ensures
        final(out)@ == old(out)@ + (seq![tag] + le::le_bytes(le::twos(v as int, 8), 8)),
{
    write_tagged(out, tag, le::i64_bits(v), 8);
}

fn write_tagged_bytes(out: &mut Vec<u8>, tag: u8, bytes: &[u8]) -> (r: Result<(), Error>)
    ensures
        final(out)@ == old(out)@ + emit_blob(tag, bytes@).0,
        r is Ok <==> emit_blob(tag, bytes@).1,
        r matches Err(e) ==> e == (Error::MalformedTuple { offset: final(out)@.len() as usize }),
{
    let ghost start = out@;
    out.push(tag);
    assert(out@ =~= start + seq![tag]);
    match write_len(out, bytes.len()) {
        Ok(()) => {},
        Err(e) => {
            return Err(e);
        },
    }
    le::push_bytes(out, bytes);
    proof {
        assert(out@ =~= start + emit_blob(tag, bytes@).0);
    }
    Ok(())
}

/// Append the written form of `v`.
///
/// When a length does not fit in 32 bits nothing is written from that length on, and the error
/// carries its position.
pub fn write_value(out: &mut Vec<u8>, v: &Value) -> (r: Result<(), Error>)
    ensures
        final(out)@ == old(out)@ + emit(v@).0,
        r is Ok <==> emit(v@).1,
        r matches Err(e) ==> e == (Error::MalformedTuple { offset: final(out)@.len() as usize }),
    decreases v,
{
    let ghost start = out@;
    match v {
        Value::Null => {
            out.push(TAG_NULL);
            assert(out@ =~= start + seq![TAG_NULL]);
        },
        Value::Bool(b) => {
            out.push(TAG_BOOL);
            out.push(if *b { 1 } else { 0 });
            assert(out@ =~= start + emit(v@).0);
        },
        Value::Int(i) => write_tagged_i64(out, TAG_INT, *i),
        Value::Float(f) => write_tagged(out, TAG_FLOAT, *f as u128, 8),
        Value::Text(s) => {
            return write_tagged_bytes(out, TAG_TEXT, s.as_str().as_bytes());
        },
        Value::Date(d) => write_tagged(out, TAG_DATE, le::i32_bits(*d), 4),
        Value::Time(t) => write_tagged_i64(out, TAG_TIME, *t),
        Value::Timestamp(t) => write_tagged_i64(out, TAG_TIMESTAMP, *t),
        Value::TimestampTz(t) => write_tagged_i64(out, TAG_TIMESTAMPTZ, *t),
        Value::TimeTz(t) => write_tagged_i64(out, TAG_TIMETZ, *t),
        Value::Uuid(b) => {
            out.push(TAG_UUID);
            le::push_bytes(out, b.as_slice());
            assert(out@ =~= start + emit(v@).0);
        },
        Value::Numeric(d) => {
            write_tagged(out, TAG_NUMERIC, le::i128_bits(d.mantissa), 16);
            out.push(d.scale);
            assert(out@ =~= start + emit(v@).0);
        },
        Value::Json(s) => {
            return write_tagged_bytes(out, TAG_JSON, s.as_str().as_bytes());
        },
        Value::Interval(iv) => {
            write_tagged(out, TAG_INTERVAL, le::i32_bits(iv.months), 4);
            le::push_le(out, le::i32_bits(iv.days), 4);
            le::push_le(out, le::i64_bits(iv.micros), 8);
            assert(out@ =~= start + emit(v@).0);
        },
        Value::Array(items) => {
            proof {
                crate::value::lemma_array_view(*items);
                assert(v@ == ValueView::Array(items.deep_view()));
            }
            out.push(TAG_ARRAY);
            assert(out@ =~= start + seq![TAG_ARRAY]);
            match write_len(out, items.len()) {
                Ok(()) => {},
                Err(e) => {
                    return Err(e);
                },
            }
            let ghost base = out@;
            let ghost view = items.deep_view();
            let mut i: usize = 0;
            assert(out@ =~= base + emit_all(view, 0).0);
            while i < items.len()
                invariant
                    start == old(out)@,
                    *v == Value::Array(*items),
                    view == items.deep_view(),
                    v@ == ValueView::Array(view),
                    i <= items@.len() <= u32::MAX,
                    base == start + seq![TAG_ARRAY] + le::le_bytes(items@.len(), 4),
                    emit_all(view, i as nat).1,
                    out@ == base + emit_all(view, i as nat).0,
                decreases items@.len() - i,
            {
                assert(decreases_to!(*v => (*v)->Array_0));
                assert(decreases_to!(*items => items[i as int]));
                assert(view[i as int] == items@[i as int]@);
                let r = write_value(out, &items[i]);
                proof {
                    assert(out@ =~= base + emit_all(view, (i + 1) as nat).0);
                }
                match r {
                    Ok(()) => {},
                    Err(e) => {
                        proof {
                            lemma_emit_all_stops(view, (i + 1) as nat, view.len());
                            assert(out@ =~= start + emit(v@).0);
                        }
                        return Err(e);
                    },
                }
                i += 1;
            }
            assert(out@ =~= start + emit(v@).0);
        },
        Value::Vector(xs) => {
            out.push(TAG_VECTOR);
            assert(out@ =~= start + seq![TAG_VECTOR]);
            match write_len(out, xs.len()) {
                Ok(()) => {},
                Err(e) => {
                    return Err(e);
                },
            }
            let ghost base = out@;
            let mut i: usize = 0;
            assert(out@ =~= base + le::words(xs@.take(0)));
            while i < xs.len()
                invariant
                    i <= xs@.len() <= u32::MAX,
                    out@ == base + le::words(xs@.take(i as int)),
                decreases xs@.len() - i,
            {
                le::push_le(out, xs[i] as u128, 4);
                proof {
                    let next = xs@.take(i + 1);
                    assert(next.drop_last() =~= xs@.take(i as int));
                    assert(out@ =~= base + le::words(next));
                }
                i += 1;
            }
            assert(xs@.take(xs@.len() as int) =~= xs@);
            assert(out@ =~= start + emit(v@).0);
        },
        Value::Bytes(b) => {
            return write_tagged_bytes(out, TAG_BYTES, b.as_slice());
        },
    }
    Ok(())
}

/// Nothing more is written after the first value that cannot be.
proof fn lemma_emit_all_stops(items: Seq<ValueView>, k: nat, n: nat)
    requires
        k <= n <= items.len(),
        !emit_all(items, k).1,
    ensures
        emit_all(items, n) == emit_all(items, k),
    decreases n,
{
    if k < n {
        lemma_emit_all_stops(items, k, (n - 1) as nat);
    }
}

/// The written form of `row`.
///
/// Refused, with the position of the offending length, exactly when a column count, an element
/// count or a byte length does not fit in 32 bits.
pub fn encode_row(row: &[Value]) -> (r: Result<Vec<u8>, Error>)
    ensures
        match r {
            Ok(out) => emit_row(row.deep_view()).1 && out@ == emit_row(row.deep_view()).0,
            Err(e) => !emit_row(row.deep_view()).1 && e == (Error::MalformedTuple {
                offset: emit_row(row.deep_view()).0.len() as usize,
            }),
        },
{
    let mut out: Vec<u8> = Vec::new();
    let ghost view = row.deep_view();
    match write_len(&mut out, row.len()) {
        Ok(()) => {},
        Err(e) => {
            return Err(e);
        },
    }
    let ghost base = out@;
    assert(base =~= le::le_bytes(view.len(), 4));
    let mut i: usize = 0;
    assert(out@ =~= base + emit_all(view, 0).0);
    while i < row.len()
        invariant
            view == row.deep_view(),
            i <= row@.len() <= u32::MAX,
            base == le::le_bytes(view.len(), 4),
            emit_all(view, i as nat).1,
            out@ == base + emit_all(view, i as nat).0,
        decreases row@.len() - i,
    {
        assert(view[i as int] == row@[i as int]@);
        let r = write_value(&mut out, &row[i]);
        proof {
            assert(out@ =~= base + emit_all(view, (i + 1) as nat).0);
        }
        match r {
            Ok(()) => {},
            Err(e) => {
                proof {
                    lemma_emit_all_stops(view, (i + 1) as nat, view.len());
                }
                return Err(e);
            },
        }
        i += 1;
    }
    Ok(out)
}

// ---------------------------------------------------------------- reading

/// A bounds-checked forward cursor over a record's bytes.
pub struct Cursor<'a> {
    pub bytes: &'a [u8],
    pub pos: usize,
}

impl<'a> Cursor<'a> {
    pub open spec fn wf(self) -> bool {
        self.pos <= self.bytes@.len()
    }

    /// Step over `n` bytes, giving where they start.
    fn take(&mut self, n: usize) -> (r: Result<usize, Error>)
        requires
            old(self).wf(),
        ensures
            final(self).wf(),
            final(self).bytes == old(self).bytes,
            old(self).pos + n <= old(self).bytes@.len() ==> r == Ok::<usize, Error>(old(self).pos)
                && final(self).pos == old(self).pos + n,
            old(self).pos + n > old(self).bytes@.len() ==> final(self).pos == old(self).pos && r
                == Err::<usize, Error>(Error::MalformedTuple { offset: old(self).pos }),
    {
        if n > self.bytes.len() - self.pos {
            return Err(Error::MalformedTuple { offset: self.pos });
        }
        let at: usize = self.pos;
        self.pos = at + n;
        Ok(at)
    }

    /// The unsigned number in the next `n` bytes.
    fn le(&mut self, n: usize) -> (r: Result<u128, Error>)
        requires
            old(self).wf(),
            n <= 16,
        ensures
            final(self).wf(),
            final(self).bytes == old(self).bytes,
            old(self).pos + n <= old(self).bytes@.len() ==> final(self).pos == old(self).pos + n
                && (r matches Ok(v) && v as nat == le::num_at(
                old(self).bytes@,
                old(self).pos as nat,
                n as nat,
            ) && (v as nat) < le::pow256(n as nat)),
            old(self).pos + n > old(self).bytes@.len() ==> final(self).pos == old(self).pos && r
                == Err::<u128, Error>(Error::MalformedTuple { offset: old(self).pos }),
    {
        match self.take(n) {
            Ok(at) => Ok(le::read_le(self.bytes, at, n)),
            Err(e) => Err(e),
        }
    }

    fn i64(&mut self) -> (r: Result<i64, Error>)
        requires
            old(self).wf(),
        ensures
            final(self).wf(),
            final(self).bytes == old(self).bytes,
            old(self).pos + 8 <= old(self).bytes@.len() ==> final(self).pos == old(self).pos + 8
                && r == Ok::<i64, Error>(le::i64_at(old(self).bytes@, old(self).pos as nat)),
            old(self).pos + 8 > old(self).bytes@.len() ==> final(self).pos == old(self).pos && r
                == Err::<i64, Error>(Error::MalformedTuple { offset: old(self).pos }),
    {
        match self.le(8) {
            Ok(v) => Ok(le::bits_i64(v)),
            Err(e) => Err(e),
        }
    }

    fn i32(&mut self) -> (r: Result<i32, Error>)
        requires
            old(self).wf(),
        ensures
            final(self).wf(),
            final(self).bytes == old(self).bytes,
            old(self).pos + 4 <= old(self).bytes@.len() ==> final(self).pos == old(self).pos + 4
                && r == Ok::<i32, Error>(le::i32_at(old(self).bytes@, old(self).pos as nat)),
            old(self).pos + 4 > old(self).bytes@.len() ==> final(self).pos == old(self).pos && r
                == Err::<i32, Error>(Error::MalformedTuple { offset: old(self).pos }),
    {
        match self.le(4) {
            Ok(v) => Ok(le::bits_i32(v)),
            Err(e) => Err(e),
        }
    }

    /// A count or length.
    fn count(&mut self) -> (r: Result<usize, Error>)
        requires
            old(self).wf(),
        ensures
            final(self).wf(),
            final(self).bytes == old(self).bytes,
            old(self).pos + 4 <= old(self).bytes@.len() ==> final(self).pos == old(self).pos + 4
                && (r matches Ok(v) && v as nat == le::num_at(
                old(self).bytes@,
                old(self).pos as nat,
                4,
            )),
            old(self).pos + 4 > old(self).bytes@.len() ==> final(self).pos == old(self).pos && r
                == Err::<usize, Error>(Error::MalformedTuple { offset: old(self).pos }),
    {
        match self.le(4) {
            Ok(v) => {
                proof {
                    le::lemma_pow256();
                }
                Ok(v as usize)
            },
            Err(e) => Err(e),
        }
    }

    /// A length and that many bytes.
    fn blob(&mut self) -> (r: Result<Vec<u8>, Error>)
        requires
            old(self).wf(),
        ensures
            final(self).wf(),
            final(self).bytes == old(self).bytes,
            match blob_at(old(self).bytes@, old(self).pos as nat) {
                Ok((b, end)) => final(self).pos == end && (r matches Ok(out) && out@ == b),
                Err(at) => r == Err::<Vec<u8>, Error>(Error::MalformedTuple { offset: at as usize }),
            },
    {
        let n: usize = match self.count() {
            Ok(n) => n,
            Err(e) => {
                return Err(e);
            },
        };
        match self.take(n) {
            Ok(at) => Ok(le::copy_bytes(self.bytes, at, n)),
            Err(e) => Err(e),
        }
    }

    /// A length and that many bytes of UTF-8.
    fn string(&mut self) -> (r: Result<String, Error>)
        requires
            old(self).wf(),
        ensures
            final(self).wf(),
            final(self).bytes == old(self).bytes,
            match text_at(old(self).bytes@, old(self).pos as nat) {
                Ok((s, end)) => final(self).pos == end && (r matches Ok(out) && out@ == s),
                Err(at) => r == Err::<String, Error>(Error::MalformedTuple { offset: at as usize }),
            },
    {
        match self.blob() {
            Ok(b) => match utf8_to_string(b) {
                Some(s) => Ok(s),
                None => Err(Error::MalformedTuple { offset: self.pos }),
            },
            Err(e) => Err(e),
        }
    }

    /// `n` 32-bit words.
    fn words(&mut self, n: usize) -> (r: Result<Vec<u32>, Error>)
        requires
            old(self).wf(),
        ensures
            final(self).wf(),
            final(self).bytes == old(self).bytes,
            old(self).pos + 4 * n <= old(self).bytes@.len() ==> final(self).pos == old(self).pos + 4
                * n && (r matches Ok(v) && v@ == le::words_at(
                old(self).bytes@,
                old(self).pos as nat,
                n as nat,
            )),
            old(self).pos + 4 * n > old(self).bytes@.len() ==> r == Err::<Vec<u32>, Error>(
                Error::MalformedTuple {
                    offset: (old(self).pos + 4 * ((old(self).bytes@.len() - old(self).pos)
                        / 4)) as usize,
                },
            ),
    {
        let ghost start = self.pos;
        let ghost data = self.bytes@;
        let mut out: Vec<u32> = Vec::new();
        let mut i: usize = 0;
        while i < n
            invariant
                self.wf(),
                self.bytes == old(self).bytes,
                data == self.bytes@,
                start == old(self).pos,
                i <= n,
                self.pos == start + 4 * i,
                out@ == le::words_at(data, start as nat, i as nat),
            decreases n - i,
        {
            match self.le(4) {
                Ok(v) => {
                    proof {
                        le::lemma_pow256();
                    }
                    out.push(v as u32);
                },
                Err(e) => {
                    return Err(e);
                },
            }
            i += 1;
            assert(out@ =~= le::words_at(data, start as nat, i as nat));
        }
        Ok(out)
    }
}

/// A value was read as expected, up to `end`, or refused where expected.
pub open spec fn read_outcome(
    expected: Result<(ValueView, nat), nat>,
    r: Result<Value, Error>,
    end: usize,
) -> bool {
    match expected {
        Ok((v, p)) => end == p && (r matches Ok(x) && x@ == v),
        Err(at) => r == Err::<Value, Error>(Error::MalformedTuple { offset: at as usize }),
    }
}

/// The next value.
pub fn read_value(c: &mut Cursor<'_>) -> (r: Result<Value, Error>)
    requires
        old(c).wf(),
    ensures
        final(c).wf(),
        final(c).bytes == old(c).bytes,
        read_outcome(parse(old(c).bytes@, old(c).pos as nat), r, final(c).pos),
    decreases old(c).bytes@.len() - old(c).pos, 0nat,
{
    let ghost data = c.bytes@;
    let tag: u8 = match c.le(1) {
        Ok(v) => {
            proof {
                le::lemma_pow256();
                let one = data.subrange(c.pos - 1, c.pos as int);
                assert(le::le_value(one) == one[0] as nat) by {
                    assert(one.skip(1).len() == 0);
                    assert(le::le_value(one.skip(1)) == 0);
                }
            }
            v as u8
        },
        Err(e) => {
            return Err(e);
        },
    };
    let ghost p = c.pos as nat;
    assert(tag == data[p - 1]);
    if tag == TAG_NULL {
        Ok(Value::Null)
    } else if tag == TAG_BOOL {
        match c.take(1) {
            Ok(at) => Ok(Value::Bool(c.bytes[at] != 0)),
            Err(e) => Err(e),
        }
    } else if tag == TAG_INT {
        match c.i64() {
            Ok(i) => Ok(Value::Int(i)),
            Err(e) => Err(e),
        }
    } else if tag == TAG_FLOAT {
        match c.le(8) {
            Ok(v) => {
                proof {
                    le::lemma_pow256();
                }
                Ok(Value::Float(v as u64))
            },
            Err(e) => Err(e),
        }
    } else if tag == TAG_TEXT {
        match c.string() {
            Ok(s) => Ok(Value::Text(s)),
            Err(e) => Err(e),
        }
    } else if tag == TAG_DATE {
        match c.i32() {
            Ok(d) => Ok(Value::Date(d)),
            Err(e) => Err(e),
        }
    } else if tag == TAG_TIME {
        match c.i64() {
            Ok(t) => Ok(Value::Time(t)),
            Err(e) => Err(e),
        }
    } else if tag == TAG_TIMESTAMP {
        match c.i64() {
            Ok(t) => Ok(Value::Timestamp(t)),
            Err(e) => Err(e),
        }
    } else if tag == TAG_TIMESTAMPTZ {
        match c.i64() {
            Ok(t) => Ok(Value::TimestampTz(t)),
            Err(e) => Err(e),
        }
    } else if tag == TAG_TIMETZ {
        match c.i64() {
            Ok(t) => Ok(Value::TimeTz(t)),
            Err(e) => Err(e),
        }
    } else if tag == TAG_UUID {
        match c.take(16) {
            Ok(at) => {
                let mut b: [u8; 16] = [0u8; 16];
                let mut i: usize = 0;
                let bytes = c.bytes;
                let total: usize = bytes.len();
                while i < 16
                    invariant
                        i <= 16,
                        at + 16 <= bytes@.len() == total,
                        forall|k: int| 0 <= k < i ==> b@[k] == bytes@[at + k],
                    decreases 16 - i,
                {
                    b[i] = bytes[at + i];
                    i += 1;
                }
                assert(b@ =~= data.subrange(at as int, at + 16));
                Ok(Value::Uuid(b))
            },
            Err(e) => Err(e),
        }
    } else if tag == TAG_NUMERIC {
        match c.le(16) {
            Ok(v) => {
                let mantissa: i128 = le::bits_i128(v);
                match c.take(1) {
                    Ok(at) => Ok(Value::Numeric(Decimal { mantissa, scale: c.bytes[at] })),
                    Err(e) => Err(e),
                }
            },
            Err(e) => Err(e),
        }
    } else if tag == TAG_JSON {
        match c.string() {
            Ok(s) => Ok(Value::Json(s)),
            Err(e) => Err(e),
        }
    } else if tag == TAG_INTERVAL {
        let months: i32 = match c.i32() {
            Ok(x) => x,
            Err(e) => {
                return Err(e);
            },
        };
        let days: i32 = match c.i32() {
            Ok(x) => x,
            Err(e) => {
                return Err(e);
            },
        };
        match c.i64() {
            Ok(micros) => Ok(Value::Interval(Interval { months, days, micros })),
            Err(e) => Err(e),
        }
    } else if tag == TAG_ARRAY {
        let n: usize = match c.count() {
            Ok(n) => n,
            Err(e) => {
                return Err(e);
            },
        };
        match read_values(c, n) {
            Ok(items) => {
                proof {
                    crate::value::lemma_array_view(items);
                }
                Ok(Value::Array(items))
            },
            Err(e) => Err(e),
        }
    } else if tag == TAG_VECTOR {
        let n: usize = match c.count() {
            Ok(n) => n,
            Err(e) => {
                return Err(e);
            },
        };
        match c.words(n) {
            Ok(xs) => Ok(Value::Vector(xs)),
            Err(e) => Err(e),
        }
    } else if tag == TAG_BYTES {
        match c.blob() {
            Ok(b) => Ok(Value::Bytes(b)),
            Err(e) => Err(e),
        }
    } else {
        Err(Error::MalformedTuple { offset: c.pos - 1 })
    }
}

/// The next `n` values.
fn read_values(c: &mut Cursor<'_>, n: usize) -> (r: Result<Vec<Value>, Error>)
    requires
        old(c).wf(),
    ensures
        final(c).wf(),
        final(c).bytes == old(c).bytes,
        match parse_all(old(c).bytes@, old(c).pos as nat, n as nat) {
            Ok((items, p)) => final(c).pos == p && (r matches Ok(x) && x.deep_view() == items),
            Err(at) => r == Err::<Vec<Value>, Error>(Error::MalformedTuple { offset: at as usize }),
        },
    decreases old(c).bytes@.len() - old(c).pos, 1nat,
{
    let ghost data = c.bytes@;
    let ghost start = c.pos as nat;
    let ghost whole = parse_all(data, start, n as nat);
    let mut out: Vec<Value> = Vec::new();
    let mut i: usize = 0;
    assert(out.deep_view() =~= Seq::<ValueView>::empty());
    assert(whole matches Ok((items, p)) ==> items =~= out.deep_view() + items);
    while i < n
        invariant
            c.wf(),
            c.bytes == old(c).bytes,
            data == c.bytes@,
            old(c).pos <= c.pos,
            i <= n,
            i > 0 ==> old(c).pos < c.pos,
            whole == parse_all(data, old(c).pos as nat, n as nat),
            whole == prepend(out.deep_view(), parse_all(data, c.pos as nat, (n - i) as nat)),
        decreases n - i,
    {
        let ghost pos = c.pos as nat;
        let ghost before = out.deep_view();
        proof {
            lemma_parse_progress(data, pos);
        }
        match read_value(c) {
            Ok(v) => {
                out.push(v);
                proof {
                    assert(out.deep_view() =~= before.push(v@));
                    let rest = parse_all(data, c.pos as nat, (n - i - 1) as nat);
                    assert(parse_all(data, pos, (n - i) as nat) == prepend(seq![v@], rest));
                    if let Ok((items, p)) = rest {
                        assert(before + (seq![v@] + items) =~= out.deep_view() + items);
                    }
                }
            },
            Err(e) => {
                return Err(e);
            },
        }
        i += 1;
    }
    proof {
        assert(out.deep_view() + Seq::<ValueView>::empty() =~= out.deep_view());
    }
    Ok(out)
}

/// `head` in front of what was read.
spec fn prepend(head: Seq<ValueView>, rest: Result<(Seq<ValueView>, nat), nat>) -> Result<
    (Seq<ValueView>, nat),
    nat,
> {
    match rest {
        Ok((items, p)) => Ok((head + items, p)),
        Err(at) => Err(at),
    }
}

/// A value that is read takes at least one byte and ends within the bytes.
pub proof fn lemma_parse_progress(bytes: Seq<u8>, pos: nat)
    ensures
        parse(bytes, pos) matches Ok((v, end)) ==> pos < end <= bytes.len(),
    decreases bytes.len() - pos, 0nat,
{
    if pos + 5 <= bytes.len() && bytes[pos as int] == TAG_ARRAY {
        lemma_parse_all_progress(bytes, pos + 5, le::num_at(bytes, pos + 1, 4));
    }
}

pub proof fn lemma_parse_all_progress(bytes: Seq<u8>, pos: nat, n: nat)
    requires
        pos <= bytes.len(),
    ensures
        parse_all(bytes, pos, n) matches Ok((items, end)) ==> pos <= end <= bytes.len()
            && items.len() == n,
    decreases bytes.len() - pos, 1nat,
{
    if n > 0 {
        lemma_parse_progress(bytes, pos);
        if let Ok((v, next)) = parse(bytes, pos) {
            lemma_parse_all_progress(bytes, next, (n - 1) as nat);
        }
    }
}

/// Read a row that `encode_row` wrote.
///
/// The bytes are refused, with the position at which they stop making sense, exactly when they are
/// cut short, carry an unknown tag, or hold text that is not UTF-8. Bytes after the row are left
/// alone.
pub fn decode_row(bytes: &[u8]) -> (r: Result<Row, Error>)
    ensures
        match parse_row(bytes@) {
            Ok((items, end)) => r matches Ok(row) && row.deep_view() == items,
            Err(at) => r == Err::<Row, Error>(Error::MalformedTuple { offset: at as usize }),
        },
{
    let mut c = Cursor { bytes, pos: 0 };
    match c.count() {
        Ok(n) => read_values(&mut c, n),
        Err(e) => Err(e),
    }
}

// ---------------------------------------------------------------- laws

proof fn lemma_blob_round_trip(bytes: Seq<u8>, pos: nat, tag: u8, b: Seq<u8>)
    requires
        b.len() <= u32::MAX,
        le::stands_at(bytes, pos, emit_blob(tag, b).0),
    ensures
        pos < bytes.len(),
        bytes[pos as int] == tag,
        blob_at(bytes, pos + 1) == Ok::<(Seq<u8>, nat), nat>((b, pos + emit_blob(tag, b).0.len())),
{
    le::lemma_pow256();
    le::lemma_le_len(b.len(), 4);
    assert(emit_blob(tag, b).0 =~= seq![tag] + (le::le_bytes(b.len(), 4) + b));
    le::lemma_stands_tag(bytes, pos, tag, le::le_bytes(b.len(), 4) + b);
    le::lemma_stands_split(bytes, pos + 1, le::le_bytes(b.len(), 4), b);
    le::lemma_num_at(bytes, pos + 1, b.len(), 4);
}

/// Wherever the written form of a value stands, reading there gives the value back and ends right
/// after it.
pub proof fn law_value_round_trip(v: ValueView, bytes: Seq<u8>, pos: nat)
    requires
        crate::value::sized(v),
        emit(v).1,
        le::stands_at(bytes, pos, emit(v).0),
    ensures
        parse(bytes, pos) == Ok::<(ValueView, nat), nat>((v, pos + emit(v).0.len())),
    decreases v, 0nat,
{
    broadcast use {encode_utf8_valid_utf8, encode_utf8_decode_utf8};

    le::lemma_pow256();
    match v {
        ValueView::Null => {
            assert(emit(v).0 =~= seq![TAG_NULL] + Seq::<u8>::empty());
            le::lemma_stands_tag(bytes, pos, TAG_NULL, Seq::empty());
        },
        ValueView::Bool(b) => {
            let x: u8 = if b { 1 } else { 0 };
            assert(emit(v).0 =~= seq![TAG_BOOL] + (seq![x] + Seq::<u8>::empty()));
            le::lemma_stands_tag(bytes, pos, TAG_BOOL, seq![x] + Seq::<u8>::empty());
            le::lemma_stands_tag(bytes, pos + 1, x, Seq::empty());
        },
        ValueView::Int(i) => {
            le::lemma_le_len(le::twos(i as int, 8), 8);
            le::lemma_stands_tag(bytes, pos, TAG_INT, le::le_bytes(le::twos(i as int, 8), 8));
            le::lemma_i64_round_trip(bytes, pos + 1, i);
        },
        ValueView::Float(f) => {
            le::lemma_le_len(f as nat, 8);
            le::lemma_stands_tag(bytes, pos, TAG_FLOAT, le::le_bytes(f as nat, 8));
            le::lemma_num_at(bytes, pos + 1, f as nat, 8);
        },
        ValueView::Text(s) => {
            lemma_blob_round_trip(bytes, pos, TAG_TEXT, encode_utf8(s));
        },
        ValueView::Date(i) => {
            le::lemma_le_len(le::twos(i as int, 4), 4);
            le::lemma_stands_tag(bytes, pos, TAG_DATE, le::le_bytes(le::twos(i as int, 4), 4));
            le::lemma_i32_round_trip(bytes, pos + 1, i);
        },
        ValueView::Time(i) => {
            le::lemma_le_len(le::twos(i as int, 8), 8);
            le::lemma_stands_tag(bytes, pos, TAG_TIME, le::le_bytes(le::twos(i as int, 8), 8));
            le::lemma_i64_round_trip(bytes, pos + 1, i);
        },
        ValueView::Timestamp(i) => {
            le::lemma_le_len(le::twos(i as int, 8), 8);
            le::lemma_stands_tag(bytes, pos, TAG_TIMESTAMP, le::le_bytes(le::twos(i as int, 8), 8));
            le::lemma_i64_round_trip(bytes, pos + 1, i);
        },
        ValueView::TimestampTz(i) => {
            le::lemma_le_len(le::twos(i as int, 8), 8);
            le::lemma_stands_tag(bytes, pos, TAG_TIMESTAMPTZ, le::le_bytes(le::twos(i as int, 8), 8));
            le::lemma_i64_round_trip(bytes, pos + 1, i);
        },
        ValueView::TimeTz(i) => {
            le::lemma_le_len(le::twos(i as int, 8), 8);
            le::lemma_stands_tag(bytes, pos, TAG_TIMETZ, le::le_bytes(le::twos(i as int, 8), 8));
            le::lemma_i64_round_trip(bytes, pos + 1, i);
        },
        ValueView::Uuid(b) => {
            le::lemma_stands_tag(bytes, pos, TAG_UUID, b);
        },
        ValueView::Numeric(d) => {
            let m = le::twos(d.mantissa as int, 16);
            le::lemma_le_len(m, 16);
            le::lemma_twos_round_trip(d.mantissa as int, 16);
            let tail = seq![d.scale] + Seq::<u8>::empty();
            assert(emit(v).0 =~= seq![TAG_NUMERIC] + (le::le_bytes(m, 16) + tail));
            le::lemma_stands_tag(bytes, pos, TAG_NUMERIC, le::le_bytes(m, 16) + tail);
            le::lemma_stands_split(bytes, pos + 1, le::le_bytes(m, 16), tail);
            le::lemma_stands_tag(bytes, pos + 17, d.scale, Seq::empty());
            le::lemma_num_at(bytes, pos + 1, m, 16);
        },
        ValueView::Json(s) => {
            lemma_blob_round_trip(bytes, pos, TAG_JSON, encode_utf8(s));
        },
        ValueView::Interval(iv) => {
            let a = le::le_bytes(le::twos(iv.months as int, 4), 4);
            let b = le::le_bytes(le::twos(iv.days as int, 4), 4);
            let c = le::le_bytes(le::twos(iv.micros as int, 8), 8);
            le::lemma_le_len(le::twos(iv.months as int, 4), 4);
            le::lemma_le_len(le::twos(iv.days as int, 4), 4);
            le::lemma_le_len(le::twos(iv.micros as int, 8), 8);
            assert(emit(v).0 =~= seq![TAG_INTERVAL] + (a + (b + c)));
            le::lemma_stands_tag(bytes, pos, TAG_INTERVAL, a + (b + c));
            le::lemma_stands_split(bytes, pos + 1, a, b + c);
            le::lemma_stands_split(bytes, pos + 5, b, c);
            le::lemma_i32_round_trip(bytes, pos + 1, iv.months);
            le::lemma_i32_round_trip(bytes, pos + 5, iv.days);
            le::lemma_i64_round_trip(bytes, pos + 9, iv.micros);
        },
        ValueView::Array(items) => {
            let n = items.len();
            let body = emit_all(items, n).0;
            le::lemma_le_len(n, 4);
            assert(emit(v).0 =~= seq![TAG_ARRAY] + (le::le_bytes(n, 4) + body));
            le::lemma_stands_tag(bytes, pos, TAG_ARRAY, le::le_bytes(n, 4) + body);
            le::lemma_stands_split(bytes, pos + 1, le::le_bytes(n, 4), body);
            le::lemma_num_at(bytes, pos + 1, n, 4);
            lemma_values_round_trip(items, 0, bytes, pos + 5);
            assert(items.subrange(0, n as int) =~= items);
        },
        ValueView::Vector(xs) => {
            let n = xs.len();
            le::lemma_le_len(n, 4);
            assert(emit(v).0 =~= seq![TAG_VECTOR] + (le::le_bytes(n, 4) + le::words(xs)));
            le::lemma_stands_tag(bytes, pos, TAG_VECTOR, le::le_bytes(n, 4) + le::words(xs));
            le::lemma_stands_split(bytes, pos + 1, le::le_bytes(n, 4), le::words(xs));
            le::lemma_num_at(bytes, pos + 1, n, 4);
            le::lemma_words_round_trip(bytes, pos + 5, xs);
        },
        ValueView::Bytes(b) => {
            lemma_blob_round_trip(bytes, pos, TAG_BYTES, b);
        },
    }
}

/// What is written of the first `k` values is a prefix of what is written of all.
proof fn lemma_emit_all_prefix(items: Seq<ValueView>, k: nat, n: nat)
    requires
        k <= n <= items.len(),
        emit_all(items, n).1,
    ensures
        emit_all(items, k).1,
        emit_all(items, k).0.len() <= emit_all(items, n).0.len(),
        emit_all(items, n).0.take(emit_all(items, k).0.len() as int) == emit_all(items, k).0,
    decreases n,
{
    if k < n {
        lemma_emit_all_prefix(items, k, (n - 1) as nat);
        let a = emit_all(items, k).0;
        let b = emit_all(items, (n - 1) as nat).0;
        assert(emit_all(items, n).0.take(a.len() as int) =~= b.take(a.len() as int));
    } else {
        assert(emit_all(items, n).0.take(emit_all(items, n).0.len() as int) =~= emit_all(
            items,
            n,
        ).0);
    }
}

proof fn lemma_values_round_trip(items: Seq<ValueView>, k: nat, bytes: Seq<u8>, pos: nat)
    requires
        k <= items.len(),
        forall|i: int| 0 <= i < items.len() ==> crate::value::sized(#[trigger] items[i]),
        emit_all(items, items.len()).1,
        le::stands_at(bytes, pos, emit_all(items, items.len()).0),
    ensures
        parse_all(bytes, pos + emit_all(items, k).0.len(), (items.len() - k) as nat) == Ok::<
            (Seq<ValueView>, nat),
            nat,
        >(
            (
                items.subrange(k as int, items.len() as int),
                pos + emit_all(items, items.len()).0.len(),
            ),
        ),
    decreases items, items.len() - k,
{
    let n = items.len();
    let all = emit_all(items, n).0;
    if k < n {
        lemma_values_round_trip(items, k + 1, bytes, pos);
        lemma_emit_all_prefix(items, k, n);
        lemma_emit_all_prefix(items, k + 1, n);
        let a = emit_all(items, k).0;
        let b = emit_all(items, k + 1).0;
        let one = emit(items[k as int]).0;
        assert(b == a + one);
        assert(all =~= a + (one + all.skip(b.len() as int))) by {
            assert(all =~= all.take(b.len() as int) + all.skip(b.len() as int));
        }
        le::lemma_stands_split(bytes, pos, a, one + all.skip(b.len() as int));
        le::lemma_stands_split(bytes, pos + a.len(), one, all.skip(b.len() as int));
        law_value_round_trip(items[k as int], bytes, pos + a.len());
        lemma_parse_progress(bytes, pos + a.len());
        assert(items.subrange(k as int, n as int) =~= seq![items[k as int]] + items.subrange(
            (k + 1) as int,
            n as int,
        ));
    } else {
        assert(items.subrange(k as int, n as int) =~= Seq::<ValueView>::empty());
    }
}

/// No value's written form is the beginning of another's.
pub proof fn law_no_value_begins_another(v: ValueView, w: ValueView)
    requires
        crate::value::sized(v),
        crate::value::sized(w),
        emit(v).1,
        emit(w).1,
        emit(v).0.len() <= emit(w).0.len(),
        emit(v).0 == emit(w).0.take(emit(v).0.len() as int),
    ensures
        v == w,
{
    let bytes = emit(w).0;
    assert(bytes.subrange(0, emit(v).0.len() as int) =~= emit(v).0);
    assert(bytes.subrange(0, bytes.len() as int) =~= bytes);
    law_value_round_trip(v, bytes, 0);
    law_value_round_trip(w, bytes, 0);
}

/// A row that can be written is read back as it was, whatever follows it.
pub proof fn law_row_round_trip(row: Seq<ValueView>, after: Seq<u8>)
    requires
        crate::value::row_sized(row),
        emit_row(row).1,
    ensures
        parse_row(emit_row(row).0 + after) == Ok::<
            (Seq<ValueView>, nat),
            nat,
        >((row, emit_row(row).0.len())),
{
    let view = row;
    let n = view.len();
    let body = emit_all(view, n).0;
    let bytes = emit_row(view).0 + after;
    le::lemma_pow256();
    le::lemma_le_len(n, 4);
    assert(bytes.subrange(0, (4 + body.len()) as int) =~= le::le_bytes(n, 4) + body);
    le::lemma_stands_split(bytes, 0, le::le_bytes(n, 4), body);
    le::lemma_num_at(bytes, 0, n, 4);
    lemma_values_round_trip(view, 0, bytes, 4);
    assert(view.subrange(0, n as int) =~= view);
}

proof fn lemma_parse_extends(bytes: Seq<u8>, longer: Seq<u8>, pos: nat)
    requires
        bytes.len() <= longer.len(),
        bytes == longer.take(bytes.len() as int),
        parse(bytes, pos) is Ok,
    ensures
        parse(longer, pos) == parse(bytes, pos),
    decreases bytes.len() - pos, 0nat,
{
    lemma_parse_progress(bytes, pos);
    let p = pos + 1;
    assert forall|q: nat, n: nat| q + n <= bytes.len() implies le::num_at(bytes, q, n) == #[trigger] le::num_at(
        longer,
        q,
        n,
    ) by {
        assert(bytes.subrange(q as int, (q + n) as int) =~= longer.subrange(q as int, (q + n) as int));
    }
    assert forall|a: int, b: int| 0 <= a <= b <= bytes.len() implies bytes.subrange(a, b)
        == #[trigger] longer.subrange(a, b) by {
        assert(bytes.subrange(a, b) =~= longer.subrange(a, b));
    }
    assert(longer[pos as int] == bytes[pos as int]);
    if bytes[pos as int] == TAG_ARRAY {
        lemma_parse_all_extends(bytes, longer, p + 4, le::num_at(bytes, p, 4));
    } else if bytes[pos as int] == TAG_VECTOR {
        let n = le::num_at(bytes, p, 4);
        assert(le::words_at(longer, p + 4, n) =~= le::words_at(bytes, p + 4, n));
    }
}

proof fn lemma_parse_all_extends(bytes: Seq<u8>, longer: Seq<u8>, pos: nat, n: nat)
    requires
        pos <= bytes.len() <= longer.len(),
        bytes == longer.take(bytes.len() as int),
        parse_all(bytes, pos, n) is Ok,
    ensures
        parse_all(longer, pos, n) == parse_all(bytes, pos, n),
    decreases bytes.len() - pos, 1nat,
{
    if n > 0 {
        lemma_parse_extends(bytes, longer, pos);
        lemma_parse_progress(bytes, pos);
        if let Ok((v, next)) = parse(bytes, pos) {
            lemma_parse_all_extends(bytes, longer, next, (n - 1) as nat);
        }
    }
}

/// Every proper prefix of a written row is refused.
pub proof fn law_truncated_row_is_refused(row: Seq<ValueView>, cut: nat)
    requires
        crate::value::row_sized(row),
        emit_row(row).1,
        cut < emit_row(row).0.len(),
    ensures
        parse_row(emit_row(row).0.take(cut as int)) is Err,
{
    let view = row;
    let full = emit_row(view).0;
    let part = full.take(cut as int);
    law_row_round_trip(row, Seq::empty());
    assert(full + Seq::<u8>::empty() =~= full);
    if parse_row(part) is Ok {
        assert(part.subrange(0, 4) =~= full.subrange(0, 4));
        lemma_parse_all_progress(part, 4, le::num_at(part, 0, 4));
        lemma_parse_all_extends(part, full, 4, le::num_at(part, 0, 4));
    }
}

} // verus!
