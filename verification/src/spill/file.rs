//! The byte form of a run: its rows one after the other, each behind its length.
use vstd::prelude::*;
use crate::error::Error;
use crate::le;
use crate::spill::codec;
use crate::value::{Row, Value};

verus! {

/// A record behind its 32-bit length.
pub open spec fn framed(bytes: Seq<u8>) -> Seq<u8> {
    le::le_bytes(bytes.len(), 4) + bytes
}

/// Append a record behind its length; refused when the length does not fit in 32 bits.
pub fn write_bytes(out: &mut Vec<u8>, bytes: &[u8]) -> (r: Result<(), Error>)
    ensures
        bytes@.len() <= u32::MAX ==> r == Ok::<(), Error>(()) && final(out)@ == old(out)@ + framed(
            bytes@,
        ),
        bytes@.len() > u32::MAX ==> r == Err::<(), Error>(Error::RecordTooLong) && final(out)@
            == old(out)@,
{
    let ghost start = out@;
    if bytes.len() > u32::MAX as usize {
        return Err(Error::RecordTooLong);
    }
    le::push_le(out, bytes.len() as u128, 4);
    le::push_bytes(out, bytes);
    assert(out@ =~= start + framed(bytes@));
    Ok(())
}

/// Append a row; refused when it, or a part of it, is too long to be written.
pub fn write_row(out: &mut Vec<u8>, row: &[Value]) -> (r: Result<(), Error>)
    ensures
        ({
            let w = codec::emit_row(row.deep_view());
            if !w.1 {
                r == Err::<(), Error>(Error::MalformedTuple { offset: w.0.len() as usize })
                    && final(out)@ == old(out)@
            } else if w.0.len() > u32::MAX {
                r == Err::<(), Error>(Error::RecordTooLong) && final(out)@ == old(out)@
            } else {
                r == Ok::<(), Error>(()) && final(out)@ == old(out)@ + framed(w.0)
            }
        }),
{
    match codec::encode_row(row) {
        Ok(bytes) => write_bytes(out, bytes.as_slice()),
        Err(e) => Err(e),
    }
}

/// What stands at `pos` of a run.
pub enum Record {
    /// The end: there are not even the bytes of a length.
    End,
    /// A record from `start` to `end`.
    At { start: nat, end: nat },
    /// A record that is cut short.
    Truncated,
}

pub open spec fn record_at(run: Seq<u8>, pos: nat) -> Record {
    if pos + 4 > run.len() {
        Record::End
    } else {
        let n = le::num_at(run, pos, 4);
        if pos + 4 + n > run.len() {
            Record::Truncated
        } else {
            Record::At { start: pos + 4, end: pos + 4 + n }
        }
    }
}

/// The bounds of the record at `pos`; `None` at the end of the run.
fn record_bounds(run: &[u8], pos: usize) -> (r: Result<Option<(usize, usize)>, Error>)
    requires
        pos <= run@.len(),
    ensures
        match record_at(run@, pos as nat) {
            Record::End => r == Ok::<Option<(usize, usize)>, Error>(None),
            Record::At { start, end } => r matches Ok(Some((s, e))) && s == start && e == end && s
                <= e <= run@.len(),
            Record::Truncated => r == Err::<Option<(usize, usize)>, Error>(Error::TruncatedRecord),
        },
{
    if run.len() - pos < 4 {
        return Ok(None);
    }
    let v: u128 = le::read_le(run, pos, 4);
    proof {
        le::lemma_pow256();
    }
    let n: usize = v as usize;
    if n > run.len() - pos - 4 {
        return Err(Error::TruncatedRecord);
    }
    Ok(Some((pos + 4, pos + 4 + n)))
}

/// The record at `pos` and the position after it; `None` at the end of the run.
pub fn read_bytes(run: &[u8], pos: usize) -> (r: Result<Option<(Vec<u8>, usize)>, Error>)
    requires
        pos <= run@.len(),
    ensures
        match record_at(run@, pos as nat) {
            Record::End => r == Ok::<Option<(Vec<u8>, usize)>, Error>(None),
            Record::At { start, end } => r matches Ok(Some((b, e))) && b@ == run@.subrange(
                start as int,
                end as int,
            ) && e == end,
            Record::Truncated => r == Err::<Option<(Vec<u8>, usize)>, Error>(
                Error::TruncatedRecord,
            ),
        },
{
    match record_bounds(run, pos) {
        Ok(Some((s, e))) => Ok(Some((le::copy_bytes(run, s, e - s), e))),
        Ok(None) => Ok(None),
        Err(e) => Err(e),
    }
}

/// The row at `pos` and the position after it; `None` at the end of the run.
pub fn read_row(run: &[u8], pos: usize) -> (r: Result<Option<(Row, usize)>, Error>)
    requires
        pos <= run@.len(),
    ensures
        match record_at(run@, pos as nat) {
            Record::End => r == Ok::<Option<(Row, usize)>, Error>(None),
            Record::At { start, end } => match codec::parse_row(
                run@.subrange(start as int, end as int),
            ) {
                Ok((row, _)) => r matches Ok(Some((x, e))) && x.deep_view() == row && e == end,
                Err(at) => r == Err::<Option<(Row, usize)>, Error>(
                    Error::MalformedTuple { offset: at as usize },
                ),
            },
            Record::Truncated => r == Err::<Option<(Row, usize)>, Error>(Error::TruncatedRecord),
        },
{
    match record_bounds(run, pos) {
        Ok(Some((s, e))) => {
            let bytes = vstd::slice::slice_subrange(run, s, e);
            match codec::decode_row(bytes) {
                Ok(row) => Ok(Some((row, e))),
                Err(x) => Err(x),
            }
        },
        Ok(None) => Ok(None),
        Err(e) => Err(e),
    }
}

/// The first `n` rows of a run, as they are written.
pub open spec fn run_of(rows: Seq<Row>, n: nat) -> Seq<u8>
    decreases n,
{
    if n == 0 {
        Seq::empty()
    } else {
        run_of(rows, (n - 1) as nat) + framed(codec::emit_row(rows[n - 1].deep_view()).0)
    }
}

/// Every row of the run can be written.
pub open spec fn writable(rows: Seq<Row>) -> bool {
    forall|i: int|
        0 <= i < rows.len() ==> codec::emit_row((#[trigger] rows[i]).deep_view()).1
            && codec::emit_row(rows[i].deep_view()).0.len() <= u32::MAX
}

proof fn lemma_run_prefix(rows: Seq<Row>, k: nat, n: nat)
    requires
        k <= n <= rows.len(),
    ensures
        run_of(rows, k).len() <= run_of(rows, n).len(),
        run_of(rows, n).take(run_of(rows, k).len() as int) == run_of(rows, k),
    decreases n,
{
    let a = run_of(rows, k);
    let c = run_of(rows, n);
    if k < n {
        lemma_run_prefix(rows, k, (n - 1) as nat);
        let b = run_of(rows, (n - 1) as nat);
        assert(c.take(a.len() as int) =~= b.take(a.len() as int));
    } else {
        assert(c.take(c.len() as int) =~= c);
    }
}

/// A run gives its rows back: where the first `k` rows end, the next row is read, and after the
/// last row is the end.
pub proof fn law_run_reads_back(rows: Seq<Row>, k: nat)
    requires
        k <= rows.len(),
        writable(rows),
    ensures
        k < rows.len() ==> match record_at(run_of(rows, rows.len()), run_of(rows, k).len()) {
            Record::At { start, end } => end == run_of(rows, k + 1).len() && match codec::parse_row(
                run_of(rows, rows.len()).subrange(start as int, end as int),
            ) {
                Ok((row, _)) => row == rows[k as int].deep_view(),
                Err(_) => false,
            },
            _ => false,
        },
        k == rows.len() ==> record_at(run_of(rows, rows.len()), run_of(rows, k).len()) is End,
{
    if k < rows.len() {
        let run = run_of(rows, rows.len());
        lemma_run_prefix(rows, k + 1, rows.len());
        let row = rows[k as int];
        let bytes = codec::emit_row(row.deep_view()).0;
        let a = run_of(rows, k);
        let b = run_of(rows, k + 1);
        assert(b == a + framed(bytes));
        le::lemma_le_len(bytes.len(), 4);
        le::lemma_pow256();
        assert(run.subrange(0, b.len() as int) =~= run.take(b.len() as int));
        assert(le::stands_at(run, 0, a + framed(bytes)));
        le::lemma_stands_split(run, 0, a, framed(bytes));
        le::lemma_stands_split(run, a.len(), le::le_bytes(bytes.len(), 4), bytes);
        le::lemma_num_at(run, a.len(), bytes.len(), 4);
        crate::value::lemma_row_sized(row);
        codec::law_row_round_trip(row.deep_view(), Seq::empty());
        assert(bytes + Seq::<u8>::empty() =~= bytes);
    }
}

} // verus!
