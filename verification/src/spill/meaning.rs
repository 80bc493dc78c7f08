//! What a budget admits, and how values and records are told apart.
use vstd::prelude::*;
use vstd::utf8::*;
use crate::le;
use crate::spill::budget;
use crate::spill::codec;
use crate::spill::file;
use crate::spill::file::Record;
use crate::spill_sort;
use crate::value::ValueView;

verus! {

/// A budget admits a row if the row and what is held do not exceed it. An empty budget admits any row, and
/// a budget of 0 every one.
pub proof fn law_budgets_admit_what_fits(cap: usize, held: usize, bytes: usize)
    requires
        held + bytes <= usize::MAX,
    ensures
        cap > 0 && held > 0 && held + bytes <= cap ==> budget::admits(cap, held, bytes),
        cap > 0 && held > 0 && held + bytes > cap ==> !budget::admits(cap, held, bytes),
        budget::admits(cap, 0, bytes),
        budget::admits(0, held, bytes),
{
}

/// Each kind of value has a byte of its own in front.
pub proof fn law_kinds_have_their_own_tags(v: ValueView)
    ensures
        codec::emit(v).0.len() > 0,
        v is Null ==> codec::emit(v).0[0] == 0,
        v is Bool ==> codec::emit(v).0[0] == 1,
        v is Int ==> codec::emit(v).0[0] == 2,
        v is Float ==> codec::emit(v).0[0] == 3,
        v is Text ==> codec::emit(v).0[0] == 4,
        v is Date ==> codec::emit(v).0[0] == 5,
        v is Time ==> codec::emit(v).0[0] == 6,
        v is Timestamp ==> codec::emit(v).0[0] == 7,
        v is TimestampTz ==> codec::emit(v).0[0] == 8,
        v is TimeTz ==> codec::emit(v).0[0] == 9,
        v is Uuid ==> codec::emit(v).0[0] == 10,
        v is Numeric ==> codec::emit(v).0[0] == 11,
        v is Json ==> codec::emit(v).0[0] == 12,
        v is Interval ==> codec::emit(v).0[0] == 13,
        v is Array ==> codec::emit(v).0[0] == 14,
        v is Vector ==> codec::emit(v).0[0] == 15,
        v is Bytes ==> codec::emit(v).0[0] == 16,
{
}

/// Whole numbers are written in eight bytes behind the tag, the lowest first; texts as their length and
/// their bytes.
pub proof fn law_values_are_written_low_byte_first(i: i64, s: Seq<char>)
    requires
        encode_utf8(s).len() <= 0xFFFF_FFFF,
    ensures
        codec::emit(ValueView::Int(i)).0.len() == 9,
        codec::emit(ValueView::Int(i)).0[1] == i as int % 256,
        codec::emit(ValueView::Text(s)).0.len() == 5 + encode_utf8(s).len(),
        codec::emit(ValueView::Text(s)).0[1] == encode_utf8(s).len() % 256,
        codec::emit(ValueView::Text(s)).0.skip(5) == encode_utf8(s),
        codec::emit(ValueView::Text(s)).1,
{
    le::lemma_pow256();
    le::meaning::law_low_bytes_come_first(le::twos(i as int, 8), 7);
    le::meaning::law_low_bytes_come_first(encode_utf8(s).len(), 3);
    assert(codec::emit(ValueView::Text(s)).0.skip(5) =~= encode_utf8(s));
}

/// A record is found behind its length, wherever it stands in a run; what is left of a record that was cut
/// short is told from the end of the run.
pub proof fn law_records_are_found_behind_their_length(before: Seq<u8>, record: Seq<u8>, after: Seq<u8>)
    requires
        record.len() <= 0xFFFF_FFFF,
    ensures
        file::record_at(before + file::framed(record) + after, before.len()) == (Record::At {
            start: before.len() + 4,
            end: before.len() + 4 + record.len(),
        }),
        file::record_at(before, before.len()) is End,
        record.len() > 0 ==> file::record_at(before + file::framed(record).drop_last(), before.len()) is Truncated,
{
    le::lemma_pow256();
    let run = before + file::framed(record) + after;
    le::lemma_le_len(record.len(), 4);
    assert(run.subrange(before.len() as int, before.len() as int + 4) =~= le::le_bytes(record.len(), 4));
    le::lemma_num_at(run, before.len(), record.len(), 4);
    if record.len() > 0 {
        let cut = before + file::framed(record).drop_last();
        assert(cut.subrange(before.len() as int, before.len() as int + 4) =~= le::le_bytes(record.len(), 4));
        le::lemma_num_at(cut, before.len(), record.len(), 4);
    }
}

/// Rows go into one run until one does not fit with those before it, which starts the next run.
pub proof fn law_runs_are_cut_where_a_row_does_not_fit(limit: usize, rows: Seq<Seq<ValueView>>, n: nat)
    requires
        n < rows.len(),
        spill_sort::held(limit, rows, n) + spill_sort::bytes_of(rows[n as int]) <= usize::MAX,
    ensures
        ({
            let held = spill_sort::held(limit, rows, n);
            let bytes = spill_sort::bytes_of(rows[n as int]);
            let fits = limit == 0 || held == 0 || held + bytes <= limit;
            &&& fits ==> spill_sort::breaks(limit, rows, n + 1) == spill_sort::breaks(limit, rows, n)
                && spill_sort::held(limit, rows, n + 1) == held + bytes
            &&& !fits ==> spill_sort::breaks(limit, rows, n + 1) == spill_sort::breaks(limit, rows, n).push(
                n as usize,
            ) && spill_sort::held(limit, rows, n + 1) == bytes
        }),
{
}

} // verus!
