//! What the sizes of rows count.
use vstd::prelude::*;
use vstd::utf8::*;
use crate::memory;
use crate::value::ValueView;

verus! {

/// A value counts 48 bytes, a text or a document the bytes of its encoding as well, and an array its
/// elements.
pub proof fn law_values_count_what_they_hold(v: ValueView, items: Seq<ValueView>, s: Seq<char>)
    ensures
        memory::value_size(ValueView::Text(s)) == 48 + encode_utf8(s).len(),
        memory::value_size(ValueView::Json(s)) == 48 + encode_utf8(s).len(),
        memory::value_size(ValueView::Array(Seq::empty())) == 48,
        memory::value_size(ValueView::Array(items.push(v))) == memory::value_size(ValueView::Array(items))
            + memory::value_size(v),
        !(v is Text) && !(v is Json) && !(v is Array) ==> memory::value_size(v) == 48,
{
    lemma_sizes_prefix(items, items.push(v), items.len());
}

proof fn lemma_sizes_prefix(a: Seq<ValueView>, b: Seq<ValueView>, n: nat)
    requires
        n <= a.len() <= b.len(),
        forall|i: int| 0 <= i < n ==> a[i] == b[i],
    ensures
        memory::sizes(a, n) == memory::sizes(b, n),
    decreases n,
{
    if n > 0 {
        lemma_sizes_prefix(a, b, (n - 1) as nat);
        assert(a[n - 1] == b[n - 1]);
    }
}

/// A row counts its values, and rows count each row.
pub proof fn law_rows_count_their_values(
    row: Seq<ValueView>,
    v: ValueView,
    rows: Seq<Seq<ValueView>>,
)
    ensures
        memory::row_size(Seq::empty()) == 0,
        memory::row_size(row.push(v)) == memory::row_size(row) + memory::value_size(v),
        memory::rows_size(Seq::empty(), 0) == 0,
        memory::rows_size(rows.push(row), rows.len() + 1) == memory::rows_size(rows, rows.len())
            + memory::row_size(row),
{
    lemma_sizes_prefix(row, row.push(v), row.len());
    lemma_rows_prefix(rows, rows.push(row), rows.len());
}

proof fn lemma_rows_prefix(a: Seq<Seq<ValueView>>, b: Seq<Seq<ValueView>>, n: nat)
    requires
        n <= a.len(),
        forall|i: int| 0 <= i < n ==> a[i] == b[i],
    ensures
        memory::rows_size(a, n) == memory::rows_size(b, n),
    decreases n,
{
    if n > 0 {
        lemma_rows_prefix(a, b, (n - 1) as nat);
        assert(a[n - 1] == b[n - 1]);
    }
}

/// A number of digits is read from the left, each digit ten times the next.
pub proof fn law_digits_are_read_from_the_left(s: Seq<char>, c: char)
    requires
        '0' <= c <= '9',
    ensures
        memory::digits_value(Seq::empty()) == 0,
        memory::digits_value(s.push(c)) == 10 * memory::digits_value(s) + (c as int - 48),
{
    assert(s.push(c).drop_last() =~= s);
}

/// A unit of memory is a power of 1024, whatever its case: kilobytes without one, then mega-, giga- and
/// terabytes.
pub proof fn law_units_are_powers_of_1024()
    ensures
        memory::unit_bytes(Seq::empty()) == Some(1024nat),
        memory::unit_bytes(seq!['k', 'B']) == Some(1024nat),
        memory::unit_bytes(seq!['M', 'B']) == Some((1024 * 1024) as nat),
        memory::unit_bytes(seq!['G', 'B']) == Some((1024 * 1024 * 1024) as nat),
        memory::unit_bytes(seq!['T', 'B']) == Some((1024 * 1024 * 1024 * 1024) as nat),
        memory::unit_bytes(seq!['X', 'B']) is None,
        memory::unit_bytes(seq!['B']) is None,
{
    let k = crate::text::lower_seq(seq!['k', 'B']);
    let m = crate::text::lower_seq(seq!['M', 'B']);
    let g = crate::text::lower_seq(seq!['G', 'B']);
    let t = crate::text::lower_seq(seq!['T', 'B']);
    let x = crate::text::lower_seq(seq!['X', 'B']);
    let b = crate::text::lower_seq(seq!['B']);
    assert(k =~= seq!['k', 'b']);
    assert(m =~= seq!['m', 'b']);
    assert(g =~= seq!['g', 'b']);
    assert(t =~= seq!['t', 'b']);
    assert(x[0] == 'x');
    assert(b.len() == 1);
    assert(crate::text::lower_seq(Seq::empty()).len() == 0);
    assert(seq!['m', 'b'][0] == 'm' && seq!['k', 'b'][0] == 'k' && seq!['g', 'b'][0] == 'g' && seq![
        't',
        'b',
    ][0] == 't');
}

} // verus!
