//! What a scan gives.
use vstd::prelude::*;
use crate::scan;
use crate::scan::Tuple;
use crate::types::ColumnType;
use crate::value::ValueView;

verus! {

/// A scan reads the tuples in order, and gives each with its address, but for those that are hidden in this
/// table. It is refused at the first tuple that it cannot read; a hidden one is not read.
pub proof fn law_scans_skip_what_is_hidden(
    table: u64,
    tuples: Seq<Tuple>,
    t: Tuple,
    hidden: Seq<(u64, u64)>,
    schema: Seq<ColumnType>,
    keep: Seq<usize>,
    found: Seq<(u64, Seq<ValueView>)>,
)
    requires
        scan::scanned(table, tuples, hidden, schema, keep, tuples.len()) == Ok::<
            Seq<(u64, Seq<ValueView>)>,
            nat,
        >(found),
    ensures
        scan::scanned(table, Seq::empty(), hidden, schema, keep, 0) == Ok::<Seq<(u64, Seq<ValueView>)>, nat>(
            Seq::empty(),
        ),
        ({
            let next = scan::scanned(table, tuples.push(t), hidden, schema, keep, tuples.len() + 1);
            &&& hidden.contains((table, t.tid)) ==> next == Ok::<Seq<(u64, Seq<ValueView>)>, nat>(found)
            &&& !hidden.contains((table, t.tid)) ==> match scan::read_row(t.bytes@, schema, keep) {
                Ok(row) => next == Ok::<Seq<(u64, Seq<ValueView>)>, nat>(found.push((t.tid, row))),
                Err(at) => next == Err::<Seq<(u64, Seq<ValueView>)>, nat>(at),
            }
        }),
{
    lemma_scanned_prefix(table, tuples, tuples.push(t), hidden, schema, keep, tuples.len());
}

proof fn lemma_scanned_prefix(
    table: u64,
    a: Seq<Tuple>,
    b: Seq<Tuple>,
    hidden: Seq<(u64, u64)>,
    schema: Seq<ColumnType>,
    keep: Seq<usize>,
    n: nat,
)
    requires
        n <= a.len(),
        forall|i: int| 0 <= i < n ==> a[i] == b[i],
    ensures
        scan::scanned(table, a, hidden, schema, keep, n) == scan::scanned(table, b, hidden, schema, keep, n),
        scan::visible(table, a, hidden, n) == scan::visible(table, b, hidden, n),
    decreases n,
{
    if n > 0 {
        lemma_scanned_prefix(table, a, b, hidden, schema, keep, (n - 1) as nat);
        assert(a[n - 1] == b[n - 1]);
    }
}

/// The rows of a table are counted one by one, but for those that are hidden in it.
pub proof fn law_counts_skip_what_is_hidden(table: u64, tuples: Seq<Tuple>, t: Tuple, hidden: Seq<(u64, u64)>)
    ensures
        scan::visible(table, Seq::empty(), hidden, 0) == 0,
        hidden.contains((table, t.tid)) ==> scan::visible(table, tuples.push(t), hidden, tuples.len() + 1)
            == scan::visible(table, tuples, hidden, tuples.len()),
        !hidden.contains((table, t.tid)) ==> scan::visible(table, tuples.push(t), hidden, tuples.len() + 1)
            == scan::visible(table, tuples, hidden, tuples.len()) + 1,
{
    lemma_scanned_prefix(
        table,
        tuples,
        tuples.push(t),
        hidden,
        Seq::empty(),
        Seq::empty(),
        tuples.len(),
    );
}

/// A row is narrowed to the columns asked for, in the order in which they are asked for.
pub proof fn law_rows_are_narrowed_to_columns(row: Seq<ValueView>, columns: Seq<usize>)
    requires
        forall|i: int| 0 <= i < columns.len() ==> (#[trigger] columns[i]) < row.len(),
    ensures
        scan::narrowed(row, columns, columns.len()).len() == columns.len(),
        forall|i: int|
            0 <= i < columns.len() ==> #[trigger] scan::narrowed(row, columns, columns.len())[i]
                == row[columns[i] as int],
{
    lemma_narrowed(row, columns, columns.len());
}

proof fn lemma_narrowed(row: Seq<ValueView>, columns: Seq<usize>, n: nat)
    requires
        n <= columns.len(),
        forall|i: int| 0 <= i < columns.len() ==> (#[trigger] columns[i]) < row.len(),
    ensures
        scan::narrowed(row, columns, n).len() == n,
        forall|i: int|
            0 <= i < n ==> #[trigger] scan::narrowed(row, columns, n)[i] == row[columns[i] as int],
    decreases n,
{
    if n > 0 {
        lemma_narrowed(row, columns, (n - 1) as nat);
        assert(columns[n - 1] < row.len());
    }
}

} // verus!
