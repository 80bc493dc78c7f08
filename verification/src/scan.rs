//! Scans: the rows of a table that a query sees, read from the stored tuples.
use vstd::prelude::*;
use crate::error::Error;
use crate::row;
use crate::row::{decode, decode_projected};
use crate::types::ColumnType;
use crate::value::{Row, Value, ValueView};

pub mod meaning;

verus! {

/// A stored tuple and its address.
#[derive(Debug, PartialEq, Eq)]
pub struct Tuple {
    pub tid: u64,
    pub bytes: Vec<u8>,
}

/// A row with its address.
#[derive(Debug, PartialEq, Eq)]
pub struct Located {
    pub tid: u64,
    pub row: Row,
}

impl DeepView for Located {
    type V = (u64, Seq<ValueView>);

    open spec fn deep_view(&self) -> (u64, Seq<ValueView>) {
        (self.tid, self.row.deep_view())
    }
}

/// The row at this address of the table is hidden from the query: another transaction holds it.
pub open spec fn is_hidden(hidden: Seq<(u64, u64)>, table: u64, tid: u64) -> bool {
    hidden.contains((table, tid))
}

fn skipped(hidden: &Vec<(u64, u64)>, table: u64, tid: u64) -> (r: bool)
    ensures
        r == is_hidden(hidden@, table, tid),
{
    let mut i: usize = 0;
    while i < hidden.len()
        invariant
            i <= hidden@.len(),
            forall|k: int| 0 <= k < i ==> #[trigger] hidden@[k] != (table, tid),
        decreases hidden@.len() - i,
    {
        let pair = hidden[i];
        if pair.0 == table && pair.1 == tid {
            assert(hidden@[i as int] == (table, tid));
            return true;
        }
        i += 1;
    }
    false
}

/// Reading a tuple: its row, or where it stops making sense. Where ordinals are given, only those
/// columns are kept.
pub open spec fn read_row(bytes: Seq<u8>, schema: Seq<ColumnType>, keep: Seq<usize>) -> Result<
    Seq<ValueView>,
    nat,
> {
    if keep.len() == 0 {
        match row::tuple(bytes, schema) {
            Ok((row, _)) => Ok(row),
            Err(at) => Err(at),
        }
    } else {
        row::kept_from(bytes, schema, keep, 0, 0, 0)
    }
}

/// The rows that the first `n` tuples give, without the hidden ones, or where the first unreadable
/// one stops making sense.
pub open spec fn scanned(
    table: u64,
    tuples: Seq<Tuple>,
    hidden: Seq<(u64, u64)>,
    schema: Seq<ColumnType>,
    keep: Seq<usize>,
    n: nat,
) -> Result<Seq<(u64, Seq<ValueView>)>, nat>
    decreases n,
{
    if n == 0 {
        Ok(Seq::empty())
    } else {
        match scanned(table, tuples, hidden, schema, keep, (n - 1) as nat) {
            Ok(head) => {
                let t = tuples[n - 1];
                if is_hidden(hidden, table, t.tid) {
                    Ok(head)
                } else {
                    match read_row(t.bytes@, schema, keep) {
                        Ok(row) => Ok(head.push((t.tid, row))),
                        Err(at) => Err(at),
                    }
                }
            },
            Err(at) => Err(at),
        }
    }
}

proof fn lemma_scan_stops(
    table: u64,
    tuples: Seq<Tuple>,
    hidden: Seq<(u64, u64)>,
    schema: Seq<ColumnType>,
    keep: Seq<usize>,
    k: nat,
    n: nat,
)
    requires
        k <= n,
        scanned(table, tuples, hidden, schema, keep, k) is Err,
    ensures
        scanned(table, tuples, hidden, schema, keep, n) == scanned(
            table,
            tuples,
            hidden,
            schema,
            keep,
            k,
        ),
    decreases n - k,
{
    if k < n {
        lemma_scan_stops(table, tuples, hidden, schema, keep, k + 1, n);
    }
}

fn read(bytes: &Vec<u8>, schema: &Vec<ColumnType>, keep: &Vec<usize>) -> (r: Result<Row, Error>)
    ensures
        match read_row(bytes@, schema@, keep@) {
            Ok(row) => r matches Ok(x) && x.deep_view() == row,
            Err(at) => r == Err::<Row, Error>(Error::MalformedTuple { offset: at as usize }),
        },
{
    if keep.len() == 0 {
        decode(bytes.as_slice(), schema.as_slice())
    } else {
        decode_projected(bytes.as_slice(), schema.as_slice(), keep.as_slice())
    }
}

/// The rows of a table with their addresses, without the hidden ones; where ordinals are given, only
/// those columns of each. Serves a full scan and a scan of the tuples that an index led to.
pub fn scan_table(
    table: u64,
    tuples: &Vec<Tuple>,
    hidden: &Vec<(u64, u64)>,
    schema: &Vec<ColumnType>,
    keep: &Vec<usize>,
) -> (r: Result<Vec<Located>, Error>)
    ensures
        match scanned(table, tuples@, hidden@, schema@, keep@, tuples@.len()) {
            Ok(all) => r matches Ok(x) && x.deep_view() == all,
            Err(at) => r == Err::<Vec<Located>, Error>(Error::MalformedTuple { offset: at as usize }),
        },
{
    let n: usize = tuples.len();
    let mut out: Vec<Located> = Vec::new();
    let mut i: usize = 0;
    assert(out.deep_view() =~= Seq::<(u64, Seq<ValueView>)>::empty());
    while i < n
        invariant
            n == tuples@.len(),
            i <= n,
            scanned(table, tuples@, hidden@, schema@, keep@, i as nat) == Ok::<
                Seq<(u64, Seq<ValueView>)>,
                nat,
            >(out.deep_view()),
        decreases n - i,
    {
        let tid: u64 = tuples[i].tid;
        if !skipped(hidden, table, tid) {
            match read(&tuples[i].bytes, schema, keep) {
                Ok(row) => {
                    let ghost was = out.deep_view();
                    let ghost rv = row.deep_view();
                    out.push(Located { tid, row });
                    assert(out.deep_view() =~= was.push((tid, rv)));
                },
                Err(e) => {
                    proof {
                        lemma_scan_stops(
                            table,
                            tuples@,
                            hidden@,
                            schema@,
                            keep@,
                            (i + 1) as nat,
                            n as nat,
                        );
                    }
                    return Err(e);
                },
            }
        }
        i += 1;
    }
    Ok(out)
}

/// The rows of a scan, without their addresses.
pub open spec fn rows_of(all: Seq<(u64, Seq<ValueView>)>) -> Seq<Seq<ValueView>> {
    all.map_values(|t: (u64, Seq<ValueView>)| t.1)
}

/// The rows of a table, without the hidden ones; where ordinals are given, only those columns of
/// each.
pub fn scan_rows_projected(
    table: u64,
    tuples: &Vec<Tuple>,
    hidden: &Vec<(u64, u64)>,
    schema: &Vec<ColumnType>,
    keep: &Vec<usize>,
) -> (r: Result<Vec<Row>, Error>)
    ensures
        match scanned(table, tuples@, hidden@, schema@, keep@, tuples@.len()) {
            Ok(all) => r matches Ok(x) && x.deep_view() == rows_of(all),
            Err(at) => r == Err::<Vec<Row>, Error>(Error::MalformedTuple { offset: at as usize }),
        },
{
    let all = match scan_table(table, tuples, hidden, schema, keep) {
        Ok(all) => all,
        Err(e) => {
            return Err(e);
        },
    };
    let ghost want = rows_of(all.deep_view());
    let n: usize = all.len();
    let mut out: Vec<Row> = Vec::new();
    let mut i: usize = 0;
    let ghost av = all.deep_view();
    while i < n
        invariant
            n == all@.len(),
            av == all.deep_view(),
            want == rows_of(av),
            i <= n,
            out@.len() == i,
            forall|k: int| 0 <= k < i ==> (#[trigger] out@[k]).deep_view() == want[k],
        decreases n - i,
    {
        assert(av[i as int] == all@[i as int].deep_view());
        out.push(crate::sort::clone_row(&all[i].row));
        i += 1;
    }
    assert(out.deep_view() =~= want);
    Ok(out)
}

/// The rows that the first `n` tuples give before the first one that cannot be read, without the hidden
/// ones, and where that one stops making sense.
pub open spec fn readable(
    table: u64,
    tuples: Seq<Tuple>,
    hidden: Seq<(u64, u64)>,
    schema: Seq<ColumnType>,
    keep: Seq<usize>,
    n: nat,
) -> (Seq<Seq<ValueView>>, Option<nat>)
    decreases n,
{
    if n == 0 {
        (Seq::empty(), None)
    } else {
        let (head, bad) = readable(table, tuples, hidden, schema, keep, (n - 1) as nat);
        if bad is Some || is_hidden(hidden, table, tuples[n - 1].tid) {
            (head, bad)
        } else {
            match read_row(tuples[n - 1].bytes@, schema, keep) {
                Ok(row) => (head.push(row), None),
                Err(at) => (head, Some(at)),
            }
        }
    }
}

proof fn lemma_reading_stops(
    table: u64,
    tuples: Seq<Tuple>,
    hidden: Seq<(u64, u64)>,
    schema: Seq<ColumnType>,
    keep: Seq<usize>,
    k: nat,
    n: nat,
)
    requires
        k <= n,
        readable(table, tuples, hidden, schema, keep, k).1 is Some,
    ensures
        readable(table, tuples, hidden, schema, keep, n) == readable(
            table,
            tuples,
            hidden,
            schema,
            keep,
            k,
        ),
    decreases n - k,
{
    if k < n {
        lemma_reading_stops(table, tuples, hidden, schema, keep, k + 1, n);
    }
}

/// The next row of a table: that of the next tuple, or none where the tuple is hidden. Where ordinals
/// are given, only those columns.
pub fn next_row(
    table: u64,
    tuple: &Tuple,
    hidden: &Vec<(u64, u64)>,
    schema: &Vec<ColumnType>,
    keep: &Vec<usize>,
) -> (r: Result<Option<Row>, Error>)
    ensures
        if is_hidden(hidden@, table, tuple.tid) {
            r == Ok::<Option<Row>, Error>(None)
        } else {
            match read_row(tuple.bytes@, schema@, keep@) {
                Ok(row) => r matches Ok(Some(x)) && x.deep_view() == row,
                Err(at) => r == Err::<Option<Row>, Error>(
                    Error::MalformedTuple { offset: at as usize },
                ),
            }
        },
{
    if skipped(hidden, table, tuple.tid) {
        return Ok(None);
    }
    match read(&tuple.bytes, schema, keep) {
        Ok(row) => Ok(Some(row)),
        Err(e) => Err(e),
    }
}

/// The rows of a table one after another, without the hidden ones, up to the first tuple that cannot be
/// read; where ordinals are given, only those columns of each.
pub fn read_rows(
    table: u64,
    tuples: &Vec<Tuple>,
    hidden: &Vec<(u64, u64)>,
    schema: &Vec<ColumnType>,
    keep: &Vec<usize>,
) -> (r: (Vec<Row>, Option<Error>))
    ensures
        ({
            let (rows, bad) = readable(table, tuples@, hidden@, schema@, keep@, tuples@.len());
            &&& r.0.deep_view() == rows
            &&& r.1 == match bad {
                Some(at) => Some(Error::MalformedTuple { offset: at as usize }),
                None => None,
            }
        }),
{
    let n: usize = tuples.len();
    let mut out: Vec<Row> = Vec::new();
    let mut i: usize = 0;
    assert(out.deep_view() =~= Seq::<Seq<ValueView>>::empty());
    while i < n
        invariant
            n == tuples@.len(),
            i <= n,
            readable(table, tuples@, hidden@, schema@, keep@, i as nat) == (
                out.deep_view(),
                None::<nat>,
            ),
        decreases n - i,
    {
        match next_row(table, &tuples[i], hidden, schema, keep) {
            Ok(Some(row)) => {
                let ghost was = out.deep_view();
                let ghost rv = row.deep_view();
                out.push(row);
                assert(out.deep_view() =~= was.push(rv));
            },
            Ok(None) => {},
            Err(e) => {
                proof {
                    lemma_reading_stops(
                        table,
                        tuples@,
                        hidden@,
                        schema@,
                        keep@,
                        (i + 1) as nat,
                        n as nat,
                    );
                }
                return (out, Some(e));
            },
        }
        i += 1;
    }
    (out, None)
}

/// How many of the first `n` tuples are not hidden.
pub open spec fn visible(table: u64, tuples: Seq<Tuple>, hidden: Seq<(u64, u64)>, n: nat) -> nat
    decreases n,
{
    if n == 0 {
        0
    } else {
        visible(table, tuples, hidden, (n - 1) as nat) + if is_hidden(
            hidden,
            table,
            tuples[n - 1].tid,
        ) {
            0nat
        } else {
            1nat
        }
    }
}

/// How many rows of a table a query sees, without reading any.
pub fn count_table(table: u64, tuples: &Vec<Tuple>, hidden: &Vec<(u64, u64)>) -> (r: usize)
    ensures
        r == visible(table, tuples@, hidden@, tuples@.len()),
{
    let n: usize = tuples.len();
    let mut count: usize = 0;
    let mut i: usize = 0;
    while i < n
        invariant
            n == tuples@.len(),
            i <= n,
            count <= i,
            count == visible(table, tuples@, hidden@, i as nat),
        decreases n - i,
    {
        if !skipped(hidden, table, tuples[i].tid) {
            count += 1;
        }
        i += 1;
    }
    count
}

/// The values of a row at these ordinals, leaving out those it does not have; among the first `n`.
pub open spec fn narrowed(row: Seq<ValueView>, columns: Seq<usize>, n: nat) -> Seq<ValueView>
    decreases n,
{
    if n == 0 {
        Seq::empty()
    } else if columns[n - 1] < row.len() {
        narrowed(row, columns, (n - 1) as nat).push(row[columns[n - 1] as int])
    } else {
        narrowed(row, columns, (n - 1) as nat)
    }
}

fn narrow(row: &Row, columns: &Vec<usize>) -> (r: Row)
    ensures
        r.deep_view() == narrowed(row.deep_view(), columns@, columns@.len()),
{
    let n: usize = columns.len();
    let ghost rv = row.deep_view();
    let mut out: Vec<Value> = Vec::new();
    let mut i: usize = 0;
    assert(out.deep_view() =~= Seq::<ValueView>::empty());
    while i < n
        invariant
            n == columns@.len(),
            rv == row.deep_view(),
            i <= n,
            out.deep_view() == narrowed(rv, columns@, i as nat),
        decreases n - i,
    {
        let c: usize = columns[i];
        if c < row.len() {
            let ghost was = out.deep_view();
            assert(rv[c as int] == row@[c as int]@);
            out.push(row[c].clone());
            assert(out.deep_view() =~= was.push(rv[c as int]));
        }
        i += 1;
    }
    out
}

/// Rows that are held in memory, of which a scan keeps only these columns; without ordinals, all of
/// them.
pub fn project_rows(rows: &Vec<Row>, columns: &Vec<usize>) -> (r: Vec<Row>)
    ensures
        r@.len() == rows@.len(),
        forall|i: int|
            0 <= i < rows@.len() ==> (#[trigger] r@[i]).deep_view() == if columns@.len() == 0 {
                rows@[i].deep_view()
            } else {
                narrowed(rows@[i].deep_view(), columns@, columns@.len())
            },
{
    let n: usize = rows.len();
    let mut out: Vec<Row> = Vec::new();
    let mut i: usize = 0;
    while i < n
        invariant
            n == rows@.len(),
            i <= n,
            out@.len() == i,
            forall|k: int|
                0 <= k < i ==> (#[trigger] out@[k]).deep_view() == if columns@.len() == 0 {
                    rows@[k].deep_view()
                } else {
                    narrowed(rows@[k].deep_view(), columns@, columns@.len())
                },
        decreases n - i,
    {
        if columns.len() == 0 {
            out.push(crate::sort::clone_row(&rows[i]));
        } else {
            out.push(narrow(&rows[i], columns));
        }
        i += 1;
    }
    out
}

// ---------------------------------------------------------------- laws

/// Counting without reading gives the number of rows that a scan returns.
pub proof fn law_count_is_the_length_of_the_scan(
    table: u64,
    tuples: Seq<Tuple>,
    hidden: Seq<(u64, u64)>,
    schema: Seq<ColumnType>,
    keep: Seq<usize>,
    n: nat,
)
    requires
        n <= tuples.len(),
        scanned(table, tuples, hidden, schema, keep, n) is Ok,
    ensures
        scanned(table, tuples, hidden, schema, keep, n)->Ok_0.len() == visible(
            table,
            tuples,
            hidden,
            n,
        ),
    decreases n,
{
    if n > 0 {
        law_count_is_the_length_of_the_scan(table, tuples, hidden, schema, keep, (n - 1) as nat);
    }
}

/// Reading a table row by row gives the rows of a scan, and is refused where the scan is.
pub proof fn law_readable_rows_are_scanned(
    table: u64,
    tuples: Seq<Tuple>,
    hidden: Seq<(u64, u64)>,
    schema: Seq<ColumnType>,
    keep: Seq<usize>,
    n: nat,
)
    requires
        n <= tuples.len(),
    ensures
        match scanned(table, tuples, hidden, schema, keep, n) {
            Ok(all) => readable(table, tuples, hidden, schema, keep, n) == (rows_of(all), None::<nat>),
            Err(at) => readable(table, tuples, hidden, schema, keep, n).1 == Some(at),
        },
    decreases n,
{
    if n > 0 {
        law_readable_rows_are_scanned(table, tuples, hidden, schema, keep, (n - 1) as nat);
        if let Ok(all) = scanned(table, tuples, hidden, schema, keep, n) {
            let head = scanned(table, tuples, hidden, schema, keep, (n - 1) as nat)->Ok_0;
            if !is_hidden(hidden, table, tuples[n - 1].tid) {
                assert(rows_of(all) =~= rows_of(head).push(all.last().1));
            }
        }
    } else {
        assert(rows_of(Seq::empty()) =~= Seq::empty());
    }
}

/// A scan that keeps some columns, by ascending ordinals, gives the full scan's rows narrowed to
/// those columns, and is refused where the full scan is.
pub proof fn law_narrow_scan_is_projection(
    table: u64,
    tuples: Seq<Tuple>,
    hidden: Seq<(u64, u64)>,
    schema: Seq<ColumnType>,
    keep: Seq<usize>,
    n: nat,
)
    requires
        n <= tuples.len(),
        keep.len() > 0,
        forall|a: int, b: int| 0 <= a < b < keep.len() ==> keep[a] < keep[b],
        forall|a: int| 0 <= a < keep.len() ==> keep[a] < schema.len(),
    ensures
        match scanned(table, tuples, hidden, schema, Seq::empty(), n) {
            Ok(full) => scanned(table, tuples, hidden, schema, keep, n) == Ok::<
                Seq<(u64, Seq<ValueView>)>,
                nat,
            >(
                full.map_values(
                    |t: (u64, Seq<ValueView>)| (t.0, keep.map_values(|k: usize| t.1[k as int])),
                ),
            ),
            Err(at) => scanned(table, tuples, hidden, schema, keep, n) == Err::<
                Seq<(u64, Seq<ValueView>)>,
                nat,
            >(at),
        },
    decreases n,
{
    let f = |t: (u64, Seq<ValueView>)| (t.0, keep.map_values(|k: usize| t.1[k as int]));
    if n > 0 {
        law_narrow_scan_is_projection(table, tuples, hidden, schema, keep, (n - 1) as nat);
        row::law_projected_read_is_projection(tuples[n - 1].bytes@, schema, keep);
        if let Ok(full) = scanned(table, tuples, hidden, schema, Seq::empty(), n) {
            let head = scanned(table, tuples, hidden, schema, Seq::empty(), (n - 1) as nat)->Ok_0;
            if !is_hidden(hidden, table, tuples[n - 1].tid) {
                let x = full.last();
                assert(full =~= head.push(x));
                assert(full.map_values(f) =~= head.map_values(f).push(f(x)));
            }
        }
    } else {
        assert(Seq::<(u64, Seq<ValueView>)>::empty().map_values(f) =~= Seq::empty());
    }
}

} // verus!
