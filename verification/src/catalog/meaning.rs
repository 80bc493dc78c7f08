//! What the catalogs hold and find.
use vstd::prelude::*;
use crate::catalog;
use crate::catalog::partition;
use crate::catalog::partition::BoundView;
use crate::catalog::procedure;
use crate::catalog::sequences;
use crate::catalog::sequences::{SequenceChange, SequenceView};
use crate::order;
use crate::order::{ColumnOrder, ValueOrder};
use crate::types::ColumnType;
use crate::value::ValueView;

verus! {

pub type TextRows = Seq<Seq<ValueView>>;

// ---------------------------------------------------------------- rows by name

/// The rows of a name are exactly those whose first value is that name, told in order.
pub proof fn law_rows_are_found_by_name(rows: TextRows, row: Seq<ValueView>, name: Seq<char>)
    requires
        rows.len() < usize::MAX,
    ensures
        catalog::rows_named(Seq::empty(), name, 0) == Seq::<usize>::empty(),
        row.len() > 0 && row[0] == ValueView::Text(name) ==> catalog::rows_named(
            rows.push(row),
            name,
            rows.len() + 1,
        ) == catalog::rows_named(rows, name, rows.len()).push(rows.len() as usize),
        row.len() == 0 || row[0] != ValueView::Text(name) ==> catalog::rows_named(
            rows.push(row),
            name,
            rows.len() + 1,
        ) == catalog::rows_named(rows, name, rows.len()),
{
    lemma_named_prefix(rows, rows.push(row), name, rows.len());
}

proof fn lemma_named_prefix(a: TextRows, b: TextRows, name: Seq<char>, n: nat)
    requires
        n <= a.len(),
        forall|i: int| 0 <= i < n ==> a[i] == b[i],
    ensures
        catalog::rows_named(a, name, n) == catalog::rows_named(b, name, n),
    decreases n,
{
    if n > 0 {
        lemma_named_prefix(a, b, name, (n - 1) as nat);
        assert(a[n - 1] == b[n - 1]);
    }
}

/// A field of a row is its text there, and empty where there is none.
pub proof fn law_fields_are_texts(row: Seq<ValueView>, i: int, s: Seq<char>)
    ensures
        0 <= i < row.len() && row[i] == ValueView::Text(s) ==> catalog::field_text(row, i) == s,
        0 <= i < row.len() && !(row[i] is Text) ==> catalog::field_text(row, i).len() == 0,
        i < 0 || i >= row.len() ==> catalog::field_text(row, i).len() == 0,
{
}

/// A text is cut at the first separator in it.
pub proof fn law_texts_are_cut_at_the_first_separator(a: Seq<char>, b: Seq<char>, sep: char)
    requires
        !a.contains(sep),
    ensures
        catalog::cut_at(a + seq![sep] + b, sep) == Some((a, b)),
        catalog::cut_at(a, sep) is None,
{
    let s = a + seq![sep] + b;
    let at = a.len() as int;
    assert(s[at] == sep);
    assert(s.contains(sep));
    assert forall|j: int| 0 <= j < at implies #[trigger] s[j] != sep by {
        assert(a[j] == s[j]);
        if s[j] == sep {
            assert(a.contains(sep));
        }
    }
    assert(catalog::first_at(s, sep, at));
    let i = choose|i: int| catalog::first_at(s, sep, i);
    if i < at {
        assert(s[i] != sep);
    }
    if at < i {
        assert(s[at] != sep);
    }
    assert(s.take(at) =~= a);
    assert(s.skip(at + 1) =~= b);
}

// ---------------------------------------------------------------- sequences

/// A change of a sequence replaces what it gives and keeps the rest, and the name in any case.
pub proof fn law_changes_replace_what_they_give(d: SequenceView, c: SequenceChange)
    ensures
        ({
            let e = sequences::changed(d, c);
            &&& e.name == d.name
            &&& c.start matches Some(x) ==> e.start == x
            &&& c.start is None ==> e.start == d.start
            &&& c.increment matches Some(x) ==> e.increment == x
            &&& c.increment is None ==> e.increment == d.increment
            &&& c.min_value matches Some(x) ==> e.min_value == x
            &&& c.min_value is None ==> e.min_value == d.min_value
            &&& c.max_value matches Some(x) ==> e.max_value == x
            &&& c.max_value is None ==> e.max_value == d.max_value
            &&& c.cycle matches Some(x) ==> e.cycle == x
            &&& c.cycle is None ==> e.cycle == d.cycle
        }),
{
}

/// A sequence is defined by the first row that records it.
pub proof fn law_sequences_are_defined_by_their_first_row(
    before: TextRows,
    d: SequenceView,
    after: TextRows,
)
    requires
        forall|i: int| 0 <= i < before.len() ==> catalog::field_text(#[trigger] before[i], 0) != d.name,
    ensures
        sequences::defined_from(before + seq![sequences::recorded(d)] + after, d.name, 0) == Some(d),
{
    let rows = before + seq![sequences::recorded(d)] + after;
    sequences::law_definition_round_trip(d);
    assert(rows[before.len() as int] == sequences::recorded(d));
    lemma_sequence_from(rows, d, 0, before.len());
}

proof fn lemma_sequence_from(rows: TextRows, d: SequenceView, i: nat, at: nat)
    requires
        i <= at < rows.len(),
        forall|k: int| i <= k < at ==> catalog::field_text(#[trigger] rows[k], 0) != d.name,
        sequences::definition(rows[at as int]) == d,
    ensures
        sequences::defined_from(rows, d.name, i) == Some(d),
    decreases at - i,
{
    if i < at {
        assert(catalog::field_text(rows[i as int], 0) != d.name);
        lemma_sequence_from(rows, d, i + 1, at);
    }
}

// ---------------------------------------------------------------- procedures

/// A procedure that is recorded is found again, whatever other procedures are; one that is not is not.
pub proof fn law_procedures_are_found_by_name(rows: TextRows, name: Seq<char>, i: nat)
    requires
        i <= rows.len(),
        forall|k: int|
            0 <= k < rows.len() ==> (#[trigger] rows[k]).len() == 0 || rows[k][0] != ValueView::Text(name),
    ensures
        procedure::defined_from(rows, name, i) is None,
    decreases rows.len() - i,
{
    if i < rows.len() {
        assert(rows[i as int].len() == 0 || rows[i as int][0] != ValueView::Text(name));
        law_procedures_are_found_by_name(rows, name, i + 1);
    }
}

/// A call gives the values of the `OUT` parameters in their order, NULL for one that was never set.
pub proof fn law_out_parameters_are_read(
    out_params: Seq<Seq<char>>,
    variables: Map<Seq<char>, ValueView>,
    i: int,
)
    requires
        0 <= i < out_params.len(),
    ensures
        procedure::out_values(out_params, variables).len() == out_params.len(),
        variables.contains_key(out_params[i]) ==> procedure::out_values(out_params, variables)[i]
            == variables[out_params[i]],
        !variables.contains_key(out_params[i]) ==> procedure::out_values(out_params, variables)[i] is Null,
{
}

// ---------------------------------------------------------------- partitions

/// A range of integers takes the keys from its low end, which is in it, up to its high end, which is not.
pub proof fn law_ranges_hold_their_low_end(k: i64, lo: i64, hi: i64, hash: u64)
    ensures
        partition::accepted(
            &ColumnOrder,
            ValueView::Int(k),
            BoundView::Range { lo: ValueView::Int(lo), hi: ValueView::Int(hi) },
            hash,
        ) <==> lo <= k < hi,
{
    order::meaning::law_integers_stand_by_size(k, lo);
    order::meaning::law_integers_stand_by_size(k, hi);
}

/// A range takes its own low end and not its high end, and no NULL.
pub proof fn law_ranges_are_open_at_the_top<O: ValueOrder>(o: &O, lo: ValueView, hi: ValueView, hash: u64)
    requires
        !(lo is Null),
        o.order(lo, hi) is Less,
    ensures
        partition::accepted(o, lo, BoundView::Range { lo, hi }, hash),
        !partition::accepted(o, hi, BoundView::Range { lo, hi }, hash),
        !partition::accepted(o, ValueView::Null, BoundView::Range { lo, hi }, hash),
{
    o.preorder(lo, lo, lo);
    o.preorder(hi, hi, hi);
}

/// A list takes exactly the keys that it lists.
pub proof fn law_lists_hold_what_they_list(k: i64, xs: Seq<i64>, hash: u64)
    ensures
        partition::accepted(
            &ColumnOrder,
            ValueView::Int(k),
            BoundView::List(Seq::new(xs.len(), |i: int| ValueView::Int(xs[i]))),
            hash,
        ) <==> xs.contains(k),
{
    let values = Seq::new(xs.len(), |i: int| ValueView::Int(xs[i]));
    assert forall|i: int| 0 <= i < xs.len() implies (order::not_distinct(
        &ColumnOrder,
        ValueView::Int(k),
        #[trigger] values[i],
    ) <==> k == xs[i]) by {
        order::meaning::law_integers_stand_by_size(k, xs[i]);
    }
    if xs.contains(k) {
        let i = choose|i: int| 0 <= i < xs.len() && xs[i] == k;
        assert(order::not_distinct(&ColumnOrder, ValueView::Int(k), values[i]));
    }
    if partition::listed(&ColumnOrder, ValueView::Int(k), values) {
        let i = choose|i: int|
            0 <= i < values.len() && order::not_distinct(
                &ColumnOrder,
                ValueView::Int(k),
                #[trigger] values[i],
            );
        assert(xs[i] == k);
    }
}

/// A hash partition takes exactly the keys whose hash leaves its remainder.
pub proof fn law_hash_partitions_hold_their_remainder<O: ValueOrder>(
    o: &O,
    key: ValueView,
    modulus: u64,
    remainder: u64,
    hash: u64,
)
    requires
        !(key is Null),
        modulus > 0,
    ensures
        partition::accepted(o, key, BoundView::Hash { modulus, remainder }, hash) <==> hash as int % modulus as int
            == remainder,
{
}

/// A row records a partition of the parent.
pub open spec fn records_partition(row: Seq<ValueView>, parent: Seq<char>) -> bool {
    row.len() == 5 && row[0] == ValueView::Text("part"@) && row[2] == ValueView::Text(parent)
}

/// The partitions of a table are those that a row records with it as their parent, in order.
pub proof fn law_partitions_are_listed_in_order(
    rows: TextRows,
    row: Seq<ValueView>,
    parent: Seq<char>,
    ty: ColumnType,
    found: Seq<(Seq<char>, BoundView)>,
    name: Seq<char>,
    bound: BoundView,
)
    requires
        partition::partitions_in(rows, parent, ty, rows.len()) == Ok::<Seq<(Seq<char>, BoundView)>, nat>(found),
    ensures
        partition::partitions_in(Seq::empty(), parent, ty, 0) == Ok::<Seq<(Seq<char>, BoundView)>, nat>(
            Seq::empty(),
        ),
        records_partition(row, parent) && row[1] == ValueView::Text(name) && partition::row_bound(row, ty)
            == Ok::<BoundView, nat>(bound) ==> partition::partitions_in(
            rows.push(row),
            parent,
            ty,
            rows.len() + 1,
        ) == Ok::<Seq<(Seq<char>, BoundView)>, nat>(found.push((name, bound))),
        row.len() == 5 && row[0] is Text && row[2] is Text && (row[0] != ValueView::Text("part"@) || row[2]
            != ValueView::Text(parent)) ==> partition::partitions_in(
            rows.push(row),
            parent,
            ty,
            rows.len() + 1,
        ) == Ok::<Seq<(Seq<char>, BoundView)>, nat>(found),
{
    lemma_partitions_prefix(rows, rows.push(row), parent, ty, rows.len());
}

proof fn lemma_partitions_prefix(a: TextRows, b: TextRows, parent: Seq<char>, ty: ColumnType, n: nat)
    requires
        n <= a.len(),
        forall|i: int| 0 <= i < n ==> a[i] == b[i],
    ensures
        partition::partitions_in(a, parent, ty, n) == partition::partitions_in(b, parent, ty, n),
    decreases n,
{
    if n > 0 {
        lemma_partitions_prefix(a, b, parent, ty, (n - 1) as nat);
        assert(a[n - 1] == b[n - 1]);
    }
}

/// With a table go the rows that record it, as a parent or as a partition, and those of its partitions;
/// the rows of other tables stay.
pub proof fn law_rows_go_with_their_table(rows: TextRows, row: Seq<ValueView>, table: Seq<char>)
    requires
        rows.len() < usize::MAX,
        row.len() == 5,
        row[0] is Text,
        row[1] is Text,
        row[2] is Text,
    ensures
        partition::victims(Seq::empty(), table, 0) == Seq::<usize>::empty(),
        row[1] == ValueView::Text(table) || (row[0] == ValueView::Text("part"@) && row[2] == ValueView::Text(
            table,
        )) ==> partition::victims(rows.push(row), table, rows.len() + 1) == partition::victims(
            rows,
            table,
            rows.len(),
        ).push(rows.len() as usize),
        row[1] != ValueView::Text(table) && (row[0] != ValueView::Text("part"@) || row[2] != ValueView::Text(
            table,
        )) ==> partition::victims(rows.push(row), table, rows.len() + 1) == partition::victims(
            rows,
            table,
            rows.len(),
        ),
{
    lemma_victims_prefix(rows, rows.push(row), table, rows.len());
}

proof fn lemma_victims_prefix(a: TextRows, b: TextRows, table: Seq<char>, n: nat)
    requires
        n <= a.len(),
        forall|i: int| 0 <= i < n ==> a[i] == b[i],
    ensures
        partition::victims(a, table, n) == partition::victims(b, table, n),
    decreases n,
{
    if n > 0 {
        lemma_victims_prefix(a, b, table, (n - 1) as nat);
        assert(a[n - 1] == b[n - 1]);
    }
}

/// The parent, its key and its strategy, and the parent of a partition, are read back from the first row
/// that records the table.
pub proof fn law_entries_are_read_back(
    before: TextRows,
    table: Seq<char>,
    aux: Seq<char>,
    strategy: partition::PartitionStrategy,
    payload: Seq<char>,
    after: TextRows,
)
    requires
        forall|i: int| 0 <= i < before.len() ==> catalog::field_text(#[trigger] before[i], 1) != table,
    ensures
        ({
            let rows = before + seq![partition::parent_entry(table, aux, strategy)] + after;
            &&& partition::entry_field(rows, "parent"@, table, 2) == Some(aux)
            &&& partition::entry_field(rows, "parent"@, table, 3) == Some(partition::strategy_word(strategy))
        }),
        ({
            let rows = before + seq![partition::partition_entry(table, aux, strategy, payload)] + after;
            partition::entry_field(rows, "part"@, table, 2) == Some(aux)
        }),
{
    let a = before + seq![partition::parent_entry(table, aux, strategy)] + after;
    let b = before + seq![partition::partition_entry(table, aux, strategy, payload)] + after;
    assert(a[before.len() as int] == partition::parent_entry(table, aux, strategy));
    assert(b[before.len() as int] == partition::partition_entry(table, aux, strategy, payload));
    lemma_entry(a, "parent"@, table, 0, before.len());
    lemma_entry(b, "part"@, table, 0, before.len());
}

proof fn lemma_entry(rows: TextRows, role: Seq<char>, table: Seq<char>, i: nat, at: nat)
    requires
        i <= at < rows.len(),
        forall|k: int| i <= k < at ==> catalog::field_text(#[trigger] rows[k], 1) != table,
        partition::is_entry(rows[at as int], role, table),
    ensures
        partition::entry_from(rows, role, table, i) == Some(at),
    decreases at - i,
{
    if i < at {
        assert(catalog::field_text(rows[i as int], 1) != table);
        lemma_entry(rows, role, table, i + 1, at);
    }
}

/// Calls are nested 64 deep at the most.
pub proof fn law_calls_nest_64_deep()
    ensures
        procedure::MAX_CALL_DEPTH == 64,
{
}

} // verus!
