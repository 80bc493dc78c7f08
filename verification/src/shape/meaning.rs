//! What plans are estimated at, and what columns they have.
use vstd::prelude::*;
use crate::shape;
use crate::shape::{ColumnSummary, Shape, ShapeNode};

verus! {

/// A projection has the names and the types of its columns. A limit, `DISTINCT` and a lock have those of
/// their input, and `WITH` those of its last part.
pub proof fn law_columns_are_those_of_the_projection(s: Shape)
    ensures
        s.node matches ShapeNode::Project { columns } ==> {
            &&& shape::names_of(s).len() == columns@.len()
            &&& shape::types_of(s).len() == columns@.len()
            &&& forall|i: int| 0 <= i < columns@.len() ==> #[trigger] shape::names_of(s)[i] == columns@[i].name@
            &&& forall|i: int| 0 <= i < columns@.len() ==> #[trigger] shape::types_of(s)[i] == columns@[i].ty
        },
        (s.node is Limit || s.node is Distinct || s.node is LockRows) && s.children@.len() > 0
            ==> shape::names_of(s) == shape::names_of(s.children@[0]) && shape::types_of(s)
            == shape::types_of(s.children@[0]),
        s.node is With && s.children@.len() > 0 ==> shape::names_of(s) == shape::names_of(
            s.children@[s.children@.len() - 1],
        ) && shape::types_of(s) == shape::types_of(s.children@[s.children@.len() - 1]),
{
}

/// The number of rows of a table that is known is the first one told of it.
pub proof fn law_counts_are_found_by_table(counts: Seq<(u64, u64)>, table: u64, n: u64)
    ensures
        shape::known_count(Seq::<(u64, u64)>::empty(), table, 0) is None,
        shape::known_count(seq![(table, n)] + counts, table, 0) == Some(n),
        forall|other: u64|
            other != table ==> #[trigger] shape::known_count(seq![(other, n)] + counts, table, 0)
                == shape::known_count(counts, table, 0),
{
    assert((seq![(table, n)] + counts)[0] == (table, n));
    assert forall|other: u64| other != table implies #[trigger] shape::known_count(
        seq![(other, n)] + counts,
        table,
        0,
    ) == shape::known_count(counts, table, 0) by {
        assert((seq![(other, n)] + counts)[0] == (other, n));
        lemma_count_moved(seq![(other, n)], counts, table, 0);
    }
}

proof fn lemma_count_moved(a: Seq<(u64, u64)>, b: Seq<(u64, u64)>, table: u64, i: nat)
    ensures
        shape::known_count(a + b, table, a.len() + i) == shape::known_count(b, table, i),
    decreases b.len() - i,
{
    if i < b.len() {
        assert((a + b)[(a.len() + i) as int] == b[i as int]);
        lemma_count_moved(a, b, table, i + 1);
    }
}

/// A plan is estimated at its largest table: no input that is walked is larger, and a scan has the rows of
/// its table.
pub proof fn law_plans_are_estimated_at_their_largest_table(s: Shape, counts: Seq<(u64, u64)>)
    ensures
        s.node matches ShapeNode::SeqScan { table, .. } ==> s.children@.len() == 0 ==> (match shape::known_count(
            counts,
            table,
            0,
        ) {
            Some(n) => shape::most_rows(s, counts) == n,
            None => shape::most_rows(s, counts) == 0,
        }),
        s.node is HashJoin && s.children@.len() == 2 ==> {
            let l = shape::most_rows(s.children@[0], counts);
            let r = shape::most_rows(s.children@[1], counts);
            &&& shape::most_rows(s, counts) >= l
            &&& shape::most_rows(s, counts) >= r
            &&& shape::most_rows(s, counts) == l || shape::most_rows(s, counts) == r
            &&& shape::join_estimate(s, counts) == if l > 0 || r > 0 {
                Some(shape::most_rows(s, counts))
            } else {
                None
            }
        },
        (s.node is Filter || s.node is Project || s.node is Sort || s.node is Limit || s.node is ScalarAggregate
            || s.node is GroupAggregate) && s.children@.len() == 1 ==> shape::most_rows(s, counts)
            == shape::most_rows(s.children@[0], counts) && shape::join_estimate(s, counts)
            == shape::join_estimate(s.children@[0], counts),
{
    reveal_with_fuel(shape::most_rows, 2);
    reveal_with_fuel(shape::reaches_join, 2);
}

/// A plan is batched if that is forced, or if it is estimated at the threshold or above; its own estimate
/// counts before that of its joins.
pub proof fn law_large_plans_are_batched(
    s: Shape,
    forced: bool,
    n: u64,
    counts: Seq<(u64, u64)>,
    threshold: u64,
)
    ensures
        shape::batched(s, true, None, counts, threshold),
        shape::batched(s, false, Some(n), counts, threshold) <==> n >= threshold,
        shape::join_estimate(s, counts) matches Some(m) ==> (shape::batched(s, false, None, counts, threshold)
            <==> m >= threshold),
        shape::join_estimate(s, counts) is None ==> !shape::batched(s, false, None, counts, threshold),
{
}

/// A column has as many groups as different values, at least one, and one more if it has NULLs.
pub proof fn law_columns_have_as_many_groups_as_values(c: ColumnSummary)
    requires
        c.distinct_count < u64::MAX,
    ensures
        c.distinct_count > 0 && c.null_count == 0 ==> shape::column_groups(c) == c.distinct_count,
        c.distinct_count > 0 && c.null_count > 0 ==> shape::column_groups(c) == c.distinct_count + 1,
        c.distinct_count == 0 && c.null_count == 0 ==> shape::column_groups(c) == 1,
        c.distinct_count == 0 && c.null_count > 0 ==> shape::column_groups(c) == 2,
{
}

/// Keys make as many groups as their columns together; one that is no column, or of which nothing is known,
/// leaves them unknown.
pub proof fn law_keys_multiply_groups(
    columns: Seq<String>,
    keys: Seq<Option<usize>>,
    stats: Seq<ColumnSummary>,
    n: nat,
    g: u64,
    column: usize,
    c: ColumnSummary,
)
    requires
        n < keys.len(),
        shape::groups(columns, Seq::empty(), keys, stats, n) == Some(g),
        column < columns.len(),
        g * shape::column_groups(c) <= u64::MAX,
    ensures
        shape::groups(columns, Seq::empty(), keys, stats, 0) == Some(1u64),
        keys[n as int] is None ==> shape::groups(columns, Seq::empty(), keys, stats, n + 1) is None,
        keys[n as int] == Some(column) && shape::summary_from(stats, columns[column as int]@, 0) is None
            ==> shape::groups(columns, Seq::empty(), keys, stats, n + 1) is None,
        keys[n as int] == Some(column) && shape::summary_from(stats, columns[column as int]@, 0) == Some(c)
            ==> shape::groups(columns, Seq::empty(), keys, stats, n + 1) == Some(
            (g * shape::column_groups(c)) as u64,
        ),
{
}

/// A group is reckoned at 360 bytes.
pub proof fn law_groups_take_360_bytes(input: Shape, scan: Shape, keys: Seq<Option<usize>>, stats: Seq<ColumnSummary>, g: u64)
    requires
        shape::scan_beneath(input) == Some(scan),
        shape::groups(scan.node->source@, scan.node->kept@, keys, stats, keys.len()) == Some(g),
        g * 360 <= u64::MAX,
    ensures
        shape::group_state(input, keys, Some(stats)) == Some((g * 360) as u64),
        shape::group_state(input, keys, None) is None,
{
}

} // verus!
