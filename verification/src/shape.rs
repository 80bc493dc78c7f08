//! The shape of a plan: what its rows look like, which tables it reads, and which way to run it.
use vstd::prelude::*;
use crate::error::Error;
use crate::exec::IntSeries;
use crate::memory;
use crate::memory::enforce_work_mem;
use crate::text::same_text;
use crate::types::ColumnType;
use crate::value::Row;

pub mod meaning;

verus! {

/// A column of a query's result.
#[derive(Debug, PartialEq, Eq)]
pub struct OutputColumn {
    pub name: String,
    pub ty: ColumnType,
}

/// What an operator is, as far as its shape is concerned.
#[allow(inconsistent_fields)]
pub enum ShapeNode {
    /// A scan of a table with these columns, of which only those at the kept ordinals are read; all
    /// of them where none is named.
    SeqScan { table: u64, source: Vec<String>, kept: Vec<usize> },
    OneRow,
    HashJoin,
    Filter,
    Sort,
    Limit,
    Distinct,
    Project { columns: Vec<OutputColumn> },
    /// A projection with a set-returning function, which appends the `extra` columns, each under the
    /// name `appended`. Where the function is a series, its arguments are given: those that are
    /// integer literals.
    ProjectSet {
        columns: Vec<OutputColumn>,
        appended: String,
        extra: Vec<ColumnType>,
        ordinality: bool,
        series: Option<Vec<Option<i64>>>,
    },
    ScalarAggregate,
    GroupAggregate,
    LockRows,
    /// Queries before a body, which is the last child.
    With,
    Other,
}

/// An operator and its children.
pub struct Shape {
    pub node: ShapeNode,
    pub children: Vec<Shape>,
}

// ---------------------------------------------------------------- result columns

/// The names of the columns.
pub open spec fn column_names(columns: Seq<OutputColumn>) -> Seq<Seq<char>> {
    columns.map_values(|c: OutputColumn| c.name@)
}

/// The types of the columns.
pub open spec fn column_types(columns: Seq<OutputColumn>) -> Seq<ColumnType> {
    columns.map_values(|c: OutputColumn| c.ty)
}

/// The child whose columns are the operator's own, where it passes them on: its only one, or the body
/// of a query with others before it.
pub open spec fn passes_on(s: Shape) -> Option<int> {
    match s.node {
        ShapeNode::Limit | ShapeNode::Distinct | ShapeNode::LockRows => if s.children@.len() > 0 {
            Some(0)
        } else {
            None
        },
        ShapeNode::With => if s.children@.len() > 0 {
            Some(s.children@.len() - 1)
        } else {
            None
        },
        _ => None,
    }
}

/// The names of the result's columns.
pub open spec fn names_of(s: Shape) -> Seq<Seq<char>>
    decreases s,
{
    match s.node {
        ShapeNode::Project { columns } => column_names(columns@),
        ShapeNode::ProjectSet { columns, appended, extra, .. } => column_names(columns@) + Seq::new(
            extra@.len(),
            |i: int| appended@,
        ),
        ShapeNode::Limit | ShapeNode::Distinct | ShapeNode::LockRows => if s.children@.len() > 0 {
            names_of(s.children@[0])
        } else {
            Seq::empty()
        },
        ShapeNode::With => if s.children@.len() > 0 {
            names_of(s.children@[s.children@.len() - 1])
        } else {
            Seq::empty()
        },
        _ => Seq::empty(),
    }
}

/// The types of the result's columns.
pub open spec fn types_of(s: Shape) -> Seq<ColumnType>
    decreases s,
{
    match s.node {
        ShapeNode::Project { columns } => column_types(columns@),
        ShapeNode::ProjectSet { columns, extra, .. } => column_types(columns@) + extra@,
        ShapeNode::Limit | ShapeNode::Distinct | ShapeNode::LockRows => if s.children@.len() > 0 {
            types_of(s.children@[0])
        } else {
            Seq::empty()
        },
        ShapeNode::With => if s.children@.len() > 0 {
            types_of(s.children@[s.children@.len() - 1])
        } else {
            Seq::empty()
        },
        _ => Seq::empty(),
    }
}

fn copy_names(columns: &Vec<OutputColumn>) -> (r: Vec<String>)
    ensures
        r.deep_view() == column_names(columns@),
{
    let mut out: Vec<String> = Vec::new();
    let mut i: usize = 0;
    while i < columns.len()
        invariant
            i <= columns@.len(),
            out@.len() == i,
            forall|k: int| 0 <= k < i ==> (#[trigger] out@[k])@ == columns@[k].name@,
        decreases columns@.len() - i,
    {
        out.push(columns[i].name.clone());
        i += 1;
    }
    assert(out.deep_view() =~= column_names(columns@));
    out
}

/// The names of the result's columns: those of the projection under the operators that pass its rows
/// on; a set-returning function appends its own.
pub fn output_columns(s: &Shape) -> (r: Vec<String>)
    ensures
        r.deep_view() == names_of(*s),
    decreases *s,
{
    match &s.node {
        ShapeNode::Project { columns } => copy_names(columns),
        ShapeNode::ProjectSet { columns, appended, extra, .. } => {
            let mut out = copy_names(columns);
            let ghost head = out.deep_view();
            let n: usize = extra.len();
            let mut i: usize = 0;
            assert(out.deep_view() =~= head + Seq::new(0, |i: int| appended@));
            while i < n
                invariant
                    n == extra@.len(),
                    i <= n,
                    out.deep_view() == head + Seq::new(i as nat, |i: int| appended@),
                decreases n - i,
            {
                let ghost was = out.deep_view();
                out.push(appended.clone());
                assert(out.deep_view() =~= was.push(appended@));
                assert(out.deep_view() =~= head + Seq::new((i + 1) as nat, |i: int| appended@));
                i += 1;
            }
            out
        },
        ShapeNode::Limit | ShapeNode::Distinct | ShapeNode::LockRows => {
            if s.children.len() > 0 {
                assert(decreases_to!(*s => s.children));
                assert(decreases_to!(s.children => s.children[0]));
                output_columns(&s.children[0])
            } else {
                let out: Vec<String> = Vec::new();
                assert(out.deep_view() =~= Seq::<Seq<char>>::empty());
                out
            }
        },
        ShapeNode::With => {
            let n: usize = s.children.len();
            if n > 0 {
                assert(decreases_to!(*s => s.children));
                assert(decreases_to!(s.children => s.children[n - 1]));
                output_columns(&s.children[n - 1])
            } else {
                let out: Vec<String> = Vec::new();
                assert(out.deep_view() =~= Seq::<Seq<char>>::empty());
                out
            }
        },
        _ => {
            let out: Vec<String> = Vec::new();
            assert(out.deep_view() =~= Seq::<Seq<char>>::empty());
            out
        },
    }
}

/// The types of the result's columns, one for each name of `output_columns`.
pub fn output_column_types(s: &Shape) -> (r: Vec<ColumnType>)
    ensures
        r@ == types_of(*s),
    decreases *s,
{
    match &s.node {
        ShapeNode::Project { columns } => copy_types(columns),
        ShapeNode::ProjectSet { columns, extra, .. } => {
            let mut out = copy_types(columns);
            let ghost head = out@;
            let n: usize = extra.len();
            let mut i: usize = 0;
            assert(out@ =~= head + extra@.take(0));
            while i < n
                invariant
                    n == extra@.len(),
                    i <= n,
                    out@ == head + extra@.take(i as int),
                decreases n - i,
            {
                out.push(extra[i]);
                assert(out@ =~= head + extra@.take(i + 1));
                i += 1;
            }
            assert(extra@.take(n as int) =~= extra@);
            out
        },
        ShapeNode::Limit | ShapeNode::Distinct | ShapeNode::LockRows => {
            if s.children.len() > 0 {
                assert(decreases_to!(*s => s.children));
                assert(decreases_to!(s.children => s.children[0]));
                output_column_types(&s.children[0])
            } else {
                Vec::new()
            }
        },
        ShapeNode::With => {
            let n: usize = s.children.len();
            if n > 0 {
                assert(decreases_to!(*s => s.children));
                assert(decreases_to!(s.children => s.children[n - 1]));
                output_column_types(&s.children[n - 1])
            } else {
                Vec::new()
            }
        },
        _ => Vec::new(),
    }
}

fn copy_types(columns: &Vec<OutputColumn>) -> (r: Vec<ColumnType>)
    ensures
        r@ == column_types(columns@),
{
    let mut out: Vec<ColumnType> = Vec::new();
    let mut i: usize = 0;
    while i < columns.len()
        invariant
            i <= columns@.len(),
            out@.len() == i,
            forall|k: int| 0 <= k < i ==> #[trigger] out@[k] == columns@[k].ty,
        decreases columns@.len() - i,
    {
        out.push(columns[i].ty);
        i += 1;
    }
    assert(out@ =~= column_types(columns@));
    out
}

/// A result has as many column types as column names.
pub proof fn law_names_and_types_line_up(s: Shape)
    ensures
        names_of(s).len() == types_of(s).len(),
    decreases s,
{
    if let Some(i) = passes_on(s) {
        assert(decreases_to!(s => s.children));
        assert(decreases_to!(s.children => s.children@[i]));
        law_names_and_types_line_up(s.children@[i]);
    }
}

// ---------------------------------------------------------------- row estimates

/// The approximate number of rows of a table, where it is known.
pub open spec fn known_count(counts: Seq<(u64, u64)>, table: u64, i: nat) -> Option<u64>
    decreases counts.len() - i,
{
    if i >= counts.len() {
        None
    } else if counts[i as int].0 == table {
        Some(counts[i as int].1)
    } else {
        known_count(counts, table, i + 1)
    }
}

fn find_count(counts: &Vec<(u64, u64)>, table: u64) -> (r: Option<u64>)
    ensures
        r == known_count(counts@, table, 0),
{
    let mut i: usize = 0;
    while i < counts.len()
        invariant
            i <= counts@.len(),
            known_count(counts@, table, 0) == known_count(counts@, table, i as nat),
        decreases counts@.len() - i,
    {
        let c = counts[i];
        if c.0 == table {
            return Some(c.1);
        }
        i += 1;
    }
    None
}

/// How many of the children the walk for joins and scans goes into.
pub open spec fn walked(s: Shape) -> nat {
    match s.node {
        ShapeNode::HashJoin => if s.children@.len() < 2 {
            s.children@.len()
        } else {
            2
        },
        ShapeNode::Filter
        | ShapeNode::Project { .. }
        | ShapeNode::Sort
        | ShapeNode::Limit
        | ShapeNode::ScalarAggregate
        | ShapeNode::GroupAggregate => if s.children@.len() < 1 {
            0
        } else {
            1
        },
        _ => 0,
    }
}

/// A hash join is within reach of the walk.
pub open spec fn reaches_join(s: Shape) -> bool
    decreases s,
{
    s.node is HashJoin || (walked(s) >= 1 && reaches_join(s.children@[0])) || (walked(s) >= 2
        && reaches_join(s.children@[1]))
}

pub open spec fn max_of(a: u64, b: u64) -> u64 {
    if a < b {
        b
    } else {
        a
    }
}

/// The most rows of any table whose scan is within reach of the walk.
pub open spec fn most_rows(s: Shape, counts: Seq<(u64, u64)>) -> u64
    decreases s,
{
    let own = match s.node {
        ShapeNode::SeqScan { table, .. } => match known_count(counts, table, 0) {
            Some(n) => n,
            None => 0,
        },
        _ => 0,
    };
    let first = if walked(s) >= 1 {
        most_rows(s.children@[0], counts)
    } else {
        0
    };
    let second = if walked(s) >= 2 {
        most_rows(s.children@[1], counts)
    } else {
        0
    };
    max_of(own, max_of(first, second))
}

fn larger(a: u64, b: u64) -> (r: u64)
    ensures
        r == max_of(a, b),
{
    if a < b {
        b
    } else {
        a
    }
}

fn walk(s: &Shape, counts: &Vec<(u64, u64)>) -> (r: (bool, u64))
    ensures
        r.0 == reaches_join(*s),
        r.1 == most_rows(*s, counts@),
    decreases *s,
{
    let own: u64 = match &s.node {
        ShapeNode::SeqScan { table, .. } => match find_count(counts, *table) {
            Some(n) => n,
            None => 0,
        },
        _ => 0,
    };
    let (join, limit): (bool, usize) = match &s.node {
        ShapeNode::HashJoin => (true, 2),
        ShapeNode::Filter
        | ShapeNode::Project { .. }
        | ShapeNode::Sort
        | ShapeNode::Limit
        | ShapeNode::ScalarAggregate
        | ShapeNode::GroupAggregate => (false, 1),
        _ => (false, 0),
    };
    let n: usize = if s.children.len() < limit {
        s.children.len()
    } else {
        limit
    };
    assert(n == walked(*s));
    let mut found: bool = join;
    let mut first: u64 = 0;
    let mut second: u64 = 0;
    if n >= 1 {
        assert(decreases_to!(*s => s.children));
        assert(decreases_to!(s.children => s.children[0]));
        let (j, m) = walk(&s.children[0], counts);
        found = found || j;
        first = m;
    }
    if n >= 2 {
        assert(decreases_to!(*s => s.children));
        assert(decreases_to!(s.children => s.children[1]));
        let (j, m) = walk(&s.children[1], counts);
        found = found || j;
        second = m;
    }
    (found, larger(own, larger(first, second)))
}

/// An estimate of the rows that a plan with a join reads.
pub open spec fn join_estimate(s: Shape, counts: Seq<(u64, u64)>) -> Option<u64> {
    if reaches_join(s) && most_rows(s, counts) > 0 {
        Some(most_rows(s, counts))
    } else {
        None
    }
}

/// An estimate of the rows that a plan with a join reads: those of its largest table. None without a
/// join, or where no table's rows are known. `counts` are the approximate row counts of the tables.
pub fn join_scan_estimate(s: &Shape, counts: &Vec<(u64, u64)>) -> (r: Option<u64>)
    ensures
        r == join_estimate(*s, counts@),
{
    let (join, rows) = walk(s, counts);
    if join && rows > 0 {
        Some(rows)
    } else {
        None
    }
}

/// A plan is run in batches where that is forced, or where the estimate of the rows it reads, that of
/// its single table or else of its join, reaches `threshold`.
pub open spec fn batched(
    s: Shape,
    forced: bool,
    estimate: Option<u64>,
    counts: Seq<(u64, u64)>,
    threshold: u64,
) -> bool {
    forced || match estimate {
        Some(n) => n >= threshold,
        None => match join_estimate(s, counts) {
            Some(n) => n >= threshold,
            None => false,
        },
    }
}

/// Whether to try running a plan in batches.
pub fn route_select(
    s: &Shape,
    forced: bool,
    estimate: Option<u64>,
    counts: &Vec<(u64, u64)>,
    threshold: u64,
) -> (r: bool)
    ensures
        r == batched(*s, forced, estimate, counts@, threshold),
{
    if forced {
        return true;
    }
    let rows: Option<u64> = match estimate {
        Some(n) => Some(n),
        None => join_scan_estimate(s, counts),
    };
    match rows {
        Some(n) => n >= threshold,
        None => false,
    }
}

/// What came of running a plan in batches.
#[derive(Debug, PartialEq, Eq)]
pub enum BatchReply {
    Rows(Vec<Row>),
    /// The plan is not one that can be run in batches.
    Declined,
    Failed,
}

/// What to make of a try to run a plan in batches: its rows, held to the work-memory budget; `None`
/// where the plan is to be run row by row after all.
pub fn settle_batch(reply: BatchReply, budget: usize) -> (r: Result<Option<Vec<Row>>, Error>)
    ensures
        match reply {
            BatchReply::Rows(rows) => {
                let used = memory::clamp(memory::rows_size(rows.deep_view(), rows@.len()));
                if budget != 0 && used > budget {
                    r == Err::<Option<Vec<Row>>, Error>(
                        Error::OutOfMemory {
                            budget,
                            used,
                            stage: crate::error::Stage::Materialized,
                        },
                    )
                } else {
                    r == Ok::<Option<Vec<Row>>, Error>(Some(rows))
                }
            },
            _ => r == Ok::<Option<Vec<Row>>, Error>(None),
        },
{
    match reply {
        BatchReply::Rows(rows) => match enforce_work_mem(budget, &rows) {
            Ok(()) => Ok(Some(rows)),
            Err(e) => Err(e),
        },
        _ => Ok(None),
    }
}

// ---------------------------------------------------------------- grouping estimates

/// The scan whose rows the operator presents unchanged in layout.
pub open spec fn scan_beneath(s: Shape) -> Option<Shape>
    decreases s,
{
    match s.node {
        ShapeNode::SeqScan { .. } => Some(s),
        ShapeNode::Filter | ShapeNode::Sort | ShapeNode::Limit | ShapeNode::Distinct => if s.children@.len()
            > 0 {
            scan_beneath(s.children@[0])
        } else {
            None
        },
        _ => None,
    }
}

/// The scan whose rows the operator presents unchanged in layout; none where a row is reshaped on
/// the way.
pub fn layout_preserved_scan(s: &Shape) -> (r: Option<&Shape>)
    ensures
        match scan_beneath(*s) {
            Some(x) => r matches Some(y) && *y == x && x.node is SeqScan,
            None => r is None,
        },
    decreases *s,
{
    match &s.node {
        ShapeNode::SeqScan { .. } => Some(s),
        ShapeNode::Filter | ShapeNode::Sort | ShapeNode::Limit | ShapeNode::Distinct => {
            if s.children.len() > 0 {
                assert(decreases_to!(*s => s.children));
                assert(decreases_to!(s.children => s.children[0]));
                layout_preserved_scan(&s.children[0])
            } else {
                None
            }
        },
        _ => None,
    }
}

/// What is known of a column's values.
#[derive(Debug, PartialEq, Eq)]
pub struct ColumnSummary {
    pub column: String,
    pub distinct_count: u64,
    pub null_count: u64,
}

/// The bytes that one group is reckoned at.
pub const GROUP_STATE_BYTES: u64 = 360;

/// A number held to the largest there is.
pub open spec fn capped(n: int) -> u64 {
    if n > u64::MAX {
        u64::MAX
    } else {
        n as u64
    }
}

fn capped_product(a: u64, b: u64) -> (r: u64)
    ensures
        r == capped(a * b),
{
    proof {
        assert(0 <= a * b <= 0xFFFF_FFFF_FFFF_FFFF * 0xFFFF_FFFF_FFFF_FFFF) by (nonlinear_arith)
            requires
                0 <= a <= 0xFFFF_FFFF_FFFF_FFFF,
                0 <= b <= 0xFFFF_FFFF_FFFF_FFFF,
        ;
    }
    let p: u128 = (a as u128) * (b as u128);
    if p > u64::MAX as u128 {
        u64::MAX
    } else {
        p as u64
    }
}

/// The number of groups that a column makes: its different values, at least one, and NULL.
pub open spec fn column_groups(c: ColumnSummary) -> u64 {
    capped(
        max_of(c.distinct_count, 1) + if c.null_count > 0 {
            1int
        } else {
            0int
        },
    )
}

/// The summary of this column, from the `i`-th on.
pub open spec fn summary_from(stats: Seq<ColumnSummary>, name: Seq<char>, i: nat) -> Option<ColumnSummary>
    decreases stats.len() - i,
{
    if i >= stats.len() {
        None
    } else if stats[i as int].column@ == name {
        Some(stats[i as int])
    } else {
        summary_from(stats, name, i + 1)
    }
}

/// The name of the scan's column that a row has at `ordinal`.
pub open spec fn source_name(columns: Seq<String>, kept: Seq<usize>, ordinal: usize) -> Option<Seq<char>> {
    let source = if kept.len() == 0 {
        Some(ordinal)
    } else if ordinal < kept.len() {
        Some(kept[ordinal as int])
    } else {
        None
    };
    match source {
        Some(i) => if i < columns.len() {
            Some(columns[i as int]@)
        } else {
            None
        },
        None => None,
    }
}

/// The groups that the first `n` keys make. A key that is no bare column is `None`.
pub open spec fn groups(
    columns: Seq<String>,
    kept: Seq<usize>,
    keys: Seq<Option<usize>>,
    stats: Seq<ColumnSummary>,
    n: nat,
) -> Option<u64>
    decreases n,
{
    if n == 0 {
        Some(1)
    } else {
        match (groups(columns, kept, keys, stats, (n - 1) as nat), keys[n - 1]) {
            (Some(g), Some(ordinal)) => match source_name(columns, kept, ordinal) {
                Some(name) => match summary_from(stats, name, 0) {
                    Some(c) => Some(capped(g * column_groups(c))),
                    None => None,
                },
                None => None,
            },
            _ => None,
        }
    }
}

/// The bytes that grouping the input by these keys is estimated to take in memory.
pub open spec fn group_state(input: Shape, keys: Seq<Option<usize>>, stats: Option<Seq<ColumnSummary>>) -> Option<
    u64,
> {
    match (scan_beneath(input), stats) {
        (Some(scan), Some(stats)) => match groups(
            scan.node->source@,
            scan.node->kept@,
            keys,
            stats,
            keys.len(),
        ) {
            Some(g) => Some(capped(g * GROUP_STATE_BYTES)),
            None => None,
        },
        _ => None,
    }
}

fn find_summary<'a>(stats: &'a Vec<ColumnSummary>, name: &str) -> (r: Option<&'a ColumnSummary>)
    ensures
        match summary_from(stats@, name@, 0) {
            Some(c) => r matches Some(x) && *x == c,
            None => r is None,
        },
{
    let mut i: usize = 0;
    while i < stats.len()
        invariant
            i <= stats@.len(),
            summary_from(stats@, name@, 0) == summary_from(stats@, name@, i as nat),
        decreases stats@.len() - i,
    {
        if same_text(stats[i].column.as_str(), name) {
            return Some(&stats[i]);
        }
        i += 1;
    }
    None
}

fn find_source<'a>(source: &'a Vec<String>, kept: &Vec<usize>, ordinal: usize) -> (r: Option<&'a String>)
    ensures
        match source_name(source@, kept@, ordinal) {
            Some(name) => r matches Some(x) && x@ == name,
            None => r is None,
        },
{
    let at: usize = if kept.len() == 0 {
        ordinal
    } else if ordinal < kept.len() {
        kept[ordinal]
    } else {
        return None;
    };
    if at < source.len() {
        Some(&source[at])
    } else {
        None
    }
}

proof fn lemma_groups_none(
    source: Seq<String>,
    kept: Seq<usize>,
    keys: Seq<Option<usize>>,
    stats: Seq<ColumnSummary>,
    k: nat,
    n: nat,
)
    requires
        k <= n,
        groups(source, kept, keys, stats, k) is None,
    ensures
        groups(source, kept, keys, stats, n) is None,
    decreases n - k,
{
    if k < n {
        lemma_groups_none(source, kept, keys, stats, k + 1, n);
    }
}

fn count_groups(
    source: &Vec<String>,
    kept: &Vec<usize>,
    keys: &Vec<Option<usize>>,
    stats: &Vec<ColumnSummary>,
) -> (r: Option<u64>)
    ensures
        r == groups(source@, kept@, keys@, stats@, keys@.len()),
{
    let n: usize = keys.len();
    let mut g: u64 = 1;
    let mut i: usize = 0;
    while i < n
        invariant
            n == keys@.len(),
            i <= n,
            groups(source@, kept@, keys@, stats@, i as nat) == Some(g),
        decreases n - i,
    {
        let made: Option<u64> = match keys[i] {
            Some(ordinal) => match find_source(source, kept, ordinal) {
                Some(name) => match find_summary(stats, name.as_str()) {
                    Some(c) => {
                        let distinct: u64 = larger(c.distinct_count, 1);
                        if c.null_count > 0 && distinct < u64::MAX {
                            Some(distinct + 1)
                        } else {
                            Some(distinct)
                        }
                    },
                    None => None,
                },
                None => None,
            },
            None => None,
        };
        match made {
            Some(m) => {
                g = capped_product(g, m);
            },
            None => {
                proof {
                    lemma_groups_none(source@, kept@, keys@, stats@, (i + 1) as nat, n as nat);
                }
                return None;
            },
        }
        i += 1;
    }
    Some(g)
}

/// The bytes that grouping the input by these keys is estimated to take in memory: the product of the
/// keys' groups, at a fixed size each. None where the input's rows are not laid out as a table's, the
/// table has no statistics, or a key is no bare column of it.
pub fn estimated_group_state_bytes(
    input: &Shape,
    keys: &Vec<Option<usize>>,
    stats: Option<&Vec<ColumnSummary>>,
) -> (r: Option<u64>)
    ensures
        r == group_state(
            *input,
            keys@,
            match stats {
                Some(s) => Some(s@),
                None => None,
            },
        ),
{
    let scan = match layout_preserved_scan(input) {
        Some(s) => s,
        None => {
            return None;
        },
    };
    let stats: &Vec<ColumnSummary> = match stats {
        Some(s) => s,
        None => {
            return None;
        },
    };
    match &scan.node {
        ShapeNode::SeqScan { source, kept, .. } => match count_groups(source, kept, keys, stats) {
            Some(g) => Some(capped_product(g, GROUP_STATE_BYTES)),
            None => None,
        },
        _ => None,
    }
}

// ---------------------------------------------------------------- literal series

/// The series that the operator is, where it is a series of integers with literal bounds and step and
/// nothing else.
pub open spec fn literal_series(s: Shape) -> Option<IntSeries> {
    match s.node {
        ShapeNode::ProjectSet { columns, ordinality: false, series: Some(args), .. } => {
            let a = args@;
            if s.children@.len() == 1 && s.children@[0].node is OneRow && columns@.len() == 1 && (
            a.len() == 2 || a.len() == 3) && (forall|i: int|
                0 <= i < a.len() ==> (#[trigger] a[i]) is Some) && (a.len() == 3 ==> a[2] != Some(0i64)) {
                Some(
                    IntSeries {
                        start: a[0].unwrap(),
                        stop: a[1].unwrap(),
                        step: if a.len() == 3 {
                            a[2].unwrap()
                        } else {
                            1
                        },
                    },
                )
            } else {
                None
            }
        },
        _ => None,
    }
}

/// The series that the operator is, where it is a series of integers with literal bounds and a
/// literal step, not zero, and nothing else.
pub fn lazy_int_series(s: &Shape) -> (r: Option<IntSeries>)
    ensures
        r == literal_series(*s),
{
    match &s.node {
        ShapeNode::ProjectSet { columns, ordinality, series: Some(args), .. } => {
            if *ordinality || s.children.len() != 1 || columns.len() != 1 {
                return None;
            }
            let over_one_row: bool = match &s.children[0].node {
                ShapeNode::OneRow => true,
                _ => false,
            };
            let n: usize = args.len();
            if !over_one_row || (n != 2 && n != 3) {
                return None;
            }
            let start: i64 = match args[0] {
                Some(v) => v,
                None => {
                    return None;
                },
            };
            let stop: i64 = match args[1] {
                Some(v) => v,
                None => {
                    return None;
                },
            };
            let step: i64 = if n == 3 {
                match args[2] {
                    Some(v) => v,
                    None => {
                        return None;
                    },
                }
            } else {
                1
            };
            if step == 0 {
                return None;
            }
            Some(IntSeries { start, stop, step })
        },
        _ => None,
    }
}

} // verus!
