//! What set operations give.
use vstd::prelude::*;
use crate::order;
use crate::order::ValueOrder;
use crate::setops;
use crate::setops::{Rows, SetOp, SetTree};
use crate::value::ValueView;

verus! {

/// How often a row is among others counts each row that is not distinct from it.
pub proof fn law_rows_are_counted_by_group<O: ValueOrder>(
    o: &O,
    rows: Rows,
    row: Seq<ValueView>,
    v: Seq<ValueView>,
)
    ensures
        setops::count(o, Seq::empty(), v) == 0,
        order::same_group(o, row, v) ==> setops::count(o, rows.push(row), v) == setops::count(o, rows, v) + 1,
        !order::same_group(o, row, v) ==> setops::count(o, rows.push(row), v) == setops::count(o, rows, v),
{
    assert(rows.push(row).drop_last() =~= rows);
}

/// How often a row is in the result, given how often it is on each side. `UNION ALL` adds, `INTERSECT ALL`
/// takes the lesser, and `EXCEPT ALL` takes away. Without `ALL` a row is there once: if it is on either
/// side, on both, or on the left alone.
pub proof fn law_set_operations_by_count<O: ValueOrder>(o: &O, left: Rows, right: Rows, v: Seq<ValueView>)
    ensures
        ({
            let l = setops::count(o, left, v) as int;
            let r = setops::count(o, right, v) as int;
            let times = |op: SetOp, all: bool|
                setops::count(o, setops::combined(o, op, all, left, right), v) as int;
            &&& times(SetOp::Union, true) == l + r
            &&& times(SetOp::Union, false) == if l > 0 || r > 0 {
                1int
            } else {
                0
            }
            &&& times(SetOp::Intersect, true) == if l < r {
                l
            } else {
                r
            }
            &&& times(SetOp::Intersect, false) == if l > 0 && r > 0 {
                1int
            } else {
                0
            }
            &&& times(SetOp::Except, true) == if l > r {
                l - r
            } else {
                0
            }
            &&& times(SetOp::Except, false) == if l > 0 && r == 0 {
                1int
            } else {
                0
            }
        }),
{
    setops::law_set_operation_counts(o, SetOp::Union, true, left, right, v);
    setops::law_set_operation_counts(o, SetOp::Union, false, left, right, v);
    setops::law_set_operation_counts(o, SetOp::Intersect, true, left, right, v);
    setops::law_set_operation_counts(o, SetOp::Intersect, false, left, right, v);
    setops::law_set_operation_counts(o, SetOp::Except, true, left, right, v);
    setops::law_set_operation_counts(o, SetOp::Except, false, left, right, v);
}

/// One of the rows is not distinct from `v`.
pub open spec fn one_like<O: ValueOrder>(o: &O, rows: Rows, v: Seq<ValueView>) -> bool {
    exists|i: int| 0 <= i < rows.len() && order::same_group(o, #[trigger] rows[i], v)
}

/// `DISTINCT` keeps the first of the rows that are not distinct from each other, and keeps the rows in
/// order: a row is dropped exactly if one like it came before.
pub proof fn law_distinct_keeps_the_first<O: ValueOrder>(o: &O, rows: Rows, row: Seq<ValueView>)
    ensures
        setops::distinct(o, Seq::empty()) == Rows::empty(),
        one_like(o, rows, row) ==> setops::distinct(o, rows.push(row)) == setops::distinct(o, rows),
        !one_like(o, rows, row) ==> setops::distinct(o, rows.push(row)) == setops::distinct(o, rows).push(row),
{
    assert(rows.push(row).drop_last() =~= rows);
    lemma_distinct_has(o, rows, row);
}

proof fn lemma_distinct_has<O: ValueOrder>(o: &O, rows: Rows, v: Seq<ValueView>)
    ensures
        one_like(o, rows, v) <==> setops::member(o, setops::distinct(o, rows), v),
    decreases rows.len(),
{
    let kept = setops::distinct(o, rows);
    if rows.len() > 0 {
        let head = rows.drop_last();
        let last = rows.last();
        lemma_distinct_has(o, head, v);
        lemma_distinct_has(o, head, last);
        let before = setops::distinct(o, head);
        if one_like(o, head, v) {
            let i = choose|i: int| 0 <= i < head.len() && order::same_group(o, #[trigger] head[i], v);
            assert(order::same_group(o, rows[i], v));
        }
        if setops::member(o, before, v) {
            let i = choose|i: int| 0 <= i < before.len() && order::same_group(o, #[trigger] before[i], v);
            assert(kept[i] == before[i]);
            assert(order::same_group(o, kept[i], v));
        }
        if order::same_group(o, last, v) {
            assert(order::same_group(o, rows[rows.len() - 1], v));
            if setops::member(o, before, last) {
                let i = choose|i: int|
                    0 <= i < before.len() && order::same_group(o, #[trigger] before[i], last);
                order::law_grouping_is_equivalence(o, before[i], last, v);
                assert(order::same_group(o, kept[i], v));
            } else {
                assert(order::same_group(o, kept[kept.len() - 1], v));
            }
        }
        if one_like(o, rows, v) && !one_like(o, head, v) {
            let i = choose|i: int| 0 <= i < rows.len() && order::same_group(o, #[trigger] rows[i], v);
            if i < head.len() {
                assert(order::same_group(o, head[i], v));
            }
            assert(order::same_group(o, last, v));
        }
        if setops::member(o, kept, v) && !setops::member(o, before, v) {
            let i = choose|i: int| 0 <= i < kept.len() && order::same_group(o, #[trigger] kept[i], v);
            if i < before.len() {
                assert(order::same_group(o, before[i], v));
            }
            assert(order::same_group(o, last, v));
        }
    }
}

/// `UNION ALL` gives the left rows and then the right rows, and `UNION` the same without those that one
/// like came before.
pub proof fn law_unions_give_the_left_side_first<O: ValueOrder>(o: &O, left: Rows, right: Rows)
    ensures
        setops::combined(o, SetOp::Union, true, left, right) == left + right,
        setops::combined(o, SetOp::Union, false, left, right) == setops::distinct(o, left + right),
{
}

/// `INTERSECT ALL` and `EXCEPT ALL` take the left rows in turn: the one keeps a row while fewer like it
/// came before than the right side has, and the other keeps it from there on.
pub proof fn law_left_rows_are_taken_in_turn<O: ValueOrder>(
    o: &O,
    left: Rows,
    right: Rows,
    row: Seq<ValueView>,
)
    ensures
        ({
            let more = setops::count(o, left, row) < setops::count(o, right, row);
            let both = setops::combined(o, SetOp::Intersect, true, left, right);
            let only = setops::combined(o, SetOp::Except, true, left, right);
            &&& setops::combined(o, SetOp::Intersect, true, left.push(row), right) == if more {
                both.push(row)
            } else {
                both
            }
            &&& setops::combined(o, SetOp::Except, true, left.push(row), right) == if more {
                only
            } else {
                only.push(row)
            }
            &&& setops::combined(o, SetOp::Intersect, true, Seq::empty(), right) == Rows::empty()
            &&& setops::combined(o, SetOp::Except, true, Seq::empty(), right) == Rows::empty()
        }),
{
    assert(left.push(row).drop_last() =~= left);
}

/// `INTERSECT` and `EXCEPT` give the distinct left rows in order: the one those that the right side has,
/// and the other those that it lacks.
pub proof fn law_distinct_left_rows_are_taken_in_turn<O: ValueOrder>(
    o: &O,
    left: Rows,
    right: Rows,
    row: Seq<ValueView>,
)
    ensures
        ({
            let both = setops::combined(o, SetOp::Intersect, false, left, right);
            let only = setops::combined(o, SetOp::Except, false, left, right);
            &&& setops::combined(o, SetOp::Intersect, false, left.push(row), right) == if !one_like(o, left, row)
                && one_like(o, right, row) {
                both.push(row)
            } else {
                both
            }
            &&& setops::combined(o, SetOp::Except, false, left.push(row), right) == if !one_like(o, left, row)
                && !one_like(o, right, row) {
                only.push(row)
            } else {
                only
            }
            &&& setops::combined(o, SetOp::Intersect, false, Seq::empty(), right) == Rows::empty()
            &&& setops::combined(o, SetOp::Except, false, Seq::empty(), right) == Rows::empty()
        }),
{
    law_distinct_keeps_the_first(o, left, row);
    let d = setops::distinct(o, left);
    assert(d.push(row).drop_last() =~= d);
}

/// A tree of set operations combines the rows of its left side with those of its right side.
pub proof fn law_trees_combine_left_with_right<O: ValueOrder>(
    o: &O,
    op: SetOp,
    all: bool,
    left: SetTree,
    right: SetTree,
    i: usize,
    inputs: Seq<Rows>,
)
    ensures
        setops::tree_rows(o, SetTree::Leaf(i), inputs) == inputs[i as int],
        setops::tree_rows(
            o,
            SetTree::Node { op, all, left: Box::new(left), right: Box::new(right) },
            inputs,
        ) == setops::combined(
            o,
            op,
            all,
            setops::tree_rows(o, left, inputs),
            setops::tree_rows(o, right, inputs),
        ),
{
}

/// A limit keeps the first rows, no more than it says.
pub proof fn law_limit_keeps_the_first(rows: Rows, n: u64)
    ensures
        setops::limited(rows, None) == rows,
        n >= rows.len() ==> setops::limited(rows, Some(n)) == rows,
        n < rows.len() ==> setops::limited(rows, Some(n)).len() == n && forall|i: int|
            0 <= i < n ==> #[trigger] setops::limited(rows, Some(n))[i] == rows[i],
{
}

} // verus!
