//! Set operations on rows.
use vstd::prelude::*;
use vstd::utf8::*;
use crate::order;
use crate::order::{SortKey, ValueOrder};
use crate::sort;
use crate::value::{Row, Value, ValueView};

pub mod meaning;

verus! {

/// What a list of rows holds.
pub type Rows = Seq<Seq<ValueView>>;

#[derive(Clone, Copy, Debug, PartialEq, Eq, Structural)]
pub enum SetOp {
    Union,
    Intersect,
    Except,
}

/// How many of `rows` are of one group with `v`.
pub open spec fn count<O: ValueOrder>(o: &O, rows: Rows, v: Seq<ValueView>) -> nat
    decreases rows.len(),
{
    if rows.len() == 0 {
        0
    } else {
        count(o, rows.drop_last(), v) + if order::same_group(o, rows.last(), v) {
            1nat
        } else {
            0nat
        }
    }
}

/// One of `rows` is of one group with `v`.
pub open spec fn member<O: ValueOrder>(o: &O, rows: Rows, v: Seq<ValueView>) -> bool {
    exists|i: int| 0 <= i < rows.len() && order::same_group(o, #[trigger] rows[i], v)
}

/// The first row of each group, in order.
pub open spec fn distinct<O: ValueOrder>(o: &O, rows: Rows) -> Rows
    decreases rows.len(),
{
    if rows.len() == 0 {
        Seq::empty()
    } else {
        let head = distinct(o, rows.drop_last());
        if member(o, head, rows.last()) {
            head
        } else {
            head.push(rows.last())
        }
    }
}

/// The rows of `left` that are, or with `keep_present` off are not, of a group with one of `right`.
pub open spec fn by_membership<O: ValueOrder>(o: &O, left: Rows, right: Rows, keep_present: bool) -> Rows
    decreases left.len(),
{
    if left.len() == 0 {
        Seq::empty()
    } else {
        let head = by_membership(o, left.drop_last(), right, keep_present);
        if member(o, right, left.last()) == keep_present {
            head.push(left.last())
        } else {
            head
        }
    }
}

/// The rows of `left` that find, or with `keep_matched` off do not find, a partner of their group in
/// `right` that no earlier row has taken.
pub open spec fn by_matching<O: ValueOrder>(o: &O, left: Rows, right: Rows, keep_matched: bool) -> Rows
    decreases left.len(),
{
    if left.len() == 0 {
        Seq::empty()
    } else {
        let init = left.drop_last();
        let head = by_matching(o, init, right, keep_matched);
        let matched = count(o, init, left.last()) < count(o, right, left.last());
        if matched == keep_matched {
            head.push(left.last())
        } else {
            head
        }
    }
}

/// What a set operator makes of two row sets.
pub open spec fn combined<O: ValueOrder>(o: &O, op: SetOp, all: bool, left: Rows, right: Rows) -> Rows {
    match op {
        SetOp::Union => if all {
            left + right
        } else {
            distinct(o, left + right)
        },
        SetOp::Intersect => if all {
            by_matching(o, left, right, true)
        } else {
            by_membership(o, distinct(o, left), right, true)
        },
        SetOp::Except => if all {
            by_matching(o, left, right, false)
        } else {
            by_membership(o, distinct(o, left), right, false)
        },
    }
}

// ---------------------------------------------------------------- counting

pub proof fn lemma_count_member<O: ValueOrder>(o: &O, rows: Rows, v: Seq<ValueView>)
    ensures
        count(o, rows, v) > 0 <==> member(o, rows, v),
    decreases rows.len(),
{
    if rows.len() > 0 {
        let init = rows.drop_last();
        lemma_count_member(o, init, v);
        if member(o, init, v) {
            let i = choose|i: int| 0 <= i < init.len() && order::same_group(o, #[trigger] init[i], v);
            assert(rows[i] == init[i]);
        }
        if member(o, rows, v) {
            let i = choose|i: int| 0 <= i < rows.len() && order::same_group(o, #[trigger] rows[i], v);
            if i < init.len() {
                assert(init[i] == rows[i]);
            }
        }
        if order::same_group(o, rows.last(), v) {
            assert(order::same_group(o, rows[rows.len() - 1], v));
        }
    }
}

pub proof fn lemma_count_push<O: ValueOrder>(o: &O, rows: Rows, r: Seq<ValueView>, v: Seq<ValueView>)
    ensures
        count(o, rows.push(r), v) == count(o, rows, v) + if order::same_group(o, r, v) {
            1nat
        } else {
            0nat
        },
{
    assert(rows.push(r).drop_last() =~= rows);
}

pub proof fn lemma_count_concat<O: ValueOrder>(o: &O, a: Rows, b: Rows, v: Seq<ValueView>)
    ensures
        count(o, a + b, v) == count(o, a, v) + count(o, b, v),
    decreases b.len(),
{
    if b.len() == 0 {
        assert(a + b =~= a);
    } else {
        lemma_count_concat(o, a, b.drop_last(), v);
        assert((a + b).drop_last() =~= a + b.drop_last());
        assert((a + b).last() == b.last());
    }
}

/// Rows of one group are counted alike.
pub proof fn lemma_count_group<O: ValueOrder>(
    o: &O,
    rows: Rows,
    v: Seq<ValueView>,
    w: Seq<ValueView>,
)
    requires
        order::same_group(o, v, w),
    ensures
        count(o, rows, v) == count(o, rows, w),
    decreases rows.len(),
{
    if rows.len() > 0 {
        lemma_count_group(o, rows.drop_last(), v, w);
        order::law_grouping_is_equivalence(o, rows.last(), v, w);
        order::law_grouping_is_equivalence(o, v, w, rows.last());
        order::law_grouping_is_equivalence(o, rows.last(), w, v);
    }
}

proof fn lemma_distinct_counts<O: ValueOrder>(o: &O, rows: Rows, v: Seq<ValueView>)
    ensures
        count(o, distinct(o, rows), v) == if count(o, rows, v) > 0 {
            1nat
        } else {
            0nat
        },
    decreases rows.len(),
{
    if rows.len() > 0 {
        let init = rows.drop_last();
        let head = distinct(o, init);
        let last = rows.last();
        lemma_distinct_counts(o, init, v);
        lemma_distinct_counts(o, init, last);
        lemma_count_member(o, head, last);
        lemma_count_push(o, head, last, v);
        if order::same_group(o, last, v) {
            lemma_count_group(o, head, last, v);
            lemma_count_group(o, init, last, v);
        }
    }
}

proof fn lemma_membership_counts<O: ValueOrder>(
    o: &O,
    left: Rows,
    right: Rows,
    keep: bool,
    v: Seq<ValueView>,
)
    ensures
        count(o, by_membership(o, left, right, keep), v) == if (count(o, right, v) > 0) == keep {
            count(o, left, v)
        } else {
            0
        },
    decreases left.len(),
{
    if left.len() > 0 {
        let init = left.drop_last();
        let last = left.last();
        lemma_membership_counts(o, init, right, keep, v);
        lemma_count_push(o, by_membership(o, init, right, keep), last, v);
        lemma_count_member(o, right, last);
        if order::same_group(o, last, v) {
            lemma_count_group(o, right, last, v);
        }
    }
}

proof fn lemma_matching_counts<O: ValueOrder>(
    o: &O,
    left: Rows,
    right: Rows,
    keep: bool,
    v: Seq<ValueView>,
)
    ensures
        count(o, by_matching(o, left, right, keep), v) == if keep {
            smaller(count(o, left, v), count(o, right, v))
        } else {
            (count(o, left, v) - smaller(count(o, left, v), count(o, right, v))) as nat
        },
    decreases left.len(),
{
    if left.len() > 0 {
        let init = left.drop_last();
        let last = left.last();
        lemma_matching_counts(o, init, right, keep, v);
        lemma_count_push(o, by_matching(o, init, right, keep), last, v);
        if order::same_group(o, last, v) {
            lemma_count_group(o, right, last, v);
            lemma_count_group(o, init, last, v);
        }
    }
}

pub open spec fn smaller(a: nat, b: nat) -> nat {
    if a <= b {
        a
    } else {
        b
    }
}

/// How often a group occurs in what an operator makes of two row sets in which it occurs `l` and `r`
/// times.
pub open spec fn combined_count(op: SetOp, all: bool, l: nat, r: nat) -> nat {
    match (op, all) {
        (SetOp::Union, true) => l + r,
        (SetOp::Union, false) => if l + r > 0 {
            1
        } else {
            0
        },
        (SetOp::Intersect, true) => smaller(l, r),
        (SetOp::Intersect, false) => if l > 0 && r > 0 {
            1
        } else {
            0
        },
        (SetOp::Except, true) => (l - smaller(l, r)) as nat,
        (SetOp::Except, false) => if l > 0 && r == 0 {
            1
        } else {
            0
        },
    }
}

/// The set operations count as SQL has it: `UNION ALL` adds, `INTERSECT ALL` takes the smaller
/// count, `EXCEPT ALL` subtracts, and without `ALL` each group occurs at most once.
pub proof fn law_set_operation_counts<O: ValueOrder>(
    o: &O,
    op: SetOp,
    all: bool,
    left: Rows,
    right: Rows,
    v: Seq<ValueView>,
)
    ensures
        count(o, combined(o, op, all, left, right), v) == combined_count(
            op,
            all,
            count(o, left, v),
            count(o, right, v),
        ),
{
    match op {
        SetOp::Union => {
            lemma_count_concat(o, left, right, v);
            lemma_distinct_counts(o, left + right, v);
        },
        SetOp::Intersect | SetOp::Except => {
            let keep = op is Intersect;
            lemma_matching_counts(o, left, right, keep, v);
            lemma_distinct_counts(o, left, v);
            lemma_membership_counts(o, distinct(o, left), right, keep, v);
        },
    }
}

/// No two of the distinct rows are of one group, and every row has one of its group among them.
pub proof fn law_distinct_rows_are_distinct<O: ValueOrder>(o: &O, rows: Rows)
    ensures
        forall|i: int, j: int|
            0 <= i < j < distinct(o, rows).len() ==> !order::same_group(
                o,
                #[trigger] distinct(o, rows)[i],
                #[trigger] distinct(o, rows)[j],
            ),
        forall|i: int| 0 <= i < rows.len() ==> member(o, distinct(o, rows), #[trigger] rows[i]),
    decreases rows.len(),
{
    if rows.len() > 0 {
        let init = rows.drop_last();
        let head = distinct(o, init);
        let d = distinct(o, rows);
        law_distinct_rows_are_distinct(o, init);
        assert forall|i: int, j: int| 0 <= i < j < d.len() implies !order::same_group(
            o,
            #[trigger] d[i],
            #[trigger] d[j],
        ) by {
            if j < head.len() {
                assert(d[i] == head[i] && d[j] == head[j]);
            } else {
                assert(d[i] == head[i] && d[j] == rows.last());
                if order::same_group(o, d[i], d[j]) {
                    assert(member(o, head, rows.last()));
                }
            }
        }
        assert forall|i: int| 0 <= i < rows.len() implies member(o, d, #[trigger] rows[i]) by {
            if i < init.len() {
                assert(rows[i] == init[i]);
                assert(member(o, head, init[i]));
                let k = choose|k: int|
                    0 <= k < head.len() && order::same_group(o, #[trigger] head[k], init[i]);
                assert(d[k] == head[k]);
            } else if !member(o, head, rows.last()) {
                order::law_grouping_is_equivalence(o, rows.last(), rows.last(), rows.last());
                assert(order::same_group(o, d[head.len() as int], rows.last()));
            }
        }
    }
}

// ---------------------------------------------------------------- the operators

pub(crate) fn contains_row<O: ValueOrder>(o: &O, rows: &Vec<Row>, row: &Row) -> (r: bool)
    ensures
        r == member(o, rows.deep_view(), row.deep_view()),
{
    let ghost view = rows.deep_view();
    let mut i: usize = 0;
    while i < rows.len()
        invariant
            view == rows.deep_view(),
            i <= rows@.len(),
            forall|k: int| 0 <= k < i ==> !order::same_group(o, #[trigger] view[k], row.deep_view()),
        decreases rows@.len() - i,
    {
        assert(view[i as int] == rows@[i as int].deep_view());
        if order::group_keys_equal(o, &rows[i], row) {
            return true;
        }
        i += 1;
    }
    false
}

/// The first row of each group, in order.
pub fn dedupe_rows<O: ValueOrder>(o: &O, rows: Vec<Row>) -> (r: Vec<Row>)
    ensures
        r.deep_view() == distinct(o, rows.deep_view()),
{
    let ghost all = rows@;
    let ghost view = rows.deep_view();
    let mut out: Vec<Row> = Vec::new();
    assert(out.deep_view() =~= distinct(o, view.take(0)));
    for row in it: rows
        invariant
            it.seq() == all,
            view.len() == all.len(),
            forall|i: int| 0 <= i < all.len() ==> view[i] == (#[trigger] all[i]).deep_view(),
            out.deep_view() == distinct(o, view.take(it.index())),
    {
        let ghost k = it.index();
        let ghost before = out.deep_view();
        assert(view.take(k + 1).drop_last() =~= view.take(k));
        assert(view.take(k + 1).last() == row.deep_view());
        if !contains_row(o, &out, &row) {
            out.push(row);
            assert(out.deep_view() =~= before.push(row.deep_view()));
        }
    }
    assert(view.take(view.len() as int) =~= view);
    out
}

/// The rows of `left` that are, or with `keep_present` off are not, of a group with one of `right`.
pub fn filter_by_membership<O: ValueOrder>(
    o: &O,
    left: Vec<Row>,
    right: &Vec<Row>,
    keep_present: bool,
) -> (r: Vec<Row>)
    ensures
        r.deep_view() == by_membership(o, left.deep_view(), right.deep_view(), keep_present),
{
    let ghost all = left@;
    let ghost view = left.deep_view();
    let mut out: Vec<Row> = Vec::new();
    assert(out.deep_view() =~= by_membership(o, view.take(0), right.deep_view(), keep_present));
    for row in it: left
        invariant
            it.seq() == all,
            view.len() == all.len(),
            forall|i: int| 0 <= i < all.len() ==> view[i] == (#[trigger] all[i]).deep_view(),
            out.deep_view() == by_membership(
                o,
                view.take(it.index()),
                right.deep_view(),
                keep_present,
            ),
    {
        let ghost k = it.index();
        let ghost before = out.deep_view();
        assert(view.take(k + 1).drop_last() =~= view.take(k));
        assert(view.take(k + 1).last() == row.deep_view());
        if contains_row(o, right, &row) == keep_present {
            out.push(row);
            assert(out.deep_view() =~= before.push(row.deep_view()));
        }
    }
    assert(view.take(view.len() as int) =~= view);
    out
}

/// The place in `reps` of the group of `row`.
fn find_group<O: ValueOrder>(o: &O, rows: &Vec<Row>, reps: &Vec<usize>, row: &Row) -> (r: Option<usize>)
    requires
        forall|a: int| 0 <= a < reps@.len() ==> #[trigger] reps@[a] < rows@.len(),
    ensures
        match r {
            Some(e) => e < reps@.len() && order::same_group(
                o,
                rows.deep_view()[reps@[e as int] as int],
                row.deep_view(),
            ),
            None => forall|e: int|
                0 <= e < reps@.len() ==> !order::same_group(
                    o,
                    rows.deep_view()[#[trigger] reps@[e] as int],
                    row.deep_view(),
                ),
        },
{
    let mut e: usize = 0;
    while e < reps.len()
        invariant
            e <= reps@.len(),
            forall|a: int| 0 <= a < reps@.len() ==> #[trigger] reps@[a] < rows@.len(),
            forall|k: int|
                0 <= k < e ==> !order::same_group(
                    o,
                    rows.deep_view()[#[trigger] reps@[k] as int],
                    row.deep_view(),
                ),
        decreases reps@.len() - e,
    {
        let p: usize = reps[e];
        assert(rows.deep_view()[p as int] == rows@[p as int].deep_view());
        if order::group_keys_equal(o, &rows[p], row) {
            return Some(e);
        }
        e += 1;
    }
    None
}

/// The groups are told apart: no two of `reps` are of one group.
spec fn apart<O: ValueOrder>(o: &O, rows: Rows, reps: Seq<usize>) -> bool {
    forall|a: int, b: int|
        0 <= a < b < reps.len() ==> !order::same_group(
            o,
            rows[#[trigger] reps[a] as int],
            rows[#[trigger] reps[b] as int],
        )
}

/// The group of the row at `k` has a place in `reps`.
spec fn represented<O: ValueOrder>(o: &O, rows: Rows, reps: Seq<usize>, k: int) -> bool {
    exists|a: int|
        0 <= a < reps.len() && order::same_group(o, rows[#[trigger] reps[a] as int], rows[k])
}

/// The rows of `left` that find, or with `keep_matched` off do not find, a partner of their group in
/// `right` that no earlier row has taken.
#[verifier::spinoff_prover]
pub fn consume_matching<O: ValueOrder>(
    o: &O,
    left: Vec<Row>,
    right: &Vec<Row>,
    keep_matched: bool,
) -> (r: Vec<Row>)
    ensures
        r.deep_view() == by_matching(o, left.deep_view(), right.deep_view(), keep_matched),
{
    let ghost rv = right.deep_view();
    let mut reps: Vec<usize> = Vec::new();
    let mut left_over: Vec<usize> = Vec::new();
    let mut i: usize = 0;
    while i < right.len()
        invariant
            rv == right.deep_view(),
            i <= right@.len(),
            reps@.len() == left_over@.len(),
            forall|a: int| 0 <= a < reps@.len() ==> #[trigger] reps@[a] < i,
            apart(o, rv, reps@),
            forall|a: int|
                0 <= a < reps@.len() ==> left_over@[a] == count(
                    o,
                    rv.take(i as int),
                    rv[#[trigger] reps@[a] as int],
                ) && left_over@[a] <= i,
            forall|k: int| 0 <= k < i ==> #[trigger] represented(o, rv, reps@, k),
        decreases right@.len() - i,
    {
        let ghost x = rv[i as int];
        let ghost seen = rv.take(i as int);
        let ghost next = rv.take(i + 1);
        let ghost reps0 = reps@;
        let ghost over0 = left_over@;
        proof {
            assert(x == right@[i as int].deep_view());
            assert(next =~= seen.push(x));
        }
        match find_group(o, right, &reps, &right[i]) {
            Some(e) => {
                let n: usize = left_over[e];
                left_over[e] = n + 1;
                proof {
                    assert forall|a: int| 0 <= a < reps@.len() implies left_over@[a] == count(
                        o,
                        next,
                        rv[#[trigger] reps@[a] as int],
                    ) && left_over@[a] <= i + 1 by {
                        let g = rv[reps@[a] as int];
                        lemma_count_push(o, seen, x, g);
                        let h = rv[reps@[e as int] as int];
                        order::law_grouping_is_equivalence(o, h, x, g);
                        order::law_grouping_is_equivalence(o, x, g, h);
                        order::law_grouping_is_equivalence(o, g, x, h);
                        if a != e {
                            if a < e {
                                assert(!order::same_group(o, g, h));
                            } else {
                                assert(!order::same_group(o, h, g));
                            }
                        }
                    }
                    assert forall|k: int| 0 <= k < i + 1 implies #[trigger] represented(
                        o,
                        rv,
                        reps@,
                        k,
                    ) by {
                        if k == i {
                            assert(order::same_group(o, rv[reps@[e as int] as int], rv[k]));
                        }
                    }
                }
            },
            None => {
                reps.push(i);
                left_over.push(1);
                proof {
                    assert(count(o, seen, x) == 0) by {
                        lemma_count_member(o, seen, x);
                        if member(o, seen, x) {
                            let k = choose|k: int|
                                0 <= k < seen.len() && order::same_group(o, #[trigger] seen[k], x);
                            assert(seen[k] == rv[k]);
                            assert(represented(o, rv, reps0, k));
                            let a = choose|a: int|
                                0 <= a < reps0.len() && order::same_group(
                                    o,
                                    rv[#[trigger] reps0[a] as int],
                                    rv[k],
                                );
                            order::law_grouping_is_equivalence(o, rv[reps0[a] as int], rv[k], x);
                            assert(!order::same_group(o, rv[reps0[a] as int], x));
                        }
                    }
                    order::law_grouping_is_equivalence(o, x, x, x);
                    assert forall|a: int| 0 <= a < reps@.len() implies left_over@[a] == count(
                        o,
                        next,
                        rv[#[trigger] reps@[a] as int],
                    ) && left_over@[a] <= i + 1 by {
                        let g = rv[reps@[a] as int];
                        lemma_count_push(o, seen, x, g);
                        if a < reps0.len() {
                            assert(reps@[a] == reps0[a]);
                            assert(!order::same_group(o, g, x));
                            order::law_grouping_is_equivalence(o, x, g, x);
                        } else {
                            assert(g == x);
                        }
                    }
                    assert forall|a: int, b: int| 0 <= a < b < reps@.len() implies !order::same_group(
                        o,
                        rv[#[trigger] reps@[a] as int],
                        rv[#[trigger] reps@[b] as int],
                    ) by {
                        assert(reps@[a] == reps0[a]);
                        if b < reps0.len() {
                            assert(reps@[b] == reps0[b]);
                        }
                    }
                    assert forall|k: int| 0 <= k < i + 1 implies #[trigger] represented(
                        o,
                        rv,
                        reps@,
                        k,
                    ) by {
                        if k == i {
                            assert(reps@[reps0.len() as int] == i);
                        } else {
                            assert(represented(o, rv, reps0, k));
                            let a = choose|a: int|
                                0 <= a < reps0.len() && order::same_group(
                                    o,
                                    rv[#[trigger] reps0[a] as int],
                                    rv[k],
                                );
                            assert(reps@[a] == reps0[a]);
                        }
                    }
                }
            },
        }
        i += 1;
    }
    assert(rv.take(rv.len() as int) =~= rv);
    let ghost all = left@;
    let ghost view = left.deep_view();
    let mut out: Vec<Row> = Vec::new();
    assert(out.deep_view() =~= by_matching(o, view.take(0), rv, keep_matched));
    proof {
        assert forall|a: int| 0 <= a < reps@.len() implies left_over@[a] == remaining(
            count(o, rv, rv[#[trigger] reps@[a] as int]),
            count(o, view.take(0), rv[reps@[a] as int]),
        ) by {
            assert(view.take(0).len() == 0);
        }
    }
    for row in it: left
        invariant
            it.seq() == all,
            view.len() == all.len(),
            rv == right.deep_view(),
            forall|i: int| 0 <= i < all.len() ==> view[i] == (#[trigger] all[i]).deep_view(),
            reps@.len() == left_over@.len(),
            forall|a: int| 0 <= a < reps@.len() ==> #[trigger] reps@[a] < right@.len(),
            apart(o, rv, reps@),
            forall|k: int| 0 <= k < rv.len() ==> #[trigger] represented(o, rv, reps@, k),
            forall|a: int|
                0 <= a < reps@.len() ==> left_over@[a] == remaining(
                    count(o, rv, rv[#[trigger] reps@[a] as int]),
                    count(o, view.take(it.index()), rv[reps@[a] as int]),
                ),
            out.deep_view() == by_matching(o, view.take(it.index()), rv, keep_matched),
    {
        let ghost k = it.index();
        let ghost before = out.deep_view();
        let ghost x = row.deep_view();
        let ghost seen = view.take(k);
        let ghost next = view.take(k + 1);
        let ghost over0 = left_over@;
        assert(next.drop_last() =~= seen);
        assert(next.last() == x);
        assert(next =~= seen.push(x));
        let matched: bool = match find_group(o, right, &reps, &row) {
            Some(e) => {
                let n: usize = left_over[e];
                proof {
                    let h = rv[reps@[e as int] as int];
                    lemma_count_group(o, rv, h, x);
                    lemma_count_group(o, seen, h, x);
                    assert forall|a: int| 0 <= a < reps@.len() && a != e implies count(
                        o,
                        next,
                        rv[#[trigger] reps@[a] as int],
                    ) == count(o, seen, rv[reps@[a] as int]) by {
                        let g = rv[reps@[a] as int];
                        lemma_count_push(o, seen, x, g);
                        order::law_grouping_is_equivalence(o, h, x, g);
                        order::law_grouping_is_equivalence(o, g, h, g);
                        order::law_grouping_is_equivalence(o, h, g, h);
                        if a < e {
                            assert(!order::same_group(o, g, h));
                        } else {
                            assert(!order::same_group(o, h, g));
                        }
                    }
                    lemma_count_push(o, seen, x, h);
                    order::law_grouping_is_equivalence(o, h, x, h);
                }
                if n > 0 {
                    left_over[e] = n - 1;
                    true
                } else {
                    false
                }
            },
            None => {
                proof {
                    assert(count(o, rv, x) == 0) by {
                        lemma_count_member(o, rv, x);
                        if member(o, rv, x) {
                            let j = choose|j: int|
                                0 <= j < rv.len() && order::same_group(o, #[trigger] rv[j], x);
                            assert(represented(o, rv, reps@, j));
                            let a = choose|a: int|
                                0 <= a < reps@.len() && order::same_group(
                                    o,
                                    rv[#[trigger] reps@[a] as int],
                                    rv[j],
                                );
                            order::law_grouping_is_equivalence(o, rv[reps@[a] as int], rv[j], x);
                        }
                    }
                    assert forall|a: int| 0 <= a < reps@.len() implies count(
                        o,
                        next,
                        rv[#[trigger] reps@[a] as int],
                    ) == count(o, seen, rv[reps@[a] as int]) by {
                        let g = rv[reps@[a] as int];
                        lemma_count_push(o, seen, x, g);
                        order::law_grouping_is_equivalence(o, x, g, x);
                    }
                }
                false
            },
        };
        assert(matched == (count(o, seen, x) < count(o, rv, x)));
        if matched == keep_matched {
            out.push(row);
            assert(out.deep_view() =~= before.push(x));
        }
    }
    assert(view.take(view.len() as int) =~= view);
    out
}

/// How many of `r` are left when `l` have been taken.
spec fn remaining(r: nat, l: nat) -> nat {
    if l <= r {
        (r - l) as nat
    } else {
        0
    }
}

/// What a set operator makes of two row sets.
///
/// Rows are equal when no value is distinct from its counterpart, NULL not being distinct from
/// NULL. The result keeps the order of the left operand, and for `UNION` the right one follows.
pub fn combine_set<O: ValueOrder>(o: &O, op: SetOp, all: bool, left: Vec<Row>, right: Vec<Row>) -> (r:
    Vec<Row>)
    ensures
        r.deep_view() == combined(o, op, all, left.deep_view(), right.deep_view()),
{
    match op {
        SetOp::Union => {
            let ghost lv = left.deep_view();
            let ghost rv = right.deep_view();
            let mut out = left;
            let mut more = right;
            out.append(&mut more);
            assert(out.deep_view() =~= lv + rv);
            if all {
                out
            } else {
                dedupe_rows(o, out)
            }
        },
        SetOp::Intersect => if all {
            consume_matching(o, left, &right, true)
        } else {
            filter_by_membership(o, dedupe_rows(o, left), &right, true)
        },
        SetOp::Except => if all {
            consume_matching(o, left, &right, false)
        } else {
            filter_by_membership(o, dedupe_rows(o, left), &right, false)
        },
    }
}

/// A tree of set operators over the inputs, each leaf naming one by its place.
pub enum SetTree {
    Leaf(usize),
    Node { op: SetOp, all: bool, left: Box<SetTree>, right: Box<SetTree> },
}

/// Every leaf names one of `n` inputs.
pub open spec fn leaves_fit(tree: SetTree, n: nat) -> bool
    decreases tree,
{
    match tree {
        SetTree::Leaf(i) => i < n,
        SetTree::Node { left, right, .. } => leaves_fit(*left, n) && leaves_fit(*right, n),
    }
}

/// The rows of a tree of set operators.
pub open spec fn tree_rows<O: ValueOrder>(o: &O, tree: SetTree, inputs: Seq<Rows>) -> Rows
    decreases tree,
{
    match tree {
        SetTree::Leaf(i) => inputs[i as int],
        SetTree::Node { op, all, left, right } => combined(
            o,
            op,
            all,
            tree_rows(o, *left, inputs),
            tree_rows(o, *right, inputs),
        ),
    }
}

/// Copy rows.
pub fn clone_rows(rows: &Vec<Row>) -> (r: Vec<Row>)
    ensures
        r.deep_view() == rows.deep_view(),
{
    let mut out: Vec<Row> = Vec::new();
    let mut i: usize = 0;
    while i < rows.len()
        invariant
            i <= rows@.len(),
            out@.len() == i,
            forall|k: int|
                0 <= k < i ==> (#[trigger] out@[k]).deep_view() == rows@[k].deep_view(),
        decreases rows@.len() - i,
    {
        out.push(sort::clone_row(&rows[i]));
        i += 1;
    }
    assert(out.deep_view() =~= rows.deep_view());
    out
}

/// Evaluate a tree of set operators over its inputs.
pub fn eval_set_tree<O: ValueOrder>(o: &O, tree: &SetTree, inputs: &Vec<Vec<Row>>) -> (r: Vec<Row>)
    requires
        leaves_fit(*tree, inputs@.len()),
    ensures
        r.deep_view() == tree_rows(o, *tree, inputs.deep_view()),
    decreases *tree,
{
    match tree {
        SetTree::Leaf(i) => {
            assert(inputs.deep_view()[*i as int] == inputs@[*i as int].deep_view());
            clone_rows(&inputs[*i])
        },
        SetTree::Node { op, all, left, right } => {
            let l = eval_set_tree(o, left, inputs);
            let r = eval_set_tree(o, right, inputs);
            combine_set(o, *op, *all, l, r)
        },
    }
}

/// The first `limit` rows, or all.
pub open spec fn limited(rows: Rows, limit: Option<u64>) -> Rows {
    match limit {
        Some(n) if n < rows.len() => rows.take(n as int),
        _ => rows,
    }
}

/// Finish a set operation: sort its rows by their evaluated keys, where there are sort keys, and
/// keep the first `limit`.
pub fn finish_set_operation<O: ValueOrder>(
    o: &O,
    rows: Vec<Row>,
    keys: &Vec<Vec<Value>>,
    ks: &Vec<SortKey>,
    limit: Option<u64>,
) -> (r: Vec<Row>)
    requires
        ks@.len() > 0 ==> rows@.len() == keys@.len() && sort::keyed(keys.deep_view(), ks@.len()),
    ensures
        r.deep_view() == limited(
            if ks@.len() > 0 {
                sort::picked(rows.deep_view(), sort::sorted_order(o, keys.deep_view(), ks@))
            } else {
                rows.deep_view()
            },
            limit,
        ),
{
    let mut out = if ks.len() > 0 {
        sort::sort_rows(o, &rows, keys, ks)
    } else {
        rows
    };
    let ghost all = out.deep_view();
    if let Some(n) = limit {
        let total: usize = out.len();
        if n < total as u64 {
            out.truncate(n as usize);
            assert(out.deep_view() =~= all.take(n as int));
        }
    }
    out
}

/// Whether equal values have equal encodings, so that a set operation can find a value by its
/// encoding: all types but floats, decimals and those without an order-preserving encoding.
pub open spec fn hash_safe(v: ValueView) -> bool {
    v is Null || v is Bool || v is Int || v is Text || v is Date || v is Time || v is Timestamp
        || v is TimestampTz || v is Uuid
}

/// Whether equal values of the value's type have equal encodings.
pub fn is_hash_safe_value(value: &Value) -> (r: bool)
    ensures
        r == hash_safe(value@),
{
    match value {
        Value::Null
        | Value::Bool(_)
        | Value::Int(_)
        | Value::Text(_)
        | Value::Date(_)
        | Value::Time(_)
        | Value::Timestamp(_)
        | Value::TimestampTz(_)
        | Value::Uuid(_) => true,
        _ => false,
    }
}

/// Hash-safe values group together exactly when they are the same value.
pub proof fn law_hash_safe_grouping_is_identity(a: ValueView, b: ValueView)
    requires
        hash_safe(a),
        hash_safe(b),
    ensures
        order::not_distinct(&order::ColumnOrder, a, b) <==> a == b,
{
    broadcast use encode_utf8_decode_utf8;

    reveal(order::value_order);
    match (a, b) {
        (ValueView::Text(x), ValueView::Text(y)) => {
            order::lemma_lex_flip(encode_utf8(x), encode_utf8(y));
            assert(decode_utf8(encode_utf8(x)) == x);
            assert(decode_utf8(encode_utf8(y)) == y);
        },
        (ValueView::Uuid(x), ValueView::Uuid(y)) => {
            order::lemma_lex_flip(x, y);
        },
        _ => {},
    }
}

} // verus!
