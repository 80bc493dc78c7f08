//! Set operations as merges of sorted inputs.
use vstd::prelude::*;
use crate::order;
use crate::order::{NullOrdering, Order, SortKey, ValueOrder};
use crate::setops;
use crate::setops::{SetOp, SetTree};
use crate::sort;
use crate::spill_sort;
use crate::value::{Row, ValueView};

verus! {

/// How the row `a` stands to `b`: by the first column on which they differ, all ascending with the
/// default place for NULL.
pub open spec fn row_order<O: ValueOrder>(o: &O, a: Seq<ValueView>, b: Seq<ValueView>) -> Order {
    match order::keys_order(o, a, b, Seq::<SortKey>::empty(), 0) {
        Order::Equal => order::int_order(a.len() as int, b.len() as int),
        other => other,
    }
}

/// Compare two rows by all of their columns.
pub fn compare_rows<O: ValueOrder>(o: &O, a: &Row, b: &Row) -> (r: Order)
    ensures
        r == row_order(o, a.deep_view(), b.deep_view()),
{
    let ks: Vec<SortKey> = Vec::new();
    assert(ks@ =~= Seq::<SortKey>::empty());
    match order::compare_keys(o, a, b, &ks) {
        Order::Equal => {
            let m: usize = a.len();
            let n: usize = b.len();
            if m < n {
                Order::Less
            } else if m == n {
                Order::Equal
            } else {
                Order::Greater
            }
        },
        other => other,
    }
}

/// The rows are in order, and `width` columns wide.
pub open spec fn in_order<O: ValueOrder>(o: &O, rows: setops::Rows, width: nat) -> bool {
    &&& forall|i: int| 0 <= i < rows.len() ==> (#[trigger] rows[i]).len() == width
    &&& forall|i: int, j: int|
        0 <= i <= j < rows.len() ==> !(row_order(o, #[trigger] rows[i], #[trigger] rows[j]) is Greater)
}

proof fn lemma_keys_equal<O: ValueOrder>(o: &O, a: Seq<ValueView>, b: Seq<ValueView>, i: nat)
    requires
        a.len() == b.len(),
        i <= a.len(),
    ensures
        order::keys_order(o, a, b, Seq::<SortKey>::empty(), i) is Equal <==> forall|k: int|
            i <= k < a.len() ==> order::not_distinct(o, #[trigger] a[k], b[k]),
    decreases a.len() - i,
{
    if i < a.len() {
        lemma_keys_equal(o, a, b, i + 1);
        let k = order::key_at(Seq::<SortKey>::empty(), i);
        if order::key_order(o, a[i as int], b[i as int], k) is Equal {
            assert(order::not_distinct(o, a[i as int], b[i as int]));
        } else {
            assert(!order::not_distinct(o, a[i as int], b[i as int]));
        }
    }
}

/// Rows of one width tie exactly when they are of one group, and the order of rows is total.
pub proof fn law_row_order_groups<O: ValueOrder>(
    o: &O,
    a: Seq<ValueView>,
    b: Seq<ValueView>,
    c: Seq<ValueView>,
)
    requires
        a.len() == b.len() == c.len(),
    ensures
        row_order(o, a, b) is Equal <==> order::same_group(o, a, b),
        row_order(o, b, a) == order::flip(row_order(o, a, b)),
        !(row_order(o, a, b) is Greater) && !(row_order(o, b, c) is Greater) ==> !(row_order(o, a, c) is Greater)
            && (row_order(o, a, c) is Equal ==> row_order(o, a, b) is Equal && row_order(o, b, c) is Equal),
{
    let ks = Seq::<SortKey>::empty();
    lemma_keys_equal(o, a, b, 0);
    order::lemma_keys_flip(o, a, b, ks, 0);
    if !(row_order(o, a, b) is Greater) && !(row_order(o, b, c) is Greater) {
        order::lemma_keys_trans(o, a, b, c, ks, 0);
    }
}

/// How many rows from `from` on are of the group of `v`, up to the first that is not.
pub open spec fn leading<O: ValueOrder>(o: &O, rows: setops::Rows, from: nat, v: Seq<ValueView>) -> nat
    decreases rows.len() - from,
{
    if from < rows.len() && order::same_group(o, rows[from as int], v) {
        1 + leading(o, rows, from + 1, v)
    } else {
        0
    }
}

/// Whether the next group of a merge is that of the left head.
pub open spec fn left_first<O: ValueOrder>(
    o: &O,
    left: setops::Rows,
    right: setops::Rows,
    i: nat,
    j: nat,
) -> bool {
    i < left.len() && (j >= right.len() || !(row_order(o, left[i as int], right[j as int]) is Greater))
}

/// What the operator makes of a run of `l` rows of the left input and one of `r` rows of the right,
/// all of one group.
pub open spec fn emitted(
    op: SetOp,
    all: bool,
    left: setops::Rows,
    right: setops::Rows,
    i: nat,
    l: nat,
    j: nat,
    r: nat,
) -> setops::Rows {
    match op {
        SetOp::Union => if all {
            left.subrange(i as int, (i + l) as int) + right.subrange(j as int, (j + r) as int)
        } else if l > 0 {
            seq![left[i as int]]
        } else {
            seq![right[j as int]]
        },
        SetOp::Intersect | SetOp::Except => if l > 0 {
            Seq::new(setops::combined_count(op, all, l, r), |k: int| left[i as int])
        } else {
            Seq::empty()
        },
    }
}

/// What the operator makes of the rows from `i` and from `j` on: group by group, the groups in the
/// order of the inputs.
pub open spec fn merged_from<O: ValueOrder>(
    o: &O,
    op: SetOp,
    all: bool,
    left: setops::Rows,
    right: setops::Rows,
    i: nat,
    j: nat,
) -> setops::Rows
    decreases left.len() - i + right.len() - j,
{
    let from_left = left_first(o, left, right, i, j);
    let g = if from_left {
        left[i as int]
    } else {
        right[j as int]
    };
    let l = if from_left {
        leading(o, left, i, g)
    } else {
        0
    };
    let r = leading(o, right, j, g);
    if l + r == 0 || i + l > left.len() || j + r > right.len() {
        Seq::empty()
    } else {
        emitted(op, all, left, right, i, l, j, r) + merged_from(o, op, all, left, right, i + l, j + r)
    }
}

/// How many rows from `from` on are of the group of `value`, up to the first that is not.
fn run_length<O: ValueOrder>(o: &O, rows: &Vec<Row>, from: usize, value: &Row) -> (r: usize)
    requires
        from <= rows@.len(),
    ensures
        r == leading(o, rows.deep_view(), from as nat, value.deep_view()),
        from + r <= rows@.len(),
        forall|k: int|
            from <= k < from + r ==> order::same_group(
                o,
                #[trigger] rows.deep_view()[k],
                value.deep_view(),
            ),
        from + r == rows@.len() || !order::same_group(
            o,
            rows.deep_view()[from + r],
            value.deep_view(),
        ),
{
    let total: usize = rows.len();
    let mut n: usize = 0;
    while n < total - from
        invariant
            total == rows@.len(),
            from <= total,
            n <= total - from,
            leading(o, rows.deep_view(), from as nat, value.deep_view()) == n + leading(
                o,
                rows.deep_view(),
                (from + n) as nat,
                value.deep_view(),
            ),
            forall|k: int|
                from <= k < from + n ==> order::same_group(
                    o,
                    #[trigger] rows.deep_view()[k],
                    value.deep_view(),
                ),
        decreases rows@.len() - from - n,
    {
        assert(rows.deep_view()[from + n] == rows@[from + n].deep_view());
        if !order::group_keys_equal(o, &rows[from + n], value) {
            return n;
        }
        n += 1;
    }
    n
}

/// The rows that a run of `l` rows of the left input and `r` of the right, all of one group, add to
/// the output.
spec fn adds<O: ValueOrder>(
    o: &O,
    op: SetOp,
    all: bool,
    left: setops::Rows,
    right: setops::Rows,
    g: Seq<ValueView>,
    i: int,
    l: int,
    j: int,
    r: int,
    added: setops::Rows,
) -> bool {
    &&& added.len() == setops::combined_count(op, all, l as nat, r as nat)
    &&& forall|k: int| 0 <= k < added.len() ==> order::same_group(o, #[trigger] added[k], g)
    &&& forall|k: int| 0 <= k < added.len() ==> left.contains(#[trigger] added[k]) || (op is Union
        && right.contains(added[k]))
}

fn copy_rows(rows: &Vec<Row>, from: usize, n: usize, out: &mut Vec<Row>)
    requires
        from + n <= rows@.len(),
    ensures
        final(out).deep_view() == old(out).deep_view() + rows.deep_view().subrange(
            from as int,
            from + n,
        ),
{
    let ghost start = out.deep_view();
    let ghost rv = rows.deep_view();
    let total: usize = rows.len();
    let mut k: usize = 0;
    assert(rv.subrange(from as int, from as int) =~= Seq::empty());
    assert(start =~= start + rv.subrange(from as int, from as int));
    while k < n
        invariant
            rv == rows.deep_view(),
            total == rows@.len(),
            from + n <= total,
            k <= n,
            out.deep_view() == start + rv.subrange(from as int, from + k),
        decreases n - k,
    {
        let ghost before = out.deep_view();
        let row = sort::clone_row(&rows[from + k]);
        assert(row.deep_view() == rv[from + k]);
        out.push(row);
        assert(out.deep_view() =~= before.push(rv[from + k]));
        assert(rv.subrange(from as int, from + k + 1) =~= rv.subrange(from as int, from + k).push(
            rv[from + k],
        ));
        assert(out.deep_view() =~= start + rv.subrange(from as int, from + k + 1));
        k += 1;
    }
}

fn repeat_row(row: &Row, n: usize, out: &mut Vec<Row>)
    ensures
        final(out).deep_view() == old(out).deep_view() + Seq::new(n as nat, |k: int| row.deep_view()),
{
    let ghost start = out.deep_view();
    let ghost v = row.deep_view();
    let mut k: usize = 0;
    assert(start =~= start + Seq::new(0, |k: int| v));
    while k < n
        invariant
            v == row.deep_view(),
            k <= n,
            out.deep_view() == start + Seq::new(k as nat, |k: int| v),
        decreases n - k,
    {
        let ghost before = out.deep_view();
        out.push(sort::clone_row(row));
        assert(out.deep_view() =~= before.push(v));
        assert(out.deep_view() =~= start + Seq::new((k + 1) as nat, |k: int| v));
        k += 1;
    }
    assert(Seq::new(n as nat, |k: int| v) =~= Seq::new(n as nat, |k: int| row.deep_view()));
}

/// Emit what a run of one group adds.
fn emit_run<O: ValueOrder>(
    o: &O,
    op: SetOp,
    all: bool,
    left: &Vec<Row>,
    right: &Vec<Row>,
    i: usize,
    l: usize,
    j: usize,
    r: usize,
    out: &mut Vec<Row>,
) -> (added: Ghost<setops::Rows>)
    requires
        i + l <= left@.len(),
        j + r <= right@.len(),
        l > 0 || r > 0,
        ({
            let g = if l > 0 {
                left.deep_view()[i as int]
            } else {
                right.deep_view()[j as int]
            };
            &&& forall|k: int|
                i <= k < i + l ==> order::same_group(o, #[trigger] left.deep_view()[k], g)
            &&& forall|k: int|
                j <= k < j + r ==> order::same_group(o, #[trigger] right.deep_view()[k], g)
        }),
    ensures
        final(out).deep_view() == old(out).deep_view() + added@,
        added@ == emitted(
            op,
            all,
            left.deep_view(),
            right.deep_view(),
            i as nat,
            l as nat,
            j as nat,
            r as nat,
        ),
        adds(
            o,
            op,
            all,
            left.deep_view(),
            right.deep_view(),
            if l > 0 {
                left.deep_view()[i as int]
            } else {
                right.deep_view()[j as int]
            },
            i as int,
            l as int,
            j as int,
            r as int,
            added@,
        ),
{
    let ghost lv = left.deep_view();
    let ghost rv = right.deep_view();
    let ghost start = out.deep_view();
    let ghost g = if l > 0 {
        lv[i as int]
    } else {
        rv[j as int]
    };
    proof {
        order::law_grouping_is_equivalence(o, g, g, g);
    }
    match op {
        SetOp::Union => {
            if all {
                copy_rows(left, i, l, out);
                copy_rows(right, j, r, out);
                let ghost a = lv.subrange(i as int, i + l);
                let ghost b = rv.subrange(j as int, j + r);
                assert(out.deep_view() =~= start + (a + b));
                proof {
                    assert forall|k: int| 0 <= k < (a + b).len() implies order::same_group(
                        o,
                        #[trigger] (a + b)[k],
                        g,
                    ) && (lv.contains((a + b)[k]) || rv.contains((a + b)[k])) by {
                        if k < l {
                            assert((a + b)[k] == lv[i + k]);
                        } else {
                            assert((a + b)[k] == rv[j + k - l]);
                        }
                    }
                }
                return Ghost(a + b);
            }
            if l > 0 {
                copy_rows(left, i, 1, out);
                let ghost a = lv.subrange(i as int, i + 1);
                assert(a =~= seq![lv[i as int]]);
                return Ghost(a);
            }
            copy_rows(right, j, 1, out);
            let ghost b = rv.subrange(j as int, j + 1);
            assert(b =~= seq![rv[j as int]]);
            Ghost(b)
        },
        SetOp::Intersect | SetOp::Except => {
            let n: usize = match op {
                SetOp::Intersect => if all {
                    if l <= r {
                        l
                    } else {
                        r
                    }
                } else if l > 0 && r > 0 {
                    1
                } else {
                    0
                },
                _ => if all {
                    if l <= r {
                        0
                    } else {
                        l - r
                    }
                } else if l > 0 && r == 0 {
                    1
                } else {
                    0
                },
            };
            if l > 0 {
                assert(lv[i as int] == left@[i as int].deep_view());
                repeat_row(&left[i], n, out);
                let ghost added = Seq::new(n as nat, |k: int| left@[i as int].deep_view());
                assert(added =~= emitted(
                    op,
                    all,
                    lv,
                    rv,
                    i as nat,
                    l as nat,
                    j as nat,
                    r as nat,
                ));
                assert(lv.contains(g));
                return Ghost(added);
            }
            assert(n == 0);
            assert(start =~= start + Seq::empty());
            Ghost(Seq::empty())
        },
    }
}

proof fn lemma_count_run<O: ValueOrder>(
    o: &O,
    rows: setops::Rows,
    i: int,
    n: int,
    g: Seq<ValueView>,
    w: Seq<ValueView>,
)
    requires
        0 <= i,
        0 <= n,
        i + n <= rows.len(),
        forall|k: int| i <= k < i + n ==> order::same_group(o, #[trigger] rows[k], g),
    ensures
        setops::count(o, rows.take(i + n), w) == setops::count(o, rows.take(i), w)
            + if order::same_group(o, g, w) {
            n
        } else {
            0
        },
    decreases n,
{
    if n > 0 {
        lemma_count_run(o, rows, i, n - 1, g, w);
        let last = rows[i + n - 1];
        assert(rows.take(i + n) =~= rows.take(i + n - 1).push(last));
        setops::lemma_count_push(o, rows.take(i + n - 1), last, w);
        order::law_grouping_is_equivalence(o, last, g, w);
        order::law_grouping_is_equivalence(o, g, last, w);
    }
}

proof fn lemma_count_all<O: ValueOrder>(
    o: &O,
    added: setops::Rows,
    g: Seq<ValueView>,
    w: Seq<ValueView>,
)
    requires
        forall|k: int| 0 <= k < added.len() ==> order::same_group(o, #[trigger] added[k], g),
    ensures
        setops::count(o, added, w) == if order::same_group(o, g, w) {
            added.len()
        } else {
            0
        },
{
    lemma_count_run(o, added, 0, added.len() as int, g, w);
    assert(added.take(added.len() as int) =~= added);
    assert(added.take(0) =~= Seq::empty());
}

/// Every row of `done` comes before every row of `rows` from `i` on, and is of another group.
spec fn past<O: ValueOrder>(o: &O, done: setops::Rows, rows: setops::Rows, i: int) -> bool {
    forall|a: int, k: int|
        0 <= a < done.len() && i <= k < rows.len() ==> row_order(
            o,
            #[trigger] done[a],
            #[trigger] rows[k],
        ) is Less
}

/// The output holds each group as often as the operator asks for.
spec fn counted<O: ValueOrder>(
    o: &O,
    op: SetOp,
    all: bool,
    left: setops::Rows,
    right: setops::Rows,
    out: setops::Rows,
) -> bool {
    forall|v: Seq<ValueView>| #[trigger]
        setops::count(o, out, v) == setops::combined_count(
            op,
            all,
            setops::count(o, left, v),
            setops::count(o, right, v),
        )
}

/// How the output stands to what has been read.
#[verifier::opaque]
spec fn merged_so_far<O: ValueOrder>(
    o: &O,
    op: SetOp,
    all: bool,
    left: setops::Rows,
    right: setops::Rows,
    i: int,
    j: int,
    out: setops::Rows,
    width: nat,
) -> bool {
    &&& in_order(o, out, width)
    &&& counted(o, op, all, left.take(i), right.take(j), out)
    &&& forall|k: int| 0 <= k < out.len() ==> left.contains(#[trigger] out[k]) || (op is Union
        && right.contains(out[k]))
    &&& past(o, out, left, i)
    &&& past(o, out, right, j)
    &&& past(o, left.take(i), left, i)
    &&& past(o, left.take(i), right, j)
    &&& past(o, right.take(j), left, i)
    &&& past(o, right.take(j), right, j)
}

/// All that is not yet read comes after the group of `g`.
spec fn beyond<O: ValueOrder>(o: &O, rows: setops::Rows, i: int, g: Seq<ValueView>) -> bool {
    forall|k: int| i <= k < rows.len() ==> row_order(o, g, #[trigger] rows[k]) is Less
}

/// `done` grows by rows of the group of `g`, and stays past.
proof fn lemma_past_grows<O: ValueOrder>(
    o: &O,
    done: setops::Rows,
    added: setops::Rows,
    rows: setops::Rows,
    i: int,
    n: int,
    g: Seq<ValueView>,
    width: nat,
)
    requires
        past(o, done, rows, i),
        0 <= i,
        0 <= n,
        forall|k: int| 0 <= k < added.len() ==> order::same_group(o, #[trigger] added[k], g),
        forall|k: int| 0 <= k < added.len() ==> (#[trigger] added[k]).len() == width,
        g.len() == width,
        forall|k: int| 0 <= k < rows.len() ==> (#[trigger] rows[k]).len() == width,
        beyond(o, rows, i + n, g),
    ensures
        past(o, done + added, rows, i + n),
{
    assert forall|a: int, k: int| 0 <= a < (done + added).len() && i + n <= k < rows.len() implies row_order(
        o,
        #[trigger] (done + added)[a],
        #[trigger] rows[k],
    ) is Less by {
        if a < done.len() {
            assert((done + added)[a] == done[a]);
        } else {
            let x = added[a - done.len()];
            assert((done + added)[a] == x);
            law_row_order_groups(o, x, g, rows[k]);
            law_row_order_groups(o, g, rows[k], x);
            law_row_order_groups(o, x, rows[k], g);
        }
    }
}

proof fn lemma_beyond<O: ValueOrder>(
    o: &O,
    rows: setops::Rows,
    i: int,
    n: int,
    g: Seq<ValueView>,
    width: nat,
)
    requires
        in_order(o, rows, width),
        g.len() == width,
        0 <= i,
        0 <= n,
        i + n <= rows.len(),
        i < rows.len() ==> !(row_order(o, g, rows[i]) is Greater),
        forall|k: int| i <= k < i + n ==> order::same_group(o, #[trigger] rows[k], g),
        i + n == rows.len() || !order::same_group(o, rows[i + n], g),
    ensures
        beyond(o, rows, i + n, g),
{
    assert forall|k: int| i + n <= k < rows.len() implies row_order(o, g, #[trigger] rows[k]) is Less by {
        let h = rows[i + n];
        law_row_order_groups(o, g, rows[i], h);
        law_row_order_groups(o, h, g, h);
        law_row_order_groups(o, g, h, rows[k]);
        assert(!(row_order(o, rows[i], h) is Greater));
        assert(!(row_order(o, h, rows[k]) is Greater));
    }
}

proof fn lemma_step<O: ValueOrder>(
    o: &O,
    op: SetOp,
    all: bool,
    left: setops::Rows,
    right: setops::Rows,
    i: int,
    l: int,
    j: int,
    r: int,
    out: setops::Rows,
    added: setops::Rows,
    g: Seq<ValueView>,
    width: nat,
)
    requires
        in_order(o, left, width),
        in_order(o, right, width),
        0 <= i,
        0 <= l,
        i + l <= left.len(),
        0 <= j,
        0 <= r,
        j + r <= right.len(),
        merged_so_far(o, op, all, left, right, i, j, out, width),
        adds(o, op, all, left, right, g, i, l, j, r, added),
        g == if l > 0 {
            left[i]
        } else {
            right[j]
        },
        l > 0 || r > 0,
        forall|k: int| i <= k < i + l ==> order::same_group(o, #[trigger] left[k], g),
        forall|k: int| j <= k < j + r ==> order::same_group(o, #[trigger] right[k], g),
        beyond(o, left, i + l, g),
        beyond(o, right, j + r, g),
    ensures
        merged_so_far(o, op, all, left, right, i + l, j + r, out + added, width),
{
    reveal(merged_so_far);
    let next = out + added;
    assert(g.len() == width);
    assert forall|k: int| 0 <= k < added.len() implies (#[trigger] added[k]).len() == width by {
        assert(order::same_group(o, added[k], g));
    }
    let la = left.subrange(i, i + l);
    let ra = right.subrange(j, j + r);
    assert(left.take(i + l) =~= left.take(i) + la);
    assert(right.take(j + r) =~= right.take(j) + ra);
    assert forall|k: int| 0 <= k < la.len() implies order::same_group(o, #[trigger] la[k], g)
        && la[k].len() == width by {
        assert(la[k] == left[i + k]);
    }
    assert forall|k: int| 0 <= k < ra.len() implies order::same_group(o, #[trigger] ra[k], g)
        && ra[k].len() == width by {
        assert(ra[k] == right[j + k]);
    }
    lemma_past_grows(o, out, added, left, i, l, g, width);
    lemma_past_grows(o, out, added, right, j, r, g, width);
    lemma_past_grows(o, left.take(i), la, left, i, l, g, width);
    lemma_past_grows(o, left.take(i), la, right, j, r, g, width);
    lemma_past_grows(o, right.take(j), ra, left, i, l, g, width);
    lemma_past_grows(o, right.take(j), ra, right, j, r, g, width);
    // What was read before is of other groups.
    let src = if l > 0 {
        left
    } else {
        right
    };
    let at = if l > 0 {
        i
    } else {
        j
    };
    assert(setops::count(o, left.take(i), g) == 0 && setops::count(o, right.take(j), g) == 0) by {
        lemma_none_of(o, left.take(i), src, at, width);
        lemma_none_of(o, right.take(j), src, at, width);
    }
    lemma_step_counts(o, op, all, left, right, i, l, j, r, out, added, g);
    assert forall|k: int| 0 <= k < next.len() implies left.contains(#[trigger] next[k]) || (
    op is Union && right.contains(next[k])) by {
        if k < out.len() {
            assert(next[k] == out[k]);
        } else {
            assert(next[k] == added[k - out.len()]);
        }
    }
    lemma_step_order(o, out, added, src, at, g, width);
}

proof fn lemma_step_counts<O: ValueOrder>(
    o: &O,
    op: SetOp,
    all: bool,
    left: setops::Rows,
    right: setops::Rows,
    i: int,
    l: int,
    j: int,
    r: int,
    out: setops::Rows,
    added: setops::Rows,
    g: Seq<ValueView>,
)
    requires
        0 <= i,
        0 <= l,
        i + l <= left.len(),
        0 <= j,
        0 <= r,
        j + r <= right.len(),
        counted(o, op, all, left.take(i), right.take(j), out),
        adds(o, op, all, left, right, g, i, l, j, r, added),
        setops::count(o, left.take(i), g) == 0,
        setops::count(o, right.take(j), g) == 0,
        forall|k: int| i <= k < i + l ==> order::same_group(o, #[trigger] left[k], g),
        forall|k: int| j <= k < j + r ==> order::same_group(o, #[trigger] right[k], g),
    ensures
        counted(o, op, all, left.take(i + l), right.take(j + r), out + added),
{
    assert forall|v: Seq<ValueView>| #[trigger]
        setops::count(o, out + added, v) == setops::combined_count(
            op,
            all,
            setops::count(o, left.take(i + l), v),
            setops::count(o, right.take(j + r), v),
        ) by {
        setops::lemma_count_concat(o, out, added, v);
        lemma_count_all(o, added, g, v);
        lemma_count_run(o, left, i, l, g, v);
        lemma_count_run(o, right, j, r, g, v);
        assert(setops::count(o, out, v) == setops::combined_count(
            op,
            all,
            setops::count(o, left.take(i), v),
            setops::count(o, right.take(j), v),
        ));
        if order::same_group(o, g, v) {
            setops::lemma_count_group(o, left.take(i), g, v);
            setops::lemma_count_group(o, right.take(j), g, v);
        }
    }
}

proof fn lemma_step_order<O: ValueOrder>(
    o: &O,
    out: setops::Rows,
    added: setops::Rows,
    src: setops::Rows,
    at: int,
    g: Seq<ValueView>,
    width: nat,
)
    requires
        in_order(o, out, width),
        0 <= at < src.len(),
        src[at] == g,
        g.len() == width,
        past(o, out, src, at),
        forall|k: int| 0 <= k < added.len() ==> order::same_group(o, #[trigger] added[k], g),
        forall|k: int| 0 <= k < added.len() ==> (#[trigger] added[k]).len() == width,
    ensures
        in_order(o, out + added, width),
{
    let next = out + added;
    assert forall|a: int, b: int| 0 <= a <= b < next.len() implies !(row_order(
        o,
        #[trigger] next[a],
        #[trigger] next[b],
    ) is Greater) by {
        if b < out.len() {
            assert(next[a] == out[a] && next[b] == out[b]);
        } else {
            let y = added[b - out.len()];
            assert(next[b] == y);
            law_row_order_groups(o, y, g, y);
            if a < out.len() {
                assert(next[a] == out[a]);
                assert(row_order(o, out[a], src[at]) is Less);
                law_row_order_groups(o, out[a], g, y);
            } else {
                let x = added[a - out.len()];
                assert(next[a] == x);
                law_row_order_groups(o, x, g, y);
            }
        }
    }
    assert forall|k: int| 0 <= k < next.len() implies (#[trigger] next[k]).len() == width by {
        if k < out.len() {
            assert(next[k] == out[k]);
        } else {
            assert(next[k] == added[k - out.len()]);
        }
    }
}

proof fn lemma_none_of<O: ValueOrder>(
    o: &O,
    done: setops::Rows,
    rows: setops::Rows,
    i: int,
    width: nat,
)
    requires
        past(o, done, rows, i),
        0 <= i < rows.len(),
        rows[i].len() == width,
    ensures
        setops::count(o, done, rows[i]) == 0,
{
    setops::lemma_count_member(o, done, rows[i]);
    if setops::member(o, done, rows[i]) {
        let a = choose|a: int|
            0 <= a < done.len() && order::same_group(o, #[trigger] done[a], rows[i]);
        law_row_order_groups(o, done[a], rows[i], rows[i]);
        assert(row_order(o, done[a], rows[i]) is Less);
    }
}

proof fn lemma_merged_step<O: ValueOrder>(
    o: &O,
    op: SetOp,
    all: bool,
    left: setops::Rows,
    right: setops::Rows,
    i: nat,
    l: nat,
    j: nat,
    r: nat,
    g: Seq<ValueView>,
)
    requires
        l + r > 0,
        i + l <= left.len(),
        j + r <= right.len(),
        g == if left_first(o, left, right, i, j) {
            left[i as int]
        } else {
            right[j as int]
        },
        l == if left_first(o, left, right, i, j) {
            leading(o, left, i, g)
        } else {
            0
        },
        r == leading(o, right, j, g),
    ensures
        merged_from(o, op, all, left, right, i, j) == emitted(op, all, left, right, i, l, j, r)
            + merged_from(o, op, all, left, right, i + l, j + r),
{
}

/// Merge the next group.
fn merge_step<O: ValueOrder>(
    o: &O,
    op: SetOp,
    all: bool,
    left: &Vec<Row>,
    right: &Vec<Row>,
    i: usize,
    j: usize,
    out: &mut Vec<Row>,
    Ghost(w): Ghost<nat>,
) -> (step: (usize, usize, Ghost<setops::Rows>))
    requires
        in_order(o, left.deep_view(), w),
        in_order(o, right.deep_view(), w),
        i <= left@.len(),
        j <= right@.len(),
        i < left@.len() || j < right@.len(),
        merged_so_far(
            o,
            op,
            all,
            left.deep_view(),
            right.deep_view(),
            i as int,
            j as int,
            old(out).deep_view(),
            w,
        ),
    ensures
        step.0 + step.1 > 0,
        i + step.0 <= left@.len(),
        j + step.1 <= right@.len(),
        final(out).deep_view() == old(out).deep_view() + step.2@,
        merged_so_far(
            o,
            op,
            all,
            left.deep_view(),
            right.deep_view(),
            i + step.0,
            j + step.1,
            final(out).deep_view(),
            w,
        ),
        merged_from(o, op, all, left.deep_view(), right.deep_view(), i as nat, j as nat) == step.2@
            + merged_from(
            o,
            op,
            all,
            left.deep_view(),
            right.deep_view(),
            (i + step.0) as nat,
            (j + step.1) as nat,
        ),
{
    let ghost lv = left.deep_view();
    let ghost rv = right.deep_view();
    let from_left: bool = if i >= left.len() {
        false
    } else if j >= right.len() {
        true
    } else {
        assert(lv[i as int] == left@[i as int].deep_view());
        assert(rv[j as int] == right@[j as int].deep_view());
        proof {
            law_row_order_groups(o, lv[i as int], rv[j as int], lv[i as int]);
        }
        match compare_rows(o, &left[i], &right[j]) {
            Order::Greater => false,
            _ => true,
        }
    };
    let value: &Row = if from_left {
        &left[i]
    } else {
        &right[j]
    };
    let ghost g = value.deep_view();
    assert(g == if from_left {
        lv[i as int]
    } else {
        rv[j as int]
    });
    let l: usize = if from_left {
        run_length(o, left, i, value)
    } else {
        0
    };
    let r: usize = run_length(o, right, j, value);
    proof {
        order::law_grouping_is_equivalence(o, g, g, g);
        assert(g.len() == w);
        law_row_order_groups(o, g, g, g);
        lemma_beyond(o, rv, j as int, r as int, g, w);
        if from_left {
            lemma_beyond(o, lv, i as int, l as int, g, w);
        } else if i < left@.len() {
            law_row_order_groups(o, g, lv[i as int], g);
            lemma_beyond(o, lv, i as int, 0, g, w);
        }
    }
    let ghost before = out.deep_view();
    let added = emit_run(o, op, all, left, right, i, l, j, r, out);
    proof {
        lemma_step(
            o,
            op,
            all,
            lv,
            rv,
            i as int,
            l as int,
            j as int,
            r as int,
            before,
            added@,
            g,
            w,
        );
        assert(from_left == left_first(o, lv, rv, i as nat, j as nat));
        lemma_merged_step(o, op, all, lv, rv, i as nat, l as nat, j as nat, r as nat, g);
    }
    (l, r, added)
}

/// What a set operator makes of two sorted inputs, sorted again.
///
/// Each group is one run of each input, so counting the two runs of a group decides what is
/// emitted. The result holds each group as often as [`setops::combine_set`] does, and its rows are
/// rows of the left input, or for `UNION` of either.
#[verifier::spinoff_prover]
#[verifier::rlimit(60)]
pub fn merge_set<O: ValueOrder>(
    o: &O,
    op: SetOp,
    all: bool,
    left: &Vec<Row>,
    right: &Vec<Row>,
    width: usize,
) -> (r: Vec<Row>)
    requires
        in_order(o, left.deep_view(), width as nat),
        in_order(o, right.deep_view(), width as nat),
    ensures
        r.deep_view() == merged_from(o, op, all, left.deep_view(), right.deep_view(), 0, 0),
        in_order(o, r.deep_view(), width as nat),
        forall|v: Seq<ValueView>| #[trigger]
            setops::count(o, r.deep_view(), v) == setops::combined_count(
                op,
                all,
                setops::count(o, left.deep_view(), v),
                setops::count(o, right.deep_view(), v),
            ),
        forall|k: int|
            0 <= k < r@.len() ==> left.deep_view().contains(#[trigger] r.deep_view()[k]) || (
            op is Union && right.deep_view().contains(r.deep_view()[k])),
{
    let ghost lv = left.deep_view();
    let ghost rv = right.deep_view();
    let ghost w = width as nat;
    let mut out: Vec<Row> = Vec::new();
    let mut i: usize = 0;
    let mut j: usize = 0;
    proof {
        assert(out.deep_view() =~= Seq::empty());
        assert(lv.take(0) =~= Seq::empty());
        assert(rv.take(0) =~= Seq::empty());
        let whole = merged_from(o, op, all, lv, rv, 0, 0);
        assert(out.deep_view() + whole =~= whole);
        reveal(merged_so_far);
    }
    let m: usize = left.len();
    let n: usize = right.len();
    while i < m || j < n
        invariant
            m == left@.len(),
            n == right@.len(),
            lv == left.deep_view(),
            rv == right.deep_view(),
            w == width,
            in_order(o, lv, w),
            in_order(o, rv, w),
            i <= left@.len(),
            j <= right@.len(),
            merged_so_far(o, op, all, lv, rv, i as int, j as int, out.deep_view(), w),
            out.deep_view() + merged_from(o, op, all, lv, rv, i as nat, j as nat) == merged_from(
                o,
                op,
                all,
                lv,
                rv,
                0,
                0,
            ),
        decreases left@.len() - i + right@.len() - j,
    {
        let ghost before = out.deep_view();
        let (l, r, added) = merge_step(o, op, all, left, right, i, j, &mut out, Ghost(w));
        proof {
            let rest = merged_from(o, op, all, lv, rv, (i + l) as nat, (j + r) as nat);
            assert(before + (added@ + rest) =~= (before + added@) + rest);
        }
        i += l;
        j += r;
    }
    proof {
        assert(lv.take(lv.len() as int) =~= lv);
        assert(rv.take(rv.len() as int) =~= rv);
        reveal(merged_so_far);
        let rest = merged_from(o, op, all, lv, rv, i as nat, j as nat);
        assert(rest =~= Seq::empty());
        assert(out.deep_view() + rest =~= out.deep_view());
    }
    out
}

/// How often a group occurs in the rows of a tree of set operators.
pub open spec fn tree_count<O: ValueOrder>(
    o: &O,
    tree: SetTree,
    inputs: Seq<setops::Rows>,
    v: Seq<ValueView>,
) -> nat
    decreases tree,
{
    match tree {
        SetTree::Leaf(i) => setops::count(o, inputs[i as int], v),
        SetTree::Node { op, all, left, right } => setops::combined_count(
            op,
            all,
            tree_count(o, *left, inputs, v),
            tree_count(o, *right, inputs, v),
        ),
    }
}

/// Evaluating a tree of set operators by sorted merges gives each group as often as evaluating it in
/// memory does.
pub proof fn law_spilled_tree_counts<O: ValueOrder>(
    o: &O,
    tree: SetTree,
    inputs: Seq<setops::Rows>,
    v: Seq<ValueView>,
)
    ensures
        tree_count(o, tree, inputs, v) == setops::count(o, setops::tree_rows(o, tree, inputs), v),
    decreases tree,
{
    if let SetTree::Node { op, all, left, right } = tree {
        law_spilled_tree_counts(o, *left, inputs, v);
        law_spilled_tree_counts(o, *right, inputs, v);
        setops::law_set_operation_counts(
            o,
            op,
            all,
            setops::tree_rows(o, *left, inputs),
            setops::tree_rows(o, *right, inputs),
            v,
        );
    }
}

proof fn lemma_count_perm<O: ValueOrder>(
    o: &O,
    rows: setops::Rows,
    places: Seq<usize>,
    n: nat,
    v: Seq<ValueView>,
)
    requires
        n <= rows.len(),
        forall|a: int| 0 <= a < places.len() ==> 0 <= #[trigger] places[a] < n,
        forall|x: int| 0 <= x < n ==> #[trigger] sort::lists(places, x),
        forall|a: int, b: int|
            0 <= a < b < places.len() ==> #[trigger] places[a] != #[trigger] places[b],
    ensures
        setops::count(o, sort::picked(rows, places), v) == setops::count(o, rows.take(n as int), v),
    decreases n,
{
    if n == 0 {
        if places.len() > 0 {
            assert(0 <= places[0] < n);
        }
        assert(sort::picked(rows, places) =~= rows.take(0));
    } else {
        assert(sort::lists(places, n - 1));
        let a = choose|a: int| 0 <= a < places.len() && #[trigger] places[a] == n - 1;
        let rest = places.remove(a);
        assert forall|b: int| 0 <= b < rest.len() implies 0 <= #[trigger] rest[b] < n - 1 by {
            if b < a {
                assert(rest[b] == places[b]);
            } else {
                assert(rest[b] == places[b + 1]);
            }
        }
        assert forall|x: int| 0 <= x < n - 1 implies #[trigger] sort::lists(rest, x) by {
            assert(sort::lists(places, x));
            let b = choose|b: int| 0 <= b < places.len() && #[trigger] places[b] == x;
            if b < a {
                assert(rest[b] == x);
            } else {
                assert(rest[b - 1] == x);
            }
        }
        assert forall|b: int, c: int| 0 <= b < c < rest.len() implies #[trigger] rest[b]
            != #[trigger] rest[c] by {
            let b1 = if b < a {
                b
            } else {
                b + 1
            };
            let c1 = if c < a {
                c
            } else {
                c + 1
            };
            assert(rest[b] == places[b1] && rest[c] == places[c1]);
        }
        lemma_count_perm(o, rows, rest, (n - 1) as nat, v);
        let before = places.take(a);
        let after = places.skip(a + 1);
        let x = rows[n - 1];
        let pb = sort::picked(rows, before);
        let pa = sort::picked(rows, after);
        assert(sort::picked(rows, places) =~= (pb.push(x)) + pa);
        assert(sort::picked(rows, rest) =~= pb + pa);
        setops::lemma_count_concat(o, pb.push(x), pa, v);
        setops::lemma_count_concat(o, pb, pa, v);
        setops::lemma_count_push(o, pb, x, v);
        assert(rows.take(n as int) =~= rows.take(n - 1).push(x));
        setops::lemma_count_push(o, rows.take(n - 1), x, v);
    }
}

/// Sort keys that compare all `width` columns.
pub fn all_column_keys(width: usize) -> (r: Vec<SortKey>)
    ensures
        r@.len() == width,
        forall|i: int|
            0 <= i < width ==> #[trigger] r@[i] == order::key_at(Seq::<SortKey>::empty(), i as nat),
{
    let mut out: Vec<SortKey> = Vec::new();
    let mut i: usize = 0;
    while i < width
        invariant
            i <= width,
            out@.len() == i,
            forall|k: int|
                0 <= k < i ==> #[trigger] out@[k] == order::key_at(
                    Seq::<SortKey>::empty(),
                    k as nat,
                ),
        decreases width - i,
    {
        out.push(SortKey { ascending: true, nulls: NullOrdering::Default });
        i += 1;
    }
    out
}

proof fn lemma_default_keys<O: ValueOrder>(
    o: &O,
    a: Seq<ValueView>,
    b: Seq<ValueView>,
    ks: Seq<SortKey>,
    i: nat,
)
    requires
        forall|k: int|
            0 <= k < ks.len() ==> #[trigger] ks[k] == order::key_at(
                Seq::<SortKey>::empty(),
                k as nat,
            ),
    ensures
        order::keys_order(o, a, b, ks, i) == order::keys_order(o, a, b, Seq::<SortKey>::empty(), i),
    decreases a.len() - i,
{
    if i < a.len() && i < b.len() {
        lemma_default_keys(o, a, b, ks, i + 1);
        assert(order::key_at(ks, i) == order::key_at(Seq::<SortKey>::empty(), i));
    }
}

/// `width` sort keys that compare all columns ascending.
pub open spec fn column_keys(width: nat) -> Seq<SortKey> {
    Seq::new(width, |i: int| SortKey { ascending: true, nulls: NullOrdering::Default })
}

/// The rows sorted by all of their columns.
pub open spec fn column_sorted<O: ValueOrder>(o: &O, rows: setops::Rows, width: nat) -> setops::Rows {
    sort::picked(rows, sort::sorted_order(o, rows, column_keys(width)))
}

/// The rows of a tree of set operators, evaluated by sorting and merging.
pub open spec fn spilled_rows<O: ValueOrder>(
    o: &O,
    tree: SetTree,
    inputs: Seq<setops::Rows>,
    width: nat,
) -> setops::Rows
    decreases tree,
{
    match tree {
        SetTree::Leaf(i) => column_sorted(o, inputs[i as int], width),
        SetTree::Node { op, all, left, right } => merged_from(
            o,
            op,
            all,
            spilled_rows(o, *left, inputs, width),
            spilled_rows(o, *right, inputs, width),
            0,
            0,
        ),
    }
}

/// Sort rows by all of their columns within a memory budget of `limit` bytes.
fn sort_leaf<O: ValueOrder>(o: &O, rows: &Vec<Row>, width: usize, limit: usize) -> (r: Vec<Row>)
    requires
        forall|k: int| 0 <= k < rows@.len() ==> (#[trigger] rows.deep_view()[k]).len() == width,
    ensures
        r.deep_view() == column_sorted(o, rows.deep_view(), width as nat),
        in_order(o, r.deep_view(), width as nat),
        forall|v: Seq<ValueView>| #[trigger]
            setops::count(o, r.deep_view(), v) == setops::count(o, rows.deep_view(), v),
{
    let ks = all_column_keys(width);
    assert(ks@ =~= column_keys(width as nat));
    let ghost rv = rows.deep_view();
    let n: usize = rows.len();
    let r = spill_sort::external_sort(o, rows, rows, &ks, limit);
    proof {
        let places = sort::sorted_order(o, rv, ks@);
        sort::law_sorted_order_is_sorted(o, rv, ks@);
        let out = r.deep_view();
        assert forall|a: int, b: int| 0 <= a < b < places.len() implies #[trigger] places[a]
            != #[trigger] places[b] by {
            assert(sort::before(o, rv, ks@, places[a] as int, places[b] as int));
            sort::lemma_before_asym(o, rv, ks@, places[a] as int, places[b] as int);
        }
        assert forall|v: Seq<ValueView>| #[trigger] setops::count(o, out, v) == setops::count(o, rv, v) by {
            lemma_count_perm(o, rv, places, rv.len(), v);
            assert(rv.take(rv.len() as int) =~= rv);
        }
        assert forall|i: int| 0 <= i < out.len() implies (#[trigger] out[i]).len() == width by {
            assert(out[i] == rv[places[i] as int]);
        }
        assert forall|i: int, j: int| 0 <= i <= j < out.len() implies !(row_order(
            o,
            #[trigger] out[i],
            #[trigger] out[j],
        ) is Greater) by {
            let a = out[i];
            let b = out[j];
            assert(a == rv[places[i] as int] && b == rv[places[j] as int]);
            lemma_default_keys(o, a, b, ks@, 0);
            if i < j {
                assert(sort::before(o, rv, ks@, places[i] as int, places[j] as int));
            } else {
                law_row_order_groups(o, a, a, a);
                order::law_grouping_is_equivalence(o, a, a, a);
            }
        }
    }
    r
}

/// The inputs that the tree names are `width` columns wide.
pub open spec fn leaves_wide(tree: SetTree, inputs: Seq<setops::Rows>, width: nat) -> bool
    decreases tree,
{
    match tree {
        SetTree::Leaf(i) => forall|k: int|
            0 <= k < inputs[i as int].len() ==> (#[trigger] inputs[i as int][k]).len() == width,
        SetTree::Node { left, right, .. } => leaves_wide(*left, inputs, width) && leaves_wide(
            *right,
            inputs,
            width,
        ),
    }
}

/// Evaluate a tree of set operators by sorting each input within a memory budget of `limit` bytes
/// and merging.
pub fn eval_set_tree_spilling<O: ValueOrder>(
    o: &O,
    tree: &SetTree,
    inputs: &Vec<Vec<Row>>,
    width: usize,
    limit: usize,
) -> (r: Vec<Row>)
    requires
        setops::leaves_fit(*tree, inputs@.len()),
        leaves_wide(*tree, inputs.deep_view(), width as nat),
    ensures
        r.deep_view() == spilled_rows(o, *tree, inputs.deep_view(), width as nat),
        in_order(o, r.deep_view(), width as nat),
        forall|v: Seq<ValueView>| #[trigger]
            setops::count(o, r.deep_view(), v) == tree_count(o, *tree, inputs.deep_view(), v),
    decreases *tree,
{
    match tree {
        SetTree::Leaf(i) => {
            let ghost iv = inputs.deep_view();
            assert(iv[*i as int] == inputs@[*i as int].deep_view());
            sort_leaf(o, &inputs[*i], width, limit)
        },
        SetTree::Node { op, all, left, right } => {
            let l = eval_set_tree_spilling(o, left, inputs, width, limit);
            let r = eval_set_tree_spilling(o, right, inputs, width, limit);
            let out = merge_set(o, *op, *all, &l, &r, width);
            proof {
                let iv = inputs.deep_view();
                assert forall|v: Seq<ValueView>| #[trigger]
                    setops::count(o, out.deep_view(), v) == tree_count(o, *tree, iv, v) by {
                    assert(setops::count(o, l.deep_view(), v) == tree_count(o, **left, iv, v));
                    assert(setops::count(o, r.deep_view(), v) == tree_count(o, **right, iv, v));
                }
            }
            out
        },
    }
}

/// The rows without duplicates, found by sorting within a memory budget of `limit` bytes: a row is a
/// duplicate of its neighbour. Each group occurs once, as in [`setops::dedupe_rows`].
pub fn sort_based_distinct<O: ValueOrder>(o: &O, rows: &Vec<Row>, width: usize, limit: usize) -> (r: Vec<
    Row,
>)
    requires
        forall|k: int| 0 <= k < rows@.len() ==> (#[trigger] rows.deep_view()[k]).len() == width,
    ensures
        r.deep_view() == merged_from(
            o,
            SetOp::Union,
            false,
            column_sorted(o, rows.deep_view(), width as nat),
            Seq::empty(),
            0,
            0,
        ),
        in_order(o, r.deep_view(), width as nat),
        forall|v: Seq<ValueView>| #[trigger]
            setops::count(o, r.deep_view(), v) == setops::count(
                o,
                setops::distinct(o, rows.deep_view()),
                v,
            ),
{
    let sorted = sort_leaf(o, rows, width, limit);
    let none: Vec<Row> = Vec::new();
    assert(none.deep_view() =~= Seq::empty());
    let r = merge_set(o, SetOp::Union, false, &sorted, &none, width);
    proof {
        assert forall|v: Seq<ValueView>| #[trigger]
            setops::count(o, r.deep_view(), v) == setops::count(
                o,
                setops::distinct(o, rows.deep_view()),
                v,
            ) by {
            let rv = rows.deep_view();
            let e = Seq::<Seq<ValueView>>::empty();
            setops::law_set_operation_counts(o, SetOp::Union, false, rv, e, v);
            assert(rv + e =~= rv);
            assert(setops::count(o, sorted.deep_view(), v) == setops::count(o, rv, v));
        }
    }
    r
}

} // verus!
