//! What each relational operator makes of its input rows.
use vstd::prelude::*;
use crate::order::ValueOrder;
use crate::setops;
use crate::setops::Rows;
use crate::sort;
use crate::value::{Row, Value, ValueView};

pub mod cursor;
pub mod meaning;
pub mod sides;

verus! {

// ---------------------------------------------------------------- filter

/// A predicate holds of a row when it evaluates to true: neither false nor NULL.
pub open spec fn holds(verdict: ValueView) -> bool {
    verdict == ValueView::Bool(true)
}

/// Those of the first `n` rows of which the predicate holds.
pub open spec fn kept(rows: Rows, verdicts: Seq<ValueView>, n: nat) -> Rows
    decreases n,
{
    if n == 0 {
        Seq::empty()
    } else {
        let head = kept(rows, verdicts, (n - 1) as nat);
        if holds(verdicts[n - 1]) {
            head.push(rows[n - 1])
        } else {
            head
        }
    }
}

pub(crate) fn is_true(v: &Value) -> (r: bool)
    ensures
        r == holds(v@),
{
    match v {
        Value::Bool(b) => *b,
        _ => false,
    }
}

/// The rows that pass a filter, of those that a verdict was reached on.
pub fn filter_rows(rows: &Vec<Row>, verdicts: &Vec<Value>) -> (r: Vec<Row>)
    requires
        verdicts@.len() <= rows@.len(),
    ensures
        r.deep_view() == kept(rows.deep_view(), verdicts.deep_view(), verdicts@.len()),
{
    let ghost rv = rows.deep_view();
    let ghost vv = verdicts.deep_view();
    let mut out: Vec<Row> = Vec::new();
    let mut i: usize = 0;
    assert(out.deep_view() =~= Seq::empty());
    while i < verdicts.len()
        invariant
            rv == rows.deep_view(),
            vv == verdicts.deep_view(),
            verdicts@.len() <= rows@.len(),
            i <= verdicts@.len(),
            out.deep_view() == kept(rv, vv, i as nat),
        decreases verdicts@.len() - i,
    {
        let ghost before = out.deep_view();
        assert(vv[i as int] == verdicts@[i as int]@);
        if is_true(&verdicts[i]) {
            let row = sort::clone_row(&rows[i]);
            assert(row.deep_view() == rv[i as int]);
            out.push(row);
            assert(out.deep_view() =~= before.push(rv[i as int]));
        }
        i += 1;
    }
    out
}

// ---------------------------------------------------------------- limit

/// `count` rows after the first `offset`, or as many as there are.
pub open spec fn limit_window(rows: Rows, offset: nat, count: nat) -> Rows {
    let lo = setops::smaller(offset, rows.len());
    let hi = setops::smaller(offset + count, rows.len());
    rows.subrange(lo as int, hi as int)
}

/// The rows of a `LIMIT` and `OFFSET`.
pub fn limit_rows(rows: &Vec<Row>, offset: u64, count: u64) -> (r: Vec<Row>)
    ensures
        r.deep_view() == limit_window(rows.deep_view(), offset as nat, count as nat),
{
    let ghost rv = rows.deep_view();
    let n: usize = rows.len();
    let lo: usize = if offset < n as u64 {
        offset as usize
    } else {
        n
    };
    let hi: usize = if count < (n - lo) as u64 {
        lo + count as usize
    } else {
        n
    };
    let mut out: Vec<Row> = Vec::new();
    let mut i: usize = lo;
    assert(out.deep_view() =~= rv.subrange(lo as int, lo as int));
    while i < hi
        invariant
            rv == rows.deep_view(),
            lo <= i <= hi <= rows@.len(),
            out.deep_view() == rv.subrange(lo as int, i as int),
        decreases hi - i,
    {
        let ghost before = out.deep_view();
        let row = sort::clone_row(&rows[i]);
        assert(row.deep_view() == rv[i as int]);
        out.push(row);
        assert(out.deep_view() =~= before.push(rv[i as int]));
        assert(rv.subrange(lo as int, i + 1) =~= rv.subrange(lo as int, i as int).push(rv[i as int]));
        i += 1;
    }
    out
}

// ---------------------------------------------------------------- distinct on

/// Those of the first `n` rows whose key no earlier row has.
pub open spec fn first_by_key<O: ValueOrder>(o: &O, rows: Rows, keys: sort::KeyRows, n: nat) -> Rows
    decreases n,
{
    if n == 0 {
        Seq::empty()
    } else {
        let head = first_by_key(o, rows, keys, (n - 1) as nat);
        if setops::member(o, keys.take(n - 1), keys[n - 1]) {
            head
        } else {
            head.push(rows[n - 1])
        }
    }
}

proof fn lemma_distinct_member<O: ValueOrder>(o: &O, keys: Rows, v: Seq<ValueView>)
    ensures
        setops::member(o, setops::distinct(o, keys), v) <==> setops::member(o, keys, v),
{
    let e = Seq::<Seq<ValueView>>::empty();
    setops::law_set_operation_counts(o, setops::SetOp::Union, false, keys, e, v);
    assert(keys + e =~= keys);
    setops::lemma_count_member(o, keys, v);
    setops::lemma_count_member(o, setops::distinct(o, keys), v);
}

/// The first row of each key.
pub fn distinct_on<O: ValueOrder>(o: &O, rows: &Vec<Row>, keys: &Vec<Vec<Value>>) -> (r: Vec<Row>)
    requires
        rows@.len() == keys@.len(),
    ensures
        r.deep_view() == first_by_key(o, rows.deep_view(), keys.deep_view(), rows@.len()),
{
    let ghost rv = rows.deep_view();
    let ghost kv = keys.deep_view();
    let mut seen: Vec<Row> = Vec::new();
    let mut out: Vec<Row> = Vec::new();
    let mut i: usize = 0;
    assert(out.deep_view() =~= Seq::empty());
    assert(seen.deep_view() =~= setops::distinct(o, kv.take(0)));
    while i < rows.len()
        invariant
            rv == rows.deep_view(),
            kv == keys.deep_view(),
            rows@.len() == keys@.len(),
            i <= rows@.len(),
            seen.deep_view() == setops::distinct(o, kv.take(i as int)),
            out.deep_view() == first_by_key(o, rv, kv, i as nat),
        decreases rows@.len() - i,
    {
        let ghost before = out.deep_view();
        let ghost known = seen.deep_view();
        assert(kv[i as int] == keys@[i as int].deep_view());
        assert(kv.take(i + 1).drop_last() =~= kv.take(i as int));
        assert(kv.take(i + 1).last() == kv[i as int]);
        proof {
            lemma_distinct_member(o, kv.take(i as int), kv[i as int]);
        }
        if !setops::contains_row(o, &seen, &keys[i]) {
            let key = sort::clone_row(&keys[i]);
            seen.push(key);
            assert(seen.deep_view() =~= known.push(kv[i as int]));
            let row = sort::clone_row(&rows[i]);
            assert(row.deep_view() == rv[i as int]);
            out.push(row);
            assert(out.deep_view() =~= before.push(rv[i as int]));
        }
        i += 1;
    }
    out
}

// ---------------------------------------------------------------- set-returning projection

/// What a set-returning projection makes of one input row: the scalar columns, among them a place
/// for the set's element, the elements, and further columns beside them.
pub struct Expansion {
    pub scalars: Row,
    pub pos: usize,
    pub elements: Vec<Value>,
    pub extra: Vec<Vec<Value>>,
}

pub struct ExpansionView {
    pub scalars: Seq<ValueView>,
    pub pos: usize,
    pub elements: Seq<ValueView>,
    pub extra: Seq<Seq<ValueView>>,
}

impl View for Expansion {
    type V = ExpansionView;

    open spec fn view(&self) -> ExpansionView {
        ExpansionView {
            scalars: self.scalars.deep_view(),
            pos: self.pos,
            elements: self.elements.deep_view(),
            extra: self.extra.deep_view(),
        }
    }
}

impl DeepView for Expansion {
    type V = ExpansionView;

    open spec fn deep_view(&self) -> ExpansionView {
        self@
    }
}

/// The row of the `i`-th element: the scalars with the element in its place, the further columns
/// (NULL where one is short), and the element's number with `ordinality`.
pub open spec fn element_row(e: ExpansionView, i: int, ordinality: bool) -> Seq<ValueView> {
    let own = if e.pos < e.scalars.len() {
        e.scalars.update(e.pos as int, e.elements[i])
    } else {
        e.scalars
    };
    let more = own + e.extra.map_values(
        |c: Seq<ValueView>|
            if i < c.len() {
                c[i]
            } else {
                ValueView::Null
            },
    );
    if ordinality {
        more.push(
            ValueView::Int(
                if i < i64::MAX {
                    (i + 1) as i64
                } else {
                    i64::MAX
                },
            ),
        )
    } else {
        more
    }
}

/// The rows of one expansion: one for each element.
pub open spec fn expansion_rows(e: ExpansionView, ordinality: bool) -> Rows {
    Seq::new(e.elements.len(), |i: int| element_row(e, i, ordinality))
}

/// The rows of the first `n` expansions.
pub open spec fn expanded(sets: Seq<ExpansionView>, ordinality: bool, n: nat) -> Rows
    decreases n,
{
    if n == 0 {
        Seq::empty()
    } else {
        expanded(sets, ordinality, (n - 1) as nat) + expansion_rows(sets[n - 1], ordinality)
    }
}

fn build_element_row(e: &Expansion, i: usize, ordinality: bool) -> (r: Row)
    requires
        i < e.elements@.len(),
    ensures
        r.deep_view() == element_row(e@, i as int, ordinality),
{
    let ghost view = e@;
    let mut row: Row = sort::clone_row(&e.scalars);
    if e.pos < row.len() {
        assert(view.elements[i as int] == e.elements@[i as int]@);
        let v = e.elements[i].clone();
        row.set(e.pos, v);
        assert(row.deep_view() =~= view.scalars.update(e.pos as int, view.elements[i as int]));
    }
    let ghost own = row.deep_view();
    let ghost more = view.extra.map_values(
        |c: Seq<ValueView>|
            if i < c.len() {
                c[i as int]
            } else {
                ValueView::Null
            },
    );
    let mut c: usize = 0;
    assert(own =~= own + more.take(0));
    while c < e.extra.len()
        invariant
            view == e@,
            c <= e.extra@.len(),
            more.len() == e.extra@.len(),
            forall|k: int|
                0 <= k < more.len() ==> #[trigger] more[k] == if i < view.extra[k].len() {
                    view.extra[k][i as int]
                } else {
                    ValueView::Null
                },
            row.deep_view() == own + more.take(c as int),
        decreases e.extra@.len() - c,
    {
        let ghost before = row.deep_view();
        assert(view.extra[c as int] == e.extra@[c as int].deep_view());
        let v: Value = if i < e.extra[c].len() {
            assert(view.extra[c as int][i as int] == e.extra@[c as int]@[i as int]@);
            e.extra[c][i].clone()
        } else {
            Value::Null
        };
        assert(v@ == more[c as int]);
        row.push(v);
        assert(row.deep_view() =~= before.push(v@));
        assert(more.take(c + 1) =~= more.take(c as int).push(more[c as int]));
        assert(row.deep_view() =~= own + more.take(c + 1));
        c += 1;
    }
    assert(more.take(more.len() as int) =~= more);
    if ordinality {
        let n: i64 = if (i as u64) < i64::MAX as u64 {
            i as i64 + 1
        } else {
            i64::MAX
        };
        let ghost before = row.deep_view();
        row.push(Value::Int(n));
        assert(row.deep_view() =~= before.push(ValueView::Int(n)));
    }
    row
}

/// Expand the sets of a set-returning projection: one row for each element, none for an empty set.
pub fn expand_sets(sets: &Vec<Expansion>, ordinality: bool) -> (r: Vec<Row>)
    ensures
        r.deep_view() == expanded(sets.deep_view(), ordinality, sets@.len()),
{
    let ghost sv = sets.deep_view();
    let mut out: Vec<Row> = Vec::new();
    let mut s: usize = 0;
    assert(out.deep_view() =~= Seq::empty());
    while s < sets.len()
        invariant
            sv == sets.deep_view(),
            s <= sets@.len(),
            out.deep_view() == expanded(sv, ordinality, s as nat),
        decreases sets@.len() - s,
    {
        let ghost start = out.deep_view();
        let ghost e = sv[s as int];
        assert(e == sets@[s as int]@);
        let ghost want = expansion_rows(e, ordinality);
        let mut i: usize = 0;
        assert(start =~= start + want.take(0));
        while i < sets[s].elements.len()
            invariant
                s < sets@.len(),
                e == sets@[s as int]@,
                want == expansion_rows(e, ordinality),
                i <= sets@[s as int].elements@.len(),
                out.deep_view() == start + want.take(i as int),
            decreases sets@[s as int].elements@.len() - i,
        {
            let ghost before = out.deep_view();
            let row = build_element_row(&sets[s], i, ordinality);
            assert(row.deep_view() == want[i as int]);
            out.push(row);
            assert(out.deep_view() =~= before.push(want[i as int]));
            assert(want.take(i + 1) =~= want.take(i as int).push(want[i as int]));
            assert(out.deep_view() =~= start + want.take(i + 1));
            i += 1;
        }
        assert(want.take(want.len() as int) =~= want);
        s += 1;
    }
    out
}

// ---------------------------------------------------------------- joins

#[derive(Clone, Copy, Debug, PartialEq, Eq, Structural)]
pub enum JoinKind {
    Inner,
    Left,
    Right,
    Full,
    Cross,
}

/// Whether an unmatched left row is kept.
pub open spec fn keeps_left(kind: JoinKind) -> bool {
    kind is Left || kind is Full
}

/// Whether an unmatched right row is kept.
pub open spec fn keeps_right(kind: JoinKind) -> bool {
    kind is Right || kind is Full
}

/// `n` NULLs.
pub open spec fn nulls(n: nat) -> Seq<ValueView> {
    Seq::new(n, |i: int| ValueView::Null)
}

/// The left row with each of the first `n` right rows that it matches.
pub open spec fn pairs(left: Seq<ValueView>, right: Rows, matches: Seq<usize>, n: nat) -> Rows
    decreases n,
{
    if n == 0 {
        Seq::empty()
    } else {
        let head = pairs(left, right, matches, (n - 1) as nat);
        if matches[n - 1] < right.len() {
            head.push(left + right[matches[n - 1] as int])
        } else {
            head
        }
    }
}

/// What one left row adds to a join: its pairs in the order of its matches, or the row alone, with
/// NULLs for the right columns, where it has no pair and the join keeps it.
pub open spec fn probe_rows(
    left: Seq<ValueView>,
    right: Rows,
    matches: Seq<usize>,
    kind: JoinKind,
    right_width: nat,
) -> Rows {
    let found = pairs(left, right, matches, matches.len());
    if found.len() == 0 && keeps_left(kind) {
        seq![left + nulls(right_width)]
    } else {
        found
    }
}

/// What the first `n` left rows add to a join.
pub open spec fn probed(
    left: Rows,
    right: Rows,
    matches: Seq<Seq<usize>>,
    kind: JoinKind,
    right_width: nat,
    n: nat,
) -> Rows
    decreases n,
{
    if n == 0 {
        Seq::empty()
    } else {
        probed(left, right, matches, kind, right_width, (n - 1) as nat) + probe_rows(
            left[n - 1],
            right,
            matches[n - 1],
            kind,
            right_width,
        )
    }
}

/// Some left row matches the right row `j`.
pub open spec fn is_matched(matches: Seq<Seq<usize>>, j: int) -> bool {
    exists|i: int| 0 <= i < matches.len() && sort::lists(#[trigger] matches[i], j)
}

/// Those of the first `n` right rows that no left row matches, with NULLs for the left columns.
pub open spec fn unmatched_right(right: Rows, matches: Seq<Seq<usize>>, left_width: nat, n: nat) -> Rows
    decreases n,
{
    if n == 0 {
        Seq::empty()
    } else {
        let head = unmatched_right(right, matches, left_width, (n - 1) as nat);
        if is_matched(matches, n - 1) {
            head
        } else {
            head.push(nulls(left_width) + right[n - 1])
        }
    }
}

/// The rows of a join: what each left row adds, in order, and then, where the join keeps them, the
/// right rows without a match.
pub open spec fn joined(
    left: Rows,
    right: Rows,
    matches: Seq<Seq<usize>>,
    kind: JoinKind,
    left_width: nat,
    right_width: nat,
) -> Rows {
    probed(left, right, matches, kind, right_width, left.len()) + if keeps_right(kind) {
        unmatched_right(right, matches, left_width, right.len())
    } else {
        Seq::empty()
    }
}

pub(crate) fn concat_rows(a: &Row, b: &Row) -> (r: Row)
    ensures
        r.deep_view() == a.deep_view() + b.deep_view(),
{
    let ghost av = a.deep_view();
    let ghost bv = b.deep_view();
    let mut row: Row = sort::clone_row(a);
    let mut i: usize = 0;
    assert(av =~= av + bv.take(0));
    while i < b.len()
        invariant
            bv == b.deep_view(),
            i <= b@.len(),
            row.deep_view() == av + bv.take(i as int),
        decreases b@.len() - i,
    {
        let ghost before = row.deep_view();
        assert(bv[i as int] == b@[i as int]@);
        let v = b[i].clone();
        row.push(v);
        assert(row.deep_view() =~= before.push(bv[i as int]));
        assert(bv.take(i + 1) =~= bv.take(i as int).push(bv[i as int]));
        assert(row.deep_view() =~= av + bv.take(i + 1));
        i += 1;
    }
    assert(bv.take(bv.len() as int) =~= bv);
    row
}

pub(crate) fn null_row(n: usize) -> (r: Row)
    ensures
        r.deep_view() == nulls(n as nat),
{
    let mut row: Row = Vec::new();
    let mut i: usize = 0;
    while i < n
        invariant
            i <= n,
            row@.len() == i,
            forall|k: int| 0 <= k < i ==> (#[trigger] row@[k])@ == ValueView::Null,
        decreases n - i,
    {
        row.push(Value::Null);
        i += 1;
    }
    assert(row.deep_view() =~= nulls(n as nat));
    row
}

/// What one left row adds to a join.
pub(crate) fn push_probe(
    left: &Row,
    right: &Vec<Row>,
    matches: &Vec<usize>,
    kind: JoinKind,
    right_width: usize,
    out: &mut Vec<Row>,
)
    ensures
        final(out).deep_view() == old(out).deep_view() + probe_rows(
            left.deep_view(),
            right.deep_view(),
            matches@,
            kind,
            right_width as nat,
        ),
{
    let ghost start = out.deep_view();
    let ghost lv = left.deep_view();
    let ghost rv = right.deep_view();
    let mut any: bool = false;
    let mut m: usize = 0;
    assert(start =~= start + pairs(lv, rv, matches@, 0));
    while m < matches.len()
        invariant
            lv == left.deep_view(),
            rv == right.deep_view(),
            m <= matches@.len(),
            out.deep_view() == start + pairs(lv, rv, matches@, m as nat),
            any == (pairs(lv, rv, matches@, m as nat).len() > 0),
        decreases matches@.len() - m,
    {
        let ghost before = out.deep_view();
        let j: usize = matches[m];
        if j < right.len() {
            assert(rv[j as int] == right@[j as int].deep_view());
            let row = concat_rows(left, &right[j]);
            out.push(row);
            assert(out.deep_view() =~= before.push(lv + rv[j as int]));
            any = true;
        }
        assert(out.deep_view() =~= start + pairs(lv, rv, matches@, (m + 1) as nat));
        m += 1;
    }
    let keep: bool = match kind {
        JoinKind::Left | JoinKind::Full => true,
        _ => false,
    };
    if keep && !any {
        let ghost before = out.deep_view();
        let pad = null_row(right_width);
        let row = concat_rows(left, &pad);
        out.push(row);
        assert(out.deep_view() =~= before.push(lv + nulls(right_width as nat)));
        assert(out.deep_view() =~= start + seq![lv + nulls(right_width as nat)]);
    }
}

/// Join rows by the matches found for each left row.
pub fn join_rows(
    left: &Vec<Row>,
    right: &Vec<Row>,
    matches: &Vec<Vec<usize>>,
    kind: JoinKind,
    left_width: usize,
    right_width: usize,
) -> (r: Vec<Row>)
    requires
        matches@.len() == left@.len(),
    ensures
        r.deep_view() == joined(
            left.deep_view(),
            right.deep_view(),
            matches.deep_view(),
            kind,
            left_width as nat,
            right_width as nat,
        ),
{
    let ghost lv = left.deep_view();
    let ghost rv = right.deep_view();
    let ghost mv = matches.deep_view();
    let mut out: Vec<Row> = Vec::new();
    let mut flags: Vec<bool> = Vec::new();
    let mut j: usize = 0;
    while j < right.len()
        invariant
            j <= right@.len(),
            flags@.len() == j,
            forall|k: int| 0 <= k < j ==> #[trigger] flags@[k] == false,
        decreases right@.len() - j,
    {
        flags.push(false);
        j += 1;
    }
    let mut i: usize = 0;
    assert(out.deep_view() =~= Seq::empty());
    assert forall|k: int| 0 <= k < flags@.len() implies #[trigger] flags@[k] == is_matched(mv.take(0), k) by {
        assert(mv.take(0).len() == 0);
    }
    while i < left.len()
        invariant
            lv == left.deep_view(),
            rv == right.deep_view(),
            mv == matches.deep_view(),
            matches@.len() == left@.len(),
            flags@.len() == right@.len(),
            i <= left@.len(),
            out.deep_view() == probed(lv, rv, mv, kind, right_width as nat, i as nat),
            forall|k: int|
                0 <= k < flags@.len() ==> #[trigger] flags@[k] == is_matched(mv.take(i as int), k),
        decreases left@.len() - i,
    {
        assert(lv[i as int] == left@[i as int].deep_view());
        assert(mv[i as int] =~= matches@[i as int]@);
        push_probe(&left[i], right, &matches[i], kind, right_width, &mut out);
        mark(&mut flags, &matches[i]);
        proof {
            assert forall|k: int| 0 <= k < flags@.len() implies #[trigger] flags@[k] == is_matched(
                mv.take(i + 1),
                k,
            ) by {
                let now = mv.take(i + 1);
                let was = mv.take(i as int);
                if is_matched(was, k) {
                    let a = choose|a: int| 0 <= a < was.len() && sort::lists(#[trigger] was[a], k);
                    assert(now[a] == was[a]);
                }
                if sort::lists(mv[i as int], k) {
                    assert(now[i as int] == mv[i as int]);
                }
                if is_matched(now, k) {
                    let a = choose|a: int| 0 <= a < now.len() && sort::lists(#[trigger] now[a], k);
                    if a < i {
                        assert(was[a] == now[a]);
                    }
                }
            }
        }
        i += 1;
    }
    assert(mv.take(mv.len() as int) =~= mv);
    let keep: bool = match kind {
        JoinKind::Right | JoinKind::Full => true,
        _ => false,
    };
    let ghost found = out.deep_view();
    if keep {
        let mut k: usize = 0;
        assert(found =~= found + unmatched_right(rv, mv, left_width as nat, 0));
        while k < right.len()
            invariant
                rv == right.deep_view(),
                flags@.len() == right@.len(),
                forall|x: int| 0 <= x < flags@.len() ==> #[trigger] flags@[x] == is_matched(mv, x),
                k <= right@.len(),
                out.deep_view() == found + unmatched_right(rv, mv, left_width as nat, k as nat),
            decreases right@.len() - k,
        {
            let ghost before = out.deep_view();
            if !flags[k] {
                assert(rv[k as int] == right@[k as int].deep_view());
                let pad = null_row(left_width);
                let row = concat_rows(&pad, &right[k]);
                out.push(row);
                assert(out.deep_view() =~= before.push(nulls(left_width as nat) + rv[k as int]));
            }
            assert(out.deep_view() =~= found + unmatched_right(
                rv,
                mv,
                left_width as nat,
                (k + 1) as nat,
            ));
            k += 1;
        }
    } else {
        assert(found =~= found + Seq::empty());
    }
    out
}

/// Mark the right rows that one left row matches.
pub(crate) fn mark(flags: &mut Vec<bool>, matches: &Vec<usize>)
    ensures
        final(flags)@.len() == old(flags)@.len(),
        forall|k: int|
            0 <= k < old(flags)@.len() ==> #[trigger] final(flags)@[k] == (old(flags)@[k] || sort::lists(
                matches@,
                k,
            )),
{
    let ghost start = flags@;
    let mut m: usize = 0;
    proof {
        assert forall|k: int| 0 <= k < start.len() implies !sort::lists(matches@.take(0), k) by {}
    }
    while m < matches.len()
        invariant
            m <= matches@.len(),
            flags@.len() == start.len(),
            forall|k: int|
                0 <= k < start.len() ==> #[trigger] flags@[k] == (start[k] || sort::lists(
                    matches@.take(m as int),
                    k,
                )),
        decreases matches@.len() - m,
    {
        let j: usize = matches[m];
        let ghost prior = flags@;
        if j < flags.len() {
            flags.set(j, true);
        }
        proof {
            assert forall|k: int| 0 <= k < start.len() implies #[trigger] flags@[k] == (start[k]
                || sort::lists(matches@.take(m + 1), k)) by {
                let now = matches@.take(m + 1);
                let was = matches@.take(m as int);
                assert(prior[k] == (start[k] || sort::lists(was, k)));
                if sort::lists(was, k) {
                    let a = choose|a: int| 0 <= a < was.len() && #[trigger] was[a] == k;
                    assert(now[a] == k);
                }
                if sort::lists(now, k) {
                    let a = choose|a: int| 0 <= a < now.len() && #[trigger] now[a] == k;
                    if a < m {
                        assert(was[a] == k);
                    }
                }
                if j == k {
                    assert(now[m as int] == k);
                }
            }
        }
        m += 1;
    }
    assert(matches@.take(matches@.len() as int) =~= matches@);
}

/// What the first `n` right rows add to an inner join that is probed from the right: each right row
/// with the left rows that it matches. That an executed join built on the left gives its rows in the
/// order of the right ones is taken as given.
pub open spec fn probed_right(left: Rows, right: Rows, matches: Seq<Seq<usize>>, n: nat) -> Rows
    decreases n,
{
    if n == 0 {
        Seq::empty()
    } else {
        probed_right(left, right, matches, (n - 1) as nat) + left_pairs(
            left,
            right[n - 1],
            matches[n - 1],
            matches[n - 1].len(),
        )
    }
}

/// Each of the first `n` left rows that the right row matches, with it.
pub open spec fn left_pairs(left: Rows, right: Seq<ValueView>, matches: Seq<usize>, n: nat) -> Rows
    decreases n,
{
    if n == 0 {
        Seq::empty()
    } else {
        let head = left_pairs(left, right, matches, (n - 1) as nat);
        if matches[n - 1] < left.len() {
            head.push(left[matches[n - 1] as int] + right)
        } else {
            head
        }
    }
}

/// What one right row adds to an inner join that is probed from the right.
pub(crate) fn push_left_pairs(left: &Vec<Row>, right: &Row, matches: &Vec<usize>, out: &mut Vec<Row>)
    ensures
        final(out).deep_view() == old(out).deep_view() + left_pairs(
            left.deep_view(),
            right.deep_view(),
            matches@,
            matches@.len(),
        ),
{
    let ghost lv = left.deep_view();
    let ghost rv = right.deep_view();
    let ghost start = out.deep_view();
    let mut m: usize = 0;
    assert(start =~= start + left_pairs(lv, rv, matches@, 0));
    while m < matches.len()
        invariant
            lv == left.deep_view(),
            rv == right.deep_view(),
            m <= matches@.len(),
            out.deep_view() == start + left_pairs(lv, rv, matches@, m as nat),
        decreases matches@.len() - m,
    {
        let ghost before = out.deep_view();
        let j: usize = matches[m];
        if j < left.len() {
            assert(lv[j as int] == left@[j as int].deep_view());
            let row = concat_rows(&left[j], right);
            out.push(row);
            assert(out.deep_view() =~= before.push(lv[j as int] + rv));
        }
        assert(out.deep_view() =~= start + left_pairs(lv, rv, matches@, (m + 1) as nat));
        m += 1;
    }
}

/// An inner join probed from the right, by the matches found for each right row.
pub fn join_rows_left_build(left: &Vec<Row>, right: &Vec<Row>, matches: &Vec<Vec<usize>>) -> (r: Vec<Row>)
    requires
        matches@.len() == right@.len(),
    ensures
        r.deep_view() == probed_right(
            left.deep_view(),
            right.deep_view(),
            matches.deep_view(),
            right@.len(),
        ),
{
    let ghost lv = left.deep_view();
    let ghost rv = right.deep_view();
    let ghost mv = matches.deep_view();
    let mut out: Vec<Row> = Vec::new();
    let mut i: usize = 0;
    assert(out.deep_view() =~= Seq::empty());
    while i < right.len()
        invariant
            lv == left.deep_view(),
            rv == right.deep_view(),
            mv == matches.deep_view(),
            matches@.len() == right@.len(),
            i <= right@.len(),
            out.deep_view() == probed_right(lv, rv, mv, i as nat),
        decreases right@.len() - i,
    {
        assert(mv[i as int] =~= matches@[i as int]@);
        assert(rv[i as int] == right@[i as int].deep_view());
        push_left_pairs(left, &right[i], &matches[i], &mut out);
        i += 1;
    }
    out
}

/// Every row of a side that an outer join keeps is in its result: a left row as the head of a row, a
/// right row as the tail of one.
pub proof fn law_outer_join_keeps_every_row(
    left: Rows,
    right: Rows,
    matches: Seq<Seq<usize>>,
    kind: JoinKind,
    left_width: nat,
    right_width: nat,
    k: int,
)
    requires
        matches.len() == left.len(),
    ensures
        keeps_left(kind) && 0 <= k < left.len() ==> exists|x: Seq<ValueView>|
            joined(left, right, matches, kind, left_width, right_width).contains(
                #[trigger] (left[k] + x),
            ),
        keeps_right(kind) && 0 <= k < right.len() ==> exists|x: Seq<ValueView>|
            joined(left, right, matches, kind, left_width, right_width).contains(
                #[trigger] (x + right[k]),
            ),
{
    let out = joined(left, right, matches, kind, left_width, right_width);
    let head = probed(left, right, matches, kind, right_width, left.len());
    if keeps_left(kind) && 0 <= k < left.len() {
        lemma_probed_has(left, right, matches, kind, right_width, left.len(), k);
        let x = choose|x: Seq<ValueView>| head.contains(#[trigger] (left[k] + x));
        let a = choose|a: int| 0 <= a < head.len() && head[a] == left[k] + x;
        assert(out[a] == left[k] + x);
        assert(out.contains(left[k] + x));
    }
    if keeps_right(kind) && 0 <= k < right.len() {
        let tail = unmatched_right(right, matches, left_width, right.len());
        if is_matched(matches, k) {
            let i = choose|i: int| 0 <= i < matches.len() && sort::lists(#[trigger] matches[i], k);
            let m = choose|m: int| 0 <= m < matches[i].len() && #[trigger] matches[i][m] == k;
            lemma_pairs_has(left[i], right, matches[i], matches[i].len(), m);
            let found = pairs(left[i], right, matches[i], matches[i].len());
            let b = choose|b: int| 0 <= b < found.len() && found[b] == left[i] + right[k];
            lemma_probed_part(left, right, matches, kind, right_width, left.len(), i, b);
            let a = choose|a: int| 0 <= a < head.len() && head[a] == left[i] + right[k];
            assert(out[a] == left[i] + right[k]);
            assert(out.contains(left[i] + right[k]));
        } else {
            lemma_unmatched_has(right, matches, left_width, right.len(), k);
            let a = choose|a: int|
                0 <= a < tail.len() && tail[a] == nulls(left_width) + right[k];
            assert(out[head.len() + a] == nulls(left_width) + right[k]);
            assert(out.contains(nulls(left_width) + right[k]));
        }
    }
}

proof fn lemma_pairs_has(left: Seq<ValueView>, right: Rows, matches: Seq<usize>, n: nat, m: int)
    requires
        0 <= m < n <= matches.len(),
        matches[m] < right.len(),
    ensures
        pairs(left, right, matches, n).contains(left + right[matches[m] as int]),
    decreases n,
{
    let all = pairs(left, right, matches, n);
    let head = pairs(left, right, matches, (n - 1) as nat);
    let x = left + right[matches[m] as int];
    if m == n - 1 {
        assert(all[head.len() as int] == x);
    } else {
        lemma_pairs_has(left, right, matches, (n - 1) as nat, m);
        let a = choose|a: int| 0 <= a < head.len() && head[a] == x;
        assert(all[a] == x);
    }
}

proof fn lemma_probed_part(
    left: Rows,
    right: Rows,
    matches: Seq<Seq<usize>>,
    kind: JoinKind,
    right_width: nat,
    n: nat,
    i: int,
    b: int,
)
    requires
        0 <= i < n <= left.len(),
        0 <= b < probe_rows(left[i], right, matches[i], kind, right_width).len(),
    ensures
        probed(left, right, matches, kind, right_width, n).contains(
            probe_rows(left[i], right, matches[i], kind, right_width)[b],
        ),
    decreases n,
{
    let all = probed(left, right, matches, kind, right_width, n);
    let head = probed(left, right, matches, kind, right_width, (n - 1) as nat);
    let x = probe_rows(left[i], right, matches[i], kind, right_width)[b];
    if i == n - 1 {
        assert(all[head.len() + b] == x);
    } else {
        lemma_probed_part(left, right, matches, kind, right_width, (n - 1) as nat, i, b);
        let a = choose|a: int| 0 <= a < head.len() && head[a] == x;
        assert(all[a] == x);
    }
}

proof fn lemma_pairs_head(left: Seq<ValueView>, right: Rows, matches: Seq<usize>, n: nat)
    requires
        n <= matches.len(),
        pairs(left, right, matches, n).len() > 0,
    ensures
        exists|x: Seq<ValueView>| pairs(left, right, matches, n)[0] == #[trigger] (left + x),
    decreases n,
{
    if n > 0 {
        let head = pairs(left, right, matches, (n - 1) as nat);
        if head.len() > 0 {
            lemma_pairs_head(left, right, matches, (n - 1) as nat);
            let x = choose|x: Seq<ValueView>| head[0] == #[trigger] (left + x);
            assert(pairs(left, right, matches, n)[0] == left + x);
        } else {
            assert(pairs(left, right, matches, n)[0] == left + right[matches[n - 1] as int]);
        }
    }
}

proof fn lemma_probed_has(
    left: Rows,
    right: Rows,
    matches: Seq<Seq<usize>>,
    kind: JoinKind,
    right_width: nat,
    n: nat,
    k: int,
)
    requires
        keeps_left(kind),
        0 <= k < n <= left.len(),
    ensures
        exists|x: Seq<ValueView>|
            probed(left, right, matches, kind, right_width, n).contains(#[trigger] (left[k] + x)),
{
    let own = probe_rows(left[k], right, matches[k], kind, right_width);
    let found = pairs(left[k], right, matches[k], matches[k].len());
    assert(own.len() > 0);
    lemma_probed_part(left, right, matches, kind, right_width, n, k, 0);
    if found.len() > 0 {
        lemma_pairs_head(left[k], right, matches[k], matches[k].len());
        let x = choose|x: Seq<ValueView>| found[0] == #[trigger] (left[k] + x);
        assert(own[0] == left[k] + x);
    } else {
        assert(own[0] == left[k] + nulls(right_width));
    }
}

proof fn lemma_unmatched_has(
    right: Rows,
    matches: Seq<Seq<usize>>,
    left_width: nat,
    n: nat,
    k: int,
)
    requires
        0 <= k < n <= right.len(),
        !is_matched(matches, k),
    ensures
        unmatched_right(right, matches, left_width, n).contains(nulls(left_width) + right[k]),
    decreases n,
{
    let all = unmatched_right(right, matches, left_width, n);
    let head = unmatched_right(right, matches, left_width, (n - 1) as nat);
    let x = nulls(left_width) + right[k];
    if k == n - 1 {
        assert(all[head.len() as int] == x);
    } else {
        lemma_unmatched_has(right, matches, left_width, (n - 1) as nat, k);
        let a = choose|a: int| 0 <= a < head.len() && head[a] == x;
        assert(all[a] == x);
    }
}

/// Whether to build the hash table of an inner join on the left side: where that side is at most a
/// quarter of the other.
pub open spec fn builds_left(kind: JoinKind, merges_columns: bool, left: nat, right: nat) -> bool {
    kind is Inner && !merges_columns && left * 4 <= right
}

/// Whether to build the hash table of an inner join on the left side.
pub fn choose_build_side(kind: JoinKind, merges_columns: bool, left: usize, right: usize) -> (r: bool)
    ensures
        r == builds_left(kind, merges_columns, left as nat, right as nat),
{
    match kind {
        JoinKind::Inner => !merges_columns && left <= right / 4,
        _ => false,
    }
}

// ---------------------------------------------------------------- lateral join

/// What one left row adds to a lateral join: the pairs with its right rows of which the predicate
/// holds, or the row alone where it has none and the join keeps it.
pub open spec fn lateral_rows(
    pairs: Rows,
    verdicts: Seq<ValueView>,
    left: Seq<ValueView>,
    kind: JoinKind,
    right_width: nat,
) -> Rows {
    let found = kept(pairs, verdicts, verdicts.len());
    if found.len() == 0 && keeps_left(kind) {
        seq![left + nulls(right_width)]
    } else {
        found
    }
}

/// A left row with each of its right rows.
pub open spec fn all_pairs(left: Seq<ValueView>, right: Rows) -> Rows {
    right.map_values(|r: Seq<ValueView>| left + r)
}

/// A left row with each of its right rows.
pub fn pair_rows(left: &Row, right: &Vec<Row>) -> (r: Vec<Row>)
    ensures
        r.deep_view() == all_pairs(left.deep_view(), right.deep_view()),
{
    let mut out: Vec<Row> = Vec::new();
    let mut i: usize = 0;
    while i < right.len()
        invariant
            i <= right@.len(),
            out@.len() == i,
            forall|k: int|
                0 <= k < i ==> (#[trigger] out@[k]).deep_view() == left.deep_view()
                    + right@[k].deep_view(),
        decreases right@.len() - i,
    {
        out.push(concat_rows(left, &right[i]));
        i += 1;
    }
    assert(out.deep_view() =~= all_pairs(left.deep_view(), right.deep_view()));
    out
}

/// What one left row adds to a lateral join.
pub fn lateral_step(
    pairs: &Vec<Row>,
    verdicts: &Vec<Value>,
    left: &Row,
    kind: JoinKind,
    right_width: usize,
) -> (r: Vec<Row>)
    requires
        verdicts@.len() <= pairs@.len(),
    ensures
        r.deep_view() == lateral_rows(
            pairs.deep_view(),
            verdicts.deep_view(),
            left.deep_view(),
            kind,
            right_width as nat,
        ),
{
    let mut out = filter_rows(pairs, verdicts);
    let keep: bool = match kind {
        JoinKind::Left | JoinKind::Full => true,
        _ => false,
    };
    if keep && out.len() == 0 {
        let pad = null_row(right_width);
        let row = concat_rows(left, &pad);
        out.push(row);
        assert(out.deep_view() =~= seq![left.deep_view() + nulls(right_width as nat)]);
    }
    out
}

} // verus!
