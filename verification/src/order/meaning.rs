//! What the orders of values and rows mean.
use vstd::prelude::*;
use vstd::arithmetic::power::{lemma_pow_adds, lemma_pow_positive, pow};
use vstd::utf8::*;
use crate::order;
use crate::order::{NullOrdering, Order, SortKey, ValueOrder};
use crate::value::{Decimal, Interval, ValueView};

verus! {

/// Numbers and times of one type stand as the integers that they are: the lesser one first.
pub proof fn law_integers_stand_by_size(x: i64, y: i64)
    ensures
        order::value_order(ValueView::Int(x), ValueView::Int(y)) is Less <==> x < y,
        order::value_order(ValueView::Int(x), ValueView::Int(y)) is Greater <==> x > y,
        order::value_order(ValueView::Time(x), ValueView::Time(y)) is Less <==> x < y,
        order::value_order(ValueView::Time(x), ValueView::Time(y)) is Greater <==> x > y,
        order::value_order(ValueView::TimeTz(x), ValueView::TimeTz(y)) is Less <==> x < y,
        order::value_order(ValueView::TimeTz(x), ValueView::TimeTz(y)) is Greater <==> x > y,
        order::value_order(ValueView::Timestamp(x), ValueView::Timestamp(y)) is Less <==> x < y,
        order::value_order(ValueView::Timestamp(x), ValueView::Timestamp(y)) is Greater <==> x > y,
        order::value_order(ValueView::TimestampTz(x), ValueView::TimestampTz(y)) is Less <==> x < y,
        order::value_order(ValueView::TimestampTz(x), ValueView::TimestampTz(y)) is Greater <==> x > y,
{
    reveal(order::value_order);
}

/// Dates stand as their day numbers: the earlier one first.
pub proof fn law_dates_stand_by_day(x: i32, y: i32)
    ensures
        order::value_order(ValueView::Date(x), ValueView::Date(y)) is Less <==> x < y,
        order::value_order(ValueView::Date(x), ValueView::Date(y)) is Equal <==> x == y,
        order::value_order(ValueView::Date(x), ValueView::Date(y)) is Greater <==> x > y,
{
    reveal(order::value_order);
}

/// False stands before true.
pub proof fn law_false_stands_before_true(x: bool, y: bool)
    ensures
        order::value_order(ValueView::Bool(x), ValueView::Bool(y)) is Less <==> !x && y,
        order::value_order(ValueView::Bool(x), ValueView::Bool(y)) is Equal <==> x == y,
{
    reveal(order::value_order);
}

/// Floats stand by size, told from their bits: the top bit is the sign, and the others grow with the
/// magnitude. So a negative one stands before a positive one, of two positive ones the one with the
/// lesser bits comes first, and of two negative ones that with the greater bits.
pub proof fn law_floats_stand_by_size(x: u64, y: u64)
    ensures
        ({
            let half = 0x8000_0000_0000_0000u64;
            let o = order::value_order(ValueView::Float(x), ValueView::Float(y));
            &&& x < half && y < half ==> (o is Less <==> x < y)
            &&& x >= half && y >= half ==> (o is Less <==> x > y)
            &&& x >= half && y < half ==> o is Less
            &&& x < half && y >= half ==> o is Greater
            &&& o is Equal <==> x == y
        }),
{
    reveal(order::value_order);
}

/// Byte strings differ first at `i`, or one ends there.
pub open spec fn part_at(a: Seq<u8>, b: Seq<u8>, i: int) -> bool {
    &&& 0 <= i <= a.len()
    &&& i <= b.len()
    &&& a.take(i) == b.take(i)
    &&& i < a.len() && i < b.len() ==> a[i] != b[i]
}

/// Byte strings stand as the first byte in which they differ, and one that is cut short stands before
/// the whole.
pub proof fn law_bytes_stand_by_the_first_difference(a: Seq<u8>, b: Seq<u8>, i: int)
    requires
        part_at(a, b, i),
        i < a.len() || i < b.len(),
    ensures
        order::lex_order(a, b) is Less <==> i == a.len() || (i < b.len() && a[i] < b[i]),
        order::lex_order(a, b) is Greater <==> i == b.len() || (i < a.len() && a[i] > b[i]),
    decreases i,
{
    if i > 0 {
        assert(a[0] == a.take(i)[0]);
        assert(b[0] == b.take(i)[0]);
        assert(a.skip(1).take(i - 1) =~= a.take(i).skip(1));
        assert(b.skip(1).take(i - 1) =~= b.take(i).skip(1));
        law_bytes_stand_by_the_first_difference(a.skip(1), b.skip(1), i - 1);
    }
}

/// Binary strings and identifiers stand as their bytes do; texts and documents as the bytes of their
/// encodings do.
pub proof fn law_strings_stand_as_their_bytes(a: Seq<u8>, b: Seq<u8>, s: Seq<char>, t: Seq<char>, i: int, j: int)
    requires
        part_at(a, b, i),
        i < a.len() || i < b.len(),
        part_at(encode_utf8(s), encode_utf8(t), j),
        j < encode_utf8(s).len() || j < encode_utf8(t).len(),
    ensures
        order::value_order(ValueView::Bytes(a), ValueView::Bytes(b)) is Less <==> i == a.len() || (i
            < b.len() && a[i] < b[i]),
        order::value_order(ValueView::Uuid(a), ValueView::Uuid(b)) is Less <==> i == a.len() || (i
            < b.len() && a[i] < b[i]),
        order::value_order(ValueView::Text(s), ValueView::Text(t)) is Less <==> j == encode_utf8(s).len()
            || (j < encode_utf8(t).len() && encode_utf8(s)[j] < encode_utf8(t)[j]),
        order::value_order(ValueView::Json(s), ValueView::Json(t)) is Less <==> j == encode_utf8(s).len()
            || (j < encode_utf8(t).len() && encode_utf8(s)[j] < encode_utf8(t)[j]),
{
    reveal(order::value_order);
    law_bytes_stand_by_the_first_difference(a, b, i);
    law_bytes_stand_by_the_first_difference(encode_utf8(s), encode_utf8(t), j);
}

proof fn lemma_pow10(n: nat)
    ensures
        order::pow10(n) == pow(10, n),
    decreases n,
{
    reveal(pow);
    if n > 0 {
        lemma_pow10((n - 1) as nat);
    }
}

/// Decimals stand by the numbers that they stand for: a mantissa divided by a power of ten.
pub proof fn law_decimals_stand_by_size(a: Decimal, b: Decimal)
    ensures
        order::value_order(ValueView::Numeric(a), ValueView::Numeric(b)) is Less <==> a.mantissa * pow(
            10,
            b.scale as nat,
        ) < b.mantissa * pow(10, a.scale as nat),
        order::value_order(ValueView::Numeric(a), ValueView::Numeric(b)) is Equal <==> a.mantissa * pow(
            10,
            b.scale as nat,
        ) == b.mantissa * pow(10, a.scale as nat),
{
    reveal(order::value_order);
    let m = a.mantissa as int;
    let k = b.mantissa as int;
    let sa = pow(10, a.scale as nat);
    let sb = pow(10, b.scale as nat);
    let ra = pow(10, (255 - a.scale) as nat);
    let rb = pow(10, (255 - b.scale) as nat);
    let whole = pow(10, 255);
    lemma_pow10((255 - a.scale) as nat);
    lemma_pow10((255 - b.scale) as nat);
    lemma_pow_adds(10, a.scale as nat, (255 - a.scale) as nat);
    lemma_pow_adds(10, b.scale as nat, (255 - b.scale) as nat);
    lemma_pow_positive(10, a.scale as nat);
    lemma_pow_positive(10, b.scale as nat);
    lemma_pow_positive(10, (255 - a.scale) as nat);
    lemma_pow_positive(10, (255 - b.scale) as nat);
    assert(sa * ra == whole && sb * rb == whole);
    // Both sides times the positive number `ra * rb`, divided by the positive number `whole`.
    let x = m * ra;
    let y = k * rb;
    let u = m * sb;
    let v = k * sa;
    assert(u * (ra * rb) == x * whole) by (nonlinear_arith)
        requires
            x == m * ra,
            u == m * sb,
            sb * rb == whole,
    ;
    assert(v * (ra * rb) == y * whole) by (nonlinear_arith)
        requires
            y == k * rb,
            v == k * sa,
            sa * ra == whole,
    ;
    let p = ra * rb;
    assert(p > 0) by (nonlinear_arith)
        requires
            ra > 0,
            rb > 0,
            p == ra * rb,
    ;
    lemma_pow_positive(10, 255);
    assert((x < y <==> u < v) && (x == y <==> u == v)) by (nonlinear_arith)
        requires
            p > 0,
            whole > 0,
            u * p == x * whole,
            v * p == y * whole,
    ;
}

/// Intervals stand by their length, a month counted as thirty days and a day as 24 hours; of two that
/// are equally long the one with fewer months comes first, or with as many, that with fewer days.
pub proof fn law_intervals_stand_by_length(a: Interval, b: Interval)
    ensures
        ({
            let x = a.months * 2_592_000_000_000 + a.days * 86_400_000_000 + a.micros;
            let y = b.months * 2_592_000_000_000 + b.days * 86_400_000_000 + b.micros;
            let o = order::value_order(ValueView::Interval(a), ValueView::Interval(b));
            &&& x < y ==> o is Less
            &&& x > y ==> o is Greater
            &&& x == y ==> (o is Less <==> a.months < b.months || (a.months == b.months && a.days
                < b.days))
            &&& o is Equal <==> a == b
        }),
{
    reveal(order::value_order);
}

/// Arrays stand as the first elements in which they differ, and one that is cut short stands before the
/// whole.
pub proof fn law_arrays_stand_by_the_first_difference(a: Seq<ValueView>, b: Seq<ValueView>, i: int)
    requires
        0 <= i <= a.len(),
        i <= b.len(),
        forall|j: int| 0 <= j < i ==> order::value_order(#[trigger] a[j], b[j]) is Equal,
        i < a.len() && i < b.len() ==> !(order::value_order(a[i], b[i]) is Equal),
    ensures
        order::value_order(ValueView::Array(a), ValueView::Array(b)) == if i < a.len() && i < b.len() {
            order::value_order(a[i], b[i])
        } else if i < b.len() {
            Order::Less
        } else if i < a.len() {
            Order::Greater
        } else {
            Order::Equal
        },
{
    reveal(order::value_order);
    lemma_elements_part(a, b, 0, i);
}

proof fn lemma_elements_part(a: Seq<ValueView>, b: Seq<ValueView>, from: nat, i: int)
    requires
        from <= i <= a.len(),
        i <= b.len(),
        forall|j: int| from <= j < i ==> order::value_order(#[trigger] a[j], b[j]) is Equal,
        i < a.len() && i < b.len() ==> !(order::value_order(a[i], b[i]) is Equal),
    ensures
        order::elements_order(a, b, from) == if i < a.len() && i < b.len() {
            order::value_order(a[i], b[i])
        } else if i < b.len() {
            Order::Less
        } else if i < a.len() {
            Order::Greater
        } else {
            Order::Equal
        },
    decreases i - from,
{
    reveal(order::value_order);
    if from < i {
        assert(order::value_order(a[from as int], b[from as int]) is Equal);
        lemma_elements_part(a, b, from + 1, i);
    }
}

/// Vectors stand as the first components in which they differ, each a float of 32 bits by size, and one
/// that is cut short stands before the whole.
pub proof fn law_vectors_stand_by_the_first_difference(a: Seq<u32>, b: Seq<u32>, i: int)
    requires
        0 <= i <= a.len(),
        i <= b.len(),
        forall|j: int| 0 <= j < i ==> #[trigger] a[j] == b[j],
        i < a.len() && i < b.len() ==> a[i] != b[i],
    ensures
        ({
            let half = 0x8000_0000u32;
            let o = order::value_order(ValueView::Vector(a), ValueView::Vector(b));
            &&& i < a.len() && i < b.len() && a[i] < half && b[i] < half ==> (o is Less <==> a[i] < b[i])
                && !(o is Equal)
            &&& i < a.len() && i < b.len() && a[i] >= half && b[i] >= half ==> (o is Less <==> a[i]
                > b[i]) && !(o is Equal)
            &&& i < a.len() && i < b.len() && a[i] >= half && b[i] < half ==> o is Less
            &&& i < a.len() && i < b.len() && a[i] < half && b[i] >= half ==> o is Greater
            &&& i == a.len() && i < b.len() ==> o is Less
            &&& i == b.len() && i < a.len() ==> o is Greater
            &&& i == a.len() && i == b.len() ==> o is Equal
        }),
{
    reveal(order::value_order);
    lemma_components_part(a, b, 0, i);
}

proof fn lemma_components_part(a: Seq<u32>, b: Seq<u32>, from: nat, i: int)
    requires
        from <= i <= a.len(),
        i <= b.len(),
        forall|j: int| from <= j < i ==> #[trigger] a[j] == b[j],
    ensures
        order::components_order(a, b, from) == order::components_order(a, b, i as nat),
    decreases i - from,
{
    if from < i {
        assert(a[from as int] == b[from as int]);
        lemma_components_part(a, b, from + 1, i);
    }
}

/// A value of one type stands before every value of a later type, whatever they are.
pub proof fn law_types_stand_apart(a: ValueView, b: ValueView)
    ensures
        a is Null && !(b is Null) ==> order::value_order(a, b) is Less,
        a is Bool && b is Int ==> order::value_order(a, b) is Less,
        a is Int && b is Float ==> order::value_order(a, b) is Less,
        a is Float && b is Text ==> order::value_order(a, b) is Less,
        a is Text && b is Date ==> order::value_order(a, b) is Less,
        a is Date && b is Time ==> order::value_order(a, b) is Less,
        a is Time && b is Timestamp ==> order::value_order(a, b) is Less,
        a is Timestamp && b is TimestampTz ==> order::value_order(a, b) is Less,
        a is TimestampTz && b is Uuid ==> order::value_order(a, b) is Less,
        a is Uuid && b is Numeric ==> order::value_order(a, b) is Less,
        a is Numeric && b is Json ==> order::value_order(a, b) is Less,
        a is Json && b is Interval ==> order::value_order(a, b) is Less,
        a is Interval && b is Array ==> order::value_order(a, b) is Less,
        a is Array && b is TimeTz ==> order::value_order(a, b) is Less,
        a is TimeTz && b is Vector ==> order::value_order(a, b) is Less,
        a is Vector && b is Bytes ==> order::value_order(a, b) is Less,
{
    reveal(order::value_order);
}

/// An ascending key puts the lesser value first, a descending one the greater. NULLs go first or last
/// where that is said; else they count as larger than every value, so that they are last in ascending
/// and first in descending order.
pub proof fn law_sort_keys_say_what_comes_first<O: ValueOrder>(
    o: &O,
    a: ValueView,
    b: ValueView,
    ascending: bool,
    nulls: NullOrdering,
)
    ensures
        ({
            let k = SortKey { ascending, nulls };
            let found = order::key_order(o, a, b, k);
            &&& !(a is Null) && !(b is Null) && ascending ==> (found is Less <==> o.order(a, b) is Less)
                && (found is Greater <==> o.order(a, b) is Greater)
            &&& !(a is Null) && !(b is Null) && !ascending ==> (found is Less <==> o.order(
                a,
                b,
            ) is Greater) && (found is Greater <==> o.order(a, b) is Less)
            &&& a is Null && !(b is Null) && nulls is First ==> found is Less
            &&& a is Null && !(b is Null) && nulls is Last ==> found is Greater
            &&& a is Null && !(b is Null) && nulls is Default && ascending ==> found is Greater
            &&& a is Null && !(b is Null) && nulls is Default && !ascending ==> found is Less
            &&& a is Null && b is Null ==> found is Equal
        }),
{
}

/// Rows stand by the first of their keys on which they do not tie.
pub proof fn law_rows_stand_by_the_first_key_that_differs<O: ValueOrder>(
    o: &O,
    a: Seq<ValueView>,
    b: Seq<ValueView>,
    ks: Seq<SortKey>,
    i: int,
)
    requires
        0 <= i < ks.len(),
        i < a.len(),
        i < b.len(),
        forall|j: int| 0 <= j < i ==> order::key_order(o, #[trigger] a[j], b[j], ks[j]) is Equal,
        !(order::key_order(o, a[i], b[i], ks[i]) is Equal),
    ensures
        order::keys_order(o, a, b, ks, 0) == order::key_order(o, a[i], b[i], ks[i]),
{
    lemma_keys_part(o, a, b, ks, 0, i);
}

proof fn lemma_keys_part<O: ValueOrder>(
    o: &O,
    a: Seq<ValueView>,
    b: Seq<ValueView>,
    ks: Seq<SortKey>,
    from: nat,
    i: int,
)
    requires
        from <= i < ks.len(),
        i < a.len(),
        i < b.len(),
        forall|j: int| from <= j < i ==> order::key_order(o, #[trigger] a[j], b[j], ks[j]) is Equal,
        !(order::key_order(o, a[i], b[i], ks[i]) is Equal),
    ensures
        order::keys_order(o, a, b, ks, from) == order::key_order(o, a[i], b[i], ks[i]),
    decreases i - from,
{
    if from < i {
        assert(order::key_order(o, a[from as int], b[from as int], ks[from as int]) is Equal);
        lemma_keys_part(o, a, b, ks, from + 1, i);
    }
}

/// Rows are of one group exactly where each value and its counterpart are both NULL, or are neither and
/// tie in the order.
pub proof fn law_groups_hold_rows_that_tie<O: ValueOrder>(o: &O, a: Seq<ValueView>, b: Seq<ValueView>)
    requires
        a.len() == b.len(),
    ensures
        order::same_group(o, a, b) <==> forall|i: int|
            0 <= i < a.len() ==> (#[trigger] a[i] is Null && b[i] is Null) || (!(a[i] is Null) && !(
            b[i] is Null) && o.order(a[i], b[i]) is Equal),
{
    if order::same_group(o, a, b) {
        assert forall|i: int| 0 <= i < a.len() implies (#[trigger] a[i] is Null && b[i] is Null) || (!(
        a[i] is Null) && !(b[i] is Null) && o.order(a[i], b[i]) is Equal) by {
            assert(order::not_distinct(o, a[i], b[i]));
        }
    }
}

} // verus!
