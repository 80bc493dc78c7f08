//! Orders on values and rows.
use vstd::prelude::*;
use vstd::utf8::*;
use crate::value;
use crate::value::{Decimal, Interval, Value, ValueView};

pub mod meaning;

verus! {

/// How one thing stands to another in an order.
#[derive(Clone, Copy, Debug, PartialEq, Eq, Structural)]
pub enum Order {
    Less,
    Equal,
    Greater,
}

/// How the second stands to the first.
pub open spec fn flip(o: Order) -> Order {
    match o {
        Order::Less => Order::Greater,
        Order::Equal => Order::Equal,
        Order::Greater => Order::Less,
    }
}

pub fn flipped(o: Order) -> (r: Order)
    ensures
        r == flip(o),
{
    match o {
        Order::Less => Order::Greater,
        Order::Equal => Order::Equal,
        Order::Greater => Order::Less,
    }
}

pub open spec fn int_order(a: int, b: int) -> Order {
    if a < b {
        Order::Less
    } else if a == b {
        Order::Equal
    } else {
        Order::Greater
    }
}

/// The order of byte strings: by the first byte that differs, a prefix before what it begins.
pub open spec fn lex_order(a: Seq<u8>, b: Seq<u8>) -> Order
    decreases a.len(),
{
    if a.len() == 0 {
        if b.len() == 0 {
            Order::Equal
        } else {
            Order::Less
        }
    } else if b.len() == 0 {
        Order::Greater
    } else if a[0] != b[0] {
        int_order(a[0] as int, b[0] as int)
    } else {
        lex_order(a.skip(1), b.skip(1))
    }
}

pub proof fn lemma_lex_flip(a: Seq<u8>, b: Seq<u8>)
    ensures
        lex_order(b, a) == flip(lex_order(a, b)),
        lex_order(a, b) is Equal <==> a == b,
    decreases a.len(),
{
    if a.len() > 0 && b.len() > 0 {
        lemma_lex_flip(a.skip(1), b.skip(1));
        if a[0] == b[0] && a.skip(1) == b.skip(1) {
            assert(a =~= seq![a[0]] + a.skip(1));
            assert(b =~= seq![b[0]] + b.skip(1));
        }
    } else {
        if a.len() == 0 && b.len() == 0 {
            assert(a =~= b);
        }
    }
}

pub proof fn lemma_lex_trans(a: Seq<u8>, b: Seq<u8>, c: Seq<u8>)
    requires
        !(lex_order(a, b) is Greater),
        !(lex_order(b, c) is Greater),
    ensures
        !(lex_order(a, c) is Greater),
        lex_order(a, c) is Equal ==> lex_order(a, b) is Equal && lex_order(b, c) is Equal,
    decreases a.len(),
{
    if a.len() > 0 && b.len() > 0 && c.len() > 0 && a[0] == b[0] && b[0] == c[0] {
        lemma_lex_trans(a.skip(1), b.skip(1), c.skip(1));
    }
}

/// Compare byte strings.
pub fn lex_compare(a: &[u8], b: &[u8]) -> (r: Order)
    ensures
        r == lex_order(a@, b@),
{
    let mut i: usize = 0;
    assert(a@.skip(0) =~= a@);
    assert(b@.skip(0) =~= b@);
    while i < a.len() && i < b.len()
        invariant
            i <= a@.len(),
            i <= b@.len(),
            lex_order(a@, b@) == lex_order(a@.skip(i as int), b@.skip(i as int)),
        decreases a@.len() - i,
    {
        if a[i] < b[i] {
            return Order::Less;
        }
        if a[i] > b[i] {
            return Order::Greater;
        }
        assert(a@.skip(i as int).skip(1) =~= a@.skip(i + 1));
        assert(b@.skip(i as int).skip(1) =~= b@.skip(i + 1));
        i += 1;
    }
    if i < b.len() {
        Order::Less
    } else if i < a.len() {
        Order::Greater
    } else {
        Order::Equal
    }
}

/// `10^n`.
pub open spec fn pow10(n: nat) -> nat
    decreases n,
{
    if n == 0 {
        1
    } else {
        10 * pow10((n - 1) as nat)
    }
}

pub proof fn lemma_pow10_positive(n: nat)
    ensures
        pow10(n) > 0,
    decreases n,
{
    if n > 0 {
        lemma_pow10_positive((n - 1) as nat);
    }
}

pub proof fn lemma_pow10_sum(a: nat, b: nat)
    ensures
        pow10(a + b) == pow10(a) * pow10(b),
    decreases a,
{
    if a > 0 {
        lemma_pow10_sum((a - 1) as nat, b);
        let x = pow10((a - 1) as nat);
        let y = pow10(b);
        assert(10 * (x * y) == (10 * x) * y) by (nonlinear_arith);
    } else {
        assert(1 * pow10(b) == pow10(b));
    }
}

/// The number of units of `10^-255` in a decimal.
pub open spec fn decimal_units(d: Decimal) -> int {
    d.mantissa * pow10((255 - d.scale) as nat)
}

/// Decimals by the numbers they stand for.
pub open spec fn decimal_order(a: Decimal, b: Decimal) -> Order {
    int_order(decimal_units(a), decimal_units(b))
}

/// Compare `a` with `b * 10^n`.
fn compare_scaled(a: i128, b: i128, n: u8) -> (r: Order)
    ensures
        r == int_order(a as int, b * pow10(n as nat)),
{
    let mut x: i128 = b;
    let mut i: u8 = 0;
    assert(b * pow10(0) == b as int) by (nonlinear_arith)
        requires
            pow10(0) == 1,
    ;
    while i < n
        invariant
            i <= n,
            x == b * pow10(i as nat),
        decreases n - i,
    {
        let ghost rest = pow10((n - i) as nat);
        proof {
            lemma_pow10_sum(i as nat, (n - i) as nat);
            lemma_pow10_positive((n - i - 1) as nat);
            let p = pow10(i as nat) as int;
            let q = rest as int;
            assert(b * (p * q) == (b * p) * q) by (nonlinear_arith);
            assert(b * pow10(n as nat) == x * rest);
            assert(rest >= 10);
        }
        if x > i128::MAX / 10 {
            proof {
                assert(x * rest > i128::MAX) by (nonlinear_arith)
                    requires
                        x > i128::MAX / 10,
                        rest >= 10,
                ;
            }
            return Order::Less;
        }
        if x < -(i128::MAX / 10) {
            proof {
                assert(x * rest < i128::MIN) by (nonlinear_arith)
                    requires
                        x < -(i128::MAX / 10),
                        rest >= 10,
                ;
            }
            return Order::Greater;
        }
        proof {
            let p = pow10(i as nat) as int;
            assert(b * (10 * p) == 10 * (b * p)) by (nonlinear_arith);
        }
        x = x * 10;
        i += 1;
    }
    if a < x {
        Order::Less
    } else if a == x {
        Order::Equal
    } else {
        Order::Greater
    }
}

/// Compare decimals by the numbers they stand for.
pub fn decimal_compare(a: Decimal, b: Decimal) -> (r: Order)
    ensures
        r == decimal_order(a, b),
{
    if a.scale >= b.scale {
        let n: u8 = a.scale - b.scale;
        proof {
            lemma_units(a.mantissa as int, a.scale, b.mantissa as int, b.scale);
        }
        compare_scaled(a.mantissa, b.mantissa, n)
    } else {
        let n: u8 = b.scale - a.scale;
        proof {
            lemma_units(b.mantissa as int, b.scale, a.mantissa as int, a.scale);
        }
        flipped(compare_scaled(b.mantissa, a.mantissa, n))
    }
}

proof fn lemma_units(m: int, s: u8, k: int, t: u8)
    requires
        s >= t,
    ensures
        int_order(m * pow10((255 - s) as nat), k * pow10((255 - t) as nat)) == int_order(
            m,
            k * pow10((s - t) as nat),
        ),
{
    let p = pow10((255 - s) as nat) as int;
    let q = pow10((s - t) as nat) as int;
    lemma_pow10_positive((255 - s) as nat);
    lemma_pow10_sum((255 - s) as nat, (s - t) as nat);
    assert(pow10((255 - t) as nat) == p * q);
    assert(k * (p * q) == (k * q) * p) by (nonlinear_arith);
    let kq = k * q;
    assert(m < kq ==> m * p < kq * p) by (nonlinear_arith)
        requires
            p > 0,
    ;
    assert(m > kq ==> m * p > kq * p) by (nonlinear_arith)
        requires
            p > 0,
    ;
}

/// Where the bits of a 64-bit float stand in the total order of floats: negative ones by falling
/// magnitude, then positive ones by rising magnitude.
pub open spec fn float_key(bits: u64) -> int {
    if bits < 0x8000_0000_0000_0000 {
        bits as int
    } else {
        0x7fff_ffff_ffff_ffff - bits
    }
}

fn float_compare(a: u64, b: u64) -> (r: Order)
    ensures
        r == int_order(float_key(a), float_key(b)),
{
    let half: u64 = 0x8000_0000_0000_0000;
    if a < half {
        if b < half {
            if a < b {
                Order::Less
            } else if a == b {
                Order::Equal
            } else {
                Order::Greater
            }
        } else {
            Order::Greater
        }
    } else if b < half {
        Order::Less
    } else if a > b {
        Order::Less
    } else if a == b {
        Order::Equal
    } else {
        Order::Greater
    }
}

fn i64_compare(a: i64, b: i64) -> (r: Order)
    ensures
        r == int_order(a as int, b as int),
{
    if a < b {
        Order::Less
    } else if a == b {
        Order::Equal
    } else {
        Order::Greater
    }
}

/// The place of a value's variant among the variants.
pub open spec fn type_rank(v: ValueView) -> int {
    match v {
        ValueView::Null => 0,
        ValueView::Bool(_) => 1,
        ValueView::Int(_) => 2,
        ValueView::Float(_) => 3,
        ValueView::Text(_) => 4,
        ValueView::Date(_) => 5,
        ValueView::Time(_) => 6,
        ValueView::Timestamp(_) => 7,
        ValueView::TimestampTz(_) => 8,
        ValueView::Uuid(_) => 9,
        ValueView::Numeric(_) => 10,
        ValueView::Json(_) => 11,
        ValueView::Interval(_) => 12,
        ValueView::Array(_) => 13,
        ValueView::TimeTz(_) => 14,
        ValueView::Vector(_) => 15,
        ValueView::Bytes(_) => 16,
    }
}

fn rank_of(v: &Value) -> (r: u8)
    ensures
        r == type_rank(v@),
{
    match v {
        Value::Null => 0,
        Value::Bool(_) => 1,
        Value::Int(_) => 2,
        Value::Float(_) => 3,
        Value::Text(_) => 4,
        Value::Date(_) => 5,
        Value::Time(_) => 6,
        Value::Timestamp(_) => 7,
        Value::TimestampTz(_) => 8,
        Value::Uuid(_) => 9,
        Value::Numeric(_) => 10,
        Value::Json(_) => 11,
        Value::Interval(_) => 12,
        Value::Array(_) => 13,
        Value::TimeTz(_) => 14,
        Value::Vector(_) => 15,
        Value::Bytes(_) => 16,
    }
}

/// How long an interval is, in microseconds: a month counts as thirty days, a day as 24 hours.
pub open spec fn interval_length(i: Interval) -> int {
    (i.months * 30 + i.days) * 86_400_000_000 + i.micros
}

/// Intervals by their length, those of one length by their months, days and microseconds.
pub open spec fn interval_order(a: Interval, b: Interval) -> Order {
    match int_order(interval_length(a), interval_length(b)) {
        Order::Equal => match int_order(a.months as int, b.months as int) {
            Order::Equal => match int_order(a.days as int, b.days as int) {
                Order::Equal => int_order(a.micros as int, b.micros as int),
                other => other,
            },
            other => other,
        },
        other => other,
    }
}

/// Where the bits of a 32-bit float stand in the total order of floats.
pub open spec fn component_key(bits: u32) -> int {
    if bits < 0x8000_0000 {
        bits as int
    } else {
        0x7fff_ffff - bits
    }
}

/// How the vectors stand from the `i`-th component on: by the first component that differs, a prefix
/// before what it begins.
pub open spec fn components_order(a: Seq<u32>, b: Seq<u32>, i: nat) -> Order
    decreases a.len() - i,
{
    if i >= a.len() || i >= b.len() {
        int_order(a.len() as int, b.len() as int)
    } else {
        match int_order(component_key(a[i as int]), component_key(b[i as int])) {
            Order::Equal => components_order(a, b, i + 1),
            other => other,
        }
    }
}

/// How the arrays stand from the `i`-th element on: by the first element that differs, a prefix before
/// what it begins.
pub open spec fn elements_order(a: Seq<ValueView>, b: Seq<ValueView>, i: nat) -> Order
    decreases a, a.len() - i,
{
    if i >= a.len() || i >= b.len() {
        int_order(a.len() as int, b.len() as int)
    } else {
        match value_order(a[i as int], b[i as int]) {
            Order::Equal => elements_order(a, b, i + 1),
            other => other,
        }
    }
}

/// The order of the values of a column: booleans, numbers and times by size, intervals by their
/// length, text, uuids and bytes by their bytes, arrays and vectors by their elements. Values of two
/// types stand as their types do.
#[verifier::opaque]
pub open spec fn value_order(a: ValueView, b: ValueView) -> Order
    decreases a, 0int,
{
    match (a, b) {
        (ValueView::Bool(x), ValueView::Bool(y)) => int_order(
            if x {
                1
            } else {
                0
            },
            if y {
                1
            } else {
                0
            },
        ),
        (ValueView::Int(x), ValueView::Int(y)) => int_order(x as int, y as int),
        (ValueView::Time(x), ValueView::Time(y)) => int_order(x as int, y as int),
        (ValueView::TimeTz(x), ValueView::TimeTz(y)) => int_order(x as int, y as int),
        (ValueView::Timestamp(x), ValueView::Timestamp(y)) => int_order(x as int, y as int),
        (ValueView::TimestampTz(x), ValueView::TimestampTz(y)) => int_order(x as int, y as int),
        (ValueView::Float(x), ValueView::Float(y)) => int_order(float_key(x), float_key(y)),
        (ValueView::Text(x), ValueView::Text(y)) => lex_order(encode_utf8(x), encode_utf8(y)),
        (ValueView::Json(x), ValueView::Json(y)) => lex_order(encode_utf8(x), encode_utf8(y)),
        (ValueView::Date(x), ValueView::Date(y)) => int_order(x as int, y as int),
        (ValueView::Uuid(x), ValueView::Uuid(y)) => lex_order(x, y),
        (ValueView::Bytes(x), ValueView::Bytes(y)) => lex_order(x, y),
        (ValueView::Numeric(x), ValueView::Numeric(y)) => decimal_order(x, y),
        (ValueView::Interval(x), ValueView::Interval(y)) => interval_order(x, y),
        (ValueView::Array(x), ValueView::Array(y)) => elements_order(x, y, 0),
        (ValueView::Vector(x), ValueView::Vector(y)) => components_order(x, y, 0),
        _ => int_order(type_rank(a), type_rank(b)),
    }
}

fn interval_compare(a: Interval, b: Interval) -> (r: Order)
    ensures
        r == interval_order(a, b),
{
    let x: i128 = (a.months as i128 * 30 + a.days as i128) * 86_400_000_000 + a.micros as i128;
    let y: i128 = (b.months as i128 * 30 + b.days as i128) * 86_400_000_000 + b.micros as i128;
    if x < y {
        return Order::Less;
    }
    if x > y {
        return Order::Greater;
    }
    match i64_compare(a.months as i64, b.months as i64) {
        Order::Equal => match i64_compare(a.days as i64, b.days as i64) {
            Order::Equal => i64_compare(a.micros, b.micros),
            other => other,
        },
        other => other,
    }
}

fn component_number(bits: u32) -> (r: i64)
    ensures
        r == component_key(bits),
{
    if bits < 0x8000_0000 {
        bits as i64
    } else {
        0x7fff_ffff - bits as i64
    }
}

fn length_compare(a: usize, b: usize) -> (r: Order)
    ensures
        r == int_order(a as int, b as int),
{
    if a < b {
        Order::Less
    } else if a == b {
        Order::Equal
    } else {
        Order::Greater
    }
}

fn components_compare(a: &Vec<u32>, b: &Vec<u32>) -> (r: Order)
    ensures
        r == components_order(a@, b@, 0),
{
    let mut i: usize = 0;
    while i < a.len() && i < b.len()
        invariant
            i <= a@.len(),
            i <= b@.len(),
            components_order(a@, b@, 0) == components_order(a@, b@, i as nat),
        decreases a@.len() - i,
    {
        match i64_compare(component_number(a[i]), component_number(b[i])) {
            Order::Equal => {},
            other => {
                return other;
            },
        }
        i += 1;
    }
    length_compare(a.len(), b.len())
}

/// Compare two values of a column.
pub fn value_compare(a: &Value, b: &Value) -> (r: Order)
    ensures
        r == value_order(a@, b@),
    decreases a,
{
    proof {
        reveal(value_order);
    }
    match (a, b) {
        (Value::Bool(x), Value::Bool(y)) => if *x == *y {
            Order::Equal
        } else if *y {
            Order::Less
        } else {
            Order::Greater
        },
        (Value::Int(x), Value::Int(y))
        | (Value::Time(x), Value::Time(y))
        | (Value::TimeTz(x), Value::TimeTz(y))
        | (Value::Timestamp(x), Value::Timestamp(y))
        | (Value::TimestampTz(x), Value::TimestampTz(y)) => i64_compare(*x, *y),
        (Value::Float(x), Value::Float(y)) => float_compare(*x, *y),
        (Value::Text(x), Value::Text(y)) | (Value::Json(x), Value::Json(y)) => lex_compare(
            x.as_str().as_bytes(),
            y.as_str().as_bytes(),
        ),
        (Value::Date(x), Value::Date(y)) => i64_compare(*x as i64, *y as i64),
        (Value::Uuid(x), Value::Uuid(y)) => lex_compare(x.as_slice(), y.as_slice()),
        (Value::Bytes(x), Value::Bytes(y)) => lex_compare(x.as_slice(), y.as_slice()),
        (Value::Numeric(x), Value::Numeric(y)) => decimal_compare(*x, *y),
        (Value::Interval(x), Value::Interval(y)) => interval_compare(*x, *y),
        (Value::Vector(x), Value::Vector(y)) => components_compare(x, y),
        (Value::Array(x), Value::Array(y)) => {
            let ghost xv = x.deep_view();
            let ghost yv = y.deep_view();
            proof {
                value::lemma_array_view(*x);
                value::lemma_array_view(*y);
            }
            let mut i: usize = 0;
            while i < x.len() && i < y.len()
                invariant
                    *a == Value::Array(*x),
                    a@ == ValueView::Array(xv),
                    b@ == ValueView::Array(yv),
                    xv == x.deep_view(),
                    yv == y.deep_view(),
                    i <= x@.len(),
                    i <= y@.len(),
                    elements_order(xv, yv, 0) == elements_order(xv, yv, i as nat),
                decreases x@.len() - i,
            {
                reveal(value_order);
                assert(decreases_to!(*a => (*a)->Array_0));
                assert(decreases_to!(*x => x[i as int]));
                assert(xv[i as int] == x@[i as int]@);
                assert(yv[i as int] == y@[i as int]@);
                match value_compare(&x[i], &y[i]) {
                    Order::Equal => {},
                    other => {
                        return other;
                    },
                }
                i += 1;
            }
            length_compare(x.len(), y.len())
        },
        _ => i64_compare(rank_of(a) as i64, rank_of(b) as i64),
    }
}

/// Two values are the same, but for the scale at which a decimal is written.
pub open spec fn same_value(a: ValueView, b: ValueView) -> bool
    decreases a,
{
    match (a, b) {
        (ValueView::Numeric(x), ValueView::Numeric(y)) => decimal_units(x) == decimal_units(y),
        (ValueView::Array(x), ValueView::Array(y)) => x.len() == y.len() && forall|i: int|
            0 <= i < x.len() ==> same_value(#[trigger] x[i], y[i]),
        _ => a == b,
    }
}

/// The values of a column are in a total order: each stands to itself as its equal, comparing the
/// other way round flips the answer, and the order is transitive.
pub proof fn law_value_order_is_total(a: ValueView, b: ValueView, c: ValueView)
    ensures
        value_order(a, a) is Equal,
        value_order(b, a) == flip(value_order(a, b)),
        !(value_order(a, b) is Greater) && !(value_order(b, c) is Greater) ==> !(value_order(
            a,
            c,
        ) is Greater) && (value_order(a, c) is Equal ==> value_order(a, b) is Equal && value_order(
            b,
            c,
        ) is Equal),
{
    lemma_pair(a, a);
    lemma_pair(a, b);
    lemma_triple(a, b, c);
}

/// Only equal values are equal in the order: values that compare as equal are the same, up to the
/// scale of decimals.
pub proof fn law_equal_values_are_the_same(a: ValueView, b: ValueView)
    ensures
        value_order(a, b) is Equal <==> same_value(a, b),
    decreases a, 1int,
{
    broadcast use encode_utf8_decode_utf8;

    reveal(value_order);
    match (a, b) {
        (ValueView::Text(x), ValueView::Text(y)) | (ValueView::Json(x), ValueView::Json(y)) => {
            lemma_lex_flip(encode_utf8(x), encode_utf8(y));
            assert(decode_utf8(encode_utf8(x)) == x);
            assert(decode_utf8(encode_utf8(y)) == y);
        },
        (ValueView::Uuid(x), ValueView::Uuid(y)) | (ValueView::Bytes(x), ValueView::Bytes(y)) => {
            lemma_lex_flip(x, y);
        },
        (ValueView::Array(x), ValueView::Array(y)) => {
            lemma_elements_equal(x, y, 0);
        },
        (ValueView::Vector(x), ValueView::Vector(y)) => {
            lemma_components_pair(x, y, 0);
            if components_order(x, y, 0) is Equal {
                assert(x =~= y);
            }
        },
        _ => {},
    }
}

proof fn lemma_elements_equal(a: Seq<ValueView>, b: Seq<ValueView>, i: nat)
    requires
        i <= a.len(),
    ensures
        elements_order(a, b, i) is Equal <==> a.len() == b.len() && forall|k: int|
            i <= k < a.len() ==> same_value(#[trigger] a[k], b[k]),
    decreases a, a.len() - i,
{
    reveal(value_order);
    if i < a.len() && i < b.len() {
        law_equal_values_are_the_same(a[i as int], b[i as int]);
        lemma_elements_equal(a, b, i + 1);
        if elements_order(a, b, i) is Equal {
            assert forall|k: int| i <= k < a.len() implies same_value(#[trigger] a[k], b[k]) by {
                if k > i {
                    assert(i + 1 <= k);
                }
            }
        }
    } else if i >= b.len() && i < a.len() {
        assert(a.len() != b.len());
    }
}

proof fn lemma_components_pair(a: Seq<u32>, b: Seq<u32>, i: nat)
    requires
        i <= a.len(),
    ensures
        components_order(a, a, i) is Equal,
        components_order(b, a, i) == flip(components_order(a, b, i)),
        components_order(a, b, i) is Equal <==> a.len() == b.len() && forall|k: int|
            i <= k < a.len() ==> #[trigger] a[k] == b[k],
    decreases a.len() - i,
{
    if i < a.len() {
        lemma_components_pair(a, b, i + 1);
        if i < b.len() && components_order(a, b, i) is Equal {
            assert forall|k: int| i <= k < a.len() implies #[trigger] a[k] == b[k] by {
                if k > i {
                    assert(i + 1 <= k);
                }
            }
        }
    }
}

proof fn lemma_components_triple(a: Seq<u32>, b: Seq<u32>, c: Seq<u32>, i: nat)
    ensures
        !(components_order(a, b, i) is Greater) && !(components_order(b, c, i) is Greater) ==> !(
        components_order(a, c, i) is Greater) && (components_order(a, c, i) is Equal
            ==> components_order(a, b, i) is Equal && components_order(b, c, i) is Equal),
        !(components_order(a, b, i) is Less) && !(components_order(b, c, i) is Less) ==> !(
        components_order(a, c, i) is Less) && (components_order(a, c, i) is Equal
            ==> components_order(a, b, i) is Equal && components_order(b, c, i) is Equal),
    decreases a.len() - i,
{
    if i < a.len() {
        lemma_components_triple(a, b, c, i + 1);
    }
}

proof fn lemma_elements_pair(a: Seq<ValueView>, b: Seq<ValueView>, i: nat)
    ensures
        elements_order(a, a, i) is Equal,
        elements_order(b, a, i) == flip(elements_order(a, b, i)),
    decreases a, a.len() - i,
{
    reveal(value_order);
    if i < a.len() {
        lemma_elements_pair(a, b, i + 1);
        lemma_pair(a[i as int], a[i as int]);
        if i < b.len() {
            lemma_pair(a[i as int], b[i as int]);
        }
    }
}

proof fn lemma_elements_triple(a: Seq<ValueView>, b: Seq<ValueView>, c: Seq<ValueView>, i: nat)
    ensures
        !(elements_order(a, b, i) is Greater) && !(elements_order(b, c, i) is Greater) ==> !(
        elements_order(a, c, i) is Greater) && (elements_order(a, c, i) is Equal ==> elements_order(
            a,
            b,
            i,
        ) is Equal && elements_order(b, c, i) is Equal),
        !(elements_order(a, b, i) is Less) && !(elements_order(b, c, i) is Less) ==> !(
        elements_order(a, c, i) is Less) && (elements_order(a, c, i) is Equal ==> elements_order(
            a,
            b,
            i,
        ) is Equal && elements_order(b, c, i) is Equal),
    decreases a, a.len() - i,
{
    reveal(value_order);
    if i < a.len() && i < b.len() && i < c.len() {
        lemma_triple(a[i as int], b[i as int], c[i as int]);
        lemma_elements_triple(a, b, c, i + 1);
    }
}

proof fn lemma_pair(a: ValueView, b: ValueView)
    ensures
        value_order(a, a) is Equal,
        value_order(b, a) == flip(value_order(a, b)),
    decreases a, 1int,
{
    reveal(value_order);
    match (a, b) {
        (ValueView::Text(x), ValueView::Text(y)) | (ValueView::Json(x), ValueView::Json(y)) => {
            lemma_lex_flip(encode_utf8(x), encode_utf8(x));
            lemma_lex_flip(encode_utf8(x), encode_utf8(y));
        },
        (ValueView::Uuid(x), ValueView::Uuid(y)) | (ValueView::Bytes(x), ValueView::Bytes(y)) => {
            lemma_lex_flip(x, x);
            lemma_lex_flip(x, y);
        },
        (ValueView::Array(x), ValueView::Array(y)) => {
            lemma_elements_pair(x, y, 0);
        },
        (ValueView::Vector(x), ValueView::Vector(y)) => {
            lemma_components_pair(x, y, 0);
        },
        _ => {},
    }
    match a {
        ValueView::Text(x) | ValueView::Json(x) => {
            lemma_lex_flip(encode_utf8(x), encode_utf8(x));
        },
        ValueView::Uuid(x) | ValueView::Bytes(x) => {
            lemma_lex_flip(x, x);
        },
        ValueView::Array(x) => {
            lemma_elements_pair(x, x, 0);
        },
        ValueView::Vector(x) => {
            lemma_components_pair(x, x, 0);
        },
        _ => {},
    }
}

proof fn lemma_lex_triple(a: Seq<u8>, b: Seq<u8>, c: Seq<u8>)
    ensures
        !(lex_order(a, b) is Greater) && !(lex_order(b, c) is Greater) ==> !(lex_order(a, c) is Greater)
            && (lex_order(a, c) is Equal ==> lex_order(a, b) is Equal && lex_order(b, c) is Equal),
        !(lex_order(a, b) is Less) && !(lex_order(b, c) is Less) ==> !(lex_order(a, c) is Less) && (
        lex_order(a, c) is Equal ==> lex_order(a, b) is Equal && lex_order(b, c) is Equal),
{
    lemma_lex_flip(a, b);
    lemma_lex_flip(b, c);
    lemma_lex_flip(a, c);
    if !(lex_order(a, b) is Greater) && !(lex_order(b, c) is Greater) {
        lemma_lex_trans(a, b, c);
    }
    if !(lex_order(a, b) is Less) && !(lex_order(b, c) is Less) {
        lemma_lex_trans(c, b, a);
    }
}

proof fn lemma_interval_triple(a: Interval, b: Interval, c: Interval)
    ensures
        !(interval_order(a, b) is Greater) && !(interval_order(b, c) is Greater) ==> !(interval_order(
            a,
            c,
        ) is Greater) && (interval_order(a, c) is Equal ==> interval_order(a, b) is Equal
            && interval_order(b, c) is Equal),
        !(interval_order(a, b) is Less) && !(interval_order(b, c) is Less) ==> !(interval_order(
            a,
            c,
        ) is Less) && (interval_order(a, c) is Equal ==> interval_order(a, b) is Equal
            && interval_order(b, c) is Equal),
{
}

/// Values of two types stand as their types do.
proof fn lemma_types_apart(a: ValueView, b: ValueView)
    requires
        type_rank(a) != type_rank(b),
    ensures
        value_order(a, b) == int_order(type_rank(a), type_rank(b)),
{
    reveal(value_order);
}

proof fn lemma_mixed_triple(a: ValueView, b: ValueView, c: ValueView)
    requires
        type_rank(a) != type_rank(b) || type_rank(b) != type_rank(c),
    ensures
        !(value_order(a, b) is Greater) && !(value_order(b, c) is Greater) ==> !(value_order(
            a,
            c,
        ) is Greater) && !(value_order(a, c) is Equal),
        !(value_order(a, b) is Less) && !(value_order(b, c) is Less) ==> !(value_order(
            a,
            c,
        ) is Less) && !(value_order(a, c) is Equal),
{
    if type_rank(a) != type_rank(b) {
        lemma_types_apart(a, b);
    }
    if type_rank(b) != type_rank(c) {
        lemma_types_apart(b, c);
    }
    if type_rank(a) != type_rank(c) {
        lemma_types_apart(a, c);
    }
}

proof fn lemma_triple(a: ValueView, b: ValueView, c: ValueView)
    ensures
        !(value_order(a, b) is Greater) && !(value_order(b, c) is Greater) ==> !(value_order(
            a,
            c,
        ) is Greater) && (value_order(a, c) is Equal ==> value_order(a, b) is Equal && value_order(
            b,
            c,
        ) is Equal),
        !(value_order(a, b) is Less) && !(value_order(b, c) is Less) ==> !(value_order(
            a,
            c,
        ) is Less) && (value_order(a, c) is Equal ==> value_order(a, b) is Equal && value_order(
            b,
            c,
        ) is Equal),
    decreases a, 1int,
{
    if type_rank(a) != type_rank(b) || type_rank(b) != type_rank(c) {
        lemma_mixed_triple(a, b, c);
    } else {
        reveal(value_order);
        match (a, b, c) {
            (ValueView::Text(x), ValueView::Text(y), ValueView::Text(z))
            | (ValueView::Json(x), ValueView::Json(y), ValueView::Json(z)) => {
                lemma_lex_triple(encode_utf8(x), encode_utf8(y), encode_utf8(z));
            },
            (ValueView::Uuid(x), ValueView::Uuid(y), ValueView::Uuid(z))
            | (ValueView::Bytes(x), ValueView::Bytes(y), ValueView::Bytes(z)) => {
                lemma_lex_triple(x, y, z);
            },
            (ValueView::Array(x), ValueView::Array(y), ValueView::Array(z)) => {
                lemma_elements_triple(x, y, z, 0);
            },
            (ValueView::Vector(x), ValueView::Vector(y), ValueView::Vector(z)) => {
                lemma_components_triple(x, y, z, 0);
            },
            (ValueView::Interval(x), ValueView::Interval(y), ValueView::Interval(z)) => {
                lemma_interval_triple(x, y, z);
            },
            _ => {},
        }
    }
}

/// A total preorder of values, by which rows are sorted and grouped.
pub trait ValueOrder {
    /// How `a` stands to `b`.
    spec fn order(&self, a: ValueView, b: ValueView) -> Order;

    /// The order is a total preorder.
    proof fn preorder(&self, a: ValueView, b: ValueView, c: ValueView)
        ensures
            self.order(a, a) is Equal,
            self.order(b, a) == flip(self.order(a, b)),
            !(self.order(a, b) is Greater) && !(self.order(b, c) is Greater) ==> !(self.order(
                a,
                c,
            ) is Greater) && (self.order(a, c) is Equal ==> self.order(a, b) is Equal
                && self.order(b, c) is Equal),
    ;

    /// Compare two values.
    fn compare(&self, a: &Value, b: &Value) -> (r: Order)
        ensures
            r == self.order(a@, b@),
    ;
}

/// The order of the values of a column; see [`value_order`].
#[derive(Clone, Copy, Debug, PartialEq, Eq, Structural)]
pub struct ColumnOrder;

impl ValueOrder for ColumnOrder {
    open spec fn order(&self, a: ValueView, b: ValueView) -> Order {
        value_order(a, b)
    }

    proof fn preorder(&self, a: ValueView, b: ValueView, c: ValueView) {
        law_value_order_is_total(a, b, c);
    }

    fn compare(&self, a: &Value, b: &Value) -> (r: Order) {
        value_compare(a, b)
    }
}

// ---------------------------------------------------------------- grouping

/// Neither is distinct from the other: both NULL, or both not and equal in the order.
pub open spec fn not_distinct<O: ValueOrder>(o: &O, a: ValueView, b: ValueView) -> bool {
    if a is Null || b is Null {
        a is Null && b is Null
    } else {
        o.order(a, b) is Equal
    }
}

/// Two rows are of one group: as many values in each, none distinct from its counterpart.
pub open spec fn same_group<O: ValueOrder>(o: &O, a: Seq<ValueView>, b: Seq<ValueView>) -> bool {
    a.len() == b.len() && forall|i: int| 0 <= i < a.len() ==> not_distinct(o, #[trigger] a[i], b[i])
}

/// Whether two rows are of one group.
pub fn group_keys_equal<O: ValueOrder>(o: &O, a: &Vec<Value>, b: &Vec<Value>) -> (r: bool)
    ensures
        r == same_group(o, a.deep_view(), b.deep_view()),
{
    let ghost av = a.deep_view();
    let ghost bv = b.deep_view();
    if a.len() != b.len() {
        return false;
    }
    let mut i: usize = 0;
    while i < a.len()
        invariant
            av == a.deep_view(),
            bv == b.deep_view(),
            a@.len() == b@.len(),
            i <= a@.len(),
            forall|k: int| 0 <= k < i ==> not_distinct(o, #[trigger] av[k], bv[k]),
        decreases a@.len() - i,
    {
        assert(av[i as int] == a@[i as int]@);
        assert(bv[i as int] == b@[i as int]@);
        let same: bool = match (&a[i], &b[i]) {
            (Value::Null, Value::Null) => true,
            (Value::Null, _) => false,
            (_, Value::Null) => false,
            (x, y) => o.compare(x, y) == Order::Equal,
        };
        if !same {
            assert(!not_distinct(o, av[i as int], bv[i as int]));
            return false;
        }
        i += 1;
    }
    true
}

/// Being of one group is an equivalence.
pub proof fn law_grouping_is_equivalence<O: ValueOrder>(
    o: &O,
    a: Seq<ValueView>,
    b: Seq<ValueView>,
    c: Seq<ValueView>,
)
    ensures
        same_group(o, a, a),
        same_group(o, a, b) ==> same_group(o, b, a),
        same_group(o, a, b) && same_group(o, b, c) ==> same_group(o, a, c),
{
    assert forall|i: int| 0 <= i < a.len() implies not_distinct(o, #[trigger] a[i], a[i]) by {
        o.preorder(a[i], a[i], a[i]);
    }
    if same_group(o, a, b) {
        assert forall|i: int| 0 <= i < b.len() implies not_distinct(o, #[trigger] b[i], a[i]) by {
            assert(not_distinct(o, a[i], b[i]));
            o.preorder(a[i], b[i], a[i]);
        }
        if same_group(o, b, c) {
            assert forall|i: int| 0 <= i < a.len() implies not_distinct(o, #[trigger] a[i], c[i]) by {
                assert(not_distinct(o, a[i], b[i]));
                assert(not_distinct(o, b[i], c[i]));
                o.preorder(a[i], b[i], c[i]);
                o.preorder(c[i], b[i], a[i]);
                o.preorder(a[i], b[i], a[i]);
                o.preorder(b[i], c[i], b[i]);
                o.preorder(a[i], c[i], a[i]);
            }
        }
    }
}

// ---------------------------------------------------------------- sort keys

/// Where NULLs go: with the default they count as larger than every value.
#[derive(Clone, Copy, Debug, PartialEq, Eq, Structural)]
pub enum NullOrdering {
    Default,
    First,
    Last,
}

/// The direction of one sort key.
#[derive(Clone, Copy, Debug, PartialEq, Eq, Structural)]
pub struct SortKey {
    pub ascending: bool,
    pub nulls: NullOrdering,
}

pub open spec fn nulls_first(k: SortKey) -> bool {
    match k.nulls {
        NullOrdering::Default => !k.ascending,
        NullOrdering::First => true,
        NullOrdering::Last => false,
    }
}

/// How `a` stands to `b` by the key `k`.
pub open spec fn key_order<O: ValueOrder>(o: &O, a: ValueView, b: ValueView, k: SortKey) -> Order {
    if a is Null && b is Null {
        Order::Equal
    } else if a is Null {
        if nulls_first(k) {
            Order::Less
        } else {
            Order::Greater
        }
    } else if b is Null {
        if nulls_first(k) {
            Order::Greater
        } else {
            Order::Less
        }
    } else if k.ascending {
        o.order(a, b)
    } else {
        flip(o.order(a, b))
    }
}

/// The key at `i`; one that is not given is ascending.
pub open spec fn key_at(ks: Seq<SortKey>, i: nat) -> SortKey {
    if i < ks.len() {
        ks[i as int]
    } else {
        SortKey { ascending: true, nulls: NullOrdering::Default }
    }
}

/// How the row keys `a` stand to `b`, from the `i`-th on: by the first key on which they differ.
pub open spec fn keys_order<O: ValueOrder>(
    o: &O,
    a: Seq<ValueView>,
    b: Seq<ValueView>,
    ks: Seq<SortKey>,
    i: nat,
) -> Order
    decreases a.len() - i,
{
    if i >= a.len() || i >= b.len() {
        Order::Equal
    } else {
        match key_order(o, a[i as int], b[i as int], key_at(ks, i)) {
            Order::Equal => keys_order(o, a, b, ks, i + 1),
            other => other,
        }
    }
}

/// Compare two values by a key.
pub fn compare_order_key<O: ValueOrder>(o: &O, a: &Value, b: &Value, k: SortKey) -> (r: Order)
    ensures
        r == key_order(o, a@, b@, k),
{
    let first: bool = match k.nulls {
        NullOrdering::Default => !k.ascending,
        NullOrdering::First => true,
        NullOrdering::Last => false,
    };
    match (a, b) {
        (Value::Null, Value::Null) => Order::Equal,
        (Value::Null, _) => if first {
            Order::Less
        } else {
            Order::Greater
        },
        (_, Value::Null) => if first {
            Order::Greater
        } else {
            Order::Less
        },
        (x, y) => {
            let r = o.compare(x, y);
            if k.ascending {
                r
            } else {
                flipped(r)
            }
        },
    }
}

/// Compare the keys of two rows.
pub fn compare_keys<O: ValueOrder>(o: &O, a: &Vec<Value>, b: &Vec<Value>, ks: &Vec<SortKey>) -> (r:
    Order)
    ensures
        r == keys_order(o, a.deep_view(), b.deep_view(), ks@, 0),
{
    let ghost av = a.deep_view();
    let ghost bv = b.deep_view();
    let mut i: usize = 0;
    while i < a.len() && i < b.len()
        invariant
            av == a.deep_view(),
            bv == b.deep_view(),
            i <= a@.len(),
            i <= b@.len(),
            keys_order(o, av, bv, ks@, 0) == keys_order(o, av, bv, ks@, i as nat),
        decreases a@.len() - i,
    {
        assert(av[i as int] == a@[i as int]@);
        assert(bv[i as int] == b@[i as int]@);
        let k = if i < ks.len() {
            ks[i]
        } else {
            SortKey { ascending: true, nulls: NullOrdering::Default }
        };
        match compare_order_key(o, &a[i], &b[i], k) {
            Order::Equal => {},
            other => {
                return other;
            },
        }
        i += 1;
    }
    Order::Equal
}

pub proof fn lemma_key_order<O: ValueOrder>(o: &O, a: ValueView, b: ValueView, c: ValueView, k: SortKey)
    ensures
        key_order(o, a, a, k) is Equal,
        key_order(o, b, a, k) == flip(key_order(o, a, b, k)),
        !(key_order(o, a, b, k) is Greater) && !(key_order(o, b, c, k) is Greater) ==> !(key_order(
            o,
            a,
            c,
            k,
        ) is Greater) && (key_order(o, a, c, k) is Equal ==> key_order(o, a, b, k) is Equal
            && key_order(o, b, c, k) is Equal),
{
    o.preorder(a, b, c);
    o.preorder(c, b, a);
    o.preorder(a, a, a);
    o.preorder(b, c, b);
    o.preorder(a, c, a);
}

pub proof fn lemma_keys_flip<O: ValueOrder>(
    o: &O,
    a: Seq<ValueView>,
    b: Seq<ValueView>,
    ks: Seq<SortKey>,
    i: nat,
)
    ensures
        keys_order(o, a, a, ks, i) is Equal,
        keys_order(o, b, a, ks, i) == flip(keys_order(o, a, b, ks, i)),
    decreases a.len() - i,
{
    if i < a.len() {
        lemma_key_order(o, a[i as int], a[i as int], a[i as int], key_at(ks, i));
        lemma_keys_flip(o, a, b, ks, i + 1);
        if i < b.len() {
            lemma_key_order(o, a[i as int], b[i as int], a[i as int], key_at(ks, i));
        }
    }
}

pub proof fn lemma_keys_trans<O: ValueOrder>(
    o: &O,
    a: Seq<ValueView>,
    b: Seq<ValueView>,
    c: Seq<ValueView>,
    ks: Seq<SortKey>,
    i: nat,
)
    requires
        a.len() == b.len() == c.len(),
        !(keys_order(o, a, b, ks, i) is Greater),
        !(keys_order(o, b, c, ks, i) is Greater),
    ensures
        !(keys_order(o, a, c, ks, i) is Greater),
        keys_order(o, a, c, ks, i) is Equal ==> keys_order(o, a, b, ks, i) is Equal && keys_order(
            o,
            b,
            c,
            ks,
            i,
        ) is Equal,
    decreases a.len() - i,
{
    if i < a.len() {
        let k = key_at(ks, i);
        lemma_key_order(o, a[i as int], b[i as int], c[i as int], k);
        if key_order(o, a[i as int], b[i as int], k) is Equal && key_order(
            o,
            b[i as int],
            c[i as int],
            k,
        ) is Equal {
            lemma_key_order(o, c[i as int], b[i as int], a[i as int], k);
            lemma_key_order(o, a[i as int], c[i as int], a[i as int], k);
            lemma_key_order(o, a[i as int], b[i as int], a[i as int], k);
            lemma_key_order(o, b[i as int], c[i as int], b[i as int], k);
            lemma_keys_trans(o, a, b, c, ks, i + 1);
        }
    }
}

} // verus!
