//! Memory budgets.
use vstd::prelude::*;
use vstd::utf8::*;
use crate::error::{Error, Stage};
use crate::text;
use crate::value;
use crate::value::{Row, Value, ValueView};

pub mod meaning;

verus! {

/// The memory settings of a process.
pub struct MemorySettings {
    work_mem: usize,
    maintenance_work_mem: usize,
}

/// The maintenance budget where none is set: 64 MiB.
pub const DEFAULT_MAINTENANCE_WORK_MEM: usize = 0x400_0000;

impl MemorySettings {
    /// The work-memory budget in bytes; 0 is unlimited.
    pub closed spec fn work(&self) -> usize {
        self.work_mem
    }

    /// The maintenance budget in bytes that was set; 0 is none.
    pub closed spec fn maintenance(&self) -> usize {
        self.maintenance_work_mem
    }

    /// Settings under which nothing is set.
    pub fn new() -> (r: MemorySettings)
        ensures
            r.work() == 0,
            r.maintenance() == 0,
    {
        MemorySettings { work_mem: 0, maintenance_work_mem: 0 }
    }
}

/// Set the work-memory budget of a query in bytes; 0 disables it.
pub fn set_work_mem(settings: &mut MemorySettings, bytes: usize)
    ensures
        final(settings).work() == bytes,
        final(settings).maintenance() == old(settings).maintenance(),
{
    settings.work_mem = bytes;
}

/// The work-memory budget of a query in bytes, or 0 if it is unlimited.
pub fn work_mem(settings: &MemorySettings) -> (r: usize)
    ensures
        r == settings.work(),
{
    settings.work_mem
}

/// Set the maintenance budget in bytes; 0 restores the built-in one.
pub fn set_maintenance_work_mem(settings: &mut MemorySettings, bytes: usize)
    ensures
        final(settings).maintenance() == bytes,
        final(settings).work() == old(settings).work(),
{
    settings.maintenance_work_mem = bytes;
}

/// The maintenance budget in bytes: the one that was set, or else the built-in one. Never 0.
pub fn maintenance_work_mem(settings: &MemorySettings) -> (r: usize)
    ensures
        settings.maintenance() != 0 ==> r == settings.maintenance(),
        settings.maintenance() == 0 ==> r == DEFAULT_MAINTENANCE_WORK_MEM,
        r > 0,
{
    if settings.maintenance_work_mem == 0 {
        DEFAULT_MAINTENANCE_WORK_MEM
    } else {
        settings.maintenance_work_mem
    }
}

// ---------------------------------------------------------------- parsing a budget

pub open spec fn is_digit(c: char) -> bool {
    '0' <= c <= '9'
}

/// How many digits `s` begins with.
pub open spec fn digit_count(s: Seq<char>) -> nat
    decreases s.len(),
{
    if s.len() > 0 && is_digit(s[0]) {
        1 + digit_count(s.skip(1))
    } else {
        0
    }
}

/// The number that the decimal digits `s` stand for.
pub open spec fn digits_value(s: Seq<char>) -> nat
    decreases s.len(),
{
    if s.len() == 0 {
        0
    } else {
        10 * digits_value(s.drop_last()) + (s.last() as nat - '0' as nat) as nat
    }
}

/// The bytes in a unit; a number without one is in kilobytes.
pub open spec fn unit_bytes(unit: Seq<char>) -> Option<nat> {
    let u = text::lower_seq(unit);
    if u.len() == 0 || u == seq!['k', 'b'] {
        Some(0x400)
    } else if u == seq!['m', 'b'] {
        Some(0x10_0000)
    } else if u == seq!['g', 'b'] {
        Some(0x4000_0000)
    } else if u == seq!['t', 'b'] {
        Some(0x100_0000_0000)
    } else {
        None
    }
}

/// The bytes that a memory setting stands for, whatever their size: digits, then a unit.
pub open spec fn memory_bytes(value: Seq<char>) -> Option<nat> {
    let v = text::trim(value);
    let n = digit_count(v);
    if n == 0 {
        None
    } else {
        match unit_bytes(text::trim(v.subrange(n as int, v.len() as int))) {
            Some(scale) => Some(digits_value(v.subrange(0, n as int)) * scale),
            None => None,
        }
    }
}

proof fn lemma_digit_count(s: Seq<char>)
    ensures
        digit_count(s) <= s.len(),
        forall|i: int| 0 <= i < digit_count(s) ==> is_digit(#[trigger] s[i]),
        digit_count(s) < s.len() ==> !is_digit(s[digit_count(s) as int]),
    decreases s.len(),
{
    if s.len() > 0 && is_digit(s[0]) {
        lemma_digit_count(s.skip(1));
        assert forall|i: int| 0 <= i < digit_count(s) implies is_digit(#[trigger] s[i]) by {
            if i > 0 {
                assert(s[i] == s.skip(1)[i - 1]);
            }
        }
        if digit_count(s) < s.len() {
            assert(s[digit_count(s) as int] == s.skip(1)[digit_count(s.skip(1)) as int]);
        }
    }
}

proof fn lemma_digit_count_is(s: Seq<char>, n: nat)
    requires
        n <= s.len(),
        forall|i: int| 0 <= i < n ==> is_digit(#[trigger] s[i]),
        n < s.len() ==> !is_digit(s[n as int]),
    ensures
        digit_count(s) == n,
{
    lemma_digit_count(s);
    let k = digit_count(s);
    if k < n {
        assert(is_digit(s[k as int]));
    } else if k > n {
        assert(is_digit(s[n as int]));
    }
}

proof fn lemma_digits_grow(s: Seq<char>, n: nat)
    requires
        n <= s.len(),
    ensures
        digits_value(s.take(n as int)) <= digits_value(s),
    decreases s.len(),
{
    if n < s.len() {
        lemma_digits_grow(s.drop_last(), n);
        assert(s.drop_last().take(n as int) =~= s.take(n as int));
    } else {
        assert(s.take(n as int) =~= s);
    }
}

fn unit_scale(unit: &[char]) -> (r: Option<u64>)
    ensures
        match r {
            Some(n) => unit_bytes(unit@) == Some(n as nat),
            None => unit_bytes(unit@) is None,
        },
{
    if unit.len() == 0 {
        return Some(0x400);
    }
    if unit.len() != 2 {
        proof {
            assert(text::lower_seq(unit@).len() == unit@.len());
        }
        return None;
    }
    let a: char = text::lower_char(unit[0]);
    let b: char = text::lower_char(unit[1]);
    proof {
        let u = text::lower_seq(unit@);
        assert(u =~= seq![a, b]);
        assert(u == seq!['k', 'b'] <==> a == 'k' && b == 'b') by {
            if a == 'k' && b == 'b' {
                assert(u =~= seq!['k', 'b']);
            } else {
                assert(u[0] == a && u[1] == b);
                assert(seq!['k', 'b'][0] == 'k' && seq!['k', 'b'][1] == 'b');
            }
        }
        assert(u == seq!['m', 'b'] <==> a == 'm' && b == 'b') by {
            if a == 'm' && b == 'b' {
                assert(u =~= seq!['m', 'b']);
            } else {
                assert(seq!['m', 'b'][0] == 'm' && seq!['m', 'b'][1] == 'b');
            }
        }
        assert(u == seq!['g', 'b'] <==> a == 'g' && b == 'b') by {
            if a == 'g' && b == 'b' {
                assert(u =~= seq!['g', 'b']);
            } else {
                assert(seq!['g', 'b'][0] == 'g' && seq!['g', 'b'][1] == 'b');
            }
        }
        assert(u == seq!['t', 'b'] <==> a == 't' && b == 'b') by {
            if a == 't' && b == 'b' {
                assert(u =~= seq!['t', 'b']);
            } else {
                assert(seq!['t', 'b'][0] == 't' && seq!['t', 'b'][1] == 'b');
            }
        }
    }
    if b != 'b' {
        None
    } else if a == 'k' {
        Some(0x400)
    } else if a == 'm' {
        Some(0x10_0000)
    } else if a == 'g' {
        Some(0x4000_0000)
    } else if a == 't' {
        Some(0x100_0000_0000)
    } else {
        None
    }
}

/// The bytes that a `work_mem` setting stands for.
///
/// A bare integer is in kilobytes; `kB`, `MB`, `GB` and `TB`, in any case and after white space,
/// scale it. Anything else, and a number of bytes that does not fit, is `None`.
pub fn parse_work_mem(value: &str) -> (r: Option<usize>)
    ensures
        match r {
            Some(n) => memory_bytes(value@) == Some(n as nat),
            None => match memory_bytes(value@) {
                Some(n) => n > usize::MAX,
                None => true,
            },
        },
{
    let cs = text::to_chars(value);
    assert(cs@.subrange(0, cs@.len() as int) =~= cs@);
    let (a, b): (usize, usize) = text::trim_bounds(cs.as_slice(), 0, cs.len());
    let ghost v = cs@.subrange(a as int, b as int);
    let mut p: usize = a;
    while p < b && '0' <= cs[p] && cs[p] <= '9'
        invariant
            a <= p <= b <= cs@.len(),
            v == cs@.subrange(a as int, b as int),
            forall|i: int| 0 <= i < p - a ==> is_digit(#[trigger] v[i]),
        decreases b - p,
    {
        assert(v[p - a] == cs@[p as int]);
        p += 1;
    }
    proof {
        if p < b {
            assert(v[p - a] == cs@[p as int]);
        }
        lemma_digit_count_is(v, (p - a) as nat);
    }
    if p == a {
        return None;
    }
    let (x, y): (usize, usize) = text::trim_bounds(cs.as_slice(), p, b);
    let unit = vstd::slice::slice_subrange(cs.as_slice(), x, y);
    let ghost digits = v.subrange(0, p - a);
    let ghost n = digits_value(digits);
    proof {
        assert(cs@.subrange(p as int, b as int) =~= v.subrange(p - a, v.len() as int));
        assert(unit@ =~= cs@.subrange(x as int, y as int));
    }
    let scale: u64 = match unit_scale(unit) {
        Some(s) => s,
        None => {
            return None;
        },
    };
    let mut total: usize = 0;
    let mut i: usize = a;
    assert(digits.take(0) =~= Seq::<char>::empty());
    while i < p
        invariant
            a <= i <= p <= b <= cs@.len(),
            v == cs@.subrange(a as int, b as int),
            digits == v.subrange(0, p - a),
            n == digits_value(digits),
            forall|k: int| 0 <= k < p - a ==> is_digit(#[trigger] v[k]),
            total == digits_value(digits.take(i - a)),
            memory_bytes(value@) == Some(n * scale as nat),
            scale >= 0x400,
        decreases p - i,
    {
        let c: char = cs[i];
        assert(v[i - a] == c);
        let d: usize = (c as u32 - '0' as u32) as usize;
        proof {
            let next = digits.take(i - a + 1);
            assert(next.drop_last() =~= digits.take(i - a));
            assert(next.last() == c);
            lemma_digits_grow(digits, (i - a + 1) as nat);
            assert(n >= 10 * total + d);
            if 10 * total + d > usize::MAX {
                assert(n * scale as nat > usize::MAX) by (nonlinear_arith)
                    requires
                        n > usize::MAX,
                        scale >= 0x400,
                ;
            }
        }
        if total > usize::MAX / 10 || total * 10 > usize::MAX - d {
            return None;
        }
        total = total * 10 + d;
        i += 1;
    }
    assert(digits.take(digits.len() as int) =~= digits);
    let bytes: u128 = mul_wide(total, scale);
    if bytes > usize::MAX as u128 {
        None
    } else {
        Some(bytes as usize)
    }
}

fn mul_wide(a: usize, b: u64) -> (r: u128)
    ensures
        r == a * b,
{
    proof {
        assert(a * b <= u64::MAX * u64::MAX) by (nonlinear_arith)
            requires
                0 <= a <= u64::MAX,
                0 <= b <= u64::MAX,
        ;
    }
    a as u128 * b as u128
}

/// The budget in force for a statement: the session's setting where there is one that makes sense,
/// or else the process's.
pub fn effective_work_mem(session: Option<&str>, settings: &MemorySettings) -> (r: usize)
    ensures
        r == match session {
            Some(v) => match memory_bytes(v@) {
                Some(n) => if n <= usize::MAX {
                    n as usize
                } else {
                    settings.work()
                },
                None => settings.work(),
            },
            None => settings.work(),
        },
{
    match session {
        Some(v) => match parse_work_mem(v) {
            Some(n) => n,
            None => work_mem(settings),
        },
        None => work_mem(settings),
    }
}

// ---------------------------------------------------------------- the size of rows

/// The bytes of a value apart from what it owns on the heap. The number is that of the layout of values
/// in memory on a 64-bit machine, taken as given here.
pub const VALUE_BYTES: usize = 48;

/// The estimated bytes of a value: its own, and those of its text or elements.
pub open spec fn value_size(v: ValueView) -> nat
    decreases v, 0nat,
{
    VALUE_BYTES as nat + match v {
        ValueView::Text(s) => encode_utf8(s).len(),
        ValueView::Json(s) => encode_utf8(s).len(),
        ValueView::Array(items) => sizes(items, items.len()),
        _ => 0,
    }
}

/// The estimated bytes of the first `n` of `items`.
pub open spec fn sizes(items: Seq<ValueView>, n: nat) -> nat
    decreases items, n,
{
    if n == 0 || n > items.len() {
        0
    } else {
        sizes(items, (n - 1) as nat) + value_size(items[n - 1])
    }
}

/// The estimated bytes of a row.
pub open spec fn row_size(row: Seq<ValueView>) -> nat {
    sizes(row, row.len())
}

/// The estimated bytes of the first `n` rows.
pub open spec fn rows_size(rows: Seq<Seq<ValueView>>, n: nat) -> nat
    decreases n,
{
    if n == 0 {
        0
    } else {
        rows_size(rows, (n - 1) as nat) + row_size(rows[n - 1])
    }
}

/// `n`, or the largest machine number below it.
pub open spec fn clamp(n: nat) -> usize {
    if n <= usize::MAX {
        n as usize
    } else {
        usize::MAX
    }
}

/// The estimated bytes of a value.
fn value_bytes(v: &Value) -> (r: usize)
    ensures
        r == clamp(value_size(v@)),
    decreases v,
{
    match v {
        Value::Text(s) | Value::Json(s) => {
            let b = s.as_str().as_bytes();
            VALUE_BYTES.saturating_add(b.len())
        },
        Value::Array(items) => {
            proof {
                value::lemma_array_view(*items);
            }
            let ghost view = items.deep_view();
            let mut total: usize = 0;
            let mut i: usize = 0;
            while i < items.len()
                invariant
                    *v == Value::Array(*items),
                    view == items.deep_view(),
                    i <= items@.len(),
                    total == clamp(sizes(view, i as nat)),
                decreases items@.len() - i,
            {
                assert(decreases_to!(*v => (*v)->Array_0));
                assert(decreases_to!(*items => items[i as int]));
                assert(view[i as int] == items@[i as int]@);
                total = total.saturating_add(value_bytes(&items[i]));
                i += 1;
            }
            VALUE_BYTES.saturating_add(total)
        },
        _ => VALUE_BYTES,
    }
}

/// The estimated bytes of a row.
pub fn row_bytes(row: &Vec<Value>) -> (r: usize)
    ensures
        r == clamp(row_size(row.deep_view())),
{
    let ghost view = row.deep_view();
    let mut total: usize = 0;
    let mut i: usize = 0;
    while i < row.len()
        invariant
            view == row.deep_view(),
            i <= row@.len(),
            total == clamp(sizes(view, i as nat)),
        decreases row@.len() - i,
    {
        assert(view[i as int] == row@[i as int]@);
        total = total.saturating_add(value_bytes(&row[i]));
        i += 1;
    }
    total
}

/// The estimated bytes of a row set.
pub fn rows_bytes(rows: &Vec<Row>) -> (r: usize)
    ensures
        r == clamp(rows_size(rows.deep_view(), rows@.len())),
{
    let ghost view = rows.deep_view();
    let mut total: usize = 0;
    let mut i: usize = 0;
    while i < rows.len()
        invariant
            view == rows.deep_view(),
            i <= rows@.len(),
            total == clamp(rows_size(view, i as nat)),
        decreases rows@.len() - i,
    {
        assert(view[i as int] == rows@[i as int].deep_view());
        total = total.saturating_add(row_bytes(&rows[i]));
        i += 1;
    }
    total
}

/// Hold `used` bytes of a stage to a budget, of which 0 is unlimited.
pub fn enforce_budget(budget: usize, used: usize, stage: Stage) -> (r: Result<(), Error>)
    ensures
        budget == 0 || used <= budget ==> r == Ok::<(), Error>(()),
        budget != 0 && used > budget ==> r == Err::<(), Error>(
            Error::OutOfMemory { budget, used, stage },
        ),
{
    if budget != 0 && used > budget {
        Err(Error::OutOfMemory { budget, used, stage })
    } else {
        Ok(())
    }
}

/// Hold a materialized row set to a budget, of which 0 is unlimited.
pub fn enforce_work_mem(budget: usize, rows: &Vec<Row>) -> (r: Result<(), Error>)
    ensures
        ({
            let used = clamp(rows_size(rows.deep_view(), rows@.len()));
            if budget != 0 && used > budget {
                r == Err::<(), Error>(
                    Error::OutOfMemory { budget, used, stage: Stage::Materialized },
                )
            } else {
                r == Ok::<(), Error>(())
            }
        }),
{
    if budget == 0 {
        return Ok(());
    }
    enforce_budget(budget, rows_bytes(rows), Stage::Materialized)
}

} // verus!
