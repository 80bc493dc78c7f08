//! Decimal numbers in text.
use vstd::prelude::*;
use crate::memory;
use crate::text;

pub mod meaning;

verus! {

/// The digit `d` as a character.
pub open spec fn digit_char(d: nat) -> char {
    ('0' as nat + d) as char
}

/// The decimal digits of `n`, without leading zeros.
pub open spec fn digits(n: nat) -> Seq<char>
    decreases n,
{
    if n < 10 {
        seq![digit_char(n)]
    } else {
        digits(n / 10).push(digit_char(n % 10))
    }
}

/// A number in decimal, with a minus sign before a negative one.
pub open spec fn decimal(n: int) -> Seq<char> {
    if n < 0 {
        seq!['-'] + digits((-n) as nat)
    } else {
        digits(n as nat)
    }
}

/// All of `s` are digits, and there is one.
pub open spec fn all_digits(s: Seq<char>) -> bool {
    s.len() > 0 && forall|i: int| 0 <= i < s.len() ==> memory::is_digit(#[trigger] s[i])
}

/// The number that a text spells in decimal: digits after a sign if there is one, a minus only where
/// `signed`.
pub open spec fn spelled(s: Seq<char>, signed: bool) -> Option<int> {
    if s.len() > 0 && s[0] == '-' && signed {
        if all_digits(s.skip(1)) {
            Some(-(memory::digits_value(s.skip(1)) as int))
        } else {
            None
        }
    } else {
        let t = if s.len() > 0 && s[0] == '+' {
            s.skip(1)
        } else {
            s
        };
        if all_digits(t) {
            Some(memory::digits_value(t) as int)
        } else {
            None
        }
    }
}

/// The unsigned number that a text spells, where it fits.
pub open spec fn spelled_u64(s: Seq<char>) -> Option<u64> {
    match spelled(s, false) {
        Some(n) => if n <= u64::MAX {
            Some(n as u64)
        } else {
            None
        },
        None => None,
    }
}

/// The signed number that a text spells, where it fits.
pub open spec fn spelled_i64(s: Seq<char>) -> Option<i64> {
    match spelled(s, true) {
        Some(n) => if i64::MIN <= n <= i64::MAX {
            Some(n as i64)
        } else {
            None
        },
        None => None,
    }
}

fn digit_of(d: u8) -> (r: char)
    requires
        d < 10,
    ensures
        r == digit_char(d as nat),
        memory::is_digit(r),
        r as nat - '0' as nat == d,
{
    (48u8 + d) as char
}

proof fn lemma_digits(n: nat)
    ensures
        all_digits(digits(n)),
        memory::digits_value(digits(n)) == n,
        digits(n).len() > 0,
    decreases n,
{
    if n < 10 {
        let s = digits(n);
        assert(s.drop_last() =~= Seq::empty());
        assert(s.last() == digit_char(n));
        reveal_with_fuel(memory::digits_value, 2);
        lemma_digit_char(n);
    } else {
        lemma_digits(n / 10);
        lemma_digit_char(n % 10);
        let s = digits(n);
        let init = digits(n / 10);
        assert(s.drop_last() =~= init);
        assert forall|i: int| 0 <= i < s.len() implies memory::is_digit(#[trigger] s[i]) by {
            if i < init.len() {
                assert(s[i] == init[i]);
            }
        }
    }
}

proof fn lemma_digit_char(d: nat)
    requires
        d < 10,
    ensures
        memory::is_digit(digit_char(d)),
        digit_char(d) as nat - '0' as nat == d,
{
}

/// Push the decimal digits of `n`.
fn push_digits(out: &mut Vec<char>, n: u64)
    ensures
        final(out)@ == old(out)@ + digits(n as nat),
    decreases n,
{
    let ghost start = out@;
    if n < 10 {
        out.push(digit_of(n as u8));
        assert(out@ =~= start + seq![digit_char(n as nat)]);
    } else {
        push_digits(out, n / 10);
        let ghost mid = out@;
        out.push(digit_of((n % 10) as u8));
        assert(out@ =~= start + digits(n as nat));
    }
}

/// An unsigned number in decimal.
pub fn print_u64(n: u64) -> (r: String)
    ensures
        r@ == decimal(n as int),
{
    let mut cs: Vec<char> = Vec::new();
    push_digits(&mut cs, n);
    assert(cs@ =~= decimal(n as int));
    assert(cs@.subrange(0, cs@.len() as int) =~= cs@);
    text::from_chars(cs.as_slice(), 0, cs.len())
}

/// A signed number in decimal.
pub fn print_i64(n: i64) -> (r: String)
    ensures
        r@ == decimal(n as int),
{
    let mut cs: Vec<char> = Vec::new();
    if n < 0 {
        cs.push('-');
        let m: u64 = (-(n as i128)) as u64;
        push_digits(&mut cs, m);
        assert(cs@ =~= decimal(n as int));
    } else {
        push_digits(&mut cs, n as u64);
        assert(cs@ =~= decimal(n as int));
    }
    assert(cs@.subrange(0, cs@.len() as int) =~= cs@);
    text::from_chars(cs.as_slice(), 0, cs.len())
}

/// The number that the characters from `from` on spell; `None` where they are not all digits, and
/// `Some(None)` where the number exceeds `limit`.
fn parse_digits(cs: &[char], from: usize, limit: u128) -> (r: Option<Option<u128>>)
    requires
        from <= cs@.len(),
        limit <= u64::MAX,
    ensures
        ({
            let s = cs@.skip(from as int);
            match r {
                None => !all_digits(s),
                Some(None) => all_digits(s) && memory::digits_value(s) > limit,
                Some(Some(v)) => all_digits(s) && memory::digits_value(s) == v && v <= limit,
            }
        }),
{
    let total: usize = cs.len();
    let ghost s = cs@.skip(from as int);
    if from == total {
        return None;
    }
    let mut acc: u128 = 0;
    let mut over: bool = false;
    let mut i: usize = from;
    assert(s.take(0).len() == 0);
    while i < total
        invariant
            total == cs@.len(),
            from <= i <= total,
            s == cs@.skip(from as int),
            limit <= u64::MAX,
            forall|k: int| 0 <= k < i - from ==> memory::is_digit(#[trigger] s[k]),
            !over ==> acc == memory::digits_value(s.take(i - from)) && acc <= limit,
            over ==> memory::digits_value(s.take(i - from)) > limit,
        decreases total - i,
    {
        let c: char = cs[i];
        assert(s[i - from] == c);
        if !('0' <= c && c <= '9') {
            return None;
        }
        let ghost now = s.take(i + 1 - from);
        assert(now.drop_last() =~= s.take(i - from));
        assert(now.last() == c);
        if !over {
            acc = 10 * acc + (c as u128 - '0' as u128);
            if acc > limit {
                over = true;
            }
        }
        i += 1;
    }
    assert(s.take(s.len() as int) =~= s);
    if over {
        Some(None)
    } else {
        Some(Some(acc))
    }
}

/// The unsigned number that a text spells.
pub fn parse_u64(s: &str) -> (r: Option<u64>)
    ensures
        r == spelled_u64(s@),
{
    let cs = text::to_chars(s);
    let from: usize = if cs.len() > 0 && cs[0] == '+' {
        1
    } else {
        0
    };
    assert(s@.skip(0) =~= s@);
    match parse_digits(cs.as_slice(), from, u64::MAX as u128) {
        Some(Some(v)) => Some(v as u64),
        _ => None,
    }
}

/// The signed number that a text spells.
pub fn parse_i64(s: &str) -> (r: Option<i64>)
    ensures
        r == spelled_i64(s@),
{
    let cs = text::to_chars(s);
    assert(s@.skip(0) =~= s@);
    if cs.len() > 0 && cs[0] == '-' {
        match parse_digits(cs.as_slice(), 1, 0x8000_0000_0000_0000) {
            Some(Some(v)) => Some((-(v as i128)) as i64),
            _ => None,
        }
    } else {
        let from: usize = if cs.len() > 0 && cs[0] == '+' {
            1
        } else {
            0
        };
        match parse_digits(cs.as_slice(), from, 0x7FFF_FFFF_FFFF_FFFF) {
            Some(Some(v)) => Some(v as i64),
            _ => None,
        }
    }
}

/// A printed number is read back.
pub proof fn law_decimal_round_trip(n: int)
    ensures
        0 <= n <= u64::MAX ==> spelled_u64(decimal(n)) == Some(n as u64),
        i64::MIN <= n <= i64::MAX ==> spelled_i64(decimal(n)) == Some(n as i64),
{
    if n < 0 {
        lemma_digits((-n) as nat);
        let s = decimal(n);
        assert(s.skip(1) =~= digits((-n) as nat));
    } else {
        lemma_digits(n as nat);
        let s = decimal(n);
        assert(memory::is_digit(s[0]));
    }
}

} // verus!
