//! How numbers are spelled.
use vstd::prelude::*;
use crate::memory;
use crate::numbers;

verus! {

/// The digits of a number are those of its tenth part and then the last one; a number below ten is one
/// digit.
pub proof fn law_numbers_are_spelled_in_tens(n: nat, d: nat)
    requires
        d < 10,
    ensures
        numbers::digits(d) == seq![(48 + d) as char],
        n > 0 ==> numbers::digits(10 * n + d) == numbers::digits(n).push((48 + d) as char),
        n > 0 ==> numbers::decimal(-(n as int)) == seq!['-'] + numbers::digits(n),
        numbers::decimal(n as int) == numbers::digits(n),
{
}

/// A text of digits spells the number; a plus in front changes nothing, and a minus makes it negative where
/// there may be one, and no number elsewhere.
pub proof fn law_signs_stand_in_front(s: Seq<char>)
    requires
        s.len() > 0,
        forall|i: int| 0 <= i < s.len() ==> '0' <= #[trigger] s[i] <= '9',
    ensures
        numbers::spelled(s, true) == Some(memory::digits_value(s) as int),
        numbers::spelled(s, false) == Some(memory::digits_value(s) as int),
        numbers::spelled(seq!['+'] + s, true) == numbers::spelled(s, true),
        numbers::spelled(seq!['+'] + s, false) == numbers::spelled(s, false),
        numbers::spelled(seq!['-'] + s, true) == Some(-(memory::digits_value(s) as int)),
        numbers::spelled(seq!['-'] + s, false) is None,
        numbers::spelled(Seq::empty(), true) is None,
{
    assert((seq!['+'] + s).skip(1) =~= s);
    assert((seq!['-'] + s).skip(1) =~= s);
    assert(!memory::is_digit((seq!['-'] + s)[0]));
}

/// Numbers that do not fit in 64 bits are not read.
pub proof fn law_numbers_fit_in_64_bits(s: Seq<char>, n: int)
    requires
        numbers::spelled(s, true) == Some(n),
    ensures
        -0x8000_0000_0000_0000 <= n <= 0x7FFF_FFFF_FFFF_FFFF ==> numbers::spelled_i64(s) == Some(n as i64),
        n > 0x7FFF_FFFF_FFFF_FFFF || n < -0x8000_0000_0000_0000 ==> numbers::spelled_i64(s) is None,
{
}

} // verus!
