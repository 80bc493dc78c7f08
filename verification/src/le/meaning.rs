//! Where each byte of a number stands.
use vstd::prelude::*;
use crate::le;

verus! {

/// The lowest byte of a number comes first, and then the bytes of the rest.
pub proof fn law_low_bytes_come_first(v: nat, n: nat)
    ensures
        le::le_bytes(v, 0) == Seq::<u8>::empty(),
        le::le_bytes(v, n + 1).len() == n + 1,
        le::le_bytes(v, n + 1)[0] == v % 256,
        le::le_bytes(v, n + 1).skip(1) == le::le_bytes(v / 256, n),
{
    le::lemma_le_len(v, n + 1);
    assert(le::le_bytes(v, n + 1).skip(1) =~= le::le_bytes(v / 256, n));
}

/// The first byte read is the lowest one.
pub proof fn law_first_bytes_are_low(b: u8, rest: Seq<u8>)
    ensures
        le::le_value(Seq::empty()) == 0,
        le::le_value(seq![b] + rest) == b + 256 * le::le_value(rest),
{
    assert((seq![b] + rest).skip(1) =~= rest);
}

/// Negative numbers stand in two's complement: in `n` bytes, `x` as `256^n + x`.
pub proof fn law_negative_numbers_are_complemented(x: int)
    ensures
        -0x8000_0000 <= x < 0 ==> le::twos(x, 4) == 0x1_0000_0000 + x,
        -0x8000_0000_0000_0000 <= x < 0 ==> le::twos(x, 8) == 0x1_0000_0000_0000_0000 + x,
        x >= 0 ==> le::twos(x, 4) == x && le::twos(x, 8) == x && le::twos(x, 16) == x,
{
    le::lemma_pow256();
}

} // verus!
