//! How numbers are mixed and drawn.
use vstd::prelude::*;
use crate::rng;

verus! {

/// The hash of a text with one more byte: that of the text, with the byte in its low end, times the prime;
/// without any byte it is the offset basis.
pub proof fn law_bytes_are_hashed_one_by_one(bytes: Seq<u8>, b: u8)
    ensures
        rng::fnv(Seq::empty(), 0) == 0xCBF2_9CE4_8422_2325u64,
        rng::fnv(bytes.push(b), bytes.len() + 1) == (((rng::fnv(bytes, bytes.len()) ^ (b as u64)) as nat
            * 0x100_0000_01B3) % 0x1_0000_0000_0000_0000) as u64,
{
    lemma_fnv_prefix(bytes, b, bytes.len());
}

proof fn lemma_fnv_prefix(bytes: Seq<u8>, b: u8, n: nat)
    requires
        n <= bytes.len(),
    ensures
        rng::fnv(bytes.push(b), n) == rng::fnv(bytes, n),
    decreases n,
{
    if n > 0 {
        lemma_fnv_prefix(bytes, b, (n - 1) as nat);
    }
}

/// A seed is odd: the number itself, or else the one after it.
pub proof fn law_seeds_are_odd(v: u64)
    ensures
        rng::made_odd(v) % 2 == 1,
        v % 2 == 1 ==> rng::made_odd(v) == v,
        v % 2 == 0 ==> rng::made_odd(v) == v + 1,
{
}

/// Each number drawn moves the state on by the golden ratio, and is the state mixed.
pub proof fn law_draws_move_the_state_on(s: u64, i: nat)
    ensures
        rng::advanced(s, 0) == s,
        rng::advanced(s, i + 1) == ((rng::advanced(s, i) as nat + 0x9E37_79B9_7F4A_7C15)
            % 0x1_0000_0000_0000_0000) as u64,
        rng::drawn(s, i) == rng::mixed(rng::advanced(s, i + 1)),
{
}

} // verus!
