//! The generator behind `RANDOM()` and `SETSEED()`, and the deterministic hashes.
use vstd::prelude::*;

pub mod meaning;

verus! {

/// What the generator's state grows by with each number.
pub const GOLDEN_GAMMA: u64 = 0x9E37_79B9_7F4A_7C15;

const MIX_A: u64 = 0xBF58_476D_1CE4_E5B9;

const MIX_B: u64 = 0x94D0_49BB_1331_11EB;

/// `a` times `b`, modulo the machine word.
pub open spec fn times(a: u64, b: u64) -> u64 {
    ((a as nat * b as nat) % 0x1_0000_0000_0000_0000) as u64
}

/// `a` plus `b`, modulo the machine word.
pub open spec fn plus(a: u64, b: u64) -> u64 {
    ((a as nat + b as nat) % 0x1_0000_0000_0000_0000) as u64
}

/// Disperse the bits of `z`.
pub open spec fn mixed(z: u64) -> u64 {
    let a = times(z ^ (z >> 30u64), 0xBF58_476D_1CE4_E5B9);
    let b = times(a ^ (a >> 27u64), 0x94D0_49BB_1331_11EB);
    b ^ (b >> 31u64)
}

fn mul_wrap(a: u64, b: u64) -> (r: u64)
    ensures
        r == times(a, b),
{
    proof {
        assert(a as nat * b as nat <= 0xFFFF_FFFF_FFFF_FFFF * 0xFFFF_FFFF_FFFF_FFFF) by (nonlinear_arith)
            requires
                a <= 0xFFFF_FFFF_FFFF_FFFF,
                b <= 0xFFFF_FFFF_FFFF_FFFF,
        ;
    }
    let p: u128 = (a as u128) * (b as u128);
    (p % 0x1_0000_0000_0000_0000) as u64
}

fn add_wrap(a: u64, b: u64) -> (r: u64)
    ensures
        r == plus(a, b),
{
    let p: u128 = (a as u128) + (b as u128);
    (p % 0x1_0000_0000_0000_0000) as u64
}

/// Disperse the bits of `z`.
pub fn mix(z: u64) -> (r: u64)
    ensures
        r == mixed(z),
{
    let a: u64 = mul_wrap(z ^ (z >> 30u64), MIX_A);
    let b: u64 = mul_wrap(a ^ (a >> 27u64), MIX_B);
    b ^ (b >> 31u64)
}

/// The hash of the first `n` bytes, before its bits are dispersed.
pub open spec fn fnv(bytes: Seq<u8>, n: nat) -> u64
    decreases n,
{
    if n == 0 {
        0xCBF2_9CE4_8422_2325
    } else {
        times(fnv(bytes, (n - 1) as nat) ^ (bytes[n - 1] as u64), 0x0000_0100_0000_01B3)
    }
}

/// A deterministic hash of bytes.
pub fn fnv1a(bytes: &[u8]) -> (r: u64)
    ensures
        r == fnv(bytes@, bytes@.len()),
{
    let n: usize = bytes.len();
    let mut h: u64 = 0xCBF2_9CE4_8422_2325;
    let mut i: usize = 0;
    while i < n
        invariant
            n == bytes@.len(),
            i <= n,
            h == fnv(bytes@, i as nat),
        decreases n - i,
    {
        h = mul_wrap(h ^ (bytes[i] as u64), 0x0000_0100_0000_01B3);
        i += 1;
    }
    h
}

/// A deterministic hash of bytes with dispersed bits.
pub open spec fn hashed(bytes: Seq<u8>) -> u64 {
    mixed(plus(fnv(bytes, bytes.len()), GOLDEN_GAMMA))
}

/// A deterministic hash of bytes with dispersed bits.
pub fn hash64(bytes: &[u8]) -> (r: u64)
    ensures
        r == hashed(bytes@),
{
    mix(add_wrap(fnv1a(bytes), GOLDEN_GAMMA))
}

/// A generator of random numbers, seeded at its first use or by a seed.
pub struct Generator {
    state: Option<u64>,
}

/// The number of 53-bit fractions of one.
pub const UNIT: u64 = 0x20_0000_0000_0000;

/// `v` with its lowest bit set.
pub open spec fn made_odd(v: u64) -> u64 {
    if v % 2 == 0 {
        (v + 1) as u64
    } else {
        v
    }
}

/// The seed that the time `now` gives.
pub open spec fn time_seed(now: i64) -> u64 {
    made_odd(
        (if now < 0 {
            -now
        } else {
            now as int
        }) as u64,
    )
}

/// The state that a number is drawn from.
pub open spec fn state_before(state: Option<u64>, now: i64) -> u64 {
    match state {
        Some(s) => s,
        None => time_seed(now),
    }
}

/// The states after `n` numbers, from state `s`.
pub open spec fn advanced(s: u64, n: nat) -> u64
    decreases n,
{
    if n == 0 {
        s
    } else {
        plus(advanced(s, (n - 1) as nat), GOLDEN_GAMMA)
    }
}

/// The `i`-th number drawn from state `s`.
pub open spec fn drawn(s: u64, i: nat) -> u64 {
    mixed(advanced(s, i + 1))
}

fn odd(v: u64) -> (r: u64)
    ensures
        r == made_odd(v),
{
    if v % 2 == 0 {
        v + 1
    } else {
        v
    }
}

impl Generator {
    /// The state, if the generator has been seeded or used.
    pub closed spec fn at(&self) -> Option<u64> {
        self.state
    }

    /// A generator that has not been seeded.
    pub fn new() -> (r: Generator)
        ensures
            r.at() is None,
    {
        Generator { state: None }
    }

    /// Seed the generator. The seed is forced odd.
    pub fn set_seed(&mut self, seed: u64)
        ensures
            final(self).at() == Some(made_odd(seed)),
    {
        self.state = Some(odd(seed));
    }

    /// The next number. A generator that has not been seeded takes its seed from the time `now`.
    pub fn next_u64(&mut self, now: i64) -> (r: u64)
        ensures
            final(self).at() == Some(plus(state_before(old(self).at(), now), GOLDEN_GAMMA)),
            r == mixed(plus(state_before(old(self).at(), now), GOLDEN_GAMMA)),
    {
        let s: u64 = match self.state {
            Some(s) => s,
            None => {
                let m: u64 = if now < 0 {
                    (-(now as i128)) as u64
                } else {
                    now as u64
                };
                odd(m)
            },
        };
        let next: u64 = add_wrap(s, GOLDEN_GAMMA);
        self.state = Some(next);
        mix(next)
    }

    /// The next random fraction of one, as a count of 53-bit fractions.
    pub fn next_fraction(&mut self, now: i64) -> (r: u64)
        ensures
            final(self).at() == Some(plus(state_before(old(self).at(), now), GOLDEN_GAMMA)),
            r == mixed(plus(state_before(old(self).at(), now), GOLDEN_GAMMA)) / 2048,
            r < UNIT,
    {
        let v: u64 = self.next_u64(now);
        v / 2048
    }
}

/// After a seed the numbers are the same, whatever the generator did before and whatever the time:
/// the `i`-th depends on the seed alone.
pub proof fn law_seed_fixes_the_numbers(seed: u64, i: nat, now: i64)
    ensures
        ({
            let s = advanced(made_odd(seed), i);
            &&& state_before(Some(s), now) == s
            &&& mixed(plus(state_before(Some(s), now), GOLDEN_GAMMA)) == drawn(made_odd(seed), i)
            &&& plus(state_before(Some(s), now), GOLDEN_GAMMA) == advanced(made_odd(seed), i + 1)
        }),
{
}

} // verus!
