//! Column statistics: a distinct-count sketch, the most common values, and a histogram.
use vstd::prelude::*;
use crate::rng;
use crate::rng::hash64;

pub mod column;
pub mod common;
pub mod meaning;

verus! {

/// The number of registers of a distinct-count sketch.
pub const REGISTERS: usize = 4096;

/// The number of binary digits of `w`.
pub open spec fn bit_length(w: nat) -> nat
    decreases w,
{
    if w == 0 {
        0
    } else {
        1 + bit_length(w / 2)
    }
}

/// `2^n`.
spec fn pow2(n: nat) -> nat
    decreases n,
{
    if n == 0 {
        1
    } else {
        2 * pow2((n - 1) as nat)
    }
}

proof fn lemma_bit_length_bound(w: nat, n: nat)
    requires
        w < pow2(n),
    ensures
        bit_length(w) <= n,
    decreases n,
{
    if w > 0 {
        if n > 0 {
            lemma_bit_length_bound(w / 2, (n - 1) as nat);
        }
    }
}

/// The register that a hash falls to.
pub open spec fn register_of(h: u64) -> int {
    h as int % 4096
}

/// The rank of a hash: one more than the zeros at the head of the 52 bits above the register's.
pub open spec fn rank_of(h: u64) -> u8 {
    (53 - bit_length(h as nat / 4096)) as u8
}

proof fn lemma_rank(h: u64)
    ensures
        bit_length(h as nat / 4096) <= 52,
        1 <= rank_of(h) <= 53,
{
    reveal_with_fuel(pow2, 53);
    assert(pow2(52) == 0x10_0000_0000_0000);
    lemma_bit_length_bound(h as nat / 4096, 52);
}

fn rank(h: u64) -> (r: u8)
    ensures
        r == rank_of(h),
{
    let mut w: u64 = h / 4096;
    let mut n: u8 = 53;
    proof {
        lemma_rank(h);
    }
    while w > 0
        invariant
            n >= 1,
            bit_length(w as nat) < n,
            n - bit_length(w as nat) == rank_of(h),
        decreases w,
    {
        w = w / 2;
        n = n - 1;
    }
    n
}

/// The registers after a key has been added.
pub open spec fn with_key(registers: Seq<u8>, key: Seq<u8>) -> Seq<u8> {
    let h = rng::hashed(key);
    if registers[register_of(h)] < rank_of(h) {
        registers.update(register_of(h), rank_of(h))
    } else {
        registers
    }
}

/// The registers after all the keys have been added to an empty sketch.
pub open spec fn sketched(keys: Seq<Seq<u8>>) -> Seq<u8>
    decreases keys.len(),
{
    if keys.len() == 0 {
        Seq::new(4096, |i: int| 0u8)
    } else {
        with_key(sketched(keys.drop_last()), keys.last())
    }
}

/// A distinct-count sketch: of the ranks of the keys that fall to it, each register keeps the
/// highest.
#[derive(Debug, PartialEq, Eq)]
pub struct Hll {
    registers: Vec<u8>,
}

impl View for Hll {
    type V = Seq<u8>;

    closed spec fn view(&self) -> Seq<u8> {
        self.registers@
    }
}

impl Hll {
    /// The sketch has all its registers.
    pub open spec fn wf(&self) -> bool {
        self@.len() == 4096
    }

    /// An empty sketch.
    pub fn new() -> (r: Hll)
        ensures
            r.wf(),
            r@ == sketched(Seq::empty()),
    {
        let mut registers: Vec<u8> = Vec::new();
        let mut i: usize = 0;
        while i < REGISTERS
            invariant
                i <= 4096,
                registers@ == Seq::new(i as nat, |i: int| 0u8),
            decreases 4096 - i,
        {
            registers.push(0);
            assert(registers@ =~= Seq::new((i + 1) as nat, |i: int| 0u8));
            i += 1;
        }
        Hll { registers }
    }

    /// Add a key.
    pub fn add(&mut self, bytes: &[u8])
        requires
            old(self).wf(),
        ensures
            final(self).wf(),
            final(self)@ == with_key(old(self)@, bytes@),
    {
        let h: u64 = hash64(bytes);
        let at: usize = (h % 4096) as usize;
        let rank: u8 = rank(h);
        if self.registers[at] < rank {
            self.registers.set(at, rank);
        }
    }

    /// The registers.
    pub fn registers(&self) -> (r: &Vec<u8>)
        ensures
            r@ == self@,
    {
        &self.registers
    }

    /// How many registers no key has fallen to.
    pub fn zeros(&self) -> (r: u32)
        requires
            self.wf(),
        ensures
            r == empty_registers(self@, 4096),
    {
        let mut n: u32 = 0;
        let mut i: usize = 0;
        while i < REGISTERS
            invariant
                self@.len() == 4096,
                i <= 4096,
                n <= i,
                n == empty_registers(self@, i as nat),
            decreases 4096 - i,
        {
            if self.registers[i] == 0 {
                n += 1;
            }
            i += 1;
        }
        n
    }
}

/// How many of the first `n` registers are zero.
pub open spec fn empty_registers(registers: Seq<u8>, n: nat) -> nat
    decreases n,
{
    if n == 0 {
        0
    } else {
        empty_registers(registers, (n - 1) as nat) + if registers[n - 1] == 0 {
            1nat
        } else {
            0nat
        }
    }
}

/// `key` falls to register `r`, with rank `rank`.
pub open spec fn falls(key: Seq<u8>, r: int, rank: u8) -> bool {
    register_of(rng::hashed(key)) == r && rank_of(rng::hashed(key)) == rank
}

pub(crate) proof fn lemma_sketched(keys: Seq<Seq<u8>>, r: int)
    requires
        0 <= r < 4096,
    ensures
        sketched(keys).len() == 4096,
        forall|k: int, rank: u8|
            0 <= k < keys.len() && #[trigger] falls(keys[k], r, rank) ==> rank <= sketched(keys)[r],
        sketched(keys)[r] != 0 ==> exists|k: int|
            0 <= k < keys.len() && #[trigger] falls(keys[k], r, sketched(keys)[r]),
    decreases keys.len(),
{
    if keys.len() > 0 {
        let head = keys.drop_last();
        let last = keys.last();
        let h = rng::hashed(last);
        lemma_sketched(head, r);
        lemma_rank(h);
        assert forall|k: int, rank: u8|
            0 <= k < keys.len() && #[trigger] falls(keys[k], r, rank) implies rank <= sketched(
            keys,
        )[r] by {
            if k < head.len() {
                assert(falls(head[k], r, rank));
            }
        }
        if sketched(keys)[r] != 0 {
            if sketched(keys)[r] == sketched(head)[r] {
                let k = choose|k: int|
                    0 <= k < head.len() && #[trigger] falls(head[k], r, sketched(head)[r]);
                assert(falls(keys[k], r, sketched(keys)[r]));
            } else {
                assert(falls(keys[keys.len() - 1], r, sketched(keys)[r]));
            }
        }
    }
}

/// The sketch depends only on which keys there are: neither their order nor how often each was
/// added changes it.
pub proof fn law_sketch_is_of_the_set(a: Seq<Seq<u8>>, b: Seq<Seq<u8>>)
    requires
        forall|k: int| 0 <= k < a.len() ==> b.contains(#[trigger] a[k]),
        forall|k: int| 0 <= k < b.len() ==> a.contains(#[trigger] b[k]),
    ensures
        sketched(a) == sketched(b),
{
    lemma_sketched(a, 0);
    lemma_sketched(b, 0);
    assert forall|r: int| 0 <= r < 4096 implies sketched(a)[r] == sketched(b)[r] by {
        lemma_sketched(a, r);
        lemma_sketched(b, r);
        let x = sketched(a)[r];
        let y = sketched(b)[r];
        if x != 0 {
            let k = choose|k: int| 0 <= k < a.len() && #[trigger] falls(a[k], r, x);
            let j = choose|j: int| 0 <= j < b.len() && b[j] == a[k];
            assert(falls(b[j], r, x));
        }
        if y != 0 {
            let k = choose|k: int| 0 <= k < b.len() && #[trigger] falls(b[k], r, y);
            let j = choose|j: int| 0 <= j < a.len() && a[j] == b[k];
            assert(falls(a[j], r, y));
        }
    }
    assert(sketched(a) =~= sketched(b));
}

} // verus!
