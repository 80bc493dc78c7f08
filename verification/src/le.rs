//! Little-endian integers as byte sequences.
use vstd::prelude::*;

pub mod meaning;

verus! {

/// `256^n`.
pub open spec fn pow256(n: nat) -> nat
    decreases n,
{
    if n == 0 {
        1
    } else {
        256 * pow256((n - 1) as nat)
    }
}

/// The `n` low-order bytes of `v`, least significant first.
pub open spec fn le_bytes(v: nat, n: nat) -> Seq<u8>
    decreases n,
{
    if n == 0 {
        Seq::empty()
    } else {
        seq![(v % 256) as u8] + le_bytes(v / 256, (n - 1) as nat)
    }
}

/// The number whose little-endian bytes are `s`.
pub open spec fn le_value(s: Seq<u8>) -> nat
    decreases s.len(),
{
    if s.len() == 0 {
        0
    } else {
        s[0] as nat + 256 * le_value(s.skip(1))
    }
}

/// `x` as an unsigned number of `n` bytes, in two's complement.
pub open spec fn twos(x: int, n: nat) -> nat {
    if x < 0 {
        (x + pow256(n)) as nat
    } else {
        x as nat
    }
}

/// The signed number that the unsigned number `v` of `n` bytes encodes in two's complement.
pub open spec fn untwos(v: nat, n: nat) -> int {
    if 2 * v >= pow256(n) {
        v - pow256(n)
    } else {
        v as int
    }
}

pub proof fn lemma_pow256()
    ensures
        pow256(0) == 1,
        pow256(1) == 0x100,
        pow256(2) == 0x1_0000,
        pow256(4) == 0x1_0000_0000,
        pow256(8) == 0x1_0000_0000_0000_0000,
        pow256(16) == 0x1_0000_0000_0000_0000_0000_0000_0000_0000,
{
    reveal_with_fuel(pow256, 17);
}

pub proof fn lemma_pow256_step(n: nat)
    ensures
        pow256(n) > 0,
        pow256(n + 1) == 256 * pow256(n),
    decreases n,
{
    if n > 0 {
        lemma_pow256_step((n - 1) as nat);
    }
}

pub proof fn lemma_le_len(v: nat, n: nat)
    ensures
        le_bytes(v, n).len() == n,
    decreases n,
{
    if n > 0 {
        lemma_le_len(v / 256, (n - 1) as nat);
    }
}

/// Reading back the bytes of a number that fits gives the number.
pub proof fn lemma_le_read_write(v: nat, n: nat)
    requires
        v < pow256(n),
    ensures
        le_value(le_bytes(v, n)) == v,
        le_bytes(v, n).len() == n,
    decreases n,
{
    lemma_le_len(v, n);
    if n > 0 {
        assert(v / 256 < pow256((n - 1) as nat));
        lemma_le_read_write(v / 256, (n - 1) as nat);
        assert(le_bytes(v, n).skip(1) =~= le_bytes(v / 256, (n - 1) as nat));
    }
}

pub proof fn lemma_le_value_bound(s: Seq<u8>)
    ensures
        le_value(s) < pow256(s.len()),
    decreases s.len(),
{
    if s.len() > 0 {
        lemma_le_value_bound(s.skip(1));
    }
}

/// The bytes of the number that `s` encodes are `s`.
pub proof fn lemma_le_write_read(s: Seq<u8>)
    ensures
        le_bytes(le_value(s), s.len()) == s,
    decreases s.len(),
{
    if s.len() > 0 {
        lemma_le_write_read(s.skip(1));
        let rest = le_value(s.skip(1));
        assert((s[0] as nat + 256 * rest) / 256 == rest);
        assert((s[0] as nat + 256 * rest) % 256 == s[0] as nat);
        assert(s =~= seq![s[0]] + s.skip(1));
    } else {
        assert(s =~= Seq::<u8>::empty());
    }
}

proof fn lemma_le_value_push(s: Seq<u8>, b: u8)
    ensures
        le_value(s.push(b)) == le_value(s) + (b as nat) * pow256(s.len()),
    decreases s.len(),
{
    if s.len() > 0 {
        lemma_le_value_push(s.skip(1), b);
        assert(s.push(b).skip(1) =~= s.skip(1).push(b));
        lemma_pow256_step((s.len() - 1) as nat);
        let p = pow256((s.len() - 1) as nat);
        let r = le_value(s.skip(1));
        assert(256 * (r + (b as nat) * p) == 256 * r + (b as nat) * (256 * p)) by (nonlinear_arith);
        assert(s.push(b)[0] == s[0]);
    } else {
        assert(s.push(b).skip(1) =~= Seq::<u8>::empty());
        assert(le_value(s.push(b).skip(1)) == 0);
        assert((b as nat) * pow256(0) == b as nat) by (nonlinear_arith)
            requires
                pow256(0) == 1,
        ;
    }
}

/// Append the `n` low-order bytes of `v`, least significant first.
pub fn push_le(out: &mut Vec<u8>, v: u128, n: usize)
    ensures
        final(out)@ == old(out)@ + le_bytes(v as nat, n as nat),
{
    let mut rest: u128 = v;
    let mut i: usize = 0;
    let ghost start = out@;
    while i < n
        invariant
            i <= n,
            start + le_bytes(v as nat, n as nat) == out@ + le_bytes(rest as nat, (n - i) as nat),
        decreases n - i,
    {
        let ghost before = out@;
        let b: u8 = (rest % 256) as u8;
        out.push(b);
        proof {
            let m = (n - i) as nat;
            assert(le_bytes(rest as nat, m) == seq![b] + le_bytes((rest / 256) as nat, (m - 1) as nat));
            assert(before + le_bytes(rest as nat, m) =~= out@ + le_bytes(
                (rest / 256) as nat,
                (m - 1) as nat,
            ));
        }
        rest = rest / 256;
        i += 1;
    }
    proof {
        assert(out@ + le_bytes(rest as nat, 0) =~= out@);
    }
}

/// Append `bytes`.
pub fn push_bytes(out: &mut Vec<u8>, bytes: &[u8])
    ensures
        final(out)@ == old(out)@ + bytes@,
{
    let ghost start = out@;
    let mut i: usize = 0;
    while i < bytes.len()
        invariant
            i <= bytes@.len(),
            out@ == start + bytes@.take(i as int),
        decreases bytes@.len() - i,
    {
        out.push(bytes[i]);
        i += 1;
        assert(out@ =~= start + bytes@.take(i as int));
    }
    assert(bytes@.take(i as int) =~= bytes@);
}

/// A copy of the `n` bytes at `pos`.
pub fn copy_bytes(bytes: &[u8], pos: usize, n: usize) -> (r: Vec<u8>)
    requires
        pos + n <= bytes@.len(),
    ensures
        r@ == bytes@.subrange(pos as int, pos + n),
{
    let total: usize = bytes.len();
    let mut out: Vec<u8> = Vec::new();
    let mut i: usize = 0;
    while i < n
        invariant
            i <= n,
            pos + n <= bytes@.len() == total,
            out@ == bytes@.subrange(pos as int, pos + i),
        decreases n - i,
    {
        out.push(bytes[pos + i]);
        i += 1;
        assert(out@ =~= bytes@.subrange(pos as int, pos + i));
    }
    out
}

/// The number encoded by the `n` bytes at `pos`.
pub fn read_le(bytes: &[u8], pos: usize, n: usize) -> (v: u128)
    requires
        pos + n <= bytes@.len(),
        n <= 16,
    ensures
        v as nat == le_value(bytes@.subrange(pos as int, pos + n)),
        (v as nat) < pow256(n as nat),
{
    let mut acc: u128 = 0;
    let mut scale: u128 = 1;
    let mut i: usize = 0;
    let total: usize = bytes.len();
    proof {
        assert(bytes@.subrange(pos as int, pos as int) =~= Seq::<u8>::empty());
    }
    while i < n
        invariant
            i <= n <= 16,
            pos + n <= bytes@.len() == total,
            acc as nat == le_value(bytes@.subrange(pos as int, pos + i)),
            i < n ==> scale as nat == pow256(i as nat),
        decreases n - i,
    {
        proof {
            let s = bytes@.subrange(pos as int, pos + i);
            let b = bytes@[pos + i];
            assert(bytes@.subrange(pos as int, pos + i + 1) =~= s.push(b));
            lemma_le_value_push(s, b);
            lemma_le_value_bound(s.push(b));
            lemma_pow256_step(i as nat);
            lemma_pow256_mono((i + 1) as nat, 16);
            lemma_pow256();
            assert((b as nat) * (scale as nat) <= u128::MAX);
        }
        acc = acc + (bytes[pos + i] as u128) * scale;
        i += 1;
        if i < n {
            proof {
                lemma_pow256_mono(i as nat, 15);
                assert(pow256(15) * 256 == pow256(16)) by {
                    lemma_pow256_step(15);
                }
            }
            scale = scale * 256;
        }
    }
    proof {
        lemma_le_value_bound(bytes@.subrange(pos as int, pos + n));
    }
    acc
}

proof fn lemma_pow256_mono(a: nat, b: nat)
    requires
        a <= b,
    ensures
        pow256(a) <= pow256(b),
    decreases b - a,
{
    if a < b {
        lemma_pow256_step((b - 1) as nat);
        lemma_pow256_mono(a, (b - 1) as nat);
    }
}

/// The two's-complement bits of a 32-bit signed number.
pub fn i32_bits(x: i32) -> (v: u128)
    ensures
        v as nat == twos(x as int, 4),
        (v as nat) < pow256(4),
{
    proof {
        lemma_pow256();
    }
    if x < 0 {
        (x as i64 + 0x1_0000_0000) as u128
    } else {
        x as u128
    }
}

/// The two's-complement bits of a 64-bit signed number.
pub fn i64_bits(x: i64) -> (v: u128)
    ensures
        v as nat == twos(x as int, 8),
        (v as nat) < pow256(8),
{
    proof {
        lemma_pow256();
    }
    if x < 0 {
        (x as i128 + 0x1_0000_0000_0000_0000) as u128
    } else {
        x as u128
    }
}

/// The two's-complement bits of a 128-bit signed number.
pub fn i128_bits(x: i128) -> (v: u128)
    ensures
        v as nat == twos(x as int, 16),
        (v as nat) < pow256(16),
{
    proof {
        lemma_pow256();
    }
    if x < 0 {
        u128::MAX - ((-(x + 1)) as u128)
    } else {
        x as u128
    }
}

/// The 32-bit signed number with the two's-complement bits `v`.
pub fn bits_i32(v: u128) -> (x: i32)
    requires
        (v as nat) < pow256(4),
    ensures
        x as int == untwos(v as nat, 4),
{
    proof {
        lemma_pow256();
    }
    if v >= 0x8000_0000 {
        (v as i64 - 0x1_0000_0000) as i32
    } else {
        v as i32
    }
}

/// The 64-bit signed number with the two's-complement bits `v`.
pub fn bits_i64(v: u128) -> (x: i64)
    requires
        (v as nat) < pow256(8),
    ensures
        x as int == untwos(v as nat, 8),
{
    proof {
        lemma_pow256();
    }
    if v >= 0x8000_0000_0000_0000 {
        (v as i128 - 0x1_0000_0000_0000_0000) as i64
    } else {
        v as i64
    }
}

/// The 128-bit signed number with the two's-complement bits `v`.
pub fn bits_i128(v: u128) -> (x: i128)
    ensures
        x as int == untwos(v as nat, 16),
{
    proof {
        lemma_pow256();
    }
    if v >= 0x8000_0000_0000_0000_0000_0000_0000_0000 {
        -((u128::MAX - v) as i128) - 1
    } else {
        v as i128
    }
}

/// Two's complement loses nothing.
pub proof fn lemma_twos_round_trip(x: int, n: nat)
    requires
        -(pow256(n) as int) <= 2 * x,
        2 * x < pow256(n),
    ensures
        untwos(twos(x, n), n) == x,
        twos(x, n) < pow256(n),
{
    lemma_pow256_step(n);
}

/// The 32-bit words of a vector, one after the other.
pub open spec fn words(xs: Seq<u32>) -> Seq<u8>
    decreases xs.len(),
{
    if xs.len() == 0 {
        Seq::empty()
    } else {
        words(xs.drop_last()) + le_bytes(xs.last() as nat, 4)
    }
}

/// The unsigned number in the `n` bytes at `pos`.
pub open spec fn num_at(bytes: Seq<u8>, pos: nat, n: nat) -> nat {
    le_value(bytes.subrange(pos as int, (pos + n) as int))
}

/// `n` 32-bit words at `pos`.
pub open spec fn words_at(bytes: Seq<u8>, pos: nat, n: nat) -> Seq<u32> {
    Seq::new(n, |k: int| num_at(bytes, (pos + 4 * k) as nat, 4) as u32)
}

/// A signed 64-bit number at `pos`.
pub open spec fn i64_at(bytes: Seq<u8>, pos: nat) -> i64 {
    untwos(num_at(bytes, pos, 8), 8) as i64
}

/// A signed 32-bit number at `pos`.
pub open spec fn i32_at(bytes: Seq<u8>, pos: nat) -> i32 {
    untwos(num_at(bytes, pos, 4), 4) as i32
}

pub proof fn lemma_num_at(bytes: Seq<u8>, pos: nat, v: nat, n: nat)
    requires
        v < pow256(n),
        pos + n <= bytes.len(),
        bytes.subrange(pos as int, (pos + n) as int) == le_bytes(v, n),
    ensures
        num_at(bytes, pos, n) == v,
{
    lemma_le_read_write(v, n);
}

/// `part` stands in `bytes` at `pos`.
pub open spec fn stands_at(bytes: Seq<u8>, pos: nat, part: Seq<u8>) -> bool {
    pos + part.len() <= bytes.len() && bytes.subrange(pos as int, (pos + part.len()) as int) == part
}

pub proof fn lemma_stands_split(bytes: Seq<u8>, pos: nat, a: Seq<u8>, b: Seq<u8>)
    requires
        stands_at(bytes, pos, a + b),
    ensures
        stands_at(bytes, pos, a),
        stands_at(bytes, pos + a.len(), b),
{
    let whole = bytes.subrange(pos as int, (pos + a.len() + b.len()) as int);
    assert(whole == a + b);
    assert(bytes.subrange(pos as int, (pos + a.len()) as int) =~= whole.take(a.len() as int));
    assert(whole.take(a.len() as int) =~= a);
    assert(bytes.subrange((pos + a.len()) as int, (pos + a.len() + b.len()) as int)
        =~= whole.skip(a.len() as int));
    assert(whole.skip(a.len() as int) =~= b);
}

pub proof fn lemma_stands_tag(bytes: Seq<u8>, pos: nat, tag: u8, rest: Seq<u8>)
    requires
        stands_at(bytes, pos, seq![tag] + rest),
    ensures
        pos < bytes.len(),
        bytes[pos as int] == tag,
        stands_at(bytes, pos + 1, rest),
{
    lemma_stands_split(bytes, pos, seq![tag], rest);
    assert(bytes.subrange(pos as int, (pos + 1) as int)[0] == tag);
}

pub proof fn lemma_words_round_trip(bytes: Seq<u8>, pos: nat, xs: Seq<u32>)
    requires
        stands_at(bytes, pos, words(xs)),
    ensures
        words(xs).len() == 4 * xs.len(),
        words_at(bytes, pos, xs.len()) == xs,
    decreases xs.len(),
{
    if xs.len() > 0 {
        let head = xs.drop_last();
        lemma_pow256();
        lemma_le_len(xs.last() as nat, 4);
        lemma_stands_split(bytes, pos, words(head), le_bytes(xs.last() as nat, 4));
        lemma_words_round_trip(bytes, pos, head);
        lemma_num_at(bytes, pos + 4 * head.len(), xs.last() as nat, 4);
        assert(words_at(bytes, pos, xs.len()) =~= words_at(bytes, pos, head.len()).push(xs.last()));
        assert(xs =~= head.push(xs.last()));
    } else {
        assert(words_at(bytes, pos, xs.len()) =~= xs);
    }
}

pub proof fn lemma_i64_round_trip(bytes: Seq<u8>, pos: nat, i: i64)
    requires
        stands_at(bytes, pos, le_bytes(twos(i as int, 8), 8)),
    ensures
        pos + 8 <= bytes.len(),
        i64_at(bytes, pos) == i,
{
    lemma_pow256();
    lemma_twos_round_trip(i as int, 8);
    lemma_le_len(twos(i as int, 8), 8);
    lemma_num_at(bytes, pos, twos(i as int, 8), 8);
}

pub proof fn lemma_i32_round_trip(bytes: Seq<u8>, pos: nat, i: i32)
    requires
        stands_at(bytes, pos, le_bytes(twos(i as int, 4), 4)),
    ensures
        pos + 4 <= bytes.len(),
        i32_at(bytes, pos) == i,
{
    lemma_pow256();
    lemma_twos_round_trip(i as int, 4);
    lemma_le_len(twos(i as int, 4), 4);
    lemma_num_at(bytes, pos, twos(i as int, 4), 4);
}

} // verus!
