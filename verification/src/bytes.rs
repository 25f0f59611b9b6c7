//! Little-endian encodings of unsigned and two's-complement integers.
use vstd::prelude::*;

verus! {

/// `256` raised to the power `k`.
pub open spec fn pow256(k: nat) -> nat
    decreases k,
{
    if k == 0 {
        1
    } else {
        256 * pow256((k - 1) as nat)
    }
}

/// The `k` low bytes of `n`, least significant first.
pub open spec fn le_bytes(n: nat, k: nat) -> Seq<u8>
    decreases k,
{
    if k == 0 {
        Seq::empty()
    } else {
        seq![(n % 256) as u8] + le_bytes(n / 256, (k - 1) as nat)
    }
}

/// The number whose little-endian bytes are `s`.
pub open spec fn le_value(s: Seq<u8>) -> nat
    decreases s.len(),
{
    if s.len() == 0 {
        0
    } else {
        s[0] as nat + 256 * le_value(s.drop_first())
    }
}

/// The two-byte little-endian encoding of `n` modulo `2^16` (what an `as u16` cast keeps).
pub open spec fn le16(n: nat) -> Seq<u8> {
    le_bytes(n, 2)
}

/// The value of two bytes read as a little-endian `u16`.
pub open spec fn u16_at(s: Seq<u8>, i: int) -> nat {
    s[i] as nat + 256 * (s[i + 1] as nat)
}

/// The 128 bits of an `i128` in two's complement, read as an unsigned number.
pub open spec fn i128_bits(n: i128) -> nat {
    if n >= 0 {
        n as nat
    } else {
        (n + 0x1_0000_0000_0000_0000_0000_0000_0000_0000) as nat
    }
}

/// The `i128` whose two's-complement bits, read as an unsigned number, are `u`.
pub open spec fn i128_of_bits(u: nat) -> int {
    if u < 0x8000_0000_0000_0000_0000_0000_0000_0000 {
        u as int
    } else {
        u - 0x1_0000_0000_0000_0000_0000_0000_0000_0000
    }
}

pub proof fn lemma_pow256_16()
    ensures
        pow256(16) == 0x1_0000_0000_0000_0000_0000_0000_0000_0000,
        pow256(2) == 65536,
{
    reveal_with_fuel(pow256, 17);
}

pub proof fn lemma_pow256_positive(k: nat)
    ensures
        pow256(k) > 0,
    decreases k,
{
    if k > 0 {
        lemma_pow256_positive((k - 1) as nat);
    }
}

pub proof fn lemma_pow256_mono(j: nat, k: nat)
    requires
        j <= k,
    ensures
        pow256(j) <= pow256(k),
    decreases k,
{
    if j < k {
        lemma_pow256_mono(j, (k - 1) as nat);
        lemma_pow256_positive((k - 1) as nat);
    }
}

pub proof fn lemma_le_bytes_len(n: nat, k: nat)
    ensures
        le_bytes(n, k).len() == k,
    decreases k,
{
    if k > 0 {
        lemma_le_bytes_len(n / 256, (k - 1) as nat);
    }
}

/// Reading back `k` little-endian bytes of `n` gives `n` modulo `256^k`.
pub proof fn lemma_le_roundtrip(n: nat, k: nat)
    ensures
        le_value(le_bytes(n, k)) == n % pow256(k),
    decreases k,
{
    if k > 0 {
        let rest = le_bytes(n / 256, (k - 1) as nat);
        assert((seq![(n % 256) as u8] + rest).drop_first() =~= rest);
        lemma_le_roundtrip(n / 256, (k - 1) as nat);
        lemma_pow256_positive((k - 1) as nat);
        vstd::arithmetic::div_mod::lemma_breakdown(n as int, 256, pow256((k - 1) as nat) as int);
    }
}

/// A sequence of bytes read as a little-endian number is below `256^len`.
pub proof fn lemma_le_value_bound(s: Seq<u8>)
    ensures
        le_value(s) < pow256(s.len()),
    decreases s.len(),
{
    if s.len() > 0 {
        lemma_le_value_bound(s.drop_first());
    }
}

pub proof fn lemma_le16(n: nat)
    ensures
        le16(n).len() == 2,
        u16_at(le16(n), 0) == n % 65536,
        le16(n)[0] == (n % 256) as u8,
        le16(n)[1] == ((n / 256) % 256) as u8,
{
    lemma_le_bytes_len(n, 2);
    lemma_le_roundtrip(n, 2);
    lemma_pow256_16();
    reveal_with_fuel(le_bytes, 3);
    reveal_with_fuel(le_value, 3);
    assert(le16(n).drop_first().drop_first().len() == 0);
}

pub proof fn lemma_i128_bits(n: i128)
    ensures
        i128_bits(n) < 0x1_0000_0000_0000_0000_0000_0000_0000_0000,
        i128_of_bits(i128_bits(n)) == n,
{
}

/// Appends the two-byte little-endian encoding of `n` modulo `2^16`.
pub fn push_u16_le(out: &mut Vec<u8>, n: usize)
    ensures
        final(out)@ == old(out)@ + le16(n as nat),
{
    proof {
        lemma_le16(n as nat);
    }
    let low: u8 = (n % 256) as u8;
    let high: u8 = ((n / 256) % 256) as u8;
    out.push(low);
    out.push(high);
    assert(final(out)@ =~= old(out)@ + le16(n as nat));
}

/// Appends the sixteen little-endian bytes of `n`.
pub fn push_u128_le(out: &mut Vec<u8>, n: u128)
    ensures
        final(out)@ == old(out)@ + le_bytes(n as nat, 16),
{
    let ghost start = out@;
    let mut v: u128 = n;
    let mut i: usize = 0;
    while i < 16
        invariant
            0 <= i <= 16,
            out@.len() == start.len() + i,
            out@.subrange(start.len() as int, out@.len() as int) + le_bytes(v as nat, (16 - i) as nat)
                == le_bytes(n as nat, 16),
            out@.subrange(0, start.len() as int) == start,
        decreases 16 - i,
    {
        let ghost done = out@.subrange(start.len() as int, out@.len() as int);
        let ghost rest = le_bytes((v / 256) as nat, (16 - i - 1) as nat);
        assert(le_bytes(v as nat, (16 - i) as nat) == seq![(v % 256) as u8] + rest);
        out.push((v % 256) as u8);
        v = v / 256;
        i = i + 1;
        assert(out@.subrange(start.len() as int, out@.len() as int) =~= done + seq![out@.last()]);
        assert(done + seq![out@.last()] + rest =~= done + (seq![out@.last()] + rest));
    }
    assert(out@ =~= start + le_bytes(n as nat, 16));
}

/// Reads sixteen little-endian bytes as an unsigned number.
pub fn read_u128_le(s: &[u8]) -> (n: u128)
    requires
        s@.len() >= 16,
    ensures
        n as nat == le_value(s@.subrange(0, 16)),
{
    let mut acc: u128 = 0;
    let mut j: usize = 16;
    proof {
        lemma_pow256_16();
    }
    while j > 0
        invariant
            0 <= j <= 16,
            s@.len() >= 16,
            acc as nat == le_value(s@.subrange(j as int, 16)),
            acc as nat <= pow256((16 - j) as nat) - 1,
            pow256(16) == 0x1_0000_0000_0000_0000_0000_0000_0000_0000,
        decreases j,
    {
        let ghost tail = s@.subrange(j as int, 16);
        assert(s@.subrange(j - 1, 16).drop_first() =~= tail);
        proof {
            lemma_pow256_mono((16 - j + 1) as nat, 16);
        }
        let b = s[j - 1];
        assert(acc * 256 + b <= pow256((16 - j + 1) as nat) - 1) by (nonlinear_arith)
            requires
                acc as nat <= pow256((16 - j) as nat) - 1,
                pow256((16 - j + 1) as nat) == 256 * pow256((16 - j) as nat),
                b <= 255,
        ;
        acc = acc * 256 + b as u128;
        j = j - 1;
    }
    acc
}

/// The bits of `n` in two's complement, as an unsigned number.
pub fn i128_to_bits(n: i128) -> (u: u128)
    ensures
        u as nat == i128_bits(n),
{
    if n >= 0 {
        n as u128
    } else {
        ((n + i128::MAX) + 1) as u128 + 0x8000_0000_0000_0000_0000_0000_0000_0000u128
    }
}

/// The `i128` whose two's-complement bits are `u`.
pub fn i128_from_bits(u: u128) -> (n: i128)
    ensures
        n as int == i128_of_bits(u as nat),
{
    if u < 0x8000_0000_0000_0000_0000_0000_0000_0000u128 {
        u as i128
    } else {
        (u - 0x8000_0000_0000_0000_0000_0000_0000_0000u128) as i128 - i128::MAX - 1
    }
}

} // verus!
