//! The standard library compiled into contracts: 128-bit arithmetic on
//! integers passed as two 64-bit halves, and a bump allocator over a fixed
//! arena.
use vstd::prelude::*;

verus! {

/// `2^64`.
pub open spec fn two64() -> nat {
    0x1_0000_0000_0000_0000
}

/// The unsigned 128-bit number whose low and high 64 bits are the bits of
/// `lo` and `hi`.
pub open spec fn pack(lo: i64, hi: i64) -> nat {
    (hi as u64) as nat * two64() + (lo as u64) as nat
}

/// Joins two 64-bit halves into the unsigned 128-bit number they make.
pub fn join_halves(lo: i64, hi: i64) -> (r: u128)
    ensures
        r as nat == pack(lo, hi),
{
    let h: u64 = hi as u64;
    let l: u64 = lo as u64;
    assert((h as u128) * 0x1_0000_0000_0000_0000u128 <= 0xFFFF_FFFF_FFFF_FFFF_0000_0000_0000_0000u128)
        by (nonlinear_arith)
        requires
            h <= 0xFFFF_FFFF_FFFF_FFFFu64,
    ;
    (h as u128) * 0x1_0000_0000_0000_0000u128 + (l as u128)
}

/// Splits an unsigned 128-bit number into its low and high 64 bits.
pub fn split_halves(r: u128) -> (p: (i64, i64))
    ensures
        pack(p.0, p.1) == r as nat,
{
    let low: u64 = (r % 0x1_0000_0000_0000_0000u128) as u64;
    let high: u64 = (r / 0x1_0000_0000_0000_0000u128) as u64;
    let lo: i64 = low as i64;
    let hi: i64 = high as i64;
    assert((lo as u64) == low) by (bit_vector)
        requires
            lo == low as i64,
    ;
    assert((hi as u64) == high) by (bit_vector)
        requires
            hi == high as i64,
    ;
    (lo, hi)
}

/// Adds two numbers given as halves, whose sum fits in 128 bits, and returns
/// the halves of the sum where it is at most `i128::MAX`, and `(-1, -1)`
/// otherwise.
pub fn add_int128(a_lo: i64, a_hi: i64, b_lo: i64, b_hi: i64) -> (r: (i64, i64))
    requires
        pack(a_lo, a_hi) + pack(b_lo, b_hi) <= u128::MAX,
    ensures
        pack(a_lo, a_hi) + pack(b_lo, b_hi) < 0x8000_0000_0000_0000_0000_0000_0000_0000 ==> pack(r.0, r.1)
            == pack(a_lo, a_hi) + pack(b_lo, b_hi),
        pack(a_lo, a_hi) + pack(b_lo, b_hi) >= 0x8000_0000_0000_0000_0000_0000_0000_0000 ==> r == (
            -1i64,
            -1i64,
        ),
{
    let a = join_halves(a_lo, a_hi);
    let b = join_halves(b_lo, b_hi);
    let sum = a.checked_add(b).unwrap();
    if sum > 0x7FFF_FFFF_FFFF_FFFF_FFFF_FFFF_FFFF_FFFFu128 {
        return (-1, -1);
    }
    split_halves(sum)
}

/// Adds two numbers given as halves and returns the halves of the sum, or
/// `None` where the sum is not below `2^127`.
pub fn checked_add_int128(a_lo: i64, a_hi: i64, b_lo: i64, b_hi: i64) -> (r: Option<(i64, i64)>)
    ensures
        r is Some == (pack(a_lo, a_hi) + pack(b_lo, b_hi) < 0x8000_0000_0000_0000_0000_0000_0000_0000),
        r matches Some(halves) ==> pack(halves.0, halves.1) == pack(a_lo, a_hi) + pack(b_lo, b_hi),
{
    let a = join_halves(a_lo, a_hi);
    let b = join_halves(b_lo, b_hi);
    match a.checked_add(b) {
        Some(sum) => if sum <= 0x7FFF_FFFF_FFFF_FFFF_FFFF_FFFF_FFFF_FFFFu128 {
            Some(split_halves(sum))
        } else {
            None
        },
        None => None,
    }
}

/// Adds two unsigned numbers given as halves, whose sum fits in 128 bits, and
/// returns the halves of the sum.
pub fn add_uint128(a_lo: i64, a_hi: i64, b_lo: i64, b_hi: i64) -> (r: (i64, i64))
    requires
        pack(a_lo, a_hi) + pack(b_lo, b_hi) <= u128::MAX,
    ensures
        pack(r.0, r.1) == pack(a_lo, a_hi) + pack(b_lo, b_hi),
{
    let a = join_halves(a_lo, a_hi);
    let b = join_halves(b_lo, b_hi);
    let sum = a.checked_add(b).unwrap();
    split_halves(sum)
}

/// Multiplies two unsigned numbers given as halves, whose product fits in 128
/// bits, and returns the halves of the product.
pub fn mul_uint128(a_lo: i64, a_hi: i64, b_lo: i64, b_hi: i64) -> (r: (i64, i64))
    requires
        pack(a_lo, a_hi) * pack(b_lo, b_hi) <= u128::MAX,
    ensures
        pack(r.0, r.1) == pack(a_lo, a_hi) * pack(b_lo, b_hi),
{
    let a = join_halves(a_lo, a_hi);
    let b = join_halves(b_lo, b_hi);
    let product = a.checked_mul(b).unwrap();
    split_halves(product)
}

/// The size of the allocator's arena in bytes.
pub const ARENA_SIZE: usize = 128 * 1024;

/// The smallest multiple of `align` that is at least `head`.
pub open spec fn next_multiple(head: nat, align: nat) -> nat {
    if head % align == 0 {
        head
    } else {
        (head + (align - head % align)) as nat
    }
}

/// A bump allocator over an arena of [`ARENA_SIZE`] bytes: each allocation
/// starts at the next suitably aligned offset after the previous one, and
/// nothing is ever freed.
pub struct SimpleAllocator {
    head: usize,
}

impl View for SimpleAllocator {
    type V = nat;

    /// The offset of the first byte not yet handed out.
    closed spec fn view(&self) -> nat {
        self.head as nat
    }
}

impl SimpleAllocator {
    /// An allocator with nothing handed out.
    pub fn new() -> (a: SimpleAllocator)
        ensures
            a@ == 0,
    {
        SimpleAllocator { head: 0 }
    }

    /// Hands out `size` bytes aligned to `align`: returns their offset in the
    /// arena, or `None` where the arena has run out, the bytes reaching past its
    /// end. The head moves past the bytes either way.
    pub fn allocate(&mut self, size: usize, align: usize) -> (r: Option<usize>)
        requires
            align > 0,
            next_multiple(old(self)@, align as nat) + size <= usize::MAX,
        ensures
            final(self)@ == next_multiple(old(self)@, align as nat) + size,
            r == (if next_multiple(old(self)@, align as nat) + size <= ARENA_SIZE {
                Some(next_multiple(old(self)@, align as nat) as usize)
            } else {
                None
            }),
    {
        let rem = self.head % align;
        let idx = if rem == 0 {
            self.head
        } else {
            self.head + (align - rem)
        };
        self.head = idx + size;
        if idx + size <= ARENA_SIZE {
            Some(idx)
        } else {
            None
        }
    }

    /// Takes back an allocation: the arena is never reused, so nothing changes.
    pub fn dealloc(&self, ptr: usize, size: usize, align: usize) {
    }
}

/// The offset an allocation starts at is aligned, at or after the head, and
/// less than one alignment past it.
pub proof fn law_alloc_aligned(head: nat, align: nat)
    requires
        align > 0,
    ensures
        next_multiple(head, align) % align == 0,
        head <= next_multiple(head, align) < head + align,
{
    vstd::arithmetic::div_mod::lemma_fundamental_div_mod(head as int, align as int);
    if head % align != 0 {
        let n = next_multiple(head, align);
        let q: int = head as int / align as int;
        let r: int = head as int % align as int;
        assert(n == (q + 1) * align) by (nonlinear_arith)
            requires
                head == align * q + r,
                n == head + (align - r),
        ;
        vstd::arithmetic::div_mod::lemma_mod_multiples_basic(q + 1, align as int);
    }
}

} // verus!
