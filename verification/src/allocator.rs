//! Allocators for WebAssembly linear memory: a bump allocator, and a buddy
//! allocator that hands out power-of-two blocks and merges freed neighbours.
use vstd::arithmetic::power2::{is_pow2, lemma_pow2_pos, lemma_pow2_strictly_increases, lemma_pow2_unfold, lemma2_to64, pow2};
use vstd::prelude::*;

use crate::ptr::Ptr;
use fxhash::FxHashMap;

verus! {

/// A bump allocator for WebAssembly memory: it hands out consecutive ranges.
#[derive(Debug, Copy, Clone, Default)]
pub struct WasmAllocator {
    pub next_offset: u32,
}

impl WasmAllocator {
    /// What handing out `len` bytes gives: the range at the next offset, and
    /// the allocator with its next offset moved past it.
    pub open spec fn bumped(self, len: nat) -> (Ptr, WasmAllocator) {
        (
            Ptr { offset: self.next_offset, len: len as u32 },
            WasmAllocator { next_offset: (self.next_offset + len) as u32 },
        )
    }

    /// Creates a new `WasmAllocator` with its next offset set to `0`.
    pub fn new() -> (a: Self)
        ensures
            a.next_offset == 0,
    {
        WasmAllocator { next_offset: 0 }
    }

    /// Retrieves a pointer to the next available offset for the given size,
    /// and moves the next offset past it. The size is cast to `u32`.
    pub fn alloc_for_size(&mut self, size: usize) -> (p: Ptr)
        requires
            old(self).next_offset + (size as u32) <= u32::MAX,
        ensures
            (p, *final(self)) == old(self).bumped(size as u32 as nat),
    {
        let len = size as u32;
        let ptr = Ptr::new(self.next_offset, len);
        self.next_offset = self.next_offset + len;
        ptr
    }

    /// Retrieves a pointer to the next available offset which can store the
    /// given data: the same as asking for as many bytes as the data holds.
    pub fn alloc_for_buffer(&mut self, data: &[u8]) -> (p: Ptr)
        requires
            old(self).next_offset + (data@.len() as u32) <= u32::MAX,
        ensures
            (p, *final(self)) == old(self).bumped(data@.len() as u32 as nat),
    {
        self.alloc_for_size(data.len())
    }
}

/// Ranges handed out one after the other follow each other without overlap:
/// the second starts where the first ends.
pub proof fn law_bump_ranges_follow(a: WasmAllocator, len1: nat, len2: nat)
    requires
        a.next_offset + len1 + len2 <= u32::MAX,
    ensures
        ({
            let (p1, a1) = a.bumped(len1);
            let (p2, a2) = a1.bumped(len2);
            &&& p2.offset == p1.offset + p1.len
            &&& a2.next_offset == p2.offset + p2.len
            &&& p1.len == len1 && p2.len == len2
        }),
{
}

/// The smallest block the buddy allocator hands out: a 16-byte integer with its
/// three-byte header needs 19 bytes, a 4-byte one 7, so 8 bytes at the least.
pub const MIN_BLOCK_SIZE: u32 = 8;

/// A block of the buddy allocator: an id, the size of the block, and a pointer
/// to it (whose length is the length asked for).
#[derive(Debug, Clone, Copy, PartialEq, Eq, Structural)]
pub struct WrappedPtr {
    pub id: u32,
    pub size: u32,
    pub ptr: Ptr,
}

impl WrappedPtr {
    /// A block with the given id at `offset`, whose size and length are `len`.
    pub fn new(id: u32, offset: u32, len: u32) -> (w: Self)
        ensures
            w == (WrappedPtr { id, size: len, ptr: Ptr { offset, len } }),
    {
        WrappedPtr { id, ptr: Ptr::new(offset, len), size: len }
    }

    /// A block with the given id around `ptr`, whose size is the pointer's length.
    pub fn from_ptr(id: u32, ptr: Ptr) -> (w: Self)
        ensures
            w == (WrappedPtr { id, size: ptr.len, ptr }),
    {
        WrappedPtr { id, ptr, size: ptr.len }
    }

    /// Sets the size of the block.
    pub fn set_size(&mut self, size: u32)
        ensures
            *final(self) == (WrappedPtr { size, ..*old(self) }),
    {
        self.size = size;
    }

    /// Sets the length of the data the block's pointer points to.
    pub fn set_len(&mut self, len: u32)
        ensures
            *final(self) == (WrappedPtr { ptr: Ptr { offset: old(self).ptr.offset, len }, ..*old(self) }),
    {
        self.ptr.set_len(len);
    }
}

/// The number of doublings of 1 that reach at least `n`: `2^ceil_log2(n) >= n`,
/// and it is the least such exponent.
pub open spec fn ceil_log2(n: nat) -> nat
    decreases n,
{
    if n <= 1 {
        0
    } else {
        1 + ceil_log2(((n + 1) / 2) as nat)
    }
}

/// The smallest power of two that is at least `n`.
pub open spec fn next_pow2(n: nat) -> nat {
    pow2(ceil_log2(n))
}

/// A power of two is its own next power of two.
pub proof fn lemma_ceil_log2_pow2(k: nat)
    ensures
        ceil_log2(pow2(k)) == k,
{
    let c = ceil_log2(pow2(k));
    lemma_ceil_log2(pow2(k), k);
    lemma_ceil_log2(pow2(k), c);
    if c < k {
        lemma_pow2_strictly_increases(c, k);
    }
}

/// A power of two is at least `n` exactly when its exponent is at least `ceil_log2(n)`.
pub proof fn lemma_ceil_log2(n: nat, k: nat)
    ensures
        pow2(k) >= n <==> k >= ceil_log2(n),
    decreases n,
{
    lemma_pow2_pos(k);
    if n > 1 {
        let m = ((n + 1) / 2) as nat;
        if k > 0 {
            lemma_pow2_unfold(k);
            lemma_ceil_log2(m, (k - 1) as nat);
        } else {
            assert(pow2(0) == 1) by {
                lemma2_to64();
            }
        }
    }
}

/// The exponent of `n` in base two, rounded down.
pub open spec fn floor_log2(n: nat) -> nat
    decreases n,
{
    if n <= 1 {
        0
    } else {
        1 + floor_log2(n / 2)
    }
}

pub proof fn lemma_floor_log2_pow2(k: nat)
    ensures
        floor_log2(pow2(k)) == k,
    decreases k,
{
    lemma_pow2_pos(k);
    if k > 0 {
        lemma_pow2_unfold(k);
        lemma_floor_log2_pow2((k - 1) as nat);
        lemma_pow2_pos((k - 1) as nat);
    } else {
        lemma2_to64();
    }
}

/// `2^k` computed by shifting.
fn shl_pow2(k: u32) -> (r: u32)
    requires
        k < 32,
    ensures
        r as nat == pow2(k as nat),
{
    proof {
        vstd::bits::lemma_u32_pow2_no_overflow(k as nat);
        vstd::bits::lemma_u32_shl_is_mul(1, k);
    }
    1u32 << k
}

/// The smallest power of two that is at least `n`.
fn next_power_of_two(n: u32) -> (r: u32)
    requires
        n <= 0x8000_0000,
    ensures
        r as nat == next_pow2(n as nat),
{
    let mut p: u32 = 1;
    let mut k: u32 = 0;
    proof {
        lemma2_to64();
        lemma_ceil_log2(n as nat, 0);
    }
    while p < n
        invariant
            p as nat == pow2(k as nat),
            k <= ceil_log2(n as nat),
            k <= 31,
            n <= 0x8000_0000,
            pow2(31) == 0x8000_0000,
        decreases 31 - k,
    {
        proof {
            lemma_ceil_log2(n as nat, k as nat);
            lemma_ceil_log2(n as nat, 31);
            lemma_pow2_unfold((k + 1) as nat);
        }
        p = p * 2;
        k = k + 1;
    }
    proof {
        lemma_ceil_log2(n as nat, k as nat);
    }
    p
}

/// The exponent of `n` in base two, rounded down.
fn ilog2(n: u32) -> (r: u32)
    requires
        n > 0,
    ensures
        r as nat == floor_log2(n as nat),
{
    let mut v: u32 = n;
    let mut r: u32 = 0;
    proof {
        lemma2_to64();
    }
    while v > 1
        invariant
            v > 0,
            r + floor_log2(v as nat) == floor_log2(n as nat),
            r <= 32,
            v as nat * pow2(r as nat) <= n,
        decreases v,
    {
        proof {
            lemma_pow2_unfold((r + 1) as nat);
            assert((v / 2) as nat * pow2((r + 1) as nat) <= v as nat * pow2(r as nat)) by (nonlinear_arith)
                requires
                    pow2((r + 1) as nat) == 2 * pow2(r as nat),
            ;
            if r == 32 {
                lemma2_to64();
                lemma_pow2_pos(32);
                assert(false) by (nonlinear_arith)
                    requires
                        v as nat * pow2(32) <= n,
                        v >= 2,
                        pow2(32) == 0x1_0000_0000,
                        n < 0x1_0000_0000,
                ;
            }
        }
        v = v / 2;
        r = r + 1;
    }
    r
}

pub proof fn lemma_floor_log2_mono(a: nat, b: nat)
    requires
        a <= b,
    ensures
        floor_log2(a) <= floor_log2(b),
    decreases b,
{
    if a > 1 {
        lemma_floor_log2_mono(a / 2, b / 2);
    }
}

/// A power of two is two raised to its base-two exponent.
pub proof fn lemma_pow2_of_log2(n: nat)
    requires
        is_pow2(n as int),
    ensures
        pow2(floor_log2(n)) == n,
    decreases n,
{
    reveal(is_pow2);
    if n == 1 {
        lemma2_to64();
    } else {
        lemma_pow2_of_log2(n / 2);
        lemma_pow2_unfold(floor_log2(n));
    }
}

/// A power of two that fits in a `u32` has an exponent of at most 31.
pub proof fn lemma_u32_pow2_log(n: u32)
    requires
        is_pow2(n as int),
    ensures
        floor_log2(n as nat) <= 31,
        n <= 0x8000_0000,
{
    lemma_pow2_of_log2(n as nat);
    lemma2_to64();
    if floor_log2(n as nat) > 31 {
        lemma_pow2_strictly_increases(31, floor_log2(n as nat));
        lemma_pow2_unfold(32);
        assert(pow2(floor_log2(n as nat)) >= pow2(32)) by {
            if floor_log2(n as nat) > 32 {
                lemma_pow2_strictly_increases(32, floor_log2(n as nat));
            }
        }
    }
    if n > 0x8000_0000 {
        lemma_floor_log2_mono(0x8000_0000, n as nat);
        lemma_floor_log2_pow2(31);
        if floor_log2(n as nat) == 31 {
        }
    }
}

/// A power of two that fits in a `u32` has an exponent of at most 31.
pub proof fn lemma_pow2_le_u32(k: nat)
    requires
        pow2(k) <= u32::MAX,
    ensures
        k <= 31,
{
    lemma2_to64();
    if k > 32 {
        lemma_pow2_strictly_increases(32, k);
    }
}

/// Clearing the lowest set bit leaves nothing exactly when one bit is set.
pub proof fn lemma_clear_lowest_bit(n: u32)
    requires
        n > 0,
    ensures
        (n & ((n - 1) as u32) == 0) <==> is_pow2(n as int),
    decreases n,
{
    reveal(is_pow2);
    let m: u32 = (n - 1) as u32;
    if n == 1 {
        assert(1u32 & 0u32 == 0) by (bit_vector);
    } else if n % 2 == 1 {
        assert(n & m == m) by (bit_vector)
            requires
                n % 2 == 1,
                m == n - 1,
        ;
    } else {
        let h: u32 = n / 2;
        let hm: u32 = (h - 1) as u32;
        assert(n & m == (h & hm) << 1u32) by (bit_vector)
            requires
                n % 2 == 0,
                n > 0,
                h == n / 2,
                hm == h - 1,
                m == n - 1,
        ;
        assert(((h & hm) << 1u32) == 0 <==> (h & hm) == 0) by (bit_vector)
            requires
                h == n / 2,
        ;
        lemma_clear_lowest_bit(h);
    }
}

/// Splitting keeps the memory size, the allocations and the number of free lists.
proof fn lemma_split_frame(m: AllocatorModel, offset: nat, order: nat, needed: nat)
    requires
        m.can_split(offset, order, needed),
    ensures
        m.split(offset, order, needed).size == m.size,
        m.split(offset, order, needed).allocations == m.allocations,
        m.split(offset, order, needed).free_lists.len() == m.free_lists.len(),
    decreases order,
{
    if order > needed {
        let k = (order - 1) as nat;
        lemma_split_frame(m.take_id().push_free(k as int, m.upper_half(offset, k)), offset, k, needed);
    }
}

/// The lowest order from `from` on whose free list is not empty.
pub open spec fn first_nonempty(lists: Seq<Seq<WrappedPtr>>, from: nat) -> Option<nat>
    decreases lists.len() - from,
{
    if from >= lists.len() {
        None
    } else if lists[from as int].len() > 0 {
        Some(from)
    } else {
        first_nonempty(lists, from + 1)
    }
}

proof fn lemma_first_nonempty(lists: Seq<Seq<WrappedPtr>>, from: nat)
    ensures
        first_nonempty(lists, from) matches Some(o) ==> from <= o < lists.len() && lists[o as int].len()
            > 0,
    decreases lists.len() - from,
{
    if from < lists.len() && lists[from as int].len() == 0 {
        lemma_first_nonempty(lists, from + 1);
    }
}

/// The index of the first block in `list` that `p` holds of, if any.
pub open spec fn first_match(list: Seq<WrappedPtr>, p: spec_fn(WrappedPtr) -> bool) -> Option<int> {
    if exists|i: int| 0 <= i < list.len() && p(list[i]) {
        Some(
            choose|i: int|
                0 <= i < list.len() && p(list[i]) && forall|j: int| 0 <= j < i ==> !p(#[trigger] list[j]),
        )
    } else {
        None
    }
}

/// The index of the first block with the given id, if any.
pub open spec fn first_with_id(list: Seq<WrappedPtr>, id: u32) -> Option<int> {
    first_match(list, |b: WrappedPtr| b.id == id)
}

/// The index of the first block at the given offset, if any.
pub open spec fn first_at_offset(list: Seq<WrappedPtr>, offset: u32) -> Option<int> {
    first_match(list, |b: WrappedPtr| b.ptr.offset == offset)
}

proof fn lemma_first_match(list: Seq<WrappedPtr>, p: spec_fn(WrappedPtr) -> bool, i: int)
    requires
        0 <= i < list.len(),
        p(list[i]),
        forall|j: int| 0 <= j < i ==> !p(#[trigger] list[j]),
    ensures
        first_match(list, p) == Some(i),
{
    let c = choose|c: int|
        0 <= c < list.len() && p(list[c]) && forall|j: int| 0 <= j < c ==> !p(#[trigger] list[j]);
    assert(0 <= c < list.len() && p(list[c]) && forall|j: int| 0 <= j < c ==> !p(#[trigger] list[j]));
    if c < i {
        assert(!p(list[c]));
    } else if c > i {
        assert(!p(list[i]));
    }
}

proof fn lemma_first_match_none(list: Seq<WrappedPtr>, p: spec_fn(WrappedPtr) -> bool)
    requires
        forall|j: int| 0 <= j < list.len() ==> !p(#[trigger] list[j]),
    ensures
        first_match(list, p) is None,
{
}

proof fn lemma_first_with_id(list: Seq<WrappedPtr>, id: u32, i: int)
    requires
        0 <= i < list.len(),
        list[i].id == id,
        forall|j: int| 0 <= j < i ==> (#[trigger] list[j]).id != id,
    ensures
        first_with_id(list, id) == Some(i),
{
    lemma_first_match(list, |b: WrappedPtr| b.id == id, i);
}

proof fn lemma_first_with_id_none(list: Seq<WrappedPtr>, id: u32)
    requires
        forall|j: int| 0 <= j < list.len() ==> (#[trigger] list[j]).id != id,
    ensures
        first_with_id(list, id) is None,
{
    lemma_first_match_none(list, |b: WrappedPtr| b.id == id);
}

proof fn lemma_first_at_offset(list: Seq<WrappedPtr>, offset: u32, i: int)
    requires
        0 <= i < list.len(),
        list[i].ptr.offset == offset,
        forall|j: int| 0 <= j < i ==> (#[trigger] list[j]).ptr.offset != offset,
    ensures
        first_at_offset(list, offset) == Some(i),
{
    lemma_first_match(list, |b: WrappedPtr| b.ptr.offset == offset, i);
}

proof fn lemma_first_at_offset_none(list: Seq<WrappedPtr>, offset: u32)
    requires
        forall|j: int| 0 <= j < list.len() ==> (#[trigger] list[j]).ptr.offset != offset,
    ensures
        first_at_offset(list, offset) is None,
{
    lemma_first_match_none(list, |b: WrappedPtr| b.ptr.offset == offset);
}

/// The hasher of `FxHashMap` (fxhash's `FxHasher`).
#[verifier::external_type_specification]
#[verifier::external_body]
pub struct ExFxHasher(fxhash::FxHasher);

/// std's `BuildHasherDefault`, which builds the hashers of an `FxHashMap`.
#[verifier::external_type_specification]
#[verifier::external_body]
#[verifier::reject_recursive_types(H)]
pub struct ExBuildHasherDefault<H>(core::hash::BuildHasherDefault<H>);

/// The empty table of allocations.
pub open spec fn no_allocations() -> Map<u32, WrappedPtr> {
    Map::empty()
}

/// `FxHashMap::default()`: an empty map.
#[verifier::external_body]
fn allocation_map_new() -> (map: FxHashMap<u32, WrappedPtr>)
    ensures
        map@ == no_allocations(),
{
    FxHashMap::default()
}

/// `HashMap::insert` on an `FxHashMap`: maps `k` to `v`, replacing what `k` mapped to.
#[verifier::external_body]
fn allocation_map_insert(m: &mut FxHashMap<u32, WrappedPtr>, k: u32, v: WrappedPtr)
    ensures
        final(m)@ == old(m)@.insert(k, v),
{
    m.insert(k, v);
}

/// `HashMap::remove` on an `FxHashMap`: removes what `k` maps to, if anything.
#[verifier::external_body]
fn allocation_map_remove(m: &mut FxHashMap<u32, WrappedPtr>, k: u32)
    ensures
        final(m)@ == old(m)@.remove(k),
{
    m.remove(&k);
}

/// A buddy allocator over a memory of a power-of-two size. Free blocks are
/// kept in one free list per block size ("order"): order `k` holds blocks of
/// `8 * 2^k` bytes.
pub struct WasmAllocator2 {
    size: u32,
    free_lists: Vec<Vec<WrappedPtr>>,
    allocations: FxHashMap<u32, WrappedPtr>,
    next_ptr_id: u32,
    disposed_ptr_ids: Vec<u32>,
}

/// The state of a buddy allocator.
pub ghost struct AllocatorModel {
    pub size: nat,
    pub free_lists: Seq<Seq<WrappedPtr>>,
    pub allocations: Map<u32, WrappedPtr>,
    pub next_ptr_id: nat,
    pub disposed_ptr_ids: Seq<u32>,
}

impl View for WasmAllocator2 {
    type V = AllocatorModel;

    closed spec fn view(&self) -> AllocatorModel {
        AllocatorModel {
            size: self.size as nat,
            free_lists: self.free_lists@.map_values(|l: Vec<WrappedPtr>| l@),
            allocations: self.allocations@,
            next_ptr_id: self.next_ptr_id as nat,
            disposed_ptr_ids: self.disposed_ptr_ids@,
        }
    }
}

/// The size of the blocks of order `k`.
pub open spec fn block_size(k: nat) -> nat {
    pow2(3 + k)
}

/// The number of free lists for a memory of `size` bytes: one per block size
/// from 8 bytes to `size`.
pub open spec fn list_count(size: nat) -> nat {
    (floor_log2(size) - 2) as nat
}

impl AllocatorModel {
    /// A power-of-two memory of 8 to `2^31` bytes, with one free list per order.
    pub open spec fn wf(self) -> bool {
        &&& is_pow2(self.size as int)
        &&& 8 <= self.size <= 0x8000_0000
        &&& self.free_lists.len() == list_count(self.size)
    }

    /// A fresh allocator for a memory of `size` bytes: all of it is one free
    /// block (id 0) of the largest order, and nothing is allocated.
    pub open spec fn fresh(size: u32) -> AllocatorModel {
        AllocatorModel {
            size: size as nat,
            free_lists: Seq::new(
                list_count(size as nat),
                |i: int|
                    if i == list_count(size as nat) - 1 {
                        seq![WrappedPtr { id: 0, size, ptr: Ptr { offset: 0, len: size } }]
                    } else {
                        Seq::empty()
                    },
            ),
            allocations: Map::empty(),
            next_ptr_id: 1,
            disposed_ptr_ids: Seq::empty(),
        }
    }

    /// The block size an allocation of `size` bytes takes, if it fits the memory.
    pub open spec fn allocation_size(self, size: nat) -> Option<nat> {
        let s = next_pow2(if size < 8 { 8 } else { size });
        if s > self.size {
            None
        } else {
            Some(s)
        }
    }

    /// The order of the blocks an allocation of `size` bytes takes.
    pub open spec fn allocation_order(self, size: nat) -> Option<nat> {
        match self.allocation_size(size) {
            Some(s) => Some((floor_log2(s) - 3) as nat),
            None => None,
        }
    }

    /// The state with the last block of the free list of order `k` popped off.
    pub open spec fn pop_free(self, k: int) -> AllocatorModel {
        AllocatorModel { free_lists: self.free_lists.update(k, self.free_lists[k].drop_last()), ..self }
    }

    /// The order of the free block an allocation of `size` bytes takes: the
    /// lowest order, from the one it needs on, whose free list is not empty.
    pub open spec fn source_order(self, size: nat) -> Option<nat> {
        match self.allocation_order(size) {
            Some(needed) => first_nonempty(self.free_lists, needed),
            None => None,
        }
    }

    /// Whether an allocation of `size` bytes goes through: a block size fits the
    /// memory, a free block of that order or above exists, and splitting it
    /// goes through (otherwise the allocator panics).
    pub open spec fn can_allocate(self, size: nat) -> bool {
        match self.source_order(size) {
            Some(o) => {
                let needed = self.allocation_order(size).unwrap();
                let b = self.free_lists[o as int].last();
                self.pop_free(o as int).can_split(b.ptr.offset as nat, o, needed)
            },
            None => false,
        }
    }

    /// The block an allocation of `size` bytes hands out: the last free block of
    /// the source order, at its own offset, with the block size the allocation
    /// needs and the length asked for.
    pub open spec fn allocated_block(self, size: nat) -> WrappedPtr {
        let o = self.source_order(size).unwrap();
        let b = self.free_lists[o as int].last();
        WrappedPtr {
            id: b.id,
            size: self.allocation_size(size).unwrap() as u32,
            ptr: Ptr { offset: b.ptr.offset, len: size as u32 },
        }
    }

    /// The state after an allocation of `size` bytes: the source block is popped
    /// and split down to the order needed, and the allocation is recorded by offset.
    pub open spec fn after_allocate(self, size: nat) -> AllocatorModel {
        let needed = self.allocation_order(size).unwrap();
        let o = self.source_order(size).unwrap();
        let b = self.free_lists[o as int].last();
        let split = self.pop_free(o as int).split(b.ptr.offset as nat, o, needed);
        AllocatorModel {
            allocations: split.allocations.insert(b.ptr.offset, self.allocated_block(size)),
            ..split
        }
    }

    /// The free block taken for the buddy of `block` at order `k`: none when
    /// blocks of that order span the whole memory; otherwise the first free block
    /// of order `k` whose offset is the block's offset with the order's size bit
    /// flipped.
    pub open spec fn buddy_of(self, k: nat, block: WrappedPtr) -> Option<WrappedPtr> {
        if block_size(k) >= self.size {
            None
        } else {
            match first_at_offset(self.free_lists[k as int], block.ptr.offset ^ (block_size(k) as u32)) {
                Some(i) => Some(self.free_lists[k as int][i]),
                None => None,
            }
        }
    }

    /// What freeing `block` from order `k` on comes to: while a buddy is found
    /// and taken off its list, the two merge into a block of twice the
    /// freed block's length one order up (the one with the lower offset stays,
    /// the other's id is disposed); then the block goes onto the free list of
    /// the order reached. `None` where the doubled length overflows a `u32`.
    #[verifier::opaque]
    pub open spec fn merge(self, block: WrappedPtr, k: nat) -> Option<AllocatorModel>
        decreases self.free_lists.len() - k,
    {
        if k >= self.free_lists.len() {
            Some(self)
        } else {
            match self.buddy_of(k, block) {
                Some(buddy) => match first_with_id(self.free_lists[k as int], buddy.id) {
                    Some(i) => {
                        let doubled = block.ptr.len * 2;
                        if doubled > u32::MAX {
                            None
                        } else {
                            let m = self.remove_free(k as int, i);
                            if block.ptr.offset < buddy.ptr.offset {
                                let merged = WrappedPtr {
                                    size: doubled as u32,
                                    ptr: Ptr { offset: block.ptr.offset, len: doubled as u32 },
                                    ..block
                                };
                                AllocatorModel {
                                    disposed_ptr_ids: m.disposed_ptr_ids.push(buddy.id),
                                    ..m
                                }.merge(merged, k + 1)
                            } else {
                                let merged = WrappedPtr {
                                    size: doubled as u32,
                                    ptr: Ptr { offset: buddy.ptr.offset, len: doubled as u32 },
                                    ..buddy
                                };
                                AllocatorModel {
                                    disposed_ptr_ids: m.disposed_ptr_ids.push(block.id),
                                    ..m
                                }.merge(merged, k + 1)
                            }
                        }
                    },
                    None => Some(self.push_free(k as int, block)),
                },
                None => Some(self.push_free(k as int, block)),
            }
        }
    }

    /// What freeing `ptr` comes to: its allocation is forgotten and the block
    /// merges up from the order of its size (see [`Self::merge`]).
    pub open spec fn after_deallocate(self, ptr: WrappedPtr) -> Option<AllocatorModel> {
        match self.allocation_order(ptr.size as nat) {
            Some(o) => AllocatorModel {
                allocations: self.allocations.remove(ptr.ptr.offset),
                ..self
            }.merge(ptr, o),
            None => None,
        }
    }

    /// The state with `b` pushed onto the free list of order `k`.
    pub open spec fn push_free(self, k: int, b: WrappedPtr) -> AllocatorModel {
        AllocatorModel { free_lists: self.free_lists.update(k, self.free_lists[k].push(b)), ..self }
    }

    /// The state with the block at `i` removed from the free list of order `k`.
    pub open spec fn remove_free(self, k: int, i: int) -> AllocatorModel {
        AllocatorModel { free_lists: self.free_lists.update(k, self.free_lists[k].remove(i)), ..self }
    }

    /// Whether another block id can be handed out: a disposed one is reused,
    /// or a new one is counted up without overflow.
    pub open spec fn id_available(self) -> bool {
        self.disposed_ptr_ids.len() > 0 || self.next_ptr_id < u32::MAX
    }

    /// The next block id handed out: the last disposed id, else a new one.
    pub open spec fn next_id(self) -> u32 {
        if self.disposed_ptr_ids.len() > 0 {
            self.disposed_ptr_ids.last()
        } else {
            self.next_ptr_id as u32
        }
    }

    /// The state after the next block id is handed out.
    pub open spec fn take_id(self) -> AllocatorModel {
        if self.disposed_ptr_ids.len() > 0 {
            AllocatorModel { disposed_ptr_ids: self.disposed_ptr_ids.drop_last(), ..self }
        } else {
            AllocatorModel { next_ptr_id: self.next_ptr_id + 1, ..self }
        }
    }

    /// The upper half of a block at `offset` of order `k + 1`: a new free block of order `k`.
    pub open spec fn upper_half(self, offset: nat, k: nat) -> WrappedPtr {
        WrappedPtr {
            id: self.next_id(),
            size: block_size(k) as u32,
            ptr: Ptr { offset: (offset + block_size(k)) as u32, len: block_size(k) as u32 },
        }
    }

    /// The state after a block at `offset` of order `order` is split down to
    /// order `needed`: at each order `k` from `order - 1` down to `needed`, the
    /// upper half becomes a free block of order `k`, with a new id.
    pub open spec fn split(self, offset: nat, order: nat, needed: nat) -> AllocatorModel
        decreases order,
    {
        if order <= needed {
            self
        } else {
            let k = (order - 1) as nat;
            self.take_id().push_free(k as int, self.upper_half(offset, k)).split(offset, k, needed)
        }
    }

    /// Whether that split goes through: each upper half's offset fits in a
    /// `u32`, each needs an id, and each has a free list.
    pub open spec fn can_split(self, offset: nat, order: nat, needed: nat) -> bool
        decreases order,
    {
        order <= needed || {
            let k = (order - 1) as nat;
            &&& offset + block_size(k) <= u32::MAX
            &&& self.id_available()
            &&& k < self.free_lists.len()
            &&& self.take_id().push_free(k as int, self.upper_half(offset, k)).can_split(
                offset,
                k,
                needed,
            )
        }
    }
}

impl WasmAllocator2 {
    /// Returns whether or not the provided integer is a power of two.
    fn is_power_of_two(n: u32) -> (r: bool)
        requires
            n > 0,
        ensures
            r == is_pow2(n as int),
    {
        proof {
            lemma_clear_lowest_bit(n);
        }
        n & (n - 1) == 0
    }

    /// Creates an allocator for a memory of `size` bytes, which must be a power
    /// of two and at least the minimum block size: all of it is one free block
    /// (id 0) of the largest order.
    pub fn new(size: u32) -> (a: Self)
        requires
            size > 0,
            is_pow2(size as int),
            size >= 8,
        ensures
            a@.wf(),
            a@ == AllocatorModel::fresh(size),
    {
        proof {
            lemma_u32_pow2_log(size);
            lemma_floor_log2_mono(8, size as nat);
            reveal_with_fuel(floor_log2, 5);
        }
        // Create a free list for each possible block size.
        let free_list_count = ilog2(size) - ilog2(MIN_BLOCK_SIZE) + 1;
        let mut free_lists: Vec<Vec<WrappedPtr>> = Vec::new();
        let mut i: u32 = 0;
        while i < free_list_count
            invariant
                i <= free_list_count,
                free_lists@.len() == i,
                forall|j: int| 0 <= j < i ==> (#[trigger] free_lists@[j])@ == Seq::<WrappedPtr>::empty(),
            decreases free_list_count - i,
        {
            free_lists.push(Vec::new());
            i = i + 1;
        }
        // A single free block which uses all of the available memory.
        let ghost before = free_lists@;
        let mut top = free_lists.pop().unwrap();
        assert(top@ == Seq::<WrappedPtr>::empty());
        top.push(WrappedPtr::new(0, 0, size));
        assert(top@ =~= seq![WrappedPtr { id: 0, size, ptr: Ptr { offset: 0, len: size } }]);
        let ghost top_view = top@;
        free_lists.push(top);
        assert(free_list_count == list_count(size as nat));
        assert(free_lists@.len() == free_list_count);
        assert(free_lists@.last()@ == top_view);
        assert(free_lists@[free_list_count - 1]@ == top_view);
        assert(forall|j: int| 0 <= j < free_list_count - 1 ==> #[trigger] free_lists@[j] == before[j]);
        let a = WasmAllocator2 {
            size,
            free_lists,
            allocations: allocation_map_new(),
            next_ptr_id: 1,
            disposed_ptr_ids: Vec::new(),
        };
        let ghost expected = AllocatorModel::fresh(size).free_lists;
        assert forall|j: int| 0 <= j < expected.len() implies a@.free_lists[j] == expected[j] by {
            if j < free_list_count - 1 {
                assert(free_lists@[j] == before[j]);
                assert(before[j]@ == Seq::<WrappedPtr>::empty());
            } else {
                assert(free_lists@[j]@ =~= seq![WrappedPtr { id: 0, size, ptr: Ptr { offset: 0, len: size } }]);
            }
        }
        assert(a@.free_lists =~= expected);
        a
    }

    /// Determines the block size needed for an allocation of `size` bytes: at
    /// least the minimum block size, rounded up to a power of two; `None` when
    /// that is larger than the managed memory. It depends on `size` alone, so a
    /// block's size is found again when it is freed.
    pub fn allocation_size(&self, size: u32) -> (r: Option<u32>)
        requires
            size <= 0x8000_0000,
        ensures
            match self@.allocation_size(size as nat) {
                Some(s) => r == Some(s as u32),
                None => r is None,
            },
    {
        // We can't allocate blocks smaller than `MIN_BLOCK_SIZE`.
        let at_least = if size < MIN_BLOCK_SIZE { MIN_BLOCK_SIZE } else { size };
        // Round up to the next power of two.
        let rounded = next_power_of_two(at_least);
        // We can't allocate a block bigger than our memory space.
        if rounded > self.size {
            None
        } else {
            Some(rounded)
        }
    }

    /// The order of an allocation: how many times `MIN_BLOCK_SIZE` is doubled to
    /// get a large enough block, which is also its index into the free lists.
    pub fn allocation_order(&self, size: u32) -> (r: Option<u32>)
        requires
            size <= 0x8000_0000,
        ensures
            match self@.allocation_order(size as nat) {
                Some(o) => r == Some(o as u32),
                None => r is None,
            },
            r matches Some(o) ==> self@.allocation_size(size as nat) == Some(block_size(o as nat))
                && self@.allocation_order(size as nat) == Some(o as nat) && o <= 28,
    {
        match self.allocation_size(size) {
            Some(s) => {
                proof {
                    let n: nat = if size < 8 { 8 } else { size as nat };
                    lemma_ceil_log2(n, ceil_log2(n));
                    lemma_floor_log2_pow2(ceil_log2(n));
                    lemma_floor_log2_mono(8, s as nat);
                    reveal_with_fuel(floor_log2, 5);
                }
                let o = ilog2(s) - ilog2(MIN_BLOCK_SIZE);
                proof {
                    let n: nat = if size < 8 { 8 } else { size as nat };
                    assert(3 + o == ceil_log2(n));
                    lemma_pow2_le_u32(ceil_log2(n));
                    lemma_floor_log2_pow2(ceil_log2(n));
                }
                Some(o)
            },
            None => None,
        }
    }

    /// The size of the blocks of the given order.
    pub fn order_size(&self, order: u32) -> (r: u32)
        requires
            order <= 28,
        ensures
            r as nat == block_size(order as nat),
    {
        proof {
            reveal_with_fuel(floor_log2, 5);
        }
        shl_pow2(ilog2(MIN_BLOCK_SIZE) + order)
    }

    /// Pops a block from the free list of the given order.
    pub fn free_list_pop(&mut self, order: usize) -> (r: Option<WrappedPtr>)
        requires
            order < old(self)@.free_lists.len(),
        ensures
            old(self)@.free_lists[order as int].len() > 0 ==> r == Some(
                old(self)@.free_lists[order as int].last(),
            ) && final(self)@ == (AllocatorModel {
                free_lists: old(self)@.free_lists.update(
                    order as int,
                    old(self)@.free_lists[order as int].drop_last(),
                ),
                ..old(self)@
            }),
            old(self)@.free_lists[order as int].len() == 0 ==> r is None && final(self)@ == old(self)@,
    {
        let r = {
            let list = &mut self.free_lists[order];
            list.pop()
        };
        assert(self@.free_lists =~= old(self)@.free_lists.update(
            order as int,
            self.free_lists@[order as int]@,
        ));
        proof {
            if old(self)@.free_lists[order as int].len() == 0 {
                assert(self@.free_lists =~= old(self)@.free_lists);
            }
        }
        r
    }

    /// Pushes a block onto the free list of the given order.
    pub fn free_list_push(&mut self, order: usize, block: WrappedPtr)
        requires
            order < old(self)@.free_lists.len(),
        ensures
            final(self)@ == old(self)@.push_free(order as int, block),
    {
        {
            let list = &mut self.free_lists[order];
            list.push(block);
        }
        assert(self@.free_lists =~= old(self)@.push_free(order as int, block).free_lists);
    }

    /// Removes the first block with the given id from the free list of the
    /// given order; returns whether there was one. Splitting uses it to take a
    /// larger block off its list.
    pub fn free_list_remove(&mut self, order: usize, block_id: u32) -> (r: bool)
        requires
            order < old(self)@.free_lists.len(),
        ensures
            match first_with_id(old(self)@.free_lists[order as int], block_id) {
                Some(i) => r && final(self)@ == old(self)@.remove_free(order as int, i),
                None => !r && final(self)@ == old(self)@,
            },
    {
        let ghost lists = old(self)@.free_lists;
        assert(self.free_lists@[order as int]@ == lists[order as int]);
        let mut i: usize = 0;
        let len = self.free_lists[order].len();
        while i < len
            invariant
                self@ == old(self)@,
                order < self.free_lists@.len(),
                self.free_lists@[order as int]@ == lists[order as int],
                len == lists[order as int].len(),
                i <= len,
                forall|j: int| 0 <= j < i ==> (#[trigger] lists[order as int][j]).id != block_id,
            decreases len - i,
        {
            if self.free_lists[order][i].id == block_id {
                proof {
                    lemma_first_with_id(lists[order as int], block_id, i as int);
                }
                {
                    let list = &mut self.free_lists[order];
                    list.remove(i);
                }
                assert(self@.free_lists =~= old(self)@.remove_free(order as int, i as int).free_lists);
                return true;
            }
            i = i + 1;
        }
        proof {
            lemma_first_with_id_none(lists[order as int], block_id);
        }
        false
    }

    /// Splits a free `block` of order `order` down to order `order_needed`: each
    /// time, the block keeps its lower half and its upper half goes onto the
    /// free list one order down, as a new block. The block keeps its offset.
    pub fn split_free_block(&mut self, block: &mut WrappedPtr, order: u32, order_needed: u32)
        requires
            order <= 28,
            old(self)@.can_split(old(block).ptr.offset as nat, order as nat, order_needed as nat),
        ensures
            final(self)@ == old(self)@.split(old(block).ptr.offset as nat, order as nat, order_needed as nat),
            order <= order_needed ==> *final(block) == *old(block),
            order > order_needed ==> *final(block) == (WrappedPtr {
                size: block_size(order_needed as nat) as u32,
                ptr: Ptr { offset: old(block).ptr.offset, len: block_size(order_needed as nat) as u32 },
                ..*old(block)
            }),
    {
        let ghost offset = block.ptr.offset as nat;
        let ghost start_order = order;
        let ghost target = self@.split(offset, order as nat, order_needed as nat);
        // Get the size of our starting block.
        let mut size_to_split = self.order_size(order);
        let mut current = order;
        while current > order_needed
            invariant
                current <= 28,
                start_order == order,
                current <= order,
                order > order_needed ==> current >= order_needed,
                order <= order_needed ==> current == order,
                size_to_split as nat == block_size(current as nat),
                block.ptr.offset as nat == offset,
                self@.split(offset, current as nat, order_needed as nat) == target,
                self@.can_split(offset, current as nat, order_needed as nat),
                block.id == old(block).id,
                current == order ==> *block == *old(block),
                current < order ==> block.size as nat == block_size(current as nat) && block.ptr.len
                    as nat == block_size(current as nat),
            decreases current,
        {
            proof {
                lemma_pow2_unfold((3 + current) as nat);
                lemma_pow2_pos((3 + current - 1) as nat);
                assert(size_to_split >> 1u32 == size_to_split / 2) by (bit_vector);
            }
            size_to_split = size_to_split >> 1;
            current = current - 1;
            // Create a new block for the upper portion of the split and push it to the free list.
            let mut new_block = self.new_wrapped_ptr(block.ptr.offset + size_to_split, size_to_split);
            new_block.set_size(size_to_split);
            self.free_list_push(current as usize, new_block);
            // The block keeps the lower portion.
            block.set_len(size_to_split);
            block.set_size(size_to_split);
        }
    }

    /// Allocates a block large enough for `size` bytes: the smallest free block
    /// of the order needed or above, split down to the order needed. The block
    /// keeps its offset; its length is the size asked for.
    pub fn allocate(&mut self, size: u32) -> (r: WrappedPtr)
        requires
            old(self)@.wf(),
            size <= 0x8000_0000,
            old(self)@.can_allocate(size as nat),
        ensures
            r == old(self)@.allocated_block(size as nat),
            final(self)@ == old(self)@.after_allocate(size as nat),
            final(self)@.wf(),
    {
        // Figure out which order block we need.
        let order_needed = self.allocation_order(size).unwrap();
        let ghost start = self@;
        let lists_len = self.free_lists.len();
        assert(self@.free_lists.len() == self.free_lists@.len());
        proof {
            lemma_first_nonempty(start.free_lists, order_needed as nat);
            lemma_u32_pow2_log(self.size);
            lemma_floor_log2_mono(8, start.size);
            reveal_with_fuel(floor_log2, 5);
            assert(floor_log2(start.size) <= 31);
            assert(lists_len <= 29);
        }
        // Start with the smallest acceptable block size, and search upwards until
        // we reach blocks the size of the entire memory space.
        let mut order: usize = order_needed as usize;
        loop
            invariant
                self@ == start,
                start == old(self)@,
                start.wf(),
                size <= 0x8000_0000,
                start.can_allocate(size as nat),
                lists_len == start.free_lists.len(),
                order_needed as nat == start.allocation_order(size as nat).unwrap(),
                first_nonempty(start.free_lists, order_needed as nat) == first_nonempty(
                    start.free_lists,
                    order as nat,
                ),
                order < lists_len,
                lists_len <= 29,
            decreases lists_len - order,
        {
            // Do we have a block of this size?
            if let Some(mut block) = self.free_list_pop(order) {
                assert(first_nonempty(start.free_lists, order as nat) == Some(order as nat));
                // If the block is too big, break it up. This leaves the address
                // unchanged, because we always allocate at the head of a block.
                if order > order_needed as usize {
                    self.split_free_block(&mut block, order as u32, order_needed);
                }
                proof {
                    let b = start.free_lists[order as int].last();
                    lemma_split_frame(start.pop_free(order as int), b.ptr.offset as nat, order as nat, order_needed as nat);
                }
                block.set_len(size);
                block.set_size(self.allocation_size(size).unwrap());
                assert(start.source_order(size as nat) == Some(order as nat));
                assert(block.id == start.free_lists[order as int].last().id);
                assert(block.ptr.offset == start.free_lists[order as int].last().ptr.offset);
                assert(block == start.allocated_block(size as nat));
                allocation_map_insert(&mut self.allocations, block.ptr.offset, block);
                return block;
            }
            proof {
                lemma_first_nonempty(start.free_lists, order as nat + 1);
            }
            order = order + 1;
        }
    }

    /// Finds the buddy of `block` among the free blocks of the given order.
    pub fn find_buddy(&self, order: u32, block: WrappedPtr) -> (r: Option<WrappedPtr>)
        requires
            self@.wf(),
            order <= 28,
        ensures
            r == self@.buddy_of(order as nat, block),
    {
        let size = self.order_size(order);
        // The block that spans the whole memory has no buddy.
        if size >= self.size {
            None
        } else {
            let offset = block.ptr.offset ^ size;
            proof {
                lemma_u32_pow2_log(self.size);
                lemma_floor_log2_mono(8, self.size as nat);
                reveal_with_fuel(floor_log2, 5);
                lemma_pow2_of_log2(self.size as nat);
                if order as nat >= list_count(self.size as nat) {
                    if (3 + order) as nat > floor_log2(self.size as nat) {
                        lemma_pow2_strictly_increases(floor_log2(self.size as nat), (3 + order) as nat);
                    }
                }
            }
            let ghost list = self@.free_lists[order as int];
            let list_len = self.free_lists[order as usize].len();
            assert(self.free_lists@[order as int]@ == list);
            let mut i: usize = 0;
            while i < list_len
                invariant
                    i <= list_len,
                    size < self.size,
                    size as nat == block_size(order as nat),
                    offset == block.ptr.offset ^ size,
                    list == self@.free_lists[order as int],
                    list_len == list.len(),
                    order < self.free_lists@.len(),
                    self.free_lists@[order as int]@ == list,
                    forall|j: int| 0 <= j < i ==> (#[trigger] list[j]).ptr.offset != offset,
                decreases list_len - i,
            {
                if self.free_lists[order as usize][i].ptr.offset == offset {
                    proof {
                        lemma_first_at_offset(list, offset, i as int);
                    }
                    return Some(self.free_lists[order as usize][i]);
                }
                i = i + 1;
            }
            proof {
                lemma_first_at_offset_none(list, offset);
            }
            None
        }
    }

    /// Frees the block `ptr`, merging it with free buddies (see [`AllocatorModel::merge`]).
    pub fn deallocate(&mut self, ptr: WrappedPtr)
        requires
            old(self)@.wf(),
            ptr.size <= 0x8000_0000,
            old(self)@.after_deallocate(ptr) is Some,
        ensures
            Some(final(self)@) == old(self)@.after_deallocate(ptr),
            final(self)@.wf(),
    {
        let initial_order = self.allocation_order(ptr.size).unwrap();
        // Remove the allocation from the allocations table (it is keyed by offset).
        allocation_map_remove(&mut self.allocations, ptr.ptr.offset);
        let ghost target = old(self)@.after_deallocate(ptr);
        let lists_len = self.free_lists.len();
        assert(self@.free_lists.len() == self.free_lists@.len());
        proof {
            lemma_u32_pow2_log(self.size);
            lemma_floor_log2_mono(8, self.size as nat);
            reveal_with_fuel(floor_log2, 5);
        }
        let mut block = ptr;
        let mut order: u32 = initial_order;
        while (order as usize) < lists_len
            invariant
                self@.wf(),
                lists_len == self@.free_lists.len(),
                lists_len <= 29,
                self@.merge(block, order as nat) == target,
                target is Some,
                target == old(self)@.after_deallocate(ptr),
            decreases lists_len - order,
        {
            let ghost m0 = self@;
            let block_size = block.ptr.len;
            if let Some(mut buddy) = self.find_buddy(order, block) {
                let ghost i = first_with_id(m0.free_lists[order as int], buddy.id);
                if self.free_list_remove(order as usize, buddy.id) {
                    proof {
                        lemma_merge_step(m0, block, order as nat);
                    }
                    if block.ptr.offset < buddy.ptr.offset {
                        block.set_len(block_size * 2);
                        block.set_size(block_size * 2);
                        self.disposed_ptr_ids.push(buddy.id);
                    } else {
                        buddy.set_len(block_size * 2);
                        buddy.set_size(block_size * 2);
                        self.disposed_ptr_ids.push(block.id);
                        block = buddy;
                    }
                    order = order + 1;
                    continue;
                }
            }
            proof {
                lemma_merge_stop(m0, block, order as nat);
            }
            self.free_list_push(order as usize, block);
            return;
        }
        proof {
            lemma_merge_end(self@, block, order as nat);
        }
    }

    /// Retrieves the next available block id, reusing ids of disposed blocks
    /// before counting up new ones.
    fn get_next_ptr_id(&mut self) -> (id: u32)
        requires
            old(self)@.id_available(),
        ensures
            id == old(self)@.next_id(),
            final(self)@ == old(self)@.take_id(),
    {
        if let Some(id) = self.disposed_ptr_ids.pop() {
            id
        } else {
            let current_ptr = self.next_ptr_id;
            self.next_ptr_id = self.next_ptr_id + 1;
            current_ptr
        }
    }

    /// Constructs a new block pointer with the next available id.
    fn new_wrapped_ptr(&mut self, offset: u32, len: u32) -> (w: WrappedPtr)
        requires
            old(self)@.id_available(),
        ensures
            w == (WrappedPtr { id: old(self)@.next_id(), size: len, ptr: Ptr { offset, len } }),
            final(self)@ == old(self)@.take_id(),
    {
        let id = self.get_next_ptr_id();
        WrappedPtr::new(id, offset, len)
    }
}

/// The free memory that the free lists account for: each block on the list
/// of order `k` counts as a block of that order's size.
pub open spec fn free_bytes(lists: Seq<Seq<WrappedPtr>>) -> int
    decreases lists.len(),
{
    if lists.len() == 0 {
        0
    } else {
        free_bytes(lists.drop_last()) + lists.last().len() * block_size((lists.len() - 1) as nat)
    }
}

proof fn lemma_free_bytes_update(lists: Seq<Seq<WrappedPtr>>, k: int, l: Seq<WrappedPtr>)
    requires
        0 <= k < lists.len(),
    ensures
        free_bytes(lists.update(k, l)) == free_bytes(lists) - lists[k].len() * block_size(k as nat)
            + l.len() * block_size(k as nat),
    decreases lists.len(),
{
    let u = lists.update(k, l);
    if k == lists.len() - 1 {
        assert(u.drop_last() =~= lists.drop_last());
    } else {
        lemma_free_bytes_update(lists.drop_last(), k, l);
        assert(u.drop_last() =~= lists.drop_last().update(k, l));
    }
}

proof fn lemma_free_bytes_push(m: AllocatorModel, k: int, b: WrappedPtr)
    requires
        0 <= k < m.free_lists.len(),
    ensures
        free_bytes(m.push_free(k, b).free_lists) == free_bytes(m.free_lists) + block_size(k as nat),
{
    lemma_free_bytes_update(m.free_lists, k, m.free_lists[k].push(b));
    assert((m.free_lists[k].len() + 1) * block_size(k as nat) == m.free_lists[k].len() * block_size(
        k as nat,
    ) + block_size(k as nat)) by (nonlinear_arith);
}

proof fn lemma_free_bytes_remove(m: AllocatorModel, k: int, i: int)
    requires
        0 <= k < m.free_lists.len(),
        0 <= i < m.free_lists[k].len(),
    ensures
        free_bytes(m.remove_free(k, i).free_lists) == free_bytes(m.free_lists) - block_size(k as nat),
        free_bytes(m.pop_free(k).free_lists) == free_bytes(m.free_lists) - block_size(k as nat),
{
    let n = m.free_lists[k].len();
    lemma_free_bytes_update(m.free_lists, k, m.free_lists[k].remove(i));
    lemma_free_bytes_update(m.free_lists, k, m.free_lists[k].drop_last());
    assert((n - 1) * block_size(k as nat) == n * block_size(k as nat) - block_size(k as nat)) by (nonlinear_arith);
}

proof fn lemma_free_bytes_split(m: AllocatorModel, offset: nat, order: nat, needed: nat)
    requires
        m.can_split(offset, order, needed),
        needed <= order,
    ensures
        free_bytes(m.split(offset, order, needed).free_lists) + block_size(needed) == free_bytes(
            m.free_lists,
        ) + block_size(order),
    decreases order,
{
    if order > needed {
        let k = (order - 1) as nat;
        let next = m.take_id().push_free(k as int, m.upper_half(offset, k));
        lemma_free_bytes_push(m.take_id(), k as int, m.upper_half(offset, k));
        lemma_free_bytes_split(next, offset, k, needed);
        lemma_pow2_unfold(3 + order);
    }
}

proof fn lemma_first_match_from(list: Seq<WrappedPtr>, p: spec_fn(WrappedPtr) -> bool, n: int)
    requires
        0 <= n <= list.len(),
        forall|j: int| 0 <= j < n ==> !p(#[trigger] list[j]),
        exists|i: int| n <= i < list.len() && p(list[i]),
    ensures
        exists|i: int|
            0 <= i < list.len() && p(list[i]) && forall|j: int| 0 <= j < i ==> !p(#[trigger] list[j]),
    decreases list.len() - n,
{
    if p(list[n]) {
        assert(0 <= n < list.len() && p(list[n]) && forall|j: int| 0 <= j < n ==> !p(#[trigger] list[j]));
    } else {
        lemma_first_match_from(list, p, n + 1);
    }
}

proof fn lemma_first_match_some(list: Seq<WrappedPtr>, p: spec_fn(WrappedPtr) -> bool)
    ensures
        first_match(list, p) matches Some(i) ==> 0 <= i < list.len() && p(list[i]),
{
    if exists|i: int| 0 <= i < list.len() && p(list[i]) {
        lemma_first_match_from(list, p, 0);
    }
}

/// One merge step: the buddy is taken off its list, and the merged block goes on from the next order.
#[verifier::rlimit(60)]
proof fn lemma_merge_step(m: AllocatorModel, block: WrappedPtr, k: nat)
    requires
        k < m.free_lists.len(),
        m.buddy_of(k, block) is Some,
        first_with_id(m.free_lists[k as int], m.buddy_of(k, block).unwrap().id) is Some,
        m.merge(block, k) is Some,
    ensures
        ({
            let buddy = m.buddy_of(k, block).unwrap();
            let i = first_with_id(m.free_lists[k as int], buddy.id).unwrap();
            let r = m.remove_free(k as int, i);
            let doubled = (block.ptr.len * 2) as u32;
            &&& 0 <= i < m.free_lists[k as int].len()
            &&& block.ptr.len * 2 <= u32::MAX
            &&& block_size(k) < m.size
            &&& m.merge(block, k) == if block.ptr.offset < buddy.ptr.offset {
                AllocatorModel { disposed_ptr_ids: r.disposed_ptr_ids.push(buddy.id), ..r }.merge(
                    WrappedPtr {
                        size: doubled,
                        ptr: Ptr { offset: block.ptr.offset, len: doubled },
                        ..block
                    },
                    k + 1,
                )
            } else {
                AllocatorModel { disposed_ptr_ids: r.disposed_ptr_ids.push(block.id), ..r }.merge(
                    WrappedPtr {
                        size: doubled,
                        ptr: Ptr { offset: buddy.ptr.offset, len: doubled },
                        ..buddy
                    },
                    k + 1,
                )
            }
        }),
{
    reveal(AllocatorModel::merge);
    let buddy = m.buddy_of(k, block).unwrap();
    lemma_first_match_some(m.free_lists[k as int], |b: WrappedPtr| b.id == buddy.id);
}

/// Where no buddy is found and taken off its list, the block goes onto the
/// free list of its order.
proof fn lemma_merge_stop(m: AllocatorModel, block: WrappedPtr, k: nat)
    requires
        k < m.free_lists.len(),
        !(m.buddy_of(k, block) is Some && first_with_id(
            m.free_lists[k as int],
            m.buddy_of(k, block).unwrap().id,
        ) is Some),
    ensures
        m.merge(block, k) == Some(m.push_free(k as int, block)),
{
    reveal(AllocatorModel::merge);
}

/// Past the last order, merging changes nothing.
proof fn lemma_merge_end(m: AllocatorModel, block: WrappedPtr, k: nat)
    requires
        k >= m.free_lists.len(),
    ensures
        m.merge(block, k) == Some(m),
{
    reveal(AllocatorModel::merge);
}

/// Merging gives back the free memory of a block of the order it starts at,
/// and keeps the memory size, the number of free lists and the allocations.
#[verifier::rlimit(40)]
proof fn lemma_free_bytes_merge(m: AllocatorModel, block: WrappedPtr, k: nat)
    requires
        m.free_lists.len() >= 1,
        m.size == block_size((m.free_lists.len() - 1) as nat),
        k < m.free_lists.len(),
        m.merge(block, k) is Some,
    ensures
        free_bytes(m.merge(block, k).unwrap().free_lists) == free_bytes(m.free_lists) + block_size(k),
        m.merge(block, k).unwrap().size == m.size,
        m.merge(block, k).unwrap().free_lists.len() == m.free_lists.len(),
        m.merge(block, k).unwrap().allocations == m.allocations,
    decreases m.free_lists.len() - k,
{
    let found = m.buddy_of(k, block) is Some && first_with_id(
        m.free_lists[k as int],
        m.buddy_of(k, block).unwrap().id,
    ) is Some;
    if found {
        let buddy = m.buddy_of(k, block).unwrap();
        let i = first_with_id(m.free_lists[k as int], buddy.id).unwrap();
        lemma_merge_step(m, block, k);
        lemma_free_bytes_remove(m, k as int, i);
        let r = m.remove_free(k as int, i);
        if k + 1 >= m.free_lists.len() {
            if k < m.free_lists.len() - 1 {
            } else {
                assert(block_size(k) == m.size);
            }
        }
        lemma_pow2_unfold(3 + k + 1);
        let doubled = (block.ptr.len * 2) as u32;
        if block.ptr.offset < buddy.ptr.offset {
            let next = AllocatorModel { disposed_ptr_ids: r.disposed_ptr_ids.push(buddy.id), ..r };
            lemma_free_bytes_merge(
                next,
                WrappedPtr { size: doubled, ptr: Ptr { offset: block.ptr.offset, len: doubled }, ..block },
                k + 1,
            );
        } else {
            let next = AllocatorModel { disposed_ptr_ids: r.disposed_ptr_ids.push(block.id), ..r };
            lemma_free_bytes_merge(
                next,
                WrappedPtr { size: doubled, ptr: Ptr { offset: buddy.ptr.offset, len: doubled }, ..buddy },
                k + 1,
            );
        }
    } else {
        lemma_merge_stop(m, block, k);
        lemma_free_bytes_push(m, k as int, block);
    }
}

/// The memory size of a well-formed allocator is the size of its top order's blocks.
proof fn lemma_wf_top(m: AllocatorModel)
    requires
        m.wf(),
    ensures
        m.free_lists.len() >= 1,
        m.size == block_size((m.free_lists.len() - 1) as nat),
        floor_log2(m.size) == m.free_lists.len() + 2,
{
    lemma_floor_log2_mono(8, m.size);
    reveal_with_fuel(floor_log2, 5);
    lemma_pow2_of_log2(m.size);
}

/// The order of an allocation that fits the memory has a free list.
proof fn lemma_order_in_range(m: AllocatorModel, size: nat)
    requires
        m.wf(),
        m.allocation_order(size) is Some,
    ensures
        m.allocation_order(size).unwrap() < m.free_lists.len(),
        m.allocation_size(size) == Some(block_size(m.allocation_order(size).unwrap())),
{
    let n: nat = if size < 8 { 8 } else { size };
    let s = next_pow2(n);
    lemma_ceil_log2(n, ceil_log2(n));
    lemma_floor_log2_pow2(ceil_log2(n));
    lemma_floor_log2_mono(8, s);
    lemma_floor_log2_mono(s, m.size);
    reveal_with_fuel(floor_log2, 5);
    lemma_wf_top(m);
}

/// The block size of an allocation is the smallest power of two that is at
/// least the size asked for and at least `MIN_BLOCK_SIZE`.
pub proof fn law_allocation_size(m: AllocatorModel, size: nat)
    requires
        m.allocation_size(size) is Some,
    ensures
        ({
            let s = m.allocation_size(size).unwrap();
            &&& is_pow2(s as int)
            &&& s >= size
            &&& s >= 8
            &&& s <= m.size
            &&& forall|k: nat| pow2(k) >= size && pow2(k) >= 8 ==> s <= #[trigger] pow2(k)
        }),
{
    let n: nat = if size < 8 { 8 } else { size };
    lemma_ceil_log2(n, ceil_log2(n));
    let s = next_pow2(n);
    vstd::arithmetic::power2::lemma_pow2(ceil_log2(n));
    vstd::arithmetic::power2::is_pow2_equiv(s as int);
    assert forall|k: nat| pow2(k) >= size && pow2(k) >= 8 implies s <= #[trigger] pow2(k) by {
        lemma_ceil_log2(n, k);
        if ceil_log2(n) < k {
            lemma_pow2_strictly_increases(ceil_log2(n), k);
        }
    }
}

/// All the memory of a fresh allocator is free.
pub proof fn law_fresh_all_free(size: u32)
    requires
        is_pow2(size as int),
        size >= 8,
    ensures
        free_bytes(AllocatorModel::fresh(size).free_lists) == size,
{
    let m = AllocatorModel::fresh(size);
    lemma_u32_pow2_log(size);
    assert(m.wf());
    lemma_wf_top(m);
    let lists = m.free_lists;
    let n = lists.len();
    assert forall|i: int| 0 <= i < n - 1 implies lists.drop_last()[i].len() == 0 by {}
    lemma_free_bytes_empty(lists.drop_last());
    assert(lists.last().len() == 1);
}

proof fn lemma_free_bytes_empty(lists: Seq<Seq<WrappedPtr>>)
    requires
        forall|i: int| 0 <= i < lists.len() ==> (#[trigger] lists[i]).len() == 0,
    ensures
        free_bytes(lists) == 0,
    decreases lists.len(),
{
    if lists.len() > 0 {
        lemma_free_bytes_empty(lists.drop_last());
    }
}

/// An allocation takes exactly its block size out of the free memory: the
/// source block leaves its list and the halves split off go back.
pub proof fn law_allocate_takes_block(m: AllocatorModel, size: nat)
    requires
        m.wf(),
        m.can_allocate(size),
    ensures
        free_bytes(m.after_allocate(size).free_lists) + m.allocation_size(size).unwrap() == free_bytes(
            m.free_lists,
        ),
        m.after_allocate(size).wf(),
{
    let needed = m.allocation_order(size).unwrap();
    let o = m.source_order(size).unwrap();
    lemma_first_nonempty(m.free_lists, needed);
    lemma_order_in_range(m, size);
    let b = m.free_lists[o as int].last();
    lemma_free_bytes_remove(m, o as int, 0);
    lemma_free_bytes_split(m.pop_free(o as int), b.ptr.offset as nat, o, needed);
    lemma_split_frame(m.pop_free(o as int), b.ptr.offset as nat, o, needed);
}

/// Freeing a block gives back exactly the block size of its size: merged
/// buddies leave their lists and the merged block goes back, one order up each time.
pub proof fn law_deallocate_returns_block(m: AllocatorModel, ptr: WrappedPtr)
    requires
        m.wf(),
        m.after_deallocate(ptr) is Some,
    ensures
        free_bytes(m.after_deallocate(ptr).unwrap().free_lists) == free_bytes(m.free_lists)
            + m.allocation_size(ptr.size as nat).unwrap(),
        m.after_deallocate(ptr).unwrap().allocations == m.allocations.remove(ptr.ptr.offset),
        m.after_deallocate(ptr).unwrap().wf(),
{
    let o = m.allocation_order(ptr.size as nat).unwrap();
    lemma_order_in_range(m, ptr.size as nat);
    lemma_wf_top(m);
    let m1 = AllocatorModel { allocations: m.allocations.remove(ptr.ptr.offset), ..m };
    lemma_free_bytes_merge(m1, ptr, o);
}

/// Freeing the block an allocation handed out gives back the free memory the
/// allocation took, and forgets the allocation.
pub proof fn law_allocate_then_deallocate(m: AllocatorModel, size: nat)
    requires
        m.wf(),
        m.can_allocate(size),
        m.after_allocate(size).after_deallocate(m.allocated_block(size)) is Some,
    ensures
        ({
            let after = m.after_allocate(size).after_deallocate(m.allocated_block(size)).unwrap();
            &&& free_bytes(after.free_lists) == free_bytes(m.free_lists)
            &&& after.allocations == m.allocations.remove(m.allocated_block(size).ptr.offset)
        }),
{
    let m1 = m.after_allocate(size);
    let r = m.allocated_block(size);
    law_allocate_takes_block(m, size);
    law_deallocate_returns_block(m1, r);
    let needed = m.allocation_order(size).unwrap();
    let o = m.source_order(size).unwrap();
    lemma_first_nonempty(m.free_lists, needed);
    lemma_order_in_range(m, size);
    let b = m.free_lists[o as int].last();
    lemma_split_frame(m.pop_free(o as int), b.ptr.offset as nat, o, needed);
    assert(m1.allocations == m.allocations.insert(r.ptr.offset, r));
    lemma_ceil_log2_pow2(3 + needed);
    if needed > 0 {
        lemma_pow2_strictly_increases(3, 3 + needed);
    }
    lemma2_to64();
    assert(m1.allocation_size(r.size as nat) == m.allocation_size(size));
    assert(m1.allocations.remove(r.ptr.offset) =~= m.allocations.remove(r.ptr.offset));
}

/// Whether a block of order `k` at `offset` lies where the buddy scheme puts
/// it: at a multiple of its block size, and wholly inside a memory of `size` bytes.
pub open spec fn placed_at(offset: nat, k: nat, size: nat) -> bool {
    offset % block_size(k) == 0 && offset + block_size(k) <= size
}

/// Whether every block on the free lists lies at its place for its order, in a
/// memory of `size` bytes.
#[verifier::opaque]
pub open spec fn lists_placed(lists: Seq<Seq<WrappedPtr>>, size: nat) -> bool {
    forall|k: int, i: int|
        0 <= k < lists.len() && 0 <= i < lists[k].len() ==> placed_at(
            (#[trigger] lists[k][i]).ptr.offset as nat,
            k as nat,
            size,
        )
}

impl AllocatorModel {
    /// Every free block lies at its place for its order, and every allocation
    /// is recorded at its own offset with the block size of its order, and
    /// lies at its place for that order.
    pub open spec fn placed(self) -> bool {
        &&& lists_placed(self.free_lists, self.size)
        &&& forall|off: u32| #[trigger]
            self.allocations.contains_key(off) ==> {
                let a = self.allocations[off];
                &&& a.ptr.offset == off
                &&& self.allocation_order(a.size as nat) is Some
                &&& a.size as nat == block_size(self.allocation_order(a.size as nat)->0)
                &&& placed_at(off as nat, self.allocation_order(a.size as nat)->0, self.size)
            }
    }
}

/// A multiple of `2^j` is a multiple of every smaller power of two.
proof fn lemma_multiple_of_lower_pow2(a: nat, i: nat, j: nat)
    requires
        i <= j,
        a % pow2(j) == 0,
    ensures
        a % pow2(i) == 0,
{
    let d = (j - i) as nat;
    vstd::arithmetic::power2::lemma_pow2_adds(i, d);
    assert(i + d == j);
    lemma_pow2_pos(i);
    lemma_pow2_pos(d);
    vstd::arithmetic::div_mod::lemma_mod_mod(a as int, pow2(i) as int, pow2(d) as int);
    assert((a % (pow2(i) * pow2(d))) % pow2(i) == a % pow2(i));
}

/// The blocks of an order below the top one take their own size as their
/// allocation size, and their order as their allocation order.
proof fn lemma_block_order(m: AllocatorModel, k: nat)
    requires
        m.wf(),
        k < m.free_lists.len(),
    ensures
        m.allocation_size(block_size(k)) == Some(block_size(k)),
        m.allocation_order(block_size(k)) == Some(k),
{
    lemma_wf_top(m);
    if k > 0 {
        lemma_pow2_strictly_increases(3, 3 + k);
    }
    if k < m.free_lists.len() - 1 {
        lemma_pow2_strictly_increases(3 + k, (3 + m.free_lists.len() - 1) as nat);
    }
    lemma2_to64();
    lemma_ceil_log2_pow2(3 + k);
    lemma_floor_log2_pow2(3 + k);
}

/// Where blocks are placed, pushing a placed block of order `k` keeps them placed.
proof fn lemma_push_placed(lists: Seq<Seq<WrappedPtr>>, size: nat, k: int, b: WrappedPtr)
    requires
        lists_placed(lists, size),
        0 <= k < lists.len(),
        placed_at(b.ptr.offset as nat, k as nat, size),
    ensures
        lists_placed(lists.update(k, lists[k].push(b)), size),
{
    reveal(lists_placed);
    let r = lists.update(k, lists[k].push(b));
    assert forall|k2: int, i: int| 0 <= k2 < r.len() && 0 <= i < r[k2].len() implies placed_at(
        (#[trigger] r[k2][i]).ptr.offset as nat,
        k2 as nat,
        size,
    ) by {
        if k2 == k && i == lists[k].len() {
        } else {
            assert(r[k2][i] == lists[k2][i]);
        }
    }
}

/// Taking a block off a free list keeps the others placed.
proof fn lemma_remove_placed(lists: Seq<Seq<WrappedPtr>>, size: nat, k: int, i: int)
    requires
        lists_placed(lists, size),
        0 <= k < lists.len(),
        0 <= i < lists[k].len(),
    ensures
        lists_placed(lists.update(k, lists[k].remove(i)), size),
        lists_placed(lists.update(k, lists[k].drop_last()), size),
{
    reveal(lists_placed);
    let r = lists.update(k, lists[k].remove(i));
    assert forall|k2: int, j: int| 0 <= k2 < r.len() && 0 <= j < r[k2].len() implies placed_at(
        (#[trigger] r[k2][j]).ptr.offset as nat,
        k2 as nat,
        size,
    ) by {
        if k2 == k && j >= i {
            assert(r[k2][j] == lists[k2][j + 1]);
        } else {
            assert(r[k2][j] == lists[k2][j]);
        }
    }
    let q = lists.update(k, lists[k].drop_last());
    assert forall|k2: int, j: int| 0 <= k2 < q.len() && 0 <= j < q[k2].len() implies placed_at(
        (#[trigger] q[k2][j]).ptr.offset as nat,
        k2 as nat,
        size,
    ) by {
        assert(q[k2][j] == lists[k2][j]);
    }
}

/// A block on a placed free list is placed at the list's order.
proof fn lemma_placed_block(lists: Seq<Seq<WrappedPtr>>, size: nat, k: int, i: int)
    requires
        lists_placed(lists, size),
        0 <= k < lists.len(),
        0 <= i < lists[k].len(),
    ensures
        placed_at(lists[k][i].ptr.offset as nat, k as nat, size),
{
    reveal(lists_placed);
}

/// Splitting a placed block of order `order` down to `needed` leaves every
/// free block placed: each upper half is placed at its own order.
proof fn lemma_split_placed(m: AllocatorModel, offset: nat, order: nat, needed: nat)
    requires
        lists_placed(m.free_lists, m.size),
        m.can_split(offset, order, needed),
        placed_at(offset, order, m.size),
    ensures
        lists_placed(m.split(offset, order, needed).free_lists, m.size),
    decreases order,
{
    if order > needed {
        let k = (order - 1) as nat;
        let t = m.take_id();
        let h = m.upper_half(offset, k);
        lemma_pow2_unfold(3 + order);
        lemma_pow2_pos(3 + k);
        lemma_multiple_of_lower_pow2(offset, 3 + k, 3 + order);
        vstd::arithmetic::div_mod::lemma_mod_add_multiples_vanish(offset as int, block_size(k) as int);
        assert(h.ptr.offset as nat == offset + block_size(k));
        lemma_push_placed(t.free_lists, t.size, k as int, h);
        lemma_split_placed(t.push_free(k as int, h), offset, k, needed);
    }
}

/// The buddy of a block at a multiple of `2^j` sits with that bit flipped: one
/// block size above or below, and the lower of the two is a multiple of `2^(j+1)`.
proof fn lemma_buddy_offset(x: u32, j: u32, j1: u32)
    requires
        j < 31,
        j1 == j + 1,
        x % (1u32 << j) == 0,
    ensures
        (x ^ (1u32 << j)) != x,
        x < (x ^ (1u32 << j)) ==> (x ^ (1u32 << j)) == x + (1u32 << j) && x % (1u32 << j1) == 0,
        (x ^ (1u32 << j)) < x ==> x == (x ^ (1u32 << j)) + (1u32 << j) && (x ^ (1u32 << j)) % (1u32
            << j1) == 0,
{
    assert((x ^ (1u32 << j)) != x) by (bit_vector)
        requires
            j < 31,
    ;
    assert(x < (x ^ (1u32 << j)) ==> (x ^ (1u32 << j)) == x + (1u32 << j) && x % (1u32 << j1) == 0)
        by (bit_vector)
        requires
            j < 31,
            j1 == j + 1,
            x % (1u32 << j) == 0,
    ;
    assert((x ^ (1u32 << j)) < x ==> x == (x ^ (1u32 << j)) + (1u32 << j) && (x ^ (1u32 << j)) % (1u32
        << j1) == 0) by (bit_vector)
        requires
            j < 31,
            j1 == j + 1,
            x % (1u32 << j) == 0,
    ;
}

/// `1 << j` is `2^j`.
proof fn lemma_shl_pow2(j: u32)
    requires
        j < 32,
    ensures
        (1u32 << j) as nat == pow2(j as nat),
{
    vstd::bits::lemma_u32_pow2_no_overflow(j as nat);
    vstd::bits::lemma_u32_shl_is_mul(1, j);
}

/// A placed block and its placed buddy merge into the lower of the two, which
/// is placed one order up.
proof fn lemma_buddies_merge_placed(x: u32, y: u32, k: nat, size: nat)
    requires
        placed_at(x as nat, k, size),
        placed_at(y as nat, k, size),
        y == x ^ (block_size(k) as u32),
        block_size(k) < size,
        size <= 0x8000_0000,
    ensures
        x < y ==> placed_at(x as nat, k + 1, size) && y == x + block_size(k),
        !(x < y) ==> placed_at(y as nat, k + 1, size) && x == y + block_size(k),
        block_size(k + 1) == 2 * block_size(k),
{
    if 3 + k >= 31 {
        lemma2_to64();
        if 3 + k > 31 {
            lemma_pow2_strictly_increases(31, 3 + k);
        }
    }
    let jj = (3 + k) as u32;
    lemma_shl_pow2(jj);
    lemma_shl_pow2((jj + 1) as u32);
    lemma_buddy_offset(x, jj, (jj + 1) as u32);
    lemma_pow2_unfold(3 + k + 1);
}

/// Merging a placed block from order `k` on keeps every free block placed:
/// a block and its buddy merge into the lower of the two, which is placed one
/// order up.
#[verifier::spinoff_prover]
#[verifier::rlimit(100)]
proof fn lemma_merge_placed(m: AllocatorModel, block: WrappedPtr, k: nat)
    requires
        lists_placed(m.free_lists, m.size),
        m.free_lists.len() >= 1,
        m.size == block_size((m.free_lists.len() - 1) as nat),
        m.size <= 0x8000_0000,
        k < m.free_lists.len(),
        placed_at(block.ptr.offset as nat, k, m.size),
        m.merge(block, k) is Some,
    ensures
        lists_placed(m.merge(block, k).unwrap().free_lists, m.size),
    decreases m.free_lists.len() - k,
{
    let found = m.buddy_of(k, block) is Some && first_with_id(
        m.free_lists[k as int],
        m.buddy_of(k, block).unwrap().id,
    ) is Some;
    if found {
        let buddy = m.buddy_of(k, block).unwrap();
        let i = first_with_id(m.free_lists[k as int], buddy.id).unwrap();
        lemma_merge_step(m, block, k);
        let bs = block_size(k);
        let list = m.free_lists[k as int];
        let j = first_at_offset(list, block.ptr.offset ^ (bs as u32)).unwrap();
        lemma_first_match_some(list, |b: WrappedPtr| b.ptr.offset == block.ptr.offset ^ (bs as u32));
        assert(buddy == list[j]);
        lemma_placed_block(m.free_lists, m.size, k as int, j);
        lemma_buddies_merge_placed(block.ptr.offset, buddy.ptr.offset, k, m.size);
        lemma_remove_placed(m.free_lists, m.size, k as int, i);
        let r = m.remove_free(k as int, i);
        let doubled = (block.ptr.len * 2) as u32;
        if block.ptr.offset < buddy.ptr.offset {
            let next = AllocatorModel { disposed_ptr_ids: r.disposed_ptr_ids.push(buddy.id), ..r };
            lemma_merge_placed(
                next,
                WrappedPtr { size: doubled, ptr: Ptr { offset: block.ptr.offset, len: doubled }, ..block },
                k + 1,
            );
        } else {
            let next = AllocatorModel { disposed_ptr_ids: r.disposed_ptr_ids.push(block.id), ..r };
            lemma_merge_placed(
                next,
                WrappedPtr { size: doubled, ptr: Ptr { offset: buddy.ptr.offset, len: doubled }, ..buddy },
                k + 1,
            );
        }
    } else {
        lemma_merge_stop(m, block, k);
        lemma_push_placed(m.free_lists, m.size, k as int, block);
    }
}

/// A fresh allocator's one free block spans the whole memory, so it is placed.
pub proof fn law_fresh_placed(size: u32)
    requires
        is_pow2(size as int),
        size >= 8,
    ensures
        AllocatorModel::fresh(size).placed(),
{
    let m = AllocatorModel::fresh(size);
    lemma_u32_pow2_log(size);
    assert(m.wf());
    lemma_wf_top(m);
    reveal(lists_placed);
    assert forall|k: int, i: int|
        0 <= k < m.free_lists.len() && 0 <= i < m.free_lists[k].len() implies placed_at(
        (#[trigger] m.free_lists[k][i]).ptr.offset as nat,
        k as nat,
        m.size,
    ) by {
        assert(k == m.free_lists.len() - 1);
        lemma_pow2_pos((3 + k) as nat);
    }
}

/// An allocation hands out a block of the allocation size at a multiple of
/// that size, wholly inside the memory, with the length asked for; and the
/// allocator's blocks stay placed.
pub proof fn law_allocate_placed(m: AllocatorModel, size: nat)
    requires
        m.wf(),
        m.placed(),
        m.can_allocate(size),
    ensures
        ({
            let b = m.allocated_block(size);
            &&& b.size as nat == m.allocation_size(size).unwrap()
            &&& b.ptr.len == size as u32
            &&& b.ptr.offset % b.size == 0
            &&& b.ptr.offset + b.size <= m.size
        }),
        m.after_allocate(size).placed(),
{
    let needed = m.allocation_order(size).unwrap();
    let o = m.source_order(size).unwrap();
    lemma_first_nonempty(m.free_lists, needed);
    lemma_order_in_range(m, size);
    let list = m.free_lists[o as int];
    let b0 = list.last();
    lemma_placed_block(m.free_lists, m.size, o as int, list.len() - 1);
    lemma_remove_placed(m.free_lists, m.size, o as int, 0);
    let p = m.pop_free(o as int);
    lemma_split_placed(p, b0.ptr.offset as nat, o, needed);
    lemma_split_frame(p, b0.ptr.offset as nat, o, needed);
    let s = p.split(b0.ptr.offset as nat, o, needed);
    lemma_multiple_of_lower_pow2(b0.ptr.offset as nat, 3 + needed, 3 + o);
    if needed < o {
        lemma_pow2_strictly_increases(3 + needed, 3 + o);
    }
    lemma_wf_top(m);
    let a = m.allocated_block(size);
    lemma_block_order(m, needed);
    assert(a.size as nat == block_size(needed));
    let after = m.after_allocate(size);
    assert(after.allocations == s.allocations.insert(b0.ptr.offset, a));
    assert forall|off: u32| #[trigger] after.allocations.contains_key(off) implies {
        let e = after.allocations[off];
        &&& e.ptr.offset == off
        &&& after.allocation_order(e.size as nat) is Some
        &&& e.size as nat == block_size(after.allocation_order(e.size as nat)->0)
        &&& placed_at(off as nat, after.allocation_order(e.size as nat)->0, after.size)
    } by {
        if off != b0.ptr.offset {
            assert(s.allocations.contains_key(off));
        }
    }
}

/// Freeing an allocation keeps the allocator's blocks placed.
pub proof fn law_deallocate_placed(m: AllocatorModel, ptr: WrappedPtr)
    requires
        m.wf(),
        m.placed(),
        m.allocations.contains_key(ptr.ptr.offset),
        m.allocations[ptr.ptr.offset] == ptr,
        m.after_deallocate(ptr) is Some,
    ensures
        m.after_deallocate(ptr).unwrap().placed(),
{
    let o = m.allocation_order(ptr.size as nat).unwrap();
    lemma_order_in_range(m, ptr.size as nat);
    lemma_wf_top(m);
    let m1 = AllocatorModel { allocations: m.allocations.remove(ptr.ptr.offset), ..m };
    lemma_merge_placed(m1, ptr, o);
    lemma_free_bytes_merge(m1, ptr, o);
    let after = m.after_deallocate(ptr).unwrap();
    assert forall|off: u32| #[trigger] after.allocations.contains_key(off) implies {
        let e = after.allocations[off];
        &&& e.ptr.offset == off
        &&& after.allocation_order(e.size as nat) is Some
        &&& e.size as nat == block_size(after.allocation_order(e.size as nat)->0)
        &&& placed_at(off as nat, after.allocation_order(e.size as nat)->0, after.size)
    } by {
        assert(m.allocations.contains_key(off));
    }
}

/// Whether two ranges of memory, at `o1` of `s1` bytes and at `o2` of `s2`
/// bytes, do not overlap.
pub open spec fn apart(o1: int, s1: int, o2: int, s2: int) -> bool {
    o1 + s1 <= o2 || o2 + s2 <= o1
}

/// Whether the range at `o` of `s` bytes overlaps no free block.
pub open spec fn apart_from_free(lists: Seq<Seq<WrappedPtr>>, o: int, s: int) -> bool {
    forall|k: int, i: int|
        0 <= k < lists.len() && 0 <= i < lists[k].len() ==> apart(
            (#[trigger] lists[k][i]).ptr.offset as int,
            block_size(k as nat) as int,
            o,
            s,
        )
}

/// Whether no free block has the id `id`.
pub open spec fn id_not_free(lists: Seq<Seq<WrappedPtr>>, id: u32) -> bool {
    forall|k: int, i: int| 0 <= k < lists.len() && 0 <= i < lists[k].len() ==> (#[trigger] lists[k][i]).id != id
}

/// Whether the range at `o` of `s` bytes overlaps no allocation.
pub open spec fn apart_from_allocs(allocs: Map<u32, WrappedPtr>, o: int, s: int) -> bool {
    forall|off: u32| #[trigger] allocs.contains_key(off) ==> apart(off as int, allocs[off].size as int, o, s)
}

/// Whether no allocation has the id `id`.
pub open spec fn id_not_allocated(allocs: Map<u32, WrappedPtr>, id: u32) -> bool {
    forall|off: u32| #[trigger] allocs.contains_key(off) ==> allocs[off].id != id
}

/// Whether the id `id` is in use: it was handed out and has not been disposed.
pub open spec fn id_live(next: nat, disposed: Seq<u32>, id: u32) -> bool {
    id < next && !disposed.contains(id)
}

/// Whether no two free blocks overlap or share an id.
#[verifier::opaque]
pub open spec fn free_apart(lists: Seq<Seq<WrappedPtr>>) -> bool {
    forall|k1: int, i1: int, k2: int, i2: int|
        0 <= k1 < lists.len() && 0 <= i1 < lists[k1].len() && 0 <= k2 < lists.len() && 0 <= i2
            < lists[k2].len() && (k1 != k2 || i1 != i2) ==> apart(
            (#[trigger] lists[k1][i1]).ptr.offset as int,
            block_size(k1 as nat) as int,
            (#[trigger] lists[k2][i2]).ptr.offset as int,
            block_size(k2 as nat) as int,
        ) && lists[k1][i1].id != lists[k2][i2].id
}

/// Whether no two allocations overlap or share an id.
#[verifier::opaque]
pub open spec fn allocs_apart(allocs: Map<u32, WrappedPtr>) -> bool {
    forall|o1: u32, o2: u32|
        #[trigger] allocs.contains_key(o1) && #[trigger] allocs.contains_key(o2) && o1 != o2 ==> apart(
            o1 as int,
            allocs[o1].size as int,
            o2 as int,
            allocs[o2].size as int,
        ) && allocs[o1].id != allocs[o2].id
}

/// Whether no free block overlaps an allocation or shares its id.
#[verifier::opaque]
pub open spec fn free_apart_from_allocs(lists: Seq<Seq<WrappedPtr>>, allocs: Map<u32, WrappedPtr>) -> bool {
    forall|k: int, i: int|
        0 <= k < lists.len() && 0 <= i < lists[k].len() ==> apart_from_allocs(
            allocs,
            (#[trigger] lists[k][i]).ptr.offset as int,
            block_size(k as nat) as int,
        ) && id_not_allocated(allocs, lists[k][i].id)
}

/// Whether the ids in use are those of the free blocks and the allocations,
/// all below the next new id and none disposed, and the disposed ids are
/// distinct and below the next new id.
#[verifier::opaque]
pub open spec fn ids_ok(lists: Seq<Seq<WrappedPtr>>, allocs: Map<u32, WrappedPtr>, next: nat, disposed: Seq<u32>) -> bool {
    &&& disposed.no_duplicates()
    &&& forall|j: int| 0 <= j < disposed.len() ==> (#[trigger] disposed[j]) < next
    &&& forall|k: int, i: int|
        0 <= k < lists.len() && 0 <= i < lists[k].len() ==> id_live(next, disposed, (#[trigger] lists[k][i]).id)
    &&& forall|off: u32| #[trigger] allocs.contains_key(off) ==> id_live(next, disposed, allocs[off].id)
}

impl AllocatorModel {
    /// No two blocks of the allocator, free or allocated, overlap or share an
    /// id, and the disposed ids are not in use.
    pub open spec fn blocks_apart(self) -> bool {
        &&& free_apart(self.free_lists)
        &&& allocs_apart(self.allocations)
        &&& free_apart_from_allocs(self.free_lists, self.allocations)
        &&& ids_ok(self.free_lists, self.allocations, self.next_ptr_id, self.disposed_ptr_ids)
    }

    /// A block being moved, at `o` of `s` bytes with the id `id`: it overlaps
    /// no block of the allocator, shares no id, and its id is in use.
    pub open spec fn pending(self, o: int, s: int, id: u32) -> bool {
        &&& apart_from_free(self.free_lists, o, s)
        &&& id_not_free(self.free_lists, id)
        &&& apart_from_allocs(self.allocations, o, s)
        &&& id_not_allocated(self.allocations, id)
        &&& id_live(self.next_ptr_id, self.disposed_ptr_ids, id)
    }
}

/// Pushing a block that overlaps no free block and shares no id keeps the
/// free blocks apart, and apart from the allocations where it is.
proof fn lemma_push_apart(lists: Seq<Seq<WrappedPtr>>, allocs: Map<u32, WrappedPtr>, k: int, b: WrappedPtr)
    requires
        0 <= k < lists.len(),
        free_apart(lists),
        apart_from_free(lists, b.ptr.offset as int, block_size(k as nat) as int),
        id_not_free(lists, b.id),
    ensures
        free_apart(lists.update(k, lists[k].push(b))),
        free_apart_from_allocs(lists, allocs) && apart_from_allocs(allocs, b.ptr.offset as int, block_size(k as nat) as int)
            && id_not_allocated(allocs, b.id) ==> free_apart_from_allocs(lists.update(k, lists[k].push(b)), allocs),
{
    reveal(free_apart);
    reveal(free_apart_from_allocs);
    let r = lists.update(k, lists[k].push(b));
    let n = lists[k].len() as int;
    assert forall|k1: int, i1: int, k2: int, i2: int|
        0 <= k1 < r.len() && 0 <= i1 < r[k1].len() && 0 <= k2 < r.len() && 0 <= i2 < r[k2].len() && (k1
            != k2 || i1 != i2) implies apart(
        (#[trigger] r[k1][i1]).ptr.offset as int,
        block_size(k1 as nat) as int,
        (#[trigger] r[k2][i2]).ptr.offset as int,
        block_size(k2 as nat) as int,
    ) && r[k1][i1].id != r[k2][i2].id by {
        let new1 = k1 == k && i1 == n;
        let new2 = k2 == k && i2 == n;
        if !new1 {
            assert(r[k1][i1] == lists[k1][i1]);
        }
        if !new2 {
            assert(r[k2][i2] == lists[k2][i2]);
        }
    }
    if free_apart_from_allocs(lists, allocs) && apart_from_allocs(allocs, b.ptr.offset as int, block_size(k as nat) as int)
        && id_not_allocated(allocs, b.id) {
        assert forall|k1: int, i1: int| 0 <= k1 < r.len() && 0 <= i1 < r[k1].len() implies apart_from_allocs(
            allocs,
            (#[trigger] r[k1][i1]).ptr.offset as int,
            block_size(k1 as nat) as int,
        ) && id_not_allocated(allocs, r[k1][i1].id) by {
            if !(k1 == k && i1 == n) {
                assert(r[k1][i1] == lists[k1][i1]);
            }
        }
    }
}

/// After a block is taken off a free list, the others stay apart, the block
/// taken lies apart from them with an id of its own, and what lay apart from
/// every free block still does.
proof fn lemma_remove_apart(lists: Seq<Seq<WrappedPtr>>, allocs: Map<u32, WrappedPtr>, k: int, i: int)
    requires
        0 <= k < lists.len(),
        0 <= i < lists[k].len(),
        free_apart(lists),
    ensures
        ({
            let r = lists.update(k, lists[k].remove(i));
            let b = lists[k][i];
            &&& free_apart(r)
            &&& apart_from_free(r, b.ptr.offset as int, block_size(k as nat) as int)
            &&& id_not_free(r, b.id)
            &&& free_apart_from_allocs(lists, allocs) ==> free_apart_from_allocs(r, allocs) && apart_from_allocs(
                allocs,
                b.ptr.offset as int,
                block_size(k as nat) as int,
            ) && id_not_allocated(allocs, b.id)
            &&& forall|o: int, s: int| apart_from_free(lists, o, s) ==> #[trigger] apart_from_free(r, o, s)
            &&& forall|id: u32| id_not_free(lists, id) ==> #[trigger] id_not_free(r, id)
        }),
{
    reveal(free_apart);
    reveal(free_apart_from_allocs);
    let r = lists.update(k, lists[k].remove(i));
    let b = lists[k][i];
    // Where a block of the shorter lists came from.
    assert forall|k1: int, i1: int| 0 <= k1 < r.len() && 0 <= i1 < r[k1].len() implies (#[trigger] r[k1][i1])
        == lists[k1][if k1 == k && i1 >= i { i1 + 1 } else { i1 }] by {}
    assert forall|k1: int, i1: int, k2: int, i2: int|
        0 <= k1 < r.len() && 0 <= i1 < r[k1].len() && 0 <= k2 < r.len() && 0 <= i2 < r[k2].len() && (k1
            != k2 || i1 != i2) implies apart(
        (#[trigger] r[k1][i1]).ptr.offset as int,
        block_size(k1 as nat) as int,
        (#[trigger] r[k2][i2]).ptr.offset as int,
        block_size(k2 as nat) as int,
    ) && r[k1][i1].id != r[k2][i2].id by {
        let j1 = if k1 == k && i1 >= i { i1 + 1 } else { i1 };
        let j2 = if k2 == k && i2 >= i { i2 + 1 } else { i2 };
        assert(lists[k1][j1] == r[k1][i1]);
        assert(lists[k2][j2] == r[k2][i2]);
    }
    assert forall|k1: int, i1: int| 0 <= k1 < r.len() && 0 <= i1 < r[k1].len() implies apart(
        (#[trigger] r[k1][i1]).ptr.offset as int,
        block_size(k1 as nat) as int,
        b.ptr.offset as int,
        block_size(k as nat) as int,
    ) && r[k1][i1].id != b.id by {
        let j1 = if k1 == k && i1 >= i { i1 + 1 } else { i1 };
        assert(lists[k1][j1] == r[k1][i1]);
    }
    assert forall|o: int, s: int| apart_from_free(lists, o, s) implies #[trigger] apart_from_free(r, o, s) by {
        assert forall|k1: int, i1: int| 0 <= k1 < r.len() && 0 <= i1 < r[k1].len() implies apart(
            (#[trigger] r[k1][i1]).ptr.offset as int,
            block_size(k1 as nat) as int,
            o,
            s,
        ) by {
            let j1 = if k1 == k && i1 >= i { i1 + 1 } else { i1 };
            assert(lists[k1][j1] == r[k1][i1]);
        }
    }
    assert forall|id: u32| id_not_free(lists, id) implies #[trigger] id_not_free(r, id) by {
        assert forall|k1: int, i1: int| 0 <= k1 < r.len() && 0 <= i1 < r[k1].len() implies (#[trigger] r[k1][i1]).id
            != id by {
            let j1 = if k1 == k && i1 >= i { i1 + 1 } else { i1 };
            assert(lists[k1][j1] == r[k1][i1]);
        }
    }
    if free_apart_from_allocs(lists, allocs) {
        assert forall|k1: int, i1: int| 0 <= k1 < r.len() && 0 <= i1 < r[k1].len() implies apart_from_allocs(
            allocs,
            (#[trigger] r[k1][i1]).ptr.offset as int,
            block_size(k1 as nat) as int,
        ) && id_not_allocated(allocs, r[k1][i1].id) by {
            let j1 = if k1 == k && i1 >= i { i1 + 1 } else { i1 };
            assert(lists[k1][j1] == r[k1][i1]);
        }
    }
}

/// A range inside one that overlaps no block overlaps none either.
proof fn lemma_sub_range_apart(m: AllocatorModel, o: int, s: int, o2: int, s2: int)
    requires
        o <= o2,
        o2 + s2 <= o + s,
        0 <= s2,
    ensures
        apart_from_free(m.free_lists, o, s) ==> apart_from_free(m.free_lists, o2, s2),
        apart_from_allocs(m.allocations, o, s) ==> apart_from_allocs(m.allocations, o2, s2),
{
}

/// An id not in use is no free block's and no allocation's.
proof fn lemma_unused_id(lists: Seq<Seq<WrappedPtr>>, allocs: Map<u32, WrappedPtr>, next: nat, disposed: Seq<u32>, id: u32)
    requires
        ids_ok(lists, allocs, next, disposed),
        !id_live(next, disposed, id),
    ensures
        id_not_free(lists, id),
        id_not_allocated(allocs, id),
{
    reveal(ids_ok);
    assert forall|k: int, i: int| 0 <= k < lists.len() && 0 <= i < lists[k].len() implies (#[trigger] lists[k][i]).id
        != id by {
        assert(id_live(next, disposed, lists[k][i].id));
    }
    assert forall|off: u32| #[trigger] allocs.contains_key(off) implies allocs[off].id != id by {
        assert(id_live(next, disposed, allocs[off].id));
    }
}

/// Pushing a block whose id is in use keeps the ids in order.
proof fn lemma_push_ids(lists: Seq<Seq<WrappedPtr>>, allocs: Map<u32, WrappedPtr>, next: nat, disposed: Seq<u32>, k: int, b: WrappedPtr)
    requires
        0 <= k < lists.len(),
        ids_ok(lists, allocs, next, disposed),
        id_live(next, disposed, b.id),
    ensures
        ids_ok(lists.update(k, lists[k].push(b)), allocs, next, disposed),
{
    reveal(ids_ok);
    let r = lists.update(k, lists[k].push(b));
    assert forall|k1: int, i1: int| 0 <= k1 < r.len() && 0 <= i1 < r[k1].len() implies id_live(
        next,
        disposed,
        (#[trigger] r[k1][i1]).id,
    ) by {
        if !(k1 == k && i1 == lists[k].len()) {
            assert(r[k1][i1] == lists[k1][i1]);
        }
    }
}

/// Taking a block off a free list keeps the ids in order.
proof fn lemma_remove_ids(lists: Seq<Seq<WrappedPtr>>, allocs: Map<u32, WrappedPtr>, next: nat, disposed: Seq<u32>, k: int, i: int)
    requires
        0 <= k < lists.len(),
        0 <= i < lists[k].len(),
        ids_ok(lists, allocs, next, disposed),
    ensures
        ids_ok(lists.update(k, lists[k].remove(i)), allocs, next, disposed),
        id_live(next, disposed, lists[k][i].id),
{
    reveal(ids_ok);
    let r = lists.update(k, lists[k].remove(i));
    assert forall|k1: int, i1: int| 0 <= k1 < r.len() && 0 <= i1 < r[k1].len() implies id_live(
        next,
        disposed,
        (#[trigger] r[k1][i1]).id,
    ) by {
        let j1 = if k1 == k && i1 >= i { i1 + 1 } else { i1 };
        assert(lists[k1][j1] == r[k1][i1]);
    }
}

/// Handing out the next id: it was not in use, it is afterwards, and what was
/// in use stays so.
proof fn lemma_take_id(m: AllocatorModel)
    requires
        ids_ok(m.free_lists, m.allocations, m.next_ptr_id, m.disposed_ptr_ids),
        m.id_available(),
    ensures
        ({
            let t = m.take_id();
            let nid = m.next_id();
            &&& !id_live(m.next_ptr_id, m.disposed_ptr_ids, nid)
            &&& id_live(t.next_ptr_id, t.disposed_ptr_ids, nid)
            &&& forall|id: u32|
                id_live(m.next_ptr_id, m.disposed_ptr_ids, id) ==> #[trigger] id_live(
                    t.next_ptr_id,
                    t.disposed_ptr_ids,
                    id,
                )
            &&& ids_ok(t.free_lists, t.allocations, t.next_ptr_id, t.disposed_ptr_ids)
            &&& t.free_lists == m.free_lists
            &&& t.allocations == m.allocations
            &&& t.size == m.size
        }),
{
    reveal(ids_ok);
    let t = m.take_id();
    let d = m.disposed_ptr_ids;
    let nid = m.next_id();
    if d.len() > 0 {
        let dl = d.drop_last();
        assert(d.contains(nid)) by {
            assert(d[d.len() - 1] == nid);
        }
        assert forall|id: u32| #[trigger] dl.contains(id) implies d.contains(id) by {
            let j = choose|j: int| 0 <= j < dl.len() && dl[j] == id;
            assert(d[j] == id);
        }
        assert(!dl.contains(nid)) by {
            if dl.contains(nid) {
                let j = choose|j: int| 0 <= j < dl.len() && dl[j] == nid;
                assert(d[j] == d[d.len() - 1]);
            }
        }
        assert forall|j: int| 0 <= j < dl.len() implies (#[trigger] dl[j]) < t.next_ptr_id by {
            assert(d[j] == dl[j]);
        }
        assert(dl.no_duplicates()) by {
            assert forall|i: int, j: int| 0 <= i < dl.len() && 0 <= j < dl.len() && i != j implies dl[i] != dl[j] by {
                assert(d[i] == dl[i] && d[j] == dl[j]);
            }
        }
        assert(nid < m.next_ptr_id) by {
            assert(d[d.len() - 1] == nid);
        }
    }
    assert forall|k: int, i: int|
        0 <= k < t.free_lists.len() && 0 <= i < t.free_lists[k].len() implies id_live(
        t.next_ptr_id,
        t.disposed_ptr_ids,
        (#[trigger] t.free_lists[k][i]).id,
    ) by {
        assert(id_live(m.next_ptr_id, d, m.free_lists[k][i].id));
    }
    assert forall|off: u32| #[trigger] t.allocations.contains_key(off) implies id_live(
        t.next_ptr_id,
        t.disposed_ptr_ids,
        t.allocations[off].id,
    ) by {
        assert(id_live(m.next_ptr_id, d, m.allocations[off].id));
    }
}

/// Splitting a block that is being moved leaves the blocks apart, and the
/// lower part, of the order needed, still being moved with the same id.
proof fn lemma_split_apart(m: AllocatorModel, offset: nat, order: nat, needed: nat, id: u32)
    requires
        m.blocks_apart(),
        m.pending(offset as int, block_size(order) as int, id),
        m.can_split(offset, order, needed),
        needed <= order,
    ensures
        m.split(offset, order, needed).blocks_apart(),
        m.split(offset, order, needed).pending(offset as int, block_size(needed) as int, id),
    decreases order,
{
    if order > needed {
        let k = (order - 1) as nat;
        let t = m.take_id();
        let h = m.upper_half(offset, k);
        let bs = block_size(k) as int;
        lemma_pow2_unfold(3 + order);
        lemma_pow2_pos(3 + k);
        lemma_take_id(m);
        assert(h.ptr.offset as int == offset + bs);
        lemma_unused_id(m.free_lists, m.allocations, m.next_ptr_id, m.disposed_ptr_ids, h.id);
        lemma_sub_range_apart(m, offset as int, block_size(order) as int, offset + bs, bs);
        lemma_sub_range_apart(m, offset as int, block_size(order) as int, offset as int, bs);
        lemma_push_apart(t.free_lists, t.allocations, k as int, h);
        lemma_push_ids(t.free_lists, t.allocations, t.next_ptr_id, t.disposed_ptr_ids, k as int, h);
        let n = t.push_free(k as int, h);
        assert(n.blocks_apart());
        assert(apart_from_free(n.free_lists, offset as int, bs)) by {
            assert forall|k1: int, i1: int|
                0 <= k1 < n.free_lists.len() && 0 <= i1 < n.free_lists[k1].len() implies apart(
                (#[trigger] n.free_lists[k1][i1]).ptr.offset as int,
                block_size(k1 as nat) as int,
                offset as int,
                bs,
            ) by {
                if !(k1 == k && i1 == m.free_lists[k as int].len()) {
                    assert(n.free_lists[k1][i1] == m.free_lists[k1][i1]);
                }
            }
        }
        assert(id_not_free(n.free_lists, id)) by {
            assert forall|k1: int, i1: int|
                0 <= k1 < n.free_lists.len() && 0 <= i1 < n.free_lists[k1].len() implies (#[trigger] n.free_lists[k1][i1]).id
                != id by {
                if !(k1 == k && i1 == m.free_lists[k as int].len()) {
                    assert(n.free_lists[k1][i1] == m.free_lists[k1][i1]);
                }
            }
        }
        assert(n.pending(offset as int, bs, id));
        lemma_split_apart(n, offset, k, needed, id);
    }
}

/// Whether every allocation takes some memory.
pub open spec fn allocs_sized(allocs: Map<u32, WrappedPtr>) -> bool {
    forall|off: u32| #[trigger] allocs.contains_key(off) ==> allocs[off].size > 0
}

/// Recording a block being moved as an allocation keeps the blocks apart.
proof fn lemma_insert_alloc_apart(s: AllocatorModel, off: u32, a: WrappedPtr)
    requires
        s.blocks_apart(),
        s.pending(off as int, a.size as int, a.id),
    ensures
        (AllocatorModel { allocations: s.allocations.insert(off, a), ..s }).blocks_apart(),
{
    reveal(allocs_apart);
    reveal(free_apart_from_allocs);
    reveal(ids_ok);
    let n = AllocatorModel { allocations: s.allocations.insert(off, a), ..s };
    let al = n.allocations;
    assert forall|o1: u32, o2: u32| #[trigger] al.contains_key(o1) && #[trigger] al.contains_key(o2) && o1 != o2 implies apart(
        o1 as int,
        al[o1].size as int,
        o2 as int,
        al[o2].size as int,
    ) && al[o1].id != al[o2].id by {
        if o1 != off && o2 != off {
            assert(s.allocations.contains_key(o1) && s.allocations.contains_key(o2));
        } else if o1 == off {
            assert(s.allocations.contains_key(o2));
        } else {
            assert(s.allocations.contains_key(o1));
        }
    }
    let lists = s.free_lists;
    assert forall|k: int, i: int| 0 <= k < lists.len() && 0 <= i < lists[k].len() implies apart_from_allocs(
        al,
        (#[trigger] lists[k][i]).ptr.offset as int,
        block_size(k as nat) as int,
    ) && id_not_allocated(al, lists[k][i].id) by {
        assert(apart_from_allocs(s.allocations, lists[k][i].ptr.offset as int, block_size(k as nat) as int));
        assert(id_not_allocated(s.allocations, lists[k][i].id));
        assert forall|o: u32| #[trigger] al.contains_key(o) implies apart(
            o as int,
            al[o].size as int,
            lists[k][i].ptr.offset as int,
            block_size(k as nat) as int,
        ) && al[o].id != lists[k][i].id by {
            if o != off {
                assert(s.allocations.contains_key(o));
            }
        }
    }
    assert forall|o: u32| #[trigger] al.contains_key(o) implies id_live(n.next_ptr_id, n.disposed_ptr_ids, al[o].id) by {
        if o != off {
            assert(s.allocations.contains_key(o));
        }
    }
}

/// Forgetting an allocation keeps the blocks apart, and its block is then
/// being moved.
proof fn lemma_remove_alloc_apart(m: AllocatorModel, off: u32)
    requires
        m.blocks_apart(),
        m.allocations.contains_key(off),
    ensures
        ({
            let a = m.allocations[off];
            let n = AllocatorModel { allocations: m.allocations.remove(off), ..m };
            &&& n.blocks_apart()
            &&& n.pending(off as int, a.size as int, a.id)
        }),
{
    reveal(allocs_apart);
    reveal(free_apart_from_allocs);
    reveal(ids_ok);
    let a = m.allocations[off];
    let n = AllocatorModel { allocations: m.allocations.remove(off), ..m };
    let al = n.allocations;
    let lists = m.free_lists;
    assert forall|k: int, i: int| 0 <= k < lists.len() && 0 <= i < lists[k].len() implies apart_from_allocs(
        al,
        (#[trigger] lists[k][i]).ptr.offset as int,
        block_size(k as nat) as int,
    ) && id_not_allocated(al, lists[k][i].id) by {
        assert(apart_from_allocs(m.allocations, lists[k][i].ptr.offset as int, block_size(k as nat) as int));
        assert(id_not_allocated(m.allocations, lists[k][i].id));
    }
    assert forall|k: int, i: int| 0 <= k < lists.len() && 0 <= i < lists[k].len() implies apart(
        (#[trigger] lists[k][i]).ptr.offset as int,
        block_size(k as nat) as int,
        off as int,
        a.size as int,
    ) && lists[k][i].id != a.id by {
        assert(apart_from_allocs(m.allocations, lists[k][i].ptr.offset as int, block_size(k as nat) as int));
        assert(id_not_allocated(m.allocations, lists[k][i].id));
    }
    assert forall|o: u32| #[trigger] al.contains_key(o) implies apart(o as int, al[o].size as int, off as int, a.size as int)
        && al[o].id != a.id by {
        assert(m.allocations.contains_key(o) && m.allocations.contains_key(off) && o != off);
    }
    assert forall|o: u32| #[trigger] al.contains_key(o) implies id_live(n.next_ptr_id, n.disposed_ptr_ids, al[o].id) by {
        assert(m.allocations.contains_key(o));
    }
    assert(id_live(m.next_ptr_id, m.disposed_ptr_ids, a.id));
}

/// Disposing of an id that no block has any more keeps the ids in order.
proof fn lemma_dispose_id(lists: Seq<Seq<WrappedPtr>>, allocs: Map<u32, WrappedPtr>, next: nat, disposed: Seq<u32>, d: u32)
    requires
        ids_ok(lists, allocs, next, disposed),
        id_live(next, disposed, d),
        id_not_free(lists, d),
        id_not_allocated(allocs, d),
    ensures
        ids_ok(lists, allocs, next, disposed.push(d)),
        forall|id: u32| id_live(next, disposed, id) && id != d ==> #[trigger] id_live(next, disposed.push(d), id),
{
    reveal(ids_ok);
    let nd = disposed.push(d);
    assert forall|id: u32| #[trigger] nd.contains(id) implies disposed.contains(id) || id == d by {
        let j = choose|j: int| 0 <= j < nd.len() && nd[j] == id;
        if j < disposed.len() {
            assert(disposed[j] == id);
        }
    }
    assert(nd.no_duplicates()) by {
        assert forall|i: int, j: int| 0 <= i < nd.len() && 0 <= j < nd.len() && i != j implies nd[i] != nd[j] by {
            if i == disposed.len() {
                assert(disposed.contains(nd[j]) ==> nd[i] != nd[j]);
            } else if j == disposed.len() {
                assert(disposed.contains(nd[i]) ==> nd[i] != nd[j]);
            }
        }
    }
    assert forall|j: int| 0 <= j < nd.len() implies (#[trigger] nd[j]) < next by {
        if j < disposed.len() {
            assert(nd[j] == disposed[j]);
        }
    }
    assert forall|k: int, i: int| 0 <= k < lists.len() && 0 <= i < lists[k].len() implies id_live(
        next,
        nd,
        (#[trigger] lists[k][i]).id,
    ) by {
        assert(id_live(next, disposed, lists[k][i].id));
    }
    assert forall|off: u32| #[trigger] allocs.contains_key(off) implies id_live(next, nd, allocs[off].id) by {
        assert(id_live(next, disposed, allocs[off].id));
    }
}

/// Two adjacent halves that each overlap no block make a whole that overlaps none.
proof fn lemma_union_apart(m: AllocatorModel, x: int, b: int)
    requires
        b > 0,
        allocs_sized(m.allocations),
        apart_from_free(m.free_lists, x, b),
        apart_from_free(m.free_lists, x + b, b),
        apart_from_allocs(m.allocations, x, b),
        apart_from_allocs(m.allocations, x + b, b),
    ensures
        apart_from_free(m.free_lists, x, 2 * b),
        apart_from_allocs(m.allocations, x, 2 * b),
{
    let lists = m.free_lists;
    assert forall|k: int, i: int| 0 <= k < lists.len() && 0 <= i < lists[k].len() implies apart(
        (#[trigger] lists[k][i]).ptr.offset as int,
        block_size(k as nat) as int,
        x,
        2 * b,
    ) by {
        lemma_pow2_pos(3 + k as nat);
        assert(apart(lists[k][i].ptr.offset as int, block_size(k as nat) as int, x + b, b));
    }
    assert forall|o: u32| #[trigger] m.allocations.contains_key(o) implies apart(
        o as int,
        m.allocations[o].size as int,
        x,
        2 * b,
    ) by {
        assert(apart(o as int, m.allocations[o].size as int, x + b, b));
    }
}

/// Merging a block being moved from order `k` on keeps the blocks apart: its
/// buddy is the one free block at the flipped offset, the only free block
/// with the buddy's id, so it is the one taken off its list, and the merged
/// block covers just the two.
#[verifier::spinoff_prover]
#[verifier::rlimit(100)]
proof fn lemma_merge_apart(m: AllocatorModel, block: WrappedPtr, k: nat)
    requires
        m.blocks_apart(),
        m.pending(block.ptr.offset as int, block_size(k) as int, block.id),
        allocs_sized(m.allocations),
        lists_placed(m.free_lists, m.size),
        placed_at(block.ptr.offset as nat, k, m.size),
        m.free_lists.len() >= 1,
        m.size == block_size((m.free_lists.len() - 1) as nat),
        m.size <= 0x8000_0000,
        k < m.free_lists.len(),
        m.merge(block, k) is Some,
    ensures
        m.merge(block, k).unwrap().blocks_apart(),
    decreases m.free_lists.len() - k,
{
    let found = m.buddy_of(k, block) is Some && first_with_id(
        m.free_lists[k as int],
        m.buddy_of(k, block).unwrap().id,
    ) is Some;
    if found {
        let buddy = m.buddy_of(k, block).unwrap();
        let list = m.free_lists[k as int];
        let i = first_with_id(list, buddy.id).unwrap();
        lemma_merge_step(m, block, k);
        let bs = block_size(k);
        let j = first_at_offset(list, block.ptr.offset ^ (bs as u32)).unwrap();
        lemma_first_match_some(list, |b: WrappedPtr| b.ptr.offset == block.ptr.offset ^ (bs as u32));
        lemma_first_match_some(list, |b: WrappedPtr| b.id == buddy.id);
        assert(buddy == list[j]);
        assert(list[i].id == buddy.id);
        assert(i == j) by {
            reveal(free_apart);
            if i != j {
                assert(m.free_lists[k as int][i].id != m.free_lists[k as int][j].id);
            }
        }
        lemma_placed_block(m.free_lists, m.size, k as int, j);
        lemma_buddies_merge_placed(block.ptr.offset, buddy.ptr.offset, k, m.size);
        lemma_pow2_pos(3 + k);
        lemma_remove_placed(m.free_lists, m.size, k as int, i);
        lemma_remove_apart(m.free_lists, m.allocations, k as int, i);
        lemma_remove_ids(m.free_lists, m.allocations, m.next_ptr_id, m.disposed_ptr_ids, k as int, i);
        let r = m.remove_free(k as int, i);
        assert(block.id != buddy.id);
        let doubled = (block.ptr.len * 2) as u32;
        let x = block.ptr.offset as int;
        let y = buddy.ptr.offset as int;
        // The block itself still lies apart from what is left.
        assert(apart_from_free(r.free_lists, x, bs as int));
        assert(id_not_free(r.free_lists, block.id));
        if x < y {
            lemma_union_apart(r, x, bs as int);
            lemma_dispose_id(r.free_lists, r.allocations, r.next_ptr_id, r.disposed_ptr_ids, buddy.id);
            let next = AllocatorModel { disposed_ptr_ids: r.disposed_ptr_ids.push(buddy.id), ..r };
            let merged = WrappedPtr { size: doubled, ptr: Ptr { offset: block.ptr.offset, len: doubled }, ..block };
            assert(next.blocks_apart());
            assert(next.pending(x, block_size(k + 1) as int, merged.id));
            lemma_merge_apart(next, merged, k + 1);
        } else {
            lemma_union_apart(r, y, bs as int);
            lemma_dispose_id(r.free_lists, r.allocations, r.next_ptr_id, r.disposed_ptr_ids, block.id);
            let next = AllocatorModel { disposed_ptr_ids: r.disposed_ptr_ids.push(block.id), ..r };
            let merged = WrappedPtr { size: doubled, ptr: Ptr { offset: buddy.ptr.offset, len: doubled }, ..buddy };
            assert(next.blocks_apart());
            assert(next.pending(y, block_size(k + 1) as int, merged.id));
            lemma_merge_apart(next, merged, k + 1);
        }
    } else {
        lemma_merge_stop(m, block, k);
        lemma_push_apart(m.free_lists, m.allocations, k as int, block);
        lemma_push_ids(m.free_lists, m.allocations, m.next_ptr_id, m.disposed_ptr_ids, k as int, block);
    }
}

/// A fresh allocator's one free block overlaps nothing.
pub proof fn law_fresh_apart(size: u32)
    requires
        is_pow2(size as int),
        size >= 8,
    ensures
        AllocatorModel::fresh(size).blocks_apart(),
{
    let m = AllocatorModel::fresh(size);
    lemma_u32_pow2_log(size);
    assert(m.wf());
    lemma_wf_top(m);
    reveal(free_apart);
    reveal(allocs_apart);
    reveal(free_apart_from_allocs);
    reveal(ids_ok);
    assert(m.disposed_ptr_ids =~= Seq::<u32>::empty());
}

/// An allocation hands out a block that overlaps no block still allocated and
/// shares no id with one, and the allocator's blocks stay apart.
pub proof fn law_allocate_apart(m: AllocatorModel, size: nat)
    requires
        m.wf(),
        m.placed(),
        m.blocks_apart(),
        m.can_allocate(size),
    ensures
        ({
            let b = m.allocated_block(size);
            forall|off: u32| #[trigger]
                m.allocations.contains_key(off) ==> apart(
                    off as int,
                    m.allocations[off].size as int,
                    b.ptr.offset as int,
                    b.size as int,
                ) && m.allocations[off].id != b.id
        }),
        m.after_allocate(size).blocks_apart(),
{
    let needed = m.allocation_order(size).unwrap();
    let o = m.source_order(size).unwrap();
    lemma_first_nonempty(m.free_lists, needed);
    lemma_order_in_range(m, size);
    let list = m.free_lists[o as int];
    let n = list.len() - 1;
    let b0 = list.last();
    assert(b0 == m.free_lists[o as int][n]);
    assert(list.drop_last() =~= list.remove(n));
    lemma_remove_apart(m.free_lists, m.allocations, o as int, n);
    lemma_remove_ids(m.free_lists, m.allocations, m.next_ptr_id, m.disposed_ptr_ids, o as int, n);
    let p = m.pop_free(o as int);
    assert(p.free_lists == m.free_lists.update(o as int, list.remove(n)));
    assert(p.blocks_apart());
    assert(p.pending(b0.ptr.offset as int, block_size(o) as int, b0.id));
    lemma_split_apart(p, b0.ptr.offset as nat, o, needed, b0.id);
    lemma_split_frame(p, b0.ptr.offset as nat, o, needed);
    let s = p.split(b0.ptr.offset as nat, o, needed);
    lemma_wf_top(m);
    let a = m.allocated_block(size);
    lemma_block_order(m, needed);
    assert(a.size as nat == block_size(needed));
    lemma_insert_alloc_apart(s, b0.ptr.offset, a);
    assert(m.after_allocate(size) == AllocatorModel { allocations: s.allocations.insert(b0.ptr.offset, a), ..s });
}

/// Freeing an allocation keeps the allocator's blocks apart.
pub proof fn law_deallocate_apart(m: AllocatorModel, ptr: WrappedPtr)
    requires
        m.wf(),
        m.placed(),
        m.blocks_apart(),
        m.allocations.contains_key(ptr.ptr.offset),
        m.allocations[ptr.ptr.offset] == ptr,
        m.after_deallocate(ptr) is Some,
    ensures
        m.after_deallocate(ptr).unwrap().blocks_apart(),
{
    let o = m.allocation_order(ptr.size as nat).unwrap();
    lemma_order_in_range(m, ptr.size as nat);
    lemma_wf_top(m);
    lemma_remove_alloc_apart(m, ptr.ptr.offset);
    let m1 = AllocatorModel { allocations: m.allocations.remove(ptr.ptr.offset), ..m };
    assert forall|off: u32| #[trigger] m1.allocations.contains_key(off) implies m1.allocations[off].size > 0 by {
        assert(m.allocations.contains_key(off));
        let e = m.allocations[off];
        lemma_pow2_pos(3 + m.allocation_order(e.size as nat)->0);
    }
    lemma_merge_apart(m1, ptr, o);
}

} // verus!
