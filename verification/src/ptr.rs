//! Pointers into WebAssembly linear memory.
use vstd::prelude::*;

verus! {

/// A pointer into linear memory: an offset and the length of the data found there.
#[derive(Debug, Clone, Copy, PartialEq, Eq, Structural)]
pub struct Ptr {
    pub offset: u32,
    pub len: u32,
}

impl Ptr {
    /// Creates a pointer to `len` bytes starting at `offset`.
    pub fn new(offset: u32, len: u32) -> (p: Ptr)
        ensures
            p == (Ptr { offset, len }),
    {
        Ptr { offset, len }
    }

    /// Sets the length of the data this pointer points to.
    pub fn set_len(&mut self, len: u32)
        ensures
            *final(self) == (Ptr { offset: old(self).offset, len }),
    {
        self.len = len;
    }

    /// The offset, as the `i32` that WebAssembly passes around (the same 32 bits).
    pub fn offset_i32(&self) -> (r: i32)
        ensures
            r == self.offset as i32,
    {
        self.offset as i32
    }

    /// The length, as the `i32` that WebAssembly passes around (the same 32 bits).
    pub fn len_i32(&self) -> (r: i32)
        ensures
            r == self.len as i32,
    {
        self.len as i32
    }
}

} // verus!
