//! The state the host keeps for a running contract.
use vstd::prelude::*;

use crate::allocator::WasmAllocator;
use crate::values::ValuesContext;
use crate::value::ValueModel;

verus! {

/// The host's state while a contract runs: the allocator of its memory and
/// the table of values it refers to by pointer.
#[derive(Debug)]
pub struct ClarityWasmContext {
    pub alloc: WasmAllocator,
    pub values: ValuesContext,
}

impl ClarityWasmContext {
    /// A fresh state: nothing allocated and an empty value table.
    pub fn new() -> (c: Self)
        ensures
            c.alloc.next_offset == 0,
            c.values@.wf(),
            c.values@.values == Seq::<Option<ValueModel>>::empty(),
            c.values@.tombstones == Seq::<i32>::empty(),
    {
        ClarityWasmContext { alloc: WasmAllocator::new(), values: ValuesContext::new() }
    }
}

impl Default for ClarityWasmContext {
    fn default() -> (c: Self)
        ensures
            c.alloc.next_offset == 0,
            c.values@.wf(),
            c.values@.values == Seq::<Option<ValueModel>>::empty(),
            c.values@.tombstones == Seq::<i32>::empty(),
    {
        ClarityWasmContext::new()
    }
}

} // verus!
