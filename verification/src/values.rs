//! A table of values that WebAssembly refers to by index.
use vstd::prelude::*;

use crate::value::{Value, ValueModel};

verus! {

/// A table of owned values, addressed by `i32` pointers. Freed slots are
/// remembered ("tombstones") and handed out again, most recently freed first.
#[derive(Debug)]
pub struct ValuesContext {
    owned_values: Vec<Option<Value>>,
    tombstones: Vec<i32>,
}

/// The state of a [`ValuesContext`]: its slots and its freed slots.
pub ghost struct ValuesModel {
    pub values: Seq<Option<ValueModel>>,
    pub tombstones: Seq<i32>,
}

/// The model of a slot.
pub open spec fn slot_model(slot: Option<Value>) -> Option<ValueModel> {
    match slot {
        Some(v) => Some(v@),
        None => None,
    }
}

impl View for ValuesContext {
    type V = ValuesModel;

    closed spec fn view(&self) -> ValuesModel {
        ValuesModel {
            values: self.owned_values@.map_values(|s: Option<Value>| slot_model(s)),
            tombstones: self.tombstones@,
        }
    }
}

impl ValuesModel {
    /// Every freed slot is a slot of the table.
    pub open spec fn wf(self) -> bool {
        forall|i: int| 0 <= i < self.tombstones.len() ==> 0 <= #[trigger] self.tombstones[i] < self.values.len()
    }

    /// Whether `ptr` is a slot of the table.
    pub open spec fn valid(self, ptr: i32) -> bool {
        0 <= ptr < self.values.len()
    }

    /// The slot the next push or new pointer takes: the most recently freed
    /// one, else a new slot at the end.
    pub open spec fn next_slot(self) -> i32 {
        if self.tombstones.len() > 0 {
            self.tombstones.last()
        } else {
            self.values.len() as i32
        }
    }

    /// The state after a new slot is taken and set to `v`.
    pub open spec fn after_take_slot(self, v: Option<ValueModel>) -> ValuesModel {
        if self.tombstones.len() > 0 {
            ValuesModel {
                values: self.values.update(self.tombstones.last() as int, v),
                tombstones: self.tombstones.drop_last(),
            }
        } else {
            ValuesModel { values: self.values.push(v), tombstones: self.tombstones }
        }
    }

    /// The state after `ptr` is freed.
    pub open spec fn after_drop(self, ptr: i32) -> ValuesModel {
        ValuesModel { values: self.values.update(ptr as int, None), tombstones: self.tombstones.push(ptr) }
    }
}

impl ValuesContext {
    /// An empty table.
    pub fn new() -> (c: Self)
        ensures
            c@.wf(),
            c@.values == Seq::<Option<ValueModel>>::empty(),
            c@.tombstones == Seq::<i32>::empty(),
    {
        let c = ValuesContext { owned_values: Vec::new(), tombstones: Vec::new() };
        assert(c@.values =~= Seq::<Option<ValueModel>>::empty());
        c
    }

    /// Puts `value` into the slot `ptr`.
    pub fn set(&mut self, ptr: i32, value: Value) -> (r: &mut Self)
        requires
            old(self)@.wf(),
            old(self)@.valid(ptr),
        ensures
            r@.wf(),
            r@ == (ValuesModel {
                values: old(self)@.values.update(ptr as int, Some(value@)),
                tombstones: old(self)@.tombstones,
            }),
            *final(self) == *final(r),
    {
        self.owned_values.set(ptr as usize, Some(value));
        assert(self@.values =~= old(self)@.values.update(ptr as int, Some(value@)));
        self
    }

    /// Stores `value` in the most recently freed slot, or in a new slot at the
    /// end, and returns the slot's pointer.
    pub fn push(&mut self, value: Value) -> (ptr: i32)
        requires
            old(self)@.wf(),
        ensures
            final(self)@.wf(),
            ptr == old(self)@.next_slot(),
            final(self)@ == old(self)@.after_take_slot(Some(value@)),
    {
        let ghost v = value@;
        proof {
            if self@.tombstones.len() > 0 {
                let last = self@.tombstones.len() - 1;
                assert(0 <= self@.tombstones[last] < self@.values.len());
            }
        }
        assert(self@.values.len() == self.owned_values@.len());
        if let Some(idx) = self.tombstones.pop() {
            self.owned_values.set(idx as usize, Some(value));
            assert(self@.values =~= old(self)@.values.update(idx as int, Some(v)));
            proof {
                assert forall|i: int| 0 <= i < self@.tombstones.len() implies 0 <= #[trigger] self@.tombstones[i]
                    < self@.values.len() by {
                    assert(self@.tombstones[i] == old(self)@.tombstones[i]);
                }
            }
            idx
        } else {
            let idx = self.owned_values.len();
            self.owned_values.push(Some(value));
            assert(self@.values =~= old(self)@.values.push(Some(v)));
            idx as i32
        }
    }

    /// Takes the value out of the slot `ptr` and frees the slot.
    pub fn take(&mut self, ptr: i32) -> (r: Option<Value>)
        requires
            old(self)@.wf(),
            old(self)@.valid(ptr),
        ensures
            final(self)@.wf(),
            slot_model(r) == old(self)@.values[ptr as int],
            final(self)@ == old(self)@.after_drop(ptr),
    {
        let value = self.owned_values[ptr as usize].take();
        self.tombstones.push(ptr);
        assert(self@.values =~= old(self)@.values.update(ptr as int, None));
        proof {
            assert forall|i: int| 0 <= i < self@.tombstones.len() implies 0 <= #[trigger] self@.tombstones[i]
                < self@.values.len() by {
                if i < old(self)@.tombstones.len() {
                    assert(self@.tombstones[i] == old(self)@.tombstones[i]);
                }
            }
        }
        value
    }

    /// Borrows the value in the slot `ptr`, if there is one.
    pub fn borrow(&self, ptr: i32) -> (r: Option<&Value>)
        requires
            self@.valid(ptr),
        ensures
            match r {
                Some(v) => self@.values[ptr as int] == Some(v@),
                None => self@.values[ptr as int] is None,
            },
    {
        self.owned_values[ptr as usize].as_ref()
    }

    /// Copies the value in the slot `from_ptr` into the slot `to_ptr`.
    pub fn copy_into(&mut self, from_ptr: i32, to_ptr: i32) -> (r: &mut Self)
        requires
            old(self)@.wf(),
            old(self)@.valid(from_ptr),
            old(self)@.valid(to_ptr),
        ensures
            r@.wf(),
            r@ == (ValuesModel {
                values: old(self)@.values.update(to_ptr as int, old(self)@.values[from_ptr as int]),
                tombstones: old(self)@.tombstones,
            }),
            *final(self) == *final(r),
    {
        let copy = match &self.owned_values[from_ptr as usize] {
            Some(v) => Some(v.clone()),
            None => None,
        };
        let ghost c = old(self)@.values[from_ptr as int];
        self.owned_values.set(to_ptr as usize, copy);
        assert(self@.values =~= old(self)@.values.update(to_ptr as int, c));
        self
    }

    /// Returns a pointer to an empty slot: the most recently freed one, or a
    /// new slot at the end.
    pub fn new_ptr(&mut self) -> (ptr: i32)
        requires
            old(self)@.wf(),
        ensures
            final(self)@.wf(),
            ptr == old(self)@.next_slot(),
            old(self)@.tombstones.len() > 0 ==> final(self)@ == (ValuesModel {
                values: old(self)@.values,
                tombstones: old(self)@.tombstones.drop_last(),
            }),
            old(self)@.tombstones.len() == 0 ==> final(self)@ == old(self)@.after_take_slot(None),
    {
        if let Some(idx) = self.tombstones.pop() {
            idx
        } else {
            let idx = self.owned_values.len();
            self.owned_values.push(None);
            assert(self@.values =~= old(self)@.values.push(None));
            idx as i32
        }
    }

    /// Frees the slot `ptr`.
    pub fn drop(&mut self, ptr: i32) -> (r: &mut Self)
        requires
            old(self)@.wf(),
            old(self)@.valid(ptr),
        ensures
            r@.wf(),
            r@ == old(self)@.after_drop(ptr),
            *final(self) == *final(r),
    {
        self.tombstones.push(ptr);
        self.owned_values.set(ptr as usize, None);
        assert(self@.values =~= old(self)@.values.update(ptr as int, None));
        proof {
            assert forall|i: int| 0 <= i < self@.tombstones.len() implies 0 <= #[trigger] self@.tombstones[i]
                < self@.values.len() by {
                if i < old(self)@.tombstones.len() {
                    assert(self@.tombstones[i] == old(self)@.tombstones[i]);
                }
            }
        }
        self
    }

    /// The number of slots.
    pub fn count(&self) -> (n: usize)
        ensures
            n == self@.values.len(),
    {
        self.owned_values.len()
    }

    /// Removes all slots.
    pub fn clear(&mut self) -> (r: &mut Self)
        ensures
            r@.wf(),
            r@.values == Seq::<Option<ValueModel>>::empty(),
            r@.tombstones == Seq::<i32>::empty(),
            *final(self) == *final(r),
    {
        self.owned_values.clear();
        self.tombstones.clear();
        assert(self@.values =~= Seq::<Option<ValueModel>>::empty());
        self
    }
}

impl Default for ValuesContext {
    fn default() -> (c: Self)
        ensures
            c@.wf(),
            c@.values == Seq::<Option<ValueModel>>::empty(),
            c@.tombstones == Seq::<i32>::empty(),
    {
        ValuesContext::new()
    }
}

/// A value pushed into the table is found again at the pointer the push
/// returns: the most recently freed slot, else a new slot at the end; no other
/// slot changes.
pub proof fn law_push_then_borrow(m: ValuesModel, v: ValueModel)
    requires
        m.wf(),
        m.values.len() < 0x8000_0000,
    ensures
        m.after_take_slot(Some(v)).valid(m.next_slot()),
        m.after_take_slot(Some(v)).values[m.next_slot() as int] == Some(v),
        m.after_take_slot(Some(v)).wf(),
        m.tombstones.len() > 0 ==> m.next_slot() == m.tombstones.last() && m.after_take_slot(Some(v)).values.len()
            == m.values.len(),
        m.tombstones.len() == 0 ==> m.next_slot() == m.values.len() && m.after_take_slot(Some(v)).values.len()
            == m.values.len() + 1,
        forall|q: int|
            0 <= q < m.values.len() && q != m.next_slot() ==> #[trigger] m.after_take_slot(Some(v)).values[q]
                == m.values[q],
{
    if m.tombstones.len() > 0 {
        let last = m.tombstones.len() - 1;
        assert(0 <= m.tombstones[last] < m.values.len());
        let m2 = m.after_take_slot(Some(v));
        assert forall|i: int| 0 <= i < m2.tombstones.len() implies 0 <= #[trigger] m2.tombstones[i]
            < m2.values.len() by {
            assert(m2.tombstones[i] == m.tombstones[i]);
        }
    }
}

/// A freed slot is the next one handed out.
pub proof fn law_drop_then_reuse(m: ValuesModel, ptr: i32)
    requires
        m.wf(),
        m.valid(ptr),
    ensures
        m.after_drop(ptr).next_slot() == ptr,
        m.after_drop(ptr).after_take_slot(None).tombstones == m.tombstones,
{
    assert(m.tombstones.push(ptr).drop_last() =~= m.tombstones);
}

} // verus!