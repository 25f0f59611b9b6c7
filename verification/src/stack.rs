//! A stack of Clarity values for host functions, with virtual frames: values
//! pushed in a frame are let go when the frame is dropped.
use vstd::prelude::*;

use crate::value::{Value, ValueModel, models};
use crate::values::slot_model;

verus! {

/// Value type indicator: the type of Clarity value a [`HostPtr`] points to.
#[derive(Debug, Clone, Copy, PartialEq, Eq, Structural)]
pub enum ValType {
    Int128,
    UInt128,
}

/// Maps a value to its [`ValType`].
pub trait AsValType {
    /// Whether the value has a value type.
    spec fn has_val_type(&self) -> bool;

    fn as_val_type(&self) -> ValType
        requires
            self.has_val_type(),
    ;
}

/// The value type of an integer value.
pub open spec fn val_type_of(m: ValueModel) -> ValType {
    match m {
        ValueModel::Int(_) => ValType::Int128,
        _ => ValType::UInt128,
    }
}

/// Whether a value is an integer, the values that have a value type.
pub open spec fn is_integer_value(m: ValueModel) -> bool {
    m is Int || m is UInt
}

impl AsValType for Value {
    open spec fn has_val_type(&self) -> bool {
        is_integer_value(self@)
    }

    fn as_val_type(&self) -> (t: ValType)
        ensures
            t == val_type_of(self@),
    {
        match self {
            Value::Int(_) => ValType::Int128,
            _ => ValType::UInt128,
        }
    }
}

/// The result of executing a frame.
pub struct FrameResult {}

/// The state kept for a virtual frame: its index, its parent's index, and the
/// number of locals when it was created (its lower bound).
#[derive(Debug, Clone, Copy, PartialEq, Eq, Structural)]
pub struct FrameContext {
    pub frame_index: usize,
    pub parent_frame_index: Option<usize>,
    pub lower_bound: usize,
}

impl FrameContext {
    /// Instantiates a new [`FrameContext`].
    pub fn new(frame_index: usize, parent_frame_index: Option<usize>, lower_bound: usize) -> (c: Self)
        ensures
            c == (FrameContext { frame_index, parent_frame_index, lower_bound }),
    {
        Self { frame_index, parent_frame_index, lower_bound }
    }
}

/// The state of a [`Stack`].
pub ghost struct StackModel {
    /// The identifier the stack was created with.
    pub id: u64,
    /// The index the next pushed local takes.
    pub current: int,
    /// The number of live frames.
    pub next_frame: nat,
    /// The local slots: `None` where a local was dropped.
    pub locals: Seq<Option<ValueModel>>,
    /// The live frames, outermost first.
    pub frames: Seq<FrameContext>,
    /// The positions in `owned` of the last frame's results.
    pub result_buffer: Seq<usize>,
    /// The values the stack owns: the results of every frame so far.
    pub owned: Seq<ValueModel>,
}

/// The context of the frame at index `i`.
pub open spec fn frame_at(i: nat, lower_bound: int) -> FrameContext {
    FrameContext {
        frame_index: i as usize,
        parent_frame_index: if i == 0 { None } else { Some((i - 1) as usize) },
        lower_bound: lower_bound as usize,
    }
}

impl StackModel {
    /// The invariant of a stack: one context per live frame, each at its own
    /// index, and a result buffer that points into the owned values.
    pub open spec fn wf(self) -> bool {
        &&& 0 <= self.current <= i32::MAX
        &&& self.frames.len() == self.next_frame
        &&& forall|i: int|
            0 <= i < self.frames.len() ==> #[trigger] self.frames[i] == frame_at(
                i as nat,
                self.frames[i].lower_bound as int,
            ) && self.frames[i].lower_bound <= i32::MAX
        &&& forall|i: int|
            0 <= i < self.result_buffer.len() ==> #[trigger] self.result_buffer[i] < self.owned.len()
    }

    /// The state after `v` is pushed: it is written into slot `current` where
    /// that slot exists, and appended as a new last slot otherwise; the local
    /// count goes up by one.
    pub open spec fn after_push(self, v: ValueModel) -> StackModel {
        StackModel {
            current: self.current + 1,
            locals: if self.current < self.locals.len() {
                self.locals.update(self.current, Some(v))
            } else {
                self.locals.push(Some(v))
            },
            ..self
        }
    }

    /// The state after a new frame is opened on top of the others.
    pub open spec fn opened(self) -> StackModel {
        StackModel {
            next_frame: self.next_frame + 1,
            frames: self.frames.push(frame_at(self.next_frame, self.current)),
            ..self
        }
    }

    /// The state after `results` are handed to the stack as the last frame's
    /// results.
    pub open spec fn with_results(self, results: Seq<ValueModel>) -> StackModel {
        StackModel {
            owned: self.owned + results,
            result_buffer: Seq::new(results.len(), |i: int| (self.owned.len() + i) as usize),
            ..self
        }
    }

    /// The state after the top frame is dropped: the locals are rewound to
    /// where they stood when it was opened.
    pub open spec fn dropped(self) -> StackModel {
        StackModel {
            current: self.frames.last().lower_bound as int,
            next_frame: (self.next_frame - 1) as nat,
            frames: self.frames.drop_last(),
            ..self
        }
    }

    /// The value of the local `ptr`, where `ptr` is a slot.
    pub open spec fn local(self, ptr: int) -> Option<ValueModel> {
        self.locals[ptr]
    }
}

/// Opening a frame on a well-formed stack leaves it well formed.
pub proof fn lemma_opened_wf(m: StackModel)
    requires
        m.wf(),
    ensures
        m.opened().wf(),
{
    let o = m.opened();
    assert forall|i: int| 0 <= i < o.frames.len() implies #[trigger] o.frames[i] == frame_at(
        i as nat,
        o.frames[i].lower_bound as int,
    ) && o.frames[i].lower_bound <= i32::MAX by {
        if i < m.frames.len() {
            assert(o.frames[i] == m.frames[i]);
        }
    }
}

/// A local pushed is read back from the index the push returned, where the
/// slots reach the local count (clearing the slots without resetting the
/// count breaks this).
pub proof fn law_push_then_get(m: StackModel, v: ValueModel)
    requires
        m.wf(),
        m.current < i32::MAX,
        m.current <= m.locals.len(),
    ensures
        0 <= m.current < m.after_push(v).locals.len(),
        m.after_push(v).local(m.current) == Some(v),
        m.after_push(v).wf(),
        forall|i: int| 0 <= i < m.locals.len() && i != m.current ==> #[trigger] m.after_push(v).local(i) == m.local(i),
{
}

/// While a frame runs its function, the frame index is one past the one
/// before and its locals start at the local count it opened at. When the
/// frame ends the stack comes back to the local count and the frames it had
/// before the frame opened, whatever the function pushed or dropped, and the
/// result buffer reads back the frame's results in order.
pub proof fn law_frame_rewinds(m: StackModel, inner: StackModel, results: Seq<ValueModel>)
    requires
        m.wf(),
        frame_kept(m.opened(), inner),
        inner.owned.len() + results.len() <= usize::MAX,
    ensures
        m.opened().next_frame == m.next_frame + 1,
        m.opened().current == m.current,
        m.opened().frames.last() == frame_at(m.next_frame, m.current),
        inner.with_results(results).dropped().wf(),
        inner.with_results(results).dropped().current == m.current,
        inner.with_results(results).dropped().frames == m.frames,
        inner.with_results(results).dropped().next_frame == m.next_frame,
        inner.with_results(results).dropped().id == m.id,
        inner.with_results(results).dropped().result_buffer.len() == results.len(),
        forall|i: int|
            0 <= i < results.len() ==> inner.with_results(results).dropped().owned[#[trigger] inner.with_results(
                results,
            ).dropped().result_buffer[i] as int] == results[i],
{
    let w = inner.with_results(results);
    let after = w.dropped();
    assert(inner.frames == m.frames.push(frame_at(m.next_frame, m.current)));
    assert(inner.frames.last() == frame_at(m.next_frame, m.current));
    assert(after.frames =~= m.frames);
    assert forall|i: int| 0 <= i < after.frames.len() implies #[trigger] after.frames[i] == frame_at(
        i as nat,
        after.frames[i].lower_bound as int,
    ) && after.frames[i].lower_bound <= i32::MAX by {
        assert(after.frames[i] == m.frames[i]);
    }
    assert forall|i: int| 0 <= i < results.len() implies after.owned[#[trigger] after.result_buffer[i] as int]
        == results[i] by {
        assert(after.result_buffer[i] == inner.owned.len() + i);
        assert(after.owned == inner.owned + results);
    }
}

/// Whether a frame's function left the stack as a frame must: well formed,
/// with the same frames and the same identifier.
pub open spec fn frame_kept(before: StackModel, after: StackModel) -> bool {
    &&& after.wf()
    &&& after.id == before.id
    &&& after.frames == before.frames
    &&& after.next_frame == before.next_frame
}

/// Draws a fresh stack identifier with `rand::random::<u64>()`. The result is
/// random, so nothing is stated of it.
#[verifier::external_body]
fn random_stack_id() -> u64 {
    rand::random::<u64>()
}

/// A stack of Clarity values with virtual frames. Locals pushed while a frame
/// is open are let go when the frame is dropped: the next local pushed takes
/// their slots again.
#[derive(Debug)]
pub struct Stack {
    id: u64,
    current_local_idx: i32,
    next_frame_idx: usize,
    locals: Vec<Option<Value>>,
    frames: Vec<FrameContext>,
    result_buffer: Vec<usize>,
    owned_values: Vec<Value>,
}

impl View for Stack {
    type V = StackModel;

    closed spec fn view(&self) -> StackModel {
        StackModel {
            id: self.id,
            current: self.current_local_idx as int,
            next_frame: self.next_frame_idx as nat,
            locals: self.locals@.map_values(|s: Option<Value>| slot_model(s)),
            frames: self.frames@,
            result_buffer: self.result_buffer@,
            owned: models(self.owned_values@),
        }
    }
}

impl Stack {
    /// A stack with the given identifier and nothing in it.
    fn with_id(id: u64) -> (s: Stack)
        ensures
            s@.wf(),
            s@ == (StackModel {
                id,
                current: 0,
                next_frame: 0,
                locals: Seq::empty(),
                frames: Seq::empty(),
                result_buffer: Seq::empty(),
                owned: Seq::empty(),
            }),
    {
        let s = Stack {
            id,
            current_local_idx: 0,
            next_frame_idx: 0,
            locals: Vec::new(),
            frames: Vec::new(),
            result_buffer: Vec::new(),
            owned_values: Vec::new(),
        };
        assert(s@.locals =~= Seq::<Option<ValueModel>>::empty());
        assert(s@.owned =~= Seq::<ValueModel>::empty());
        s
    }

    /// A new, empty stack with a random identifier.
    pub fn new() -> (s: Stack)
        ensures
            s@.wf(),
            s@.current == 0,
            s@.next_frame == 0,
            s@.locals == Seq::<Option<ValueModel>>::empty(),
            s@.frames == Seq::<FrameContext>::empty(),
            s@.result_buffer == Seq::<usize>::empty(),
            s@.owned == Seq::<ValueModel>::empty(),
    {
        let s = Stack {
            id: random_stack_id(),
            current_local_idx: 0,
            next_frame_idx: 0,
            locals: Vec::with_capacity(1000),
            frames: Vec::with_capacity(100),
            result_buffer: Vec::with_capacity(15),
            owned_values: Vec::with_capacity(100),
        };
        assert(s@.locals =~= Seq::<Option<ValueModel>>::empty());
        assert(s@.owned =~= Seq::<ValueModel>::empty());
        s
    }

    /// The identifier of this stack.
    pub fn id(&self) -> (id: u64)
        ensures
            id == self@.id,
    {
        self.id
    }

    /// The number of locals pushed and not rewound: the index the next pushed
    /// local takes.
    pub fn local_count(&self) -> (n: usize)
        requires
            self@.wf(),
        ensures
            n == self@.current,
    {
        self.current_local_idx as usize
    }

    /// The number of live frames, which is the index the next frame takes.
    pub fn get_frame_index(&self) -> (n: usize)
        ensures
            n == self@.next_frame,
    {
        self.next_frame_idx
    }

    /// The number of local slots, live or not.
    pub fn locals_len(&self) -> (n: usize)
        ensures
            n == self@.locals.len(),
    {
        self.locals.len()
    }

    /// Pushes a copy of `value` as a new local and returns its index and value
    /// type.
    pub fn local_push(&mut self, value: &Value) -> (r: (i32, ValType))
        requires
            old(self)@.wf(),
            is_integer_value(value@),
            old(self)@.current < i32::MAX,
        ensures
            final(self)@.wf(),
            r.0 == old(self)@.current,
            r.1 == val_type_of(value@),
            final(self)@ == old(self)@.after_push(value@),
    {
        let backing_vec_len = self.locals.len();
        let idx = self.current_local_idx;
        let val_type = value.as_val_type();
        let copy = value.clone();
        if (idx as usize) < backing_vec_len {
            self.locals.set(idx as usize, Some(copy));
        } else {
            self.locals.push(Some(copy));
        }
        self.current_local_idx = idx + 1;
        assert(self@.locals =~= old(self)@.after_push(value@).locals);
        (idx, val_type)
    }

    /// Takes the index for a new frame: returns it and the index after it.
    fn increment_frame_index(&mut self) -> (r: (usize, usize))
        requires
            old(self).next_frame_idx < usize::MAX,
        ensures
            r.0 == old(self).next_frame_idx,
            r.1 == old(self).next_frame_idx + 1,
            final(self).next_frame_idx == r.1,
            final(self).id == old(self).id,
            final(self).current_local_idx == old(self).current_local_idx,
            final(self).locals == old(self).locals,
            final(self).frames == old(self).frames,
            final(self).result_buffer == old(self).result_buffer,
            final(self).owned_values == old(self).owned_values,
    {
        let current = self.next_frame_idx;
        self.next_frame_idx = current + 1;
        (current, self.next_frame_idx)
    }

    /// Lets go of the top frame's index: returns the index of the frame let go
    /// and, where two or more frames remain, the new frame count.
    fn decrement_frame_index(&mut self) -> (r: (usize, Option<usize>))
        requires
            old(self).next_frame_idx >= 1,
        ensures
            r.0 == old(self).next_frame_idx - 1,
            r.1 == (if old(self).next_frame_idx <= 2 {
                None
            } else {
                Some((old(self).next_frame_idx - 1) as usize)
            }),
            final(self).next_frame_idx == old(self).next_frame_idx - 1,
            final(self).id == old(self).id,
            final(self).current_local_idx == old(self).current_local_idx,
            final(self).locals == old(self).locals,
            final(self).frames == old(self).frames,
            final(self).result_buffer == old(self).result_buffer,
            final(self).owned_values == old(self).owned_values,
    {
        let next_frame_index = self.next_frame_idx;
        let current_frame_index = next_frame_index - 1;
        let target_frame_index = if current_frame_index > 0 {
            current_frame_index - 1
        } else {
            1
        };
        if target_frame_index == 0 {
            self.next_frame_idx = 1;
            return (1, None);
        }
        if current_frame_index > 0 {
            self.next_frame_idx = self.next_frame_idx - 1;
            (current_frame_index, Some(self.next_frame_idx))
        } else {
            self.next_frame_idx = 0;
            (0, None)
        }
    }

    /// Opens a new virtual frame on top of the others and returns its context:
    /// its index, its parent's index and the local count it started at.
    pub fn new_frame(&mut self) -> (context: FrameContext)
        requires
            old(self)@.wf(),
            old(self)@.next_frame < usize::MAX,
        ensures
            final(self)@.wf(),
            context == frame_at(old(self)@.next_frame, old(self)@.current),
            final(self)@ == old(self)@.opened(),
    {
        let (index, _) = self.increment_frame_index();
        let parent = if index == 0 {
            None
        } else {
            Some(index - 1)
        };
        let context = FrameContext::new(index, parent, self.current_local_idx as usize);
        self.frames.push(context);
        assert(self@.frames =~= old(self)@.opened().frames);
        proof {
            let m = self@;
            assert forall|i: int| 0 <= i < m.frames.len() implies #[trigger] m.frames[i] == frame_at(
                i as nat,
                m.frames[i].lower_bound as int,
            ) && m.frames[i].lower_bound <= i32::MAX by {
                if i < old(self)@.frames.len() {
                    assert(m.frames[i] == old(self)@.frames[i]);
                }
            }
        }
        context
    }

    /// Drops the top frame, whose index `index` must be: the locals are rewound
    /// to the count they had when the frame was opened.
    pub fn drop_frame(&mut self, index: usize)
        requires
            old(self)@.wf(),
            old(self)@.next_frame >= 1,
            index == old(self)@.next_frame - 1,
        ensures
            final(self)@.wf(),
            final(self)@ == old(self)@.dropped(),
    {
        let (dropped_frame_index, _) = self.decrement_frame_index();
        assert(index == dropped_frame_index);
        let dropped_frame = self.frames.remove(dropped_frame_index);
        assert(dropped_frame == old(self)@.frames[index as int]);
        self.current_local_idx = dropped_frame.lower_bound as i32;
        assert(self@.frames =~= old(self)@.dropped().frames);
        proof {
            let m = self@;
            assert forall|i: int| 0 <= i < m.frames.len() implies #[trigger] m.frames[i] == frame_at(
                i as nat,
                m.frames[i].lower_bound as int,
            ) && m.frames[i].lower_bound <= i32::MAX by {
                assert(m.frames[i] == old(self)@.frames[i]);
            }
        }
    }

    /// Hands an owned value to the stack and returns its position among the
    /// stack's owned values.
    pub fn give_owned_value(&mut self, value: Value) -> (pos: usize)
        requires
            old(self)@.wf(),
        ensures
            final(self)@.wf(),
            pos == old(self)@.owned.len(),
            final(self)@ == (StackModel { owned: old(self)@.owned.push(value@), ..old(self)@ }),
    {
        let ghost v = value@;
        self.owned_values.push(value);
        assert(self@.owned =~= old(self)@.owned.push(v));
        self.owned_values.len() - 1
    }

    /// The values the stack owns, in the order they were handed to it.
    pub fn owned_values(&self) -> (r: &Vec<Value>)
        ensures
            models(r@) == self@.owned,
    {
        &self.owned_values
    }

    /// Replaces the result buffer with `results`, which the stack takes.
    pub fn fill_result_buffer(&mut self, results: Vec<Value>)
        requires
            old(self)@.wf(),
        ensures
            final(self)@.wf(),
            final(self)@ == old(self)@.with_results(models(results@)),
    {
        self.result_buffer.clear();
        let ghost start = self@;
        let n = results.len();
        let mut rest = results;
        let mut taken: Vec<Value> = Vec::new();
        let ghost all = models(rest@);
        proof {
            assert(all =~= models(results@));
        }
        let mut i: usize = 0;
        proof {
            assert(start.owned + all.take(0) =~= start.owned);
            assert(Seq::new(0, |k: int| (start.owned.len() + k) as usize) =~= Seq::<usize>::empty());
            assert(all.skip(0) =~= all);
        }
        while i < n
            invariant
                0 <= i <= n,
                rest@.len() == n - i,
                n == all.len(),
                start.wf(),
                start == (StackModel { result_buffer: Seq::empty(), ..old(self)@ }),
                self@ == (StackModel {
                    owned: start.owned + all.take(i as int),
                    result_buffer: Seq::new(i as nat, |k: int| (start.owned.len() + k) as usize),
                    ..start
                }),
                models(rest@) == all.skip(i as int),
            decreases n - i,
        {
            proof {
                assert(models(rest@)[0] == rest@[0]@);
                assert(all.skip(i as int)[0] == all[i as int]);
            }
            let ghost old_rest = rest@;
            let value = rest.remove(0);
            let ghost v = value@;
            let pos = self.give_owned_value(value);
            self.result_buffer.push(pos);
            proof {
                assert forall|k: int| 0 <= k < rest@.len() implies #[trigger] models(rest@)[k] == all.skip(
                    i + 1,
                )[k] by {
                    assert(rest@[k] == old_rest[k + 1]);
                    assert(models(old_rest)[k + 1] == old_rest[k + 1]@);
                }
                assert(models(rest@) =~= all.skip(i + 1));
                assert(start.owned + all.take(i + 1) =~= (start.owned + all.take(i as int)).push(v));
                assert(self@.result_buffer =~= Seq::new((i + 1) as nat, |k: int| (start.owned.len() + k) as usize));
            }
            i = i + 1;
        }
        proof {
            assert(all.take(n as int) =~= all);
            assert(self@.owned =~= old(self)@.with_results(models(results@)).owned);
        }
    }

    /// The values of the last frame's results, in order.
    pub fn result_buffer_to_vec(&self) -> (r: Vec<&Value>)
        requires
            self@.wf(),
        ensures
            r@.len() == self@.result_buffer.len(),
            forall|i: int|
                0 <= i < r@.len() ==> (#[trigger] r@[i])@ == self@.owned[self@.result_buffer[i] as int],
    {
        let mut values: Vec<&Value> = Vec::with_capacity(self.result_buffer.len());
        let mut i: usize = 0;
        while i < self.result_buffer.len()
            invariant
                self@.wf(),
                0 <= i <= self.result_buffer@.len(),
                values@.len() == i,
                forall|k: int|
                    0 <= k < i ==> (#[trigger] values@[k])@ == self@.owned[self@.result_buffer[k] as int],
            decreases self.result_buffer@.len() - i,
        {
            let pos = self.result_buffer[i];
            assert(self@.result_buffer[i as int] == pos);
            assert(pos < self@.owned.len());
            let v = &self.owned_values[pos];
            assert(models(self.owned_values@)[pos as int] == self.owned_values@[pos as int]@);
            values.push(v);
            i = i + 1;
        }
        values
    }

    /// Marks the slot of `ptr` as dropped.
    pub fn local_drop(&mut self, ptr: HostPtr)
        requires
            old(self)@.wf(),
            0 <= ptr@.inner < old(self)@.locals.len(),
        ensures
            final(self)@.wf(),
            final(self)@ == (StackModel {
                locals: old(self)@.locals.update(ptr@.inner as int, None),
                ..old(self)@
            }),
    {
        self.locals.set(ptr.inner as usize, None);
        assert(self@.locals =~= old(self)@.locals.update(ptr@.inner as int, None));
    }

    /// The value in the slot `ptr`, if it has not been dropped. The slot may
    /// hold a value of a frame that was dropped since.
    pub fn local_get(&self, ptr: i32) -> (r: Option<&Value>)
        requires
            0 <= ptr < self@.locals.len(),
        ensures
            r matches Some(v) ==> self@.local(ptr as int) == Some(v@),
            r is None ==> self@.local(ptr as int) is None,
    {
        match &self.locals[ptr as usize] {
            Some(v) => Some(v),
            None => None,
        }
    }

    /// Like [`Stack::local_get`], but `None` where `ptr` is not a slot.
    pub fn local_try_get(&self, ptr: i32) -> (r: Option<&Value>)
        ensures
            r matches Some(v) ==> 0 <= ptr < self@.locals.len() && self@.local(ptr as int) == Some(v@),
            r is None ==> !(0 <= ptr < self@.locals.len()) || self@.local(ptr as int) is None,
    {
        if ptr < 0 || ptr as usize >= self.locals.len() {
            None
        } else {
            self.local_get(ptr)
        }
    }

    /// Clears all of the local slots. The local count is not reset.
    pub fn clear_locals(&mut self)
        requires
            old(self)@.wf(),
        ensures
            final(self)@.wf(),
            final(self)@ == (StackModel { locals: Seq::empty(), ..old(self)@ }),
    {
        self.locals.clear();
        assert(self@.locals =~= Seq::<Option<ValueModel>>::empty());
    }
}

/// The state of a [`HostPtr`].
pub ghost struct HostPtrModel {
    pub stack_id: u64,
    pub inner: i32,
    pub val_type: ValType,
    pub is_owned: bool,
}

/// A pointer to a local of a [`Stack`]: the stack's identifier, the local's
/// index and its value type.
#[derive(Debug, Clone, Copy)]
pub struct HostPtr {
    stack_id: u64,
    inner: i32,
    pub val_type: ValType,
    is_owned: bool,
}

impl View for HostPtr {
    type V = HostPtrModel;

    closed spec fn view(&self) -> HostPtrModel {
        HostPtrModel {
            stack_id: self.stack_id,
            inner: self.inner,
            val_type: self.val_type,
            is_owned: self.is_owned,
        }
    }
}

impl HostPtr {
    /// A pointer to the local `inner` of the stack with identifier `stack_id`.
    pub fn new(stack_id: u64, inner: i32, val_type: ValType, is_owned: bool) -> (p: HostPtr)
        ensures
            p@ == (HostPtrModel { stack_id, inner, val_type, is_owned }),
    {
        HostPtr { stack_id, inner, val_type, is_owned }
    }

    /// The local's index.
    pub fn as_i32(&self) -> (i: i32)
        ensures
            i == self@.inner,
    {
        self.inner
    }

    /// The local's index as a `usize`.
    pub fn as_usize(&self) -> (u: usize)
        ensures
            u == self@.inner as usize,
    {
        self.inner as usize
    }

    /// Whether the value is owned by the stack.
    pub fn is_owned(&self) -> (b: bool)
        ensures
            b == self@.is_owned,
    {
        self.is_owned
    }

    /// The identifier of the stack the pointer belongs to.
    pub fn stack_id(&self) -> (id: u64)
        ensures
            id == self@.stack_id,
    {
        self.stack_id
    }
}

/// The public face of a [`Stack`] while a frame is open: a frame's function
/// pushes, reads and drops locals through it.
#[derive(Debug)]
pub struct StackFrame {
    stack: Stack,
}

impl View for StackFrame {
    type V = StackModel;

    closed spec fn view(&self) -> StackModel {
        self.stack@
    }
}

impl Stack {
    /// Opens a frame, runs `func` in it, keeps the values it returns as the
    /// frame's results and drops the frame: the locals pushed in it are let go.
    pub fn exec<F>(&mut self, func: F) -> (r: FrameResult)
        where
            F: FnOnce(&mut StackFrame) -> Vec<Value>,
        requires
            old(self)@.wf(),
            old(self)@.next_frame < usize::MAX,
            forall|f: &mut StackFrame| (*f)@ == old(self)@.opened() ==> func.requires((f,)),
            forall|f: &mut StackFrame, res: Vec<Value>|
                func.ensures((f,), res) ==> frame_kept((*f)@, final(f)@),
        ensures
            final(self)@.wf(),
            final(self)@.id == old(self)@.id,
            final(self)@.current == old(self)@.current,
            final(self)@.next_frame == old(self)@.next_frame,
            final(self)@.frames == old(self)@.frames,
            exists|f: &mut StackFrame, res: Vec<Value>|
                (*f)@ == old(self)@.opened() && func.ensures((f,), res) && final(self)@
                    == final(f)@.with_results(models(res@)).dropped(),
    {
        let index = self.new_frame().frame_index;
        let mut frame = StackFrame { stack: Stack::with_id(0) };
        core::mem::swap(&mut frame.stack, self);
        assert(frame@ == old(self)@.opened());
        let fref = &mut frame;
        assert((*fref)@ == old(self)@.opened());
        let results = func(fref);
        core::mem::swap(&mut frame.stack, self);
        self.fill_result_buffer(results);
        self.drop_frame(index);
        FrameResult {  }
    }
}

impl StackFrame {
    /// The stack the frame is open on.
    pub fn stack(&self) -> (s: &Stack)
        ensures
            s@ == self@,
    {
        &self.stack
    }

    /// Pushes a copy of `value` as a new local and returns a pointer to it.
    pub fn push(&mut self, value: &Value) -> (p: HostPtr)
        requires
            old(self)@.wf(),
            is_integer_value(value@),
            old(self)@.current < i32::MAX,
        ensures
            final(self)@.wf(),
            final(self)@ == old(self)@.after_push(value@),
            p@ == (HostPtrModel {
                stack_id: old(self)@.id,
                inner: old(self)@.current as i32,
                val_type: val_type_of(value@),
                is_owned: false,
            }),
    {
        let (ptr, val_type) = self.stack.local_push(value);
        HostPtr::new(self.stack.id, ptr, val_type, false)
    }

    /// Pushes a copy of `value` as a new local and returns its index.
    pub fn push_unchecked(&mut self, value: &Value) -> (ptr: i32)
        requires
            old(self)@.wf(),
            is_integer_value(value@),
            old(self)@.current < i32::MAX,
        ensures
            final(self)@.wf(),
            final(self)@ == old(self)@.after_push(value@),
            ptr == old(self)@.current,
    {
        self.stack.local_push(value).0
    }

    /// The value `ptr` points to, if it has not been dropped. `ptr` must come
    /// from this stack.
    pub fn get(&self, ptr: HostPtr) -> (r: Option<&Value>)
        requires
            ptr@.stack_id == self@.id,
            0 <= ptr@.inner < self@.locals.len(),
        ensures
            r matches Some(v) ==> self@.local(ptr@.inner as int) == Some(v@),
            r is None ==> self@.local(ptr@.inner as int) is None,
    {
        self.stack.local_get(ptr.inner)
    }

    /// The value in the slot `ptr`, if it has not been dropped.
    pub fn get_unchecked(&self, ptr: i32) -> (r: Option<&Value>)
        requires
            0 <= ptr < self@.locals.len(),
        ensures
            r matches Some(v) ==> self@.local(ptr as int) == Some(v@),
            r is None ==> self@.local(ptr as int) is None,
    {
        self.stack.local_get(ptr)
    }

    /// The value in the slot `ptr`, or `None` where `ptr` is not a slot or
    /// was dropped.
    pub fn try_get(&self, ptr: i32) -> (r: Option<&Value>)
        ensures
            r matches Some(v) ==> 0 <= ptr < self@.locals.len() && self@.local(ptr as int) == Some(v@),
            r is None ==> !(0 <= ptr < self@.locals.len()) || self@.local(ptr as int) is None,
            !(0 <= ptr < self@.locals.len()) ==> r is None,
    {
        self.stack.local_try_get(ptr)
    }

    /// Drops the local `ptr` points to.
    pub fn drop(&mut self, ptr: HostPtr)
        requires
            old(self)@.wf(),
            0 <= ptr@.inner < old(self)@.locals.len(),
        ensures
            final(self)@.wf(),
            final(self)@ == (StackModel {
                locals: old(self)@.locals.update(ptr@.inner as int, None),
                ..old(self)@
            }),
    {
        self.stack.local_drop(ptr)
    }

    /// Opens a frame on top of this one and runs `func` in it, as
    /// [`Stack::exec`] does.
    pub fn exec<F>(&mut self, func: F) -> (r: FrameResult)
        where
            F: FnOnce(&mut StackFrame) -> Vec<Value>,
        requires
            old(self)@.wf(),
            old(self)@.next_frame < usize::MAX,
            forall|f: &mut StackFrame| (*f)@ == old(self)@.opened() ==> func.requires((f,)),
            forall|f: &mut StackFrame, res: Vec<Value>|
                func.ensures((f,), res) ==> frame_kept((*f)@, final(f)@),
        ensures
            final(self)@.wf(),
            final(self)@.id == old(self)@.id,
            final(self)@.current == old(self)@.current,
            final(self)@.next_frame == old(self)@.next_frame,
            final(self)@.frames == old(self)@.frames,
            exists|f: &mut StackFrame, res: Vec<Value>|
                (*f)@ == old(self)@.opened() && func.ensures((f,), res) && final(self)@
                    == final(f)@.with_results(models(res@)).dropped(),
    {
        self.stack.exec(func)
    }
}

impl Stack {
    /// Opens a frame, runs `func` in it with `store`, keeps the values it
    /// returns as the frame's results, drops the frame and gives `store` back.
    pub fn frame<S, F>(stack: &mut Stack, store: S, func: F) -> (r: S)
        where
            F: FnOnce(&mut S, &mut StackFrame) -> Vec<Value>,
        requires
            old(stack)@.wf(),
            old(stack)@.next_frame < usize::MAX,
            forall|s: &mut S, f: &mut StackFrame|
                (*f)@ == old(stack)@.opened() ==> func.requires((s, f)),
            forall|s: &mut S, f: &mut StackFrame, res: Vec<Value>|
                func.ensures((s, f), res) ==> frame_kept((*f)@, final(f)@),
        ensures
            final(stack)@.wf(),
            final(stack)@.id == old(stack)@.id,
            final(stack)@.current == old(stack)@.current,
            final(stack)@.next_frame == old(stack)@.next_frame,
            final(stack)@.frames == old(stack)@.frames,
            exists|s: &mut S, f: &mut StackFrame, res: Vec<Value>|
                *s == store && (*f)@ == old(stack)@.opened() && func.ensures((s, f), res) && r
                    == *final(s) && final(stack)@ == final(f)@.with_results(models(res@)).dropped(),
    {
        let mut store = store;
        let index = stack.new_frame().frame_index;
        let mut frame = StackFrame { stack: Stack::with_id(0) };
        core::mem::swap(&mut frame.stack, stack);
        assert(frame@ == old(stack)@.opened());
        let sref = &mut store;
        let fref = &mut frame;
        let results = func(sref, fref);
        core::mem::swap(&mut frame.stack, stack);
        stack.fill_result_buffer(results);
        stack.drop_frame(index);
        store
    }

    /// Runs `func` with `store` in a frame of this stack, as
    /// [`Stack::frame`] does, and then lets go of the stack and the store:
    /// all that remains is that `func` ran.
    pub fn exec2<S, F>(self, store: S, func: F) -> (r: FrameResult)
        where
            F: FnOnce(&mut S, &mut StackFrame) -> Vec<Value>,
        requires
            self@.wf(),
            self@.next_frame < usize::MAX,
            forall|s: &mut S, f: &mut StackFrame| (*f)@ == self@.opened() ==> func.requires((s, f)),
            forall|s: &mut S, f: &mut StackFrame, res: Vec<Value>|
                func.ensures((s, f), res) ==> frame_kept((*f)@, final(f)@),
        ensures
            exists|s: &mut S, f: &mut StackFrame, res: Vec<Value>|
                *s == store && (*f)@ == self@.opened() && func.ensures((s, f), res),
    {
        let mut stack = self;
        let _store = Stack::frame(&mut stack, store, func);
        FrameResult {  }
    }
}

impl Default for Stack {
    fn default() -> (s: Stack)
        ensures
            s@.wf(),
            s@.current == 0,
            s@.next_frame == 0,
            s@.locals == Seq::<Option<ValueModel>>::empty(),
            s@.frames == Seq::<FrameContext>::empty(),
            s@.result_buffer == Seq::<usize>::empty(),
            s@.owned == Seq::<ValueModel>::empty(),
    {
        Stack::with_id(random_stack_id())
    }
}

/// Runs functions in a frame of a stack that the caller hands over.
pub struct StackExecContext {}

impl StackExecContext {
    /// Runs `func` with `store` in a frame of `stack`, as [`Stack::frame`]
    /// does, and then lets go of the stack and the store.
    pub fn exec<S, F>(stack: Stack, store: S, func: F) -> (r: FrameResult)
        where
            F: FnOnce(&mut S, &mut StackFrame) -> Vec<Value>,
        requires
            stack@.wf(),
            stack@.next_frame < usize::MAX,
            forall|s: &mut S, f: &mut StackFrame| (*f)@ == stack@.opened() ==> func.requires((s, f)),
            forall|s: &mut S, f: &mut StackFrame, res: Vec<Value>|
                func.ensures((s, f), res) ==> frame_kept((*f)@, final(f)@),
        ensures
            exists|s: &mut S, f: &mut StackFrame, res: Vec<Value>|
                *s == store && (*f)@ == stack@.opened() && func.ensures((s, f), res),
    {
        stack.exec2(store, func)
    }
}

} // verus!
