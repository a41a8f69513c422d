//! The array of local slots and operands, and its regions.

use vstd::prelude::*;

use crate::value::Value;

verus! {

/// The boundaries of a region of the stack, as `push_frame` hands them out
/// for a later `pop_frame`.
#[derive(Clone, Copy, Debug)]
pub struct FrameInfo {
    pub stack_base: usize,
    pub local_base: usize,
}

/// The array that holds the local slots and the operands of every active
/// call, with the boundaries of the active region.
#[derive(Debug)]
pub struct Stack {
    stack_base: usize,
    local_base: usize,
    values: Vec<Value>,
}

/// A stack as a sequence of values and two indices into it.
///
/// The local slots of the active frame are `values[local_base..stack_base]`,
/// its operands are `values[stack_base..]`, and everything below
/// `local_base` belongs to the callers.
pub struct StackView {
    pub values: Seq<Value>,
    pub local_base: nat,
    pub stack_base: nat,
}

/// `count` slots that nothing was stored to.
pub open spec fn fresh_slots(count: nat) -> Seq<Value> {
    Seq::new(count, |i: int| Value::Number(0))
}

impl StackView {
    pub open spec fn wf(self) -> bool {
        self.local_base <= self.stack_base <= self.values.len()
    }

    /// Number of operands of the active frame.
    pub open spec fn height(self) -> int {
        self.values.len() - self.stack_base
    }

    /// The boundaries of the active region.
    pub open spec fn region(self) -> FrameInfo {
        FrameInfo { stack_base: self.stack_base as usize, local_base: self.local_base as usize }
    }

    /// The stack with a new region of `locals_size` fresh slots on top.
    pub open spec fn push_frame(self, locals_size: nat) -> StackView {
        StackView {
            values: self.values + fresh_slots(locals_size),
            local_base: self.values.len(),
            stack_base: self.values.len() + locals_size,
        }
    }

    /// Whether `frame_info` can be restored when the active region leaves:
    /// it describes a region that ends at or below the active one.
    pub open spec fn admits(self, frame_info: FrameInfo) -> bool {
        frame_info.local_base <= frame_info.stack_base <= self.local_base
    }

    /// The stack without the local slots of the active region, which keeps
    /// the operands above them, and with the boundaries of `frame_info`.
    pub open spec fn pop_frame(self, frame_info: FrameInfo) -> StackView {
        StackView {
            values: self.values.subrange(0, self.local_base as int) + self.values.subrange(
                self.stack_base as int,
                self.values.len() as int,
            ),
            local_base: frame_info.local_base as nat,
            stack_base: frame_info.stack_base as nat,
        }
    }

    /// Whether local slot `index` of the active frame lies inside the array.
    pub open spec fn has_local(self, index: nat) -> bool {
        self.local_base + index < self.values.len()
    }

    pub open spec fn load_local(self, index: nat) -> Value {
        self.values[(self.local_base + index) as int]
    }

    pub open spec fn store_local(self, index: nat, value: Value) -> StackView {
        StackView { values: self.values.update((self.local_base + index) as int, value), ..self }
    }

    pub open spec fn push(self, value: Value) -> StackView {
        StackView { values: self.values.push(value), ..self }
    }

    /// Whether taking `count` operands would reach below the active frame's
    /// operands.
    pub open spec fn underflows(self, count: nat) -> bool {
        count > self.height()
    }

    /// The top `count` values, bottom first.
    pub open spec fn top(self, count: nat) -> Seq<Value> {
        self.values.subrange(self.values.len() - count, self.values.len() as int)
    }

    /// The stack without its top `count` values.
    pub open spec fn drop_top(self, count: nat) -> StackView {
        StackView { values: self.values.subrange(0, self.values.len() - count), ..self }
    }
}

/// With no operand in the active frame every take of one operand or more
/// underflows; with `height` operands a take of `height` succeeds and a take
/// of one more underflows.
pub proof fn lemma_underflow_boundary(stack: StackView, count: nat)
    requires
        stack.wf(),
        count >= 1,
    ensures
        stack.values.len() == stack.stack_base ==> stack.underflows(count),
        !stack.underflows(stack.height() as nat),
        stack.underflows((stack.height() + 1) as nat),
        stack.underflows(count) <==> stack.height() < count,
{
}

/// A value that was pushed is the one that the next take returns, bit for
/// bit, and the take leaves the stack as it was before the push.
pub proof fn lemma_push_then_pop(stack: StackView, value: Value)
    requires
        stack.wf(),
    ensures
        stack.push(value).wf(),
        !stack.push(value).underflows(1),
        stack.push(value).values.last() == value,
        stack.push(value).drop_top(1) == stack,
{
    assert(stack.push(value).drop_top(1).values =~= stack.values);
}

/// A value that was stored to a local slot is the one that a load of that
/// slot returns, and the store changes no other place of the array.
pub proof fn lemma_store_then_load(stack: StackView, index: nat, value: Value)
    requires
        stack.wf(),
        stack.has_local(index),
    ensures
        stack.store_local(index, value).load_local(index) == value,
        forall|place: int|
            0 <= place < stack.values.len() && place != stack.local_base + index
                ==> stack.store_local(index, value).values[place] == stack.values[place],
{
}

/// A new region lies above everything that the stack held: its slots are
/// fresh, a store to one of them changes nothing that was there before, and
/// closing the region gives back the stack as it was.
pub proof fn lemma_region_is_private(stack: StackView, locals_size: nat, index: nat, value: Value)
    requires
        stack.wf(),
        stack.values.len() <= usize::MAX,
        index < locals_size,
    ensures
        stack.push_frame(locals_size).wf(),
        stack.push_frame(locals_size).admits(stack.region()),
        stack.push_frame(locals_size).has_local(index),
        stack.push_frame(locals_size).load_local(index) == Value::Number(0),
        stack.push_frame(locals_size).store_local(index, value).values.subrange(
            0,
            stack.values.len() as int,
        ) == stack.values,
        stack.push_frame(locals_size).store_local(index, value).pop_frame(stack.region())
            == stack,
{
    let opened = stack.push_frame(locals_size);
    let stored = opened.store_local(index, value);
    assert(stored.values.subrange(0, stack.values.len() as int) =~= stack.values);
    assert(stored.pop_frame(stack.region()).values =~= stack.values);
}

impl View for Stack {
    type V = StackView;

    closed spec fn view(&self) -> StackView {
        StackView {
            values: self.values@,
            local_base: self.local_base as nat,
            stack_base: self.stack_base as nat,
        }
    }
}

impl Stack {
    /// The boundaries lie in order inside the array.
    pub open spec fn wf(&self) -> bool {
        &&& self@.wf()
        &&& self@.values.len() <= usize::MAX
    }

    /// A stack whose root region has `local_size` fresh local slots and no
    /// operands.
    pub fn new_with_local_size(local_size: usize) -> (stack: Self)
        ensures
            stack.wf(),
            stack@ == (StackView {
                values: fresh_slots(local_size as nat),
                local_base: 0,
                stack_base: local_size as nat,
            }),
    {
        let mut values: Vec<Value> = Vec::new();
        values.resize(local_size, Value::default());
        assert(values@ =~= fresh_slots(local_size as nat));
        Self { stack_base: local_size, local_base: 0, values }
    }

    /// Everything that the stack holds, bottom first.
    pub fn values(&self) -> (values: &Vec<Value>)
        ensures
            values@ == self@.values,
    {
        &self.values
    }

    /// Index of the first local slot of the active frame.
    pub fn local_base(&self) -> (base: usize)
        ensures
            base == self@.local_base,
    {
        self.local_base
    }

    /// Index of the first operand of the active frame.
    pub fn stack_base(&self) -> (base: usize)
        ensures
            base == self@.stack_base,
    {
        self.stack_base
    }

    /// Opens a region of `locals_size` fresh local slots above everything
    /// that the stack holds, and returns the boundaries of the region that
    /// was active.
    pub fn push_frame(&mut self, locals_size: usize) -> (frame_info: FrameInfo)
        requires
            old(self).wf(),
            old(self)@.values.len() + locals_size <= usize::MAX,
        ensures
            final(self).wf(),
            final(self)@ == old(self)@.push_frame(locals_size as nat),
            frame_info == old(self)@.region(),
    {
        let new_local_base = self.values.len();
        let new_stack_base = new_local_base + locals_size;
        self.values.resize(new_stack_base, Value::default());
        assert(self.values@ =~= old(self).values@ + fresh_slots(locals_size as nat));
        let frame_info = FrameInfo { stack_base: self.stack_base, local_base: self.local_base };
        self.stack_base = new_stack_base;
        self.local_base = new_local_base;
        frame_info
    }

    /// Closes the active region: its local slots leave the array, the
    /// operands above them move down, and the boundaries become those of
    /// `frame_info`.
    pub fn pop_frame(&mut self, frame_info: FrameInfo)
        requires
            old(self).wf(),
            old(self)@.admits(frame_info),
        ensures
            final(self).wf(),
            final(self)@ == old(self)@.pop_frame(frame_info),
    {
        let mut operands = self.values.split_off(self.stack_base);
        self.values.truncate(self.local_base);
        self.values.append(&mut operands);
        assert(self.values@ =~= old(self)@.pop_frame(frame_info).values);
        self.stack_base = frame_info.stack_base;
        self.local_base = frame_info.local_base;
    }

    /// Whether `frame_info` can be restored by `pop_frame`.
    pub fn admits(&self, frame_info: FrameInfo) -> (admitted: bool)
        ensures
            admitted == self@.admits(frame_info),
    {
        frame_info.local_base <= frame_info.stack_base && frame_info.stack_base <= self.local_base
    }

    /// Whether the array can grow by `count` values.
    pub fn has_room(&self, count: usize) -> (room: bool)
        ensures
            room == (self@.values.len() + count <= usize::MAX),
    {
        count <= usize::MAX - self.values.len()
    }

    /// Whether local slot `index` of the active frame lies inside the array.
    pub fn has_local(&self, index: usize) -> (inside: bool)
        requires
            self.wf(),
        ensures
            inside == self@.has_local(index as nat),
    {
        index < self.values.len() - self.local_base
    }

    /// A copy of local slot `index` of the active frame.
    pub fn load_local(&mut self, index: usize) -> (value: Value)
        requires
            old(self).wf(),
            old(self)@.has_local(index as nat),
        ensures
            *final(self) == *old(self),
            value == old(self)@.load_local(index as nat),
    {
        self.values[self.local_base + index].clone()
    }

    /// Overwrites local slot `index` of the active frame.
    pub fn store_local(&mut self, index: usize, value: Value)
        requires
            old(self).wf(),
            old(self)@.has_local(index as nat),
        ensures
            final(self).wf(),
            final(self)@ == old(self)@.store_local(index as nat, value),
    {
        let slot = self.local_base + index;
        self.values.set(slot, value);
    }

    /// Puts an operand on top.
    pub fn push(&mut self, value: Value)
        requires
            old(self).wf(),
        ensures
            final(self).wf(),
            final(self)@ == old(self)@.push(value),
    {
        self.values.push(value);
        assert(self.values@.len() == self.values.len());
    }

    /// Takes the top operand of the active frame, if it has one.
    pub fn pop(&mut self) -> (value: Option<Value>)
        requires
            old(self).wf(),
        ensures
            final(self).wf(),
            value is None <==> old(self)@.underflows(1),
            value is None ==> *final(self) == *old(self),
            value matches Some(top) ==> {
                &&& top == old(self)@.values.last()
                &&& final(self)@ == old(self)@.drop_top(1)
            },
    {
        if self.check_underflow(1) {
            None
        } else {
            let top = self.values.pop();
            assert(self.values@ =~= old(self).values@.subrange(0, old(self).values@.len() - 1));
            top
        }
    }

    /// Takes the top `count` operands of the active frame, bottom first, or
    /// none of them if it has fewer.
    pub fn pop_many(&mut self, count: usize) -> (values: Option<Vec<Value>>)
        requires
            old(self).wf(),
        ensures
            final(self).wf(),
            values is None <==> old(self)@.underflows(count as nat),
            values is None ==> *final(self) == *old(self),
            values matches Some(taken) ==> {
                &&& taken@ == old(self)@.top(count as nat)
                &&& final(self)@ == old(self)@.drop_top(count as nat)
            },
    {
        if self.check_underflow(count) {
            None
        } else {
            let taken = self.values.split_off(self.values.len() - count);
            Some(taken)
        }
    }

    /// Whether the active frame has fewer than `count` operands.
    pub fn check_underflow(&self, count: usize) -> (underflow: bool)
        requires
            self.wf(),
        ensures
            underflow == self@.underflows(count as nat),
    {
        count > self.values.len() - self.stack_base
    }
}

} // verus!
