//! Frame isolation: what runs in a frame cannot reach what its callers hold
//! in the array.

use vstd::prelude::*;

use crate::bytecode::Bytecode;
use crate::machine::{proceed, step_spec, MachineView, Outcome};
use crate::stack::StackView;

verus! {

/// The machine and the stack after `count` steps, or at the first step that
/// did not continue.
pub open spec fn steps(machine: MachineView, stack: StackView, count: nat) -> Outcome
    decreases count,
{
    if count == 0 {
        proceed(machine, stack)
    } else {
        let before = steps(machine, stack, (count - 1) as nat);
        if before.cont is Continue {
            step_spec(before.machine, before.stack)
        } else {
            before
        }
    }
}

/// The calls at depth `depth` and above keep to the array from `base` on:
/// the active region starts there or higher, and so does the region of every
/// caller that waits at such a depth.
pub open spec fn encloses(machine: MachineView, stack: StackView, depth: nat, base: nat) -> bool {
    &&& depth <= machine.frames.len()
    &&& base <= stack.local_base
    &&& forall|level: int|
        depth <= level < machine.frames.len() ==> base <= (
        #[trigger] machine.frames[level]).frame_info.local_base
}

/// A load of a local slot that the active frame declares reads a place of
/// that frame's own region, and changes nothing but the top of the stack.
pub proof fn lemma_load_reads_own_region(machine: MachineView, stack: StackView, index: u16)
    requires
        stack.wf(),
        machine.fetch() == Some(Bytecode::Load { index }),
        index < stack.stack_base - stack.local_base,
    ensures
        step_spec(machine, stack).cont is Continue,
        stack.local_base <= stack.local_base + index < stack.stack_base,
        step_spec(machine, stack).stack == stack.push(
            stack.values[stack.local_base + index as int],
        ),
{
}

/// A store to a local slot that the active frame declares writes a place of
/// that frame's own region, and changes no other place below the top.
pub proof fn lemma_store_writes_own_region(machine: MachineView, stack: StackView, index: u16)
    requires
        stack.wf(),
        machine.fetch() == Some(Bytecode::Store { index }),
        index < stack.stack_base - stack.local_base,
        !stack.underflows(1),
    ensures
        step_spec(machine, stack).cont is Continue,
        stack.local_base <= stack.local_base + index < stack.stack_base,
        step_spec(machine, stack).stack == (StackView {
            values: stack.values.drop_last().update(
                stack.local_base + index as int,
                stack.values.last(),
            ),
            ..stack
        }),
{
    assert(stack.drop_top(1).values =~= stack.values.drop_last());
}

/// No step writes below the first local slot of the active frame: whatever
/// the instruction, the array below that slot is afterwards as it was. The
/// active region moves only where a call is entered or left.
pub proof fn lemma_step_keeps_callers(machine: MachineView, stack: StackView)
    requires
        stack.wf(),
    ensures
        step_spec(machine, stack).stack.wf(),
        stack.local_base <= step_spec(machine, stack).stack.values.len(),
        step_spec(machine, stack).stack.values.subrange(0, stack.local_base as int)
            == stack.values.subrange(0, stack.local_base as int),
        step_spec(machine, stack).machine.frames.len() == machine.frames.len() ==> {
            &&& step_spec(machine, stack).stack.local_base == stack.local_base
            &&& step_spec(machine, stack).stack.stack_base == stack.stack_base
        },
{
    let after = step_spec(machine, stack).stack;
    assert(after.values.subrange(0, stack.local_base as int) =~= stack.values.subrange(
        0,
        stack.local_base as int,
    ));
}

/// A step that does not leave the calls at depth `depth` and above keeps
/// them enclosed, and leaves the array below `base` as it was.
pub proof fn lemma_step_keeps_enclosure(
    machine: MachineView,
    stack: StackView,
    depth: nat,
    base: nat,
)
    requires
        stack.wf(),
        encloses(machine, stack, depth, base),
        depth <= step_spec(machine, stack).machine.frames.len(),
    ensures
        step_spec(machine, stack).stack.wf(),
        encloses(step_spec(machine, stack).machine, step_spec(machine, stack).stack, depth, base),
        step_spec(machine, stack).stack.values.subrange(0, base as int) == stack.values.subrange(
            0,
            base as int,
        ),
{
    let after = step_spec(machine, stack);
    lemma_step_keeps_callers(machine, stack);
    assert(after.stack.values.subrange(0, base as int) =~= after.stack.values.subrange(
        0,
        stack.local_base as int,
    ).subrange(0, base as int));
    assert(stack.values.subrange(0, base as int) =~= stack.values.subrange(
        0,
        stack.local_base as int,
    ).subrange(0, base as int));
}

/// Frame isolation. While the calls at depth `depth` and above run, however
/// many calls they make and returns they take, nothing below `base` changes:
/// what the callers hold in the array is out of their reach.
pub proof fn lemma_callers_untouched(
    machine: MachineView,
    stack: StackView,
    depth: nat,
    base: nat,
    count: nat,
)
    requires
        stack.wf(),
        encloses(machine, stack, depth, base),
        forall|earlier: nat|
            earlier <= count ==> depth <= (#[trigger] steps(
                machine,
                stack,
                earlier,
            )).machine.frames.len(),
    ensures
        steps(machine, stack, count).stack.wf(),
        encloses(steps(machine, stack, count).machine, steps(machine, stack, count).stack, depth, base),
        steps(machine, stack, count).stack.values.subrange(0, base as int)
            == stack.values.subrange(0, base as int),
    decreases count,
{
    if count > 0 {
        let before = steps(machine, stack, (count - 1) as nat);
        assert forall|earlier: nat| earlier <= count - 1 implies depth <= (#[trigger] steps(
            machine,
            stack,
            earlier,
        )).machine.frames.len() by {
            assert(earlier <= count);
        }
        lemma_callers_untouched(machine, stack, depth, base, (count - 1) as nat);
        if before.cont is Continue {
            assert(steps(machine, stack, count) == step_spec(before.machine, before.stack));
            lemma_step_keeps_enclosure(before.machine, before.stack, depth, base);
        }
    }
}

/// A step that enters a call encloses the callee above everything that the
/// stack held when the call was made, callee and arguments taken off.
pub proof fn lemma_call_encloses_callee(machine: MachineView, stack: StackView)
    requires
        stack.wf(),
        step_spec(machine, stack).machine.frames.len() > machine.frames.len(),
    ensures
        step_spec(machine, stack).cont is Continue,
        step_spec(machine, stack).machine.frames.len() == machine.frames.len() + 1,
        step_spec(machine, stack).stack.local_base <= stack.values.len(),
        step_spec(machine, stack).stack.values.subrange(
            0,
            step_spec(machine, stack).stack.local_base as int,
        ) == stack.values.subrange(0, step_spec(machine, stack).stack.local_base as int),
        encloses(
            step_spec(machine, stack).machine,
            step_spec(machine, stack).stack,
            machine.frames.len() + 1,
            step_spec(machine, stack).stack.local_base,
        ),
{
    let after = step_spec(machine, stack);
    assert(after.stack.values.subrange(0, after.stack.local_base as int)
        =~= stack.values.subrange(0, after.stack.local_base as int));
}

} // verus!
