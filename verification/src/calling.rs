//! The calling convention: how arguments reach a callee at once or one by
//! one, and how a return finds the caller again.

use std::rc::Rc;
use vstd::prelude::*;

use crate::bytecode::Bytecode;
use crate::execution::{lemma_step_lowers_work, run_spec, work};
use crate::isolation::steps;
use crate::machine::{
    apply_spec, enter_spec, fail, proceed, return_spec, step_spec, Cont, Frame, MachineView,
    Outcome,
};
use crate::stack::StackView;
use crate::value::{PartialView, Prototype, Value};

verus! {

/// Whether a frame for `prototype` with `count` arguments can open on
/// `stack`: the machine and the array have room, and the local slots hold
/// the arguments.
pub open spec fn can_enter(
    machine: MachineView,
    stack: StackView,
    prototype: Rc<Prototype>,
    count: nat,
) -> bool {
    &&& machine.frames.len() < usize::MAX
    &&& stack.values.len() + prototype.locals <= usize::MAX
    &&& count <= prototype.locals
}

/// A frame that was entered holds the arguments in its first local slots, in
/// call order, and fresh slots behind them; it has no operands; and the
/// caller waits with its next instruction, its code and its region.
pub proof fn lemma_entered_frame(
    machine: MachineView,
    stack: StackView,
    prototype: Rc<Prototype>,
    args: Seq<Value>,
)
    requires
        stack.wf(),
        can_enter(machine, stack, prototype, args.len()),
    ensures
        enter_spec(machine, stack, prototype, args).cont is Continue,
        enter_spec(machine, stack, prototype, args).machine == (MachineView {
            ip: 0,
            prototype,
            frames: machine.frames.push(
                Frame { ip: machine.ip, frame_info: stack.region(), prototype: machine.prototype },
            ),
            partials: machine.partials,
        }),
        enter_spec(machine, stack, prototype, args).stack.wf(),
        enter_spec(machine, stack, prototype, args).stack.local_base == stack.values.len(),
        enter_spec(machine, stack, prototype, args).stack.stack_base == stack.values.len()
            + prototype.locals,
        enter_spec(machine, stack, prototype, args).stack.height() == 0,
        enter_spec(machine, stack, prototype, args).stack.values.subrange(
            0,
            stack.values.len() as int,
        ) == stack.values,
        forall|slot: nat|
            slot < args.len() ==> #[trigger] enter_spec(
                machine,
                stack,
                prototype,
                args,
            ).stack.load_local(slot) == args[slot as int],
        forall|slot: nat|
            args.len() <= slot < prototype.locals ==> #[trigger] enter_spec(
                machine,
                stack,
                prototype,
                args,
            ).stack.load_local(slot) == Value::Number(0),
{
    let entered = enter_spec(machine, stack, prototype, args).stack;
    assert(entered.values.subrange(0, stack.values.len() as int) =~= stack.values);
}

/// A closure that is applied to exactly as many arguments as it takes is
/// entered: the new frame's first local slots hold the arguments in call
/// order.
pub proof fn lemma_saturating_call(
    machine: MachineView,
    stack: StackView,
    prototype: Rc<Prototype>,
    args: Seq<Value>,
)
    requires
        stack.wf(),
        args.len() == prototype.arity,
        can_enter(machine, stack, prototype, args.len()),
    ensures
        apply_spec(machine, stack, Value::Closure(prototype), args) == enter_spec(
            machine,
            stack,
            prototype,
            args,
        ),
        apply_spec(machine, stack, Value::Closure(prototype), args).cont is Continue,
        apply_spec(machine, stack, Value::Closure(prototype), args).machine.prototype
            == prototype,
        apply_spec(machine, stack, Value::Closure(prototype), args).machine.ip == 0,
        apply_spec(machine, stack, Value::Closure(prototype), args).machine.frames.len()
            == machine.frames.len() + 1,
        forall|slot: nat|
            slot < prototype.arity ==> #[trigger] apply_spec(
                machine,
                stack,
                Value::Closure(prototype),
                args,
            ).stack.load_local(slot) == args[slot as int],
{
    lemma_entered_frame(machine, stack, prototype, args);
}

/// The call instruction takes the callee from the top and the arguments from
/// beneath it: with a closure of arity `arguments` on top, the new frame's
/// local slot `slot` holds the value that was pushed as argument `slot`.
pub proof fn lemma_call_instruction_saturates(
    machine: MachineView,
    stack: StackView,
    prototype: Rc<Prototype>,
    arguments: u8,
)
    requires
        stack.wf(),
        machine.fetch() == Some(Bytecode::Call { arguments }),
        stack.height() >= arguments + 1,
        stack.values.last() == Value::Closure(prototype),
        prototype.arity == arguments,
        can_enter(machine, stack, prototype, arguments as nat),
    ensures
        step_spec(machine, stack).cont is Continue,
        step_spec(machine, stack).machine.prototype == prototype,
        step_spec(machine, stack).machine.ip == 0,
        step_spec(machine, stack).machine.frames == machine.frames.push(
            Frame {
                ip: (machine.ip + 1) as usize,
                frame_info: stack.region(),
                prototype: machine.prototype,
            },
        ),
        step_spec(machine, stack).stack.local_base == stack.values.len() - arguments - 1,
        forall|slot: nat|
            slot < arguments ==> #[trigger] step_spec(machine, stack).stack.load_local(slot)
                == stack.values[stack.values.len() - 1 - arguments + slot],
{
    let rest = stack.drop_top(1).drop_top(arguments as nat);
    let args = stack.drop_top(1).top(arguments as nat);
    lemma_saturating_call(machine.advance(), rest, prototype, args);
}

/// A closure that is applied to fewer arguments than it takes is not
/// entered: a new partial application holds the arguments in call order, and
/// a handle on it is pushed.
pub proof fn lemma_under_application(
    machine: MachineView,
    stack: StackView,
    prototype: Rc<Prototype>,
    args: Seq<Value>,
)
    requires
        machine.wf(),
        args.len() < prototype.arity,
    ensures
        apply_spec(machine, stack, Value::Closure(prototype), args) == proceed(
            MachineView {
                partials: machine.partials.push(
                    PartialView {
                        arity: prototype.arity,
                        applied: args.len() as u8,
                        prototype,
                        applied_values: args,
                    },
                ),
                ..machine
            },
            stack.push(Value::Partial(machine.partials.len() as usize)),
        ),
        apply_spec(machine, stack, Value::Closure(prototype), args).machine.wf(),
{
}

/// A partial application that is applied to exactly the arguments it misses
/// is entered with the arguments it held followed by the new ones: what was
/// supplied first lands in the lowest local slot. The record stays as it
/// was.
pub proof fn lemma_completing_call(
    machine: MachineView,
    stack: StackView,
    handle: usize,
    rest: Seq<Value>,
)
    requires
        machine.wf(),
        stack.wf(),
        handle < machine.partials.len(),
        machine.partials[handle as int].applied_values.len() + rest.len()
            == machine.partials[handle as int].arity,
        can_enter(
            machine,
            stack,
            machine.partials[handle as int].prototype,
            machine.partials[handle as int].arity as nat,
        ),
    ensures
        apply_spec(machine, stack, Value::Partial(handle), rest) == enter_spec(
            machine,
            stack,
            machine.partials[handle as int].prototype,
            machine.partials[handle as int].applied_values + rest,
        ),
        apply_spec(machine, stack, Value::Partial(handle), rest).cont is Continue,
        apply_spec(machine, stack, Value::Partial(handle), rest).machine.partials
            == machine.partials,
        forall|slot: nat|
            slot < machine.partials[handle as int].applied ==> #[trigger] apply_spec(
                machine,
                stack,
                Value::Partial(handle),
                rest,
            ).stack.load_local(slot) == machine.partials[handle as int].applied_values[slot as int],
        forall|slot: nat|
            machine.partials[handle as int].applied <= slot < machine.partials[handle as int].arity
                ==> #[trigger] apply_spec(
                machine,
                stack,
                Value::Partial(handle),
                rest,
            ).stack.load_local(slot) == rest[slot - machine.partials[handle as int].applied],
{
    let record = machine.partials[handle as int];
    assert(record.wf());
    lemma_entered_frame(machine, stack, record.prototype, record.applied_values + rest);
}

/// More arguments than the callee misses are an arity error, and nothing
/// changes.
pub proof fn lemma_over_application(
    machine: MachineView,
    stack: StackView,
    callee: Value,
    args: Seq<Value>,
)
    requires
        machine.wf(),
        match callee {
            Value::Closure(prototype) => args.len() > prototype.arity,
            Value::Partial(handle) => handle < machine.partials.len()
                && machine.partials[handle as int].applied_values.len() + args.len()
                > machine.partials[handle as int].arity,
            _ => false,
        },
    ensures
        apply_spec(machine, stack, callee, args) == fail(machine, stack, "arity error"),
{
}

/// A partial application that still misses arguments after `more` takes
/// them into its record and hands back the same handle. Every copy of the
/// handle denotes that record, so an application through any of them, from
/// any stack, goes on from the arguments accumulated so far.
pub proof fn lemma_extension_is_shared(
    machine: MachineView,
    stack: StackView,
    handle: usize,
    more: Seq<Value>,
    elsewhere: StackView,
    last: Seq<Value>,
)
    requires
        machine.wf(),
        handle < machine.partials.len(),
        machine.partials[handle as int].applied_values.len() + more.len()
            < machine.partials[handle as int].arity,
    ensures
        apply_spec(machine, stack, Value::Partial(handle), more).cont is Continue,
        apply_spec(machine, stack, Value::Partial(handle), more).stack == stack.push(
            Value::Partial(handle),
        ),
        apply_spec(machine, stack, Value::Partial(handle), more).machine.wf(),
        apply_spec(machine, stack, Value::Partial(handle), more).machine.partials
            == machine.partials.update(
            handle as int,
            PartialView {
                applied: (machine.partials[handle as int].applied + more.len()) as u8,
                applied_values: machine.partials[handle as int].applied_values + more,
                ..machine.partials[handle as int]
            },
        ),
        machine.partials[handle as int].applied_values.len() + more.len() + last.len()
            == machine.partials[handle as int].arity ==> apply_spec(
            apply_spec(machine, stack, Value::Partial(handle), more).machine,
            elsewhere,
            Value::Partial(handle),
            last,
        ) == enter_spec(
            apply_spec(machine, stack, Value::Partial(handle), more).machine,
            elsewhere,
            machine.partials[handle as int].prototype,
            machine.partials[handle as int].applied_values + more + last,
        ),
{
    let record = machine.partials[handle as int];
    assert(record.wf());
}

/// Currying. A closure applied to `first`, fewer arguments than it takes,
/// and the partial application that this gives applied to `rest`, the
/// arguments that are missing, enters the closure's code with `first`
/// followed by `rest`.
pub proof fn lemma_curried_call(
    machine: MachineView,
    stack: StackView,
    prototype: Rc<Prototype>,
    first: Seq<Value>,
    elsewhere: StackView,
    rest: Seq<Value>,
)
    requires
        machine.wf(),
        machine.partials.len() <= usize::MAX,
        first.len() < prototype.arity,
        first.len() + rest.len() == prototype.arity,
    ensures
        apply_spec(machine, stack, Value::Closure(prototype), first).stack.values.last()
            == Value::Partial(machine.partials.len() as usize),
        apply_spec(
            apply_spec(machine, stack, Value::Closure(prototype), first).machine,
            elsewhere,
            Value::Partial(machine.partials.len() as usize),
            rest,
        ) == enter_spec(
            apply_spec(machine, stack, Value::Closure(prototype), first).machine,
            elsewhere,
            prototype,
            first + rest,
        ),
{
}

/// A return with no caller waiting halts the machine and leaves the stack as
/// it is.
pub proof fn lemma_return_halts(machine: MachineView, stack: StackView)
    requires
        machine.fetch() == Some(Bytecode::Return),
        machine.frames.len() == 0,
    ensures
        step_spec(machine, stack) == (Outcome {
            machine: machine.advance(),
            stack,
            cont: Cont::Halt,
        }),
{
}

/// A return with a caller waiting resumes it: the instruction pointer, the
/// code and the region are those that the caller's frame saved, the frame is
/// gone, the callee's local slots are gone, and its operands lie on top of
/// the caller's.
pub proof fn lemma_return_resumes(machine: MachineView, stack: StackView)
    requires
        stack.wf(),
        machine.fetch() == Some(Bytecode::Return),
        machine.frames.len() > 0,
        stack.admits(machine.frames.last().frame_info),
    ensures
        step_spec(machine, stack).cont is Continue,
        step_spec(machine, stack).machine == (MachineView {
            ip: machine.frames.last().ip,
            prototype: machine.frames.last().prototype,
            frames: machine.frames.drop_last(),
            partials: machine.partials,
        }),
        step_spec(machine, stack).stack.region() == machine.frames.last().frame_info,
        step_spec(machine, stack).stack.values == stack.values.subrange(
            0,
            stack.local_base as int,
        ) + stack.values.subrange(stack.stack_base as int, stack.values.len() as int),
        step_spec(machine, stack).stack.wf(),
{
}

/// The waiting callers' regions lie in order below the active one: each
/// saved region ends at or below the start of the region that was opened
/// from it.
pub open spec fn aligned(machine: MachineView, stack: StackView) -> bool {
    forall|level: int|
        0 <= level < machine.frames.len() ==> {
            let saved = (#[trigger] machine.frames[level]).frame_info;
            &&& saved.local_base <= saved.stack_base
            &&& saved.stack_base <= if level + 1 < machine.frames.len() {
                machine.frames[level + 1].frame_info.local_base as nat
            } else {
                stack.local_base
            }
        }
}

/// Steps keep the regions in order, and with the regions in order a return
/// always finds a region that it can restore.
pub proof fn lemma_step_keeps_aligned(machine: MachineView, stack: StackView)
    requires
        stack.wf(),
        aligned(machine, stack),
    ensures
        step_spec(machine, stack).stack.wf(),
        aligned(step_spec(machine, stack).machine, step_spec(machine, stack).stack),
        machine.frames.len() > 0 ==> stack.admits(machine.frames.last().frame_info),
{
    let after = step_spec(machine, stack);
    if machine.frames.len() > 0 {
        assert(machine.frames[machine.frames.len() - 1].frame_info.stack_base
            <= stack.local_base);
    }
    if after.machine.frames.len() < machine.frames.len() {
        assert forall|level: int| 0 <= level < after.machine.frames.len() implies {
            let saved = (#[trigger] after.machine.frames[level]).frame_info;
            &&& saved.local_base <= saved.stack_base
            &&& saved.stack_base <= if level + 1 < after.machine.frames.len() {
                after.machine.frames[level + 1].frame_info.local_base as nat
            } else {
                after.stack.local_base
            }
        } by {
            assert(after.machine.frames[level] == machine.frames[level]);
        }
    } else if after.machine.frames.len() > machine.frames.len() {
        assert forall|level: int| 0 <= level < after.machine.frames.len() implies {
            let saved = (#[trigger] after.machine.frames[level]).frame_info;
            &&& saved.local_base <= saved.stack_base
            &&& saved.stack_base <= if level + 1 < after.machine.frames.len() {
                after.machine.frames[level + 1].frame_info.local_base as nat
            } else {
                after.stack.local_base
            }
        } by {
            if level < machine.frames.len() {
                assert(after.machine.frames[level] == machine.frames[level]);
            }
        }
    } else {
        assert(after.machine.frames =~= machine.frames);
    }
}

/// However many steps a machine takes from a state with its regions in
/// order, the regions stay in order: no return on the way fails for want of
/// a region to restore.
pub proof fn lemma_steps_keep_aligned(machine: MachineView, stack: StackView, count: nat)
    requires
        stack.wf(),
        aligned(machine, stack),
    ensures
        steps(machine, stack, count).stack.wf(),
        aligned(steps(machine, stack, count).machine, steps(machine, stack, count).stack),
    decreases count,
{
    if count > 0 {
        lemma_steps_keep_aligned(machine, stack, (count - 1) as nat);
        let before = steps(machine, stack, (count - 1) as nat);
        if before.cont is Continue {
            lemma_step_keeps_aligned(before.machine, before.stack);
        }
    }
}

/// A run from a state with its regions in order, such as the state after
/// `boot`, never fails for want of a region to restore.
pub proof fn lemma_run_finds_its_regions(machine: MachineView, stack: StackView)
    requires
        stack.wf(),
        aligned(machine, stack),
    ensures
        aligned(run_spec(machine, stack).machine, run_spec(machine, stack).stack),
        run_spec(machine, stack).cont matches Cont::Error(reason) ==> reason@
            != "frame mismatch"@,
    decreases work(machine),
{
    let after = step_spec(machine, stack);
    lemma_step_keeps_aligned(machine, stack);
    if after.cont is Continue {
        lemma_step_lowers_work(machine, stack);
        lemma_run_finds_its_regions(after.machine, after.stack);
    } else {
        reveal_strlit("frame mismatch");
        reveal_strlit("instruction out of range");
        reveal_strlit("index out of range");
        reveal_strlit("stack underflow");
        reveal_strlit("stack overflow");
        reveal_strlit("type error");
        reveal_strlit("arity error");
        assert("frame mismatch"@.len() == 14 && "frame mismatch"@[0] == 'f');
        assert("stack overflow"@.len() == 14 && "stack overflow"@[0] == 's');
        assert("instruction out of range"@.len() == 24);
        assert("index out of range"@.len() == 18);
        assert("stack underflow"@.len() == 15);
        assert("type error"@.len() == 10);
        assert("arity error"@.len() == 11);
    }
}

/// A call and the return that leaves it: when the callee returns, the
/// machine is back at the caller's next instruction, in the caller's code
/// and region, whatever the callee did in its own region in between.
pub proof fn lemma_call_then_return(
    machine: MachineView,
    stack: StackView,
    prototype: Rc<Prototype>,
    args: Seq<Value>,
    callee_machine: MachineView,
    callee_stack: StackView,
)
    requires
        stack.wf(),
        can_enter(machine, stack, prototype, args.len()),
        callee_machine.frames == enter_spec(machine, stack, prototype, args).machine.frames,
        callee_stack.region() == enter_spec(machine, stack, prototype, args).stack.region(),
        callee_stack.wf(),
        callee_stack.values.len() <= usize::MAX,
    ensures
        return_spec(callee_machine, callee_stack).cont is Continue,
        return_spec(callee_machine, callee_stack).machine == (MachineView {
            ip: machine.ip,
            prototype: machine.prototype,
            frames: machine.frames,
            partials: callee_machine.partials,
        }),
        return_spec(callee_machine, callee_stack).stack.local_base == stack.local_base,
        return_spec(callee_machine, callee_stack).stack.stack_base == stack.stack_base,
        return_spec(callee_machine, callee_stack).stack.values == callee_stack.values.subrange(
            0,
            stack.values.len() as int,
        ) + callee_stack.values.subrange(
            callee_stack.stack_base as int,
            callee_stack.values.len() as int,
        ),
{
    assert(machine.frames.push(
        Frame { ip: machine.ip, frame_info: stack.region(), prototype: machine.prototype },
    ).drop_last() =~= machine.frames);
}

} // verus!
