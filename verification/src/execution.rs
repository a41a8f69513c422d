//! How a run ends: the step function iterated, and the measure by which it
//! terminates.

use std::rc::Rc;
use vstd::arithmetic::power::{lemma_pow_positive, pow};
use vstd::prelude::*;

use crate::machine::{step_spec, Frame, MachineView, Outcome};
use crate::stack::StackView;
use crate::value::Prototype;

verus! {

/// Number of instructions of `prototype` from `ip` on.
pub open spec fn remaining(prototype: Rc<Prototype>, ip: usize) -> nat {
    if ip <= prototype.bytecode@.len() {
        (prototype.bytecode@.len() - ip) as nat
    } else {
        0
    }
}

/// More than any code has instructions.
pub open spec fn radix() -> int {
    usize::MAX + 1
}

/// What one remaining instruction counts for at call depth `depth`: an
/// instruction may call, and the callee's instructions, fewer than `radix()`,
/// count for one level less each.
pub open spec fn weight(depth: nat) -> nat {
    if depth <= usize::MAX {
        pow(radix(), (usize::MAX - depth) as nat) as nat
    } else {
        1
    }
}

/// The instructions that the waiting callers have left, by weight.
pub open spec fn waiting_work(frames: Seq<Frame>) -> nat
    decreases frames.len(),
{
    if frames.len() == 0 {
        0
    } else {
        waiting_work(frames.drop_last()) + remaining(frames.last().prototype, frames.last().ip)
            * weight((frames.len() - 1) as nat)
    }
}

/// A bound on the work that a machine has left, which every step that
/// continues lowers.
pub open spec fn work(machine: MachineView) -> nat {
    waiting_work(machine.frames) + remaining(machine.prototype, machine.ip) * weight(
        machine.frames.len(),
    )
}

pub proof fn lemma_weight_positive(depth: nat)
    ensures
        weight(depth) >= 1,
{
    if depth <= usize::MAX {
        lemma_pow_positive(radix(), (usize::MAX - depth) as nat);
    }
}

pub proof fn lemma_weight_unfold(depth: nat)
    requires
        depth < usize::MAX,
    ensures
        weight(depth) == radix() * weight(depth + 1),
{
    reveal(pow);
    lemma_pow_positive(radix(), (usize::MAX - depth) as nat);
    lemma_pow_positive(radix(), (usize::MAX - depth - 1) as nat);
}

/// A step that continues leaves less work than it found.
pub proof fn lemma_step_lowers_work(machine: MachineView, stack: StackView)
    requires
        step_spec(machine, stack).cont is Continue,
    ensures
        work(step_spec(machine, stack).machine) < work(machine),
{
    let after = step_spec(machine, stack).machine;
    let depth = machine.frames.len();
    let code = machine.prototype.bytecode;
    assert(code@.len() == code.len());
    let left = remaining(machine.prototype, machine.ip);
    assert(left >= 1);
    lemma_weight_positive(depth);
    if after.frames.len() == depth {
        assert(after.frames =~= machine.frames);
        assert(after.prototype == machine.prototype);
        assert(after.ip == machine.ip + 1);
        assert(remaining(after.prototype, after.ip) == left - 1);
        assert((left - 1) * weight(depth) < left * weight(depth)) by (nonlinear_arith)
            requires
                weight(depth) >= 1,
        ;
    } else if after.frames.len() < depth {
        assert(after.frames =~= machine.frames.drop_last());
        assert(after.ip == machine.frames.last().ip);
        assert(after.prototype == machine.frames.last().prototype);
        assert(left * weight(depth) >= 1) by (nonlinear_arith)
            requires
                left >= 1,
                weight(depth) >= 1,
        ;
    } else {
        let callee = after.prototype.bytecode;
        assert(callee@.len() == callee.len());
        assert(depth < usize::MAX);
        assert(after.frames.drop_last() =~= machine.frames);
        assert(after.frames.last().ip == machine.ip + 1);
        assert(after.frames.last().prototype == machine.prototype);
        assert(after.ip == 0);
        lemma_weight_unfold(depth);
        lemma_weight_positive(depth + 1);
        let entered = remaining(after.prototype, after.ip);
        assert(entered < radix());
        assert((left - 1) * weight(depth) + entered * weight(depth + 1) < left * weight(depth))
            by (nonlinear_arith)
            requires
                weight(depth) == radix() * weight(depth + 1),
                weight(depth + 1) >= 1,
                0 <= entered < radix(),
                left >= 1,
        ;
    }
}

/// The machine and the stack at the first step that does not continue, and
/// how that step ended.
pub open spec fn run_spec(machine: MachineView, stack: StackView) -> Outcome
    decreases work(machine),
    via run_spec_terminates
{
    let after = step_spec(machine, stack);
    if after.cont is Continue {
        run_spec(after.machine, after.stack)
    } else {
        after
    }
}

#[via_fn]
proof fn run_spec_terminates(machine: MachineView, stack: StackView) {
    if step_spec(machine, stack).cont is Continue {
        lemma_step_lowers_work(machine, stack);
    }
}

} // verus!
