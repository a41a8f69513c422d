//! The execution engine: one step of the machine as a function of its state,
//! and the code that takes it.

use std::rc::Rc;
use vstd::prelude::*;

use crate::bytecode::Bytecode;
use crate::execution::{lemma_step_lowers_work, run_spec, work};
use crate::number::{add_numbers, number_sum};
use crate::stack::{fresh_slots, FrameInfo, Stack, StackView};
use crate::value::{Partial, PartialView, Prototype, Value};

verus! {

/// What the machine keeps of a caller while a callee runs.
#[derive(Debug)]
pub struct Frame {
    /// The caller's next instruction.
    pub ip: usize,
    /// The caller's region of the stack.
    pub frame_info: FrameInfo,
    /// The caller's code.
    pub prototype: Rc<Prototype>,
}

/// The execution engine: the instruction pointer, the prototype that is
/// running, the callers that wait, and the partial applications made so far.
pub struct Machine {
    ip: usize,
    prototype: Rc<Prototype>,
    stack_frame: Vec<Frame>,
    partials: Vec<Partial>,
}

/// How a step ended.
#[derive(Clone, Copy, Debug)]
pub enum Cont {
    Halt,
    Continue,
    Error(&'static str),
}

/// The engine's state as sequences.
pub struct MachineView {
    pub ip: usize,
    pub prototype: Rc<Prototype>,
    /// The waiting callers, outermost first.
    pub frames: Seq<Frame>,
    /// The partial applications; `Value::Partial(h)` denotes `partials[h]`.
    pub partials: Seq<PartialView>,
}

/// The machine and the stack after a step, and how the step ended.
pub struct Outcome {
    pub machine: MachineView,
    pub stack: StackView,
    pub cont: Cont,
}

pub open spec fn proceed(machine: MachineView, stack: StackView) -> Outcome {
    Outcome { machine, stack, cont: Cont::Continue }
}

pub open spec fn fail(machine: MachineView, stack: StackView, reason: &'static str) -> Outcome {
    Outcome { machine, stack, cont: Cont::Error(reason) }
}

impl MachineView {
    /// Every partial application holds as many arguments as it counts, and
    /// misses at least one.
    pub open spec fn wf(self) -> bool {
        forall|h: int| 0 <= h < self.partials.len() ==> (#[trigger] self.partials[h]).wf()
    }

    /// The instruction that the next step executes, if the instruction
    /// pointer lies inside the code.
    pub open spec fn fetch(self) -> Option<Bytecode> {
        if self.ip < self.prototype.bytecode@.len() {
            Some(self.prototype.bytecode@[self.ip as int])
        } else {
            None
        }
    }

    pub open spec fn advance(self) -> MachineView {
        MachineView { ip: (self.ip + 1) as usize, ..self }
    }
}

/// `Return`: halts where no caller waits; else closes the active region and
/// resumes the innermost caller.
pub open spec fn return_spec(machine: MachineView, stack: StackView) -> Outcome {
    if machine.frames.len() == 0 {
        Outcome { machine, stack, cont: Cont::Halt }
    } else {
        let frame = machine.frames.last();
        if !stack.admits(frame.frame_info) {
            fail(machine, stack, "frame mismatch")
        } else {
            proceed(
                MachineView {
                    ip: frame.ip,
                    prototype: frame.prototype,
                    frames: machine.frames.drop_last(),
                    ..machine
                },
                stack.pop_frame(frame.frame_info),
            )
        }
    }
}

/// `Load`: pushes a copy of a local slot.
pub open spec fn load_spec(machine: MachineView, stack: StackView, index: nat) -> Outcome {
    if !stack.has_local(index) {
        fail(machine, stack, "index out of range")
    } else {
        proceed(machine, stack.push(stack.load_local(index)))
    }
}

/// `Store`: pops the top operand into a local slot.
pub open spec fn store_spec(machine: MachineView, stack: StackView, index: nat) -> Outcome {
    if stack.underflows(1) {
        fail(machine, stack, "stack underflow")
    } else {
        let rest = stack.drop_top(1);
        if !rest.has_local(index) {
            fail(machine, rest, "index out of range")
        } else {
            proceed(machine, rest.store_local(index, stack.values.last()))
        }
    }
}

/// `Closure`: pushes a closure over a nested prototype.
pub open spec fn closure_spec(machine: MachineView, stack: StackView, index: nat) -> Outcome {
    if index >= machine.prototype.prototypes@.len() {
        fail(machine, stack, "index out of range")
    } else {
        proceed(machine, stack.push(Value::Closure(machine.prototype.prototypes@[index as int])))
    }
}

/// `LoadConst`: pushes a constant of the pool.
pub open spec fn load_const_spec(machine: MachineView, stack: StackView, index: nat) -> Outcome {
    if index >= machine.prototype.constant_pool@.len() {
        fail(machine, stack, "index out of range")
    } else {
        proceed(machine, stack.push(machine.prototype.constant_pool@[index as int].value()))
    }
}

/// `Add`: pops the right operand, then the left one, and pushes their sum
/// where both are numbers.
pub open spec fn add_spec(machine: MachineView, stack: StackView) -> Outcome {
    if stack.underflows(1) {
        fail(machine, stack, "stack underflow")
    } else if stack.underflows(2) {
        fail(machine, stack.drop_top(1), "stack underflow")
    } else {
        let operands = stack.top(2);
        let rest = stack.drop_top(2);
        match (operands[0], operands[1]) {
            (Value::Number(x), Value::Number(y)) => proceed(
                machine,
                rest.push(Value::Number(number_sum(x, y))),
            ),
            _ => fail(machine, rest, "type error"),
        }
    }
}

/// A call that received all its arguments: a region opens for `prototype`'s
/// local slots, the first of which hold `args` in call order, the caller is
/// put aside, and execution goes on at the first instruction of `prototype`.
pub open spec fn enter_spec(
    machine: MachineView,
    stack: StackView,
    prototype: Rc<Prototype>,
    args: Seq<Value>,
) -> Outcome {
    if machine.frames.len() >= usize::MAX || stack.values.len() + prototype.locals > usize::MAX {
        fail(machine, stack, "stack overflow")
    } else if args.len() > prototype.locals {
        fail(machine, stack, "index out of range")
    } else {
        proceed(
            MachineView {
                ip: 0,
                prototype,
                frames: machine.frames.push(
                    Frame {
                        ip: machine.ip,
                        frame_info: stack.region(),
                        prototype: machine.prototype,
                    },
                ),
                ..machine
            },
            StackView {
                values: stack.values + args + fresh_slots((prototype.locals - args.len()) as nat),
                local_base: stack.values.len(),
                stack_base: stack.values.len() + prototype.locals as nat,
            },
        )
    }
}

/// A closure that received too few arguments: a new partial application
/// holds them, and a handle on it is pushed.
pub open spec fn suspend_spec(
    machine: MachineView,
    stack: StackView,
    prototype: Rc<Prototype>,
    args: Seq<Value>,
) -> Outcome {
    proceed(
        MachineView {
            partials: machine.partials.push(
                PartialView {
                    arity: prototype.arity,
                    applied: args.len() as u8,
                    prototype,
                    applied_values: args,
                },
            ),
            ..machine
        },
        stack.push(Value::Partial(machine.partials.len() as usize)),
    )
}

/// A partial application that still misses arguments after `args`: the
/// record itself takes them, so every copy of the handle sees them, and the
/// same handle is pushed.
pub open spec fn extend_spec(
    machine: MachineView,
    stack: StackView,
    handle: usize,
    args: Seq<Value>,
) -> Outcome {
    let record = machine.partials[handle as int];
    let applied_values = record.applied_values + args;
    proceed(
        MachineView {
            partials: machine.partials.update(
                handle as int,
                PartialView { applied: applied_values.len() as u8, applied_values, ..record },
            ),
            ..machine
        },
        stack.push(Value::Partial(handle)),
    )
}

/// Applies `callee` to `args`, which were taken off the stack already.
pub open spec fn apply_spec(
    machine: MachineView,
    stack: StackView,
    callee: Value,
    args: Seq<Value>,
) -> Outcome {
    match callee {
        Value::Closure(prototype) => {
            if args.len() < prototype.arity {
                suspend_spec(machine, stack, prototype, args)
            } else if args.len() == prototype.arity {
                enter_spec(machine, stack, prototype, args)
            } else {
                fail(machine, stack, "arity error")
            }
        },
        Value::Partial(handle) => {
            if handle >= machine.partials.len() {
                fail(machine, stack, "type error")
            } else {
                let record = machine.partials[handle as int];
                let all = record.applied_values + args;
                if all.len() < record.arity {
                    extend_spec(machine, stack, handle, args)
                } else if all.len() == record.arity {
                    enter_spec(machine, stack, record.prototype, all)
                } else {
                    fail(machine, stack, "arity error")
                }
            }
        },
        _ => fail(machine, stack, "type error"),
    }
}

/// `Call`: pops the callee, then `arguments` arguments, and applies the
/// callee to them in the order in which they were pushed.
pub open spec fn call_spec(machine: MachineView, stack: StackView, arguments: nat) -> Outcome {
    if stack.underflows(1) {
        fail(machine, stack, "stack underflow")
    } else {
        let rest = stack.drop_top(1);
        if rest.underflows(arguments) {
            fail(machine, rest, "stack underflow")
        } else {
            apply_spec(machine, rest.drop_top(arguments), stack.values.last(), rest.top(arguments))
        }
    }
}

/// What `instruction` does to a machine whose instruction pointer has moved
/// past it already.
pub open spec fn execute_spec(
    machine: MachineView,
    stack: StackView,
    instruction: Bytecode,
) -> Outcome {
    match instruction {
        Bytecode::Return => return_spec(machine, stack),
        Bytecode::Load { index } => load_spec(machine, stack, index as nat),
        Bytecode::Store { index } => store_spec(machine, stack, index as nat),
        Bytecode::Closure { index } => closure_spec(machine, stack, index as nat),
        Bytecode::Call { arguments } => call_spec(machine, stack, arguments as nat),
        Bytecode::LoadConst { index } => load_const_spec(machine, stack, index as nat),
        Bytecode::Add => add_spec(machine, stack),
    }
}

/// One step: fetches the instruction at the instruction pointer, moves the
/// pointer past it, and executes it.
pub open spec fn step_spec(machine: MachineView, stack: StackView) -> Outcome {
    match machine.fetch() {
        None => fail(machine, stack, "instruction out of range"),
        Some(instruction) => execute_spec(machine.advance(), stack, instruction),
    }
}

impl View for Machine {
    type V = MachineView;

    closed spec fn view(&self) -> MachineView {
        MachineView {
            ip: self.ip,
            prototype: self.prototype,
            frames: self.stack_frame@,
            partials: self.partials@.map_values(|record: Partial| record@),
        }
    }
}

impl Machine {
    pub open spec fn wf(&self) -> bool {
        self@.wf()
    }

    /// A machine at the first instruction of `proto`, with no caller and no
    /// partial application, and a stack that holds `proto`'s local slots.
    pub fn boot(proto: Prototype) -> (booted: (Self, Stack))
        ensures
            booted.0.wf(),
            booted.1.wf(),
            booted.0@ == (MachineView {
                ip: 0,
                prototype: Rc::new(proto),
                frames: Seq::empty(),
                partials: Seq::empty(),
            }),
            booted.1@ == (StackView {
                values: fresh_slots(proto.locals as nat),
                local_base: 0,
                stack_base: proto.locals as nat,
            }),
    {
        let stack = Stack::new_with_local_size(proto.locals as usize);
        let machine = Self {
            ip: 0,
            prototype: Rc::new(proto),
            stack_frame: Vec::new(),
            partials: Vec::new(),
        };
        assert(machine@.partials =~= Seq::empty());
        (machine, stack)
    }

    /// Index of the next instruction in the code that is running.
    pub fn ip(&self) -> (ip: usize)
        ensures
            ip == self@.ip,
    {
        self.ip
    }

    /// The prototype whose code is running.
    pub fn prototype(&self) -> (prototype: &Rc<Prototype>)
        ensures
            *prototype == self@.prototype,
    {
        &self.prototype
    }

    /// Number of callers that wait for a return.
    pub fn depth(&self) -> (depth: usize)
        ensures
            depth == self@.frames.len(),
    {
        self.stack_frame.len()
    }

    /// The partial application that `handle` denotes, if it denotes one.
    pub fn partial(&self, handle: usize) -> (record: Option<&Partial>)
        ensures
            record is Some <==> handle < self@.partials.len(),
            record matches Some(partial) ==> partial@ == self@.partials[handle as int],
    {
        if handle < self.partials.len() {
            Some(&self.partials[handle])
        } else {
            None
        }
    }

    /// Opens a frame for `prototype` with `args` in its first local slots
    /// and moves execution to its first instruction.
    fn enter(
        &mut self,
        stack: &mut Stack,
        prototype: Rc<Prototype>,
        args: Vec<Value>,
    ) -> (cont: Cont)
        requires
            old(self).wf(),
            old(stack).wf(),
        ensures
            final(self).wf(),
            final(stack).wf(),
            (Outcome { machine: final(self)@, stack: final(stack)@, cont }) == enter_spec(
                old(self)@,
                old(stack)@,
                prototype,
                args@,
            ),
    {
        let locals = prototype.locals as usize;
        if self.stack_frame.len() == usize::MAX || !stack.has_room(locals) {
            return Cont::Error("stack overflow");
        }
        if args.len() > locals {
            return Cont::Error("index out of range");
        }
        let frame_info = stack.push_frame(locals);
        let mut args = args;
        let ghost all = args@;
        let ghost below = old(stack)@.values;
        let mut index = args.len();
        while index > 0
            invariant
                stack.wf(),
                index == args@.len(),
                index <= all.len(),
                args@ == all.subrange(0, index as int),
                all.len() <= locals,
                stack@.local_base == below.len(),
                stack@.stack_base == below.len() + locals,
                stack@.values == below + fresh_slots(index as nat) + all.subrange(
                    index as int,
                    all.len() as int,
                ) + fresh_slots((locals - all.len()) as nat),
            decreases index,
        {
            index = index - 1;
            let value = args.pop().unwrap();
            stack.store_local(index, value);
            assert(stack@.values =~= below + fresh_slots(index as nat) + all.subrange(
                index as int,
                all.len() as int,
            ) + fresh_slots((locals - all.len()) as nat));
            assert(args@ =~= all.subrange(0, index as int));
        }
        assert(stack@.values =~= below + all + fresh_slots((locals - all.len()) as nat));
        let mut caller = prototype;
        std::mem::swap(&mut self.prototype, &mut caller);
        self.stack_frame.push(Frame { ip: self.ip, frame_info, prototype: caller });
        self.ip = 0;
        Cont::Continue
    }

    /// Applies `callee` to `args`: enters the callee where `args` complete
    /// its arguments, lets a partial application hold them where some are
    /// still missing, and reports an error where there are too many or the
    /// callee is no function.
    pub fn apply(&mut self, stack: &mut Stack, callee: Value, args: Vec<Value>) -> (cont: Cont)
        requires
            old(self).wf(),
            old(stack).wf(),
        ensures
            final(self).wf(),
            final(stack).wf(),
            (Outcome { machine: final(self)@, stack: final(stack)@, cont }) == apply_spec(
                old(self)@,
                old(stack)@,
                callee,
                args@,
            ),
    {
        match callee {
            Value::Closure(prototype) => {
                let arity = prototype.arity as usize;
                if args.len() < arity {
                    let handle = self.partials.len();
                    let applied = args.len() as u8;
                    self.partials.push(
                        Partial { arity: prototype.arity, applied, prototype, applied_values: args },
                    );
                    stack.push(Value::Partial(handle));
                    assert(self@.partials =~= suspend_spec(
                        old(self)@,
                        old(stack)@,
                        prototype,
                        args@,
                    ).machine.partials);
                    Cont::Continue
                } else if args.len() == arity {
                    self.enter(stack, prototype, args)
                } else {
                    Cont::Error("arity error")
                }
            },
            Value::Partial(handle) => {
                if handle >= self.partials.len() {
                    return Cont::Error("type error");
                }
                assert(self@.partials[handle as int] == self.partials@[handle as int]@);
                assert(self@.partials[handle as int].wf());
                let missing = (self.partials[handle].arity - self.partials[handle].applied) as usize;
                let ghost given = args@;
                let mut args = args;
                if args.len() < missing {
                    let applied = self.partials[handle].applied + args.len() as u8;
                    self.partials[handle].applied_values.append(&mut args);
                    self.partials[handle].applied = applied;
                    stack.push(Value::Partial(handle));
                    assert(self@.partials =~= extend_spec(
                        old(self)@,
                        old(stack)@,
                        handle,
                        given,
                    ).machine.partials);
                    Cont::Continue
                } else if args.len() == missing {
                    let mut all = self.partials[handle].applied_values.clone();
                    all.append(&mut args);
                    let prototype = self.partials[handle].prototype.clone();
                    self.enter(stack, prototype, all)
                } else {
                    Cont::Error("arity error")
                }
            },
            _ => Cont::Error("type error"),
        }
    }

    /// Executes one instruction.
    pub fn step(&mut self, stack: &mut Stack) -> (cont: Cont)
        requires
            old(self).wf(),
            old(stack).wf(),
        ensures
            final(self).wf(),
            final(stack).wf(),
            (Outcome { machine: final(self)@, stack: final(stack)@, cont }) == step_spec(
                old(self)@,
                old(stack)@,
            ),
    {
        if self.ip >= self.prototype.bytecode.len() {
            return Cont::Error("instruction out of range");
        }
        let instruction = self.prototype.bytecode[self.ip];
        self.ip = self.ip + 1;
        match instruction {
            Bytecode::Return => {
                if self.stack_frame.len() == 0 {
                    return Cont::Halt;
                }
                if !stack.admits(self.stack_frame[self.stack_frame.len() - 1].frame_info) {
                    return Cont::Error("frame mismatch");
                }
                let frame = self.stack_frame.pop().unwrap();
                stack.pop_frame(frame.frame_info);
                self.ip = frame.ip;
                self.prototype = frame.prototype;
                Cont::Continue
            },
            Bytecode::Load { index } => {
                if !stack.has_local(index as usize) {
                    return Cont::Error("index out of range");
                }
                let value = stack.load_local(index as usize);
                stack.push(value);
                Cont::Continue
            },
            Bytecode::Store { index } => {
                match stack.pop() {
                    None => Cont::Error("stack underflow"),
                    Some(value) => {
                        if !stack.has_local(index as usize) {
                            return Cont::Error("index out of range");
                        }
                        stack.store_local(index as usize, value);
                        Cont::Continue
                    },
                }
            },
            Bytecode::Closure { index } => {
                if index as usize >= self.prototype.prototypes.len() {
                    return Cont::Error("index out of range");
                }
                let prototype = self.prototype.prototypes[index as usize].clone();
                stack.push(Value::Closure(prototype));
                Cont::Continue
            },
            Bytecode::Call { arguments } => {
                match stack.pop() {
                    None => Cont::Error("stack underflow"),
                    Some(callee) => {
                        match stack.pop_many(arguments as usize) {
                            None => Cont::Error("stack underflow"),
                            Some(args) => self.apply(stack, callee, args),
                        }
                    },
                }
            },
            Bytecode::LoadConst { index } => {
                if index as usize >= self.prototype.constant_pool.len() {
                    return Cont::Error("index out of range");
                }
                let value = self.prototype.constant_pool[index as usize].to_value();
                stack.push(value);
                Cont::Continue
            },
            Bytecode::Add => {
                match stack.pop() {
                    None => Cont::Error("stack underflow"),
                    Some(rhs) => {
                        match stack.pop() {
                            None => Cont::Error("stack underflow"),
                            Some(lhs) => {
                                assert(old(stack)@.top(2)[0] == lhs);
                                assert(old(stack)@.top(2)[1] == rhs);
                                assert(stack@.values =~= old(stack)@.drop_top(2).values);
                                match (lhs, rhs) {
                                    (Value::Number(x), Value::Number(y)) => {
                                        stack.push(Value::Number(add_numbers(x, y)));
                                        Cont::Continue
                                    },
                                    _ => Cont::Error("type error"),
                                }
                            },
                        }
                    },
                }
            },
        }
    }

    /// Executes instructions until one halts the machine or fails.
    pub fn run(&mut self, stack: &mut Stack) -> (result: Result<(), &'static str>)
        requires
            old(self).wf(),
            old(stack).wf(),
        ensures
            final(self).wf(),
            final(stack).wf(),
            final(self)@ == run_spec(old(self)@, old(stack)@).machine,
            final(stack)@ == run_spec(old(self)@, old(stack)@).stack,
            match run_spec(old(self)@, old(stack)@).cont {
                Cont::Error(reason) => result == Err::<(), &'static str>(reason),
                _ => result == Ok::<(), &'static str>(()),
            },
    {
        loop
            invariant
                self.wf(),
                stack.wf(),
                run_spec(self@, stack@) == run_spec(old(self)@, old(stack)@),
            decreases work(self@),
        {
            let ghost before = (self@, stack@);
            match self.step(stack) {
                Cont::Halt => {
                    return Ok(());
                },
                Cont::Continue => {
                    proof {
                        lemma_step_lowers_work(before.0, before.1);
                    }
                },
                Cont::Error(reason) => {
                    return Err(reason);
                },
            }
        }
    }
}

} // verus!
