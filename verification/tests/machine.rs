use std::rc::Rc;

use curried_vm::bytecode::Bytecode;
use curried_vm::machine::{Cont, Machine};
use curried_vm::stack::Stack;
use curried_vm::value::{Constant, Prototype, PrototypeBuilder, Value};

fn constant(x: f64) -> Constant {
    Constant::Number(x.to_bits())
}

fn number(x: f64) -> Value {
    Value::Number(x.to_bits())
}

fn as_number(value: &Value) -> f64 {
    match value {
        Value::Number(bits) => f64::from_bits(*bits),
        other => panic!("not a number: {:?}", other),
    }
}

fn as_handle(value: &Value) -> usize {
    match value {
        Value::Partial(handle) => *handle,
        other => panic!("not a partial application: {:?}", other),
    }
}

fn error_of(cont: Cont) -> &'static str {
    match cont {
        Cont::Error(reason) => reason,
        other => panic!("no error: {:?}", other),
    }
}

fn continues(cont: Cont) -> bool {
    matches!(cont, Cont::Continue)
}

/// `Load 0; Load 1; Add; Return`, with two parameters.
fn adder() -> Prototype {
    PrototypeBuilder::new()
        .arity(2)
        .locals(2)
        .emit(Bytecode::Load { index: 0 })
        .emit(Bytecode::Load { index: 1 })
        .emit(Bytecode::Add)
        .emit(Bytecode::Return)
        .build()
}

/// A function of three parameters that returns at once.
fn three() -> Prototype {
    PrototypeBuilder::new().arity(3).locals(4).emit(Bytecode::Return).build()
}

fn add_via_closure() -> Prototype {
    PrototypeBuilder::new()
        .arity(0)
        .locals(1)
        .constant(constant(41.))
        .constant(constant(1.))
        .emit(Bytecode::LoadConst { index: 0 })
        .emit(Bytecode::Closure { index: 0 })
        .emit(Bytecode::Call { arguments: 1 })
        .emit(Bytecode::Store { index: 0 })
        .emit(Bytecode::LoadConst { index: 1 })
        .emit(Bytecode::Load { index: 0 })
        .emit(Bytecode::Call { arguments: 1 })
        .emit(Bytecode::Return)
        .prototype(adder())
        .build()
}

#[test]
fn builder_fills_the_prototype() {
    let proto = add_via_closure();
    assert_eq!(proto.arity, 0);
    assert_eq!(proto.locals, 1);
    assert_eq!(proto.constant_pool.len(), 2);
    assert!(matches!(proto.constant_pool[0], Constant::Number(bits) if bits == 41.0f64.to_bits()));
    assert!(matches!(proto.constant_pool[1], Constant::Number(bits) if bits == 1.0f64.to_bits()));
    assert_eq!(proto.prototypes.len(), 1);
    assert_eq!(proto.prototypes[0].arity, 2);
    assert_eq!(proto.prototypes[0].locals, 2);
    assert_eq!(proto.bytecode.len(), 8);
    assert!(matches!(proto.bytecode[0], Bytecode::LoadConst { index: 0 }));
    assert!(matches!(proto.bytecode[3], Bytecode::Store { index: 0 }));
    assert!(matches!(proto.bytecode[6], Bytecode::Call { arguments: 1 }));
    assert!(matches!(proto.bytecode[7], Bytecode::Return));
}

#[test]
fn empty_builder_builds_an_empty_prototype() {
    let proto = PrototypeBuilder::new().build();
    assert_eq!(proto.arity, 0);
    assert_eq!(proto.locals, 0);
    assert!(proto.constant_pool.is_empty());
    assert!(proto.prototypes.is_empty());
    assert!(proto.bytecode.is_empty());
}

#[test]
fn constant_becomes_a_number() {
    assert_eq!(as_number(&constant(2.5).to_value()), 2.5);
}

#[test]
fn boot_starts_at_the_first_instruction() {
    let (machine, stack) = Machine::boot(add_via_closure());
    assert_eq!(machine.ip(), 0);
    assert_eq!(machine.depth(), 0);
    assert!(machine.partial(0).is_none());
    assert_eq!(machine.prototype().bytecode.len(), 8);
    assert_eq!(stack.local_base(), 0);
    assert_eq!(stack.stack_base(), 1);
    assert_eq!(stack.values().len(), 1);
    assert_eq!(as_number(&stack.values()[0]), 0.0);
}

#[test]
fn add_via_closure_leaves_forty_two() {
    let (mut machine, mut stack) = Machine::boot(add_via_closure());
    assert!(machine.run(&mut stack).is_ok());
    assert_eq!(machine.depth(), 0);
    assert_eq!(machine.ip(), 8);
    assert_eq!(stack.local_base(), 0);
    assert_eq!(stack.stack_base(), 1);
    assert_eq!(stack.values().len(), 2);
    assert_eq!(as_handle(&stack.values()[0]), 0);
    let sum = stack.pop().unwrap();
    assert!(matches!(sum, Value::Number(bits) if bits == 42.0f64.to_bits()));
    assert!(stack.pop().is_none());
}

#[test]
fn add_via_closure_step_by_step() {
    let (mut machine, mut stack) = Machine::boot(add_via_closure());
    // LoadConst 0
    assert!(continues(machine.step(&mut stack)));
    assert_eq!(as_number(&stack.values()[1]), 41.0);
    // Closure 0
    assert!(continues(machine.step(&mut stack)));
    assert!(matches!(&stack.values()[2], Value::Closure(proto) if proto.arity == 2));
    // Call 1: too few arguments, so a partial application
    assert!(continues(machine.step(&mut stack)));
    assert_eq!(machine.depth(), 0);
    assert_eq!(machine.ip(), 3);
    assert_eq!(stack.values().len(), 2);
    let handle = as_handle(&stack.values()[1]);
    let record = machine.partial(handle).unwrap();
    assert_eq!(record.arity, 2);
    assert_eq!(record.applied, 1);
    assert_eq!(record.applied_values.len(), 1);
    assert_eq!(as_number(&record.applied_values[0]), 41.0);
    // Store 0
    assert!(continues(machine.step(&mut stack)));
    assert_eq!(stack.values().len(), 1);
    assert_eq!(as_handle(&stack.values()[0]), handle);
    // LoadConst 1, Load 0
    assert!(continues(machine.step(&mut stack)));
    assert!(continues(machine.step(&mut stack)));
    assert_eq!(stack.values().len(), 3);
    // Call 1: the partial application is complete
    assert!(continues(machine.step(&mut stack)));
    assert_eq!(machine.depth(), 1);
    assert_eq!(machine.ip(), 0);
    assert_eq!(machine.prototype().arity, 2);
    assert_eq!(stack.local_base(), 1);
    assert_eq!(stack.stack_base(), 3);
    assert_eq!(stack.values().len(), 3);
    assert_eq!(as_number(&stack.load_local(0)), 41.0);
    assert_eq!(as_number(&stack.load_local(1)), 1.0);
    let record = machine.partial(handle).unwrap();
    assert_eq!(record.applied, 1);
    assert_eq!(record.applied_values.len(), 1);
    // Load 0, Load 1, Add
    assert!(continues(machine.step(&mut stack)));
    assert!(continues(machine.step(&mut stack)));
    assert!(continues(machine.step(&mut stack)));
    assert_eq!(stack.values().len(), 4);
    assert_eq!(as_number(&stack.values()[3]), 42.0);
    // Return to the root
    assert!(continues(machine.step(&mut stack)));
    assert_eq!(machine.depth(), 0);
    assert_eq!(machine.ip(), 7);
    assert_eq!(machine.prototype().arity, 0);
    assert_eq!(stack.local_base(), 0);
    assert_eq!(stack.stack_base(), 1);
    assert_eq!(stack.values().len(), 2);
    assert_eq!(as_number(&stack.values()[1]), 42.0);
    // Return with no caller
    assert!(matches!(machine.step(&mut stack), Cont::Halt));
    assert_eq!(stack.values().len(), 2);
}

#[test]
fn return_at_the_top_halts() {
    let proto = PrototypeBuilder::new().emit(Bytecode::Return).build();
    let (mut machine, mut stack) = Machine::boot(proto);
    stack.push(number(3.0));
    assert!(matches!(machine.step(&mut stack), Cont::Halt));
    assert_eq!(machine.ip(), 1);
    assert_eq!(stack.values().len(), 1);
}

#[test]
fn saturating_call_binds_arguments_in_call_order() {
    let proto = PrototypeBuilder::new()
        .constant(constant(1.))
        .constant(constant(2.))
        .constant(constant(3.))
        .emit(Bytecode::LoadConst { index: 0 })
        .emit(Bytecode::LoadConst { index: 1 })
        .emit(Bytecode::LoadConst { index: 2 })
        .emit(Bytecode::Closure { index: 0 })
        .emit(Bytecode::Call { arguments: 3 })
        .emit(Bytecode::Return)
        .prototype(three())
        .build();
    let (mut machine, mut stack) = Machine::boot(proto);
    for _ in 0..5 {
        assert!(continues(machine.step(&mut stack)));
    }
    assert_eq!(machine.depth(), 1);
    assert_eq!(machine.ip(), 0);
    assert_eq!(stack.local_base(), 0);
    assert_eq!(stack.stack_base(), 4);
    assert_eq!(as_number(&stack.load_local(0)), 1.0);
    assert_eq!(as_number(&stack.load_local(1)), 2.0);
    assert_eq!(as_number(&stack.load_local(2)), 3.0);
    assert_eq!(as_number(&stack.load_local(3)), 0.0);
    assert!(stack.pop().is_none());
    assert!(machine.run(&mut stack).is_ok());
    assert_eq!(machine.depth(), 0);
    assert_eq!(machine.ip(), 6);
    assert_eq!(stack.values().len(), 0);
}

#[test]
fn partial_application_accumulates_in_order() {
    let proto = PrototypeBuilder::new()
        .locals(1)
        .constant(constant(1.))
        .constant(constant(2.))
        .constant(constant(3.))
        .emit(Bytecode::LoadConst { index: 0 })
        .emit(Bytecode::Closure { index: 0 })
        .emit(Bytecode::Call { arguments: 1 })
        .emit(Bytecode::Store { index: 0 })
        .emit(Bytecode::LoadConst { index: 1 })
        .emit(Bytecode::Load { index: 0 })
        .emit(Bytecode::Call { arguments: 1 })
        .emit(Bytecode::LoadConst { index: 2 })
        .emit(Bytecode::Load { index: 0 })
        .emit(Bytecode::Call { arguments: 1 })
        .emit(Bytecode::Return)
        .prototype(three())
        .build();
    let (mut machine, mut stack) = Machine::boot(proto);
    for _ in 0..4 {
        assert!(continues(machine.step(&mut stack)));
    }
    let handle = as_handle(&stack.values()[0]);
    assert_eq!(machine.partial(handle).unwrap().applied, 1);
    for _ in 0..3 {
        assert!(continues(machine.step(&mut stack)));
    }
    // The extension hands back the same handle, and the copy in the local
    // slot denotes the extended record too.
    assert_eq!(machine.depth(), 0);
    assert_eq!(stack.values().len(), 2);
    assert_eq!(as_handle(&stack.values()[1]), handle);
    assert_eq!(as_handle(&stack.values()[0]), handle);
    let record = machine.partial(handle).unwrap();
    assert_eq!(record.arity, 3);
    assert_eq!(record.applied, 2);
    assert_eq!(record.applied_values.len(), 2);
    assert_eq!(as_number(&record.applied_values[0]), 1.0);
    assert_eq!(as_number(&record.applied_values[1]), 2.0);
    assert!(machine.partial(handle + 1).is_none());
    // The third argument through the copy in the local slot completes it.
    for _ in 0..3 {
        assert!(continues(machine.step(&mut stack)));
    }
    assert_eq!(machine.depth(), 1);
    assert_eq!(as_number(&stack.load_local(0)), 1.0);
    assert_eq!(as_number(&stack.load_local(1)), 2.0);
    assert_eq!(as_number(&stack.load_local(2)), 3.0);
    assert_eq!(machine.partial(handle).unwrap().applied, 2);
    assert!(machine.run(&mut stack).is_ok());
}

#[test]
fn partial_application_takes_several_arguments_at_once() {
    let (mut machine, mut stack) = Machine::boot(PrototypeBuilder::new().build());
    let callee = Value::Closure(Rc::new(three()));
    assert!(continues(machine.apply(&mut stack, callee, vec![number(1.0), number(2.0)])));
    let handle = as_handle(&stack.pop().unwrap());
    assert_eq!(machine.partial(handle).unwrap().applied, 2);
    assert!(continues(machine.apply(&mut stack, Value::Partial(handle), vec![number(3.0)])));
    assert_eq!(machine.depth(), 1);
    assert_eq!(as_number(&stack.load_local(0)), 1.0);
    assert_eq!(as_number(&stack.load_local(1)), 2.0);
    assert_eq!(as_number(&stack.load_local(2)), 3.0);
}

#[test]
fn call_without_arguments_on_a_function_of_some() {
    let (mut machine, mut stack) = Machine::boot(PrototypeBuilder::new().build());
    let callee = Value::Closure(Rc::new(adder()));
    assert!(continues(machine.apply(&mut stack, callee, vec![])));
    let handle = as_handle(&stack.pop().unwrap());
    let record = machine.partial(handle).unwrap();
    assert_eq!(record.applied, 0);
    assert_eq!(record.applied_values.len(), 0);
    assert_eq!(machine.depth(), 0);
}

#[test]
fn call_of_a_function_without_parameters() {
    let proto = PrototypeBuilder::new()
        .emit(Bytecode::Closure { index: 0 })
        .emit(Bytecode::Call { arguments: 0 })
        .emit(Bytecode::Return)
        .prototype(
            PrototypeBuilder::new()
                .constant(constant(9.))
                .emit(Bytecode::LoadConst { index: 0 })
                .emit(Bytecode::Return)
                .build(),
        )
        .build();
    let (mut machine, mut stack) = Machine::boot(proto);
    assert!(machine.run(&mut stack).is_ok());
    assert_eq!(stack.values().len(), 1);
    assert_eq!(as_number(&stack.values()[0]), 9.0);
}

#[test]
fn too_many_arguments_for_a_closure() {
    let (mut machine, mut stack) = Machine::boot(PrototypeBuilder::new().build());
    let callee = Value::Closure(Rc::new(adder()));
    let cont = machine.apply(&mut stack, callee, vec![number(1.0), number(2.0), number(3.0)]);
    assert_eq!(error_of(cont), "arity error");
    assert_eq!(machine.depth(), 0);
    assert_eq!(stack.values().len(), 0);
}

#[test]
fn too_many_arguments_for_a_partial_application() {
    let (mut machine, mut stack) = Machine::boot(PrototypeBuilder::new().build());
    let callee = Value::Closure(Rc::new(adder()));
    assert!(continues(machine.apply(&mut stack, callee, vec![number(1.0)])));
    let handle = as_handle(&stack.pop().unwrap());
    let cont = machine.apply(&mut stack, Value::Partial(handle), vec![number(2.0), number(3.0)]);
    assert_eq!(error_of(cont), "arity error");
    let record = machine.partial(handle).unwrap();
    assert_eq!(record.applied, 1);
    assert_eq!(record.applied_values.len(), 1);
}

#[test]
fn too_many_arguments_stop_the_run() {
    let proto = PrototypeBuilder::new()
        .constant(constant(1.))
        .emit(Bytecode::LoadConst { index: 0 })
        .emit(Bytecode::LoadConst { index: 0 })
        .emit(Bytecode::LoadConst { index: 0 })
        .emit(Bytecode::Closure { index: 0 })
        .emit(Bytecode::Call { arguments: 3 })
        .emit(Bytecode::Return)
        .prototype(adder())
        .build();
    let (mut machine, mut stack) = Machine::boot(proto);
    assert_eq!(machine.run(&mut stack), Err("arity error"));
    assert_eq!(machine.ip(), 5);
    assert_eq!(stack.values().len(), 0);
}

#[test]
fn call_of_a_value_that_is_no_function() {
    let (mut machine, mut stack) = Machine::boot(PrototypeBuilder::new().build());
    assert_eq!(error_of(machine.apply(&mut stack, number(1.0), vec![])), "type error");
    assert_eq!(error_of(machine.apply(&mut stack, Value::Boolean(true), vec![])), "type error");
    assert_eq!(error_of(machine.apply(&mut stack, Value::Partial(0), vec![])), "type error");
}

#[test]
fn add_of_a_value_that_is_no_number() {
    let proto = PrototypeBuilder::new().emit(Bytecode::Add).emit(Bytecode::Return).build();
    let (mut machine, mut stack) = Machine::boot(proto);
    stack.push(number(1.0));
    stack.push(Value::Boolean(true));
    assert_eq!(machine.run(&mut stack), Err("type error"));
    assert_eq!(stack.values().len(), 0);

    let proto = PrototypeBuilder::new().emit(Bytecode::Add).emit(Bytecode::Return).build();
    let (mut machine, mut stack) = Machine::boot(proto);
    stack.push(Value::Boolean(false));
    stack.push(number(1.0));
    assert_eq!(machine.run(&mut stack), Err("type error"));
}

#[test]
fn add_rounds_as_doubles_do() {
    let proto = PrototypeBuilder::new()
        .constant(constant(0.1))
        .constant(constant(0.2))
        .emit(Bytecode::LoadConst { index: 0 })
        .emit(Bytecode::LoadConst { index: 1 })
        .emit(Bytecode::Add)
        .emit(Bytecode::Return)
        .build();
    let (mut machine, mut stack) = Machine::boot(proto);
    assert!(machine.run(&mut stack).is_ok());
    assert!(matches!(stack.pop(), Some(Value::Number(bits)) if bits == (0.1f64 + 0.2f64).to_bits()));
}

#[test]
fn add_takes_the_left_operand_from_below() {
    let proto = PrototypeBuilder::new()
        .constant(constant(f64::INFINITY))
        .constant(constant(-1.0))
        .emit(Bytecode::LoadConst { index: 0 })
        .emit(Bytecode::LoadConst { index: 1 })
        .emit(Bytecode::Add)
        .emit(Bytecode::Return)
        .build();
    let (mut machine, mut stack) = Machine::boot(proto);
    assert!(machine.run(&mut stack).is_ok());
    assert_eq!(as_number(&stack.pop().unwrap()), f64::INFINITY);
}

#[test]
fn underflow_is_an_error() {
    for instruction in [
        Bytecode::Add,
        Bytecode::Store { index: 0 },
        Bytecode::Call { arguments: 0 },
    ] {
        let proto = PrototypeBuilder::new().locals(1).emit(instruction).build();
        let (mut machine, mut stack) = Machine::boot(proto);
        assert_eq!(error_of(machine.step(&mut stack)), "stack underflow");
        assert_eq!(stack.values().len(), 1);
        assert_eq!(machine.ip(), 1);
    }
}

#[test]
fn underflow_keeps_what_was_taken_before_it() {
    let proto = PrototypeBuilder::new().locals(1).emit(Bytecode::Add).build();
    let (mut machine, mut stack) = Machine::boot(proto);
    stack.push(number(1.0));
    assert_eq!(machine.run(&mut stack), Err("stack underflow"));
    assert_eq!(stack.values().len(), 1);

    let proto = PrototypeBuilder::new().emit(Bytecode::Call { arguments: 2 }).build();
    let (mut machine, mut stack) = Machine::boot(proto);
    stack.push(number(1.0));
    stack.push(Value::Closure(Rc::new(adder())));
    assert_eq!(machine.run(&mut stack), Err("stack underflow"));
    assert_eq!(stack.values().len(), 1);
}

#[test]
fn operands_of_the_caller_are_out_of_reach() {
    // The callee adds with one operand of its own: the caller's operand
    // beneath its frame does not count.
    let callee = PrototypeBuilder::new()
        .constant(constant(1.))
        .emit(Bytecode::LoadConst { index: 0 })
        .emit(Bytecode::Add)
        .emit(Bytecode::Return)
        .build();
    let proto = PrototypeBuilder::new()
        .constant(constant(5.))
        .emit(Bytecode::LoadConst { index: 0 })
        .emit(Bytecode::Closure { index: 0 })
        .emit(Bytecode::Call { arguments: 0 })
        .emit(Bytecode::Return)
        .prototype(callee)
        .build();
    let (mut machine, mut stack) = Machine::boot(proto);
    assert_eq!(machine.run(&mut stack), Err("stack underflow"));
    assert_eq!(machine.depth(), 1);
    assert_eq!(as_number(&stack.values()[0]), 5.0);
}

#[test]
fn index_out_of_range_is_an_error() {
    for instruction in [
        Bytecode::Load { index: 1 },
        Bytecode::LoadConst { index: 1 },
        Bytecode::Closure { index: 1 },
    ] {
        let proto = PrototypeBuilder::new()
            .locals(1)
            .constant(constant(1.))
            .prototype(adder())
            .emit(instruction)
            .build();
        let (mut machine, mut stack) = Machine::boot(proto);
        assert_eq!(machine.run(&mut stack), Err("index out of range"));
        assert_eq!(stack.values().len(), 1);
    }
    let proto = PrototypeBuilder::new().locals(1).emit(Bytecode::Store { index: 1 }).build();
    let (mut machine, mut stack) = Machine::boot(proto);
    stack.push(number(1.0));
    assert_eq!(machine.run(&mut stack), Err("index out of range"));
    assert_eq!(stack.values().len(), 1);
}

#[test]
fn more_parameters_than_local_slots() {
    let callee = PrototypeBuilder::new().arity(2).locals(1).emit(Bytecode::Return).build();
    let (mut machine, mut stack) = Machine::boot(PrototypeBuilder::new().build());
    let cont = machine.apply(
        &mut stack,
        Value::Closure(Rc::new(callee)),
        vec![number(1.0), number(2.0)],
    );
    assert_eq!(error_of(cont), "index out of range");
    assert_eq!(machine.depth(), 0);
    assert_eq!(stack.values().len(), 0);
}

#[test]
fn running_off_the_code_is_an_error() {
    let (mut machine, mut stack) = Machine::boot(PrototypeBuilder::new().build());
    assert_eq!(machine.run(&mut stack), Err("instruction out of range"));
    assert_eq!(machine.ip(), 0);

    let proto = PrototypeBuilder::new()
        .constant(constant(1.))
        .emit(Bytecode::LoadConst { index: 0 })
        .build();
    let (mut machine, mut stack) = Machine::boot(proto);
    assert_eq!(machine.run(&mut stack), Err("instruction out of range"));
    assert_eq!(machine.ip(), 1);
    assert_eq!(stack.values().len(), 1);
}

#[test]
fn return_to_a_stack_of_another_machine() {
    let proto = PrototypeBuilder::new()
        .locals(1)
        .emit(Bytecode::Closure { index: 0 })
        .emit(Bytecode::Call { arguments: 0 })
        .emit(Bytecode::Return)
        .prototype(PrototypeBuilder::new().emit(Bytecode::Return).build())
        .build();
    let (mut machine, mut stack) = Machine::boot(proto);
    assert!(continues(machine.step(&mut stack)));
    assert!(continues(machine.step(&mut stack)));
    assert_eq!(machine.depth(), 1);
    let mut other = Stack::new_with_local_size(0);
    assert_eq!(error_of(machine.step(&mut other)), "frame mismatch");
    assert_eq!(machine.depth(), 1);
}

#[test]
fn callee_stores_leave_the_caller_alone() {
    // The callee overwrites its local slots 0 and 1; the caller's local
    // slots 0 and 1 and its operand keep their values.
    let callee = PrototypeBuilder::new()
        .arity(1)
        .locals(2)
        .constant(constant(100.))
        .emit(Bytecode::LoadConst { index: 0 })
        .emit(Bytecode::Store { index: 0 })
        .emit(Bytecode::LoadConst { index: 0 })
        .emit(Bytecode::Store { index: 1 })
        .emit(Bytecode::Load { index: 0 })
        .emit(Bytecode::Return)
        .build();
    let proto = PrototypeBuilder::new()
        .locals(2)
        .constant(constant(1.))
        .constant(constant(2.))
        .constant(constant(3.))
        .emit(Bytecode::LoadConst { index: 0 })
        .emit(Bytecode::Store { index: 0 })
        .emit(Bytecode::LoadConst { index: 1 })
        .emit(Bytecode::Store { index: 1 })
        .emit(Bytecode::LoadConst { index: 2 })
        .emit(Bytecode::LoadConst { index: 0 })
        .emit(Bytecode::Closure { index: 0 })
        .emit(Bytecode::Call { arguments: 1 })
        .emit(Bytecode::Return)
        .prototype(callee)
        .build();
    let (mut machine, mut stack) = Machine::boot(proto);
    for _ in 0..8 {
        assert!(continues(machine.step(&mut stack)));
    }
    assert_eq!(machine.depth(), 1);
    assert_eq!(stack.local_base(), 3);
    assert_eq!(as_number(&stack.load_local(0)), 1.0);
    for _ in 0..5 {
        assert!(continues(machine.step(&mut stack)));
        assert_eq!(machine.depth(), 1);
        assert_eq!(as_number(&stack.values()[0]), 1.0);
        assert_eq!(as_number(&stack.values()[1]), 2.0);
        assert_eq!(as_number(&stack.values()[2]), 3.0);
    }
    assert_eq!(as_number(&stack.load_local(0)), 100.0);
    assert_eq!(as_number(&stack.load_local(1)), 100.0);
    assert!(machine.run(&mut stack).is_ok());
    assert_eq!(machine.depth(), 0);
    assert_eq!(stack.local_base(), 0);
    assert_eq!(stack.stack_base(), 2);
    assert_eq!(as_number(&stack.load_local(0)), 1.0);
    assert_eq!(as_number(&stack.load_local(1)), 2.0);
    assert_eq!(stack.values().len(), 4);
    assert_eq!(as_number(&stack.values()[2]), 3.0);
    assert_eq!(as_number(&stack.values()[3]), 100.0);
}

#[test]
fn return_resumes_the_caller() {
    let proto = PrototypeBuilder::new()
        .locals(3)
        .constant(constant(1.))
        .emit(Bytecode::LoadConst { index: 0 })
        .emit(Bytecode::Closure { index: 0 })
        .emit(Bytecode::Call { arguments: 0 })
        .emit(Bytecode::Return)
        .prototype(PrototypeBuilder::new().locals(5).emit(Bytecode::Return).build())
        .build();
    let (mut machine, mut stack) = Machine::boot(proto);
    for _ in 0..3 {
        assert!(continues(machine.step(&mut stack)));
    }
    assert_eq!(machine.depth(), 1);
    assert_eq!(machine.ip(), 0);
    assert_eq!(machine.prototype().locals, 5);
    assert_eq!(stack.local_base(), 4);
    assert_eq!(stack.stack_base(), 9);
    assert!(continues(machine.step(&mut stack)));
    assert_eq!(machine.depth(), 0);
    assert_eq!(machine.ip(), 3);
    assert_eq!(machine.prototype().locals, 3);
    assert_eq!(stack.local_base(), 0);
    assert_eq!(stack.stack_base(), 3);
    assert_eq!(stack.values().len(), 4);
    assert!(matches!(machine.step(&mut stack), Cont::Halt));
}

#[test]
fn nested_calls_return_in_turn() {
    // outer(x) = inner(x) + x, inner(y) = y + y
    let inner = PrototypeBuilder::new()
        .arity(1)
        .locals(1)
        .emit(Bytecode::Load { index: 0 })
        .emit(Bytecode::Load { index: 0 })
        .emit(Bytecode::Add)
        .emit(Bytecode::Return)
        .build();
    let outer = PrototypeBuilder::new()
        .arity(1)
        .locals(1)
        .emit(Bytecode::Load { index: 0 })
        .emit(Bytecode::Closure { index: 0 })
        .emit(Bytecode::Call { arguments: 1 })
        .emit(Bytecode::Load { index: 0 })
        .emit(Bytecode::Add)
        .emit(Bytecode::Return)
        .prototype(inner)
        .build();
    let proto = PrototypeBuilder::new()
        .constant(constant(1.5))
        .emit(Bytecode::LoadConst { index: 0 })
        .emit(Bytecode::Closure { index: 0 })
        .emit(Bytecode::Call { arguments: 1 })
        .emit(Bytecode::Return)
        .prototype(outer)
        .build();
    let (mut machine, mut stack) = Machine::boot(proto);
    assert!(machine.run(&mut stack).is_ok());
    assert_eq!(machine.depth(), 0);
    assert_eq!(stack.values().len(), 1);
    assert_eq!(as_number(&stack.values()[0]), 4.5);
}

#[test]
fn two_closures_share_one_prototype() {
    let proto = PrototypeBuilder::new()
        .emit(Bytecode::Closure { index: 0 })
        .emit(Bytecode::Closure { index: 0 })
        .emit(Bytecode::Return)
        .prototype(adder())
        .build();
    let (mut machine, mut stack) = Machine::boot(proto);
    assert!(machine.run(&mut stack).is_ok());
    let second = stack.pop().unwrap();
    let first = stack.pop().unwrap();
    match (first, second) {
        (Value::Closure(a), Value::Closure(b)) => assert!(Rc::ptr_eq(&a, &b)),
        _ => panic!("no closures"),
    }
}
