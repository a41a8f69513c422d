//! Runtime values, and the compiled functions that they refer to.

use std::rc::Rc;
use vstd::prelude::*;

use crate::bytecode::Bytecode;

verus! {

/// A runtime value.
#[derive(Debug)]
pub enum Value {
    /// A double, held as its bit pattern.
    Number(u64),
    Boolean(bool),
    /// A function that has received none of its arguments yet.
    Closure(Rc<Prototype>),
    /// A handle on a record of the machine's table of partial applications.
    /// Copies of a handle denote the same record.
    Partial(usize),
}

impl Clone for Value {
    fn clone(&self) -> (copy: Self)
        ensures
            copy == *self,
    {
        match self {
            Value::Number(bits) => Value::Number(*bits),
            Value::Boolean(b) => Value::Boolean(*b),
            Value::Closure(prototype) => Value::Closure(prototype.clone()),
            Value::Partial(handle) => Value::Partial(*handle),
        }
    }
}

impl Default for Value {
    /// The value of a local slot that nothing was stored to: the number zero.
    fn default() -> (value: Self)
        ensures
            value == Value::Number(0),
    {
        Value::Number(0)
    }
}

/// A literal of a constant pool.
#[derive(Clone, Copy, Debug)]
pub enum Constant {
    /// A double, held as its bit pattern.
    Number(u64),
}

impl Constant {
    /// The value that loading this constant pushes.
    pub open spec fn value(self) -> Value {
        match self {
            Constant::Number(bits) => Value::Number(bits),
        }
    }

    pub fn to_value(self) -> (value: Value)
        ensures
            value == self.value(),
    {
        match self {
            Constant::Number(bits) => Value::Number(bits),
        }
    }
}

/// A compiled function: immutable once built, shared by the closures made
/// from it and by the frames that run it.
#[derive(Clone, Debug)]
pub struct Prototype {
    /// Number of parameters.
    pub arity: u8,
    /// Number of local slots of a call, parameters included.
    pub locals: u16,
    pub constant_pool: Vec<Constant>,
    /// The functions defined inside this one.
    pub prototypes: Vec<Rc<Prototype>>,
    pub bytecode: Vec<Bytecode>,
}

/// The tables of a prototype as sequences.
pub struct PrototypeView {
    pub arity: u8,
    pub locals: u16,
    pub constant_pool: Seq<Constant>,
    pub prototypes: Seq<Rc<Prototype>>,
    pub bytecode: Seq<Bytecode>,
}

impl View for Prototype {
    type V = PrototypeView;

    open spec fn view(&self) -> PrototypeView {
        PrototypeView {
            arity: self.arity,
            locals: self.locals,
            constant_pool: self.constant_pool@,
            prototypes: self.prototypes@,
            bytecode: self.bytecode@,
        }
    }
}

pub struct PrototypeBuilder {
    arity: u8,
    locals: u16,
    constant_pool: Vec<Constant>,
    prototypes: Vec<Rc<Prototype>>,
    bytecode: Vec<Bytecode>,
}

impl View for PrototypeBuilder {
    type V = PrototypeView;

    /// What `build` would return now.
    closed spec fn view(&self) -> PrototypeView {
        PrototypeView {
            arity: self.arity,
            locals: self.locals,
            constant_pool: self.constant_pool@,
            prototypes: self.prototypes@,
            bytecode: self.bytecode@,
        }
    }
}

impl PrototypeBuilder {
    pub fn new() -> (builder: Self)
        ensures
            builder@ == (PrototypeView {
                arity: 0,
                locals: 0,
                constant_pool: Seq::empty(),
                prototypes: Seq::empty(),
                bytecode: Seq::empty(),
            }),
    {
        Self {
            arity: 0,
            locals: 0,
            constant_pool: Vec::new(),
            prototypes: Vec::new(),
            bytecode: Vec::new(),
        }
    }

    /// Appends an instruction.
    pub fn emit(self, bytecode: Bytecode) -> (builder: Self)
        ensures
            builder@ == (PrototypeView { bytecode: self@.bytecode.push(bytecode), ..self@ }),
    {
        let mut builder = self;
        builder.bytecode.push(bytecode);
        builder
    }

    pub fn arity(self, arity: u8) -> (builder: Self)
        ensures
            builder@ == (PrototypeView { arity, ..self@ }),
    {
        Self { arity, ..self }
    }

    pub fn locals(self, locals: u16) -> (builder: Self)
        ensures
            builder@ == (PrototypeView { locals, ..self@ }),
    {
        Self { locals, ..self }
    }

    /// Appends a constant to the pool.
    pub fn constant(self, constant: Constant) -> (builder: Self)
        ensures
            builder@ == (PrototypeView {
                constant_pool: self@.constant_pool.push(constant),
                ..self@
            }),
    {
        let mut builder = self;
        builder.constant_pool.push(constant);
        builder
    }

    /// Appends a nested prototype.
    pub fn prototype(self, proto: Prototype) -> (builder: Self)
        ensures
            builder@ == (PrototypeView {
                prototypes: self@.prototypes.push(Rc::new(proto)),
                ..self@
            }),
    {
        let mut builder = self;
        builder.prototypes.push(Rc::new(proto));
        builder
    }

    pub fn build(self) -> (proto: Prototype)
        ensures
            proto@ == self@,
    {
        Prototype {
            arity: self.arity,
            locals: self.locals,
            constant_pool: self.constant_pool,
            prototypes: self.prototypes,
            bytecode: self.bytecode,
        }
    }
}

/// A call that has received some of its arguments.
#[derive(Clone, Debug)]
pub struct Partial {
    /// Number of arguments that the target takes.
    pub arity: u8,
    /// Number of arguments received so far.
    pub applied: u8,
    /// The target.
    pub prototype: Rc<Prototype>,
    /// The arguments received so far, first received first.
    pub applied_values: Vec<Value>,
}

/// A partial application with its arguments as a sequence.
pub struct PartialView {
    pub arity: u8,
    pub applied: u8,
    pub prototype: Rc<Prototype>,
    pub applied_values: Seq<Value>,
}

impl View for Partial {
    type V = PartialView;

    open spec fn view(&self) -> PartialView {
        PartialView {
            arity: self.arity,
            applied: self.applied,
            prototype: self.prototype,
            applied_values: self.applied_values@,
        }
    }
}

impl PartialView {
    /// The count matches the arguments held, and at least one is missing.
    pub open spec fn wf(self) -> bool {
        &&& self.applied_values.len() == self.applied
        &&& self.applied < self.arity
    }
}

} // verus!
