//! The instruction set.

use vstd::prelude::*;

verus! {

/// One instruction of the virtual machine.
///
/// Operands index into tables of the prototype that holds the instruction:
/// local slots of the active frame, the constant pool, the nested
/// prototypes.
#[allow(inconsistent_fields)]
#[derive(Clone, Copy, Debug)]
pub enum Bytecode {
    /// Leaves the active call, or halts the machine at the top level.
    Return,
    /// Pushes a copy of a local slot.
    Load { index: u16 },
    /// Pops the top operand into a local slot.
    Store { index: u16 },
    /// Pushes a closure over a nested prototype.
    Closure { index: u32 },
    /// Pops a callee, then `arguments` arguments, and applies the callee.
    Call { arguments: u8 },
    /// Pushes a constant of the pool.
    LoadConst { index: u16 },
    /// Pops two numbers and pushes their sum.
    Add,
}

} // verus!
