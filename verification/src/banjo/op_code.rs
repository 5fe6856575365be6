use vstd::prelude::*;

verus! {

/// A slot in a chunk's constant table.
#[derive(Clone, Copy, PartialEq, Eq, Structural, Debug)]
pub struct Constant {
    pub slot: u8,
}

/// A slot among a function's locals.
pub type LocalIndex = u8;

/// A bytecode instruction.
#[derive(Clone, Copy, PartialEq, Eq, Structural, Debug)]
pub enum OpCode {
    Not,
    Negate,
    Add,
    Subtract,
    Multiply,
    Divide,
    Equal,
    Greater,
    Less,
    Return,
    // Literals stored directly as instructions
    Nil,
    True,
    False,
    Pop,
    /// Load constant for use to top of stack
    Constant(Constant),
    DefineGlobal(Constant),
    GetGlobal(Constant),
    GetLocal(LocalIndex),
    Call { arg_count: u8 },
    Function(Constant),
    /// Write top of stack to output
    Output { output_index: u8 },
}

} // verus!
