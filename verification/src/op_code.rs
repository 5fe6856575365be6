use vstd::prelude::*;

verus! {

/// A slot in a chunk's constant table.
#[derive(Clone, Copy, PartialEq, Eq, Structural, Debug)]
pub struct Constant {
    pub slot: u8,
}

impl Constant {
    /// The constant in slot zero.
    pub fn none() -> (c: Self)
        ensures
            c.slot == 0,
    {
        Self { slot: 0 }
    }
}

/// A method call by name: the constant that holds the name and the number of
/// arguments.
#[derive(Clone, Copy, PartialEq, Eq, Structural, Debug)]
pub struct Invoke {
    pub name: Constant,
    pub arg_count: u8,
}

/// A slot among a function's locals.
pub type LocalIndex = u8;

/// A slot among a function's captured variables.
pub type UpvalueIndex = u8;

/// A bytecode instruction.
#[derive(Clone, Copy, PartialEq, Eq, Structural, Debug)]
pub enum OpCode {
    Not,
    Negate,
    Add,
    Subtract,
    Multiply,
    Divide,
    Return,
    // Literals stored directly as instructions
    Nil,
    True,
    False,
    // Comparison
    Equal,
    Greater,
    Less,
    Print,
    Pop,
    /// Load constant for use to top of stack
    Constant(Constant),
    DefineGlobal(Constant),
    GetGlobal(Constant),
    SetGlobal(Constant),
    GetLocal(u8),
    SetLocal(u8),
    GetUpvalue(u8),
    SetUpvalue(u8),
    JumpIfFalse(u16),
    Jump(u16),
    Loop(u16),
    Call(u8),
    Closure(Constant),
    CloseUpvalue,
    Class(Constant),
    GetProperty(Constant),
    SetProperty(Constant),
    Method(Constant),
    Invoke(Invoke),
    Inherit,
    GetSuper(Constant),
    SuperInvoke(Invoke),
}

} // verus!
