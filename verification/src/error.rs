use vstd::prelude::*;

verus! {

/// An error from compiling or running a program.
#[derive(Clone, Copy, Debug)]
pub enum LoxError {
    CompileError(&'static str),
    RuntimeError,
}

pub type Result<T> = std::result::Result<T, LoxError>;

} // verus!
