//! The Banjo interpreter: programs and their checks, the compiler to bytecode,
//! the heap and its values, the virtual machine, its native functions, and the
//! values and errors a run reports.

pub mod ast;
pub mod chunk;
pub mod compiler;
pub mod disassembler;
pub mod error;
pub mod func_compiler;
pub mod gc;
pub mod native_functions;
pub mod obj;
pub mod op_code;
pub mod output;
pub mod source_check;
pub mod value;
pub mod vm;
