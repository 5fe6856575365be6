//! A scanner and parser for the Banjo graph language (a subset of Graphviz DOT),
//! together with the runtime data structures of its bytecode interpreter:
//! value stack, interned-string table, object headers and garbage-collector heap.

pub mod banjo;
pub mod chunk;
pub mod disassembler;
pub mod error;
pub mod gc;
pub mod graph_compiler;
pub mod obj;
pub mod op_code;
pub mod parser;
pub mod scanner;
pub mod stack;
pub mod table;
