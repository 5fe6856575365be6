use vstd::prelude::*;

use crate::banjo::chunk::Chunk;
use crate::banjo::value::Value;
use crate::gc::{GcRef, ObjHeader};

/// Banjo's heap strings are the collector's strings.
pub use crate::obj::LoxString as BanjoString;
pub use crate::obj::{fnv1a, hash_string, ObjectType};

verus! {

/// A compiled function: its number of parameters, its code, and its name (`None`
/// for the top-level script).
pub struct Function<N> {
    pub header: ObjHeader,
    pub arity: usize,
    pub chunk: Chunk<N>,
    pub name: Option<GcRef<BanjoString>>,
}

impl<N: Copy> Function<N> {
    /// An empty function with the given name and number of parameters.
    pub fn new(name: Option<GcRef<BanjoString>>, arity: usize) -> (f: Self)
        ensures
            f.header.obj_type == ObjectType::Function,
            !f.header.is_marked,
            f.arity == arity,
            f.name == name,
            f.chunk.code@ == Seq::<crate::banjo::op_code::OpCode>::empty(),
            f.chunk.constants@ == Seq::<Value<N>>::empty(),
    {
        Self { header: ObjHeader::new(ObjectType::Function), arity, chunk: Chunk::new(), name }
    }
}

/// A function as plain values: its name, number of parameters, code and constants.
pub struct FunctionView<N> {
    pub name: Option<GcRef<BanjoString>>,
    pub arity: usize,
    pub code: Seq<crate::banjo::op_code::OpCode>,
    pub constants: Seq<Value<N>>,
}

/// The plain value of a function.
pub open spec fn function_view<N>(f: Function<N>) -> FunctionView<N> {
    FunctionView { name: f.name, arity: f.arity, code: f.chunk.code@, constants: f.chunk.constants@ }
}

/// The functions the interpreter provides itself.
#[derive(Clone, Copy, PartialEq, Eq, Structural, Debug)]
pub enum Native {
    /// Seconds since the Unix epoch.
    Clock,
    /// The sum of the arguments.
    Sum,
    /// The product of the arguments.
    Product,
}

/// A function the interpreter provides itself.
pub struct NativeFunction {
    pub header: ObjHeader,
    pub function: Native,
}

impl NativeFunction {
    /// A heap object for the native function `function`.
    pub fn new(function: Native) -> (f: Self)
        ensures
            f.header.obj_type == ObjectType::NativeFunction,
            !f.header.is_marked,
            f.function == function,
    {
        Self { header: ObjHeader::new(ObjectType::NativeFunction), function }
    }
}

/// A list of values.
pub struct List<N> {
    pub header: ObjHeader,
    pub values: Vec<Value<N>>,
}

impl<N> List<N> {
    /// A heap object for the list `values`.
    pub fn new(values: Vec<Value<N>>) -> (l: Self)
        ensures
            l.header.obj_type == ObjectType::List,
            !l.header.is_marked,
            l.values@ == values@,
    {
        Self { header: ObjHeader::new(ObjectType::List), values }
    }
}

} // verus!
