use vstd::prelude::*;

use crate::banjo::obj::{BanjoString, Function, List, NativeFunction};
use crate::gc::GcRef;

verus! {

/// A value of a Banjo program. Numbers are held as `N`; the interpreter's own
/// arithmetic decides what they are. The other payloads name heap objects: a value
/// is not deep copied.
pub enum Value<N> {
    Nil,
    Bool(bool),
    Number(N),
    String(GcRef<BanjoString>),
    List(GcRef<List<N>>),
    NativeFunction(GcRef<NativeFunction>),
    Function(GcRef<Function<N>>),
}

impl<N: Copy> Clone for Value<N> {
    fn clone(&self) -> (v: Self)
        ensures
            v == *self,
    {
        *self
    }
}

impl<N: Copy> Copy for Value<N> {

}

/// A boolean or a number as an operand of adding numbers: `false` counts as 0
/// and `true` as 1.
#[derive(Debug)]
pub enum Summand<N> {
    Bool(bool),
    Number(N),
}

impl<N: Copy> Clone for Summand<N> {
    fn clone(&self) -> (s: Self)
        ensures
            s == *self,
    {
        *self
    }
}

impl<N: Copy> Copy for Summand<N> {

}

/// `nil` and `false` are falsey; every other value is truthy.
pub open spec fn falsey<N>(v: Value<N>) -> bool {
    match v {
        Value::Bool(b) => !b,
        Value::Nil => true,
        _ => false,
    }
}

impl<N> Value<N> {
    /// Whether the value counts as false in a condition.
    pub fn is_falsey(&self) -> (r: bool)
        ensures
            r == falsey(*self),
    {
        match self {
            Value::Bool(b) => !*b,
            Value::Nil => true,
            _ => false,
        }
    }
}

impl<N> Default for Value<N> {
    fn default() -> (v: Self)
        ensures
            v == Value::<N>::Nil,
    {
        Value::Nil
    }
}

} // verus!
