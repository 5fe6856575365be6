//! A chunk of bytecode for the stack machine of the graph language: its
//! instructions, the source line of each, and its constants.

use vstd::prelude::*;

use crate::op_code::OpCode;

verus! {

/// A chunk of bytecode: the instructions, the source line of each, and the
/// constants they name.
pub struct Chunk<V> {
    pub code: Vec<OpCode>,
    pub lines: Vec<u32>,
    pub constants: Vec<V>,
}

impl<V> Chunk<V> {
    /// An empty chunk.
    pub fn new() -> (c: Self)
        ensures
            c.code@ == Seq::<OpCode>::empty(),
            c.lines@ == Seq::<u32>::empty(),
            c.constants@ == Seq::<V>::empty(),
    {
        Chunk { code: Vec::new(), lines: Vec::new(), constants: Vec::new() }
    }

    /// Appends `op`, written on source line `line`.
    pub fn write(&mut self, op: OpCode, line: u32)
        ensures
            final(self).code@ == old(self).code@.push(op),
            final(self).lines@ == old(self).lines@.push(line),
            final(self).constants@ == old(self).constants@,
    {
        self.code.push(op);
        self.lines.push(line);
    }

    /// Appends `value` to the constants and returns its slot.
    pub fn add_constant(&mut self, value: V) -> (slot: usize)
        ensures
            final(self).constants@ == old(self).constants@.push(value),
            slot == old(self).constants@.len(),
            final(self).code@ == old(self).code@,
            final(self).lines@ == old(self).lines@,
    {
        self.constants.push(value);
        self.constants.len() - 1
    }

    /// Empties the code and the constants; the lines stay.
    pub fn free(&mut self)
        ensures
            final(self).code@ == Seq::<OpCode>::empty(),
            final(self).constants@ == Seq::<V>::empty(),
            final(self).lines@ == old(self).lines@,
    {
        self.code.clear();
        self.constants.clear();
    }
}

} // verus!
