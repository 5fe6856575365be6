use vstd::prelude::*;

use crate::banjo::ast::{BinaryType, LiteralType, UnaryType};
use crate::banjo::error::{fails_to_compile, BanjoError, Result};
use crate::banjo::op_code::{Constant, OpCode};
use crate::banjo::value::Value;
use crate::gc::Gc;
use vstd::string::StringSliceAdditionalSpecFns;

verus! {

/// A function's bytecode and the constants its instructions refer to.
pub struct Chunk<N> {
    pub code: Vec<OpCode>,
    pub constants: Vec<Value<N>>,
}

/// The instruction for a one-input operator.
pub open spec fn unary_code(unary_type: UnaryType) -> OpCode {
    match unary_type {
        UnaryType::Negate => OpCode::Negate,
        UnaryType::Not => OpCode::Not,
    }
}

/// The instructions for a two-input operator: `!=`, `>=` and `<=` are the
/// negations of `==`, `<` and `>`.
pub open spec fn binary_code(binary_type: BinaryType) -> Seq<OpCode> {
    match binary_type {
        BinaryType::Subtract => seq![OpCode::Subtract],
        BinaryType::Divide => seq![OpCode::Divide],
        BinaryType::Equals => seq![OpCode::Equal],
        BinaryType::Greater => seq![OpCode::Greater],
        BinaryType::Less => seq![OpCode::Less],
        BinaryType::NotEquals => seq![OpCode::Equal, OpCode::Not],
        BinaryType::GreaterEqual => seq![OpCode::Less, OpCode::Not],
        BinaryType::LessEqual => seq![OpCode::Greater, OpCode::Not],
    }
}

/// What a run of comparison instructions leaves on the stack when the two inputs
/// are the numbers `a` (pushed first) and `b`: `Less`, `Greater` and `Equal`
/// compare them, and each `Not` after that negates the answer. `None` for code
/// of any other shape.
pub open spec fn comparison_outcome(code: Seq<OpCode>, a: int, b: int) -> Option<bool>
    decreases code.len(),
{
    if code.len() == 1 {
        match code[0] {
            OpCode::Less => Some(a < b),
            OpCode::Greater => Some(a > b),
            OpCode::Equal => Some(a == b),
            _ => None,
        }
    } else if code.len() > 1 && code.last() == OpCode::Not {
        match comparison_outcome(code.drop_last(), a, b) {
            Some(x) => Some(!x),
            None => None,
        }
    } else {
        None
    }
}

/// Each comparison node compiles to code that answers the comparison it names,
/// for all inputs: `Less` is true exactly when the first input is less than the
/// second, `Greater` when it is greater, `Equals` when they are equal, and
/// `NotEquals`, `GreaterEqual` and `LessEqual` likewise. The arithmetic nodes
/// compile to the one instruction of their own operation.
pub proof fn comparisons_compile_to_what_they_name(a: int, b: int)
    ensures
        comparison_outcome(binary_code(BinaryType::Less), a, b) == Some(a < b),
        comparison_outcome(binary_code(BinaryType::Greater), a, b) == Some(a > b),
        comparison_outcome(binary_code(BinaryType::Equals), a, b) == Some(a == b),
        comparison_outcome(binary_code(BinaryType::NotEquals), a, b) == Some(a != b),
        comparison_outcome(binary_code(BinaryType::GreaterEqual), a, b) == Some(a >= b),
        comparison_outcome(binary_code(BinaryType::LessEqual), a, b) == Some(a <= b),
        binary_code(BinaryType::Subtract) == seq![OpCode::Subtract],
        binary_code(BinaryType::Divide) == seq![OpCode::Divide],
{
    reveal_with_fuel(comparison_outcome, 2);
    assert(binary_code(BinaryType::NotEquals).drop_last() =~= seq![OpCode::Equal]);
    assert(binary_code(BinaryType::GreaterEqual).drop_last() =~= seq![OpCode::Less]);
    assert(binary_code(BinaryType::LessEqual).drop_last() =~= seq![OpCode::Greater]);
}

/// The error of a chunk with more than 256 constants.
pub open spec fn too_many_constants() -> Seq<char> {
    "Too many constants in one chunk."@
}

impl<N: Copy> Chunk<N> {
    /// An empty chunk.
    pub fn new() -> (c: Self)
        ensures
            c.code@ == Seq::<OpCode>::empty(),
            c.constants@ == Seq::<Value<N>>::empty(),
    {
        Chunk { code: Vec::new(), constants: Vec::new() }
    }

    /// Write the given op code to the chunk
    pub fn emit(&mut self, opcode: OpCode)
        ensures
            final(self).code@ == old(self).code@.push(opcode),
            final(self).constants@ == old(self).constants@,
    {
        self.code.push(opcode);
    }

    /// Writes the instruction of a one-input operator.
    pub fn emit_unary(&mut self, unary_type: &UnaryType)
        ensures
            final(self).code@ == old(self).code@.push(unary_code(*unary_type)),
            final(self).constants@ == old(self).constants@,
    {
        match unary_type {
            UnaryType::Negate => self.emit(OpCode::Negate),
            UnaryType::Not => self.emit(OpCode::Not),
        }
    }

    /// Writes the instructions of a two-input operator.
    pub fn emit_binary(&mut self, binary_type: &BinaryType)
        ensures
            final(self).code@ == old(self).code@ + binary_code(*binary_type),
            final(self).constants@ == old(self).constants@,
    {
        let ghost before = self.code@;
        // Compile the operator
        match binary_type {
            BinaryType::Subtract => self.emit(OpCode::Subtract),
            BinaryType::Divide => self.emit(OpCode::Divide),
            BinaryType::Equals => self.emit(OpCode::Equal),
            BinaryType::Greater => self.emit(OpCode::Greater),
            BinaryType::Less => self.emit(OpCode::Less),
            BinaryType::NotEquals => {
                self.emit(OpCode::Equal);
                self.emit(OpCode::Not);
            },
            BinaryType::GreaterEqual => {
                self.emit(OpCode::Less);
                self.emit(OpCode::Not);
            },
            BinaryType::LessEqual => {
                self.emit(OpCode::Greater);
                self.emit(OpCode::Not);
            },
        }
        proof {
            assert(self.code@ =~= before + binary_code(*binary_type));
        }
    }

    /// Adds `value` to the constant table and returns its slot, or fails when
    /// the slot does not fit in a byte (the value is added all the same).
    pub fn make_constant(&mut self, value: Value<N>) -> (r: Result<Constant>)
        ensures
            final(self).code@ == old(self).code@,
            final(self).constants@ == old(self).constants@.push(value),
            old(self).constants@.len() <= 255 ==> r == Ok::<Constant, BanjoError>(
                Constant { slot: old(self).constants@.len() as u8 },
            ),
            old(self).constants@.len() > 255 ==> fails_to_compile(r, too_many_constants()),
    {
        let constant = self.add_constant(value);
        if constant > 255 {
            // a one-byte operand holds no more slots; an instruction with a
            // two-byte operand would lift this limit
            return Err(BanjoError::Compile("Too many constants in one chunk.".to_owned()));
        }
        Ok(Constant { slot: constant as u8 })
    }

    /// Adds `value` to the constant table and writes the instruction that loads it.
    fn emit_constant(&mut self, value: Value<N>) -> (r: Result<()>)
        ensures
            final(self).constants@ == old(self).constants@.push(value),
            old(self).constants@.len() <= 255 ==> {
                &&& r is Ok
                &&& final(self).code@ == old(self).code@.push(
                    OpCode::Constant(Constant { slot: old(self).constants@.len() as u8 }),
                )
            },
            old(self).constants@.len() > 255 ==> {
                &&& fails_to_compile(r, too_many_constants())
                &&& final(self).code@ == old(self).code@
            },
    {
        let slot = self.make_constant(value)?;
        self.emit(OpCode::Constant(slot));
        Ok(())
    }

    /// Appends `value` to the constant table and returns its slot.
    fn add_constant(&mut self, value: Value<N>) -> (slot: usize)
        ensures
            final(self).code@ == old(self).code@,
            final(self).constants@ == old(self).constants@.push(value),
            slot == old(self).constants@.len(),
    {
        self.constants.push(value);
        self.constants.len() - 1
    }

    /// Writes the code that loads a literal: booleans and nil as instructions,
    /// numbers and interned strings as constants.
    pub fn literal(&mut self, gc: &mut Gc, value: &LiteralType<N>) -> (r: Result<()>)
        requires
            old(gc).wf(),
            value matches LiteralType::String(s) ==> old(gc).is_interned(s@) || old(gc).has_room(),
        ensures
            final(gc).wf(),
            value matches LiteralType::String(s) ==> old(gc).interned_into(
                *final(gc),
                s@,
                final(self).constants@.last()->String_0.slot(),
            ),
            !(value is String) ==> *final(gc) == *old(gc),
            match *value {
                LiteralType::Bool(b) => {
                    &&& r is Ok
                    &&& final(self).code@ == old(self).code@.push(
                        if b {
                            OpCode::True
                        } else {
                            OpCode::False
                        },
                    )
                    &&& final(self).constants@ == old(self).constants@
                },
                LiteralType::Nil => {
                    &&& r is Ok
                    &&& final(self).code@ == old(self).code@.push(OpCode::Nil)
                    &&& final(self).constants@ == old(self).constants@
                },
                LiteralType::Number(n) => constant_loaded(
                    old(self).code@,
                    old(self).constants@,
                    final(self).code@,
                    final(self).constants@,
                    Value::Number(n),
                    r,
                ),
                LiteralType::String(_) => constant_loaded(
                    old(self).code@,
                    old(self).constants@,
                    final(self).code@,
                    final(self).constants@,
                    final(self).constants@.last(),
                    r,
                ) && final(self).constants@.last() is String,
            },
    {
        match value {
            LiteralType::Bool(b) => self.emit(
                if *b {
                    OpCode::True
                } else {
                    OpCode::False
                },
            ),
            LiteralType::Nil => self.emit(OpCode::Nil),
            LiteralType::Number(n) => self.emit_constant(Value::Number(*n))?,
            LiteralType::String(s) => {
                let value = Value::String(gc.intern(s.as_str()));
                self.emit_constant(value)?;
            },
        }
        Ok(())
    }
}

/// Loading a constant: `value` joins the table, and, when its slot fits in a
/// byte, an instruction loads it; otherwise the error says there are too many.
pub open spec fn constant_loaded<N>(
    code: Seq<OpCode>,
    constants: Seq<Value<N>>,
    new_code: Seq<OpCode>,
    new_constants: Seq<Value<N>>,
    value: Value<N>,
    r: Result<()>,
) -> bool {
    &&& new_constants == constants.push(value)
    &&& constants.len() <= 255 ==> {
        &&& r is Ok
        &&& new_code == code.push(OpCode::Constant(Constant { slot: constants.len() as u8 }))
    }
    &&& constants.len() > 255 ==> {
        &&& fails_to_compile(r, too_many_constants())
        &&& new_code == code
    }
}

impl<N: Copy> Default for Chunk<N> {
    fn default() -> (c: Self)
        ensures
            c.code@ == Seq::<OpCode>::empty(),
            c.constants@ == Seq::<Value<N>>::empty(),
    {
        Self::new()
    }
}

} // verus!
