use vstd::prelude::*;

use crate::banjo::chunk::Chunk;
use crate::banjo::compiler::{decimal, push_decimal};
use crate::banjo::op_code::{Constant, OpCode};
use vstd::string::StringExecFns;

verus! {

/// `n` spaces.
pub open spec fn spaces(n: nat) -> Seq<char> {
    Seq::new(n, |i: int| ' ')
}

/// `n` zeros.
pub open spec fn zeros(n: nat) -> Seq<char> {
    Seq::new(n, |i: int| '0')
}

/// `s`, padded with spaces on the right to `width` characters.
pub open spec fn left_aligned(s: Seq<char>, width: nat) -> Seq<char> {
    if s.len() < width {
        s + spaces((width - s.len()) as nat)
    } else {
        s
    }
}

/// `s`, padded with spaces on the left to `width` characters.
pub open spec fn right_aligned(s: Seq<char>, width: nat) -> Seq<char> {
    if s.len() < width {
        spaces((width - s.len()) as nat) + s
    } else {
        s
    }
}

/// The decimal digits of `n`, padded with zeros on the left to `width`
/// characters.
pub open spec fn zero_padded(n: nat, width: nat) -> Seq<char> {
    if decimal(n).len() < width {
        zeros((width - decimal(n).len()) as nat) + decimal(n)
    } else {
        decimal(n)
    }
}

/// The name an instruction is listed under.
pub open spec fn opcode_name(op: OpCode) -> Seq<char> {
    match op {
        OpCode::Constant(_) => "OP_CONSTANT"@,
        OpCode::Negate => "OP_NEGATE"@,
        OpCode::Return => "OP_RETURN"@,
        OpCode::Add => "OP_ADD"@,
        OpCode::Subtract => "OP_SUBTRACT"@,
        OpCode::Multiply => "OP_MULTIPLY"@,
        OpCode::Divide => "OP_DIVIDE"@,
        OpCode::Nil => "OP_NIL"@,
        OpCode::True => "OP_TRUE"@,
        OpCode::False => "OP_FALSE"@,
        OpCode::Not => "OP_NOT"@,
        OpCode::Equal => "OP_EQUAL"@,
        OpCode::Greater => "OP_GREATER"@,
        OpCode::Less => "OP_LESS"@,
        OpCode::Pop => "OP_POP"@,
        OpCode::DefineGlobal(_) => "OP_DEFINE_GLOBAL"@,
        OpCode::GetGlobal(_) => "OP_GET_GLOBAL"@,
        OpCode::GetLocal(_) => "OP_GET_LOCAL"@,
        OpCode::Call { .. } => "OP_CALL"@,
        OpCode::Function(_) => "OP_FUNCTION"@,
        OpCode::Output { .. } => "OP_OUTPUT"@,
    }
}

/// An instruction with its operand, where it has one, set to zero: the operation
/// alone.
pub open spec fn without_operand(op: OpCode) -> OpCode {
    match op {
        OpCode::Constant(_) => OpCode::Constant(Constant { slot: 0 }),
        OpCode::DefineGlobal(_) => OpCode::DefineGlobal(Constant { slot: 0 }),
        OpCode::GetGlobal(_) => OpCode::GetGlobal(Constant { slot: 0 }),
        OpCode::Function(_) => OpCode::Function(Constant { slot: 0 }),
        OpCode::GetLocal(_) => OpCode::GetLocal(0),
        OpCode::Call { .. } => OpCode::Call { arg_count: 0 },
        OpCode::Output { .. } => OpCode::Output { output_index: 0 },
        _ => op,
    }
}

/// Each instruction is listed under a name of its own: two instructions share a
/// name exactly when they are the same operation (their operands may differ),
/// every name starts with `OP_`, and the comparisons are listed as `OP_GREATER`
/// and `OP_LESS`.
pub proof fn each_operation_has_its_own_name(a: OpCode, b: OpCode)
    ensures
        opcode_name(a) == opcode_name(b) <==> without_operand(a) == without_operand(b),
        opcode_name(a).len() > 3 && opcode_name(a).subrange(0, 3) == "OP_"@,
        opcode_name(OpCode::Greater) == "OP_GREATER"@,
        opcode_name(OpCode::Less) == "OP_LESS"@,
{
    reveal_strlit("OP_");
    reveal_strlit("OP_CONSTANT");
    reveal_strlit("OP_NEGATE");
    reveal_strlit("OP_RETURN");
    reveal_strlit("OP_ADD");
    reveal_strlit("OP_SUBTRACT");
    reveal_strlit("OP_MULTIPLY");
    reveal_strlit("OP_DIVIDE");
    reveal_strlit("OP_NIL");
    reveal_strlit("OP_TRUE");
    reveal_strlit("OP_FALSE");
    reveal_strlit("OP_NOT");
    reveal_strlit("OP_EQUAL");
    reveal_strlit("OP_GREATER");
    reveal_strlit("OP_LESS");
    reveal_strlit("OP_POP");
    reveal_strlit("OP_DEFINE_GLOBAL");
    reveal_strlit("OP_GET_GLOBAL");
    reveal_strlit("OP_GET_LOCAL");
    reveal_strlit("OP_CALL");
    reveal_strlit("OP_FUNCTION");
    reveal_strlit("OP_OUTPUT");
    assert(opcode_name(a).subrange(0, 3) =~= "OP_"@);
    if opcode_name(a) == opcode_name(b) {
        assert(opcode_name(a).len() == opcode_name(b).len());
        assert(opcode_name(a)[3] == opcode_name(b)[3]);
        assert(opcode_name(a)[4] == opcode_name(b)[4]);
    }
}

/// The listing of an instruction with no operand: its name.
pub open spec fn simple_line(name: Seq<char>) -> Seq<char> {
    name + "\n"@
}

/// The listing of an instruction with a one-byte operand: the name in sixteen
/// columns and the operand in four.
pub open spec fn byte_line(name: Seq<char>, operand: nat) -> Seq<char> {
    left_aligned(name, 16) + " "@ + right_aligned(decimal(operand), 4) + "\n"@
}

/// The listing of an instruction that names a constant: as for a byte operand,
/// then the constant, in quotes, as `constant_text` shows it.
pub open spec fn constant_line(name: Seq<char>, slot: nat, constant_text: Seq<char>) -> Seq<char> {
    left_aligned(name, 16) + " "@ + right_aligned(decimal(slot), 4) + " '"@ + constant_text + "'\n"@
}

/// The listing of instruction `op` at `offset`: the offset in four digits, then
/// the instruction; `constants` shows each constant.
pub open spec fn instruction_text(op: OpCode, offset: nat, constants: Seq<Seq<char>>) -> Seq<char> {
    zero_padded(offset, 4) + " "@ + match op {
        OpCode::Constant(c) => constant_line(opcode_name(op), c.slot as nat, constants[c.slot as int]),
        OpCode::DefineGlobal(c) => constant_line(opcode_name(op), c.slot as nat, constants[c.slot as int]),
        OpCode::GetGlobal(c) => constant_line(opcode_name(op), c.slot as nat, constants[c.slot as int]),
        OpCode::Function(c) => constant_line(opcode_name(op), c.slot as nat, constants[c.slot as int]),
        OpCode::GetLocal(index) => byte_line(opcode_name(op), index as nat),
        OpCode::Call { arg_count } => byte_line(opcode_name(op), arg_count as nat),
        OpCode::Output { output_index } => byte_line(opcode_name(op), output_index as nat),
        _ => simple_line(opcode_name(op)),
    }
}

/// The listings of the first `k` instructions of `code`.
pub open spec fn listing(code: Seq<OpCode>, constants: Seq<Seq<char>>, k: nat) -> Seq<char>
    decreases k,
{
    if k == 0 {
        Seq::empty()
    } else {
        listing(code, constants, (k - 1) as nat) + instruction_text(code[k - 1], (k - 1) as nat, constants)
    }
}

/// Every instruction that names a constant names one that `count` constants
/// hold.
pub open spec fn constants_in_range(code: Seq<OpCode>, count: nat) -> bool {
    forall|i: int|
        0 <= i < code.len() ==> match #[trigger] code[i] {
            OpCode::Constant(c) | OpCode::DefineGlobal(c) | OpCode::GetGlobal(c) | OpCode::Function(c) => c.slot
                < count,
            _ => true,
        }
}

/// Appends `n` copies of `c`.
pub(crate) fn push_repeated(s: &mut String, c: &str, n: usize)
    requires
        c@.len() == 1,
    ensures
        final(s)@ == old(s)@ + Seq::new(n as nat, |i: int| c@[0]),
{
    let mut k: usize = 0;
    while k < n
        invariant
            c@.len() == 1,
            k <= n,
            s@ == old(s)@ + Seq::new(k as nat, |i: int| c@[0]),
        decreases n - k,
    {
        s.append(c);
        k += 1;
        proof {
            assert(s@ =~= old(s)@ + Seq::new(k as nat, |i: int| c@[0]));
        }
    }
}

/// The decimal digits of `n`.
pub(crate) fn decimal_text(n: usize) -> (t: String)
    ensures
        t@ == decimal(n as nat),
{
    let mut t = String::new();
    push_decimal(&mut t, n);
    proof {
        assert(t@ =~= decimal(n as nat));
    }
    t
}

/// Appends `text`, padded with spaces on the right to `width` characters.
pub(crate) fn push_left_aligned(s: &mut String, text: &str, width: usize)
    ensures
        final(s)@ == old(s)@ + left_aligned(text@, width as nat),
{
    s.append(text);
    let len = text.unicode_len();
    proof {
        reveal_strlit(" ");
    }
    if len < width {
        push_repeated(s, " ", width - len);
        proof {
            reveal_strlit(" ");
            assert(Seq::new((width - len) as nat, |i: int| " "@[0]) =~= spaces((width - len) as nat));
        }
    }
    proof {
        assert(s@ =~= old(s)@ + left_aligned(text@, width as nat));
    }
}

/// Appends `text`, padded with `pad` on the left to `width` characters.
pub(crate) fn push_right_aligned(s: &mut String, text: &str, width: usize, pad: &str)
    requires
        pad@.len() == 1,
    ensures
        final(s)@ == old(s)@ + if text@.len() < width {
            Seq::new((width - text@.len()) as nat, |i: int| pad@[0]) + text@
        } else {
            text@
        },
{
    let len = text.unicode_len();
    if len < width {
        push_repeated(s, pad, width - len);
    }
    s.append(text);
    proof {
        if len < width {
            assert(s@ =~= old(s)@ + (Seq::new((width - len) as nat, |i: int| pad@[0]) + text@));
        } else {
            assert(s@ =~= old(s)@ + text@);
        }
    }
}

/// The listing of an instruction with no operand.
fn simple_instruction(s: &mut String, name: &str, offset: usize) -> (next: usize)
    requires
        offset < usize::MAX,
    ensures
        final(s)@ == old(s)@ + simple_line(name@),
        next == offset + 1,
{
    s.append(name);
    s.append("\n");
    offset + 1
}

/// The listing of an instruction that names constant `constant`.
fn constant_instruction(s: &mut String, name: &str, offset: usize, constant: Constant, constant_text: &str) -> (next:
    usize)
    requires
        offset < usize::MAX,
    ensures
        final(s)@ == old(s)@ + constant_line(name@, constant.slot as nat, constant_text@),
        next == offset + 1,
{
    let ghost start = s@;
    push_left_aligned(s, name, 16);
    s.append(" ");
    let slot = decimal_text(constant.slot as usize);
    proof {
        reveal_strlit(" ");
    }
    push_right_aligned(s, slot.as_str(), 4, " ");
    s.append(" '");
    s.append(constant_text);
    s.append("'\n");
    proof {
        reveal_strlit(" ");
        let d = decimal(constant.slot as nat);
        if d.len() < 4 {
            assert(Seq::new((4 - d.len()) as nat, |i: int| " "@[0]) =~= spaces((4 - d.len()) as nat));
        }
        assert(s@ =~= start + constant_line(name@, constant.slot as nat, constant_text@));
    }
    offset + 1
}

/// The listing of an instruction with a one-byte operand.
fn byte_instruction(s: &mut String, name: &str, offset: usize, slot: u8) -> (next: usize)
    requires
        offset < usize::MAX,
    ensures
        final(s)@ == old(s)@ + byte_line(name@, slot as nat),
        next == offset + 1,
{
    let ghost start = s@;
    push_left_aligned(s, name, 16);
    s.append(" ");
    let operand = decimal_text(slot as usize);
    proof {
        reveal_strlit(" ");
    }
    push_right_aligned(s, operand.as_str(), 4, " ");
    s.append("\n");
    proof {
        reveal_strlit(" ");
        let d = decimal(slot as nat);
        if d.len() < 4 {
            assert(Seq::new((4 - d.len()) as nat, |i: int| " "@[0]) =~= spaces((4 - d.len()) as nat));
        }
        assert(s@ =~= start + byte_line(name@, slot as nat));
    }
    offset + 1
}

/// The name of an instruction.
fn name_of(op: OpCode) -> (name: &'static str)
    ensures
        name@ == opcode_name(op),
{
    match op {
        OpCode::Constant(_) => "OP_CONSTANT",
        OpCode::Negate => "OP_NEGATE",
        OpCode::Return => "OP_RETURN",
        OpCode::Add => "OP_ADD",
        OpCode::Subtract => "OP_SUBTRACT",
        OpCode::Multiply => "OP_MULTIPLY",
        OpCode::Divide => "OP_DIVIDE",
        OpCode::Nil => "OP_NIL",
        OpCode::True => "OP_TRUE",
        OpCode::False => "OP_FALSE",
        OpCode::Not => "OP_NOT",
        OpCode::Equal => "OP_EQUAL",
        OpCode::Greater => "OP_GREATER",
        OpCode::Less => "OP_LESS",
        OpCode::Pop => "OP_POP",
        OpCode::DefineGlobal(_) => "OP_DEFINE_GLOBAL",
        OpCode::GetGlobal(_) => "OP_GET_GLOBAL",
        OpCode::GetLocal(_) => "OP_GET_LOCAL",
        OpCode::Call { .. } => "OP_CALL",
        OpCode::Function(_) => "OP_FUNCTION",
        OpCode::Output { .. } => "OP_OUTPUT",
    }
}

/// Appends the listing of the instruction at `offset` and returns the offset of
/// the next one; `constants` shows each constant of the chunk.
pub fn disassemble_instruction<N>(s: &mut String, chunk: &Chunk<N>, offset: usize, constants: &Vec<String>) -> (next:
    usize)
    requires
        offset < chunk.code@.len(),
        constants_in_range(chunk.code@, constants@.len()),
    ensures
        final(s)@ == old(s)@ + instruction_text(
            chunk.code@[offset as int],
            offset as nat,
            constants@.map_values(|c: String| c@),
        ),
        next == offset + 1,
{
    let ghost start = s@;
    let ghost texts = constants@.map_values(|c: String| c@);
    // The code's length bounds the offsets.
    let _ = chunk.code.len();
    let digits = decimal_text(offset);
    proof {
        reveal_strlit("0");
    }
    push_right_aligned(s, digits.as_str(), 4, "0");
    s.append(" ");
    let ghost head = s@;
    proof {
        reveal_strlit("0");
        let d = decimal(offset as nat);
        if d.len() < 4 {
            assert(Seq::new((4 - d.len()) as nat, |i: int| "0"@[0]) =~= zeros((4 - d.len()) as nat));
        }
        assert(head =~= start + zero_padded(offset as nat, 4) + " "@);
    }
    let instruction = chunk.code[offset];
    let name = name_of(instruction);
    let next = match instruction {
        OpCode::Constant(c) | OpCode::DefineGlobal(c) | OpCode::GetGlobal(c) | OpCode::Function(c) => {
            proof {
                assert(constants_in_range(chunk.code@, constants@.len()));
                assert(c.slot < constants@.len());
            }
            constant_instruction(s, name, offset, c, constants[c.slot as usize].as_str())
        },
        OpCode::GetLocal(index) => byte_instruction(s, name, offset, index),
        OpCode::Call { arg_count } => byte_instruction(s, name, offset, arg_count),
        OpCode::Output { output_index } => byte_instruction(s, name, offset, output_index),
        _ => simple_instruction(s, name, offset),
    };
    proof {
        assert(s@ =~= start + instruction_text(chunk.code@[offset as int], offset as nat, texts));
    }
    next
}

/// The listing of a chunk: a header with its name, then each instruction;
/// `constants` shows each constant of the chunk.
pub fn disassemble<N>(chunk: &Chunk<N>, name: &str, constants: &Vec<String>) -> (text: String)
    requires
        constants_in_range(chunk.code@, constants@.len()),
    ensures
        text@ == "== "@ + name@ + " ==\n"@ + listing(
            chunk.code@,
            constants@.map_values(|c: String| c@),
            chunk.code@.len(),
        ),
{
    let ghost texts = constants@.map_values(|c: String| c@);
    let mut text = "== ".to_owned();
    text.append(name);
    text.append(" ==\n");
    let ghost head = text@;
    let mut offset: usize = 0;
    while offset < chunk.code.len()
        invariant
            constants_in_range(chunk.code@, constants@.len()),
            texts == constants@.map_values(|c: String| c@),
            offset <= chunk.code@.len(),
            text@ == head + listing(chunk.code@, texts, offset as nat),
        decreases chunk.code@.len() - offset,
    {
        offset = disassemble_instruction(&mut text, chunk, offset, constants);
        proof {
            assert(text@ =~= head + listing(chunk.code@, texts, offset as nat));
        }
    }
    text
}

} // verus!
