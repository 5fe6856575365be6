//! Listings of the bytecode of the graph language's stack machine: each
//! instruction with its offset, its source line, its name and its operands.
//! How a constant is shown is the caller's: the listing takes the text of each.

use vstd::prelude::*;

use crate::banjo::compiler::decimal;
use crate::banjo::disassembler::{
    decimal_text, left_aligned, push_left_aligned, push_right_aligned, right_aligned, spaces, zero_padded, zeros,
};
use crate::chunk::Chunk;
use crate::op_code::{Constant, Invoke, OpCode};
use vstd::string::StringExecFns;

verus! {

/// The name an instruction is listed under.
pub open spec fn op_name(op: OpCode) -> Seq<char> {
    match op {
        OpCode::Constant(_) => "OP_CONSTANT"@,
        OpCode::Negate => "OP_NEGATE"@,
        OpCode::Return => "OP_RETURN"@,
        OpCode::Add => "OP_ADD"@,
        OpCode::Subtract => "OP_SUBTRACT"@,
        OpCode::Multiply => "OP_MULTIPLY"@,
        OpCode::Divide => "OP_DIVIDE"@,
        OpCode::Nil => "OP_NIL"@,
        OpCode::True => "OP_TRUE"@,
        OpCode::False => "OP_FALSE"@,
        OpCode::Not => "OP_NOT"@,
        OpCode::Equal => "OP_EQUAL"@,
        OpCode::Greater => "OP_GREATER"@,
        OpCode::Less => "OP_LESS"@,
        OpCode::Print => "OP_PRINT"@,
        OpCode::Pop => "OP_POP"@,
        OpCode::DefineGlobal(_) => "OP_DEFINE_GLOBAL"@,
        OpCode::GetGlobal(_) => "OP_GET_GLOBAL"@,
        OpCode::SetGlobal(_) => "OP_SET_GLOBAL"@,
        OpCode::GetLocal(_) => "OP_GET_LOCAL"@,
        OpCode::SetLocal(_) => "OP_SET_LOCAL"@,
        OpCode::JumpIfFalse(_) => "OP_JUMP_IF_FALSE"@,
        OpCode::Jump(_) => "OP_JUMP"@,
        OpCode::Loop(_) => "OP_LOOP"@,
        OpCode::Call(_) => "OP_CALL"@,
        OpCode::Closure(_) => "OP_CLOSURE"@,
        OpCode::GetUpvalue(_) => "OP_GET_UPVALUE"@,
        OpCode::SetUpvalue(_) => "OP_SET_UPVALUE"@,
        OpCode::CloseUpvalue => "OP_CLOSE_UPVALUE"@,
        OpCode::Class(_) => "OP_CLASS"@,
        OpCode::GetProperty(_) => "OP_GET_PROPERTY"@,
        OpCode::SetProperty(_) => "OP_SET_PROPERTY"@,
        OpCode::Method(_) => "OP_METHOD"@,
        OpCode::Invoke(_) => "OP_INVOKE"@,
        OpCode::Inherit => "OP_INHERIT"@,
        OpCode::GetSuper(_) => "OP_GET_SUPER"@,
        OpCode::SuperInvoke(_) => "OP_SUPER_INVOKE"@,
    }
}

/// An instruction with its operand, where it has one, set to zero: the operation
/// alone.
pub open spec fn without_operand(op: OpCode) -> OpCode {
    let zero = Constant { slot: 0 };
    match op {
        OpCode::Constant(_) => OpCode::Constant(zero),
        OpCode::DefineGlobal(_) => OpCode::DefineGlobal(zero),
        OpCode::GetGlobal(_) => OpCode::GetGlobal(zero),
        OpCode::SetGlobal(_) => OpCode::SetGlobal(zero),
        OpCode::GetLocal(_) => OpCode::GetLocal(0),
        OpCode::SetLocal(_) => OpCode::SetLocal(0),
        OpCode::GetUpvalue(_) => OpCode::GetUpvalue(0),
        OpCode::SetUpvalue(_) => OpCode::SetUpvalue(0),
        OpCode::JumpIfFalse(_) => OpCode::JumpIfFalse(0),
        OpCode::Jump(_) => OpCode::Jump(0),
        OpCode::Loop(_) => OpCode::Loop(0),
        OpCode::Call(_) => OpCode::Call(0),
        OpCode::Closure(_) => OpCode::Closure(zero),
        OpCode::Class(_) => OpCode::Class(zero),
        OpCode::GetProperty(_) => OpCode::GetProperty(zero),
        OpCode::SetProperty(_) => OpCode::SetProperty(zero),
        OpCode::Method(_) => OpCode::Method(zero),
        OpCode::Invoke(_) => OpCode::Invoke(Invoke { name: zero, arg_count: 0 }),
        OpCode::GetSuper(_) => OpCode::GetSuper(zero),
        OpCode::SuperInvoke(_) => OpCode::SuperInvoke(Invoke { name: zero, arg_count: 0 }),
        _ => op,
    }
}

/// Each instruction is listed under a name of its own: two instructions share a
/// name exactly when they are the same operation (their operands may differ),
/// every name starts with `OP_`, and the comparisons are listed as `OP_GREATER`
/// and `OP_LESS`.
pub proof fn each_operation_has_its_own_name(a: OpCode, b: OpCode)
    ensures
        op_name(a) == op_name(b) <==> without_operand(a) == without_operand(b),
        op_name(a).len() > 3 && op_name(a).subrange(0, 3) == "OP_"@,
        op_name(OpCode::Greater) == "OP_GREATER"@,
        op_name(OpCode::Less) == "OP_LESS"@,
{
    reveal_strlit("OP_");
    reveal_strlit("OP_CONSTANT");
    reveal_strlit("OP_NEGATE");
    reveal_strlit("OP_RETURN");
    reveal_strlit("OP_ADD");
    reveal_strlit("OP_SUBTRACT");
    reveal_strlit("OP_MULTIPLY");
    reveal_strlit("OP_DIVIDE");
    reveal_strlit("OP_NIL");
    reveal_strlit("OP_TRUE");
    reveal_strlit("OP_FALSE");
    reveal_strlit("OP_NOT");
    reveal_strlit("OP_EQUAL");
    reveal_strlit("OP_GREATER");
    reveal_strlit("OP_LESS");
    reveal_strlit("OP_PRINT");
    reveal_strlit("OP_POP");
    reveal_strlit("OP_DEFINE_GLOBAL");
    reveal_strlit("OP_GET_GLOBAL");
    reveal_strlit("OP_SET_GLOBAL");
    reveal_strlit("OP_GET_LOCAL");
    reveal_strlit("OP_SET_LOCAL");
    reveal_strlit("OP_JUMP_IF_FALSE");
    reveal_strlit("OP_JUMP");
    reveal_strlit("OP_LOOP");
    reveal_strlit("OP_CALL");
    reveal_strlit("OP_CLOSURE");
    reveal_strlit("OP_GET_UPVALUE");
    reveal_strlit("OP_SET_UPVALUE");
    reveal_strlit("OP_CLOSE_UPVALUE");
    reveal_strlit("OP_CLASS");
    reveal_strlit("OP_GET_PROPERTY");
    reveal_strlit("OP_SET_PROPERTY");
    reveal_strlit("OP_METHOD");
    reveal_strlit("OP_INVOKE");
    reveal_strlit("OP_INHERIT");
    reveal_strlit("OP_GET_SUPER");
    reveal_strlit("OP_SUPER_INVOKE");
    assert(op_name(a).subrange(0, 3) =~= "OP_"@);
    if op_name(a) == op_name(b) {
        assert(op_name(a).len() == op_name(b).len());
        assert(op_name(a)[3] == op_name(b)[3]);
        assert(op_name(a)[4] == op_name(b)[4]);
        assert(op_name(a)[7] == op_name(b)[7]);
    }
}

/// The constant an instruction names, if any (for a method call, its name).
pub open spec fn named_constant(op: OpCode) -> Option<Constant> {
    match op {
        OpCode::Constant(c) | OpCode::DefineGlobal(c) | OpCode::GetGlobal(c) | OpCode::SetGlobal(c)
        | OpCode::Closure(c) | OpCode::Class(c) | OpCode::GetProperty(c) | OpCode::SetProperty(c)
        | OpCode::Method(c) | OpCode::GetSuper(c) => Some(c),
        OpCode::Invoke(i) | OpCode::SuperInvoke(i) => Some(i.name),
        _ => None,
    }
}

/// An integer in decimal, with a minus sign when it is negative.
pub open spec fn signed_decimal(n: int) -> Seq<char> {
    if n < 0 {
        "-"@ + decimal((-n) as nat)
    } else {
        decimal(n as nat)
    }
}

/// The line column of the instruction at `offset`: a bar where it shares its
/// line with the instruction before, else the line in four columns.
pub open spec fn line_column(lines: Seq<u32>, offset: int) -> Seq<char> {
    if offset > 0 && lines[offset] == lines[offset - 1] {
        "   | "@
    } else {
        right_aligned(decimal(lines[offset] as nat), 4) + " "@
    }
}

/// The name in sixteen columns and a number in four.
pub open spec fn name_and_number(name: Seq<char>, n: nat) -> Seq<char> {
    left_aligned(name, 16) + " "@ + right_aligned(decimal(n), 4)
}

/// Where a jump at `offset` by `jump` lands: forward, or backward for a loop.
pub open spec fn jump_target(op: OpCode, offset: int) -> int {
    match op {
        OpCode::JumpIfFalse(j) | OpCode::Jump(j) => offset + 3 + j,
        OpCode::Loop(j) => offset + 3 - j,
        _ => offset,
    }
}

/// The listing of instruction `op` after its offset and line: the name, and the
/// operand as each kind of instruction shows it; `constants` shows each constant.
pub open spec fn instruction_body(op: OpCode, offset: int, constants: Seq<Seq<char>>) -> Seq<char> {
    match op {
        OpCode::Invoke(i) | OpCode::SuperInvoke(i) => name_and_number(op_name(op), i.name.slot as nat) + " '"@
            + constants[i.name.slot as int] + "' ("@ + decimal(i.arg_count as nat) + " args)\n"@,
        OpCode::GetLocal(b) | OpCode::SetLocal(b) | OpCode::Call(b) | OpCode::GetUpvalue(b) | OpCode::SetUpvalue(b) =>
            name_and_number(op_name(op), b as nat) + "\n"@,
        OpCode::JumpIfFalse(_) | OpCode::Jump(_) | OpCode::Loop(_) => name_and_number(op_name(op), offset as nat)
            + " -> "@ + signed_decimal(jump_target(op, offset)) + "\n"@,
        _ => match named_constant(op) {
            Some(c) => name_and_number(op_name(op), c.slot as nat) + " '"@ + constants[c.slot as int] + "'\n"@,
            None => op_name(op) + "\n"@,
        },
    }
}

/// The listing of the instruction at `offset`: the offset in four digits, the
/// line column, then the instruction.
pub open spec fn instruction_line(code: Seq<OpCode>, lines: Seq<u32>, offset: int, constants: Seq<Seq<char>>) -> Seq<
    char,
> {
    zero_padded(offset as nat, 4) + " "@ + line_column(lines, offset) + instruction_body(code[offset], offset, constants)
}

/// The listings of the first `k` instructions.
pub open spec fn chunk_listing(code: Seq<OpCode>, lines: Seq<u32>, constants: Seq<Seq<char>>, k: nat) -> Seq<char>
    decreases k,
{
    if k == 0 {
        Seq::empty()
    } else {
        chunk_listing(code, lines, constants, (k - 1) as nat) + instruction_line(code, lines, k - 1, constants)
    }
}

/// The instruction at `offset` can be listed: its line is recorded, the constant
/// it names has a text, and a jump lands within the range of `isize`.
pub open spec fn listable(code: Seq<OpCode>, lines: Seq<u32>, offset: int, count: nat) -> bool {
    &&& 0 <= offset < code.len()
    &&& offset < lines.len()
    &&& named_constant(code[offset]) matches Some(c) ==> c.slot < count
    &&& offset + 3 + 0xffff <= isize::MAX
}

/// Appends the decimal digits of `n` in four columns after `name` in sixteen.
fn push_name_and_number(s: &mut String, name: &str, n: usize)
    ensures
        final(s)@ == old(s)@ + name_and_number(name@, n as nat),
{
    let ghost start = s@;
    push_left_aligned(s, name, 16);
    s.append(" ");
    let digits = decimal_text(n);
    proof {
        reveal_strlit(" ");
    }
    push_right_aligned(s, digits.as_str(), 4, " ");
    proof {
        reveal_strlit(" ");
        let d = decimal(n as nat);
        if d.len() < 4 {
            assert(Seq::new((4 - d.len()) as nat, |i: int| " "@[0]) =~= spaces((4 - d.len()) as nat));
        }
        assert(s@ =~= start + name_and_number(name@, n as nat));
    }
}

/// The listing of an instruction with no operand.
fn simple_instruction(s: &mut String, name: &str, offset: usize) -> (next: usize)
    requires
        offset < usize::MAX,
    ensures
        final(s)@ == old(s)@ + name@ + "\n"@,
        next == offset + 1,
{
    s.append(name);
    s.append("\n");
    offset + 1
}

/// The listing of an instruction that names a constant, shown as `text`.
fn constant_instruction(s: &mut String, name: &str, offset: usize, constant: Constant, text: &str) -> (next: usize)
    requires
        offset < usize::MAX,
    ensures
        final(s)@ == old(s)@ + name_and_number(name@, constant.slot as nat) + " '"@ + text@ + "'\n"@,
        next == offset + 1,
{
    push_name_and_number(s, name, constant.slot as usize);
    s.append(" '");
    s.append(text);
    s.append("'\n");
    offset + 1
}

/// The listing of a method call: the name's constant, shown as `text`, and the
/// number of arguments.
fn invoke_instruction(s: &mut String, name: &str, offset: usize, invoke: Invoke, text: &str) -> (next: usize)
    requires
        offset < usize::MAX,
    ensures
        final(s)@ == old(s)@ + name_and_number(name@, invoke.name.slot as nat) + " '"@ + text@ + "' ("@ + decimal(
            invoke.arg_count as nat,
        ) + " args)\n"@,
        next == offset + 1,
{
    push_name_and_number(s, name, invoke.name.slot as usize);
    s.append(" '");
    s.append(text);
    s.append("' (");
    let count = decimal_text(invoke.arg_count as usize);
    s.append(count.as_str());
    s.append(" args)\n");
    offset + 1
}

/// The listing of an instruction with a one-byte operand.
fn byte_instruction(s: &mut String, name: &str, offset: usize, slot: u8) -> (next: usize)
    requires
        offset < usize::MAX,
    ensures
        final(s)@ == old(s)@ + name_and_number(name@, slot as nat) + "\n"@,
        next == offset + 1,
{
    push_name_and_number(s, name, slot as usize);
    s.append("\n");
    offset + 1
}

/// The listing of a jump by `jump`, forward where `forward`, else backward.
fn jump_instruction(s: &mut String, name: &str, forward: bool, offset: usize, jump: u16) -> (next: usize)
    requires
        offset + 3 + 0xffff <= isize::MAX,
    ensures
        final(s)@ == old(s)@ + name_and_number(name@, offset as nat) + " -> "@ + signed_decimal(
            if forward {
                offset + 3 + jump
            } else {
                offset + 3 - jump
            },
        ) + "\n"@,
        next == offset + 1,
{
    push_name_and_number(s, name, offset);
    s.append(" -> ");
    let base = offset + 3;
    let j = jump as usize;
    if forward {
        let target = decimal_text(base + j);
        s.append(target.as_str());
    } else if base >= j {
        let target = decimal_text(base - j);
        s.append(target.as_str());
    } else {
        let magnitude = decimal_text(j - base);
        s.append("-");
        s.append(magnitude.as_str());
    }
    s.append("\n");
    offset + 1
}

/// The name of an instruction.
fn name_of(op: OpCode) -> (name: &'static str)
    ensures
        name@ == op_name(op),
{
    match op {
        OpCode::Constant(_) => "OP_CONSTANT",
        OpCode::Negate => "OP_NEGATE",
        OpCode::Return => "OP_RETURN",
        OpCode::Add => "OP_ADD",
        OpCode::Subtract => "OP_SUBTRACT",
        OpCode::Multiply => "OP_MULTIPLY",
        OpCode::Divide => "OP_DIVIDE",
        OpCode::Nil => "OP_NIL",
        OpCode::True => "OP_TRUE",
        OpCode::False => "OP_FALSE",
        OpCode::Not => "OP_NOT",
        OpCode::Equal => "OP_EQUAL",
        OpCode::Greater => "OP_GREATER",
        OpCode::Less => "OP_LESS",
        OpCode::Print => "OP_PRINT",
        OpCode::Pop => "OP_POP",
        OpCode::DefineGlobal(_) => "OP_DEFINE_GLOBAL",
        OpCode::GetGlobal(_) => "OP_GET_GLOBAL",
        OpCode::SetGlobal(_) => "OP_SET_GLOBAL",
        OpCode::GetLocal(_) => "OP_GET_LOCAL",
        OpCode::SetLocal(_) => "OP_SET_LOCAL",
        OpCode::JumpIfFalse(_) => "OP_JUMP_IF_FALSE",
        OpCode::Jump(_) => "OP_JUMP",
        OpCode::Loop(_) => "OP_LOOP",
        OpCode::Call(_) => "OP_CALL",
        OpCode::Closure(_) => "OP_CLOSURE",
        OpCode::GetUpvalue(_) => "OP_GET_UPVALUE",
        OpCode::SetUpvalue(_) => "OP_SET_UPVALUE",
        OpCode::CloseUpvalue => "OP_CLOSE_UPVALUE",
        OpCode::Class(_) => "OP_CLASS",
        OpCode::GetProperty(_) => "OP_GET_PROPERTY",
        OpCode::SetProperty(_) => "OP_SET_PROPERTY",
        OpCode::Method(_) => "OP_METHOD",
        OpCode::Invoke(_) => "OP_INVOKE",
        OpCode::Inherit => "OP_INHERIT",
        OpCode::GetSuper(_) => "OP_GET_SUPER",
        OpCode::SuperInvoke(_) => "OP_SUPER_INVOKE",
    }
}

/// Appends the line column of the instruction at `offset`.
fn push_line_column(s: &mut String, lines: &Vec<u32>, offset: usize)
    requires
        offset < lines@.len(),
    ensures
        final(s)@ == old(s)@ + line_column(lines@, offset as int),
{
    if offset > 0 && lines[offset] == lines[offset - 1] {
        s.append("   | ");
    } else {
        let line = decimal_text(lines[offset] as usize);
        proof {
            reveal_strlit(" ");
        }
        push_right_aligned(s, line.as_str(), 4, " ");
        s.append(" ");
        proof {
            reveal_strlit(" ");
            let d = decimal(lines@[offset as int] as nat);
            if d.len() < 4 {
                assert(Seq::new((4 - d.len()) as nat, |i: int| " "@[0]) =~= spaces((4 - d.len()) as nat));
            }
            assert(final(s)@ =~= old(s)@ + line_column(lines@, offset as int));
        }
    }
}

/// Appends the listing of `op` after its offset and line column.
fn push_body(s: &mut String, op: OpCode, offset: usize, constants: &Vec<String>) -> (next: usize)
    requires
        named_constant(op) matches Some(c) ==> c.slot < constants@.len(),
        offset + 3 + 0xffff <= isize::MAX,
    ensures
        final(s)@ == old(s)@ + instruction_body(op, offset as int, constants@.map_values(|c: String| c@)),
        next == offset + 1,
{
    let ghost texts = constants@.map_values(|c: String| c@);
    let name = name_of(op);
    match op {
        OpCode::Invoke(i) | OpCode::SuperInvoke(i) => invoke_instruction(
            s,
            name,
            offset,
            i,
            constants[i.name.slot as usize].as_str(),
        ),
        OpCode::GetLocal(b) | OpCode::SetLocal(b) | OpCode::Call(b) | OpCode::GetUpvalue(b) | OpCode::SetUpvalue(b) =>
            byte_instruction(s, name, offset, b),
        OpCode::JumpIfFalse(j) | OpCode::Jump(j) => jump_instruction(s, name, true, offset, j),
        OpCode::Loop(j) => jump_instruction(s, name, false, offset, j),
        OpCode::Constant(c) | OpCode::DefineGlobal(c) | OpCode::GetGlobal(c) | OpCode::SetGlobal(c)
        | OpCode::Closure(c) | OpCode::Class(c) | OpCode::GetProperty(c) | OpCode::SetProperty(c)
        | OpCode::Method(c) | OpCode::GetSuper(c) => constant_instruction(
            s,
            name,
            offset,
            c,
            constants[c.slot as usize].as_str(),
        ),
        _ => simple_instruction(s, name, offset),
    }
}

/// Appends the listing of the instruction at `offset` and returns the offset of
/// the next one; `constants` shows each constant of the chunk.
pub fn disassemble_instruction<V>(s: &mut String, chunk: &Chunk<V>, offset: usize, constants: &Vec<String>) -> (next:
    usize)
    requires
        listable(chunk.code@, chunk.lines@, offset as int, constants@.len()),
    ensures
        final(s)@ == old(s)@ + instruction_line(
            chunk.code@,
            chunk.lines@,
            offset as int,
            constants@.map_values(|c: String| c@),
        ),
        next == offset + 1,
{
    let ghost start = s@;
    let ghost texts = constants@.map_values(|c: String| c@);
    let digits = decimal_text(offset);
    proof {
        reveal_strlit("0");
    }
    push_right_aligned(s, digits.as_str(), 4, "0");
    s.append(" ");
    proof {
        reveal_strlit("0");
        let d = decimal(offset as nat);
        if d.len() < 4 {
            assert(Seq::new((4 - d.len()) as nat, |i: int| "0"@[0]) =~= zeros((4 - d.len()) as nat));
        }
        assert(s@ =~= start + zero_padded(offset as nat, 4) + " "@);
    }
    push_line_column(s, &chunk.lines, offset);
    let next = push_body(s, chunk.code[offset], offset, constants);
    proof {
        assert(s@ =~= start + instruction_line(chunk.code@, chunk.lines@, offset as int, texts));
    }
    next
}

/// The listing of a chunk: a header with its name, then each instruction;
/// `constants` shows each constant of the chunk.
pub fn disassemble<V>(chunk: &Chunk<V>, name: &str, constants: &Vec<String>) -> (text: String)
    requires
        forall|offset: int|
            0 <= offset < chunk.code@.len() ==> #[trigger] listable(chunk.code@, chunk.lines@, offset, constants@.len()),
    ensures
        text@ == "== "@ + name@ + " ==\n"@ + chunk_listing(
            chunk.code@,
            chunk.lines@,
            constants@.map_values(|c: String| c@),
            chunk.code@.len(),
        ),
{
    let ghost texts = constants@.map_values(|c: String| c@);
    let mut text = "== ".to_owned();
    text.append(name);
    text.append(" ==\n");
    let ghost head = text@;
    let mut offset: usize = 0;
    while offset < chunk.code.len()
        invariant
            forall|o: int|
                0 <= o < chunk.code@.len() ==> #[trigger] listable(chunk.code@, chunk.lines@, o, constants@.len()),
            texts == constants@.map_values(|c: String| c@),
            offset <= chunk.code@.len(),
            text@ == head + chunk_listing(chunk.code@, chunk.lines@, texts, offset as nat),
        decreases chunk.code@.len() - offset,
    {
        proof {
            assert(listable(chunk.code@, chunk.lines@, offset as int, constants@.len()));
        }
        offset = disassemble_instruction(&mut text, chunk, offset, constants);
        proof {
            assert(text@ =~= head + chunk_listing(chunk.code@, chunk.lines@, texts, offset as nat));
        }
    }
    text
}

} // verus!
