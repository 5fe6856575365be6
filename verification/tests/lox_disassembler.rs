use banjoc::chunk::Chunk;
use banjoc::disassembler::{disassemble, disassemble_instruction};
use banjoc::op_code::{Constant, Invoke, OpCode};

#[test]
fn chunk_keeps_code_lines_and_constants() {
    let mut chunk: Chunk<f64> = Chunk::new();
    let slot = chunk.add_constant(1.2);
    assert_eq!(slot, 0);
    chunk.write(OpCode::Constant(Constant { slot: 0 }), 123);
    chunk.write(OpCode::Return, 123);
    assert_eq!(chunk.code.len(), 2);
    assert_eq!(chunk.lines, vec![123, 123]);
    chunk.free();
    assert!(chunk.code.is_empty());
    assert!(chunk.constants.is_empty());
    assert_eq!(chunk.lines.len(), 2);
}

#[test]
fn listing_follows_the_print_formats() {
    let mut chunk: Chunk<f64> = Chunk::new();
    chunk.add_constant(1.2);
    chunk.write(OpCode::Constant(Constant { slot: 0 }), 123);
    chunk.write(OpCode::Negate, 123);
    chunk.write(OpCode::Jump(5), 124);
    chunk.write(OpCode::GetLocal(7), 124);
    chunk.write(OpCode::Loop(10), 125);
    chunk.write(OpCode::Invoke(Invoke { name: Constant { slot: 0 }, arg_count: 2 }), 125);
    let shown = vec!["1.2".to_string()];
    let text = disassemble(&chunk, "test", &shown);
    let mut expected = "== test ==\n".to_string();
    expected += &format!("{:04} {:4} {:-16} {:4} '{}'\n", 0, 123, "OP_CONSTANT", 0, "1.2");
    expected += &format!("{:04}    | {}\n", 1, "OP_NEGATE");
    expected += &format!("{:04} {:4} {:-16} {:4} -> {}\n", 2, 124, "OP_JUMP", 2, 2 + 3 + 5);
    expected += &format!("{:04}    | {:-16} {:4}\n", 3, "OP_GET_LOCAL", 7);
    expected += &format!("{:04} {:4} {:-16} {:4} -> {}\n", 4, 125, "OP_LOOP", 4, 4 + 3 - 10);
    expected += &format!("{:04}    | {:-16} {:4} '{}' ({} args)\n", 5, "OP_INVOKE", 0, "1.2", 2);
    assert_eq!(text, expected);
    let mut one = String::new();
    assert_eq!(disassemble_instruction(&mut one, &chunk, 4, &shown), 5);
    assert_eq!(one, format!("{:04} {:4} {:-16} {:4} -> {}\n", 4, 125, "OP_LOOP", 4, -3));
}
