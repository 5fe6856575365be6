use banjoc::banjo::chunk::Chunk;
use banjoc::banjo::disassembler::{disassemble, disassemble_instruction};
use banjoc::banjo::op_code::{Constant, OpCode};
use banjoc::banjo::value::Value;

fn chunk() -> Chunk<f64> {
    let mut c = Chunk::new();
    c.constants.push(Value::Number(1.5));
    c.constants.push(Value::Nil);
    c.code = vec![
        OpCode::Constant(Constant { slot: 0 }),
        OpCode::Negate,
        OpCode::GetLocal(1),
        OpCode::DefineGlobal(Constant { slot: 1 }),
        OpCode::Call { arg_count: 12 },
        OpCode::Output { output_index: 3 },
        OpCode::Return,
    ];
    c
}

fn shown() -> Vec<String> {
    vec!["1.5".to_string(), "nil".to_string()]
}

#[test]
fn instruction_lines_match_the_print_format() {
    let c = chunk();
    let mut s = String::new();
    assert_eq!(disassemble_instruction(&mut s, &c, 0, &shown()), 1);
    assert_eq!(s, format!("{:04} {:-16} {:4} '{}'\n", 0, "OP_CONSTANT", 0, "1.5"));
    let mut s = String::new();
    disassemble_instruction(&mut s, &c, 1, &shown());
    assert_eq!(s, "0001 OP_NEGATE\n");
    let mut s = String::new();
    disassemble_instruction(&mut s, &c, 2, &shown());
    assert_eq!(s, format!("{:04} {:-16} {:4}\n", 2, "OP_GET_LOCAL", 1));
    let mut s = String::new();
    disassemble_instruction(&mut s, &c, 4, &shown());
    assert_eq!(s, format!("{:04} {:-16} {:4}\n", 4, "OP_CALL", 12));
}

#[test]
fn whole_chunk_listing() {
    let text = disassemble(&chunk(), "f", &shown());
    let expected = [
        "== f ==\n".to_string(),
        format!("{:04} {:-16} {:4} '{}'\n", 0, "OP_CONSTANT", 0, "1.5"),
        "0001 OP_NEGATE\n".to_string(),
        format!("{:04} {:-16} {:4}\n", 2, "OP_GET_LOCAL", 1),
        format!("{:04} {:-16} {:4} '{}'\n", 3, "OP_DEFINE_GLOBAL", 1, "nil"),
        format!("{:04} {:-16} {:4}\n", 4, "OP_CALL", 12),
        format!("{:04} {:-16} {:4}\n", 5, "OP_OUTPUT", 3),
        "0006 OP_RETURN\n".to_string(),
    ]
    .concat();
    assert_eq!(text, expected);
}

#[test]
fn long_names_are_not_cut() {
    let mut c: Chunk<f64> = Chunk::new();
    c.code = vec![OpCode::DefineGlobal(Constant { slot: 0 })];
    let text = disassemble(&c, "script", &vec!["\"x\"".to_string()]);
    assert_eq!(text, "== script ==\n0000 OP_DEFINE_GLOBAL    0 '\"x\"'\n");
}
