use banjoc::banjo::ast::{Ast, BinaryType, LiteralType, Node, NodeType, Source, UnaryType};
use banjoc::banjo::compiler::Compiler;
use banjoc::banjo::gc::Gc;
use banjoc::banjo::op_code::{Constant, OpCode};
use banjoc::banjo::output::{Output, OutputValues};
use banjoc::banjo::value::Value;

fn node(id: &str, node_type: NodeType<f64>) -> Node<f64> {
    Node { id: id.to_string(), node_type }
}

fn ids(list: &[&str]) -> Vec<String> {
    list.iter().map(|s| s.to_string()).collect()
}

fn number(id: &str, n: f64) -> Node<f64> {
    node(id, NodeType::Literal { value: LiteralType::Number(n) })
}

/// Compiles `nodes` and hands back the heap, the slot of the script and what was
/// recorded.
fn compile(nodes: Vec<Node<f64>>) -> (Gc<f64>, usize, Output<f64>) {
    let ast = Ast::new(Source { nodes });
    let mut compiler = Compiler::new(&ast, Gc::new(), OutputValues::default());
    let script = compiler.compile();
    let (gc, mut output) = compiler.finish();
    let taken = output.take();
    (gc, script.index(), taken)
}

fn script_code(gc: &Gc<f64>, slot: usize) -> Vec<OpCode> {
    gc.functions[slot].chunk.code.clone()
}

fn number_at(gc: &Gc<f64>, slot: usize, constant: usize) -> f64 {
    match gc.functions[slot].chunk.constants[constant] {
        Value::Number(n) => n,
        _ => panic!("not a number"),
    }
}

fn string_at(gc: &Gc<f64>, slot: usize, constant: usize) -> String {
    match gc.functions[slot].chunk.constants[constant] {
        Value::String(r) => gc.string(r).as_str().to_string(),
        _ => panic!("not a string"),
    }
}

#[test]
fn empty_program_is_a_bare_return() {
    let (gc, slot, output) = compile(vec![]);
    assert_eq!(slot, 0);
    assert_eq!(script_code(&gc, slot), vec![OpCode::Return]);
    assert!(output.node_values.is_empty());
    assert!(output.errors.node_errors.is_empty());
    assert!(output.errors.additional_errors.is_empty());
}

#[test]
fn variable_definition_of_a_difference() {
    let (gc, slot, output) = compile(vec![
        number("a", 1.0),
        number("b", 2.0),
        node("c", NodeType::Binary { binary_type: BinaryType::Subtract, args: ids(&["a", "b"]) }),
        node("v", NodeType::VariableDefinition { args: ids(&["c"]) }),
    ]);
    assert_eq!(
        script_code(&gc, slot),
        vec![
            OpCode::Constant(Constant { slot: 1 }),
            OpCode::Constant(Constant { slot: 2 }),
            OpCode::Subtract,
            OpCode::Output { output_index: 0 },
            OpCode::DefineGlobal(Constant { slot: 0 }),
            OpCode::Return,
        ]
    );
    assert_eq!(string_at(&gc, slot, 0), "v");
    assert_eq!(number_at(&gc, slot, 1), 1.0);
    assert_eq!(number_at(&gc, slot, 2), 2.0);
    assert_eq!(output.node_values.len(), 0);
    assert!(output.errors.node_errors.is_empty());
}

#[test]
fn binary_operators_with_negations() {
    let (gc, slot, _) = compile(vec![
        number("a", 1.0),
        number("b", 2.0),
        node("c", NodeType::Binary { binary_type: BinaryType::GreaterEqual, args: ids(&["a", "b"]) }),
        node("n", NodeType::Unary { unary_type: UnaryType::Not, args: ids(&["c"]) }),
    ]);
    assert_eq!(
        script_code(&gc, slot),
        vec![
            OpCode::Constant(Constant { slot: 0 }),
            OpCode::Constant(Constant { slot: 1 }),
            OpCode::Less,
            OpCode::Not,
            OpCode::Not,
            OpCode::Return,
        ]
    );
}

#[test]
fn literals_of_each_kind() {
    let (gc, slot, _) = compile(vec![
        node("t", NodeType::Literal { value: LiteralType::Bool(true) }),
        node("f", NodeType::Literal { value: LiteralType::Bool(false) }),
        node("n", NodeType::Literal { value: LiteralType::Nil }),
        node("s", NodeType::Literal { value: LiteralType::String("hi".to_string()) }),
    ]);
    assert_eq!(
        script_code(&gc, slot),
        vec![
            OpCode::True,
            OpCode::False,
            OpCode::Nil,
            OpCode::Constant(Constant { slot: 0 }),
            OpCode::Return,
        ]
    );
    assert_eq!(string_at(&gc, slot, 0), "hi");
}

#[test]
fn constant_declaration_is_previewed_and_defined() {
    let (gc, slot, _) = compile(vec![node("k", NodeType::Const { value: LiteralType::Number(4.0) })]);
    assert_eq!(
        script_code(&gc, slot),
        vec![
            OpCode::Constant(Constant { slot: 1 }),
            OpCode::Output { output_index: 0 },
            OpCode::DefineGlobal(Constant { slot: 0 }),
            OpCode::Return,
        ]
    );
    assert_eq!(string_at(&gc, slot, 0), "k");
    assert_eq!(number_at(&gc, slot, 1), 4.0);
}

#[test]
fn function_definition_and_call() {
    // fn f(p) = -p; f(3)
    let (gc, slot, output) = compile(vec![
        node("p", NodeType::Param),
        node("neg", NodeType::Unary { unary_type: UnaryType::Negate, args: ids(&["p"]) }),
        node("f", NodeType::FunctionDefinition { args: ids(&["neg"]) }),
        number("three", 3.0),
        node("call", NodeType::FunctionCall { fn_node_id: "f".to_string(), args: ids(&["three"]) }),
    ]);
    assert!(output.errors.node_errors.is_empty(), "{:?}", output.errors.node_errors);
    // The function is compiled first, into slot 0; the script comes last.
    assert_eq!(gc.functions.len(), 2);
    assert_eq!(slot, 1);
    let f = &gc.functions[0];
    assert_eq!(f.arity, 1);
    assert_eq!(f.chunk.code, vec![OpCode::GetLocal(1), OpCode::Negate, OpCode::Return]);
    assert_eq!(
        script_code(&gc, slot),
        vec![
            OpCode::Function(Constant { slot: 1 }),
            OpCode::DefineGlobal(Constant { slot: 0 }),
            OpCode::GetGlobal(Constant { slot: 2 }),
            OpCode::Constant(Constant { slot: 3 }),
            OpCode::Call { arg_count: 1 },
            OpCode::Output { output_index: 0 },
            OpCode::Return,
        ]
    );
    assert_eq!(string_at(&gc, slot, 0), "f");
    assert!(matches!(gc.functions[slot].chunk.constants[1], Value::Function(r) if r.index() == 0));
    assert_eq!(string_at(&gc, slot, 2), "f");
    assert_eq!(number_at(&gc, slot, 3), 3.0);
}

#[test]
fn call_with_wrong_number_of_arguments() {
    let (_, _, output) = compile(vec![
        node("p", NodeType::Param),
        node("neg", NodeType::Unary { unary_type: UnaryType::Negate, args: ids(&["p"]) }),
        node("f", NodeType::FunctionDefinition { args: ids(&["neg"]) }),
        number("x", 3.0),
        number("y", 4.0),
        node("call", NodeType::FunctionCall { fn_node_id: "f".to_string(), args: ids(&["x", "y"]) }),
    ]);
    assert_eq!(
        output.errors.node_errors,
        vec![("call".to_string(), "Expected 1 arguments but got 2.".to_string())]
    );
}

#[test]
fn definition_needs_exactly_one_input() {
    let (_, _, output) = compile(vec![
        number("a", 1.0),
        number("b", 2.0),
        node("v", NodeType::VariableDefinition { args: ids(&["a", "b"]) }),
    ]);
    assert_eq!(
        output.errors.node_errors,
        vec![("v".to_string(), "Variable definition requires exactly 1 input.".to_string())]
    );
}

#[test]
fn cycle_through_references_is_detected() {
    // v = r, where r reads v
    let (_, _, output) = compile(vec![
        node("r", NodeType::VariableReference { var_node_id: "v".to_string() }),
        node("v", NodeType::VariableDefinition { args: ids(&["r"]) }),
    ]);
    assert_eq!(output.errors.node_errors, vec![("v".to_string(), "Detected cycle".to_string())]);
}

#[test]
fn unknown_input_is_reported() {
    let (_, _, output) = compile(vec![node(
        "u",
        NodeType::Unary { unary_type: UnaryType::Negate, args: ids(&["missing"]) },
    )]);
    assert_eq!(
        output.errors.node_errors,
        vec![("missing".to_string(), "Unknown node id missing.".to_string())]
    );
}

#[test]
fn param_outside_function_is_an_error() {
    let (_, _, output) = compile(vec![node("p", NodeType::Param)]);
    assert_eq!(
        output.errors.node_errors,
        vec![("p".to_string(), "Can only use param in function declaration.".to_string())]
    );
}

#[test]
fn reference_to_global_reads_it_and_previews() {
    let (gc, slot, _) = compile(vec![
        number("a", 5.0),
        node("v", NodeType::VariableDefinition { args: ids(&["a"]) }),
        node("r", NodeType::VariableReference { var_node_id: "v".to_string() }),
    ]);
    assert_eq!(
        script_code(&gc, slot),
        vec![
            OpCode::Constant(Constant { slot: 1 }),
            OpCode::Output { output_index: 0 },
            OpCode::DefineGlobal(Constant { slot: 0 }),
            OpCode::GetGlobal(Constant { slot: 2 }),
            OpCode::Output { output_index: 1 },
            OpCode::Return,
        ]
    );
}

#[test]
fn shared_definition_is_compiled_once() {
    let (gc, slot, output) = compile(vec![
        number("a", 5.0),
        node("v", NodeType::VariableDefinition { args: ids(&["a"]) }),
        node("r1", NodeType::VariableReference { var_node_id: "v".to_string() }),
        node("r2", NodeType::VariableReference { var_node_id: "v".to_string() }),
    ]);
    let code = script_code(&gc, slot);
    let defines = code.iter().filter(|op| matches!(op, OpCode::DefineGlobal(_))).count();
    assert_eq!(defines, 1);
    assert_eq!(code.last(), Some(&OpCode::Return));
    assert!(output.errors.node_errors.is_empty());
}
