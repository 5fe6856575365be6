use banjoc::banjo::ast::{Ast, BinaryType, LiteralType, Node, NodeType, Source, UnaryType};
use banjoc::banjo::chunk::Chunk;
use banjoc::banjo::error::BanjoError;
use banjoc::banjo::obj::{Function, List, Native, NativeFunction, ObjectType};
use banjoc::banjo::op_code::{Constant, OpCode};
use banjoc::banjo::output::{Output, OutputValues};
use banjoc::banjo::value::Value;
use banjoc::gc::{Gc, GcRef};

fn node(id: &str, node_type: NodeType<f64>) -> Node<f64> {
    Node { id: id.to_string(), node_type }
}

fn ids(list: &[&str]) -> Vec<String> {
    list.iter().map(|s| s.to_string()).collect()
}

/// f(x) = x - x, called as f(3)
fn program() -> Source<f64> {
    Source {
        nodes: vec![
            node("x", NodeType::Param),
            node("diff", NodeType::Binary { binary_type: BinaryType::Subtract, args: ids(&["x", "x"]) }),
            node("f", NodeType::FunctionDefinition { args: ids(&["diff"]) }),
            node("three", NodeType::Literal { value: LiteralType::Number(3.0) }),
            node("call", NodeType::FunctionCall { fn_node_id: "f".to_string(), args: ids(&["three"]) }),
            node("neg", NodeType::Unary { unary_type: UnaryType::Negate, args: ids(&["call"]) }),
        ],
    }
}

#[test]
fn arities_count_every_path_to_a_param() {
    let ast = Ast::new(program());
    // `x` reaches `f` through both inputs of `diff`
    assert_eq!(ast.get_arity("f"), Some(2));
    assert_eq!(ast.get_arity("diff"), None);
    assert_eq!(ast.get_arity("nothing"), None);
}

#[test]
fn roots_are_nodes_that_are_no_input() {
    let ast = Ast::new(program());
    let roots: Vec<&str> = ast.get_roots().iter().map(|n| n.id.as_str()).collect();
    assert_eq!(roots, vec!["f", "neg"]);
}

#[test]
fn node_lookup_and_inputs() {
    let ast = Ast::new(program());
    let call = ast.get_node("call").unwrap();
    assert_eq!(call.args(), vec!["three"]);
    assert_eq!(call.dependencies(), Some("f"));
    assert_eq!(ast.get_node("x").unwrap().args(), Vec::<&str>::new());
    match ast.get_node("missing") {
        Err(BanjoError::Node((id, message))) => {
            assert_eq!(id, "missing");
            assert_eq!(message, "Unknown node id missing.");
        }
        _ => panic!(),
    }
}

#[test]
fn chunk_emits_operators() {
    let mut chunk: Chunk<f64> = Chunk::new();
    chunk.emit_unary(&UnaryType::Not);
    chunk.emit_binary(&BinaryType::GreaterEqual);
    chunk.emit_binary(&BinaryType::Divide);
    assert_eq!(chunk.code, vec![OpCode::Not, OpCode::Less, OpCode::Not, OpCode::Divide]);
    assert!(chunk.constants.is_empty());
}

#[test]
fn chunk_literals_and_constants() {
    let mut gc = Gc::new();
    let mut chunk: Chunk<f64> = Chunk::new();
    chunk.literal(&mut gc, &LiteralType::Bool(true)).unwrap();
    chunk.literal(&mut gc, &LiteralType::Nil).unwrap();
    chunk.literal(&mut gc, &LiteralType::Number(2.5)).unwrap();
    chunk.literal(&mut gc, &LiteralType::String("hi".to_string())).unwrap();
    assert_eq!(
        chunk.code,
        vec![
            OpCode::True,
            OpCode::Nil,
            OpCode::Constant(Constant { slot: 0 }),
            OpCode::Constant(Constant { slot: 1 })
        ]
    );
    assert!(matches!(chunk.constants[0], Value::Number(n) if n == 2.5));
    match chunk.constants[1] {
        Value::String(s) => assert_eq!(gc.get(s).as_str(), "hi"),
        _ => panic!(),
    }
}

#[test]
fn too_many_constants() {
    let mut chunk: Chunk<f64> = Chunk::new();
    for i in 0..256 {
        assert_eq!(chunk.make_constant(Value::Number(i as f64)).unwrap().slot, i as u8);
    }
    match chunk.make_constant(Value::Nil) {
        Err(BanjoError::Compile(m)) => assert_eq!(m, "Too many constants in one chunk."),
        _ => panic!(),
    }
    // the value goes in all the same
    assert_eq!(chunk.constants.len(), 257);
}

#[test]
fn values_and_objects() {
    assert!(Value::<f64>::Nil.is_falsey());
    assert!(Value::<f64>::Bool(false).is_falsey());
    assert!(!Value::<f64>::Bool(true).is_falsey());
    assert!(!Value::Number(0.0).is_falsey());
    assert!(matches!(Value::<f64>::default(), Value::Nil));
    let f: Function<f64> = Function::new(None, 3);
    assert_eq!(f.arity, 3);
    assert!(matches!(f.header.obj_type, ObjectType::Function));
    let native = NativeFunction::new(Native::Sum);
    assert_eq!(native.function, Native::Sum);
    let list: List<f64> = List::new(vec![Value::Number(1.0), Value::Nil]);
    assert_eq!(list.values.len(), 2);
    assert!(matches!(list.header.obj_type, ObjectType::List));
    let r: GcRef<Function<f64>> = GcRef::new(4);
    assert!(matches!(Value::Function(r), Value::Function(_)));
}

#[test]
fn output_values_preview_nodes() {
    let mut output: OutputValues<f64> = OutputValues::default();
    assert_eq!(output.add_node("a").unwrap(), 0);
    assert_eq!(output.add_node("b").unwrap(), 1);
    output.add_value(1, Value::Number(7.0));
    output.add_error(BanjoError::node("b", "bad"));
    output.add_error(BanjoError::runtime("late"));
    let taken = output.take();
    assert_eq!(taken.node_values.len(), 2);
    assert_eq!(taken.node_values[0].0, "a");
    assert!(matches!(taken.node_values[0].1, Value::Nil));
    assert!(matches!(taken.node_values[1].1, Value::Number(n) if n == 7.0));
    assert_eq!(taken.errors.node_errors, vec![("b".to_string(), "bad".to_string())]);
    assert_eq!(taken.errors.additional_errors, vec!["late".to_string()]);
    // the collector is empty again
    let again = output.take();
    assert!(again.node_values.is_empty());
    assert!(again.errors.additional_errors.is_empty());
}

#[test]
fn output_node_limit() {
    let mut output: OutputValues<f64> = OutputValues::default();
    for i in 0..255 {
        assert_eq!(output.add_node("n").unwrap(), i as u8);
    }
    match output.add_node("last") {
        Err(BanjoError::Node((id, m))) => {
            assert_eq!(id, "last");
            assert_eq!(m, "Can't preview the output of more than 255 nodes");
        }
        _ => panic!(),
    }
}

#[test]
fn output_from_single_error() {
    let output: Output<f64> = Output::from_single_error(BanjoError::compile("JSON parsing error: eof"));
    assert!(output.node_values.is_empty());
    assert_eq!(output.errors.additional_errors, vec!["JSON parsing error: eof".to_string()]);
    assert!(output.errors.node_errors.is_empty());
}
