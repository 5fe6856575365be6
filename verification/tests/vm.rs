use banjoc::banjo::ast::{BinaryType, LiteralType, Node, NodeType, Source, UnaryType};
use banjoc::banjo::error::BanjoError;
use banjoc::banjo::obj::{List, Native};
use banjoc::banjo::output::Output;
use banjoc::banjo::native_functions::{product, sum};
use banjoc::banjo::value::{Summand, Value};
use banjoc::banjo::vm::{label, NumberOp, Step, Vm, STACK_MAX};

fn node(id: &str, node_type: NodeType<f64>) -> Node<f64> {
    Node { id: id.to_string(), node_type }
}

fn ids(list: &[&str]) -> Vec<String> {
    list.iter().map(|s| s.to_string()).collect()
}

fn number(id: &str, n: f64) -> Node<f64> {
    node(id, NodeType::Literal { value: LiteralType::Number(n) })
}

fn string(id: &str, s: &str) -> Node<f64> {
    node(id, NodeType::Literal { value: LiteralType::String(s.to_string()) })
}

fn plus(a: Summand<f64>, b: Summand<f64>) -> f64 {
    let n = |s: Summand<f64>| match s {
        Summand::Bool(b) => b as i32 as f64,
        Summand::Number(n) => n,
    };
    n(a) + n(b)
}

fn show(n: f64) -> String {
    format!("{}", n)
}

fn times(a: f64, b: f64) -> f64 {
    a * b
}

fn add(vm: &mut Vm<f64>, a: Value<f64>, b: Value<f64>) -> Value<f64> {
    a.add(b, vm, &plus, &show).unwrap()
}

fn text(vm: &Vm<f64>, v: Value<f64>) -> String {
    match v {
        Value::String(r) => vm.string_text(r).unwrap(),
        _ => panic!("not a string"),
    }
}

fn numbers_in(vm: &Vm<f64>, v: Value<f64>) -> Vec<f64> {
    match v {
        Value::List(l) => vm
            .list_values(l)
            .unwrap()
            .iter()
            .map(|x| match x {
                Value::Number(n) => *n,
                _ => panic!("not a number"),
            })
            .collect(),
        _ => panic!("not a list"),
    }
}

/// Runs `nodes` to the end, doing the number work the machine hands back.
fn run(vm: &mut Vm<f64>, nodes: Vec<Node<f64>>) -> Output<f64> {
    vm.start(Source { nodes });
    let mut steps = 0;
    loop {
        steps += 1;
        assert!(steps < 10_000, "the run does not end");
        match vm.run() {
            Ok(Step::Continue) => {}
            Ok(Step::Finished) => break,
            Ok(Step::Stuck) => panic!("stuck"),
            Ok(Step::Numbers { op, a, b }) => vm.push(match op {
                NumberOp::Subtract => Value::Number(a - b),
                NumberOp::Multiply => Value::Number(a * b),
                NumberOp::Divide => Value::Number(a / b),
                NumberOp::Greater => Value::Bool(a > b),
                NumberOp::Less => Value::Bool(a < b),
                NumberOp::Equal => Value::Bool(a == b),
            }),
            Ok(Step::Negation(x)) => vm.push(Value::Number(-x)),
            Ok(Step::Addition(a, b)) => {
                let v = add(vm, a, b);
                vm.push(v)
            }
            Ok(Step::Native { function, args }) => {
                let result = match function {
                    Native::Sum => Ok(sum(&args, vm, &plus, &show).unwrap()),
                    Native::Product => Ok(product(&args, &times)),
                    Native::Clock => Err(BanjoError::runtime("no clock here")),
                };
                if let Err(e) = vm.finish_native(result) {
                    vm.record_error(e);
                    break;
                }
            }
            Err(e) => {
                vm.record_error(e);
                break;
            }
        }
    }
    vm.take_output()
}

fn number_of(output: &Output<f64>, id: &str) -> f64 {
    match output.node_values.iter().rev().find(|(n, _)| n == id) {
        Some((_, Value::Number(n))) => *n,
        other => panic!("no number for {}: {:?}", id, other.is_some()),
    }
}

#[test]
fn new_machine_is_empty() {
    let mut vm = Vm::<f64>::new();
    assert_eq!(vm.stack_len(), 0);
    assert!(!vm.is_ready());
    let output = vm.take_output();
    assert!(output.node_values.is_empty());
    assert!(output.errors.node_errors.is_empty());
    assert!(output.errors.additional_errors.is_empty());
}

#[test]
fn difference_is_previewed() {
    let mut vm = Vm::new();
    let output = run(
        &mut vm,
        vec![
            number("a", 1.0),
            number("b", 2.0),
            node("c", NodeType::Binary { binary_type: BinaryType::Subtract, args: ids(&["a", "b"]) }),
            node("v", NodeType::VariableDefinition { args: ids(&["c"]) }),
        ],
    );
    assert_eq!(number_of(&output, "v"), -1.0);
    assert!(output.errors.additional_errors.is_empty());
    // The script's return takes the script itself off the stack.
    assert_eq!(vm.stack_len(), 0);
}

#[test]
fn function_call_negates_its_argument() {
    let mut vm = Vm::new();
    let output = run(
        &mut vm,
        vec![
            node("p", NodeType::Param),
            node("neg", NodeType::Unary { unary_type: UnaryType::Negate, args: ids(&["p"]) }),
            node("f", NodeType::FunctionDefinition { args: ids(&["neg"]) }),
            number("three", 3.0),
            node("call", NodeType::FunctionCall { fn_node_id: "f".to_string(), args: ids(&["three"]) }),
        ],
    );
    assert!(output.errors.additional_errors.is_empty(), "{:?}", output.errors.additional_errors);
    assert_eq!(number_of(&output, "call"), -3.0);
}

#[test]
fn comparison_and_not() {
    let mut vm = Vm::new();
    let output = run(
        &mut vm,
        vec![
            number("a", 1.0),
            number("b", 2.0),
            node("c", NodeType::Binary { binary_type: BinaryType::LessEqual, args: ids(&["a", "b"]) }),
            node("v", NodeType::VariableDefinition { args: ids(&["c"]) }),
        ],
    );
    assert!(matches!(output.node_values[0].1, Value::Bool(true)));
}

#[test]
fn undefined_global_is_a_runtime_error_with_trace() {
    let mut vm = Vm::new();
    let output = run(&mut vm, vec![node("r", NodeType::VariableReference { var_node_id: "missing".to_string() })]);
    assert_eq!(output.errors.additional_errors, vec!["Undefined variable 'missing'.\nin <script>".to_string()]);
}

#[test]
fn calling_a_number_fails() {
    let mut vm = Vm::new();
    let output = run(
        &mut vm,
        vec![
            node("k", NodeType::Const { value: LiteralType::Number(4.0) }),
            node("call", NodeType::FunctionCall { fn_node_id: "k".to_string(), args: vec![] }),
        ],
    );
    assert_eq!(number_of(&output, "k"), 4.0);
    assert_eq!(output.errors.additional_errors, vec!["Can only call functions.\nin <script>".to_string()]);
}

#[test]
fn native_sum_adds_numbers() {
    let mut vm = Vm::new();
    let output = run(
        &mut vm,
        vec![
            number("a", 1.0),
            number("b", 2.0),
            node("s", NodeType::FunctionCall { fn_node_id: "sum".to_string(), args: ids(&["a", "b"]) }),
        ],
    );
    assert_eq!(number_of(&output, "s"), 3.0);
}

#[test]
fn native_sum_joins_strings() {
    let mut vm = Vm::new();
    let output = run(
        &mut vm,
        vec![
            string("a", "ban"),
            string("b", "jo"),
            node("s", NodeType::FunctionCall { fn_node_id: "sum".to_string(), args: ids(&["a", "b"]) }),
        ],
    );
    match output.node_values[0].1 {
        Value::String(r) => assert_eq!(vm.string_text(r).unwrap(), "banjo"),
        _ => panic!("not a string"),
    }
}

#[test]
fn native_error_gets_the_stack_trace() {
    let mut vm = Vm::new();
    let output = run(
        &mut vm,
        vec![
            number("a", 1.0),
            node("c", NodeType::FunctionCall { fn_node_id: "clock".to_string(), args: ids(&["a"]) }),
        ],
    );
    assert_eq!(output.errors.additional_errors, vec!["no clock here\nin <script>".to_string()]);
}

#[test]
fn error_inside_a_function_names_it() {
    // fn f(p) = -p, called with a string
    let mut vm = Vm::new();
    let output = run(
        &mut vm,
        vec![
            node("p", NodeType::Param),
            node("neg", NodeType::Unary { unary_type: UnaryType::Negate, args: ids(&["p"]) }),
            node("f", NodeType::FunctionDefinition { args: ids(&["neg"]) }),
            string("s", "x"),
            node("call", NodeType::FunctionCall { fn_node_id: "f".to_string(), args: ids(&["s"]) }),
        ],
    );
    assert_eq!(
        output.errors.additional_errors,
        vec!["Operand must be a number.\nin <fn \"f\">\nin <script>".to_string()]
    );
}

#[test]
fn single_steps_of_a_constant() {
    let mut vm = Vm::new();
    vm.start(Source { nodes: vec![node("k", NodeType::Const { value: LiteralType::Number(4.0) })] });
    // Constant, Output, DefineGlobal, Return
    assert!(vm.is_ready());
    assert!(matches!(vm.step(), Ok(Step::Continue)));
    assert_eq!(vm.stack_len(), 2);
    assert!(matches!(vm.step(), Ok(Step::Continue)));
    assert!(matches!(vm.step(), Ok(Step::Continue)));
    assert_eq!(vm.stack_len(), 1);
    assert!(matches!(vm.step(), Ok(Step::Finished)));
    assert_eq!(vm.stack_len(), 0);
    assert!(!vm.is_ready());
    assert!(matches!(vm.run(), Ok(Step::Stuck)));
}

#[test]
fn labels_of_functions() {
    assert_eq!(label(None), "<script>");
    assert_eq!(label(Some("\"f\"".to_string())), "<fn \"f\">");
}

#[test]
fn strings_and_lists_on_the_heap() {
    let mut vm = Vm::<f64>::new();
    let r = vm.intern("hello");
    assert_eq!(vm.string_text(r).unwrap(), "hello");
    assert_eq!(vm.intern("hello").index(), r.index());
    let l = vm.allocate(List::new(vec![Value::Number(1.0), Value::String(r)]));
    let values = vm.list_values(l).unwrap();
    assert_eq!(values.len(), 2);
    assert!(matches!(values[0], Value::Number(n) if n == 1.0));
    assert!(STACK_MAX > 0);
}

#[test]
fn collection_keeps_reachable_strings_only() {
    let mut vm = Vm::<f64>::new();
    let kept = vm.intern("kept");
    // Lists are never freed, so what they hold is kept.
    let l = vm.allocate(List::new(vec![Value::String(kept)]));
    let first = vm.intern("s0");
    let mut i = 1;
    // Enough new strings to pass the point of the first collection.
    while vm.string_text(first).is_some() {
        let s = format!("s{}", i);
        vm.intern(&s);
        i += 1;
        assert!(i < 1_000_000, "no collection happened");
    }
    assert_eq!(vm.string_text(kept).unwrap(), "kept");
    assert_eq!(vm.list_values(l).unwrap().len(), 1);
    // The names of the native functions are globals, so they stay too.
    let output = run(
        &mut vm,
        vec![
            number("a", 1.0),
            number("b", 2.0),
            node("s", NodeType::FunctionCall { fn_node_id: "sum".to_string(), args: ids(&["a", "b"]) }),
        ],
    );
    assert_eq!(number_of(&output, "s"), 3.0);
}

#[test]
fn native_product_multiplies_numbers() {
    let mut vm = Vm::new();
    let output = run(
        &mut vm,
        vec![
            number("a", 3.0),
            number("b", 4.0),
            node("p", NodeType::FunctionCall { fn_node_id: "product".to_string(), args: ids(&["a", "b"]) }),
        ],
    );
    assert_eq!(number_of(&output, "p"), 12.0);
}

#[test]
fn adding_numbers_booleans_and_strings() {
    let mut vm = Vm::<f64>::new();
    assert!(matches!(add(&mut vm, Value::Number(1.5), Value::Number(2.0)), Value::Number(n) if n == 3.5));
    assert!(matches!(add(&mut vm, Value::Bool(true), Value::Bool(true)), Value::Number(n) if n == 2.0));
    assert!(matches!(add(&mut vm, Value::Bool(false), Value::Number(4.0)), Value::Number(n) if n == 4.0));
    let a = Value::String(vm.intern("a"));
    let joined = add(&mut vm, a, Value::Number(1.5));
    assert_eq!(text(&vm, joined), "a1.5");
    let joined = add(&mut vm, Value::Bool(true), a);
    assert_eq!(text(&vm, joined), "truea");
    let b = Value::String(vm.intern("b"));
    let joined = add(&mut vm, a, b);
    assert_eq!(text(&vm, joined), "ab");
    // the joined text is interned: adding again gives the same string
    let again = add(&mut vm, a, b);
    match (joined, again) {
        (Value::String(x), Value::String(y)) => assert_eq!(x.index(), y.index()),
        _ => panic!("not strings"),
    }
}

#[test]
fn nil_and_functions_leave_the_other_operand() {
    let mut vm = Vm::<f64>::new();
    assert!(matches!(add(&mut vm, Value::Nil, Value::Number(7.0)), Value::Number(n) if n == 7.0));
    assert!(matches!(add(&mut vm, Value::Bool(true), Value::Nil), Value::Bool(true)));
}

#[test]
fn lists_add_value_by_value() {
    let mut vm = Vm::<f64>::new();
    let xs = Value::List(vm.allocate(List::new(vec![Value::Number(1.0), Value::Number(2.0), Value::Number(3.0)])));
    let ys = Value::List(vm.allocate(List::new(vec![Value::Number(10.0), Value::Number(20.0)])));
    // the shorter list is padded with nil, which leaves the other value
    let zs = add(&mut vm, xs, ys);
    assert_eq!(numbers_in(&vm, zs), vec![11.0, 22.0, 3.0]);
    let zs = add(&mut vm, ys, xs);
    assert_eq!(numbers_in(&vm, zs), vec![11.0, 22.0, 3.0]);
    // a list and a number add each value of the list and the number
    let zs = add(&mut vm, xs, Value::Number(1.0));
    assert_eq!(numbers_in(&vm, zs), vec![2.0, 3.0, 4.0]);
    let zs = add(&mut vm, Value::Number(1.0), ys);
    assert_eq!(numbers_in(&vm, zs), vec![11.0, 21.0]);
}

#[test]
fn operand_naming_nothing_is_refused() {
    let mut vm = Vm::<f64>::new();
    let missing = Value::List(banjoc::gc::GcRef::new(5));
    assert!(missing.add(Value::Number(1.0), &mut vm, &plus, &show).is_none());
}

#[test]
fn sum_and_product_of_arguments() {
    let mut vm = Vm::<f64>::new();
    let s = vm.intern("x");
    assert!(matches!(sum(&vec![], &mut vm, &plus, &show), Some(Value::Nil)));
    let total = sum(&vec![Value::Number(1.0), Value::Number(2.0), Value::String(s)], &mut vm, &plus, &show).unwrap();
    assert_eq!(text(&vm, total), "3x");
    assert!(matches!(product(&vec![], &times), Value::Nil));
    let p = product(&vec![Value::Number(2.0), Value::String(s), Value::Number(3.0)], &times);
    assert!(matches!(p, Value::Number(n) if n == 6.0));
    let p = product(&vec![Value::String(s), Value::Number(3.0)], &times);
    assert!(matches!(p, Value::String(r) if r.index() == s.index()));
}

#[test]
fn calls_in_progress_name_functions_of_the_heap() {
    let mut vm = Vm::<f64>::new();
    assert!(vm.frames_readable());
    vm.start(Source { nodes: vec![number("a", 1.0)] });
    assert!(vm.frames_readable());
    assert!(vm.stack_len() >= 1);
}

#[test]
fn loop_that_nothing_reaches_compiles_to_nothing() {
    let mut vm = Vm::new();
    let output = run(
        &mut vm,
        vec![
            node("a", NodeType::Unary { unary_type: UnaryType::Negate, args: ids(&["b"]) }),
            node("b", NodeType::Unary { unary_type: UnaryType::Negate, args: ids(&["a"]) }),
        ],
    );
    assert!(output.node_values.is_empty());
    assert!(output.errors.additional_errors.is_empty());
    assert!(output.errors.node_errors.is_empty());
}

#[test]
fn nil_leaves_any_operand_and_the_heap() {
    let mut vm = Vm::<f64>::new();
    let missing = Value::List(banjoc::gc::GcRef::new(5));
    let before = vm.intern("probe").index();
    let r = Value::Nil.add(missing, &mut vm, &plus, &show).unwrap();
    assert!(matches!(r, Value::List(l) if l.index() == 5));
    let r = missing.add(Value::Nil, &mut vm, &plus, &show).unwrap();
    assert!(matches!(r, Value::List(l) if l.index() == 5));
    // nothing new was interned
    assert_eq!(vm.intern("probe2").index(), before + 1);
}

#[test]
fn a_new_machine_has_room_to_start() {
    let vm = Vm::<f64>::new();
    assert!(vm.room_to_start(&vec![number("a", 1.0), string("s", "text")]));
}
