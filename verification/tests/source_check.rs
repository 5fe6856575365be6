use banjoc::banjo::ast::{LiteralType, Node, NodeType, UnaryType};
use banjoc::banjo::source_check::{ids_distinct, inputs_acyclic, inputs_compilable};

fn node(id: &str, node_type: NodeType<f64>) -> Node<f64> {
    Node { id: id.to_string(), node_type }
}

fn ids(list: &[&str]) -> Vec<String> {
    list.iter().map(|s| s.to_string()).collect()
}

fn negate(id: &str, input: &str) -> Node<f64> {
    node(id, NodeType::Unary { unary_type: UnaryType::Negate, args: ids(&[input]) })
}

fn literal(id: &str) -> Node<f64> {
    node(id, NodeType::Literal { value: LiteralType::Number(1.0) })
}

#[test]
fn shared_ids_are_found() {
    assert!(ids_distinct(&vec![literal("a"), literal("b")]));
    assert!(!ids_distinct(&vec![literal("a"), literal("b"), literal("a")]));
    assert!(ids_distinct::<f64>(&vec![]));
}

#[test]
fn chains_of_inputs_are_acyclic() {
    // c <- b <- a, listed in any order
    assert!(inputs_acyclic(&vec![negate("c", "b"), negate("b", "a"), literal("a")]));
    // an input that names no node leads nowhere
    assert!(inputs_acyclic(&vec![negate("x", "missing")]));
}

#[test]
fn loops_among_inputs_are_found() {
    // a loop that a root reaches
    assert!(!inputs_acyclic(&vec![negate("r", "x"), negate("x", "y"), negate("y", "x")]));
    // a loop that a definition reaches
    let definition = node("v", NodeType::VariableDefinition { args: ids(&["p"]) });
    assert!(!inputs_acyclic(&vec![definition, negate("p", "q"), negate("q", "p")]));
}

#[test]
fn loops_that_nothing_reaches_are_accepted() {
    assert!(inputs_acyclic(&vec![negate("x", "y"), negate("y", "x")]));
    assert!(inputs_acyclic(&vec![negate("self", "self")]));
    assert!(inputs_acyclic(&vec![literal("a"), negate("p", "q"), negate("q", "r"), negate("r", "p")]));
}

#[test]
fn inputs_that_cannot_be_compiled() {
    assert!(inputs_compilable(&vec![literal("a"), negate("n", "a")]));
    // an input that names no node is an error at compile time, not a stop
    assert!(inputs_compilable(&vec![negate("n", "missing")]));
    // a definition cannot be an input
    let definition = node("v", NodeType::VariableDefinition { args: ids(&["a"]) });
    assert!(!inputs_compilable(&vec![literal("a"), definition, negate("n", "v")]));
    // every input of a call names a node
    let call = node("c", NodeType::FunctionCall { fn_node_id: "f".to_string(), args: ids(&["missing"]) });
    assert!(!inputs_compilable(&vec![call]));
}
