use banjoc::parser::{parse_source, Message, NodeType, Parser};
use banjoc::scanner::TokenType;

#[test]
fn parser_edges() {
    let source = "digraph { 10 -> b -> return }";
    let parser = Parser::new(source);
    let graph = parser.parse().unwrap();
    let return_node = graph.get_return_node();
    match return_node.node_type {
        NodeType::Return {
            argument: Some(argument),
        } => {
            let b = graph.get_node(argument).unwrap();
            match &b.node_type {
                NodeType::Reference { arguments } => {
                    let literal = graph.get_node(arguments[0]).unwrap();
                    assert_eq!(literal.node_id.lexeme, "10");
                    match literal.node_type {
                        NodeType::Literal => {}
                        _ => panic!(),
                    }
                }
                _ => panic!(),
            }
        }
        _ => panic!(),
    }
}

#[test]
fn parser_nodes() {
    let source = "digraph { a b c }";
    let parser = Parser::new(source);
    let graph = parser.parse().unwrap();
    for node_id in ["a", "b", "c"] {
        let node = graph.get_node(node_id).unwrap();
        assert_eq!(node_id, node.node_id.lexeme);
        match node.node_type {
            NodeType::Definition { body, arity } => {
                assert!(body.is_none());
                assert_eq!(arity, 0);
            }
            _ => panic!(),
        }
    }
}

#[test]
fn parser_node_attr() {
    let source = "digraph { a [comment=\"hi\"] }";
    let parser = Parser::new(source);
    let graph = parser.parse().unwrap();
    let node = graph.get_node("a").unwrap();
    assert_eq!(node.node_id.lexeme, "a");
    assert!(matches!(node.node_type, NodeType::Definition { .. }));
    assert_eq!(node.attributes.comment.unwrap().lexeme, "\"hi\"");
}

#[test]
fn parser_node_attribs() {
    let source = "digraph { b [pos=\"1,2\"]; a -> b; a [label=2.5] }";
    let parser = Parser::new(source);
    let graph = parser.parse().unwrap();

    let a = graph.get_node("a").unwrap();
    assert_eq!(a.node_id.lexeme, "a");
    assert!(matches!(a.node_type, NodeType::Reference { .. }));
    assert_eq!(a.attributes.label.unwrap().lexeme, "2.5");

    let b = graph.get_node("b").unwrap();
    assert_eq!(b.node_id.lexeme, "b");
    match b.node_type {
        NodeType::Definition {
            body: Some(body),
            arity,
        } => {
            assert_eq!(body, "a");
            assert_eq!(arity, 0);
        }
        _ => panic!(),
    };
    assert_eq!(b.attributes.pos.unwrap().lexeme, "\"1,2\"");
}

#[test]
fn parser_deduce_types() {
    let source = r#"
            digraph {
                1
                "hi"
                return
                defn1
                ref1
                ret1 [label=return]
                num1 [label=1]
                string2 [label="stringy"]
                1 -> defn1
                ref1 -> ret1
            }
        "#;
    let parser = Parser::new(source);
    let graph = parser.parse().unwrap();
    assert!(matches!(
        graph.get_node("1").unwrap().node_type,
        NodeType::Literal
    ));
    assert!(matches!(
        graph.get_node("\"hi\"").unwrap().node_type,
        NodeType::Literal
    ));
    assert!(matches!(
        graph.get_node("return").unwrap().node_type,
        NodeType::Return { .. }
    ));
    assert!(matches!(
        graph.get_node("ret1").unwrap().node_type,
        NodeType::Return { .. }
    ));
    assert!(matches!(
        graph.get_node("num1").unwrap().node_type,
        NodeType::Literal
    ));
    assert!(matches!(
        graph.get_node("string2").unwrap().node_type,
        NodeType::Literal
    ));
    assert!(matches!(
        graph.get_node("defn1").unwrap().node_type,
        NodeType::Definition { .. }
    ));
    assert!(matches!(
        graph.get_node("ref1").unwrap().node_type,
        NodeType::Reference { .. }
    ));
}

#[test]
fn parser_explicit_types() {
    let source = r#"
            digraph {
                a [type=def]
                b [type=ref]
                c [type=return]
            }
        "#;
    let parser = Parser::new(source);
    let graph = parser.parse().unwrap();
    assert!(matches!(
        graph.get_node("a").unwrap().node_type,
        NodeType::Definition { .. }
    ));
    assert!(matches!(
        graph.get_node("b").unwrap().node_type,
        NodeType::Reference { .. }
    ));
    assert!(matches!(
        graph.get_node("c").unwrap().node_type,
        NodeType::Return { .. }
    ));
}

#[test]
fn parse_source_reports_first_error() {
    // the edge takes `}` as its target, so the block runs into the end of input
    let (graph, diagnostic) = parse_source("digraph { a -> }").unwrap();
    let diagnostic = diagnostic.expect("an error");
    assert_eq!(diagnostic.token.token_type, TokenType::Eof);
    assert!(matches!(diagnostic.message, Message::Text("Expect '}' after block.")));
    assert!(graph.get_node("a").is_some());
    assert!(graph.get_node("}").is_some());
    // only the first error is kept
    // without `digraph` the parse stops before the end of input and never finishes
    assert!(parse_source("graph { a }").is_none());
    let (_, diagnostic) = parse_source("digraph ").unwrap();
    assert!(matches!(diagnostic.unwrap().message, Message::Text("Expect '{' before digraph body.")));
    let (_, diagnostic) = parse_source("digraph { a [color=red] }").unwrap();
    assert!(matches!(diagnostic.unwrap().message, Message::UnexpectedAttribute("color")));
}

#[test]
fn parse_source_refuses_unscannable_input() {
    // the scanner would read past the end of an identifier at the very end
    assert!(parse_source("digraph { a } b").is_none());
}

#[test]
fn unknown_node_is_none() {
    let graph = Parser::new("digraph { a }").parse().unwrap();
    assert!(graph.get_node("zz").is_none());
}
