use banjoc::error::LoxError;
use banjoc::graph_compiler::GraphCompiler;
use banjoc::scanner::{Token, TokenType};

fn name(text: &'static str) -> Token<'static> {
    Token {
        token_type: TokenType::Identifier,
        lexeme: text,
        line: 1,
    }
}

fn message(r: Result<Option<u8>, LoxError>) -> &'static str {
    match r {
        Err(LoxError::CompileError(m)) => m,
        _ => panic!("expected a compile error"),
    }
}

#[test]
fn locals_resolve_innermost_first() {
    let mut c = GraphCompiler::new(None);
    c.begin_scope();
    c.add_local(name("x")).unwrap();
    c.mark_var_initialized();
    c.add_local(name("y")).unwrap();
    c.mark_var_initialized();
    c.add_local(name("x")).unwrap();
    // declared but not yet defined
    assert_eq!(
        message(c.resolve_local(name("x"))),
        "Can't read local variable in its own initializer."
    );
    c.mark_var_initialized();
    assert!(matches!(c.resolve_local(name("x")), Ok(Some(3))));
    assert!(matches!(c.resolve_local(name("y")), Ok(Some(2))));
    assert!(matches!(c.resolve_local(name("z")), Ok(None)));
    assert!(c.has_local_in_scope());
    assert!(!c.get_local().is_captured);
    c.remove_local();
    assert!(matches!(c.resolve_local(name("x")), Ok(Some(1))));
}

#[test]
fn scopes() {
    let mut c = GraphCompiler::new(None);
    assert!(!c.is_local_scope());
    c.begin_scope();
    assert!(c.is_local_scope());
    c.add_local(name("a")).unwrap();
    c.mark_var_initialized();
    assert!(c.is_local_already_in_scope(name("a")));
    c.begin_scope();
    assert!(!c.is_local_already_in_scope(name("a")));
    assert!(!c.has_local_in_scope());
    c.end_scope();
    assert!(c.is_local_already_in_scope(name("a")));
}

#[test]
fn too_many_locals() {
    let mut c = GraphCompiler::new(None);
    for _ in 1..256 {
        c.add_local(name("v")).unwrap();
    }
    match c.add_local(name("v")) {
        Err(LoxError::CompileError(m)) => assert_eq!(m, "Too many local variables in function."),
        _ => panic!(),
    }
}

#[test]
fn upvalues_through_two_levels() {
    let mut outer = GraphCompiler::new(None);
    outer.begin_scope();
    outer.add_local(name("a")).unwrap();
    outer.mark_var_initialized();
    let mut middle = GraphCompiler::new(None);
    middle.enclosing = Some(Box::new(outer));
    let mut inner = GraphCompiler::new(None);
    inner.enclosing = Some(Box::new(middle));

    // `a` is a local of the outermost graph: the middle one captures it as a
    // local, the inner one through the middle one's upvalue
    assert!(matches!(inner.resolve_upvalue(name("a")), Ok(Some(0))));
    assert!(matches!(inner.resolve_upvalue(name("a")), Ok(Some(0))));
    assert!(matches!(inner.resolve_upvalue(name("b")), Ok(None)));
    let middle = inner.enclosing.as_ref().unwrap();
    let outer = middle.enclosing.as_ref().unwrap();
    assert!(outer.get_local().is_captured);
    assert!(GraphCompiler::new(None).resolve_upvalue(name("a")).unwrap().is_none());
}
