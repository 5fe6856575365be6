use banjoc::banjo::ast::{BinaryType, UnaryType};
use banjoc::banjo::error::{BanjoError, Context};
use banjoc::banjo::func_compiler::FuncCompiler;
use banjoc::banjo::obj::BanjoString;
use banjoc::banjo::op_code::{Constant, OpCode};
use banjoc::banjo::output::OutputErrors;
use banjoc::op_code::{Constant as LoxConstant, Invoke, OpCode as LoxOpCode};

fn node_error(e: &BanjoError) -> (&str, &str) {
    match e {
        BanjoError::Node((n, m)) => (n.as_str(), m.as_str()),
        _ => panic!("expected a node error"),
    }
}

#[test]
fn error_constructors() {
    assert!(matches!(BanjoError::compile("c"), BanjoError::Compile(m) if m == "c"));
    assert!(matches!(BanjoError::runtime("r"), BanjoError::Runtime(m) if m == "r"));
    let e = BanjoError::node("n1", "bad");
    assert_eq!(node_error(&e), ("n1", "bad"));
    assert!(matches!(BanjoError::compile_err::<u8>("c"), Err(BanjoError::Compile(_))));
    assert!(matches!(BanjoError::runtime_err::<u8>("r"), Err(BanjoError::Runtime(_))));
    assert!(matches!(BanjoError::node_err::<u8>("n", "m"), Err(BanjoError::Node(_))));
}

#[test]
fn context_attaches_node() {
    let r: Result<u8, BanjoError> = BanjoError::compile_err("Too many constants in one chunk.");
    let e = r.node_context("n7").unwrap_err();
    assert_eq!(node_error(&e), ("n7", "Too many constants in one chunk."));
    let ok: Result<u8, BanjoError> = Ok(3);
    assert_eq!(ok.node_context("n7").unwrap(), 3);
    let r: Result<u8, BanjoError> = BanjoError::compile_err("oops");
    let e = r.with_node_context(|| "lazy").unwrap_err();
    assert_eq!(node_error(&e), ("lazy", "oops"));
    let ok: Result<u8, BanjoError> = Ok(4);
    assert_eq!(ok.with_node_context(|| "lazy").unwrap(), 4);
}

#[test]
fn output_errors_keep_last_error_per_node() {
    let mut errors = OutputErrors::default();
    errors.add(BanjoError::compile("first"));
    errors.add(BanjoError::node("a", "one"));
    errors.add(BanjoError::node("b", "two"));
    errors.add(BanjoError::node("a", "three"));
    errors.add(BanjoError::runtime("second"));
    assert_eq!(errors.additional_errors, vec!["first".to_string(), "second".to_string()]);
    assert_eq!(errors.node_errors.len(), 2);
    assert_eq!(errors.node_errors[0], ("a".to_string(), "three".to_string()));
    assert_eq!(errors.node_errors[1], ("b".to_string(), "two".to_string()));
}

#[test]
fn func_compiler_locals() {
    let mut c = FuncCompiler::<f64>::new(None, 2);
    assert_eq!(c.arity(), 2);
    assert_eq!(c.function.arity, 2);
    assert!(c.enclosing.is_none());
    // at global scope nothing is defined as a local
    c.add_local("p").unwrap();
    c.mark_var_initialized();
    match c.resolve_local("p") {
        Err(e) => assert_eq!(
            node_error(&e),
            ("p", "Can't read local variable in its own initializer.")
        ),
        _ => panic!(),
    }
    c.begin_scope();
    assert!(c.is_local_scope());
    c.add_local("q").unwrap();
    assert!(c.is_local_already_in_scope("q"));
    c.mark_var_initialized();
    assert!(matches!(c.resolve_local("q"), Ok(Some(2))));
    assert!(matches!(c.resolve_local("zz"), Ok(None)));
}

#[test]
fn func_compiler_too_many_locals() {
    let mut c = FuncCompiler::<f64>::new(None, 0);
    for _ in 1..256 {
        c.add_local("v").unwrap();
    }
    let e = c.add_local("w").unwrap_err();
    assert_eq!(node_error(&e), ("w", "Too many local variables in function."));
}

#[test]
fn plain_types() {
    let s = BanjoString::new("hello".to_string());
    assert_eq!(s.as_str(), "hello");
    assert_eq!(s.hash, banjoc::banjo::obj::hash_string("hello"));
    assert_eq!(s.hash, 0x4f9f2cab);
    let c = Constant { slot: 7 };
    assert_eq!(OpCode::Constant(c), OpCode::Constant(Constant { slot: 7 }));
    assert_ne!(OpCode::Call { arg_count: 1 }, OpCode::Call { arg_count: 2 });
    assert!(matches!(UnaryType::Negate, UnaryType::Negate));
    assert!(matches!(BinaryType::LessEqual, BinaryType::LessEqual));
    assert_eq!(LoxConstant::none().slot, 0);
    let invoke = Invoke { name: LoxConstant { slot: 3 }, arg_count: 1 };
    assert_eq!(LoxOpCode::Invoke(invoke), LoxOpCode::Invoke(invoke));
}
