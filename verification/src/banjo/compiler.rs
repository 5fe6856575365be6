use vstd::prelude::*;

use crate::banjo::ast::{a_rank, arg_ids, is_start, dependency_id, index_of, Ast, BinaryType, LiteralType, Node, NodeId, NodeType, UnaryType};
use crate::banjo::chunk::{binary_code, unary_code};
use crate::banjo::chunk::too_many_constants;
use crate::banjo::error::{BanjoError, Context, Result};
use crate::banjo::func_compiler::{
    declared_in_scope, emitted, frame_ok, fresh_frame, initialized, local_lookup, with_constant, with_local,
    FrameView, FuncCompiler,
};
use crate::banjo::gc::Gc;
use crate::banjo::obj::{function_view, BanjoString, Function, FunctionView, Native};
use crate::banjo::op_code::{Constant, OpCode};
use crate::banjo::output::OutputValues;
use crate::banjo::value::Value;
use crate::gc::{slot_with_text, text_interned, GcRef};
use crate::obj::{fnv1a, LoxStringView};
use vstd::string::{StringExecFns, StringSliceAdditionalSpecFns};
use vstd::utf8::encode_utf8;

verus! {

/// An error as plain values.
pub enum Fail {
    Compile(Seq<char>),
    Node(Seq<char>, Seq<char>),
    Runtime(Seq<char>),
}

/// The plain value of an error.
pub open spec fn fail_of(e: BanjoError) -> Fail {
    match e {
        BanjoError::Compile(m) => Fail::Compile(m@),
        BanjoError::Node((n, m)) => Fail::Node(n@, m@),
        BanjoError::Runtime(m) => Fail::Runtime(m@),
    }
}

/// The plain value of a result.
pub open spec fn outcome<T>(r: Result<T>) -> core::result::Result<T, Fail> {
    match r {
        Ok(v) => Ok(v),
        Err(e) => Err(fail_of(e)),
    }
}

/// A compile error turned into an error at node `id`.
pub open spec fn at_node(f: Fail, id: Seq<char>) -> Fail {
    match f {
        Fail::Compile(m) => Fail::Node(id, m),
        _ => f,
    }
}

/// The interned strings as plain values.
pub struct StringsView {
    pub objects: Seq<Option<LoxStringView>>,
    pub interned: Set<usize>,
}

/// The recorded errors as plain values.
pub struct ErrorsView {
    pub nodes: Map<Seq<char>, Seq<char>>,
    pub additional: Seq<Seq<char>>,
}

/// Everything compiling reads and writes, as plain values: the frames of the
/// functions being compiled (innermost first), the interned strings, the compiled
/// functions, the previewed nodes and the errors.
pub struct CState<N> {
    pub frames: Seq<FrameView<N>>,
    pub strings: StringsView,
    pub functions: Seq<FunctionView<N>>,
    pub outputs: Seq<Seq<char>>,
    pub values: Seq<Value<N>>,
    pub errors: ErrorsView,
}

/// The strings after interning `text`, and the slot of the interned string.
pub open spec fn intern_step(s: StringsView, text: Seq<char>) -> (StringsView, usize) {
    if text_interned(s.objects, s.interned, text) {
        (s, slot_with_text(s.objects, s.interned, text))
    } else {
        (
            StringsView {
                objects: s.objects.push(
                    Some(LoxStringView { chars: text, hash: fnv1a(encode_utf8(text)), marked: false }),
                ),
                interned: s.interned.insert(s.objects.len() as usize),
            },
            s.objects.len() as usize,
        )
    }
}

/// The state with the innermost frame replaced.
pub open spec fn with_frame<N>(st: CState<N>, f: FrameView<N>) -> CState<N> {
    CState { frames: st.frames.update(0, f), ..st }
}

/// The state with `ops` written into the innermost function.
pub open spec fn emit_step<N>(st: CState<N>, ops: Seq<OpCode>) -> CState<N> {
    with_frame(st, emitted(st.frames[0], ops))
}

/// The state with `f` recorded: a node error against its node, any other in order.
pub open spec fn error_step<N>(st: CState<N>, f: Fail) -> CState<N> {
    match f {
        Fail::Node(n, m) => CState { errors: ErrorsView { nodes: st.errors.nodes.insert(n, m), ..st.errors }, ..st },
        Fail::Compile(m) => CState {
            errors: ErrorsView { additional: st.errors.additional.push(m), ..st.errors },
            ..st
        },
        Fail::Runtime(m) => CState {
            errors: ErrorsView { additional: st.errors.additional.push(m), ..st.errors },
            ..st
        },
    }
}

/// Adding `value` to the innermost function's constants: its slot, or the error
/// when the slot does not fit in a byte.
pub open spec fn constant_step<N>(st: CState<N>, value: Value<N>) -> (CState<N>, core::result::Result<Constant, Fail>) {
    let k = st.frames[0].function.constants.len();
    (
        with_frame(st, with_constant(st.frames[0], value)),
        if k <= 255 {
            Ok(Constant { slot: k as u8 })
        } else {
            Err(Fail::Compile(too_many_constants()))
        },
    )
}

/// Adding `value` to the constants and writing the instruction that loads it.
pub open spec fn load_constant_step<N>(st: CState<N>, value: Value<N>) -> (CState<N>, core::result::Result<(), Fail>) {
    let (st1, r) = constant_step(st, value);
    match r {
        Ok(c) => (emit_step(st1, seq![OpCode::Constant(c)]), Ok(())),
        Err(f) => (st1, Err(f)),
    }
}

/// The constant that names the global `id`: the interned string of its id.
pub open spec fn identifier_step<N>(st: CState<N>, id: Seq<char>) -> (CState<N>, core::result::Result<Constant, Fail>) {
    let (strings, slot) = intern_step(st.strings, id);
    let (st1, r) = constant_step(CState { strings, ..st }, Value::String(GcRef::at(slot)));
    (
        st1,
        match r {
            Ok(c) => Ok(c),
            Err(f) => Err(at_node(f, id)),
        },
    )
}

/// Reading the variable `id`: a local by its slot, else a global by its name.
pub open spec fn variable_step<N>(st: CState<N>, id: Seq<char>) -> (CState<N>, core::result::Result<(), Fail>) {
    match local_lookup(st.frames[0].locals, encode_utf8(id)) {
        None => (st, Err(Fail::Node(id, "Can't read local variable in its own initializer."@))),
        Some(Some(slot)) => (emit_step(st, seq![OpCode::GetLocal(slot)]), Ok(())),
        Some(None) => {
            let (st1, r) = identifier_step(st, id);
            match r {
                Ok(c) => (emit_step(st1, seq![OpCode::GetGlobal(c)]), Ok(())),
                Err(f) => (st1, Err(f)),
            }
        },
    }
}

/// Previewing the value of node `id`, in a function without parameters.
pub open spec fn output_step<N>(st: CState<N>, id: Seq<char>) -> (CState<N>, core::result::Result<(), Fail>) {
    if st.frames[0].function.arity == 0 {
        if st.outputs.len() >= 255 {
            (st, Err(Fail::Node(id, "Can't preview the output of more than 255 nodes"@)))
        } else {
            (
                emit_step(
                    CState { outputs: st.outputs.push(id), ..st },
                    seq![OpCode::Output { output_index: st.outputs.len() as u8 }],
                ),
                Ok(()),
            )
        }
    } else {
        (st, Ok(()))
    }
}

/// The plain value of a literal: its text, for a string.
pub open spec fn literal_text<N>(value: LiteralType<N>) -> Seq<char> {
    match value {
        LiteralType::String(s) => s@,
        _ => Seq::empty(),
    }
}

/// Loading a literal: booleans and nil as instructions, numbers and interned
/// strings as constants.
pub open spec fn literal_step<N>(st: CState<N>, value: LiteralType<N>) -> (CState<N>, core::result::Result<(), Fail>) {
    match value {
        LiteralType::Bool(b) => (emit_step(st, seq![
            if b {
                OpCode::True
            } else {
                OpCode::False
            },
        ]), Ok(())),
        LiteralType::Nil => (emit_step(st, seq![OpCode::Nil]), Ok(())),
        LiteralType::Number(n) => load_constant_step(st, Value::Number(n)),
        LiteralType::String(s) => {
            let (strings, slot) = intern_step(st.strings, s@);
            load_constant_step(CState { strings, ..st }, Value::String(GcRef::at(slot)))
        },
    }
}

/// Declaring the local `id` in the current scope.
pub open spec fn declare_local_step<N>(st: CState<N>, id: Seq<char>) -> (CState<N>, core::result::Result<(), Fail>) {
    let f = st.frames[0];
    if declared_in_scope(f.locals, encode_utf8(id), f.scope_depth) {
        (st, Err(Fail::Node(id, "Already a variable with this name in this scope."@)))
    } else if f.locals.len() == 256 {
        (st, Err(Fail::Node(id, "Too many local variables in function."@)))
    } else {
        (with_frame(st, with_local(f, encode_utf8(id))), Ok(()))
    }
}

/// Declaring the variable `id`: a local in a local scope, else a global by the
/// constant that names it; failures are dropped.
pub open spec fn declare_step<N>(st: CState<N>, id: Seq<char>) -> (CState<N>, Option<Constant>) {
    if st.frames[0].scope_depth > 0 {
        (declare_local_step(st, id).0, None)
    } else {
        let (st1, r) = identifier_step(st, id);
        (
            st1,
            match r {
                Ok(c) => Some(c),
                Err(_) => None,
            },
        )
    }
}

/// Defining the innermost local.
pub open spec fn mark_step<N>(st: CState<N>) -> CState<N> {
    with_frame(st, initialized(st.frames[0]))
}

/// Defining a declared variable: a global by its instruction, a local by marking
/// it defined.
pub open spec fn define_step<N>(st: CState<N>, global: Option<Constant>) -> CState<N> {
    match global {
        Some(c) => emit_step(st, seq![OpCode::DefineGlobal(c)]),
        None => mark_step(st),
    }
}

/// Starting to compile the function `id` with `arity` parameters, enclosed by
/// the current one.
pub open spec fn push_step<N>(st: CState<N>, id: Seq<char>, arity: usize) -> CState<N> {
    let (strings, slot) = intern_step(st.strings, id);
    CState { strings, frames: seq![fresh_frame(Some(GcRef::at(slot)), arity)] + st.frames, ..st }
}

/// Finishing the innermost function with a return: the state with its frame gone
/// (or replaced by a fresh script frame when it is the last), and the function.
pub open spec fn pop_step<N>(st: CState<N>) -> (CState<N>, FunctionView<N>) {
    let st1 = emit_step(st, seq![OpCode::Return]);
    let f = st1.frames[0].function;
    if st1.frames.len() > 1 {
        (CState { frames: st1.frames.drop_first(), ..st1 }, f)
    } else {
        (CState { frames: seq![fresh_frame(None, 0)], ..st1 }, f)
    }
}

/// Entering a scope in the innermost function.
pub open spec fn begin_scope_step<N>(st: CState<N>) -> CState<N> {
    with_frame(st, FrameView { scope_depth: (st.frames[0].scope_depth + 1) as u32, ..st.frames[0] })
}

/// The error of an input id that names no node.
pub open spec fn unknown_node(id: Seq<char>) -> Fail {
    Fail::Node(id, "Unknown node id "@ + id + "."@)
}

/// The arity recorded for the function definition with id `id`, if there is one.
pub open spec fn arity_for<N>(ast: Ast<N>, id: Seq<char>) -> Option<usize> {
    if index_of(ast.nodes(), id) >= 0 {
        ast.arity_at(index_of(ast.nodes(), id))
    } else {
        None
    }
}

/// The rank of node `i` among the inputs.
pub open spec fn rank_of<N>(ast: Ast<N>, i: int) -> nat {
    a_rank(ast.nodes())[i]
}

/// Compiling node `i`: the code that leaves its value on the stack.
pub open spec fn node_step<N>(st: CState<N>, ast: Ast<N>, i: int) -> (CState<N>, core::result::Result<(), Fail>)
    decreases rank_of(ast, i), arg_ids(ast.nodes()[i].node_type).len() + 2,
{
    let node = ast.nodes()[i];
    let id = node.id@;
    match node.node_type {
        NodeType::Literal { value } => {
            let (s1, r) = literal_step(st, value);
            (
                s1,
                match r {
                    Ok(u) => Ok(u),
                    Err(f) => Err(at_node(f, id)),
                },
            )
        },
        NodeType::Param => {
            let f = st.frames[0];
            if f.scope_depth == 0 {
                (st, Err(Fail::Node(id, "Can only use param in function declaration."@)))
            } else if declared_in_scope(f.locals, encode_utf8(id), f.scope_depth) {
                variable_step(st, id)
            } else {
                let (s1, r1) = declare_local_step(st, id);
                match r1 {
                    Err(e) => (s1, Err(e)),
                    Ok(_) => variable_step(mark_step(s1), id),
                }
            }
        },
        NodeType::VariableReference { var_node_id } => {
            let (s1, r1) = variable_step(st, var_node_id@);
            match r1 {
                Err(e) => (s1, Err(e)),
                Ok(_) => output_step(s1, id),
            }
        },
        NodeType::FunctionCall { fn_node_id, args } => {
            let (s1, r1) = variable_step(st, fn_node_id@);
            let arity = arity_for(ast, fn_node_id@);
            if r1 is Err {
                (s1, r1)
            } else if arity is Some && arity->Some_0 != args@.len() {
                (s1, Err(Fail::Node(id, arity_message(arity->Some_0 as nat, args@.len()))))
            } else if (match arity {
                Some(a) => a > 0,
                None => true,
            }) {
                let (s2, r2) = call_step(s1, ast, i);
                match r2 {
                    Err(e) => (s2, Err(e)),
                    Ok(_) => output_step(s2, id),
                }
            } else {
                output_step(s1, id)
            }
        },
        NodeType::Unary { unary_type, args } => {
            if args@.len() != 1 {
                (st, Err(Fail::Node(id, "Unary has invalid input."@)))
            } else {
                let (s1, r1) = args_step(st, ast, i, 1);
                match r1 {
                    Err(e) => (s1, Err(e)),
                    Ok(_) => (emit_step(s1, seq![unary_code(unary_type)]), Ok(())),
                }
            }
        },
        NodeType::Binary { binary_type, args } => {
            if args@.len() != 2 {
                (st, Err(Fail::Node(id, "Binary has invalid input."@)))
            } else {
                let (s1, r1) = args_step(st, ast, i, 2);
                match r1 {
                    Err(e) => (s1, Err(e)),
                    Ok(_) => (emit_step(s1, binary_code(binary_type)), Ok(())),
                }
            }
        },
        _ => (st, Ok(())),
    }
}

/// Compiling the inputs of call `i` and then the call itself.
pub open spec fn call_step<N>(st: CState<N>, ast: Ast<N>, i: int) -> (CState<N>, core::result::Result<(), Fail>)
    decreases rank_of(ast, i), arg_ids(ast.nodes()[i].node_type).len() + 1,
{
    let n = arg_ids(ast.nodes()[i].node_type).len();
    let (s1, r1) = args_step(st, ast, i, n);
    match r1 {
        Err(e) => (s1, Err(e)),
        Ok(_) => (emit_step(s1, seq![OpCode::Call { arg_count: n as u8 }]), Ok(())),
    }
}

/// Compiling the first `k` inputs of node `i`, in order, up to the first failure.
pub open spec fn args_step<N>(st: CState<N>, ast: Ast<N>, i: int, k: nat) -> (CState<N>, core::result::Result<(), Fail>)
    decreases rank_of(ast, i), k,
{
    if k == 0 {
        (st, Ok(()))
    } else {
        let (s1, r1) = args_step(st, ast, i, (k - 1) as nat);
        let a = arg_ids(ast.nodes()[i].node_type)[k - 1];
        let j = index_of(ast.nodes(), a);
        if r1 is Err {
            (s1, r1)
        } else if j < 0 {
            (s1, Err(unknown_node(a)))
        } else if rank_of(ast, j) < rank_of(ast, i) {
            node_step(s1, ast, j)
        } else {
            (s1, Ok(()))
        }
    }
}

/// Compiling the function `id` with `arity` parameters and body node `body`:
/// its own code in a new frame, then, back in the enclosing function, the
/// constant of the finished function and the instruction that makes it.
pub open spec fn function_step<N>(st: CState<N>, ast: Ast<N>, body: int, id: Seq<char>, arity: usize) -> (
    CState<N>,
    core::result::Result<(), Fail>,
) {
    let s1 = begin_scope_step(push_step(st, id, arity));
    let (s2, r2) = node_step(s1, ast, body);
    match r2 {
        Err(e) => (s2, Err(e)),
        Ok(_) => {
            let (s3, f) = pop_step(s2);
            let s4 = CState { functions: s3.functions.push(f), ..s3 };
            let (s5, r5) = constant_step(s4, Value::Function(GcRef::at(s3.functions.len() as usize)));
            match r5 {
                Ok(c) => (emit_step(s5, seq![OpCode::Function(c)]), Ok(())),
                Err(e) => (s5, Err(at_node(e, id))),
            }
        },
    }
}

/// Declaring the function `id`, compiling it, and defining it.
pub open spec fn fun_declaration_step<N>(st: CState<N>, ast: Ast<N>, body: int, id: Seq<char>, arity: usize) -> (
    CState<N>,
    core::result::Result<(), Fail>,
) {
    let (s1, g) = declare_step(st, id);
    let (s2, r2) = function_step(mark_step(s1), ast, body, id, arity);
    match r2 {
        Err(e) => (s2, Err(e)),
        Ok(_) => (define_step(s2, g), Ok(())),
    }
}

/// Declaring the variable `id`, compiling the value of its body node, previewing
/// it, and defining the variable.
pub open spec fn var_declaration_step<N>(st: CState<N>, ast: Ast<N>, body: int, id: Seq<char>) -> (
    CState<N>,
    core::result::Result<(), Fail>,
) {
    let (s1, g) = declare_step(st, id);
    let (s2, r2) = node_step(s1, ast, body);
    if r2 is Err {
        (s2, r2)
    } else {
        let (s3, r3) = output_step(s2, id);
        match r3 {
            Err(e) => (s3, Err(e)),
            Ok(_) => (define_step(s3, g), Ok(())),
        }
    }
}

/// Declaring the constant `id`, loading its literal, previewing it, and defining
/// it.
pub open spec fn const_declaration_step<N>(st: CState<N>, value: LiteralType<N>, id: Seq<char>) -> (
    CState<N>,
    core::result::Result<(), Fail>,
) {
    let (s1, g) = declare_step(st, id);
    let (s2, r2) = literal_step(s1, value);
    match r2 {
        Err(e) => (s2, Err(at_node(e, id))),
        Ok(_) => {
            let (s3, r3) = output_step(s2, id);
            match r3 {
                Err(e) => (s3, Err(e)),
                Ok(_) => (define_step(s3, g), Ok(())),
            }
        },
    }
}

/// Compiling the definition of function `id` with body node `body_id`.
pub open spec fn function_definition_step<N>(
    st: CState<N>,
    ast: Ast<N>,
    id: Seq<char>,
    body_id: Seq<char>,
    arity: usize,
) -> (CState<N>, core::result::Result<(), Fail>) {
    if arity > 255 {
        (st, Err(Fail::Node(id, "Can't have more than 255 parameters."@)))
    } else if index_of(ast.nodes(), body_id) < 0 {
        (st, Err(unknown_node(body_id)))
    } else {
        fun_declaration_step(st, ast, index_of(ast.nodes(), body_id), id, arity)
    }
}

/// Compiling the definition of variable `id` with body node `body_id`.
pub open spec fn variable_definition_step<N>(st: CState<N>, ast: Ast<N>, id: Seq<char>, body_id: Seq<char>) -> (
    CState<N>,
    core::result::Result<(), Fail>,
) {
    if index_of(ast.nodes(), body_id) < 0 {
        (st, Err(unknown_node(body_id)))
    } else {
        var_declaration_step(st, ast, index_of(ast.nodes(), body_id), id)
    }
}

/// The number of entries of `marks` that are not set.
pub open spec fn unmarked(marks: Seq<bool>) -> nat
    decreases marks.len(),
{
    if marks.len() == 0 {
        0
    } else {
        unmarked(marks.drop_last()) + if marks.last() {
            0nat
        } else {
            1nat
        }
    }
}

/// Setting an entry that was not set leaves one fewer unset.
pub proof fn lemma_unmarked_set(marks: Seq<bool>, i: int)
    requires
        0 <= i < marks.len(),
        !marks[i],
    ensures
        unmarked(marks.update(i, true)) + 1 == unmarked(marks),
    decreases marks.len(),
{
    let m = marks.update(i, true);
    if i < marks.len() - 1 {
        assert(m.drop_last() =~= marks.drop_last().update(i, true));
        lemma_unmarked_set(marks.drop_last(), i);
    } else {
        assert(m.drop_last() =~= marks.drop_last());
    }
}

/// The ids a node depends on: the node it names, then its inputs.
pub open spec fn children<N>(node_type: NodeType<N>) -> Seq<Seq<char>> {
    let dependency: Seq<Seq<char>> = match dependency_id(node_type) {
        Some(d) => seq![d],
        None => Seq::empty(),
    };
    dependency + arg_ids(node_type)
}

/// The state with the error of `r`, if any, recorded.
pub open spec fn recorded<N>(st: CState<N>, r: core::result::Result<(), Fail>) -> CState<N> {
    match r {
        Err(f) => error_step(st, f),
        Ok(_) => st,
    }
}

/// Compiling what declaring node `i` declares.
pub open spec fn definition_step<N>(st: CState<N>, ast: Ast<N>, i: int) -> (CState<N>, core::result::Result<(), Fail>) {
    let node = ast.nodes()[i];
    let id = node.id@;
    match node.node_type {
        NodeType::FunctionDefinition { args } => {
            let arity = match ast.arity_at(i) {
                Some(a) => a,
                None => 256,
            };
            if arity > 0 {
                function_definition_step(st, ast, id, args@[0]@, arity)
            } else {
                // Treat a function defn with no parameters as a variable defn, effectively
                // memoizing it
                variable_definition_step(st, ast, id, args@[0]@)
            }
        },
        NodeType::VariableDefinition { args } => variable_definition_step(st, ast, id, args@[0]@),
        NodeType::Const { value } => const_declaration_step(st, value, id),
        _ => (st, Ok(())),
    }
}

/// Visiting node `i` in the order of dependencies: first the nodes it depends
/// on (their failures recorded), then its own definition (a failure there
/// recorded too). `visited` marks the nodes done, `branch` those on the current
/// path, where meeting one again is a cycle.
pub open spec fn visit_step<N>(st: CState<N>, ast: Ast<N>, visited: Seq<bool>, branch: Seq<bool>, i: int) -> (
    CState<N>,
    Seq<bool>,
    core::result::Result<(), Fail>,
)
    decreases unmarked(branch), 0nat,
{
    let node = ast.nodes()[i];
    let id = node.id@;
    if !(0 <= i < branch.len()) || visited[i] {
        (st, visited, Ok(()))
    } else if branch[i] {
        (st, visited, Err(Fail::Node(id, "Detected cycle"@)))
    } else {
        let b1 = branch.update(i, true);
        proof {
            lemma_unmarked_set(branch, i);
        }
        let (s1, v1) = children_step(st, ast, visited, b1, i, children(node.node_type).len());
        let v2 = v1.update(i, true);
        match node.node_type {
            NodeType::FunctionDefinition { args } => {
                if args@.len() != 1 {
                    (s1, v2, Err(Fail::Node(id, "Function definition requires exactly 1 input."@)))
                } else {
                    (recorded(definition_step(s1, ast, i).0, definition_step(s1, ast, i).1), v2, Ok(()))
                }
            },
            NodeType::VariableDefinition { args } => {
                if args@.len() != 1 {
                    (s1, v2, Err(Fail::Node(id, "Variable definition requires exactly 1 input."@)))
                } else {
                    (recorded(definition_step(s1, ast, i).0, definition_step(s1, ast, i).1), v2, Ok(()))
                }
            },
            _ => (recorded(definition_step(s1, ast, i).0, definition_step(s1, ast, i).1), v2, Ok(())),
        }
    }
}

/// Visiting the first `k` nodes that node `i` depends on, recording failures;
/// ids that name no node are passed over.
pub open spec fn children_step<N>(st: CState<N>, ast: Ast<N>, visited: Seq<bool>, branch: Seq<bool>, i: int, k: nat) -> (
    CState<N>,
    Seq<bool>,
)
    decreases unmarked(branch), k + 1,
{
    if k == 0 {
        (st, visited)
    } else {
        let (s1, v1) = children_step(st, ast, visited, branch, i, (k - 1) as nat);
        let j = index_of(ast.nodes(), children(ast.nodes()[i].node_type)[k - 1]);
        if j < 0 {
            (s1, v1)
        } else {
            let (s2, v2, r) = visit_step(s1, ast, v1, branch, j);
            (recorded(s2, r), v2)
        }
    }
}

/// No entry set: `n` entries.
pub open spec fn no_marks(n: nat) -> Seq<bool> {
    Seq::new(n, |j: int| false)
}

/// Visiting the declaring roots among the first `k`, recording failures.
pub open spec fn roots_visit_step<N>(st: CState<N>, ast: Ast<N>, visited: Seq<bool>, k: nat) -> (CState<N>, Seq<bool>)
    decreases k,
{
    if k == 0 {
        (st, visited)
    } else {
        let (s1, v1) = roots_visit_step(st, ast, visited, (k - 1) as nat);
        let r = ast.root_indices()[k - 1] as int;
        if declares(ast.nodes()[r].node_type) {
            let (s2, v2, res) = visit_step(s1, ast, v1, no_marks(ast.nodes().len()), r);
            (recorded(s2, res), v2)
        } else {
            (s1, v1)
        }
    }
}

/// Compiling the other roots among the first `k`, recording failures.
pub open spec fn roots_node_step<N>(st: CState<N>, ast: Ast<N>, k: nat) -> CState<N>
    decreases k,
{
    if k == 0 {
        st
    } else {
        let s1 = roots_node_step(st, ast, (k - 1) as nat);
        let r = ast.root_indices()[k - 1] as int;
        if declares(ast.nodes()[r].node_type) {
            s1
        } else {
            let (s2, res) = node_step(s1, ast, r);
            recorded(s2, res)
        }
    }
}

/// Compiling a program: the definitions, in the order of dependencies, then the
/// other roots; the script ends with a return and is allocated. The state after,
/// and the slot of the script.
pub open spec fn compile_step<N>(st: CState<N>, ast: Ast<N>) -> (CState<N>, nat) {
    let n = ast.root_indices().len();
    let (s1, _) = roots_visit_step(st, ast, no_marks(ast.nodes().len()), n);
    let s2 = roots_node_step(s1, ast, n);
    let (s3, f) = pop_step(s2);
    (CState { functions: s3.functions.push(f), ..s3 }, s3.functions.len())
}

/// The texts of a node: its id, the ids it names and the text of its literal.
pub open spec fn node_texts<N>(node_type: NodeType<N>, id: Seq<char>) -> Seq<Seq<char>> {
    seq![id] + arg_ids(node_type) + match node_type {
        NodeType::VariableReference { var_node_id } => seq![var_node_id@],
        NodeType::FunctionCall { fn_node_id, .. } => seq![fn_node_id@],
        NodeType::Literal { value } => seq![literal_text(value)],
        NodeType::Const { value } => seq![literal_text(value)],
        _ => Seq::empty(),
    }
}

/// Every text the nodes hold.
pub open spec fn texts<N>(nodes: Seq<crate::banjo::ast::Node<N>>) -> Seq<Seq<char>>
    decreases nodes.len(),
{
    if nodes.len() == 0 {
        Seq::empty()
    } else {
        texts(nodes.drop_last()) + node_texts(nodes.last().node_type, nodes.last().id@)
    }
}

/// Number of the texts not yet interned.
pub open spec fn uninterned(ts: Seq<Seq<char>>, s: StringsView) -> nat
    decreases ts.len(),
{
    if ts.len() == 0 {
        0
    } else {
        uninterned(ts.drop_last(), s) + if text_interned(s.objects, s.interned, ts.last()) {
            0nat
        } else {
            1nat
        }
    }
}

/// Interning keeps the strings already interned: their slots, objects and texts.
pub open spec fn strings_grow(a: StringsView, b: StringsView) -> bool {
    &&& a.objects.len() <= b.objects.len()
    &&& forall|k: usize| #[trigger] a.interned.contains(k) ==> b.interned.contains(k) && k < a.objects.len()
        && b.objects[k as int] == a.objects[k as int]
}

proof fn lemma_uninterned_grow(ts: Seq<Seq<char>>, a: StringsView, b: StringsView)
    requires
        strings_grow(a, b),
    ensures
        uninterned(ts, b) <= uninterned(ts, a),
    decreases ts.len(),
{
    if ts.len() > 0 {
        lemma_uninterned_grow(ts.drop_last(), a, b);
        let t = ts.last();
        if text_interned(a.objects, a.interned, t) {
            let k = choose|k: usize| #[trigger] a.interned.contains(k) && a.objects[k as int]->Some_0.chars == t;
            assert(b.interned.contains(k));
        }
    }
}

proof fn lemma_uninterned_new(ts: Seq<Seq<char>>, a: StringsView, b: StringsView, t: Seq<char>)
    requires
        strings_grow(a, b),
        ts.contains(t),
        !text_interned(a.objects, a.interned, t),
        text_interned(b.objects, b.interned, t),
    ensures
        uninterned(ts, b) + 1 <= uninterned(ts, a),
    decreases ts.len(),
{
    let i = choose|i: int| 0 <= i < ts.len() && ts[i] == t;
    if i == ts.len() - 1 {
        lemma_uninterned_grow(ts.drop_last(), a, b);
    } else {
        assert(ts.drop_last()[i] == t);
        lemma_uninterned_new(ts.drop_last(), a, b, t);
        let u = ts.last();
        if text_interned(a.objects, a.interned, u) {
            let k = choose|k: usize| #[trigger] a.interned.contains(k) && a.objects[k as int]->Some_0.chars == u;
            assert(b.interned.contains(k));
        }
    }
}

proof fn lemma_intern_grows(s: StringsView, text: Seq<char>)
    requires
        forall|k: usize| #[trigger] s.interned.contains(k) ==> k < s.objects.len(),
        s.objects.len() <= usize::MAX,
    ensures
        strings_grow(s, intern_step(s, text).0),
        text_interned(intern_step(s, text).0.objects, intern_step(s, text).0.interned, text),
{
    let (b, slot) = intern_step(s, text);
    if text_interned(s.objects, s.interned, text) {
        let k = choose|k: usize| #[trigger] s.interned.contains(k) && s.objects[k as int]->Some_0.chars == text;
        assert(b.interned.contains(k));
    } else {
        assert(b.interned.contains(slot));
        assert(b.objects[slot as int]->Some_0.chars == text);
    }
}

/// The decimal digits of `n`.
pub open spec fn decimal(n: nat) -> Seq<char>
    decreases n,
{
    if n < 10 {
        seq![digit(n)]
    } else {
        decimal(n / 10).push(digit(n % 10))
    }
}

/// The character of the digit `d`.
pub open spec fn digit(d: nat) -> char {
    if d == 0 {
        '0'
    } else if d == 1 {
        '1'
    } else if d == 2 {
        '2'
    } else if d == 3 {
        '3'
    } else if d == 4 {
        '4'
    } else if d == 5 {
        '5'
    } else if d == 6 {
        '6'
    } else if d == 7 {
        '7'
    } else if d == 8 {
        '8'
    } else {
        '9'
    }
}

/// The text of the digit `d`.
fn digit_str(d: usize) -> (s: &'static str)
    requires
        d < 10,
    ensures
        s@ == seq![digit(d as nat)],
{
    let s = if d == 0 {
        "0"
    } else if d == 1 {
        "1"
    } else if d == 2 {
        "2"
    } else if d == 3 {
        "3"
    } else if d == 4 {
        "4"
    } else if d == 5 {
        "5"
    } else if d == 6 {
        "6"
    } else if d == 7 {
        "7"
    } else if d == 8 {
        "8"
    } else {
        "9"
    };
    proof {
        reveal_strlit("0");
        reveal_strlit("1");
        reveal_strlit("2");
        reveal_strlit("3");
        reveal_strlit("4");
        reveal_strlit("5");
        reveal_strlit("6");
        reveal_strlit("7");
        reveal_strlit("8");
        reveal_strlit("9");
    }
    s
}

/// Appends the decimal digits of `n` to `s`.
pub(crate) fn push_decimal(s: &mut String, n: usize)
    ensures
        final(s)@ == old(s)@ + decimal(n as nat),
    decreases n,
{
    if n >= 10 {
        push_decimal(s, n / 10);
    }
    s.append(digit_str(n % 10));
    proof {
        if n >= 10 {
            assert(old(s)@ + decimal(n as nat) =~= old(s)@ + decimal((n / 10) as nat) + seq![digit((n % 10) as nat)]);
        } else {
            assert(old(s)@ + decimal(n as nat) =~= old(s)@ + seq![digit((n % 10) as nat)]);
        }
    }
}

/// The message of a call with the wrong number of arguments.
pub open spec fn arity_message(expected: nat, got: nat) -> Seq<char> {
    "Expected "@ + decimal(expected) + " arguments but got "@ + decimal(got) + "."@
}

pub(crate) fn arity_error(expected: usize, got: usize) -> (m: String)
    ensures
        m@ == arity_message(expected as nat, got as nat),
{
    let mut m = "Expected ".to_owned();
    push_decimal(&mut m, expected);
    m.append(" arguments but got ");
    push_decimal(&mut m, got);
    m.append(".");
    m
}

/// A node that declares something: a function, a variable or a constant.
pub open spec fn declares<N>(node_type: NodeType<N>) -> bool {
    node_type is FunctionDefinition || node_type is VariableDefinition || node_type is Const
}

/// The nodes can be compiled: no node takes a declaring node as an input, and
/// every input of a call is a node.
pub open spec fn compilable<N>(nodes: Seq<crate::banjo::ast::Node<N>>) -> bool {
    &&& forall|i: int, k: int|
        0 <= i < nodes.len() && 0 <= k < arg_ids(nodes[i].node_type).len() && index_of(
            nodes,
            #[trigger] arg_ids(nodes[i].node_type)[k],
        ) >= 0 ==> !declares(nodes[index_of(nodes, arg_ids(nodes[i].node_type)[k])].node_type)
    &&& forall|i: int, k: int|
        0 <= i < nodes.len() && nodes[i].node_type is FunctionCall && 0 <= k < arg_ids(nodes[i].node_type).len()
            ==> index_of(nodes, #[trigger] arg_ids(nodes[i].node_type)[k]) >= 0
}

/// Compiles the nodes of a program into the bytecode of its functions.
pub struct Compiler<'ast, N> {
    /// The abstract syntax tree to compile
    ast: &'ast Ast<N>,
    /// Needed so we can allocate functions and interned strings
    gc: Gc<N>,
    /// Needed so we can inform VM of nodes that expect output values
    output: OutputValues<N>,
    compiler: Box<FuncCompiler<'ast, N>>,
    /// The strings the heap held when compiling began.
    base: Ghost<Seq<Option<LoxStringView>>>,
    /// The functions the heap held when compiling began.
    base_functions: Ghost<Seq<FunctionView<N>>>,
    /// The native functions and lists of the heap, which compiling leaves alone.
    base_rest: Ghost<(Seq<Native>, Seq<Seq<Value<N>>>)>,
}

impl<'ast, N: Copy> Compiler<'ast, N> {
    /// What compiling has produced so far.
    pub closed spec fn state(&self) -> CState<N> {
        CState {
            frames: self.compiler.chain(),
            strings: StringsView { objects: self.gc.collector().objects(), interned: self.gc.collector().interned() },
            functions: self.gc.functions(),
            outputs: self.output.nodes(),
            values: self.output.values(),
            errors: ErrorsView {
                nodes: self.output.errors().node_errors_map(),
                additional: self.output.errors().additional_view(),
            },
        }
    }

    /// The heap.
    pub closed spec fn heap(&self) -> Gc<N> {
        self.gc
    }

    /// The outputs.
    pub closed spec fn outputs(&self) -> OutputValues<N> {
        self.output
    }

    /// The nodes being compiled.
    pub closed spec fn nodes(&self) -> Seq<crate::banjo::ast::Node<N>> {
        self.ast.nodes()
    }

    /// The program being compiled.
    pub closed spec fn program(&self) -> Ast<N> {
        *self.ast
    }

    /// The strings the heap held when compiling began.
    pub closed spec fn base(&self) -> Seq<Option<LoxStringView>> {
        self.base@
    }

    /// The functions the heap held when compiling began.
    pub closed spec fn base_functions(&self) -> Seq<FunctionView<N>> {
        self.base_functions@
    }

    /// The native functions and lists of the heap, which compiling leaves alone.
    pub closed spec fn base_rest(&self) -> (Seq<Native>, Seq<Seq<Value<N>>>) {
        self.base_rest@
    }

    /// The invariant: the program can be compiled, the function compilers, heap and
    /// outputs keep theirs, and there is room to intern every text of the program.
    pub closed spec fn wf(&self) -> bool {
        &&& self.ast.wf()
        &&& compilable(self.ast.nodes())
        &&& self.compiler.wf()
        &&& self.gc.collector().wf()
        &&& self.output.wf()
        &&& self.gc.collector().can_intern(uninterned(texts(self.ast.nodes()), self.state().strings))
        &&& crate::gc::extends(self.gc.collector().objects(), self.base@)
        &&& crate::gc::all_unmarked(self.gc.collector().objects())
        &&& self.base_functions@.len() <= self.gc.functions().len()
        &&& forall|i: int| 0 <= i < self.base_functions@.len() ==> #[trigger] self.gc.functions()[i] == self.base_functions@[i]
        &&& self.gc.natives() == self.base_rest@.0
        &&& self.gc.lists() == self.base_rest@.1
    }

    /// A compiler for `ast`, allocating into `gc` and previewing into `output`, with
    /// the script as the function being compiled.
    pub fn new(ast: &'ast Ast<N>, gc: Gc<N>, output: OutputValues<N>) -> (c: Self)
        requires
            ast.wf(),
            compilable(ast.nodes()),
            gc.collector().wf(),
            crate::gc::all_unmarked(gc.collector().objects()),
            output.wf(),
            gc.collector().can_intern(
                uninterned(
                    texts(ast.nodes()),
                    StringsView { objects: gc.collector().objects(), interned: gc.collector().interned() },
                ),
            ),
        ensures
            c.wf(),
            c.program() == *ast,
            c.base() == gc.collector().objects(),
            c.base_functions() == gc.functions(),
            c.base_rest() == (gc.natives(), gc.lists()),
            c.state() == (CState {
                frames: seq![fresh_frame(None, 0)],
                strings: StringsView { objects: gc.collector().objects(), interned: gc.collector().interned() },
                functions: gc.functions(),
                outputs: output.nodes(),
                values: output.values(),
                errors: ErrorsView {
                    nodes: output.errors().node_errors_map(),
                    additional: output.errors().additional_view(),
                },
            }),
    {
        let ghost base = gc.collector().objects();
        let ghost base_functions = gc.functions();
        let ghost base_rest = (gc.natives(), gc.lists());
        Self {
            compiler: Box::new(FuncCompiler::new(None, 0)),
            gc,
            ast,
            output,
            base: Ghost(base),
            base_functions: Ghost(base_functions),
            base_rest: Ghost(base_rest),
        }
    }

    /// Hands back the heap and the outputs.
    pub fn finish(self) -> (parts: (Gc<N>, OutputValues<N>))
        ensures
            parts.0 == self.heap(),
            parts.1 == self.outputs(),
            parts.0.collector().objects() == self.state().strings.objects,
            parts.0.collector().interned() == self.state().strings.interned,
            parts.0.functions() == self.state().functions,
            parts.1.nodes() == self.state().outputs,
            parts.1.values() == self.state().values,
            parts.1.errors().node_errors_map() == self.state().errors.nodes,
            parts.1.errors().additional_view() == self.state().errors.additional,
            self.wf() ==> {
                &&& parts.0.collector().wf()
                &&& parts.1.wf()
                &&& crate::gc::extends(parts.0.collector().objects(), self.base())
                &&& crate::gc::all_unmarked(parts.0.collector().objects())
                &&& self.base_functions().len() <= parts.0.functions().len()
                &&& forall|i: int| 0 <= i < self.base_functions().len() ==> #[trigger] parts.0.functions()[i] == self.base_functions()[i]
                &&& parts.0.natives() == self.base_rest().0
                &&& parts.0.lists() == self.base_rest().1
            },
    {
        (self.gc, self.output)
    }

    /// Interning keeps the room invariant, and a text of the program is interned
    /// afterwards.
    proof fn lemma_intern_room(&self, before: CState<N>, bytes: nat, bound: nat, text: Seq<char>)
        requires
            texts(self.ast.nodes()).contains(text),
            forall|k: usize| #[trigger] before.strings.interned.contains(k) ==> k < before.strings.objects.len(),
            before.strings.objects.len() <= usize::MAX,
            self.state().strings == intern_step(before.strings, text).0,
            bytes + uninterned(texts(self.ast.nodes()), before.strings) * crate::gc::object_size() <= isize::MAX,
            bound + 3 * uninterned(texts(self.ast.nodes()), before.strings) <= usize::MAX / 2,
            text_interned(before.strings.objects, before.strings.interned, text) ==> {
                &&& self.gc.collector().bytes_allocated() == bytes
                &&& self.gc.collector().table_bound() == bound
            },
            !text_interned(before.strings.objects, before.strings.interned, text) ==> {
                &&& self.gc.collector().bytes_allocated() == bytes + crate::gc::object_size()
                &&& self.gc.collector().table_bound() <= bound + 3
            },
        ensures
            self.gc.collector().can_intern(uninterned(texts(self.ast.nodes()), self.state().strings)),
    {
        let ts = texts(self.ast.nodes());
        let a = before.strings;
        let b = self.state().strings;
        lemma_intern_grows(a, text);
        lemma_uninterned_grow(ts, a, b);
        let u = uninterned(ts, a);
        let v = uninterned(ts, b);
        if text_interned(a.objects, a.interned, text) {
            assert(v * crate::gc::object_size() <= u * crate::gc::object_size()) by (nonlinear_arith)
                requires
                    v <= u,
            ;
        } else {
            lemma_uninterned_new(ts, a, b, text);
            assert((v + 1) * crate::gc::object_size() <= u * crate::gc::object_size()) by (nonlinear_arith)
                requires
                    v + 1 <= u,
            ;
            assert((v + 1) * crate::gc::object_size() == v * crate::gc::object_size() + crate::gc::object_size())
                by (nonlinear_arith);
        }
    }

    /// Writes `opcode` into the function being compiled.
    fn emit(&mut self, opcode: OpCode)
        requires
            old(self).wf(),
        ensures
            final(self).wf(),
            final(self).program() == old(self).program(),
            final(self).base() == old(self).base(),
            final(self).base_functions() == old(self).base_functions(),
            final(self).base_rest() == old(self).base_rest(),
            final(self).state() == emit_step(old(self).state(), seq![opcode]),
    {
        proof {
            self.compiler.lemma_first_frame();
        }
        self.compiler.emit(opcode);
    }

    /// Adds `value` to the constants of the function being compiled.
    fn make_constant(&mut self, value: Value<N>) -> (r: Result<Constant>)
        requires
            old(self).wf(),
        ensures
            final(self).wf(),
            final(self).program() == old(self).program(),
            final(self).base() == old(self).base(),
            final(self).base_functions() == old(self).base_functions(),
            final(self).base_rest() == old(self).base_rest(),
            (final(self).state(), outcome(r)) == constant_step(old(self).state(), value),
    {
        proof {
            self.compiler.lemma_first_frame();
        }
        self.compiler.make_constant(value)
    }

    /// The constant that names the global `node_id`.
    fn identifier_constant(&mut self, node_id: &str) -> (r: Result<Constant>)
        requires
            old(self).wf(),
            texts(old(self).nodes()).contains(node_id@),
        ensures
            final(self).wf(),
            final(self).program() == old(self).program(),
            final(self).base() == old(self).base(),
            final(self).base_functions() == old(self).base_functions(),
            final(self).base_rest() == old(self).base_rest(),
            (final(self).state(), outcome(r)) == identifier_step(old(self).state(), node_id@),
    {
        let ghost before = self.state();
        let ghost bytes: nat = self.gc.collector().bytes_allocated() as nat;
        let ghost bound: nat = self.gc.collector().table_bound();
        proof {
            self.gc.collector().lemma_interned();
            assert(1 * crate::gc::object_size() == crate::gc::object_size()) by (nonlinear_arith);
            if !text_interned(before.strings.objects, before.strings.interned, node_id@) {
                lemma_uninterned_new_positive(texts(self.ast.nodes()), before.strings, node_id@);
                assert(uninterned(texts(self.ast.nodes()), before.strings) * crate::gc::object_size()
                    >= crate::gc::object_size()) by (nonlinear_arith)
                    requires
                        uninterned(texts(self.ast.nodes()), before.strings) >= 1,
                ;
            }
        }
        let name = self.gc.intern(node_id);
        proof {
            crate::gc::GcRef::<BanjoString>::lemma_at(name.slot(), name);
            self.lemma_intern_room(before, bytes, bound, node_id@);
        }
        let value = Value::String(name);
        proof {
            self.compiler.lemma_first_frame();
        }
        self.compiler.make_constant(value).node_context(node_id)
    }

    /// Writes the code that loads the literal `value`.
    fn literal(&mut self, value: &LiteralType<N>) -> (r: Result<()>)
        requires
            old(self).wf(),
            texts(old(self).nodes()).contains(literal_text(*value)),
        ensures
            final(self).wf(),
            final(self).program() == old(self).program(),
            final(self).base() == old(self).base(),
            final(self).base_functions() == old(self).base_functions(),
            final(self).base_rest() == old(self).base_rest(),
            (final(self).state(), outcome(r)) == literal_step(old(self).state(), *value),
    {
        let ghost before = self.state();
        let ghost bytes: nat = self.gc.collector().bytes_allocated() as nat;
        let ghost bound: nat = self.gc.collector().table_bound();
        let ghost f0 = self.compiler.frame();
        proof {
            self.compiler.lemma_first_frame();
            self.gc.collector().lemma_interned();
            assert(1 * crate::gc::object_size() == crate::gc::object_size()) by (nonlinear_arith);
            if let LiteralType::String(s) = value {
                if !text_interned(before.strings.objects, before.strings.interned, s@) {
                    lemma_uninterned_new_positive(texts(self.ast.nodes()), before.strings, s@);
                    assert(uninterned(texts(self.ast.nodes()), before.strings) * crate::gc::object_size()
                        >= crate::gc::object_size()) by (nonlinear_arith)
                        requires
                            uninterned(texts(self.ast.nodes()), before.strings) >= 1,
                    ;
                }
            }
        }
        let r = self.compiler.literal(&mut self.gc.strings, value);
        proof {
            self.compiler.lemma_first_frame();
            let f1 = self.compiler.frame();
            if let LiteralType::String(s) = value {
                let slot = f1.function.constants.last()->String_0.slot();
                crate::gc::GcRef::<BanjoString>::lemma_at(slot, f1.function.constants.last()->String_0);
                assert(self.state().strings == intern_step(before.strings, s@).0);
                assert(slot == intern_step(before.strings, s@).1);
                self.lemma_intern_room(before, bytes, bound, s@);
                let v = Value::<N>::String(GcRef::at(slot));
                assert(f1.function.constants == f0.function.constants.push(v));
                if f0.function.constants.len() <= 255 {
                    assert(f1.function.code =~= f0.function.code + seq![
                        OpCode::Constant(Constant { slot: f0.function.constants.len() as u8 }),
                    ]);
                    assert(f1 == emitted(
                        with_constant(f0, v),
                        seq![OpCode::Constant(Constant { slot: f0.function.constants.len() as u8 })],
                    ));
                } else {
                    assert(f1 == with_constant(f0, v));
                }
            }
            if let LiteralType::Number(n) = value {
                let v = Value::<N>::Number(*n);
                if f0.function.constants.len() <= 255 {
                    assert(f1.function.code =~= f0.function.code + seq![
                        OpCode::Constant(Constant { slot: f0.function.constants.len() as u8 }),
                    ]);
                    assert(f1 == emitted(
                        with_constant(f0, v),
                        seq![OpCode::Constant(Constant { slot: f0.function.constants.len() as u8 })],
                    ));
                } else {
                    assert(f1 == with_constant(f0, v));
                }
            }
            assert(self.state().frames =~= literal_step(before, *value).0.frames);
        }
        r
    }

    /// Defines the innermost local, when in a local scope.
    fn mark_var_initialized(&mut self)
        requires
            old(self).wf(),
        ensures
            final(self).wf(),
            final(self).program() == old(self).program(),
            final(self).base() == old(self).base(),
            final(self).base_functions() == old(self).base_functions(),
            final(self).base_rest() == old(self).base_rest(),
            final(self).state() == mark_step(old(self).state()),
    {
        proof {
            self.compiler.lemma_first_frame();
        }
        self.compiler.mark_var_initialized();
    }

    /// Writes the instruction of a one-input operator.
    fn emit_unary(&mut self, unary_type: &UnaryType)
        requires
            old(self).wf(),
        ensures
            final(self).wf(),
            final(self).program() == old(self).program(),
            final(self).base() == old(self).base(),
            final(self).base_functions() == old(self).base_functions(),
            final(self).base_rest() == old(self).base_rest(),
            final(self).state() == emit_step(old(self).state(), seq![unary_code(*unary_type)]),
    {
        proof {
            self.compiler.lemma_first_frame();
        }
        self.compiler.emit_unary(unary_type);
    }

    /// Writes the instructions of a two-input operator.
    fn emit_binary(&mut self, binary_type: &BinaryType)
        requires
            old(self).wf(),
        ensures
            final(self).wf(),
            final(self).program() == old(self).program(),
            final(self).base() == old(self).base(),
            final(self).base_functions() == old(self).base_functions(),
            final(self).base_rest() == old(self).base_rest(),
            final(self).state() == emit_step(old(self).state(), binary_code(*binary_type)),
    {
        proof {
            self.compiler.lemma_first_frame();
        }
        self.compiler.emit_binary(binary_type);
    }

    /// Compiles `node`: the code that leaves its value on the stack.
    fn node(&mut self, node: &'ast Node<N>) -> (r: Result<()>)
        requires
            old(self).wf(),
            index_of(old(self).nodes(), node.id@) >= 0,
            old(self).nodes()[index_of(old(self).nodes(), node.id@)] == *node,
            !declares(node.node_type),
            rank_of(old(self).program(), index_of(old(self).nodes(), node.id@)) > 0,
        ensures
            final(self).wf(),
            final(self).program() == old(self).program(),
            final(self).base() == old(self).base(),
            final(self).base_functions() == old(self).base_functions(),
            final(self).base_rest() == old(self).base_rest(),
            (final(self).state(), outcome(r)) == node_step(
                old(self).state(),
                old(self).program(),
                index_of(old(self).nodes(), node.id@),
            ),
        decreases rank_of(old(self).program(), index_of(old(self).nodes(), node.id@)), 3nat,
    {
        let ghost i = index_of(self.nodes(), node.id@);
        proof {
            self.ast.lemma_wf();
            crate::banjo::ast::lemma_index_of(self.nodes(), node.id@);
            lemma_texts(self.nodes(), i);
            lemma_node_texts(node.node_type, node.id@);
            self.compiler.lemma_first_frame();
        }
        let id: &'ast str = node.id.as_str();
        match &node.node_type {
            NodeType::Literal { value } => {
                match self.literal(value).node_context(id) {
                    Ok(_) => Ok(()),
                    Err(e) => Err(e),
                }
            },
            NodeType::Param => self.node_param(node),
            NodeType::VariableReference { var_node_id } => {
                match self.named_variable(var_node_id.as_str()) {
                    Ok(_) => {},
                    Err(e) => {
                        return Err(e);
                    },
                }
                self.output(id)
            },
            NodeType::FunctionCall { .. } => self.node_function_call(node),
            NodeType::Unary { .. } => self.node_unary(node),
            NodeType::Binary { .. } => self.node_binary(node),
            _ => {
                proof {
                    assert(false);
                }
                Ok(())
            },
        }
    }

    /// Compiles a parameter: declared once in the function's scope, then read.
    fn node_param(&mut self, node: &'ast Node<N>) -> (r: Result<()>)
        requires
            old(self).wf(),
            index_of(old(self).nodes(), node.id@) >= 0,
            old(self).nodes()[index_of(old(self).nodes(), node.id@)] == *node,
            node.node_type is Param,
            rank_of(old(self).program(), index_of(old(self).nodes(), node.id@)) > 0,
        ensures
            final(self).wf(),
            final(self).program() == old(self).program(),
            final(self).base() == old(self).base(),
            final(self).base_functions() == old(self).base_functions(),
            final(self).base_rest() == old(self).base_rest(),
            (final(self).state(), outcome(r)) == node_step(
                old(self).state(),
                old(self).program(),
                index_of(old(self).nodes(), node.id@),
            ),
    {
        let ghost i = index_of(self.nodes(), node.id@);
        proof {
            crate::banjo::ast::lemma_index_of(self.nodes(), node.id@);
            lemma_texts(self.nodes(), i);
            lemma_node_texts(node.node_type, node.id@);
            self.compiler.lemma_first_frame();
        }
        let id: &'ast str = node.id.as_str();
        if !self.compiler.is_local_scope() {
            return BanjoError::node_err(id, "Can only use param in function declaration.");
        }
        // Only declare the param once, but allow same param to be input many times
        if !self.compiler.is_local_already_in_scope(id) {
            match self.declare_local_variable(id) {
                Ok(_) => {},
                Err(e) => {
                    return Err(e);
                },
            }
            self.mark_var_initialized();
        }
        self.named_variable(id)
    }

    /// Compiles a call: the function, the arity check, the inputs and the call.
    fn node_function_call(&mut self, node: &'ast Node<N>) -> (r: Result<()>)
        requires
            old(self).wf(),
            index_of(old(self).nodes(), node.id@) >= 0,
            old(self).nodes()[index_of(old(self).nodes(), node.id@)] == *node,
            node.node_type is FunctionCall,
            rank_of(old(self).program(), index_of(old(self).nodes(), node.id@)) > 0,
        ensures
            final(self).wf(),
            final(self).program() == old(self).program(),
            final(self).base() == old(self).base(),
            final(self).base_functions() == old(self).base_functions(),
            final(self).base_rest() == old(self).base_rest(),
            (final(self).state(), outcome(r)) == node_step(
                old(self).state(),
                old(self).program(),
                index_of(old(self).nodes(), node.id@),
            ),
        decreases rank_of(old(self).program(), index_of(old(self).nodes(), node.id@)), 2nat,
    {
        let ghost i = index_of(self.nodes(), node.id@);
        let ast: &'ast Ast<N> = self.ast;
        proof {
            ast.lemma_wf();
            crate::banjo::ast::lemma_index_of(self.nodes(), node.id@);
            lemma_texts(self.nodes(), i);
            lemma_node_texts(node.node_type, node.id@);
        }
        let id: &'ast str = node.id.as_str();
        if let NodeType::FunctionCall { args, fn_node_id } = &node.node_type {
            match self.named_variable(fn_node_id.as_str()) {
                Ok(_) => {},
                Err(e) => {
                    return Err(e);
                },
            }
            // Functions are compiled as variables if they have no parameters, so skip
            // calling them if arity == 0
            let arity = ast.get_arity(fn_node_id.as_str());
            if let Some(a) = arity {
                if a != args.len() {
                    let message = arity_error(a, args.len());
                    return BanjoError::node_err(id, message.as_str());
                }
            }
            let calls = match arity {
                Some(a) => a > 0,
                None => true,
            };
            if calls {
                match self.call(args, Ghost(i)) {
                    Ok(_) => {},
                    Err(e) => {
                        return Err(e);
                    },
                }
            }
            self.output(id)
        } else {
            Ok(())
        }
    }

    /// Compiles a one-input operator: its input, then the operator.
    fn node_unary(&mut self, node: &'ast Node<N>) -> (r: Result<()>)
        requires
            old(self).wf(),
            index_of(old(self).nodes(), node.id@) >= 0,
            old(self).nodes()[index_of(old(self).nodes(), node.id@)] == *node,
            node.node_type is Unary,
            rank_of(old(self).program(), index_of(old(self).nodes(), node.id@)) > 0,
        ensures
            final(self).wf(),
            final(self).program() == old(self).program(),
            final(self).base() == old(self).base(),
            final(self).base_functions() == old(self).base_functions(),
            final(self).base_rest() == old(self).base_rest(),
            (final(self).state(), outcome(r)) == node_step(
                old(self).state(),
                old(self).program(),
                index_of(old(self).nodes(), node.id@),
            ),
        decreases rank_of(old(self).program(), index_of(old(self).nodes(), node.id@)), 2nat,
    {
        let ghost i = index_of(self.nodes(), node.id@);
        let ast: &'ast Ast<N> = self.ast;
        proof {
            ast.lemma_wf();
            crate::banjo::ast::lemma_index_of(self.nodes(), node.id@);
        }
        let id: &'ast str = node.id.as_str();
        if let NodeType::Unary { args, unary_type } = &node.node_type {
            if args.len() != 1 {
                return BanjoError::node_err(id, "Unary has invalid input.");
            }
            proof {
                assert(arg_ids(node.node_type)[0] == args@[0]@);
                self.lemma_input(i, 0);
                assert(args_step(self.state(), self.program(), i, 0nat) == (self.state(), Ok::<(), Fail>(())));
            }
            let argument = match ast.get_node(args[0].as_str()) {
                Ok(n) => n,
                Err(e) => {
                    return Err(e);
                },
            };
            match self.node(argument) {
                Ok(_) => {},
                Err(e) => {
                    return Err(e);
                },
            }
            self.emit_unary(unary_type);
        }
        Ok(())
    }

    /// Compiles a two-input operator: its inputs in order, then the operator.
    fn node_binary(&mut self, node: &'ast Node<N>) -> (r: Result<()>)
        requires
            old(self).wf(),
            index_of(old(self).nodes(), node.id@) >= 0,
            old(self).nodes()[index_of(old(self).nodes(), node.id@)] == *node,
            node.node_type is Binary,
            rank_of(old(self).program(), index_of(old(self).nodes(), node.id@)) > 0,
        ensures
            final(self).wf(),
            final(self).program() == old(self).program(),
            final(self).base() == old(self).base(),
            final(self).base_functions() == old(self).base_functions(),
            final(self).base_rest() == old(self).base_rest(),
            (final(self).state(), outcome(r)) == node_step(
                old(self).state(),
                old(self).program(),
                index_of(old(self).nodes(), node.id@),
            ),
        decreases rank_of(old(self).program(), index_of(old(self).nodes(), node.id@)), 2nat,
    {
        let ghost i = index_of(self.nodes(), node.id@);
        let ghost st0 = self.state();
        let ghost program = self.program();
        let ast: &'ast Ast<N> = self.ast;
        proof {
            ast.lemma_wf();
            crate::banjo::ast::lemma_index_of(self.nodes(), node.id@);
        }
        let id: &'ast str = node.id.as_str();
        if let NodeType::Binary { args, binary_type } = &node.node_type {
            if args.len() != 2 {
                return BanjoError::node_err(id, "Binary has invalid input.");
            }
            let mut k: usize = 0;
            while k < 2
                invariant
                    self.wf(),
                    program == old(self).program(),
                    self.base() == old(self).base(),
                    self.base_functions() == old(self).base_functions(),
                    self.base_rest() == old(self).base_rest(),
                    st0 == old(self).state(),
                    self.program() == program,
                    *ast == program,
                    self.nodes() == program.nodes(),
                    i == index_of(program.nodes(), node.id@),
                    0 <= i < program.nodes().len(),
                    program.nodes()[i] == *node,
                    node.node_type matches NodeType::Binary { args: a, .. } && a == *args,
                    args@.len() == 2,
                    k <= 2,
                    rank_of(program, i) > 0,
                    args_step(st0, program, i, k as nat) == (self.state(), Ok::<(), Fail>(())),
                decreases 2 - k,
            {
                proof {
                    assert(arg_ids(node.node_type)[k as int] == args@[k as int]@);
                    self.lemma_input(i, k as int);
                }
                let term = match ast.get_node(args[k].as_str()) {
                    Ok(n) => n,
                    Err(e) => {
                        proof {
                            lemma_args_stop(st0, program, i, (k + 1) as nat, 2);
                        }
                        return Err(e);
                    },
                };
                match self.node(term) {
                    Ok(_) => {},
                    Err(e) => {
                        proof {
                            lemma_args_stop(st0, program, i, (k + 1) as nat, 2);
                        }
                        return Err(e);
                    },
                }
                k += 1;
            }
            self.emit_binary(binary_type);
        }
        Ok(())
    }

    /// Enters a scope in the function being compiled.
    fn begin_scope(&mut self)
        requires
            old(self).wf(),
            old(self).state().frames[0].scope_depth < u32::MAX,
        ensures
            final(self).wf(),
            final(self).program() == old(self).program(),
            final(self).base() == old(self).base(),
            final(self).base_functions() == old(self).base_functions(),
            final(self).base_rest() == old(self).base_rest(),
            final(self).state() == begin_scope_step(old(self).state()),
    {
        proof {
            self.compiler.lemma_first_frame();
        }
        self.compiler.begin_scope();
    }

    /// Compiles the function `node_id` with `arity` parameters and body
    /// `body_node`, and the code that makes it in the enclosing function.
    fn function(&mut self, body_node: &'ast Node<N>, node_id: &str, arity: usize) -> (r: Result<()>)
        requires
            old(self).wf(),
            texts(old(self).nodes()).contains(node_id@),
            index_of(old(self).nodes(), body_node.id@) >= 0,
            old(self).nodes()[index_of(old(self).nodes(), body_node.id@)] == *body_node,
            !declares(body_node.node_type),
            rank_of(old(self).program(), index_of(old(self).nodes(), body_node.id@)) > 0,
        ensures
            final(self).wf(),
            final(self).program() == old(self).program(),
            final(self).base() == old(self).base(),
            final(self).base_functions() == old(self).base_functions(),
            final(self).base_rest() == old(self).base_rest(),
            (final(self).state(), outcome(r)) == function_step(
                old(self).state(),
                old(self).program(),
                index_of(old(self).nodes(), body_node.id@),
                node_id@,
                arity,
            ),
    {
        self.push_func_compiler(node_id, arity);
        self.begin_scope();
        match self.node(body_node) {
            Ok(_) => {},
            Err(e) => {
                return Err(e);
            },
        }
        // Because we end the compiler completely, there's no need to close the
        // lingering outermost scope with end_scope().
        let function = self.pop_func_compiler().into_function();
        let ghost before = self.state();
        let f = self.gc.allocate(function);
        proof {
            crate::gc::GcRef::<Function<N>>::lemma_at(f.slot(), f);
            assert(self.state() == CState { functions: before.functions.push(function_view(function)), ..before });
        }
        let value = Value::Function(f);
        let constant = match self.make_constant(value).node_context(node_id) {
            Ok(c) => c,
            Err(e) => {
                return Err(e);
            },
        };
        self.emit(OpCode::Function(constant));
        Ok(())
    }

    /// Declares the function `node_id`, compiles it and defines it.
    fn fun_declaration(&mut self, body_node: &'ast Node<N>, node_id: &'ast str, arity: usize) -> (r: Result<()>)
        requires
            old(self).wf(),
            texts(old(self).nodes()).contains(node_id@),
            index_of(old(self).nodes(), body_node.id@) >= 0,
            old(self).nodes()[index_of(old(self).nodes(), body_node.id@)] == *body_node,
            !declares(body_node.node_type),
            rank_of(old(self).program(), index_of(old(self).nodes(), body_node.id@)) > 0,
        ensures
            final(self).wf(),
            final(self).program() == old(self).program(),
            final(self).base() == old(self).base(),
            final(self).base_functions() == old(self).base_functions(),
            final(self).base_rest() == old(self).base_rest(),
            (final(self).state(), outcome(r)) == fun_declaration_step(
                old(self).state(),
                old(self).program(),
                index_of(old(self).nodes(), body_node.id@),
                node_id@,
                arity,
            ),
    {
        let global = self.declare_variable(node_id);
        self.mark_var_initialized();
        match self.function(body_node, node_id, arity) {
            Ok(_) => {},
            Err(e) => {
                return Err(e);
            },
        }
        self.define_variable(global);
        Ok(())
    }

    /// Declares the variable `node_id`, compiles the value of `body_node`,
    /// previews it and defines the variable.
    fn var_declaration(&mut self, body_node: &'ast Node<N>, node_id: &'ast str) -> (r: Result<()>)
        requires
            old(self).wf(),
            texts(old(self).nodes()).contains(node_id@),
            index_of(old(self).nodes(), body_node.id@) >= 0,
            old(self).nodes()[index_of(old(self).nodes(), body_node.id@)] == *body_node,
            !declares(body_node.node_type),
            rank_of(old(self).program(), index_of(old(self).nodes(), body_node.id@)) > 0,
        ensures
            final(self).wf(),
            final(self).program() == old(self).program(),
            final(self).base() == old(self).base(),
            final(self).base_functions() == old(self).base_functions(),
            final(self).base_rest() == old(self).base_rest(),
            (final(self).state(), outcome(r)) == var_declaration_step(
                old(self).state(),
                old(self).program(),
                index_of(old(self).nodes(), body_node.id@),
                node_id@,
            ),
    {
        let global = self.declare_variable(node_id);
        match self.node(body_node) {
            Ok(_) => {},
            Err(e) => {
                return Err(e);
            },
        }
        match self.output(node_id) {
            Ok(_) => {},
            Err(e) => {
                return Err(e);
            },
        }
        self.define_variable(global);
        Ok(())
    }

    /// A shortcut node for literal + var declaration
    fn node_const_declaration(&mut self, value: &LiteralType<N>, node_id: &'ast str) -> (r: Result<()>)
        requires
            old(self).wf(),
            texts(old(self).nodes()).contains(node_id@),
            texts(old(self).nodes()).contains(literal_text(*value)),
        ensures
            final(self).wf(),
            final(self).program() == old(self).program(),
            final(self).base() == old(self).base(),
            final(self).base_functions() == old(self).base_functions(),
            final(self).base_rest() == old(self).base_rest(),
            (final(self).state(), outcome(r)) == const_declaration_step(old(self).state(), *value, node_id@),
    {
        let global = self.declare_variable(node_id);
        match self.literal(value).node_context(node_id) {
            Ok(_) => {},
            Err(e) => {
                return Err(e);
            },
        }
        match self.output(node_id) {
            Ok(_) => {},
            Err(e) => {
                return Err(e);
            },
        }
        self.define_variable(global);
        Ok(())
    }

    /// Compiles the definition of function `node_id`, whose body is its first
    /// input.
    fn node_function_definition(&mut self, node_id: &'ast str, args: &'ast Vec<NodeId>, arity: usize, Ghost(
        i,
    ): Ghost<int>) -> (r: Result<()>)
        requires
            old(self).wf(),
            0 <= i < old(self).nodes().len(),
            old(self).nodes()[i].id@ == node_id@,
            old(self).nodes()[i].node_type matches NodeType::FunctionDefinition { args: a } && a == *args,
            args@.len() >= 1,
        ensures
            final(self).wf(),
            final(self).program() == old(self).program(),
            final(self).base() == old(self).base(),
            final(self).base_functions() == old(self).base_functions(),
            final(self).base_rest() == old(self).base_rest(),
            (final(self).state(), outcome(r)) == function_definition_step(
                old(self).state(),
                old(self).program(),
                node_id@,
                args@[0]@,
                arity,
            ),
    {
        proof {
            lemma_texts(self.nodes(), i);
            lemma_node_texts(self.nodes()[i].node_type, self.nodes()[i].id@);
            assert(arg_ids(self.nodes()[i].node_type)[0] == args@[0]@);
            assert(is_start(self.nodes(), i));
            self.lemma_start_rank(i);
            self.lemma_input(i, 0);
        }
        if arity > 255 {
            return BanjoError::node_err(node_id, "Can't have more than 255 parameters.");
        }
        let body_node = match self.ast.get_node(args[0].as_str()) {
            Ok(n) => n,
            Err(e) => {
                return Err(e);
            },
        };
        self.fun_declaration(body_node, node_id, arity)
    }

    /// Compiles the definition of variable `node_id`, whose value is its first
    /// input.
    fn node_variable_definition(&mut self, node_id: &'ast str, args: &'ast Vec<NodeId>, Ghost(i): Ghost<int>) -> (r:
        Result<()>)
        requires
            old(self).wf(),
            0 <= i < old(self).nodes().len(),
            old(self).nodes()[i].id@ == node_id@,
            (old(self).nodes()[i].node_type matches NodeType::FunctionDefinition { args: a } && a == *args)
                || (old(self).nodes()[i].node_type matches NodeType::VariableDefinition { args: a } && a == *args),
            args@.len() >= 1,
        ensures
            final(self).wf(),
            final(self).program() == old(self).program(),
            final(self).base() == old(self).base(),
            final(self).base_functions() == old(self).base_functions(),
            final(self).base_rest() == old(self).base_rest(),
            (final(self).state(), outcome(r)) == variable_definition_step(
                old(self).state(),
                old(self).program(),
                node_id@,
                args@[0]@,
            ),
    {
        proof {
            lemma_texts(self.nodes(), i);
            lemma_node_texts(self.nodes()[i].node_type, self.nodes()[i].id@);
            assert(arg_ids(self.nodes()[i].node_type)[0] == args@[0]@);
            assert(is_start(self.nodes(), i));
            self.lemma_start_rank(i);
            self.lemma_input(i, 0);
        }
        let body_node = match self.ast.get_node(args[0].as_str()) {
            Ok(n) => n,
            Err(e) => {
                return Err(e);
            },
        };
        self.var_declaration(body_node, node_id)
    }

    /// Records `error` among the outputs.
    fn add_error(&mut self, error: BanjoError)
        requires
            old(self).wf(),
        ensures
            final(self).wf(),
            final(self).program() == old(self).program(),
            final(self).base() == old(self).base(),
            final(self).base_functions() == old(self).base_functions(),
            final(self).base_rest() == old(self).base_rest(),
            final(self).state() == error_step(old(self).state(), fail_of(error)),
    {
        self.output.add_error(error);
    }

    /// Visits `node` in the order of dependencies: the nodes it depends on first
    /// (their failures recorded), then its own definition (a failure there
    /// recorded too). Meeting a node of the current path again is a cycle.
    fn visit(&mut self, in_branch: &mut Vec<bool>, visited: &mut Vec<bool>, node: &'ast Node<N>) -> (r: Result<()>)
        requires
            old(self).wf(),
            index_of(old(self).nodes(), node.id@) >= 0,
            old(self).nodes()[index_of(old(self).nodes(), node.id@)] == *node,
            old(in_branch)@.len() == old(self).nodes().len(),
            old(visited)@.len() == old(self).nodes().len(),
        ensures
            final(self).wf(),
            final(self).program() == old(self).program(),
            final(self).base() == old(self).base(),
            final(self).base_functions() == old(self).base_functions(),
            final(self).base_rest() == old(self).base_rest(),
            final(in_branch)@ == old(in_branch)@,
            final(visited)@.len() == old(visited)@.len(),
            (final(self).state(), final(visited)@, outcome(r)) == visit_step(
                old(self).state(),
                old(self).program(),
                old(visited)@,
                old(in_branch)@,
                index_of(old(self).nodes(), node.id@),
            ),
        decreases unmarked(old(in_branch)@),
    {
        let ghost i = index_of(self.nodes(), node.id@);
        let ghost st0 = self.state();
        let ghost v0 = visited@;
        let ghost b0 = in_branch@;
        let ghost program = self.program();
        let ast: &'ast Ast<N> = self.ast;
        proof {
            ast.lemma_wf();
            crate::banjo::ast::lemma_index_of(self.nodes(), node.id@);
        }
        let id: &'ast str = node.id.as_str();
        let index = match ast.position(id) {
            Some(k) => k,
            None => {
                proof {
                    assert(false);
                }
                return Ok(());
            },
        };
        if visited[index] {
            return Ok(());
        }
        if in_branch[index] {
            return BanjoError::node_err(id, "Detected cycle");
        }
        in_branch.set(index, true);
        let ghost b1 = in_branch@;
        proof {
            lemma_unmarked_set(b0, i);
        }
        let kids = children_of(node);
        let mut k: usize = 0;
        while k < kids.len()
            invariant
                self.wf(),
                program == old(self).program(),
                self.base() == old(self).base(),
                self.base_functions() == old(self).base_functions(),
                self.base_rest() == old(self).base_rest(),
                st0 == old(self).state(),
                v0 == old(visited)@,
                b0 == old(in_branch)@,
                self.program() == program,
                *ast == program,
                self.nodes() == program.nodes(),
                0 <= i < b0.len(),
                b0.len() == program.nodes().len(),
                program.nodes()[i] == *node,
                !b0[i],
                crate::banjo::ast::distinct_ids(program.nodes()),
                b1 == b0.update(i, true),
                unmarked(b1) < unmarked(b0),
                in_branch@ == b1,
                visited@.len() == b0.len(),
                kids@.map_values(|c: &str| c@) == children(node.node_type),
                k <= kids@.len(),
                children_step(st0, program, v0, b1, i, k as nat) == (self.state(), visited@),
            decreases kids@.len() - k,
        {
            proof {
                assert(kids@.map_values(|c: &str| c@)[k as int] == kids@[k as int]@);
                crate::banjo::ast::lemma_index_of(program.nodes(), kids@[k as int]@);
            }
            // We shoud ignore missing nodes as they could reference native functions
            // Besides, the error will surface later if a non-native function is incorrectly
            // referenced
            if let Ok(child_node) = ast.get_node(kids[k]) {
                proof {
                    crate::banjo::ast::lemma_index_of_distinct(program.nodes(), index_of(program.nodes(), kids@[k as int]@));
                }
                match self.visit(in_branch, visited, child_node) {
                    Ok(_) => {},
                    Err(e) => self.add_error(e),
                }
            }
            k += 1;
        }
        in_branch.set(index, false);
        proof {
            assert(in_branch@ =~= b0);
        }
        visited.set(index, true);
        let result = match &node.node_type {
            NodeType::FunctionDefinition { args } => {
                if args.len() != 1 {
                    return BanjoError::node_err(id, "Function definition requires exactly 1 input.");
                }
                let arity = match ast.get_arity(id) {
                    Some(a) => a,
                    None => 256,
                };
                if arity > 0 {
                    self.node_function_definition(id, args, arity, Ghost(i))
                } else {
                    // Treat a function defn with no parameters as a variable defn, effectively
                    // memoizing it
                    self.node_variable_definition(id, args, Ghost(i))
                }
            },
            NodeType::VariableDefinition { args } => {
                if args.len() != 1 {
                    return BanjoError::node_err(id, "Variable definition requires exactly 1 input.");
                }
                self.node_variable_definition(id, args, Ghost(i))
            },
            NodeType::Const { value } => {
                proof {
                    lemma_texts(self.nodes(), i);
                    lemma_node_texts(node.node_type, node.id@);
                }
                self.node_const_declaration(value, id)
            },
            _ => Ok(()),
        };
        match result {
            Ok(_) => {},
            Err(e) => self.add_error(e),
        }
        Ok(())
    }

    /// Compiles the program: first the definitions, in the order of their
    /// dependencies, then the other roots, failures recorded; the script ends
    /// with a return and is allocated, and its reference returned.
    pub fn compile(&mut self) -> (f: GcRef<Function<N>>)
        requires
            old(self).wf(),
        ensures
            final(self).wf(),
            final(self).program() == old(self).program(),
            final(self).base() == old(self).base(),
            final(self).base_functions() == old(self).base_functions(),
            final(self).base_rest() == old(self).base_rest(),
            (final(self).state(), f.slot() as nat) == compile_step(old(self).state(), old(self).program()),
    {
        let ghost st0 = self.state();
        let ghost program = self.program();
        let ast: &'ast Ast<N> = self.ast;
        proof {
            ast.lemma_wf();
        }
        let n = ast.node_count();
        // Node is in the current topological sort branch.
        // If true and this node is visited during compilation, then graph is cyclic
        let mut in_branch: Vec<bool> = Vec::new();
        // Node has already been processed during topological sort
        let mut visited: Vec<bool> = Vec::new();
        let mut j: usize = 0;
        while j < n
            invariant
                j <= n,
                in_branch@ == no_marks(j as nat),
                visited@ == no_marks(j as nat),
            decreases n - j,
        {
            in_branch.push(false);
            visited.push(false);
            j += 1;
            proof {
                assert(in_branch@ =~= no_marks(j as nat));
                assert(visited@ =~= no_marks(j as nat));
            }
        }
        let roots = ast.get_roots();
        // Compile var/fn definitions
        let mut k: usize = 0;
        while k < roots.len()
            invariant
                self.wf(),
                program == old(self).program(),
                self.base() == old(self).base(),
                self.base_functions() == old(self).base_functions(),
                self.base_rest() == old(self).base_rest(),
                st0 == old(self).state(),
                self.program() == program,
                *ast == program,
                self.nodes() == program.nodes(),
                n == program.nodes().len(),
                program.wf(),
                roots@.len() == program.root_indices().len(),
                forall|m: int| 0 <= m < roots@.len() ==> *roots@[m] == program.nodes()[#[trigger] program.root_indices()[m] as int],
                forall|m: int| 0 <= m < program.root_indices().len() ==> #[trigger] program.root_indices()[m] < n,
                crate::banjo::ast::distinct_ids(program.nodes()),
                in_branch@ == no_marks(n as nat),
                visited@.len() == n,
                k <= roots@.len(),
                roots_visit_step(st0, program, no_marks(n as nat), k as nat) == (self.state(), visited@),
            decreases roots@.len() - k,
        {
            let node = roots[k];
            proof {
                let r = program.root_indices()[k as int] as int;
                assert(*roots@[k as int] == program.nodes()[r]);
                crate::banjo::ast::lemma_index_of_distinct(program.nodes(), r);
            }
            match &node.node_type {
                NodeType::VariableDefinition { .. } | NodeType::FunctionDefinition { .. } | NodeType::Const {
                    ..
                } => {
                    match self.visit(&mut in_branch, &mut visited, node) {
                        Ok(_) => {},
                        Err(e) => self.add_error(e),
                    }
                },
                _ => {},
            }
            k += 1;
        }
        let ghost st1 = self.state();
        // Also compile disconnected roots AFTER definitions
        let mut k: usize = 0;
        while k < roots.len()
            invariant
                self.wf(),
                program == old(self).program(),
                self.base() == old(self).base(),
                self.base_functions() == old(self).base_functions(),
                self.base_rest() == old(self).base_rest(),
                self.program() == program,
                *ast == program,
                self.nodes() == program.nodes(),
                n == program.nodes().len(),
                roots@.len() == program.root_indices().len(),
                forall|m: int| 0 <= m < roots@.len() ==> *roots@[m] == program.nodes()[#[trigger] program.root_indices()[m] as int],
                forall|m: int| 0 <= m < program.root_indices().len() ==> #[trigger] program.root_indices()[m] < n,
                crate::banjo::ast::distinct_ids(program.nodes()),
                k <= roots@.len(),
                roots_node_step(st1, program, k as nat) == self.state(),
            decreases roots@.len() - k,
        {
            let node = roots[k];
            proof {
                let r = program.root_indices()[k as int] as int;
                assert(*roots@[k as int] == program.nodes()[r]);
                crate::banjo::ast::lemma_index_of_distinct(program.nodes(), r);
                program.lemma_wf();
                assert(program.root_indices().contains(r as usize));
                assert(is_start(program.nodes(), r));
                self.lemma_start_rank(r);
            }
            match &node.node_type {
                NodeType::VariableDefinition { .. } | NodeType::FunctionDefinition { .. } | NodeType::Const {
                    ..
                } => {},
                _ => {
                    match self.node(node) {
                        Ok(_) => {},
                        Err(e) => self.add_error(e),
                    }
                },
            }
            k += 1;
        }
        let function = self.pop_func_compiler().into_function();
        let ghost before = self.state();
        let f = self.gc.allocate(function);
        proof {
            assert(self.state() == CState { functions: before.functions.push(function_view(function)), ..before });
        }
        f
    }

    /// Input `k` of node `i`, when it is a node, ranks below node `i` and declares
    /// nothing.
    proof fn lemma_input(&self, i: int, k: int)
        requires
            self.wf(),
            0 <= i < self.nodes().len(),
            0 <= k < arg_ids(self.nodes()[i].node_type).len(),
            rank_of(self.program(), i) > 0,
        ensures
            index_of(self.nodes(), arg_ids(self.nodes()[i].node_type)[k]) >= 0 ==> {
                let j = index_of(self.nodes(), arg_ids(self.nodes()[i].node_type)[k]);
                &&& 0 < rank_of(self.program(), j) < rank_of(self.program(), i)
                &&& !declares(self.nodes()[j].node_type)
                &&& self.nodes()[j].id@ == arg_ids(self.nodes()[i].node_type)[k]
            },
    {
        self.ast.lemma_wf();
        let nodes = self.nodes();
        crate::banjo::ast::lemma_index_of(nodes, arg_ids(nodes[i].node_type)[k]);
        if index_of(nodes, arg_ids(nodes[i].node_type)[k]) >= 0 {
            assert(0 < a_rank(nodes)[index_of(nodes, arg_ids(nodes[i].node_type)[k])] < a_rank(nodes)[i]);
        }
    }

    /// A root or a definition is ranked.
    proof fn lemma_start_rank(&self, i: int)
        requires
            self.wf(),
            0 <= i < self.nodes().len(),
            is_start(self.nodes(), i),
        ensures
            rank_of(self.program(), i) > 0,
    {
        self.ast.lemma_wf();
    }

    /// Compiles the inputs of a call, in order, and the call itself.
    fn call(&mut self, arg_node_ids: &'ast Vec<NodeId>, Ghost(i): Ghost<int>) -> (r: Result<()>)
        requires
            old(self).wf(),
            0 <= i < old(self).nodes().len(),
            old(self).nodes()[i].node_type matches NodeType::FunctionCall { args, .. } && args == *arg_node_ids,
            rank_of(old(self).program(), i) > 0,
        ensures
            final(self).wf(),
            final(self).program() == old(self).program(),
            final(self).base() == old(self).base(),
            final(self).base_functions() == old(self).base_functions(),
            final(self).base_rest() == old(self).base_rest(),
            (final(self).state(), outcome(r)) == call_step(old(self).state(), old(self).program(), i),
        decreases rank_of(old(self).program(), i), 1nat,
    {
        let ghost st0 = self.state();
        let ghost program = self.program();
        let ghost n = arg_node_ids@.len();
        let ast: &'ast Ast<N> = self.ast;
        proof {
            ast.lemma_wf();
            assert(arg_ids(self.nodes()[i].node_type).len() == n);
        }
        let mut k: usize = 0;
        while k < arg_node_ids.len()
            invariant
                self.wf(),
                program == old(self).program(),
                self.base() == old(self).base(),
                self.base_functions() == old(self).base_functions(),
                self.base_rest() == old(self).base_rest(),
                st0 == old(self).state(),
                self.program() == program,
                *ast == program,
                self.nodes() == program.nodes(),
                0 <= i < program.nodes().len(),
                program.nodes()[i].node_type matches NodeType::FunctionCall { args, .. } && args == *arg_node_ids,
                n == arg_node_ids@.len(),
                k <= n,
                rank_of(program, i) > 0,
                args_step(st0, program, i, k as nat) == (self.state(), Ok::<(), Fail>(())),
            decreases n - k,
        {
            proof {
                assert(arg_ids(program.nodes()[i].node_type)[k as int] == arg_node_ids@[k as int]@);
                self.lemma_input(i, k as int);
                self.lemma_call_inputs(i, k as int);
            }
            let arg = match ast.get_node(arg_node_ids[k].as_str()) {
                Ok(n) => n,
                Err(e) => {
                    proof {
                        assert(false);
                    }
                    return Err(e);
                },
            };
            match self.node(arg) {
                Ok(_) => {},
                Err(e) => {
                    proof {
                        lemma_args_stop(st0, program, i, (k + 1) as nat, n);
                    }
                    return Err(e);
                },
            }
            k += 1;
        }
        self.emit(OpCode::Call { arg_count: arg_node_ids.len() as u8 });
        Ok(())
    }

    /// The inputs of a call are nodes.
    proof fn lemma_call_inputs(&self, i: int, k: int)
        requires
            self.wf(),
            0 <= i < self.nodes().len(),
            self.nodes()[i].node_type is FunctionCall,
            0 <= k < arg_ids(self.nodes()[i].node_type).len(),
        ensures
            index_of(self.nodes(), arg_ids(self.nodes()[i].node_type)[k]) >= 0,
    {
    }

    /// Reads the variable `node_id`: a local by its slot, else a global by its name.
    fn named_variable(&mut self, node_id: &'ast str) -> (r: Result<()>)
        requires
            old(self).wf(),
            texts(old(self).nodes()).contains(node_id@),
        ensures
            final(self).wf(),
            final(self).program() == old(self).program(),
            final(self).base() == old(self).base(),
            final(self).base_functions() == old(self).base_functions(),
            final(self).base_rest() == old(self).base_rest(),
            (final(self).state(), outcome(r)) == variable_step(old(self).state(), node_id@),
    {
        proof {
            self.compiler.lemma_first_frame();
        }
        let opcode = match self.compiler.resolve_local(node_id) {
            Err(e) => {
                return Err(e);
            },
            Ok(Some(index)) => OpCode::GetLocal(index),
            Ok(None) => {
                let constant = match self.identifier_constant(node_id) {
                    Ok(c) => c,
                    Err(e) => {
                        return Err(e);
                    },
                };
                OpCode::GetGlobal(constant)
            },
        };
        self.emit(opcode);
        Ok(())
    }

    /// Previews the value of node `node_id`, when compiling a function without
    /// parameters.
    fn output(&mut self, node_id: &str) -> (r: Result<()>)
        requires
            old(self).wf(),
        ensures
            final(self).wf(),
            final(self).program() == old(self).program(),
            final(self).base() == old(self).base(),
            final(self).base_functions() == old(self).base_functions(),
            final(self).base_rest() == old(self).base_rest(),
            (final(self).state(), outcome(r)) == output_step(old(self).state(), node_id@),
    {
        proof {
            self.compiler.lemma_first_frame();
        }
        // We can preview the result only if we're in a function which isn't
        // parameterized
        if self.compiler.arity() == 0 {
            let output_index = match self.output.add_node(node_id) {
                Ok(i) => i,
                Err(e) => {
                    return Err(e);
                },
            };
            self.emit(OpCode::Output { output_index });
        }
        Ok(())
    }

    /// Declares the local `node_id` in the current scope.
    fn declare_local_variable(&mut self, node_id: &'ast str) -> (r: Result<()>)
        requires
            old(self).wf(),
        ensures
            final(self).wf(),
            final(self).program() == old(self).program(),
            final(self).base() == old(self).base(),
            final(self).base_functions() == old(self).base_functions(),
            final(self).base_rest() == old(self).base_rest(),
            (final(self).state(), outcome(r)) == declare_local_step(old(self).state(), node_id@),
    {
        proof {
            self.compiler.lemma_first_frame();
            assert(frame_ok(self.state().frames[0]));
        }
        if self.compiler.is_local_already_in_scope(node_id) {
            return BanjoError::node_err(node_id, "Already a variable with this name in this scope.");
        }
        let r = self.compiler.add_local(node_id);
        proof {
            if old(self).state().frames[0].locals.len() == 256 {
                assert(self.state() == old(self).state());
            }
        }
        r
    }

    /// Declares the variable `node_id`, not yet assigning a value: a local in a
    /// local scope, else a global, whose name constant is returned.
    fn declare_variable(&mut self, node_id: &'ast str) -> (g: Option<Constant>)
        requires
            old(self).wf(),
            texts(old(self).nodes()).contains(node_id@),
        ensures
            final(self).wf(),
            final(self).program() == old(self).program(),
            final(self).base() == old(self).base(),
            final(self).base_functions() == old(self).base_functions(),
            final(self).base_rest() == old(self).base_rest(),
            (final(self).state(), g) == declare_step(old(self).state(), node_id@),
    {
        proof {
            self.compiler.lemma_first_frame();
        }
        // At runtime, locals aren't looked up by name.
        // There's no need to stuff the variable's name into the constant table, so if
        // the declaration is inside a local scope, we return None instead.
        if self.compiler.is_local_scope() {
            let _ = self.declare_local_variable(node_id);
            None
        } else {
            match self.identifier_constant(node_id) {
                Ok(c) => Some(c),
                Err(_) => None,
            }
        }
    }

    /// Defines a declared variable: a global by its instruction, a local by marking
    /// it defined.
    fn define_variable(&mut self, global: Option<Constant>)
        requires
            old(self).wf(),
        ensures
            final(self).wf(),
            final(self).program() == old(self).program(),
            final(self).base() == old(self).base(),
            final(self).base_functions() == old(self).base_functions(),
            final(self).base_rest() == old(self).base_rest(),
            final(self).state() == define_step(old(self).state(), global),
    {
        proof {
            self.compiler.lemma_first_frame();
        }
        match global {
            Some(global) => self.emit(OpCode::DefineGlobal(global)),
            // For local variables, we just save references to values on the stack. No
            // need to store them somewhere else like globals do.
            None => self.compiler.mark_var_initialized(),
        }
    }

    /// Starts compiling the function `func_id`, enclosed by the current one.
    fn push_func_compiler(&mut self, func_id: &str, arity: usize)
        requires
            old(self).wf(),
            texts(old(self).nodes()).contains(func_id@),
        ensures
            final(self).wf(),
            final(self).program() == old(self).program(),
            final(self).base() == old(self).base(),
            final(self).base_functions() == old(self).base_functions(),
            final(self).base_rest() == old(self).base_rest(),
            final(self).state() == push_step(old(self).state(), func_id@, arity),
    {
        let ghost before = self.state();
        let ghost bytes: nat = self.gc.collector().bytes_allocated() as nat;
        let ghost bound: nat = self.gc.collector().table_bound();
        proof {
            self.gc.collector().lemma_interned();
            assert(1 * crate::gc::object_size() == crate::gc::object_size()) by (nonlinear_arith);
            if !text_interned(before.strings.objects, before.strings.interned, func_id@) {
                lemma_uninterned_new_positive(texts(self.ast.nodes()), before.strings, func_id@);
                assert(uninterned(texts(self.ast.nodes()), before.strings) * crate::gc::object_size()
                    >= crate::gc::object_size()) by (nonlinear_arith)
                    requires
                        uninterned(texts(self.ast.nodes()), before.strings) >= 1,
                ;
            }
        }
        let graph_name = self.gc.intern(func_id);
        proof {
            crate::gc::GcRef::<BanjoString>::lemma_at(graph_name.slot(), graph_name);
            self.lemma_intern_room(before, bytes, bound, func_id@);
        }
        let mut new_compiler = Box::new(FuncCompiler::new(Some(graph_name), arity));
        proof {
            new_compiler.lemma_first_frame();
        }
        std::mem::swap(&mut new_compiler, &mut self.compiler);
        self.compiler.set_enclosing(Some(new_compiler));
    }

    /// Finishes the function being compiled with a return and hands its compiler
    /// back; the enclosing function, if any, is compiled next.
    fn pop_func_compiler(&mut self) -> (c: FuncCompiler<'ast, N>)
        requires
            old(self).wf(),
        ensures
            final(self).wf(),
            final(self).program() == old(self).program(),
            final(self).base() == old(self).base(),
            final(self).base_functions() == old(self).base_functions(),
            final(self).base_rest() == old(self).base_rest(),
            (final(self).state(), c.frame().function) == pop_step(old(self).state()),
    {
        self.emit(OpCode::Return);
        proof {
            self.compiler.lemma_first_frame();
        }
        let ghost mid = self.state().frames;
        match self.compiler.take_enclosing() {
            Some(enclosing) => {
                let mut e = enclosing;
                proof {
                    e.lemma_first_frame();
                    assert(mid.drop_first() =~= e.chain());
                }
                std::mem::swap(&mut e, &mut self.compiler);
                proof {
                    e.lemma_first_frame();
                }
                *e
            },
            None => {
                let mut fresh = Box::new(FuncCompiler::new(None, 0));
                proof {
                    assert(mid.len() == 1);
                }
                std::mem::swap(&mut fresh, &mut self.compiler);
                proof {
                    fresh.lemma_first_frame();
                }
                *fresh
            },
        }
    }
}

/// The ids `node` depends on: the node it names, then its inputs.
fn children_of<'ast, N>(node: &'ast Node<N>) -> (kids: Vec<&'ast str>)
    ensures
        kids@.map_values(|c: &str| c@) == children(node.node_type),
{
    let mut kids: Vec<&'ast str> = Vec::new();
    if let Some(d) = node.dependencies() {
        kids.push(d);
    }
    let args = node.args();
    let ghost start = kids@;
    let mut k: usize = 0;
    while k < args.len()
        invariant
            k <= args@.len(),
            args@.map_values(|s: &str| s@) == arg_ids(node.node_type),
            kids@.len() == start.len() + k,
            start.map_values(|c: &str| c@) == match dependency_id(node.node_type) {
                Some(d) => seq![d],
                None => Seq::<Seq<char>>::empty(),
            },
            forall|m: int| 0 <= m < start.len() ==> kids@[m] == start[m],
            forall|m: int| 0 <= m < k ==> #[trigger] kids@[start.len() + m] == args@[m],
        decreases args@.len() - k,
    {
        kids.push(args[k]);
        k += 1;
    }
    proof {
        let ids = args@.map_values(|s: &str| s@);
        let dep = start.map_values(|c: &str| c@);
        let all = kids@.map_values(|c: &str| c@);
        assert(children(node.node_type) == dep + ids);
        assert forall|m: int| 0 <= m < all.len() implies #[trigger] all[m] == (dep + ids)[m] by {
            if m < start.len() {
                assert(kids@[m] == start[m]);
                assert(dep[m] == start[m]@);
            } else {
                let a = m - start.len();
                assert(kids@[start.len() + a] == args@[a]);
                assert(ids[a] == args@[a]@);
            }
        }
        assert(all =~= dep + ids);
    }
    kids
}

/// A finished function ends with a return, so that running it never goes past
/// its code.
pub proof fn finished_function_ends_with_return<N>(st: CState<N>)
    requires
        st.frames.len() >= 1,
    ensures
        pop_step(st).1.code.len() >= 1,
        pop_step(st).1.code.last() == OpCode::Return,
{
}

/// Visiting a node that was visited before changes nothing.
pub proof fn visited_node_is_skipped<N>(st: CState<N>, ast: Ast<N>, visited: Seq<bool>, branch: Seq<bool>, i: int)
    requires
        0 <= i < branch.len(),
        visited[i],
    ensures
        visit_step(st, ast, visited, branch, i) == (st, visited, Ok::<(), Fail>(())),
{
}

/// Meeting a node again on the path being visited is a cycle, reported at that
/// node, and changes nothing else.
pub proof fn revisit_on_path_is_a_cycle<N>(st: CState<N>, ast: Ast<N>, visited: Seq<bool>, branch: Seq<bool>, i: int)
    requires
        0 <= i < branch.len(),
        !visited[i],
        branch[i],
    ensures
        visit_step(st, ast, visited, branch, i) == (
            st,
            visited,
            Err::<(), Fail>(Fail::Node(ast.nodes()[i].id@, "Detected cycle"@)),
        ),
{
}

/// Once compiling the inputs fails, compiling more of them changes nothing.
proof fn lemma_args_stop<N>(st: CState<N>, ast: Ast<N>, i: int, k: nat, m: nat)
    requires
        k <= m,
        args_step(st, ast, i, k).1 is Err,
    ensures
        args_step(st, ast, i, m) == args_step(st, ast, i, k),
    decreases m,
{
    if m > k {
        lemma_args_stop(st, ast, i, k, (m - 1) as nat);
    }
}

/// A node's own texts: its id, its inputs, the node it names and its literal.
proof fn lemma_node_texts<N>(nt: NodeType<N>, id: Seq<char>)
    ensures
        node_texts(nt, id).contains(id),
        forall|k: int| 0 <= k < arg_ids(nt).len() ==> node_texts(nt, id).contains(#[trigger] arg_ids(nt)[k]),
        nt matches NodeType::VariableReference { var_node_id } ==> node_texts(nt, id).contains(var_node_id@),
        nt matches NodeType::FunctionCall { fn_node_id, .. } ==> node_texts(nt, id).contains(fn_node_id@),
        nt matches NodeType::Literal { value } ==> node_texts(nt, id).contains(literal_text(value)),
        nt matches NodeType::Const { value } ==> node_texts(nt, id).contains(literal_text(value)),
{
    let ts = node_texts(nt, id);
    let n = arg_ids(nt).len();
    assert(ts[0] == id);
    assert forall|k: int| 0 <= k < arg_ids(nt).len() implies ts.contains(#[trigger] arg_ids(nt)[k]) by {
        assert(ts[1 + k] == arg_ids(nt)[k]);
    }
    if ts.len() > 1 + n {
        assert(ts[1 + n as int] == ts.last());
    }
}

/// The texts of each node are texts of the program.
proof fn lemma_texts<N>(nodes: Seq<crate::banjo::ast::Node<N>>, i: int)
    requires
        0 <= i < nodes.len(),
    ensures
        forall|t: Seq<char>|
            #[trigger] node_texts(nodes[i].node_type, nodes[i].id@).contains(t) ==> texts(nodes).contains(t),
    decreases nodes.len(),
{
    let ts = node_texts(nodes.last().node_type, nodes.last().id@);
    assert(texts(nodes) == texts(nodes.drop_last()) + ts);
    if i < nodes.len() - 1 {
        lemma_texts(nodes.drop_last(), i);
        assert(nodes.drop_last()[i] == nodes[i]);
        assert forall|t: Seq<char>| #[trigger]
            node_texts(nodes[i].node_type, nodes[i].id@).contains(t) implies texts(nodes).contains(t) by {
            let k = choose|k: int| 0 <= k < texts(nodes.drop_last()).len() && texts(nodes.drop_last())[k] == t;
            assert(texts(nodes)[k] == t);
        }
    } else {
        assert forall|t: Seq<char>| #[trigger]
            node_texts(nodes[i].node_type, nodes[i].id@).contains(t) implies texts(nodes).contains(t) by {
            let k = choose|k: int| 0 <= k < ts.len() && ts[k] == t;
            assert(texts(nodes)[texts(nodes.drop_last()).len() + k] == t);
        }
    }
}

/// A text of the program that is not interned counts among the uninterned ones.
proof fn lemma_uninterned_new_positive(ts: Seq<Seq<char>>, s: StringsView, t: Seq<char>)
    requires
        ts.contains(t),
        !text_interned(s.objects, s.interned, t),
    ensures
        uninterned(ts, s) >= 1,
    decreases ts.len(),
{
    let i = choose|i: int| 0 <= i < ts.len() && ts[i] == t;
    if i < ts.len() - 1 {
        assert(ts.drop_last()[i] == t);
        lemma_uninterned_new_positive(ts.drop_last(), s, t);
    }
}

} // verus!
