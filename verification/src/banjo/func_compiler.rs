use vstd::prelude::*;

use vstd::string::StringSliceAdditionalSpecFns;

use crate::banjo::ast::{BinaryType, LiteralType, UnaryType};
use crate::banjo::chunk::{binary_code, constant_loaded, too_many_constants, unary_code};
use crate::banjo::error::{fails_at_node, fails_to_compile, BanjoError, Result};
use crate::banjo::obj::{function_view, BanjoString, Function, FunctionView};
use crate::banjo::op_code::{Constant, LocalIndex, OpCode};
use crate::banjo::value::Value;
use crate::gc::{Gc, GcRef};

verus! {

/// A local variable, as plain values: its node id and the depth of the scope that
/// defined it (`None` while it is declared but not yet defined).
pub struct LocalView {
    pub id: Seq<u8>,
    pub depth: Option<u32>,
}

/// The local variables of a function, searched from the innermost out: the index of
/// the innermost local named `id`, or -1.
pub open spec fn innermost(locals: Seq<LocalView>, id: Seq<u8>) -> int
    decreases locals.len(),
{
    if locals.len() == 0 {
        -1
    } else if locals.last().id == id {
        locals.len() - 1
    } else {
        innermost(locals.drop_last(), id)
    }
}

/// No local from `j` on was defined in a scope enclosing the one at `depth`.
pub open spec fn within_scope(locals: Seq<LocalView>, j: int, depth: u32) -> bool {
    forall|k: int| j <= k < locals.len() ==> !(#[trigger] locals[k].depth matches Some(d) && d < depth)
}

/// A local named `id` is declared in the scope at `depth`: walking out from the
/// innermost local, it is met before any local of an enclosing scope.
pub open spec fn declared_in_scope(locals: Seq<LocalView>, id: Seq<u8>, depth: u32) -> bool {
    exists|j: int| 0 <= j < locals.len() && #[trigger] locals[j].id == id && within_scope(locals, j, depth)
}

pub proof fn lemma_innermost(locals: Seq<LocalView>, id: Seq<u8>)
    ensures
        -1 <= innermost(locals, id) < locals.len(),
        innermost(locals, id) >= 0 ==> locals[innermost(locals, id)].id == id,
        forall|j: int| innermost(locals, id) < j < locals.len() ==> locals[j].id != id,
    decreases locals.len(),
{
    if locals.len() > 0 {
        lemma_innermost(locals.drop_last(), id);
        assert forall|j: int| innermost(locals, id) < j < locals.len() implies locals[j].id != id by {
            if j < locals.len() - 1 {
                assert(locals.drop_last()[j] == locals[j]);
            }
        }
    }
}

/// One function being compiled, as plain values: its locals, outermost first,
/// the depth of the current scope, and the function so far.
pub struct FrameView<N> {
    pub locals: Seq<LocalView>,
    pub scope_depth: u32,
    pub function: FunctionView<N>,
}

/// A frame's limits: slot zero is claimed, and there are at most 256 locals.
pub open spec fn frame_ok<N>(f: FrameView<N>) -> bool {
    0 < f.locals.len() <= 256
}

/// The frame of a new function with the given name and number of parameters: at
/// global scope, with slot zero claimed, and no code yet.
pub open spec fn fresh_frame<N>(name: Option<GcRef<BanjoString>>, arity: usize) -> FrameView<N> {
    FrameView {
        locals: seq![LocalView { id: Seq::empty(), depth: Some(0) }],
        scope_depth: 0,
        function: FunctionView { name, arity, code: Seq::empty(), constants: Seq::empty() },
    }
}

/// The frame with `ops` written at the end of its code.
pub open spec fn emitted<N>(f: FrameView<N>, ops: Seq<OpCode>) -> FrameView<N> {
    FrameView { function: FunctionView { code: f.function.code + ops, ..f.function }, ..f }
}

/// The frame with `value` added to its constants.
pub open spec fn with_constant<N>(f: FrameView<N>, value: Value<N>) -> FrameView<N> {
    FrameView { function: FunctionView { constants: f.function.constants.push(value), ..f.function }, ..f }
}

/// The frame with a local named `id` declared, not yet defined.
pub open spec fn with_local<N>(f: FrameView<N>, id: Seq<u8>) -> FrameView<N> {
    FrameView { locals: f.locals.push(LocalView { id, depth: None }), ..f }
}

/// The frame with its innermost local defined at the current depth, when in a
/// local scope.
pub open spec fn initialized<N>(f: FrameView<N>) -> FrameView<N> {
    if f.scope_depth > 0 {
        FrameView {
            locals: f.locals.update(f.locals.len() - 1, LocalView { depth: Some(f.scope_depth), ..f.locals.last() }),
            ..f
        }
    } else {
        f
    }
}

/// What looking up the local `id` comes to: the slot of the innermost local with
/// that id, none, or the error of reading a local in its own initializer.
pub open spec fn local_lookup(locals: Seq<LocalView>, id: Seq<u8>) -> Option<Option<u8>> {
    let i = innermost(locals, id);
    if i < 0 {
        Some(None)
    } else if locals[i].depth is None {
        None
    } else {
        Some(Some(i as u8))
    }
}

/// A compiler for a graph, including the implicit top-level function, <script>
pub struct FuncCompiler<'ast, N> {
    pub enclosing: Option<Box<FuncCompiler<'ast, N>>>,
    pub function: Function<N>,
    /// Keeps track of which stack slots are associated with which local
    /// variables or temporaries
    locals: Vec<Local<'ast>>,
    /// The number of blocks surrounding the current bit of code
    scope_depth: u32,
}

/// A local variable of the function being compiled.
pub struct Local<'ast> {
    id: &'ast str,
    /// The scope depth of the block where the local variable was declared
    /// None means declared but not defined
    depth: Option<u32>,
}

impl<'ast> View for Local<'ast> {
    type V = LocalView;

    closed spec fn view(&self) -> LocalView {
        LocalView { id: self.id.spec_bytes(), depth: self.depth }
    }
}

impl<'ast> Local<'ast> {
    fn is_initialized(&self) -> (r: bool)
        ensures
            r == self@.depth is Some,
    {
        self.depth.is_some()
    }

    fn mark_initialized(&mut self, depth: u32)
        ensures
            final(self)@ == (LocalView { depth: Some(depth), ..old(self)@ }),
    {
        self.depth = Some(depth);
    }
}

impl<'ast, N: Copy> FuncCompiler<'ast, N> {
    /// This function's own frame.
    pub closed spec fn frame(&self) -> FrameView<N> {
        FrameView {
            locals: self.locals@.map_values(|l: Local<'ast>| l@),
            scope_depth: self.scope_depth,
            function: function_view(self.function),
        }
    }

    /// The frames of this function and of the functions that enclose it,
    /// innermost first.
    pub closed spec fn chain(&self) -> Seq<FrameView<N>>
        decreases self,
    {
        match self.enclosing {
            Some(e) => seq![self.frame()] + e.chain(),
            None => seq![self.frame()],
        }
    }

    /// The invariant: every frame of the chain keeps within its limits.
    pub closed spec fn wf(&self) -> bool {
        forall|i: int| 0 <= i < self.chain().len() ==> #[trigger] frame_ok(self.chain()[i])
    }

    /// The chain starts with this function's own frame.
    pub proof fn lemma_first_frame(&self)
        ensures
            self.chain().len() >= 1,
            self.chain()[0] == self.frame(),
            self.wf() ==> frame_ok(self.frame()),
    {
        self.lemma_chain();
    }

    proof fn lemma_chain(&self)
        ensures
            self.chain().len() >= 1,
            self.chain()[0] == self.frame(),
            self.enclosing matches Some(e) ==> self.chain() == seq![self.frame()] + e.chain(),
            self.enclosing is None ==> self.chain() == seq![self.frame()],
    {
    }

    /// The chain with frame zero replaced keeps its limits when the new frame does.
    proof fn lemma_update_ok(c: Seq<FrameView<N>>, f: FrameView<N>)
        requires
            c.len() >= 1,
            forall|i: int| 0 <= i < c.len() ==> #[trigger] frame_ok(c[i]),
            frame_ok(f),
        ensures
            forall|i: int| 0 <= i < c.update(0, f).len() ==> #[trigger] frame_ok(c.update(0, f)[i]),
    {
        assert forall|i: int| 0 <= i < c.update(0, f).len() implies #[trigger] frame_ok(c.update(0, f)[i]) by {
            if i != 0 {
                assert(frame_ok(c[i]));
            }
        }
    }

    /// After a change to this function's own fields, the chain is the old one with
    /// frame zero replaced.
    proof fn lemma_frame_changed(&self, old_c: Seq<FrameView<N>>, old_f: FrameView<N>)
        requires
            old_c.len() >= 1,
            old_c[0] == old_f,
            forall|i: int| 0 <= i < old_c.len() ==> #[trigger] frame_ok(old_c[i]),
            frame_ok(self.frame()),
            self.enclosing matches Some(e) ==> old_c == seq![old_f] + e.chain(),
            self.enclosing is None ==> old_c == seq![old_f],
        ensures
            self.chain() == old_c.update(0, self.frame()),
            self.wf(),
    {
        self.lemma_chain();
        match self.enclosing {
            Some(e) => {
                assert(self.chain() =~= old_c.update(0, self.frame()));
            },
            None => {
                assert(self.chain() =~= old_c.update(0, self.frame()));
            },
        }
        Self::lemma_update_ok(old_c, self.frame());
    }

    /// A compiler for a function with the given name and number of parameters, at
    /// global scope, with slot zero claimed.
    pub fn new(function_name: Option<GcRef<BanjoString>>, arity: usize) -> (c: Self)
        ensures
            c.wf(),
            c.chain() == seq![fresh_frame::<N>(function_name, arity)],
    {
        let mut locals = Vec::new();
        // Claim stack slot zero for the VM's own internal use
        let id = "";
        proof {
            reveal_strlit("");
            assert(vstd::utf8::encode_utf8(id@) =~= Seq::<u8>::empty());
        }
        locals.push(Local { id, depth: Some(0) });
        let c = Self { enclosing: None, locals, function: Function::new(function_name, arity), scope_depth: 0 };
        proof {
            assert(c.frame().locals =~= seq![LocalView { id: Seq::empty(), depth: Some(0) }]);
            assert(c.frame() == fresh_frame::<N>(function_name, arity));
            c.lemma_chain();
        }
        c
    }

    /// The number of parameters of the function being compiled.
    pub fn arity(&self) -> (a: usize)
        ensures
            a == self.frame().function.arity,
    {
        self.function.arity
    }

    /// Enters a nested scope.
    pub fn begin_scope(&mut self)
        requires
            old(self).wf(),
            old(self).frame().scope_depth < u32::MAX,
        ensures
            final(self).wf(),
            final(self).chain() == old(self).chain().update(
                0,
                FrameView { scope_depth: (old(self).frame().scope_depth + 1) as u32, ..old(self).frame() },
            ),
    {
        proof {
            self.lemma_chain();
            assert(frame_ok(self.chain()[0]));
        }
        self.scope_depth += 1;
        proof {
            self.lemma_frame_changed(old(self).chain(), old(self).frame());
        }
    }

    /// Declares a local named `node_id`, not yet defined; fails when the function
    /// already has 256 locals.
    pub fn add_local(&mut self, node_id: &'ast str) -> (r: Result<()>)
        requires
            old(self).wf(),
        ensures
            final(self).wf(),
            old(self).frame().locals.len() == 256 ==> {
                &&& fails_at_node(r, node_id@, "Too many local variables in function."@)
                &&& final(self).chain() == old(self).chain()
            },
            old(self).frame().locals.len() < 256 ==> {
                &&& r is Ok
                &&& final(self).chain() == old(self).chain().update(
                    0,
                    with_local(old(self).frame(), node_id.spec_bytes()),
                )
            },
    {
        proof {
            self.lemma_chain();
            assert(frame_ok(self.chain()[0]));
        }
        if self.locals.len() == 256 {
            return BanjoError::node_err(node_id, "Too many local variables in function.");
        }
        // Only "declare" for now, by assigning sentinel value
        let ghost before = self.frame();
        self.locals.push(Local { id: node_id, depth: None });
        proof {
            assert(self.frame().locals =~= before.locals.push(LocalView { id: node_id.spec_bytes(), depth: None }));
            self.lemma_frame_changed(old(self).chain(), old(self).frame());
        }
        Ok(())
    }

    /// Defines the innermost local at the current depth, when in a local scope.
    pub fn mark_var_initialized(&mut self)
        requires
            old(self).wf(),
        ensures
            final(self).wf(),
            final(self).chain() == old(self).chain().update(0, initialized(old(self).frame())),
    {
        proof {
            self.lemma_chain();
            assert(frame_ok(self.chain()[0]));
        }
        if !self.is_local_scope() {
            proof {
                assert(old(self).chain() =~= old(self).chain().update(0, initialized(old(self).frame())));
            }
            return;
        }
        // Now "define"
        let ghost before = self.frame();
        let n = self.locals.len();
        self.locals[n - 1].mark_initialized(self.scope_depth);
        proof {
            assert(self.frame().locals =~= before.locals.update(
                n - 1,
                LocalView { depth: Some(self.scope_depth), ..before.locals.last() },
            ));
            self.lemma_frame_changed(old(self).chain(), old(self).frame());
        }
    }

    /// The slot of the innermost local named `node_id`, if any; it is an error to
    /// read a local that is declared but not yet defined.
    pub fn resolve_local(&mut self, node_id: &str) -> (r: Result<Option<LocalIndex>>)
        requires
            old(self).wf(),
        ensures
            *final(self) == *old(self),
            match local_lookup(old(self).frame().locals, node_id.spec_bytes()) {
                Some(slot) => r == Ok::<Option<LocalIndex>, BanjoError>(slot),
                None => fails_at_node(r, node_id@, "Can't read local variable in its own initializer."@),
            },
    {
        proof {
            self.lemma_chain();
            assert(frame_ok(self.chain()[0]));
        }
        let ghost locals = self.frame().locals;
        let ghost k = node_id.spec_bytes();
        proof {
            lemma_innermost(locals, k);
            assert(locals.subrange(0, locals.len() as int) =~= locals);
        }
        let mut i = self.locals.len();
        while i > 0
            invariant
                locals == self.frame().locals,
                k == node_id.spec_bytes(),
                i <= locals.len() <= 256,
                innermost(locals, k) == innermost(locals.subrange(0, i as int), k),
            decreases i,
        {
            let local = &self.locals[i - 1];
            let ghost prefix = locals.subrange(0, i as int);
            proof {
                assert(prefix.last() == locals[i - 1]);
                assert(locals[i - 1] == self.locals@[i - 1]@);
            }
            if crate::parser::same_text(node_id, local.id) {
                return if local.is_initialized() {
                    Ok(Some((i - 1) as u8))
                } else {
                    BanjoError::node_err(node_id, "Can't read local variable in its own initializer.")
                };
            }
            proof {
                assert(prefix.drop_last() =~= locals.subrange(0, i - 1));
            }
            i -= 1;
        }
        Ok(None)
    }

    /// Is the current scope a non-global scope?
    pub fn is_local_scope(&self) -> (r: bool)
        ensures
            r == (self.frame().scope_depth > 0),
    {
        self.scope_depth > 0
    }

    /// Whether a local named `node_id` is already declared in the current scope.
    pub fn is_local_already_in_scope(&self, node_id: &str) -> (r: bool)
        ensures
            r == declared_in_scope(self.frame().locals, node_id.spec_bytes(), self.frame().scope_depth),
    {
        let ghost locals = self.frame().locals;
        let ghost k = node_id.spec_bytes();
        let mut i = self.locals.len();
        // Search for a variable with the same name in the current scope
        while i > 0
            invariant
                locals == self.frame().locals,
                k == node_id.spec_bytes(),
                i <= locals.len(),
                within_scope(locals, i as int, self.scope_depth),
                forall|j: int| i <= j < locals.len() ==> locals[j].id != k,
            decreases i,
        {
            let local = &self.locals[i - 1];
            proof {
                assert(locals[i - 1] == self.locals@[i - 1]@);
            }
            if let Some(depth) = local.depth {
                if depth < self.scope_depth {
                    proof {
                        assert forall|j: int| 0 <= j < locals.len() && #[trigger] locals[j].id == k implies !within_scope(
                            locals,
                            j,
                            self.scope_depth,
                        ) by {
                            assert(j < i);
                            assert(locals[i - 1].depth matches Some(d) && d < self.scope_depth);
                        }
                    }
                    return false;
                }
            }
            if crate::parser::same_text(node_id, local.id) {
                proof {
                    assert(locals[i - 1].id == k);
                    assert(within_scope(locals, i - 1, self.scope_depth));
                }
                return true;
            }
            i -= 1;
        }
        false
    }

    /// Writes `opcode` at the end of the function's code.
    pub fn emit(&mut self, opcode: OpCode)
        requires
            old(self).wf(),
        ensures
            final(self).wf(),
            final(self).chain() == old(self).chain().update(0, emitted(old(self).frame(), seq![opcode])),
    {
        proof {
            self.lemma_chain();
            assert(frame_ok(self.chain()[0]));
        }
        self.function.chunk.emit(opcode);
        proof {
            assert(self.frame().function.code =~= old(self).frame().function.code + seq![opcode]);
            assert(self.frame() == emitted(old(self).frame(), seq![opcode]));
            self.lemma_frame_changed(old(self).chain(), old(self).frame());
        }
    }

    /// Writes the instruction of a one-input operator.
    pub fn emit_unary(&mut self, unary_type: &UnaryType)
        requires
            old(self).wf(),
        ensures
            final(self).wf(),
            final(self).chain() == old(self).chain().update(
                0,
                emitted(old(self).frame(), seq![unary_code(*unary_type)]),
            ),
    {
        proof {
            self.lemma_chain();
            assert(frame_ok(self.chain()[0]));
        }
        self.function.chunk.emit_unary(unary_type);
        proof {
            assert(self.frame().function.code =~= old(self).frame().function.code + seq![unary_code(*unary_type)]);
            assert(self.frame() == emitted(old(self).frame(), seq![unary_code(*unary_type)]));
            self.lemma_frame_changed(old(self).chain(), old(self).frame());
        }
    }

    /// Writes the instructions of a two-input operator.
    pub fn emit_binary(&mut self, binary_type: &BinaryType)
        requires
            old(self).wf(),
        ensures
            final(self).wf(),
            final(self).chain() == old(self).chain().update(
                0,
                emitted(old(self).frame(), binary_code(*binary_type)),
            ),
    {
        proof {
            self.lemma_chain();
            assert(frame_ok(self.chain()[0]));
        }
        self.function.chunk.emit_binary(binary_type);
        proof {
            assert(self.frame() == emitted(old(self).frame(), binary_code(*binary_type)));
            self.lemma_frame_changed(old(self).chain(), old(self).frame());
        }
    }

    /// Adds `value` to the function's constants and returns its slot, or fails when
    /// the slot does not fit in a byte (the value is added all the same).
    pub fn make_constant(&mut self, value: Value<N>) -> (r: Result<Constant>)
        requires
            old(self).wf(),
        ensures
            final(self).wf(),
            final(self).chain() == old(self).chain().update(0, with_constant(old(self).frame(), value)),
            old(self).frame().function.constants.len() <= 255 ==> r == Ok::<Constant, BanjoError>(
                Constant { slot: old(self).frame().function.constants.len() as u8 },
            ),
            old(self).frame().function.constants.len() > 255 ==> fails_to_compile(r, too_many_constants()),
    {
        proof {
            self.lemma_chain();
            assert(frame_ok(self.chain()[0]));
        }
        let r = self.function.chunk.make_constant(value);
        proof {
            assert(self.frame() == with_constant(old(self).frame(), value));
            self.lemma_frame_changed(old(self).chain(), old(self).frame());
        }
        r
    }

    /// Writes the code that loads a literal.
    pub fn literal(&mut self, gc: &mut Gc, value: &LiteralType<N>) -> (r: Result<()>)
        requires
            old(self).wf(),
            old(gc).wf(),
            value matches LiteralType::String(s) ==> old(gc).is_interned(s@) || old(gc).has_room(),
        ensures
            final(self).wf(),
            final(gc).wf(),
            value matches LiteralType::String(s) ==> old(gc).interned_into(
                *final(gc),
                s@,
                final(self).frame().function.constants.last()->String_0.slot(),
            ),
            !(value is String) ==> *final(gc) == *old(gc),
            final(self).chain() == old(self).chain().update(0, final(self).frame()),
            final(self).frame().locals == old(self).frame().locals,
            final(self).frame().scope_depth == old(self).frame().scope_depth,
            final(self).frame().function.name == old(self).frame().function.name,
            final(self).frame().function.arity == old(self).frame().function.arity,
            match *value {
                LiteralType::Bool(b) => {
                    &&& r is Ok
                    &&& final(self).frame() == emitted(
                        old(self).frame(),
                        seq![
                            if b {
                                OpCode::True
                            } else {
                                OpCode::False
                            },
                        ],
                    )
                },
                LiteralType::Nil => {
                    &&& r is Ok
                    &&& final(self).frame() == emitted(old(self).frame(), seq![OpCode::Nil])
                },
                LiteralType::Number(n) => constant_loaded(
                    old(self).frame().function.code,
                    old(self).frame().function.constants,
                    final(self).frame().function.code,
                    final(self).frame().function.constants,
                    Value::Number(n),
                    r,
                ),
                LiteralType::String(_) => constant_loaded(
                    old(self).frame().function.code,
                    old(self).frame().function.constants,
                    final(self).frame().function.code,
                    final(self).frame().function.constants,
                    final(self).frame().function.constants.last(),
                    r,
                ) && final(self).frame().function.constants.last() is String,
            },
    {
        proof {
            self.lemma_chain();
            assert(frame_ok(self.chain()[0]));
        }
        let r = self.function.chunk.literal(gc, value);
        proof {
            self.lemma_frame_changed(old(self).chain(), old(self).frame());
            match *value {
                LiteralType::Bool(b) => {
                    assert(self.frame().function.code =~= old(self).frame().function.code + seq![
                        if b {
                            OpCode::True
                        } else {
                            OpCode::False
                        },
                    ]);
                },
                LiteralType::Nil => {
                    assert(self.frame().function.code =~= old(self).frame().function.code + seq![OpCode::Nil]);
                },
                _ => {},
            }
        }
        r
    }

    /// Takes the enclosing compiler away, leaving this one alone in its chain.
    pub fn take_enclosing(&mut self) -> (e: Option<Box<FuncCompiler<'ast, N>>>)
        requires
            old(self).wf(),
        ensures
            final(self).wf(),
            final(self).chain() == seq![old(self).frame()],
            match e {
                Some(b) => old(self).chain() == seq![old(self).frame()] + b.chain() && b.wf(),
                None => old(self).chain() == seq![old(self).frame()],
            },
    {
        proof {
            self.lemma_chain();
            assert(frame_ok(self.chain()[0]));
        }
        let e = self.enclosing.take();
        proof {
            self.lemma_chain();
            assert(frame_ok(old(self).chain()[0]));
            if e is Some {
                let b = e->Some_0;
                assert forall|i: int| 0 <= i < b.chain().len() implies #[trigger] frame_ok(b.chain()[i]) by {
                    assert(b.chain()[i] == old(self).chain()[i + 1]);
                }
            }
        }
        e
    }

    /// Makes `enclosing` the compiler that encloses this one.
    pub fn set_enclosing(&mut self, enclosing: Option<Box<FuncCompiler<'ast, N>>>)
        requires
            old(self).wf(),
            enclosing matches Some(b) ==> b.wf(),
        ensures
            final(self).wf(),
            final(self).chain() == seq![old(self).frame()] + match enclosing {
                Some(b) => b.chain(),
                None => Seq::empty(),
            },
    {
        proof {
            self.lemma_chain();
            assert(frame_ok(old(self).chain()[0]));
        }
        let ghost g = enclosing;
        self.enclosing = enclosing;
        proof {
            self.lemma_chain();
            if g is Some {
                let b = g->Some_0;
                assert forall|i: int| 0 <= i < self.chain().len() implies #[trigger] frame_ok(self.chain()[i]) by {
                    if i > 0 {
                        assert(self.chain()[i] == b.chain()[i - 1]);
                    }
                }
            } else {
                assert(self.chain() =~= seq![old(self).frame()] + Seq::<FrameView<N>>::empty());
            }
        }
    }

    /// The function compiled so far.
    pub fn into_function(self) -> (f: Function<N>)
        ensures
            function_view(f) == self.frame().function,
    {
        self.function
    }
}

/// The local declared last is the one a lookup of its id finds.
pub proof fn last_declared_local_is_found(locals: Seq<LocalView>, id: Seq<u8>, depth: Option<u32>)
    ensures
        innermost(locals.push(LocalView { id, depth }), id) == locals.len(),
{
    assert(locals.push(LocalView { id, depth }).last().id == id);
}

} // verus!
