use vstd::prelude::*;

use crate::error::{LoxError, Result};
use crate::gc::GcRef;
use crate::obj::LoxString;
use crate::op_code::{LocalIndex, UpvalueIndex};
use crate::parser::same_text;
use crate::scanner::Token;
use vstd::string::StringSliceAdditionalSpecFns;

verus! {

/// A local variable as plain values: the bytes of its name, the depth of the
/// scope that defined it (`None` while declared but not defined) and whether a
/// closure captures it.
pub struct LocalView {
    pub name: Seq<u8>,
    pub depth: Option<u32>,
    pub is_captured: bool,
}

/// One function being compiled, as plain values.
pub struct FrameView {
    pub locals: Seq<LocalView>,
    pub upvalues: Seq<Upvalue>,
    pub scope_depth: u32,
}

/// What a lookup of a name comes to: an error with its message, nothing found,
/// or a slot.
pub enum Resolved {
    Failed(Seq<char>),
    Missing,
    Slot(u8),
}

/// `r` is what `outcome` says.
pub open spec fn comes_to(r: Result<Option<u8>>, outcome: Resolved) -> bool {
    match outcome {
        Resolved::Failed(msg) => r matches Err(LoxError::CompileError(m)) && m@ == msg,
        Resolved::Missing => r matches Ok(None),
        Resolved::Slot(i) => r matches Ok(Some(j)) && j == i,
    }
}

/// The index of the innermost local named `name`, or -1.
pub open spec fn innermost_local(locals: Seq<LocalView>, name: Seq<u8>) -> int
    decreases locals.len(),
{
    if locals.len() == 0 {
        -1
    } else if locals.last().name == name {
        locals.len() - 1
    } else {
        innermost_local(locals.drop_last(), name)
    }
}

/// What looking up `name` among the locals comes to.
pub open spec fn local_lookup(locals: Seq<LocalView>, name: Seq<u8>) -> Resolved {
    let i = innermost_local(locals, name);
    if i < 0 {
        Resolved::Missing
    } else if locals[i].depth is None {
        Resolved::Failed("Can't read local variable in its own initializer."@)
    } else {
        Resolved::Slot(i as u8)
    }
}

/// The index of the first upvalue that captures `index` (as a local of the
/// enclosing function or not), or -1.
pub open spec fn first_upvalue(upvalues: Seq<Upvalue>, index: u8, is_local: bool) -> int
    decreases upvalues.len(),
{
    if upvalues.len() == 0 {
        -1
    } else {
        let r = first_upvalue(upvalues.drop_last(), index, is_local);
        if r >= 0 {
            r
        } else if upvalues.last().index == index && upvalues.last().is_local == is_local {
            upvalues.len() - 1
        } else {
            -1
        }
    }
}

/// The frame and outcome of adding an upvalue: the existing one if any, else a
/// new one, unless the function already has 256.
pub open spec fn add_upvalue_outcome(f: FrameView, index: u8, is_local: bool) -> (FrameView, Resolved) {
    let i = first_upvalue(f.upvalues, index, is_local);
    if i >= 0 {
        (f, Resolved::Slot(i as u8))
    } else if f.upvalues.len() == 256 {
        (f, Resolved::Failed("Too many closure variables in function."@))
    } else {
        (
            FrameView { upvalues: f.upvalues.push(Upvalue { index, is_local }), ..f },
            Resolved::Slot(f.upvalues.len() as u8),
        )
    }
}

/// The frames and outcome of resolving `name` as a variable captured from the
/// functions that enclose `chain[0]`: a local of the nearest enclosing function
/// is marked captured, and each function between it and `chain[0]` gets an upvalue
/// for it.
pub open spec fn resolve_upvalue_outcome(chain: Seq<FrameView>, name: Seq<u8>) -> (Seq<FrameView>, Resolved)
    decreases chain.len(),
{
    if chain.len() <= 1 {
        (chain, Resolved::Missing)
    } else {
        let enclosing = chain[1];
        let i = innermost_local(enclosing.locals, name);
        match local_lookup(enclosing.locals, name) {
            Resolved::Failed(msg) => (chain, Resolved::Failed(msg)),
            Resolved::Slot(_) => {
                let captured = FrameView {
                    locals: enclosing.locals.update(i, LocalView { is_captured: true, ..enclosing.locals[i] }),
                    ..enclosing
                };
                let (f, r) = add_upvalue_outcome(chain[0], i as u8, true);
                (chain.update(0, f).update(1, captured), r)
            },
            Resolved::Missing => {
                let (rest, r) = resolve_upvalue_outcome(chain.drop_first(), name);
                match r {
                    Resolved::Slot(up) => {
                        let (f, r2) = add_upvalue_outcome(chain[0], up, false);
                        (seq![f] + rest, r2)
                    },
                    _ => (seq![chain[0]] + rest, r),
                }
            },
        }
    }
}

/// A frame's limits: at most 256 locals and 256 upvalues.
pub open spec fn frame_ok(f: FrameView) -> bool {
    f.locals.len() <= 256 && f.upvalues.len() <= 256
}

/// A compiler for a graph, including the implicit top-level function, <script>
pub struct GraphCompiler<'source> {
    pub enclosing: Option<Box<GraphCompiler<'source>>>,
    /// The name of the graph being compiled (`None` for the script).
    pub graph_name: Option<GcRef<LoxString>>,
    /// The variables the graph captures from enclosing graphs
    upvalues: Vec<Upvalue>,
    /// Keeps track of which stack slots are associated with which local variables or temporaries
    locals: Vec<Local<'source>>,
    /// The number of blocks surrounding the current bit of code
    scope_depth: u32,
}

/// A local variable of the graph being compiled.
pub struct Local<'source> {
    name: Token<'source>,
    /// The scope depth of the block where the local variable was declared
    /// None means declared but not defined
    depth: Option<u32>,
    pub is_captured: bool,
}

/// A variable captured from an enclosing graph: its slot there, and whether that
/// slot is a local of the enclosing graph or one of its own upvalues.
#[derive(Clone, Copy, PartialEq, Eq, Structural, Debug)]
pub struct Upvalue {
    pub index: u8,
    pub is_local: bool,
}

impl<'source> View for Local<'source> {
    type V = LocalView;

    closed spec fn view(&self) -> LocalView {
        LocalView { name: self.name.lexeme.spec_bytes(), depth: self.depth, is_captured: self.is_captured }
    }
}

impl<'source> Local<'source> {
    fn is_initialized(&self) -> (r: bool)
        ensures
            r == self@.depth is Some,
    {
        self.depth.is_some()
    }

    fn mark_initialized(&mut self, depth: u32)
        ensures
            final(self)@ == (LocalView { depth: Some(depth), ..old(self)@ }),
    {
        self.depth = Some(depth)
    }
}

impl<'source> GraphCompiler<'source> {
    /// This graph's own frame.
    pub closed spec fn frame(&self) -> FrameView {
        FrameView {
            locals: self.locals@.map_values(|l: Local<'source>| l@),
            upvalues: self.upvalues@,
            scope_depth: self.scope_depth,
        }
    }

    /// The name of the graph being compiled.
    pub closed spec fn name(&self) -> Option<GcRef<LoxString>> {
        self.graph_name
    }

    /// The frames of this graph and of the graphs that enclose it, innermost first.
    pub closed spec fn chain(&self) -> Seq<FrameView>
        decreases self,
    {
        match self.enclosing {
            Some(e) => seq![self.frame()] + e.chain(),
            None => seq![self.frame()],
        }
    }

    /// The invariant: every frame of the chain keeps within its limits.
    pub closed spec fn wf(&self) -> bool {
        forall|i: int| 0 <= i < self.chain().len() ==> #[trigger] frame_ok(self.chain()[i])
    }

    proof fn lemma_chain(&self)
        ensures
            self.chain().len() >= 1,
            self.chain()[0] == self.frame(),
            self.enclosing matches Some(e) ==> self.chain().drop_first() == e.chain(),
            self.enclosing is None ==> self.chain().len() == 1,
    {
        match self.enclosing {
            Some(e) => {
                assert((seq![self.frame()] + e.chain()).drop_first() =~= e.chain());
            },
            None => {},
        }
    }

    /// A compiler for a graph with the given name, with slot zero claimed and no
    /// enclosing graph.
    pub fn new(graph_name: Option<GcRef<LoxString>>) -> (c: Self)
        ensures
            c.wf(),
            c.name() == graph_name,
            c.chain() == seq![
                FrameView {
                    locals: seq![LocalView { name: Seq::empty(), depth: Some(0), is_captured: false }],
                    upvalues: Seq::empty(),
                    scope_depth: 0,
                },
            ],
    {
        let mut locals = Vec::new();
        // Claim stack slot zero for the VM's own internal use
        let name = Token::none();
        locals.push(Local { name, depth: Some(0), is_captured: false });
        let c = Self { enclosing: None, graph_name, upvalues: Vec::new(), locals, scope_depth: 0 };
        proof {
            assert(c.frame().locals =~= seq![LocalView { name: Seq::empty(), depth: Some(0), is_captured: false }]);
            assert(c.frame().upvalues =~= Seq::<Upvalue>::empty());
        }
        c
    }

    /// Enters a nested scope.
    pub fn begin_scope(&mut self)
        requires
            old(self).wf(),
            old(self).frame().scope_depth < u32::MAX,
        ensures
            final(self).wf(),
            final(self).chain() == old(self).chain().update(
                0,
                FrameView { scope_depth: (old(self).frame().scope_depth + 1) as u32, ..old(self).frame() },
            ),
    {
        proof {
            self.lemma_chain();
        }
        self.scope_depth += 1;
        proof {
            self.lemma_chain();
            assert(self.chain() =~= old(self).chain().update(0, self.frame()));
            assert(frame_ok(old(self).chain()[0]));
            lemma_update_ok(old(self).chain(), 0, self.frame());
        }
    }

    /// Leaves the innermost scope.
    pub fn end_scope(&mut self)
        requires
            old(self).wf(),
            old(self).frame().scope_depth > 0,
        ensures
            final(self).wf(),
            final(self).chain() == old(self).chain().update(
                0,
                FrameView { scope_depth: (old(self).frame().scope_depth - 1) as u32, ..old(self).frame() },
            ),
    {
        proof {
            self.lemma_chain();
        }
        self.scope_depth -= 1;
        proof {
            self.lemma_chain();
            assert(self.chain() =~= old(self).chain().update(0, self.frame()));
            assert(frame_ok(old(self).chain()[0]));
            lemma_update_ok(old(self).chain(), 0, self.frame());
        }
    }

    /// Declares a local named by `name`, not yet defined; fails when the graph
    /// already has 256 locals.
    pub fn add_local(&mut self, name: Token<'source>) -> (r: Result<()>)
        requires
            old(self).wf(),
        ensures
            final(self).wf(),
            old(self).frame().locals.len() == 256 ==> {
                &&& r matches Err(LoxError::CompileError(m)) && m@ == "Too many local variables in function."@
                &&& final(self).chain() == old(self).chain()
            },
            old(self).frame().locals.len() < 256 ==> {
                &&& r is Ok
                &&& final(self).chain() == old(self).chain().update(
                    0,
                    FrameView {
                        locals: old(self).frame().locals.push(
                            LocalView { name: name@.text, depth: None, is_captured: false },
                        ),
                        ..old(self).frame()
                    },
                )
            },
    {
        proof {
            self.lemma_chain();
        }
        if self.locals.len() == 256 {
            return Err(LoxError::CompileError("Too many local variables in function."));
        }
        // Only "declare" for now, by assigning sentinel value
        let ghost before = self.frame();
        self.locals.push(Local { name, depth: None, is_captured: false });
        proof {
            self.lemma_chain();
            assert(self.frame().locals =~= before.locals.push(
                LocalView { name: name@.text, depth: None, is_captured: false },
            ));
            assert(self.chain() =~= old(self).chain().update(0, self.frame()));
            assert(frame_ok(old(self).chain()[0]));
            lemma_update_ok(old(self).chain(), 0, self.frame());
        }
        Ok(())
    }

    /// The upvalue slot that captures `index`: an existing one, or a new one unless
    /// the graph already has 256.
    fn add_upvalue(&mut self, index: u8, is_local: bool) -> (r: Result<UpvalueIndex>)
        requires
            old(self).wf(),
        ensures
            final(self).wf(),
            final(self).chain() == old(self).chain().update(
                0,
                add_upvalue_outcome(old(self).frame(), index, is_local).0,
            ),
            comes_to(
                match r {
                    Ok(i) => Ok(Some(i)),
                    Err(e) => Err(e),
                },
                add_upvalue_outcome(old(self).frame(), index, is_local).1,
            ),
    {
        proof {
            self.lemma_chain();
            assert(frame_ok(self.chain()[0]));
        }
        let ghost ups = self.upvalues@;
        // Search for the upvalue first, for cases where a closure references a variable
        // in the surrounding graph many times
        let count = self.upvalues.len();
        let mut i: usize = 0;
        while i < count
            invariant
                self.wf(),
                ups == self.upvalues@,
                count == ups.len(),
                count <= 256,
                i <= count,
                first_upvalue(ups.subrange(0, i as int), index, is_local) == -1,
            decreases count - i,
        {
            let upvalue = &self.upvalues[i];
            proof {
                assert(ups.subrange(0, i + 1).drop_last() =~= ups.subrange(0, i as int));
            }
            if upvalue.index == index && upvalue.is_local == is_local {
                proof {
                    lemma_first_upvalue_prefix(ups, index, is_local, i + 1);
                }
                return Ok(i as UpvalueIndex);
            }
            i += 1;
        }
        proof {
            assert(ups.subrange(0, count as int) =~= ups);
        }
        if count == 256 {
            return Err(LoxError::CompileError("Too many closure variables in function."));
        }
        let upvalue = Upvalue { index, is_local };
        self.upvalues.push(upvalue);
        proof {
            self.lemma_chain();
            assert(self.chain() =~= old(self).chain().update(0, self.frame()));
            assert(frame_ok(old(self).chain()[0]));
            lemma_update_ok(old(self).chain(), 0, self.frame());
            assert(self.frame() == add_upvalue_outcome(old(self).frame(), index, is_local).0);
        }
        Ok(count as UpvalueIndex)
    }

    /// Defines the innermost local at the current depth.
    pub fn mark_var_initialized(&mut self)
        requires
            old(self).wf(),
            old(self).frame().scope_depth > 0,
            old(self).frame().locals.len() > 0,
        ensures
            final(self).wf(),
            final(self).chain() == old(self).chain().update(
                0,
                FrameView {
                    locals: old(self).frame().locals.update(
                        old(self).frame().locals.len() - 1,
                        LocalView {
                            depth: Some(old(self).frame().scope_depth),
                            ..old(self).frame().locals.last()
                        },
                    ),
                    ..old(self).frame()
                },
            ),
    {
        proof {
            self.lemma_chain();
        }
        let ghost before = self.frame();
        // Now "define"
        let n = self.locals.len();
        let depth = self.scope_depth;
        self.locals[n - 1].mark_initialized(depth);
        proof {
            self.lemma_chain();
            assert(self.frame().locals =~= before.locals.update(
                n - 1,
                LocalView { depth: Some(depth), ..before.locals.last() },
            ));
            assert(self.chain() =~= old(self).chain().update(0, self.frame()));
            assert(frame_ok(old(self).chain()[0]));
            lemma_update_ok(old(self).chain(), 0, self.frame());
        }
    }

    /// Drops the innermost local.
    pub fn remove_local(&mut self)
        requires
            old(self).wf(),
        ensures
            final(self).wf(),
            old(self).frame().locals.len() > 0 ==> final(self).chain() == old(self).chain().update(
                0,
                FrameView { locals: old(self).frame().locals.drop_last(), ..old(self).frame() },
            ),
            old(self).frame().locals.len() == 0 ==> final(self).chain() == old(self).chain(),
    {
        proof {
            self.lemma_chain();
        }
        let ghost before = self.frame();
        if self.locals.len() > 0 {
            self.locals.pop();
        }
        proof {
            self.lemma_chain();
            if before.locals.len() > 0 {
                assert(self.frame().locals =~= before.locals.drop_last());
            } else {
                assert(self.frame() == before);
            }
            assert(self.chain() =~= old(self).chain().update(0, self.frame()));
            assert(frame_ok(old(self).chain()[0]));
            lemma_update_ok(old(self).chain(), 0, self.frame());
        }
    }

    /// The slot of the innermost local named by `name`, if any; it is an error to
    /// read a local that is declared but not yet defined.
    pub fn resolve_local(&mut self, name: Token) -> (r: Result<Option<LocalIndex>>)
        requires
            old(self).wf(),
        ensures
            *final(self) == *old(self),
            comes_to(r, local_lookup(old(self).frame().locals, name@.text)),
    {
        proof {
            self.lemma_chain();
        }
        let ghost locals = self.frame().locals;
        let ghost k = name@.text;
        proof {
            assert(frame_ok(self.chain()[0]));
            assert(locals.subrange(0, locals.len() as int) =~= locals);
        }
        let mut i = self.locals.len();
        while i > 0
            invariant
                locals == self.frame().locals,
                k == name@.text,
                i <= locals.len() <= 256,
                innermost_local(locals, k) == innermost_local(locals.subrange(0, i as int), k),
            decreases i,
        {
            let local = &self.locals[i - 1];
            let ghost prefix = locals.subrange(0, i as int);
            proof {
                assert(prefix.last() == locals[i - 1]);
                assert(locals[i - 1] == self.locals@[i - 1]@);
            }
            if same_text(name.lexeme, local.name.lexeme) {
                return if local.is_initialized() {
                    Ok(Some((i - 1) as u8))
                } else {
                    Err(LoxError::CompileError("Can't read local variable in its own initializer."))
                };
            }
            proof {
                assert(prefix.drop_last() =~= locals.subrange(0, i - 1));
            }
            i -= 1;
        }
        Ok(None)
    }

    /// Marks the local in slot `index` as captured by a closure.
    fn capture_local(&mut self, index: u8)
        requires
            old(self).wf(),
            index < old(self).frame().locals.len(),
        ensures
            final(self).wf(),
            final(self).chain() == old(self).chain().update(
                0,
                FrameView {
                    locals: old(self).frame().locals.update(
                        index as int,
                        LocalView { is_captured: true, ..old(self).frame().locals[index as int] },
                    ),
                    ..old(self).frame()
                },
            ),
    {
        proof {
            self.lemma_chain();
        }
        let ghost before = self.frame();
        let i = index as usize;
        let local = Local { name: self.locals[i].name, depth: self.locals[i].depth, is_captured: true };
        self.locals.set(i, local);
        proof {
            self.lemma_chain();
            assert(self.frame().locals =~= before.locals.update(
                i as int,
                LocalView { is_captured: true, ..before.locals[i as int] },
            ));
            assert(self.chain() =~= old(self).chain().update(0, self.frame()));
            assert(frame_ok(old(self).chain()[0]));
            lemma_update_ok(old(self).chain(), 0, self.frame());
        }
    }

    /// The upvalue slot through which this graph reads the variable named by
    /// `name` from an enclosing graph, if any.
    pub fn resolve_upvalue(&mut self, name: Token) -> (r: Result<Option<UpvalueIndex>>)
        requires
            old(self).wf(),
        ensures
            final(self).wf(),
            final(self).chain() == resolve_upvalue_outcome(old(self).chain(), name@.text).0,
            comes_to(r, resolve_upvalue_outcome(old(self).chain(), name@.text).1),
        decreases old(self).chain().len(),
    {
        proof {
            self.lemma_chain();
        }
        let ghost chain = self.chain();
        let ghost k = name@.text;
        let ghost out = resolve_upvalue_outcome(chain, k);
        match self.enclosing.take() {
            None => Ok(None),
            Some(mut enclosing) => {
                let ghost rest = chain.drop_first();
                let ghost slot = innermost_local(chain[1].locals, k);
                proof {
                    assert(rest == enclosing.chain());
                    enclosing.lemma_chain();
                    assert(enclosing.frame() == chain[1]);
                    assert(enclosing.wf()) by {
                        assert forall|i: int| 0 <= i < enclosing.chain().len() implies #[trigger] frame_ok(
                            enclosing.chain()[i],
                        ) by {
                            assert(enclosing.chain()[i] == chain[i + 1]);
                        }
                    }
                    assert(self.frame() == chain[0]);
                    assert(self.chain() =~= seq![chain[0]]);
                    assert(frame_ok(chain[0]));
                    assert(frame_ok(chain[1]));
                    lemma_innermost_local(chain[1].locals, k);
                }
                let r = match enclosing.resolve_local(name) {
                    Err(e) => {
                        proof {
                            assert(local_lookup(chain[1].locals, k) is Failed);
                            assert(seq![chain[0]] + enclosing.chain() =~= out.0);
                        }
                        Err(e)
                    },
                    Ok(Some(index)) => {
                        proof {
                            assert(local_lookup(chain[1].locals, k) is Slot);
                            assert(index == slot);
                        }
                        enclosing.capture_local(index);
                        let r = match self.add_upvalue(index, true) {
                            Ok(up) => Ok(Some(up)),
                            Err(e) => Err(e),
                        };
                        proof {
                            self.lemma_chain();
                            enclosing.lemma_chain();
                            assert(seq![self.frame()] + enclosing.chain() =~= out.0);
                        }
                        r
                    },
                    Ok(None) => {
                        proof {
                            assert(local_lookup(chain[1].locals, k) is Missing);
                        }
                        match enclosing.resolve_upvalue(name) {
                            Err(e) => {
                                proof {
                                    assert(seq![chain[0]] + enclosing.chain() =~= out.0);
                                }
                                Err(e)
                            },
                            Ok(None) => {
                                proof {
                                    assert(seq![chain[0]] + enclosing.chain() =~= out.0);
                                }
                                Ok(None)
                            },
                            Ok(Some(upvalue)) => {
                                let r = match self.add_upvalue(upvalue, false) {
                                    Ok(up) => Ok(Some(up)),
                                    Err(e) => Err(e),
                                };
                                proof {
                                    self.lemma_chain();
                                    assert(seq![self.frame()] + enclosing.chain() =~= out.0);
                                }
                                r
                            },
                        }
                    },
                };
                let ghost mid = enclosing.chain();
                let ghost me = self.frame();
                proof {
                    self.lemma_chain();
                    assert(self.chain() == seq![me]);
                    assert(frame_ok(me)) by {
                        assert(frame_ok(self.chain()[0]));
                    }
                    assert(seq![me] + mid =~= out.0);
                }
                self.enclosing = Some(enclosing);
                proof {
                    self.lemma_chain();
                    assert(self.chain() =~= seq![me] + mid);
                    assert forall|i: int| 0 <= i < self.chain().len() implies #[trigger] frame_ok(self.chain()[i]) by {
                        if i > 0 {
                            assert(self.chain()[i] == mid[i - 1]);
                            assert(frame_ok(mid[i - 1]));
                        }
                    }
                }
                r
            },
        }
    }

    /// Is the current scope a non-global scope?
    pub fn is_local_scope(&self) -> (r: bool)
        ensures
            r == (self.frame().scope_depth > 0),
    {
        self.scope_depth > 0
    }

    /// The innermost local.
    pub fn get_local(&self) -> (l: &Local)
        requires
            self.frame().locals.len() > 0,
        ensures
            l@ == self.frame().locals.last(),
    {
        let n = self.locals.len();
        &self.locals[n - 1]
    }

    /// Are there locals stored in the current scope?
    pub fn has_local_in_scope(&self) -> (r: bool)
        ensures
            r == (self.frame().locals.len() > 0 && defined_at_least(
                self.frame().locals.last().depth,
                self.frame().scope_depth,
            )),
    {
        let n = self.locals.len();
        if n == 0 {
            return false;
        }
        proof {
            assert(self.frame().locals.last() == self.locals@[n - 1]@);
        }
        match self.locals[n - 1].depth {
            Some(depth) => depth >= self.scope_depth,
            None => false,
        }
    }

    /// Whether a local named by `name` is already declared in the current scope.
    pub fn is_local_already_in_scope(&self, name: Token) -> (r: bool)
        ensures
            r == declared_in_scope(self.frame().locals, name@.text, self.frame().scope_depth),
    {
        let ghost locals = self.frame().locals;
        let ghost k = name@.text;
        let mut i = self.locals.len();
        // Search for a variable with the same name in the current scope
        while i > 0
            invariant
                locals == self.frame().locals,
                k == name@.text,
                i <= locals.len(),
                within_scope(locals, i as int, self.scope_depth),
                forall|j: int| i <= j < locals.len() ==> locals[j].name != k,
            decreases i,
        {
            let local = &self.locals[i - 1];
            proof {
                assert(locals[i - 1] == self.locals@[i - 1]@);
            }
            if let Some(depth) = local.depth {
                if depth < self.scope_depth {
                    proof {
                        assert forall|j: int| 0 <= j < locals.len() && #[trigger] locals[j].name == k implies !within_scope(
                            locals,
                            j,
                            self.scope_depth,
                        ) by {
                            assert(j < i);
                            assert(locals[i - 1].depth matches Some(d) && d < self.scope_depth);
                        }
                    }
                    return false;
                }
            }
            if same_text(name.lexeme, local.name.lexeme) {
                proof {
                    assert(locals[i - 1].name == k);
                    assert(within_scope(locals, i - 1, self.scope_depth));
                }
                return true;
            }
            i -= 1;
        }
        false
    }
}

/// A local with this depth was defined at `depth` or deeper.
pub open spec fn defined_at_least(d: Option<u32>, depth: u32) -> bool {
    match d {
        Some(x) => x >= depth,
        None => false,
    }
}

/// No local from `j` on was defined in a scope enclosing the one at `depth`.
pub open spec fn within_scope(locals: Seq<LocalView>, j: int, depth: u32) -> bool {
    forall|k: int| j <= k < locals.len() ==> !(#[trigger] locals[k].depth matches Some(d) && d < depth)
}

/// A local named `name` is declared in the scope at `depth`: walking out from the
/// innermost local, it is met before any local of an enclosing scope.
pub open spec fn declared_in_scope(locals: Seq<LocalView>, name: Seq<u8>, depth: u32) -> bool {
    exists|j: int| 0 <= j < locals.len() && #[trigger] locals[j].name == name && within_scope(locals, j, depth)
}

proof fn lemma_update_ok(c: Seq<FrameView>, i: int, f: FrameView)
    requires
        forall|j: int| 0 <= j < c.len() ==> #[trigger] frame_ok(c[j]),
        frame_ok(f),
        0 <= i < c.len(),
    ensures
        forall|j: int| 0 <= j < c.update(i, f).len() ==> #[trigger] frame_ok(c.update(i, f)[j]),
{
    assert forall|j: int| 0 <= j < c.update(i, f).len() implies #[trigger] frame_ok(c.update(i, f)[j]) by {
        if j != i {
            assert(frame_ok(c[j]));
        }
    }
}

proof fn lemma_innermost_local(locals: Seq<LocalView>, name: Seq<u8>)
    ensures
        -1 <= innermost_local(locals, name) < locals.len(),
        innermost_local(locals, name) >= 0 ==> locals[innermost_local(locals, name)].name == name,
    decreases locals.len(),
{
    if locals.len() > 0 {
        lemma_innermost_local(locals.drop_last(), name);
    }
}

proof fn lemma_first_upvalue_prefix(ups: Seq<Upvalue>, index: u8, is_local: bool, n: int)
    requires
        0 < n <= ups.len(),
        first_upvalue(ups.subrange(0, n - 1), index, is_local) == -1,
        ups[n - 1].index == index && ups[n - 1].is_local == is_local,
    ensures
        first_upvalue(ups, index, is_local) == n - 1,
    decreases ups.len(),
{
    if ups.len() == n {
        assert(ups.drop_last() =~= ups.subrange(0, n - 1));
    } else {
        assert(ups.drop_last().subrange(0, n - 1) =~= ups.subrange(0, n - 1));
        lemma_first_upvalue_prefix(ups.drop_last(), index, is_local, n);
    }
}

/// A local that was declared and then defined is found by name, in the slot it
/// was given, as long as no later local shadows it.
pub proof fn defined_local_resolves(locals: Seq<LocalView>, name: Seq<u8>, depth: u32)
    ensures
        local_lookup(locals.push(LocalView { name, depth: Some(depth), is_captured: false }), name)
            == Resolved::Slot(locals.len() as u8),
{
    let l = locals.push(LocalView { name, depth: Some(depth), is_captured: false });
    assert(l.last().name == name);
}

/// Reading a local in its own initializer, declared but not yet defined, is an
/// error.
pub proof fn undefined_local_is_an_error(locals: Seq<LocalView>, name: Seq<u8>)
    ensures
        local_lookup(locals.push(LocalView { name, depth: None, is_captured: false }), name)
            == Resolved::Failed("Can't read local variable in its own initializer."@),
{
    let l = locals.push(LocalView { name, depth: None, is_captured: false });
    assert(l.last().name == name);
}

/// Capturing the same variable twice gives the same upvalue slot and adds no
/// second upvalue.
pub proof fn add_upvalue_is_idempotent(f: FrameView, index: u8, is_local: bool)
    requires
        frame_ok(f),
        add_upvalue_outcome(f, index, is_local).1 is Slot,
    ensures
        add_upvalue_outcome(add_upvalue_outcome(f, index, is_local).0, index, is_local) == (
            add_upvalue_outcome(f, index, is_local).0,
            add_upvalue_outcome(f, index, is_local).1,
        ),
{
    let i = first_upvalue(f.upvalues, index, is_local);
    if i < 0 {
        let ups = f.upvalues.push(Upvalue { index, is_local });
        assert(ups.drop_last() =~= f.upvalues);
        assert(first_upvalue(ups, index, is_local) == f.upvalues.len());
    }
}

} // verus!
