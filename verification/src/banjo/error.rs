use vstd::prelude::*;

verus! {

/// Nodes are named by their id.
pub type NodeId = String;

pub type Result<T> = std::result::Result<T, BanjoError>;

/// An error from compiling or running a Banjo program.
#[derive(Debug)]
pub enum BanjoError {
    Compile(String),
    /// A compile error with a known node
    Node((NodeId, String)),
    Runtime(String),
}

/// `e` is a compile error with message `msg`.
pub open spec fn is_compile(e: BanjoError, msg: Seq<char>) -> bool {
    e matches BanjoError::Compile(m) && m@ == msg
}

/// `e` is an error at node `node_id` with message `msg`.
pub open spec fn is_node(e: BanjoError, node_id: Seq<char>, msg: Seq<char>) -> bool {
    e matches BanjoError::Node((n, m)) && n@ == node_id && m@ == msg
}

/// `e` is a runtime error with message `msg`.
pub open spec fn is_runtime(e: BanjoError, msg: Seq<char>) -> bool {
    e matches BanjoError::Runtime(m) && m@ == msg
}

impl BanjoError {
    pub fn compile(msg: &str) -> (e: Self)
        ensures
            is_compile(e, msg@),
    {
        Self::Compile(msg.to_owned())
    }

    pub fn compile_err<T>(msg: &str) -> (r: Result<T>)
        ensures
            r matches Err(e) && is_compile(e, msg@),
    {
        Err(Self::compile(msg))
    }

    pub fn node(node_id: &str, msg: &str) -> (e: Self)
        ensures
            is_node(e, node_id@, msg@),
    {
        Self::Node((node_id.to_owned(), msg.to_owned()))
    }

    pub fn node_err<T>(node_id: &str, msg: &str) -> (r: Result<T>)
        ensures
            r matches Err(e) && is_node(e, node_id@, msg@),
    {
        Err(Self::node(node_id, msg))
    }

    pub fn runtime(msg: &str) -> (e: Self)
        ensures
            is_runtime(e, msg@),
    {
        Self::Runtime(msg.to_owned())
    }

    pub fn runtime_err<T>(msg: &str) -> (r: Result<T>)
        ensures
            r matches Err(e) && is_runtime(e, msg@),
    {
        Err(Self::runtime(msg))
    }

    /// Attaches a node to a compile error.
    fn node_context(self, node_id: &str) -> (e: BanjoError)
        requires
            self is Compile,
        ensures
            is_node(e, node_id@, self->Compile_0@),
    {
        match self {
            Self::Compile(s) => Self::Node((node_id.to_owned(), s)),
            _ => {
                proof {
                    assert(false);
                }
                self
            },
        }
    }
}

/// `r` failed with a compile error with message `msg`.
pub open spec fn fails_to_compile<T>(r: Result<T>, msg: Seq<char>) -> bool {
    match r {
        Err(e) => is_compile(e, msg),
        Ok(_) => false,
    }
}

/// `r` failed with an error at node `node_id` and message `msg`.
pub open spec fn fails_at_node<T>(r: Result<T>, node_id: Seq<char>, msg: Seq<char>) -> bool {
    match r {
        Err(e) => is_node(e, node_id, msg),
        Ok(_) => false,
    }
}

/// Attaching a node to the compile error of a result.
pub trait Context<T>: Sized {
    /// A node can be attached: there is no error, or it is a compile error.
    spec fn can_attach(&self) -> bool;

    /// There is an error.
    spec fn failed(&self) -> bool;

    /// `r` is this result with the node `node_id` attached to its error.
    spec fn attached(&self, node_id: Seq<char>, r: Result<T>) -> bool;

    /// Wrap the error value with additional context.
    fn node_context(self, node_id: &str) -> (r: Result<T>)
        requires
            self.can_attach(),
        ensures
            self.attached(node_id@, r),
    ;

    /// Wrap the error value with additional context that is evaluated lazily
    /// only once an error does occur.
    fn with_node_context<'node, F>(self, node_id: F) -> (r: Result<T>)
        where
            F: FnOnce() -> &'node str,
        requires
            self.can_attach(),
            self.failed() ==> call_requires(node_id, ()),
        ensures
            !self.failed() ==> self.attached(Seq::empty(), r),
            self.failed() ==> exists|id: &'node str|
                call_ensures(node_id, (), id) && #[trigger] self.attached(id@, r),
    ;
}

impl<T> Context<T> for Result<T> {
    open spec fn can_attach(&self) -> bool {
        *self matches Err(e) ==> e is Compile
    }

    open spec fn failed(&self) -> bool {
        *self is Err
    }

    open spec fn attached(&self, node_id: Seq<char>, r: Result<T>) -> bool {
        match *self {
            Ok(v) => r == Ok::<T, BanjoError>(v),
            Err(e) => fails_at_node(r, node_id, e->Compile_0@),
        }
    }

    fn node_context(self, node_id: &str) -> (r: Result<T>) {
        match self {
            Ok(v) => Ok(v),
            Err(error) => Err(error.node_context(node_id)),
        }
    }

    fn with_node_context<'node, F>(self, f: F) -> (r: Result<T>)
        where
            F: FnOnce() -> &'node str,
    {
        match self {
            Ok(v) => Ok(v),
            Err(error) => {
                let id = f();
                let e = error.node_context(id);
                proof {
                    assert(self.attached(id@, Err(e)));
                }
                Err(e)
            },
        }
    }
}

} // verus!
