use vstd::prelude::*;

use crate::banjo::error::{fails_at_node, BanjoError, Result};
use crate::parser::same_text;
use vstd::string::{StringExecFns, StringSliceAdditionalSpecFns};

verus! {

/// The value of a literal node.
pub enum LiteralType<N> {
    Bool(bool),
    Nil,
    Number(N),
    String(String),
}

/// The operator of a one-input node.
#[derive(Clone, Copy, PartialEq, Eq, Structural, Debug)]
pub enum UnaryType {
    Negate,
    Not,
}

/// The operator of a two-input node.
#[derive(Clone, Copy, PartialEq, Eq, Structural, Debug)]
pub enum BinaryType {
    Subtract,
    Divide,
    Equals,
    Greater,
    Less,
    NotEquals,
    GreaterEqual,
    LessEqual,
}

/// Nodes are named by their id.
pub type NodeId = String;

/// What a node is, and the ids of the nodes it takes as inputs.
pub enum NodeType<N> {
    Const { value: LiteralType<N> },
    Literal { value: LiteralType<N> },
    FunctionCall { fn_node_id: NodeId, args: Vec<NodeId> },
    FunctionDefinition { args: Vec<NodeId> },
    VariableReference { var_node_id: NodeId },
    VariableDefinition { args: Vec<NodeId> },
    Param,
    Unary { unary_type: UnaryType, args: Vec<NodeId> },
    Binary { binary_type: BinaryType, args: Vec<NodeId> },
}

/// A node of a program: its id and what it is.
pub struct Node<N> {
    pub id: NodeId,
    pub node_type: NodeType<N>,
}

/// A program as it is read: its nodes, each id at most once.
pub struct Source<N> {
    pub nodes: Vec<Node<N>>,
}

/// The ids of a node's inputs.
pub open spec fn arg_ids<N>(node_type: NodeType<N>) -> Seq<Seq<char>> {
    match node_type {
        NodeType::FunctionDefinition { args } => args@.map_values(|a: String| a@),
        NodeType::VariableDefinition { args } => args@.map_values(|a: String| a@),
        NodeType::Unary { args, .. } => args@.map_values(|a: String| a@),
        NodeType::FunctionCall { args, .. } => args@.map_values(|a: String| a@),
        NodeType::Binary { args, .. } => args@.map_values(|a: String| a@),
        _ => Seq::empty(),
    }
}

/// The id of the node a node needs besides its inputs: the variable a reference
/// reads or the function a call calls.
pub open spec fn dependency_id<N>(node_type: NodeType<N>) -> Option<Seq<char>> {
    match node_type {
        NodeType::VariableReference { var_node_id } => Some(var_node_id@),
        NodeType::FunctionCall { fn_node_id, .. } => Some(fn_node_id@),
        _ => None,
    }
}

/// The index of the first node with id `id`, or -1.
pub open spec fn index_of<N>(nodes: Seq<Node<N>>, id: Seq<char>) -> int
    decreases nodes.len(),
{
    if nodes.len() == 0 {
        -1
    } else {
        let i = index_of(nodes.drop_last(), id);
        if i >= 0 {
            i
        } else if nodes.last().id@ == id {
            nodes.len() - 1
        } else {
            -1
        }
    }
}

/// No two nodes share an id.
pub open spec fn distinct_ids<N>(nodes: Seq<Node<N>>) -> bool {
    forall|i: int, j: int| 0 <= i < j < nodes.len() ==> nodes[i].id@ != nodes[j].id@
}

/// A definition: of a function, of a variable or of a constant.
pub open spec fn is_definition<N>(node_type: NodeType<N>) -> bool {
    node_type is FunctionDefinition || node_type is VariableDefinition || node_type is Const
}

/// A node that compiling and working out arities start from: a root, or a
/// definition.
pub open spec fn is_start<N>(nodes: Seq<Node<N>>, j: int) -> bool {
    is_root(nodes, j) || is_definition(nodes[j].node_type)
}

/// A ranking of the nodes reached from the start nodes by following inputs: the
/// start nodes are ranked, and the inputs of a ranked node that are nodes are
/// ranked lower. Nodes that are not ranked (rank 0) are never reached.
pub open spec fn ranked<N>(nodes: Seq<Node<N>>, rank: Seq<nat>) -> bool {
    &&& rank.len() == nodes.len()
    &&& forall|j: int| 0 <= j < nodes.len() && #[trigger] is_start(nodes, j) ==> rank[j] > 0
    &&& forall|i: int, k: int|
        0 <= i < nodes.len() && rank[i] > 0 && 0 <= k < arg_ids(#[trigger] nodes[i].node_type).len() && index_of(
            nodes,
            arg_ids(nodes[i].node_type)[k],
        ) >= 0 ==> 0 < #[trigger] rank[index_of(nodes, arg_ids(nodes[i].node_type)[k])] < rank[i]
}

/// Following inputs from a root or a definition never comes back to a node.
pub open spec fn acyclic<N>(nodes: Seq<Node<N>>) -> bool {
    exists|rank: Seq<nat>| ranked(nodes, rank)
}

/// A ranking of acyclic nodes.
pub open spec fn a_rank<N>(nodes: Seq<Node<N>>) -> Seq<nat> {
    choose|rank: Seq<nat>| ranked(nodes, rank)
}

/// The number of parameter nodes met on the paths of inputs from node `i`,
/// following paths of at most `fuel` nodes; each path counts.
pub open spec fn params_below<N>(nodes: Seq<Node<N>>, i: int, fuel: nat) -> nat
    decreases fuel, 0nat,
{
    if fuel == 0 || !(0 <= i < nodes.len()) {
        0
    } else {
        (if nodes[i].node_type is Param {
            1nat
        } else {
            0nat
        }) + params_in(nodes, arg_ids(nodes[i].node_type), (fuel - 1) as nat)
    }
}

/// The number of parameter nodes met on the paths from the nodes named by `ids`.
pub open spec fn params_in<N>(nodes: Seq<Node<N>>, ids: Seq<Seq<char>>, fuel: nat) -> nat
    decreases fuel, ids.len() + 1,
{
    if ids.len() == 0 {
        0
    } else {
        params_in(nodes, ids.drop_last(), fuel) + params_below(nodes, index_of(nodes, ids.last()), fuel)
    }
}

/// The arity of function definition `i`: its parameters, each counted once for
/// every path of inputs that reaches it.
pub open spec fn arity_of<N>(nodes: Seq<Node<N>>, i: int) -> nat {
    params_below(nodes, i, a_rank(nodes)[i] + 1)
}

/// Node `j` is an input of no node.
pub open spec fn is_root<N>(nodes: Seq<Node<N>>, j: int) -> bool {
    forall|i: int, k: int|
        0 <= i < nodes.len() && 0 <= k < arg_ids(nodes[i].node_type).len() ==> #[trigger] arg_ids(
            nodes[i].node_type,
        )[k] != nodes[j].id@
}

/// What `index_of` finds: a node with the id, or none has it.
pub proof fn lemma_index_of<N>(nodes: Seq<Node<N>>, id: Seq<char>)
    ensures
        -1 <= index_of(nodes, id) < nodes.len(),
        index_of(nodes, id) >= 0 ==> nodes[index_of(nodes, id)].id@ == id,
        index_of(nodes, id) < 0 ==> forall|j: int| 0 <= j < nodes.len() ==> nodes[j].id@ != id,
    decreases nodes.len(),
{
    if nodes.len() > 0 {
        lemma_index_of(nodes.drop_last(), id);
        assert forall|j: int| 0 <= j < nodes.len() && index_of(nodes, id) < 0 implies nodes[j].id@ != id by {
            if j < nodes.len() - 1 {
                assert(nodes.drop_last()[j] == nodes[j]);
            }
        }
    }
}

/// With distinct ids, a node is found at its own index.
pub proof fn lemma_index_of_distinct<N>(nodes: Seq<Node<N>>, j: int)
    requires
        distinct_ids(nodes),
        0 <= j < nodes.len(),
    ensures
        index_of(nodes, nodes[j].id@) == j,
{
    lemma_index_of(nodes, nodes[j].id@);
    let i = index_of(nodes, nodes[j].id@);
    if i != j {
        if i < j {
            assert(nodes[i].id@ != nodes[j].id@);
        } else {
            assert(nodes[j].id@ != nodes[i].id@);
        }
    }
}

/// Counting with more fuel than the rank of a node gives the same number.
proof fn lemma_params_fuel<N>(nodes: Seq<Node<N>>, rank: Seq<nat>, i: int, f1: nat, f2: nat)
    requires
        ranked(nodes, rank),
        0 <= i < nodes.len(),
        rank[i] > 0,
        rank[i] < f1,
        rank[i] < f2,
    ensures
        params_below(nodes, i, f1) == params_below(nodes, i, f2),
    decreases rank[i],
{
    let ids = arg_ids(nodes[i].node_type);
    assert(ids.take(ids.len() as int) =~= ids);
    lemma_params_in_fuel(nodes, rank, i, ids, (f1 - 1) as nat, (f2 - 1) as nat);
}

proof fn lemma_params_in_fuel<N>(nodes: Seq<Node<N>>, rank: Seq<nat>, i: int, ids: Seq<Seq<char>>, f1: nat, f2: nat)
    requires
        ranked(nodes, rank),
        0 <= i < nodes.len(),
        ids.len() <= arg_ids(nodes[i].node_type).len(),
        ids == arg_ids(nodes[i].node_type).take(ids.len() as int),
        rank[i] > 0,
        rank[i] <= f1,
        rank[i] <= f2,
    ensures
        params_in(nodes, ids, f1) == params_in(nodes, ids, f2),
    decreases rank[i], ids.len(),
{
    if ids.len() > 0 {
        let all = arg_ids(nodes[i].node_type);
        assert(ids.drop_last() == all.take(ids.len() - 1));
        lemma_params_in_fuel(nodes, rank, i, ids.drop_last(), f1, f2);
        let k = ids.len() - 1;
        assert(ids.last() == all[k]);
        let j = index_of(nodes, ids.last());
        lemma_index_of(nodes, ids.last());
        if j >= 0 {
            assert(rank[index_of(nodes, arg_ids(nodes[i].node_type)[k])] < rank[i]);
            lemma_params_fuel(nodes, rank, j, f1, f2);
        }
    }
}

impl<N> Node<N> {
    /// The ids of the node's inputs, in order.
    pub fn args(&self) -> (ids: Vec<&str>)
        ensures
            ids@.map_values(|s: &str| s@) == arg_ids(self.node_type),
    {
        let args = match &self.node_type {
            NodeType::FunctionDefinition { args, .. } => args,
            NodeType::VariableDefinition { args } => args,
            NodeType::Unary { args, .. } => args,
            NodeType::FunctionCall { args, .. } => args,
            NodeType::Binary { args, .. } => args,
            _ => {
                let ids: Vec<&str> = Vec::new();
                proof {
                    assert(ids@.map_values(|s: &str| s@) =~= arg_ids(self.node_type));
                }
                return ids;
            },
        };
        let mut ids: Vec<&str> = Vec::new();
        let mut i: usize = 0;
        while i < args.len()
            invariant
                i <= args@.len(),
                ids@.len() == i,
                forall|m: int| 0 <= m < i ==> (#[trigger] ids@[m])@ == args@[m]@,
            decreases args@.len() - i,
        {
            ids.push(args[i].as_str());
            i += 1;
        }
        proof {
            assert(ids@.map_values(|s: &str| s@) =~= args@.map_values(|a: String| a@));
        }
        ids
    }

    /// The id of the node this one needs besides its inputs, if any.
    pub fn dependencies(&self) -> (id: Option<&str>)
        ensures
            match id {
                Some(s) => dependency_id(self.node_type) == Some(s@),
                None => dependency_id(self.node_type) is None,
            },
    {
        match &self.node_type {
            NodeType::VariableReference { var_node_id } => Some(var_node_id.as_str()),
            NodeType::FunctionCall { fn_node_id, .. } => Some(fn_node_id.as_str()),
            _ => None,
        }
    }
}

/// A program ready for compiling: its nodes, the arity of each function
/// definition, and the roots, the nodes that are no node's input.
pub struct Ast<N> {
    nodes: Vec<Node<N>>,
    arities: Vec<Option<usize>>,
    roots: Vec<usize>,
}

impl<N> Ast<N> {
    /// The nodes, in the order they were read.
    pub closed spec fn nodes(&self) -> Seq<Node<N>> {
        self.nodes@
    }

    /// The arity recorded for node `i`: `Some` for function definitions.
    pub closed spec fn arity_at(&self, i: int) -> Option<usize> {
        self.arities@[i]
    }

    /// The indices of the roots, in order.
    pub closed spec fn root_indices(&self) -> Seq<usize> {
        self.roots@
    }

    /// The invariant: ids are distinct, inputs never loop, and the arities and
    /// roots are those of the nodes.
    pub closed spec fn wf(&self) -> bool {
        let nodes = self.nodes@;
        &&& distinct_ids(nodes)
        &&& acyclic(nodes)
        &&& self.arities@.len() == nodes.len()
        &&& forall|i: int|
            0 <= i < nodes.len() ==> #[trigger] self.arities@[i] == if nodes[i].node_type is FunctionDefinition {
                Some(arity_of(nodes, i) as usize)
            } else {
                None
            }
        &&& forall|k: int| 0 <= k < self.roots@.len() ==> #[trigger] self.roots@[k] < nodes.len()
        &&& forall|k: int, l: int| 0 <= k < l < self.roots@.len() ==> self.roots@[k] < self.roots@[l]
        &&& forall|j: int| 0 <= j < nodes.len() ==> (is_root(nodes, j) <==> self.roots@.contains(j as usize))
    }

    /// What the invariant gives: distinct ids, a ranking of the inputs, and the
    /// arities and roots of the nodes.
    pub proof fn lemma_wf(&self)
        requires
            self.wf(),
        ensures
            distinct_ids(self.nodes()),
            ranked(self.nodes(), a_rank(self.nodes())),
            forall|i: int|
                0 <= i < self.nodes().len() ==> #[trigger] self.arity_at(i) == if self.nodes()[i].node_type is FunctionDefinition {
                    Some(arity_of(self.nodes(), i) as usize)
                } else {
                    None
                },
            forall|k: int| 0 <= k < self.root_indices().len() ==> #[trigger] self.root_indices()[k] < self.nodes().len(),
            forall|k: int, l: int| 0 <= k < l < self.root_indices().len() ==> self.root_indices()[k] < self.root_indices()[l],
            forall|j: int| 0 <= j < self.nodes().len() ==> (is_root(self.nodes(), j) <==> self.root_indices().contains(j as usize)),
    {
        let rank = choose|rank: Seq<nat>| ranked(self.nodes(), rank);
        assert(ranked(self.nodes(), rank));
    }

    /// Prepares `source` for compiling: works out the arity of each function
    /// definition and finds the roots.
    pub fn new(source: Source<N>) -> (ast: Self)
        requires
            distinct_ids(source.nodes@),
            acyclic(source.nodes@),
            forall|i: int|
                0 <= i < source.nodes@.len() && (#[trigger] source.nodes@[i]).node_type is FunctionDefinition
                    ==> arity_of(source.nodes@, i) <= usize::MAX,
        ensures
            ast.wf(),
            ast.nodes() == source.nodes@,
    {
        let arities = Self::calculate_arities(&source.nodes);
        let roots = Self::find_roots(&source.nodes);
        Ast { nodes: source.nodes, arities, roots }
    }

    /// The index of the node with id `node_id`, if any.
    pub fn find(nodes: &Vec<Node<N>>, node_id: &str) -> (r: Option<usize>)
        ensures
            match r {
                Some(i) => i as int == index_of(nodes@, node_id@) && i < nodes@.len(),
                None => index_of(nodes@, node_id@) < 0,
            },
    {
        let mut i: usize = 0;
        proof {
            lemma_index_of(nodes@, node_id@);
        }
        while i < nodes.len()
            invariant
                i <= nodes@.len(),
                index_of(nodes@, node_id@) < 0 || i <= index_of(nodes@, node_id@),
                -1 <= index_of(nodes@, node_id@) < nodes@.len(),
                index_of(nodes@, node_id@) >= 0 ==> nodes@[index_of(nodes@, node_id@)].id@ == node_id@,
                forall|j: int| 0 <= j < i ==> nodes@[j].id@ != node_id@,
            decreases nodes@.len() - i,
        {
            let name = nodes[i].id.as_str();
            if same_text(name, node_id) {
                proof {
                    vstd::utf8::encode_utf8_decode_utf8(nodes@[i as int].id@);
                    vstd::utf8::encode_utf8_decode_utf8(node_id@);
                    if index_of(nodes@, node_id@) < 0 {
                        lemma_index_of(nodes@, node_id@);
                    }
                    lemma_first_match(nodes@, node_id@, i as int);
                }
                return Some(i);
            }
            proof {
                if nodes@[i as int].id@ == node_id@ {
                    assert(name.spec_bytes() == node_id.spec_bytes());
                }
            }
            i += 1;
        }
        proof {
            if index_of(nodes@, node_id@) >= 0 {
                let j = index_of(nodes@, node_id@);
                assert(nodes@[j].id@ != node_id@);
            }
        }
        None
    }

    /// The node with id `node_id`; an error names the id when there is none.
    pub fn get_node(&self, node_id: &str) -> (r: Result<&Node<N>>)
        ensures
            match r {
                Ok(node) => {
                    &&& index_of(self.nodes(), node_id@) >= 0
                    &&& *node == self.nodes()[index_of(self.nodes(), node_id@)]
                },
                Err(_) => index_of(self.nodes(), node_id@) < 0 && fails_at_node(
                    r,
                    node_id@,
                    "Unknown node id "@ + node_id@ + "."@,
                ),
            },
    {
        match Self::find(&self.nodes, node_id) {
            Some(i) => Ok(&self.nodes[i]),
            None => {
                let message = "Unknown node id ".to_owned().concat(node_id).concat(".");
                Err(BanjoError::node(node_id, message.as_str()))
            },
        }
    }

    /// The index of the node with id `node_id`, if there is one.
    pub(crate) fn position(&self, node_id: &str) -> (r: Option<usize>)
        ensures
            match r {
                Some(i) => i as int == index_of(self.nodes(), node_id@) && i < self.nodes().len(),
                None => index_of(self.nodes(), node_id@) < 0,
            },
    {
        Self::find(&self.nodes, node_id)
    }

    /// The number of nodes.
    pub(crate) fn node_count(&self) -> (n: usize)
        ensures
            n == self.nodes().len(),
    {
        self.nodes.len()
    }

    /// The arity of the function definition with id `fn_node_id`, if there is one.
    pub fn get_arity(&self, fn_node_id: &str) -> (r: Option<usize>)
        requires
            self.wf(),
        ensures
            r == (if index_of(self.nodes(), fn_node_id@) >= 0 {
                self.arity_at(index_of(self.nodes(), fn_node_id@))
            } else {
                None
            }),
    {
        match Self::find(&self.nodes, fn_node_id) {
            Some(i) => self.arities[i],
            None => None,
        }
    }

    /// The roots, in the order of the nodes.
    pub fn get_roots(&self) -> (roots: Vec<&Node<N>>)
        requires
            self.wf(),
        ensures
            roots@.len() == self.root_indices().len(),
            forall|k: int| 0 <= k < roots@.len() ==> *roots@[k] == self.nodes()[#[trigger] self.root_indices()[k] as int],
    {
        let mut roots: Vec<&Node<N>> = Vec::new();
        let mut k: usize = 0;
        while k < self.roots.len()
            invariant
                self.wf(),
                k <= self.roots@.len(),
                roots@.len() == k,
                forall|m: int| 0 <= m < k ==> *roots@[m] == self.nodes@[#[trigger] self.roots@[m] as int],
            decreases self.roots@.len() - k,
        {
            let i = self.roots[k];
            roots.push(&self.nodes[i]);
            k += 1;
        }
        roots
    }

    /// The indices of the nodes that are no node's input, in order.
    fn find_roots(nodes: &Vec<Node<N>>) -> (roots: Vec<usize>)
        requires
            distinct_ids(nodes@),
        ensures
            forall|k: int| 0 <= k < roots@.len() ==> #[trigger] roots@[k] < nodes@.len(),
            forall|k: int, l: int| 0 <= k < l < roots@.len() ==> roots@[k] < roots@[l],
            forall|j: int| 0 <= j < nodes@.len() ==> (is_root(nodes@, j) <==> roots@.contains(j as usize)),
    {
        let n = nodes.len();
        let mut is_root_node: Vec<bool> = Vec::new();
        while is_root_node.len() < n
            invariant
                is_root_node@.len() <= n,
                forall|j: int| 0 <= j < is_root_node@.len() ==> #[trigger] is_root_node@[j],
            decreases n - is_root_node@.len(),
        {
            is_root_node.push(true);
        }
        // A node that is some node's input is no root
        let mut i: usize = 0;
        while i < n
            invariant
                n == nodes@.len(),
                distinct_ids(nodes@),
                is_root_node@.len() == n,
                i <= n,
                forall|j: int|
                    0 <= j < n ==> (#[trigger] is_root_node@[j] <==> forall|a: int, k: int|
                        0 <= a < i && 0 <= k < arg_ids(nodes@[a].node_type).len() ==> #[trigger] arg_ids(
                            nodes@[a].node_type,
                        )[k] != nodes@[j].id@),
            decreases n - i,
        {
            let args = nodes[i].args();
            let mut k: usize = 0;
            let ghost before = is_root_node@;
            while k < args.len()
                invariant
                    n == nodes@.len(),
                    distinct_ids(nodes@),
                    is_root_node@.len() == n,
                    i < n,
                    k <= args@.len(),
                    args@.map_values(|s: &str| s@) == arg_ids(nodes@[i as int].node_type),
                    forall|j: int|
                        0 <= j < n ==> (#[trigger] is_root_node@[j] <==> (before[j] && forall|m: int|
                            0 <= m < k ==> arg_ids(nodes@[i as int].node_type)[m] != nodes@[j].id@)),
                decreases args@.len() - k,
            {
                proof {
                    assert(args@.map_values(|s: &str| s@)[k as int] == args@[k as int]@);
                }
                match Self::find(nodes, args[k]) {
                    Some(j) => {
                        proof {
                            lemma_index_of(nodes@, args@[k as int]@);
                        }
                        is_root_node.set(j, false);
                        proof {
                            assert forall|j2: int| 0 <= j2 < n && j2 != j implies (#[trigger] is_root_node@[j2] <==> (
                            before[j2] && forall|m: int|
                                0 <= m < k + 1 ==> arg_ids(nodes@[i as int].node_type)[m] != nodes@[j2].id@)) by {
                                if nodes@[j2].id@ == args@[k as int]@ {
                                    lemma_index_of_distinct(nodes@, j2);
                                }
                            }
                        }
                    },
                    None => {
                        proof {
                            lemma_index_of(nodes@, args@[k as int]@);
                        }
                    },
                }
                k += 1;
            }
            proof {
                assert forall|j: int| 0 <= j < n implies (#[trigger] is_root_node@[j] <==> forall|a: int, k2: int|
                    0 <= a < i + 1 && 0 <= k2 < arg_ids(nodes@[a].node_type).len() ==> #[trigger] arg_ids(
                        nodes@[a].node_type,
                    )[k2] != nodes@[j].id@) by {
                    if is_root_node@[j] {
                        assert forall|a: int, k2: int|
                            0 <= a < i + 1 && 0 <= k2 < arg_ids(nodes@[a].node_type).len() implies #[trigger] arg_ids(
                            nodes@[a].node_type,
                        )[k2] != nodes@[j].id@ by {
                            if a == i {
                                assert(arg_ids(nodes@[i as int].node_type)[k2] != nodes@[j].id@);
                            }
                        }
                    }
                }
            }
            i += 1;
        }
        let mut roots: Vec<usize> = Vec::new();
        let mut j: usize = 0;
        while j < n
            invariant
                n == nodes@.len(),
                is_root_node@.len() == n,
                j <= n,
                forall|m: int| 0 <= m < n ==> (#[trigger] is_root_node@[m] <==> is_root(nodes@, m)),
                forall|k: int| 0 <= k < roots@.len() ==> #[trigger] roots@[k] < j,
                forall|k: int, l: int| 0 <= k < l < roots@.len() ==> roots@[k] < roots@[l],
                forall|m: int| 0 <= m < j ==> (is_root(nodes@, m) <==> roots@.contains(m as usize)),
            decreases n - j,
        {
            let ghost old_roots = roots@;
            if is_root_node[j] {
                roots.push(j);
            }
            proof {
                assert forall|m: int| 0 <= m < j + 1 implies (is_root(nodes@, m) <==> roots@.contains(m as usize)) by {
                    if m < j {
                        if old_roots.contains(m as usize) {
                            let k = choose|k: int| 0 <= k < old_roots.len() && old_roots[k] == m as usize;
                            assert(roots@[k] == m as usize);
                        }
                        if roots@.contains(m as usize) {
                            let k = choose|k: int| 0 <= k < roots@.len() && roots@[k] == m as usize;
                            if k < old_roots.len() {
                                assert(old_roots[k] == m as usize);
                            } else {
                                assert(roots@[k] == j);
                            }
                        }
                    } else {
                        if is_root_node@[m] {
                            assert(roots@[roots@.len() - 1] == m as usize);
                        } else if roots@.contains(m as usize) {
                            let k = choose|k: int| 0 <= k < roots@.len() && roots@[k] == m as usize;
                            assert(old_roots[k] < j);
                        }
                    }
                }
            }
            j += 1;
        }
        roots
    }

    /// Adds to `current_arity` the parameters met on every path of inputs from
    /// the node with id `node_id`.
    fn traverse(nodes: &Vec<Node<N>>, node_id: &str, current_arity: &mut usize, Ghost(rank): Ghost<Seq<nat>>)
        requires
            ranked(nodes@, rank),
            index_of(nodes@, node_id@) >= 0 ==> rank[index_of(nodes@, node_id@)] > 0,
            index_of(nodes@, node_id@) >= 0 ==> *old(current_arity) + params_below(
                nodes@,
                index_of(nodes@, node_id@),
                rank[index_of(nodes@, node_id@)] + 1,
            ) <= usize::MAX,
        ensures
            *final(current_arity) == *old(current_arity) + if index_of(nodes@, node_id@) >= 0 {
                params_below(nodes@, index_of(nodes@, node_id@), rank[index_of(nodes@, node_id@)] + 1)
            } else {
                0
            },
        decreases
                if index_of(nodes@, node_id@) >= 0 {
                    rank[index_of(nodes@, node_id@)] + 1
                } else {
                    0
                },
    {
        proof {
            lemma_index_of(nodes@, node_id@);
        }
        if let Some(i) = Self::find(nodes, node_id) {
            let ghost f = rank[i as int];
            let ghost all = arg_ids(nodes@[i as int].node_type);
            let ghost start = *current_arity;
            let is_param = match &nodes[i].node_type {
                NodeType::Param => true,
                _ => false,
            };
            proof {
                lemma_params_in_prefix(nodes@, all, f, all.len() as int);
                assert(all.take(all.len() as int) =~= all);
            }
            if is_param {
                *current_arity += 1;
            }
            let args = nodes[i].args();
            let mut k: usize = 0;
            while k < args.len()
                invariant
                    ranked(nodes@, rank),
                    0 <= i < nodes@.len(),
                    index_of(nodes@, node_id@) == i,
                    f == rank[i as int],
                    f > 0,
                    all == arg_ids(nodes@[i as int].node_type),
                    args@.map_values(|s: &str| s@) == all,
                    k <= args@.len(),
                    start + params_below(nodes@, i as int, f + 1) <= usize::MAX,
                    params_below(nodes@, i as int, f + 1) == (if nodes@[i as int].node_type is Param {
                        1nat
                    } else {
                        0nat
                    }) + params_in(nodes@, all, f),
                    *current_arity == start + (if nodes@[i as int].node_type is Param {
                        1nat
                    } else {
                        0nat
                    }) + params_in(nodes@, all.take(k as int), f),
                decreases args@.len() - k,
            {
                let ghost id = all[k as int];
                let arg = args[k];
                proof {
                    assert(arg@ == args@[k as int]@);
                    assert(index_of(nodes@, node_id@) == i);
                    assert(args@.map_values(|s: &str| s@)[k as int] == args@[k as int]@);
                    assert(all.take(k + 1).drop_last() =~= all.take(k as int));
                    assert(all.take(k + 1).last() == id);
                    lemma_params_in_prefix(nodes@, all, f, k + 1);
                    lemma_index_of(nodes@, id);
                    let j = index_of(nodes@, id);
                    assert(params_in(nodes@, all.take(k + 1), f) == params_in(nodes@, all.take(k as int), f)
                        + params_below(nodes@, j, f));
                    if j >= 0 {
                        assert(0 <= k < arg_ids(nodes@[i as int].node_type).len());
                        assert(rank[index_of(nodes@, arg_ids(nodes@[i as int].node_type)[k as int])] < rank[i as int]);
                        lemma_params_fuel(nodes@, rank, j, rank[j] + 1, f);
                    }
                }
                proof {
                    assert(arg@ == id);
                    if index_of(nodes@, arg@) >= 0 {
                        assert(rank[index_of(nodes@, arg@)] < rank[index_of(nodes@, node_id@)]);
                    }
                }
                Self::traverse(nodes, arg, current_arity, Ghost(rank));
                k += 1;
            }
            proof {
                assert(all.take(k as int) =~= all);
            }
        }
    }

    /// The arity of each node that is a function definition.
    fn calculate_arities(nodes: &Vec<Node<N>>) -> (arities: Vec<Option<usize>>)
        requires
            distinct_ids(nodes@),
            acyclic(nodes@),
            forall|i: int|
                0 <= i < nodes@.len() && (#[trigger] nodes@[i]).node_type is FunctionDefinition ==> arity_of(
                    nodes@,
                    i,
                ) <= usize::MAX,
        ensures
            arities@.len() == nodes@.len(),
            forall|i: int|
                0 <= i < nodes@.len() ==> #[trigger] arities@[i] == if nodes@[i].node_type is FunctionDefinition {
                    Some(arity_of(nodes@, i) as usize)
                } else {
                    None
                },
    {
        let ghost rank = a_rank(nodes@);
        let mut arities: Vec<Option<usize>> = Vec::new();
        let mut i: usize = 0;
        while i < nodes.len()
            invariant
                ranked(nodes@, rank),
                rank == a_rank(nodes@),
                distinct_ids(nodes@),
                i <= nodes@.len(),
                arities@.len() == i,
                forall|i: int|
                    0 <= i < nodes@.len() && (#[trigger] nodes@[i]).node_type is FunctionDefinition ==> arity_of(
                        nodes@,
                        i,
                    ) <= usize::MAX,
                forall|m: int|
                    0 <= m < i ==> #[trigger] arities@[m] == if nodes@[m].node_type is FunctionDefinition {
                        Some(arity_of(nodes@, m) as usize)
                    } else {
                        None
                    },
            decreases nodes@.len() - i,
        {
            let arity = match &nodes[i].node_type {
                NodeType::FunctionDefinition { .. } => {
                    let mut arity: usize = 0;
                    proof {
                        assert(nodes@[i as int].node_type is FunctionDefinition);
                        lemma_index_of_distinct(nodes@, i as int);
                        assert(is_start(nodes@, i as int));
                    }
                    Self::traverse(nodes, nodes[i].id.as_str(), &mut arity, Ghost(rank));
                    Some(arity)
                },
                _ => None,
            };
            arities.push(arity);
            i += 1;
        }
        arities
    }
}

proof fn lemma_params_in_prefix<N>(nodes: Seq<Node<N>>, ids: Seq<Seq<char>>, fuel: nat, k: int)
    requires
        0 <= k <= ids.len(),
    ensures
        params_in(nodes, ids.take(k), fuel) <= params_in(nodes, ids, fuel),
    decreases ids.len(),
{
    if k < ids.len() {
        assert(ids.drop_last().take(k) =~= ids.take(k));
        lemma_params_in_prefix(nodes, ids.drop_last(), fuel, k);
    } else {
        assert(ids.take(k) =~= ids);
    }
}

proof fn lemma_first_match<N>(nodes: Seq<Node<N>>, id: Seq<char>, i: int)
    requires
        0 <= i < nodes.len(),
        nodes[i].id@ == id,
        forall|j: int| 0 <= j < i ==> nodes[j].id@ != id,
    ensures
        index_of(nodes, id) == i,
    decreases nodes.len(),
{
    if i < nodes.len() - 1 {
        lemma_first_match(nodes.drop_last(), id, i);
    } else {
        lemma_index_of(nodes.drop_last(), id);
        assert forall|j: int| 0 <= j < nodes.drop_last().len() implies nodes.drop_last()[j].id@ != id by {
            assert(nodes.drop_last()[j] == nodes[j]);
        }
    }
}

} // verus!
