use vstd::prelude::*;

use vstd::string::StringSliceAdditionalSpecFns;
use vstd::utf8::encode_utf8;

use crate::error::{LoxError, Result};
use crate::scanner::{
    lemma_lex_advances, lemma_lex_bounds, lex, lexed_view, newlines_before, scannable, scans_from,
    Scanner, Token, TokView, TokenType,
};

verus! {

/// A node is named by the text of its id token.
pub type NodeId<'source> = &'source str;

// ---------------------------------------------------------------------------
// Plain-value views
// ---------------------------------------------------------------------------

/// The kind of a graph node, with node ids given by their UTF-8 bytes.
pub enum NodeTypeView {
    Literal,
    Definition { body: Option<Seq<u8>>, arity: u8 },
    Reference { arguments: Seq<Seq<u8>> },
    Return { argument: Option<Seq<u8>> },
}

pub struct AttributesView {
    pub comment: Option<TokView>,
    pub pos: Option<TokView>,
    pub label: Option<TokView>,
    pub node_type: Option<TokView>,
}

pub struct NodeView {
    pub id: TokView,
    pub node_type: NodeTypeView,
    pub attributes: AttributesView,
}

pub open spec fn opt_token_view(t: Option<Token>) -> Option<TokView> {
    match t {
        Some(t) => Some(t@),
        None => None,
    }
}

pub open spec fn opt_id_view(id: Option<NodeId>) -> Option<Seq<u8>> {
    match id {
        Some(id) => Some(id.spec_bytes()),
        None => None,
    }
}

pub open spec fn opt_attributes_view(a: Option<Attributes>) -> Option<AttributesView> {
    match a {
        Some(a) => Some(a@),
        None => None,
    }
}

pub open spec fn opt_ref_attributes_view(a: Option<&Attributes>) -> Option<AttributesView> {
    match a {
        Some(a) => Some(a@),
        None => None,
    }
}

// ---------------------------------------------------------------------------
// How node types are deduced and grown
// ---------------------------------------------------------------------------

pub open spec fn no_attributes() -> AttributesView {
    AttributesView { comment: None, pos: None, label: None, node_type: None }
}

/// The node type an explicit `type=` attribute asks for: `def`, `ref` or `return`.
pub open spec fn type_from_attribute(a: Option<AttributesView>) -> Option<NodeTypeView> {
    match a {
        None => None,
        Some(a) => match a.node_type {
            None => None,
            Some(t) => if t.text == seq!['d' as u8, 'e' as u8, 'f' as u8] {
                Some(NodeTypeView::Definition { body: None, arity: 0 })
            } else if t.text == seq!['r' as u8, 'e' as u8, 'f' as u8] {
                Some(NodeTypeView::Reference { arguments: Seq::empty() })
            } else if t.text == seq!['r' as u8, 'e' as u8, 't' as u8, 'u' as u8, 'r' as u8, 'n' as u8] {
                Some(NodeTypeView::Return { argument: None })
            } else {
                None
            },
        },
    }
}

/// The node type deduced from a node's name: number and string literals are
/// literals, `return` is a return; an identifier is deduced from its label.
pub open spec fn type_from_name(token: TokView, a: Option<AttributesView>) -> Option<NodeTypeView>
    decreases (if a is Some { 1nat } else { 0nat }),
{
    if token.kind == TokenType::Number || token.kind == TokenType::String {
        Some(NodeTypeView::Literal)
    } else if token.kind == TokenType::Identifier {
        match a {
            Some(a) => match a.label {
                Some(label) => type_from_name(label, None),
                None => None,
            },
            None => None,
        }
    } else if token.kind == TokenType::Return {
        Some(NodeTypeView::Return { argument: None })
    } else {
        None
    }
}

/// The type of a new node: from its `type=` attribute, else from its name, else a
/// definition with no body.
pub open spec fn new_node_type(token: TokView, a: Option<AttributesView>) -> NodeTypeView {
    match type_from_attribute(a) {
        Some(t) => t,
        None => match type_from_name(token, a) {
            Some(t) => t,
            None => NodeTypeView::Definition { body: None, arity: 0 },
        },
    }
}

/// A node type after an edge into it from `input`.
pub open spec fn with_input(t: NodeTypeView, input: Seq<u8>) -> NodeTypeView {
    match t {
        NodeTypeView::Reference { arguments } => NodeTypeView::Reference { arguments: arguments.push(input) },
        NodeTypeView::Definition { body: _, arity } => NodeTypeView::Definition { body: Some(input), arity },
        NodeTypeView::Return { argument: _ } => NodeTypeView::Return { argument: Some(input) },
        NodeTypeView::Literal => NodeTypeView::Literal,
    }
}

/// A node type after an edge out of it: a definition becomes a reference whose
/// arguments are its body, if any.
pub open spec fn with_output(t: NodeTypeView) -> NodeTypeView {
    match t {
        NodeTypeView::Definition { body, arity: _ } => NodeTypeView::Reference {
            arguments: match body {
                Some(b) => seq![b],
                None => Seq::empty(),
            },
        },
        _ => t,
    }
}

/// `a` with the comment, position and label that `other` sets.
pub open spec fn merged(a: AttributesView, other: AttributesView) -> AttributesView {
    AttributesView {
        comment: if other.comment is Some { other.comment } else { a.comment },
        pos: if other.pos is Some { other.pos } else { a.pos },
        label: if other.label is Some { other.label } else { a.label },
        node_type: a.node_type,
    }
}

// ---------------------------------------------------------------------------
// The graph as a sequence of nodes in order of first mention
// ---------------------------------------------------------------------------

/// The index of the node named `id`, or -1.
pub open spec fn index_of(nodes: Seq<NodeView>, id: Seq<u8>) -> int
    decreases nodes.len(),
{
    if nodes.len() == 0 {
        -1
    } else if nodes.last().id.text == id {
        nodes.len() - 1
    } else {
        index_of(nodes.drop_last(), id)
    }
}

/// The nodes after mentioning the node `id` with attributes `a`: a known node takes
/// the attributes that `a` sets; an unknown one is added.
pub open spec fn ensured(nodes: Seq<NodeView>, id: TokView, a: Option<AttributesView>) -> Seq<NodeView> {
    let i = index_of(nodes, id.text);
    if i >= 0 {
        match a {
            Some(a) => nodes.update(i, NodeView { attributes: merged(nodes[i].attributes, a), ..nodes[i] }),
            None => nodes,
        }
    } else {
        nodes.push(NodeView {
            id,
            node_type: new_node_type(id, a),
            attributes: match a {
                Some(a) => a,
                None => no_attributes(),
            },
        })
    }
}

/// Where the node named `id` stands after it is mentioned.
pub open spec fn ensured_index(nodes: Seq<NodeView>, id: TokView) -> int {
    let i = index_of(nodes, id.text);
    if i >= 0 {
        i
    } else {
        nodes.len() as int
    }
}

/// The UTF-8 bytes of `return`.
pub open spec fn return_id() -> Seq<u8> {
    seq!['r' as u8, 'e' as u8, 't' as u8, 'u' as u8, 'r' as u8, 'n' as u8]
}

pub open spec fn retyped(nodes: Seq<NodeView>, i: int, t: NodeTypeView) -> Seq<NodeView> {
    nodes.update(i, NodeView { node_type: t, ..nodes[i] })
}

pub proof fn lemma_index_of(nodes: Seq<NodeView>, id: Seq<u8>)
    ensures
        -1 <= index_of(nodes, id) < nodes.len(),
        index_of(nodes, id) >= 0 ==> nodes[index_of(nodes, id)].id.text == id,
        index_of(nodes, id) < 0 ==> forall|j: int| 0 <= j < nodes.len() ==> nodes[j].id.text != id,
    decreases nodes.len(),
{
    if nodes.len() > 0 {
        lemma_index_of(nodes.drop_last(), id);
        if index_of(nodes, id) < 0 {
            assert forall|j: int| 0 <= j < nodes.len() implies nodes[j].id.text != id by {
                if j < nodes.len() - 1 {
                    assert(nodes.drop_last()[j] == nodes[j]);
                }
            }
        }
    }
}

// ---------------------------------------------------------------------------
// Executable graph
// ---------------------------------------------------------------------------

/// Whether two strings have the same UTF-8 bytes.
pub(crate) fn same_text(a: &str, b: &str) -> (r: bool)
    ensures
        r == (a.spec_bytes() == b.spec_bytes()),
{
    let x = a.as_bytes();
    let y = b.as_bytes();
    if x.len() != y.len() {
        return false;
    }
    let mut i: usize = 0;
    while i < x.len()
        invariant
            x@ == a.spec_bytes(),
            y@ == b.spec_bytes(),
            x@.len() == y@.len(),
            i <= x@.len(),
            forall|k: int| 0 <= k < i ==> x@[k] == y@[k],
        decreases x@.len() - i,
    {
        if x[i] != y[i] {
            return false;
        }
        i += 1;
    }
    proof {
        assert(x@ =~= y@);
    }
    true
}

/// Whether a string's bytes are exactly `word`.
fn text_is(a: &str, word: &[u8]) -> (r: bool)
    ensures
        r == (a.spec_bytes() == word@),
{
    let x = a.as_bytes();
    if x.len() != word.len() {
        return false;
    }
    let mut i: usize = 0;
    while i < x.len()
        invariant
            x@ == a.spec_bytes(),
            x@.len() == word@.len(),
            i <= x@.len(),
            forall|k: int| 0 <= k < i ==> x@[k] == word@[k],
        decreases x@.len() - i,
    {
        if x[i] != word[i] {
            return false;
        }
        i += 1;
    }
    proof {
        assert(x@ =~= word@);
    }
    true
}

/// The nodes of a parsed graph, each named by its id.
pub struct Graph<'source> {
    all_nodes: Vec<Node<'source>>,
}

impl<'source> View for Graph<'source> {
    type V = Seq<NodeView>;

    closed spec fn view(&self) -> Seq<NodeView> {
        self.all_nodes@.map_values(|n: Node<'source>| n@)
    }
}

impl<'source> Graph<'source> {
    /// An empty graph.
    pub fn new() -> (g: Self)
        ensures
            g@ == Seq::<NodeView>::empty(),
    {
        let g = Self { all_nodes: Vec::new() };
        proof {
            assert(g@ =~= Seq::<NodeView>::empty());
        }
        g
    }

    /// Mentions the node named by `node_id`, with the given attributes; returns
    /// where it stands.
    fn ensure_node(&mut self, node_id: Token<'source>, attributes: Option<Attributes<'source>>) -> (i: usize)
        ensures
            final(self)@ == ensured(old(self)@, node_id@, opt_attributes_view(attributes)),
            i == ensured_index(old(self)@, node_id@),
            i < final(self)@.len(),
    {
        proof {
            lemma_index_of(self@, node_id@.text);
        }
        match self.find(node_id.lexeme) {
            Some(i) => {
                if let Some(attributes) = attributes {
                    let ghost before = self@;
                    self.all_nodes[i].attributes.merge(attributes);
                    proof {
                        assert(self@ =~= ensured(before, node_id@, opt_attributes_view(Some(attributes))));
                    }
                }
                i
            },
            None => {
                let ghost before = self@;
                let node_type = NodeType::new(node_id, attributes.as_ref());
                let attributes = match attributes {
                    Some(a) => a,
                    None => Attributes { comment: None, pos: None, label: None, node_type: None },
                };
                self.all_nodes.push(Node { node_id, node_type, attributes });
                proof {
                    assert(self@ =~= ensured(before, node_id@, opt_attributes_view(Some(attributes))) || true);
                    assert(self@ =~= before.push(self@.last()));
                }
                self.all_nodes.len() - 1
            },
        }
    }

    /// Records an edge out of the node at `i`.
    fn add_output_at(&mut self, i: usize)
        requires
            i < old(self)@.len(),
        ensures
            final(self)@ == retyped(old(self)@, i as int, with_output(old(self)@[i as int].node_type)),
    {
        let ghost before = self@;
        self.all_nodes[i].node_type.add_output();
        proof {
            assert(self@ =~= retyped(before, i as int, with_output(before[i as int].node_type)));
        }
    }

    /// Records an edge into the node at `i` from the node `input`.
    fn add_input_at(&mut self, i: usize, input: NodeId<'source>)
        requires
            i < old(self)@.len(),
        ensures
            final(self)@ == retyped(
                old(self)@,
                i as int,
                with_input(old(self)@[i as int].node_type, input.spec_bytes()),
            ),
    {
        let ghost before = self@;
        self.all_nodes[i].node_type.add_input(input);
        proof {
            assert(self@ =~= retyped(before, i as int, with_input(before[i as int].node_type, input.spec_bytes())));
        }
    }

    /// Where the node named `node_id` stands, if there is one.
    fn find(&self, node_id: NodeId) -> (i: Option<usize>)
        ensures
            match i {
                Some(i) => i == index_of(self@, node_id.spec_bytes()),
                None => index_of(self@, node_id.spec_bytes()) < 0,
            },
    {
        let ghost k = node_id.spec_bytes();
        let mut i = self.all_nodes.len();
        proof {
            assert(self@.subrange(0, i as int) =~= self@);
        }
        while i > 0
            invariant
                k == node_id.spec_bytes(),
                i <= self@.len(),
                self@.len() == self.all_nodes@.len(),
                index_of(self@, k) == index_of(self@.subrange(0, i as int), k),
            decreases i,
        {
            let ghost prefix = self@.subrange(0, i as int);
            proof {
                assert(prefix.last() == self@[i - 1]);
                assert(self@[i - 1] == self.all_nodes@[i - 1]@);
            }
            if same_text(self.all_nodes[i - 1].node_id.lexeme, node_id) {
                return Some(i - 1);
            }
            proof {
                assert(prefix.drop_last() =~= self@.subrange(0, i - 1));
            }
            i -= 1;
        }
        None
    }

    /// The node named `node_id`, if there is one.
    pub fn get_node(&self, node_id: NodeId) -> (node: Option<&Node<'source>>)
        ensures
            match node {
                Some(n) => index_of(self@, node_id.spec_bytes()) >= 0 && n@ == self@[index_of(
                    self@,
                    node_id.spec_bytes(),
                )],
                None => index_of(self@, node_id.spec_bytes()) < 0,
            },
    {
        proof {
            lemma_index_of(self@, node_id.spec_bytes());
        }
        match self.find(node_id) {
            Some(i) => {
                proof {
                    assert(self@[i as int] == self.all_nodes@[i as int]@);
                }
                Some(&self.all_nodes[i])
            },
            None => None,
        }
    }

    /// The node named `return`.
    pub fn get_return_node(&self) -> (node: &Node<'source>)
        requires
            index_of(self@, return_id()) >= 0,
        ensures
            node@ == self@[index_of(self@, return_id())],
    {
        let name = "return";
        proof {
            reveal_strlit("return");
            vstd::string::is_ascii_spec_bytes(name);
            assert(name.spec_bytes() =~= return_id());
        }
        match self.get_node(name) {
            Some(node) => node,
            None => {
                proof {
                    assert(false);
                }
                &self.all_nodes[0]
            },
        }
    }
}

/// A node of the graph: its id token, its type and its attributes.
#[derive(Debug)]
pub struct Node<'source> {
    pub node_id: Token<'source>,
    pub node_type: NodeType<'source>,
    pub attributes: Attributes<'source>,
}

impl<'source> View for Node<'source> {
    type V = NodeView;

    open spec fn view(&self) -> NodeView {
        NodeView { id: self.node_id@, node_type: self.node_type@, attributes: self.attributes@ }
    }
}

/// The kind of a node.
#[derive(Debug)]
pub enum NodeType<'source> {
    Literal,
    /// A variable definition is a function definition with arity=0
    Definition { body: Option<NodeId<'source>>, arity: u8 },
    /// A reference to a function or variable
    Reference { arguments: Vec<NodeId<'source>> },
    Return { argument: Option<NodeId<'source>> },
}

impl<'source> View for NodeType<'source> {
    type V = NodeTypeView;

    open spec fn view(&self) -> NodeTypeView {
        match self {
            NodeType::Literal => NodeTypeView::Literal,
            NodeType::Definition { body, arity } => NodeTypeView::Definition { body: opt_id_view(*body), arity: *arity },
            NodeType::Reference { arguments } => NodeTypeView::Reference {
                arguments: arguments@.map_values(|a: NodeId<'source>| a.spec_bytes()),
            },
            NodeType::Return { argument } => NodeTypeView::Return { argument: opt_id_view(*argument) },
        }
    }
}

impl<'source> NodeType<'source> {
    /// The type of a new node named by `node_id`.
    fn new(node_id: Token<'source>, attributes: Option<&Attributes<'source>>) -> (t: NodeType<'source>)
        ensures
            t@ == new_node_type(node_id@, opt_ref_attributes_view(attributes)),
    {
        if let Some(node) = Self::from_type_attribute(attributes) {
            return node;
        }
        if let Some(node) = Self::from_name(node_id, attributes) {
            return node;
        }
        NodeType::Definition { body: None, arity: 0 }
    }

    fn from_type_attribute(attributes: Option<&Attributes<'source>>) -> (t: Option<NodeType<'source>>)
        ensures
            match t {
                Some(t) => type_from_attribute(opt_ref_attributes_view(attributes)) == Some(t@),
                None => type_from_attribute(opt_ref_attributes_view(attributes)) is None,
            },
    {
        match attributes {
            None => None,
            Some(a) => match a.node_type {
                None => None,
                Some(t) => {
                    let def: &[u8] = &['d' as u8, 'e' as u8, 'f' as u8];
                    let rf: &[u8] = &['r' as u8, 'e' as u8, 'f' as u8];
                    let ret: &[u8] = &['r' as u8, 'e' as u8, 't' as u8, 'u' as u8, 'r' as u8, 'n' as u8];
                    proof {
                        assert(def@ =~= seq!['d' as u8, 'e' as u8, 'f' as u8]);
                        assert(rf@ =~= seq!['r' as u8, 'e' as u8, 'f' as u8]);
                        assert(ret@ =~= seq!['r' as u8, 'e' as u8, 't' as u8, 'u' as u8, 'r' as u8, 'n' as u8]);
                    }
                    if text_is(t.lexeme, def) {
                        Some(NodeType::Definition { body: None, arity: 0 })
                    } else if text_is(t.lexeme, rf) {
                        let arguments: Vec<NodeId<'source>> = Vec::new();
                        proof {
                            assert(arguments@.map_values(|a: NodeId<'source>| a.spec_bytes()) =~= Seq::<
                                Seq<u8>,
                            >::empty());
                        }
                        Some(NodeType::Reference { arguments })
                    } else if text_is(t.lexeme, ret) {
                        Some(NodeType::Return { argument: None })
                    } else {
                        None
                    }
                },
            },
        }
    }

    /// Deduce the node type using the node_id or label
    fn from_name(token: Token<'source>, attributes: Option<&Attributes<'source>>) -> (t: Option<NodeType<'source>>)
        ensures
            match t {
                Some(t) => type_from_name(token@, opt_ref_attributes_view(attributes)) == Some(t@),
                None => type_from_name(token@, opt_ref_attributes_view(attributes)) is None,
            },
        decreases (if attributes is Some { 1nat } else { 0nat }),
    {
        if token.token_type == TokenType::Number || token.token_type == TokenType::String {
            Some(NodeType::Literal)
        } else if token.token_type == TokenType::Identifier {
            // try again with label
            match attributes {
                Some(a) => match a.label {
                    Some(label) => Self::from_name(label, None),
                    None => None,
                },
                None => None,
            }
        } else if token.token_type == TokenType::Return {
            Some(NodeType::Return { argument: None })
        } else {
            None
        }
    }

    /// Records an edge into this node from `input`.
    fn add_input(&mut self, input: NodeId<'source>)
        ensures
            final(self)@ == with_input(old(self)@, input.spec_bytes()),
    {
        match self {
            NodeType::Reference { arguments } => {
                let ghost before = arguments@;
                arguments.push(input);
                proof {
                    assert(arguments@.map_values(|a: NodeId<'source>| a.spec_bytes()) =~= before.map_values(
                        |a: NodeId<'source>| a.spec_bytes(),
                    ).push(input.spec_bytes()));
                }
            },
            NodeType::Definition { body, .. } => *body = Some(input),
            NodeType::Return { argument } => *argument = Some(input),
            NodeType::Literal => {},
        }
    }

    /// Records an edge out of this node: a definition becomes a reference.
    fn add_output(&mut self)
        ensures
            final(self)@ == with_output(old(self)@),
    {
        if let NodeType::Definition { body, .. } = *self {
            let arguments = match body {
                Some(b) => {
                    let v = vec![b];
                    proof {
                        assert(v@.map_values(|a: NodeId<'source>| a.spec_bytes()) =~= seq![b.spec_bytes()]);
                    }
                    v
                },
                None => {
                    let v: Vec<NodeId<'source>> = Vec::new();
                    proof {
                        assert(v@.map_values(|a: NodeId<'source>| a.spec_bytes()) =~= Seq::<Seq<u8>>::empty());
                    }
                    v
                },
            };
            *self = NodeType::Reference { arguments };
        }
    }
}

/// The attributes a node statement may give: `comment`, `pos`, `label` and `type`.
#[derive(Clone, Copy, Debug)]
pub struct Attributes<'source> {
    pub comment: Option<Token<'source>>,
    pub pos: Option<Token<'source>>,
    pub label: Option<Token<'source>>,
    pub node_type: Option<Token<'source>>,
}

impl<'source> View for Attributes<'source> {
    type V = AttributesView;

    open spec fn view(&self) -> AttributesView {
        AttributesView {
            comment: opt_token_view(self.comment),
            pos: opt_token_view(self.pos),
            label: opt_token_view(self.label),
            node_type: opt_token_view(self.node_type),
        }
    }
}

impl<'source> Attributes<'source> {
    /// Takes the comment, position and label that `other` sets.
    fn merge(&mut self, other: Self)
        ensures
            final(self)@ == merged(old(self)@, other@),
    {
        if other.comment.is_some() {
            self.comment = other.comment;
        }
        if other.pos.is_some() {
            self.pos = other.pos;
        }
        if other.label.is_some() {
            self.label = other.label;
        }
    }
}


// ---------------------------------------------------------------------------
// The token cursor
// ---------------------------------------------------------------------------

/// What a diagnostic says, as plain values.
pub enum MessageView {
    Text(Seq<u8>),
    UnexpectedAttribute(Seq<u8>),
}

pub struct DiagnosticView {
    pub token: TokView,
    pub message: MessageView,
}

/// The token cursor's state: the scanner position, the current and previous
/// tokens, and the first error reported (later ones are suppressed).
pub struct TokState {
    pub pos: int,
    pub current: TokView,
    pub previous: TokView,
    pub diagnostic: Option<DiagnosticView>,
}

pub open spec fn none_token() -> TokView {
    TokView { kind: TokenType::Error, text: Seq::empty(), line: 0 }
}

pub open spec fn reported(d: Option<DiagnosticView>, token: TokView, m: MessageView) -> Option<DiagnosticView> {
    if d is Some {
        d
    } else {
        Some(DiagnosticView { token, message: m })
    }
}

/// Scanning on from `pos` to the next token that is not an error token; each error
/// token passed is reported with its message.
pub open spec fn scan_good(s: Seq<u8>, pos: int, d: Option<DiagnosticView>) -> (int, TokView, Option<DiagnosticView>)
    decreases s.len() - pos,
{
    let t = lex(s, pos);
    if t.kind == TokenType::Error && 0 <= pos <= s.len() {
        proof {
            lemma_lex_bounds(s, pos);
        }
        scan_good(s, t.end, reported(d, lexed_view(s, t), MessageView::Text(lexed_view(s, t).text)))
    } else {
        (t.end, lexed_view(s, t), d)
    }
}

/// The cursor after moving to the next token.
pub open spec fn advanced(s: Seq<u8>, t: TokState) -> TokState {
    let (pos, current, diagnostic) = scan_good(s, t.pos, t.diagnostic);
    TokState { pos, current, previous: t.current, diagnostic }
}

/// The cursor after an error at `at`.
pub open spec fn errored(t: TokState, at: TokView, m: MessageView) -> TokState {
    TokState { diagnostic: reported(t.diagnostic, at, m), ..t }
}

/// The cursor after expecting a token of type `k`: it moves on past one, and reports
/// `message` at anything else.
pub open spec fn consumed(s: Seq<u8>, t: TokState, k: TokenType, message: Seq<u8>) -> TokState {
    if t.current.kind == k {
        advanced(s, t)
    } else {
        errored(t, t.current, MessageView::Text(message))
    }
}

/// The cursor after moving past a token of type `k`, if that is the current one.
pub open spec fn matched(s: Seq<u8>, t: TokState, k: TokenType) -> TokState {
    if t.current.kind == k {
        advanced(s, t)
    } else {
        t
    }
}

/// A measure that moving on strictly lowers while there is input left.
pub open spec fn measure(s: Seq<u8>, t: TokState) -> nat {
    (2 * (s.len() - t.pos) + (if t.current.kind == TokenType::Eof { 0int } else { 1int })) as nat
}

/// The cursor is well placed in `s`.
pub open spec fn cursor_ok(s: Seq<u8>, t: TokState) -> bool {
    &&& 0 <= t.pos <= s.len()
    &&& scans_from(s, t.pos)
    &&& t.current.kind == TokenType::Eof ==> t.pos == s.len()
}

pub proof fn lemma_scan_good(s: Seq<u8>, pos: int, d: Option<DiagnosticView>)
    requires
        0 <= pos <= s.len(),
        scans_from(s, pos),
    ensures
        pos <= scan_good(s, pos, d).0 <= s.len(),
        scans_from(s, scan_good(s, pos, d).0),
        scan_good(s, pos, d).1.kind != TokenType::Error,
        scan_good(s, pos, d).1.kind == TokenType::Eof ==> scan_good(s, pos, d).0 == s.len(),
        scan_good(s, pos, d).1.kind != TokenType::Eof ==> pos < scan_good(s, pos, d).0,
    decreases s.len() - pos,
{
    let t = lex(s, pos);
    lemma_lex_bounds(s, pos);
    if t.kind == TokenType::Error {
        lemma_lex_advances(s, pos);
        lemma_scan_good(s, t.end, reported(d, lexed_view(s, t), MessageView::Text(lexed_view(s, t).text)));
    } else if t.kind != TokenType::Eof && pos < s.len() {
        lemma_lex_advances(s, pos);
    }
}

pub proof fn lemma_advanced(s: Seq<u8>, t: TokState)
    requires
        cursor_ok(s, t),
    ensures
        cursor_ok(s, advanced(s, t)),
        advanced(s, t).current.kind != TokenType::Error,
        measure(s, advanced(s, t)) <= measure(s, t),
        t.current.kind != TokenType::Eof ==> measure(s, advanced(s, t)) < measure(s, t),
{
    lemma_scan_good(s, t.pos, t.diagnostic);
}

/// A diagnostic message.
#[derive(Clone, Copy, Debug)]
pub enum Message<'source> {
    Text(&'source str),
    /// An attribute name other than `comment`, `pos`, `label` and `type`.
    UnexpectedAttribute(&'source str),
}

/// The first parse error: the token it was found at and what is wrong.
#[derive(Clone, Copy, Debug)]
pub struct Diagnostic<'source> {
    pub token: Token<'source>,
    pub message: Message<'source>,
}

pub open spec fn message_view(m: Message) -> MessageView {
    match m {
        Message::Text(t) => MessageView::Text(t.spec_bytes()),
        Message::UnexpectedAttribute(t) => MessageView::UnexpectedAttribute(t.spec_bytes()),
    }
}

pub open spec fn diagnostic_view(d: Option<Diagnostic>) -> Option<DiagnosticView> {
    match d {
        Some(d) => Some(DiagnosticView { token: d.token@, message: message_view(d.message) }),
        None => None,
    }
}

struct Tokens<'source> {
    scanner: Scanner<'source>,
    current: Token<'source>,
    previous: Token<'source>,
    had_error: bool,
    panic_mode: bool,
    diagnostic: Option<Diagnostic<'source>>,
}

impl<'source> View for Tokens<'source> {
    type V = TokState;

    closed spec fn view(&self) -> TokState {
        TokState {
            pos: self.scanner.position(),
            current: self.current@,
            previous: self.previous@,
            diagnostic: diagnostic_view(self.diagnostic),
        }
    }
}

impl<'source> Tokens<'source> {
    spec fn bytes(&self) -> Seq<u8> {
        self.scanner.bytes()
    }

    spec fn wf(&self) -> bool {
        &&& self.scanner.wf()
        &&& newlines_before(self.bytes(), self.bytes().len() as int) < u32::MAX
        &&& cursor_ok(self.bytes(), self@)
        &&& self.had_error == self.diagnostic is Some
        &&& self.panic_mode == self.diagnostic is Some
    }

    fn new(source: &'source str) -> (t: Self)
        ensures
            t.bytes() == source.spec_bytes(),
            t@ == (TokState { pos: 0, current: none_token(), previous: none_token(), diagnostic: None }),
            t.scanner.wf(),
            !t.had_error,
            !t.panic_mode,
    {
        Self {
            scanner: Scanner::new(source),
            current: Token::none(),
            previous: Token::none(),
            had_error: false,
            panic_mode: false,
            diagnostic: None,
        }
    }

    fn advance(&mut self)
        requires
            old(self).wf(),
        ensures
            final(self).wf(),
            final(self).bytes() == old(self).bytes(),
            final(self)@ == advanced(old(self).bytes(), old(self)@),
            measure(final(self).bytes(), final(self)@) <= measure(old(self).bytes(), old(self)@),
            old(self)@.current.kind != TokenType::Eof ==> measure(final(self).bytes(), final(self)@) < measure(
                old(self).bytes(),
                old(self)@,
            ),
    {
        let ghost s = self.bytes();
        let ghost target = scan_good(s, self@.pos, self@.diagnostic);
        proof {
            lemma_scan_good(s, self@.pos, self@.diagnostic);
        }
        self.previous = self.current;
        let ghost prev = self.previous@;
        loop
            invariant_except_break
                scan_good(s, self@.pos, self@.diagnostic) == target,
            invariant
                self.scanner.wf(),
                self.bytes() == s,
                newlines_before(s, s.len() as int) < u32::MAX,
                0 <= self@.pos <= s.len(),
                scans_from(s, self@.pos),
                self.had_error == self.diagnostic is Some,
                self.panic_mode == self.diagnostic is Some,
                self.previous@ == prev,
            ensures
                self.scanner.wf(),
                self.bytes() == s,
                self.had_error == self.diagnostic is Some,
                self.panic_mode == self.diagnostic is Some,
                self.previous@ == prev,
                (self@.pos, self@.current, self@.diagnostic) == target,
            decreases s.len() - self@.pos,
        {
            let ghost pos = self@.pos;
            proof {
                lemma_lex_bounds(s, pos);
            }
            self.current = self.scanner.scan_token();
            if self.current.token_type != TokenType::Error {
                break;
            }
            proof {
                lemma_lex_advances(s, pos);
            }
            self.error_at_current(Message::Text(self.current.lexeme));
        }
        proof {
            lemma_scan_good(s, old(self)@.pos, old(self)@.diagnostic);
            lemma_advanced(s, old(self)@);
        }
    }

    /// Moves past a token of type `token_type`, or reports `message`.
    fn consume(&mut self, token_type: TokenType, message: &'static str)
        requires
            old(self).wf(),
        ensures
            final(self).wf(),
            final(self).bytes() == old(self).bytes(),
            final(self)@ == consumed(old(self).bytes(), old(self)@, token_type, message.spec_bytes()),
            measure(final(self).bytes(), final(self)@) <= measure(old(self).bytes(), old(self)@),
    {
        if self.check(token_type) {
            self.advance();
            return;
        }
        self.error_at_current(Message::Text(message));
    }

    /// Moves past a token of type `token_type` if that is the current one.
    fn advance_matching(&mut self, token_type: TokenType) -> (r: bool)
        requires
            old(self).wf(),
        ensures
            final(self).wf(),
            final(self).bytes() == old(self).bytes(),
            r == (old(self)@.current.kind == token_type),
            final(self)@ == matched(old(self).bytes(), old(self)@, token_type),
            measure(final(self).bytes(), final(self)@) <= measure(old(self).bytes(), old(self)@),
            r && old(self)@.current.kind != TokenType::Eof ==> measure(final(self).bytes(), final(self)@)
                < measure(old(self).bytes(), old(self)@),
    {
        if !self.check(token_type) {
            return false;
        }
        self.advance();
        true
    }

    fn check(&self, token_type: TokenType) -> (r: bool)
        ensures
            r == (self@.current.kind == token_type),
    {
        self.current.token_type == token_type
    }

    fn error_at_current(&mut self, message: Message<'source>)
        requires
            old(self).panic_mode == old(self).diagnostic is Some,
        ensures
            final(self).scanner == old(self).scanner,
            final(self).current == old(self).current,
            final(self).previous == old(self).previous,
            final(self)@ == errored(old(self)@, old(self)@.current, message_view(message)),
            old(self).had_error == old(self).diagnostic is Some ==> final(self).had_error == final(self).diagnostic is Some,
            final(self).panic_mode == final(self).diagnostic is Some,
    {
        self.error_at(self.current, message)
    }

    fn error_str(&mut self, message: Message<'source>)
        requires
            old(self).panic_mode == old(self).diagnostic is Some,
        ensures
            final(self).scanner == old(self).scanner,
            final(self).current == old(self).current,
            final(self).previous == old(self).previous,
            final(self)@ == errored(old(self)@, old(self)@.previous, message_view(message)),
            old(self).had_error == old(self).diagnostic is Some ==> final(self).had_error == final(self).diagnostic is Some,
            final(self).panic_mode == final(self).diagnostic is Some,
    {
        self.error_at(self.previous, message);
    }

    fn error(&mut self, error: LoxError)
        requires
            old(self).panic_mode == old(self).diagnostic is Some,
        ensures
            final(self).scanner == old(self).scanner,
            final(self).current == old(self).current,
            final(self).previous == old(self).previous,
            final(self)@ == match error {
                LoxError::CompileError(m) => errored(old(self)@, old(self)@.previous, MessageView::Text(m.spec_bytes())),
                LoxError::RuntimeError => old(self)@,
            },
            old(self).had_error == old(self).diagnostic is Some ==> final(self).had_error == final(self).diagnostic is Some,
            final(self).panic_mode == final(self).diagnostic is Some,
    {
        if let LoxError::CompileError(message) = error {
            self.error_at(self.previous, Message::Text(message))
        }
    }

    /// Records the first error; later ones are suppressed.
    fn error_at(&mut self, token: Token<'source>, message: Message<'source>)
        requires
            old(self).panic_mode == old(self).diagnostic is Some,
        ensures
            final(self).scanner == old(self).scanner,
            final(self).current == old(self).current,
            final(self).previous == old(self).previous,
            final(self)@ == errored(old(self)@, token@, message_view(message)),
            old(self).had_error == old(self).diagnostic is Some ==> final(self).had_error == final(self).diagnostic is Some,
            final(self).panic_mode == final(self).diagnostic is Some,
    {
        if self.panic_mode {
            return;
        }
        self.panic_mode = true;
        self.diagnostic = Some(Diagnostic { token, message });
        self.had_error = true;
    }
}

// ---------------------------------------------------------------------------
// The grammar: what parsing does to the cursor and the graph
// ---------------------------------------------------------------------------

/// The parser's state: the token cursor and the nodes found so far.
pub struct PState {
    pub toks: TokState,
    pub nodes: Seq<NodeView>,
}

pub open spec fn text_of(s: &str) -> Seq<u8> {
    s.spec_bytes()
}

pub open spec fn attribute_name_comment() -> Seq<u8> {
    seq!['c' as u8, 'o' as u8, 'm' as u8, 'm' as u8, 'e' as u8, 'n' as u8, 't' as u8]
}

pub open spec fn attribute_name_pos() -> Seq<u8> {
    seq!['p' as u8, 'o' as u8, 's' as u8]
}

pub open spec fn attribute_name_label() -> Seq<u8> {
    seq!['l' as u8, 'a' as u8, 'b' as u8, 'e' as u8, 'l' as u8]
}

pub open spec fn attribute_name_type() -> Seq<u8> {
    seq!['t' as u8, 'y' as u8, 'p' as u8, 'e' as u8]
}

/// One `name=value` item of an attribute list: the cursor after it and the attributes
/// it sets.
pub open spec fn attribute_item(s: Seq<u8>, t: TokState, a: AttributesView) -> (TokState, AttributesView) {
    let t1 = consumed(s, t, TokenType::Identifier, text_of("Expected attribute name in attribute list."));
    let name = t1.previous;
    let t2 = consumed(s, t1, TokenType::Equal, text_of("Expected '=' after attribute name."));
    let value = Some(t2.current);
    let (t3, a2) = if name.text == attribute_name_comment() {
        (t2, AttributesView { comment: value, ..a })
    } else if name.text == attribute_name_pos() {
        (t2, AttributesView { pos: value, ..a })
    } else if name.text == attribute_name_label() {
        (t2, AttributesView { label: value, ..a })
    } else if name.text == attribute_name_type() {
        (t2, AttributesView { node_type: value, ..a })
    } else {
        (errored(t2, t2.previous, MessageView::UnexpectedAttribute(name.text)), a)
    };
    (advanced(s, t3), a2)
}

/// The comma-separated items of an attribute list.
pub open spec fn attribute_items(s: Seq<u8>, t: TokState, a: AttributesView, fuel: nat) -> (TokState, AttributesView)
    decreases fuel,
{
    let (t1, a1) = attribute_item(s, t, a);
    if t1.current.kind == TokenType::Comma && fuel > 0 {
        attribute_items(s, advanced(s, t1), a1, (fuel - 1) as nat)
    } else {
        (matched(s, t1, TokenType::Comma), a1)
    }
}

/// An optional bracketed attribute list.
pub open spec fn attribute_list(s: Seq<u8>, t: TokState) -> (TokState, Option<AttributesView>) {
    if t.current.kind == TokenType::LeftBracket {
        let t1 = advanced(s, t);
        let (t2, a) = if t1.current.kind != TokenType::RightBracket {
            attribute_items(s, t1, no_attributes(), measure(s, t1))
        } else {
            (t1, no_attributes())
        };
        (consumed(s, t2, TokenType::RightBracket, text_of("Expected ']' after attribute list.")), Some(a))
    } else {
        (t, None)
    }
}

/// An edge from `node_id` to the current token, and on along a chain of `->`.
pub open spec fn edge_statement(s: Seq<u8>, p: PState, node_id: TokView, fuel: nat) -> PState
    decreases fuel,
{
    let n1 = ensured(p.nodes, node_id, None);
    let i = ensured_index(p.nodes, node_id);
    let n2 = retyped(n1, i, with_output(n1[i].node_type));
    let target = p.toks.current;
    let n3 = ensured(n2, target, None);
    let j = ensured_index(n2, target);
    let n4 = retyped(n3, j, with_input(n3[j].node_type, node_id.text));
    let t1 = advanced(s, p.toks);
    if t1.current.kind == TokenType::Arrow && fuel > 0 {
        edge_statement(s, PState { toks: advanced(s, t1), nodes: n4 }, target, (fuel - 1) as nat)
    } else {
        PState { toks: matched(s, t1, TokenType::Arrow), nodes: n4 }
    }
}

/// Two node lists with the same ids at the same places find every id at the
/// same place.
proof fn lemma_index_of_same_ids(a: Seq<NodeView>, b: Seq<NodeView>, id: Seq<u8>)
    requires
        a.len() == b.len(),
        forall|k: int| 0 <= k < a.len() ==> #[trigger] a[k].id.text == b[k].id.text,
    ensures
        index_of(a, id) == index_of(b, id),
    decreases a.len(),
{
    if a.len() > 0 {
        assert forall|k: int| 0 <= k < a.drop_last().len() implies #[trigger] a.drop_last()[k].id.text
            == b.drop_last()[k].id.text by {
            assert(a[k].id.text == b[k].id.text);
        }
        assert(a.last().id.text == b.last().id.text);
        lemma_index_of_same_ids(a.drop_last(), b.drop_last(), id);
    }
}

/// An edge into a known node, as the last edge of its statement: into a
/// reference it appends the edge's source at the end of the reference's
/// arguments, so that after the edge the arguments are the ones before it
/// followed by the source, and a reference's arguments keep the order of the
/// edges into it in the text. Into a definition from another node it makes the
/// source the definition's body, keeping its arity; into a return node from
/// another node it makes the source the value returned; a literal stays as it
/// is. The node keeps its place and its id.
pub proof fn an_edge_records_its_source_in_its_target(s: Seq<u8>, p: PState, source: TokView, fuel: nat)
    requires
        index_of(p.nodes, p.toks.current.text) >= 0,
        !(advanced(s, p.toks).current.kind == TokenType::Arrow && fuel > 0),
    ensures
        ({
            let j = index_of(p.nodes, p.toks.current.text);
            let after = edge_statement(s, p, source, fuel).nodes;
            &&& j < after.len()
            &&& after[j].id == p.nodes[j].id
            &&& index_of(after, p.toks.current.text) == j
            &&& p.nodes[j].node_type matches NodeTypeView::Reference { arguments: before } ==> after[j].node_type matches NodeTypeView::Reference {
                arguments,
            } && arguments.len() == before.len() + 1 && arguments.subrange(0, before.len() as int) == before
                && arguments.last() == source.text
            &&& source.text != p.toks.current.text ==> (p.nodes[j].node_type matches NodeTypeView::Definition {
                arity,
                ..
            } ==> after[j].node_type == NodeTypeView::Definition { body: Some(source.text), arity })
            &&& source.text != p.toks.current.text ==> (p.nodes[j].node_type is Return ==> after[j].node_type
                == NodeTypeView::Return { argument: Some(source.text) })
            &&& p.nodes[j].node_type is Literal ==> after[j].node_type is Literal
        }),
{
    let target = p.toks.current;
    let j = index_of(p.nodes, target.text);
    lemma_index_of(p.nodes, target.text);
    lemma_index_of(p.nodes, source.text);
    let n1 = ensured(p.nodes, source, None);
    let i = ensured_index(p.nodes, source);
    let n2 = retyped(n1, i, with_output(n1[i].node_type));
    if index_of(p.nodes, source.text) < 0 {
        assert(source.text != target.text);
        assert(n1.drop_last() =~= p.nodes);
        assert(index_of(n1, target.text) == j);
    }
    assert(index_of(n1, target.text) == j);
    assert(n1[j] == p.nodes[j]);
    lemma_index_of_same_ids(n1, n2, target.text);
    assert(index_of(n2, target.text) == j);
    assert(i != j ==> n2[j].node_type == p.nodes[j].node_type);
    assert(i == j ==> n2[j].node_type == with_output(p.nodes[j].node_type));
    if source.text != target.text {
        assert(i != j);
    }
    let n3 = ensured(n2, target, None);
    assert(n3 == n2);
    let n4 = retyped(n3, j, with_input(n3[j].node_type, source.text));
    assert(edge_statement(s, p, source, fuel).nodes == n4);
    lemma_index_of_same_ids(n2, n4, target.text);
    if let NodeTypeView::Reference { arguments: before } = p.nodes[j].node_type {
        assert(before.push(source.text).subrange(0, before.len() as int) =~= before);
    }
}

/// A node statement: the node just passed, with an optional attribute list.
pub open spec fn node_statement(s: Seq<u8>, p: PState) -> PState {
    let node_id = p.toks.previous;
    let (t1, a) = attribute_list(s, p.toks);
    PState { toks: t1, nodes: ensured(p.nodes, node_id, a) }
}

/// A node statement, or an edge statement when the node is followed by `->`.
pub open spec fn declaration(s: Seq<u8>, p: PState) -> PState {
    let node_id = p.toks.current;
    let t1 = advanced(s, p.toks);
    if t1.current.kind == TokenType::Arrow {
        let t2 = advanced(s, t1);
        edge_statement(s, PState { toks: t2, nodes: p.nodes }, node_id, measure(s, t2))
    } else {
        node_statement(s, PState { toks: t1, nodes: p.nodes })
    }
}

/// Declarations up to a `}` or the end of input.
pub open spec fn block_items(s: Seq<u8>, p: PState, fuel: nat) -> PState
    decreases fuel,
{
    if fuel == 0 || p.toks.current.kind == TokenType::RightBrace || p.toks.current.kind == TokenType::Eof {
        p
    } else {
        block_items(s, declaration(s, p), (fuel - 1) as nat)
    }
}

pub open spec fn block(s: Seq<u8>, p: PState) -> PState {
    let p1 = block_items(s, p, measure(s, p.toks));
    PState { toks: consumed(s, p1.toks, TokenType::RightBrace, text_of("Expect '}' after block.")), nodes: p1.nodes }
}

/// `digraph [name] { ... }`
pub open spec fn digraph(s: Seq<u8>, p: PState) -> PState {
    if p.toks.current.kind == TokenType::Digraph {
        let t1 = advanced(s, p.toks);
        let t2 = matched(s, t1, TokenType::Identifier);
        let t3 = consumed(s, t2, TokenType::LeftBrace, text_of("Expect '{' before digraph body."));
        block(s, PState { toks: t3, nodes: p.nodes })
    } else {
        PState { toks: errored(p.toks, p.toks.previous, MessageView::Text(text_of("Expect 'digraph'"))), nodes: p.nodes }
    }
}

pub open spec fn initial_tokens() -> TokState {
    TokState { pos: 0, current: none_token(), previous: none_token(), diagnostic: None }
}

/// The state after the first token and the digraph have been parsed.
pub open spec fn parsed_digraph(s: Seq<u8>) -> PState {
    digraph(s, PState { toks: advanced(s, initial_tokens()), nodes: Seq::empty() })
}

/// Parsing returns: the digraph runs to the end of the input. (Otherwise the loop
/// that skips the rest of the file waits forever for the end of input, as it never
/// moves past any other token.)
pub open spec fn parse_finishes(s: Seq<u8>) -> bool {
    parsed_digraph(s).toks.current.kind == TokenType::Eof
}

/// What parsing the source with bytes `s` yields: the graph's nodes, and the first
/// error found.
pub open spec fn parsed(s: Seq<u8>) -> PState {
    let p2 = parsed_digraph(s);
    PState { toks: advanced(s, p2.toks), nodes: p2.nodes }
}

/// Parses a graph in the dot language.
pub struct Parser<'source> {
    tokens: Tokens<'source>,
    graph: Graph<'source>,
}

impl<'source> View for Parser<'source> {
    type V = PState;

    closed spec fn view(&self) -> PState {
        PState { toks: self.tokens@, nodes: self.graph@ }
    }
}

impl<'source> Parser<'source> {
    /// The UTF-8 bytes of the source being parsed.
    pub closed spec fn bytes(&self) -> Seq<u8> {
        self.tokens.bytes()
    }

    /// The parser is ready to run over a source that can be scanned to its end.
    pub closed spec fn wf(&self) -> bool {
        self.tokens.wf()
    }

    /// A parser at the start of `source`.
    pub fn new(source: &'source str) -> (p: Self)
        ensures
            p.bytes() == source.spec_bytes(),
            p@ == (PState { toks: initial_tokens(), nodes: Seq::empty() }),
            scannable(source) ==> p.wf(),
    {
        let p = Self { tokens: Tokens::new(source), graph: Graph::new() };
        proof {
            if scannable(source) {
                assert(cursor_ok(p.bytes(), p.tokens@));
            }
        }
        p
    }

    /// Parses the whole source into a graph.
    pub fn parse(self) -> (r: Result<Graph<'source>>)
        requires
            self.wf(),
            self@ == (PState { toks: initial_tokens(), nodes: Seq::empty() }),
            parse_finishes(self.bytes()),
        ensures
            r matches Ok(g) && g@ == parsed(self.bytes()).nodes,
    {
        let (graph, _) = self.parse_with_diagnostic();
        Ok(graph)
    }

    /// Parses the whole source into a graph, and returns the first error found, if
    /// any, for the caller to report.
    pub fn parse_with_diagnostic(self) -> (r: (Graph<'source>, Option<Diagnostic<'source>>))
        requires
            self.wf(),
            self@ == (PState { toks: initial_tokens(), nodes: Seq::empty() }),
            parse_finishes(self.bytes()),
        ensures
            r.0@ == parsed(self.bytes()).nodes,
            diagnostic_view(r.1) == parsed(self.bytes()).toks.diagnostic,
    {
        let mut p = self;
        p.tokens.advance();
        p.digraph();
        while !p.tokens.advance_matching(TokenType::Eof)
            invariant
                p.wf(),
                p.bytes() == self.bytes(),
                p@ == parsed_digraph(self.bytes()),
                p@.toks.current.kind == TokenType::Eof,
            decreases 0nat,
        {
            // Skip rest of file
        }
        (p.graph, p.tokens.diagnostic)
    }

    fn digraph(&mut self)
        requires
            old(self).wf(),
        ensures
            final(self).wf(),
            final(self).bytes() == old(self).bytes(),
            final(self)@ == digraph(old(self).bytes(), old(self)@),
    {
        let ghost s = self.bytes();
        if self.tokens.advance_matching(TokenType::Digraph) {
            // Graph names are allowed, but ignored
            if self.tokens.check(TokenType::Identifier) {
                self.tokens.advance();
            }
            self.tokens.consume(TokenType::LeftBrace, "Expect '{' before digraph body.");
            self.block();
        } else {
            self.tokens.error_str(Message::Text("Expect 'digraph'"));
        }
    }

    fn block(&mut self)
        requires
            old(self).wf(),
        ensures
            final(self).wf(),
            final(self).bytes() == old(self).bytes(),
            final(self)@ == block(old(self).bytes(), old(self)@),
    {
        let ghost s = self.bytes();
        let ghost p0 = self@;
        let ghost mut fuel: nat = measure(s, p0.toks);
        while !self.tokens.check(TokenType::RightBrace) && !self.tokens.check(TokenType::Eof)
            invariant
                self.wf(),
                self.bytes() == s,
                measure(s, self@.toks) <= fuel,
                block_items(s, self@, fuel) == block_items(s, p0, measure(s, p0.toks)),
            decreases measure(s, self@.toks),
        {
            self.declaration();
            proof {
                fuel = (fuel - 1) as nat;
            }
        }
        self.tokens.consume(TokenType::RightBrace, "Expect '}' after block.");
    }

    fn declaration(&mut self)
        requires
            old(self).wf(),
            old(self)@.toks.current.kind != TokenType::Eof,
        ensures
            final(self).wf(),
            final(self).bytes() == old(self).bytes(),
            final(self)@ == declaration(old(self).bytes(), old(self)@),
            measure(final(self).bytes(), final(self)@.toks) < measure(old(self).bytes(), old(self)@.toks),
    {
        let ghost s = self.bytes();
        let node_id = self.tokens.current;
        self.tokens.advance();

        // Only edge and node statements supported from dot spec
        if self.tokens.advance_matching(TokenType::Arrow) {
            self.edge_statement(node_id)
        } else {
            self.node_statement()
        }
    }

    fn edge_statement(&mut self, node_id: Token<'source>)
        requires
            old(self).wf(),
        ensures
            final(self).wf(),
            final(self).bytes() == old(self).bytes(),
            forall|fuel: nat|
                fuel >= measure(old(self).bytes(), old(self)@.toks) ==> final(self)@ == edge_statement(
                    old(self).bytes(),
                    old(self)@,
                    node_id@,
                    fuel,
                ),
            measure(final(self).bytes(), final(self)@.toks) <= measure(old(self).bytes(), old(self)@.toks),
        decreases measure(old(self).bytes(), old(self)@.toks),
    {
        let ghost s = self.bytes();
        let ghost p0 = self@;
        let source = self.graph.ensure_node(node_id, None);
        self.graph.add_output_at(source);

        let target_token = self.tokens.current;
        let target = self.graph.ensure_node(target_token, None);
        self.graph.add_input_at(target, node_id.lexeme);

        self.tokens.advance();
        let ghost t1 = self.tokens@;
        if self.tokens.advance_matching(TokenType::Arrow) {
            let ghost p2 = self@;
            self.edge_statement(target_token);
            proof {
                assert forall|fuel: nat| fuel >= measure(s, p0.toks) implies self@ == edge_statement(
                    s,
                    p0,
                    node_id@,
                    fuel,
                ) by {
                    assert(fuel - 1 >= measure(s, p2.toks));
                    assert(t1.current.kind == TokenType::Arrow);
                    assert(p2.toks == advanced(s, t1));
                    assert(edge_statement(s, p0, node_id@, fuel) == edge_statement(s, p2, target_token@, (fuel - 1) as nat));
                }
            }
        }
    }

    fn node_statement(&mut self)
        requires
            old(self).wf(),
        ensures
            final(self).wf(),
            final(self).bytes() == old(self).bytes(),
            final(self)@ == node_statement(old(self).bytes(), old(self)@),
            measure(final(self).bytes(), final(self)@.toks) <= measure(old(self).bytes(), old(self)@.toks),
    {
        let node_id = self.tokens.previous;
        let attributes = Self::attribute_list(&mut self.tokens);
        self.graph.ensure_node(node_id, attributes);
    }

    fn attribute_list(tokens: &mut Tokens<'source>) -> (a: Option<Attributes<'source>>)
        requires
            old(tokens).wf(),
        ensures
            final(tokens).wf(),
            final(tokens).bytes() == old(tokens).bytes(),
            (final(tokens)@, opt_attributes_view(a)) == attribute_list(old(tokens).bytes(), old(tokens)@),
            measure(final(tokens).bytes(), final(tokens)@) <= measure(old(tokens).bytes(), old(tokens)@),
    {
        let ghost s = tokens.bytes();
        if tokens.advance_matching(TokenType::LeftBracket) {
            let mut attributes = Attributes { comment: None, pos: None, label: None, node_type: None };
            let ghost t1 = tokens@;
            let ghost f0 = measure(s, t1);
            let ghost mut fuel: nat = f0;

            if !tokens.check(TokenType::RightBracket) {
                loop
                    invariant_except_break
                        attribute_items(s, tokens@, attributes@, fuel) == attribute_items(s, t1, no_attributes(), f0),
                        measure(s, tokens@) <= fuel,
                    invariant
                        tokens.wf(),
                        tokens.bytes() == s,
                        measure(s, tokens@) <= measure(s, t1),
                    ensures
                        (tokens@, attributes@) == attribute_items(s, t1, no_attributes(), f0),
                    decreases measure(s, tokens@),
                {
                    let ghost t0 = tokens@;
                    let ghost a0 = attributes@;
                    tokens.consume(TokenType::Identifier, "Expected attribute name in attribute list.");
                    let name = tokens.previous;
                    tokens.consume(TokenType::Equal, "Expected '=' after attribute name.");
                    let comment: &[u8] = &['c' as u8, 'o' as u8, 'm' as u8, 'm' as u8, 'e' as u8, 'n' as u8, 't' as u8];
                    let pos: &[u8] = &['p' as u8, 'o' as u8, 's' as u8];
                    let label: &[u8] = &['l' as u8, 'a' as u8, 'b' as u8, 'e' as u8, 'l' as u8];
                    let node_type: &[u8] = &['t' as u8, 'y' as u8, 'p' as u8, 'e' as u8];
                    proof {
                        assert(comment@ =~= attribute_name_comment());
                        assert(pos@ =~= attribute_name_pos());
                        assert(label@ =~= attribute_name_label());
                        assert(node_type@ =~= attribute_name_type());
                    }
                    if text_is(name.lexeme, comment) {
                        attributes.comment = Some(tokens.current);
                    } else if text_is(name.lexeme, pos) {
                        attributes.pos = Some(tokens.current);
                    } else if text_is(name.lexeme, label) {
                        attributes.label = Some(tokens.current);
                    } else if text_is(name.lexeme, node_type) {
                        attributes.node_type = Some(tokens.current);
                    } else {
                        tokens.error_str(Message::UnexpectedAttribute(name.lexeme));
                    }
                    tokens.advance();
                    proof {
                        assert((tokens@, attributes@) == attribute_item(s, t0, a0));
                    }

                    if !tokens.advance_matching(TokenType::Comma) {
                        break;
                    }
                    proof {
                        fuel = (fuel - 1) as nat;
                    }
                }
            }
            tokens.consume(TokenType::RightBracket, "Expected ']' after attribute list.");
            return Some(attributes);
        }
        None
    }
}

/// Parses `source`, or returns `None` where parsing would not return: where
/// scanning would index past the end of the source, where the line count would
/// overflow, or where the digraph does not run to the end of the input.
pub fn parse_source<'source>(source: &'source str) -> (r: Option<(Graph<'source>, Option<Diagnostic<'source>>)>)
    ensures
        r is Some <==> scannable(source) && parse_finishes(source.spec_bytes()),
        r matches Some(r) ==> r.0@ == parsed(source.spec_bytes()).nodes && diagnostic_view(r.1) == parsed(
            source.spec_bytes(),
        ).toks.diagnostic,
{
    if !crate::scanner::is_scannable(source) {
        return None;
    }
    let mut p = Parser::new(source);
    p.tokens.advance();
    p.digraph();
    if !p.tokens.check(TokenType::Eof) {
        return None;
    }
    p.tokens.advance();
    Some((p.graph, p.tokens.diagnostic))
}

} // verus!
