//! The syntax tree: the parse tree without its spans, separators, comments
//! and empty nodes.

use vstd::prelude::*;
use vstd::std_specs::cmp::PartialEqSpecImpl;
use vstd::string::*;
use crate::parser::ParseTree;
use crate::token::{views, Token, TokenView};

verus! {

/// A node of the syntax tree.
#[derive(Debug)]
pub enum Node {
    File { children: Vec<Node> },
    Path { children: Vec<Node> },
    Segment(String),
    Negate,
}

/// What a [`Node`] stands for: the same tree over sequences.
pub enum NodeView {
    File { children: Seq<NodeView> },
    Path { children: Seq<NodeView> },
    Segment(Seq<char>),
    Negate,
}

/// The views of a sequence of nodes, one by one.
pub open spec fn node_views(nodes: Seq<Node>) -> Seq<NodeView>
    decreases nodes,
{
    Seq::new(
        nodes.len(),
        |i: int|
            if 0 <= i < nodes.len() {
                nodes[i].view()
            } else {
                arbitrary()
            },
    )
}

impl View for Node {
    type V = NodeView;

    open spec fn view(&self) -> NodeView
        decreases self,
    {
        match self {
            Node::File { children } => NodeView::File { children: node_views(children@) },
            Node::Path { children } => NodeView::Path { children: node_views(children@) },
            Node::Segment(value) => NodeView::Segment(value@),
            Node::Negate => NodeView::Negate,
        }
    }
}

impl NodeView {
    /// The children of a file or a path; the other nodes have none.
    pub open spec fn children(self) -> Option<Seq<NodeView>> {
        match self {
            NodeView::File { children } => Some(children),
            NodeView::Path { children } => Some(children),
            _ => None,
        }
    }

    /// Whether the tree holds nothing empty: every path in it has a child, and
    /// every segment has text.
    pub open spec fn well_formed(self) -> bool
        decreases self,
    {
        match self {
            NodeView::File { children } => forall|i: int|
                0 <= i < children.len() ==> (#[trigger] children[i]).well_formed(),
            NodeView::Path { children } => children.len() > 0 && forall|i: int|
                0 <= i < children.len() ==> (#[trigger] children[i]).well_formed(),
            NodeView::Segment(value) => value.len() > 0,
            NodeView::Negate => true,
        }
    }
}

/// The node that a token becomes, if it becomes one. A file keeps the nodes
/// of its children. A path does too, and vanishes where none of its children
/// becomes a node. A segment keeps its text, and vanishes where the text is
/// empty. A negation mark stays. Separators and comments vanish.
pub open spec fn derive_node(token: TokenView) -> Option<NodeView>
    decreases token, 0nat,
{
    match token {
        TokenView::File { children, .. } => Some(
            NodeView::File { children: derive_nodes(children, 0) },
        ),
        TokenView::Path { children, .. } => {
            let nodes = derive_nodes(children, 0);
            if nodes.len() == 0 {
                None
            } else {
                Some(NodeView::Path { children: nodes })
            }
        },
        TokenView::Segment { value, .. } => if value.len() == 0 {
            None
        } else {
            Some(NodeView::Segment(value))
        },
        TokenView::Negate { .. } => Some(NodeView::Negate),
        TokenView::Separator { .. } => None,
        TokenView::Comment { .. } => None,
    }
}

/// The nodes that the tokens from index `from` on become, in their order.
pub open spec fn derive_nodes(tokens: Seq<TokenView>, from: int) -> Seq<NodeView>
    decreases tokens, tokens.len() - from,
{
    if from < 0 || from >= tokens.len() {
        Seq::empty()
    } else {
        match derive_node(tokens[from]) {
            Some(node) => seq![node] + derive_nodes(tokens, from + 1),
            None => derive_nodes(tokens, from + 1),
        }
    }
}

/// What a token becomes holds nothing empty.
pub proof fn lemma_derived_is_well_formed(token: TokenView)
    ensures
        match derive_node(token) {
            Some(node) => node.well_formed(),
            None => true,
        },
    decreases token, 0nat,
{
    match token {
        TokenView::File { children, .. } => {
            lemma_all_derived_are_well_formed(children, 0);
            let nodes = derive_nodes(children, 0);
            assert(derive_node(token) == Some(NodeView::File { children: nodes }));
            assert(NodeView::File { children: nodes }.well_formed());
        },
        TokenView::Path { children, .. } => {
            lemma_all_derived_are_well_formed(children, 0);
            let nodes = derive_nodes(children, 0);
            if nodes.len() > 0 {
                assert(derive_node(token) == Some(NodeView::Path { children: nodes }));
                assert(NodeView::Path { children: nodes }.well_formed());
            }
        },
        TokenView::Segment { value, .. } => {
            if value.len() > 0 {
                assert(NodeView::Segment(value).well_formed());
            }
        },
        TokenView::Negate { .. } => {
            assert(NodeView::Negate.well_formed());
        },
        _ => {},
    }
}

/// What the tokens of a list become holds nothing empty.
pub proof fn lemma_all_derived_are_well_formed(tokens: Seq<TokenView>, from: int)
    ensures
        forall|i: int|
            0 <= i < derive_nodes(tokens, from).len() ==> (#[trigger] derive_nodes(
                tokens,
                from,
            )[i]).well_formed(),
    decreases tokens, tokens.len() - from,
{
    if 0 <= from < tokens.len() {
        lemma_derived_is_well_formed(tokens[from]);
        lemma_all_derived_are_well_formed(tokens, from + 1);
        let rest = derive_nodes(tokens, from + 1);
        match derive_node(tokens[from]) {
            Some(node) => {
                assert forall|i: int| 0 <= i < (seq![node] + rest).len() implies (#[trigger] (seq![
                    node,
                ] + rest)[i]).well_formed() by {
                    if i > 0 {
                        assert((seq![node] + rest)[i] == rest[i - 1]);
                    }
                }
            },
            None => {},
        }
    }
}

/// Whether two nodes are the same tree.
fn same_node(left: &Node, right: &Node) -> (same: bool)
    ensures
        same == (left@ == right@),
    decreases left,
{
    match left {
        Node::File { children } => match right {
            Node::File { children: others } => same_nodes(children, others),
            _ => false,
        },
        Node::Path { children } => match right {
            Node::Path { children: others } => same_nodes(children, others),
            _ => false,
        },
        Node::Segment(value) => match right {
            Node::Segment(other) => *value == *other,
            _ => false,
        },
        Node::Negate => match right {
            Node::Negate => true,
            _ => false,
        },
    }
}

/// Whether two lists hold the same trees in the same order.
fn same_nodes(left: &Vec<Node>, right: &Vec<Node>) -> (same: bool)
    ensures
        same == (node_views(left@) == node_views(right@)),
    decreases left,
{
    if left.len() != right.len() {
        proof {
            assert(node_views(left@).len() != node_views(right@).len());
        }
        return false;
    }
    let mut i: usize = 0;
    while i < left.len()
        invariant
            i <= left@.len(),
            left@.len() == right@.len(),
            forall|k: int| 0 <= k < i ==> left@[k]@ == right@[k]@,
        decreases left@.len() - i,
    {
        proof {
            vstd::std_specs::vec::axiom_vec_index_decreases(*left, i as int);
        }
        if !same_node(&left[i], &right[i]) {
            proof {
                assert(node_views(left@)[i as int] != node_views(right@)[i as int]);
            }
            return false;
        }
        i = i + 1;
    }
    proof {
        assert(node_views(left@) =~= node_views(right@));
    }
    true
}

impl PartialEq for Node {
    /// Two nodes are equal when they are the same tree.
    fn eq(&self, other: &Node) -> (same: bool) {
        same_node(self, other)
    }
}

impl PartialEqSpecImpl for Node {
    open spec fn obeys_eq_spec() -> bool {
        true
    }

    open spec fn eq_spec(&self, other: &Node) -> bool {
        self@ == other@
    }
}

impl Node {
    /// The children of a file or a path; the other nodes have none.
    pub fn get_children(&self) -> (children: Option<&Vec<Node>>)
        ensures
            match children {
                Some(nodes) => self@.children() == Some(node_views(nodes@)),
                None => self@.children() is None,
            },
    {
        match &self {
            Node::File { children } => Some(children),
            Node::Path { children } => Some(children),
            _ => None,
        }
    }
}

/// Pushing a node onto a list pushes its view onto the views.
proof fn lemma_node_views_push(nodes: Seq<Node>, node: Node)
    ensures
        node_views(nodes.push(node)) == node_views(nodes).push(node@),
{
    assert(node_views(nodes.push(node)) =~= node_views(nodes).push(node@));
}

/// The node that `token` becomes.
fn derive_token(token: &Token) -> (node: Option<Node>)
    ensures
        match node {
            Some(made) => derive_node(token@) == Some(made@) && made@.well_formed(),
            None => derive_node(token@) is None,
        },
    decreases token,
{
    proof {
        lemma_derived_is_well_formed(token@);
    }
    match token {
        Token::File { children, .. } => Some(Node::File { children: derive_tokens(children) }),
        Token::Path { children, .. } => {
            let nodes = derive_tokens(children);
            if nodes.len() == 0 {
                None
            } else {
                Some(Node::Path { children: nodes })
            }
        },
        Token::Segment { value, .. } => {
            if value.as_str().is_empty() {
                None
            } else {
                Some(Node::Segment(value.clone()))
            }
        },
        Token::Negate { .. } => Some(Node::Negate),
        Token::Separator { .. } => None,
        Token::Comment { .. } => None,
    }
}

/// The nodes that `tokens` become.
fn derive_tokens(tokens: &Vec<Token>) -> (nodes: Vec<Node>)
    ensures
        node_views(nodes@) == derive_nodes(views(tokens@), 0),
    decreases tokens,
{
    let ghost all = views(tokens@);
    let mut nodes: Vec<Node> = Vec::new();
    let mut i: usize = 0;
    proof {
        assert(node_views(nodes@) + derive_nodes(all, 0) =~= derive_nodes(all, 0));
    }
    while i < tokens.len()
        invariant
            i <= tokens@.len(),
            all == views(tokens@),
            node_views(nodes@) + derive_nodes(all, i as int) == derive_nodes(all, 0),
        decreases tokens@.len() - i,
    {
        proof {
            vstd::std_specs::vec::axiom_vec_index_decreases(*tokens, i as int);
        }
        let ghost before = nodes@;
        match derive_token(&tokens[i]) {
            Some(node) => {
                proof {
                    lemma_node_views_push(before, node);
                    assert(node_views(before).push(node@) + derive_nodes(all, i + 1)
                        =~= node_views(before) + derive_nodes(all, i as int));
                }
                nodes.push(node);
            },
            None => {},
        }
        i = i + 1;
    }
    proof {
        assert(node_views(nodes@) + derive_nodes(all, i as int) =~= node_views(nodes@));
    }
    nodes
}

/// The syntax tree of one text.
#[derive(Debug)]
pub struct AST {
    pub root: Node,
}

impl AST {
    /// The syntax tree of `parse_tree`, whose root must become a node: the
    /// root of a parsed text is a file, and a file always does.
    pub fn generate_from(parse_tree: ParseTree) -> (ast: AST)
        requires
            derive_node(parse_tree.root@) is Some,
        ensures
            Some(ast.root@) == derive_node(parse_tree.root@),
            ast.root@.well_formed(),
    {
        match Self::visit_token(parse_tree.root) {
            Some(root) => AST { root },
            None => AST { root: Node::Negate },
        }
    }

    /// The nodes that `tokens` become, in their order; tokens that become no
    /// node leave no gap.
    pub fn visit_tokens(tokens: Vec<Token>) -> (nodes: Vec<Node>)
        ensures
            node_views(nodes@) == derive_nodes(views(tokens@), 0),
            forall|i: int| 0 <= i < nodes@.len() ==> (#[trigger] nodes@[i])@.well_formed(),
    {
        proof {
            lemma_all_derived_are_well_formed(views(tokens@), 0);
        }
        let nodes = derive_tokens(&tokens);
        proof {
            assert forall|i: int| 0 <= i < nodes@.len() implies (
            #[trigger] nodes@[i])@.well_formed() by {
                assert(node_views(nodes@)[i] == nodes@[i]@);
            }
        }
        nodes
    }

    /// The node that `token` becomes, as [`derive_node`] says, or nothing
    /// where it vanishes.
    pub fn visit_token(token: Token) -> (node: Option<Node>)
        ensures
            match node {
                Some(made) => derive_node(token@) == Some(made@) && made@.well_formed(),
                None => derive_node(token@) is None,
            },
    {
        derive_token(&token)
    }
}

} // verus!
