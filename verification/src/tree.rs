//! The parse tree of a piece of dice notation.

use crate::text::{decimal_value, is_numeral};
use vstd::prelude::*;

verus! {

/// One of the four arithmetic operators.
#[derive(Clone, Copy, Debug, PartialEq, Eq, Structural)]
pub enum Operator {
    Add,
    Subtract,
    Multiply,
    Divide,
}

/// What a suffix asks of the dice of a term. A term has one suffix or none.
#[derive(Clone, Copy, Debug, PartialEq, Eq, Structural)]
pub enum Modifier {
    /// Count only this many of the highest dice.
    KeepHigh(u64),
    /// Count only this many of the lowest dice.
    KeepLow(u64),
    /// Replace each die that shows this number by one fresh roll.
    RerollOnce(u64),
}

/// A die term such as `3d6` or `2d20k1`.
#[derive(Clone, Copy, Debug, PartialEq, Eq, Structural)]
pub struct DieRoll {
    pub count: u64,
    pub sides: u64,
    pub modifier: Option<Modifier>,
}

/// One node of the parse tree, which is the sequence of its nodes in source
/// order.
#[derive(Debug, PartialEq, Eq)]
pub enum Node {
    /// A number, as the digits it was written with.
    Number(String),
    DieRoll(DieRoll),
    Operator(Operator),
    /// The free text after `#`.
    Comment(String),
}

/// A node as a plain value: its texts are sequences of characters.
pub enum NodeView {
    Number(Seq<char>),
    DieRoll(DieRoll),
    Operator(Operator),
    Comment(Seq<char>),
}

impl View for Node {
    type V = NodeView;

    open spec fn view(&self) -> NodeView {
        match *self {
            Node::Number(text) => NodeView::Number(text@),
            Node::DieRoll(die) => NodeView::DieRoll(die),
            Node::Operator(op) => NodeView::Operator(op),
            Node::Comment(text) => NodeView::Comment(text@),
        }
    }
}

/// The nodes of `tree` as plain values, in order.
pub open spec fn tree_view(tree: Seq<Node>) -> Seq<NodeView> {
    tree.map_values(|node: Node| node@)
}

impl NodeView {
    /// Whether the node is a term: a number or a die roll.
    pub open spec fn is_term(self) -> bool {
        self is Number || self is DieRoll
    }
}

/// The terms and operators of `tree`: all its nodes but a comment at its end.
pub open spec fn body(tree: Seq<NodeView>) -> Seq<NodeView> {
    if tree.len() > 0 && tree.last() is Comment {
        tree.drop_last()
    } else {
        tree
    }
}

/// Whether `node` is as the grammar gives it: a number is a numeral that
/// fits a signed 64-bit integer.
pub open spec fn node_valid(node: NodeView) -> bool {
    node matches NodeView::Number(text) ==> is_numeral(text) && decimal_value(text) <= i64::MAX
}

/// Whether `node` may stand at position `i` of the body of a tree: a term at
/// an even position, an operator at an odd one.
pub open spec fn fits_at(node: NodeView, i: int) -> bool {
    if i % 2 == 0 {
        node.is_term()
    } else {
        node is Operator
    }
}

/// Whether `tree` has the shape that the grammar gives every tree: terms
/// with one operator between each two neighbours, then at most one comment.
pub open spec fn well_formed(tree: Seq<NodeView>) -> bool {
    &&& body(tree).len() % 2 == 1
    &&& forall|i: int| 0 <= i < body(tree).len() ==> fits_at(#[trigger] body(tree)[i], i)
    &&& forall|i: int| 0 <= i < tree.len() ==> node_valid(#[trigger] tree[i])
}

/// Whether `nodes` are terms with one operator between each two neighbours,
/// every number among them a numeral that fits.
pub open spec fn alternating(nodes: Seq<NodeView>) -> bool {
    &&& nodes.len() % 2 == 1
    &&& forall|i: int| 0 <= i < nodes.len() ==> fits_at(#[trigger] nodes[i], i)
    &&& forall|i: int| 0 <= i < nodes.len() ==> node_valid(#[trigger] nodes[i])
}

/// Terms with operators between them make a well-formed tree, with or
/// without a comment after them.
pub proof fn lemma_alternating_is_well_formed(nodes: Seq<NodeView>, text: Seq<char>)
    requires
        alternating(nodes),
    ensures
        well_formed(nodes),
        well_formed(nodes.push(NodeView::Comment(text))),
{
    assert(fits_at(nodes[nodes.len() - 1], nodes.len() - 1));
    assert(body(nodes) == nodes);
    let longer = nodes.push(NodeView::Comment(text));
    assert(longer.drop_last() =~= nodes);
    assert(body(longer) == nodes);
}

/// The parse tree of one piece of notation. Only the parser makes one, so
/// every tree is well formed.
pub struct ParseTree {
    nodes: Vec<Node>,
}

impl View for ParseTree {
    type V = Seq<NodeView>;

    closed spec fn view(&self) -> Seq<NodeView> {
        tree_view(self.nodes@)
    }
}

impl ParseTree {
    #[verifier::type_invariant]
    spec fn shaped(self) -> bool {
        well_formed(tree_view(self.nodes@))
    }

    /// The tree that holds `nodes`.
    pub(crate) fn new(nodes: Vec<Node>) -> (tree: ParseTree)
        requires
            well_formed(tree_view(nodes@)),
        ensures
            tree@ == tree_view(nodes@),
    {
        ParseTree { nodes }
    }

    /// The nodes of the tree, in source order.
    pub fn nodes(&self) -> (nodes: &Vec<Node>)
        ensures
            tree_view(nodes@) == self@,
            well_formed(self@),
    {
        proof {
            use_type_invariant(self);
        }
        &self.nodes
    }
}

} // verus!
