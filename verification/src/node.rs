//! The compiled pattern tree: a closed set of generator node variants.

use vstd::prelude::*;

use crate::charset::CharsetPattern;

verus! {

/// One node of a compiled pattern tree. The tree is immutable once built;
/// every variant supports one operation, generating one string against a
/// random source (see the engine module).
#[derive(Debug, PartialEq)]
pub enum Node {
    /// Fixed text, returned verbatim.
    Literal(Vec<char>),
    /// One random character from a fixed character class.
    Class(CharsetPattern),
    /// The child, evaluated a number of times drawn uniformly from the
    /// inclusive range `[min, max]`, results concatenated.
    Repeat(Box<Node>, u32, u32),
    /// Every child in order, results concatenated. Never empty.
    Sequence(Vec<Node>),
    /// Exactly one child, chosen uniformly at random. Never empty.
    Alternation(Vec<Node>),
    /// The child's output reduced to a single random character of it;
    /// an empty output stays empty.
    Subsequence(Box<Node>),
    /// With probability `percent/100` the child's output, else the empty
    /// string; `percent` lies in `[0, 100]`.
    ProbabilisticInclusion(Box<Node>, u32),
}

/// The mathematical shape of a pattern tree, used by every contract.
#[verifier::ext_equal]
pub enum NodeModel {
    Literal(Seq<char>),
    Class(CharsetPattern),
    Repeat(Box<NodeModel>, u32, u32),
    Sequence(Seq<NodeModel>),
    Alternation(Seq<NodeModel>),
    Subsequence(Box<NodeModel>),
    ProbabilisticInclusion(Box<NodeModel>, u32),
}

/// The model of one node.
pub open spec fn node_model(n: Node) -> NodeModel
    decreases n,
{
    match n {
        Node::Literal(text) => NodeModel::Literal(text@),
        Node::Class(c) => NodeModel::Class(c),
        Node::Repeat(child, min, max) => NodeModel::Repeat(Box::new(node_model(*child)), min, max),
        Node::Sequence(children) => NodeModel::Sequence(nodes_model(children@)),
        Node::Alternation(children) => NodeModel::Alternation(nodes_model(children@)),
        Node::Subsequence(child) => NodeModel::Subsequence(Box::new(node_model(*child))),
        Node::ProbabilisticInclusion(child, percent) => NodeModel::ProbabilisticInclusion(
            Box::new(node_model(*child)),
            percent,
        ),
    }
}

/// The models of a list of sibling nodes, in order.
pub open spec fn nodes_model(s: Seq<Node>) -> Seq<NodeModel>
    decreases s,
{
    if s.len() == 0 {
        Seq::empty()
    } else {
        nodes_model(s.drop_last()).push(node_model(s.last()))
    }
}

impl View for Node {
    type V = NodeModel;

    open spec fn view(&self) -> NodeModel {
        node_model(*self)
    }
}

/// A well-formed tree: repetition bounds are ordered, groups are never
/// empty, and inclusion percentages lie in `[0, 100]`. Compilation only
/// builds well-formed trees, and generation requires one.
pub open spec fn wf(n: NodeModel) -> bool
    decreases n,
{
    match n {
        NodeModel::Literal(_) => true,
        NodeModel::Class(_) => true,
        NodeModel::Repeat(child, min, max) => min <= max && wf(*child),
        NodeModel::Sequence(children) => children.len() > 0 && (forall|i: int|
            0 <= i < children.len() ==> wf(#[trigger] children[i])),
        NodeModel::Alternation(children) => children.len() > 0 && (forall|i: int|
            0 <= i < children.len() ==> wf(#[trigger] children[i])),
        NodeModel::Subsequence(child) => wf(*child),
        NodeModel::ProbabilisticInclusion(child, percent) => percent <= 100 && wf(*child),
    }
}

/// Element facts about `nodes_model`: it maps the list pointwise.
pub proof fn lemma_nodes_model(s: Seq<Node>)
    ensures
        nodes_model(s).len() == s.len(),
        forall|i: int| 0 <= i < s.len() ==> #[trigger] nodes_model(s)[i] == node_model(s[i]),
    decreases s,
{
    if s.len() > 0 {
        lemma_nodes_model(s.drop_last());
    }
}

} // verus!
