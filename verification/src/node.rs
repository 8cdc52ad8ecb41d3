//! Nodes of a command grammar and the depth tag they carry.

use vstd::prelude::*;
use vstd::std_specs::cmp::PartialEqSpecImpl;

verus! {

/// How far a node lies below the root of its grammar.
///
/// `Any` is a wildcard: it stands for every distance at once.
#[derive(Debug, Clone, Copy)]
pub enum Depth {
    Any,
    Exact(usize),
}

/// Whether two depths agree: exact depths agree when they hold the same
/// number, and a wildcard on either side agrees with everything.
pub open spec fn depth_agrees(a: Depth, b: Depth) -> bool {
    match (a, b) {
        (Depth::Exact(x), Depth::Exact(y)) => x == y,
        _ => true,
    }
}

impl PartialEq for Depth {
    fn eq(&self, other: &Self) -> (res: bool) {
        match (self, other) {
            (Depth::Exact(d1), Depth::Exact(d2)) => *d1 == *d2,
            _ => true,
        }
    }
}

impl PartialEqSpecImpl for Depth {
    open spec fn obeys_eq_spec() -> bool {
        true
    }

    open spec fn eq_spec(&self, other: &Self) -> bool {
        depth_agrees(*self, *other)
    }
}

/// A wildcard depth agrees with every exact depth, from either side, and two
/// exact depths agree exactly when their numbers are the same.
pub proof fn lemma_depth_agreement(d: usize, e: usize)
    ensures
        depth_agrees(Depth::Any, Depth::Exact(d)),
        depth_agrees(Depth::Exact(d), Depth::Any),
        depth_agrees(Depth::Any, Depth::Any),
        depth_agrees(Depth::Exact(d), Depth::Exact(e)) <==> d == e,
{
}

/// The mathematical content of a [`Node`].
pub struct NodeView {
    pub name: Seq<char>,
    pub explanation: Option<Seq<char>>,
    pub depth: Depth,
}

/// A named point in a grammar, with optional help text and a depth tag.
#[derive(Debug)]
pub struct Node {
    pub name: String,
    pub explanation: Option<String>,
    pub depth: Depth,
}

impl View for Node {
    type V = NodeView;

    open spec fn view(&self) -> NodeView {
        NodeView {
            name: self.name@,
            explanation: match self.explanation {
                Some(e) => Some(e@),
                None => None,
            },
            depth: self.depth,
        }
    }
}

/// Whether two nodes are equal: same name, same help text, agreeing depths.
pub open spec fn node_agrees(a: NodeView, b: NodeView) -> bool {
    &&& a.name == b.name
    &&& a.explanation == b.explanation
    &&& depth_agrees(a.depth, b.depth)
}

/// A node with a wildcard depth is equal to every node of the same name
/// and help text, at whatever depth; nodes with exact depths are equal
/// exactly when name, help text and number are the same.
pub proof fn lemma_node_agreement(a: NodeView, b: NodeView)
    requires
        a.name == b.name,
        a.explanation == b.explanation,
    ensures
        a.depth is Any ==> node_agrees(a, b) && node_agrees(b, a),
        a.depth is Exact && b.depth is Exact ==> (node_agrees(a, b) <==> a == b),
{
}

/// The help text that a node stores for a given explanation string: none
/// when the string is empty.
pub open spec fn explanation_of(text: Seq<char>) -> Option<Seq<char>> {
    if text.len() == 0 {
        None
    } else {
        Some(text)
    }
}

impl PartialEq for Node {
    fn eq(&self, other: &Self) -> (res: bool) {
        let same_name = self.name == other.name;
        let same_explanation = match (&self.explanation, &other.explanation) {
            (Some(a), Some(b)) => *a == *b,
            (None, None) => true,
            _ => false,
        };
        let same_depth = self.depth == other.depth;
        same_name && same_explanation && same_depth
    }
}

impl PartialEqSpecImpl for Node {
    open spec fn obeys_eq_spec() -> bool {
        true
    }

    open spec fn eq_spec(&self, other: &Self) -> bool {
        node_agrees(self@, other@)
    }
}

impl Clone for Node {
    fn clone(&self) -> (res: Node)
        ensures
            res@ == self@,
    {
        Node {
            name: self.name.clone(),
            explanation: match &self.explanation {
                Some(e) => Some(e.clone()),
                None => None,
            },
            depth: self.depth,
        }
    }
}

impl Node {
    /// Builds a node; an empty `explanation` means that it has no help text.
    pub fn new(name: &str, explanation: &str, depth: Depth) -> (node: Node)
        ensures
            node@ == (NodeView {
                name: name@,
                explanation: explanation_of(explanation@),
                depth,
            }),
    {
        Node {
            name: name.to_owned(),
            explanation: if explanation.is_empty() {
                None
            } else {
                Some(explanation.to_owned())
            },
            depth,
        }
    }
}

} // verus!
