//! Trees of nodes: creation, growth and the ways to walk them.

use vstd::prelude::*;
use indextree::{Arena, NodeId};
use crate::arena::{
    ancestors_of, arena_get, arena_len, arena_new, arena_new_node, arena_nodes, arena_wf, attach,
    forest, fresh_slot, links_wf, node_ancestors, node_append, node_children, node_descendants,
    node_id_index, preorder, Slot,
};
use crate::node::{explanation_of, Depth, Node, NodeView};

verus! {

/// The arena type that trees are stored in.
pub type NodeArena = Arena<Node>;

/// A tree of nodes: an arena and the handle of the root in it.
pub struct Tree {
    pub root: NodeId,
    pub arena: NodeArena,
}

/// The data of the synthetic node that every tree starts from.
pub open spec fn root_view(depth: Depth) -> NodeView {
    NodeView { name: "root"@, explanation: None, depth }
}

/// The content of an arena after a new node with `data` was stored under
/// the handle `child` and made the last child of `parent`.
pub open spec fn grow(m: Map<NodeId, Slot>, parent: NodeId, child: NodeId, data: NodeView) -> Map<
    NodeId,
    Slot,
> {
    attach(m.insert(child, fresh_slot(data)), parent, child)
}

/// The data stored under each of `ids`, in the same order.
pub open spec fn data_of(m: Map<NodeId, Slot>, ids: Seq<NodeId>) -> Seq<NodeView> {
    Seq::new(ids.len(), |i: int| m[ids[i]].data)
}

/// A tree as a value: the data of a node and the shapes of its children,
/// first to last.
pub struct Shape {
    pub node: NodeView,
    pub kids: Seq<Shape>,
}

/// The shapes of the trees that hang from `kids`. `floor` is the position
/// of the kids' parent and `len` the number of slots, as for
/// [`forest`](crate::arena::forest).
pub open spec fn shapes(m: Map<NodeId, Slot>, len: nat, floor: nat, kids: Seq<NodeId>) -> Seq<
    Shape,
>
    decreases len - floor, kids.len(),
{
    if kids.len() == 0 {
        Seq::empty()
    } else {
        let k = kids.last();
        let below = if floor < node_id_index(k) <= len {
            shapes(m, len, node_id_index(k), m[k].children)
        } else {
            Seq::empty()
        };
        shapes(m, len, floor, kids.drop_last()).push(Shape { node: m[k].data, kids: below })
    }
}

/// The data of a shape in pre-order: its node, then its children's data,
/// child by child.
pub open spec fn flatten(shape: Shape) -> Seq<NodeView>
    decreases shape,
{
    seq![shape.node] + flatten_all(shape.kids)
}

/// The data of a run of shapes in pre-order, shape by shape.
pub open spec fn flatten_all(run: Seq<Shape>) -> Seq<NodeView>
    decreases run,
{
    if run.len() == 0 {
        Seq::empty()
    } else {
        flatten_all(run.drop_last()) + flatten(run.last())
    }
}

/// The nodes strictly below `id`, in pre-order.
pub open spec fn strict_descendants(m: Map<NodeId, Slot>, len: nat, id: NodeId) -> Seq<NodeId> {
    forest(m, len, node_id_index(id), m[id].children)
}

/// The depth that the node `id` is tagged with; 0 where the tag is a wildcard.
pub open spec fn depth_of(m: Map<NodeId, Slot>, id: NodeId) -> nat {
    match m[id].data.depth {
        Depth::Exact(d) => d as nat,
        Depth::Any => 0,
    }
}

/// Every node carries an exact depth: 0 where it has no parent, else one
/// more than its parent. No node lies deeper than the number of nodes that
/// were stored before it.
pub open spec fn grammar_links(m: Map<NodeId, Slot>) -> bool {
    forall|id: NodeId| #[trigger]
        m.dom().contains(id) ==> {
            &&& m[id].data.depth is Exact
            &&& depth_of(m, id) < node_id_index(id)
            &&& match m[id].parent {
                Some(p) => depth_of(m, id) == depth_of(m, p) + 1,
                None => depth_of(m, id) == 0,
            }
        }
}

impl Tree {
    /// The live nodes of the tree's arena.
    pub open spec fn nodes(&self) -> Map<NodeId, Slot> {
        arena_nodes(self.arena)
    }

    /// The arena is well formed and the root is one of its nodes.
    pub open spec fn wf(&self) -> bool {
        &&& arena_wf(self.arena)
        &&& self.nodes().dom().contains(self.root)
    }

    /// The tree is a grammar: it hangs below a root named `root` at depth 0,
    /// and every other node lies one level deeper than its parent.
    pub open spec fn is_grammar(&self) -> bool {
        &&& self.wf()
        &&& self.nodes()[self.root].data == root_view(Depth::Exact(0))
        &&& grammar_links(self.nodes())
        &&& forall|id: NodeId| #[trigger]
            self.nodes().dom().contains(id) && self.nodes()[id].parent is None ==> id == self.root
    }

    /// The tree as a value.
    pub open spec fn shape(&self) -> Shape {
        Shape {
            node: self.nodes()[self.root].data,
            kids: shapes(
                self.nodes(),
                arena_len(self.arena),
                node_id_index(self.root),
                self.nodes()[self.root].children,
            ),
        }
    }

    /// The data of the root and of everything below it, in pre-order.
    pub open spec fn listing(&self) -> Seq<NodeView> {
        data_of(self.nodes(), preorder(self.nodes(), arena_len(self.arena), self.root))
    }

    /// A tree that holds nothing but its root, at depth 0.
    pub fn new() -> (tree: Tree)
        ensures
            tree.is_grammar(),
            tree.nodes() == Map::<NodeId, Slot>::empty().insert(
                tree.root,
                fresh_slot(root_view(Depth::Exact(0))),
            ),
            arena_len(tree.arena) == 1,
            node_id_index(tree.root) == 1,
    {
        Tree::new_depth(Depth::Exact(0))
    }

    /// A tree that holds nothing but its root, tagged with `depth`.
    pub fn new_depth(depth: Depth) -> (tree: Tree)
        ensures
            tree.wf(),
            tree.nodes() == Map::<NodeId, Slot>::empty().insert(
                tree.root,
                fresh_slot(root_view(depth)),
            ),
            arena_len(tree.arena) == 1,
            node_id_index(tree.root) == 1,
    {
        let mut arena = arena_new();
        let root = arena_new_node(&mut arena, Node::new("root", "", depth));
        let tree = Tree { root, arena };
        proof {
            reveal_strlit("");
            let m = tree.nodes();
            assert(m.dom() =~= set![root]);
            assert forall|id: NodeId| #[trigger] m.dom().contains(id) implies
                m[id].children.no_duplicates() by {
                assert(m[id].children =~= Seq::empty());
            }
        }
        tree
    }
}

impl Node {
    /// Stores a node built from its parts in `arena`; see [`Node::from_node_to_id`].
    pub fn from_data_to_id(name: &str, explanation: &str, depth: Depth, arena: &mut NodeArena) -> (id:
        NodeId)
        requires
            arena_wf(*old(arena)),
            arena_len(*old(arena)) < usize::MAX,
        ensures
            arena_wf(*final(arena)),
            !arena_nodes(*old(arena)).dom().contains(id),
            arena_nodes(*final(arena)) == arena_nodes(*old(arena)).insert(
                id,
                fresh_slot(
                    NodeView { name: name@, explanation: explanation_of(explanation@), depth },
                ),
            ),
            arena_len(*final(arena)) == arena_len(*old(arena)) + 1,
            node_id_index(id) == arena_len(*old(arena)) + 1,
    {
        Node::from_node_to_id(Node::new(name, explanation, depth), arena)
    }

    /// Stores `node` in `arena` as a detached node without children and
    /// returns its new handle.
    pub fn from_node_to_id(node: Node, arena: &mut NodeArena) -> (id: NodeId)
        requires
            arena_wf(*old(arena)),
            arena_len(*old(arena)) < usize::MAX,
        ensures
            arena_wf(*final(arena)),
            !arena_nodes(*old(arena)).dom().contains(id),
            arena_nodes(*final(arena)) == arena_nodes(*old(arena)).insert(id, fresh_slot(node@)),
            arena_len(*final(arena)) == arena_len(*old(arena)) + 1,
            node_id_index(id) == arena_len(*old(arena)) + 1,
    {
        let ghost data = node@;
        let id = arena_new_node(arena, node);
        proof {
            lemma_store_wf(arena_nodes(*old(arena)), arena_len(*old(arena)), id, data);
        }
        id
    }

    /// A copy of the data stored under `nid`.
    pub fn from_id(nid: &NodeId, arena: &NodeArena) -> (node: Node)
        requires
            arena_nodes(*arena).dom().contains(*nid),
        ensures
            node@ == arena_nodes(*arena)[*nid].data,
    {
        arena_get(arena, *nid).unwrap().clone()
    }
}

/// Appends `node` to the tree as the last child of `parent` and returns the
/// handle of the new node.
pub fn append_child(arena: &mut NodeArena, parent: NodeId, node: Node) -> (id: NodeId)
    requires
        arena_wf(*old(arena)),
        arena_nodes(*old(arena)).dom().contains(parent),
        arena_len(*old(arena)) < usize::MAX,
    ensures
        arena_wf(*final(arena)),
        !arena_nodes(*old(arena)).dom().contains(id),
        arena_nodes(*final(arena)) == grow(arena_nodes(*old(arena)), parent, id, node@),
        arena_len(*final(arena)) == arena_len(*old(arena)) + 1,
        node_id_index(id) == arena_len(*old(arena)) + 1,
{
    let ghost data = node@;
    let id = arena_new_node(arena, node);
    node_append(parent, id, arena);
    proof {
        lemma_grow_wf(arena_nodes(*old(arena)), arena_len(*old(arena)), parent, id, data);
    }
    id
}

/// The children of `id`, in insertion order. In a well-formed arena each of
/// them is a node of the arena.
pub fn children(id: NodeId, arena: &NodeArena) -> (kids: Vec<NodeId>)
    requires
        arena_nodes(*arena).dom().contains(id),
    ensures
        kids@ == arena_nodes(*arena)[id].children,
        arena_wf(*arena) ==> forall|i: int|
            0 <= i < kids@.len() ==> arena_nodes(*arena).dom().contains(#[trigger] kids@[i]),
{
    node_children(id, arena)
}

/// `id` and its ancestors up to the root, nearest first. The chain starts
/// with `id` and holds nodes of the arena only.
pub fn ancestors(id: NodeId, arena: &NodeArena) -> (chain: Vec<NodeId>)
    requires
        arena_wf(*arena),
        arena_nodes(*arena).dom().contains(id),
    ensures
        chain@ == ancestors_of(arena_nodes(*arena), id),
        chain@.len() >= 1,
        chain@[0] == id,
        forall|i: int| 0 <= i < chain@.len() ==>
            arena_nodes(*arena).dom().contains(#[trigger] chain@[i]),
{
    proof {
        lemma_ancestors_in_dom(arena_nodes(*arena), arena_len(*arena), id);
    }
    node_ancestors(id, arena)
}

/// `id` and its descendants in pre-order. The walk starts with `id` and
/// holds nodes of the arena only.
pub fn descendants(id: NodeId, arena: &NodeArena) -> (nodes: Vec<NodeId>)
    requires
        arena_wf(*arena),
        arena_nodes(*arena).dom().contains(id),
    ensures
        nodes@ == preorder(arena_nodes(*arena), arena_len(*arena), id),
        nodes@.len() >= 1,
        nodes@[0] == id,
        forall|i: int| 0 <= i < nodes@.len() ==>
            arena_nodes(*arena).dom().contains(#[trigger] nodes@[i]),
{
    proof {
        lemma_preorder_in_dom(arena_nodes(*arena), arena_len(*arena), id);
    }
    node_descendants(id, arena)
}

/// The number of nodes strictly below `node`; 0 for a leaf. These are the
/// nodes other than `node` that have `node` among their ancestors, as
/// `lemma_strict_descendants` shows.
pub fn subtree_count(node: &NodeId, arena: &NodeArena) -> (count: usize)
    requires
        arena_wf(*arena),
        arena_nodes(*arena).dom().contains(*node),
    ensures
        count == strict_descendants(arena_nodes(*arena), arena_len(*arena), *node).len(),
        arena_nodes(*arena)[*node].children.len() == 0 ==> count == 0,
{
    node_descendants(*node, arena).len() - 1
}

/// Growing a depth-tagged arena by a child one level below its parent keeps
/// the depth tags in order.
pub proof fn lemma_grow_grammar(
    m: Map<NodeId, Slot>,
    len: nat,
    parent: NodeId,
    child: NodeId,
    data: NodeView,
)
    requires
        links_wf(m, len),
        grammar_links(m),
        m.dom().contains(parent),
        !m.dom().contains(child),
        node_id_index(child) == len + 1,
        data.depth == Depth::Exact((depth_of(m, parent) + 1) as usize),
        depth_of(m, parent) + 1 <= usize::MAX,
    ensures
        grammar_links(grow(m, parent, child, data)),
{
    let g = grow(m, parent, child, data);
    assert forall|id: NodeId| #[trigger] g.dom().contains(id) implies {
        &&& g[id].data.depth is Exact
        &&& depth_of(g, id) < node_id_index(id)
        &&& match g[id].parent {
            Some(p) => depth_of(g, id) == depth_of(g, p) + 1,
            None => depth_of(g, id) == 0,
        }
    } by {
        if id != child {
            assert(m.dom().contains(id));
            if let Some(p) = m[id].parent {
                assert(m.dom().contains(p));
            }
        }
    }
}

/// Growing a well-formed arena by one child keeps it well formed.
pub proof fn lemma_grow_wf(m: Map<NodeId, Slot>, len: nat, parent: NodeId, child: NodeId, data: NodeView)
    requires
        links_wf(m, len),
        m.dom().contains(parent),
        !m.dom().contains(child),
        node_id_index(child) == len + 1,
    ensures
        links_wf(grow(m, parent, child, data), len + 1),
{
    let g = grow(m, parent, child, data);
    assert(g.dom() =~= m.dom().insert(child));
    assert forall|id: NodeId| #[trigger] g.dom().contains(id) implies (g[id].parent matches Some(p)
        ==> {
        &&& g.dom().contains(p)
        &&& node_id_index(p) < node_id_index(id)
        &&& g[p].children.contains(id)
    }) by {
        if id == child {
            assert(g[parent].children.last() == child);
        } else if let Some(p) = m[id].parent {
            if p == parent {
                let i = choose|i: int| 0 <= i < m[p].children.len() && m[p].children[i] == id;
                assert(g[p].children[i] == id);
            }
        }
    }
    assert forall|id: NodeId, i: int|
        g.dom().contains(id) && 0 <= i < g[id].children.len() implies ({
        let c = #[trigger] g[id].children[i];
        &&& g.dom().contains(c)
        &&& node_id_index(id) < node_id_index(c)
        &&& g[c].parent == Some(id)
    }) by {
        if id == parent && i == m[parent].children.len() {
        } else if id != child {
            assert(m[id].children[i] == g[id].children[i]);
        }
    }
    assert forall|id: NodeId| #[trigger] g.dom().contains(id) implies
        g[id].children.no_duplicates() by {
        if id == parent {
            assert forall|i: int| 0 <= i < m[parent].children.len() implies m[parent].children[i]
                != child by {
                assert(m.dom().contains(m[parent].children[i]));
            }
        } else if id != child {
            assert(m.dom().contains(id));
        }
    }
}

/// The nodes below `kids` do not depend on what an arena holds at or before
/// the position `floor`, nor on nodes stored later: they stay the same
/// while the children of every node after `floor` stay the same. Each of
/// them is a node stored after `floor`.
pub proof fn lemma_forest_frame(
    m: Map<NodeId, Slot>,
    len: nat,
    g: Map<NodeId, Slot>,
    len2: nat,
    floor: nat,
    kids: Seq<NodeId>,
)
    requires
        links_wf(m, len),
        len <= len2,
        forall|i: int|
            0 <= i < kids.len() ==> m.dom().contains(#[trigger] kids[i]) && floor < node_id_index(
                kids[i],
            ),
        forall|x: NodeId|
            #[trigger] m.dom().contains(x) && node_id_index(x) > floor ==> g.dom().contains(x)
                && g[x].children == m[x].children,
    ensures
        forest(g, len2, floor, kids) == forest(m, len, floor, kids),
        forall|i: int|
            0 <= i < forest(m, len, floor, kids).len() ==> m.dom().contains(
                #[trigger] forest(m, len, floor, kids)[i],
            ) && node_id_index(forest(m, len, floor, kids)[i]) > floor,
    decreases len - floor, kids.len(),
{
    if kids.len() > 0 {
        let k = kids.last();
        assert(kids[kids.len() - 1] == k);
        lemma_forest_frame(m, len, g, len2, floor, kids.drop_last());
        assert forall|i: int| 0 <= i < m[k].children.len() implies m.dom().contains(
            #[trigger] m[k].children[i],
        ) && node_id_index(k) < node_id_index(m[k].children[i]) by {}
        lemma_forest_frame(m, len, g, len2, node_id_index(k), m[k].children);
    }
}

/// The shapes of the trees that hang from `kids` do not depend on what an
/// arena holds at or before the position `floor`, nor on nodes stored
/// later: they stay the same while every node after `floor` stays the same.
pub proof fn lemma_shapes_frame(
    m: Map<NodeId, Slot>,
    len: nat,
    g: Map<NodeId, Slot>,
    len2: nat,
    floor: nat,
    kids: Seq<NodeId>,
)
    requires
        links_wf(m, len),
        len <= len2,
        forall|i: int|
            0 <= i < kids.len() ==> m.dom().contains(#[trigger] kids[i]) && floor < node_id_index(
                kids[i],
            ),
        forall|x: NodeId|
            #[trigger] m.dom().contains(x) && node_id_index(x) > floor ==> g.dom().contains(x)
                && g[x] == m[x],
    ensures
        shapes(g, len2, floor, kids) == shapes(m, len, floor, kids),
    decreases len - floor, kids.len(),
{
    if kids.len() > 0 {
        let k = kids.last();
        assert(kids[kids.len() - 1] == k);
        lemma_shapes_frame(m, len, g, len2, floor, kids.drop_last());
        assert forall|i: int| 0 <= i < m[k].children.len() implies m.dom().contains(
            #[trigger] m[k].children[i],
        ) && node_id_index(k) < node_id_index(m[k].children[i]) by {}
        lemma_shapes_frame(m, len, g, len2, node_id_index(k), m[k].children);
    }
}

/// The shapes that hang from a run of kids are those that hang from its
/// first part followed by those that hang from its second part.
pub proof fn lemma_shapes_concat(
    m: Map<NodeId, Slot>,
    len: nat,
    floor: nat,
    a: Seq<NodeId>,
    b: Seq<NodeId>,
)
    ensures
        shapes(m, len, floor, a + b) == shapes(m, len, floor, a) + shapes(m, len, floor, b),
    decreases b.len(),
{
    if b.len() == 0 {
        assert(a + b =~= a);
        assert(shapes(m, len, floor, a) + shapes(m, len, floor, b) =~= shapes(m, len, floor, a));
    } else {
        assert((a + b).drop_last() =~= a + b.drop_last());
        assert((a + b).last() == b.last());
        lemma_shapes_concat(m, len, floor, a, b.drop_last());
        assert(shapes(m, len, floor, a + b) =~= shapes(m, len, floor, a) + shapes(m, len, floor, b));
    }
}

/// The data of two runs of shapes, one after the other, is the data of the
/// first followed by the data of the second.
pub proof fn lemma_flatten_concat(a: Seq<Shape>, b: Seq<Shape>)
    ensures
        flatten_all(a + b) == flatten_all(a) + flatten_all(b),
    decreases b.len(),
{
    if b.len() == 0 {
        assert(a + b =~= a);
        assert(flatten_all(a) + flatten_all(b) =~= flatten_all(a));
    } else {
        assert((a + b).drop_last() =~= a + b.drop_last());
        assert((a + b).last() == b.last());
        lemma_flatten_concat(a, b.drop_last());
        assert(flatten_all(a + b) =~= flatten_all(a) + (flatten_all(b.drop_last()) + flatten(
            b.last(),
        )));
    }
}

/// The data of the nodes below a run of kids, in pre-order, is the data of
/// the shapes that hang from the kids.
pub proof fn lemma_forest_data(m: Map<NodeId, Slot>, len: nat, floor: nat, kids: Seq<NodeId>)
    ensures
        data_of(m, forest(m, len, floor, kids)) == flatten_all(shapes(m, len, floor, kids)),
    decreases len - floor, kids.len(),
{
    if kids.len() == 0 {
        assert(data_of(m, forest(m, len, floor, kids)) =~= Seq::empty());
    } else {
        let k = kids.last();
        let before = forest(m, len, floor, kids.drop_last());
        let run = shapes(m, len, floor, kids);
        lemma_forest_data(m, len, floor, kids.drop_last());
        assert(run.drop_last() =~= shapes(m, len, floor, kids.drop_last()));
        assert(flatten_all(run) == flatten_all(run.drop_last()) + flatten(run.last()));
        assert(flatten(run.last()) == seq![m[k].data] + flatten_all(run.last().kids));
        if floor < node_id_index(k) <= len {
            let below = forest(m, len, node_id_index(k), m[k].children);
            lemma_forest_data(m, len, node_id_index(k), m[k].children);
            assert(data_of(m, before + seq![k] + below) =~= data_of(m, before) + (seq![m[k].data]
                + data_of(m, below)));
        } else {
            let below = Seq::<NodeId>::empty();
            assert(flatten_all(run.last().kids) =~= Seq::empty());
            assert(data_of(m, before + seq![k] + below) =~= data_of(m, before) + (seq![m[k].data]
                + Seq::<NodeView>::empty()));
        }
    }
}

/// The listing of a tree is the data of its shape in pre-order.
pub proof fn lemma_listing_of_shape(tree: Tree)
    ensures
        tree.listing() == flatten(tree.shape()),
{
    let m = tree.nodes();
    let below = forest(m, arena_len(tree.arena), node_id_index(tree.root), m[tree.root].children);
    lemma_forest_data(m, arena_len(tree.arena), node_id_index(tree.root), m[tree.root].children);
    assert(data_of(m, seq![tree.root] + below) =~= seq![m[tree.root].data] + data_of(m, below));
}

/// Every node of an ancestor chain is a node of the arena.
pub proof fn lemma_ancestors_in_dom(m: Map<NodeId, Slot>, len: nat, id: NodeId)
    requires
        links_wf(m, len),
        m.dom().contains(id),
    ensures
        ancestors_of(m, id).len() >= 1,
        ancestors_of(m, id)[0] == id,
        forall|i: int| 0 <= i < ancestors_of(m, id).len() ==>
            m.dom().contains(#[trigger] ancestors_of(m, id)[i]),
    decreases node_id_index(id),
{
    if let Some(p) = m[id].parent {
        lemma_ancestors_in_dom(m, len, p);
    }
}

/// Every node of a pre-order walk is a node of the arena.
pub proof fn lemma_preorder_in_dom(m: Map<NodeId, Slot>, len: nat, id: NodeId)
    requires
        links_wf(m, len),
        m.dom().contains(id),
    ensures
        forall|i: int| 0 <= i < preorder(m, len, id).len() ==>
            m.dom().contains(#[trigger] preorder(m, len, id)[i]),
{
    lemma_forest_frame(m, len, m, len, node_id_index(id), m[id].children);
}

/// Storing a detached node in a well-formed arena keeps it well formed.
pub proof fn lemma_store_wf(m: Map<NodeId, Slot>, len: nat, id: NodeId, data: NodeView)
    requires
        links_wf(m, len),
        !m.dom().contains(id),
        node_id_index(id) == len + 1,
    ensures
        links_wf(m.insert(id, fresh_slot(data)), len + 1),
{
    let g = m.insert(id, fresh_slot(data));
    assert(g.dom() =~= m.dom().insert(id));
    assert forall|x: NodeId| #[trigger] g.dom().contains(x) implies
        g[x].children.no_duplicates() by {
        if x != id {
            assert(m.dom().contains(x));
        }
    }
    assert forall|x: NodeId, i: int|
        g.dom().contains(x) && 0 <= i < g[x].children.len() implies ({
        let c = #[trigger] g[x].children[i];
        &&& g.dom().contains(c)
        &&& node_id_index(x) < node_id_index(c)
        &&& g[c].parent == Some(x)
    }) by {
        assert(m.dom().contains(m[x].children[i]));
    }
    assert forall|x: NodeId| #[trigger] g.dom().contains(x) implies (g[x].parent matches Some(p) ==>
        {
        &&& g.dom().contains(p)
        &&& node_id_index(p) < node_id_index(x)
        &&& g[p].children.contains(x)
    }) by {
        if x != id {
            assert(m.dom().contains(x));
        }
    }
}

} // verus!
