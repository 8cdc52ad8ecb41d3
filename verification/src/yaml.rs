//! Building a grammar from a configuration document.
//!
//! A document has the shape of a YAML value: it is text, a list of
//! documents, or an ordered mapping from documents to documents. Every text
//! key of a mapping becomes a node below the node the mapping is imported
//! under. Where the key's value is text, that text is the node's help; where
//! it is a list, each text element becomes a leaf below the node and each
//! mapping element is imported below the node in the same way. Anything else
//! is passed over.

use vstd::prelude::*;
use indextree::NodeId;
use crate::arena::{arena_len, arena_nodes, arena_wf, links_wf, node_id_index, Slot};
use crate::node::{explanation_of, node_agrees, Depth, Node, NodeView};
use crate::tree::{
    append_child, depth_of, flatten, flatten_all, grammar_links, grow, lemma_flatten_concat,
    lemma_grow_grammar, lemma_listing_of_shape, lemma_shapes_concat, lemma_shapes_frame, root_view,
    shapes, NodeArena, Shape, Tree,
};

verus! {

/// A configuration document.
#[derive(Debug)]
pub enum Document {
    /// A scalar string.
    Text(String),
    /// A sequence of documents.
    List(Vec<Document>),
    /// A mapping, as its entries in the order they were written.
    Mapping(Vec<(Document, Document)>),
    /// Any other value: a number, a boolean, nothing.
    Other,
}

/// The text of a text document; empty for every other document.
pub open spec fn text_of(doc: Document) -> Seq<char> {
    match doc {
        Document::Text(s) => s@,
        _ => Seq::empty(),
    }
}

/// The trees that the entries of a mapping give rise to, one for each text
/// key; the nodes of the keys lie at `depth`.
pub open spec fn entries_shapes(entries: Seq<(Document, Document)>, depth: nat) -> Seq<Shape>
    decreases entries, 0nat,
{
    if entries.len() == 0 {
        Seq::empty()
    } else {
        entries_shapes(entries.drop_last(), depth) + entry_shapes(entries.last(), depth)
    }
}

/// The tree that one entry of a mapping gives rise to, if its key is text:
/// the node of the key and, where the value is a list, below it the trees
/// of the elements.
pub open spec fn entry_shapes(entry: (Document, Document), depth: nat) -> Seq<Shape>
    decreases entry, 0nat,
{
    match entry.0 {
        Document::Text(key) => seq![
            Shape {
                node: NodeView {
                    name: key@,
                    explanation: explanation_of(text_of(entry.1)),
                    depth: Depth::Exact(depth as usize),
                },
                kids: value_shapes(entry.1, depth + 1),
            },
        ],
        _ => Seq::empty(),
    }
}

/// The trees that the value of an entry gives rise to: those of its
/// elements where it is a list, none otherwise.
pub open spec fn value_shapes(value: Document, depth: nat) -> Seq<Shape>
    decreases value, 1nat,
{
    match value {
        Document::List(items) => items_shapes(items@, depth),
        _ => Seq::empty(),
    }
}

/// The trees that the elements of a list give rise to; leaves made from
/// text elements lie at `depth`, and so do the key nodes of mapping
/// elements.
pub open spec fn items_shapes(items: Seq<Document>, depth: nat) -> Seq<Shape>
    decreases items, 0nat,
{
    if items.len() == 0 {
        Seq::empty()
    } else {
        items_shapes(items.drop_last(), depth) + item_shapes(items.last(), depth)
    }
}

/// The trees that one element of a list gives rise to: a leaf for text, the
/// trees of its entries for a mapping.
pub open spec fn item_shapes(item: Document, depth: nat) -> Seq<Shape>
    decreases item, 0nat,
{
    match item {
        Document::Text(name) => seq![
            Shape {
                node: NodeView { name: name@, explanation: None, depth: Depth::Exact(depth as usize) },
                kids: Seq::empty(),
            },
        ],
        Document::Mapping(entries) => entries_shapes(entries@, depth),
        _ => Seq::empty(),
    }
}

/// The grammar that a document describes: the root, and below it what the
/// top-level mapping gives rise to. A document that is no mapping describes
/// the root alone.
pub open spec fn grammar_shape(doc: Document) -> Shape {
    Shape {
        node: root_view(Depth::Exact(0)),
        kids: match doc {
            Document::Mapping(entries) => entries_shapes(entries@, 1),
            _ => Seq::empty(),
        },
    }
}

/// The nodes of the grammar that a document describes, in pre-order.
pub open spec fn grammar_listing(doc: Document) -> Seq<NodeView> {
    flatten(grammar_shape(doc))
}

/// The number of nodes in a run of trees.
pub open spec fn weight(run: Seq<Shape>) -> nat {
    flatten_all(run).len()
}

/// An arena with the content `g` in `len2` slots came from one with the
/// content `m` in `len` slots by adding trees below `parent`, after the
/// children that `parent` had: the trees that were added are `added`, and
/// no other node that was there changed.
pub open spec fn extends_below(
    m: Map<NodeId, Slot>,
    len: nat,
    g: Map<NodeId, Slot>,
    len2: nat,
    parent: NodeId,
    added: Seq<Shape>,
) -> bool {
    let n = m[parent].children.len() as int;
    &&& len2 == len + weight(added)
    &&& forall|x: NodeId| #[trigger] m.dom().contains(x) ==> g.dom().contains(x)
    &&& forall|x: NodeId| #[trigger] m.dom().contains(x) && x != parent ==> g[x] == m[x]
    &&& forall|x: NodeId| #[trigger] g.dom().contains(x) && !m.dom().contains(x) ==>
        g[x].parent is Some
    &&& g[parent].data == m[parent].data
    &&& g[parent].parent == m[parent].parent
    &&& n <= g[parent].children.len()
    &&& g[parent].children.take(n) == m[parent].children
    &&& shapes(g, len2, node_id_index(parent), g[parent].children.skip(n)) == added
}

/// An arena extends itself by nothing.
proof fn lemma_extends_nothing(m: Map<NodeId, Slot>, len: nat, parent: NodeId)
    ensures
        extends_below(m, len, m, len, parent, Seq::empty()),
{
    let n = m[parent].children.len() as int;
    assert(m[parent].children.take(n) =~= m[parent].children);
    assert(m[parent].children.skip(n) =~= Seq::empty());
}

/// Two extensions below the same parent, one after the other, make one
/// extension by what the first added followed by what the second added.
proof fn lemma_extends_twice(
    m0: Map<NodeId, Slot>,
    l0: nat,
    m1: Map<NodeId, Slot>,
    l1: nat,
    m2: Map<NodeId, Slot>,
    l2: nat,
    parent: NodeId,
    a: Seq<Shape>,
    b: Seq<Shape>,
)
    requires
        links_wf(m0, l0),
        links_wf(m1, l1),
        links_wf(m2, l2),
        m0.dom().contains(parent),
        extends_below(m0, l0, m1, l1, parent, a),
        extends_below(m1, l1, m2, l2, parent, b),
    ensures
        extends_below(m0, l0, m2, l2, parent, a + b),
{
    let floor = node_id_index(parent);
    let n0 = m0[parent].children.len() as int;
    let n1 = m1[parent].children.len() as int;
    let kids1 = m1[parent].children;
    let kids2 = m2[parent].children;
    assert(m1.dom().contains(parent));
    assert(kids2.take(n0) =~= kids2.take(n1).take(n0));
    assert(kids2.skip(n0) =~= kids1.skip(n0) + kids2.skip(n1)) by {
        assert(kids2.take(n1) == kids1);
        assert forall|i: int| 0 <= i < n1 - n0 implies kids2.skip(n0)[i] == kids1.skip(n0)[i] by {
            assert(kids2.take(n1)[i + n0] == kids2[i + n0]);
        }
    }
    let first = kids1.skip(n0);
    let second = kids2.skip(n1);
    lemma_shapes_concat(m2, l2, floor, first, second);
    assert forall|i: int| 0 <= i < first.len() implies
        m1.dom().contains(#[trigger] first[i]) && floor
        < node_id_index(first[i]) by {
        assert(first[i] == kids1[i + n0]);
    }
    lemma_shapes_frame(m1, l1, m2, l2, floor, first);
    lemma_flatten_concat(a, b);
    assert forall|x: NodeId| #[trigger] m2.dom().contains(x) && !m0.dom().contains(x) implies
        m2[x].parent is Some by {
        if m1.dom().contains(x) {
            assert(x != parent);
        }
    }
    assert forall|x: NodeId| #[trigger] m0.dom().contains(x) && x != parent implies
        m2[x] == m0[x] by {
        assert(m1.dom().contains(x));
    }
}

/// A new child of `parent`, together with what was then added below that
/// child, is an extension below `parent` by the child followed by what was
/// added below it.
proof fn lemma_extends_nested(
    m0: Map<NodeId, Slot>,
    l0: nat,
    node: NodeId,
    data: NodeView,
    m2: Map<NodeId, Slot>,
    l2: nat,
    parent: NodeId,
    below: Seq<Shape>,
)
    requires
        links_wf(m0, l0),
        links_wf(m2, l2),
        m0.dom().contains(parent),
        !m0.dom().contains(node),
        node_id_index(node) == l0 + 1,
        extends_below(grow(m0, parent, node, data), l0 + 1, m2, l2, node, below),
    ensures
        extends_below(m0, l0, m2, l2, parent, seq![Shape { node: data, kids: below }]),
{
    let m1 = grow(m0, parent, node, data);
    let floor = node_id_index(parent);
    let n0 = m0[parent].children.len() as int;
    assert(m1.dom().contains(parent));
    assert(m1.dom().contains(node));
    assert(m2[parent] == m1[parent]);
    let kids2 = m2[parent].children;
    assert(kids2 == m0[parent].children.push(node));
    assert(kids2.take(n0) =~= m0[parent].children);
    assert(kids2.skip(n0) =~= seq![node]);
    assert(m1[node].children.len() == 0);
    assert(m2[node].children.skip(0) =~= m2[node].children);
    assert(m2.dom().contains(node));
    assert(seq![node].drop_last() =~= Seq::<NodeId>::empty());
    assert(shapes(m2, l2, floor, Seq::<NodeId>::empty()) =~= Seq::<Shape>::empty());
    assert(seq![node].last() == node);
    assert(floor < node_id_index(node) <= l2);
    assert(shapes(m2, l2, floor, seq![node]) =~= seq![Shape { node: data, kids: below }]);
    lemma_weight_of_one(Shape { node: data, kids: below });
    assert forall|x: NodeId| #[trigger] m0.dom().contains(x) implies m2.dom().contains(x) by {
        assert(m1.dom().contains(x));
    }
    assert forall|x: NodeId| #[trigger] m0.dom().contains(x) && x != parent implies
        m2[x] == m0[x] by {
        assert(m1.dom().contains(x));
        assert(x != node);
    }
    assert forall|x: NodeId| #[trigger] m2.dom().contains(x) && !m0.dom().contains(x) implies
        m2[x].parent is Some by {
        if m1.dom().contains(x) {
            assert(x == node);
        }
    }
}

/// A run of one tree holds the node of that tree and the nodes below it.
proof fn lemma_weight_of_one(shape: Shape)
    ensures
        weight(seq![shape]) == 1 + weight(shape.kids),
{
    assert(seq![shape].drop_last() =~= Seq::<Shape>::empty());
    assert(flatten_all(Seq::<Shape>::empty()) =~= Seq::empty());
    assert(flatten_all(seq![shape]) =~= flatten(shape));
}

/// The first entries of a mapping give rise to no more nodes than all of
/// them.
proof fn lemma_entries_prefix(entries: Seq<(Document, Document)>, k: int, depth: nat)
    requires
        0 <= k <= entries.len(),
    ensures
        weight(entries_shapes(entries.take(k), depth)) <= weight(entries_shapes(entries, depth)),
    decreases entries.len(),
{
    if k == entries.len() {
        assert(entries.take(k) =~= entries);
    } else {
        assert(entries.drop_last().take(k) =~= entries.take(k));
        lemma_entries_prefix(entries.drop_last(), k, depth);
        lemma_flatten_concat(
            entries_shapes(entries.drop_last(), depth),
            entry_shapes(entries.last(), depth),
        );
    }
}

/// The first elements of a list give rise to no more nodes than all of
/// them.
proof fn lemma_items_prefix(items: Seq<Document>, k: int, depth: nat)
    requires
        0 <= k <= items.len(),
    ensures
        weight(items_shapes(items.take(k), depth)) <= weight(items_shapes(items, depth)),
    decreases items.len(),
{
    if k == items.len() {
        assert(items.take(k) =~= items);
    } else {
        assert(items.drop_last().take(k) =~= items.take(k));
        lemma_items_prefix(items.drop_last(), k, depth);
        lemma_flatten_concat(items_shapes(items.drop_last(), depth), item_shapes(items.last(), depth));
    }
}

/// The text of a text document; the empty string for any other document.
fn get_exp(doc: &Document) -> (text: &str)
    ensures
        text@ == text_of(*doc),
{
    match doc {
        Document::Text(exp) => exp.as_str(),
        _ => {
            proof {
                reveal_strlit("");
            }
            ""
        },
    }
}

/// The depth tag for a new child of `parent`: one more than the parent's.
fn child_depth(parent: NodeId, arena: &NodeArena) -> (depth: Depth)
    requires
        arena_wf(*arena),
        grammar_links(arena_nodes(*arena)),
        arena_nodes(*arena).dom().contains(parent),
        arena_len(*arena) < usize::MAX,
    ensures
        depth == Depth::Exact((depth_of(arena_nodes(*arena), parent) + 1) as usize),
        depth_of(arena_nodes(*arena), parent) + 1 <= usize::MAX,
{
    match Node::from_id(&parent, arena).depth {
        Depth::Exact(d) => Depth::Exact(d + 1),
        Depth::Any => Depth::Any,
    }
}

/// Imports the entries of a mapping below `root` and returns `root`.
fn to_tree_rec(root: NodeId, arena: &mut NodeArena, hash: &Vec<(Document, Document)>) -> (same:
    NodeId)
    requires
        arena_wf(*old(arena)),
        grammar_links(arena_nodes(*old(arena))),
        arena_nodes(*old(arena)).dom().contains(root),
        arena_len(*old(arena)) + weight(
            entries_shapes(hash@, depth_of(arena_nodes(*old(arena)), root) + 1),
        ) <= usize::MAX,
    ensures
        same == root,
        arena_wf(*final(arena)),
        grammar_links(arena_nodes(*final(arena))),
        extends_below(
            arena_nodes(*old(arena)),
            arena_len(*old(arena)),
            arena_nodes(*final(arena)),
            arena_len(*final(arena)),
            root,
            entries_shapes(hash@, depth_of(arena_nodes(*old(arena)), root) + 1),
        ),
    decreases hash,
{
    let ghost m0 = arena_nodes(*arena);
    let ghost l0 = arena_len(*arena);
    let ghost d = depth_of(m0, root) + 1;
    proof {
        lemma_extends_nothing(m0, l0, root);
        assert(hash@.take(0) =~= Seq::empty());
    }
    let mut k: usize = 0;
    while k < hash.len()
        invariant
            0 <= k <= hash.len(),
            links_wf(m0, l0),
            m0.dom().contains(root),
            d == depth_of(m0, root) + 1,
            arena_wf(*arena),
            grammar_links(arena_nodes(*arena)),
            extends_below(
                m0,
                l0,
                arena_nodes(*arena),
                arena_len(*arena),
                root,
                entries_shapes(hash@.take(k as int), d),
            ),
            l0 + weight(entries_shapes(hash@, d)) <= usize::MAX,
        decreases hash.len() - k,
    {
        let entry = &hash[k];
        let ghost m1 = arena_nodes(*arena);
        let ghost l1 = arena_len(*arena);
        let ghost so_far = entries_shapes(hash@.take(k as int), d);
        let ghost mut below: Seq<Shape> = Seq::empty();
        proof {
            assert(hash@.take(k + 1).drop_last() =~= hash@.take(k as int));
            assert(hash@.take(k + 1).last() == *entry);
            assert(entries_shapes(hash@.take(k + 1), d) == so_far + entry_shapes(*entry, d));
            lemma_entries_prefix(hash@, k + 1, d);
            lemma_flatten_concat(so_far, entry_shapes(*entry, d));
            assert(depth_of(m1, root) == depth_of(m0, root));
        }
        match &entry.0 {
            Document::Text(key) => {
                proof {
                    let made = entry_shapes(*entry, d)[0];
                    assert(entry_shapes(*entry, d) =~= seq![made]);
                    lemma_weight_of_one(made);
                }
                let depth = child_depth(root, arena);
                let fresh = Node::new(key.as_str(), get_exp(&entry.1), depth);
                let ghost data = fresh@;
                proof {
                    below = value_shapes(entry.1, d + 1);
                    assert(entry_shapes(*entry, d) == seq![Shape { node: data, kids: below }]);
                }
                let node = append_child(arena, root, fresh);
                proof {
                    lemma_grow_grammar(m1, l1, root, node, data);
                    lemma_extends_nothing(arena_nodes(*arena), arena_len(*arena), node);
                }
                match &entry.1 {
                    Document::List(items) => {
                        import_items(node, arena, items);
                    },
                    _ => {},
                }
                proof {
                    let m3 = arena_nodes(*arena);
                    let l3 = arena_len(*arena);
                    lemma_extends_nested(m1, l1, node, data, m3, l3, root, below);
                    lemma_extends_twice(m0, l0, m1, l1, m3, l3, root, so_far, entry_shapes(*entry, d));
                }
            },
            _ => {
                proof {
                    assert(so_far + entry_shapes(*entry, d) =~= so_far);
                }
            },
        }
        k = k + 1;
    }
    proof {
        assert(hash@.take(k as int) =~= hash@);
    }
    root
}

/// Imports the elements of a list below `node`: text as leaves, mappings
/// through [`to_tree_rec`].
fn import_items(node: NodeId, arena: &mut NodeArena, items: &Vec<Document>)
    requires
        arena_wf(*old(arena)),
        grammar_links(arena_nodes(*old(arena))),
        arena_nodes(*old(arena)).dom().contains(node),
        arena_len(*old(arena)) + weight(
            items_shapes(items@, depth_of(arena_nodes(*old(arena)), node) + 1),
        ) <= usize::MAX,
    ensures
        arena_wf(*final(arena)),
        grammar_links(arena_nodes(*final(arena))),
        extends_below(
            arena_nodes(*old(arena)),
            arena_len(*old(arena)),
            arena_nodes(*final(arena)),
            arena_len(*final(arena)),
            node,
            items_shapes(items@, depth_of(arena_nodes(*old(arena)), node) + 1),
        ),
    decreases items,
{
    let ghost m0 = arena_nodes(*arena);
    let ghost l0 = arena_len(*arena);
    let ghost d = depth_of(m0, node) + 1;
    proof {
        lemma_extends_nothing(m0, l0, node);
        assert(items@.take(0) =~= Seq::empty());
    }
    let mut j: usize = 0;
    while j < items.len()
        invariant
            0 <= j <= items.len(),
            links_wf(m0, l0),
            m0.dom().contains(node),
            d == depth_of(m0, node) + 1,
            arena_wf(*arena),
            grammar_links(arena_nodes(*arena)),
            extends_below(
                m0,
                l0,
                arena_nodes(*arena),
                arena_len(*arena),
                node,
                items_shapes(items@.take(j as int), d),
            ),
            l0 + weight(items_shapes(items@, d)) <= usize::MAX,
        decreases items.len() - j,
    {
        let item = &items[j];
        let ghost m1 = arena_nodes(*arena);
        let ghost l1 = arena_len(*arena);
        let ghost so_far = items_shapes(items@.take(j as int), d);
        proof {
            assert(items@.take(j + 1).drop_last() =~= items@.take(j as int));
            assert(items@.take(j + 1).last() == *item);
            assert(items_shapes(items@.take(j + 1), d) == so_far + item_shapes(*item, d));
            lemma_items_prefix(items@, j + 1, d);
            lemma_flatten_concat(so_far, item_shapes(*item, d));
            assert(depth_of(m1, node) == depth_of(m0, node));
        }
        match item {
            Document::Text(name) => {
                proof {
                    let made = item_shapes(*item, d)[0];
                    assert(item_shapes(*item, d) =~= seq![made]);
                    lemma_weight_of_one(made);
                    reveal_strlit("");
                }
                let depth = child_depth(node, arena);
                let fresh = Node::new(name.as_str(), "", depth);
                let ghost data = fresh@;
                proof {
                    assert(item_shapes(*item, d) == seq![Shape { node: data, kids: Seq::empty() }]);
                }
                let leaf = append_child(arena, node, fresh);
                proof {
                    let m2 = arena_nodes(*arena);
                    let l2 = arena_len(*arena);
                    lemma_grow_grammar(m1, l1, node, leaf, data);
                    lemma_extends_nothing(m2, l2, leaf);
                    lemma_extends_nested(m1, l1, leaf, data, m2, l2, node, Seq::empty());
                    lemma_extends_twice(m0, l0, m1, l1, m2, l2, node, so_far, item_shapes(*item, d));
                }
            },
            Document::Mapping(entries) => {
                to_tree_rec(node, arena, entries);
                proof {
                    let m2 = arena_nodes(*arena);
                    let l2 = arena_len(*arena);
                    lemma_extends_twice(m0, l0, m1, l1, m2, l2, node, so_far, item_shapes(*item, d));
                }
            },
            _ => {
                proof {
                    assert(so_far + item_shapes(*item, d) =~= so_far);
                }
            },
        }
        j = j + 1;
    }
    proof {
        assert(items@.take(j as int) =~= items@);
    }
}

/// How many nodes the entries of a mapping give rise to does not depend on
/// the depth they are imported at.
proof fn lemma_entries_weight(entries: Seq<(Document, Document)>, d1: nat, d2: nat)
    ensures
        weight(entries_shapes(entries, d1)) == weight(entries_shapes(entries, d2)),
    decreases entries, 1nat,
{
    if entries.len() > 0 {
        lemma_entries_weight(entries.drop_last(), d1, d2);
        lemma_entry_weight(entries.last(), d1, d2);
        lemma_flatten_concat(entries_shapes(entries.drop_last(), d1), entry_shapes(entries.last(), d1));
        lemma_flatten_concat(entries_shapes(entries.drop_last(), d2), entry_shapes(entries.last(), d2));
    }
}

/// See [`lemma_entries_weight`].
proof fn lemma_entry_weight(entry: (Document, Document), d1: nat, d2: nat)
    ensures
        weight(entry_shapes(entry, d1)) == weight(entry_shapes(entry, d2)),
    decreases entry, 0nat,
{
    if let Document::Text(_) = entry.0 {
        if let Document::List(items) = entry.1 {
            lemma_items_weight(items@, d1 + 1, d2 + 1);
        }
        lemma_weight_of_one(entry_shapes(entry, d1)[0]);
        lemma_weight_of_one(entry_shapes(entry, d2)[0]);
        assert(entry_shapes(entry, d1) =~= seq![entry_shapes(entry, d1)[0]]);
        assert(entry_shapes(entry, d2) =~= seq![entry_shapes(entry, d2)[0]]);
    }
}

/// See [`lemma_entries_weight`].
proof fn lemma_items_weight(items: Seq<Document>, d1: nat, d2: nat)
    ensures
        weight(items_shapes(items, d1)) == weight(items_shapes(items, d2)),
    decreases items, 1nat,
{
    if items.len() > 0 {
        lemma_items_weight(items.drop_last(), d1, d2);
        lemma_flatten_concat(items_shapes(items.drop_last(), d1), item_shapes(items.last(), d1));
        lemma_flatten_concat(items_shapes(items.drop_last(), d2), item_shapes(items.last(), d2));
        match items.last() {
            Document::Mapping(entries) => {
                lemma_entries_weight(entries@, d1, d2);
                assert(item_shapes(items.last(), d1) == entries_shapes(entries@, d1));
                assert(item_shapes(items.last(), d2) == entries_shapes(entries@, d2));
            },
            Document::Text(_) => {
                lemma_weight_of_one(item_shapes(items.last(), d1)[0]);
                lemma_weight_of_one(item_shapes(items.last(), d2)[0]);
                assert(item_shapes(items.last(), d1) =~= seq![item_shapes(items.last(), d1)[0]]);
                assert(item_shapes(items.last(), d2) =~= seq![item_shapes(items.last(), d2)[0]]);
                assert(weight(Seq::<Shape>::empty()) == 0);
            },
            _ => {
                assert(item_shapes(items.last(), d1) =~= Seq::empty());
                assert(item_shapes(items.last(), d2) =~= Seq::empty());
            },
        }
    }
}

/// The number of nodes that one entry of a mapping gives rise to, or
/// nothing where that number exceeds `usize::MAX`.
fn count_entry(entry: &(Document, Document)) -> (count: Option<usize>)
    ensures
        count matches Some(n) ==> n == weight(entry_shapes(*entry, 1)),
        count is None ==> weight(entry_shapes(*entry, 1)) > usize::MAX,
    decreases entry, 0nat,
{
    match &entry.0 {
        Document::Text(_) => {
            proof {
                lemma_weight_of_one(entry_shapes(*entry, 1)[0]);
                assert(entry_shapes(*entry, 1) =~= seq![entry_shapes(*entry, 1)[0]]);
            }
            match &entry.1 {
                Document::List(items) => {
                    proof {
                        lemma_items_weight(items@, 1, 2);
                    }
                    match count_items(items) {
                        Some(below) => below.checked_add(1),
                        None => None,
                    }
                },
                _ => Some(1),
            }
        },
        _ => Some(0),
    }
}

/// The number of nodes that the entries of a mapping give rise to, or
/// nothing where that number exceeds `usize::MAX`.
fn count_entries(entries: &Vec<(Document, Document)>) -> (count: Option<usize>)
    ensures
        count matches Some(n) ==> n == weight(entries_shapes(entries@, 1)),
        count is None ==> weight(entries_shapes(entries@, 1)) > usize::MAX,
    decreases entries, 1nat,
{
    let mut total: usize = 0;
    let mut k: usize = 0;
    assert(entries@.take(0) =~= Seq::empty());
    while k < entries.len()
        invariant
            0 <= k <= entries.len(),
            total == weight(entries_shapes(entries@.take(k as int), 1)),
        decreases entries.len() - k,
    {
        let entry = &entries[k];
        proof {
            let so_far = entries_shapes(entries@.take(k as int), 1);
            assert(entries@.take(k + 1).drop_last() =~= entries@.take(k as int));
            assert(entries@.take(k + 1).last() == *entry);
            assert(entries_shapes(entries@.take(k + 1), 1) == so_far + entry_shapes(*entry, 1));
            lemma_entries_prefix(entries@, k + 1, 1);
            lemma_flatten_concat(so_far, entry_shapes(*entry, 1));
        }
        let sum = match count_entry(entry) {
            Some(n) => total.checked_add(n),
            None => None,
        };
        match sum {
            Some(n) => {
                total = n;
            },
            None => {
                return None;
            },
        }
        k = k + 1;
    }
    assert(entries@.take(k as int) =~= entries@);
    Some(total)
}

/// The number of nodes that the elements of a list give rise to, or
/// nothing where that number exceeds `usize::MAX`.
fn count_items(items: &Vec<Document>) -> (count: Option<usize>)
    ensures
        count matches Some(n) ==> n == weight(items_shapes(items@, 1)),
        count is None ==> weight(items_shapes(items@, 1)) > usize::MAX,
    decreases items, 1nat,
{
    let mut total: usize = 0;
    let mut j: usize = 0;
    assert(items@.take(0) =~= Seq::empty());
    while j < items.len()
        invariant
            0 <= j <= items.len(),
            total == weight(items_shapes(items@.take(j as int), 1)),
        decreases items.len() - j,
    {
        let item = &items[j];
        proof {
            let so_far = items_shapes(items@.take(j as int), 1);
            assert(items@.take(j + 1).drop_last() =~= items@.take(j as int));
            assert(items@.take(j + 1).last() == *item);
            assert(items_shapes(items@.take(j + 1), 1) == so_far + item_shapes(*item, 1));
            lemma_items_prefix(items@, j + 1, 1);
            lemma_flatten_concat(so_far, item_shapes(*item, 1));
        }
        let here: Option<usize> = match item {
            Document::Text(_) => {
                proof {
                    lemma_weight_of_one(item_shapes(*item, 1)[0]);
                    assert(item_shapes(*item, 1) =~= seq![item_shapes(*item, 1)[0]]);
                    assert(weight(Seq::<Shape>::empty()) == 0);
                }
                Some(1)
            },
            Document::Mapping(entries) => count_entries(entries),
            _ => {
                proof {
                    assert(item_shapes(*item, 1) =~= Seq::empty());
                }
                Some(0)
            },
        };
        let sum = match here {
            Some(n) => total.checked_add(n),
            None => None,
        };
        match sum {
            Some(n) => {
                total = n;
            },
            None => {
                return None;
            },
        }
        j = j + 1;
    }
    assert(items@.take(j as int) =~= items@);
    Some(total)
}

/// The number of nodes in the grammar that `doc` describes, the root
/// included, or nothing where that number exceeds `usize::MAX`.
pub fn node_count(doc: &Document) -> (count: Option<usize>)
    ensures
        count matches Some(n) ==> n == grammar_listing(*doc).len(),
        count is None ==> grammar_listing(*doc).len() > usize::MAX,
{
    match doc {
        Document::Mapping(entries) => match count_entries(entries) {
            Some(below) => below.checked_add(1),
            None => None,
        },
        _ => {
            proof {
                assert(weight(Seq::<Shape>::empty()) == 0);
            }
            Some(1)
        },
    }
}

/// Builds the grammar that `doc` describes. A document that is no mapping
/// gives the grammar that holds nothing but its root.
///
/// The grammar has one node for the root and one for each node that the
/// document gives rise to, which an arena must be able to hold.
pub fn to_tree(doc: &Document) -> (tree: Tree)
    requires
        grammar_listing(*doc).len() <= usize::MAX,
    ensures
        tree.is_grammar(),
        tree.shape() == grammar_shape(*doc),
        tree.listing() == grammar_listing(*doc),
{
    let mut tree = Tree::new();
    let ghost m0 = tree.nodes();
    let ghost root = tree.root;
    match doc {
        Document::Mapping(entries) => {
            tree.root = to_tree_rec(tree.root, &mut tree.arena, entries);
            proof {
                let kids = tree.nodes()[root].children;
                assert(kids.skip(0) =~= kids);
            }
        },
        _ => {
            proof {
                assert(m0[root].children =~= Seq::empty());
            }
        },
    }
    proof {
        lemma_listing_of_shape(tree);
    }
    tree
}

/// Two grammars built from the same document hold equal nodes at every
/// position of their pre-order listings.
pub proof fn lemma_import_repeatable(doc: Document, first: Tree, second: Tree)
    requires
        first.listing() == grammar_listing(doc),
        second.listing() == grammar_listing(doc),
    ensures
        first.listing().len() == second.listing().len(),
        forall|i: int|
            0 <= i < first.listing().len() ==> node_agrees(
                #[trigger] first.listing()[i],
                second.listing()[i],
            ),
{
}

} // verus!
