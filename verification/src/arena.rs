//! The arena that owns the nodes of a tree, and what is assumed of it.
//!
//! The arena and its handles come from the `indextree` crate. Verus cannot
//! look inside either, so this module names what an arena holds and states,
//! for each arena operation the library calls, how it changes that content.
//! Everything else in the library is proved from these statements.

use vstd::prelude::*;
use indextree::{Arena, NodeId};
use crate::node::{Node, NodeView};

verus! {

#[verifier::external_type_specification]
#[verifier::external_body]
#[verifier::reject_recursive_types(T)]
pub struct ExArena<T>(Arena<T>);

#[verifier::external_type_specification]
#[verifier::external_body]
pub struct ExNodeId(NodeId);

/// What an arena records for one live node: the node's data, the handle of
/// its parent, and the handles of its children from first to last.
pub struct Slot {
    pub data: NodeView,
    pub parent: Option<NodeId>,
    pub children: Seq<NodeId>,
}

/// The live nodes of an arena, keyed by their handles. A handle belongs to
/// the domain exactly when `Arena::get_data` finds a node for it.
pub uninterp spec fn arena_nodes(arena: Arena<Node>) -> Map<NodeId, Slot>;

/// The number of storage slots of an arena, removed ones included: what
/// `Arena::len` reports.
pub uninterp spec fn arena_len(arena: Arena<Node>) -> nat;

/// The one-based storage position of a handle: what `usize::from` reports
/// for it.
pub uninterp spec fn node_id_index(id: NodeId) -> nat;

/// A slot as `Arena::new_node` creates it: detached and childless.
pub open spec fn fresh_slot(data: NodeView) -> Slot {
    Slot { data, parent: None, children: Seq::empty() }
}

/// The content of an arena after `child`, so far detached, has become the
/// last child of `parent`.
pub open spec fn attach(m: Map<NodeId, Slot>, parent: NodeId, child: NodeId) -> Map<NodeId, Slot> {
    m.insert(child, Slot { parent: Some(parent), ..m[child] }).insert(
        parent,
        Slot { children: m[parent].children.push(child), ..m[parent] },
    )
}

/// Every storage slot holds a live node: nothing was ever removed, or every
/// removed slot has been taken again.
pub open spec fn dense(m: Map<NodeId, Slot>, len: nat) -> bool {
    &&& m.dom().finite()
    &&& m.dom().len() == len
}

/// The links between the nodes form a forest in which every child was
/// stored after its parent.
pub open spec fn links_wf(m: Map<NodeId, Slot>, len: nat) -> bool {
    &&& dense(m, len)
    &&& forall|id: NodeId| #[trigger] m.dom().contains(id) ==> 1 <= node_id_index(id) <= len
    &&& forall|id: NodeId|
        #[trigger] m.dom().contains(id) ==> (m[id].parent matches Some(p) ==> {
            &&& m.dom().contains(p)
            &&& node_id_index(p) < node_id_index(id)
            &&& m[p].children.contains(id)
        })
    &&& forall|id: NodeId, i: int|
        m.dom().contains(id) && 0 <= i < m[id].children.len() ==> {
            let c = #[trigger] m[id].children[i];
            &&& m.dom().contains(c)
            &&& node_id_index(id) < node_id_index(c)
            &&& m[c].parent == Some(id)
        }
    &&& forall|id: NodeId| #[trigger] m.dom().contains(id) ==> m[id].children.no_duplicates()
}

/// An arena whose content satisfies [`links_wf`].
pub open spec fn arena_wf(arena: Arena<Node>) -> bool {
    links_wf(arena_nodes(arena), arena_len(arena))
}

/// The chain from `id` up to the root of its tree, `id` first.
pub open spec fn ancestors_of(m: Map<NodeId, Slot>, id: NodeId) -> Seq<NodeId>
    decreases node_id_index(id),
{
    match m[id].parent {
        Some(p) => if node_id_index(p) < node_id_index(id) {
            seq![id] + ancestors_of(m, p)
        } else {
            seq![id]
        },
        None => seq![id],
    }
}

/// The nodes below `kids`, each kid followed at once by everything below
/// it, kids taken from first to last. `floor` is the position of the kids'
/// parent and `len` the number of slots; in a well-formed arena every kid
/// lies strictly between `floor` and `len + 1`.
pub open spec fn forest(m: Map<NodeId, Slot>, len: nat, floor: nat, kids: Seq<NodeId>) -> Seq<
    NodeId,
>
    decreases len - floor, kids.len(),
{
    if kids.len() == 0 {
        Seq::empty()
    } else {
        let k = kids.last();
        let below = if floor < node_id_index(k) <= len {
            forest(m, len, node_id_index(k), m[k].children)
        } else {
            Seq::empty()
        };
        forest(m, len, floor, kids.drop_last()) + seq![k] + below
    }
}

/// `id` and its descendants in pre-order, children in insertion order.
pub open spec fn preorder(m: Map<NodeId, Slot>, len: nat, id: NodeId) -> Seq<NodeId> {
    seq![id] + forest(m, len, node_id_index(id), m[id].children)
}

/// `Arena::new`: an arena without slots.
#[verifier::external_body]
pub(crate) fn arena_new() -> (made: Arena<Node>)
    ensures
        arena_nodes(made) == (Map::<NodeId, Slot>::empty()),
        arena_len(made) == 0,
{
    Arena::new()
}

/// `Arena::new_node`: where no slot is free for reuse, the node goes into a
/// new slot at the end of the storage, under a handle that was not live
/// before, detached and without children. The call panics on an arena with
/// `usize::MAX` slots, which the precondition leaves out.
#[verifier::external_body]
pub(crate) fn arena_new_node(arena: &mut Arena<Node>, node: Node) -> (id: NodeId)
    requires
        dense(arena_nodes(*old(arena)), arena_len(*old(arena))),
        arena_len(*old(arena)) < usize::MAX,
    ensures
        !arena_nodes(*old(arena)).dom().contains(id),
        arena_nodes(*final(arena)) == arena_nodes(*old(arena)).insert(id, fresh_slot(node@)),
        arena_len(*final(arena)) == arena_len(*old(arena)) + 1,
        node_id_index(id) == arena_len(*old(arena)) + 1,
{
    arena.new_node(node)
}

/// `Arena::get_data`: the data stored under a live handle, and nothing for
/// any other handle.
#[verifier::external_body]
pub(crate) fn arena_get(arena: &Arena<Node>, id: NodeId) -> (found: Option<&Node>)
    ensures
        found is Some <==> arena_nodes(*arena).dom().contains(id),
        found matches Some(node) ==> node@ == arena_nodes(*arena)[id].data,
{
    arena.get_data(id)
}

/// `NodeId::append` for a child that is live, detached and childless: it
/// becomes the last child of `parent`, and nothing else changes. The call
/// panics where the child is the parent or one of its ancestors, or where
/// either handle is not live; the precondition leaves those out.
#[verifier::external_body]
pub(crate) fn node_append(parent: NodeId, child: NodeId, arena: &mut Arena<Node>)
    requires
        arena_nodes(*old(arena)).dom().contains(parent),
        arena_nodes(*old(arena)).dom().contains(child),
        parent != child,
        arena_nodes(*old(arena))[child].parent is None,
        arena_nodes(*old(arena))[child].children.len() == 0,
    ensures
        arena_nodes(*final(arena)) == attach(arena_nodes(*old(arena)), parent, child),
        arena_len(*final(arena)) == arena_len(*old(arena)),
{
    parent.append(child, arena)
}

/// `NodeId::children`: the children of a live node, first to last.
#[verifier::external_body]
pub(crate) fn node_children(id: NodeId, arena: &Arena<Node>) -> (kids: Vec<NodeId>)
    requires
        arena_nodes(*arena).dom().contains(id),
    ensures
        kids@ == arena_nodes(*arena)[id].children,
{
    id.children(arena).collect()
}

/// `NodeId::ancestors`: the node itself, then its parent, and so on up to
/// the root of its tree.
#[verifier::external_body]
pub(crate) fn node_ancestors(id: NodeId, arena: &Arena<Node>) -> (chain: Vec<NodeId>)
    requires
        arena_wf(*arena),
        arena_nodes(*arena).dom().contains(id),
    ensures
        chain@ == ancestors_of(arena_nodes(*arena), id),
{
    id.ancestors(arena).collect()
}

/// `NodeId::descendants`: the node itself and everything below it, as a
/// pre-order depth-first walk that visits children in insertion order.
#[verifier::external_body]
pub(crate) fn node_descendants(id: NodeId, arena: &Arena<Node>) -> (nodes: Vec<NodeId>)
    requires
        arena_wf(*arena),
        arena_nodes(*arena).dom().contains(id),
    ensures
        nodes@ == preorder(arena_nodes(*arena), arena_len(*arena), id),
{
    id.descendants(arena).collect()
}

/// `NodeId::eq`: two handles compare equal exactly when they are the same
/// handle.
#[verifier::external_body]
pub(crate) fn node_id_eq(a: NodeId, b: NodeId) -> (same: bool)
    ensures
        same == (a == b),
{
    a == b
}

} // verus!
