//! How the two ways to walk a tree relate: a node lies below another one
//! exactly when the other one is among its ancestors.

use vstd::prelude::*;
use indextree::NodeId;
use crate::arena::{ancestors_of, forest, links_wf, node_id_index, Slot};
use crate::tree::{
    depth_of, lemma_ancestors_in_dom, lemma_forest_frame, strict_descendants, Tree,
};

verus! {

/// Every node of an ancestor chain was stored no later than the node that
/// the chain starts from.
proof fn lemma_chain_indices(m: Map<NodeId, Slot>, len: nat, x: NodeId, a: NodeId)
    requires
        links_wf(m, len),
        m.dom().contains(x),
        ancestors_of(m, x).contains(a),
    ensures
        node_id_index(a) <= node_id_index(x),
        a != x ==> node_id_index(a) < node_id_index(x),
        a != x ==> m[x].parent is Some && ancestors_of(m, m[x].parent->0).contains(a),
    decreases node_id_index(x),
{
    let chain = ancestors_of(m, x);
    let i = choose|i: int| 0 <= i < chain.len() && chain[i] == a;
    if a != x {
        match m[x].parent {
            Some(q) => {
                assert(chain == seq![x] + ancestors_of(m, q));
                assert(ancestors_of(m, q)[i - 1] == a);
                lemma_chain_indices(m, len, q, a);
            },
            None => {
                assert(chain =~= seq![x]);
            },
        }
    }
}

/// A chain that holds a node holds the parent of that node too.
proof fn lemma_chain_closed(m: Map<NodeId, Slot>, len: nat, x: NodeId, a: NodeId)
    requires
        links_wf(m, len),
        m.dom().contains(x),
        ancestors_of(m, x).contains(a),
        m.dom().contains(a),
        m[a].parent is Some,
    ensures
        ancestors_of(m, x).contains(m[a].parent->0),
    decreases node_id_index(x),
{
    let chain = ancestors_of(m, x);
    let b = m[a].parent->0;
    if a == x {
        lemma_ancestors_in_dom(m, len, b);
        assert(chain == seq![x] + ancestors_of(m, b));
        assert(chain[1] == b);
    } else {
        lemma_chain_indices(m, len, x, a);
        let q = m[x].parent->0;
        lemma_chain_closed(m, len, q, a);
        let j = choose|j: int| 0 <= j < ancestors_of(m, q).len() && ancestors_of(m, q)[j] == b;
        assert(chain == seq![x] + ancestors_of(m, q));
        assert(chain[j + 1] == b);
    }
}

/// Of two nodes on one chain, one is on the chain of the other.
proof fn lemma_chain_linear(m: Map<NodeId, Slot>, len: nat, x: NodeId, a: NodeId, b: NodeId)
    requires
        links_wf(m, len),
        m.dom().contains(x),
        ancestors_of(m, x).contains(a),
        ancestors_of(m, x).contains(b),
    ensures
        ancestors_of(m, a).contains(b) || ancestors_of(m, b).contains(a),
    decreases node_id_index(x),
{
    if a == x || b == x {
    } else {
        lemma_chain_indices(m, len, x, a);
        lemma_chain_indices(m, len, x, b);
        lemma_chain_linear(m, len, m[x].parent->0, a, b);
    }
}

/// Every kid is among the nodes below its run of kids.
proof fn lemma_kid_in_forest(m: Map<NodeId, Slot>, len: nat, floor: nat, kids: Seq<NodeId>, i: int)
    requires
        0 <= i < kids.len(),
    ensures
        forest(m, len, floor, kids).contains(kids[i]),
    decreases kids.len(),
{
    let k = kids.last();
    let before = forest(m, len, floor, kids.drop_last());
    let below = if floor < node_id_index(k) <= len {
        forest(m, len, node_id_index(k), m[k].children)
    } else {
        Seq::empty()
    };
    let all = forest(m, len, floor, kids);
    assert(all == before + seq![k] + below);
    if i == kids.len() - 1 {
        assert(all[before.len() as int] == k);
    } else {
        lemma_kid_in_forest(m, len, floor, kids.drop_last(), i);
        let j = choose|j: int| 0 <= j < before.len() && before[j] == kids.drop_last()[i];
        assert(all[j] == kids[i]);
    }
}

/// What lies below a node of a forest lies in that forest.
proof fn lemma_forest_nested(
    m: Map<NodeId, Slot>,
    len: nat,
    floor: nat,
    kids: Seq<NodeId>,
    x: NodeId,
    y: NodeId,
)
    requires
        links_wf(m, len),
        forall|i: int|
            0 <= i < kids.len() ==> m.dom().contains(#[trigger] kids[i]) && floor < node_id_index(
                kids[i],
            ),
        forest(m, len, floor, kids).contains(x),
        forest(m, len, node_id_index(x), m[x].children).contains(y),
    ensures
        forest(m, len, floor, kids).contains(y),
    decreases len - floor, kids.len(),
{
    let k = kids.last();
    assert(kids[kids.len() - 1] == k);
    let before = forest(m, len, floor, kids.drop_last());
    let below = forest(m, len, node_id_index(k), m[k].children);
    let all = forest(m, len, floor, kids);
    assert(all == before + seq![k] + below);
    let i = choose|i: int| 0 <= i < all.len() && all[i] == x;
    if i < before.len() {
        assert(before[i] == x);
        lemma_forest_nested(m, len, floor, kids.drop_last(), x, y);
        let j = choose|j: int| 0 <= j < before.len() && before[j] == y;
        assert(all[j] == y);
    } else {
        if i == before.len() {
            assert(x == k);
        } else {
            assert(below[i - before.len() - 1] == x);
            assert forall|c: int| 0 <= c < m[k].children.len() implies m.dom().contains(
                #[trigger] m[k].children[c],
            ) && node_id_index(k) < node_id_index(m[k].children[c]) by {}
            lemma_forest_nested(m, len, node_id_index(k), m[k].children, x, y);
        }
        let j = choose|j: int| 0 <= j < below.len() && below[j] == y;
        assert(all[before.len() + 1 + j] == y);
    }
}

/// Every node below a run of kids has one of the kids on its chain.
proof fn lemma_forest_under_kid(
    m: Map<NodeId, Slot>,
    len: nat,
    floor: nat,
    kids: Seq<NodeId>,
    x: NodeId,
) -> (i: int)
    requires
        links_wf(m, len),
        forall|i: int|
            0 <= i < kids.len() ==> m.dom().contains(#[trigger] kids[i]) && floor < node_id_index(
                kids[i],
            ),
        forest(m, len, floor, kids).contains(x),
    ensures
        0 <= i < kids.len(),
        m.dom().contains(x),
        ancestors_of(m, x).contains(kids[i]),
    decreases len - floor, kids.len(),
{
    let k = kids.last();
    assert(kids[kids.len() - 1] == k);
    let before = forest(m, len, floor, kids.drop_last());
    let below = forest(m, len, node_id_index(k), m[k].children);
    let all = forest(m, len, floor, kids);
    assert(all == before + seq![k] + below);
    lemma_forest_frame(m, len, m, len, floor, kids);
    let at = choose|at: int| 0 <= at < all.len() && all[at] == x;
    if at < before.len() {
        assert(before[at] == x);
        lemma_forest_under_kid(m, len, floor, kids.drop_last(), x)
    } else if at == before.len() {
        lemma_ancestors_in_dom(m, len, k);
        kids.len() - 1
    } else {
        assert(below[at - before.len() - 1] == x);
        assert forall|c: int| 0 <= c < m[k].children.len() implies m.dom().contains(
            #[trigger] m[k].children[c],
        ) && node_id_index(k) < node_id_index(m[k].children[c]) by {}
        let c = lemma_forest_under_kid(m, len, node_id_index(k), m[k].children, x);
        lemma_chain_closed(m, len, x, m[k].children[c]);
        kids.len() - 1
    }
}

/// No node lies twice below a run of distinct children of one parent.
proof fn lemma_forest_distinct(
    m: Map<NodeId, Slot>,
    len: nat,
    parent: NodeId,
    kids: Seq<NodeId>,
)
    requires
        links_wf(m, len),
        m.dom().contains(parent),
        kids.no_duplicates(),
        forall|i: int|
            0 <= i < kids.len() ==> m.dom().contains(#[trigger] kids[i]) && m[kids[i]].parent
                == Some(parent),
    ensures
        forest(m, len, node_id_index(parent), kids).no_duplicates(),
    decreases len - node_id_index(parent), kids.len(),
{
    let floor = node_id_index(parent);
    if kids.len() > 0 {
        let k = kids.last();
        assert(kids[kids.len() - 1] == k);
        let before = forest(m, len, floor, kids.drop_last());
        let below = forest(m, len, node_id_index(k), m[k].children);
        let all = forest(m, len, floor, kids);
        assert forall|i: int| 0 <= i < kids.len() implies
            floor < node_id_index(#[trigger] kids[i]) by {}
        assert(all == before + seq![k] + below);
        lemma_forest_distinct(m, len, parent, kids.drop_last());
        assert forall|c: int| 0 <= c < m[k].children.len() implies m.dom().contains(
            #[trigger] m[k].children[c],
        ) && node_id_index(k) < node_id_index(m[k].children[c]) && m[m[k].children[c]].parent
            == Some(k) by {}
        lemma_forest_distinct(m, len, k, m[k].children);
        lemma_forest_frame(m, len, m, len, node_id_index(k), m[k].children);
        let tail = seq![k] + below;
        assert(tail.no_duplicates());
        assert forall|i: int, j: int| 0 <= i < before.len() && 0 <= j < tail.len() implies before[i]
            != tail[j] by {
            let x = before[i];
            if x == tail[j] {
                let s = lemma_forest_under_kid(m, len, floor, kids.drop_last(), x);
                let sibling = kids.drop_last()[s];
                assert(sibling == kids[s]);
                assert(sibling != k);
                if j == 0 {
                    lemma_ancestors_in_dom(m, len, k);
                } else {
                    assert(below[j - 1] == x);
                    let c = lemma_forest_under_kid(m, len, node_id_index(k), m[k].children, x);
                    lemma_chain_closed(m, len, x, m[k].children[c]);
                }
                lemma_chain_linear(m, len, x, sibling, k);
                if ancestors_of(m, sibling).contains(k) {
                    lemma_chain_indices(m, len, sibling, k);
                    lemma_chain_indices(m, len, parent, k);
                } else {
                    lemma_chain_indices(m, len, k, sibling);
                    lemma_chain_indices(m, len, parent, sibling);
                }
            }
        }
        assert(all =~= before + tail);
        vstd::seq_lib::lemma_no_dup_in_concat(before, tail);
    }
}

/// The nodes strictly below `id` are exactly the nodes other than `id` that
/// have `id` among their ancestors, each listed once.
pub proof fn lemma_strict_descendants(m: Map<NodeId, Slot>, len: nat, id: NodeId)
    requires
        links_wf(m, len),
        m.dom().contains(id),
    ensures
        strict_descendants(m, len, id).no_duplicates(),
        forall|d: NodeId|
            #[trigger] strict_descendants(m, len, id).contains(d) <==> m.dom().contains(d)
                && d != id
                && ancestors_of(m, d).contains(id),
{
    let below = strict_descendants(m, len, id);
    let kids = m[id].children;
    assert forall|c: int| 0 <= c < kids.len() implies m.dom().contains(#[trigger] kids[c])
        && node_id_index(id) < node_id_index(kids[c]) && m[kids[c]].parent == Some(id) by {}
    lemma_forest_distinct(m, len, id, kids);
    lemma_forest_frame(m, len, m, len, node_id_index(id), kids);
    assert forall|d: NodeId| #[trigger] below.contains(d) implies m.dom().contains(d) && d != id
        && ancestors_of(m, d).contains(id) by {
        let c = lemma_forest_under_kid(m, len, node_id_index(id), kids, d);
        lemma_chain_closed(m, len, d, kids[c]);
    }
    assert forall|d: NodeId|
        m.dom().contains(d) && d != id && ancestors_of(m, d).contains(id) implies
            #[trigger] below.contains(
        d,
    ) by {
        lemma_below_ancestor(m, len, id, d);
    }
}

/// A node other than `id` that has `id` among its ancestors lies strictly
/// below `id`.
proof fn lemma_below_ancestor(m: Map<NodeId, Slot>, len: nat, id: NodeId, d: NodeId)
    requires
        links_wf(m, len),
        m.dom().contains(id),
        m.dom().contains(d),
        d != id,
        ancestors_of(m, d).contains(id),
    ensures
        strict_descendants(m, len, id).contains(d),
    decreases node_id_index(d),
{
    let kids = m[id].children;
    lemma_chain_indices(m, len, d, id);
    let q = m[d].parent->0;
    let at = choose|at: int| 0 <= at < m[q].children.len() && m[q].children[at] == d;
    if q == id {
        lemma_kid_in_forest(m, len, node_id_index(id), kids, at);
    } else {
        lemma_below_ancestor(m, len, id, q);
        lemma_kid_in_forest(m, len, node_id_index(q), m[q].children, at);
        assert forall|c: int| 0 <= c < kids.len() implies m.dom().contains(#[trigger] kids[c])
            && node_id_index(id) < node_id_index(kids[c]) by {}
        lemma_forest_nested(m, len, node_id_index(id), kids, q, d);
    }
}

/// In a grammar the depth of a node is its distance from the root: the
/// chain of its ancestors ends at the root and has one node more than the
/// node's depth says.
pub proof fn lemma_depth_is_distance(grammar: Tree, id: NodeId)
    requires
        grammar.is_grammar(),
        grammar.nodes().dom().contains(id),
    ensures
        ancestors_of(grammar.nodes(), id).len() == depth_of(grammar.nodes(), id) + 1,
        ancestors_of(grammar.nodes(), id).last() == grammar.root,
    decreases node_id_index(id),
{
    let m = grammar.nodes();
    match m[id].parent {
        Some(p) => {
            lemma_depth_is_distance(grammar, p);
            assert(ancestors_of(m, id) == seq![id] + ancestors_of(m, p));
        },
        None => {
            assert(ancestors_of(m, id) =~= seq![id]);
        },
    }
}

} // verus!
