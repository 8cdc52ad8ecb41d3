//! Matching a line of tokens against a grammar.
//!
//! The walk starts at a node of the grammar and takes the tokens in order.
//! A token that asks to go up first moves the walk to the parent of the node
//! it stands on, if there is one. Then the children of that node are
//! searched, first to last, for one the token matches; the walk moves
//! there, or ends for good where none matches. Every node that the walk
//! moves to is recorded.

use vstd::prelude::*;
use indextree::NodeId;
use crate::arena::{
    ancestors_of, arena_len, arena_nodes, arena_wf, forest, links_wf, node_id_index, Slot,
};
use crate::node::{Depth, Node, NodeView};
use crate::token::{is_go_up, token_matches, views, CliCmd, Token};
use crate::tree::{
    ancestors, append_child, children, data_of, grow, root_view, strict_descendants, NodeArena,
    Tree,
};

verus! {

/// What a walk leaves behind: the nodes it moved to, in order, and the node
/// it ended on.
pub struct Walk {
    pub matched: Seq<NodeId>,
    pub end: NodeId,
}

/// The first of `kids` that the token matches.
pub open spec fn first_match(m: Map<NodeId, Slot>, kids: Seq<NodeId>, t: Token) -> Option<NodeId>
    decreases kids.len(),
{
    if kids.len() == 0 {
        None
    } else if token_matches(t, m[kids[0]].data) {
        Some(kids[0])
    } else {
        first_match(m, kids.drop_first(), t)
    }
}

/// Where the walk stands when it searches for the token `t`, having stood
/// on `at` before: on the parent of `at` if `t` asks to go up and `at` has
/// a parent, else on `at`.
pub open spec fn lifted(m: Map<NodeId, Slot>, at: NodeId, t: Token) -> NodeId {
    if is_go_up(t) && m[at].parent is Some {
        m[at].parent->0
    } else {
        at
    }
}

/// The walk over `tokens` from the node `at`.
pub open spec fn walk(m: Map<NodeId, Slot>, at: NodeId, tokens: Seq<Token>) -> Walk
    decreases tokens.len(),
{
    if tokens.len() == 0 {
        Walk { matched: Seq::empty(), end: at }
    } else {
        let t = tokens[0];
        let from = lifted(m, at, t);
        let up = if from != at {
            seq![from]
        } else {
            Seq::empty()
        };
        match first_match(m, m[from].children, t) {
            Some(c) => {
                let rest = walk(m, c, tokens.drop_first());
                Walk { matched: up + seq![c] + rest.matched, end: rest.end }
            },
            None => Walk { matched: up, end: from },
        }
    }
}

/// Whether `tree` is the record of a walk that moved to nodes with the data
/// `items`: a root at depth 0 whose children are leaves that hold the
/// items in order, and nothing else.
pub open spec fn is_record(tree: Tree, items: Seq<NodeView>) -> bool {
    let m = tree.nodes();
    &&& tree.wf()
    &&& arena_len(tree.arena) == items.len() + 1
    &&& m[tree.root].data == root_view(Depth::Exact(0))
    &&& m[tree.root].parent is None
    &&& data_of(m, m[tree.root].children) == items
    &&& forall|i: int|
        0 <= i < m[tree.root].children.len() ==>
            (#[trigger] m[m[tree.root].children[i]]).children.len()
            == 0
}

/// The first match is a kid that the token matches and that no matching kid
/// comes before; there is none exactly when the token matches no kid.
pub proof fn lemma_first_match(m: Map<NodeId, Slot>, kids: Seq<NodeId>, t: Token)
    ensures
        match first_match(m, kids, t) {
            Some(c) => exists|i: int|
                0 <= i < kids.len() && kids[i] == c && token_matches(t, m[c].data) && forall|j: int|
                    0 <= j < i ==> !token_matches(t, m[#[trigger] kids[j]].data),
            None => forall|j: int| 0 <= j < kids.len() ==>
                !token_matches(t, m[#[trigger] kids[j]].data),
        },
    decreases kids.len(),
{
    if kids.len() > 0 && !token_matches(t, m[kids[0]].data) {
        let rest = kids.drop_first();
        lemma_first_match(m, rest, t);
        match first_match(m, rest, t) {
            Some(c) => {
                let i = choose|i: int|
                    0 <= i < rest.len() && rest[i]
                        == c && token_matches(t, m[c].data) && forall|j: int|
                        0 <= j < i ==> !token_matches(t, m[#[trigger] rest[j]].data);
                assert forall|j: int| 0 <= j < i + 1 implies !token_matches(
                    t,
                    m[#[trigger] kids[j]].data,
                ) by {
                    if j > 0 {
                        assert(kids[j] == rest[j - 1]);
                    }
                }
                assert(kids[i + 1] == c);
            },
            None => {
                assert forall|j: int| 0 <= j < kids.len() implies !token_matches(
                    t,
                    m[#[trigger] kids[j]].data,
                ) by {
                    if j > 0 {
                        assert(kids[j] == rest[j - 1]);
                    }
                }
            },
        }
    } else if kids.len() > 0 {
        assert(first_match(m, kids, t) == Some(kids[0]));
    }
}

/// A walk over a well-formed arena stays inside it, and moves at most twice
/// for each token: once up and once down.
pub proof fn lemma_walk_bounds(m: Map<NodeId, Slot>, len: nat, at: NodeId, tokens: Seq<Token>)
    requires
        links_wf(m, len),
        m.dom().contains(at),
    ensures
        m.dom().contains(walk(m, at, tokens).end),
        walk(m, at, tokens).matched.len() <= 2 * tokens.len(),
        forall|i: int|
            0 <= i < walk(m, at, tokens).matched.len() ==> m.dom().contains(
                #[trigger] walk(m, at, tokens).matched[i],
            ),
    decreases tokens.len(),
{
    if tokens.len() > 0 {
        let t = tokens[0];
        let from = lifted(m, at, t);
        lemma_first_match(m, m[from].children, t);
        if let Some(c) = first_match(m, m[from].children, t) {
            lemma_walk_bounds(m, len, c, tokens.drop_first());
        }
    }
}

/// The nodes below leaves are the leaves themselves.
pub proof fn lemma_forest_of_leaves(m: Map<NodeId, Slot>, len: nat, floor: nat, kids: Seq<NodeId>)
    requires
        forall|i: int| 0 <= i < kids.len() ==> (#[trigger] m[kids[i]]).children.len() == 0,
    ensures
        forest(m, len, floor, kids) == kids,
    decreases kids.len(),
{
    if kids.len() > 0 {
        let k = kids.last();
        assert(m[kids[kids.len() - 1]].children.len() == 0);
        lemma_forest_of_leaves(m, len, floor, kids.drop_last());
        assert(forest(m, len, node_id_index(k), m[k].children) =~= Seq::empty());
        assert(kids.drop_last() + seq![k] =~= kids);
    }
}

/// A record lists its root and then the recorded items, and the root has as
/// many nodes below it as there are items.
pub proof fn lemma_record_listing(tree: Tree, items: Seq<NodeView>)
    requires
        is_record(tree, items),
    ensures
        tree.listing() == seq![root_view(Depth::Exact(0))] + items,
        strict_descendants(tree.nodes(), arena_len(tree.arena), tree.root).len() == items.len(),
{
    let m = tree.nodes();
    let kids = m[tree.root].children;
    lemma_forest_of_leaves(m, arena_len(tree.arena), node_id_index(tree.root), kids);
    assert(tree.listing() =~= seq![root_view(Depth::Exact(0))] + items);
}

/// The parent of `id`, if it has one.
pub fn parent(id: NodeId, arena: &NodeArena) -> (up: Option<NodeId>)
    requires
        arena_wf(*arena),
        arena_nodes(*arena).dom().contains(id),
    ensures
        up == arena_nodes(*arena)[id].parent,
{
    let chain = ancestors(id, arena);
    proof {
        let m = arena_nodes(*arena);
        if let Some(p) = m[id].parent {
            assert(ancestors_of(m, p)[0] == p);
        }
    }
    if chain.len() > 1 {
        Some(chain[1])
    } else {
        None
    }
}

/// The first child among `kids` that the token matches.
pub fn find_child(kids: &Vec<NodeId>, arena: &NodeArena, t: &CliCmd) -> (found: Option<NodeId>)
    requires
        forall|i: int| 0 <= i < kids@.len() ==>
            arena_nodes(*arena).dom().contains(#[trigger] kids@[i]),
    ensures
        found == first_match(arena_nodes(*arena), kids@, t@),
        found matches Some(c) ==> kids@.contains(c),
{
    let mut j: usize = 0;
    assert(kids@.skip(0) =~= kids@);
    while j < kids.len()
        invariant
            0 <= j <= kids.len(),
            forall|i: int|
                0 <= i < kids@.len() ==> arena_nodes(*arena).dom().contains(#[trigger] kids@[i]),
            first_match(arena_nodes(*arena), kids@, t@) == first_match(
                arena_nodes(*arena),
                kids@.skip(j as int),
                t@,
            ),
        decreases kids.len() - j,
    {
        let node = Node::from_id(&kids[j], arena);
        proof {
            assert(kids@.skip(j as int)[0] == kids@[j as int]);
            assert(kids@.skip(j as int).drop_first() =~= kids@.skip(j + 1));
        }
        if t.matches_node(&node) {
            return Some(kids[j]);
        }
        j = j + 1;
    }
    assert(kids@.skip(j as int).len() == 0);
    None
}

/// Growing a record by one leaf under its root gives the record of one
/// item more.
proof fn lemma_record_grow(before: Tree, after: Tree, items: Seq<NodeView>, id: NodeId, data: NodeView)
    requires
        is_record(before, items),
        after.root == before.root,
        arena_wf(after.arena),
        !before.nodes().dom().contains(id),
        after.nodes() == grow(before.nodes(), before.root, id, data),
        arena_len(after.arena) == arena_len(before.arena) + 1,
    ensures
        is_record(after, items.push(data)),
{
    let m = before.nodes();
    let g = after.nodes();
    let kids = m[before.root].children;
    assert(g[after.root].children == kids.push(id));
    assert forall|i: int| 0 <= i < kids.len() implies kids[i] != id && g[kids[i]] == m[kids[i]] by {
        assert(m.dom().contains(kids[i]));
        assert(node_id_index(before.root) < node_id_index(kids[i]));
    }
    assert(data_of(g, kids.push(id)) =~= items.push(data)) by {
        assert forall|i: int| 0 <= i < kids.len() implies
            data_of(g, kids.push(id))[i] == items[i] by {
            assert(data_of(m, kids)[i] == m[kids[i]].data);
        }
    }
}

/// Walks `tokens` through `grammar` from the node `start`. Returns the
/// record of the walk and the node it ended on.
///
/// The record holds a copy of every node that the walk moved to, in order,
/// so `tokens` may number at most half of what an arena can hold.
pub fn match_sequence(grammar: &Tree, start: NodeId, tokens: &Vec<CliCmd>) -> (result: (Tree, NodeId))
    requires
        grammar.wf(),
        grammar.nodes().dom().contains(start),
        2 * tokens.len() < usize::MAX,
    ensures
        result.1 == walk(grammar.nodes(), start, views(tokens@)).end,
        grammar.nodes().dom().contains(result.1),
        is_record(
            result.0,
            data_of(grammar.nodes(), walk(grammar.nodes(), start, views(tokens@)).matched),
        ),
{
    let ghost m = grammar.nodes();
    let ghost line = views(tokens@);
    let mut record = Tree::new();
    let mut at = start;
    let mut stopped = false;
    let mut i: usize = 0;
    let ghost mut done: Seq<NodeId> = Seq::empty();
    proof {
        assert(line.skip(0) =~= line);
        assert(data_of(m, done) =~= Seq::empty());
        assert(data_of(record.nodes(), record.nodes()[record.root].children) =~= Seq::empty());
    }
    while i < tokens.len() && !stopped
        invariant
            0 <= i <= tokens.len(),
            2 * tokens.len() < usize::MAX,
            m == grammar.nodes(),
            grammar.wf(),
            m.dom().contains(at),
            !stopped ==> done.len() <= 2 * i,
            is_record(record, data_of(m, done)),
            line == views(tokens@),
            !stopped ==>
                walk(m, start, line).matched == done + walk(m, at, line.skip(i as int)).matched,
            !stopped ==> walk(m, start, line).end == walk(m, at, line.skip(i as int)).end,
            stopped ==> walk(m, start, line) == (Walk { matched: done, end: at }),
        decreases tokens.len() - i, if stopped { 0int } else { 1int },
    {
        let t = &tokens[i];
        let ghost rest = line.skip(i as int);
        let ghost before = at;
        let ghost done_before = done;
        proof {
            assert(rest[0] == t@);
            assert(rest.drop_first() =~= line.skip(i + 1));
        }
        if t.is_go_up() {
            match parent(at, &grammar.arena) {
                Some(p) => {
                    let copy = Node::from_id(&p, &grammar.arena);
                    let ghost old_record = record;
                    let id = append_child(&mut record.arena, record.root, copy);
                    proof {
                        lemma_record_grow(old_record, record, data_of(m, done), id, m[p].data);
                        assert(data_of(m, done).push(m[p].data) =~= data_of(m, done.push(p)));
                        done = done.push(p);
                    }
                    at = p;
                },
                None => {},
            }
        }
        assert(at == lifted(m, before, t@));
        let kids = children(at, &grammar.arena);
        match find_child(&kids, &grammar.arena, t) {
            Some(c) => {
                let copy = Node::from_id(&c, &grammar.arena);
                let ghost old_record = record;
                let id = append_child(&mut record.arena, record.root, copy);
                proof {
                    lemma_record_grow(old_record, record, data_of(m, done), id, m[c].data);
                    assert(data_of(m, done).push(m[c].data) =~= data_of(m, done.push(c)));
                    let ghost up = done;
                    done = done.push(c);
                    let w = walk(m, c, line.skip(i + 1));
                    assert(walk(m, before, rest).matched =~= (if at != before {
                        seq![at]
                    } else {
                        Seq::empty()
                    }) + seq![c] + w.matched);
                    assert(done_before + walk(m, before, rest).matched =~= done + w.matched);
                }
                at = c;
                i = i + 1;
            },
            None => {
                proof {
                    assert(done_before + walk(m, before, rest).matched =~= done);
                }
                stopped = true;
            },
        }
    }
    proof {
        if !stopped {
            assert(line.skip(i as int).len() == 0);
            assert(done + Seq::<NodeId>::empty() =~= done);
        }
        assert(walk(m, start, line).matched == done);
    }
    (record, at)
}

} // verus!
