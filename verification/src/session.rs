//! An interactive session over a grammar.
//!
//! The session stands on a node of the grammar, its current root, and
//! remembers the one it stood on before. Each line it is given either ends
//! it, moves the current root, or is checked as a command against the
//! grammar from the current root on.

use vstd::prelude::*;
use vstd::string::StringExecFns;
use indextree::NodeId;
use crate::arena::{ancestors_of, arena_len, arena_nodes, node_id_eq, Slot};
use crate::matcher::{is_record, lemma_record_listing, match_sequence, parent, walk, Walk};
use crate::navigation::{
    begins_navigation, is_navigation, lemma_navigation_len, navigation_of, parse_navigation,
    Navigation, NavigationView,
};
use crate::node::{Node, NodeView};
use crate::token::{construct_clicmds, lemma_split_len, tokens_of, views, CliCmd, Token};
use crate::tree::{
    ancestors, children, data_of, descendants, strict_descendants, subtree_count, NodeArena, Tree,
};

verus! {

/// Why a session could not be set up.
#[derive(Debug)]
pub enum CliError {
    InvalidConfig(&'static str),
}

/// What a session is set up with: the literal that ends every prompt, and
/// the grammar.
pub struct CliConfig {
    prompt: String,
    valid_cmds: Tree,
}

/// A session.
pub struct Cli {
    config: CliConfig,
    current_prompt: String,
    current_root: NodeId,
    prev_root: Option<NodeId>,
}

/// What is told about a line that is no complete command: the nodes that
/// its tokens led through, and the nodes that a next token could lead to.
#[derive(Debug)]
pub struct Usage {
    pub matched: Vec<Node>,
    pub options: Vec<Node>,
}

/// The outcome of checking a line against the grammar.
#[derive(Debug)]
pub enum Verdict {
    /// Every token was matched and the last one led to a leaf.
    Accepted,
    /// Anything else.
    Usage(Usage),
}

/// What the session did with a line.
#[derive(Debug)]
pub enum Reply {
    /// The line ends the session.
    Exit,
    /// The line was blank.
    Again,
    /// The line was a `cd` command.
    Moved,
    /// The line was checked as a command.
    Checked(Verdict),
}

/// The content of each of `nodes`, in the same order.
pub open spec fn node_views(nodes: Seq<Node>) -> Seq<NodeView> {
    nodes.map_values(|n: Node| n@)
}

/// The names of the nodes of `chain`, last node first, each followed by a
/// separator.
pub open spec fn path_names(m: Map<NodeId, Slot>, chain: Seq<NodeId>) -> Seq<char>
    decreases chain.len(),
{
    if chain.len() == 0 {
        Seq::empty()
    } else {
        path_names(m, chain.drop_first()) + m[chain[0]].data.name + seq!['/']
    }
}

/// The path that leads to `id`: the names of its ancestors and its own,
/// topmost first, each followed by a separator. The topmost ancestor, the
/// root of the tree, is left out, so the path of the root is empty.
pub open spec fn path_of(m: Map<NodeId, Slot>, id: NodeId) -> Seq<char> {
    path_names(m, ancestors_of(m, id).drop_last())
}

/// Where a navigation leads, in a grammar with the nodes `m` and the root
/// `root`, for a session that stands on `current` and stood on `previous`
/// before.
pub open spec fn target(
    m: Map<NodeId, Slot>,
    root: NodeId,
    current: NodeId,
    previous: Option<NodeId>,
    nav: NavigationView,
) -> NodeId {
    match nav {
        NavigationView::Stay => current,
        NavigationView::Back => match previous {
            Some(p) => p,
            None => current,
        },
        NavigationView::Up => match m[current].parent {
            Some(p) => p,
            None => current,
        },
        NavigationView::Goto(path) => walk(m, root, path).end,
    }
}

/// The root that a session remembers as its previous one after it went
/// from `current` to `next`: `current` where that was a move, else what it
/// remembered before.
pub open spec fn remembered(current: NodeId, previous: Option<NodeId>, next: NodeId) -> Option<
    NodeId,
> {
    if next != current {
        Some(current)
    } else {
        previous
    }
}

/// Whether a line ends the session: nothing was read, or it says `exit` or
/// `quit`.
pub open spec fn is_exit(input: Seq<char>, nbytes: usize) -> bool {
    nbytes == 0 || input == "exit\n"@ || input == "quit\n"@
}

/// Whether a line is blank.
pub open spec fn is_blank(input: Seq<char>) -> bool {
    input == "\n"@
}

/// Whether a line is short enough for the record of its walk to fit into an
/// arena.
pub open spec fn line_fits(input: Seq<char>) -> bool {
    input.len() + 1 < usize::MAX / 2
}

/// Whether a walk makes its line a complete command: every one of the `n`
/// tokens was matched, and the walk ended on a leaf.
pub open spec fn accepted(m: Map<NodeId, Slot>, len: nat, w: Walk, n: nat) -> bool {
    w.matched.len() == n && strict_descendants(m, len, w.end).len() == 0
}

/// Tests two strings for equal content.
fn same_text(a: &str, b: &str) -> (same: bool)
    ensures
        same == (a@ == b@),
{
    a.to_owned() == b.to_owned()
}

/// Copies of the nodes stored under `ids[from..]`.
fn copies(ids: &Vec<NodeId>, from: usize, arena: &NodeArena) -> (nodes: Vec<Node>)
    requires
        from <= ids@.len(),
        forall|i: int| 0 <= i < ids@.len() ==>
            arena_nodes(*arena).dom().contains(#[trigger] ids@[i]),
    ensures
        node_views(nodes@) == data_of(arena_nodes(*arena), ids@.skip(from as int)),
{
    let mut nodes: Vec<Node> = Vec::new();
    let mut i: usize = from;
    while i < ids.len()
        invariant
            from <= i <= ids.len(),
            forall|k: int| 0 <= k < ids@.len() ==>
                arena_nodes(*arena).dom().contains(#[trigger] ids@[k]),
            nodes@.len() == i - from,
            forall|k: int| 0 <= k < nodes@.len() ==>
                (#[trigger] nodes@[k])@ == arena_nodes(*arena)[ids@[from + k]].data,
        decreases ids.len() - i,
    {
        nodes.push(Node::from_id(&ids[i], arena));
        i = i + 1;
    }
    assert(node_views(nodes@) =~= data_of(arena_nodes(*arena), ids@.skip(from as int)));
    nodes
}

impl CliConfig {
    /// The literal that ends every prompt.
    pub closed spec fn prompt_text(&self) -> Seq<char> {
        self.prompt@
    }

    /// The grammar.
    pub closed spec fn grammar(&self) -> Tree {
        self.valid_cmds
    }

    /// A configuration with the given prompt literal and grammar. An empty
    /// prompt is refused.
    pub fn new(prompt: &str, valid_cmds: Tree) -> (res: Result<CliConfig, CliError>)
        ensures
            res is Err <==> prompt@.len() == 0,
            res matches Err(CliError::InvalidConfig(why)) ==> why@ == "Empty prompt not allowed"@,
            res matches Ok(config) ==> config.prompt_text() == prompt@ && config.grammar()
                == valid_cmds,
    {
        if prompt.is_empty() {
            Err(CliError::InvalidConfig("Empty prompt not allowed"))
        } else {
            Ok(CliConfig { prompt: prompt.to_owned(), valid_cmds })
        }
    }
}

impl Cli {
    /// What the session was set up with.
    pub closed spec fn config(&self) -> CliConfig {
        self.config
    }

    /// The grammar of the session.
    pub open spec fn grammar(&self) -> Tree {
        self.config().grammar()
    }

    /// The nodes of the grammar.
    pub open spec fn nodes(&self) -> Map<NodeId, Slot> {
        self.grammar().nodes()
    }

    /// The node that the session stands on.
    pub closed spec fn current(&self) -> NodeId {
        self.current_root
    }

    /// The node that the session stood on before its last move.
    pub closed spec fn previous(&self) -> Option<NodeId> {
        self.prev_root
    }

    /// The path that the prompt shows.
    pub closed spec fn prompt_path(&self) -> Seq<char> {
        self.current_prompt@
    }

    /// The grammar is one, the session stands on one of its nodes and
    /// remembers one of its nodes if any, and the prompt shows the path to
    /// the node it stands on.
    pub open spec fn wf(&self) -> bool {
        &&& self.grammar().is_grammar()
        &&& self.nodes().dom().contains(self.current())
        &&& self.previous() matches Some(p) ==> self.nodes().dom().contains(p)
        &&& self.prompt_path() == path_of(self.nodes(), self.current())
    }

    /// Where a navigation leads from the session's present state.
    pub open spec fn target_of(&self, nav: NavigationView) -> NodeId {
        target(self.nodes(), self.grammar().root, self.current(), self.previous(), nav)
    }

    /// The walk over `tokens` from the node that the session stands on.
    pub open spec fn walk_of(&self, tokens: Seq<Token>) -> Walk {
        walk(self.nodes(), self.current(), tokens)
    }

    /// Starts a session at the root of the grammar.
    pub fn open(config: CliConfig) -> (cli: Cli)
        requires
            config.grammar().is_grammar(),
        ensures
            cli.wf(),
            cli.config() == config,
            cli.current() == config.grammar().root,
            cli.previous() is None,
            cli.prompt_path() == Seq::<char>::empty(),
    {
        let root = config.valid_cmds.root;
        let cli = Cli { config, current_prompt: String::new(), current_root: root, prev_root: None };
        proof {
            lemma_root_path(cli.grammar());
        }
        cli
    }

    /// The grammar of the session.
    pub fn valid_cmds(&self) -> (tree: &Tree)
        ensures
            *tree == self.grammar(),
    {
        &self.config.valid_cmds
    }

    /// The node that the session stands on.
    pub fn current_root(&self) -> (id: NodeId)
        ensures
            id == self.current(),
    {
        self.current_root
    }

    /// The node that the session stood on before its last move.
    pub fn prev_root(&self) -> (id: Option<NodeId>)
        ensures
            id == self.previous(),
    {
        self.prev_root
    }

    /// The prompt to show: the path to the current root, then the
    /// configured literal.
    pub fn prompt(&self) -> (text: String)
        ensures
            text@ == self.prompt_path() + self.config().prompt_text(),
    {
        let mut text = self.current_prompt.clone();
        text.append(self.config.prompt.as_str());
        text
    }

    /// Tests whether a line is short enough to be taken; see [`line_fits`].
    pub fn takes_line(input: &str) -> (res: bool)
        ensures
            res == line_fits(input@),
    {
        input.unicode_len() < usize::MAX / 2 - 1
    }

    /// Tests whether a line ends the session.
    pub fn should_exit(input: &str, nbytes: usize) -> (res: bool)
        ensures
            res == is_exit(input@, nbytes),
    {
        nbytes == 0 || same_text(input, "exit\n") || same_text(input, "quit\n")
    }

    /// Tests whether a line is blank.
    pub fn should_new_prompt(input: &str) -> (res: bool)
        ensures
            res == is_blank(input@),
    {
        same_text(input, "\n")
    }

    /// Tests whether a line is a `cd` command.
    pub fn should_change_root(input: &str) -> (res: bool)
        ensures
            res == is_navigation(input@),
    {
        begins_navigation(input)
    }

    /// The path that the prompt shows for the node `root`; empty where no
    /// node is given.
    pub fn construct_prompt(&self, root: Option<&NodeId>) -> (prompt: String)
        requires
            self.grammar().wf(),
            root matches Some(id) ==> self.nodes().dom().contains(*id),
        ensures
            prompt@ == match root {
                Some(id) => path_of(self.nodes(), *id),
                None => Seq::empty(),
            },
    {
        let mut prompt = String::new();
        if let Some(id) = root {
            let arena = &self.config.valid_cmds.arena;
            let ghost m = arena_nodes(*arena);
            let chain = ancestors(*id, arena);
            proof {
                reveal_strlit("/");
            }
            let last: usize = chain.len() - 1;
            let mut i: usize = last;
            assert(chain@.subrange(i as int, last as int) =~= Seq::empty());
            while i > 0
                invariant
                    0 <= i <= last,
                    last == chain.len() - 1,
                    m == arena_nodes(*arena),
                    "/"@ == seq!['/'],
                    forall|k: int| 0 <= k < chain@.len() ==> m.dom().contains(#[trigger] chain@[k]),
                    prompt@ == path_names(m, chain@.subrange(i as int, last as int)),
                decreases i,
            {
                i = i - 1;
                let node = Node::from_id(&chain[i], arena);
                proof {
                    let longer = chain@.subrange(i as int, last as int);
                    assert(longer.drop_first() =~= chain@.subrange(i + 1, last as int));
                    assert(longer[0] == chain@[i as int]);
                }
                prompt.append(node.name.as_str());
                prompt.append("/");
            }
            assert(chain@.subrange(0, last as int) =~= chain@.drop_last());
        }
        prompt
    }

    /// Where a navigation leads from the session's present state.
    pub fn resolve(&self, nav: &Navigation) -> (next: NodeId)
        requires
            self.wf(),
            nav matches Navigation::Goto(path) ==> 2 * path.len() < usize::MAX,
        ensures
            next == self.target_of(nav@),
            self.nodes().dom().contains(next),
    {
        match nav {
            Navigation::Stay => self.current_root,
            Navigation::Back => match self.prev_root {
                Some(p) => p,
                None => self.current_root,
            },
            Navigation::Up => match parent(self.current_root, &self.config.valid_cmds.arena) {
                Some(p) => p,
                None => self.current_root,
            },
            Navigation::Goto(path) => {
                let grammar = &self.config.valid_cmds;
                let (_, end) = match_sequence(grammar, grammar.root, path);
                end
            },
        }
    }

    /// Where the `cd` command `input` leads, and the path that the prompt
    /// shows there. The session itself stays as it is.
    pub fn change_root(&self, input: &str) -> (res: (NodeId, String))
        requires
            self.wf(),
            line_fits(input@),
        ensures
            res.0 == self.target_of(navigation_of(input@)),
            self.nodes().dom().contains(res.0),
            res.1@ == path_of(self.nodes(), res.0),
    {
        let nav = parse_navigation(input);
        proof {
            lemma_navigation_len(input@);
        }
        let new_root = self.resolve(&nav);
        let new_prompt = self.construct_prompt(Some(&new_root));
        (new_root, new_prompt)
    }

    /// Carries out the `cd` command `input`: the session goes where it
    /// leads, and where that is a move, remembers the node it left.
    pub fn navigate(&mut self, input: &str)
        requires
            old(self).wf(),
            line_fits(input@),
        ensures
            final(self).wf(),
            final(self).config() == old(self).config(),
            final(self).current() == old(self).target_of(navigation_of(input@)),
            final(self).previous() == remembered(
                old(self).current(),
                old(self).previous(),
                final(self).current(),
            ),
    {
        let (new_root, new_prompt) = self.change_root(input);
        if !node_id_eq(new_root, self.current_root) {
            self.prev_root = Some(self.current_root);
        }
        self.current_root = new_root;
        self.current_prompt = new_prompt;
    }

    /// Walks `clicmds` through the grammar from the current root; see
    /// [`match_sequence`].
    pub fn build_subtree(&self, clicmds: &Vec<CliCmd>) -> (result: (Tree, NodeId))
        requires
            self.wf(),
            2 * clicmds.len() < usize::MAX,
        ensures
            result.1 == self.walk_of(views(clicmds@)).end,
            self.nodes().dom().contains(result.1),
            is_record(result.0, data_of(self.nodes(), self.walk_of(views(clicmds@)).matched)),
    {
        match_sequence(&self.config.valid_cmds, self.current_root, clicmds)
    }

    /// What to tell about a line that is no complete command: the nodes
    /// recorded in `sequence_tree`, its root left out, and the children of
    /// `last_valid_node` in the grammar.
    pub fn usage(&self, last_valid_node: &NodeId, sequence_tree: &Tree) -> (usage: Usage)
        requires
            self.grammar().wf(),
            self.nodes().dom().contains(*last_valid_node),
            sequence_tree.wf(),
        ensures
            node_views(usage.matched@) == sequence_tree.listing().skip(1),
            node_views(usage.options@) == data_of(
                self.nodes(),
                self.nodes()[*last_valid_node].children,
            ),
    {
        let recorded = descendants(sequence_tree.root, &sequence_tree.arena);
        let matched = copies(&recorded, 1, &sequence_tree.arena);
        let arena = &self.config.valid_cmds.arena;
        let kids = children(*last_valid_node, arena);
        let options = copies(&kids, 0, arena);
        proof {
            assert(kids@.skip(0) =~= kids@);
            assert(data_of(sequence_tree.nodes(), recorded@.skip(1)) =~= sequence_tree.listing().skip(
                1,
            ));
        }
        Usage { matched, options }
    }

    /// Checks the line `input` as a command: it is cut into tokens at every
    /// space and walked through the grammar from the current root.
    pub fn handle_input(&self, input: &str) -> (verdict: Verdict)
        requires
            self.wf(),
            line_fits(input@),
        ensures
            verdict is Accepted <==> accepted(
                self.nodes(),
                arena_len(self.grammar().arena),
                self.walk_of(tokens_of(input@, ' ')),
                tokens_of(input@, ' ').len(),
            ),
            verdict matches Verdict::Usage(usage) ==> {
                &&& node_views(usage.matched@) == data_of(
                    self.nodes(),
                    self.walk_of(tokens_of(input@, ' ')).matched,
                )
                &&& node_views(usage.options@) == data_of(
                    self.nodes(),
                    self.nodes()[self.walk_of(tokens_of(input@, ' ')).end].children,
                )
            },
    {
        let clicmds = construct_clicmds(input, ' ');
        proof {
            lemma_split_len(input@, ' ');
        }
        let (sequence_tree, leaf) = self.build_subtree(&clicmds);
        proof {
            lemma_record_listing(
                sequence_tree,
                data_of(self.nodes(), self.walk_of(views(clicmds@)).matched),
            );
        }
        let sequence_tree_count = subtree_count(&sequence_tree.root, &sequence_tree.arena);
        let nodes_below_leaf = subtree_count(&leaf, &self.config.valid_cmds.arena);
        if sequence_tree_count == clicmds.len() && nodes_below_leaf == 0 {
            Verdict::Accepted
        } else {
            let usage = self.usage(&leaf, &sequence_tree);
            proof {
                let items = data_of(self.nodes(), self.walk_of(views(clicmds@)).matched);
                assert(sequence_tree.listing().skip(1) =~= items);
            }
            Verdict::Usage(usage)
        }
    }

    /// Takes one line of input, of which `nbytes` bytes were read, and says
    /// what became of it. Only a `cd` command changes the session.
    pub fn step(&mut self, input: &str, nbytes: usize) -> (reply: Reply)
        requires
            old(self).wf(),
            line_fits(input@),
        ensures
            final(self).wf(),
            final(self).config() == old(self).config(),
            is_exit(input@, nbytes) ==> reply is Exit,
            !is_exit(input@, nbytes) && is_blank(input@) ==> reply is Again,
            !is_exit(input@, nbytes) && !is_blank(input@) && is_navigation(input@) ==> {
                &&& reply is Moved
                &&& final(self).current() == old(self).target_of(navigation_of(input@))
                &&& final(self).previous() == remembered(
                    old(self).current(),
                    old(self).previous(),
                    final(self).current(),
                )
            },
            !(reply is Moved) ==> *final(self) == *old(self),
            !is_exit(input@, nbytes) && !is_blank(input@) && !is_navigation(input@) ==> {
                &&& reply matches Reply::Checked(verdict)
                &&& verdict is Accepted <==> accepted(
                    old(self).nodes(),
                    arena_len(old(self).grammar().arena),
                    old(self).walk_of(tokens_of(input@, ' ')),
                    tokens_of(input@, ' ').len(),
                )
                &&& verdict matches Verdict::Usage(usage) ==> {
                    &&& node_views(usage.matched@) == data_of(
                        old(self).nodes(),
                        old(self).walk_of(tokens_of(input@, ' ')).matched,
                    )
                    &&& node_views(usage.options@) == data_of(
                        old(self).nodes(),
                        old(self).nodes()[old(self).walk_of(tokens_of(input@, ' ')).end].children,
                    )
                }
            },
    {
        if Cli::should_exit(input, nbytes) {
            Reply::Exit
        } else if Cli::should_new_prompt(input) {
            Reply::Again
        } else if Cli::should_change_root(input) {
            self.navigate(input);
            Reply::Moved
        } else {
            Reply::Checked(self.handle_input(input))
        }
    }
}

/// The path to the root of a grammar is empty.
pub proof fn lemma_root_path(grammar: Tree)
    requires
        grammar.is_grammar(),
    ensures
        path_of(grammar.nodes(), grammar.root) == Seq::<char>::empty(),
{
    let m = grammar.nodes();
    assert(m[grammar.root].parent is None) by {
        if let Some(p) = m[grammar.root].parent {
            assert(m.dom().contains(grammar.root));
        }
    }
    assert(ancestors_of(m, grammar.root) =~= seq![grammar.root]);
    assert(seq![grammar.root].drop_last() =~= Seq::<NodeId>::empty());
}

/// Going back after a move returns the session to where it stood before
/// the move, and the prompt shows the path it showed then; the same holds
/// after a navigation that was no move, where the session remembered no
/// previous root.
///
/// `before`, `there` and `after` are the session before the navigation
/// `nav`, after it, and after the navigation back that follows.
pub proof fn lemma_back_restores(before: Cli, there: Cli, after: Cli, nav: NavigationView)
    requires
        before.wf(),
        there.wf(),
        after.wf(),
        there.config() == before.config(),
        after.config() == before.config(),
        there.current() == before.target_of(nav),
        there.previous() == remembered(before.current(), before.previous(), there.current()),
        after.current() == there.target_of(NavigationView::Back),
        there.current() != before.current() || before.previous() is None,
    ensures
        after.current() == before.current(),
        after.prompt_path() == before.prompt_path(),
        before.current() == before.grammar().root ==> after.prompt_path() == Seq::<char>::empty(),
{
    lemma_root_path(before.grammar());
}

} // verus!
