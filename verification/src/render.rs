//! A tree as text, one node to a line.

use vstd::prelude::*;
use vstd::string::StringExecFns;
use crate::node::{Depth, Node, NodeView};
use crate::session::{node_views, Usage};
use crate::tree::{descendants, Tree};

verus! {

/// The line for one node: for an exact depth one tab per level and `>`,
/// then the name, then `: ` and the help text where there is one, then a
/// line feed.
pub open spec fn node_line(n: NodeView) -> Seq<char> {
    let indent = match n.depth {
        Depth::Exact(d) => Seq::new(d as nat, |i: int| '\t') + seq!['>'],
        Depth::Any => Seq::empty(),
    };
    let help = match n.explanation {
        Some(text) => seq![':', ' '] + text,
        None => Seq::empty(),
    };
    indent + n.name + help + seq!['\n']
}

/// The lines for `nodes`, one after the other.
pub open spec fn node_lines(nodes: Seq<NodeView>) -> Seq<char>
    decreases nodes.len(),
{
    if nodes.len() == 0 {
        Seq::empty()
    } else {
        node_lines(nodes.drop_last()) + node_line(nodes.last())
    }
}

/// The line for one node; see [`node_line`].
pub fn render_node(node: &Node) -> (line: String)
    ensures
        line@ == node_line(node@),
{
    let mut line = String::new();
    proof {
        reveal_strlit("\t");
        reveal_strlit(">");
        reveal_strlit(": ");
        reveal_strlit("\n");
    }
    match node.depth {
        Depth::Exact(d) => {
            let mut i: usize = 0;
            while i < d
                invariant
                    0 <= i <= d,
                    "\t"@ == seq!['\t'],
                    line@ == Seq::new(i as nat, |k: int| '\t'),
                decreases d - i,
            {
                line.append("\t");
                i = i + 1;
                assert(line@ =~= Seq::new(i as nat, |k: int| '\t'));
            }
            line.append(">");
        },
        Depth::Any => {},
    }
    line.append(node.name.as_str());
    match &node.explanation {
        Some(text) => {
            line.append(": ");
            line.append(text.as_str());
        },
        None => {},
    }
    line.append("\n");
    assert(line@ =~= node_line(node@));
    line
}

impl Tree {
    /// The tree as text: the line of every node, in pre-order.
    pub fn render(&self) -> (text: String)
        requires
            self.wf(),
        ensures
            text@ == node_lines(self.listing()),
    {
        let ids = descendants(self.root, &self.arena);
        let mut text = String::new();
        let mut i: usize = 0;
        assert(self.listing().take(0) =~= Seq::empty());
        while i < ids.len()
            invariant
                0 <= i <= ids.len(),
                self.listing().len() == ids@.len(),
                forall|k: int| 0 <= k < ids@.len() ==>
                    self.nodes().dom().contains(#[trigger] ids@[k]),
                forall|k: int| 0 <= k < ids@.len() ==>
                    self.listing()[k] == self.nodes()[ids@[k]].data,
                text@ == node_lines(self.listing().take(i as int)),
            decreases ids.len() - i,
        {
            let node = Node::from_id(&ids[i], &self.arena);
            let line = render_node(&node);
            proof {
                let next = self.listing().take(i + 1);
                assert(next.drop_last() =~= self.listing().take(i as int));
                assert(next.last() == node@);
            }
            text.append(line.as_str());
            i = i + 1;
        }
        assert(self.listing().take(i as int) =~= self.listing());
        text
    }
}

/// The names of `nodes`, each followed by a space.
pub open spec fn name_row(nodes: Seq<NodeView>) -> Seq<char>
    decreases nodes.len(),
{
    if nodes.len() == 0 {
        Seq::empty()
    } else {
        name_row(nodes.drop_last()) + nodes.last().name + seq![' ']
    }
}

/// One line for each of `nodes`: a tab, `* `, the name, then `: ` and the
/// help text where there is one.
pub open spec fn option_lines(nodes: Seq<NodeView>) -> Seq<char>
    decreases nodes.len(),
{
    if nodes.len() == 0 {
        Seq::empty()
    } else {
        let n = nodes.last();
        let help = match n.explanation {
            Some(text) => seq![':', ' '] + text,
            None => Seq::empty(),
        };
        option_lines(nodes.drop_last()) + "\t* "@ + n.name + help + seq!['\n']
    }
}

/// What is shown for a line that is no complete command: the names that
/// were matched, a placeholder for the next one, and the names it could
/// be.
pub open spec fn usage_text(matched: Seq<NodeView>, options: Seq<NodeView>) -> Seq<char> {
    "Usage: "@ + name_row(matched) + "<cmd>\nWhere 'cmd' can be either of\n"@ + option_lines(
        options,
    )
}

impl Usage {
    /// The text to show; see [`usage_text`].
    pub fn render(&self) -> (text: String)
        ensures
            text@ == usage_text(node_views(self.matched@), node_views(self.options@)),
    {
        let ghost matched = node_views(self.matched@);
        let ghost options = node_views(self.options@);
        proof {
            reveal_strlit(" ");
            reveal_strlit(": ");
            reveal_strlit("\n");
        }
        let mut text = String::new();
        text.append("Usage: ");
        let mut i: usize = 0;
        assert(matched.take(0) =~= Seq::empty());
        while i < self.matched.len()
            invariant
                0 <= i <= self.matched.len(),
                matched == node_views(self.matched@),
                " "@ == seq![' '],
                text@ == "Usage: "@ + name_row(matched.take(i as int)),
            decreases self.matched.len() - i,
        {
            proof {
                let next = matched.take(i + 1);
                assert(next.drop_last() =~= matched.take(i as int));
                assert(next.last() == self.matched@[i as int]@);
            }
            text.append(self.matched[i].name.as_str());
            text.append(" ");
            i = i + 1;
        }
        assert(matched.take(i as int) =~= matched);
        text.append("<cmd>\nWhere 'cmd' can be either of\n");
        let ghost head = text@;
        let mut k: usize = 0;
        assert(options.take(0) =~= Seq::empty());
        while k < self.options.len()
            invariant
                0 <= k <= self.options.len(),
                options == node_views(self.options@),
                ": "@ == seq![':', ' '],
                "\n"@ == seq!['\n'],
                text@ == head + option_lines(options.take(k as int)),
            decreases self.options.len() - k,
        {
            proof {
                let next = options.take(k + 1);
                assert(next.drop_last() =~= options.take(k as int));
                assert(next.last() == self.options@[k as int]@);
            }
            let node = &self.options[k];
            text.append("\t* ");
            text.append(node.name.as_str());
            match &node.explanation {
                Some(help) => {
                    text.append(": ");
                    text.append(help.as_str());
                },
                None => {},
            }
            text.append("\n");
            k = k + 1;
        }
        assert(options.take(k as int) =~= options);
        text
    }
}

} // verus!
