//! Tokens of an input line and how a line is cut into them.

use vstd::prelude::*;
use vstd::std_specs::cmp::PartialEqSpecImpl;
use crate::node::{depth_agrees, Depth, Node, NodeView};

verus! {

/// One token of an input line: its text and the depth at which a grammar
/// node has to lie to match it.
#[derive(Debug)]
pub struct CliCmd {
    pub cmd: String,
    pub depth: Depth,
}

/// The mathematical content of a [`CliCmd`].
pub struct Token {
    pub cmd: Seq<char>,
    pub depth: Depth,
}

impl View for CliCmd {
    type V = Token;

    open spec fn view(&self) -> Token {
        Token { cmd: self.cmd@, depth: self.depth }
    }
}

/// The content of each of `tokens`, in the same order.
pub open spec fn views(tokens: Seq<CliCmd>) -> Seq<Token> {
    tokens.map_values(|t: CliCmd| t@)
}

/// Whether two tokens are equal: same text and agreeing depths.
pub open spec fn token_agrees(a: Token, b: Token) -> bool {
    a.cmd == b.cmd && depth_agrees(a.depth, b.depth)
}

/// Whether a token matches a grammar node: the node bears the token's text
/// as its name, at an agreeing depth. Help text plays no part.
pub open spec fn token_matches(t: Token, n: NodeView) -> bool {
    t.cmd == n.name && depth_agrees(t.depth, n.depth)
}

/// Whether a token asks to go up to the parent: its text is `..`, whatever
/// its depth.
pub open spec fn is_go_up(t: Token) -> bool {
    t.cmd == ".."@
}

/// A token with a wildcard depth matches every node that bears its text as
/// its name, at whatever depth; a token with an exact depth matches such a
/// node exactly when the node's depth is a wildcard or the same number.
pub proof fn lemma_token_matching(t: Token, n: NodeView)
    requires
        t.cmd == n.name,
    ensures
        t.depth is Any ==> token_matches(t, n),
        t.depth matches Depth::Exact(d) ==>
            (token_matches(t, n) <==> (n.depth matches Depth::Exact(e)
            ==> d == e)),
{
}

impl PartialEq for CliCmd {
    fn eq(&self, other: &Self) -> (res: bool) {
        let same_text = self.cmd == other.cmd;
        let same_depth = self.depth == other.depth;
        same_text && same_depth
    }
}

impl PartialEqSpecImpl for CliCmd {
    open spec fn obeys_eq_spec() -> bool {
        true
    }

    open spec fn eq_spec(&self, other: &Self) -> bool {
        token_agrees(self@, other@)
    }
}

impl CliCmd {
    /// Tests the token against a grammar node.
    pub fn matches_node(&self, node: &Node) -> (res: bool)
        ensures
            res == token_matches(self@, node@),
    {
        let same_text = self.cmd == node.name;
        let same_depth = self.depth == node.depth;
        same_text && same_depth
    }

    /// Tests whether the token is the one that goes up to the parent.
    pub fn is_go_up(&self) -> (res: bool)
        ensures
            res == is_go_up(self@),
    {
        let up = CliCmd { cmd: "..".to_owned(), depth: Depth::Any };
        *self == up
    }
}

/// The pieces of `s` between occurrences of `delim`, in order. There is one
/// piece more than there are delimiters; pieces may be empty.
pub open spec fn split(s: Seq<char>, delim: char) -> Seq<Seq<char>>
    decreases s.len(),
{
    if s.len() == 0 {
        seq![Seq::empty()]
    } else {
        let before = split(s.drop_last(), delim);
        if s.last() == delim {
            before.push(Seq::empty())
        } else {
            before.drop_last().push(before.last().push(s.last()))
        }
    }
}

/// `piece` without its last character, if that is a line feed.
pub open spec fn trim_newline(piece: Seq<char>) -> Seq<char> {
    if piece.len() > 0 && piece.last() == '\n' {
        piece.drop_last()
    } else {
        piece
    }
}

/// The tokens of `s`: its pieces between delimiters, each without a trailing
/// line feed and tagged with its one-based position.
pub open spec fn tokens_of(s: Seq<char>, delim: char) -> Seq<Token> {
    Seq::new(
        split(s, delim).len(),
        |i: int| Token { cmd: trim_newline(split(s, delim)[i]), depth: Depth::Exact((i + 1) as usize) },
    )
}

/// The pieces of a split put together again, with `delim` between each two
/// of them.
pub open spec fn join(pieces: Seq<Seq<char>>, delim: char) -> Seq<char>
    decreases pieces.len(),
{
    if pieces.len() == 0 {
        Seq::empty()
    } else if pieces.len() == 1 {
        pieces[0]
    } else {
        join(pieces.drop_last(), delim) + seq![delim] + pieces.last()
    }
}

/// A split cuts at every delimiter and nowhere else: no piece holds the
/// delimiter, and the pieces joined by it give the text back.
pub proof fn lemma_split_join(s: Seq<char>, delim: char)
    ensures
        join(split(s, delim), delim) == s,
        forall|i: int| 0 <= i < split(s, delim).len() ==>
            !(#[trigger] split(s, delim)[i]).contains(delim),
    decreases s.len(),
{
    if s.len() > 0 {
        let before = split(s.drop_last(), delim);
        let all = split(s, delim);
        lemma_split_join(s.drop_last(), delim);
        lemma_split_len(s.drop_last(), delim);
        assert(s.drop_last().push(s.last()) =~= s);
        if s.last() == delim {
            assert(all.drop_last() =~= before);
            assert(join(all, delim) =~= s.drop_last().push(delim));
        } else if before.len() == 1 {
            assert(all[0] =~= s);
        } else {
            assert(all.drop_last() =~= before.drop_last());
            assert(join(all, delim) =~= join(before, delim).push(s.last()));
        }
        assert forall|i: int| 0 <= i < all.len() implies !(#[trigger] all[i]).contains(delim) by {
            if i < all.len() - 1 {
                assert(all[i] == before[i]);
            } else if s.last() != delim && all[i].contains(delim) {
                let k = choose|k: int| 0 <= k < all[i].len() && all[i][k] == delim;
                assert(before[i][k] == delim);
            }
        }
    }
}

/// A split yields at least one piece, and at most one piece more than
/// there are characters.
pub proof fn lemma_split_len(s: Seq<char>, delim: char)
    ensures
        1 <= split(s, delim).len() <= s.len() + 1,
    decreases s.len(),
{
    if s.len() > 0 {
        lemma_split_len(s.drop_last(), delim);
    }
}

/// Cuts `input` at every `delim` into tokens; see [`tokens_of`].
pub fn construct_clicmds(input: &str, delim: char) -> (tokens: Vec<CliCmd>)
    ensures
        views(tokens@) == tokens_of(input@, delim),
{
    let n = input.unicode_len();
    let mut pieces: Vec<String> = Vec::new();
    let mut start: usize = 0;
    let mut i: usize = 0;
    proof {
        lemma_split_len(input@.take(0), delim);
    }
    while i < n
        invariant
            n == input@.len(),
            0 <= start <= i <= n,
            pieces@.len() + 1 == split(input@.take(i as int), delim).len(),
            forall|k: int|
                0 <= k < pieces@.len() ==> (#[trigger] pieces@[k])@ == trim_newline(
                    split(input@.take(i as int), delim)[k],
                ),
            split(input@.take(i as int), delim).last() == input@.subrange(start as int, i as int),
        decreases n - i,
    {
        let c = input.get_char(i);
        proof {
            let prev = input@.take(i as int);
            let next = input@.take(i + 1);
            assert(next.drop_last() =~= prev);
            assert(next.last() == c);
            lemma_split_len(prev, delim);
            if c != delim {
                assert(input@.subrange(start as int, i as int).push(c) =~= input@.subrange(
                    start as int,
                    i + 1,
                ));
            } else {
                assert(input@.subrange(i + 1, i + 1) =~= Seq::<char>::empty());
            }
        }
        if c == delim {
            pieces.push(piece_of(input, start, i));
            start = i + 1;
        }
        i = i + 1;
    }
    pieces.push(piece_of(input, start, n));
    assert(input@.take(n as int) =~= input@);
    let mut tokens: Vec<CliCmd> = Vec::new();
    let mut k: usize = 0;
    while k < pieces.len()
        invariant
            0 <= k <= pieces.len(),
            tokens@.len() == k,
            forall|j: int|
                0 <= j < k ==> {
                    &&& (#[trigger] tokens@[j]).cmd@ == pieces@[j]@
                    &&& tokens@[j].depth == Depth::Exact((j + 1) as usize)
                },
        decreases pieces.len() - k,
    {
        tokens.push(CliCmd { cmd: pieces[k].clone(), depth: Depth::Exact(k + 1) });
        k = k + 1;
    }
    assert(views(tokens@) =~= tokens_of(input@, delim));
    tokens
}

/// The characters of `input` from `start` up to `end`, without a trailing
/// line feed.
fn piece_of(input: &str, start: usize, end: usize) -> (piece: String)
    requires
        start <= end <= input@.len(),
    ensures
        piece@ == trim_newline(input@.subrange(start as int, end as int)),
{
    if end > start && input.get_char(end - 1) == '\n' {
        assert(input@.subrange(start as int, end as int).drop_last() =~= input@.subrange(
            start as int,
            end - 1,
        ));
        input.substring_char(start, end - 1).to_owned()
    } else {
        input.substring_char(start, end).to_owned()
    }
}

} // verus!
