//! The `cd` commands that move the current root through the grammar.
//!
//! A line is such a command when it begins with `cd`. What follows, with all
//! whitespace taken out, is its argument: none stays in place, `-` goes back
//! to the previous root, `..` goes up to the parent, and anything else is a
//! path whose segments are separated by `/`. A path has to be set off from
//! `cd` by a space, and is resolved from the root of the grammar whether or
//! not it begins with a separator.

use vstd::prelude::*;
use vstd::string::StringExecFns;
use crate::token::{construct_clicmds, tokens_of, views, CliCmd, Token};

verus! {

/// Whether `c` is whitespace: one of the characters with the Unicode
/// property `White_Space`.
pub open spec fn whitespace(c: char) -> bool {
    let u = c as u32;
    ||| 0x09 <= u <= 0x0D
    ||| u == 0x20
    ||| u == 0x85
    ||| u == 0xA0
    ||| u == 0x1680
    ||| 0x2000 <= u <= 0x200A
    ||| u == 0x2028
    ||| u == 0x2029
    ||| u == 0x202F
    ||| u == 0x205F
    ||| u == 0x3000
}

/// Tests whether `c` is whitespace.
pub fn is_whitespace(c: char) -> (res: bool)
    ensures
        res == whitespace(c),
{
    let u: u32 = c as u32;
    (0x09 <= u && u <= 0x0D) || u == 0x20 || u == 0x85 || u == 0xA0 || u == 0x1680 || (0x2000 <= u
        && u <= 0x200A) || u == 0x2028 || u == 0x2029 || u == 0x202F || u == 0x205F || u == 0x3000
}

/// `s` without its whitespace.
pub open spec fn squeeze(s: Seq<char>) -> Seq<char> {
    s.filter(|c: char| !whitespace(c))
}

/// `path` without one leading and one trailing separator.
pub open spec fn trim_separators(path: Seq<char>) -> Seq<char> {
    let start: int = if path.len() > 0 && path[0] == '/' {
        1
    } else {
        0
    };
    let end: int = if path.len() > start && path.last() == '/' {
        path.len() - 1
    } else {
        path.len() as int
    };
    path.subrange(start, end)
}

/// What a `cd` command asks for.
#[derive(Debug)]
pub enum Navigation {
    /// Stay where the session is.
    Stay,
    /// Go back to the previous root.
    Back,
    /// Go up to the parent of the current root.
    Up,
    /// Go where the path with these segments leads from the grammar's root.
    Goto(Vec<CliCmd>),
}

/// The mathematical content of a [`Navigation`].
pub enum NavigationView {
    Stay,
    Back,
    Up,
    Goto(Seq<Token>),
}

impl View for Navigation {
    type V = NavigationView;

    open spec fn view(&self) -> NavigationView {
        match self {
            Navigation::Stay => NavigationView::Stay,
            Navigation::Back => NavigationView::Back,
            Navigation::Up => NavigationView::Up,
            Navigation::Goto(path) => NavigationView::Goto(views(path@)),
        }
    }
}

/// Whether a line is a `cd` command: it begins with `cd`.
pub open spec fn is_navigation(input: Seq<char>) -> bool {
    input.len() >= 2 && input[0] == 'c' && input[1] == 'd'
}

/// What the line `input` asks for; a line that is no `cd` command asks to
/// stay.
pub open spec fn navigation_of(input: Seq<char>) -> NavigationView {
    if !is_navigation(input) {
        NavigationView::Stay
    } else {
        let arg = squeeze(input.skip(2));
        if arg.len() == 0 {
            NavigationView::Stay
        } else if arg == seq!['-'] {
            NavigationView::Back
        } else if arg == seq!['.', '.'] {
            NavigationView::Up
        } else if input[2] != ' ' {
            NavigationView::Stay
        } else {
            NavigationView::Goto(tokens_of(trim_separators(arg), '/'))
        }
    }
}

/// Tests whether a line is a `cd` command.
pub fn begins_navigation(input: &str) -> (res: bool)
    ensures
        res == is_navigation(input@),
{
    input.unicode_len() >= 2 && input.get_char(0) == 'c' && input.get_char(1) == 'd'
}

/// The characters of `input` from position `from` on, without whitespace.
fn squeeze_from(input: &str, from: usize) -> (bare: String)
    requires
        from <= input@.len(),
    ensures
        bare@ == squeeze(input@.skip(from as int)),
{
    let n = input.unicode_len();
    let mut bare = String::new();
    let mut i: usize = from;
    proof {
        reveal(Seq::filter);
        assert(input@.subrange(from as int, from as int) =~= Seq::<char>::empty());
    }
    while i < n
        invariant
            n == input@.len(),
            from <= i <= n,
            bare@ == squeeze(input@.subrange(from as int, i as int)),
        decreases n - i,
    {
        let c = input.get_char(i);
        proof {
            reveal(Seq::filter);
            let next = input@.subrange(from as int, i + 1);
            assert(next.drop_last() =~= input@.subrange(from as int, i as int));
            assert(next.last() == c);
        }
        if !is_whitespace(c) {
            let piece = input.substring_char(i, i + 1);
            assert(piece@ =~= seq![c]);
            bare.append(piece);
            assert(bare@ =~= squeeze(input@.subrange(from as int, i as int)).push(c));
        }
        i = i + 1;
    }
    assert(input@.subrange(from as int, n as int) =~= input@.skip(from as int));
    bare
}

/// A path has at most one segment more than the line has characters.
pub proof fn lemma_navigation_len(input: Seq<char>)
    ensures
        navigation_of(input) matches NavigationView::Goto(path) ==> path.len() <= input.len() + 1,
{
    if is_navigation(input) {
        let arg = squeeze(input.skip(2));
        input.skip(2).lemma_filter_len(|c: char| !whitespace(c));
        crate::token::lemma_split_len(trim_separators(arg), '/');
    }
}

/// Reads a line as a `cd` command; see [`navigation_of`].
pub fn parse_navigation(input: &str) -> (nav: Navigation)
    ensures
        nav@ == navigation_of(input@),
{
    if !begins_navigation(input) {
        return Navigation::Stay;
    }
    let arg = squeeze_from(input, 2);
    let len = arg.as_str().unicode_len();
    if len == 0 {
        return Navigation::Stay;
    }
    let first = arg.as_str().get_char(0);
    if len == 1 && first == '-' {
        assert(arg@ =~= seq!['-']);
        return Navigation::Back;
    }
    if len == 2 && first == '.' && arg.as_str().get_char(1) == '.' {
        assert(arg@ =~= seq!['.', '.']);
        return Navigation::Up;
    }
    proof {
        input@.skip(2).lemma_filter_len(|c: char| !whitespace(c));
    }
    if input.get_char(2) != ' ' {
        return Navigation::Stay;
    }
    let start: usize = if first == '/' {
        1
    } else {
        0
    };
    let end: usize = if len > start && arg.as_str().get_char(len - 1) == '/' {
        len - 1
    } else {
        len
    };
    let path = arg.as_str().substring_char(start, end);
    Navigation::Goto(construct_clicmds(path, '/'))
}

} // verus!
