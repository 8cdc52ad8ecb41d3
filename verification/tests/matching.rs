use cli::matcher::{find_child, match_sequence, parent};
use cli::node::{Depth, Node};
use cli::token::{construct_clicmds, CliCmd};
use cli::tree::{children, descendants, subtree_count, Tree};
use cli::yaml::{to_tree, Document};
use cli::NodeId;

fn text(s: &str) -> Document {
    Document::Text(s.to_string())
}

fn entry(key: &str, value: Document) -> (Document, Document) {
    (text(key), value)
}

/// root -> sat -> cmd -> (obc -> ping, adcs, pay), root -> gs
fn grammar() -> Tree {
    to_tree(&Document::Mapping(vec![
        entry(
            "sat",
            Document::List(vec![Document::Mapping(vec![entry(
                "cmd",
                Document::List(vec![
                    Document::Mapping(vec![entry("obc", Document::List(vec![text("ping")]))]),
                    text("adcs"),
                    text("pay"),
                ]),
            )])]),
        ),
        entry("gs", text("ground station")),
    ]))
}

/// root -> sat -> (cmd -> obc -> ping, pay)
fn grammar_with_sibling() -> Tree {
    to_tree(&Document::Mapping(vec![entry(
        "sat",
        Document::List(vec![
            Document::Mapping(vec![entry(
                "cmd",
                Document::List(vec![Document::Mapping(vec![entry(
                    "obc",
                    Document::List(vec![text("ping")]),
                )])]),
            )]),
            text("pay"),
        ]),
    )]))
}

fn find(tree: &Tree, path: &[&str]) -> NodeId {
    let mut at = tree.root;
    for name in path {
        at = children(at, &tree.arena)
            .into_iter()
            .find(|id| Node::from_id(id, &tree.arena).name == *name)
            .unwrap();
    }
    at
}

fn recorded(record: &Tree) -> Vec<(String, usize)> {
    let kids = children(record.root, &record.arena);
    let all = descendants(record.root, &record.arena);
    assert_eq!(all.len(), kids.len() + 1);
    assert_eq!(all[0], record.root);
    assert_eq!(&all[1..], &kids[..]);
    assert_eq!(Node::from_id(&record.root, &record.arena), Node::new("root", "", Depth::Exact(0)));
    kids.iter()
        .map(|id| {
            let node = Node::from_id(id, &record.arena);
            assert!(children(*id, &record.arena).is_empty());
            match node.depth {
                Depth::Exact(d) => (node.name, d),
                Depth::Any => panic!("wildcard depth in a record"),
            }
        })
        .collect()
}

fn names(record: &Tree) -> Vec<String> {
    children(record.root, &record.arena)
        .iter()
        .map(|id| Node::from_id(id, &record.arena).name)
        .collect()
}

#[test]
fn tokens_carry_their_position() {
    let tokens = construct_clicmds("sat cmd obc ping\n", ' ');
    let got: Vec<(String, usize)> = tokens
        .iter()
        .map(|t| match t.depth {
            Depth::Exact(d) => (t.cmd.clone(), d),
            Depth::Any => panic!("wildcard depth in a token"),
        })
        .collect();
    assert_eq!(
        got,
        vec![
            ("sat".to_string(), 1),
            ("cmd".to_string(), 2),
            ("obc".to_string(), 3),
            ("ping".to_string(), 4)
        ]
    );
}

#[test]
fn tokens_of_edge_cases() {
    let texts = |input: &str, delim: char| -> Vec<String> {
        construct_clicmds(input, delim).into_iter().map(|t| t.cmd).collect()
    };
    assert_eq!(texts("", ' '), vec![""]);
    assert_eq!(texts("\n", ' '), vec![""]);
    assert_eq!(texts("a", ' '), vec!["a"]);
    assert_eq!(texts(" ", ' '), vec!["", ""]);
    assert_eq!(texts("a  b", ' '), vec!["a", "", "b"]);
    assert_eq!(texts(" a ", ' '), vec!["", "a", ""]);
    assert_eq!(texts("a\n b\n\n", ' '), vec!["a", "b\n"]);
    assert_eq!(texts("sat/cmd/obc", '/'), vec!["sat", "cmd", "obc"]);
    assert_eq!(texts("sat/cmd/", '/'), vec!["sat", "cmd", ""]);
    assert_eq!(texts("só tão", ' '), vec!["só", "tão"]);
    assert_eq!(texts("a b", '/'), vec!["a b"]);
}

#[test]
fn tokens_agree_with_std_split() {
    for input in ["", "a", "a b c\n", "  lead", "trail  ", "x\ny z\n", "a\n\n b\n"] {
        let expected: Vec<String> = input
            .split(' ')
            .map(|piece| piece.strip_suffix('\n').unwrap_or(piece).to_string())
            .collect();
        let tokens = construct_clicmds(input, ' ');
        assert_eq!(tokens.len(), expected.len());
        for (i, token) in tokens.iter().enumerate() {
            assert_eq!(token.cmd, expected[i]);
            assert!(matches!(token.depth, Depth::Exact(d) if d == i + 1));
        }
    }
}

#[test]
fn full_acceptance() {
    let grammar = grammar();
    let tokens = construct_clicmds("sat cmd obc ping", ' ');
    let (record, end) = match_sequence(&grammar, grammar.root, &tokens);

    assert_eq!(
        recorded(&record),
        vec![
            ("sat".to_string(), 1),
            ("cmd".to_string(), 2),
            ("obc".to_string(), 3),
            ("ping".to_string(), 4)
        ]
    );
    assert_eq!(subtree_count(&record.root, &record.arena), 4);
    assert_eq!(end, find(&grammar, &["sat", "cmd", "obc", "ping"]));
    assert_eq!(subtree_count(&end, &grammar.arena), 0);
}

#[test]
fn partial_match() {
    let grammar = grammar();
    let tokens = construct_clicmds("sat cmd bogus", ' ');
    let (record, end) = match_sequence(&grammar, grammar.root, &tokens);

    assert_eq!(names(&record), vec!["sat", "cmd"]);
    assert_eq!(subtree_count(&record.root, &record.arena), 2);
    assert_eq!(end, find(&grammar, &["sat", "cmd"]));
    assert!(subtree_count(&end, &grammar.arena) > 0);
    let options: Vec<String> =
        children(end, &grammar.arena).iter().map(|id| Node::from_id(id, &grammar.arena).name).collect();
    assert_eq!(options, vec!["obc", "adcs", "pay"]);
}

#[test]
fn go_up_token() {
    let grammar = grammar_with_sibling();
    let tokens = construct_clicmds("sat cmd .. pay", ' ');
    let (record, end) = match_sequence(&grammar, grammar.root, &tokens);

    // The third token moves the walk from `cmd` up to `sat`, which is
    // recorded; no child of `sat` is named `..`, so the walk ends there and
    // `pay` is never looked at.
    assert_eq!(
        recorded(&record),
        vec![("sat".to_string(), 1), ("cmd".to_string(), 2), ("sat".to_string(), 1)]
    );
    assert_eq!(end, find(&grammar, &["sat"]));
    assert_eq!(subtree_count(&end, &grammar.arena), 4);
}

#[test]
fn go_up_at_the_root_does_nothing() {
    let grammar = grammar();
    let tokens = construct_clicmds(".. sat", ' ');
    let (record, end) = match_sequence(&grammar, grammar.root, &tokens);
    assert!(names(&record).is_empty());
    assert_eq!(end, grammar.root);
}

#[test]
fn go_up_falls_through_to_a_child_of_that_name() {
    // root -> a -> (b, ..) where `..` is tagged with a wildcard depth
    let mut tree = Tree::new();
    let root = tree.root;
    let a = cli::tree::append_child(&mut tree.arena, root, Node::new("a", "", Depth::Exact(1)));
    let b = cli::tree::append_child(&mut tree.arena, a, Node::new("b", "", Depth::Exact(2)));
    let dots = cli::tree::append_child(&mut tree.arena, a, Node::new("..", "", Depth::Any));

    let tokens = construct_clicmds("a b ..", ' ');
    let (record, end) = match_sequence(&tree, root, &tokens);
    assert_eq!(names(&record), vec!["a", "b", "a", ".."]);
    assert_eq!(end, dots);
    assert_ne!(end, b);
}

#[test]
fn walk_from_an_inner_node_needs_matching_depths() {
    let grammar = grammar();
    let sat = find(&grammar, &["sat"]);
    let cmd = find(&grammar, &["sat", "cmd"]);

    // Positions start at 1 while the children of `sat` lie at depth 2.
    let tokens = construct_clicmds("cmd obc", ' ');
    let (record, end) = match_sequence(&grammar, sat, &tokens);
    assert!(names(&record).is_empty());
    assert_eq!(end, sat);

    // With tokens tagged by hand the walk goes on from there.
    let tokens = vec![
        CliCmd { cmd: "cmd".to_string(), depth: Depth::Exact(2) },
        CliCmd { cmd: "pay".to_string(), depth: Depth::Any },
    ];
    let (record, end) = match_sequence(&grammar, sat, &tokens);
    assert_eq!(recorded(&record), vec![("cmd".to_string(), 2), ("pay".to_string(), 3)]);
    assert_eq!(end, find(&grammar, &["sat", "cmd", "pay"]));
    assert_ne!(end, cmd);
}

#[test]
fn empty_walk_stays_at_the_start() {
    let grammar = grammar();
    let (record, end) = match_sequence(&grammar, grammar.root, &Vec::new());
    assert!(names(&record).is_empty());
    assert_eq!(subtree_count(&record.root, &record.arena), 0);
    assert_eq!(end, grammar.root);
}

#[test]
fn first_matching_child_wins() {
    let mut tree = Tree::new();
    let root = tree.root;
    let first = cli::tree::append_child(&mut tree.arena, root, Node::new("x", "one", Depth::Exact(1)));
    let second = cli::tree::append_child(&mut tree.arena, root, Node::new("x", "two", Depth::Exact(1)));
    let kids = children(root, &tree.arena);
    let token = CliCmd { cmd: "x".to_string(), depth: Depth::Exact(1) };
    assert_eq!(find_child(&kids, &tree.arena, &token), Some(first));
    assert_ne!(Some(second), Some(first));
    let token = CliCmd { cmd: "y".to_string(), depth: Depth::Exact(1) };
    assert_eq!(find_child(&kids, &tree.arena, &token), None);
    let token = CliCmd { cmd: "x".to_string(), depth: Depth::Exact(2) };
    assert_eq!(find_child(&kids, &tree.arena, &token), None);
}

#[test]
fn parent_of_nodes() {
    let grammar = grammar();
    let sat = find(&grammar, &["sat"]);
    let cmd = find(&grammar, &["sat", "cmd"]);
    assert_eq!(parent(grammar.root, &grammar.arena), None);
    assert_eq!(parent(sat, &grammar.arena), Some(grammar.root));
    assert_eq!(parent(cmd, &grammar.arena), Some(sat));
}
