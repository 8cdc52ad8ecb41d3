use cli::node::{Depth, Node};
use cli::token::CliCmd;

#[test]
fn same_empty() {
    let node1 = Node::new("", "", Depth::Exact(0));
    let node2 = Node::new("", "", Depth::Exact(0));

    assert_eq!(node1, node2);
}

#[test]
fn same() {
    let node1 = Node::new("node1", "exp", Depth::Exact(1));
    let node2 = Node::new("node1", "exp", Depth::Exact(1));

    assert_eq!(node1, node2)
}

#[test]
fn different_names() {
    let node1 = Node::new("node1", "exp1", Depth::Exact(1));
    let node2 = Node::new("", "exp1", Depth::Exact(1));

    assert_ne!(node1, node2);
}

#[test]
fn differnet_exps() {
    let node1 = Node::new("node1", "exp1", Depth::Exact(1));
    let node2 = Node::new("node1", "", Depth::Exact(1));

    assert_ne!(node1, node2);
}

#[test]
fn different_depths() {
    let node1 = Node::new("node1", "exp1", Depth::Exact(0));
    let node2 = Node::new("node1", "exp1", Depth::Exact(1));

    assert_ne!(node1, node2);
}

#[test]
fn empty_explanation_is_none() {
    let node = Node::new("name", "", Depth::Exact(3));
    assert_eq!(node.name, "name");
    assert_eq!(node.explanation, None);
    assert!(matches!(node.depth, Depth::Exact(3)));

    let node = Node::new("name", "help", Depth::Any);
    assert_eq!(node.explanation, Some("help".to_string()));
    assert!(matches!(node.depth, Depth::Any));
}

#[test]
fn wildcard_depth_equals_every_depth() {
    for d in [0usize, 1, 2, 55, usize::MAX] {
        assert!(Depth::Any == Depth::Exact(d));
        assert!(Depth::Exact(d) == Depth::Any);
    }
    assert!(Depth::Any == Depth::Any);
}

#[test]
fn exact_depths_equal_iff_same_number() {
    for a in 0usize..6 {
        for b in 0usize..6 {
            assert_eq!(Depth::Exact(a) == Depth::Exact(b), a == b);
        }
    }
    assert!(Depth::Exact(usize::MAX) != Depth::Exact(usize::MAX - 1));
}

#[test]
fn wildcard_node_equals_node_at_any_depth() {
    let query = Node::new("sat", "", Depth::Any);
    assert_eq!(query, Node::new("sat", "", Depth::Exact(1)));
    assert_eq!(query, Node::new("sat", "", Depth::Exact(9)));
    assert_ne!(query, Node::new("gs", "", Depth::Exact(1)));
    assert_ne!(query, Node::new("sat", "help", Depth::Exact(1)));
}

#[test]
fn node_clone_keeps_everything() {
    let node = Node::new("obc", "on-board computer", Depth::Exact(3));
    let copy = node.clone();
    assert_eq!(copy.name, "obc");
    assert_eq!(copy.explanation, Some("on-board computer".to_string()));
    assert!(matches!(copy.depth, Depth::Exact(3)));
}

#[test]
fn token_matches_name_and_depth_only() {
    let token = CliCmd { cmd: "sat".to_string(), depth: Depth::Exact(1) };
    assert!(token.matches_node(&Node::new("sat", "", Depth::Exact(1))));
    assert!(token.matches_node(&Node::new("sat", "some help", Depth::Exact(1))));
    assert!(token.matches_node(&Node::new("sat", "", Depth::Any)));
    assert!(!token.matches_node(&Node::new("sat", "", Depth::Exact(2))));
    assert!(!token.matches_node(&Node::new("gs", "", Depth::Exact(1))));
}

#[test]
fn token_equality_and_go_up() {
    let a = CliCmd { cmd: "..".to_string(), depth: Depth::Exact(3) };
    let b = CliCmd { cmd: "..".to_string(), depth: Depth::Any };
    let c = CliCmd { cmd: "..".to_string(), depth: Depth::Exact(4) };
    let d = CliCmd { cmd: ".".to_string(), depth: Depth::Any };
    assert!(a == b);
    assert!(a != c);
    assert!(b != d);
    assert!(a.is_go_up());
    assert!(b.is_go_up());
    assert!(!d.is_go_up());
    assert!(!CliCmd { cmd: "...".to_string(), depth: Depth::Any }.is_go_up());
}
