use cli::node::{Depth, Node};
use cli::tree::{ancestors, append_child, children, descendants, subtree_count, Tree};

fn tree_eq(a: &Tree, b: &Tree) -> bool {
    for (nid1, nid2) in a.root.descendants(&a.arena).zip(b.root.descendants(&b.arena)) {
        let (n1, n2) = (Node::from_id(&nid1, &a.arena), Node::from_id(&nid2, &b.arena));

        if n1 != n2 {
            return false;
        }
    }
    true
}

fn generate_tree(nodes: Vec<(&str, &str, usize)>) -> Tree {
    let mut tree = Tree::new();
    for node in nodes {
        let new = Node::from_data_to_id(node.0, node.1, Depth::Exact(node.2), &mut tree.arena);
        tree.root.append(new, &mut tree.arena);
    }
    tree
}

#[test]
fn new() {
    let tree = Tree::new();
    let tree2 = Tree::new();
    assert!(tree_eq(&tree, &tree2));
}

#[test]
fn new_depth() {
    let tree = Tree::new_depth(Depth::Exact(5));
    let tree2 = Tree::new_depth(Depth::Exact(5));
    assert!(tree_eq(&tree, &tree2));
}

#[test]
fn lib_same() {
    let nodes = vec![
        ("node1", "node1exp", 0),
        ("node2", "node2exp", 0),
        ("node2", "node2exp", 0),
        ("", "", 0),
        ("dep", "", 55),
        ("dep2", "", 1),
    ];

    let tree1 = generate_tree(nodes.clone());
    let tree2 = generate_tree(nodes);

    assert!(tree_eq(&tree1, &tree2));
}

#[test]
fn lib_different_names() {
    let tree1 = generate_tree(vec![("name1", "", 0)]);
    let tree2 = generate_tree(vec![("name2", "", 0)]);

    assert!(!tree_eq(&tree1, &tree2));
}

#[test]
fn different_exps() {
    let tree1 = generate_tree(vec![("node", "exp1", 0)]);
    let tree2 = generate_tree(vec![("node", "exp2", 0)]);

    assert!(!tree_eq(&tree1, &tree2));
}

#[test]
fn lib_different_depths() {
    let tree1 = generate_tree(vec![("node", "exp", 0)]);
    let tree2 = generate_tree(vec![("node", "exp", 1)]);

    assert!(!tree_eq(&tree1, &tree2));
}

#[test]
fn new_tree_holds_only_the_root() {
    let tree = Tree::new();
    assert_eq!(tree.arena.len(), 1);
    assert_eq!(Node::from_id(&tree.root, &tree.arena), Node::new("root", "", Depth::Exact(0)));
    assert_eq!(usize::from(tree.root), 1);
    assert!(children(tree.root, &tree.arena).is_empty());
    assert_eq!(descendants(tree.root, &tree.arena), vec![tree.root]);
    assert_eq!(ancestors(tree.root, &tree.arena), vec![tree.root]);
    assert_eq!(subtree_count(&tree.root, &tree.arena), 0);

    let deep = Tree::new_depth(Depth::Any);
    assert!(matches!(Node::from_id(&deep.root, &deep.arena).depth, Depth::Any));
}

#[test]
fn stored_node_is_detached_until_appended() {
    let mut tree = Tree::new();
    let id = Node::from_node_to_id(Node::new("a", "", Depth::Exact(1)), &mut tree.arena);
    assert_ne!(id, tree.root);
    assert_eq!(usize::from(id), 2);
    assert_eq!(tree.arena.len(), 2);
    assert_eq!(ancestors(id, &tree.arena), vec![id]);
    assert!(children(tree.root, &tree.arena).is_empty());
    assert_eq!(Node::from_id(&id, &tree.arena), Node::new("a", "", Depth::Exact(1)));

    let other = Node::from_data_to_id("b", "help", Depth::Exact(7), &mut tree.arena);
    assert_eq!(usize::from(other), 3);
    assert_eq!(Node::from_id(&other, &tree.arena), Node::new("b", "help", Depth::Exact(7)));
}

#[test]
fn append_child_walks() {
    // root -> a -> (b, c -> d), root -> e
    let mut tree = Tree::new();
    let root = tree.root;
    let a = append_child(&mut tree.arena, root, Node::new("a", "", Depth::Exact(1)));
    let b = append_child(&mut tree.arena, a, Node::new("b", "", Depth::Exact(2)));
    let c = append_child(&mut tree.arena, a, Node::new("c", "", Depth::Exact(2)));
    let d = append_child(&mut tree.arena, c, Node::new("d", "", Depth::Exact(3)));
    let e = append_child(&mut tree.arena, root, Node::new("e", "", Depth::Exact(1)));

    assert_eq!(children(root, &tree.arena), vec![a, e]);
    assert_eq!(children(a, &tree.arena), vec![b, c]);
    assert_eq!(children(c, &tree.arena), vec![d]);
    assert!(children(d, &tree.arena).is_empty());

    assert_eq!(ancestors(d, &tree.arena), vec![d, c, a, root]);
    assert_eq!(ancestors(e, &tree.arena), vec![e, root]);

    assert_eq!(descendants(root, &tree.arena), vec![root, a, b, c, d, e]);
    assert_eq!(descendants(a, &tree.arena), vec![a, b, c, d]);
    assert_eq!(descendants(c, &tree.arena), vec![c, d]);
    assert_eq!(descendants(b, &tree.arena), vec![b]);

    let indices: Vec<usize> = [root, a, b, c, d, e].iter().map(|id| usize::from(*id)).collect();
    assert_eq!(indices, vec![1, 2, 3, 4, 5, 6]);
    assert_eq!(tree.arena.len(), 6);
}

#[test]
fn subtree_count_counts_strict_descendants() {
    let mut tree = Tree::new();
    let root = tree.root;
    let a = append_child(&mut tree.arena, root, Node::new("a", "", Depth::Exact(1)));
    let b = append_child(&mut tree.arena, a, Node::new("b", "", Depth::Exact(2)));
    let c = append_child(&mut tree.arena, a, Node::new("c", "", Depth::Exact(2)));
    let d = append_child(&mut tree.arena, c, Node::new("d", "", Depth::Exact(3)));
    let e = append_child(&mut tree.arena, root, Node::new("e", "", Depth::Exact(1)));

    assert_eq!(subtree_count(&root, &tree.arena), 5);
    assert_eq!(subtree_count(&a, &tree.arena), 3);
    assert_eq!(subtree_count(&c, &tree.arena), 1);
    for leaf in [b, d, e] {
        assert_eq!(subtree_count(&leaf, &tree.arena), 0);
    }
}

#[test]
fn render_lists_nodes_in_preorder() {
    let mut tree = Tree::new();
    let root = tree.root;
    let a = append_child(&mut tree.arena, root, Node::new("a", "first", Depth::Exact(1)));
    append_child(&mut tree.arena, a, Node::new("b", "", Depth::Exact(2)));
    append_child(&mut tree.arena, root, Node::new("c", "", Depth::Any));

    assert_eq!(tree.render(), ">root\n\t>a: first\n\t\t>b\nc\n");
    assert_eq!(Tree::new().render(), ">root\n");
    assert_eq!(
        cli::render::render_node(&Node::new("x", "why", Depth::Exact(3))),
        "\t\t\t>x: why\n"
    );
}

#[test]
fn strict_descendants_are_the_nodes_with_that_ancestor() {
    // root -> a -> (b, c -> (d, e)), root -> f -> g
    let mut tree = Tree::new();
    let root = tree.root;
    let a = append_child(&mut tree.arena, root, Node::new("a", "", Depth::Exact(1)));
    let b = append_child(&mut tree.arena, a, Node::new("b", "", Depth::Exact(2)));
    let c = append_child(&mut tree.arena, a, Node::new("c", "", Depth::Exact(2)));
    let d = append_child(&mut tree.arena, c, Node::new("d", "", Depth::Exact(3)));
    let e = append_child(&mut tree.arena, c, Node::new("e", "", Depth::Exact(3)));
    let f = append_child(&mut tree.arena, root, Node::new("f", "", Depth::Exact(1)));
    let g = append_child(&mut tree.arena, f, Node::new("g", "", Depth::Exact(2)));
    let all = [root, a, b, c, d, e, f, g];

    for id in all {
        let below: Vec<_> = descendants(id, &tree.arena).into_iter().skip(1).collect();
        let expected: Vec<_> = all
            .iter()
            .copied()
            .filter(|other| *other != id && ancestors(*other, &tree.arena).contains(&id))
            .collect();
        assert_eq!(below, expected);
        assert_eq!(subtree_count(&id, &tree.arena), expected.len());
    }
    assert_eq!(subtree_count(&root, &tree.arena), 7);
    assert_eq!(subtree_count(&a, &tree.arena), 4);
    assert_eq!(subtree_count(&c, &tree.arena), 2);
    assert_eq!(subtree_count(&f, &tree.arena), 1);
}
