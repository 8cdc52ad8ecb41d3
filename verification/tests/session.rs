use cli::navigation::{is_whitespace, parse_navigation, Navigation};
use cli::node::{Depth, Node};
use cli::session::{Cli, CliConfig, CliError, Reply, Verdict};
use cli::tree::{children, Tree};
use cli::yaml::{to_tree, Document};
use cli::NodeId;
use yaml_rust::{Yaml, YamlLoader};

const YAMLDOC: &str = "
    sat:
    - obc
      - ping
      - set
    - adcs
      - ping
      - set
    - pay
      - ping
      - take_pic
    
    gs:
    - radio
      - ping
      - set_freq
    - sys
      - config
    ";

fn document(yaml: &Yaml) -> Document {
    match yaml {
        Yaml::String(s) => Document::Text(s.clone()),
        Yaml::Array(items) => Document::List(items.iter().map(document).collect()),
        Yaml::Hash(entries) => {
            Document::Mapping(entries.iter().map(|(k, v)| (document(k), document(v))).collect())
        }
        _ => Document::Other,
    }
}

fn get_cli(yaml: &Yaml) -> Cli {
    let cmd_tree = to_tree(&document(yaml));

    let config = CliConfig::new("$: ", cmd_tree).expect("Invalid configuration");

    Cli::open(config)
}

fn text(s: &str) -> Document {
    Document::Text(s.to_string())
}

fn entry(key: &str, value: Document) -> (Document, Document) {
    (text(key), value)
}

/// root -> sat -> cmd -> (obc -> ping, adcs: attitude, pay), root -> gs
fn session() -> Cli {
    let grammar = to_tree(&Document::Mapping(vec![
        entry(
            "sat",
            Document::List(vec![Document::Mapping(vec![entry(
                "cmd",
                Document::List(vec![
                    Document::Mapping(vec![entry("obc", Document::List(vec![text("ping")]))]),
                    Document::Mapping(vec![entry("adcs", text("attitude"))]),
                    text("pay"),
                ]),
            )])]),
        ),
        entry("gs", text("ground station")),
    ]));
    Cli::open(CliConfig::new("$: ", grammar).unwrap())
}

fn find(tree: &Tree, path: &[&str]) -> NodeId {
    let mut at = tree.root;
    for name in path {
        at = children(at, &tree.arena)
            .into_iter()
            .find(|id| Node::from_id(id, &tree.arena).name == *name)
            .unwrap();
    }
    at
}

fn names(nodes: &[Node]) -> Vec<&str> {
    nodes.iter().map(|n| n.name.as_str()).collect()
}

#[test]
fn should_change_root() {
    assert_eq!(true, Cli::should_change_root("cd"));
    assert_ne!(true, Cli::should_change_root("c"));
    assert_ne!(true, Cli::should_change_root("d"));
    assert_ne!(true, Cli::should_change_root(""));
    assert_eq!(true, Cli::should_change_root("cd -"));
    assert_eq!(true, Cli::should_change_root("cd ."));
    assert_eq!(true, Cli::should_change_root("cd .."));
    assert_eq!(true, Cli::should_change_root("cd sat"));
    assert_eq!(true, Cli::should_change_root("cd /sat"));
    assert_eq!(true, Cli::should_change_root("cd /.."));
    assert_eq!(true, Cli::should_change_root("cd \t"));
    assert_eq!(true, Cli::should_change_root("cd\n"));
}

#[test]
fn change_root_normal() {
    let yaml = YamlLoader::load_from_str(&YAMLDOC).unwrap();
    let cli = get_cli(&yaml[0]);
    let arena = &cli.valid_cmds().arena;

    let (node, prompt) = cli.change_root("cd sat");
    assert_eq!(prompt, "sat/");
    assert_eq!(Node::from_id(&node, &arena), Node::new("sat", "", Depth::Exact(1)));

    let (node, prompt) = cli.change_root("cd -");
    assert_eq!(prompt, "");
    assert_eq!(Node::from_id(&node, &arena), Node::new("root", "", Depth::Exact(0)));
}

#[test]
fn empty_prompt_is_refused() {
    match CliConfig::new("", Tree::new()) {
        Err(CliError::InvalidConfig(why)) => assert_eq!(why, "Empty prompt not allowed"),
        Ok(_) => panic!("an empty prompt was accepted"),
    }
    assert!(CliConfig::new("$: ", Tree::new()).is_ok());
    assert!(CliConfig::new(" ", Tree::new()).is_ok());
}

#[test]
fn open_starts_at_the_root() {
    let cli = session();
    assert_eq!(cli.current_root(), cli.valid_cmds().root);
    assert_eq!(cli.prev_root(), None);
    assert_eq!(cli.prompt(), "$: ");
}

#[test]
fn exit_and_blank_lines() {
    assert!(Cli::should_exit("", 0));
    assert!(Cli::should_exit("anything", 0));
    assert!(Cli::should_exit("exit\n", 5));
    assert!(Cli::should_exit("quit\n", 5));
    assert!(!Cli::should_exit("exit", 4));
    assert!(!Cli::should_exit("quit \n", 6));
    assert!(!Cli::should_exit("\n", 1));
    assert!(Cli::should_new_prompt("\n"));
    assert!(!Cli::should_new_prompt(""));
    assert!(!Cli::should_new_prompt(" \n"));
}

#[test]
fn whitespace_is_what_std_calls_whitespace() {
    for code in 0u32..=0x10FFFF {
        if let Some(c) = char::from_u32(code) {
            assert_eq!(is_whitespace(c), c.is_whitespace(), "U+{:04X}", code);
        }
    }
}

#[test]
fn navigation_is_read_from_the_line() {
    let segments = |input: &str| -> Option<Vec<(String, usize)>> {
        match parse_navigation(input) {
            Navigation::Goto(path) => Some(
                path.into_iter()
                    .map(|t| match t.depth {
                        Depth::Exact(d) => (t.cmd, d),
                        Depth::Any => panic!("wildcard depth in a path"),
                    })
                    .collect(),
            ),
            _ => None,
        }
    };
    let seg = |name: &str, at: usize| (name.to_string(), at);

    for input in ["cd", "cd\n", "cd \t \n", "", "c", "dc sat\n", "sat\n", " cd sat\n"] {
        assert!(matches!(parse_navigation(input), Navigation::Stay), "{:?}", input);
    }
    // A path has to be set off from `cd` by a space.
    for input in ["cdsat\n", "cd\tsat\n", "cd/sat\n"] {
        assert!(matches!(parse_navigation(input), Navigation::Stay), "{:?}", input);
    }
    for input in ["cd -", "cd -\n", "cd-\n", "cd  - \n", "cd\t-\n"] {
        assert!(matches!(parse_navigation(input), Navigation::Back), "{:?}", input);
    }
    for input in ["cd ..", "cd ..\n", "cd..\n", "cd . .\n"] {
        assert!(matches!(parse_navigation(input), Navigation::Up), "{:?}", input);
    }
    assert_eq!(segments("cd sat\n"), Some(vec![seg("sat", 1)]));
    assert_eq!(segments("cd sat/cmd\n"), Some(vec![seg("sat", 1), seg("cmd", 2)]));
    assert_eq!(segments("cd sat/cmd/\n"), Some(vec![seg("sat", 1), seg("cmd", 2)]));
    assert_eq!(segments("cd /sat/cmd\n"), Some(vec![seg("sat", 1), seg("cmd", 2)]));
    assert_eq!(segments("cd /sat/\n"), Some(vec![seg("sat", 1)]));
    assert_eq!(segments("cd  sat / cmd \n"), Some(vec![seg("sat", 1), seg("cmd", 2)]));
    assert_eq!(segments("cd /\n"), Some(vec![seg("", 1)]));
    assert_eq!(segments("cd //\n"), Some(vec![seg("", 1)]));
    assert_eq!(segments("cd sat//\n"), Some(vec![seg("sat", 1), seg("", 2)]));
    assert_eq!(segments("cd ../sat\n"), Some(vec![seg("..", 1), seg("sat", 2)]));
    assert_eq!(segments("cd .\n"), Some(vec![seg(".", 1)]));
    assert_eq!(segments("cd --\n"), Some(vec![seg("--", 1)]));
}

#[test]
fn navigation_back_reference() {
    let mut cli = session();
    let root = cli.valid_cmds().root;
    let sat = find(cli.valid_cmds(), &["sat"]);

    cli.navigate("cd sat\n");
    assert_eq!(cli.current_root(), sat);
    assert_eq!(cli.prev_root(), Some(root));
    assert_eq!(cli.prompt(), "sat/$: ");

    cli.navigate("cd -\n");
    assert_eq!(cli.current_root(), root);
    assert_eq!(cli.prev_root(), Some(sat));
    assert_eq!(cli.prompt(), "$: ");

    cli.navigate("cd -\n");
    assert_eq!(cli.current_root(), sat);
    assert_eq!(cli.prev_root(), Some(root));
    assert_eq!(cli.prompt(), "sat/$: ");
}

#[test]
fn navigation_table() {
    let mut cli = session();
    let root = cli.valid_cmds().root;
    let sat = find(cli.valid_cmds(), &["sat"]);
    let cmd = find(cli.valid_cmds(), &["sat", "cmd"]);
    let obc = find(cli.valid_cmds(), &["sat", "cmd", "obc"]);
    let gs = find(cli.valid_cmds(), &["gs"]);

    // Nothing to go back or up to.
    cli.navigate("cd -\n");
    assert_eq!((cli.current_root(), cli.prev_root()), (root, None));
    cli.navigate("cd ..\n");
    assert_eq!((cli.current_root(), cli.prev_root()), (root, None));
    cli.navigate("cd\n");
    assert_eq!((cli.current_root(), cli.prev_root()), (root, None));

    cli.navigate("cd sat/cmd/obc/\n");
    assert_eq!((cli.current_root(), cli.prev_root()), (obc, Some(root)));
    assert_eq!(cli.prompt(), "sat/cmd/obc/$: ");

    cli.navigate("cd ..\n");
    assert_eq!((cli.current_root(), cli.prev_root()), (cmd, Some(obc)));
    assert_eq!(cli.prompt(), "sat/cmd/$: ");

    // No move, so nothing new is remembered.
    cli.navigate("cd\n");
    assert_eq!((cli.current_root(), cli.prev_root()), (cmd, Some(obc)));
    cli.navigate("cd sat/cmd\n");
    assert_eq!((cli.current_root(), cli.prev_root()), (cmd, Some(obc)));

    // Paths are resolved from the root of the grammar, wherever the
    // session stands, and as far as they match.
    cli.navigate("cd gs\n");
    assert_eq!((cli.current_root(), cli.prev_root()), (gs, Some(cmd)));
    assert_eq!(cli.prompt(), "gs/$: ");
    cli.navigate("cd /sat/nosuch/obc\n");
    assert_eq!((cli.current_root(), cli.prev_root()), (sat, Some(gs)));
    cli.navigate("cd nosuch\n");
    assert_eq!((cli.current_root(), cli.prev_root()), (root, Some(sat)));
    assert_eq!(cli.prompt(), "$: ");
}

#[test]
fn change_root_leaves_the_session_alone() {
    let cli = session();
    let root = cli.valid_cmds().root;
    let cmd = find(cli.valid_cmds(), &["sat", "cmd"]);
    let (node, prompt) = cli.change_root("cd sat/cmd\n");
    assert_eq!(node, cmd);
    assert_eq!(prompt, "sat/cmd/");
    assert_eq!(cli.current_root(), root);
    assert_eq!(cli.prev_root(), None);
    assert_eq!(cli.construct_prompt(None), "");
    assert_eq!(cli.construct_prompt(Some(&root)), "");
    assert_eq!(cli.construct_prompt(Some(&cmd)), "sat/cmd/");
}

#[test]
fn handle_input_accepts_complete_commands_only() {
    let cli = session();
    assert!(matches!(cli.handle_input("sat cmd obc ping\n"), Verdict::Accepted));
    assert!(matches!(cli.handle_input("sat cmd pay\n"), Verdict::Accepted));
    assert!(matches!(cli.handle_input("gs"), Verdict::Accepted));

    match cli.handle_input("sat cmd bogus\n") {
        Verdict::Usage(usage) => {
            assert_eq!(names(&usage.matched), vec!["sat", "cmd"]);
            assert_eq!(names(&usage.options), vec!["obc", "adcs", "pay"]);
            assert_eq!(usage.options[1].explanation.as_deref(), Some("attitude"));
            assert_eq!(usage.options[0].explanation, None);
        }
        Verdict::Accepted => panic!("a partial match was accepted"),
    }
    // Every token matched, but the walk ended above a leaf.
    match cli.handle_input("sat cmd\n") {
        Verdict::Usage(usage) => {
            assert_eq!(names(&usage.matched), vec!["sat", "cmd"]);
            assert_eq!(names(&usage.options), vec!["obc", "adcs", "pay"]);
        }
        Verdict::Accepted => panic!("an inner node was accepted"),
    }
    // The walk ended on a leaf, but a token was left over.
    match cli.handle_input("gs radio\n") {
        Verdict::Usage(usage) => {
            assert_eq!(names(&usage.matched), vec!["gs"]);
            assert!(usage.options.is_empty());
        }
        Verdict::Accepted => panic!("a line with a token left over was accepted"),
    }
    match cli.handle_input("bogus\n") {
        Verdict::Usage(usage) => {
            assert!(usage.matched.is_empty());
            assert_eq!(names(&usage.options), vec!["sat", "gs"]);
            assert_eq!(usage.options[1].explanation.as_deref(), Some("ground station"));
        }
        Verdict::Accepted => panic!("an unknown token was accepted"),
    }
}

#[test]
fn usage_of_a_record() {
    let cli = session();
    let tokens = cli::token::construct_clicmds("sat cmd obc", ' ');
    let (record, end) = cli.build_subtree(&tokens);
    assert_eq!(end, find(cli.valid_cmds(), &["sat", "cmd", "obc"]));
    let usage = cli.usage(&end, &record);
    assert_eq!(names(&usage.matched), vec!["sat", "cmd", "obc"]);
    assert_eq!(names(&usage.options), vec!["ping"]);
}

#[test]
fn step_routes_lines() {
    let mut cli = session();
    let root = cli.valid_cmds().root;
    let sat = find(cli.valid_cmds(), &["sat"]);

    assert!(matches!(cli.step("\n", 1), Reply::Again));
    assert!(matches!(cli.step("sat cmd obc ping\n", 17), Reply::Checked(Verdict::Accepted)));
    assert!(matches!(cli.step("sat\n", 4), Reply::Checked(Verdict::Usage(_))));
    assert_eq!(cli.current_root(), root);

    assert!(matches!(cli.step("cd sat\n", 7), Reply::Moved));
    assert_eq!(cli.current_root(), sat);
    assert_eq!(cli.prev_root(), Some(root));
    assert_eq!(cli.prompt(), "sat/$: ");

    // From `sat` the first token would have to lie at depth 2.
    match cli.step("cmd\n", 4) {
        Reply::Checked(Verdict::Usage(usage)) => {
            assert!(usage.matched.is_empty());
            assert_eq!(names(&usage.options), vec!["cmd"]);
        }
        _ => panic!("expected usage"),
    }

    assert!(matches!(cli.step("quit\n", 5), Reply::Exit));
    assert!(matches!(cli.step("exit\n", 5), Reply::Exit));
    assert!(matches!(cli.step("", 0), Reply::Exit));
    assert_eq!(cli.current_root(), sat);
    assert_eq!(cli.prev_root(), Some(root));
}

#[test]
fn usage_text() {
    let cli = session();
    match cli.handle_input("sat cmd bogus\n") {
        Verdict::Usage(usage) => assert_eq!(
            usage.render(),
            "Usage: sat cmd <cmd>\nWhere 'cmd' can be either of\n\t* obc\n\t* adcs: attitude\n\t* pay\n"
        ),
        Verdict::Accepted => panic!("a partial match was accepted"),
    }
    match cli.handle_input("gs what\n") {
        Verdict::Usage(usage) => {
            assert_eq!(usage.render(), "Usage: gs <cmd>\nWhere 'cmd' can be either of\n")
        }
        Verdict::Accepted => panic!("a partial match was accepted"),
    }
}

#[test]
fn ordinary_lines_are_taken() {
    assert!(Cli::takes_line(""));
    assert!(Cli::takes_line("sat cmd obc ping\n"));
    assert!(Cli::takes_line(&"x ".repeat(10_000)));
}

#[test]
fn back_after_a_navigation_that_was_no_move() {
    let mut cli = session();
    let root = cli.valid_cmds().root;
    let gs = find(cli.valid_cmds(), &["gs"]);

    // With nothing remembered, going back after staying leaves the session
    // where it was.
    cli.navigate("cd nosuch\n");
    cli.navigate("cd -\n");
    assert_eq!((cli.current_root(), cli.prev_root()), (root, None));

    // With something remembered, going back leads there instead.
    cli.navigate("cd gs\n");
    cli.navigate("cd -\n");
    assert_eq!((cli.current_root(), cli.prev_root()), (root, Some(gs)));
    cli.navigate("cd nosuch\n");
    assert_eq!((cli.current_root(), cli.prev_root()), (root, Some(gs)));
    cli.navigate("cd -\n");
    assert_eq!((cli.current_root(), cli.prev_root()), (gs, Some(root)));
    assert_eq!(cli.prompt(), "gs/$: ");
}
