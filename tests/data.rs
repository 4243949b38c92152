use file_explorer::data::{Node, Tree, TreeIndex};

fn sample_tree() -> Tree {
    let mut tree = Tree::new(Node {
        is_dir: true,
        is_open: true,
        ..Node::new("/var")
    });
    tree.create(Node {
        is_dir: true,
        ..Node::new("/var/opt")
    });
    tree.create(Node::new("/var/opt/hidden"));
    tree.create(Node::new("/var/opt/hidden2"));
    tree.create(Node::new("/var/opt/hidden3"));
    tree.create(Node {
        is_dir: true,
        is_open: true,
        ..Node::new("/var/games")
    });
    tree.create(Node::new("/var/games/battleblock"));
    tree.create(Node::new("/var/games/spelunky"));
    tree.create(Node::new("/var/games/minesweeper"));
    tree
}

#[test]
fn test_update_node() {
    let mut tree = Tree::new(Node {
        is_dir: true,
        is_open: true,
        ..Node::new("/var")
    });

    tree.root_mut().is_open = true;

    tree.create(Node {
        is_dir: true,
        ..Node::new("/var/opt")
    });
    tree.create(Node::new("/var/opt/hidden"));
    tree.create(Node::new("/var/opt/hidden2"));
    tree.create(Node::new("/var/opt/hidden3"));
    tree.create(Node {
        is_dir: true,
        is_open: true,
        ..Node::new("/var/games")
    });
    tree.create(Node::new("/var/games/battleblock"));
    tree.create(Node::new("/var/games/spelunky"));
    tree.create(Node::new("/var/games/minesweeper"));

    assert_eq!(tree.root().children_open_count, 5);
}

#[test]
fn test_create_node() {
    let mut tree = Tree::new(Node {
        is_dir: true,
        ..Node::new("/var")
    });
    tree.create(Node::new("/var/opt"));
    tree.create(Node::new("/var/games"));
    tree.create(Node::new("/var/games/secret"));

    let nodes: Vec<Node> = (0..tree.len())
        .map(|i| tree.get(TreeIndex(i)).unwrap().clone())
        .collect();
    assert_eq!(
        nodes,
        vec![
            Node {
                is_dir: true,
                children_open_count: 2,
                children: vec![TreeIndex(1), TreeIndex(2)],
                ..Node::new("/var")
            },
            Node::new("/var/opt"),
            Node {
                children: vec![TreeIndex(3)],
                children_open_count: 1,
                ..Node::new("/var/games")
            },
            Node::new("/var/games/secret"),
        ]
    );
}

#[test]
fn create_twice_keeps_existing_node() {
    let mut tree = sample_tree();
    let first = tree.create(Node::new("/var/games")).unwrap();
    let len = tree.len();
    let again = tree.create(Node::new("/var/games")).unwrap();
    assert_eq!(first, again);
    assert_eq!(tree.len(), len);
    let games = tree.get(again).unwrap();
    assert!(games.is_dir);
    assert!(games.is_open);
    assert_eq!(games.children.len(), 3);
    assert_eq!(tree.root().children_open_count, 5);
}

#[test]
fn create_synthesizes_ancestors() {
    let mut tree = Tree::new(Node {
        is_dir: true,
        is_open: true,
        ..Node::new("/var")
    });
    let ix = tree.create(Node::new("/var/games/spelunky")).unwrap();
    assert_eq!(tree.len(), 3);
    assert_eq!(ix, TreeIndex(2));
    let root = tree.root();
    assert_eq!(root.children, vec![TreeIndex(1)]);
    let games = tree.get(TreeIndex(1)).unwrap();
    assert_eq!(games.path(), "/var/games");
    assert!(games.is_dir);
    assert!(!games.is_open);
    assert_eq!(games.children, vec![TreeIndex(2)]);
    let spelunky = tree.get(ix).unwrap();
    assert_eq!(spelunky.path(), "/var/games/spelunky");
    assert!(!spelunky.is_dir);
    assert_eq!(tree.root().children_open_count, 1);
    assert_eq!(games.children_open_count, 1);
}

#[test]
fn create_outside_root_is_refused() {
    let mut tree = sample_tree();
    let len = tree.len();
    assert_eq!(tree.create(Node::new("/usr/lib")), None);
    assert_eq!(tree.create(Node::new("/variable")), None);
    assert_eq!(tree.create(Node::new("/va")), None);
    assert_eq!(tree.len(), len);
    assert_eq!(tree.root().children_open_count, 5);
}

#[test]
fn create_root_path_gives_root() {
    let mut tree = sample_tree();
    assert_eq!(tree.create(Node::new("/var")), Some(TreeIndex::root()));
    assert_eq!(tree.len(), 9);
}

#[test]
fn create_under_slash_root() {
    let mut tree = Tree::new(Node {
        is_dir: true,
        is_open: true,
        ..Node::new("/")
    });
    let ix = tree.create(Node::new("/etc/hosts")).unwrap();
    assert_eq!(tree.get(TreeIndex(1)).unwrap().path(), "/etc");
    assert_eq!(tree.get(ix).unwrap().path(), "/etc/hosts");
    assert_eq!(tree.root().children_open_count, 1);
}

#[test]
fn get_out_of_range_is_none() {
    let mut tree = sample_tree();
    assert!(tree.get(TreeIndex(9)).is_none());
    assert!(tree.get_mut(TreeIndex(100)).is_none());
    assert!(tree.get(TreeIndex(8)).is_some());
}

#[test]
fn closing_and_reopening_a_directory() {
    let mut tree = sample_tree();
    let games = tree.create(Node::new("/var/games")).unwrap();
    tree.set_open(games, false);
    assert_eq!(tree.root().children_open_count, 2);
    tree.set_open(games, true);
    assert_eq!(tree.root().children_open_count, 5);
    let opt = tree.create(Node::new("/var/opt")).unwrap();
    tree.set_open(opt, true);
    assert_eq!(tree.root().children_open_count, 8);
}

#[test]
fn counts_follow_deep_toggles() {
    let mut tree = Tree::new(Node {
        is_dir: true,
        is_open: true,
        ..Node::new("/a")
    });
    let c = tree.create(Node::new("/a/b/c/d")).unwrap();
    assert_eq!(tree.root().children_open_count, 1);
    let b = tree.create(Node::new("/a/b")).unwrap();
    tree.set_open(b, true);
    assert_eq!(tree.root().children_open_count, 2);
    let bc = tree.create(Node::new("/a/b/c")).unwrap();
    tree.set_open(bc, true);
    assert_eq!(tree.root().children_open_count, 3);
    assert_eq!(tree.get(bc).unwrap().children, vec![c]);
    tree.set_open(b, false);
    assert_eq!(tree.root().children_open_count, 1);
}

#[test]
fn node_equality() {
    assert_eq!(Node::new("/x"), Node::new("/x"));
    assert_ne!(Node::new("/x"), Node::new("/y"));
    assert_ne!(
        Node::new("/x"),
        Node {
            children: vec![TreeIndex(1)],
            ..Node::new("/x")
        }
    );
}

#[test]
fn set_open_out_of_range_changes_nothing() {
    let mut tree = sample_tree();
    tree.set_open(TreeIndex(42), false);
    assert_eq!(tree.len(), 9);
    assert_eq!(tree.root().children_open_count, 5);
}

#[test]
fn create_keeps_existing_children_lists() {
    let mut tree = sample_tree();
    let games = tree.create(Node::new("/var/games")).unwrap();
    let before = tree.get(games).unwrap().children.clone();
    let ix = tree.create(Node::new("/var/games/new")).unwrap();
    let after = tree.get(games).unwrap().children.clone();
    assert_eq!(after[..before.len()], before[..]);
    assert_eq!(after[before.len()], ix);
}
