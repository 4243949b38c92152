use file_explorer::data::{Node, Tree, TreeIndex};
use file_explorer::list::{NodeView, TraverseTree, TreeView};

fn sample_tree() -> Tree {
    let mut tree = Tree::new(Node {
        is_dir: true,
        is_open: true,
        ..Node::new("/var")
    });
    tree.create(Node {
        is_dir: true,
        ..Node::new("/var/opt")
    });
    tree.create(Node::new("/var/opt/hidden"));
    tree.create(Node::new("/var/opt/hidden2"));
    tree.create(Node::new("/var/opt/hidden3"));
    tree.create(Node {
        is_dir: true,
        is_open: true,
        ..Node::new("/var/games")
    });
    tree.create(Node::new("/var/games/battleblock"));
    tree.create(Node::new("/var/games/spelunky"));
    tree.create(Node::new("/var/games/minesweeper"));
    tree
}

fn all_rows(tree: &Tree) -> Vec<(String, usize)> {
    let mut out = Vec::new();
    let mut t = TraverseTree::new(tree);
    while let Some(v) = t.next() {
        out.push((v.path.clone(), v.level));
    }
    out
}

#[test]
fn test_traversal() {
    let tree = sample_tree();

    let mut out = all_rows(&tree)
        .into_iter()
        .map(|(p, _)| p)
        .collect::<Vec<_>>();
    out.sort();

    assert_eq!(
        out,
        vec![
            "/var/games".to_string(),
            "/var/games/battleblock".to_string(),
            "/var/games/minesweeper".to_string(),
            "/var/games/spelunky".to_string(),
            "/var/opt".to_string(),
        ]
    );
}

#[test]
fn traversal_order_and_levels() {
    let tree = sample_tree();
    assert_eq!(
        all_rows(&tree),
        vec![
            ("/var/opt".to_string(), 0),
            ("/var/games".to_string(), 0),
            ("/var/games/battleblock".to_string(), 1),
            ("/var/games/spelunky".to_string(), 1),
            ("/var/games/minesweeper".to_string(), 1),
        ]
    );
}

#[test]
fn traversal_len_matches_root_count() {
    let mut tree = sample_tree();
    assert_eq!(all_rows(&tree).len(), tree.root().children_open_count);
    let opt = tree.create(Node::new("/var/opt")).unwrap();
    tree.set_open(opt, true);
    tree.create(Node::new("/var/opt/hidden/deep/file"));
    assert_eq!(all_rows(&tree).len(), tree.root().children_open_count);
    assert_eq!(all_rows(&tree).len(), 8);
}

#[test]
fn traversal_of_lone_root_is_empty() {
    let tree = Tree::new(Node {
        is_dir: true,
        is_open: true,
        ..Node::new("/var")
    });
    let mut t = TraverseTree::new(&tree);
    assert!(t.next().is_none());
    assert!(t.next().is_none());
}

#[test]
fn total_len_counts_root_row() {
    let view = TreeView::new(sample_tree());
    assert_eq!(view.total_len(), 6);
}

#[test]
fn full_slice_equals_traversal() {
    let tree = sample_tree();
    let expected = all_rows(&tree);
    let view = TreeView::new(tree);
    let rows = view
        .slice(0, view.total_len())
        .into_iter()
        .map(|v| (v.path, v.level))
        .collect::<Vec<_>>();
    assert_eq!(rows, expected);
}

#[test]
fn window_is_sub_range_of_traversal() {
    let tree = sample_tree();
    let expected = all_rows(&tree);
    let view = TreeView::new(tree);
    for k in 0..7 {
        for n in 0..7 {
            let rows = view
                .slice(k, n)
                .into_iter()
                .map(|v| (v.path, v.level))
                .collect::<Vec<_>>();
            let lo = k.min(expected.len());
            let hi = (k + n).min(expected.len());
            assert_eq!(rows, expected[lo..hi].to_vec());
        }
    }
    let rows = view.slice(2, 2);
    assert_eq!(rows[0].path, "/var/games/battleblock");
    assert_eq!(rows[0].ix, TreeIndex(6));
    assert_eq!(rows[1].path, "/var/games/spelunky");
}

#[test]
fn closed_subtree_is_hidden_and_restored() {
    let mut tree = sample_tree();
    let before = all_rows(&tree);
    let games = tree.create(Node::new("/var/games")).unwrap();
    tree.set_open(games, false);
    let closed = all_rows(&tree);
    assert_eq!(
        closed,
        vec![("/var/opt".to_string(), 0), ("/var/games".to_string(), 0)]
    );
    assert_eq!(TreeView::new(tree.clone()).total_len(), 3);
    tree.set_open(games, true);
    assert_eq!(all_rows(&tree), before);
    assert_eq!(TreeView::new(tree).total_len(), 6);
}

#[test]
fn file_name_is_last_component() {
    let view = TreeView::new(sample_tree());
    let rows = view.slice(0, 3);
    assert_eq!(rows[0].file_name(), Some("opt"));
    assert_eq!(rows[2].file_name(), Some("battleblock"));
}

#[test]
fn trailing_separator_names_the_same_node() {
    let mut tree = Tree::new(Node {
        is_dir: true,
        is_open: true,
        ..Node::new("/")
    });
    let a = tree.create(Node::new("/etc/")).unwrap();
    let b = tree.create(Node::new("/etc")).unwrap();
    assert_eq!(a, b);
    assert_eq!(tree.len(), 2);
    assert_eq!(tree.get(a).unwrap().path(), "/etc");
    let view = TreeView::new(tree);
    let rows = view.slice(0, 5);
    assert_eq!(rows.len(), 1);
    assert_eq!(rows[0].file_name(), Some("etc"));
}

fn row(path: &str) -> NodeView {
    NodeView {
        ix: TreeIndex(0),
        path: path.to_string(),
        is_dir: false,
        is_open: false,
        level: 0,
    }
}

#[test]
fn file_name_follows_path_components() {
    assert_eq!(row("/var/opt").file_name(), Some("opt"));
    assert_eq!(row("/etc/").file_name(), Some("etc"));
    assert_eq!(row("/etc//").file_name(), Some("etc"));
    assert_eq!(row("a/.").file_name(), Some("a"));
    assert_eq!(row("/a/./").file_name(), Some("a"));
    assert_eq!(row("name").file_name(), Some("name"));
    assert_eq!(row("/a/...").file_name(), Some("..."));
}

#[test]
fn file_name_missing_is_reported() {
    assert_eq!(row("/").file_name(), None);
    assert_eq!(row("").file_name(), None);
    assert_eq!(row(".").file_name(), None);
    assert_eq!(row("/a/..").file_name(), None);
    assert_eq!(row("..").file_name(), None);
    assert_eq!(row("/.").file_name(), None);
}
