use arena_tree::{NodeId, Tree};

/// Builds the six-node sample tree: root with children "a" and "b",
/// "a" with children "a1" and "a2", "b" with child "b1".
fn sample_tree() -> (Tree<String>, NodeId, NodeId, NodeId) {
    let mut t = Tree::new();
    let root = t.set_root("root".to_string());
    let a = t.add_child(root, "a".to_string());
    t.add_child(a, "a1".to_string());
    t.add_child(a, "a2".to_string());
    let b = t.add_child(root, "b".to_string());
    t.add_child(b, "b1".to_string());
    (t, root, a, b)
}

#[test]
fn build_and_print() {
    let mut t = Tree::new();
    let root = t.set_root("root");
    let a = t.add_child(root, "a");
    t.add_child(a, "a1");
    t.add_child(a, "a2");
    let b = t.add_child(root, "b");
    t.add_child(b, "b1");

    let dfs_labels: Vec<_> = t.dfs().into_iter().map(|id| t.get(id)).cloned().collect();
    assert_eq!(dfs_labels, vec!["root", "a", "a1", "a2", "b", "b1"]);

    println!("{}", t.fmt_tree(|s| s.to_string()));
}

#[test]
fn dfs_is_preorder() {
    let (t, _, _, _) = sample_tree();
    let labels: Vec<String> = t.dfs().into_iter().map(|id| t.get(id).clone()).collect();
    assert_eq!(labels, vec!["root", "a", "a1", "a2", "b", "b1"]);
}

#[test]
fn bfs_is_level_order() {
    let (t, _, _, _) = sample_tree();
    let labels: Vec<String> = t.bfs().into_iter().map(|id| t.get(id).clone()).collect();
    assert_eq!(labels, vec!["root", "a", "b", "a1", "a2", "b1"]);
}

#[test]
fn parent_of_new_child_is_the_parent() {
    let mut t = Tree::new();
    let root = t.set_root(0u32);
    let c1 = t.add_child(root, 1);
    let c2 = t.add_child(c1, 2);
    assert_eq!(t.parent(c1), Some(root));
    assert_eq!(t.parent(c2), Some(c1));
    assert_eq!(t.parent(root), None);
}

#[test]
fn child_appears_exactly_once_under_its_parent() {
    let (t, root, a, b) = sample_tree();
    for h in t.dfs() {
        if let Some(p) = t.parent(h) {
            let count = t.children(p).iter().filter(|c| **c == h).count();
            assert_eq!(count, 1);
        }
    }
    assert_eq!(t.children(root).as_slice(), &[a, b]);
}

#[test]
fn get_mut_changes_only_the_written_node() {
    let (mut t, root, a, b) = sample_tree();
    let before: Vec<(NodeId, String)> =
        t.dfs().into_iter().map(|id| (id, t.get(id).clone())).collect();
    *t.get_mut(b) = "beta".to_string();
    assert_eq!(t.get(b).as_str(), "beta");
    for (id, label) in before {
        if id == b {
            assert_eq!(t.get(id).as_str(), "beta");
        } else {
            assert_eq!(t.get(id), &label);
        }
    }
    assert_eq!(t.parent(b), Some(root));
    assert_eq!(t.get(a).as_str(), "a");
}

#[test]
fn children_keep_insertion_order() {
    let mut t = Tree::new();
    let root = t.set_root(0u64);
    let mut kids = Vec::new();
    for i in 1..=5u64 {
        kids.push(t.add_child(root, i));
    }
    assert_eq!(t.children(root).clone(), kids);
    let payloads: Vec<u64> = t.children(root).iter().map(|c| *t.get(*c)).collect();
    assert_eq!(payloads, vec![1, 2, 3, 4, 5]);
}

#[test]
fn render_matches_directory_style() {
    let (t, _, _, _) = sample_tree();
    let text = t.fmt_tree(|s: &String| s.clone());
    let expected = "root\n├── a\n│   ├── a1\n│   └── a2\n└── b\n    └── b1\n";
    assert_eq!(text, expected);
}

#[test]
fn empty_tree_yields_nothing() {
    let t: Tree<String> = Tree::new();
    assert!(t.dfs().is_empty());
    assert!(t.bfs().is_empty());
    assert_eq!(t.fmt_tree(|s: &String| s.clone()), "");
}

#[test]
fn root_only_tree() {
    let mut t = Tree::new();
    let root = t.set_root("solo".to_string());
    assert_eq!(t.dfs(), vec![root]);
    assert_eq!(t.bfs(), vec![root]);
    assert_eq!(t.fmt_tree(|s: &String| s.clone()), "solo\n");
}

#[test]
fn default_is_empty() {
    let t: Tree<u32> = Tree::default();
    assert!(t.dfs().is_empty());
    assert!(t.bfs().is_empty());
}

#[test]
fn handles_are_stable_and_comparable() {
    let mut t = Tree::new();
    let root = t.set_root('r');
    let a = t.add_child(root, 'a');
    let b = t.add_child(root, 'b');
    assert_ne!(a, b);
    let a_again = t.children(root)[0];
    assert_eq!(a, a_again);
    assert_eq!(*t.get(a_again), 'a');
    assert_eq!(NodeId(1), a);
}
