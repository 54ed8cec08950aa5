use diffcore::diff::FileDiff;
use diffcore::tree::build_file_tree;
use diffcore::tree::insert_into_tree;
use diffcore::tree::PathTreeNode;

fn diff_for(path: &str) -> FileDiff {
    FileDiff::from_contents(path, path, "", "x\n")
}

#[test]
fn test_tree_example() {
    let diffs = vec![diff_for("a/b.txt"), diff_for("a/c.txt"), diff_for("d.txt")];
    let root = build_file_tree(&diffs);
    assert_eq!(root.len(), 2);
    assert_eq!(root[0].0, "a");
    match &root[0].1 {
        PathTreeNode::Directory { name, children } => {
            assert_eq!(name, "a");
            assert_eq!(children.len(), 2);
            assert_eq!(children[0].0, "b.txt");
            assert!(matches!(children[0].1, PathTreeNode::File { diff_index: 0 }));
            assert_eq!(children[1].0, "c.txt");
            assert!(matches!(children[1].1, PathTreeNode::File { diff_index: 1 }));
        },
        PathTreeNode::File { .. } => panic!("expected a directory"),
    }
    assert_eq!(root[1].0, "d.txt");
    assert!(matches!(root[1].1, PathTreeNode::File { diff_index: 2 }));
}

#[test]
fn test_tree_children_sorted_regardless_of_insertion_order() {
    let diffs = vec![diff_for("z.txt"), diff_for("a.txt"), diff_for("m/q.txt")];
    let root = build_file_tree(&diffs);
    assert_eq!(root.len(), 3);
    assert_eq!(root[0].0, "a.txt");
    assert_eq!(root[1].0, "m");
    assert_eq!(root[2].0, "z.txt");
    assert!(matches!(root[0].1, PathTreeNode::File { diff_index: 1 }));
    assert!(matches!(root[2].1, PathTreeNode::File { diff_index: 0 }));
}

#[test]
fn test_empty_path_is_single_file_with_empty_name() {
    let diffs = vec![diff_for("")];
    let root = build_file_tree(&diffs);
    assert_eq!(root.len(), 1);
    assert_eq!(root[0].0, "");
    assert!(matches!(root[0].1, PathTreeNode::File { diff_index: 0 }));
}

#[test]
fn test_insert_into_tree_deep_chain() {
    let mut root: Vec<(String, PathTreeNode)> = Vec::new();
    let parts = vec!["x".to_string(), "y".to_string(), "z.txt".to_string()];
    insert_into_tree(&mut root, &parts, 0, 7);
    assert_eq!(root.len(), 1);
    assert_eq!(root[0].0, "x");
    match &root[0].1 {
        PathTreeNode::Directory { children, .. } => {
            assert_eq!(children.len(), 1);
            assert_eq!(children[0].0, "y");
            match &children[0].1 {
                PathTreeNode::Directory { children: inner, .. } => {
                    assert_eq!(inner.len(), 1);
                    assert_eq!(inner[0].0, "z.txt");
                    assert!(matches!(inner[0].1, PathTreeNode::File { diff_index: 7 }));
                },
                PathTreeNode::File { .. } => panic!("expected a directory"),
            }
        },
        PathTreeNode::File { .. } => panic!("expected a directory"),
    }
}

#[test]
fn test_insert_overwrites_directory_at_final_slot() {
    let mut root: Vec<(String, PathTreeNode)> = Vec::new();
    let deep = vec!["a".to_string(), "b.txt".to_string()];
    insert_into_tree(&mut root, &deep, 0, 0);
    let shallow = vec!["a".to_string()];
    insert_into_tree(&mut root, &shallow, 0, 1);
    assert_eq!(root.len(), 1);
    assert_eq!(root[0].0, "a");
    assert!(matches!(root[0].1, PathTreeNode::File { diff_index: 1 }));
}

#[test]
fn test_insert_blocked_by_file_is_noop() {
    let mut root: Vec<(String, PathTreeNode)> = Vec::new();
    let shallow = vec!["a".to_string()];
    insert_into_tree(&mut root, &shallow, 0, 0);
    let deep = vec!["a".to_string(), "b.txt".to_string()];
    insert_into_tree(&mut root, &deep, 0, 1);
    assert_eq!(root.len(), 1);
    assert_eq!(root[0].0, "a");
    assert!(matches!(root[0].1, PathTreeNode::File { diff_index: 0 }));
}

#[test]
fn test_insert_empty_parts_is_noop() {
    let mut root: Vec<(String, PathTreeNode)> = Vec::new();
    let single = vec!["a".to_string()];
    insert_into_tree(&mut root, &single, 0, 0);
    let empty: Vec<String> = Vec::new();
    insert_into_tree(&mut root, &empty, 0, 9);
    assert_eq!(root.len(), 1);
    assert_eq!(root[0].0, "a");
    assert!(matches!(root[0].1, PathTreeNode::File { diff_index: 0 }));
}
