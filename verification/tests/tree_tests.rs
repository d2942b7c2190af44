use fussr::path::{is_dotfile, paths_equal, with_file_name};
use fussr::tree::{build_tree, collect_collapsed, find_node_mut, flatten_tree, set_collapsed, toggle_expanded};
use fussr::types::{FileEntry, FileStatus, SelectableItem, TreeNode};

fn entry(path: &str, status: FileStatus) -> FileEntry {
    FileEntry::new(path.to_string(), status)
}

fn names(items: &[SelectableItem]) -> Vec<String> {
    items.iter().map(|i| i.name.clone()).collect()
}

#[test]
fn build_tree_nests_files_under_directories() {
    let files = vec![
        entry("src/main.rs", FileStatus::unstaged()),
        entry("README.md", FileStatus::new()),
        entry("src/lib.rs", FileStatus::staged()),
    ];
    let root = build_tree(&files, false);
    assert_eq!(root.name, ".");
    assert_eq!(root.full_path, ".");
    assert!(!root.is_file);
    let child_names: Vec<&str> = root.children.iter().map(|c| c.name.as_str()).collect();
    assert_eq!(child_names, vec!["README.md", "src"]);
    let src = &root.children[1];
    assert!(!src.is_file);
    assert_eq!(src.full_path, "src");
    let src_names: Vec<&str> = src.children.iter().map(|c| c.name.as_str()).collect();
    assert_eq!(src_names, vec!["lib.rs", "main.rs"]);
    assert_eq!(src.children[0].full_path, "src/lib.rs");
    assert!(src.children[0].status.is_staged);
    assert!(src.children[1].status.is_unstaged);
}

#[test]
fn build_tree_sorts_case_insensitively_and_stably() {
    let files = vec![
        entry("b", FileStatus::new()),
        entry("B2", FileStatus::new()),
        entry("a", FileStatus::new()),
        entry("C", FileStatus::new()),
    ];
    let root = build_tree(&files, false);
    let child_names: Vec<&str> = root.children.iter().map(|c| c.name.as_str()).collect();
    assert_eq!(child_names, vec!["a", "b", "B2", "C"]);
}

#[test]
fn build_tree_merges_status_of_repeated_path() {
    let files = vec![entry("x.txt", FileStatus::staged()), entry("x.txt", FileStatus::unstaged())];
    let root = build_tree(&files, false);
    assert_eq!(root.children.len(), 1);
    let s = root.children[0].status;
    assert!(s.is_staged && s.is_unstaged && !s.is_untracked);
}

#[test]
fn build_tree_hides_dot_paths_when_asked() {
    let files = vec![
        entry(".gitignore", FileStatus::new()),
        entry("a/.hidden/x", FileStatus::new()),
        entry("a/b", FileStatus::new()),
    ];
    let shown = build_tree(&files, false);
    assert_eq!(shown.children.len(), 2);
    let hidden = build_tree(&files, true);
    assert_eq!(hidden.children.len(), 1);
    assert_eq!(hidden.children[0].name, "a");
    assert_eq!(hidden.children[0].children.len(), 1);
    assert_eq!(hidden.children[0].children[0].name, "b");
}

#[test]
fn is_dotfile_checks_every_component() {
    assert!(is_dotfile(".env"));
    assert!(is_dotfile("a/.git/config"));
    assert!(!is_dotfile("a/b.c"));
    assert!(!is_dotfile("plain"));
}

#[test]
fn paths_compare_by_components() {
    assert!(paths_equal("a/b", "a//b"));
    assert!(paths_equal("a/b/", "a/b"));
    assert!(!paths_equal("a/b", "a/c"));
}

#[test]
fn with_file_name_replaces_the_last_component() {
    assert_eq!(with_file_name("dir/old.txt", "new.txt"), "dir/new.txt");
    assert_eq!(with_file_name("old.txt", "new.txt"), "new.txt");
}

#[test]
fn flatten_tree_lists_visible_items_with_positions() {
    let files = vec![entry("a/x", FileStatus::new()), entry("a/y", FileStatus::new()), entry("b", FileStatus::new())];
    let root = build_tree(&files, false);
    let items = flatten_tree(&root, false);
    assert_eq!(names(&items), vec!["a", "x", "y", "b"]);
    assert_eq!(items[0].depth, 0);
    assert_eq!(items[1].depth, 1);
    assert!(!items[1].is_last_sibling);
    assert!(items[2].is_last_sibling);
    assert_eq!(items[2].ancestors_are_last, vec![false]);
    assert!(items[3].is_last_sibling);
    assert_eq!(items[3].path, "b");
}

#[test]
fn flatten_tree_skips_children_of_collapsed_directories() {
    let files = vec![entry("a/x", FileStatus::new()), entry("b", FileStatus::new())];
    let mut root = build_tree(&files, false);
    assert!(toggle_expanded(&mut root, "a"));
    let items = flatten_tree(&root, false);
    assert_eq!(names(&items), vec!["a", "b"]);
    assert!(!items[0].is_expanded);
}

#[test]
fn flatten_tree_hides_dot_names() {
    let files = vec![entry(".env", FileStatus::new()), entry("b", FileStatus::new())];
    let root = build_tree(&files, false);
    assert_eq!(names(&flatten_tree(&root, false)), vec![".env", "b"]);
    assert_eq!(names(&flatten_tree(&root, true)), vec!["b"]);
}

#[test]
fn toggle_expanded_twice_restores_tree() {
    let files = vec![entry("a/x", FileStatus::new())];
    let mut root = build_tree(&files, false);
    let before = flatten_tree(&root, false);
    assert!(toggle_expanded(&mut root, "a"));
    assert!(toggle_expanded(&mut root, "a"));
    let after = flatten_tree(&root, false);
    assert_eq!(names(&before), names(&after));
    assert!(root.children[0].is_expanded);
}

#[test]
fn toggle_expanded_refuses_files_and_missing_paths() {
    let files = vec![entry("a/x", FileStatus::new())];
    let mut root = build_tree(&files, false);
    assert!(!toggle_expanded(&mut root, "a/x"));
    assert!(!toggle_expanded(&mut root, "nope"));
    assert!(root.children[0].children[0].is_expanded);
}

#[test]
fn find_node_mut_finds_by_path() {
    let files = vec![entry("a/x", FileStatus::new())];
    let mut root = build_tree(&files, false);
    {
        let node = find_node_mut(&mut root, "a/x").expect("node");
        assert_eq!(node.name, "x");
        node.status.is_staged = true;
    }
    assert!(root.children[0].children[0].status.is_staged);
    assert!(find_node_mut(&mut root, "a/y").is_none());
    assert_eq!(find_node_mut(&mut root, ".").map(|n| n.name.clone()), Some(".".to_string()));
}

#[test]
fn collapsed_paths_round_trip() {
    let files = vec![entry("a/x", FileStatus::new()), entry("b/y", FileStatus::new())];
    let mut root = build_tree(&files, false);
    toggle_expanded(&mut root, "b");
    let mut paths = Vec::new();
    collect_collapsed(&root, &mut paths);
    assert_eq!(paths, vec!["b".to_string()]);
    let mut fresh = build_tree(&files, false);
    for p in &paths {
        set_collapsed(&mut fresh, p);
    }
    assert!(fresh.children[0].is_expanded);
    assert!(!fresh.children[1].is_expanded);
}

#[test]
fn tree_node_constructors_and_sort() {
    let root = TreeNode::root();
    assert_eq!(root.name, ".");
    assert!(root.is_expanded && !root.is_file && root.children.is_empty());
    let dir = TreeNode::new_directory("d".to_string(), "p/d".to_string());
    assert!(!dir.is_file && dir.is_expanded);
    assert_eq!(dir.full_path, "p/d");
    let file = TreeNode::new_file("f".to_string(), "p/f".to_string(), FileStatus::untracked());
    assert!(file.is_file && file.status.is_untracked);
    let mut parent = TreeNode::new_directory("p".to_string(), "p".to_string());
    parent.children.push(file);
    parent.children.push(dir);
    parent.sort_children();
    let order: Vec<&str> = parent.children.iter().map(|c| c.name.as_str()).collect();
    assert_eq!(order, vec!["d", "f"]);
    let mut t = TreeNode::new_directory("q".to_string(), "q".to_string());
    t.toggle_expanded();
    assert!(!t.is_expanded);
}

#[test]
fn sort_children_uses_unicode_lowercase() {
    let mut parent = TreeNode::new_directory("p".to_string(), "p".to_string());
    parent.children.push(TreeNode::new_file("\u{c9}cole".to_string(), "p/e1".to_string(), FileStatus::new()));
    parent.children.push(TreeNode::new_file("\u{e9}b".to_string(), "p/e2".to_string(), FileStatus::new()));
    parent.children.push(TreeNode::new_file("z".to_string(), "p/z".to_string(), FileStatus::new()));
    parent.sort_children();
    let order: Vec<&str> = parent.children.iter().map(|c| c.name.as_str()).collect();
    assert_eq!(order, vec!["z", "\u{e9}b", "\u{c9}cole"]);
}

#[test]
fn selectable_item_from_node_copies_fields() {
    let node = TreeNode::new_file("f".to_string(), "d/f".to_string(), FileStatus::staged());
    let item = SelectableItem::from_node(&node, 2, true, vec![false, true]);
    assert_eq!(item.name, "f");
    assert_eq!(item.path, "d/f");
    assert!(item.is_file && item.is_last_sibling);
    assert_eq!(item.depth, 2);
    assert_eq!(item.ancestors_are_last, vec![false, true]);
    assert!(item.status.is_staged);
}

#[test]
fn file_status_flags_and_merge() {
    assert!(!FileStatus::new().is_dirty());
    assert!(FileStatus::staged().is_dirty());
    assert!(FileStatus::unstaged().is_dirty());
    assert!(FileStatus::untracked().is_dirty());
    let mut s = FileStatus::default();
    s.merge(&FileStatus::staged());
    s.merge(&FileStatus::untracked());
    assert!(s.is_staged && s.is_untracked && !s.is_unstaged);
    let mut incoming = FileStatus::new();
    incoming.has_incoming = true;
    assert!(!incoming.is_dirty());
}
