use fussr::render::{
    branch, header_segments, help_segments, indent, item_segments, legend_segments, printed_lines,
    status_marks, tree_item_line, tree_lines, viewport, Mark, Segment, Tint,
};
use fussr::tree::{build_tree, flatten_tree};
use fussr::types::{AppMode, FileEntry, FileStatus, InputMode, SelectableItem};

fn texts(segs: &[Segment]) -> Vec<String> {
    segs.iter().map(|s| s.text.clone()).collect()
}

fn item(name: &str, is_file: bool, status: FileStatus, last: bool, ancestors: Vec<bool>) -> SelectableItem {
    SelectableItem {
        path: name.to_string(),
        name: name.to_string(),
        is_file,
        status,
        depth: ancestors.len(),
        is_expanded: true,
        is_last_sibling: last,
        ancestors_are_last: ancestors,
    }
}

#[test]
fn status_marks_in_display_order() {
    let mut s = FileStatus::new();
    s.has_incoming = true;
    s.is_staged = true;
    s.is_untracked = true;
    assert_eq!(status_marks(&s), vec![Mark::Staged, Mark::Untracked, Mark::Incoming]);
    assert!(status_marks(&FileStatus::new()).is_empty());
}

#[test]
fn indent_and_branch_text() {
    assert_eq!(indent(&vec![true, false]), "    \u{2502}   ");
    assert_eq!(branch(true), "\u{2514}\u{2500}\u{2500} ");
    assert_eq!(branch(false), "\u{251c}\u{2500}\u{2500} ");
}

#[test]
fn printed_item_line_has_colours() {
    let mut s = FileStatus::staged();
    s.is_gitignored = true;
    let it = item("f", true, s, true, vec![false]);
    assert_eq!(
        tree_item_line(&it),
        "\u{2502}   \u{2514}\u{2500}\u{2500} \x1b[90mf\x1b[0m\x1b[32m \u{2191}\x1b[0m"
    );
}

#[test]
fn printed_lines_start_with_root() {
    let files = vec![FileEntry::new("a/b".to_string(), FileStatus::new())];
    let items = flatten_tree(&build_tree(&files, false), false);
    let lines = printed_lines(&items);
    assert_eq!(
        lines,
        vec![
            ".".to_string(),
            "\u{2514}\u{2500}\u{2500} a".to_string(),
            "    \u{2514}\u{2500}\u{2500} b".to_string(),
        ]
    );
}

#[test]
fn viewport_keeps_selection_visible() {
    assert_eq!(viewport(0, 10, 5), (0, 5));
    assert_eq!(viewport(50, 10, 100), (45, 55));
    assert_eq!(viewport(98, 10, 100), (90, 100));
    assert_eq!(viewport(3, 0, 10), (3, 3));
    let (s, e) = viewport(7, 4, 8);
    assert!(s <= 7 && 7 < e);
}

#[test]
fn item_segments_for_directory_and_marks() {
    let mut s = FileStatus::unstaged();
    s.has_incoming = true;
    let it = item("d", false, s, false, vec![true]);
    let segs = item_segments(&it, false, &InputMode::Navigation);
    assert_eq!(
        texts(&segs),
        vec!["    ", "\u{251c}\u{2500}\u{2500} ", "\u{25bc} ", "d", " \u{2717}", " \u{2193}"]
    );
    assert_eq!(segs[4].tint, Tint::Red);
    assert_eq!(segs[5].tint, Tint::Blue);
    assert!(!segs[3].reversed);
}

#[test]
fn item_segments_highlight_and_rename_cursor() {
    let it = item("name", true, FileStatus::new(), true, vec![]);
    let segs = item_segments(&it, true, &InputMode::Navigation);
    assert!(segs[1].reversed);
    assert_eq!(segs[1].text, "name");
    let mode = InputMode::Rename { buffer: "abc".to_string(), cursor: 1 };
    let segs = item_segments(&it, true, &mode);
    assert_eq!(segs[1].text, "a\u{2588}bc");
    let end = InputMode::Rename { buffer: "abc".to_string(), cursor: 3 };
    assert_eq!(item_segments(&it, true, &end)[1].text, "abc\u{2588}");
    assert_eq!(item_segments(&it, false, &end)[1].text, "name");
    let mut ign = FileStatus::new();
    ign.is_gitignored = true;
    let grey = item("g", true, ign, true, vec![]);
    assert_eq!(item_segments(&grey, true, &InputMode::Navigation)[1].tint, Tint::DarkGray);
}

#[test]
fn header_shows_mode_and_message() {
    let segs = header_segments("repo", "main", AppMode::Normal, &None);
    assert_eq!(texts(&segs), vec!["repo", ":", "main"]);
    assert_eq!(segs[0].tint, Tint::Cyan);
    assert!(segs[0].bold);
    let segs = header_segments("repo", "main", AppMode::Git, &Some("done".to_string()));
    assert_eq!(texts(&segs), vec!["repo", ":", "main", " ", "[ GIT MODE ]", " - ", "done"]);
    assert_eq!(segs[6].tint, Tint::Green);
}

#[test]
fn help_line_depends_on_modes() {
    let rename = help_segments(&InputMode::Rename { buffer: String::new(), cursor: 0 }, AppMode::Normal);
    assert_eq!(rename[0].text, "RENAME: ");
    let search = help_segments(&InputMode::Search { buffer: "ab".to_string() }, AppMode::Git);
    assert_eq!(texts(&search), vec!["SEARCH: ", "ab"]);
    let git = help_segments(&InputMode::Navigation, AppMode::Git);
    assert_eq!(git[0].text, "GIT MODE: ");
    let normal = help_segments(&InputMode::Navigation, AppMode::Normal);
    assert_eq!(normal.len(), 8);
    assert!(normal[7].text.starts_with("=incoming | j/k:nav"));
    assert_eq!(legend_segments().len(), 8);
    assert_eq!(legend_segments()[7].text, "=incoming");
}

#[test]
fn tree_lines_show_root_then_window() {
    let files: Vec<FileEntry> = (0..6).map(|i| FileEntry::new(format!("f{}", i), FileStatus::new())).collect();
    let items = flatten_tree(&build_tree(&files, false), false);
    let lines = tree_lines(&items, 0, &InputMode::Navigation, 3);
    assert_eq!(lines.len(), 3);
    assert_eq!(texts(&lines[0]), vec!["."]);
    assert!(lines[1][1].reversed);
    let lines = tree_lines(&items, 5, &InputMode::Navigation, 3);
    assert_eq!(lines.len(), 3);
    assert_eq!(lines[2][1].text, "f5");
    assert!(lines[2][1].reversed);
}

#[test]
fn tree_lines_keep_last_selected_item_in_full_window() {
    let files: Vec<FileEntry> = (0..10).map(|i| FileEntry::new(format!("g{}", i), FileStatus::new())).collect();
    let items = flatten_tree(&build_tree(&files, false), false);
    let lines = tree_lines(&items, 9, &InputMode::Navigation, 10);
    assert_eq!(lines.len(), 10);
    assert_eq!(lines[9][1].text, "g9");
    assert!(lines[9][1].reversed);
    assert_eq!(lines[0][1].text, "g0");
}
