use fussr::git::{
    branch_name, commit_message_from_output, fetch_failure_message, fetch_from_remote_failure_message,
    get_all_files, get_dirty_files, incoming_range, lines, mark_incoming_changes, parse_remotes,
    parse_status, pull_failure_message, pull_from_remote_failure_message, push_failure_message,
    push_with_upstream_failure_message, repo_name, sort_by_path, upstream_target, INDEX_DELETED,
    INDEX_MODIFIED, INDEX_NEW, INDEX_RENAMED, INDEX_TYPECHANGE, IGNORED, WT_DELETED, WT_MODIFIED,
    WT_NEW, WT_RENAMED, WT_TYPECHANGE,
};
use fussr::types::{FileEntry, FileStatus};

fn paths(v: &[FileEntry]) -> Vec<&str> {
    v.iter().map(|f| f.path.as_str()).collect()
}

#[test]
fn status_flag_values_are_those_of_git2() {
    assert_eq!(INDEX_NEW, git2::Status::INDEX_NEW.bits());
    assert_eq!(INDEX_MODIFIED, git2::Status::INDEX_MODIFIED.bits());
    assert_eq!(INDEX_DELETED, git2::Status::INDEX_DELETED.bits());
    assert_eq!(INDEX_RENAMED, git2::Status::INDEX_RENAMED.bits());
    assert_eq!(INDEX_TYPECHANGE, git2::Status::INDEX_TYPECHANGE.bits());
    assert_eq!(WT_NEW, git2::Status::WT_NEW.bits());
    assert_eq!(WT_MODIFIED, git2::Status::WT_MODIFIED.bits());
    assert_eq!(WT_DELETED, git2::Status::WT_DELETED.bits());
    assert_eq!(WT_TYPECHANGE, git2::Status::WT_TYPECHANGE.bits());
    assert_eq!(WT_RENAMED, git2::Status::WT_RENAMED.bits());
    assert_eq!(IGNORED, git2::Status::IGNORED.bits());
}

#[test]
fn parse_status_maps_flags() {
    let s = parse_status(INDEX_NEW | WT_MODIFIED);
    assert!(s.is_staged && s.is_unstaged && !s.is_untracked && !s.is_gitignored);
    let u = parse_status(WT_NEW);
    assert!(u.is_untracked && !u.is_staged && !u.is_unstaged);
    let i = parse_status(IGNORED);
    assert!(i.is_gitignored && !i.is_dirty());
    let t = parse_status(INDEX_TYPECHANGE | WT_RENAMED);
    assert!(t.is_staged && t.is_unstaged);
    assert_eq!(parse_status(0), FileStatus::new());
}

#[test]
fn dirty_files_skip_pathless_entries_and_sort() {
    let entries = vec![
        (Some("b.txt".to_string()), WT_MODIFIED),
        (None, INDEX_NEW),
        (Some("a/z".to_string()), WT_NEW),
        (Some("a.txt".to_string()), INDEX_NEW),
    ];
    let files = get_dirty_files(entries);
    assert_eq!(paths(&files), vec!["a/z", "a.txt", "b.txt"]);
    assert!(files[0].status.is_untracked);
    assert!(files[1].status.is_staged);
    assert!(files[2].status.is_unstaged);
}

#[test]
fn sort_by_path_compares_components() {
    let v = vec![
        FileEntry::new("a.b".to_string(), FileStatus::new()),
        FileEntry::new("a/b".to_string(), FileStatus::staged()),
        FileEntry::new("A".to_string(), FileStatus::new()),
        FileEntry::new("a//b".to_string(), FileStatus::untracked()),
    ];
    let sorted = sort_by_path(v);
    assert_eq!(paths(&sorted), vec!["A", "a/b", "a//b", "a.b"]);
    assert!(sorted[1].status.is_staged);
}

#[test]
fn all_files_merge_index_and_untracked() {
    let index = vec!["src/a.rs".to_string(), "README".to_string(), "src/a.rs".to_string()];
    let dirty = vec![
        FileEntry::new("src/a.rs".to_string(), FileStatus::unstaged()),
        FileEntry::new("new.txt".to_string(), FileStatus::untracked()),
        FileEntry::new("gone.txt".to_string(), FileStatus::staged()),
    ];
    let all = get_all_files(index, dirty);
    assert_eq!(paths(&all), vec!["README", "new.txt", "src/a.rs"]);
    assert_eq!(all[0].status, FileStatus::new());
    assert!(all[1].status.is_untracked);
    assert!(all[2].status.is_unstaged);
}

#[test]
fn lines_split_on_newlines() {
    let ls = lines("a\nb\r\n\nc");
    let strs: Vec<String> = ls.iter().map(|l| l.iter().collect()).collect();
    assert_eq!(strs, vec!["a", "b", "", "c"]);
    assert_eq!(lines("x\n").len(), 1);
    assert_eq!(lines("").len(), 0);
}

#[test]
fn mark_incoming_marks_listed_paths() {
    let mut files = vec![
        FileEntry::new("a.txt".to_string(), FileStatus::new()),
        FileEntry::new("dir/b.txt".to_string(), FileStatus::staged()),
    ];
    mark_incoming_changes(&mut files, "dir/b.txt\nother\n");
    assert!(!files[0].status.has_incoming);
    assert!(files[1].status.has_incoming && files[1].status.is_staged);
}

#[test]
fn parse_remotes_trims_and_skips_blank_lines() {
    assert_eq!(parse_remotes("origin\n  upstream \n\n"), vec!["origin".to_string(), "upstream".to_string()]);
    assert!(parse_remotes("").is_empty());
}

#[test]
fn commit_message_from_output_trims_on_success() {
    assert_eq!(commit_message_from_output(true, "  fix bug\n\n"), Some("fix bug".to_string()));
    assert_eq!(commit_message_from_output(false, "fix"), None);
}

#[test]
fn repo_and_branch_names_fall_back() {
    assert_eq!(repo_name(Some("/home/u/project/")), "project");
    assert_eq!(repo_name(Some("/")), "unknown");
    assert_eq!(repo_name(None), "unknown");
    assert_eq!(branch_name(Some("main".to_string())), "main");
    assert_eq!(branch_name(None), "HEAD");
}

#[test]
fn remote_argument_texts() {
    assert_eq!(incoming_range("origin/main"), "HEAD...origin/main");
    assert_eq!(upstream_target("origin", "dev"), "origin/dev");
}

#[test]
fn fetch_failure_messages() {
    assert_eq!(
        fetch_failure_message("fatal: Could not read from remote repository."),
        "Cannot reach remote - check connection/auth"
    );
    assert_eq!(
        fetch_failure_message("fatal: 'x' does not appear to be a git repository"),
        "Remote not found. Add with: git remote add origin <url>"
    );
    assert_eq!(fetch_failure_message("boom"), "Fetch failed");
    assert_eq!(
        fetch_from_remote_failure_message("Could not read from remote", "up"),
        "Cannot reach 'up' - check connection/auth"
    );
    assert_eq!(
        fetch_from_remote_failure_message("does not appear to be a git repository", "up"),
        "Remote 'up' not found"
    );
    assert_eq!(fetch_from_remote_failure_message("", "up"), "Fetch from 'up' failed");
}

#[test]
fn pull_failure_messages() {
    assert_eq!(
        pull_failure_message("There is no tracking information for the current branch.", "dev"),
        "No upstream set. Run: git branch --set-upstream-to=origin/dev"
    );
    assert_eq!(pull_failure_message("no upstream", "x"), "No upstream set. Run: git branch --set-upstream-to=origin/x");
    assert_eq!(pull_failure_message("Could not read from remote", "x"), "Cannot reach remote - check connection/auth");
    assert_eq!(pull_failure_message("CONFLICT (content)", "x"), "Pull has conflicts - resolve manually");
    assert_eq!(pull_failure_message("Merge conflict in a", "x"), "Pull has conflicts - resolve manually");
    assert_eq!(pull_failure_message("fatal: not a git repository", "x"), "Not in a git repository");
    assert_eq!(pull_failure_message("?", "x"), "Pull failed");
    assert_eq!(
        pull_from_remote_failure_message("Could not read from remote", "o"),
        "Cannot reach 'o' - check connection/auth"
    );
    assert_eq!(pull_from_remote_failure_message("CONFLICT", "o"), "Pull has conflicts - resolve manually");
    assert_eq!(
        pull_from_remote_failure_message("does not appear to be a git repository", "o"),
        "Remote 'o' not found"
    );
    assert_eq!(pull_from_remote_failure_message("", "o"), "Pull from 'o' failed");
}

#[test]
fn push_failure_messages() {
    assert_eq!(
        push_failure_message("fatal: The current branch dev has no upstream branch.", "dev"),
        "No upstream set. Run: git push -u origin dev"
    );
    assert_eq!(
        push_failure_message("does not appear to be a git repository", "dev"),
        "Remote not found. Check your remote config"
    );
    assert_eq!(push_failure_message("! [rejected]", "dev"), "Push rejected - pull first or force push");
    assert_eq!(push_failure_message("Could not read from remote", "dev"), "Cannot reach remote - check connection/auth");
    assert_eq!(push_failure_message("", "dev"), "Push failed");
    assert_eq!(
        push_with_upstream_failure_message("Could not read from remote", "o"),
        "Cannot reach 'o' - check connection/auth"
    );
    assert_eq!(
        push_with_upstream_failure_message("does not appear to be a git repository", "o"),
        "Remote 'o' not found"
    );
    assert_eq!(push_with_upstream_failure_message("rejected", "o"), "Push rejected - pull first");
    assert_eq!(push_with_upstream_failure_message("", "o"), "Push to 'o' failed");
}
