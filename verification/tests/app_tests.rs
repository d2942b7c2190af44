use fussr::app::{App, GitRequest, Plan};
use fussr::cli::Args;
use fussr::keys::{Key, KeyAction, Modifiers};
use fussr::types::{AppMode, CommitStatus, FileEntry, FileStatus, InputMode};

const NONE: Modifiers = Modifiers { control: false, alt: false };
const ALT: Modifiers = Modifiers { control: false, alt: true };
const CTRL: Modifiers = Modifiers { control: true, alt: false };

fn entry(path: &str, status: FileStatus) -> FileEntry {
    FileEntry::new(path.to_string(), status)
}

fn sample() -> App {
    let files = vec![
        entry("src/app.rs", FileStatus::unstaged()),
        entry("src/main.rs", FileStatus::staged()),
        entry("README.md", FileStatus::untracked()),
        entry(".env", FileStatus::new()),
    ];
    App::new(false, "repo".to_string(), "main".to_string(), &files)
}

fn selected_name(app: &App) -> String {
    app.selected_item().map(|i| i.name.clone()).unwrap_or_default()
}

fn press(app: &mut App, key: Key) -> KeyAction {
    assert!(app.key_can_be_handled(key));
    app.handle_key(key, NONE, 0)
}

#[test]
fn new_app_shows_sorted_items() {
    let app = sample();
    let names: Vec<&str> = app.items.iter().map(|i| i.name.as_str()).collect();
    assert_eq!(names, vec![".env", "README.md", "src", "app.rs", "main.rs"]);
    assert_eq!(app.selected, 0);
    assert_eq!(app.mode, AppMode::Normal);
    assert!(matches!(app.input_mode, InputMode::Navigation));
    assert_eq!(app.repo_name, "repo");
    assert_eq!(app.branch_name, "main");
    assert!(!app.show_all);
}

#[test]
fn navigate_down_then_up_returns() {
    let mut app = sample();
    app.navigate_down();
    assert_eq!(app.selected, 1);
    app.navigate_up();
    assert_eq!(app.selected, 0);
    app.navigate_up();
    assert_eq!(app.selected, 0);
    for _ in 0..10 {
        app.navigate_down();
    }
    assert_eq!(app.selected, app.items.len() - 1);
}

#[test]
fn navigate_left_collapses_then_goes_to_parent() {
    let mut app = sample();
    app.selected = 3;
    assert_eq!(selected_name(&app), "app.rs");
    app.navigate_left();
    assert_eq!(selected_name(&app), "src");
    app.navigate_left();
    assert_eq!(selected_name(&app), "src");
    assert_eq!(app.items.len(), 3);
    app.navigate_right();
    assert_eq!(app.items.len(), 5);
    app.navigate_right();
    assert_eq!(selected_name(&app), "app.rs");
}

#[test]
fn toggle_selected_collapses_directory_and_keeps_selection_valid() {
    let mut app = sample();
    app.selected = 2;
    app.toggle_selected();
    assert_eq!(app.items.len(), 3);
    assert!(!app.items[2].is_expanded);
    app.selected = 0;
    app.toggle_selected();
    assert_eq!(app.items.len(), 3);
}

#[test]
fn toggle_dotfiles_twice_restores_items() {
    let mut app = sample();
    let before: Vec<String> = app.items.iter().map(|i| i.name.clone()).collect();
    app.toggle_dotfiles();
    assert!(app.hide_dotfiles);
    assert_eq!(app.items.len(), before.len() - 1);
    app.toggle_dotfiles();
    let after: Vec<String> = app.items.iter().map(|i| i.name.clone()).collect();
    assert_eq!(before, after);
}

#[test]
fn toggle_mode_switches_and_back() {
    let mut app = sample();
    app.toggle_mode();
    assert_eq!(app.mode, AppMode::Git);
    app.toggle_mode();
    assert_eq!(app.mode, AppMode::Normal);
    let mut m = AppMode::Git;
    m.toggle();
    assert_eq!(m, AppMode::Normal);
}

#[test]
fn search_jumps_to_prefix_match() {
    let mut app = sample();
    app.search_add_char('m', 1_000);
    assert_eq!(app.search_buffer, "m");
    assert_eq!(selected_name(&app), "main.rs");
    app.search_add_char('a', 2_000);
    assert_eq!(selected_name(&app), "main.rs");
}

#[test]
fn search_typing_then_backspace_restores_buffer() {
    let mut app = sample();
    app.search_add_char('s', 10);
    app.search_add_char('r', 20);
    assert_eq!(app.search_buffer, "sr");
    app.search_backspace(30);
    assert_eq!(app.search_buffer, "s");
    app.search_backspace(40);
    assert_eq!(app.search_buffer, "");
    assert_eq!(app.last_search_time, Some(40));
}

#[test]
fn search_buffer_resets_after_timeout() {
    let mut app = sample();
    app.search_add_char('s', 0);
    app.check_search_timeout(500_000_000);
    assert_eq!(app.search_buffer, "s");
    app.check_search_timeout(501_000_000);
    assert_eq!(app.search_buffer, "");
    assert_eq!(app.last_search_time, None);
    app.search_add_char('r', 2_000_000_000);
    app.search_add_char('e', 3_000_000_000);
    assert_eq!(app.search_buffer, "e");
}

#[test]
fn clear_search_empties_buffer() {
    let mut app = sample();
    app.search_add_char('x', 5);
    app.clear_search();
    assert_eq!(app.search_buffer, "");
    assert_eq!(app.last_search_time, None);
}

#[test]
fn fuzzy_jump_goes_to_best_simple_match() {
    let mut app = sample();
    app.fuzzy_jump("READ");
    assert_eq!(selected_name(&app), "README.md");
    app.fuzzy_jump("zzz");
    assert_eq!(selected_name(&app), "README.md");
    assert!(app.try_fuzzy_jump("mai"));
    assert_eq!(selected_name(&app), "main.rs");
}

#[test]
fn status_message_set_and_clear() {
    let mut app = sample();
    app.set_status("hello".to_string());
    assert_eq!(app.status_message.as_deref(), Some("hello"));
    app.clear_status();
    assert_eq!(app.status_message, None);
}

#[test]
fn stage_selected_plans_staging_of_modified_file() {
    let mut app = sample();
    app.selected = 3;
    let plan = app.stage_selected().expect("plan");
    assert_eq!(plan.request, GitRequest::StageFile("src/app.rs".to_string()));
    assert_eq!(plan.message.as_deref(), Some("Staged: src/app.rs"));
    assert!(plan.refresh);
    app.selected = 2;
    let plan = app.stage_selected().expect("plan");
    assert_eq!(plan.request, GitRequest::StageDirectory("src".to_string()));
}

#[test]
fn unstage_selected_plans_only_for_staged_files() {
    let mut app = sample();
    app.selected = 4;
    let plan = app.unstage_selected().expect("plan");
    assert_eq!(plan.request, GitRequest::UnstageFile("src/main.rs".to_string()));
    assert_eq!(plan.message.as_deref(), Some("Unstaged: src/main.rs"));
    app.selected = 3;
    assert!(app.unstage_selected().is_none());
    app.selected = 2;
    assert!(app.unstage_selected().is_none());
}

#[test]
fn stage_and_unstage_all_plans() {
    let app = sample();
    let s: Plan = app.stage_all();
    assert_eq!(s.request, GitRequest::StageAll);
    assert_eq!(s.message.as_deref(), Some("Staged all changes"));
    let u = app.unstage_all();
    assert_eq!(u.request, GitRequest::UnstageAll);
    assert_eq!(u.message.as_deref(), Some("Unstaged all files"));
}

#[test]
fn discard_and_delete_plans_carry_untracked_flag() {
    let mut app = sample();
    app.selected = 1;
    let d = app.discard_selected().expect("plan");
    assert_eq!(d.request, GitRequest::DiscardChanges { path: "README.md".to_string(), is_untracked: true });
    let r = app.delete_selected().expect("plan");
    assert_eq!(r.request, GitRequest::DeleteFile { path: "README.md".to_string(), is_untracked: true });
}

#[test]
fn remote_plans_set_progress_messages() {
    let mut app = sample();
    let f = app.fetch();
    assert_eq!(app.status_message.as_deref(), Some("Fetching..."));
    assert_eq!(f.request, GitRequest::Fetch);
    let p = app.pull();
    assert_eq!(app.status_message.as_deref(), Some("Pulling..."));
    assert_eq!(p.request, GitRequest::Pull);
    let q = app.push();
    assert_eq!(app.status_message.as_deref(), Some("Pushing..."));
    assert_eq!(q.request, GitRequest::Push);
    assert!(!q.refresh);
    assert_eq!(app.commit("msg").request, GitRequest::Commit("msg".to_string()));
    assert_eq!(app.commit_amend("msg").request, GitRequest::CommitAmend("msg".to_string()));
}

#[test]
fn rename_flow_builds_rename_request() {
    let mut app = sample();
    app.selected = 1;
    app.enter_rename_mode();
    match &app.input_mode {
        InputMode::Rename { buffer, cursor } => {
            assert_eq!(buffer, "README.md");
            assert_eq!(*cursor, 9);
        }
        _ => panic!("not renaming"),
    }
    for _ in 0..2 {
        press(&mut app, Key::Backspace);
    }
    press(&mut app, Key::Char('t'));
    press(&mut app, Key::Char('x'));
    press(&mut app, Key::Char('t'));
    let action = press(&mut app, Key::Tab);
    match action {
        KeyAction::Run(plan) => {
            assert_eq!(
                plan.request,
                GitRequest::RenameFile { from: "README.md".to_string(), to: "README.txt".to_string() }
            );
            assert_eq!(plan.message.as_deref(), Some("Renamed to: README.txt"));
            assert!(plan.then_navigation);
        }
        other => panic!("unexpected {:?}", other),
    }
}

#[test]
fn rename_cancel_returns_to_navigation() {
    let mut app = sample();
    app.enter_rename_mode();
    app.cancel_rename();
    assert!(matches!(app.input_mode, InputMode::Navigation));
}

#[test]
fn commit_flow_produces_request_and_finishes() {
    let mut app = sample();
    app.enter_commit_mode(false, None);
    press(&mut app, Key::Char('h'));
    press(&mut app, Key::Char('i'));
    let action = press(&mut app, Key::Enter);
    match action {
        KeyAction::Commit(req) => {
            assert_eq!(req.message, "hi");
            assert!(!req.amend);
        }
        other => panic!("unexpected {:?}", other),
    }
    app.commit_finished(true);
    match &app.input_mode {
        InputMode::Commit { status, .. } => assert_eq!(*status, CommitStatus::Success),
        _ => panic!("not committing"),
    }
    app.close_commit();
    assert!(matches!(app.input_mode, InputMode::Navigation));
}

#[test]
fn commit_with_blank_message_is_not_made() {
    let mut app = sample();
    app.enter_commit_mode(false, None);
    press(&mut app, Key::Char(' '));
    let action = press(&mut app, Key::Enter);
    assert_eq!(action, KeyAction::Nothing);
}

#[test]
fn amend_mode_starts_with_last_message() {
    let mut app = sample();
    app.enter_commit_mode(true, Some("previous".to_string()));
    match &app.input_mode {
        InputMode::Commit { buffer, cursor, amend, status } => {
            assert_eq!(buffer, "previous");
            assert_eq!(*cursor, 8);
            assert!(*amend);
            assert_eq!(*status, CommitStatus::Editing);
        }
        _ => panic!("not committing"),
    }
    app.cancel_commit();
    assert!(matches!(app.input_mode, InputMode::Navigation));
}

#[test]
fn navigation_keys_move_and_switch_modes() {
    let mut app = sample();
    press(&mut app, Key::Down);
    assert_eq!(app.selected, 1);
    press(&mut app, Key::Up);
    assert_eq!(app.selected, 0);
    assert_eq!(app.handle_key(Key::Char('g'), ALT, 0), KeyAction::Nothing);
    assert_eq!(app.mode, AppMode::Git);
    press(&mut app, Key::Char('j'));
    assert_eq!(app.selected, 1);
    press(&mut app, Key::Char('k'));
    assert_eq!(app.selected, 0);
    press(&mut app, Key::Char('q'));
    assert_eq!(app.mode, AppMode::Normal);
}

#[test]
fn git_mode_letters_ask_for_git_work() {
    let mut app = sample();
    app.toggle_mode();
    match press(&mut app, Key::Char('S')) {
        KeyAction::Run(plan) => assert_eq!(plan.request, GitRequest::StageAll),
        other => panic!("unexpected {:?}", other),
    }
    match press(&mut app, Key::Char('f')) {
        KeyAction::RunOrReport { plan, failure_prefix } => {
            assert_eq!(plan.request, GitRequest::Fetch);
            assert_eq!(failure_prefix, "Fetch failed: ");
        }
        other => panic!("unexpected {:?}", other),
    }
    assert_eq!(press(&mut app, Key::Char('M')), KeyAction::EnterAmendMode);
    press(&mut app, Key::Char('m'));
    assert!(matches!(app.input_mode, InputMode::Commit { .. }));
}

#[test]
fn ctrl_q_quits_from_navigation() {
    let mut app = sample();
    app.handle_key(Key::Char('q'), CTRL, 0);
    assert!(app.should_quit);
    assert_eq!(app.search_buffer, "q");
}

#[test]
fn normal_mode_letters_go_to_search() {
    let mut app = sample();
    press(&mut app, Key::Char('R'));
    assert_eq!(app.search_buffer, "R");
    press(&mut app, Key::Backspace);
    assert_eq!(app.search_buffer, "");
    press(&mut app, Key::Char('x'));
    press(&mut app, Key::Esc);
    assert_eq!(app.search_buffer, "");
}

#[test]
fn dot_key_toggles_dotfiles() {
    let mut app = sample();
    press(&mut app, Key::Char('.'));
    assert!(app.hide_dotfiles);
    assert_eq!(app.items[0].name, "README.md");
}

#[test]
fn refresh_files_keeps_collapsed_directories() {
    let mut app = sample();
    app.selected = 2;
    app.toggle_selected();
    assert_eq!(app.get_collapsed_paths(), vec!["src".to_string()]);
    let files = vec![entry("src/app.rs", FileStatus::new()), entry("src/new.rs", FileStatus::untracked())];
    app.refresh_files(&files, "repo2".to_string(), "dev".to_string());
    assert_eq!(app.repo_name, "repo2");
    assert_eq!(app.branch_name, "dev");
    assert_eq!(app.items.len(), 1);
    assert!(!app.items[0].is_expanded);
    app.update_branch_info("r".to_string(), "b".to_string());
    assert_eq!(app.branch_name, "b");
}

#[test]
fn restore_collapsed_paths_collapses_named_directories() {
    let mut app = sample();
    app.restore_collapsed_paths(&["src".to_string()]);
    assert!(!app.tree.children.iter().find(|c| c.name == "src").unwrap().is_expanded);
}

#[test]
fn args_getters_follow_flags() {
    let a = Args { show_all: true, full: false, print_only: false, interactive: true };
    assert!(a.show_all_files());
    assert!(a.is_interactive());
    let b = Args { show_all: false, full: true, print_only: true, interactive: false };
    assert!(b.show_all_files());
    assert!(!b.is_interactive());
}

#[test]
fn rename_to_same_name_makes_no_plan() {
    let mut app = sample();
    app.selected = 1;
    app.enter_rename_mode();
    let action = press(&mut app, Key::Enter);
    assert_eq!(action, KeyAction::Nothing);
    assert!(matches!(app.input_mode, InputMode::Navigation));
    assert!(app.apply_rename().is_none());
}

#[test]
fn j_and_k_navigate_in_normal_mode() {
    let mut app = sample();
    assert_eq!(app.mode, AppMode::Normal);
    press(&mut app, Key::Char('j'));
    assert_eq!(app.selected, 1);
    assert_eq!(app.search_buffer, "");
    press(&mut app, Key::Char('k'));
    assert_eq!(app.selected, 0);
    assert_eq!(app.search_buffer, "");
}

#[test]
fn ctrl_c_quits_without_typing() {
    let mut app = sample();
    assert_eq!(app.handle_key(Key::Char('c'), CTRL, 0), KeyAction::Nothing);
    assert!(app.should_quit);
    assert_eq!(app.search_buffer, "");
}

#[test]
fn navigate_right_stays_in_directory_without_shown_children() {
    let files = vec![entry("a/.env", FileStatus::unstaged()), entry("b/x", FileStatus::unstaged())];
    let mut app = App::new(false, "r".to_string(), "m".to_string(), &files);
    app.toggle_dotfiles();
    let names: Vec<&str> = app.items.iter().map(|i| i.name.as_str()).collect();
    assert_eq!(names, vec!["a", "b", "x"]);
    app.selected = 0;
    app.navigate_right();
    assert_eq!(app.selected, 0);
    app.selected = 1;
    app.navigate_right();
    assert_eq!(app.selected, 2);
}

#[test]
fn toggle_selected_twice_restores_items_and_selection() {
    let mut app = sample();
    app.selected = 2;
    let before: Vec<(String, bool)> = app.items.iter().map(|i| (i.path.clone(), i.is_expanded)).collect();
    app.toggle_selected();
    assert_eq!(app.selected, 2);
    assert!(!app.items[2].is_expanded);
    app.toggle_selected();
    let after: Vec<(String, bool)> = app.items.iter().map(|i| (i.path.clone(), i.is_expanded)).collect();
    assert_eq!(before, after);
    assert_eq!(app.selected, 2);
}
