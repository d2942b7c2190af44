//! What each key does: the next state, and the git work left for the caller.
use vstd::prelude::*;
use crate::app::{
    App, AppView, ModeView, PlanView, Plan, CommitRequest, RequestView, app_wf, navigation,
    timeout_spec, search_add_char_spec, search_backspace_spec, clear_search_spec,
    navigate_down_spec, navigate_up_spec, navigate_left_spec, navigate_right_spec,
    toggle_selected_spec, reflattened, enter_rename_spec, apply_rename_spec, apply_commit_spec,
    enter_commit_spec, stage_selected_spec, unstage_selected_spec, discard_selected_spec,
    delete_selected_spec, plan_of, with_commit_status,
};
use crate::types::{AppMode, CommitStatus, InputMode, other_mode};
use crate::text::{
    at_char_boundary, insert_at_byte, remove_at_byte, utf8_len, byte_len, insert_char_at,
    remove_char_at, push_char, pop_char, copy_str, is_char_boundary_at,
};

verus! {

/// A key, as far as the tool tells keys apart.
#[derive(Debug, Clone, Copy, PartialEq, Eq, Structural)]
pub enum Key {
    Char(char),
    Backspace,
    Enter,
    Tab,
    Esc,
    Left,
    Right,
    Up,
    Down,
    Other,
}

/// The modifier keys held with a key.
#[derive(Debug, Clone, Copy, PartialEq, Eq, Structural)]
pub struct Modifiers {
    pub control: bool,
    pub alt: bool,
}

/// What the caller does after a key.
#[derive(Debug, Clone, PartialEq, Eq)]
pub enum KeyAction {
    /// Nothing.
    Nothing,
    /// Run the plan; a failure ends the program with the error.
    Run(Plan),
    /// Run the plan; a failure is shown as status `failure_prefix` followed by the error.
    RunOrReport { plan: Plan, failure_prefix: String },
    /// Enter commit input for amending, with the last commit's message.
    EnterAmendMode,
    /// Make the commit, then call `commit_finished` and read the files again on success.
    Commit(CommitRequest),
}

/// The abstract action.
pub enum ActionView {
    Nothing,
    Run(PlanView),
    RunOrReport { plan: PlanView, failure_prefix: Seq<char> },
    EnterAmendMode,
    Commit { message: Seq<char>, amend: bool },
}

impl View for KeyAction {
    type V = ActionView;

    open spec fn view(&self) -> ActionView {
        match self {
            KeyAction::Nothing => ActionView::Nothing,
            KeyAction::Run(p) => ActionView::Run(p@),
            KeyAction::RunOrReport { plan, failure_prefix } => ActionView::RunOrReport {
                plan: plan@,
                failure_prefix: failure_prefix@,
            },
            KeyAction::EnterAmendMode => ActionView::EnterAmendMode,
            KeyAction::Commit(c) => ActionView::Commit { message: c.message@, amend: c.amend },
        }
    }
}

/// Running the plan, if there is one.
pub open spec fn run_if_any(p: Option<PlanView>) -> ActionView {
    match p {
        Some(plan) => ActionView::Run(plan),
        None => ActionView::Nothing,
    }
}

/// An ASCII letter or digit.
pub open spec fn is_ascii_alnum(c: char) -> bool {
    ('0' <= c && c <= '9') || ('a' <= c && c <= 'z') || ('A' <= c && c <= 'Z')
}

/// A character that the search in Normal mode takes: letters, digits, '_'
/// and '-', but not the navigation keys 'j' and 'k'.
pub open spec fn is_search_char(c: char) -> bool {
    (is_ascii_alnum(c) || c == '_' || c == '-') && c != 'j' && c != 'k'
}

/// The key edits a text buffer without a byte position falling inside a
/// character (where inserting or removing would panic).
pub open spec fn edit_ok(buffer: Seq<char>, cursor: usize, key: Key) -> bool {
    match key {
        Key::Backspace => cursor > 0 ==> at_char_boundary(buffer, cursor - 1) && cursor - 1 < utf8_len(
            buffer,
        ),
        Key::Char(_) => at_char_boundary(buffer, cursor as int),
        _ => true,
    }
}

/// A text buffer and its byte cursor after a key: Backspace removes the
/// character before the cursor; Left and Right move the cursor by one byte
/// within the buffer; a character goes in at the cursor.
pub open spec fn edit_text(buffer: Seq<char>, cursor: usize, key: Key) -> (Seq<char>, usize) {
    match key {
        Key::Backspace => if cursor > 0 {
            (remove_at_byte(buffer, cursor - 1), (cursor - 1) as usize)
        } else {
            (buffer, cursor)
        },
        Key::Left => if cursor > 0 {
            (buffer, (cursor - 1) as usize)
        } else {
            (buffer, cursor)
        },
        Key::Right => if cursor < utf8_len(buffer) {
            (buffer, (cursor + 1) as usize)
        } else {
            (buffer, cursor)
        },
        Key::Char(c) => (insert_at_byte(buffer, cursor as int, c), (cursor + 1) as usize),
        _ => (buffer, cursor),
    }
}

/// The key can be handled without panicking in the current input mode.
pub open spec fn key_ok(v: AppView, key: Key) -> bool {
    match v.input_mode {
        ModeView::Rename { buffer, cursor } => edit_ok(buffer, cursor, key),
        ModeView::Commit { buffer, cursor, status, .. } => status == CommitStatus::Editing ==> edit_ok(
            buffer,
            cursor,
            key,
        ),
        _ => true,
    }
}

/// Navigation input. The search timeout is checked first. With Alt, 'g'
/// switches mode and 'n' enters rename input. In Normal mode, letters other
/// than 'j' and 'k', digits, '_' and '-' go to the search, and Backspace and Esc edit a
/// non-empty search. Otherwise: 'j'/Down, 'k'/Up, Left, Right and space clear
/// the search and move or toggle; '.' shows or hides dot files; in Git mode
/// 'q', 'Q' and Esc go back to Normal mode and the letters ask for git work.
pub open spec fn navigation_key_spec(v: AppView, key: Key, mods: Modifiers, now: u64) -> (AppView, ActionView) {
    let v0 = timeout_spec(v, now);
    let git = v0.mode == AppMode::Git;
    if mods.alt {
        if key == Key::Char('g') {
            (AppView { mode: other_mode(v0.mode), ..v0 }, ActionView::Nothing)
        } else if key == Key::Char('n') {
            (enter_rename_spec(v0), ActionView::Nothing)
        } else {
            (v0, ActionView::Nothing)
        }
    } else if !git && key is Char && is_search_char(key->Char_0) {
        (search_add_char_spec(v0, key->Char_0, now), ActionView::Nothing)
    } else if !git && key == Key::Backspace && v0.search_buffer.len() > 0 {
        (search_backspace_spec(v0, now), ActionView::Nothing)
    } else if !git && key == Key::Esc && v0.search_buffer.len() > 0 {
        (clear_search_spec(v0), ActionView::Nothing)
    } else {
        move_key_spec(v0, key)
    }
}

/// The keys that move, toggle or ask for git work, once the search has had its keys.
pub open spec fn move_key_spec(v0: AppView, key: Key) -> (AppView, ActionView) {
    if key == Key::Char('j') || key == Key::Down {
        (navigate_down_spec(clear_search_spec(v0)), ActionView::Nothing)
    } else if key == Key::Char('k') || key == Key::Up {
        (navigate_up_spec(clear_search_spec(v0)), ActionView::Nothing)
    } else if key == Key::Left {
        (navigate_left_spec(clear_search_spec(v0)), ActionView::Nothing)
    } else if key == Key::Right {
        (navigate_right_spec(clear_search_spec(v0)), ActionView::Nothing)
    } else if key == Key::Char(' ') {
        (toggle_selected_spec(clear_search_spec(v0)), ActionView::Nothing)
    } else if key == Key::Char('.') {
        (reflattened(AppView { hide_dotfiles: !v0.hide_dotfiles, ..v0 }), ActionView::Nothing)
    } else if v0.mode != AppMode::Git {
        (v0, ActionView::Nothing)
    } else {
        git_key_spec(v0, key)
    }
}

/// The keys of Git mode.
pub open spec fn git_key_spec(v0: AppView, key: Key) -> (AppView, ActionView) {
    if key == Key::Char('q') || key == Key::Char('Q') || key == Key::Esc {
        (AppView { mode: AppMode::Normal, ..v0 }, ActionView::Nothing)
    } else if key == Key::Char('a') {
        (v0, run_if_any(stage_selected_spec(v0)))
    } else if key == Key::Char('u') {
        (v0, run_if_any(unstage_selected_spec(v0)))
    } else if key == Key::Char('S') {
        (v0, ActionView::Run(plan_of(RequestView::StageAll, Some("Staged all changes"@))))
    } else if key == Key::Char('U') {
        (v0, ActionView::Run(plan_of(RequestView::UnstageAll, Some("Unstaged all files"@))))
    } else if key == Key::Char('x') || key == Key::Char('X') {
        (v0, run_if_any(discard_selected_spec(v0)))
    } else if key == Key::Char('r') {
        (v0, run_if_any(delete_selected_spec(v0)))
    } else if key == Key::Char('f') {
        (
            AppView { status_message: Some("Fetching..."@), ..v0 },
            ActionView::RunOrReport {
                plan: plan_of(RequestView::Fetch, Some("Fetch complete"@)),
                failure_prefix: "Fetch failed: "@,
            },
        )
    } else if key == Key::Char('l') {
        (
            AppView { status_message: Some("Pulling..."@), ..v0 },
            ActionView::RunOrReport {
                plan: plan_of(RequestView::Pull, Some("Pull complete"@)),
                failure_prefix: "Pull failed: "@,
            },
        )
    } else if key == Key::Char('p') {
        (
            AppView { status_message: Some("Pushing..."@), ..v0 },
            ActionView::RunOrReport {
                plan: PlanView {
                    request: RequestView::Push,
                    message: Some("Push complete"@),
                    refresh: false,
                    then_navigation: false,
                },
                failure_prefix: "Push failed: "@,
            },
        )
    } else if key == Key::Char('m') {
        (enter_commit_spec(v0, false, None), ActionView::Nothing)
    } else if key == Key::Char('M') {
        (v0, ActionView::EnterAmendMode)
    } else {
        (v0, ActionView::Nothing)
    }
}

/// Rename input: Esc leaves it; Tab and Enter apply the rename; the other
/// keys edit the buffer.
pub open spec fn rename_key_spec(v: AppView, key: Key) -> (AppView, ActionView) {
    match v.input_mode {
        ModeView::Rename { buffer, cursor } => if key == Key::Esc {
            (navigation(v), ActionView::Nothing)
        } else if key == Key::Tab || key == Key::Enter {
            (apply_rename_spec(v).0, run_if_any(apply_rename_spec(v).1))
        } else {
            let (b, c) = edit_text(buffer, cursor, key);
            (AppView { input_mode: ModeView::Rename { buffer: b, cursor: c }, ..v }, ActionView::Nothing)
        },
        _ => (v, ActionView::Nothing),
    }
}

/// Commit input: while editing, Esc leaves it, Enter asks for the commit and
/// the other keys edit the buffer; while committing keys do nothing; once
/// the commit succeeded or failed, any key closes the window.
pub open spec fn commit_key_spec(v: AppView, key: Key) -> (AppView, ActionView) {
    match v.input_mode {
        ModeView::Commit { buffer, cursor, amend, status } => match status {
            CommitStatus::Editing => if key == Key::Esc {
                (navigation(v), ActionView::Nothing)
            } else if key == Key::Enter {
                (
                    apply_commit_spec(v).0,
                    match apply_commit_spec(v).1 {
                        Some((m, a)) => ActionView::Commit { message: m, amend: a },
                        None => ActionView::Nothing,
                    },
                )
            } else {
                let (b, c) = edit_text(buffer, cursor, key);
                (
                    AppView {
                        input_mode: ModeView::Commit { buffer: b, cursor: c, amend, status },
                        ..v
                    },
                    ActionView::Nothing,
                )
            },
            CommitStatus::Committing => (v, ActionView::Nothing),
            _ => (navigation(v), ActionView::Nothing),
        },
        _ => (v, ActionView::Nothing),
    }
}

/// Search input: Esc leaves it, Backspace removes the last character, a
/// character is appended.
pub open spec fn search_key_spec(v: AppView, key: Key) -> AppView {
    match v.input_mode {
        ModeView::Search { buffer } => match key {
            Key::Esc => navigation(v),
            Key::Backspace => AppView {
                input_mode: ModeView::Search {
                    buffer: if buffer.len() > 0 {
                        buffer.drop_last()
                    } else {
                        buffer
                    },
                },
                ..v
            },
            Key::Char(c) => AppView { input_mode: ModeView::Search { buffer: buffer.push(c) }, ..v },
            _ => v,
        },
        _ => v,
    }
}

/// Confirmation input: 'y', 'Y', Esc, 'n' and 'N' leave it.
pub open spec fn confirm_key_spec(v: AppView, key: Key) -> AppView {
    if key == Key::Char('y') || key == Key::Char('Y') || key == Key::Esc || key == Key::Char('n')
        || key == Key::Char('N') {
        navigation(v)
    } else {
        v
    }
}

/// A key: Ctrl+C quits and does nothing else; Ctrl+Q asks to quit and the
/// key still goes on, as any other key, to the handler of the current input
/// mode; other input modes ignore keys.
pub open spec fn key_spec(v: AppView, key: Key, mods: Modifiers, now: u64) -> (AppView, ActionView) {
    if mods.control && key == Key::Char('c') {
        (AppView { should_quit: true, ..v }, ActionView::Nothing)
    } else {
        let v0 = if mods.control && key == Key::Char('q') {
            AppView { should_quit: true, ..v }
        } else {
            v
        };
        match v0.input_mode {
            ModeView::Navigation => navigation_key_spec(v0, key, mods, now),
            ModeView::Rename { .. } => rename_key_spec(v0, key),
            ModeView::Commit { .. } => commit_key_spec(v0, key),
            ModeView::Search { .. } => (search_key_spec(v0, key), ActionView::Nothing),
            ModeView::Confirm { .. } => (confirm_key_spec(v0, key), ActionView::Nothing),
            _ => (v0, ActionView::Nothing),
        }
    }
}

/// Law of the staging keys in Git mode, while navigating and with no
/// modifier held: 'u' unstages the selected item exactly when it is a staged
/// file, by its path, and otherwise asks for nothing; 'a' stages the
/// selected file by its path when it has working-tree changes (modified or
/// untracked) and the selected directory whole; neither key moves the
/// selection or changes the items.
pub proof fn lemma_git_staging_keys(v: AppView, now: u64)
    requires
        v.mode == AppMode::Git,
        v.input_mode == ModeView::Navigation,
        v.selected < v.items.len(),
    ensures
        ({
            let none = Modifiers { control: false, alt: false };
            let it = v.items[v.selected as int];
            let (wu, au) = key_spec(v, Key::Char('u'), none, now);
            let (wa, aa) = key_spec(v, Key::Char('a'), none, now);
            &&& au == (if it.is_file && it.status.is_staged {
                ActionView::Run(
                    PlanView {
                        request: RequestView::UnstageFile(it.path),
                        message: Some("Unstaged: "@ + it.path),
                        refresh: true,
                        then_navigation: false,
                    },
                )
            } else {
                ActionView::Nothing
            })
            &&& aa is Run
            &&& (it.is_file && (it.status.is_unstaged || it.status.is_untracked)) ==> aa->Run_0.request
                == RequestView::StageFile(it.path)
            &&& !it.is_file ==> aa->Run_0.request == RequestView::StageDirectory(it.path)
            &&& wu.items == v.items && wu.selected == v.selected
            &&& wa.items == v.items && wa.selected == v.selected
        }),
{
}

/// Whether `c` is an ASCII letter or digit.
fn is_ascii_alnum_exec(c: char) -> (r: bool)
    ensures
        r == is_ascii_alnum(c),
{
    ('0' <= c && c <= '9') || ('a' <= c && c <= 'z') || ('A' <= c && c <= 'Z')
}

/// Edits a text buffer with a key (see `edit_text`).
fn edit_buffer(buffer: &mut String, cursor: &mut usize, key: Key)
    requires
        edit_ok(old(buffer)@, *old(cursor), key),
    ensures
        (final(buffer)@, *final(cursor)) == edit_text(old(buffer)@, *old(cursor), key),
{
    match key {
        Key::Backspace => {
            if *cursor > 0 {
                remove_char_at(buffer, *cursor - 1);
                *cursor = *cursor - 1;
            }
        },
        Key::Left => {
            if *cursor > 0 {
                *cursor = *cursor - 1;
            }
        },
        Key::Right => {
            if *cursor < byte_len(buffer.as_str()) {
                *cursor = *cursor + 1;
            }
        },
        Key::Char(c) => {
            insert_char_at(buffer, *cursor, c);
            let n = byte_len(buffer.as_str());
            assert(crate::text::char_bytes(c).len() >= 1);
            *cursor = *cursor + 1;
        },
        _ => {},
    }
}

impl App {
    /// Whether `key` can be handled without a byte position falling inside
    /// a character of the buffer being edited (see `key_ok`).
    pub fn key_can_be_handled(&self, key: Key) -> (r: bool)
        ensures
            r == key_ok(self@, key),
    {
        match &self.input_mode {
            InputMode::Rename { buffer, cursor } => self.edit_can_be_done(buffer, *cursor, key),
            InputMode::Commit { buffer, cursor, status, .. } => {
                if *status == CommitStatus::Editing {
                    self.edit_can_be_done(buffer, *cursor, key)
                } else {
                    true
                }
            },
            _ => true,
        }
    }

    fn edit_can_be_done(&self, buffer: &String, cursor: usize, key: Key) -> (r: bool)
        ensures
            r == edit_ok(buffer@, cursor, key),
    {
        match key {
            Key::Backspace => {
                if cursor > 0 {
                    is_char_boundary_at(buffer.as_str(), cursor - 1) && cursor - 1 < byte_len(
                        buffer.as_str(),
                    )
                } else {
                    true
                }
            },
            Key::Char(_) => is_char_boundary_at(buffer.as_str(), cursor),
            _ => true,
        }
    }

    /// Handles a key in rename input (see `rename_key_spec`).
    pub fn handle_rename_key(&mut self, key: Key) -> (r: KeyAction)
        requires
            key_ok(old(self)@, key),
        ensures
            (final(self)@, r@) == rename_key_spec(old(self)@, key),
    {
        if let InputMode::Rename { .. } = &self.input_mode {
        } else {
            return KeyAction::Nothing;
        }
        if key == Key::Esc {
            self.cancel_rename();
            return KeyAction::Nothing;
        }
        if key == Key::Tab || key == Key::Enter {
            return match self.apply_rename() {
                Some(plan) => KeyAction::Run(plan),
                None => KeyAction::Nothing,
            };
        }
        let mut mode = InputMode::Navigation;
        std::mem::swap(&mut mode, &mut self.input_mode);
        match mode {
            InputMode::Rename { mut buffer, mut cursor } => {
                edit_buffer(&mut buffer, &mut cursor, key);
                self.input_mode = InputMode::Rename { buffer, cursor };
            },
            other => {
                self.input_mode = other;
            },
        }
        KeyAction::Nothing
    }

    /// Handles a key in commit input (see `commit_key_spec`).
    pub fn handle_commit_key(&mut self, key: Key) -> (r: KeyAction)
        requires
            key_ok(old(self)@, key),
        ensures
            (final(self)@, r@) == commit_key_spec(old(self)@, key),
    {
        let status = if let InputMode::Commit { status, .. } = &self.input_mode {
            *status
        } else {
            return KeyAction::Nothing;
        };
        match status {
            CommitStatus::Editing => {
                if key == Key::Esc {
                    self.cancel_commit();
                    KeyAction::Nothing
                } else if key == Key::Enter {
                    match self.apply_commit() {
                        Some(c) => KeyAction::Commit(c),
                        None => KeyAction::Nothing,
                    }
                } else {
                    let mut mode = InputMode::Navigation;
                    std::mem::swap(&mut mode, &mut self.input_mode);
                    match mode {
                        InputMode::Commit { mut buffer, mut cursor, amend, status } => {
                            edit_buffer(&mut buffer, &mut cursor, key);
                            self.input_mode = InputMode::Commit { buffer, cursor, amend, status };
                        },
                        other => {
                            self.input_mode = other;
                        },
                    }
                    KeyAction::Nothing
                }
            },
            CommitStatus::Committing => KeyAction::Nothing,
            _ => {
                self.close_commit();
                KeyAction::Nothing
            },
        }
    }

    /// Handles a key in search input (see `search_key_spec`).
    pub fn handle_search_key(&mut self, key: Key)
        ensures
            final(self)@ == search_key_spec(old(self)@, key),
    {
        let mut mode = InputMode::Navigation;
        std::mem::swap(&mut mode, &mut self.input_mode);
        match mode {
            InputMode::Search { mut buffer } => {
                match key {
                    Key::Esc => {
                        self.input_mode = InputMode::Navigation;
                        return ;
                    },
                    Key::Backspace => {
                        let _ = pop_char(&mut buffer);
                    },
                    Key::Char(c) => {
                        push_char(&mut buffer, c);
                    },
                    _ => {},
                }
                self.input_mode = InputMode::Search { buffer };
            },
            other => {
                self.input_mode = other;
            },
        }
    }

    /// Handles a key in confirmation input (see `confirm_key_spec`).
    pub fn handle_confirm_key(&mut self, key: Key)
        ensures
            final(self)@ == confirm_key_spec(old(self)@, key),
    {
        if key == Key::Char('y') || key == Key::Char('Y') || key == Key::Esc || key == Key::Char('n')
            || key == Key::Char('N') {
            self.input_mode = InputMode::Navigation;
        }
    }

    /// Handles a key in navigation input (see `navigation_key_spec`); `now`
    /// is the time in nanoseconds on the search clock.
    pub fn handle_navigation_key(&mut self, key: Key, mods: Modifiers, now: u64) -> (r: KeyAction)
        requires
            app_wf(old(self)@),
        ensures
            (final(self)@, r@) == navigation_key_spec(old(self)@, key, mods, now),
            app_wf(final(self)@),
    {
        self.check_search_timeout(now);
        if mods.alt {
            match key {
                Key::Char('g') => self.toggle_mode(),
                Key::Char('n') => self.enter_rename_mode(),
                _ => {},
            }
            return KeyAction::Nothing;
        }
        if self.mode == AppMode::Normal {
            match key {
                Key::Char(c) => {
                    if (is_ascii_alnum_exec(c) || c == '_' || c == '-') && c != 'j' && c != 'k' {
                        self.search_add_char(c, now);
                        return KeyAction::Nothing;
                    }
                },
                Key::Backspace => {
                    if !self.search_buffer.as_str().is_empty() {
                        self.search_backspace(now);
                        return KeyAction::Nothing;
                    }
                },
                Key::Esc => {
                    if !self.search_buffer.as_str().is_empty() {
                        self.clear_search();
                        return KeyAction::Nothing;
                    }
                },
                _ => {},
            }
        }
        self.handle_move_key(key)
    }

    /// Handles the keys that move, toggle or ask for git work (see `move_key_spec`).
    fn handle_move_key(&mut self, key: Key) -> (r: KeyAction)
        requires
            app_wf(old(self)@),
        ensures
            (final(self)@, r@) == move_key_spec(old(self)@, key),
            app_wf(final(self)@),
    {
        if key == Key::Char('j') || key == Key::Down {
            self.clear_search();
            self.navigate_down();
        } else if key == Key::Char('k') || key == Key::Up {
            self.clear_search();
            self.navigate_up();
        } else if key == Key::Left {
            self.clear_search();
            self.navigate_left();
        } else if key == Key::Right {
            self.clear_search();
            self.navigate_right();
        } else if key == Key::Char(' ') {
            self.clear_search();
            self.toggle_selected();
        } else if key == Key::Char('.') {
            self.toggle_dotfiles();
        } else if self.mode == AppMode::Git {
            return self.handle_git_key(key);
        }
        KeyAction::Nothing
    }

    /// Handles the keys of Git mode (see `git_key_spec`).
    fn handle_git_key(&mut self, key: Key) -> (r: KeyAction)
        requires
            app_wf(old(self)@),
        ensures
            (final(self)@, r@) == git_key_spec(old(self)@, key),
            app_wf(final(self)@),
    {
        if key == Key::Char('q') || key == Key::Char('Q') || key == Key::Esc {
            self.mode = AppMode::Normal;
        } else if key == Key::Char('a') {
            return match self.stage_selected() {
                Some(plan) => KeyAction::Run(plan),
                None => KeyAction::Nothing,
            };
        } else if key == Key::Char('u') {
            return match self.unstage_selected() {
                Some(plan) => KeyAction::Run(plan),
                None => KeyAction::Nothing,
            };
        } else if key == Key::Char('S') {
            return KeyAction::Run(self.stage_all());
        } else if key == Key::Char('U') {
            return KeyAction::Run(self.unstage_all());
        } else if key == Key::Char('x') || key == Key::Char('X') {
            return match self.discard_selected() {
                Some(plan) => KeyAction::Run(plan),
                None => KeyAction::Nothing,
            };
        } else if key == Key::Char('r') {
            return match self.delete_selected() {
                Some(plan) => KeyAction::Run(plan),
                None => KeyAction::Nothing,
            };
        } else if key == Key::Char('f') {
            let plan = self.fetch();
            return KeyAction::RunOrReport { plan, failure_prefix: copy_str("Fetch failed: ") };
        } else if key == Key::Char('l') {
            let plan = self.pull();
            return KeyAction::RunOrReport { plan, failure_prefix: copy_str("Pull failed: ") };
        } else if key == Key::Char('p') {
            let plan = self.push();
            return KeyAction::RunOrReport { plan, failure_prefix: copy_str("Push failed: ") };
        } else if key == Key::Char('m') {
            self.enter_commit_mode(false, None);
        } else if key == Key::Char('M') {
            return KeyAction::EnterAmendMode;
        }
        KeyAction::Nothing
    }

    /// Handles a key (see `key_spec`); `now` is the time in nanoseconds on
    /// the search clock.
    pub fn handle_key(&mut self, key: Key, mods: Modifiers, now: u64) -> (r: KeyAction)
        requires
            app_wf(old(self)@),
            key_ok(old(self)@, key),
        ensures
            (final(self)@, r@) == key_spec(old(self)@, key, mods, now),
            app_wf(final(self)@),
            mode_untouched(old(self).input_mode) ==> final(self).input_mode == old(self).input_mode,
    {
        if mods.control && key == Key::Char('c') {
            self.should_quit = true;
            return KeyAction::Nothing;
        }
        if mods.control && key == Key::Char('q') {
            self.should_quit = true;
        }
        match &self.input_mode {
            InputMode::Navigation => self.handle_navigation_key(key, mods, now),
            InputMode::Rename { .. } => self.handle_rename_key(key),
            InputMode::Commit { .. } => self.handle_commit_key(key),
            InputMode::Search { .. } => {
                self.handle_search_key(key);
                KeyAction::Nothing
            },
            InputMode::Confirm { .. } => {
                self.handle_confirm_key(key);
                KeyAction::Nothing
            },
            _ => KeyAction::Nothing,
        }
    }
}

/// The input modes whose keys are not handled here.
pub open spec fn mode_untouched(m: InputMode) -> bool {
    match m {
        InputMode::Push { .. } | InputMode::Pull { .. } | InputMode::Fetch { .. } | InputMode::Tag { .. } => true,
        _ => false,
    }
}

} // verus!
