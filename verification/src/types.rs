//! The data the tool works on: file statuses, tree nodes, display items and modes.
use vstd::prelude::*;
use crate::text::{copy_str, is_dot};

verus! {

/// Status indicators for a file in git.
#[derive(Debug, Clone, Copy, PartialEq, Eq, Structural)]
pub struct FileStatus {
    pub is_staged: bool,
    pub is_unstaged: bool,
    pub is_untracked: bool,
    pub has_incoming: bool,
    pub is_gitignored: bool,
}

/// The status with no flag set.
pub open spec fn clean_status() -> FileStatus {
    FileStatus {
        is_staged: false,
        is_unstaged: false,
        is_untracked: false,
        has_incoming: false,
        is_gitignored: false,
    }
}

/// The flag-wise union of two statuses.
pub open spec fn merged(a: FileStatus, b: FileStatus) -> FileStatus {
    FileStatus {
        is_staged: a.is_staged || b.is_staged,
        is_unstaged: a.is_unstaged || b.is_unstaged,
        is_untracked: a.is_untracked || b.is_untracked,
        has_incoming: a.has_incoming || b.has_incoming,
        is_gitignored: a.is_gitignored || b.is_gitignored,
    }
}

/// Every flag set in `a` is set in `b`.
pub open spec fn status_le(a: FileStatus, b: FileStatus) -> bool {
    &&& a.is_staged ==> b.is_staged
    &&& a.is_unstaged ==> b.is_unstaged
    &&& a.is_untracked ==> b.is_untracked
    &&& a.has_incoming ==> b.has_incoming
    &&& a.is_gitignored ==> b.is_gitignored
}

/// A file is dirty when it is staged, modified or untracked.
pub open spec fn dirty(s: FileStatus) -> bool {
    s.is_staged || s.is_unstaged || s.is_untracked
}

impl Default for FileStatus {
    fn default() -> (r: Self)
        ensures
            r == clean_status(),
    {
        FileStatus {
            is_staged: false,
            is_unstaged: false,
            is_untracked: false,
            has_incoming: false,
            is_gitignored: false,
        }
    }
}

impl FileStatus {
    /// The status with no flag set.
    pub fn new() -> (r: Self)
        ensures
            r == clean_status(),
    {
        FileStatus {
            is_staged: false,
            is_unstaged: false,
            is_untracked: false,
            has_incoming: false,
            is_gitignored: false,
        }
    }

    /// The status of a staged file.
    pub fn staged() -> (r: Self)
        ensures
            r == (FileStatus { is_staged: true, ..clean_status() }),
    {
        FileStatus { is_staged: true, ..FileStatus::new() }
    }

    /// The status of a modified, unstaged file.
    pub fn unstaged() -> (r: Self)
        ensures
            r == (FileStatus { is_unstaged: true, ..clean_status() }),
    {
        FileStatus { is_unstaged: true, ..FileStatus::new() }
    }

    /// The status of an untracked file.
    pub fn untracked() -> (r: Self)
        ensures
            r == (FileStatus { is_untracked: true, ..clean_status() }),
    {
        FileStatus { is_untracked: true, ..FileStatus::new() }
    }

    /// Merges the status flags of `other` into `self`.
    pub fn merge(&mut self, other: &FileStatus)
        ensures
            *final(self) == merged(*old(self), *other),
    {
        self.is_staged = self.is_staged || other.is_staged;
        self.is_unstaged = self.is_unstaged || other.is_unstaged;
        self.is_untracked = self.is_untracked || other.is_untracked;
        self.has_incoming = self.has_incoming || other.has_incoming;
        self.is_gitignored = self.is_gitignored || other.is_gitignored;
    }

    /// Whether the file has any modification.
    pub fn is_dirty(&self) -> (r: bool)
        ensures
            r == dirty(*self),
    {
        self.is_staged || self.is_unstaged || self.is_untracked
    }
}

/// Merging is commutative, associative and idempotent, no flag is ever lost,
/// and merging a dirty status in leaves a dirty status.
pub proof fn lemma_merge_laws(a: FileStatus, b: FileStatus, c: FileStatus)
    ensures
        merged(a, b) == merged(b, a),
        merged(merged(a, b), c) == merged(a, merged(b, c)),
        merged(a, a) == a,
        merged(a, clean_status()) == a,
        status_le(a, merged(a, b)),
        status_le(b, merged(a, b)),
        dirty(merged(a, b)) == (dirty(a) || dirty(b)),
{
}

/// A file entry reported by git: a path and its status.
#[derive(Debug, Clone)]
pub struct FileEntry {
    pub path: String,
    pub status: FileStatus,
}

impl FileEntry {
    /// A new entry.
    pub fn new(path: String, status: FileStatus) -> (r: Self)
        ensures
            r.path@ == path@,
            r.status == status,
    {
        FileEntry { path, status }
    }
}

/// Node in the file tree.
#[derive(Debug)]
pub struct TreeNode {
    pub name: String,
    pub full_path: String,
    pub is_file: bool,
    pub status: FileStatus,
    pub is_expanded: bool,
    pub children: Vec<TreeNode>,
}

impl TreeNode {
    /// An expanded, empty directory node.
    pub fn new_directory(name: String, full_path: String) -> (r: Self)
        ensures
            r.name@ == name@,
            r.full_path@ == full_path@,
            !r.is_file,
            r.status == clean_status(),
            r.is_expanded,
            r.children@.len() == 0,
    {
        TreeNode {
            name,
            full_path,
            is_file: false,
            status: FileStatus::new(),
            is_expanded: true,
            children: Vec::new(),
        }
    }

    /// A file node; files are always "expanded".
    pub fn new_file(name: String, full_path: String, status: FileStatus) -> (r: Self)
        ensures
            r.name@ == name@,
            r.full_path@ == full_path@,
            r.is_file,
            r.status == status,
            r.is_expanded,
            r.children@.len() == 0,
    {
        TreeNode { name, full_path, is_file: true, status, is_expanded: true, children: Vec::new() }
    }

    /// The root node ".".
    pub fn root() -> (r: Self)
        ensures
            is_dot(r.name@),
            is_dot(r.full_path@),
            !r.is_file,
            r.status == clean_status(),
            r.is_expanded,
            r.children@.len() == 0,
    {
        let name = copy_str(".");
        let full_path = copy_str(".");
        proof {
            reveal_strlit(".");
        }
        TreeNode {
            name,
            full_path,
            is_file: false,
            status: FileStatus::new(),
            is_expanded: true,
            children: Vec::new(),
        }
    }

    /// Toggles the expanded state; files are left unchanged.
    pub fn toggle_expanded(&mut self)
        ensures
            final(self).name == old(self).name,
            final(self).full_path == old(self).full_path,
            final(self).is_file == old(self).is_file,
            final(self).status == old(self).status,
            final(self).children == old(self).children,
            final(self).is_expanded == (if old(self).is_file {
                old(self).is_expanded
            } else {
                !old(self).is_expanded
            }),
    {
        if !self.is_file {
            self.is_expanded = !self.is_expanded;
        }
    }
}

/// The abstract content of a display item.
pub struct ItemView {
    pub path: Seq<char>,
    pub name: Seq<char>,
    pub is_file: bool,
    pub status: FileStatus,
    pub depth: usize,
    pub is_expanded: bool,
    pub is_last_sibling: bool,
    pub ancestors_are_last: Seq<bool>,
}

/// A flattened item for display and navigation.
#[derive(Debug, Clone)]
pub struct SelectableItem {
    pub path: String,
    pub name: String,
    pub is_file: bool,
    pub status: FileStatus,
    pub depth: usize,
    pub is_expanded: bool,
    pub is_last_sibling: bool,
    /// The "is last sibling" state of each ancestor, for drawing tree lines.
    pub ancestors_are_last: Vec<bool>,
}

impl View for SelectableItem {
    type V = ItemView;

    open spec fn view(&self) -> ItemView {
        ItemView {
            path: self.path@,
            name: self.name@,
            is_file: self.is_file,
            status: self.status,
            depth: self.depth,
            is_expanded: self.is_expanded,
            is_last_sibling: self.is_last_sibling,
            ancestors_are_last: self.ancestors_are_last@,
        }
    }
}

/// The display item of `node` at the given position.
pub open spec fn item_of(node: TreeNode, depth: usize, is_last: bool, ancestors: Seq<bool>) -> ItemView {
    ItemView {
        path: node.full_path@,
        name: node.name@,
        is_file: node.is_file,
        status: node.status,
        depth,
        is_expanded: node.is_expanded,
        is_last_sibling: is_last,
        ancestors_are_last: ancestors,
    }
}

/// The views of a sequence of items.
pub open spec fn items_view(items: Seq<SelectableItem>) -> Seq<ItemView> {
    items.map_values(|it: SelectableItem| it@)
}

impl SelectableItem {
    /// The display item for `node`.
    pub fn from_node(node: &TreeNode, depth: usize, is_last: bool, ancestors: Vec<bool>) -> (r: Self)
        ensures
            r@ == item_of(*node, depth, is_last, ancestors@),
    {
        SelectableItem {
            path: node.full_path.clone(),
            name: node.name.clone(),
            is_file: node.is_file,
            status: node.status,
            depth,
            is_expanded: node.is_expanded,
            is_last_sibling: is_last,
            ancestors_are_last: ancestors,
        }
    }
}

/// Application mode.
#[derive(Debug, Clone, Copy, PartialEq, Eq, Structural)]
pub enum AppMode {
    Normal,
    Git,
}

/// The other mode.
pub open spec fn other_mode(m: AppMode) -> AppMode {
    match m {
        AppMode::Normal => AppMode::Git,
        AppMode::Git => AppMode::Normal,
    }
}

impl AppMode {
    /// Switches between the normal and the git mode.
    pub fn toggle(&mut self)
        ensures
            *final(self) == other_mode(*old(self)),
    {
        *self = match self {
            AppMode::Normal => AppMode::Git,
            AppMode::Git => AppMode::Normal,
        };
    }
}

/// Toggling the mode twice gives the mode back, and toggling always changes it.
pub proof fn lemma_mode_toggle_involutive(m: AppMode)
    ensures
        other_mode(other_mode(m)) == m,
        other_mode(m) != m,
{
}

/// Status of a commit operation.
#[derive(Debug, Clone, Copy, PartialEq, Eq, Structural)]
pub enum CommitStatus {
    Editing,
    Committing,
    Success,
    Failed,
}

/// Status of a push operation.
#[derive(Debug, Clone, PartialEq, Eq)]
pub enum PushStatus {
    SelectRemote,
    Pushing,
    Success,
    Failed(String),
}

/// Status of a pull operation.
#[derive(Debug, Clone, PartialEq, Eq)]
pub enum PullStatus {
    SelectRemote,
    Pulling,
    Success,
    Failed(String),
}

/// Status of a fetch operation.
#[derive(Debug, Clone, PartialEq, Eq)]
pub enum FetchStatus {
    SelectRemote,
    Fetching,
    Success,
    Failed(String),
}

/// Status/step of a tag operation.
#[derive(Debug, Clone, PartialEq, Eq)]
pub enum TagStep {
    EnterName,
    EnterMessage,
    Creating,
    AskPush,
    Pushing,
    Success,
    Failed(String),
}

/// Input mode for special states.
#[derive(Debug, Clone, PartialEq, Eq)]
pub enum InputMode {
    Navigation,
    Rename { buffer: String, cursor: usize },
    Search { buffer: String },
    Commit { buffer: String, cursor: usize, amend: bool, status: CommitStatus },
    Push { remotes: Vec<String>, selected: usize, status: PushStatus },
    Pull { remotes: Vec<String>, selected: usize, status: PullStatus },
    Fetch { remotes: Vec<String>, selected: usize, status: FetchStatus },
    Tag { name: String, message: String, cursor: usize, existing_tags: Vec<String>, step: TagStep },
    Confirm { message: String, action: ConfirmAction },
}

/// An action waiting for confirmation.
#[derive(Debug, Clone, PartialEq, Eq)]
pub enum ConfirmAction {
    Delete(String),
    Discard(String),
    StageAll,
    UnstageAll,
}

} // verus!
