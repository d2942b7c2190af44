//! The application state: the tree, the items shown, the selection, the
//! modes and the search buffer, and every change made to them.
use vstd::prelude::*;
use crate::types::{
    AppMode, CommitStatus, ConfirmAction, FetchStatus, FileEntry, InputMode, ItemView, PullStatus,
    PushStatus, SelectableItem, TagStep, TreeNode, items_view, other_mode,
};
use crate::tree::{
    NodeView, build_spec, build_tree, flatten_spec, flatten_children, node_item, lemma_child_height,
    lemma_flatten_children_well_placed, collapse_all, collapse_path, collapsed_paths,
    collect_collapsed, collapsed_wherever, flatten_tree, flatten_tree_spec, height,
    lemma_collapse_all_keeps_each, lemma_collapse_all_keeps_shape,
    lemma_collapse_keeps_shape, lemma_flatten_tree_well_placed, set_collapsed, toggle_applies,
    toggle_expanded, toggled_tree, count_path, found_node, flipped, item_flipped, lemma_flatten_toggle,
    lemma_found_has_path, lemma_replace_then_find, lemma_toggle_twice, replace_found,
};
use crate::text::{
    is_dot, is_prefix, lowercase, utf8_len, to_lowercase, byte_len, push_char, pop_char, chars_of,
    chars_starts_with, copy_str, push_str, trim_spec, trim_str, str_eq, starts_with_dot,
};
use crate::path::{with_file_name, with_file_name_spec};
use crate::fuzzy::{
    checked_fuzzy_score, checked_match_score, fuzzy_score, match_score, score_fits, simple_fits,
    simple_score,
};
use crate::path::strings_view;

verus! {

/// The abstract progress of a push, pull or fetch through a remote.
pub enum ProgressView {
    SelectRemote,
    Running,
    Success,
    Failed(Seq<char>),
}

/// The abstract progress of a push.
pub open spec fn push_status_view(s: PushStatus) -> ProgressView {
    match s {
        PushStatus::SelectRemote => ProgressView::SelectRemote,
        PushStatus::Pushing => ProgressView::Running,
        PushStatus::Success => ProgressView::Success,
        PushStatus::Failed(m) => ProgressView::Failed(m@),
    }
}

/// The abstract progress of a pull.
pub open spec fn pull_status_view(s: PullStatus) -> ProgressView {
    match s {
        PullStatus::SelectRemote => ProgressView::SelectRemote,
        PullStatus::Pulling => ProgressView::Running,
        PullStatus::Success => ProgressView::Success,
        PullStatus::Failed(m) => ProgressView::Failed(m@),
    }
}

/// The abstract progress of a fetch.
pub open spec fn fetch_status_view(s: FetchStatus) -> ProgressView {
    match s {
        FetchStatus::SelectRemote => ProgressView::SelectRemote,
        FetchStatus::Fetching => ProgressView::Running,
        FetchStatus::Success => ProgressView::Success,
        FetchStatus::Failed(m) => ProgressView::Failed(m@),
    }
}

/// The abstract step of tagging.
pub enum TagStepView {
    EnterName,
    EnterMessage,
    Creating,
    AskPush,
    Pushing,
    Success,
    Failed(Seq<char>),
}

/// The abstract step of tagging of `s`.
pub open spec fn tag_step_view(s: TagStep) -> TagStepView {
    match s {
        TagStep::EnterName => TagStepView::EnterName,
        TagStep::EnterMessage => TagStepView::EnterMessage,
        TagStep::Creating => TagStepView::Creating,
        TagStep::AskPush => TagStepView::AskPush,
        TagStep::Pushing => TagStepView::Pushing,
        TagStep::Success => TagStepView::Success,
        TagStep::Failed(m) => TagStepView::Failed(m@),
    }
}

/// The abstract action waiting for confirmation.
pub enum ConfirmView {
    Delete(Seq<char>),
    Discard(Seq<char>),
    StageAll,
    UnstageAll,
}

/// The abstract action of `a`.
pub open spec fn confirm_view(a: ConfirmAction) -> ConfirmView {
    match a {
        ConfirmAction::Delete(p) => ConfirmView::Delete(p@),
        ConfirmAction::Discard(p) => ConfirmView::Discard(p@),
        ConfirmAction::StageAll => ConfirmView::StageAll,
        ConfirmAction::UnstageAll => ConfirmView::UnstageAll,
    }
}

/// The abstract input mode, with all it holds.
pub enum ModeView {
    Navigation,
    Rename { buffer: Seq<char>, cursor: usize },
    Search { buffer: Seq<char> },
    Commit { buffer: Seq<char>, cursor: usize, amend: bool, status: CommitStatus },
    Push { remotes: Seq<Seq<char>>, selected: usize, status: ProgressView },
    Pull { remotes: Seq<Seq<char>>, selected: usize, status: ProgressView },
    Fetch { remotes: Seq<Seq<char>>, selected: usize, status: ProgressView },
    Tag {
        name: Seq<char>,
        message: Seq<char>,
        cursor: usize,
        existing_tags: Seq<Seq<char>>,
        step: TagStepView,
    },
    Confirm { message: Seq<char>, action: ConfirmView },
}

/// The abstract input mode of `m`.
pub open spec fn mode_view(m: InputMode) -> ModeView {
    match m {
        InputMode::Navigation => ModeView::Navigation,
        InputMode::Rename { buffer, cursor } => ModeView::Rename { buffer: buffer@, cursor },
        InputMode::Search { buffer } => ModeView::Search { buffer: buffer@ },
        InputMode::Commit { buffer, cursor, amend, status } => ModeView::Commit {
            buffer: buffer@,
            cursor,
            amend,
            status,
        },
        InputMode::Push { remotes, selected, status } => ModeView::Push {
            remotes: strings_view(remotes@),
            selected,
            status: push_status_view(status),
        },
        InputMode::Pull { remotes, selected, status } => ModeView::Pull {
            remotes: strings_view(remotes@),
            selected,
            status: pull_status_view(status),
        },
        InputMode::Fetch { remotes, selected, status } => ModeView::Fetch {
            remotes: strings_view(remotes@),
            selected,
            status: fetch_status_view(status),
        },
        InputMode::Tag { name, message, cursor, existing_tags, step } => ModeView::Tag {
            name: name@,
            message: message@,
            cursor,
            existing_tags: strings_view(existing_tags@),
            step: tag_step_view(step),
        },
        InputMode::Confirm { message, action } => ModeView::Confirm {
            message: message@,
            action: confirm_view(action),
        },
    }
}

/// The main application state.
pub struct App {
    /// Repository name.
    pub repo_name: String,
    /// Current branch name.
    pub branch_name: String,
    /// Whether all files are shown or just dirty ones.
    pub show_all: bool,
    /// Whether dot files are hidden.
    pub hide_dotfiles: bool,
    /// Tree root.
    pub tree: TreeNode,
    /// Flattened items for display.
    pub items: Vec<SelectableItem>,
    /// Currently selected item index.
    pub selected: usize,
    /// Viewport offset for scrolling.
    pub viewport_offset: usize,
    /// Application mode (Normal or Git).
    pub mode: AppMode,
    /// Input mode (Navigation, Rename, Search, ...).
    pub input_mode: InputMode,
    /// Whether the app should quit.
    pub should_quit: bool,
    /// Status message to display.
    pub status_message: Option<String>,
    /// Fuzzy search buffer.
    pub search_buffer: String,
    /// Time of the last search keystroke, in nanoseconds on the caller's clock.
    pub last_search_time: Option<u64>,
}

/// The abstract application state.
pub struct AppView {
    pub repo_name: Seq<char>,
    pub branch_name: Seq<char>,
    pub show_all: bool,
    pub hide_dotfiles: bool,
    pub tree: NodeView,
    pub items: Seq<ItemView>,
    pub selected: usize,
    pub viewport_offset: usize,
    pub mode: AppMode,
    pub input_mode: ModeView,
    pub should_quit: bool,
    pub status_message: Option<Seq<char>>,
    pub search_buffer: Seq<char>,
    pub last_search_time: Option<u64>,
}

/// The view of an optional string.
pub open spec fn opt_view(s: Option<String>) -> Option<Seq<char>> {
    match s {
        Some(x) => Some(x@),
        None => None,
    }
}

impl View for App {
    type V = AppView;

    open spec fn view(&self) -> AppView {
        AppView {
            repo_name: self.repo_name@,
            branch_name: self.branch_name@,
            show_all: self.show_all,
            hide_dotfiles: self.hide_dotfiles,
            tree: self.tree@,
            items: items_view(self.items@),
            selected: self.selected,
            viewport_offset: self.viewport_offset,
            mode: self.mode,
            input_mode: mode_view(self.input_mode),
            should_quit: self.should_quit,
            status_message: opt_view(self.status_message),
            search_buffer: self.search_buffer@,
            last_search_time: self.last_search_time,
        }
    }
}

/// The state is consistent: the root is ".", the tree is not too deep for
/// depths to fit in a `usize`, the items are exactly those shown for the tree,
/// and the selection is on an item whenever there is one.
pub open spec fn app_wf(v: AppView) -> bool {
    &&& height(v.tree) <= usize::MAX + 1
    &&& is_dot(v.tree.name)
    &&& v.items == flatten_tree_spec(v.tree, v.hide_dotfiles)
    &&& (v.items.len() == 0 || v.selected < v.items.len())
}

/// The selection kept within `len` items: moved to the last one when past it.
pub open spec fn clamp(selected: usize, len: nat) -> usize {
    if selected >= len && len > 0 {
        (len - 1) as usize
    } else {
        selected
    }
}

/// The state with the items shown again for its tree and the selection clamped.
pub open spec fn reflattened(v: AppView) -> AppView {
    let items = flatten_tree_spec(v.tree, v.hide_dotfiles);
    AppView { items, selected: clamp(v.selected, items.len()), ..v }
}

/// The state with the tree rebuilt from `files`, keeping collapsed the
/// directories that were.
pub open spec fn rebuilt(v: AppView, files: Seq<FileEntry>) -> AppView {
    let tree = collapse_all(build_spec(files, v.hide_dotfiles), collapsed_paths(v.tree));
    reflattened(AppView { tree, ..v })
}

/// Law of reading the files again: each directory that was collapsed is
/// collapsed in the new tree too, wherever its path stands.
pub proof fn lemma_rebuilt_keeps_collapsed(v: AppView, files: Seq<FileEntry>, p: Seq<char>)
    requires
        collapsed_paths(v.tree).contains(p),
    ensures
        collapsed_wherever(rebuilt(v, files).tree, p),
{
    lemma_collapse_all_keeps_each(build_spec(files, v.hide_dotfiles), collapsed_paths(v.tree), p);
}

/// The state after toggling the selected directory.
pub open spec fn toggle_selected_spec(v: AppView) -> AppView {
    if v.selected < v.items.len() && !v.items[v.selected as int].is_file && toggle_applies(
        v.tree,
        v.items[v.selected as int].path,
    ) {
        reflattened(AppView { tree: toggled_tree(v.tree, v.items[v.selected as int].path), ..v })
    } else {
        v
    }
}

/// Law of toggling the selected directory: doing it twice gives the state
/// back (tree, items and selection), when no other node of the tree has the
/// directory's path.
pub proof fn lemma_toggle_selected_twice(v: AppView)
    requires
        app_wf(v),
        v.selected < v.items.len(),
        !v.items[v.selected as int].is_file,
        count_path(v.tree, v.items[v.selected as int].path) <= 1,
    ensures
        toggle_selected_spec(toggle_selected_spec(v)) == v,
{
    let t = v.tree;
    let sel = v.selected as int;
    let p = v.items[sel].path;
    lemma_flatten_toggle(t, 0, true, Seq::empty(), v.hide_dotfiles, p, sel);
    let f = found_node(t, p);
    lemma_found_has_path(t, p);
    assert(toggle_applies(t, p));
    let t1 = toggled_tree(t, p);
    assert(t1 == replace_found(t, p, flipped(f)));
    lemma_replace_then_find(t, p, flipped(f), f);
    let v1 = toggle_selected_spec(v);
    let items1 = flatten_tree_spec(t1, v.hide_dotfiles);
    assert(v1 == AppView { tree: t1, items: items1, ..v });
    assert(v1.items[sel] == item_flipped(v.items[sel]));
    assert(toggle_applies(t1, p));
    lemma_toggle_twice(t, p);
    let v2 = toggle_selected_spec(v1);
    assert(v2 == AppView { tree: t, items: v.items, ..v1 });
}

/// The last index before `k` of an item at depth `d`.
pub open spec fn last_at_depth(items: Seq<ItemView>, k: int, d: int) -> Option<int>
    decreases k,
{
    if k <= 0 {
        None
    } else if items[k - 1].depth == d {
        Some(k - 1)
    } else {
        last_at_depth(items, k - 1, d)
    }
}

proof fn lemma_last_at_depth_stops(items: Seq<ItemView>, lo: int, m: int, d: int)
    requires
        0 <= lo < m <= items.len(),
        items[lo].depth == d,
        forall|i: int| lo < i < m ==> (#[trigger] items[i]).depth != d,
    ensures
        last_at_depth(items, m, d) == Some(lo),
    decreases m,
{
    if m - 1 > lo {
        lemma_last_at_depth_stops(items, lo, m - 1, d);
    }
}

/// Law of moving left: the items of an expanded directory's subtree follow
/// its own item, so from the item of any of its children the nearest item
/// one level up, the one moving left selects, is the directory, whatever
/// items stand before and after.
pub proof fn lemma_left_reaches_parent(
    n: NodeView,
    depth: int,
    is_last: bool,
    anc: Seq<bool>,
    hide: bool,
    pre: Seq<ItemView>,
    post: Seq<ItemView>,
    k: int,
)
    requires
        0 <= depth,
        depth + height(n) <= usize::MAX + 1,
        !is_dot(n.name),
        !(hide && starts_with_dot(n.name)),
        n.is_expanded,
        1 <= k < flatten_spec(n, depth, is_last, anc, hide).len(),
        flatten_spec(n, depth, is_last, anc, hide)[k].depth == depth + 1,
    ensures
        last_at_depth(pre + flatten_spec(n, depth, is_last, anc, hide) + post, pre.len() + k, depth)
            == Some(pre.len() as int),
{
    let f = flatten_spec(n, depth, is_last, anc, hide);
    let cs = n.children;
    let rest = flatten_children(cs, cs.len() as int, depth + 1, anc.push(is_last), hide);
    assert(f == seq![node_item(n, depth, is_last, anc)] + rest);
    assert forall|i: int| 0 <= i < cs.len() implies #[trigger] height(cs[i]) <= (height(n) - 1) as nat by {
        lemma_child_height(n, i);
    }
    lemma_flatten_children_well_placed(cs, cs.len() as int, depth + 1, anc.push(is_last), (height(n) - 1) as nat, hide);
    let items = pre + f + post;
    let lo = pre.len() as int;
    assert(items[lo] == f[0]);
    assert forall|i: int| lo < i < lo + k implies (#[trigger] items[i]).depth != depth by {
        assert(items[i] == f[i - lo]);
        assert(f[i - lo] == rest[i - lo - 1]);
    }
    lemma_last_at_depth_stops(items, lo, lo + k, depth);
}

/// The first index from `k` on of an item at depth `d`, searching no further
/// than the first item above depth `d` (where the subtree whose children
/// stand at depth `d` ends).
pub open spec fn first_at_depth(items: Seq<ItemView>, k: int, d: int) -> Option<int>
    decreases items.len() - k,
{
    if k < 0 || k >= items.len() {
        None
    } else if items[k].depth == d {
        Some(k)
    } else if items[k].depth < d {
        None
    } else {
        first_at_depth(items, k + 1, d)
    }
}

/// The state after moving down.
pub open spec fn navigate_down_spec(v: AppView) -> AppView {
    if v.items.len() > 0 && v.selected + 1 < v.items.len() {
        AppView { selected: (v.selected + 1) as usize, ..v }
    } else {
        v
    }
}

/// The state after moving up.
pub open spec fn navigate_up_spec(v: AppView) -> AppView {
    if v.items.len() > 0 && v.selected > 0 {
        AppView { selected: (v.selected - 1) as usize, ..v }
    } else {
        v
    }
}

/// The state after moving left: an expanded directory is collapsed; otherwise
/// the selection goes to the nearest item above one level up, if any.
pub open spec fn navigate_left_spec(v: AppView) -> AppView {
    if v.items.len() == 0 {
        v
    } else {
        let it = v.items[v.selected as int];
        if !it.is_file && it.is_expanded {
            toggle_selected_spec(v)
        } else if it.depth == 0 {
            v
        } else {
            match last_at_depth(v.items, v.selected as int, it.depth - 1) {
                Some(i) => AppView { selected: i as usize, ..v },
                None => v,
            }
        }
    }
}

/// The state after moving right: a collapsed directory is expanded; an
/// expanded one hands the selection to its first child shown, if any.
pub open spec fn navigate_right_spec(v: AppView) -> AppView {
    if v.items.len() == 0 {
        v
    } else {
        let it = v.items[v.selected as int];
        if it.is_file {
            v
        } else if !it.is_expanded {
            toggle_selected_spec(v)
        } else {
            match first_at_depth(v.items, v.selected + 1, it.depth + 1) {
                Some(i) => AppView { selected: i as usize, ..v },
                None => v,
            }
        }
    }
}

/// Law: moving down and then up comes back to the same state, when there
/// was an item below the selection.
pub proof fn lemma_down_then_up(v: AppView)
    requires
        app_wf(v),
        v.selected + 1 < v.items.len() <= usize::MAX,
    ensures
        navigate_up_spec(navigate_down_spec(v)) == v,
{
    let d = navigate_down_spec(v);
    assert(d.selected == v.selected + 1);
    assert(navigate_up_spec(d) =~= v);
}

/// Law: moving up and then down comes back to the same state, when there
/// was an item above the selection.
pub proof fn lemma_up_then_down(v: AppView)
    requires
        app_wf(v),
        0 < v.selected < v.items.len(),
    ensures
        navigate_down_spec(navigate_up_spec(v)) == v,
{
}

/// The state after showing or hiding dot files.
pub open spec fn toggle_dotfiles_spec(v: AppView) -> AppView {
    reflattened(AppView { hide_dotfiles: !v.hide_dotfiles, ..v })
}

/// Law: showing or hiding dot files twice gives back the tree, the setting
/// and the items shown; the selection too, when it stood on an item in the
/// other setting as well.
pub proof fn lemma_toggle_dotfiles_twice(v: AppView)
    requires
        app_wf(v),
    ensures
        toggle_dotfiles_spec(toggle_dotfiles_spec(v)).tree == v.tree,
        toggle_dotfiles_spec(toggle_dotfiles_spec(v)).hide_dotfiles == v.hide_dotfiles,
        toggle_dotfiles_spec(toggle_dotfiles_spec(v)).items == v.items,
        toggle_dotfiles_spec(toggle_dotfiles_spec(v)).selected <= v.selected,
        v.selected < flatten_tree_spec(v.tree, !v.hide_dotfiles).len()
            ==> toggle_dotfiles_spec(toggle_dotfiles_spec(v)) == v,
{
}

impl App {
    /// A new state for the given repository names and files: mode Normal,
    /// navigation input, nothing selected beyond the first item.
    pub fn new(show_all: bool, repo_name: String, branch_name: String, files: &[FileEntry]) -> (r: Self)
        ensures
            app_wf(r@),
            r@ == rebuilt(
                AppView {
                    repo_name: repo_name@,
                    branch_name: branch_name@,
                    show_all,
                    hide_dotfiles: false,
                    tree: crate::tree::root_view(),
                    items: Seq::empty(),
                    selected: 0,
                    viewport_offset: 0,
                    mode: AppMode::Normal,
                    input_mode: ModeView::Navigation,
                    should_quit: false,
                    status_message: None,
                    search_buffer: Seq::empty(),
                    last_search_time: None,
                },
                files@,
            ),
    {
        let mut app = App {
            repo_name,
            branch_name,
            show_all,
            hide_dotfiles: false,
            tree: TreeNode::root(),
            items: Vec::new(),
            selected: 0,
            viewport_offset: 0,
            mode: AppMode::Normal,
            input_mode: InputMode::Navigation,
            should_quit: false,
            status_message: None,
            search_buffer: String::new(),
            last_search_time: None,
        };
        proof {
            crate::tree::lemma_view_fields(app.tree);
            reveal_strlit(".");
            assert(app.tree@ =~= crate::tree::root_view());
            assert(items_view(app.items@) =~= Seq::<ItemView>::empty());
        }
        app.rebuild_tree(files);
        app
    }

    /// The paths of the collapsed directories of the tree.
    pub fn get_collapsed_paths(&self) -> (r: Vec<String>)
        ensures
            strings_view(r@) == collapsed_paths(self.tree@),
    {
        let mut paths: Vec<String> = Vec::new();
        collect_collapsed(&self.tree, &mut paths);
        assert(strings_view(Seq::<String>::empty()) =~= Seq::<Seq<char>>::empty());
        assert(strings_view(paths@) =~= collapsed_paths(self.tree@));
        paths
    }

    /// Collapses again the directories at `paths`.
    pub fn restore_collapsed_paths(&mut self, paths: &[String])
        ensures
            final(self).tree@ == collapse_all(old(self).tree@, strings_view(paths@)),
            final(self).items == old(self).items,
            final(self).selected == old(self).selected,
            final(self).hide_dotfiles == old(self).hide_dotfiles,
            final(self)@ == (AppView { tree: final(self).tree@, ..old(self)@ }),
    {
        let mut i: usize = 0;
        assert(strings_view(paths@).subrange(0, 0) =~= Seq::<Seq<char>>::empty());
        while i < paths.len()
            invariant
                i <= paths@.len(),
                self.tree@ == collapse_all(old(self).tree@, strings_view(paths@).subrange(0, i as int)),
                self.items == old(self).items,
                self.selected == old(self).selected,
                self.hide_dotfiles == old(self).hide_dotfiles,
                self@ == (AppView { tree: self.tree@, ..old(self)@ }),
            decreases paths.len() - i,
        {
            set_collapsed(&mut self.tree, paths[i].as_str());
            let ghost sub = strings_view(paths@).subrange(0, i + 1);
            assert(sub.drop_last() =~= strings_view(paths@).subrange(0, i as int));
            assert(sub.last() == paths@[i as int]@);
            i = i + 1;
        }
        assert(strings_view(paths@).subrange(0, paths@.len() as int) =~= strings_view(paths@));
    }

    /// Shows the items of the tree again and keeps the selection in range.
    fn reflatten(&mut self)
        requires
            height(old(self).tree@) <= usize::MAX + 1,
            is_dot(old(self).tree@.name),
        ensures
            final(self)@ == reflattened(old(self)@),
            app_wf(final(self)@),
    {
        self.items = flatten_tree(&self.tree, self.hide_dotfiles);
        if self.selected >= self.items.len() && self.items.len() > 0 {
            self.selected = self.items.len() - 1;
        }
        proof {
            assert(items_view(self.items@).len() == self.items@.len());
        }
    }

    /// Rebuilds the tree from `files`, keeping collapsed the directories that were.
    fn rebuild_tree(&mut self, files: &[FileEntry])
        ensures
            final(self)@ == rebuilt(old(self)@, files@),
            app_wf(final(self)@),
    {
        let collapsed_paths = self.get_collapsed_paths();
        let ghost before = self@;
        self.tree = build_tree(files, self.hide_dotfiles);
        let ghost built = self.tree@;
        self.restore_collapsed_paths(collapsed_paths.as_slice());
        proof {
            lemma_collapse_all_keeps_shape(built, strings_view(collapsed_paths@));
            crate::tree::lemma_sort_keeps_name(crate::tree::add_all(crate::tree::root_view(), files@, self.hide_dotfiles));
            crate::tree::lemma_add_all_keeps_name(crate::tree::root_view(), files@, self.hide_dotfiles);
        }
        self.reflatten();
    }

    /// Rebuilds the tree from freshly read `files` and records the repository names.
    pub fn refresh_files(&mut self, files: &[FileEntry], repo_name: String, branch_name: String)
        ensures
            final(self)@ == (AppView {
                repo_name: repo_name@,
                branch_name: branch_name@,
                ..rebuilt(old(self)@, files@)
            }),
            app_wf(final(self)@),
    {
        self.rebuild_tree(files);
        self.update_branch_info(repo_name, branch_name);
    }

    /// Records the repository and branch names.
    pub fn update_branch_info(&mut self, repo_name: String, branch_name: String)
        ensures
            final(self)@ == (AppView { repo_name: repo_name@, branch_name: branch_name@, ..old(self)@ }),
    {
        self.repo_name = repo_name;
        self.branch_name = branch_name;
    }

    /// The selected item, if any.
    pub fn selected_item(&self) -> (r: Option<&SelectableItem>)
        ensures
            (r is Some) == (self.selected < self.items@.len()),
            r is Some ==> *r.unwrap() == self.items@[self.selected as int],
    {
        if self.selected < self.items.len() {
            Some(&self.items[self.selected])
        } else {
            None
        }
    }

    /// Moves the selection down.
    pub fn navigate_down(&mut self)
        requires
            app_wf(old(self)@),
        ensures
            final(self)@ == navigate_down_spec(old(self)@),
            app_wf(final(self)@),
    {
        if self.items.len() == 0 {
            return;
        }
        if self.selected + 1 < self.items.len() {
            self.selected = self.selected + 1;
        }
    }

    /// Moves the selection up.
    pub fn navigate_up(&mut self)
        requires
            app_wf(old(self)@),
        ensures
            final(self)@ == navigate_up_spec(old(self)@),
            app_wf(final(self)@),
    {
        if self.items.len() == 0 {
            return;
        }
        if self.selected > 0 {
            self.selected = self.selected - 1;
        }
    }

    /// Toggles the expanded state of the selected directory.
    pub fn toggle_selected(&mut self)
        requires
            app_wf(old(self)@),
        ensures
            final(self)@ == toggle_selected_spec(old(self)@),
            app_wf(final(self)@),
    {
        if self.selected < self.items.len() {
            let is_file = self.items[self.selected].is_file;
            if !is_file {
                let path = self.items[self.selected].path.clone();
                let ghost t0 = self.tree@;
                if toggle_expanded(&mut self.tree, path.as_str()) {
                    proof {
                        crate::tree::lemma_toggle_keeps_name(t0, path@);
                    }
                    self.reflatten();
                }
            }
        }
    }

    /// Moves left: collapses an expanded directory, or goes to the parent item.
    pub fn navigate_left(&mut self)
        requires
            app_wf(old(self)@),
        ensures
            final(self)@ == navigate_left_spec(old(self)@),
            app_wf(final(self)@),
    {
        if self.items.len() == 0 {
            return;
        }
        let is_file = self.items[self.selected].is_file;
        let is_expanded = self.items[self.selected].is_expanded;
        if !is_file && is_expanded {
            self.toggle_selected();
            return;
        }
        let current_depth = self.items[self.selected].depth;
        if current_depth == 0 {
            return;
        }
        let mut i: usize = self.selected;
        while i > 0
            invariant
                i <= self.selected,
                self.selected < self.items@.len(),
                current_depth > 0,
                *self == *old(self),
                app_wf(old(self)@),
                current_depth == old(self)@.items[old(self).selected as int].depth,
                !(!old(self)@.items[old(self).selected as int].is_file
                    && old(self)@.items[old(self).selected as int].is_expanded),
                last_at_depth(self@.items, self.selected as int, current_depth - 1) == last_at_depth(
                    self@.items,
                    i as int,
                    current_depth - 1,
                ),
            decreases i,
        {
            if self.items[i - 1].depth == current_depth - 1 {
                self.selected = i - 1;
                return;
            }
            i = i - 1;
        }
    }

    /// Moves right: expands a collapsed directory, or goes to its first child item.
    pub fn navigate_right(&mut self)
        requires
            app_wf(old(self)@),
        ensures
            final(self)@ == navigate_right_spec(old(self)@),
            app_wf(final(self)@),
    {
        if self.items.len() == 0 {
            return;
        }
        let is_file = self.items[self.selected].is_file;
        if is_file {
            return;
        }
        if !self.items[self.selected].is_expanded {
            self.toggle_selected();
            return;
        }
        proof {
            lemma_flatten_tree_well_placed(self.tree@, self.hide_dotfiles);
            assert(self@.items[self.selected as int].depth < usize::MAX);
        }
        let target_depth = self.items[self.selected].depth + 1;
        let mut i: usize = self.selected + 1;
        while i < self.items.len()
            invariant
                self.selected < i <= self.items@.len(),
                *self == *old(self),
                app_wf(old(self)@),
                target_depth == old(self)@.items[old(self).selected as int].depth + 1,
                !old(self)@.items[old(self).selected as int].is_file,
                old(self)@.items[old(self).selected as int].is_expanded,
                first_at_depth(self@.items, self.selected + 1, target_depth as int) == first_at_depth(
                    self@.items,
                    i as int,
                    target_depth as int,
                ),
            decreases self.items.len() - i,
        {
            if self.items[i].depth == target_depth {
                self.selected = i;
                return;
            }
            if self.items[i].depth < target_depth {
                return;
            }
            i = i + 1;
        }
    }

    /// Shows or hides dot files.
    pub fn toggle_dotfiles(&mut self)
        requires
            app_wf(old(self)@),
        ensures
            final(self)@ == toggle_dotfiles_spec(old(self)@),
            app_wf(final(self)@),
    {
        self.hide_dotfiles = !self.hide_dotfiles;
        self.reflatten();
    }

    /// Switches between Normal and Git mode.
    pub fn toggle_mode(&mut self)
        ensures
            final(self)@ == (AppView { mode: other_mode(old(self)@.mode), ..old(self)@ }),
    {
        self.mode.toggle();
    }
}

} // verus!

verus! {

/// The score of pattern `p` against text `t`, when its `i32` arithmetic does
/// not overflow (see `score_fits`); 0 otherwise.
pub open spec fn bounded_score(p: Seq<char>, t: Seq<char>) -> int {
    if score_fits(p, t, utf8_len(t) as int) {
        match_score(p, t, utf8_len(t) as int)
    } else {
        0
    }
}

/// The score of `pattern` against `text`; see `bounded_score`.
fn guarded_score(pattern: &str, text: &str) -> (r: i32)
    ensures
        r == bounded_score(pattern@, text@),
{
    match checked_match_score(pattern, text) {
        Some(s) => s,
        None => 0,
    }
}

/// The best score, and its index, among `scores[..k]` other than index
/// `skip`, starting from score `b0` at index `i0`; ties keep the earlier.
pub open spec fn best_of(scores: Seq<int>, skip: int, b0: int, i0: int, k: int) -> (int, int)
    decreases k,
{
    if k <= 0 {
        (b0, i0)
    } else {
        let (b, i) = best_of(scores, skip, b0, i0, k - 1);
        if k - 1 != skip && scores[k - 1] > b {
            (scores[k - 1], k - 1)
        } else {
            (b, i)
        }
    }
}

/// The scores of the items' lower-cased names against `pattern`.
pub open spec fn name_scores(items: Seq<ItemView>, pattern: Seq<char>) -> Seq<int> {
    Seq::new(items.len(), |i: int| bounded_score(pattern, lowercase(items[i].name)))
}

/// The scores of the items' lower-cased paths against `pattern`.
pub open spec fn path_scores(items: Seq<ItemView>, pattern: Seq<char>) -> Seq<int> {
    Seq::new(items.len(), |i: int| bounded_score(pattern, lowercase(items[i].path)))
}

/// The state after jumping to the best match of the lower-cased search
/// buffer: the selection stays on an exact name match; otherwise the best
/// other name wins if it scores at least 5000 (a prefix); otherwise the best
/// other name or path wins if it beats the selected name's score and is positive.
pub open spec fn jump_spec(v: AppView) -> AppView {
    if v.search_buffer.len() == 0 || v.items.len() == 0 {
        v
    } else {
        let p = lowercase(v.search_buffer);
        let names = name_scores(v.items, p);
        let sel = v.selected as int;
        let current = names[sel];
        if current >= 10000 {
            v
        } else {
            let (b1, i1) = best_of(names, sel, current, sel, names.len() as int);
            if b1 >= 5000 {
                AppView { selected: i1 as usize, ..v }
            } else {
                let paths = path_scores(v.items, p);
                let (b2, i2) = best_of(paths, sel, b1, i1, paths.len() as int);
                if b2 > 0 {
                    AppView { selected: i2 as usize, ..v }
                } else {
                    v
                }
            }
        }
    }
}

/// More than 500 whole milliseconds have passed between `last` and `now` (nanoseconds).
pub open spec fn timed_out(last: u64, now: u64) -> bool {
    now - last >= 501_000_000
}

/// The state after the search timeout check at time `now`.
pub open spec fn timeout_spec(v: AppView, now: u64) -> AppView {
    match v.last_search_time {
        Some(last) => if timed_out(last, now) {
            AppView { search_buffer: Seq::empty(), last_search_time: None, ..v }
        } else {
            v
        },
        None => v,
    }
}

/// The state after typing `c` into the search at time `now`: the buffer, if
/// shorter than 32 bytes, takes `c` and the selection jumps to the best match.
pub open spec fn search_add_char_spec(v: AppView, c: char, now: u64) -> AppView {
    let v1 = timeout_spec(v, now);
    if utf8_len(v1.search_buffer) < 32 {
        jump_spec(AppView { search_buffer: v1.search_buffer.push(c), last_search_time: Some(now), ..v1 })
    } else {
        v1
    }
}

/// The state after removing the last search character at time `now`.
pub open spec fn search_backspace_spec(v: AppView, now: u64) -> AppView {
    if v.search_buffer.len() > 0 {
        let v1 = AppView {
            search_buffer: v.search_buffer.drop_last(),
            last_search_time: Some(now),
            ..v
        };
        if v1.search_buffer.len() > 0 {
            jump_spec(v1)
        } else {
            v1
        }
    } else {
        v
    }
}

/// Law: a jump to the best match moves the selection and nothing else.
pub proof fn lemma_jump_moves_only_selection(v: AppView)
    ensures
        jump_spec(v) == (AppView { selected: jump_spec(v).selected, ..v }),
{
}

/// Law: typing a character and then removing it gives back the search text
/// left after the timeout check, when that text had room for the character.
pub proof fn lemma_type_then_backspace(v: AppView, c: char, t1: u64, t2: u64)
    requires
        utf8_len(timeout_spec(v, t1).search_buffer) < 32,
    ensures
        search_backspace_spec(search_add_char_spec(v, c, t1), t2).search_buffer
            == timeout_spec(v, t1).search_buffer,
{
    let v1 = timeout_spec(v, t1);
    let v2 = AppView { search_buffer: v1.search_buffer.push(c), last_search_time: Some(t1), ..v1 };
    lemma_jump_moves_only_selection(v2);
    let w = search_add_char_spec(v, c, t1);
    assert(w.search_buffer == v1.search_buffer.push(c));
    assert(w.search_buffer.drop_last() =~= v1.search_buffer);
    let b = AppView { search_buffer: w.search_buffer.drop_last(), last_search_time: Some(t2), ..w };
    lemma_jump_moves_only_selection(b);
}

/// The state with an empty search.
pub open spec fn clear_search_spec(v: AppView) -> AppView {
    AppView { search_buffer: Seq::empty(), last_search_time: None, ..v }
}

/// The simple scores of the items' lower-cased names against `p`.
pub open spec fn simple_scores(items: Seq<ItemView>, p: Seq<char>) -> Seq<int> {
    Seq::new(
        items.len(),
        |i: int| simple_score(p, lowercase(items[i].name), utf8_len(lowercase(items[i].name)) as int),
    )
}

/// The simple search can run: its score of the lower-cased pattern against
/// every lower-cased name can be worked out without panicking (see
/// `simple_fits`).
pub open spec fn fuzzy_jump_ok(v: AppView, pattern: Seq<char>) -> bool {
    forall|i: int|
        0 <= i < v.items.len() ==> simple_fits(
            lowercase(pattern),
            lowercase(#[trigger] v.items[i].name),
            utf8_len(lowercase(v.items[i].name)) as int,
        )
}

/// The state after the simple search for `pattern`: the selection goes to the
/// first item with the best positive score.
pub open spec fn fuzzy_jump_spec(v: AppView, pattern: Seq<char>) -> AppView {
    if pattern.len() == 0 {
        v
    } else {
        let scores = simple_scores(v.items, lowercase(pattern));
        let (b, i) = best_of(scores, -1, 0, v.selected as int, scores.len() as int);
        if b > 0 {
            AppView { selected: i as usize, ..v }
        } else {
            v
        }
    }
}

proof fn lemma_best_of_range(scores: Seq<int>, skip: int, b0: int, i0: int, k: int)
    requires
        0 <= k <= scores.len(),
    ensures
        best_of(scores, skip, b0, i0, k).1 == i0 || 0 <= best_of(scores, skip, b0, i0, k).1 < k,
        best_of(scores, skip, b0, i0, k).0 >= b0,
        best_of(scores, skip, b0, i0, k).0 > b0 ==> 0 <= best_of(scores, skip, b0, i0, k).1 < k,
    decreases k,
{
    if k > 0 {
        lemma_best_of_range(scores, skip, b0, i0, k - 1);
    }
}

proof fn lemma_best_of_max(scores: Seq<int>, skip: int, b0: int, i0: int, k: int)
    requires
        0 <= k <= scores.len(),
    ensures
        best_of(scores, skip, b0, i0, k).0 >= b0,
        forall|j: int| 0 <= j < k && j != skip ==> best_of(scores, skip, b0, i0, k).0 >= #[trigger] scores[j],
        best_of(scores, skip, b0, i0, k).0 > b0 ==> {
            let i = best_of(scores, skip, b0, i0, k).1;
            &&& 0 <= i < k
            &&& i != skip
            &&& scores[i] == best_of(scores, skip, b0, i0, k).0
        },
        best_of(scores, skip, b0, i0, k).0 == b0 ==> best_of(scores, skip, b0, i0, k).1 == i0,
    decreases k,
{
    if k > 0 {
        lemma_best_of_max(scores, skip, b0, i0, k - 1);
    }
}

/// Law of the search jump, with `n(j)` and `q(j)` the scores of the
/// lower-cased search text against item `j`'s lower-cased name and path:
/// an exact name match keeps the selection; otherwise a name that starts
/// with the text and beats the selected one takes the selection to a best
/// such name; and when no name starts with the text, a path that scores
/// above every name takes the selection to a best path.
pub proof fn lemma_jump_targets(v: AppView)
    requires
        v.search_buffer.len() > 0,
        v.selected < v.items.len() <= usize::MAX,
    ensures
        ({
            let n = name_scores(v.items, lowercase(v.search_buffer));
            let q = path_scores(v.items, lowercase(v.search_buffer));
            let sel = v.selected as int;
            let w = jump_spec(v).selected as int;
            &&& jump_spec(v) == (AppView { selected: w as usize, ..v })
            &&& n[sel] >= 10000 ==> w == sel
            &&& (n[sel] < 10000 && exists|j: int|
                0 <= j < n.len() && j != sel && #[trigger] n[j] >= 5000 && n[j] > n[sel]) ==> {
                &&& 0 <= w < n.len()
                &&& w != sel
                &&& n[w] >= 5000
                &&& forall|j: int| 0 <= j < n.len() && j != sel ==> n[w] >= #[trigger] n[j]
            }
            &&& (n[sel] < 5000 && (forall|j: int| 0 <= j < n.len() && j != sel ==> #[trigger] n[j] < 5000)
                && exists|j: int|
                0 <= j < n.len() && j != sel && (forall|k: int| 0 <= k < n.len() ==> #[trigger] q[j] > n[k])) ==> {
                &&& 0 <= w < n.len()
                &&& w != sel
                &&& forall|j: int| 0 <= j < n.len() && j != sel ==> q[w] >= #[trigger] q[j]
            }
        }),
{
    let p = lowercase(v.search_buffer);
    let n = name_scores(v.items, p);
    let q = path_scores(v.items, p);
    let sel = v.selected as int;
    let len = n.len() as int;
    lemma_best_of_max(n, sel, n[sel], sel, len);
    let (b1, i1) = best_of(n, sel, n[sel], sel, len);
    lemma_best_of_max(q, sel, b1, i1, len);
    let (b2, i2) = best_of(q, sel, b1, i1, len);
    if n[sel] < 10000 && exists|j: int| 0 <= j < len && j != sel && #[trigger] n[j] >= 5000 && n[j] > n[sel] {
        let j = choose|j: int| 0 <= j < len && j != sel && #[trigger] n[j] >= 5000 && n[j] > n[sel];
        assert(b1 >= n[j]);
    }
    if n[sel] < 5000 && (forall|j: int| 0 <= j < len && j != sel ==> #[trigger] n[j] < 5000) && exists|j: int|
        0 <= j < len && j != sel && (forall|k: int| 0 <= k < len ==> #[trigger] q[j] > n[k]) {
        let j = choose|j: int| 0 <= j < len && j != sel && (forall|k: int| 0 <= k < len ==> #[trigger] q[j] > n[k]);
        assert(q[j] > n[sel]);
        if b1 > n[sel] {
            assert(n[i1] == b1);
            assert(q[j] > n[i1]);
        }
        assert(b1 < 5000);
        assert(b2 >= q[j]);
        assert(b2 > b1);
        assert(b2 > 0);
        assert(jump_spec(v).selected == i2);
    }
    assert(jump_spec(v) == (AppView { selected: jump_spec(v).selected, ..v }));
    if n[sel] >= 10000 {
        assert(jump_spec(v).selected == sel);
    }
}

impl App {
    /// Sets the status message.
    pub fn set_status(&mut self, message: String)
        ensures
            final(self)@ == (AppView { status_message: Some(message@), ..old(self)@ }),
    {
        self.status_message = Some(message);
    }

    /// Clears the status message.
    pub fn clear_status(&mut self)
        ensures
            final(self)@ == (AppView { status_message: None, ..old(self)@ }),
    {
        self.status_message = None;
    }

    /// Clears the search buffer.
    pub fn clear_search(&mut self)
        ensures
            final(self)@ == clear_search_spec(old(self)@),
    {
        self.search_buffer = String::new();
        self.last_search_time = None;
    }

    /// Clears the search when more than 500 ms have passed since the last
    /// search keystroke; `now` is in nanoseconds on the same clock.
    pub fn check_search_timeout(&mut self, now: u64)
        ensures
            final(self)@ == timeout_spec(old(self)@, now),
    {
        if let Some(last_time) = self.last_search_time {
            if now >= last_time && now - last_time >= 501_000_000 {
                self.search_buffer = String::new();
                self.last_search_time = None;
            }
        }
    }

    /// Adds a character to the search buffer and jumps to the best match.
    pub fn search_add_char(&mut self, c: char, now: u64)
        requires
            app_wf(old(self)@),
        ensures
            final(self)@ == search_add_char_spec(old(self)@, c, now),
            app_wf(final(self)@),
    {
        self.check_search_timeout(now);
        if byte_len(self.search_buffer.as_str()) < 32 {
            push_char(&mut self.search_buffer, c);
            self.last_search_time = Some(now);
            self.fuzzy_jump_to_match();
        }
    }

    /// Removes the last character from the search buffer.
    pub fn search_backspace(&mut self, now: u64)
        requires
            app_wf(old(self)@),
        ensures
            final(self)@ == search_backspace_spec(old(self)@, now),
            app_wf(final(self)@),
    {
        if !self.search_buffer.as_str().is_empty() {
            let _ = pop_char(&mut self.search_buffer);
            self.last_search_time = Some(now);
            if !self.search_buffer.as_str().is_empty() {
                self.fuzzy_jump_to_match();
            }
        }
    }

    /// Jumps to the best matching item (see `jump_spec`).
    #[verifier::spinoff_prover]
    #[verifier::rlimit(40)]
    fn fuzzy_jump_to_match(&mut self)
        requires
            app_wf(old(self)@),
        ensures
            final(self)@ == jump_spec(old(self)@),
            app_wf(final(self)@),
    {
        if self.search_buffer.as_str().is_empty() || self.items.len() == 0 {
            return;
        }
        let pattern = to_lowercase(self.search_buffer.as_str());
        let ghost p = pattern@;
        let ghost names = name_scores(self@.items, p);
        let ghost paths = path_scores(self@.items, p);
        let n = self.items.len();
        let sel = self.selected;
        let name0 = to_lowercase(self.items[sel].name.as_str());
        let current_score = guarded_score(pattern.as_str(), name0.as_str());
        if current_score >= 10000 {
            return;
        }
        let mut best_score: i32 = current_score;
        let mut best_idx: usize = sel;
        let mut i: usize = 0;
        while i < n
            invariant
                n == self.items@.len(),
                sel == self.selected,
                sel < n,
                *self == *old(self),
                p == pattern@,
                names == name_scores(self@.items, p),
                (best_score as int, best_idx as int) == best_of(names, sel as int, current_score as int, sel as int, i as int),
                i <= n,
            decreases n - i,
        {
            if i != sel {
                let nm = to_lowercase(self.items[i].name.as_str());
                let score = guarded_score(pattern.as_str(), nm.as_str());
                if score > best_score {
                    best_score = score;
                    best_idx = i;
                }
            }
            i = i + 1;
        }
        proof {
            lemma_best_of_range(names, sel as int, current_score as int, sel as int, n as int);
        }
        if best_score >= 5000 {
            self.selected = best_idx;
            return;
        }
        let ghost b1 = best_score as int;
        let ghost i1 = best_idx as int;
        let mut i: usize = 0;
        while i < n
            invariant
                n == self.items@.len(),
                sel == self.selected,
                sel < n,
                best_idx < n,
                *self == *old(self),
                p == pattern@,
                paths == path_scores(self@.items, p),
                (best_score as int, best_idx as int) == best_of(paths, sel as int, b1, i1, i as int),
                i <= n,
            decreases n - i,
        {
            if i != sel {
                let pl = to_lowercase(self.items[i].path.as_str());
                let score = guarded_score(pattern.as_str(), pl.as_str());
                if score > best_score {
                    best_score = score;
                    best_idx = i;
                }
            }
            proof {
                lemma_best_of_range(paths, sel as int, b1, i1, i + 1);
            }
            i = i + 1;
        }
        if best_score > 0 {
            self.selected = best_idx;
        }
    }

    /// Jumps to the first item whose lower-cased name best matches the
    /// lower-cased `pattern` with the simple score, if any scores above 0.
    pub fn fuzzy_jump(&mut self, pattern: &str)
        requires
            app_wf(old(self)@),
            fuzzy_jump_ok(old(self)@, pattern@),
        ensures
            final(self)@ == fuzzy_jump_spec(old(self)@, pattern@),
            app_wf(final(self)@),
    {
        if pattern.is_empty() {
            return;
        }
        let pattern_lower = to_lowercase(pattern);
        let ghost scores = simple_scores(self@.items, pattern_lower@);
        let n = self.items.len();
        let mut best_idx: usize = self.selected;
        let mut best_score: usize = 0;
        let mut i: usize = 0;
        while i < n
            invariant
                n == self.items@.len(),
                *self == *old(self),
                fuzzy_jump_ok(self@, pattern@),
                pattern_lower@ == lowercase(pattern@),
                scores == simple_scores(self@.items, pattern_lower@),
                (best_score as int, best_idx as int) == best_of(scores, -1, 0, self.selected as int, i as int),
                i <= n,
            decreases n - i,
        {
            let name_lower = to_lowercase(self.items[i].name.as_str());
            proof {
                assert(self@.items[i as int].name == self.items@[i as int].name@);
            }
            let score = fuzzy_score(pattern_lower.as_str(), name_lower.as_str());
            if score > best_score {
                best_score = score;
                best_idx = i;
            }
            i = i + 1;
        }
        proof {
            lemma_best_of_range(scores, -1, 0, self.selected as int, n as int);
        }
        if best_score > 0 {
            self.selected = best_idx;
        }
    }

    /// Runs the simple search for `pattern` when it can run (see
    /// `fuzzy_jump_ok`) and tells whether it did; otherwise nothing changes.
    pub fn try_fuzzy_jump(&mut self, pattern: &str) -> (ran: bool)
        requires
            app_wf(old(self)@),
        ensures
            ran == fuzzy_jump_ok(old(self)@, pattern@),
            ran ==> final(self)@ == fuzzy_jump_spec(old(self)@, pattern@),
            !ran ==> final(self)@ == old(self)@,
            app_wf(final(self)@),
    {
        let pattern_lower = to_lowercase(pattern);
        let n = self.items.len();
        let mut i: usize = 0;
        while i < n
            invariant
                n == self.items@.len(),
                *self == *old(self),
                app_wf(old(self)@),
                pattern_lower@ == lowercase(pattern@),
                i <= n,
                forall|j: int|
                    0 <= j < i ==> simple_fits(
                        lowercase(pattern@),
                        lowercase(#[trigger] self@.items[j].name),
                        utf8_len(lowercase(self@.items[j].name)) as int,
                    ),
            decreases n - i,
        {
            let name_lower = to_lowercase(self.items[i].name.as_str());
            proof {
                assert(self@.items[i as int].name == self.items@[i as int].name@);
            }
            if checked_fuzzy_score(pattern_lower.as_str(), name_lower.as_str()).is_none() {
                assert(!fuzzy_jump_ok(old(self)@, pattern@));
                return false;
            }
            i = i + 1;
        }
        self.fuzzy_jump(pattern);
        true
    }
}

} // verus!

verus! {

/// A git operation for the caller to perform.
#[derive(Debug, Clone, PartialEq, Eq)]
pub enum GitRequest {
    Nothing,
    StageFile(String),
    StageDirectory(String),
    UnstageFile(String),
    StageAll,
    UnstageAll,
    DiscardChanges { path: String, is_untracked: bool },
    DeleteFile { path: String, is_untracked: bool },
    Fetch,
    Pull,
    Push,
    Commit(String),
    CommitAmend(String),
    RenameFile { from: String, to: String },
}

/// The abstract git operation.
pub enum RequestView {
    Nothing,
    StageFile(Seq<char>),
    StageDirectory(Seq<char>),
    UnstageFile(Seq<char>),
    StageAll,
    UnstageAll,
    DiscardChanges { path: Seq<char>, is_untracked: bool },
    DeleteFile { path: Seq<char>, is_untracked: bool },
    Fetch,
    Pull,
    Push,
    Commit(Seq<char>),
    CommitAmend(Seq<char>),
    RenameFile { from: Seq<char>, to: Seq<char> },
}

impl View for GitRequest {
    type V = RequestView;

    open spec fn view(&self) -> RequestView {
        match self {
            GitRequest::Nothing => RequestView::Nothing,
            GitRequest::StageFile(p) => RequestView::StageFile(p@),
            GitRequest::StageDirectory(p) => RequestView::StageDirectory(p@),
            GitRequest::UnstageFile(p) => RequestView::UnstageFile(p@),
            GitRequest::StageAll => RequestView::StageAll,
            GitRequest::UnstageAll => RequestView::UnstageAll,
            GitRequest::DiscardChanges { path, is_untracked } => RequestView::DiscardChanges {
                path: path@,
                is_untracked: *is_untracked,
            },
            GitRequest::DeleteFile { path, is_untracked } => RequestView::DeleteFile {
                path: path@,
                is_untracked: *is_untracked,
            },
            GitRequest::Fetch => RequestView::Fetch,
            GitRequest::Pull => RequestView::Pull,
            GitRequest::Push => RequestView::Push,
            GitRequest::Commit(m) => RequestView::Commit(m@),
            GitRequest::CommitAmend(m) => RequestView::CommitAmend(m@),
            GitRequest::RenameFile { from, to } => RequestView::RenameFile { from: from@, to: to@ },
        }
    }
}

/// What to do for a git command: perform `request`; once it succeeded, show
/// `message` (if any), then read the files again when `refresh` is set, then
/// go back to navigation input when `then_navigation` is set. When the
/// request fails, none of that happens.
#[derive(Debug, Clone, PartialEq, Eq)]
pub struct Plan {
    pub request: GitRequest,
    pub message: Option<String>,
    pub refresh: bool,
    pub then_navigation: bool,
}

/// The abstract plan.
pub struct PlanView {
    pub request: RequestView,
    pub message: Option<Seq<char>>,
    pub refresh: bool,
    pub then_navigation: bool,
}

impl View for Plan {
    type V = PlanView;

    open spec fn view(&self) -> PlanView {
        PlanView {
            request: self.request@,
            message: opt_view(self.message),
            refresh: self.refresh,
            then_navigation: self.then_navigation,
        }
    }
}

/// A plan that refreshes the files and keeps the input mode.
pub open spec fn plan_of(request: RequestView, message: Option<Seq<char>>) -> PlanView {
    PlanView { request, message, refresh: true, then_navigation: false }
}

/// A commit the caller should make.
#[derive(Debug, Clone, PartialEq, Eq)]
pub struct CommitRequest {
    pub message: String,
    pub amend: bool,
}

/// The plan for staging the selected item: a file with unstaged or untracked
/// changes is staged, a directory is staged whole; the files are read again
/// whenever an item is selected.
pub open spec fn stage_selected_spec(v: AppView) -> Option<PlanView> {
    if v.selected < v.items.len() {
        let it = v.items[v.selected as int];
        if it.is_file {
            if it.status.is_unstaged || it.status.is_untracked {
                Some(plan_of(RequestView::StageFile(it.path), Some("Staged: "@ + it.path)))
            } else {
                Some(plan_of(RequestView::Nothing, None))
            }
        } else {
            Some(plan_of(RequestView::StageDirectory(it.path), Some("Staged directory: "@ + it.path)))
        }
    } else {
        None
    }
}

/// The plan for unstaging the selected item: only a staged file is unstaged.
pub open spec fn unstage_selected_spec(v: AppView) -> Option<PlanView> {
    if v.selected < v.items.len() && v.items[v.selected as int].is_file
        && v.items[v.selected as int].status.is_staged {
        let p = v.items[v.selected as int].path;
        Some(plan_of(RequestView::UnstageFile(p), Some("Unstaged: "@ + p)))
    } else {
        None
    }
}

/// The plan for discarding the changes of the selected item: only a dirty file.
pub open spec fn discard_selected_spec(v: AppView) -> Option<PlanView> {
    if v.selected < v.items.len() && v.items[v.selected as int].is_file && crate::types::dirty(
        v.items[v.selected as int].status,
    ) {
        let it = v.items[v.selected as int];
        Some(
            plan_of(
                RequestView::DiscardChanges { path: it.path, is_untracked: it.status.is_untracked },
                Some("Discarded changes: "@ + it.path),
            ),
        )
    } else {
        None
    }
}

/// The plan for deleting the selected item: only a file.
pub open spec fn delete_selected_spec(v: AppView) -> Option<PlanView> {
    if v.selected < v.items.len() && v.items[v.selected as int].is_file {
        let it = v.items[v.selected as int];
        Some(
            plan_of(
                RequestView::DeleteFile { path: it.path, is_untracked: it.status.is_untracked },
                Some("Deleted: "@ + it.path),
            ),
        )
    } else {
        None
    }
}

/// Law of the plans for the selected item: a file with changes in the
/// working tree (modified or untracked) is staged by its path, a directory
/// is staged whole, and nothing else is staged; only a staged file is
/// unstaged, by its path; only a file with changes is discarded and only a
/// file is deleted, each by its path and whether it is untracked; the
/// staging plans read the files again.
pub proof fn lemma_stage_plans(v: AppView)
    requires
        v.selected < v.items.len(),
    ensures
        ({
            let it = v.items[v.selected as int];
            &&& stage_selected_spec(v) is Some
            &&& stage_selected_spec(v)->0.refresh
            &&& (it.is_file && (it.status.is_unstaged || it.status.is_untracked))
                == (stage_selected_spec(v)->0.request == RequestView::StageFile(it.path))
            &&& !it.is_file == (stage_selected_spec(v)->0.request == RequestView::StageDirectory(it.path))
            &&& (it.is_file && !it.status.is_unstaged && !it.status.is_untracked)
                == (stage_selected_spec(v)->0.request == RequestView::Nothing)
            &&& (it.is_file && it.status.is_staged) == (unstage_selected_spec(v) is Some)
            &&& unstage_selected_spec(v) is Some ==> unstage_selected_spec(v)->0.request
                == RequestView::UnstageFile(it.path) && unstage_selected_spec(v)->0.refresh
            &&& (discard_selected_spec(v) is Some) == (it.is_file && (it.status.is_staged
                || it.status.is_unstaged || it.status.is_untracked))
            &&& discard_selected_spec(v) is Some ==> discard_selected_spec(v)->0.request
                == RequestView::DiscardChanges { path: it.path, is_untracked: it.status.is_untracked }
            &&& (delete_selected_spec(v) is Some) == it.is_file
            &&& delete_selected_spec(v) is Some ==> delete_selected_spec(v)->0.request
                == RequestView::DeleteFile { path: it.path, is_untracked: it.status.is_untracked }
        }),
{
}

/// A string holding `prefix` followed by `rest`.
fn concat(prefix: &str, rest: &str) -> (r: String)
    ensures
        r@ == prefix@ + rest@,
{
    let mut s = copy_str(prefix);
    push_str(&mut s, rest);
    s
}

impl App {
    /// The plan for staging the selected item (see `stage_selected_spec`).
    pub fn stage_selected(&self) -> (r: Option<Plan>)
        ensures
            match r {
                Some(p) => stage_selected_spec(self@) == Some(p@),
                None => stage_selected_spec(self@) is None,
            },
    {
        if self.selected < self.items.len() {
            let item = &self.items[self.selected];
            let path = item.path.as_str();
            let request;
            let message;
            if item.is_file {
                if item.status.is_unstaged || item.status.is_untracked {
                    request = GitRequest::StageFile(copy_str(path));
                    message = Some(concat("Staged: ", path));
                } else {
                    request = GitRequest::Nothing;
                    message = None;
                }
            } else {
                request = GitRequest::StageDirectory(copy_str(path));
                message = Some(concat("Staged directory: ", path));
            }
            Some(Plan { request, message, refresh: true, then_navigation: false })
        } else {
            None
        }
    }

    /// The plan for unstaging the selected item (see `unstage_selected_spec`).
    pub fn unstage_selected(&self) -> (r: Option<Plan>)
        ensures
            match r {
                Some(p) => unstage_selected_spec(self@) == Some(p@),
                None => unstage_selected_spec(self@) is None,
            },
    {
        if self.selected < self.items.len() {
            let item = &self.items[self.selected];
            if item.is_file && item.status.is_staged {
                let path = item.path.as_str();
                return Some(
                    Plan {
                        request: GitRequest::UnstageFile(copy_str(path)),
                        message: Some(concat("Unstaged: ", path)),
                        refresh: true,
                        then_navigation: false,
                    },
                );
            }
        }
        None
    }

    /// The plan for staging all changes.
    pub fn stage_all(&self) -> (r: Plan)
        ensures
            r@ == plan_of(RequestView::StageAll, Some("Staged all changes"@)),
    {
        Plan {
            request: GitRequest::StageAll,
            message: Some(copy_str("Staged all changes")),
            refresh: true,
            then_navigation: false,
        }
    }

    /// The plan for unstaging all files.
    pub fn unstage_all(&self) -> (r: Plan)
        ensures
            r@ == plan_of(RequestView::UnstageAll, Some("Unstaged all files"@)),
    {
        Plan {
            request: GitRequest::UnstageAll,
            message: Some(copy_str("Unstaged all files")),
            refresh: true,
            then_navigation: false,
        }
    }

    /// The plan for discarding the changes of the selected file.
    pub fn discard_selected(&self) -> (r: Option<Plan>)
        ensures
            match r {
                Some(p) => discard_selected_spec(self@) == Some(p@),
                None => discard_selected_spec(self@) is None,
            },
    {
        if self.selected < self.items.len() {
            let item = &self.items[self.selected];
            if item.is_file && item.status.is_dirty() {
                let path = item.path.as_str();
                return Some(
                    Plan {
                        request: GitRequest::DiscardChanges {
                            path: copy_str(path),
                            is_untracked: item.status.is_untracked,
                        },
                        message: Some(concat("Discarded changes: ", path)),
                        refresh: true,
                        then_navigation: false,
                    },
                );
            }
        }
        None
    }

    /// The plan for deleting the selected file.
    pub fn delete_selected(&self) -> (r: Option<Plan>)
        ensures
            match r {
                Some(p) => delete_selected_spec(self@) == Some(p@),
                None => delete_selected_spec(self@) is None,
            },
    {
        if self.selected < self.items.len() {
            let item = &self.items[self.selected];
            if item.is_file {
                let path = item.path.as_str();
                return Some(
                    Plan {
                        request: GitRequest::DeleteFile {
                            path: copy_str(path),
                            is_untracked: item.status.is_untracked,
                        },
                        message: Some(concat("Deleted: ", path)),
                        refresh: true,
                        then_navigation: false,
                    },
                );
            }
        }
        None
    }

    /// Shows "Fetching..." and gives the plan for fetching.
    pub fn fetch(&mut self) -> (r: Plan)
        ensures
            final(self)@ == (AppView { status_message: Some("Fetching..."@), ..old(self)@ }),
            r@ == plan_of(RequestView::Fetch, Some("Fetch complete"@)),
    {
        self.set_status(copy_str("Fetching..."));
        Plan {
            request: GitRequest::Fetch,
            message: Some(copy_str("Fetch complete")),
            refresh: true,
            then_navigation: false,
        }
    }

    /// Shows "Pulling..." and gives the plan for pulling.
    pub fn pull(&mut self) -> (r: Plan)
        ensures
            final(self)@ == (AppView { status_message: Some("Pulling..."@), ..old(self)@ }),
            r@ == plan_of(RequestView::Pull, Some("Pull complete"@)),
    {
        self.set_status(copy_str("Pulling..."));
        Plan {
            request: GitRequest::Pull,
            message: Some(copy_str("Pull complete")),
            refresh: true,
            then_navigation: false,
        }
    }

    /// Shows "Pushing..." and gives the plan for pushing; the files are not read again.
    pub fn push(&mut self) -> (r: Plan)
        ensures
            final(self)@ == (AppView { status_message: Some("Pushing..."@), ..old(self)@ }),
            r@ == (PlanView {
                request: RequestView::Push,
                message: Some("Push complete"@),
                refresh: false,
                then_navigation: false,
            }),
    {
        self.set_status(copy_str("Pushing..."));
        Plan {
            request: GitRequest::Push,
            message: Some(copy_str("Push complete")),
            refresh: false,
            then_navigation: false,
        }
    }

    /// The plan for committing with `message`.
    pub fn commit(&self, message: &str) -> (r: Plan)
        ensures
            r@ == plan_of(RequestView::Commit(message@), Some("Committed successfully"@)),
    {
        Plan {
            request: GitRequest::Commit(copy_str(message)),
            message: Some(copy_str("Committed successfully")),
            refresh: true,
            then_navigation: false,
        }
    }

    /// The plan for amending the last commit with `message`.
    pub fn commit_amend(&self, message: &str) -> (r: Plan)
        ensures
            r@ == plan_of(RequestView::CommitAmend(message@), Some("Commit amended"@)),
    {
        Plan {
            request: GitRequest::CommitAmend(copy_str(message)),
            message: Some(copy_str("Commit amended")),
            refresh: true,
            then_navigation: false,
        }
    }
}

} // verus!

verus! {

/// The state back in navigation input.
pub open spec fn navigation(v: AppView) -> AppView {
    AppView { input_mode: ModeView::Navigation, ..v }
}

/// The state entering rename input on the selected item's name, with the
/// cursor after its last byte.
pub open spec fn enter_rename_spec(v: AppView) -> AppView {
    if v.selected < v.items.len() {
        let name = v.items[v.selected as int].name;
        AppView { input_mode: ModeView::Rename { buffer: name, cursor: utf8_len(name) as usize }, ..v }
    } else {
        v
    }
}

/// Leaving rename input: when the trimmed buffer is non-empty and differs
/// from the selected item's name, the plan renames the item's path to one with
/// that file name and the input mode is left for the plan to reset; otherwise
/// navigation input comes back and there is no plan.
pub open spec fn apply_rename_spec(v: AppView) -> (AppView, Option<PlanView>) {
    match v.input_mode {
        ModeView::Rename { buffer, .. } => {
            let nn = trim_spec(buffer);
            if v.selected < v.items.len() && nn.len() > 0 && nn != v.items[v.selected as int].name {
                let it = v.items[v.selected as int];
                (
                    v,
                    Some(
                        PlanView {
                            request: RequestView::RenameFile {
                                from: it.path,
                                to: with_file_name_spec(it.path, nn),
                            },
                            message: Some("Renamed to: "@ + nn),
                            refresh: true,
                            then_navigation: true,
                        },
                    ),
                )
            } else {
                (navigation(v), None)
            }
        },
        _ => (navigation(v), None),
    }
}

/// Entering commit input: the buffer holds the last commit message (if any)
/// when amending, else nothing, with the cursor after its last byte.
pub open spec fn enter_commit_spec(v: AppView, amend: bool, last_message: Option<Seq<char>>) -> AppView {
    let buffer = if amend {
        match last_message {
            Some(m) => m,
            None => Seq::empty(),
        }
    } else {
        Seq::empty()
    };
    AppView {
        input_mode: ModeView::Commit {
            buffer,
            cursor: utf8_len(buffer) as usize,
            amend,
            status: CommitStatus::Editing,
        },
        ..v
    }
}

/// The state with the commit status set to `status`, in commit input.
pub open spec fn with_commit_status(v: AppView, status: CommitStatus) -> AppView {
    match v.input_mode {
        ModeView::Commit { buffer, cursor, amend, .. } => AppView {
            input_mode: ModeView::Commit { buffer, cursor, amend, status },
            ..v
        },
        _ => v,
    }
}

/// Leaving commit input: a non-empty trimmed buffer is the commit to make;
/// an empty one brings navigation input back.
pub open spec fn apply_commit_spec(v: AppView) -> (AppView, Option<(Seq<char>, bool)>) {
    match v.input_mode {
        ModeView::Commit { buffer, amend, .. } => {
            let m = trim_spec(buffer);
            if m.len() == 0 {
                (navigation(v), None)
            } else {
                (v, Some((m, amend)))
            }
        },
        _ => (v, None),
    }
}

/// The state once the commit is made or has failed: a success shows "Committed".
pub open spec fn commit_finished_spec(v: AppView, succeeded: bool) -> AppView {
    if succeeded {
        AppView {
            status_message: Some("Committed"@),
            ..with_commit_status(v, CommitStatus::Success)
        }
    } else {
        with_commit_status(v, CommitStatus::Failed)
    }
}

impl App {
    /// Enters rename input for the selected item.
    pub fn enter_rename_mode(&mut self)
        ensures
            final(self)@ == enter_rename_spec(old(self)@),
    {
        if self.selected < self.items.len() {
            let name = self.items[self.selected].name.clone();
            let cursor = byte_len(name.as_str());
            self.input_mode = InputMode::Rename { buffer: name, cursor };
        }
    }

    /// Leaves rename input (see `apply_rename_spec`).
    pub fn apply_rename(&mut self) -> (r: Option<Plan>)
        ensures
            final(self)@ == apply_rename_spec(old(self)@).0,
            match r {
                Some(p) => apply_rename_spec(old(self)@).1 == Some(p@),
                None => apply_rename_spec(old(self)@).1 is None,
            },
    {
        if let InputMode::Rename { buffer, .. } = &self.input_mode {
            if self.selected < self.items.len() {
                let item = &self.items[self.selected];
                let new_name = trim_str(buffer.as_str());
                if !new_name.is_empty() && !str_eq(new_name, item.name.as_str()) {
                    let to = with_file_name(item.path.as_str(), new_name);
                    return Some(
                        Plan {
                            request: GitRequest::RenameFile { from: item.path.clone(), to },
                            message: Some(concat("Renamed to: ", new_name)),
                            refresh: true,
                            then_navigation: true,
                        },
                    );
                }
            }
        }
        self.input_mode = InputMode::Navigation;
        None
    }

    /// Leaves rename input without renaming.
    pub fn cancel_rename(&mut self)
        ensures
            final(self)@ == navigation(old(self)@),
    {
        self.input_mode = InputMode::Navigation;
    }

    /// Enters commit input; `last_message` is the last commit's message,
    /// used when amending.
    pub fn enter_commit_mode(&mut self, amend: bool, last_message: Option<String>)
        ensures
            final(self)@ == enter_commit_spec(old(self)@, amend, opt_view(last_message)),
    {
        let initial_buffer = if amend {
            match last_message {
                Some(m) => m,
                None => String::new(),
            }
        } else {
            String::new()
        };
        let cursor = byte_len(initial_buffer.as_str());
        self.input_mode = InputMode::Commit {
            buffer: initial_buffer,
            cursor,
            amend,
            status: CommitStatus::Editing,
        };
    }

    fn set_commit_status(&mut self, status: CommitStatus)
        ensures
            final(self)@ == with_commit_status(old(self)@, status),
    {
        let mut mode = InputMode::Navigation;
        std::mem::swap(&mut mode, &mut self.input_mode);
        match mode {
            InputMode::Commit { buffer, cursor, amend, .. } => {
                self.input_mode = InputMode::Commit { buffer, cursor, amend, status };
            },
            other => {
                self.input_mode = other;
            },
        }
    }

    /// Shows that the commit is being made.
    pub fn start_commit(&mut self)
        ensures
            final(self)@ == with_commit_status(old(self)@, CommitStatus::Committing),
    {
        self.set_commit_status(CommitStatus::Committing);
    }

    /// Leaves commit input (see `apply_commit_spec`); the caller makes the
    /// commit it returns and then calls `commit_finished`.
    pub fn apply_commit(&mut self) -> (r: Option<CommitRequest>)
        ensures
            final(self)@ == apply_commit_spec(old(self)@).0,
            match r {
                Some(c) => apply_commit_spec(old(self)@).1 == Some((c.message@, c.amend)),
                None => apply_commit_spec(old(self)@).1 is None,
            },
    {
        let (message, amend) = if let InputMode::Commit { buffer, amend, .. } = &self.input_mode {
            (copy_str(trim_str(buffer.as_str())), *amend)
        } else {
            return None;
        };
        if message.as_str().is_empty() {
            self.input_mode = InputMode::Navigation;
            return None;
        }
        Some(CommitRequest { message, amend })
    }

    /// Records the outcome of the commit.
    pub fn commit_finished(&mut self, succeeded: bool)
        ensures
            final(self)@ == commit_finished_spec(old(self)@, succeeded),
    {
        if succeeded {
            self.set_commit_status(CommitStatus::Success);
            self.set_status(copy_str("Committed"));
        } else {
            self.set_commit_status(CommitStatus::Failed);
        }
    }

    /// Closes the commit window and returns to navigation input.
    pub fn close_commit(&mut self)
        ensures
            final(self)@ == navigation(old(self)@),
    {
        self.input_mode = InputMode::Navigation;
    }

    /// Leaves commit input without committing.
    pub fn cancel_commit(&mut self)
        ensures
            final(self)@ == navigation(old(self)@),
    {
        self.input_mode = InputMode::Navigation;
    }
}

} // verus!
