//! What the tree looks like as text: the line of each item and the part of
//! the list that is shown.
use vstd::prelude::*;
use crate::types::{AppMode, FileStatus, InputMode, ItemView, SelectableItem, items_view};
use crate::text::{copy_str, push_str, push_char, insert_char_at, byte_len, utf8_len, at_char_boundary, insert_at_byte};

verus! {

/// A status mark shown after a name.
#[derive(Debug, Clone, Copy, PartialEq, Eq, Structural)]
pub enum Mark {
    Staged,
    Unstaged,
    Untracked,
    Incoming,
}

/// The marks of a status, in the order shown: staged, unstaged, untracked, incoming.
pub open spec fn marks_spec(s: FileStatus) -> Seq<Mark> {
    (if s.is_staged {
        seq![Mark::Staged]
    } else {
        Seq::empty()
    }) + (if s.is_unstaged {
        seq![Mark::Unstaged]
    } else {
        Seq::empty()
    }) + (if s.is_untracked {
        seq![Mark::Untracked]
    } else {
        Seq::empty()
    }) + (if s.has_incoming {
        seq![Mark::Incoming]
    } else {
        Seq::empty()
    })
}

/// The marks of a status, in the order shown.
pub fn status_marks(s: &FileStatus) -> (r: Vec<Mark>)
    ensures
        r@ == marks_spec(*s),
{
    let mut r: Vec<Mark> = Vec::new();
    if s.is_staged {
        r.push(Mark::Staged);
    }
    if s.is_unstaged {
        r.push(Mark::Unstaged);
    }
    if s.is_untracked {
        r.push(Mark::Untracked);
    }
    if s.has_incoming {
        r.push(Mark::Incoming);
    }
    assert(r@ =~= marks_spec(*s));
    r
}

/// The text of a mark, with its terminal colour.
pub open spec fn mark_text(m: Mark) -> Seq<char> {
    match m {
        Mark::Staged => "\x1b[32m \u{2191}\x1b[0m"@,
        Mark::Unstaged => "\x1b[31m \u{2717}\x1b[0m"@,
        Mark::Untracked => "\x1b[90m \u{2717}\x1b[0m"@,
        Mark::Incoming => "\x1b[34m \u{2193}\x1b[0m"@,
    }
}

/// The tree lines drawn before an item: for each ancestor, blanks when it
/// was the last of its siblings and a vertical line otherwise.
pub open spec fn indent_spec(ancestors: Seq<bool>) -> Seq<char>
    decreases ancestors.len(),
{
    if ancestors.len() == 0 {
        Seq::empty()
    } else {
        indent_spec(ancestors.drop_last()) + if ancestors.last() {
            "    "@
        } else {
            "\u{2502}   "@
        }
    }
}

/// The branch drawn just before an item's name.
pub open spec fn branch_spec(is_last: bool) -> Seq<char> {
    if is_last {
        "\u{2514}\u{2500}\u{2500} "@
    } else {
        "\u{251c}\u{2500}\u{2500} "@
    }
}

/// The texts of the marks, one after the other.
pub open spec fn marks_text(ms: Seq<Mark>) -> Seq<char>
    decreases ms.len(),
{
    if ms.len() == 0 {
        Seq::empty()
    } else {
        marks_text(ms.drop_last()) + mark_text(ms.last())
    }
}

/// The printed line of an item: indent, branch, name (grey when ignored),
/// then its status marks.
pub open spec fn item_line_spec(
    ancestors: Seq<bool>,
    is_last: bool,
    name: Seq<char>,
    status: FileStatus,
) -> Seq<char> {
    let named = if status.is_gitignored {
        "\x1b[90m"@ + name + "\x1b[0m"@
    } else {
        name
    };
    indent_spec(ancestors) + branch_spec(is_last) + named + marks_text(marks_spec(status))
}

/// The tree lines drawn before an item.
pub fn indent(ancestors: &Vec<bool>) -> (r: String)
    ensures
        r@ == indent_spec(ancestors@),
{
    let mut line = String::new();
    let mut i: usize = 0;
    assert(ancestors@.subrange(0, 0) =~= Seq::<bool>::empty());
    while i < ancestors.len()
        invariant
            i <= ancestors.len(),
            line@ == indent_spec(ancestors@.subrange(0, i as int)),
        decreases ancestors.len() - i,
    {
        let ghost pre = ancestors@.subrange(0, i + 1);
        assert(pre.drop_last() =~= ancestors@.subrange(0, i as int));
        if ancestors[i] {
            push_str(&mut line, "    ");
        } else {
            push_str(&mut line, "\u{2502}   ");
        }
        i = i + 1;
    }
    assert(ancestors@.subrange(0, ancestors@.len() as int) =~= ancestors@);
    line
}

/// The branch drawn just before an item's name.
pub fn branch(is_last: bool) -> (r: String)
    ensures
        r@ == branch_spec(is_last),
{
    if is_last {
        copy_str("\u{2514}\u{2500}\u{2500} ")
    } else {
        copy_str("\u{251c}\u{2500}\u{2500} ")
    }
}

/// The printed line of an item (see `item_line_spec`).
pub fn tree_item_line(item: &SelectableItem) -> (r: String)
    ensures
        r@ == item_line_spec(item.ancestors_are_last@, item.is_last_sibling, item.name@, item.status),
{
    let mut line = indent(&item.ancestors_are_last);
    let b = branch(item.is_last_sibling);
    push_str(&mut line, b.as_str());
    if item.status.is_gitignored {
        push_str(&mut line, "\x1b[90m");
    }
    push_str(&mut line, item.name.as_str());
    if item.status.is_gitignored {
        push_str(&mut line, "\x1b[0m");
    }
    let ghost before = line@;
    let marks = status_marks(&item.status);
    let mut i: usize = 0;
    assert(marks@.subrange(0, 0) =~= Seq::<Mark>::empty());
    while i < marks.len()
        invariant
            i <= marks.len(),
            line@ == before + marks_text(marks@.subrange(0, i as int)),
        decreases marks.len() - i,
    {
        let ghost pre = marks@.subrange(0, i + 1);
        assert(pre.drop_last() =~= marks@.subrange(0, i as int));
        match marks[i] {
            Mark::Staged => push_str(&mut line, "\x1b[32m \u{2191}\x1b[0m"),
            Mark::Unstaged => push_str(&mut line, "\x1b[31m \u{2717}\x1b[0m"),
            Mark::Untracked => push_str(&mut line, "\x1b[90m \u{2717}\x1b[0m"),
            Mark::Incoming => push_str(&mut line, "\x1b[34m \u{2193}\x1b[0m"),
        }
        i = i + 1;
    }
    assert(marks@.subrange(0, marks@.len() as int) =~= marks@);
    line
}

/// The first and one-past-last indices of the items shown in a window of
/// `height` lines: the selection is kept in the middle when it can be,
/// without leaving blank lines at the bottom.
pub open spec fn viewport_spec(selected: usize, height: usize, total: usize) -> (usize, usize) {
    let half = height / 2;
    let start: int = if selected > half {
        let lowest: int = if total >= height {
            total - height
        } else {
            0
        };
        if selected - half <= lowest {
            selected - half
        } else {
            lowest
        }
    } else {
        0
    };
    let end: int = if start + height <= total {
        start + height
    } else {
        total as int
    };
    (start as usize, end as usize)
}

/// The window of items shown (see `viewport_spec`).
pub fn viewport(selected: usize, height: usize, total: usize) -> (r: (usize, usize))
    ensures
        r == viewport_spec(selected, height, total),
        r.0 <= r.1 <= total,
        height > 0 && selected < total ==> r.0 <= selected < r.1,
{
    let half = height / 2;
    let start = if selected > half {
        let lowest = if total >= height {
            total - height
        } else {
            0
        };
        if selected - half <= lowest {
            selected - half
        } else {
            lowest
        }
    } else {
        0
    };
    let end = if start <= total && height <= total - start {
        start + height
    } else {
        total
    };
    (start, end)
}


/// A colour of text on screen.
#[derive(Debug, Clone, Copy, PartialEq, Eq, Structural)]
pub enum Tint {
    Plain,
    Cyan,
    Yellow,
    Green,
    Red,
    DarkGray,
    Blue,
}

/// A run of text drawn in one style.
pub struct Segment {
    pub text: String,
    pub tint: Tint,
    pub bold: bool,
    pub reversed: bool,
}

/// The abstract content of a segment.
pub struct SegmentView {
    pub text: Seq<char>,
    pub tint: Tint,
    pub bold: bool,
    pub reversed: bool,
}

impl View for Segment {
    type V = SegmentView;

    open spec fn view(&self) -> SegmentView {
        SegmentView { text: self.text@, tint: self.tint, bold: self.bold, reversed: self.reversed }
    }
}

/// The abstract contents of segments.
pub open spec fn segs_view(s: Seq<Segment>) -> Seq<SegmentView> {
    s.map_values(|x: Segment| x@)
}

/// The segment of `text` in the given style.
pub open spec fn seg(text: Seq<char>, tint: Tint, bold: bool, reversed: bool) -> SegmentView {
    SegmentView { text, tint, bold, reversed }
}

/// The segment of `text` in the plain style.
pub open spec fn plain(text: Seq<char>) -> SegmentView {
    seg(text, Tint::Plain, false, false)
}

fn make_seg(text: &str, tint: Tint, bold: bool, reversed: bool) -> (r: Segment)
    ensures
        r@ == seg(text@, tint, bold, reversed),
{
    Segment { text: copy_str(text), tint, bold, reversed }
}

/// The indent segments of an item: one per ancestor, blank when the ancestor
/// was the last of its siblings and a vertical line otherwise.
pub open spec fn indent_segs(ancestors: Seq<bool>) -> Seq<SegmentView> {
    ancestors.map_values(|last: bool| plain(if last { "    "@ } else { "\u{2502}   "@ }))
}

/// The segment of a status mark on screen.
pub open spec fn mark_seg(m: Mark) -> SegmentView {
    match m {
        Mark::Staged => seg(" \u{2191}"@, Tint::Green, false, false),
        Mark::Unstaged => seg(" \u{2717}"@, Tint::Red, false, false),
        Mark::Untracked => seg(" \u{2717}"@, Tint::DarkGray, false, false),
        Mark::Incoming => seg(" \u{2193}"@, Tint::Blue, false, false),
    }
}

/// The rename text on screen: the buffer with a block cursor at byte `cursor`,
/// or after the end.
pub open spec fn with_cursor(buffer: Seq<char>, cursor: usize) -> Seq<char> {
    if cursor >= utf8_len(buffer) {
        buffer.push('\u{2588}')
    } else {
        insert_at_byte(buffer, cursor as int, '\u{2588}')
    }
}

/// The rename cursor can be drawn: when inside the buffer, it stands at the
/// start of a character.
pub open spec fn cursor_drawable(mode: InputMode) -> bool {
    match mode {
        InputMode::Rename { buffer, cursor } => cursor < utf8_len(buffer@) ==> at_char_boundary(
            buffer@,
            cursor as int,
        ),
        _ => true,
    }
}

/// The name segment of an item: reversed when selected; while renaming the
/// selected item, the rename buffer with its cursor; grey when ignored.
pub open spec fn name_seg(item: ItemView, selected: bool, mode: InputMode) -> SegmentView {
    let tint = if item.status.is_gitignored { Tint::DarkGray } else { Tint::Plain };
    if selected {
        match mode {
            InputMode::Rename { buffer, cursor } => seg(with_cursor(buffer@, cursor), Tint::Plain, false, true),
            _ => seg(item.name, tint, false, true),
        }
    } else {
        seg(item.name, tint, false, false)
    }
}

/// The segments of an item's line on screen: indent, branch, the expand mark
/// of a directory, the name, then the status marks.
pub open spec fn item_segs(item: ItemView, selected: bool, mode: InputMode) -> Seq<SegmentView> {
    indent_segs(item.ancestors_are_last) + seq![plain(branch_spec(item.is_last_sibling))] + (if item.is_file {
        Seq::empty()
    } else {
        seq![plain(if item.is_expanded { "\u{25bc} "@ } else { "\u{25b6} "@ })]
    }) + seq![name_seg(item, selected, mode)] + marks_spec(item.status).map_values(|m: Mark| mark_seg(m))
}

/// The segments of an item's line on screen (see `item_segs`).
pub fn item_segments(item: &SelectableItem, selected: bool, mode: &InputMode) -> (r: Vec<Segment>)
    requires
        cursor_drawable(*mode),
    ensures
        segs_view(r@) == item_segs(item@, selected, *mode),
{
    let mut r: Vec<Segment> = Vec::new();
    let mut i: usize = 0;
    let ghost anc = item.ancestors_are_last@;
    while i < item.ancestors_are_last.len()
        invariant
            i <= anc.len(),
            anc == item.ancestors_are_last@,
            segs_view(r@) == indent_segs(anc.subrange(0, i as int)),
        decreases anc.len() - i,
    {
        if item.ancestors_are_last[i] {
            r.push(make_seg("    ", Tint::Plain, false, false));
        } else {
            r.push(make_seg("\u{2502}   ", Tint::Plain, false, false));
        }
        assert(indent_segs(anc.subrange(0, i + 1)) =~= indent_segs(anc.subrange(0, i as int)).push(
            indent_segs(anc)[i as int],
        ));
        assert(segs_view(r@) =~= indent_segs(anc.subrange(0, i + 1)));
        i = i + 1;
    }
    assert(anc.subrange(0, anc.len() as int) =~= anc);
    let ghost before = segs_view(r@);
    let b = branch(item.is_last_sibling);
    r.push(Segment { text: b, tint: Tint::Plain, bold: false, reversed: false });
    if !item.is_file {
        if item.is_expanded {
            r.push(make_seg("\u{25bc} ", Tint::Plain, false, false));
        } else {
            r.push(make_seg("\u{25b6} ", Tint::Plain, false, false));
        }
    }
    let ghost before_name = segs_view(r@);
    let tint = if item.status.is_gitignored { Tint::DarkGray } else { Tint::Plain };
    let name = if selected {
        match mode {
            InputMode::Rename { buffer, cursor } => {
                let mut t = copy_str(buffer.as_str());
                if *cursor >= byte_len(buffer.as_str()) {
                    push_char(&mut t, '\u{2588}');
                } else {
                    insert_char_at(&mut t, *cursor, '\u{2588}');
                }
                Segment { text: t, tint: Tint::Plain, bold: false, reversed: true }
            },
            _ => Segment { text: copy_str(item.name.as_str()), tint, bold: false, reversed: true },
        }
    } else {
        Segment { text: copy_str(item.name.as_str()), tint, bold: false, reversed: false }
    };
    assert(name@ == name_seg(item@, selected, *mode));
    r.push(name);
    let ghost before_marks = segs_view(r@);
    let marks = status_marks(&item.status);
    let mut k: usize = 0;
    while k < marks.len()
        invariant
            k <= marks@.len(),
            marks@ == marks_spec(item.status),
            segs_view(r@) == before_marks + marks@.subrange(0, k as int).map_values(|m: Mark| mark_seg(m)),
        decreases marks@.len() - k,
    {
        let ghost prev = r@;
        match marks[k] {
            Mark::Staged => r.push(make_seg(" \u{2191}", Tint::Green, false, false)),
            Mark::Unstaged => r.push(make_seg(" \u{2717}", Tint::Red, false, false)),
            Mark::Untracked => r.push(make_seg(" \u{2717}", Tint::DarkGray, false, false)),
            Mark::Incoming => r.push(make_seg(" \u{2193}", Tint::Blue, false, false)),
        }
        assert(marks@.subrange(0, k + 1).map_values(|m: Mark| mark_seg(m)) =~= marks@.subrange(
            0,
            k as int,
        ).map_values(|m: Mark| mark_seg(m)).push(mark_seg(marks@[k as int])));
        assert(r@ == prev.push(r@.last()));
        assert(r@.last()@ == mark_seg(marks@[k as int]));
        assert(segs_view(r@) =~= segs_view(prev).push(mark_seg(marks@[k as int])));
        assert(segs_view(r@) =~= before_marks + marks@.subrange(0, k + 1).map_values(|m: Mark| mark_seg(m)));
        k = k + 1;
    }
    assert(marks@.subrange(0, marks@.len() as int) =~= marks@);
    assert(segs_view(r@) =~= item_segs(item@, selected, *mode));
    r
}


/// The header: repository and branch, the git mode mark, then the status
/// message, if any.
pub open spec fn header_segs(
    repo: Seq<char>,
    branch: Seq<char>,
    mode: AppMode,
    message: Option<Seq<char>>,
) -> Seq<SegmentView> {
    seq![seg(repo, Tint::Cyan, true, false), plain(":"@), seg(branch, Tint::Yellow, true, false)] + (
    if mode == AppMode::Git {
        seq![plain(" "@), seg("[ GIT MODE ]"@, Tint::Yellow, true, false)]
    } else {
        Seq::empty()
    }) + match message {
        Some(m) => seq![plain(" - "@), seg(m, Tint::Green, false, false)],
        None => Seq::empty(),
    }
}

/// The header segments (see `header_segs`).
pub fn header_segments(repo: &str, branch: &str, mode: AppMode, message: &Option<String>) -> (r: Vec<Segment>)
    ensures
        segs_view(r@) == header_segs(
            repo@,
            branch@,
            mode,
            match message {
                Some(m) => Some(m@),
                None => None,
            },
        ),
{
    let mut r: Vec<Segment> = Vec::new();
    r.push(make_seg(repo, Tint::Cyan, true, false));
    r.push(make_seg(":", Tint::Plain, false, false));
    r.push(make_seg(branch, Tint::Yellow, true, false));
    match mode {
        AppMode::Git => {
            r.push(make_seg(" ", Tint::Plain, false, false));
            r.push(make_seg("[ GIT MODE ]", Tint::Yellow, true, false));
        },
        AppMode::Normal => {},
    }
    match message {
        Some(m) => {
            r.push(make_seg(" - ", Tint::Plain, false, false));
            r.push(make_seg(m.as_str(), Tint::Green, false, false));
        },
        None => {},
    }
    assert(segs_view(r@) =~= header_segs(
        repo@,
        branch@,
        mode,
        match message {
            Some(m) => Some(m@),
            None => None,
        },
    ));
    r
}

/// The legend of the status marks.
pub open spec fn legend_segs() -> Seq<SegmentView> {
    seq![
        seg("\u{2191}"@, Tint::Green, false, false),
        plain("=staged "@),
        seg("\u{2717}"@, Tint::Red, false, false),
        plain("=modified "@),
        seg("\u{2717}"@, Tint::DarkGray, false, false),
        plain("=untracked "@),
        seg("\u{2193}"@, Tint::Blue, false, false),
        plain("=incoming"@),
    ]
}

/// The legend segments (see `legend_segs`).
pub fn legend_segments() -> (r: Vec<Segment>)
    ensures
        segs_view(r@) == legend_segs(),
{
    let mut r: Vec<Segment> = Vec::new();
    r.push(make_seg("\u{2191}", Tint::Green, false, false));
    r.push(make_seg("=staged ", Tint::Plain, false, false));
    r.push(make_seg("\u{2717}", Tint::Red, false, false));
    r.push(make_seg("=modified ", Tint::Plain, false, false));
    r.push(make_seg("\u{2717}", Tint::DarkGray, false, false));
    r.push(make_seg("=untracked ", Tint::Plain, false, false));
    r.push(make_seg("\u{2193}", Tint::Blue, false, false));
    r.push(make_seg("=incoming", Tint::Plain, false, false));
    assert(segs_view(r@) =~= legend_segs());
    r
}

/// The help line: what the keys do in the current input mode, or in the
/// current application mode while navigating.
pub open spec fn help_segs(input_mode: InputMode, mode: AppMode) -> Seq<SegmentView> {
    match input_mode {
        InputMode::Rename { .. } => seq![
            seg("RENAME: "@, Tint::Cyan, true, false),
            plain("Type new name | "@),
            seg("Tab"@, Tint::Plain, true, false),
            plain(": save | "@),
            seg("ESC"@, Tint::Plain, true, false),
            plain(": cancel"@),
        ],
        InputMode::Search { buffer } => seq![seg("SEARCH: "@, Tint::Cyan, true, false), plain(buffer@)],
        _ => if mode == AppMode::Git {
            seq![
                seg("GIT MODE: "@, Tint::Yellow, false, false),
                plain("a:stage u:unstage S:stage-all U:unstage-all x:discard m:commit "@),
                plain("f:fetch l:pull p:push d:diff q:exit-mode ESC:exit ctrl-c:quit"@),
            ]
        } else {
            seq![
                seg("\u{2191}"@, Tint::Green, false, false),
                plain("=staged "@),
                seg("\u{2717}"@, Tint::Red, false, false),
                plain("=modified "@),
                seg("\u{2717}"@, Tint::DarkGray, false, false),
                plain("=untracked "@),
                seg("\u{2193}"@, Tint::Blue, false, false),
                plain(
                    "=incoming | j/k:nav \u{2190}/\u{2192}:tree space:toggle .:dotfiles alt-g:git ctrl-c:quit"@,
                ),
            ]
        },
    }
}

/// The help line segments (see `help_segs`).
pub fn help_segments(input_mode: &InputMode, mode: AppMode) -> (r: Vec<Segment>)
    ensures
        segs_view(r@) == help_segs(*input_mode, mode),
{
    let mut r: Vec<Segment> = Vec::new();
    match input_mode {
        InputMode::Rename { .. } => {
            r.push(make_seg("RENAME: ", Tint::Cyan, true, false));
            r.push(make_seg("Type new name | ", Tint::Plain, false, false));
            r.push(make_seg("Tab", Tint::Plain, true, false));
            r.push(make_seg(": save | ", Tint::Plain, false, false));
            r.push(make_seg("ESC", Tint::Plain, true, false));
            r.push(make_seg(": cancel", Tint::Plain, false, false));
        },
        InputMode::Search { buffer } => {
            r.push(make_seg("SEARCH: ", Tint::Cyan, true, false));
            r.push(make_seg(buffer.as_str(), Tint::Plain, false, false));
        },
        _ => match mode {
            AppMode::Git => {
                r.push(make_seg("GIT MODE: ", Tint::Yellow, false, false));
                r.push(
                    make_seg(
                        "a:stage u:unstage S:stage-all U:unstage-all x:discard m:commit ",
                        Tint::Plain,
                        false,
                        false,
                    ),
                );
                r.push(
                    make_seg(
                        "f:fetch l:pull p:push d:diff q:exit-mode ESC:exit ctrl-c:quit",
                        Tint::Plain,
                        false,
                        false,
                    ),
                );
            },
            AppMode::Normal => {
                r.push(make_seg("\u{2191}", Tint::Green, false, false));
                r.push(make_seg("=staged ", Tint::Plain, false, false));
                r.push(make_seg("\u{2717}", Tint::Red, false, false));
                r.push(make_seg("=modified ", Tint::Plain, false, false));
                r.push(make_seg("\u{2717}", Tint::DarkGray, false, false));
                r.push(make_seg("=untracked ", Tint::Plain, false, false));
                r.push(make_seg("\u{2193}", Tint::Blue, false, false));
                r.push(
                    make_seg(
                        "=incoming | j/k:nav \u{2190}/\u{2192}:tree space:toggle .:dotfiles alt-g:git ctrl-c:quit",
                        Tint::Plain,
                        false,
                        false,
                    ),
                );
            },
        },
    }
    assert(segs_view(r@) =~= help_segs(*input_mode, mode));
    r
}

/// The abstract contents of lines of segments.
pub open spec fn lines_view(ls: Seq<Vec<Segment>>) -> Seq<Seq<SegmentView>> {
    ls.map_values(|l: Vec<Segment>| segs_view(l@))
}

/// Line `j` of the whole tree as drawn: the root "." first, then one line per
/// item, the selected one highlighted.
pub open spec fn display_line(items: Seq<ItemView>, j: int, selected: usize, mode: InputMode) -> Seq<
    SegmentView,
> {
    if j == 0 {
        seq![plain("."@)]
    } else {
        item_segs(items[j - 1], j - 1 == selected, mode)
    }
}

/// The line of the whole tree as drawn that holds the selection: the line
/// after the root for a selected item, or one past the last line.
pub open spec fn selected_line(n: nat, selected: usize) -> int {
    (if selected < n { selected as int } else { n as int }) + 1
}

/// The window of the whole tree as drawn (the root line and one line per
/// item) that fits in `height` lines around the selection (see `viewport_spec`).
pub open spec fn tree_window(n: nat, selected: usize, height: usize) -> (usize, usize) {
    viewport_spec(selected_line(n, selected) as usize, height, (n + 1) as usize)
}

/// The lines of the tree shown in a window of `height` lines: nothing for
/// no items; else the lines of the window of the tree as drawn, the root "."
/// counted as its first line.
pub open spec fn tree_lines_spec(
    items: Seq<ItemView>,
    selected: usize,
    mode: InputMode,
    height: usize,
) -> Seq<Seq<SegmentView>> {
    if items.len() == 0 {
        Seq::empty()
    } else {
        let (start, end) = tree_window(items.len(), selected, height);
        Seq::new((end - start) as nat, |i: int| display_line(items, start + i, selected, mode))
    }
}

/// Law of the tree window: it has at most `height` lines, and when there is
/// room for a line the selected item's line is among them.
pub proof fn lemma_tree_lines_show_selection(
    items: Seq<ItemView>,
    selected: usize,
    mode: InputMode,
    height: usize,
)
    requires
        items.len() < usize::MAX,
    ensures
        tree_lines_spec(items, selected, mode, height).len() <= height,
        height > 0 && selected < items.len() ==> {
            let k = selected + 1 - tree_window(items.len(), selected, height).0;
            &&& 0 <= k < tree_lines_spec(items, selected, mode, height).len()
            &&& tree_lines_spec(items, selected, mode, height)[k] == item_segs(items[selected as int], true, mode)
        },
{
}

/// The lines of the tree shown in a window of `height` lines (see `tree_lines_spec`).
pub fn tree_lines(items: &Vec<SelectableItem>, selected: usize, mode: &InputMode, height: usize) -> (r: Vec<
    Vec<Segment>,
>)
    requires
        cursor_drawable(*mode),
        items.len() < usize::MAX,
    ensures
        lines_view(r@) == tree_lines_spec(items_view(items@), selected, *mode, height),
{
    let ghost iv = items_view(items@);
    let n = items.len();
    let mut r: Vec<Vec<Segment>> = Vec::new();
    if n == 0 {
        assert(lines_view(r@) =~= Seq::<Seq<SegmentView>>::empty());
        return r;
    }
    let pos = if selected < n { selected + 1 } else { n + 1 };
    let (start, end) = viewport(pos, height, n + 1);
    assert(lines_view(r@) =~= Seq::new(0, |k: int| display_line(iv, start + k, selected, *mode)));
    let mut j: usize = start;
    while j < end
        invariant
            start <= j <= end <= n + 1,
            n == items@.len(),
            iv == items_view(items@),
            iv.len() == items@.len(),
            cursor_drawable(*mode),
            lines_view(r@) == Seq::new((j - start) as nat, |k: int| display_line(iv, start + k, selected, *mode)),
        decreases end - j,
    {
        let ghost prev = r@;
        if j == 0 {
            let mut root: Vec<Segment> = Vec::new();
            root.push(make_seg(".", Tint::Plain, false, false));
            assert(segs_view(root@) =~= seq![plain("."@)]);
            r.push(root);
        } else {
            let line = item_segments(&items[j - 1], j - 1 == selected, mode);
            assert(iv[j - 1] == items@[j - 1]@);
            r.push(line);
        }
        assert(segs_view(r@.last()@) == display_line(iv, j as int, selected, *mode));
        assert(lines_view(r@) =~= lines_view(prev).push(segs_view(r@.last()@)));
        assert(lines_view(r@) =~= Seq::new(
            (j + 1 - start) as nat,
            |k: int| display_line(iv, start + k, selected, *mode),
        ));
        j = j + 1;
    }
    r
}

/// The printed tree: the root "." and then one line per item.
pub open spec fn printed_lines_spec(items: Seq<ItemView>) -> Seq<Seq<char>> {
    seq![seq!['.']] + items.map_values(
        |it: ItemView| item_line_spec(it.ancestors_are_last, it.is_last_sibling, it.name, it.status),
    )
}

/// The printed tree (see `printed_lines_spec`).
pub fn printed_lines(items: &Vec<SelectableItem>) -> (r: Vec<String>)
    ensures
        r@.map_values(|l: String| l@) == printed_lines_spec(items_view(items@)),
{
    let ghost iv = items_view(items@);
    let mut r: Vec<String> = Vec::new();
    let dot = copy_str(".");
    proof {
        reveal_strlit(".");
    }
    assert(dot@ =~= seq!['.']);
    r.push(dot);
    assert(r@.map_values(|l: String| l@) =~= seq![seq!['.']]);
    assert(iv.subrange(0, 0).map_values(
        |it: ItemView| item_line_spec(it.ancestors_are_last, it.is_last_sibling, it.name, it.status),
    ) =~= Seq::<Seq<char>>::empty());
    assert(r@.map_values(|l: String| l@) =~= printed_lines_spec(iv.subrange(0, 0)));
    let mut i: usize = 0;
    while i < items.len()
        invariant
            i <= items.len(),
            iv == items_view(items@),
            r@.map_values(|l: String| l@) == printed_lines_spec(iv.subrange(0, i as int)),
        decreases items.len() - i,
    {
        let line = tree_item_line(&items[i]);
        let ghost prev = r@;
        r.push(line);
        assert(iv[i as int] == items@[i as int]@);
        assert(iv.subrange(0, i + 1) =~= iv.subrange(0, i as int).push(iv[i as int]));
        assert(r@.map_values(|l: String| l@) =~= prev.map_values(|l: String| l@).push(line@));
        assert(r@.map_values(|l: String| l@) =~= printed_lines_spec(iv.subrange(0, i + 1)));
        i = i + 1;
    }
    assert(iv.subrange(0, items.len() as int) =~= iv);
    r
}

} // verus!
