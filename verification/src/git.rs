//! The decisions around git: reading status flags, merging file lists,
//! marking incoming changes, reading command output, and wording errors.
use vstd::prelude::*;
use crate::types::{FileStatus, FileEntry, clean_status};
use crate::path::{components, path_components, path_eq, paths_equal, seqs_view, file_name_spec};
use crate::text::{
    chars_lt, chars_less, chars_of, copy_str, push_str, str_contains, occurs_in, trim_spec,
    trim_str, string_from_chars, chars_eq, lemma_chars_lt_irreflexive, lemma_chars_lt_total,
    lemma_chars_lt_transitive,
};

verus! {

/// Status flag of a file added to the index.
pub const INDEX_NEW: u32 = 1;
/// Status flag of a file modified in the index.
pub const INDEX_MODIFIED: u32 = 2;
/// Status flag of a file deleted in the index.
pub const INDEX_DELETED: u32 = 4;
/// Status flag of a file renamed in the index.
pub const INDEX_RENAMED: u32 = 8;
/// Status flag of a file whose type changed in the index.
pub const INDEX_TYPECHANGE: u32 = 16;
/// Status flag of an untracked file.
pub const WT_NEW: u32 = 128;
/// Status flag of a file modified in the working tree.
pub const WT_MODIFIED: u32 = 256;
/// Status flag of a file deleted in the working tree.
pub const WT_DELETED: u32 = 512;
/// Status flag of a file whose type changed in the working tree.
pub const WT_TYPECHANGE: u32 = 1024;
/// Status flag of a file renamed in the working tree.
pub const WT_RENAMED: u32 = 2048;
/// Status flag of an ignored file.
pub const IGNORED: u32 = 16384;

/// The file status of git status flags `bits`: staged for any index change,
/// unstaged for a working-tree modification, deletion, rename or type
/// change, untracked for a new working-tree file, ignored for an ignored one.
pub open spec fn status_of_bits(bits: u32) -> FileStatus {
    FileStatus {
        is_staged: bits & (INDEX_NEW | INDEX_MODIFIED | INDEX_DELETED | INDEX_RENAMED | INDEX_TYPECHANGE)
            != 0,
        is_unstaged: bits & (WT_MODIFIED | WT_DELETED | WT_RENAMED | WT_TYPECHANGE) != 0,
        is_untracked: bits & WT_NEW == WT_NEW,
        has_incoming: false,
        is_gitignored: bits & IGNORED == IGNORED,
    }
}

/// Converts git status flags into a file status.
pub fn parse_status(bits: u32) -> (r: FileStatus)
    ensures
        r == status_of_bits(bits),
{
    let mut fs = FileStatus::new();
    if bits & (INDEX_NEW | INDEX_MODIFIED | INDEX_DELETED | INDEX_RENAMED | INDEX_TYPECHANGE) != 0 {
        fs.is_staged = true;
    }
    if bits & (WT_MODIFIED | WT_DELETED | WT_RENAMED | WT_TYPECHANGE) != 0 {
        fs.is_unstaged = true;
    }
    if bits & WT_NEW == WT_NEW {
        fs.is_untracked = true;
    }
    if bits & IGNORED == IGNORED {
        fs.is_gitignored = true;
    }
    fs
}

/// Law of reading status flags: a file is staged exactly when some index
/// flag (new, modified, deleted, renamed, type change) is set, unstaged
/// exactly when some working-tree change flag (modified, deleted, renamed,
/// type change) is set, untracked exactly for the new working-tree flag,
/// ignored exactly for the ignored flag, and never marked incoming.
pub proof fn lemma_status_flags(bits: u32)
    ensures
        status_of_bits(bits).is_staged == ((bits & 1) != 0 || (bits & 2) != 0 || (bits & 4) != 0
            || (bits & 8) != 0 || (bits & 16) != 0),
        status_of_bits(bits).is_unstaged == ((bits & 256) != 0 || (bits & 512) != 0 || (bits & 1024)
            != 0 || (bits & 2048) != 0),
        status_of_bits(bits).is_untracked == ((bits & 128) != 0),
        status_of_bits(bits).is_gitignored == ((bits & 16384) != 0),
        !status_of_bits(bits).has_incoming,
{
    assert(INDEX_NEW | INDEX_MODIFIED | INDEX_DELETED | INDEX_RENAMED | INDEX_TYPECHANGE == 31u32) by (bit_vector);
    assert(WT_MODIFIED | WT_DELETED | WT_RENAMED | WT_TYPECHANGE == 3840u32) by (bit_vector);
    assert(((bits & 31u32) != 0) == ((bits & 1) != 0 || (bits & 2) != 0 || (bits & 4) != 0 || (bits & 8)
        != 0 || (bits & 16) != 0)) by (bit_vector);
    assert(((bits & 3840u32) != 0) == ((bits & 256) != 0 || (bits & 512) != 0 || (bits & 1024) != 0
        || (bits & 2048) != 0)) by (bit_vector);
    assert(((bits & 128u32) == 128u32) == ((bits & 128) != 0)) by (bit_vector);
    assert(((bits & 16384u32) == 16384u32) == ((bits & 16384) != 0)) by (bit_vector);
}

/// The rank of a path component in the order of component kinds: root, current
/// directory, parent directory, then names.
pub open spec fn component_rank(c: Seq<char>) -> int {
    if c =~= seq!['/'] {
        1
    } else if c =~= seq!['.'] {
        2
    } else if c =~= seq!['.', '.'] {
        3
    } else {
        4
    }
}

/// Component `a` comes before component `b`: by kind, then by name.
pub open spec fn component_lt(a: Seq<char>, b: Seq<char>) -> bool {
    component_rank(a) < component_rank(b) || (component_rank(a) == component_rank(b) && chars_lt(a, b))
}

/// The component list `a` comes before `b` in lexicographic order.
pub open spec fn components_lt(a: Seq<Seq<char>>, b: Seq<Seq<char>>) -> bool
    decreases a.len(),
{
    if a.len() == 0 {
        b.len() > 0
    } else if b.len() == 0 {
        false
    } else if a[0] != b[0] {
        component_lt(a[0], b[0])
    } else {
        components_lt(a.drop_first(), b.drop_first())
    }
}

/// Path `a` comes before path `b`: compared component by component.
pub open spec fn path_lt(a: Seq<char>, b: Seq<char>) -> bool {
    components_lt(components(a), components(b))
}

/// The abstract content of a file entry.
pub open spec fn entry_view(e: FileEntry) -> (Seq<char>, FileStatus) {
    (e.path@, e.status)
}

/// The abstract contents of file entries.
pub open spec fn entries_view(es: Seq<FileEntry>) -> Seq<(Seq<char>, FileStatus)> {
    es.map_values(|e: FileEntry| entry_view(e))
}

/// Where an entry with path `p` goes in `r`: before the first entry whose
/// path comes after `p`, or at the end.
pub open spec fn entry_insert_pos(r: Seq<(Seq<char>, FileStatus)>, p: Seq<char>) -> nat
    decreases r.len(),
{
    if r.len() == 0 {
        0
    } else if path_lt(p, r[0].0) {
        0
    } else {
        1 + entry_insert_pos(r.drop_first(), p)
    }
}

/// The entries sorted by path, stably.
pub open spec fn sort_entries(es: Seq<(Seq<char>, FileStatus)>) -> Seq<(Seq<char>, FileStatus)>
    decreases es.len(),
{
    if es.len() == 0 {
        es
    } else {
        let r = sort_entries(es.drop_last());
        r.insert(entry_insert_pos(r, es.last().0) as int, es.last())
    }
}

proof fn lemma_component_lt_order(a: Seq<char>, b: Seq<char>, c: Seq<char>)
    ensures
        !component_lt(a, a),
        component_lt(a, b) && component_lt(b, c) ==> component_lt(a, c),
        a != b ==> component_lt(a, b) || component_lt(b, a),
{
    lemma_chars_lt_irreflexive(a);
    if component_lt(a, b) && component_lt(b, c) && component_rank(a) == component_rank(b)
        && component_rank(b) == component_rank(c) {
        lemma_chars_lt_transitive(a, b, c);
    }
    if a != b {
        lemma_chars_lt_total(a, b);
    }
}

proof fn lemma_components_lt_irreflexive(a: Seq<Seq<char>>)
    ensures
        !components_lt(a, a),
    decreases a.len(),
{
    if a.len() > 0 {
        lemma_components_lt_irreflexive(a.drop_first());
    }
}

proof fn lemma_components_lt_transitive(a: Seq<Seq<char>>, b: Seq<Seq<char>>, c: Seq<Seq<char>>)
    requires
        components_lt(a, b),
        components_lt(b, c),
    ensures
        components_lt(a, c),
    decreases a.len(),
{
    if a.len() > 0 && b.len() > 0 && c.len() > 0 {
        lemma_component_lt_order(a[0], b[0], c[0]);
        if a[0] == b[0] && b[0] == c[0] {
            lemma_components_lt_transitive(a.drop_first(), b.drop_first(), c.drop_first());
        }
    }
}

proof fn lemma_components_lt_total(a: Seq<Seq<char>>, b: Seq<Seq<char>>)
    requires
        a != b,
    ensures
        components_lt(a, b) || components_lt(b, a),
    decreases a.len(),
{
    if a.len() > 0 && b.len() > 0 {
        lemma_component_lt_order(a[0], b[0], b[0]);
        if a[0] == b[0] {
            if a.drop_first() == b.drop_first() {
                assert(a =~= seq![a[0]] + a.drop_first());
                assert(b =~= seq![b[0]] + b.drop_first());
            }
            lemma_components_lt_total(a.drop_first(), b.drop_first());
        }
    } else if a.len() == 0 && b.len() == 0 {
        assert(a =~= b);
    }
}

/// The paths of `s` never decrease.
pub open spec fn sorted_by_path(s: Seq<(Seq<char>, FileStatus)>) -> bool {
    forall|i: int, j: int| #![trigger s[i], s[j]] 0 <= i < j < s.len() ==> !path_lt(s[j].0, s[i].0)
}

proof fn lemma_entry_insert_pos_props(r: Seq<(Seq<char>, FileStatus)>, p: Seq<char>)
    ensures
        entry_insert_pos(r, p) <= r.len(),
        forall|i: int| 0 <= i < entry_insert_pos(r, p) ==> !path_lt(p, (#[trigger] r[i]).0),
        entry_insert_pos(r, p) < r.len() ==> path_lt(p, r[entry_insert_pos(r, p) as int].0),
    decreases r.len(),
{
    if r.len() > 0 && !path_lt(p, r[0].0) {
        let t = r.drop_first();
        lemma_entry_insert_pos_props(t, p);
        assert forall|i: int| 0 <= i < entry_insert_pos(r, p) implies !path_lt(p, (#[trigger] r[i]).0) by {
            if i > 0 {
                assert(r[i] == t[i - 1]);
            }
        }
        if entry_insert_pos(r, p) < r.len() {
            assert(r[entry_insert_pos(r, p) as int] == t[entry_insert_pos(t, p) as int]);
        }
    }
}

proof fn lemma_path_after(k: Seq<char>, a: Seq<char>, b: Seq<char>)
    requires
        path_lt(k, a),
        !path_lt(b, a),
    ensures
        !path_lt(b, k),
{
    let (ck, ca, cb) = (components(k), components(a), components(b));
    if ca != cb {
        lemma_components_lt_total(ca, cb);
        lemma_components_lt_transitive(ck, ca, cb);
    }
    if components_lt(cb, ck) {
        lemma_components_lt_transitive(ck, cb, ck);
        lemma_components_lt_irreflexive(ck);
    }
}

/// Law of the sort by path: the paths come out in order, and the entries are
/// exactly those given.
pub proof fn lemma_sort_entries_sorted(es: Seq<(Seq<char>, FileStatus)>)
    ensures
        sorted_by_path(sort_entries(es)),
        sort_entries(es).to_multiset() == es.to_multiset(),
    decreases es.len(),
{
    if es.len() > 0 {
        let r = sort_entries(es.drop_last());
        let x = es.last();
        let p = entry_insert_pos(r, x.0) as int;
        lemma_sort_entries_sorted(es.drop_last());
        lemma_entry_insert_pos_props(r, x.0);
        let s = r.insert(p, x);
        assert forall|i: int, j: int| 0 <= i < j < s.len() implies !path_lt(
            (#[trigger] s[j]).0,
            (#[trigger] s[i]).0,
        ) by {
            if j < p {
                assert(s[i] == r[i] && s[j] == r[j]);
            } else if j == p {
                assert(s[i] == r[i]);
            } else if i < p {
                assert(s[i] == r[i] && s[j] == r[j - 1]);
            } else if i == p {
                assert(s[j] == r[j - 1]);
                if j - 1 > p {
                    assert(!path_lt(r[j - 1].0, r[p].0));
                } else {
                    lemma_components_lt_irreflexive(components(r[p].0));
                }
                lemma_path_after(x.0, r[p].0, r[j - 1].0);
            } else {
                assert(s[i] == r[i - 1] && s[j] == r[j - 1]);
            }
        }
        vstd::seq_lib::to_multiset_insert(r, p, x);
        vstd::seq_lib::to_multiset_build(es.drop_last(), x);
        assert(es.drop_last().push(x) =~= es);
    }
}

/// Whether component `a` comes before component `b`.
fn component_less(a: &Vec<char>, b: &Vec<char>) -> (r: bool)
    ensures
        r == component_lt(a@, b@),
{
    let ra = rank_exec(a);
    let rb = rank_exec(b);
    ra < rb || (ra == rb && chars_less(a, b))
}

fn rank_exec(c: &Vec<char>) -> (r: u8)
    ensures
        r as int == component_rank(c@),
{
    if c.len() == 1 && c[0] == '/' {
        assert(c@ =~= seq!['/']);
        1
    } else if c.len() == 1 && c[0] == '.' {
        assert(c@ =~= seq!['.']);
        assert(!(c@ =~= seq!['/']));
        2
    } else if c.len() == 2 && c[0] == '.' && c[1] == '.' {
        assert(c@ =~= seq!['.', '.']);
        assert(!(c@ =~= seq!['/']));
        assert(!(c@ =~= seq!['.']));
        3
    } else {
        assert(!(c@ =~= seq!['/'])) by {
            if c@.len() == 1 {
                assert(c@[0] != seq!['/'][0]);
            }
        }
        assert(!(c@ =~= seq!['.'])) by {
            if c@.len() == 1 {
                assert(c@[0] != seq!['.'][0]);
            }
        }
        assert(!(c@ =~= seq!['.', '.'])) by {
            if c@.len() == 2 {
                assert(c@[0] != '.' || c@[1] != '.');
            }
        }
        4
    }
}

/// Whether the component list `a` comes before `b`.
fn components_less(a: &Vec<Vec<char>>, b: &Vec<Vec<char>>) -> (r: bool)
    ensures
        r == components_lt(seqs_view(a@), seqs_view(b@)),
{
    let ghost sa = seqs_view(a@);
    let ghost sb = seqs_view(b@);
    let mut i: usize = 0;
    assert(sa.subrange(0, sa.len() as int) =~= sa);
    assert(sb.subrange(0, sb.len() as int) =~= sb);
    while i < a.len() && i < b.len()
        invariant
            i <= a.len(),
            i <= b.len(),
            sa == seqs_view(a@),
            sb == seqs_view(b@),
            components_lt(sa, sb) == components_lt(
                sa.subrange(i as int, sa.len() as int),
                sb.subrange(i as int, sb.len() as int),
            ),
        decreases a.len() - i,
    {
        let ghost ta = sa.subrange(i as int, sa.len() as int);
        let ghost tb = sb.subrange(i as int, sb.len() as int);
        assert(ta[0] == a@[i as int]@);
        assert(tb[0] == b@[i as int]@);
        if !chars_eq(&a[i], &b[i]) {
            return component_less(&a[i], &b[i]);
        }
        assert(ta.drop_first() =~= sa.subrange(i + 1, sa.len() as int));
        assert(tb.drop_first() =~= sb.subrange(i + 1, sb.len() as int));
        i = i + 1;
    }
    i == a.len() && i < b.len()
}

/// Sorts entries by path, stably.
pub fn sort_by_path(v: Vec<FileEntry>) -> (r: Vec<FileEntry>)
    ensures
        entries_view(r@) == sort_entries(entries_view(v@)),
{
    let ghost vv = entries_view(v@);
    let ghost orig = v@;
    let total = v.len();
    let mut src = v;
    let mut out: Vec<FileEntry> = Vec::new();
    let mut keys: Vec<Vec<Vec<char>>> = Vec::new();
    let mut k: usize = 0;
    assert(vv.subrange(0, 0) =~= Seq::<(Seq<char>, FileStatus)>::empty());
    assert(entries_view(out@) =~= sort_entries(vv.subrange(0, 0)));
    assert(src@ =~= orig.subrange(0, total as int));
    while k < total
        invariant
            total == orig.len(),
            vv == entries_view(orig),
            k <= total,
            src@ == orig.subrange(k as int, total as int),
            entries_view(out@) == sort_entries(vv.subrange(0, k as int)),
            out@.len() == k,
            keys@.len() == out@.len(),
            forall|i: int| 0 <= i < out@.len() ==> #[trigger] seqs_view(keys@[i]@) == components(out@[i].path@),
        decreases total - k,
    {
        let x = src.remove(0);
        assert(x == orig[k as int]);
        assert(src@ =~= orig.subrange(k + 1, total as int));
        let kx = path_components(x.path.as_str());
        let ghost r = entries_view(out@);
        let mut j: usize = 0;
        assert(r.subrange(0, r.len() as int) =~= r);
        while j < out.len() && !components_less(&kx, &keys[j])
            invariant
                r == entries_view(out@),
                keys@.len() == out@.len(),
                forall|i: int| 0 <= i < out@.len() ==> #[trigger] seqs_view(keys@[i]@) == components(out@[i].path@),
                seqs_view(kx@) == components(x.path@),
                j <= out.len(),
                entry_insert_pos(r, x.path@) == j + entry_insert_pos(r.subrange(j as int, r.len() as int), x.path@),
            decreases out.len() - j,
        {
            let ghost rest = r.subrange(j as int, r.len() as int);
            assert(rest[0] == r[j as int]);
            assert(rest.drop_first() =~= r.subrange(j + 1, r.len() as int));
            j = j + 1;
        }
        proof {
            let rest = r.subrange(j as int, r.len() as int);
            if j < out.len() {
                assert(rest[0] == r[j as int]);
            }
            assert(entry_insert_pos(r, x.path@) == j);
            let pre = vv.subrange(0, k + 1);
            assert(pre.drop_last() =~= vv.subrange(0, k as int));
            assert(pre.last() == entry_view(x));
        }
        let ghost out_before = out@;
        let ghost keys_before = keys@;
        let ghost xv = entry_view(x);
        out.insert(j, x);
        keys.insert(j, kx);
        proof {
            assert(entries_view(out@) =~= r.insert(j as int, xv));
            assert forall|i: int| 0 <= i < out@.len() implies #[trigger] seqs_view(keys@[i]@) == components(
                out@[i].path@,
            ) by {
                if i < j {
                    assert(keys@[i] == keys_before[i]);
                    assert(out@[i] == out_before[i]);
                } else if i == j {
                } else {
                    assert(keys@[i] == keys_before[i - 1]);
                    assert(out@[i] == out_before[i - 1]);
                }
            }
        }
        k = k + 1;
    }
    assert(vv.subrange(0, total as int) =~= vv);
    out
}

/// The dirty files reported by git status, as (path, status flags) pairs:
/// entries without a path are skipped, and the rest are sorted by path.
pub open spec fn dirty_files_spec(entries: Seq<(Option<Seq<char>>, u32)>) -> Seq<(Seq<char>, FileStatus)> {
    sort_entries(with_paths(entries))
}

/// The entries that have a path, with their statuses.
pub open spec fn with_paths(entries: Seq<(Option<Seq<char>>, u32)>) -> Seq<(Seq<char>, FileStatus)>
    decreases entries.len(),
{
    if entries.len() == 0 {
        Seq::empty()
    } else {
        let r = with_paths(entries.drop_last());
        match entries.last().0 {
            Some(p) => r.push((p, status_of_bits(entries.last().1))),
            None => r,
        }
    }
}

proof fn lemma_with_paths_has(entries: Seq<(Option<Seq<char>>, u32)>, i: int)
    requires
        0 <= i < entries.len(),
        entries[i].0 is Some,
    ensures
        with_paths(entries).contains((entries[i].0->0, status_of_bits(entries[i].1))),
    decreases entries.len(),
{
    let r = with_paths(entries.drop_last());
    if i < entries.len() - 1 {
        assert(entries.drop_last()[i] == entries[i]);
        lemma_with_paths_has(entries.drop_last(), i);
        let k = choose|k: int| 0 <= k < r.len() && r[k] == (entries[i].0->0, status_of_bits(entries[i].1));
        match entries.last().0 {
            Some(p) => {
                assert(with_paths(entries) == r.push((p, status_of_bits(entries.last().1))));
                assert(with_paths(entries)[k] == r[k]);
            },
            None => {},
        }
    } else {
        let x = (entries[i].0->0, status_of_bits(entries[i].1));
        assert(with_paths(entries) == r.push(x));
        assert(with_paths(entries)[r.len() as int] == x);
    }
}

/// Law of reading dirty files: every status entry with a path is among the
/// dirty files, with the status its flags give.
pub proof fn lemma_dirty_files_has(entries: Seq<(Option<Seq<char>>, u32)>, i: int)
    requires
        0 <= i < entries.len(),
        entries[i].0 is Some,
    ensures
        dirty_files_spec(entries).contains((entries[i].0->0, status_of_bits(entries[i].1))),
{
    let x = (entries[i].0->0, status_of_bits(entries[i].1));
    lemma_with_paths_has(entries, i);
    lemma_sort_entries_sorted(with_paths(entries));
    vstd::seq_lib::to_multiset_contains(with_paths(entries), x);
    vstd::seq_lib::to_multiset_contains(dirty_files_spec(entries), x);
}

/// The abstract content of status entries.
pub open spec fn status_entries_view(es: Seq<(Option<String>, u32)>) -> Seq<(Option<Seq<char>>, u32)> {
    es.map_values(
        |e: (Option<String>, u32)|
            (
                match e.0 {
                    Some(s) => Some(s@),
                    None => None,
                },
                e.1,
            ),
    )
}

/// The dirty files of the repository from git status entries (see `dirty_files_spec`).
pub fn get_dirty_files(entries: Vec<(Option<String>, u32)>) -> (r: Vec<FileEntry>)
    ensures
        entries_view(r@) == dirty_files_spec(status_entries_view(entries@)),
{
    let ghost ev = status_entries_view(entries@);
    let mut files: Vec<FileEntry> = Vec::new();
    let mut src = entries;
    let ghost orig = src@;
    let n = src.len();
    let mut i: usize = 0;
    assert(ev.subrange(0, 0) =~= Seq::<(Option<Seq<char>>, u32)>::empty());
    assert(entries_view(files@) =~= with_paths(ev.subrange(0, 0)));
    assert(src@ =~= orig.subrange(0, n as int));
    while i < n
        invariant
            n == orig.len(),
            ev == status_entries_view(orig),
            i <= n,
            src@ == orig.subrange(i as int, n as int),
            entries_view(files@) == with_paths(ev.subrange(0, i as int)),
        decreases n - i,
    {
        let (path, bits) = src.remove(0);
        assert(src@ =~= orig.subrange(i + 1, n as int));
        let ghost pre = ev.subrange(0, i + 1);
        assert(pre.drop_last() =~= ev.subrange(0, i as int));
        assert(pre.last() == ev[i as int]);
        match path {
            Some(p) => {
                let status = parse_status(bits);
                files.push(FileEntry::new(p, status));
                assert(entries_view(files@) =~= with_paths(pre));
            },
            None => {},
        }
        i = i + 1;
    }
    assert(ev.subrange(0, n as int) =~= ev);
    sort_by_path(files)
}

} // verus!

verus! {

/// The status of path `p` in `dirty`: that of the last entry with an equal
/// path, or the clean status.
pub open spec fn lookup_status(dirty: Seq<(Seq<char>, FileStatus)>, p: Seq<char>) -> FileStatus
    decreases dirty.len(),
{
    if dirty.len() == 0 {
        clean_status()
    } else if path_eq(dirty.last().0, p) {
        dirty.last().1
    } else {
        lookup_status(dirty.drop_last(), p)
    }
}

/// Some path of `ps` equals `p`.
pub open spec fn path_in(ps: Seq<Seq<char>>, p: Seq<char>) -> bool {
    exists|i: int| 0 <= i < ps.len() && path_eq(#[trigger] ps[i], p)
}

/// The index paths, each first occurrence once, with its status from `dirty`.
pub open spec fn index_entries(ps: Seq<Seq<char>>, dirty: Seq<(Seq<char>, FileStatus)>) -> Seq<(Seq<char>, FileStatus)>
    decreases ps.len(),
{
    if ps.len() == 0 {
        Seq::empty()
    } else {
        let r = index_entries(ps.drop_last(), dirty);
        if path_in(ps.drop_last(), ps.last()) {
            r
        } else {
            r.push((ps.last(), lookup_status(dirty, ps.last())))
        }
    }
}

/// The untracked entries of `dirty` whose path is not among `ps`.
pub open spec fn untracked_extra(dirty: Seq<(Seq<char>, FileStatus)>, ps: Seq<Seq<char>>) -> Seq<(Seq<char>, FileStatus)>
    decreases dirty.len(),
{
    if dirty.len() == 0 {
        Seq::empty()
    } else {
        let r = untracked_extra(dirty.drop_last(), ps);
        if dirty.last().1.is_untracked && !path_in(ps, dirty.last().0) {
            r.push(dirty.last())
        } else {
            r
        }
    }
}

/// All files: the index paths with their statuses, then the untracked files
/// not in the index, sorted by path.
pub open spec fn all_files_spec(ps: Seq<Seq<char>>, dirty: Seq<(Seq<char>, FileStatus)>) -> Seq<(Seq<char>, FileStatus)> {
    sort_entries(index_entries(ps, dirty) + untracked_extra(dirty, ps))
}

/// Whether some of the first `k` paths of `ps` equals `p`.
fn path_in_prefix(ps: &Vec<String>, k: usize, p: &str) -> (r: bool)
    requires
        k <= ps.len(),
    ensures
        r == path_in(crate::path::strings_view(ps@).subrange(0, k as int), p@),
{
    let ghost sv = crate::path::strings_view(ps@).subrange(0, k as int);
    let mut j: usize = 0;
    while j < k
        invariant
            k <= ps.len(),
            j <= k,
            sv == crate::path::strings_view(ps@).subrange(0, k as int),
            forall|m: int| 0 <= m < j ==> !path_eq(#[trigger] sv[m], p@),
        decreases k - j,
    {
        if paths_equal(ps[j].as_str(), p) {
            assert(path_eq(sv[j as int], p@));
            return true;
        }
        j = j + 1;
    }
    false
}

/// The status of `p` in `dirty` (see `lookup_status`).
fn lookup(dirty: &Vec<FileEntry>, p: &str) -> (r: FileStatus)
    ensures
        r == lookup_status(entries_view(dirty@), p@),
{
    let ghost dv = entries_view(dirty@);
    let mut k: usize = dirty.len();
    assert(dv.subrange(0, dv.len() as int) =~= dv);
    while k > 0
        invariant
            k <= dirty.len(),
            dv == entries_view(dirty@),
            lookup_status(dv, p@) == lookup_status(dv.subrange(0, k as int), p@),
        decreases k,
    {
        let ghost sub = dv.subrange(0, k as int);
        assert(sub.last() == entry_view(dirty@[k - 1]));
        if paths_equal(dirty[k - 1].path.as_str(), p) {
            return dirty[k - 1].status;
        }
        assert(sub.drop_last() =~= dv.subrange(0, k - 1));
        k = k - 1;
    }
    FileStatus::new()
}

/// All tracked files of the index, with the statuses of `dirty`, then the
/// untracked files of `dirty`, sorted by path (see `all_files_spec`).
pub fn get_all_files(index_paths: Vec<String>, dirty: Vec<FileEntry>) -> (r: Vec<FileEntry>)
    ensures
        entries_view(r@) == all_files_spec(crate::path::strings_view(index_paths@), entries_view(dirty@)),
{
    let ghost ps = crate::path::strings_view(index_paths@);
    let ghost dv = entries_view(dirty@);
    let mut files: Vec<FileEntry> = Vec::new();
    let n = index_paths.len();
    let mut i: usize = 0;
    assert(ps.subrange(0, 0) =~= Seq::<Seq<char>>::empty());
    assert(entries_view(files@) =~= index_entries(ps.subrange(0, 0), dv));
    while i < n
        invariant
            n == index_paths.len(),
            ps == crate::path::strings_view(index_paths@),
            dv == entries_view(dirty@),
            i <= n,
            entries_view(files@) == index_entries(ps.subrange(0, i as int), dv),
        decreases n - i,
    {
        let p = index_paths[i].as_str();
        let ghost pre = ps.subrange(0, i + 1);
        assert(pre.drop_last() =~= ps.subrange(0, i as int));
        assert(pre.last() == p@);
        if !path_in_prefix(&index_paths, i, p) {
            let status = lookup(&dirty, p);
            files.push(FileEntry::new(copy_str(p), status));
            assert(entries_view(files@) =~= index_entries(pre, dv));
        }
        i = i + 1;
    }
    assert(ps.subrange(0, n as int) =~= ps);
    let ghost idx_part = entries_view(files@);
    let m = dirty.len();
    let mut j: usize = 0;
    assert(dv.subrange(0, 0) =~= Seq::<(Seq<char>, FileStatus)>::empty());
    assert(entries_view(files@) =~= idx_part + untracked_extra(dv.subrange(0, 0), ps));
    while j < m
        invariant
            m == dirty.len(),
            n == index_paths.len(),
            ps == crate::path::strings_view(index_paths@),
            dv == entries_view(dirty@),
            j <= m,
            entries_view(files@) == idx_part + untracked_extra(dv.subrange(0, j as int), ps),
        decreases m - j,
    {
        let e = &dirty[j];
        let ghost pre = dv.subrange(0, j + 1);
        assert(pre.drop_last() =~= dv.subrange(0, j as int));
        assert(pre.last() == entry_view(*e));
        assert(ps.subrange(0, n as int) =~= ps);
        let in_index = path_in_prefix(&index_paths, n, e.path.as_str());
        assert(in_index == path_in(ps, e.path@));
        if e.status.is_untracked && !in_index {
            let ghost before = entries_view(files@);
            let ne = FileEntry::new(e.path.clone(), e.status);
            files.push(ne);
            assert(entry_view(ne) == entry_view(*e));
            assert(entries_view(files@) =~= before.push(entry_view(*e)));
            assert(untracked_extra(pre, ps) == untracked_extra(dv.subrange(0, j as int), ps).push(entry_view(*e)));
            assert(entries_view(files@) =~= idx_part + untracked_extra(pre, ps));
        }
        j = j + 1;
    }
    assert(dv.subrange(0, m as int) =~= dv);
    sort_by_path(files)
}

} // verus!

verus! {

/// The parts of `s` between its newline characters (there is always at least one).
pub open spec fn newline_parts(s: Seq<char>) -> Seq<Seq<char>>
    decreases s.len(),
{
    if s.len() == 0 {
        seq![Seq::<char>::empty()]
    } else {
        let r = newline_parts(s.drop_last());
        if s.last() == '\n' {
            r.push(Seq::<char>::empty())
        } else {
            r.update(r.len() - 1, r[r.len() - 1].push(s.last()))
        }
    }
}

/// `l` without one trailing carriage return.
pub open spec fn strip_cr(l: Seq<char>) -> Seq<char> {
    if l.len() > 0 && l.last() == '\r' {
        l.drop_last()
    } else {
        l
    }
}

/// The lines of `s`: split at "\n" or "\r\n", with no empty line after a
/// final line ending.
pub open spec fn lines_spec(s: Seq<char>) -> Seq<Seq<char>> {
    let parts = newline_parts(s);
    let ended = parts.drop_last().map_values(|l: Seq<char>| strip_cr(l));
    if parts.last().len() > 0 {
        ended.push(parts.last())
    } else {
        ended
    }
}

proof fn lemma_newline_parts_nonempty(s: Seq<char>)
    ensures
        newline_parts(s).len() >= 1,
    decreases s.len(),
{
    if s.len() > 0 {
        lemma_newline_parts_nonempty(s.drop_last());
    }
}

proof fn lemma_parts_ended(x: Seq<char>)
    requires
        x.len() == 0 || x.last() == '\n',
    ensures
        newline_parts(x).len() >= 1,
        newline_parts(x).last() == Seq::<char>::empty(),
{
    lemma_newline_parts_nonempty(x);
}

proof fn lemma_parts_extend(x: Seq<char>, l: Seq<char>)
    requires
        forall|i: int| 0 <= i < l.len() ==> l[i] != '\n',
    ensures
        newline_parts(x + l).len() == newline_parts(x).len(),
        newline_parts(x + l) == newline_parts(x).update(
            newline_parts(x).len() - 1,
            newline_parts(x).last() + l,
        ),
    decreases l.len(),
{
    lemma_newline_parts_nonempty(x);
    if l.len() == 0 {
        assert(x + l =~= x);
        assert(newline_parts(x).last() + l =~= newline_parts(x).last());
        assert(newline_parts(x).update(newline_parts(x).len() - 1, newline_parts(x).last())
            =~= newline_parts(x));
    } else {
        let l0 = l.drop_last();
        lemma_parts_extend(x, l0);
        assert((x + l).drop_last() =~= x + l0);
        assert((x + l).last() == l.last());
        assert(l.last() != '\n');
        let r = newline_parts(x + l0);
        assert(newline_parts(x).last() + l =~= (newline_parts(x).last() + l0).push(l.last()));
        assert(newline_parts(x + l) =~= r.update(r.len() - 1, r[r.len() - 1].push(l.last())));
        assert(newline_parts(x + l) =~= newline_parts(x).update(
            newline_parts(x).len() - 1,
            newline_parts(x).last() + l,
        ));
    }
}

/// Law of splitting into lines: after text that ends a line (or is empty),
/// a line without a line feed and then a line feed adds exactly that line,
/// without a carriage return at its end.
pub proof fn lemma_lines_append(x: Seq<char>, l: Seq<char>)
    requires
        x.len() == 0 || x.last() == '\n',
        forall|i: int| 0 <= i < l.len() ==> l[i] != '\n',
    ensures
        lines_spec(x + l + seq!['\n']) == lines_spec(x).push(
            if l.len() > 0 && l.last() == '\r' {
                l.drop_last()
            } else {
                l
            },
        ),
{
    lemma_parts_ended(x);
    lemma_parts_extend(x, l);
    let px = newline_parts(x);
    let y = x + l + seq!['\n'];
    assert(y.drop_last() =~= x + l);
    assert(y.last() == '\n');
    let py = newline_parts(y);
    assert(py == newline_parts(x + l).push(Seq::<char>::empty()));
    assert(px.last() + l =~= l);
    assert(py.drop_last() =~= px.update(px.len() - 1, l));
    assert(py.drop_last().map_values(|q: Seq<char>| strip_cr(q)) =~= px.drop_last().map_values(
        |q: Seq<char>| strip_cr(q),
    ).push(strip_cr(l)));
}

/// The lines of `s` (see `lines_spec`).
pub fn lines(s: &str) -> (r: Vec<Vec<char>>)
    ensures
        seqs_view(r@) == lines_spec(s@),
{
    let p = chars_of(s);
    let mut done: Vec<Vec<char>> = Vec::new();
    let mut cur: Vec<char> = Vec::new();
    let mut i: usize = 0;
    assert(p@.subrange(0, 0) =~= Seq::<char>::empty());
    assert(seqs_view(done@).push(cur@) =~= newline_parts(p@.subrange(0, 0)));
    while i < p.len()
        invariant
            i <= p.len(),
            seqs_view(done@).push(cur@) == newline_parts(p@.subrange(0, i as int)),
        decreases p.len() - i,
    {
        let c = p[i];
        let ghost before = p@.subrange(0, i as int);
        let ghost after = p@.subrange(0, i + 1);
        assert(after.drop_last() =~= before);
        assert(after.last() == c);
        if c == '\n' {
            let finished = cur;
            done.push(finished);
            cur = Vec::new();
            assert(seqs_view(done@).push(cur@) =~= newline_parts(before).push(Seq::<char>::empty()));
        } else {
            cur.push(c);
            let ghost r = newline_parts(before);
            assert(seqs_view(done@).push(cur@) =~= r.update(r.len() - 1, r[r.len() - 1].push(c)));
        }
        i = i + 1;
    }
    assert(p@.subrange(0, p.len() as int) =~= p@);
    let ghost parts = newline_parts(s@);
    proof {
        lemma_newline_parts_nonempty(s@);
    }
    assert(seqs_view(done@) =~= parts.drop_last());
    let mut out: Vec<Vec<char>> = Vec::new();
    let mut k: usize = 0;
    while k < done.len()
        invariant
            k <= done.len(),
            parts.len() >= 1,
            seqs_view(done@) == parts.drop_last(),
            out@.len() == k,
            forall|j: int| 0 <= j < k ==> #[trigger] out@[j]@ == strip_cr(done@[j]@),
        decreases done.len() - k,
    {
        let mut l = crate::path::copy_chars(&done[k]);
        if l.len() > 0 && l[l.len() - 1] == '\r' {
            l.pop();
        }
        assert(l@ == strip_cr(done@[k as int]@));
        out.push(l);
        k = k + 1;
    }
    assert forall|j: int| 0 <= j < done@.len() implies #[trigger] seqs_view(out@)[j] == parts.drop_last().map_values(
        |l: Seq<char>| strip_cr(l),
    )[j] by {
        assert(seqs_view(done@)[j] == done@[j]@);
    }
    assert(seqs_view(out@) =~= parts.drop_last().map_values(|l: Seq<char>| strip_cr(l)));
    assert(parts.last() == cur@);
    if cur.len() > 0 {
        out.push(cur);
        assert(seqs_view(out@) =~= lines_spec(s@));
    } else {
        assert(seqs_view(out@) =~= lines_spec(s@));
    }
    out
}

/// The entries with the incoming-change flag set on each one whose path
/// equals one of `changed`.
pub open spec fn mark_incoming_spec(files: Seq<(Seq<char>, FileStatus)>, changed: Seq<Seq<char>>) -> Seq<(Seq<char>, FileStatus)> {
    files.map_values(
        |e: (Seq<char>, FileStatus)|
            if path_in(changed, e.0) {
                (e.0, FileStatus { has_incoming: true, ..e.1 })
            } else {
                e
            },
    )
}

/// Law of marking incoming changes: every file keeps its path and its other
/// flags, and has incoming changes exactly when it had them already or its
/// path equals one of the changed paths, the last one included.
pub proof fn lemma_mark_incoming_exact(files: Seq<(Seq<char>, FileStatus)>, changed: Seq<Seq<char>>)
    ensures
        mark_incoming_spec(files, changed).len() == files.len(),
        forall|i: int|
            0 <= i < files.len() ==> {
                let r = #[trigger] mark_incoming_spec(files, changed)[i];
                &&& r.0 == files[i].0
                &&& r.1.is_staged == files[i].1.is_staged
                &&& r.1.is_unstaged == files[i].1.is_unstaged
                &&& r.1.is_untracked == files[i].1.is_untracked
                &&& r.1.is_gitignored == files[i].1.is_gitignored
                &&& r.1.has_incoming == (files[i].1.has_incoming || exists|m: int|
                    0 <= m < changed.len() && path_eq(#[trigger] changed[m], files[i].0))
            },
{
}

/// Marks the files changed between HEAD and its upstream; `diff_output` is
/// the output of `git diff --name-only`, one path per line.
pub fn mark_incoming_changes(files: &mut Vec<FileEntry>, diff_output: &str)
    ensures
        entries_view(final(files)@) == mark_incoming_spec(entries_view(old(files)@), lines_spec(diff_output@)),
{
    let changed = lines(diff_output);
    let ghost cv = seqs_view(changed@);
    let n = files.len();
    let mut i: usize = 0;
    while i < n
        invariant
            n == files.len(),
            n == old(files)@.len(),
            cv == seqs_view(changed@),
            cv == lines_spec(diff_output@),
            i <= n,
            forall|j: int| 0 <= j < i ==> #[trigger] entry_view(files@[j]) == (if path_in(cv, old(files)@[j].path@) {
                (old(files)@[j].path@, FileStatus { has_incoming: true, ..old(files)@[j].status })
            } else {
                entry_view(old(files)@[j])
            }),
            forall|j: int| i <= j < n ==> #[trigger] files@[j] == old(files)@[j],
        decreases n - i,
    {
        let mut found = false;
        let mut k: usize = 0;
        while k < changed.len()
            invariant
                i < n,
                n == files.len(),
                cv == seqs_view(changed@),
                k <= changed.len(),
                found == exists|m: int| 0 <= m < k && path_eq(#[trigger] cv[m], files@[i as int].path@),
            decreases changed.len() - k,
        {
            let line = string_from_chars(&changed[k]);
            assert(cv[k as int] == line@);
            if paths_equal(line.as_str(), files[i].path.as_str()) {
                found = true;
            }
            k = k + 1;
        }
        if found {
            files[i].status.has_incoming = true;
        }
        i = i + 1;
    }
    assert(entries_view(files@) =~= mark_incoming_spec(entries_view(old(files)@), cv));
}

/// The names of remotes in the output of `git remote`: its lines, trimmed,
/// without the empty ones.
pub open spec fn remotes_spec(lines: Seq<Seq<char>>) -> Seq<Seq<char>>
    decreases lines.len(),
{
    if lines.len() == 0 {
        Seq::empty()
    } else {
        let r = remotes_spec(lines.drop_last());
        let t = trim_spec(lines.last());
        if t.len() > 0 {
            r.push(t)
        } else {
            r
        }
    }
}

/// The names of remotes in the output of `git remote` (see `remotes_spec`).
pub fn parse_remotes(output: &str) -> (r: Vec<String>)
    ensures
        crate::path::strings_view(r@) == remotes_spec(lines_spec(output@)),
{
    let ls = lines(output);
    let ghost lv = seqs_view(ls@);
    let mut out: Vec<String> = Vec::new();
    let mut i: usize = 0;
    assert(lv.subrange(0, 0) =~= Seq::<Seq<char>>::empty());
    while i < ls.len()
        invariant
            i <= ls.len(),
            lv == seqs_view(ls@),
            crate::path::strings_view(out@) == remotes_spec(lv.subrange(0, i as int)),
        decreases ls.len() - i,
    {
        let line = string_from_chars(&ls[i]);
        let t = trim_str(line.as_str());
        let ghost pre = lv.subrange(0, i + 1);
        assert(pre.drop_last() =~= lv.subrange(0, i as int));
        assert(pre.last() == ls@[i as int]@);
        if !t.is_empty() {
            out.push(copy_str(t));
            assert(crate::path::strings_view(out@) =~= remotes_spec(pre));
        }
        i = i + 1;
    }
    assert(lv.subrange(0, ls@.len() as int) =~= lv);
    out
}

/// The last commit message from the output of `git log -1 --pretty=%B`:
/// the trimmed output when the command succeeded.
pub fn commit_message_from_output(succeeded: bool, output: &str) -> (r: Option<String>)
    ensures
        succeeded ==> r is Some && r->0@ == trim_spec(output@),
        !succeeded ==> r is None,
{
    if succeeded {
        Some(copy_str(trim_str(output)))
    } else {
        None
    }
}

/// The repository name: the file name of the working directory, or "unknown".
pub open spec fn repo_name_spec(workdir: Option<Seq<char>>) -> Seq<char> {
    match workdir {
        Some(w) => match file_name_spec(w) {
            Some(n) => n,
            None => "unknown"@,
        },
        None => "unknown"@,
    }
}

/// The repository name from the path of its working directory, if it has one.
pub fn repo_name(workdir: Option<&str>) -> (r: String)
    ensures
        r@ == repo_name_spec(match workdir {
            Some(w) => Some(w@),
            None => None,
        }),
{
    match workdir {
        Some(w) => {
            let comps = path_components(w);
            if comps.len() > 0 {
                let last = &comps[comps.len() - 1];
                let normal = !((last.len() == 1 && (last[0] == '/' || last[0] == '.')) || (last.len()
                    == 2 && last[0] == '.' && last[1] == '.'));
                proof {
                    let c = last@;
                    assert(c =~= seq!['/'] ==> c.len() == 1 && c[0] == '/');
                    assert(c =~= seq!['.'] ==> c.len() == 1 && c[0] == '.');
                    assert(c =~= seq!['.', '.'] ==> c.len() == 2 && c[0] == '.' && c[1] == '.');
                    if c.len() == 1 && c[0] == '/' {
                        assert(c =~= seq!['/']);
                    }
                    if c.len() == 1 && c[0] == '.' {
                        assert(c =~= seq!['.']);
                    }
                    if c.len() == 2 && c[0] == '.' && c[1] == '.' {
                        assert(c =~= seq!['.', '.']);
                    }
                    assert(normal == crate::path::is_normal(c));
                    assert(components(w@).last() == c);
                }
                if normal {
                    return string_from_chars(last);
                }
            }
            copy_str("unknown")
        },
        None => copy_str("unknown"),
    }
}

/// The branch name: the short name of HEAD, or "HEAD" when there is none.
pub fn branch_name(shorthand: Option<String>) -> (r: String)
    ensures
        r@ == match shorthand {
            Some(s) => s@,
            None => "HEAD"@,
        },
{
    match shorthand {
        Some(s) => s,
        None => copy_str("HEAD"),
    }
}

/// The revision range of the changes coming from `upstream`.
pub fn incoming_range(upstream: &str) -> (r: String)
    ensures
        r@ == "HEAD..."@ + upstream@,
{
    let mut s = copy_str("HEAD...");
    push_str(&mut s, upstream);
    s
}

/// The upstream branch `branch` of `remote`.
pub fn upstream_target(remote: &str, branch: &str) -> (r: String)
    ensures
        r@ == remote@ + "/"@ + branch@,
{
    let mut s = copy_str(remote);
    push_str(&mut s, "/");
    push_str(&mut s, branch);
    s
}

} // verus!

verus! {

/// `stderr` mentions `needle`.
pub open spec fn says(stderr: Seq<char>, needle: &str) -> bool {
    occurs_in(needle@, stderr)
}

/// `a` followed by `b`.
fn concat2(a: &str, b: &str) -> (r: String)
    ensures
        r@ == a@ + b@,
{
    let mut s = copy_str(a);
    push_str(&mut s, b);
    s
}

/// `a`, `b` and `c` one after the other.
fn concat3(a: &str, b: &str, c: &str) -> (r: String)
    ensures
        r@ == a@ + b@ + c@,
{
    let mut s = copy_str(a);
    push_str(&mut s, b);
    push_str(&mut s, c);
    s
}

/// The message for a failed `git fetch`.
pub open spec fn fetch_failure_spec(stderr: Seq<char>) -> Seq<char> {
    if says(stderr, "Could not read from remote") {
        "Cannot reach remote - check connection/auth"@
    } else if says(stderr, "does not appear to be a git repository") {
        "Remote not found. Add with: git remote add origin <url>"@
    } else {
        "Fetch failed"@
    }
}

/// The message for a failed `git fetch`, from its error output.
pub fn fetch_failure_message(stderr: &str) -> (r: String)
    ensures
        r@ == fetch_failure_spec(stderr@),
{
    if str_contains(stderr, "Could not read from remote") {
        copy_str("Cannot reach remote - check connection/auth")
    } else if str_contains(stderr, "does not appear to be a git repository") {
        copy_str("Remote not found. Add with: git remote add origin <url>")
    } else {
        copy_str("Fetch failed")
    }
}

/// The message for a failed `git fetch` from `remote`.
pub open spec fn fetch_from_remote_failure_spec(stderr: Seq<char>, remote: Seq<char>) -> Seq<char> {
    if says(stderr, "Could not read from remote") {
        "Cannot reach '"@ + remote + "' - check connection/auth"@
    } else if says(stderr, "does not appear to be a git repository") {
        "Remote '"@ + remote + "' not found"@
    } else {
        "Fetch from '"@ + remote + "' failed"@
    }
}

/// The message for a failed `git fetch` from `remote`, from its error output.
pub fn fetch_from_remote_failure_message(stderr: &str, remote: &str) -> (r: String)
    ensures
        r@ == fetch_from_remote_failure_spec(stderr@, remote@),
{
    if str_contains(stderr, "Could not read from remote") {
        concat3("Cannot reach '", remote, "' - check connection/auth")
    } else if str_contains(stderr, "does not appear to be a git repository") {
        concat3("Remote '", remote, "' not found")
    } else {
        concat3("Fetch from '", remote, "' failed")
    }
}

/// The message for a failed `git pull` on branch `branch`.
pub open spec fn pull_failure_spec(stderr: Seq<char>, branch: Seq<char>) -> Seq<char> {
    if says(stderr, "no tracking information") || says(stderr, "no upstream") {
        "No upstream set. Run: git branch --set-upstream-to=origin/"@ + branch
    } else if says(stderr, "Could not read from remote") {
        "Cannot reach remote - check connection/auth"@
    } else if says(stderr, "CONFLICT") || says(stderr, "Merge conflict") {
        "Pull has conflicts - resolve manually"@
    } else if says(stderr, "not a git repository") {
        "Not in a git repository"@
    } else {
        "Pull failed"@
    }
}

/// The message for a failed `git pull` on branch `branch`, from its error output.
pub fn pull_failure_message(stderr: &str, branch: &str) -> (r: String)
    ensures
        r@ == pull_failure_spec(stderr@, branch@),
{
    if str_contains(stderr, "no tracking information") || str_contains(stderr, "no upstream") {
        concat2("No upstream set. Run: git branch --set-upstream-to=origin/", branch)
    } else if str_contains(stderr, "Could not read from remote") {
        copy_str("Cannot reach remote - check connection/auth")
    } else if str_contains(stderr, "CONFLICT") || str_contains(stderr, "Merge conflict") {
        copy_str("Pull has conflicts - resolve manually")
    } else if str_contains(stderr, "not a git repository") {
        copy_str("Not in a git repository")
    } else {
        copy_str("Pull failed")
    }
}

/// The message for a failed `git push` on branch `branch`.
pub open spec fn push_failure_spec(stderr: Seq<char>, branch: Seq<char>) -> Seq<char> {
    if says(stderr, "no upstream branch") || says(stderr, "has no upstream") {
        "No upstream set. Run: git push -u origin "@ + branch
    } else if says(stderr, "does not appear to be a git repository") {
        "Remote not found. Check your remote config"@
    } else if says(stderr, "rejected") {
        "Push rejected - pull first or force push"@
    } else if says(stderr, "Could not read from remote") {
        "Cannot reach remote - check connection/auth"@
    } else {
        "Push failed"@
    }
}

/// The message for a failed `git push` on branch `branch`, from its error output.
pub fn push_failure_message(stderr: &str, branch: &str) -> (r: String)
    ensures
        r@ == push_failure_spec(stderr@, branch@),
{
    if str_contains(stderr, "no upstream branch") || str_contains(stderr, "has no upstream") {
        concat2("No upstream set. Run: git push -u origin ", branch)
    } else if str_contains(stderr, "does not appear to be a git repository") {
        copy_str("Remote not found. Check your remote config")
    } else if str_contains(stderr, "rejected") {
        copy_str("Push rejected - pull first or force push")
    } else if str_contains(stderr, "Could not read from remote") {
        copy_str("Cannot reach remote - check connection/auth")
    } else {
        copy_str("Push failed")
    }
}

/// The message for a failed `git push -u` to `remote`.
pub open spec fn push_with_upstream_failure_spec(stderr: Seq<char>, remote: Seq<char>) -> Seq<char> {
    if says(stderr, "Could not read from remote") {
        "Cannot reach '"@ + remote + "' - check connection/auth"@
    } else if says(stderr, "does not appear to be a git repository") {
        "Remote '"@ + remote + "' not found"@
    } else if says(stderr, "rejected") {
        "Push rejected - pull first"@
    } else {
        "Push to '"@ + remote + "' failed"@
    }
}

/// The message for a failed `git push -u` to `remote`, from its error output.
pub fn push_with_upstream_failure_message(stderr: &str, remote: &str) -> (r: String)
    ensures
        r@ == push_with_upstream_failure_spec(stderr@, remote@),
{
    if str_contains(stderr, "Could not read from remote") {
        concat3("Cannot reach '", remote, "' - check connection/auth")
    } else if str_contains(stderr, "does not appear to be a git repository") {
        concat3("Remote '", remote, "' not found")
    } else if str_contains(stderr, "rejected") {
        copy_str("Push rejected - pull first")
    } else {
        concat3("Push to '", remote, "' failed")
    }
}

/// The message for a failed `git pull` from `remote`.
pub open spec fn pull_from_remote_failure_spec(stderr: Seq<char>, remote: Seq<char>) -> Seq<char> {
    if says(stderr, "Could not read from remote") {
        "Cannot reach '"@ + remote + "' - check connection/auth"@
    } else if says(stderr, "CONFLICT") || says(stderr, "Merge conflict") {
        "Pull has conflicts - resolve manually"@
    } else if says(stderr, "does not appear to be a git repository") {
        "Remote '"@ + remote + "' not found"@
    } else {
        "Pull from '"@ + remote + "' failed"@
    }
}

/// The message for a failed `git pull` from `remote`, from its error output.
pub fn pull_from_remote_failure_message(stderr: &str, remote: &str) -> (r: String)
    ensures
        r@ == pull_from_remote_failure_spec(stderr@, remote@),
{
    if str_contains(stderr, "Could not read from remote") {
        concat3("Cannot reach '", remote, "' - check connection/auth")
    } else if str_contains(stderr, "CONFLICT") || str_contains(stderr, "Merge conflict") {
        copy_str("Pull has conflicts - resolve manually")
    } else if str_contains(stderr, "does not appear to be a git repository") {
        concat3("Remote '", remote, "' not found")
    } else {
        concat3("Pull from '", remote, "' failed")
    }
}

} // verus!
