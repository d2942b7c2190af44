//! File paths as '/'-separated strings, with the component semantics of Unix paths.
//!
//! A path is cut at each '/' into segments. Its components are: "/" when it
//! starts with '/', else "." when its first segment is "."; followed by every
//! later segment that is neither empty nor ".".
use vstd::prelude::*;
use crate::text::{is_dot, starts_with_dot, chars_of, string_from_chars, push_char};

verus! {

/// The views of a sequence of character vectors.
pub open spec fn seqs_view(v: Seq<Vec<char>>) -> Seq<Seq<char>> {
    v.map_values(|x: Vec<char>| x@)
}

/// The views of a sequence of strings.
pub open spec fn strings_view(v: Seq<String>) -> Seq<Seq<char>> {
    v.map_values(|x: String| x@)
}

/// The parts of `p` between its '/' characters (there is always at least one).
pub open spec fn segments(p: Seq<char>) -> Seq<Seq<char>>
    decreases p.len(),
{
    if p.len() == 0 {
        seq![Seq::<char>::empty()]
    } else {
        let r = segments(p.drop_last());
        if p.last() == '/' {
            r.push(Seq::<char>::empty())
        } else {
            r.update(r.len() - 1, r[r.len() - 1].push(p.last()))
        }
    }
}

/// A segment that names something: neither empty nor ".".
pub open spec fn is_named(s: Seq<char>) -> bool {
    s.len() > 0 && !is_dot(s)
}

/// The named segments of `ss`, in order.
pub open spec fn named_segments(ss: Seq<Seq<char>>) -> Seq<Seq<char>>
    decreases ss.len(),
{
    if ss.len() == 0 {
        Seq::empty()
    } else {
        let r = named_segments(ss.drop_last());
        if is_named(ss.last()) {
            r.push(ss.last())
        } else {
            r
        }
    }
}

/// The components of path `p`.
pub open spec fn components(p: Seq<char>) -> Seq<Seq<char>> {
    let ss = segments(p);
    if p.len() > 0 && p[0] == '/' {
        seq![seq!['/']] + named_segments(ss.drop_first())
    } else if is_dot(ss[0]) {
        seq![seq!['.']] + named_segments(ss.drop_first())
    } else {
        named_segments(ss)
    }
}

/// Two paths are equal when their components are.
pub open spec fn path_eq(a: Seq<char>, b: Seq<char>) -> bool {
    components(a) == components(b)
}

/// Some component of `p` starts with a dot.
pub open spec fn is_dotfile_spec(p: Seq<char>) -> bool {
    exists|i: int| 0 <= i < components(p).len() && starts_with_dot(#[trigger] components(p)[i])
}

/// Appends `x` to path `buf`: a path that starts with '/' replaces `buf`;
/// otherwise a '/' separates them unless `buf` is empty or already ends with '/'.
pub open spec fn push_path(buf: Seq<char>, x: Seq<char>) -> Seq<char> {
    if x.len() > 0 && x[0] == '/' {
        x
    } else if buf.len() == 0 || buf.last() == '/' {
        buf + x
    } else {
        buf + seq!['/'] + x
    }
}

/// The path made by appending the components `cs` one after the other.
pub open spec fn join_path(cs: Seq<Seq<char>>) -> Seq<char>
    decreases cs.len(),
{
    if cs.len() == 0 {
        Seq::empty()
    } else {
        push_path(join_path(cs.drop_last()), cs.last())
    }
}

proof fn lemma_segments_nonempty(p: Seq<char>)
    ensures
        segments(p).len() >= 1,
    decreases p.len(),
{
    if p.len() > 0 {
        lemma_segments_nonempty(p.drop_last());
    }
}

/// The parts of `p` between its '/' characters.
pub fn split_segments(p: &Vec<char>) -> (r: Vec<Vec<char>>)
    ensures
        seqs_view(r@) == segments(p@),
{
    let mut done: Vec<Vec<char>> = Vec::new();
    let mut cur: Vec<char> = Vec::new();
    let mut i: usize = 0;
    assert(p@.subrange(0, 0) =~= Seq::<char>::empty());
    assert(seqs_view(done@).push(cur@) =~= segments(p@.subrange(0, 0)));
    while i < p.len()
        invariant
            i <= p.len(),
            seqs_view(done@).push(cur@) == segments(p@.subrange(0, i as int)),
        decreases p.len() - i,
    {
        let c = p[i];
        let ghost before = p@.subrange(0, i as int);
        let ghost after = p@.subrange(0, i + 1);
        assert(after.drop_last() =~= before);
        assert(after.last() == c);
        if c == '/' {
            let finished = cur;
            done.push(finished);
            cur = Vec::new();
            assert(seqs_view(done@).push(cur@) =~= segments(before).push(Seq::<char>::empty()));
        } else {
            cur.push(c);
            let ghost r = segments(before);
            assert(seqs_view(done@).push(cur@) =~= r.update(r.len() - 1, r[r.len() - 1].push(c)));
        }
        i = i + 1;
    }
    assert(p@.subrange(0, p.len() as int) =~= p@);
    done.push(cur);
    done
}

/// Whether `s` is a named segment.
pub fn is_named_exec(s: &Vec<char>) -> (r: bool)
    ensures
        r == is_named(s@),
{
    if s.len() == 0 {
        return false;
    }
    if s.len() == 1 && s[0] == '.' {
        assert(s@ =~= seq!['.']);
        return false;
    }
    assert(!(s@ =~= seq!['.']) ==> !is_dot(s@));
    if s.len() == 1 {
        assert(s@ != seq!['.']) by {
            assert(s@[0] != seq!['.'][0]);
        }
    } else {
        assert(s@.len() != seq!['.'].len());
    }
    true
}

/// The named segments of `ss[from..]`, in order.
fn named_from(ss: &Vec<Vec<char>>, from: usize) -> (r: Vec<Vec<char>>)
    requires
        from <= ss.len(),
    ensures
        seqs_view(r@) == named_segments(seqs_view(ss@).subrange(from as int, ss@.len() as int)),
{
    let mut r: Vec<Vec<char>> = Vec::new();
    let mut i: usize = from;
    assert(seqs_view(ss@).subrange(from as int, from as int) =~= Seq::<Seq<char>>::empty());
    assert(seqs_view(r@) =~= Seq::<Seq<char>>::empty());
    while i < ss.len()
        invariant
            from <= i <= ss.len(),
            seqs_view(r@) == named_segments(seqs_view(ss@).subrange(from as int, i as int)),
        decreases ss.len() - i,
    {
        let ghost before = seqs_view(ss@).subrange(from as int, i as int);
        let ghost after = seqs_view(ss@).subrange(from as int, i + 1);
        assert(after.drop_last() =~= before);
        assert(after.last() == ss@[i as int]@);
        if is_named_exec(&ss[i]) {
            let s = copy_chars(&ss[i]);
            r.push(s);
            assert(seqs_view(r@) =~= named_segments(before).push(ss@[i as int]@));
        }
        i = i + 1;
    }
    r
}

/// A copy of `v`.
pub fn copy_chars(v: &Vec<char>) -> (r: Vec<char>)
    ensures
        r@ == v@,
{
    let mut r: Vec<char> = Vec::new();
    let mut i: usize = 0;
    while i < v.len()
        invariant
            i <= v.len(),
            r@ == v@.subrange(0, i as int),
        decreases v.len() - i,
    {
        r.push(v[i]);
        i = i + 1;
        assert(r@ =~= v@.subrange(0, i as int));
    }
    assert(r@ =~= v@);
    r
}

/// The components of path `p`.
pub fn path_components(p: &str) -> (r: Vec<Vec<char>>)
    ensures
        seqs_view(r@) == components(p@),
{
    let cs = chars_of(p);
    let ss = split_segments(&cs);
    proof {
        lemma_segments_nonempty(p@);
    }
    assert(seqs_view(ss@).subrange(0, ss@.len() as int) =~= seqs_view(ss@));
    assert(seqs_view(ss@).subrange(1, ss@.len() as int) =~= seqs_view(ss@).drop_first());
    let rooted = cs.len() > 0 && cs[0] == '/';
    if rooted {
        let mut r: Vec<Vec<char>> = Vec::new();
        let mut root: Vec<char> = Vec::new();
        root.push('/');
        r.push(root);
        let rest = named_from(&ss, 1);
        let mut rest = rest;
        r.append(&mut rest);
        assert(seqs_view(r@) =~= seq![seq!['/']] + named_segments(segments(p@).drop_first()));
        r
    } else if ss[0].len() == 1 && ss[0][0] == '.' {
        assert(ss@[0]@ =~= seq!['.']);
        let mut r: Vec<Vec<char>> = Vec::new();
        let mut dot: Vec<char> = Vec::new();
        dot.push('.');
        r.push(dot);
        let rest = named_from(&ss, 1);
        let mut rest = rest;
        r.append(&mut rest);
        assert(seqs_view(r@) =~= seq![seq!['.']] + named_segments(segments(p@).drop_first()));
        r
    } else {
        assert(!is_dot(ss@[0]@)) by {
            if ss@[0]@.len() == 1 {
                assert(ss@[0]@[0] != seq!['.'][0]);
            } else {
                assert(ss@[0]@.len() != seq!['.'].len());
            }
        }
        named_from(&ss, 0)
    }
}

/// Whether two paths have the same components.
pub fn paths_equal(a: &str, b: &str) -> (r: bool)
    ensures
        r == path_eq(a@, b@),
{
    let ca = path_components(a);
    let cb = path_components(b);
    if ca.len() != cb.len() {
        assert(seqs_view(ca@).len() != seqs_view(cb@).len());
        return false;
    }
    let mut i: usize = 0;
    while i < ca.len()
        invariant
            ca.len() == cb.len(),
            i <= ca.len(),
            seqs_view(ca@) == components(a@),
            seqs_view(cb@) == components(b@),
            forall|j: int| 0 <= j < i ==> ca@[j]@ == cb@[j]@,
        decreases ca.len() - i,
    {
        if !crate::text::chars_eq(&ca[i], &cb[i]) {
            assert(seqs_view(ca@)[i as int] != seqs_view(cb@)[i as int]);
            assert(components(a@)[i as int] != components(b@)[i as int]);
            return false;
        }
        i = i + 1;
    }
    assert(seqs_view(ca@) =~= seqs_view(cb@));
    true
}

/// Whether some component of `p` starts with a dot.
pub fn is_dotfile(p: &str) -> (r: bool)
    ensures
        r == is_dotfile_spec(p@),
{
    let cs = path_components(p);
    let mut i: usize = 0;
    while i < cs.len()
        invariant
            i <= cs.len(),
            seqs_view(cs@) == components(p@),
            forall|j: int| 0 <= j < i ==> !starts_with_dot(#[trigger] components(p@)[j]),
        decreases cs.len() - i,
    {
        if cs[i].len() > 0 && cs[i][0] == '.' {
            assert(starts_with_dot(components(p@)[i as int]));
            return true;
        }
        assert(components(p@)[i as int] == cs@[i as int]@);
        i = i + 1;
    }
    false
}

/// The path made by joining `cs[0..n]`.
pub fn join_prefix(cs: &Vec<Vec<char>>, n: usize) -> (r: String)
    requires
        n <= cs.len(),
    ensures
        r@ == join_path(seqs_view(cs@).subrange(0, n as int)),
{
    let mut buf: Vec<char> = Vec::new();
    let mut i: usize = 0;
    assert(seqs_view(cs@).subrange(0, 0) =~= Seq::<Seq<char>>::empty());
    while i < n
        invariant
            i <= n <= cs.len(),
            buf@ == join_path(seqs_view(cs@).subrange(0, i as int)),
        decreases n - i,
    {
        let x = &cs[i];
        let ghost prev = buf@;
        let ghost sub = seqs_view(cs@).subrange(0, i + 1);
        assert(sub.drop_last() =~= seqs_view(cs@).subrange(0, i as int));
        assert(sub.last() == x@);
        if x.len() > 0 && x[0] == '/' {
            buf = copy_chars(x);
        } else {
            if buf.len() > 0 && buf[buf.len() - 1] != '/' {
                buf.push('/');
            }
            let mut j: usize = 0;
            let ghost mid = buf@;
            while j < x.len()
                invariant
                    j <= x.len(),
                    buf@ == mid + x@.subrange(0, j as int),
                decreases x.len() - j,
            {
                buf.push(x[j]);
                j = j + 1;
                assert(buf@ =~= mid + x@.subrange(0, j as int));
            }
            assert(x@.subrange(0, x@.len() as int) =~= x@);
            assert(buf@ =~= push_path(prev, x@));
        }
        i = i + 1;
    }
    string_from_chars(&buf)
}

} // verus!

verus! {

/// A component that names a file or directory: not "/", "." or "..".
pub open spec fn is_normal(c: Seq<char>) -> bool {
    !(c =~= seq!['/']) && !is_dot(c) && !(c =~= seq!['.', '.'])
}

/// The last component of `p` when it names a file or directory.
pub open spec fn file_name_spec(p: Seq<char>) -> Option<Seq<char>> {
    let cs = components(p);
    if cs.len() > 0 && is_normal(cs.last()) {
        Some(cs.last())
    } else {
        None
    }
}

/// The number of leading segments that are not part of the path's body:
/// 1 when it starts with '/' or with the segment ".", else 0.
pub open spec fn body_start(p: Seq<char>) -> int {
    if (p.len() > 0 && p[0] == '/') || is_dot(segments(p)[0]) {
        1
    } else {
        0
    }
}

/// `m` less the trailing segments of `ss[..m]`, after `b`, that are empty or ".".
pub open spec fn trim_unnamed(ss: Seq<Seq<char>>, b: int, m: int) -> int
    decreases m,
{
    if m > b && m > 0 && !is_named(ss[m - 1]) {
        trim_unnamed(ss, b, m - 1)
    } else {
        m
    }
}

/// The segments joined with '/'.
pub open spec fn join_segments(ss: Seq<Seq<char>>) -> Seq<char>
    decreases ss.len(),
{
    if ss.len() == 0 {
        Seq::empty()
    } else if ss.len() == 1 {
        ss[0]
    } else {
        join_segments(ss.drop_last()) + seq!['/'] + ss.last()
    }
}

/// What is left of `p` when its file name is removed: the segments before
/// the file name, without trailing empty or "." segments; "/" alone for a
/// rooted path with nothing left.
pub open spec fn parent_prefix(p: Seq<char>) -> Seq<char> {
    let ss = segments(p);
    let b = body_start(p);
    let m = trim_unnamed(ss, b, trim_unnamed(ss, b, ss.len() as int) - 1);
    if p.len() > 0 && p[0] == '/' && m <= 1 {
        seq!['/']
    } else {
        join_segments(ss.subrange(0, m))
    }
}

/// `p` with its file name replaced by `name` (or `name` appended when `p`
/// has no file name).
pub open spec fn with_file_name_spec(p: Seq<char>, name: Seq<char>) -> Seq<char> {
    let base = if file_name_spec(p) is Some {
        parent_prefix(p)
    } else {
        p
    };
    push_path(base, name)
}

} // verus!

verus! {

proof fn lemma_named_segments_empty(ss: Seq<Seq<char>>)
    requires
        forall|i: int| 0 <= i < ss.len() ==> !is_named(#[trigger] ss[i]),
    ensures
        named_segments(ss).len() == 0,
    decreases ss.len(),
{
    if ss.len() > 0 {
        lemma_named_segments_empty(ss.drop_last());
    }
}

/// When some segment after `b` is named, trimming stops after `b`.
proof fn lemma_trim_finds_named(ss: Seq<Seq<char>>, b: int, k: int)
    requires
        0 <= b <= k <= ss.len(),
        named_segments(ss.subrange(b, k)).len() > 0,
    ensures
        trim_unnamed(ss, b, k) > b,
        is_named(ss[trim_unnamed(ss, b, k) - 1]),
        named_segments(ss.subrange(b, k)).last() == ss[trim_unnamed(ss, b, k) - 1],
    decreases k,
{
    let sub = ss.subrange(b, k);
    if k == b {
        assert(sub.len() == 0);
    } else {
        assert(sub.drop_last() =~= ss.subrange(b, k - 1));
        assert(sub.last() == ss[k - 1]);
        if !is_named(ss[k - 1]) {
            lemma_trim_finds_named(ss, b, k - 1);
        }
    }
}

proof fn lemma_trim_bounds(ss: Seq<Seq<char>>, b: int, m: int)
    requires
        0 <= b,
        0 <= m,
    ensures
        trim_unnamed(ss, b, m) <= m,
        trim_unnamed(ss, b, m) >= 0,
        m >= b ==> trim_unnamed(ss, b, m) >= b,
    decreases m,
{
    if m > b && m > 0 && !is_named(ss[m - 1]) {
        lemma_trim_bounds(ss, b, m - 1);
    }
}

/// Whether `c` names a file or directory.
fn is_normal_exec(c: &Vec<char>) -> (r: bool)
    ensures
        r == is_normal(c@),
{
    if c.len() == 1 && (c[0] == '/' || c[0] == '.') {
        assert(c@ =~= seq!['/'] || c@ =~= seq!['.']);
        return false;
    }
    if c.len() == 2 && c[0] == '.' && c[1] == '.' {
        assert(c@ =~= seq!['.', '.']);
        return false;
    }
    assert(!(c@ =~= seq!['/'])) by {
        if c@.len() == 1 {
            assert(c@[0] != seq!['/'][0]);
        }
    }
    assert(!(c@ =~= seq!['.'])) by {
        if c@.len() == 1 {
            assert(c@[0] != seq!['.'][0]);
        }
    }
    assert(!(c@ =~= seq!['.', '.'])) by {
        if c@.len() == 2 {
            assert(c@[0] != '.' || c@[1] != '.');
        }
    }
    true
}

/// Appends `x` to `buf` with a '/' in between.
fn push_segment(buf: &mut Vec<char>, x: &Vec<char>)
    ensures
        final(buf)@ == old(buf)@ + seq!['/'] + x@,
{
    buf.push('/');
    let ghost mid = buf@;
    let mut j: usize = 0;
    while j < x.len()
        invariant
            j <= x.len(),
            buf@ == mid + x@.subrange(0, j as int),
        decreases x.len() - j,
    {
        buf.push(x[j]);
        j = j + 1;
        assert(buf@ =~= mid + x@.subrange(0, j as int));
    }
    assert(x@.subrange(0, x@.len() as int) =~= x@);
}

/// `p` with its file name replaced by `name`.
pub fn with_file_name(p: &str, name: &str) -> (r: String)
    ensures
        r@ == with_file_name_spec(p@, name@),
{
    let cs = chars_of(p);
    let ss = split_segments(&cs);
    let comps = path_components(p);
    proof {
        lemma_segments_nonempty(p@);
    }
    let has_name = comps.len() > 0 && is_normal_exec(&comps[comps.len() - 1]);
    assert(has_name == (file_name_spec(p@) is Some)) by {
        if comps.len() > 0 {
            assert(components(p@).last() == comps@[comps.len() - 1]@);
        }
    }
    let mut base: Vec<char>;
    if has_name {
        let ghost sv = seqs_view(ss@);
        let rooted = cs.len() > 0 && cs[0] == '/';
        let dotted = ss[0].len() == 1 && ss[0][0] == '.';
        assert(dotted == is_dot(sv[0])) by {
            if ss@[0]@.len() == 1 {
                if ss@[0]@[0] == '.' {
                    assert(ss@[0]@ =~= seq!['.']);
                } else {
                    assert(ss@[0]@[0] != seq!['.'][0]);
                }
            } else {
                assert(ss@[0]@.len() != seq!['.'].len());
            }
        }
        let b: usize = if rooted || dotted {
            1
        } else {
            0
        };
        assert(b as int == body_start(p@));
        proof {
            let cps = components(p@);
            if b == 1 {
                assert(cps == seq![if rooted { seq!['/'] } else { seq!['.'] }] + named_segments(sv.drop_first()));
                assert(sv.drop_first() =~= sv.subrange(1, sv.len() as int));
                if named_segments(sv.drop_first()).len() == 0 {
                    assert(cps.len() == 1);
                    assert(!is_normal(cps.last())) by {
                        if rooted {
                            assert(cps.last() =~= seq!['/']);
                        } else {
                            assert(cps.last() =~= seq!['.']);
                        }
                    }
                }
            } else {
                assert(sv =~= sv.subrange(0, sv.len() as int));
            }
            lemma_trim_finds_named(sv, b as int, sv.len() as int);
        }
        let mut m: usize = ss.len();
        while m > b && m > 0 && !is_named_exec(&ss[m - 1])
            invariant
                m <= ss@.len(),
                sv == seqs_view(ss@),
                trim_unnamed(sv, b as int, m as int) == trim_unnamed(sv, b as int, sv.len() as int),
            decreases m,
        {
            m = m - 1;
        }
        assert(m > b);
        m = m - 1;
        let ghost m1 = m;
        proof {
            lemma_trim_bounds(sv, b as int, m as int);
        }
        while m > b && m > 0 && !is_named_exec(&ss[m - 1])
            invariant
                m <= m1,
                m1 < ss@.len(),
                sv == seqs_view(ss@),
                trim_unnamed(sv, b as int, m as int) == trim_unnamed(sv, b as int, m1 as int),
            decreases m,
        {
            m = m - 1;
        }
        assert(m as int == trim_unnamed(sv, b as int, m1 as int));
        if rooted && m <= 1 {
            base = Vec::new();
            base.push('/');
            assert(base@ =~= seq!['/']);
        } else {
            base = Vec::new();
            let mut k: usize = 0;
            assert(sv.subrange(0, 0) =~= Seq::<Seq<char>>::empty());
            while k < m
                invariant
                    k <= m,
                    m < ss@.len(),
                    sv == seqs_view(ss@),
                    base@ == join_segments(sv.subrange(0, k as int)),
                decreases m - k,
            {
                let ghost sub = sv.subrange(0, k + 1);
                assert(sub.drop_last() =~= sv.subrange(0, k as int));
                assert(sub.last() == ss@[k as int]@);
                if k == 0 {
                    base = copy_chars(&ss[0]);
                    assert(sub =~= seq![ss@[0]@]);
                } else {
                    push_segment(&mut base, &ss[k]);
                }
                k = k + 1;
            }
        }
        assert(base@ == parent_prefix(p@));
    } else {
        base = cs;
    }
    let nm = chars_of(name);
    let ghost b0 = base@;
    if nm.len() > 0 && nm[0] == '/' {
        base = nm;
    } else {
        if base.len() > 0 && base[base.len() - 1] != '/' {
            base.push('/');
        }
        let ghost mid = base@;
        let mut j: usize = 0;
        while j < nm.len()
            invariant
                j <= nm.len(),
                base@ == mid + nm@.subrange(0, j as int),
            decreases nm.len() - j,
        {
            base.push(nm[j]);
            j = j + 1;
            assert(base@ =~= mid + nm@.subrange(0, j as int));
        }
        assert(nm@.subrange(0, nm@.len() as int) =~= nm@);
        assert(base@ =~= push_path(b0, name@));
    }
    string_from_chars(&base)
}

} // verus!
