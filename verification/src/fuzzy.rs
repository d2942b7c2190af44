//! Fuzzy matching scores used by the incremental search.
use vstd::prelude::*;
use crate::text::{chars_of, chars_eq, chars_starts_with, byte_len, is_prefix, utf8_len};

verus! {

/// `p` can be found in `t` with gaps: its characters occur in `t` in order.
pub open spec fn is_subsequence(p: Seq<char>, t: Seq<char>) -> bool
    decreases t.len(),
{
    if p.len() == 0 {
        true
    } else if t.len() == 0 {
        false
    } else if p[0] == t[0] {
        is_subsequence(p.drop_first(), t.drop_first())
    } else {
        is_subsequence(p, t.drop_first())
    }
}

/// The state of the scoring scan: score so far, number of pattern characters
/// matched, consecutive-match bonus, whether the previous character matched,
/// and whether any character matched.
pub struct ScanState {
    pub score: int,
    pub matched: int,
    pub bonus: int,
    pub consecutive: bool,
    pub started: bool,
}

/// The scan state before any text character.
pub open spec fn scan_start() -> ScanState {
    ScanState { score: 0, matched: 0, bonus: 0, consecutive: false, started: false }
}

/// A separator after which a match earns a word-boundary bonus.
pub open spec fn is_separator(c: char) -> bool {
    c == '/' || c == '_' || c == '-' || c == '.'
}

/// The scan state after looking at text character `i`. Once the whole pattern
/// is matched, nothing changes. A match scores 100, plus 50 times the length
/// of the run of consecutive matches it extends, plus 200 at the start of the
/// text, plus 150 after a separator. A miss resets the run and, once some
/// character has matched, costs 1.
pub open spec fn scan_step(s: ScanState, p: Seq<char>, t: Seq<char>, i: int) -> ScanState {
    if s.matched >= p.len() {
        s
    } else if t[i] == p[s.matched] {
        let bonus = if s.consecutive {
            s.bonus + 1
        } else {
            1
        };
        let run = if s.consecutive {
            bonus * 50
        } else {
            0
        };
        let start = if i == 0 {
            200int
        } else {
            0
        };
        let sep = if i > 0 && is_separator(t[i - 1]) {
            150int
        } else {
            0
        };
        ScanState {
            score: s.score + 100 + run + start + sep,
            matched: s.matched + 1,
            bonus,
            consecutive: true,
            started: true,
        }
    } else {
        ScanState {
            score: if s.started {
                s.score - 1
            } else {
                s.score
            },
            matched: s.matched,
            bonus: 0,
            consecutive: false,
            started: s.started,
        }
    }
}

/// The scan state after the first `k` text characters.
pub open spec fn scan(p: Seq<char>, t: Seq<char>, k: int) -> ScanState
    decreases k,
{
    if k <= 0 {
        scan_start()
    } else {
        scan_step(scan(p, t, k - 1), p, t, k - 1)
    }
}

/// The score of `p` against `t`, whose UTF-8 encoding is `t_bytes` long:
/// 1 for an empty pattern, 10000 for equal strings, 5000 for a prefix;
/// otherwise 0 when not every pattern character was matched in order, else
/// the scan score less `t_bytes` taken as an `i32`, at least 1 and at most
/// 4999, so that an exact match ranks above every other text and a prefix
/// above every text that it does not start.
pub open spec fn match_score(p: Seq<char>, t: Seq<char>, t_bytes: int) -> int {
    if p.len() == 0 {
        1
    } else if p == t {
        10000
    } else if is_prefix(p, t) {
        5000
    } else {
        let s = scan(p, t, t.len() as int);
        let d = s.score - (t_bytes as i32);
        if s.matched < p.len() {
            0
        } else if d >= 4999 {
            4999
        } else if d >= 1 {
            d
        } else {
            1
        }
    }
}

/// A scan state that the `i32` arithmetic of the scoring holds: its score,
/// and fifty times its run bonus, are `i32` values.
pub open spec fn fits_i32(s: ScanState) -> bool {
    i32::MIN <= s.score <= i32::MAX && s.bonus * 50 <= i32::MAX
}

/// The score of `p` against `t` (encoded in `t_bytes` bytes) can be worked
/// out in `i32` without overflow: an empty pattern, an equal text or a
/// prefix take no arithmetic; otherwise every scan state fits, and when the
/// whole pattern matched so does the score less `t_bytes` taken as an `i32`.
pub open spec fn score_fits(p: Seq<char>, t: Seq<char>, t_bytes: int) -> bool {
    ||| p.len() == 0
    ||| p == t
    ||| is_prefix(p, t)
    ||| {
        &&& forall|k: int| 0 <= k <= t.len() ==> #[trigger] fits_i32(scan(p, t, k))
        &&& scan(p, t, t.len() as int).matched >= p.len() ==> i32::MIN <= scan(p, t, t.len() as int).score
            - (t_bytes as i32) <= i32::MAX
    }
}

proof fn lemma_scan_bounds(p: Seq<char>, t: Seq<char>, k: int)
    requires
        0 <= k <= t.len(),
    ensures
        0 <= scan(p, t, k).matched <= p.len() || (p.len() == 0 && scan(p, t, k).matched == 0),
        0 <= scan(p, t, k).bonus <= scan(p, t, k).matched,
        -k <= scan(p, t, k).score <= scan(p, t, k).matched * (450 + 50 * p.len()),
        scan(p, t, k).consecutive ==> scan(p, t, k).bonus >= 1,
    decreases k,
{
    if k > 0 {
        lemma_scan_bounds(p, t, k - 1);
        let s = scan(p, t, k - 1);
        if s.matched < p.len() && t[k - 1] == p[s.matched] {
            assert(s.bonus + 1 <= p.len());
            assert((s.matched + 1) * (450 + 50 * p.len()) == s.matched * (450 + 50 * p.len()) + 450
                + 50 * p.len()) by (nonlinear_arith);
        }
    }
}

/// Greedy matching loses nothing: after `k` text characters with `j` pattern
/// characters matched, the rest of the pattern is a subsequence of the rest of
/// the text exactly when the whole pattern is a subsequence of the text.
proof fn lemma_scan_greedy(p: Seq<char>, t: Seq<char>, k: int)
    requires
        0 <= k <= t.len(),
    ensures
        0 <= scan(p, t, k).matched <= p.len(),
        is_subsequence(p.subrange(scan(p, t, k).matched, p.len() as int), t.subrange(k, t.len() as int))
            == is_subsequence(p, t),
    decreases k,
{
    if k == 0 {
        assert(p.subrange(0, p.len() as int) =~= p);
        assert(t.subrange(0, t.len() as int) =~= t);
    } else {
        lemma_scan_greedy(p, t, k - 1);
        let s = scan(p, t, k - 1);
        let j = s.matched;
        let rp = p.subrange(j, p.len() as int);
        let rt = t.subrange(k - 1, t.len() as int);
        assert(rt.drop_first() =~= t.subrange(k, t.len() as int));
        if j >= p.len() {
            assert(rp.len() == 0);
            assert(p.subrange(j, p.len() as int).len() == 0);
        } else {
            assert(rp[0] == p[j]);
            assert(rt[0] == t[k - 1]);
            if t[k - 1] == p[j] {
                assert(rp.drop_first() =~= p.subrange(j + 1, p.len() as int));
            }
        }
    }
}

/// Law of the ranking: an exact match scores above every other text, and a
/// prefix match above every text that is neither equal nor prefixed.
pub proof fn lemma_score_ranking(p: Seq<char>, t: Seq<char>, t_bytes: int)
    requires
        p.len() > 0,
    ensures
        p != t ==> match_score(p, t, t_bytes) < 10000,
        p != t && !is_prefix(p, t) ==> match_score(p, t, t_bytes) < 5000,
{
}

/// For a non-empty pattern, the score is positive exactly when the pattern is
/// a subsequence of the text.
pub proof fn lemma_score_positive_iff_subsequence(p: Seq<char>, t: Seq<char>, t_bytes: int)
    requires
        p.len() > 0,
    ensures
        (match_score(p, t, t_bytes) > 0) == is_subsequence(p, t),
        p == t ==> match_score(p, t, t_bytes) == 10000,
        p != t && is_prefix(p, t) ==> match_score(p, t, t_bytes) == 5000,
{
    lemma_scan_greedy(p, t, t.len() as int);
    let j = scan(p, t, t.len() as int).matched;
    let rest = t.subrange(t.len() as int, t.len() as int);
    assert(rest.len() == 0);
    if j < p.len() {
        assert(p.subrange(j, p.len() as int).len() > 0);
    } else {
        assert(p.subrange(j, p.len() as int).len() == 0);
    }
    if p == t {
        assert(t.subrange(0, p.len() as int) =~= p);
    }
    if is_prefix(p, t) {
        lemma_prefix_is_subsequence(p, t);
    }
}

proof fn lemma_prefix_is_subsequence(p: Seq<char>, t: Seq<char>)
    requires
        is_prefix(p, t),
    ensures
        is_subsequence(p, t),
    decreases t.len(),
{
    if p.len() > 0 {
        assert(p[0] == t.subrange(0, p.len() as int)[0]);
        assert(is_prefix(p.drop_first(), t.drop_first())) by {
            assert(t.drop_first().subrange(0, p.len() - 1) =~= t.subrange(0, p.len() as int).drop_first());
        }
        lemma_prefix_is_subsequence(p.drop_first(), t.drop_first());
    }
}

/// Fuzzy matching with fzf-style scoring: higher is better, 0 means no match.
pub fn fuzzy_match_score(pattern: &str, text: &str) -> (r: i32)
    requires
        score_fits(pattern@, text@, utf8_len(text@) as int),
    ensures
        r == match_score(pattern@, text@, utf8_len(text@) as int),
{
    let pattern_chars = chars_of(pattern);
    let text_chars = chars_of(text);
    if pattern_chars.len() == 0 {
        return 1;
    }
    if chars_eq(&pattern_chars, &text_chars) {
        return 10000;
    }
    if chars_starts_with(&pattern_chars, &text_chars) {
        return 5000;
    }
    let ghost p = pattern@;
    let ghost t = text@;
    let mut score: i32 = 0;
    let mut pattern_idx: usize = 0;
    let mut consecutive_bonus: i32 = 0;
    let mut is_consecutive = false;
    let mut match_started = false;
    let mut text_idx: usize = 0;
    while text_idx < text_chars.len()
        invariant
            pattern_chars@ == p,
            text_chars@ == t,
            p.len() > 0,
            forall|k: int| 0 <= k <= t.len() ==> #[trigger] fits_i32(scan(p, t, k)),
            text_idx <= t.len(),
            score == scan(p, t, text_idx as int).score,
            pattern_idx == scan(p, t, text_idx as int).matched,
            consecutive_bonus == scan(p, t, text_idx as int).bonus,
            is_consecutive == scan(p, t, text_idx as int).consecutive,
            match_started == scan(p, t, text_idx as int).started,
        ensures
            text_idx <= t.len(),
            text_idx < t.len() ==> scan(p, t, text_idx as int).matched >= p.len(),
            score == scan(p, t, text_idx as int).score,
            pattern_idx == scan(p, t, text_idx as int).matched,
        decreases t.len() - text_idx,
    {
        proof {
            lemma_scan_bounds(p, t, text_idx as int);
            assert(fits_i32(scan(p, t, text_idx as int)));
            assert(fits_i32(scan(p, t, text_idx + 1)));
        }
        if pattern_idx >= pattern_chars.len() {
            break;
        }
        let c = text_chars[text_idx];
        if c == pattern_chars[pattern_idx] {
            match_started = true;
            score = score + 100;
            if is_consecutive {
                consecutive_bonus = consecutive_bonus + 1;
                score = score + consecutive_bonus * 50;
            } else {
                consecutive_bonus = 1;
                is_consecutive = true;
            }
            if text_idx == 0 {
                score = score + 200;
            }
            if text_idx > 0 {
                let prev = text_chars[text_idx - 1];
                if prev == '/' || prev == '_' || prev == '-' || prev == '.' {
                    score = score + 150;
                }
            }
            pattern_idx = pattern_idx + 1;
        } else {
            is_consecutive = false;
            consecutive_bonus = 0;
            if match_started {
                score = score - 1;
            }
        }
        text_idx = text_idx + 1;
    }
    proof {
        lemma_scan_rest(p, t, text_idx as int);
    }
    if pattern_idx < pattern_chars.len() {
        return 0;
    }
    let n = byte_len(text);
    score = score - (#[verifier::truncate] (n as i32));
    if score >= 4999 {
        4999
    } else if score >= 1 {
        score
    } else {
        1
    }
}

/// The scan from `k0` on changes nothing once the whole pattern is matched.
proof fn lemma_scan_stays(p: Seq<char>, t: Seq<char>, k0: int, k: int)
    requires
        0 <= k0 <= k <= t.len(),
        scan(p, t, k0).matched >= p.len(),
    ensures
        scan(p, t, k) == scan(p, t, k0),
    decreases k - k0,
{
    if k > k0 {
        lemma_scan_stays(p, t, k0, k - 1);
    }
}

/// The score of `fuzzy_match_score`, or `None` where its `i32` arithmetic
/// would overflow (see `score_fits`).
pub fn checked_match_score(pattern: &str, text: &str) -> (r: Option<i32>)
    ensures
        r is Some == score_fits(pattern@, text@, utf8_len(text@) as int),
        r is Some ==> r->0 == match_score(pattern@, text@, utf8_len(text@) as int),
{
    let pattern_chars = chars_of(pattern);
    let text_chars = chars_of(text);
    if pattern_chars.len() == 0 {
        return Some(1);
    }
    if chars_eq(&pattern_chars, &text_chars) {
        return Some(10000);
    }
    if chars_starts_with(&pattern_chars, &text_chars) {
        return Some(5000);
    }
    let ghost p = pattern@;
    let ghost t = text@;
    let mut score: i64 = 0;
    let mut pattern_idx: usize = 0;
    let mut consecutive_bonus: i64 = 0;
    let mut is_consecutive = false;
    let mut match_started = false;
    let mut text_idx: usize = 0;
    while text_idx < text_chars.len()
        invariant
            pattern_chars@ == p,
            text_chars@ == t,
            p == pattern@,
            t == text@,
            p.len() > 0,
            p != t,
            !is_prefix(p, t),
            forall|k: int| 0 <= k <= text_idx ==> #[trigger] fits_i32(scan(p, t, k)),
            text_idx <= t.len(),
            score == scan(p, t, text_idx as int).score,
            pattern_idx == scan(p, t, text_idx as int).matched,
            consecutive_bonus == scan(p, t, text_idx as int).bonus,
            is_consecutive == scan(p, t, text_idx as int).consecutive,
            match_started == scan(p, t, text_idx as int).started,
        ensures
            text_idx <= t.len(),
            text_idx < t.len() ==> scan(p, t, text_idx as int).matched >= p.len(),
            forall|k: int| 0 <= k <= text_idx ==> #[trigger] fits_i32(scan(p, t, k)),
            score == scan(p, t, text_idx as int).score,
            pattern_idx == scan(p, t, text_idx as int).matched,
        decreases t.len() - text_idx,
    {
        proof {
            lemma_scan_bounds(p, t, text_idx as int);
            assert(fits_i32(scan(p, t, text_idx as int)));
        }
        if pattern_idx >= pattern_chars.len() {
            break;
        }
        let c = text_chars[text_idx];
        if c == pattern_chars[pattern_idx] {
            match_started = true;
            score = score + 100;
            if is_consecutive {
                consecutive_bonus = consecutive_bonus + 1;
                score = score + consecutive_bonus * 50;
            } else {
                consecutive_bonus = 1;
                is_consecutive = true;
            }
            if text_idx == 0 {
                score = score + 200;
            }
            if text_idx > 0 {
                let prev = text_chars[text_idx - 1];
                if prev == '/' || prev == '_' || prev == '-' || prev == '.' {
                    score = score + 150;
                }
            }
            pattern_idx = pattern_idx + 1;
        } else {
            is_consecutive = false;
            consecutive_bonus = 0;
            if match_started {
                score = score - 1;
            }
        }
        text_idx = text_idx + 1;
        if score < -2147483648 || score > 2147483647 || consecutive_bonus * 50 > 2147483647 {
            proof {
                let prev = scan(p, t, text_idx - 1);
                assert(scan(p, t, text_idx as int) == scan_step(prev, p, t, text_idx - 1));
                assert(score == scan(p, t, text_idx as int).score);
                assert(consecutive_bonus == scan(p, t, text_idx as int).bonus);
                assert(!fits_i32(scan(p, t, text_idx as int)));
            }
            return None;
        }
    }
    proof {
        lemma_scan_rest(p, t, text_idx as int);
        assert forall|k: int| 0 <= k <= t.len() implies #[trigger] fits_i32(scan(p, t, k)) by {
            if k > text_idx {
                lemma_scan_stays(p, t, text_idx as int, k);
            }
        }
    }
    if pattern_idx < pattern_chars.len() {
        return Some(0);
    }
    let n = byte_len(text);
    assert(fits_i32(scan(p, t, text_idx as int)));
    let d: i64 = score - ((#[verifier::truncate] (n as i32)) as i64);
    if d < -2147483648 || d > 2147483647 {
        return None;
    }
    if d >= 4999 {
        Some(4999)
    } else if d >= 1 {
        Some(d as i32)
    } else {
        Some(1)
    }
}

/// Once the whole pattern is matched, the rest of the text changes nothing.
proof fn lemma_scan_rest(p: Seq<char>, t: Seq<char>, k: int)
    requires
        0 <= k <= t.len(),
        k < t.len() ==> scan(p, t, k).matched >= p.len(),
    ensures
        scan(p, t, t.len() as int) == scan(p, t, k),
    decreases t.len() - k,
{
    if k < t.len() {
        lemma_scan_rest(p, t, k + 1);
    }
}

/// The state of the simple scan: score, pattern characters matched, and
/// length of the current run of consecutive matches.
pub struct SimpleState {
    pub score: int,
    pub matched: int,
    pub run: int,
}

/// The simple scan state after looking at text character `i`: a match of the
/// next pattern character scores 10, plus 5 per earlier match in the current
/// run, plus 20 at the start of the text; anything else ends the run.
pub open spec fn simple_step(s: SimpleState, p: Seq<char>, t: Seq<char>, i: int) -> SimpleState {
    if s.matched < p.len() && t[i] == p[s.matched] {
        SimpleState {
            score: s.score + 10 + s.run * 5 + if i == 0 {
                20int
            } else {
                0
            },
            matched: s.matched + 1,
            run: s.run + 1,
        }
    } else {
        SimpleState { score: s.score, matched: s.matched, run: 0 }
    }
}

/// The simple scan state after the first `k` text characters.
pub open spec fn simple_scan(p: Seq<char>, t: Seq<char>, k: int) -> SimpleState
    decreases k,
{
    if k <= 0 {
        SimpleState { score: 0, matched: 0, run: 0 }
    } else {
        simple_step(simple_scan(p, t, k - 1), p, t, k - 1)
    }
}

/// The simple score: a prefix scores 1000 plus 100 less the text's byte
/// length; otherwise the scan score when every pattern character matched in
/// order, else 0.
pub open spec fn simple_score(p: Seq<char>, t: Seq<char>, t_bytes: int) -> int {
    if is_prefix(p, t) {
        1000 + (100 - t_bytes)
    } else {
        let s = simple_scan(p, t, t.len() as int);
        if s.matched == p.len() {
            s.score
        } else {
            0
        }
    }
}

proof fn lemma_simple_bounds(p: Seq<char>, t: Seq<char>, k: int)
    requires
        0 <= k <= t.len(),
    ensures
        0 <= simple_scan(p, t, k).matched <= p.len(),
        0 <= simple_scan(p, t, k).run <= simple_scan(p, t, k).matched,
        0 <= simple_scan(p, t, k).score <= simple_scan(p, t, k).matched * (30 + 5 * p.len()),
    decreases k,
{
    if k > 0 {
        lemma_simple_bounds(p, t, k - 1);
        let s = simple_scan(p, t, k - 1);
        assert((s.matched + 1) * (30 + 5 * p.len()) == s.matched * (30 + 5 * p.len()) + 30 + 5
            * p.len()) by (nonlinear_arith);
    }
}

/// The simple score can be worked out in `usize` without panicking: a prefix
/// needs a text of at most 100 bytes (its score subtracts the length from
/// 100); otherwise the final scan score, which every running score is at
/// most, must be a `usize`.
pub open spec fn simple_fits(p: Seq<char>, t: Seq<char>, t_bytes: int) -> bool {
    if is_prefix(p, t) {
        t_bytes <= 100
    } else {
        simple_scan(p, t, t.len() as int).score <= usize::MAX
    }
}

/// The simple scan score never falls as the scan goes on.
proof fn lemma_simple_mono(p: Seq<char>, t: Seq<char>, k: int, m: int)
    requires
        0 <= k <= m <= t.len(),
    ensures
        simple_scan(p, t, k).score <= simple_scan(p, t, m).score,
    decreases m - k,
{
    if m > k {
        lemma_simple_mono(p, t, k, m - 1);
        lemma_simple_bounds(p, t, m - 1);
    }
}

/// Simple fuzzy matching score: prefix matches first, then in-order matches.
pub fn fuzzy_score(pattern: &str, text: &str) -> (r: usize)
    requires
        simple_fits(pattern@, text@, utf8_len(text@) as int),
    ensures
        r == simple_score(pattern@, text@, utf8_len(text@) as int),
{
    let pattern_chars = chars_of(pattern);
    let text_chars = chars_of(text);
    if chars_starts_with(&pattern_chars, &text_chars) {
        let n = byte_len(text);
        return 1000 + (100 - n);
    }
    let ghost p = pattern@;
    let ghost t = text@;
    let mut score: usize = 0;
    let mut pattern_idx: usize = 0;
    let mut consecutive: usize = 0;
    let mut i: usize = 0;
    while i < text_chars.len()
        invariant
            pattern_chars@ == p,
            text_chars@ == t,
            simple_scan(p, t, t.len() as int).score <= usize::MAX,
            i <= t.len(),
            score == simple_scan(p, t, i as int).score,
            pattern_idx == simple_scan(p, t, i as int).matched,
            consecutive == simple_scan(p, t, i as int).run,
        decreases t.len() - i,
    {
        proof {
            lemma_simple_bounds(p, t, i as int);
            lemma_simple_mono(p, t, i + 1, t.len() as int);
        }
        let c = text_chars[i];
        if pattern_idx < pattern_chars.len() && c == pattern_chars[pattern_idx] {
            score = score + 10 + consecutive * 5;
            if i == 0 {
                score = score + 20;
            }
            consecutive = consecutive + 1;
            pattern_idx = pattern_idx + 1;
        } else {
            consecutive = 0;
        }
        i = i + 1;
    }
    if pattern_idx == pattern_chars.len() {
        score
    } else {
        0
    }
}

/// The simple score, or `None` where `fuzzy_score` would panic (see
/// `simple_fits`).
pub fn checked_fuzzy_score(pattern: &str, text: &str) -> (r: Option<usize>)
    ensures
        r is Some == simple_fits(pattern@, text@, utf8_len(text@) as int),
        r is Some ==> r->0 == simple_score(pattern@, text@, utf8_len(text@) as int),
{
    let pattern_chars = chars_of(pattern);
    let text_chars = chars_of(text);
    if chars_starts_with(&pattern_chars, &text_chars) {
        let n = byte_len(text);
        if n > 100 {
            return None;
        }
        return Some(1000 + (100 - n));
    }
    let ghost p = pattern@;
    let ghost t = text@;
    let mut score: usize = 0;
    let mut pattern_idx: usize = 0;
    let mut consecutive: usize = 0;
    let mut i: usize = 0;
    while i < text_chars.len()
        invariant
            pattern_chars@ == p,
            text_chars@ == t,
            p == pattern@,
            t == text@,
            !is_prefix(p, t),
            i <= t.len(),
            score == simple_scan(p, t, i as int).score,
            pattern_idx == simple_scan(p, t, i as int).matched,
            consecutive == simple_scan(p, t, i as int).run,
        decreases t.len() - i,
    {
        proof {
            lemma_simple_bounds(p, t, i as int);
            lemma_simple_mono(p, t, i + 1, t.len() as int);
        }
        let c = text_chars[i];
        if pattern_idx < pattern_chars.len() && c == pattern_chars[pattern_idx] {
            let add = match consecutive.checked_mul(5) {
                Some(x) => x.checked_add(if i == 0 { 30 } else { 10 }),
                None => None,
            };
            let next = match add {
                Some(a) => score.checked_add(a),
                None => None,
            };
            match next {
                Some(x) => {
                    score = x;
                },
                None => {
                    return None;
                },
            }
            consecutive = consecutive + 1;
            pattern_idx = pattern_idx + 1;
        } else {
            consecutive = 0;
        }
        i = i + 1;
    }
    if pattern_idx == pattern_chars.len() {
        Some(score)
    } else {
        Some(0)
    }
}

} // verus!
