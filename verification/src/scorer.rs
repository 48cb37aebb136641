//! The subsequence scorer: a case-insensitive ordered-subsequence test and a
//! dynamic-programming relevance score with positional bonuses.
//!
//! All scores are plain integers; a query either scores (`Some`) or does not
//! match (`None`), never anything else.

use crate::text::{
    chars_vec, grapheme_clusters, graphemes_of, is_lower, is_space, is_upper, lower_char, lower_of,
    lowercase_char, lowercase_str, views_of_strings,
};
use vstd::prelude::*;

verus! {

pub const SCORE_MATCH: i64 = 16;

pub const SCORE_GAP_EXTENSION: i64 = -1;

pub const BONUS_CONSECUTIVE: i64 = 4;

pub const BONUS_SLASH: i64 = 3;

pub const BONUS_WORD: i64 = 20;

pub const BONUS_CAMEL: i64 = 2;

pub const BONUS_DOT: i64 = 1;

pub const BONUS_FIRST_CHAR_MATCH: i64 = 50;

pub const BONUS_CASE_MATCH: i64 = 0;

pub const BONUS_ACRONYM: i64 = 80;

/// Texts longer than this many characters (after lowercasing) are given the
/// neutral score instead of being run through the quadratic scoring matrix;
/// the matrix could not be held in memory for them anyway, and the bound keeps
/// every intermediate value far inside `i64`.
pub const SCORE_TEXT_CAP: usize = 1000000;

/// `nd` occurs, in order but not necessarily contiguously, inside `h`.
pub open spec fn is_subseq(nd: Seq<char>, h: Seq<char>) -> bool
    decreases h.len(),
{
    if nd.len() == 0 {
        true
    } else if h.len() == 0 {
        false
    } else {
        (nd[0] == h[0] && is_subseq(nd.drop_first(), h.drop_first())) || is_subseq(
            nd,
            h.drop_first(),
        )
    }
}

/// Dropping the first needle character preserves a subsequence match.
pub proof fn lemma_subseq_drop_first(nd: Seq<char>, h: Seq<char>)
    requires
        is_subseq(nd, h),
        nd.len() > 0,
    ensures
        is_subseq(nd.drop_first(), h),
    decreases h.len(),
{
    if h.len() > 0 {
        if nd[0] == h[0] && is_subseq(nd.drop_first(), h.drop_first()) {
            assert(is_subseq(nd.drop_first(), h));
        } else {
            lemma_subseq_drop_first(nd, h.drop_first());
            if nd.drop_first().len() == 0 {
            } else {
                assert(is_subseq(nd.drop_first(), h));
            }
        }
    }
}

/// When the heads agree, taking the match is as good as any other embedding.
pub proof fn lemma_subseq_match_head(nd: Seq<char>, h: Seq<char>)
    requires
        nd.len() > 0,
        h.len() > 0,
        nd[0] == h[0],
    ensures
        is_subseq(nd, h) == is_subseq(nd.drop_first(), h.drop_first()),
{
    if is_subseq(nd, h) {
        if !(nd[0] == h[0] && is_subseq(nd.drop_first(), h.drop_first())) {
            lemma_subseq_drop_first(nd, h.drop_first());
        }
    }
}

/// A subsequence is never longer than the text it occurs in.
pub proof fn lemma_subseq_len(nd: Seq<char>, h: Seq<char>)
    requires
        is_subseq(nd, h),
    ensures
        nd.len() <= h.len(),
    decreases h.len(),
{
    if nd.len() > 0 && h.len() > 0 {
        if nd[0] == h[0] && is_subseq(nd.drop_first(), h.drop_first()) {
            lemma_subseq_len(nd.drop_first(), h.drop_first());
        } else {
            lemma_subseq_len(nd, h.drop_first());
        }
    }
}

/// A one-character grapheme cluster equal to `c`.
pub open spec fn is_single(g: Seq<char>, c: char) -> bool {
    g.len() == 1 && g[0] == c
}

/// A grapheme cluster that separates words: a space, underscore or hyphen.
pub open spec fn is_boundary_seq(g: Seq<char>) -> bool {
    is_single(g, ' ') || is_single(g, '_') || is_single(g, '-')
}

/// The positional bonus for matching the character at index `j`, judged on the
/// grapheme clusters `gs` of the text before lowercasing. Indices outside the
/// cluster list earn nothing.
pub open spec fn bonus_at(gs: Seq<Seq<char>>, j: int) -> int {
    let word: int = if j == 0 || (1 <= j && j - 1 < gs.len() && is_boundary_seq(gs[j - 1])) {
        BONUS_WORD as int
    } else {
        0
    };
    let sep: int = if 1 <= j && j - 1 < gs.len() && is_single(gs[j - 1], '/') {
        BONUS_SLASH as int
    } else if 1 <= j && j - 1 < gs.len() && is_single(gs[j - 1], '.') {
        BONUS_DOT as int
    } else {
        0
    };
    let camel: int = if 1 <= j && j < gs.len() && gs[j].len() > 0 && gs[j - 1].len() > 0
        && is_upper(gs[j][0]) && is_lower(gs[j - 1][0]) {
        BONUS_CAMEL as int
    } else {
        0
    };
    let run: int = if 1 <= j && j < gs.len() && gs[j] == gs[j - 1] {
        BONUS_CONSECUTIVE as int
    } else {
        0
    };
    word + sep + camel + run
}

pub proof fn lemma_bonus_at_bounds(gs: Seq<Seq<char>>, j: int)
    ensures
        0 <= bonus_at(gs, j) <= 29,
{
}

/// The first characters of the whitespace-separated words of `s`, scanning
/// with `in_word` telling whether the previous character was inside a word.
pub open spec fn word_starts_from(s: Seq<char>, in_word: bool) -> Seq<char>
    decreases s.len(),
{
    if s.len() == 0 {
        Seq::empty()
    } else if is_space(s[0]) {
        word_starts_from(s.drop_first(), false)
    } else if in_word {
        word_starts_from(s.drop_first(), true)
    } else {
        seq![s[0]] + word_starts_from(s.drop_first(), true)
    }
}

/// The first characters of the whitespace-separated words of `s`.
pub open spec fn word_starts(s: Seq<char>) -> Seq<char> {
    word_starts_from(s, false)
}

/// The needle names, in order and case-folded, the first letters of the
/// leading words of the haystack.
pub open spec fn acronym_matches(h: Seq<char>, nd: Seq<char>) -> bool {
    let ws = word_starts(h);
    nd.len() <= ws.len() && (forall|k: int|
        0 <= k < nd.len() ==> lower_char(ws[k]) == lower_char(#[trigger] nd[k]))
}

/// `nd` occurs verbatim and contiguously inside `h`.
pub open spec fn is_substring_of(nd: Seq<char>, h: Seq<char>) -> bool {
    exists|k: int| 0 <= k && k + nd.len() <= h.len() && #[trigger] h.subrange(k, k + nd.len()) == nd
}

/// The diagonal ("uninterrupted run") value of the scoring matrix at needle
/// position `i` and haystack position `j`. `hl` is the lowercased haystack,
/// `nd` the needle, `gs` the grapheme clusters of the haystack before lowercasing.
pub open spec fn dmat(hl: Seq<char>, nd: Seq<char>, gs: Seq<Seq<char>>, i: int, j: int) -> int
    decreases i,
{
    if i < 0 || j < 0 || i >= nd.len() || j >= hl.len() || j < i {
        0
    } else if lower_char(nd[i]) != hl[j] {
        0
    } else {
        let base = SCORE_MATCH as int + bonus_at(gs, j);
        let first = if i == 0 && j == 0 {
            BONUS_FIRST_CHAR_MATCH as int
        } else {
            0
        };
        let consec = if i > 0 && i == j {
            (BONUS_CONSECUTIVE as int) * nd.len()
        } else {
            0
        };
        let prev = if i == 0 {
            0
        } else {
            dmat(hl, nd, gs, i - 1, j - 1)
        };
        base + first + consec + prev
    }
}

/// The retained value of the scoring matrix at needle position `i` and
/// haystack position `j`: the best of extending an uninterrupted run or
/// carrying the previous row's value over a gap.
pub open spec fn scr(hl: Seq<char>, nd: Seq<char>, gs: Seq<Seq<char>>, i: int, j: int) -> int
    decreases i, j,
{
    if i < 0 || j < 0 || i >= nd.len() || j >= hl.len() {
        0
    } else if i == 0 {
        if lower_char(nd[0]) == hl[j] {
            SCORE_MATCH as int + bonus_at(gs, j) + if j == 0 {
                BONUS_FIRST_CHAR_MATCH as int
            } else {
                0
            }
        } else {
            0
        }
    } else if j < i {
        0
    } else if lower_char(nd[i]) == hl[j] {
        let dd = dmat(hl, nd, gs, i, j);
        let up = scr(hl, nd, gs, i - 1, j) + SCORE_GAP_EXTENSION as int;
        if dd >= up {
            dd
        } else {
            up
        }
    } else {
        scr(hl, nd, gs, i, j - 1) + SCORE_GAP_EXTENSION as int
    }
}

/// The matrix sweep's final value plus the flat acronym and verbatim-substring
/// bonuses. Only meaningful when `nd` is nonempty and a subsequence of the
/// lowercased `h`.
pub open spec fn total_score(h: Seq<char>, nd: Seq<char>) -> int {
    let hl = lower_of(h);
    let gs = graphemes_of(h);
    scr(hl, nd, gs, nd.len() - 1, hl.len() - 1) + (if acronym_matches(h, nd) {
        (BONUS_ACRONYM as int) * nd.len()
    } else {
        0
    }) + (if is_substring_of(nd, h) {
        BONUS_CASE_MATCH as int
    } else {
        0
    })
}

/// What `match_and_score` returns: the empty needle always scores zero; a
/// needle that is no subsequence of the lowercased haystack does not score at
/// all; texts beyond `SCORE_TEXT_CAP` get the neutral score; everything else
/// gets the matrix score with its flat bonuses.
pub open spec fn score_of(h: Seq<char>, nd: Seq<char>) -> Option<int> {
    if nd.len() == 0 {
        Some(0)
    } else if !is_subseq(nd, lower_of(h)) {
        None
    } else if lower_of(h).len() > SCORE_TEXT_CAP as int {
        Some(0)
    } else {
        Some(total_score(h, nd))
    }
}

pub proof fn lemma_dmat_bounds(hl: Seq<char>, nd: Seq<char>, gs: Seq<Seq<char>>, i: int, j: int)
    requires
        0 <= i,
    ensures
        0 <= dmat(hl, nd, gs, i, j) <= (i + 1) * (95 + 4 * nd.len()),
    decreases i,
{
    let m = 95 + 4 * nd.len();
    lemma_bonus_at_bounds(gs, j);
    assert((i + 1) * m >= m) by (nonlinear_arith)
        requires
            i >= 0 && m >= 0,
    ;
    if !(j < 0 || i >= nd.len() || j >= hl.len() || j < i) && lower_char(nd[i]) == hl[j] {
        if i == 0 {
            assert(dmat(hl, nd, gs, i, j) <= m);
        } else {
            lemma_dmat_bounds(hl, nd, gs, i - 1, j - 1);
            assert(dmat(hl, nd, gs, i - 1, j - 1) <= i * m);
            assert(i * m + m == (i + 1) * m) by (nonlinear_arith);
        }
    }
}

pub proof fn lemma_scr_bounds(hl: Seq<char>, nd: Seq<char>, gs: Seq<Seq<char>>, i: int, j: int)
    requires
        0 <= i,
        0 <= j,
    ensures
        -(j + 1) <= scr(hl, nd, gs, i, j) <= (i + 1) * (95 + 4 * nd.len()),
    decreases i, j,
{
    let m = 95 + 4 * nd.len();
    lemma_bonus_at_bounds(gs, j);
    assert((i + 1) * m >= 0) by (nonlinear_arith)
        requires
            i >= 0 && m >= 95,
    ;
    if i >= nd.len() || j >= hl.len() {
    } else if i == 0 {
        assert(scr(hl, nd, gs, i, j) <= m);
        assert(m <= (i + 1) * m) by (nonlinear_arith)
            requires
                i >= 0 && m >= 0,
        ;
    } else if j < i {
    } else if lower_char(nd[i]) == hl[j] {
        lemma_dmat_bounds(hl, nd, gs, i, j);
        lemma_scr_bounds(hl, nd, gs, i - 1, j);
        assert(i * m <= (i + 1) * m) by (nonlinear_arith)
            requires
                i >= 0 && m >= 0,
        ;
    } else {
        lemma_scr_bounds(hl, nd, gs, i, j - 1);
    }
}

/// The greedy left-to-right subsequence test.
pub fn is_match(haystack: &Vec<char>, needle: &Vec<char>) -> (r: bool)
    ensures
        r == is_subseq(needle@, haystack@),
{
    let m = haystack.len();
    let n = needle.len();
    let mut hi: usize = 0;
    let mut ni: usize = 0;
    proof {
        assert(needle@.skip(0) =~= needle@);
        assert(haystack@.skip(0) =~= haystack@);
    }
    while ni < n
        invariant
            ni <= n,
            hi <= m,
            m == haystack@.len(),
            n == needle@.len(),
            is_subseq(needle@, haystack@) == is_subseq(
                needle@.skip(ni as int),
                haystack@.skip(hi as int),
            ),
        decreases n - ni,
    {
        let nc = needle[ni];
        while hi < m && haystack[hi] != nc
            invariant
                ni < n,
                hi <= m,
                m == haystack@.len(),
                n == needle@.len(),
                nc == needle@[ni as int],
                is_subseq(needle@, haystack@) == is_subseq(
                    needle@.skip(ni as int),
                    haystack@.skip(hi as int),
                ),
            decreases m - hi,
        {
            proof {
                let ndk = needle@.skip(ni as int);
                let hk = haystack@.skip(hi as int);
                assert(ndk.len() > 0);
                assert(hk.len() > 0);
                assert(ndk[0] == needle@[ni as int]);
                assert(hk[0] == haystack@[hi as int]);
                assert(hk.drop_first() =~= haystack@.skip(hi as int + 1));
                assert(is_subseq(ndk, hk) == is_subseq(ndk, hk.drop_first()));
            }
            hi = hi + 1;
        }
        if hi == m {
            proof {
                assert(haystack@.skip(hi as int).len() == 0);
                assert(needle@.skip(ni as int).len() > 0);
                assert(!is_subseq(needle@.skip(ni as int), haystack@.skip(hi as int)));
            }
            return false;
        }
        proof {
            let ndk = needle@.skip(ni as int);
            let hk = haystack@.skip(hi as int);
            assert(ndk[0] == needle@[ni as int]);
            assert(hk[0] == haystack@[hi as int]);
            lemma_subseq_match_head(ndk, hk);
            assert(ndk.drop_first() =~= needle@.skip(ni as int + 1));
            assert(hk.drop_first() =~= haystack@.skip(hi as int + 1));
        }
        hi = hi + 1;
        ni = ni + 1;
    }
    proof {
        assert(needle@.skip(ni as int).len() == 0);
        assert(is_subseq(needle@.skip(ni as int), haystack@.skip(hi as int)));
    }
    true
}

/// A grapheme cluster that separates words: a space, underscore or hyphen.
pub fn is_boundary(s: &str) -> (r: bool)
    ensures
        r == is_boundary_seq(s@),
{
    if s.unicode_len() != 1 {
        proof {
            assert(!is_boundary_seq(s@));
        }
        return false;
    }
    let c = s.get_char(0);
    c == ' ' || c == '_' || c == '-'
}

/// Whether a one-character grapheme cluster equals `c`.
fn single_is(s: &String, c: char) -> (r: bool)
    ensures
        r == is_single(s@, c),
{
    s.as_str().unicode_len() == 1 && s.as_str().get_char(0) == c
}

/// The positional bonus earned by the character at `index`.
pub fn bonus_for(graphemes: &Vec<String>, index: usize) -> (b: i64)
    ensures
        b as int == bonus_at(views_of_strings(graphemes@), index as int),
        0 <= b <= 29,
{
    let ghost gs = views_of_strings(graphemes@);
    let len = graphemes.len();
    let mut bonus: i64 = 0;
    proof {
        assert(gs.len() == graphemes@.len());
    }
    if index == 0 {
        bonus = bonus + BONUS_WORD;
    } else if index - 1 < len && is_boundary(graphemes[index - 1].as_str()) {
        bonus = bonus + BONUS_WORD;
    }
    if index >= 1 && index - 1 < len {
        if single_is(&graphemes[index - 1], '/') {
            bonus = bonus + BONUS_SLASH;
        } else if single_is(&graphemes[index - 1], '.') {
            bonus = bonus + BONUS_DOT;
        }
    }
    if index >= 1 && index < len {
        let g = &graphemes[index];
        let gp = &graphemes[index - 1];
        if g.as_str().unicode_len() > 0 && gp.as_str().unicode_len() > 0 {
            if g.as_str().get_char(0).is_uppercase() && gp.as_str().get_char(0).is_lowercase() {
                bonus = bonus + BONUS_CAMEL;
            }
        }
    }
    if index >= 1 && index < len && graphemes[index] == graphemes[index - 1] {
        bonus = bonus + BONUS_CONSECUTIVE;
    }
    bonus
}

/// The first characters of the whitespace-separated words of `h`.
pub fn word_start_chars(h: &Vec<char>) -> (ws: Vec<char>)
    ensures
        ws@ == word_starts(h@),
{
    let n = h.len();
    let mut ws: Vec<char> = Vec::new();
    let mut in_word = false;
    let mut i: usize = 0;
    proof {
        assert(h@.skip(0) =~= h@);
        assert(ws@ + word_starts_from(h@, false) =~= word_starts_from(h@, false));
    }
    while i < n
        invariant
            i <= n,
            n == h@.len(),
            word_starts(h@) == ws@ + word_starts_from(h@.skip(i as int), in_word),
        decreases n - i,
    {
        proof {
            assert(h@.skip(i as int).len() > 0);
            assert(h@.skip(i as int)[0] == h@[i as int]);
            assert(h@.skip(i as int).drop_first() =~= h@.skip(i as int + 1));
        }
        let c = h[i];
        if c.is_whitespace() {
            in_word = false;
        } else if in_word {
        } else {
            let ghost old_ws = ws@;
            ws.push(c);
            in_word = true;
            proof {
                assert(old_ws + (seq![c] + word_starts_from(h@.skip(i as int + 1), true)) =~= ws@
                    + word_starts_from(h@.skip(i as int + 1), true));
            }
        }
        i = i + 1;
    }
    proof {
        assert(h@.skip(n as int).len() == 0);
        assert(ws@ + word_starts_from(h@.skip(n as int), in_word) =~= ws@);
    }
    ws
}

/// Whether the needle names, in order and case-folded, the first letters of
/// the haystack's leading words.
pub fn is_acronym_match(haystack: &str, needle_chars: &Vec<char>) -> (r: bool)
    ensures
        r == acronym_matches(haystack@, needle_chars@),
{
    let h = chars_vec(haystack);
    let ws = word_start_chars(&h);
    let n = needle_chars.len();
    if n > ws.len() {
        return false;
    }
    let mut k: usize = 0;
    while k < n
        invariant
            k <= n,
            n == needle_chars@.len(),
            n <= ws@.len(),
            ws@ == word_starts(haystack@),
            forall|t: int|
                0 <= t < k ==> lower_char(ws@[t]) == lower_char(#[trigger] needle_chars@[t]),
        decreases n - k,
    {
        if lowercase_char(ws[k]) != lowercase_char(needle_chars[k]) {
            return false;
        }
        k = k + 1;
    }
    true
}

/// The matrix sweep plus the flat bonuses, for a nonempty needle that is a
/// subsequence of the lowercased haystack.
fn compute_score(haystack: &str, haystack_chars: &Vec<char>, needle_chars: &Vec<char>) -> (r: i64)
    requires
        haystack_chars@ == lower_of(haystack@),
        1 <= needle_chars@.len() <= haystack_chars@.len(),
        haystack_chars@.len() <= SCORE_TEXT_CAP as int,
    ensures
        r as int == total_score(haystack@, needle_chars@),
{
    let n = needle_chars.len();
    let m = haystack_chars.len();
    let graphemes = grapheme_clusters(haystack);
    let ghost hl = haystack_chars@;
    let ghost nd = needle_chars@;
    let ghost gs = views_of_strings(graphemes@);
    let ghost mm: int = 95 + 4 * (nd.len() as int);

    let acronym_bonus: i64 = if is_acronym_match(haystack, needle_chars) {
        BONUS_ACRONYM * (n as i64)
    } else {
        0
    };

    // First row of the matrix: no gap penalty, a mismatch simply scores zero.
    let nc0 = lowercase_char(needle_chars[0]);
    let mut prev_score: Vec<i64> = Vec::new();
    let mut prev_d: Vec<i64> = Vec::new();
    let mut j: usize = 0;
    while j < m
        invariant
            j <= m,
            m == hl.len(),
            n == nd.len(),
            1 <= n <= m,
            m == haystack_chars@.len(),
            haystack_chars@ == hl,
            nc0 == lower_char(nd[0]),
            gs == views_of_strings(graphemes@),
            prev_score@.len() == j,
            prev_d@.len() == j,
            forall|t: int| 0 <= t < j ==> #[trigger] prev_score@[t] as int == scr(hl, nd, gs, 0, t),
            forall|t: int| 0 <= t < j ==> #[trigger] prev_d@[t] as int == dmat(hl, nd, gs, 0, t),
        decreases m - j,
    {
        if nc0 == haystack_chars[j] {
            let mut match_score = SCORE_MATCH + bonus_for(&graphemes, j);
            if j == 0 {
                match_score = match_score + BONUS_FIRST_CHAR_MATCH;
            }
            prev_score.push(match_score);
            prev_d.push(match_score);
        } else {
            prev_score.push(0);
            prev_d.push(0);
        }
        j = j + 1;
    }

    // Remaining rows: diagonal extension against gap continuation.
    let mut i: usize = 1;
    while i < n
        invariant
            1 <= i <= n,
            m == hl.len(),
            n == nd.len(),
            n <= m,
            m <= SCORE_TEXT_CAP,
            m == haystack_chars@.len(),
            haystack_chars@ == hl,
            nd == needle_chars@,
            gs == views_of_strings(graphemes@),
            mm == 95 + 4 * nd.len(),
            prev_score@.len() == m,
            prev_d@.len() == m,
            forall|t: int|
                0 <= t < m ==> #[trigger] prev_score@[t] as int == scr(hl, nd, gs, i - 1, t),
            forall|t: int| 0 <= t < m ==> #[trigger] prev_d@[t] as int == dmat(hl, nd, gs, i - 1, t),
        decreases n - i,
    {
        let nci = lowercase_char(needle_chars[i]);
        let mut cur_score: Vec<i64> = Vec::new();
        let mut cur_d: Vec<i64> = Vec::new();
        let mut jz: usize = 0;
        while jz < i
            invariant
                jz <= i,
                1 <= i < n,
                n <= m,
                m == hl.len(),
                n == nd.len(),
                cur_score@.len() == jz,
                cur_d@.len() == jz,
                forall|t: int|
                    0 <= t < jz ==> #[trigger] cur_score@[t] as int == scr(hl, nd, gs, i as int, t),
                forall|t: int|
                    0 <= t < jz ==> #[trigger] cur_d@[t] as int == dmat(hl, nd, gs, i as int, t),
            decreases i - jz,
        {
            proof {
                assert(scr(hl, nd, gs, i as int, jz as int) == 0);
                assert(dmat(hl, nd, gs, i as int, jz as int) == 0);
            }
            cur_score.push(0);
            cur_d.push(0);
            jz = jz + 1;
        }
        let mut jj: usize = i;
        while jj < m
            invariant
                1 <= i < n,
                i <= jj <= m,
                n <= m,
                m <= SCORE_TEXT_CAP,
                m == hl.len(),
                n == nd.len(),
                m == haystack_chars@.len(),
                haystack_chars@ == hl,
                nd == needle_chars@,
                gs == views_of_strings(graphemes@),
                mm == 95 + 4 * nd.len(),
                nci == lower_char(nd[i as int]),
                prev_score@.len() == m,
                prev_d@.len() == m,
                forall|t: int|
                    0 <= t < m ==> #[trigger] prev_score@[t] as int == scr(hl, nd, gs, i - 1, t),
                forall|t: int|
                    0 <= t < m ==> #[trigger] prev_d@[t] as int == dmat(hl, nd, gs, i - 1, t),
                cur_score@.len() == jj,
                cur_d@.len() == jj,
                forall|t: int|
                    0 <= t < jj ==> #[trigger] cur_score@[t] as int == scr(hl, nd, gs, i as int, t),
                forall|t: int|
                    0 <= t < jj ==> #[trigger] cur_d@[t] as int == dmat(hl, nd, gs, i as int, t),
            decreases m - jj,
        {
            proof {
                lemma_dmat_bounds(hl, nd, gs, i - 1, jj - 1);
                lemma_scr_bounds(hl, nd, gs, i - 1, jj as int);
                lemma_scr_bounds(hl, nd, gs, i as int, jj - 1);
                assert((i as int) * mm + mm == (i as int + 1) * mm) by (nonlinear_arith);
                assert((i as int + 1) * mm <= 1000001 * 4000095) by (nonlinear_arith)
                    requires
                        0 <= i as int + 1 <= 1000001 && 0 <= mm <= 4000095,
                ;
            }
            if nci == haystack_chars[jj] {
                let mut match_score = SCORE_MATCH + bonus_for(&graphemes, jj);
                if i == jj {
                    match_score = match_score + BONUS_CONSECUTIVE * (n as i64);
                }
                let dd = match_score + prev_d[jj - 1];
                let up = prev_score[jj] + SCORE_GAP_EXTENSION;
                let sc = if dd >= up {
                    dd
                } else {
                    up
                };
                cur_d.push(dd);
                cur_score.push(sc);
            } else {
                let sc = cur_score[jj - 1] + SCORE_GAP_EXTENSION;
                cur_d.push(0);
                cur_score.push(sc);
            }
            jj = jj + 1;
        }
        prev_score = cur_score;
        prev_d = cur_d;
        i = i + 1;
    }
    let sweep = prev_score[m - 1];
    proof {
        lemma_scr_bounds(hl, nd, gs, n - 1, m - 1);
        assert((n - 1 + 1) * mm <= 1000000 * 4000095) by (nonlinear_arith)
            requires
                0 <= n <= 1000000 && 0 <= mm <= 4000095,
        ;
        assert((if is_substring_of(nd, haystack@) {
            BONUS_CASE_MATCH as int
        } else {
            0
        }) == 0);
    }
    sweep + acronym_bonus
}

/// Scores `needle` against `haystack`: `None` when a nonempty needle is not an
/// ordered subsequence of the lowercased haystack, otherwise the relevance
/// score.
pub fn match_and_score(haystack: &str, needle: &str) -> (r: Option<i64>)
    ensures
        match r {
            Some(v) => score_of(haystack@, needle@) == Some(v as int),
            None => score_of(haystack@, needle@) is None,
        },
{
    if needle.is_empty() {
        return Some(0);
    }
    let haystack_lower = lowercase_str(haystack);
    let haystack_chars = chars_vec(haystack_lower.as_str());
    let needle_chars = chars_vec(needle);
    if !is_match(&haystack_chars, &needle_chars) {
        return None;
    }
    proof {
        lemma_subseq_len(needle_chars@, haystack_chars@);
    }
    if haystack_chars.len() > SCORE_TEXT_CAP {
        return Some(0);
    }
    Some(compute_score(haystack, &haystack_chars, &needle_chars))
}

/// Any score the scorer hands out lies far inside `i64`.
pub proof fn lemma_score_of_bounds(h: Seq<char>, nd: Seq<char>)
    ensures
        match score_of(h, nd) {
            Some(v) => -1000000 <= v <= 4100000000000,
            None => true,
        },
{
    if nd.len() == 0 {
    } else if !is_subseq(nd, lower_of(h)) {
    } else if lower_of(h).len() > SCORE_TEXT_CAP as int {
    } else {
        let hl = lower_of(h);
        let gs = graphemes_of(h);
        lemma_subseq_len(nd, hl);
        let n = nd.len() as int;
        let m = hl.len() as int;
        let mm = 95 + 4 * n;
        lemma_scr_bounds(hl, nd, gs, n - 1, m - 1);
        assert(n * mm <= 1000000 * 4000095) by (nonlinear_arith)
            requires
                0 <= n <= 1000000 && 0 <= mm <= 4000095,
        ;
        assert((if is_substring_of(nd, h) {
            BONUS_CASE_MATCH as int
        } else {
            0
        }) == 0);
    }
}

/// Law: the empty needle always scores, with the neutral score zero.
pub proof fn lemma_empty_needle_scores(h: Seq<char>)
    ensures
        score_of(h, Seq::<char>::empty()) == Some(0int),
{
}

/// Law: a nonempty needle that is not an ordered subsequence of the
/// lowercased haystack has no score at all.
pub proof fn lemma_no_subsequence_no_score(h: Seq<char>, nd: Seq<char>)
    requires
        nd.len() > 0,
        !is_subseq(nd, lower_of(h)),
    ensures
        score_of(h, nd) is None,
{
}

/// Law: a needle that is an ordered subsequence of the lowercased haystack
/// always has a score, and that score is a plain (finite) integer.
pub proof fn lemma_subsequence_scores(h: Seq<char>, nd: Seq<char>)
    requires
        is_subseq(nd, lower_of(h)),
    ensures
        score_of(h, nd) is Some,
{
}

} // verus!
