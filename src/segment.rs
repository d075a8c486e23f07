//! Page segmentation: rebuilding page-like pieces from one block of text
//! that carries no page boundaries, by the first of several heuristics that
//! yields more than one piece.
use vstd::prelude::*;

use crate::chapters::PdfProcessor;
use crate::pattern::{
    match_each, match_starts, offsets, pattern_compiles, regex_is_match, regex_match_starts, regex_split,
    regex_valid, split,
};
use crate::text::{
    all_space, all_trimmed, lemma_trim_empty, lemma_trim_trim,
    chars_of, is_space, is_space_char, join, join_with, lines, lines_of, seqs_of,
    slice_of, split_char, string_of, strings_from, strings_of, trim, trimmed,
};

verus! {

/// The size a piece aims at under the character budget.
pub const TARGET_CHARS: usize = 2500;

/// The size no piece exceeds under the character budget.
pub const MAX_CHARS: usize = 4000;

/// How far from the target a paragraph break is looked for.
pub const PARAGRAPH_WINDOW: usize = 500;

/// How far from the target a sentence end is looked for.
pub const SENTENCE_WINDOW: usize = 200;

/// Lines after which a short or blank line ends a piece.
pub const LINES_PER_PAGE: usize = 40;

/// Lines at which a piece ends whatever the line.
pub const MAX_LINES_PER_PAGE: usize = 80;

/// The trimmed pieces, without those that trim to nothing.
pub open spec fn nonempty_trimmed(p: Seq<Seq<char>>) -> Seq<Seq<char>>
    decreases p.len(),
{
    if p.len() == 0 {
        Seq::<Seq<char>>::empty()
    } else if trim(p.last()).len() > 0 {
        nonempty_trimmed(p.drop_last()).push(trim(p.last()))
    } else {
        nonempty_trimmed(p.drop_last())
    }
}

/// Two line breaks in a row at `p`.
pub open spec fn para_at(s: Seq<char>, p: int) -> bool {
    0 <= p && p + 1 < s.len() && s[p] == '\n' && s[p + 1] == '\n'
}

/// A `.`, `!` or `?` at `p` with whitespace after it.
pub open spec fn sentence_at(s: Seq<char>, p: int) -> bool {
    0 <= p && p + 1 < s.len() && (s[p] == '.' || s[p] == '!' || s[p] == '?') && is_space(s[p + 1])
}

/// The position nearest `e`, at distance `k` or more and at most `w`, where
/// `at` holds; of two at the same distance, the later one. The position
/// before `e` must stay after position 0.
pub open spec fn nearest(s: Seq<char>, e: int, k: int, w: int, para: bool) -> Option<int>
    decreases w + 1 - k,
{
    if k > w || k < 0 {
        None
    } else if e + k < s.len() && (if para { para_at(s, e + k) } else { sentence_at(s, e + k) }) {
        Some(e + k)
    } else if e > k && (if para { para_at(s, e - k) } else { sentence_at(s, e - k) }) {
        Some(e - k)
    } else {
        nearest(s, e, k + 1, w, para)
    }
}

pub proof fn lemma_nearest_within(s: Seq<char>, e: int, k: int, w: int, para: bool)
    ensures
        nearest(s, e, k, w, para) matches Some(p) ==> e - w <= p <= e + w && 0 <= p && p + 1 < s.len(),
    decreases w + 1 - k,
{
    if k <= w && k >= 0 {
        lemma_nearest_within(s, e, k + 1, w, para);
    }
}

/// Where the piece that begins at `cur` ends: near the target size at the
/// nearest paragraph break, else after the nearest sentence end, else at the
/// target; never past the maximum size.
pub open spec fn budget_end(s: Seq<char>, cur: int) -> int {
    let n = s.len() as int;
    let e0 = if n - cur > TARGET_CHARS { cur + TARGET_CHARS } else { n };
    let e1 = if e0 < n {
        match nearest(s, e0, 0, PARAGRAPH_WINDOW as int, true) {
            Some(p) => p,
            None => match nearest(s, e0, 0, SENTENCE_WINDOW as int, false) {
                Some(p) => p + 1,
                None => e0,
            },
        }
    } else {
        e0
    };
    if e1 - cur > MAX_CHARS {
        cur + MAX_CHARS
    } else {
        e1
    }
}

/// The cursor always advances, to at most the end and the maximum size.
pub proof fn lemma_budget_advances(s: Seq<char>, cur: int)
    requires
        0 <= cur < s.len(),
    ensures
        cur < budget_end(s, cur) <= s.len(),
        budget_end(s, cur) - cur <= MAX_CHARS,
{
    let n = s.len() as int;
    let e0 = if n - cur > TARGET_CHARS { cur + TARGET_CHARS } else { n };
    lemma_nearest_within(s, e0, 0, PARAGRAPH_WINDOW as int, true);
    lemma_nearest_within(s, e0, 0, SENTENCE_WINDOW as int, false);
}

/// The pieces from `cur` on under the character budget, trimmed, without
/// those that trim to nothing.
pub open spec fn budget_pieces(s: Seq<char>, cur: int) -> Seq<Seq<char>>
    decreases s.len() - cur,
{
    if cur < 0 || cur >= s.len() {
        Seq::<Seq<char>>::empty()
    } else {
        let e = budget_end(s, cur);
        let piece = trim(s.subrange(cur, e));
        let rest = if cur < e <= s.len() { budget_pieces(s, e) } else { Seq::<Seq<char>>::empty() };
        if piece.len() > 0 {
            seq![piece] + rest
        } else {
            rest
        }
    }
}

pub struct LinePages {
    pub pages: Seq<Seq<char>>,
    pub cur: Seq<Seq<char>>,
}

/// Pieces by line count: a piece ends at a line of fewer than 20 characters
/// (trimmed) once it holds 40 lines, and at 80 lines in any case.
pub open spec fn line_run(ls: Seq<Seq<char>>) -> LinePages
    decreases ls.len(),
{
    if ls.len() == 0 {
        LinePages { pages: Seq::<Seq<char>>::empty(), cur: Seq::<Seq<char>>::empty() }
    } else {
        let st = line_run(ls.drop_last());
        let cur = st.cur.push(ls.last());
        if (cur.len() >= LINES_PER_PAGE && trim(ls.last()).len() < 20) || cur.len()
            >= MAX_LINES_PER_PAGE {
            LinePages { pages: st.pages.push(join(cur, "\n"@)), cur: Seq::<Seq<char>>::empty() }
        } else {
            LinePages { pages: st.pages, cur }
        }
    }
}

/// The pieces by line count, trimmed, without blank ones.
pub open spec fn line_pages(s: Seq<char>) -> Seq<Seq<char>> {
    nonempty_trimmed(line_chunks(s))
}

/// The pieces by line count; a text of fewer than ten lines is one piece.
pub open spec fn line_chunks(s: Seq<char>) -> Seq<Seq<char>> {
    let ls = lines_of(s);
    if ls.len() < 10 {
        seq![s]
    } else {
        let st = line_run(ls);
        if st.cur.len() > 0 {
            st.pages.push(join(st.cur, "\n"@))
        } else {
            st.pages
        }
    }
}

/// Offsets that rise (or stay) and stay within the text.
pub open spec fn sorted_within(starts: Seq<int>, n: int) -> bool {
    &&& forall|k: int| 0 <= k < starts.len() ==> 0 <= #[trigger] starts[k] <= n
    &&& forall|k: int| 0 < k < starts.len() ==> starts[k - 1] <= #[trigger] starts[k]
}

pub open spec fn one_if_nonempty(x: Seq<char>) -> Seq<Seq<char>> {
    if x.len() > 0 {
        seq![x]
    } else {
        Seq::<Seq<char>>::empty()
    }
}

/// The trimmed non-empty pieces from each marker to the next.
pub open spec fn between_markers(s: Seq<char>, starts: Seq<int>) -> Seq<Seq<char>>
    decreases starts.len(),
{
    if starts.len() <= 1 {
        Seq::<Seq<char>>::empty()
    } else {
        let m = starts.len();
        between_markers(s, starts.drop_last()) + one_if_nonempty(
            trim(s.subrange(starts[m - 2], starts[m - 1])),
        )
    }
}

/// Pieces at the markers: from each marker to the next, and from the last
/// (or the start of the text, with none) to the end; text before the first
/// marker is left out.
pub open spec fn marker_pieces(s: Seq<char>, starts: Seq<int>) -> Seq<Seq<char>> {
    let last = if starts.len() == 0 { 0 } else { starts.last() };
    between_markers(s, starts) + if last < s.len() {
        one_if_nonempty(trim(s.subrange(last, s.len() as int)))
    } else {
        Seq::<Seq<char>>::empty()
    }
}

/// The trimmed non-empty pieces between the matches of `p`; the text alone
/// if the pattern is refused.
pub open spec fn pattern_pieces(p: Seq<char>, s: Seq<char>) -> Seq<Seq<char>> {
    if regex_valid(p) {
        nonempty_trimmed(regex_split(p, s))
    } else {
        seq![s]
    }
}

/// Pieces at a page indicator, if it matches and gives more than one.
pub open spec fn by_indicator(p: Seq<char>, s: Seq<char>) -> Option<Seq<Seq<char>>> {
    if regex_valid(p) && regex_is_match(p, s) && pattern_pieces(p, s).len() > 1 {
        Some(pattern_pieces(p, s))
    } else {
        None
    }
}

/// Pieces at a structural marker, if it matches more than twice and gives
/// more than one.
pub open spec fn by_structure(p: Seq<char>, s: Seq<char>) -> Option<Seq<Seq<char>>> {
    if regex_valid(p) {
        let st = regex_match_starts(p, s);
        if st.len() > 2 && sorted_within(st, s.len() as int) && marker_pieces(s, st).len() > 1 {
            Some(marker_pieces(s, st))
        } else {
            None
        }
    } else {
        None
    }
}

pub open spec fn page_indicators() -> Seq<Seq<char>> {
    seq![
        "(?i)page\\s+\\d+"@,
        "(?i)- \\d+ -"@,
        "(?im)^\\d+\\s*$"@,
        "(?i)page\\s+\\d+\\s+of\\s+\\d+"@,
    ]
}

pub open spec fn structure_markers() -> Seq<Seq<char>> {
    seq![
        "(?im)^(chapter|ch\\.?)\\s+\\d+"@,
        "(?im)^(section|sec\\.?)\\s+\\d+"@,
        "(?im)^(part|pt\\.?)\\s+\\d+"@,
        "(?im)^\\d+\\.\\s+[A-Z]"@,
    ]
}

/// The first of the patterns from `k` on that gives pieces.
pub open spec fn first_pieces(ps: Seq<Seq<char>>, s: Seq<char>, k: int, indicator: bool) -> Option<
    Seq<Seq<char>>,
>
    decreases ps.len() - k,
{
    if k < 0 || k >= ps.len() {
        None
    } else {
        let r = if indicator { by_indicator(ps[k], s) } else { by_structure(ps[k], s) };
        if r is Some {
            r
        } else {
            first_pieces(ps, s, k + 1, indicator)
        }
    }
}

/// The segmentation: form feeds, else page indicators, else structural
/// markers, else line counts, each taken only if it gives more than one
/// piece; else the character budget.
pub open spec fn segmented(s: Seq<char>) -> Seq<Seq<char>> {
    let ff = nonempty_trimmed(split_char(s, '\x0C'));
    if ff.len() > 1 {
        ff
    } else if first_pieces(page_indicators(), s, 0, true) is Some {
        first_pieces(page_indicators(), s, 0, true)->0
    } else if first_pieces(structure_markers(), s, 0, false) is Some {
        first_pieces(structure_markers(), s, 0, false)->0
    } else if line_pages(s).len() > 1 {
        line_pages(s)
    } else {
        budget_pieces(s, 0)
    }
}

pub open spec fn opt_strings(r: Option<Vec<String>>) -> Option<Seq<Seq<char>>> {
    match r {
        Some(v) => Some(strings_of(v@)),
        None => None,
    }
}

fn is_break_at(v: &Vec<char>, p: usize, para: bool) -> (r: bool)
    ensures
        r == (if para { para_at(v@, p as int) } else { sentence_at(v@, p as int) }),
{
    if p >= v.len() || v.len() - p < 2 {
        return false;
    }
    if para {
        v[p] == '\n' && v[p + 1] == '\n'
    } else {
        (v[p] == '.' || v[p] == '!' || v[p] == '?') && is_space_char(v[p + 1])
    }
}

fn nearest_break(v: &Vec<char>, e: usize, w: usize, para: bool) -> (r: Option<usize>)
    requires
        e <= v.len(),
        w < usize::MAX,
    ensures
        r matches Some(p) ==> nearest(v@, e as int, 0, w as int, para) == Some(p as int),
        r is None ==> nearest(v@, e as int, 0, w as int, para) is None,
{
    let mut k: usize = 0;
    while k <= w
        invariant
            e <= v.len(),
            w < usize::MAX,
            k <= w + 1,
            nearest(v@, e as int, k as int, w as int, para) == nearest(v@, e as int, 0, w as int, para),
        decreases w + 1 - k,
    {
        if k < v.len() - e && is_break_at(v, e + k, para) {
            return Some(e + k);
        }
        if e > k && is_break_at(v, e - k, para) {
            return Some(e - k);
        }
        k = k + 1;
    }
    None
}

fn budget_end_of(v: &Vec<char>, cur: usize) -> (r: usize)
    requires
        cur < v.len(),
    ensures
        r as int == budget_end(v@, cur as int),
{
    let n = v.len();
    let e0 = if n - cur > TARGET_CHARS { cur + TARGET_CHARS } else { n };
    let e1 = if e0 < n {
        match nearest_break(v, e0, PARAGRAPH_WINDOW, true) {
            Some(p) => p,
            None => match nearest_break(v, e0, SENTENCE_WINDOW, false) {
                Some(p) => {
                    proof {
                        lemma_nearest_within(v@, e0 as int, 0, SENTENCE_WINDOW as int, false);
                    }
                    p + 1
                },
                None => e0,
            },
        }
    } else {
        e0
    };
    if e1 > cur && e1 - cur > MAX_CHARS {
        cur + MAX_CHARS
    } else {
        proof {
            lemma_budget_advances(v@, cur as int);
        }
        e1
    }
}

/// The trimmed non-empty pieces of `p`.
fn keep_nonempty_trimmed(p: &Vec<Vec<char>>) -> (r: Vec<Vec<char>>)
    ensures
        seqs_of(r@) == nonempty_trimmed(seqs_of(p@)),
{
    let mut r: Vec<Vec<char>> = Vec::new();
    for k in 0..p.len()
        invariant
            seqs_of(r@) == nonempty_trimmed(seqs_of(p@).subrange(0, k as int)),
    {
        let ghost q = seqs_of(p@).subrange(0, k + 1);
        assert(q.drop_last() =~= seqs_of(p@).subrange(0, k as int));
        assert(q.last() == p@[k as int]@);
        let t = trimmed(&p[k], 0, p[k].len());
        assert(p@[k as int]@.subrange(0, p@[k as int]@.len() as int) =~= p@[k as int]@);
        if t.len() > 0 {
            r.push(t);
            assert(seqs_of(r@) =~= nonempty_trimmed(q));
        }
    }
    assert(seqs_of(p@).subrange(0, p.len() as int) =~= seqs_of(p@));
    r
}

/// The trimmed non-empty pieces of `v` from each offset to the next.
fn pieces_between(v: &Vec<char>, starts: &Vec<usize>) -> (r: Vec<Vec<char>>)
    requires
        sorted_within(offsets(starts@), v@.len() as int),
    ensures
        seqs_of(r@) == between_markers(v@, offsets(starts@)),
{
    let ghost st = offsets(starts@);
    let mut pages: Vec<Vec<char>> = Vec::new();
    if starts.len() == 0 {
        assert(seqs_of(pages@) =~= between_markers(v@, st));
        return pages;
    }
    let mut m: usize = 1;
    assert(seqs_of(pages@) =~= Seq::<Seq<char>>::empty());
    assert(st.subrange(0, 1).len() == 1);
    while m < starts.len()
        invariant
            st == offsets(starts@),
            sorted_within(st, v@.len() as int),
            1 <= m <= starts.len(),
            seqs_of(pages@) == between_markers(v@, st.subrange(0, m as int)),
        decreases starts.len() - m,
    {
        let ghost q = st.subrange(0, m + 1);
        assert(q.drop_last() =~= st.subrange(0, m as int));
        assert(st[m - 1] == starts@[m - 1] as int && st[m as int] == starts@[m as int] as int);
        let lo = starts[m - 1];
        let hi = starts[m];
        let t = trimmed(v, lo, hi);
        let ghost old_pages = seqs_of(pages@);
        if t.len() > 0 {
            pages.push(t);
        }
        assert(seqs_of(pages@) =~= old_pages + one_if_nonempty(t@));
        m = m + 1;
    }
    assert(st.subrange(0, starts.len() as int) =~= st);
    pages
}

proof fn lemma_concat_trimmed(a: Seq<Seq<char>>, b: Seq<Seq<char>>)
    requires
        all_trimmed(a),
        all_trimmed(b),
    ensures
        all_trimmed(a + b),
{
    assert forall|i: int| 0 <= i < (a + b).len() implies (#[trigger] (a + b)[i]).len() > 0 && trim(
        (a + b)[i],
    ) == (a + b)[i] by {
        if i < a.len() {
            assert((a + b)[i] == a[i]);
        } else {
            assert((a + b)[i] == b[i - a.len()]);
        }
    }
}

proof fn lemma_one_trimmed(x: Seq<char>)
    ensures
        all_trimmed(one_if_nonempty(trim(x))),
{
    lemma_trim_trim(x);
}

proof fn lemma_nonempty_trimmed(p: Seq<Seq<char>>)
    ensures
        all_trimmed(nonempty_trimmed(p)),
    decreases p.len(),
{
    if p.len() > 0 {
        lemma_nonempty_trimmed(p.drop_last());
        lemma_trim_trim(p.last());
        let q = nonempty_trimmed(p.drop_last());
        if trim(p.last()).len() > 0 {
            lemma_concat_trimmed(q, seq![trim(p.last())]);
            assert(q.push(trim(p.last())) =~= q + seq![trim(p.last())]);
        }
    }
}

proof fn lemma_between_markers(s: Seq<char>, st: Seq<int>)
    ensures
        all_trimmed(between_markers(s, st)),
    decreases st.len(),
{
    if st.len() > 1 {
        let m = st.len();
        lemma_between_markers(s, st.drop_last());
        lemma_one_trimmed(s.subrange(st[m - 2], st[m - 1]));
        lemma_concat_trimmed(
            between_markers(s, st.drop_last()),
            one_if_nonempty(trim(s.subrange(st[m - 2], st[m - 1]))),
        );
    }
}

proof fn lemma_marker_pieces(s: Seq<char>, st: Seq<int>)
    ensures
        all_trimmed(marker_pieces(s, st)),
{
    let last = if st.len() == 0 { 0 } else { st.last() };
    lemma_between_markers(s, st);
    if last < s.len() {
        lemma_one_trimmed(s.subrange(last, s.len() as int));
        lemma_concat_trimmed(between_markers(s, st), one_if_nonempty(trim(s.subrange(last, s.len() as int))));
    } else {
        lemma_concat_trimmed(between_markers(s, st), Seq::<Seq<char>>::empty());
    }
}

proof fn lemma_budget_pieces(s: Seq<char>, cur: int)
    requires
        0 <= cur <= s.len(),
    ensures
        all_trimmed(budget_pieces(s, cur)),
        budget_pieces(s, cur).len() == 0 ==> forall|k: int| cur <= k < s.len() ==> is_space(#[trigger] s[k]),
    decreases s.len() - cur,
{
    if cur < s.len() {
        lemma_budget_advances(s, cur);
        let e = budget_end(s, cur);
        let x = s.subrange(cur, e);
        lemma_budget_pieces(s, e);
        lemma_one_trimmed(x);
        lemma_trim_empty(x);
        let rest = budget_pieces(s, e);
        if trim(x).len() > 0 {
            lemma_concat_trimmed(seq![trim(x)], rest);
        } else if rest.len() == 0 {
            assert(all_space(x));
            assert forall|k: int| cur <= k < s.len() implies is_space(#[trigger] s[k]) by {
                if k < e {
                    assert(s[k] == x[k - cur]);
                    assert(is_space(x[k - cur]));
                }
            }
        }
    }
}

proof fn lemma_first_pieces(ps: Seq<Seq<char>>, s: Seq<char>, k: int, indicator: bool)
    ensures
        first_pieces(ps, s, k, indicator) matches Some(q) ==> all_trimmed(q) && q.len() > 1,
    decreases ps.len() - k,
{
    if 0 <= k < ps.len() {
        lemma_first_pieces(ps, s, k + 1, indicator);
        if regex_valid(ps[k]) {
            lemma_nonempty_trimmed(regex_split(ps[k], s));
            lemma_marker_pieces(s, regex_match_starts(ps[k], s));
        }
    }
}

/// Every segment is non-empty and trimmed, and a text that is not all
/// whitespace gives at least one.
pub proof fn lemma_segmented(s: Seq<char>)
    ensures
        all_trimmed(segmented(s)),
        trim(s).len() > 0 ==> segmented(s).len() > 0,
{
    lemma_nonempty_trimmed(split_char(s, '\x0C'));
    lemma_first_pieces(page_indicators(), s, 0, true);
    lemma_first_pieces(structure_markers(), s, 0, false);
    lemma_nonempty_trimmed(line_chunks(s));
    lemma_budget_pieces(s, 0);
    lemma_trim_empty(s);
}

impl PdfProcessor {
    /// Pieces under a character budget: each ends near the target size at
    /// the nearest paragraph break, else after the nearest sentence end,
    /// else at the target, and never holds more than the maximum size.
    pub fn character_based_splitting(&self, text: &str) -> (r: Vec<String>)
        ensures
            strings_of(r@) == budget_pieces(text@, 0),
            forall|i: int| 0 <= i < r@.len() ==> 0 < (#[trigger] r@[i])@.len() <= MAX_CHARS,
    {
        let v = chars_of(text);
        let mut pieces: Vec<Vec<char>> = Vec::new();
        let mut cur: usize = 0;
        while cur < v.len()
            invariant
                v@ == text@,
                cur <= v.len(),
                budget_pieces(v@, 0) == seqs_of(pieces@) + budget_pieces(v@, cur as int),
                forall|i: int| 0 <= i < pieces@.len() ==> 0 < (#[trigger] pieces@[i])@.len() <= MAX_CHARS,
            decreases v.len() - cur,
        {
            proof {
                lemma_budget_advances(v@, cur as int);
            }
            let e = budget_end_of(&v, cur);
            let (a, b) = crate::text::trim_bounds(&v, cur, e);
            let ghost rest = budget_pieces(v@, e as int);
            if a < b {
                let piece = slice_of(&v, a, b);
                let ghost old_pieces = seqs_of(pieces@);
                pieces.push(piece);
                assert(seqs_of(pieces@) =~= old_pieces.push(piece@));
                assert(budget_pieces(v@, cur as int) == seq![piece@] + rest);
                assert(old_pieces + (seq![piece@] + rest) =~= old_pieces.push(piece@) + rest);
            } else {
                assert(budget_pieces(v@, cur as int) == rest);
            }
            cur = e;
        }
        let r = strings_from(&pieces);
        proof {
            assert(budget_pieces(v@, cur as int) =~= Seq::<Seq<char>>::empty());
            assert(seqs_of(pieces@) + Seq::<Seq<char>>::empty() =~= seqs_of(pieces@));
            assert forall|i: int| 0 <= i < r@.len() implies 0 < (#[trigger] r@[i])@.len() <= MAX_CHARS by {
                assert(strings_of(r@)[i] == seqs_of(pieces@)[i]);
            }
        }
        r
    }

    /// Pieces by line count: once a piece holds 40 lines a short or blank
    /// line ends it, and 80 lines end it in any case; a text of fewer than
    /// ten lines stays whole. The pieces are trimmed and blank ones left out.
    pub fn content_based_page_splitting(&self, text: &str) -> (r: Vec<String>)
        ensures
            strings_of(r@) == line_pages(text@),
    {
        let chunks = self.line_chunks_of(text);
        let cs = crate::text::chars_from(&chunks);
        let kept = keep_nonempty_trimmed(&cs);
        strings_from(&kept)
    }

    fn line_chunks_of(&self, text: &str) -> (r: Vec<String>)
        ensures
            strings_of(r@) == line_chunks(text@),
    {
        let v = chars_of(text);
        let ls = lines(&v);
        if ls.len() < 10 {
            let whole = string_of(v.as_slice());
            let r = vec![whole];
            assert(strings_of(r@) =~= seq![text@]);
            return r;
        }
        let ghost sl = seqs_of(ls@);
        let mut pages: Vec<Vec<char>> = Vec::new();
        let mut cur: Vec<Vec<char>> = Vec::new();
        let nl = chars_of("\n");
        assert(sl.subrange(0, 0) =~= Seq::<Seq<char>>::empty());
        assert(seqs_of(pages@) =~= Seq::<Seq<char>>::empty());
        assert(seqs_of(cur@) =~= Seq::<Seq<char>>::empty());
        for k in 0..ls.len()
            invariant
                sl == seqs_of(ls@),
                nl@ == "\n"@,
                line_run(sl.subrange(0, k as int)) == (LinePages { pages: seqs_of(pages@), cur: seqs_of(cur@) }),
                cur.len() < MAX_LINES_PER_PAGE,
        {
            let ghost q = sl.subrange(0, k + 1);
            assert(q.drop_last() =~= sl.subrange(0, k as int));
            assert(q.last() == ls@[k as int]@);
            let line = slice_of(&ls[k], 0, ls[k].len());
            assert(ls@[k as int]@.subrange(0, ls@[k as int]@.len() as int) =~= ls@[k as int]@);
            let (a, b) = crate::text::trim_bounds(&ls[k], 0, ls[k].len());
            let ghost old_cur = seqs_of(cur@);
            cur.push(line);
            assert(seqs_of(cur@) =~= old_cur.push(q.last()));
            if (cur.len() >= LINES_PER_PAGE && b - a < 20) || cur.len() >= MAX_LINES_PER_PAGE {
                let page = join_with(&cur, &nl);
                let ghost old_pages = seqs_of(pages@);
                pages.push(page);
                assert(seqs_of(pages@) =~= old_pages.push(page@));
                cur = Vec::new();
                assert(seqs_of(cur@) =~= Seq::<Seq<char>>::empty());
            }
        }
        assert(sl.subrange(0, ls.len() as int) =~= sl);
        if cur.len() > 0 {
            let page = join_with(&cur, &nl);
            let ghost old_pages = seqs_of(pages@);
            pages.push(page);
            assert(seqs_of(pages@) =~= old_pages.push(page@));
        }
        strings_from(&pages)
    }

    /// Pieces at the given marker offsets: from each to the next, and from
    /// the last to the end, trimmed and without empty ones.
    pub fn split_by_structural_markers(&self, text: &str, starts: &Vec<usize>) -> (r: Vec<String>)
        requires
            sorted_within(offsets(starts@), text@.len() as int),
        ensures
            strings_of(r@) == marker_pieces(text@, offsets(starts@)),
    {
        let ghost st = offsets(starts@);
        let v = chars_of(text);
        let mut pages = pieces_between(&v, starts);
        let last = if starts.len() == 0 { 0 } else { starts[starts.len() - 1] };
        let ghost old_pages = seqs_of(pages@);
        if last < v.len() {
            let t = trimmed(&v, last, v.len());
            if t.len() > 0 {
                pages.push(t);
                assert(seqs_of(pages@) =~= old_pages + one_if_nonempty(t@));
            } else {
                assert(seqs_of(pages@) =~= old_pages + one_if_nonempty(t@));
            }
        } else {
            assert(seqs_of(pages@) =~= old_pages + Seq::<Seq<char>>::empty());
        }
        strings_from(&pages)
    }

    /// Pieces between the matches of `pattern`, trimmed and without empty
    /// ones; the text alone if the pattern is refused.
    pub fn split_by_pattern(&self, text: &str, pattern: &str) -> (r: Vec<String>)
        ensures
            strings_of(r@) == pattern_pieces(pattern@, text@),
    {
        if pattern_compiles(pattern) {
            let parts = split(pattern, text);
            let cs = crate::text::chars_from(&parts);
            let kept = keep_nonempty_trimmed(&cs);
            strings_from(&kept)
        } else {
            let whole = string_of(chars_of(text).as_slice());
            let r = vec![whole];
            assert(strings_of(r@) =~= seq![text@]);
            r
        }
    }

    fn try_indicator(&self, pattern: &str, text: &str) -> (r: Option<Vec<String>>)
        ensures
            opt_strings(r) == by_indicator(pattern@, text@),
    {
        if !pattern_compiles(pattern) {
            return None;
        }
        let whole = string_of(chars_of(text).as_slice());
        let one = vec![whole];
        let hit = match_each(pattern, &one);
        if !hit[0] {
            return None;
        }
        let pieces = self.split_by_pattern(text, pattern);
        if pieces.len() > 1 {
            Some(pieces)
        } else {
            None
        }
    }

    fn try_structure(&self, pattern: &str, text: &str) -> (r: Option<Vec<String>>)
        ensures
            opt_strings(r) == by_structure(pattern@, text@),
    {
        if !pattern_compiles(pattern) {
            return None;
        }
        let starts = match_starts(pattern, text);
        let ghost st = offsets(starts@);
        assert(st.len() == starts@.len());
        if starts.len() <= 2 {
            return None;
        }
        let n = chars_of(text).len();
        let mut k: usize = 0;
        while k < starts.len()
            invariant
                st == offsets(starts@),
                st == regex_match_starts(pattern@, text@),
                regex_valid(pattern@),
                st.len() > 2,
                n == text@.len(),
                k <= starts.len(),
                forall|q: int| 0 <= q < k ==> 0 <= #[trigger] st[q] <= n,
                forall|q: int| 0 < q < k ==> st[q - 1] <= #[trigger] st[q],
            decreases starts.len() - k,
        {
            if starts[k] > n || (k > 0 && starts[k - 1] > starts[k]) {
                assert(!sorted_within(st, n as int)) by {
                    if starts@[k as int] > n {
                        assert(st[k as int] > n);
                    } else {
                        assert(st[k - 1] > st[k as int]);
                    }
                }
                return None;
            }
            k = k + 1;
        }
        let pieces = self.split_by_structural_markers(text, &starts);
        if pieces.len() > 1 {
            Some(pieces)
        } else {
            None
        }
    }

    fn first_indicator(&self, text: &str) -> (r: Option<Vec<String>>)
        ensures
            opt_strings(r) == first_pieces(page_indicators(), text@, 0, true),
    {
        let ghost ps = page_indicators();
        assert(ps[0] == "(?i)page\\s+\\d+"@);
        assert(ps[1] == "(?i)- \\d+ -"@);
        assert(ps[2] == "(?im)^\\d+\\s*$"@);
        assert(ps[3] == "(?i)page\\s+\\d+\\s+of\\s+\\d+"@);
        assert(first_pieces(ps, text@, 4, true) is None);
        assert(first_pieces(ps, text@, 3, true) == by_indicator(ps[3], text@));
        let r = self.try_indicator("(?i)page\\s+\\d+", text);
        if r.is_some() {
            return r;
        }
        assert(first_pieces(ps, text@, 0, true) == first_pieces(ps, text@, 1, true));
        let r = self.try_indicator("(?i)- \\d+ -", text);
        if r.is_some() {
            return r;
        }
        assert(first_pieces(ps, text@, 1, true) == first_pieces(ps, text@, 2, true));
        let r = self.try_indicator("(?im)^\\d+\\s*$", text);
        if r.is_some() {
            return r;
        }
        assert(first_pieces(ps, text@, 2, true) == first_pieces(ps, text@, 3, true));
        let r = self.try_indicator("(?i)page\\s+\\d+\\s+of\\s+\\d+", text);
        r
    }

    fn first_structure(&self, text: &str) -> (r: Option<Vec<String>>)
        ensures
            opt_strings(r) == first_pieces(structure_markers(), text@, 0, false),
    {
        let ghost ps = structure_markers();
        assert(ps[0] == "(?im)^(chapter|ch\\.?)\\s+\\d+"@);
        assert(ps[1] == "(?im)^(section|sec\\.?)\\s+\\d+"@);
        assert(ps[2] == "(?im)^(part|pt\\.?)\\s+\\d+"@);
        assert(ps[3] == "(?im)^\\d+\\.\\s+[A-Z]"@);
        assert(first_pieces(ps, text@, 4, false) is None);
        assert(first_pieces(ps, text@, 3, false) == by_structure(ps[3], text@));
        let r = self.try_structure("(?im)^(chapter|ch\\.?)\\s+\\d+", text);
        if r.is_some() {
            return r;
        }
        assert(first_pieces(ps, text@, 0, false) == first_pieces(ps, text@, 1, false));
        let r = self.try_structure("(?im)^(section|sec\\.?)\\s+\\d+", text);
        if r.is_some() {
            return r;
        }
        assert(first_pieces(ps, text@, 1, false) == first_pieces(ps, text@, 2, false));
        let r = self.try_structure("(?im)^(part|pt\\.?)\\s+\\d+", text);
        if r.is_some() {
            return r;
        }
        assert(first_pieces(ps, text@, 2, false) == first_pieces(ps, text@, 3, false));
        let r = self.try_structure("(?im)^\\d+\\.\\s+[A-Z]", text);
        r
    }

    /// Page-like pieces of a text without page boundaries: by form feeds,
    /// else by the first page-indicator pattern, else by the first
    /// structural-marker pattern, else by line counts, each taken only if it
    /// gives more than one piece; else by the character budget.
    pub fn intelligent_page_splitting(&self, full_text: &str) -> (r: Vec<String>)
        ensures
            strings_of(r@) == segmented(full_text@),
            forall|i: int| 0 <= i < r@.len() ==> (#[trigger] r@[i])@.len() > 0 && trim(r@[i]@) == r@[i]@,
            trim(full_text@).len() > 0 ==> r@.len() > 0,
    {
        let r = self.segments(full_text);
        proof {
            lemma_segmented(full_text@);
            assert forall|i: int| 0 <= i < r@.len() implies (#[trigger] r@[i])@.len() > 0 && trim(r@[i]@)
                == r@[i]@ by {
                assert(strings_of(r@)[i] == r@[i]@);
            }
        }
        r
    }

    fn segments(&self, full_text: &str) -> (r: Vec<String>)
        ensures
            strings_of(r@) == segmented(full_text@),
    {
        let v = chars_of(full_text);
        let ff = crate::text::split_on(&v, '\x0C');
        let kept = keep_nonempty_trimmed(&ff);
        if kept.len() > 1 {
            return strings_from(&kept);
        }
        let r = self.first_indicator(full_text);
        match r {
            Some(p) => {
                return p;
            },
            None => {},
        }
        let r = self.first_structure(full_text);
        match r {
            Some(p) => {
                return p;
            },
            None => {},
        }
        let lp = self.content_based_page_splitting(full_text);
        if lp.len() > 1 {
            return lp;
        }
        self.character_based_splitting(full_text)
    }
}

} // verus!
