//! Chapter detection: one forward pass over the page texts that opens a
//! chapter at each heading, accumulates the pages that follow, and closes
//! chapters at the next heading, at the page limit, or at the end.
use vstd::prelude::*;

use crate::pattern::{match_each, pattern_compiles, regex_is_match, regex_valid, replace_all, regex_replaced};
use crate::text::{
    append_chars, chars_from, chars_of, decimal, join, join_with, lines, lines_of, push_decimal, remove_char,
    seqs_of, slice_of, string_of, strings_of, trim, trimmed, without_char,
};

verus! {

/// One chapter of the result, with 0-based page numbers.
pub struct Chapter {
    pub title: String,
    pub content: String,
    pub page_start: usize,
    pub page_end: usize,
}

pub struct ChapterView {
    pub title: Seq<char>,
    pub content: Seq<char>,
    pub page_start: int,
    pub page_end: int,
}

impl View for Chapter {
    type V = ChapterView;

    open spec fn view(&self) -> ChapterView {
        ChapterView {
            title: self.title@,
            content: self.content@,
            page_start: self.page_start as int,
            page_end: self.page_end as int,
        }
    }
}

pub open spec fn chapter_views(v: Seq<Chapter>) -> Seq<ChapterView> {
    v.map_values(|c: Chapter| c@)
}

/// The settings of one detection run.
pub struct DetectConfig {
    pub pattern: Seq<char>,
    pub min_len: nat,
    pub max_pages: nat,
    pub clean: bool,
}

/// The chapter being accumulated. `part` is 0 until the chapter is first cut
/// at the page limit; after that it numbers the part being accumulated.
pub struct OpenChapter {
    pub title: Seq<char>,
    pub content: Seq<char>,
    pub start: int,
    pub part: nat,
}

pub struct DetectState {
    pub open: Option<OpenChapter>,
    pub done: Seq<ChapterView>,
}

pub open spec fn blank_runs() -> Seq<char> {
    "\n\\s*\n\\s*\n+"@
}

pub open spec fn space_runs() -> Seq<char> {
    "[ \t]+"@
}

pub open spec fn space_after_newline() -> Seq<char> {
    "\n "@
}

/// One replacement step of the cleaning, skipped if the pattern is refused.
pub open spec fn replaced(pattern: Seq<char>, s: Seq<char>, rep: Seq<char>) -> Seq<char> {
    if regex_valid(pattern) {
        regex_replaced(pattern, s, rep)
    } else {
        s
    }
}

/// The cleaning of a text: carriage returns dropped, runs of three or more
/// line breaks (with whitespace between) made two, runs of spaces and tabs
/// made one space, a space after a line break dropped, and the whole trimmed.
pub open spec fn cleaned(enabled: bool, t: Seq<char>) -> Seq<char> {
    if !enabled {
        t
    } else {
        let a = remove_char(t, '\r');
        let b = replaced(blank_runs(), a, "\n\n"@);
        let c = replaced(space_runs(), b, " "@);
        let d = replaced(space_after_newline(), c, "\n"@);
        trim(d)
    }
}

/// How many of the first lines of a page are looked at for a heading.
pub const HEADING_LINES: usize = 10;

/// The first of the first ten lines from `j` on that, trimmed, matches the
/// heading pattern.
pub open spec fn heading_from(pattern: Seq<char>, ls: Seq<Seq<char>>, j: int) -> Option<int>
    decreases ls.len() - j,
{
    if j < 0 || j >= ls.len() || j >= HEADING_LINES {
        None
    } else if regex_is_match(pattern, trim(ls[j])) {
        Some(j)
    } else {
        heading_from(pattern, ls, j + 1)
    }
}

pub open spec fn part_title(title: Seq<char>, part: nat) -> Seq<char> {
    title + " (Part "@ + decimal(part) + ")"@
}

pub open spec fn shown_title(o: OpenChapter) -> Seq<char> {
    if o.part == 0 {
        o.title
    } else {
        part_title(o.title, o.part)
    }
}

pub open spec fn closed(c: DetectConfig, o: OpenChapter, end: int) -> ChapterView {
    ChapterView {
        title: shown_title(o),
        content: cleaned(c.clean, o.content),
        page_start: o.start,
        page_end: end,
    }
}

/// The chapters done, with the open chapter closed at `end` if it holds a
/// page by then and its cleaned content is long enough.
pub open spec fn close_if_long(c: DetectConfig, s: DetectState, end: int) -> Seq<ChapterView> {
    match s.open {
        Some(o) => if o.start <= end && cleaned(c.clean, o.content).len() >= c.min_len {
            s.done.push(closed(c, o, end))
        } else {
            s.done
        },
        None => s.done,
    }
}

pub open spec fn appended(content: Seq<char>, page: Seq<char>) -> Seq<char> {
    if content.len() == 0 {
        page
    } else {
        content + "\n"@ + page
    }
}

/// Page `i`: a heading closes the open chapter and opens one; a page without
/// one is added to the open chapter.
pub open spec fn after_heading(c: DetectConfig, s: DetectState, i: int, page: Seq<char>) -> DetectState {
    let ls = lines_of(cleaned(c.clean, page));
    match heading_from(c.pattern, ls, 0) {
        Some(j) => DetectState {
            open: Some(
                OpenChapter {
                    title: trim(ls[j]),
                    content: join(ls.subrange(j + 1, ls.len() as int), "\n"@),
                    start: i,
                    part: 0,
                },
            ),
            done: close_if_long(c, s, if i > 0 { i - 1 } else { 0 }),
        },
        None => match s.open {
            Some(o) => DetectState {
                open: Some(
                    OpenChapter {
                        title: o.title,
                        content: appended(o.content, cleaned(c.clean, page)),
                        start: o.start,
                        part: o.part,
                    },
                ),
                done: s.done,
            },
            None => s,
        },
    }
}

/// Page `i`, after the heading test: an open chapter that spans the page
/// limit is closed as a part (kept if its cleaned content is long enough)
/// and the next part opens on the following page.
pub open spec fn after_limit(c: DetectConfig, s: DetectState, i: int) -> DetectState {
    match s.open {
        Some(o) => if c.max_pages > 0 && i + 1 - o.start >= c.max_pages {
            let part: nat = if o.part == 0 { 1 } else { o.part };
            let cut = ChapterView {
                title: part_title(o.title, part),
                content: cleaned(c.clean, o.content),
                page_start: o.start,
                page_end: i,
            };
            DetectState {
                open: Some(
                    OpenChapter { title: o.title, content: Seq::<char>::empty(), start: i + 1, part: part + 1 },
                ),
                done: if cut.content.len() >= c.min_len { s.done.push(cut) } else { s.done },
            }
        } else {
            s
        },
        None => s,
    }
}

pub open spec fn step(c: DetectConfig, s: DetectState, i: int, page: Seq<char>) -> DetectState {
    after_limit(c, after_heading(c, s, i, page), i)
}

/// The state after the pages, in order.
pub open spec fn run(c: DetectConfig, pages: Seq<Seq<char>>) -> DetectState
    decreases pages.len(),
{
    if pages.len() == 0 {
        DetectState { open: None, done: Seq::<ChapterView>::empty() }
    } else {
        step(c, run(c, pages.drop_last()), pages.len() - 1, pages.last())
    }
}

/// The chapters of `pages`: those of the pass, the open one closed at the
/// last page if it holds a page and is long enough; if none, the whole text
/// as one chapter if there are pages and their joined text is long enough.
pub open spec fn detected(c: DetectConfig, pages: Seq<Seq<char>>) -> Seq<ChapterView> {
    let last: int = if pages.len() > 0 { pages.len() - 1 } else { 0 };
    let done = close_if_long(c, run(c, pages), last);
    if done.len() > 0 {
        done
    } else {
        let full = join(pages, "\n\n"@);
        if pages.len() > 0 && full.len() >= c.min_len {
            seq![ChapterView { title: "Full Document"@, content: cleaned(c.clean, full), page_start: 0, page_end: last }]
        } else {
            done
        }
    }
}

/// The pass over the pages keeps no chapter, so the whole text stands in.
pub open spec fn fallback_used(c: DetectConfig, pages: Seq<Seq<char>>) -> bool {
    let last: int = if pages.len() > 0 { pages.len() - 1 } else { 0 };
    close_if_long(c, run(c, pages), last).len() == 0
}

/// No page holds a heading among its first lines.
pub open spec fn no_heading(c: DetectConfig, pages: Seq<Seq<char>>) -> bool {
    forall|i: int|
        0 <= i < pages.len() ==> heading_from(c.pattern, lines_of(cleaned(c.clean, #[trigger] pages[i])), 0) is None
}

/// Each chapter starts no later than it ends, and no earlier than the one
/// before it.
pub open spec fn ordered(v: Seq<ChapterView>) -> bool {
    &&& forall|k: int| 0 <= k < v.len() ==> (#[trigger] v[k]).page_start <= v[k].page_end
    &&& forall|k: int| 0 < k < v.len() ==> v[k - 1].page_start <= (#[trigger] v[k]).page_start
}

pub open spec fn all_long(v: Seq<ChapterView>, min_len: nat) -> bool {
    forall|k: int| 0 <= k < v.len() ==> (#[trigger] v[k]).content.len() >= min_len
}

/// Every chapter ends at page `bound` or earlier.
pub open spec fn ends_by(v: Seq<ChapterView>, bound: int) -> bool {
    forall|k: int| 0 <= k < v.len() ==> 0 <= (#[trigger] v[k]).page_end <= bound
}

/// With a page limit, each chapter spans at most that many pages.
pub open spec fn within_limit(v: Seq<ChapterView>, max_pages: nat) -> bool {
    forall|k: int| 0 <= k < v.len() ==> (#[trigger] v[k]).page_end - v[k].page_start < max_pages
}

/// What holds of the detection state after `i` pages: the open chapter
/// starts no later than the next page; the chapters done end before the
/// next page, are ordered, start no later than the open one, are long
/// enough, and keep within the page limit if there is one.
pub open spec fn state_ok(c: DetectConfig, o: Option<OpenChapter>, done: Seq<ChapterView>, i: int) -> bool {
    &&& o matches Some(x) ==> 0 <= x.start <= i && x.part <= i + 1
    &&& ends_by(done, i - 1)
    &&& ordered(done)
    &&& o matches Some(x) ==> (done.len() > 0 ==> done.last().page_start <= x.start)
    &&& all_long(done, c.min_len)
    &&& c.max_pages > 0 ==> within_limit(done, c.max_pages)
}

/// With a page limit, the open chapter has spanned at most the limit less
/// `slack` pages before page `i`.
pub open spec fn open_span(c: DetectConfig, o: Option<OpenChapter>, i: int, slack: int) -> bool {
    c.max_pages > 0 ==> (o matches Some(x) ==> i - x.start + slack <= c.max_pages)
}

/// Why settings were refused.
#[derive(Debug, Clone, Copy, PartialEq, Eq, Structural)]
pub enum ConfigError {
    /// The chapter heading pattern is not a valid regular expression.
    InvalidPattern,
}

/// The settings of chapter detection and the page segmentation around it.
pub struct PdfProcessor {
    chapter_pattern: String,
    min_chapter_length: usize,
    max_pages_per_chapter: usize,
    clean_text: bool,
}

struct Open {
    title: Vec<char>,
    content: Vec<char>,
    start: usize,
    part: u128,
}

impl Open {
    spec fn view(&self) -> OpenChapter {
        OpenChapter {
            title: self.title@,
            content: self.content@,
            start: self.start as int,
            part: self.part as nat,
        }
    }
}

spec fn open_view(o: Option<Open>) -> Option<OpenChapter> {
    match o {
        Some(x) => Some(x.view()),
        None => None,
    }
}

impl PdfProcessor {
    #[verifier::type_invariant]
    spec fn valid(&self) -> bool {
        regex_valid(self.chapter_pattern@)
    }

    pub closed spec fn config(&self) -> DetectConfig {
        DetectConfig {
            pattern: self.chapter_pattern@,
            min_len: self.min_chapter_length as nat,
            max_pages: self.max_pages_per_chapter as nat,
            clean: self.clean_text,
        }
    }

    /// Settings with the given heading pattern, refused where the pattern is
    /// not a valid regular expression.
    pub fn new(
        chapter_pattern: &str,
        min_chapter_length: usize,
        max_pages_per_chapter: usize,
        clean_text: bool,
    ) -> (r: Result<PdfProcessor, ConfigError>)
        ensures
            r is Ok <==> regex_valid(chapter_pattern@),
            r is Err ==> r == Err::<PdfProcessor, ConfigError>(ConfigError::InvalidPattern),
            r matches Ok(p) ==> p.config() == (DetectConfig {
                pattern: chapter_pattern@,
                min_len: min_chapter_length as nat,
                max_pages: max_pages_per_chapter as nat,
                clean: clean_text,
            }),
    {
        if pattern_compiles(chapter_pattern) {
            Ok(
                PdfProcessor {
                    chapter_pattern: chapter_pattern.to_owned(),
                    min_chapter_length,
                    max_pages_per_chapter,
                    clean_text,
                },
            )
        } else {
            Err(ConfigError::InvalidPattern)
        }
    }

    fn clean_chars(&self, t: &Vec<char>) -> (r: Vec<char>)
        ensures
            r@ == cleaned(self.config().clean, t@),
    {
        if !self.clean_text {
            assert(t@.subrange(0, t@.len() as int) =~= t@);
            return slice_of(t, 0, t.len());
        }
        proof {
            reveal_strlit("\n\n");
            reveal_strlit(" ");
            reveal_strlit("\n");
        }
        let a = without_char(t, '\r');
        let b = replace_step("\n\\s*\n\\s*\n+", &a, "\n\n");
        let c = replace_step("[ \t]+", &b, " ");
        let d = replace_step("\n ", &c, "\n");
        assert(d@.subrange(0, d@.len() as int) =~= d@);
        trimmed(&d, 0, d.len())
    }

    /// The text cleaned as `cleaned` says if cleaning is on, else unchanged.
    pub fn clean_text_content(&self, text: &str) -> (r: String)
        ensures
            r@ == cleaned(self.config().clean, text@),
    {
        let t = chars_of(text);
        let c = self.clean_chars(&t);
        string_of(c.as_slice())
    }

    /// Index of the heading line among the first lines of `ls`.
    fn find_heading(&self, ls: &Vec<Vec<char>>) -> (r: Option<usize>)
        ensures
            r matches Some(j) ==> j < ls@.len() && heading_from(self.config().pattern, seqs_of(ls@), 0) == Some(j as int),
            r is None ==> heading_from(self.config().pattern, seqs_of(ls@), 0) is None,
    {
        proof {
            use_type_invariant(self);
        }
        let n = if ls.len() < HEADING_LINES {
            ls.len()
        } else {
            HEADING_LINES
        };
        let mut heads: Vec<String> = Vec::new();
        for k in 0..n
            invariant
                n <= ls.len(),
                heads.len() == k,
                forall|q: int| 0 <= q < k ==> #[trigger] heads@[q]@ == trim(ls@[q]@),
        {
            let t = trimmed(&ls[k], 0, ls[k].len());
            proof {
                assert(ls@[k as int]@.subrange(0, ls@[k as int]@.len() as int) =~= ls@[k as int]@);
            }
            heads.push(string_of(t.as_slice()));
        }
        let hits = match_each(self.chapter_pattern.as_str(), &heads);
        let mut j: usize = 0;
        while j < n
            invariant
                j <= n,
                n == ls.len() || n == HEADING_LINES,
                n <= ls.len(),
                n <= HEADING_LINES,
                hits@.len() == n,
                forall|q: int| 0 <= q < n ==> #[trigger] hits@[q] == regex_is_match(self.config().pattern, trim(ls@[q]@)),
                heading_from(self.config().pattern, seqs_of(ls@), j as int) == heading_from(self.config().pattern, seqs_of(ls@), 0),
            decreases n - j,
        {
            assert(seqs_of(ls@)[j as int] == ls@[j as int]@);
            if hits[j] {
                return Some(j);
            }
            j = j + 1;
        }
        None
    }

    /// The heading test of page `i`.
    #[verifier::rlimit(60)]
    fn heading_step(&self, open: Option<Open>, done: &mut Vec<Chapter>, i: usize, page: &String) -> (r: Option<Open>)
        requires
            state_ok(self.config(), open_view(open), chapter_views(old(done)@), i as int),
            open_span(self.config(), open_view(open), i as int, 1),
            i < usize::MAX,
        ensures
            open_span(self.config(), open_view(r), i + 1, 0),
            open_view(r) == after_heading(
                self.config(),
                DetectState { open: open_view(open), done: chapter_views(old(done)@) },
                i as int,
                page@,
            ).open,
            chapter_views(final(done)@) == after_heading(
                self.config(),
                DetectState { open: open_view(open), done: chapter_views(old(done)@) },
                i as int,
                page@,
            ).done,
            state_ok(self.config(), open_view(r), chapter_views(final(done)@), i + 1),
            r matches Some(o) ==> o.start <= i && o.part <= i + 1,
            open is None && heading_from(
                self.config().pattern,
                lines_of(cleaned(self.config().clean, page@)),
                0,
            ) is None ==> r is None && final(done)@ == old(done)@,
    {
        let ghost c = self.config();
        let ghost d0 = chapter_views(done@);
        let pc = chars_of(page.as_str());
        let cl = self.clean_chars(&pc);
        let ls = lines(&cl);
        match self.find_heading(&ls) {
            Some(j) => {
                let end = if i > 0 { i - 1 } else { 0 };
                match open {
                    Some(o) => {
                        self.close_kept(o, end, done, i);
                    },
                    None => {},
                }
                assert(j < ls.len());
                let title = trimmed(&ls[j], 0, ls[j].len());
                let rest = slice_vecs(&ls, j + 1, ls.len());
                let nl = chars_of("\n");
                let content = join_with(&rest, &nl);
                proof {
                    assert(ls@[j as int]@.subrange(0, ls@[j as int]@.len() as int) =~= ls@[j as int]@);
                    assert(seqs_of(rest@) =~= seqs_of(ls@).subrange(j + 1, ls@.len() as int));
                    assert(seqs_of(ls@)[j as int] == ls@[j as int]@);
                }
                Some(Open { title, content, start: i, part: 0 })
            },
            None => {
                match open {
                    Some(o) => {
                        let mut o = o;
                        if o.content.len() > 0 {
                            let nl = chars_of("\n");
                            append_chars(&mut o.content, &nl);
                        }
                        append_chars(&mut o.content, &cl);
                        Some(o)
                    },
                    None => None,
                }
            },
        }
    }

    /// The page-limit test of page `i`.
    #[verifier::rlimit(60)]
    fn limit_step(&self, open: Option<Open>, done: &mut Vec<Chapter>, i: usize) -> (r: Option<Open>)
        requires
            state_ok(self.config(), open_view(open), chapter_views(old(done)@), i + 1),
            open_span(self.config(), open_view(open), i + 1, 0),
            open matches Some(o) ==> o.start <= i && o.part <= i + 1,
            i < usize::MAX,
        ensures
            open_span(self.config(), open_view(r), i + 1, 1),
            open_view(r) == after_limit(
                self.config(),
                DetectState { open: open_view(open), done: chapter_views(old(done)@) },
                i as int,
            ).open,
            chapter_views(final(done)@) == after_limit(
                self.config(),
                DetectState { open: open_view(open), done: chapter_views(old(done)@) },
                i as int,
            ).done,
            state_ok(self.config(), open_view(r), chapter_views(final(done)@), i + 1),
            open is None ==> r is None && final(done)@ == old(done)@,
    {
        let ghost d0 = chapter_views(done@);
        if self.max_pages_per_chapter == 0 {
            return open;
        }
        match open {
            Some(o) => {
                if i + 1 - o.start >= self.max_pages_per_chapter {
                    let part: u128 = if o.part == 0 { 1 } else { o.part };
                    let title = o.title;
                    let cut_title = titled_part(&title, part);
                    let content = self.clean_chars(&o.content);
                    if content.len() >= self.min_chapter_length {
                        let ch = Chapter {
                            title: string_of(cut_title.as_slice()),
                            content: string_of(content.as_slice()),
                            page_start: o.start,
                            page_end: i,
                        };
                        done.push(ch);
                        assert(chapter_views(done@) =~= d0.push(ch@));
                        proof {
                            lemma_push_ordered(d0, ch@);
                            lemma_push_kept(d0, ch@, self.config());
                        }
                    }
                    Some(Open { title, content: Vec::new(), start: i + 1, part: part + 1 })
                } else {
                    Some(o)
                }
            },
            None => None,
        }
    }

    /// Closes `o` at page `end` onto `done`, if it holds a page by then and
    /// its cleaned content is long enough.
    fn close_kept(&self, o: Open, end: usize, done: &mut Vec<Chapter>, bound: usize)
        requires
            ordered(chapter_views(old(done)@)),
            all_long(chapter_views(old(done)@), self.config().min_len),
            self.config().max_pages > 0 ==> within_limit(chapter_views(old(done)@), self.config().max_pages),
            old(done)@.len() > 0 ==> old(done)@.last().page_start <= o.start,
            ends_by(chapter_views(old(done)@), bound as int),
            end <= bound,
            self.config().max_pages > 0 && o.start <= end ==> end - o.start < self.config().max_pages,
        ensures
            chapter_views(final(done)@) == close_if_long(
                self.config(),
                DetectState { open: Some(o.view()), done: chapter_views(old(done)@) },
                end as int,
            ),
            ordered(chapter_views(final(done)@)),
            all_long(chapter_views(final(done)@), self.config().min_len),
            self.config().max_pages > 0 ==> within_limit(chapter_views(final(done)@), self.config().max_pages),
            final(done)@.len() > 0 ==> final(done)@.last().page_start <= o.start,
            ends_by(chapter_views(final(done)@), bound as int),
    {
        let ghost d0 = chapter_views(done@);
        let content = self.clean_chars(&o.content);
        if o.start <= end && content.len() >= self.min_chapter_length {
            let title = if o.part == 0 {
                o.title
            } else {
                titled_part(&o.title, o.part)
            };
            let ch = Chapter {
                title: string_of(title.as_slice()),
                content: string_of(content.as_slice()),
                page_start: o.start,
                page_end: end,
            };
            done.push(ch);
            assert(chapter_views(done@) =~= d0.push(ch@));
            proof {
                lemma_push_ordered(d0, ch@);
                lemma_push_kept(d0, ch@, self.config());
                assert forall|k: int| 0 <= k < d0.len() + 1 implies 0 <= (#[trigger] d0.push(
                    ch@,
                )[k]).page_end <= bound by {
                    if k < d0.len() {
                        assert(d0.push(ch@)[k] == d0[k]);
                    }
                }
            }
        }
    }

    /// The chapters of the page texts, in page order.
    ///
    /// A heading is a line among the first ten of a cleaned page that, trimmed,
    /// matches the pattern. It closes the open chapter and opens a new one with
    /// the lines after it. A page without a heading is added to the open
    /// chapter. Where a page limit is set, a chapter that spans that many pages
    /// is closed as a numbered part and the next part opens on the next page.
    /// A closed chapter or part is kept only if it holds at least one page and
    /// its cleaned content is at least the minimum length. If nothing is kept,
    /// the whole text is one chapter "Full Document", if the page texts joined
    /// by blank lines are at least the minimum length; that chapter alone is
    /// held to neither the cleaned length nor the page limit.
    #[verifier::rlimit(60)]
    pub fn detect_chapters(&self, pages: &Vec<String>) -> (r: Vec<Chapter>)
        ensures
            chapter_views(r@) == detected(self.config(), strings_of(pages@)),
            ordered(chapter_views(r@)),
            forall|k: int| 0 <= k < r@.len() ==> (#[trigger] r@[k]).page_end < pages.len(),
            !fallback_used(self.config(), strings_of(pages@)) ==> all_long(
                chapter_views(r@),
                self.config().min_len,
            ),
            self.config().max_pages > 0 && !fallback_used(self.config(), strings_of(pages@))
                ==> within_limit(chapter_views(r@), self.config().max_pages),
            fallback_used(self.config(), strings_of(pages@)) ==> r.len() <= 1,
            no_heading(self.config(), strings_of(pages@)) && pages.len() > 0 && join(
                strings_of(pages@),
                "\n\n"@,
            ).len() >= self.config().min_len ==> r.len() == 1 && r[0].title@ == "Full Document"@
                && r[0].content@ == cleaned(self.config().clean, join(strings_of(pages@), "\n\n"@))
                && r[0].page_start == 0 && r[0].page_end == pages.len() - 1,
    {
        let ghost c = self.config();
        let ghost sp = strings_of(pages@);
        let mut open: Option<Open> = None;
        let mut done: Vec<Chapter> = Vec::new();
        let mut i: usize = 0;
        while i < pages.len()
            invariant
                i <= pages.len(),
                c == self.config(),
                sp == strings_of(pages@),
                open_view(open) == run(c, sp.subrange(0, i as int)).open,
                chapter_views(done@) == run(c, sp.subrange(0, i as int)).done,
                state_ok(c, open_view(open), chapter_views(done@), i as int),
                open_span(c, open_view(open), i as int, 1),
                no_heading(c, sp.subrange(0, i as int)) ==> open is None && done@.len() == 0,
            decreases pages.len() - i,
        {
            let ghost before = sp.subrange(0, i as int);
            assert(sp.subrange(0, i + 1).drop_last() =~= before);
            assert(sp.subrange(0, i + 1).last() == pages@[i as int]@);
            proof {
                if no_heading(c, sp.subrange(0, i + 1)) {
                    assert forall|k: int| 0 <= k < before.len() implies heading_from(
                        c.pattern,
                        lines_of(cleaned(c.clean, #[trigger] before[k])),
                        0,
                    ) is None by {
                        assert(before[k] == sp.subrange(0, i + 1)[k]);
                    }
                    assert(sp.subrange(0, i + 1)[i as int] == pages@[i as int]@);
                }
            }
            let o1 = self.heading_step(open, &mut done, i, &pages[i]);
            open = self.limit_step(o1, &mut done, i);
            i = i + 1;
        }
        assert(sp.subrange(0, pages.len() as int) =~= sp);
        self.finish(open, done, pages)
    }

    /// Closes the open chapter at the last page, or falls back to the whole
    /// text.
    #[verifier::rlimit(60)]
    fn finish(&self, open: Option<Open>, done: Vec<Chapter>, pages: &Vec<String>) -> (r: Vec<Chapter>)
        requires
            open_view(open) == run(self.config(), strings_of(pages@)).open,
            chapter_views(done@) == run(self.config(), strings_of(pages@)).done,
            state_ok(self.config(), open_view(open), chapter_views(done@), pages.len() as int),
            open_span(self.config(), open_view(open), pages.len() as int, 1),
            no_heading(self.config(), strings_of(pages@)) ==> open is None && done@.len() == 0,
        ensures
            chapter_views(r@) == detected(self.config(), strings_of(pages@)),
            ordered(chapter_views(r@)),
            forall|k: int| 0 <= k < r@.len() ==> (#[trigger] r@[k]).page_end < pages.len(),
            !fallback_used(self.config(), strings_of(pages@)) ==> all_long(
                chapter_views(r@),
                self.config().min_len,
            ),
            self.config().max_pages > 0 && !fallback_used(self.config(), strings_of(pages@))
                ==> within_limit(chapter_views(r@), self.config().max_pages),
            fallback_used(self.config(), strings_of(pages@)) ==> r.len() <= 1,
            no_heading(self.config(), strings_of(pages@)) && pages.len() > 0 && join(
                strings_of(pages@),
                "\n\n"@,
            ).len() >= self.config().min_len ==> r.len() == 1 && r[0].title@ == "Full Document"@
                && r[0].content@ == cleaned(self.config().clean, join(strings_of(pages@), "\n\n"@))
                && r[0].page_start == 0 && r[0].page_end == pages.len() - 1,
    {
        let ghost c = self.config();
        let ghost sp = strings_of(pages@);
        let ghost d0 = chapter_views(done@);
        let mut done = done;
        let last = if pages.len() > 0 { pages.len() - 1 } else { 0 };
        match open {
            Some(o) => {
                self.close_kept(o, last, &mut done, last);
            },
            None => {},
        }
        if done.len() == 0 && pages.len() > 0 {
            let all = chars_from(pages);
            let sep = chars_of("\n\n");
            let full = join_with(&all, &sep);
            if full.len() >= self.min_chapter_length {
                let content = self.clean_chars(&full);
                let ch = Chapter {
                    title: "Full Document".to_string(),
                    content: string_of(content.as_slice()),
                    page_start: 0,
                    page_end: last,
                };
                done.push(ch);
                assert(chapter_views(done@) =~= seq![ch@]);
            }
        }
        assert(chapter_views(done@) =~= detected(c, sp));
        assert forall|k: int| 0 <= k < done@.len() implies (#[trigger] done@[k]).page_end < pages.len() by {
            assert(chapter_views(done@)[k] == done@[k]@);
        }
        done
    }
}

/// A chapter that starts no earlier than the last one, and ends no earlier
/// than it starts, keeps the list ordered.
proof fn lemma_push_ordered(done: Seq<ChapterView>, x: ChapterView)
    requires
        ordered(done),
        x.page_start <= x.page_end,
        done.len() > 0 ==> done.last().page_start <= x.page_start,
    ensures
        ordered(done.push(x)),
{
    let d = done.push(x);
    assert forall|k: int| 0 < k < d.len() implies d[k - 1].page_start <= (#[trigger] d[k]).page_start by {
        if k < done.len() {
            assert(d[k - 1] == done[k - 1] && d[k] == done[k]);
        }
    }
    assert forall|k: int| 0 <= k < d.len() implies (#[trigger] d[k]).page_start <= d[k].page_end by {
        if k < done.len() {
            assert(d[k] == done[k]);
        }
    }
}

/// A long enough chapter within the page limit keeps the list so.
proof fn lemma_push_kept(done: Seq<ChapterView>, x: ChapterView, c: DetectConfig)
    requires
        all_long(done, c.min_len),
        x.content.len() >= c.min_len,
        c.max_pages > 0 ==> within_limit(done, c.max_pages),
        c.max_pages > 0 ==> x.page_end - x.page_start < c.max_pages,
    ensures
        all_long(done.push(x), c.min_len),
        c.max_pages > 0 ==> within_limit(done.push(x), c.max_pages),
{
    let d = done.push(x);
    assert forall|k: int| 0 <= k < d.len() implies (#[trigger] d[k]).content.len() >= c.min_len by {
        if k < done.len() {
            assert(d[k] == done[k]);
        }
    }
    if c.max_pages > 0 {
        assert forall|k: int| 0 <= k < d.len() implies (#[trigger] d[k]).page_end - d[k].page_start
            < c.max_pages by {
            if k < done.len() {
                assert(d[k] == done[k]);
            }
        }
    }
}

/// `title (Part n)`.
fn titled_part(title: &Vec<char>, n: u128) -> (r: Vec<char>)
    ensures
        r@ == part_title(title@, n as nat),
{
    let mut r = slice_of(title, 0, title.len());
    assert(title@.subrange(0, title@.len() as int) =~= title@);
    let a = chars_of(" (Part ");
    append_chars(&mut r, &a);
    push_decimal(&mut r, n);
    let b = chars_of(")");
    append_chars(&mut r, &b);
    r
}

/// The pieces `v[lo..hi]`.
fn slice_vecs(v: &Vec<Vec<char>>, lo: usize, hi: usize) -> (r: Vec<Vec<char>>)
    requires
        lo <= hi <= v.len(),
    ensures
        seqs_of(r@) == seqs_of(v@).subrange(lo as int, hi as int),
{
    let mut r: Vec<Vec<char>> = Vec::new();
    let mut k = lo;
    while k < hi
        invariant
            lo <= k <= hi <= v.len(),
            r.len() == k - lo,
            forall|q: int| 0 <= q < r.len() ==> #[trigger] r@[q]@ == v@[lo + q]@,
        decreases hi - k,
    {
        let x = slice_of(&v[k], 0, v[k].len());
        assert(v@[k as int]@.subrange(0, v@[k as int]@.len() as int) =~= v@[k as int]@);
        r.push(x);
        k = k + 1;
    }
    assert(seqs_of(r@) =~= seqs_of(v@).subrange(lo as int, hi as int));
    r
}

/// One cleaning replacement, skipped if the pattern is refused.
fn replace_step(pattern: &str, s: &Vec<char>, rep: &str) -> (r: Vec<char>)
    requires
        forall|i: int| 0 <= i < rep@.len() ==> rep@[i] != '$',
    ensures
        r@ == replaced(pattern@, s@, rep@),
{
    if pattern_compiles(pattern) {
        let st = string_of(s.as_slice());
        let out = replace_all(pattern, st.as_str(), rep);
        chars_of(out.as_str())
    } else {
        slice_of(s, 0, s.len())
    }
}

} // verus!
