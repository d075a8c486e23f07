//! The text the ebook writers put out: the plain-text book, and the HTML
//! paragraphs of a chapter.
use vstd::prelude::*;

use crate::chapters::{chapter_views, Chapter, ChapterView};
use crate::text::{append_chars, chars_of, decimal, push_decimal, string_of, trim, trimmed};

verus! {

/// What `str::to_uppercase` makes of the text.
pub uninterp spec fn upper_of(s: Seq<char>) -> Seq<char>;

/// Relies on `str::to_uppercase`: the result depends on the characters alone.
#[verifier::external_body]
pub(crate) fn to_upper(s: &str) -> (r: String)
    ensures
        r@ == upper_of(s@),
{
    s.to_uppercase()
}

pub open spec fn html_char(c: char) -> Seq<char> {
    if c == '&' {
        "&amp;"@
    } else if c == '<' {
        "&lt;"@
    } else if c == '>' {
        "&gt;"@
    } else {
        seq![c]
    }
}

/// Text for HTML: `&`, `<` and `>` written as entities.
pub open spec fn html_text(s: Seq<char>) -> Seq<char>
    decreases s.len(),
{
    if s.len() == 0 {
        s
    } else {
        html_text(s.drop_last()) + html_char(s.last())
    }
}

/// Relies on `html_escape::encode_text`, which writes `&`, `<` and `>` as
/// `&amp;`, `&lt;` and `&gt;` and keeps every other character.
#[verifier::external_body]
pub(crate) fn encode_text(s: &str) -> (r: String)
    ensures
        r@ == html_text(s@),
{
    html_escape::encode_text(s).into_owned()
}

/// Line breaks written as `<br/>`.
pub open spec fn with_breaks(s: Seq<char>) -> Seq<char>
    decreases s.len(),
{
    if s.len() == 0 {
        s
    } else {
        with_breaks(s.drop_last()) + if s.last() == '\n' { "<br/>"@ } else { seq![s.last()] }
    }
}

/// The pieces of `s` between blank-line separators (`"\n\n"`, taken left to
/// right), the first one begun with `cur`.
pub open spec fn blank_split(s: Seq<char>, cur: Seq<char>) -> Seq<Seq<char>>
    decreases s.len(),
{
    if s.len() == 0 {
        seq![cur]
    } else if s.len() >= 2 && s[0] == '\n' && s[1] == '\n' {
        seq![cur] + blank_split(s.subrange(2, s.len() as int), Seq::<char>::empty())
    } else {
        blank_split(s.drop_first(), cur.push(s[0]))
    }
}

/// One paragraph in HTML, or nothing for a blank one.
pub open spec fn paragraph_html(p: Seq<char>, indent: Seq<char>) -> Seq<char> {
    if trim(p).len() == 0 {
        Seq::<char>::empty()
    } else {
        indent + "<p>"@ + with_breaks(html_text(trim(p))) + "</p>\n"@
    }
}

pub open spec fn paragraphs_of(ps: Seq<Seq<char>>, indent: Seq<char>) -> Seq<char>
    decreases ps.len(),
{
    if ps.len() == 0 {
        Seq::<char>::empty()
    } else {
        paragraphs_of(ps.drop_last(), indent) + paragraph_html(ps.last(), indent)
    }
}

/// A character `n` times.
pub open spec fn rule(c: char, n: nat) -> Seq<char> {
    Seq::new(n, |i: int| c)
}

/// The table of contents: a numbered line per chapter title.
pub open spec fn toc_lines(cs: Seq<ChapterView>) -> Seq<char>
    decreases cs.len(),
{
    if cs.len() == 0 {
        Seq::<char>::empty()
    } else {
        toc_lines(cs.drop_last()) + decimal(cs.len()) + ". "@ + cs.last().title + "\n"@
    }
}

/// One chapter in the plain-text book: headed by its number `n` and its
/// title in capitals, with its page range if asked for.
pub open spec fn txt_chapter(c: ChapterView, n: nat, pages: bool) -> Seq<char> {
    let range = if pages {
        "Pages: "@ + decimal((c.page_start + 1) as nat) + " - "@ + decimal((c.page_end + 1) as nat)
            + "\n\n"@
    } else {
        Seq::<char>::empty()
    };
    "\n\nCHAPTER "@ + decimal(n) + ": "@ + upper_of(c.title) + "\n"@ + rule('=', 60) + "\n"@
        + range + c.content + "\n\n"@
}

/// The chapters in the plain-text book, numbered from 1.
pub open spec fn txt_chapters(cs: Seq<ChapterView>, pages: bool) -> Seq<char>
    decreases cs.len(),
{
    if cs.len() == 0 {
        Seq::<char>::empty()
    } else {
        txt_chapters(cs.drop_last(), pages) + txt_chapter(cs.last(), cs.len(), pages)
    }
}

/// The plain-text book: the title in capitals, the author, an optional
/// table of contents, and the chapters.
pub open spec fn txt_book(title: Seq<char>, author: Seq<char>, cs: Seq<ChapterView>, pages: bool, toc: bool) -> Seq<char> {
    let head = upper_of(title) + "\n"@ + "by "@ + author + "\n"@ + rule('=', 60) + "\n\n"@;
    let contents = if toc {
        "TABLE OF CONTENTS\n"@ + rule('-', 20) + "\n\n"@ + toc_lines(cs) + "\n\n"@
    } else {
        Seq::<char>::empty()
    };
    head + contents + txt_chapters(cs, pages)
}

fn push_str(out: &mut Vec<char>, s: &str)
    ensures
        final(out)@ == old(out)@ + s@,
{
    let c = chars_of(s);
    append_chars(out, &c);
}

fn push_rule(out: &mut Vec<char>, c: char, n: usize)
    ensures
        final(out)@ == old(out)@ + rule(c, n as nat),
{
    let ghost o = out@;
    for k in 0..n
        invariant
            out@ == o + rule(c, k as nat),
    {
        out.push(c);
        assert(out@ =~= o + rule(c, (k + 1) as nat));
    }
}

fn push_upper(out: &mut Vec<char>, s: &String)
    ensures
        final(out)@ == old(out)@ + upper_of(s@),
{
    let u = to_upper(s.as_str());
    push_str(out, u.as_str());
}

/// The HTML of one paragraph.
fn push_paragraph(out: &mut Vec<char>, p: &Vec<char>, indent: &str)
    ensures
        final(out)@ == old(out)@ + paragraph_html(p@, indent@),
{
    let t = trimmed(p, 0, p.len());
    assert(p@.subrange(0, p@.len() as int) =~= p@);
    if t.len() == 0 {
        assert(out@ =~= out@ + Seq::<char>::empty());
        return;
    }
    let escaped = encode_text(string_of(t.as_slice()).as_str());
    let e = chars_of(escaped.as_str());
    let ghost o = out@;
    push_str(out, indent);
    push_str(out, "<p>");
    let ghost before = out@;
    for k in 0..e.len()
        invariant
            out@ == before + with_breaks(e@.subrange(0, k as int)),
    {
        assert(e@.subrange(0, k + 1).drop_last() =~= e@.subrange(0, k as int));
        if e[k] == '\n' {
            push_str(out, "<br/>");
        } else {
            out.push(e[k]);
        }
        assert(out@ =~= before + with_breaks(e@.subrange(0, k + 1)));
    }
    assert(e@.subrange(0, e@.len() as int) =~= e@);
    push_str(out, "</p>\n");
    assert(out@ =~= o + paragraph_html(p@, indent@));
}

/// The pieces of `s` between blank-line separators.
fn split_blank_lines(s: &Vec<char>) -> (r: Vec<Vec<char>>)
    ensures
        crate::text::seqs_of(r@) == blank_split(s@, Seq::<char>::empty()),
{
    let n = s.len();
    let mut pieces: Vec<Vec<char>> = Vec::new();
    let mut cur: Vec<char> = Vec::new();
    let mut i: usize = 0;
    assert(s@.subrange(0, n as int) =~= s@);
    assert(crate::text::seqs_of(pieces@) + blank_split(s@, cur@) =~= blank_split(s@, Seq::<char>::empty()));
    while i < n
        invariant
            n == s.len(),
            i <= n,
            blank_split(s@, Seq::<char>::empty()) == crate::text::seqs_of(pieces@) + blank_split(
                s@.subrange(i as int, n as int),
                cur@,
            ),
        decreases n - i,
    {
        let ghost t = s@.subrange(i as int, n as int);
        let ghost p0 = crate::text::seqs_of(pieces@);
        if n - i >= 2 && s[i] == '\n' && s[i + 1] == '\n' {
            assert(t.subrange(2, t.len() as int) =~= s@.subrange(i + 2, n as int));
            let done = cur;
            cur = Vec::new();
            let ghost dv = done@;
            pieces.push(done);
            assert(crate::text::seqs_of(pieces@) =~= p0.push(dv));
            assert(p0 + (seq![dv] + blank_split(s@.subrange(i + 2, n as int), cur@)) =~= p0.push(dv)
                + blank_split(s@.subrange(i + 2, n as int), cur@));
            i = i + 2;
        } else {
            assert(t.drop_first() =~= s@.subrange(i + 1, n as int));
            cur.push(s[i]);
            i = i + 1;
        }
    }
    let ghost p0 = crate::text::seqs_of(pieces@);
    let ghost cv = cur@;
    assert(s@.subrange(n as int, n as int) =~= Seq::<char>::empty());
    pieces.push(cur);
    assert(crate::text::seqs_of(pieces@) =~= p0 + seq![cv]);
    pieces
}

/// One chapter of the plain-text book, numbered `k + 1`.
fn push_txt_chapter(out: &mut Vec<char>, c: &Chapter, k: usize, pages: bool)
    ensures
        final(out)@ == old(out)@ + txt_chapter(c@, (k + 1) as nat, pages),
{
    let ghost o = out@;
    push_str(out, "\n\nCHAPTER ");
    push_decimal(out, k as u128 + 1);
    push_str(out, ": ");
    push_upper(out, &c.title);
    push_str(out, "\n");
    push_rule(out, '=', 60);
    push_str(out, "\n");
    if pages {
        push_str(out, "Pages: ");
        push_decimal(out, c.page_start as u128 + 1);
        push_str(out, " - ");
        push_decimal(out, c.page_end as u128 + 1);
        push_str(out, "\n\n");
    }
    push_str(out, c.content.as_str());
    push_str(out, "\n\n");
    assert(out@ =~= o + txt_chapter(c@, (k + 1) as nat, pages));
}

/// Writes the book as plain text and the paragraphs of a chapter as HTML.
pub struct EbookGenerator;

impl EbookGenerator {
    /// The paragraphs of a chapter's content in HTML: the content cut at
    /// blank lines, each piece trimmed, blank ones left out, each other one
    /// escaped, its line breaks written `<br/>`, in a `<p>` after `indent`.
    pub fn paragraphs_html(&self, content: &str, indent: &str) -> (r: String)
        ensures
            r@ == paragraphs_of(blank_split(content@, Seq::<char>::empty()), indent@),
    {
        let c = chars_of(content);
        let ps = split_blank_lines(&c);
        let ghost sp = crate::text::seqs_of(ps@);
        let mut out: Vec<char> = Vec::new();
        for k in 0..ps.len()
            invariant
                sp == crate::text::seqs_of(ps@),
                out@ == paragraphs_of(sp.subrange(0, k as int), indent@),
        {
            let ghost q = sp.subrange(0, k + 1);
            assert(q.drop_last() =~= sp.subrange(0, k as int));
            assert(q.last() == ps@[k as int]@);
            push_paragraph(&mut out, &ps[k], indent);
        }
        assert(sp.subrange(0, ps.len() as int) =~= sp);
        string_of(out.as_slice())
    }

    /// The book as plain text.
    pub fn render_txt(
        &self,
        title: &str,
        author: &str,
        chapters: &Vec<Chapter>,
        include_page_numbers: bool,
        generate_toc: bool,
    ) -> (r: String)
        ensures
            r@ == txt_book(title@, author@, chapter_views(chapters@), include_page_numbers, generate_toc),
    {
        let ghost cs = chapter_views(chapters@);
        let mut out: Vec<char> = Vec::new();
        push_upper(&mut out, &title.to_owned());
        push_str(&mut out, "\n");
        push_str(&mut out, "by ");
        push_str(&mut out, author);
        push_str(&mut out, "\n");
        push_rule(&mut out, '=', 60);
        push_str(&mut out, "\n\n");
        let ghost head = out@;
        if generate_toc {
            push_str(&mut out, "TABLE OF CONTENTS\n");
            push_rule(&mut out, '-', 20);
            push_str(&mut out, "\n\n");
            let ghost before = out@;
            for k in 0..chapters.len()
                invariant
                    cs == chapter_views(chapters@),
                    out@ == before + toc_lines(cs.subrange(0, k as int)),
            {
                let ghost q = cs.subrange(0, k + 1);
                assert(q.drop_last() =~= cs.subrange(0, k as int));
                assert(q.last() == chapters@[k as int]@);
                push_decimal(&mut out, k as u128 + 1);
                push_str(&mut out, ". ");
                push_str(&mut out, chapters[k].title.as_str());
                push_str(&mut out, "\n");
                assert(out@ =~= before + toc_lines(q));
            }
            assert(cs.subrange(0, chapters.len() as int) =~= cs);
            push_str(&mut out, "\n\n");
        }
        let ghost mid = out@;
        assert(mid =~= head + if generate_toc {
            "TABLE OF CONTENTS\n"@ + rule('-', 20) + "\n\n"@ + toc_lines(cs) + "\n\n"@
        } else {
            Seq::<char>::empty()
        });
        for k in 0..chapters.len()
            invariant
                cs == chapter_views(chapters@),
                out@ == mid + txt_chapters(cs.subrange(0, k as int), include_page_numbers),
        {
            let ghost q = cs.subrange(0, k + 1);
            assert(q.drop_last() =~= cs.subrange(0, k as int));
            assert(q.last() == chapters@[k as int]@);
            push_txt_chapter(&mut out, &chapters[k], k, include_page_numbers);
            assert(out@ =~= mid + txt_chapters(q, include_page_numbers));
        }
        assert(cs.subrange(0, chapters.len() as int) =~= cs);
        string_of(out.as_slice())
    }
}

} // verus!
