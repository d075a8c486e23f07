//! Page texts from what the document loader hands over: the decoded content
//! streams and annotation texts of each page, or why the page could not be
//! read; and the acceptance of a whole-document text for segmentation.
use vstd::prelude::*;

use crate::chapters::PdfProcessor;
use crate::content::{decode_simple, lemma_simple_escapes_decoded, only_simple_escapes, lossy_string, lossy_text, stream_text, stream_text_of, unescape, unescape_literal};
use crate::segment::segmented;
use crate::text::{
    append_chars, chars_of, decimal, push_decimal, string_of, strings_of, trim, trimmed,
};

verus! {

/// One page as the document loader gives it.
pub enum PageSource {
    /// The page object could not be read, for the reason given.
    Unreadable(String),
    /// The page's content streams, decoded, in their declared order, and the
    /// texts of its annotations.
    Contents { streams: Vec<Vec<u8>>, annotations: Vec<String> },
}

/// Why no page texts could be had.
#[derive(Debug, Clone, Copy, PartialEq, Eq, Structural)]
pub enum ExtractError {
    /// The document has no pages.
    NoPages,
    /// The text holds nothing but whitespace.
    NoText,
    /// No page of the document could be read.
    NoReadablePage,
}

/// Every page is one that could not be read.
pub open spec fn all_unreadable(pages: Seq<PageSource>) -> bool {
    forall|i: int| 0 <= i < pages.len() ==> (#[trigger] pages[i]) is Unreadable
}

/// The streams one after the other, a line break after each.
pub open spec fn joined_streams(streams: Seq<Seq<u8>>) -> Seq<u8>
    decreases streams.len(),
{
    if streams.len() == 0 {
        Seq::<u8>::empty()
    } else {
        joined_streams(streams.drop_last()) + streams.last() + seq![10u8]
    }
}

/// Each annotation text followed by a line break.
pub open spec fn annotation_text(a: Seq<Seq<char>>) -> Seq<char>
    decreases a.len(),
{
    if a.len() == 0 {
        Seq::<char>::empty()
    } else {
        annotation_text(a.drop_last()) + a.last() + "\n"@
    }
}

/// The text of a page: that of its content streams, or where that is blank,
/// that of its annotations.
pub open spec fn page_text(streams: Seq<Seq<u8>>, annotations: Seq<Seq<char>>) -> Seq<char> {
    let t = stream_text(lossy_text(joined_streams(streams)));
    if trim(t).len() == 0 {
        annotation_text(annotations)
    } else {
        t
    }
}

pub open spec fn byte_seqs(v: Seq<Vec<u8>>) -> Seq<Seq<u8>> {
    v.map_values(|x: Vec<u8>| x@)
}

/// The text that stands for page `n` (1-based) where nothing was found.
pub open spec fn empty_page_text(n: nat) -> Seq<char> {
    "[Page "@ + decimal(n) + " - No extractable text]"@
}

/// The text that stands for page `n` (1-based) where it could not be read.
pub open spec fn failed_page_text(n: nat, reason: Seq<char>) -> Seq<char> {
    "[Page "@ + decimal(n) + " - Text extraction failed: "@ + reason + "]"@
}

/// The text of the page at index `i`.
pub open spec fn source_text(p: PageSource, i: int) -> Seq<char> {
    match p {
        PageSource::Unreadable(reason) => failed_page_text((i + 1) as nat, reason@),
        PageSource::Contents { streams, annotations } => {
            let t = page_text(byte_seqs(streams@), strings_of(annotations@));
            if trim(t).len() == 0 {
                empty_page_text((i + 1) as nat)
            } else {
                t
            }
        },
    }
}

fn join_stream_bytes(streams: &Vec<Vec<u8>>) -> (r: Vec<u8>)
    ensures
        r@ == joined_streams(byte_seqs(streams@)),
{
    let mut r: Vec<u8> = Vec::new();
    for k in 0..streams.len()
        invariant
            r@ == joined_streams(byte_seqs(streams@).subrange(0, k as int)),
    {
        let ghost q = byte_seqs(streams@).subrange(0, k + 1);
        assert(q.drop_last() =~= byte_seqs(streams@).subrange(0, k as int));
        assert(q.last() == streams@[k as int]@);
        let s = &streams[k];
        let ghost r0 = r@;
        for j in 0..s.len()
            invariant
                r@ == r0 + s@.subrange(0, j as int),
        {
            r.push(s[j]);
            assert(r@ =~= r0 + s@.subrange(0, j + 1));
        }
        r.push(10u8);
        assert(r@ =~= joined_streams(q));
    }
    assert(byte_seqs(streams@).subrange(0, streams.len() as int) =~= byte_seqs(streams@));
    r
}

/// `prefix`, the 1-based page number, `suffix`.
fn numbered(prefix: &str, i: usize, suffix: &Vec<char>) -> (r: Vec<char>)
    ensures
        r@ == prefix@ + decimal((i + 1) as nat) + suffix@,
{
    let mut r = chars_of(prefix);
    push_decimal(&mut r, i as u128 + 1);
    append_chars(&mut r, suffix);
    r
}

/// The ways of getting page texts, in the order they are tried.
#[derive(Debug, Clone, Copy, PartialEq, Eq, Structural)]
pub enum Strategy {
    /// Page by page, from the document's page tree.
    PageLevel,
    /// The whole text from a full-text extractor, segmented.
    WholeText,
    /// The text found in the raw bytes, segmented.
    RawBytes,
}

/// What the pipeline does next.
pub enum Step {
    Run(Strategy),
    Done(Vec<String>),
    Fail,
}

/// The strategy after `s`, if any.
pub open spec fn next_strategy(s: Strategy) -> Option<Strategy> {
    match s {
        Strategy::PageLevel => Some(Strategy::WholeText),
        Strategy::WholeText => Some(Strategy::RawBytes),
        Strategy::RawBytes => None,
    }
}

/// Pages were had.
pub open spec fn found(outcome: Result<Vec<String>, ExtractError>) -> bool {
    match outcome {
        Ok(p) => p.len() > 0,
        Err(_) => false,
    }
}

impl Step {
    /// The first step: page-level extraction.
    pub fn first() -> (r: Step)
        ensures
            r == Step::Run(Strategy::PageLevel),
    {
        Step::Run(Strategy::PageLevel)
    }

    /// After strategy `s` gave `outcome`: done with its pages if there are
    /// any, else the next strategy, else failure. Each strategy runs once.
    pub fn after(s: Strategy, outcome: Result<Vec<String>, ExtractError>) -> (r: Step)
        ensures
            match outcome {
                Ok(p) => p.len() > 0 ==> r == Step::Done(p),
                Err(_) => true,
            },
            !found(outcome) ==> match next_strategy(s) {
                Some(n) => r == Step::Run(n),
                None => r == Step::Fail,
            },
    {
        match outcome {
            Ok(p) => {
                if p.len() > 0 {
                    return Step::Done(p);
                }
            },
            Err(_) => {},
        }
        match s {
            Strategy::PageLevel => Step::Run(Strategy::WholeText),
            Strategy::WholeText => Step::Run(Strategy::RawBytes),
            Strategy::RawBytes => Step::Fail,
        }
    }
}

impl PdfProcessor {
    /// The text shown in a content stream: the string operands of `Tj` and
    /// `TJ` inside `BT`..`ET`, each decoded and trimmed, followed by a space.
    pub fn parse_pdf_content_stream(&self, content: &[u8]) -> (r: String)
        ensures
            r@ == stream_text(lossy_text(content@)),
    {
        let text = lossy_string(content);
        let t = stream_text_of(&chars_of(text.as_str()));
        string_of(t.as_slice())
    }

    /// A string literal's contents decoded and trimmed.
    pub fn clean_pdf_text_content(&self, text: &str) -> (r: String)
        ensures
            r@ == trim(unescape(text@)),
            only_simple_escapes(text@) ==> r@ == trim(decode_simple(text@)),
    {
        proof {
            if only_simple_escapes(text@) {
                lemma_simple_escapes_decoded(text@);
            }
        }
        let d = unescape_literal(&chars_of(text));
        let t = trimmed(&d, 0, d.len());
        proof {
            assert(d@.subrange(0, d@.len() as int) =~= d@);
        }
        string_of(t.as_slice())
    }

    /// The text of one page from its streams, or from its annotations where
    /// the streams show nothing but whitespace.
    pub fn extract_page_text(&self, streams: &Vec<Vec<u8>>, annotations: &Vec<String>) -> (r: String)
        ensures
            r@ == page_text(byte_seqs(streams@), strings_of(annotations@)),
    {
        let joined = join_stream_bytes(streams);
        let text = lossy_string(joined.as_slice());
        let t = stream_text_of(&chars_of(text.as_str()));
        let (a, b) = crate::text::trim_bounds(&t, 0, t.len());
        proof {
            assert(t@.subrange(0, t@.len() as int) =~= t@);
        }
        if a < b {
            return string_of(t.as_slice());
        }
        let mut out: Vec<char> = Vec::new();
        let nl = chars_of("\n");
        for k in 0..annotations.len()
            invariant
                nl@ == "\n"@,
                out@ == annotation_text(strings_of(annotations@).subrange(0, k as int)),
        {
            let ghost q = strings_of(annotations@).subrange(0, k + 1);
            assert(q.drop_last() =~= strings_of(annotations@).subrange(0, k as int));
            assert(q.last() == annotations@[k as int]@);
            let c = chars_of(annotations[k].as_str());
            append_chars(&mut out, &c);
            append_chars(&mut out, &nl);
        }
        assert(strings_of(annotations@).subrange(0, annotations.len() as int) =~= strings_of(
            annotations@,
        ));
        string_of(out.as_slice())
    }

    /// The page texts, one per page in order: a page that could not be read
    /// and a page with no text each get a bracketed placeholder naming the
    /// page. No pages, and no page that could be read, are errors.
    pub fn extract_pages(&self, pages: &Vec<PageSource>) -> (r: Result<Vec<String>, ExtractError>)
        ensures
            pages.len() == 0 <==> r == Err::<Vec<String>, ExtractError>(ExtractError::NoPages),
            pages.len() > 0 && all_unreadable(pages@) <==> r == Err::<Vec<String>, ExtractError>(
                ExtractError::NoReadablePage,
            ),
            !all_unreadable(pages@) ==> r is Ok,
            r matches Ok(v) ==> v.len() == pages.len() && forall|i: int|
                0 <= i < v.len() ==> (#[trigger] v@[i])@ == source_text(pages@[i], i),
    {
        if pages.len() == 0 {
            return Err(ExtractError::NoPages);
        }
        let mut any_read = false;
        for i in 0..pages.len()
            invariant
                any_read <==> exists|q: int| 0 <= q < i && !(#[trigger] pages@[q] is Unreadable),
        {
            match &pages[i] {
                PageSource::Unreadable(_) => {},
                PageSource::Contents { .. } => {
                    any_read = true;
                },
            }
        }
        if !any_read {
            return Err(ExtractError::NoReadablePage);
        }
        let mut out: Vec<String> = Vec::new();
        for i in 0..pages.len()
            invariant
                out.len() == i,
                forall|q: int| 0 <= q < i ==> (#[trigger] out@[q])@ == source_text(pages@[q], q),
        {
            match &pages[i] {
                PageSource::Unreadable(reason) => {
                    let mut tail = chars_of(reason.as_str());
                    let close = chars_of("]");
                    append_chars(&mut tail, &close);
                    let mut t = numbered("[Page ", i, &chars_of(" - Text extraction failed: "));
                    append_chars(&mut t, &tail);
                    out.push(string_of(t.as_slice()));
                },
                PageSource::Contents { streams, annotations } => {
                    let text = self.extract_page_text(streams, annotations);
                    let tc = chars_of(text.as_str());
                    let (a, b) = crate::text::trim_bounds(&tc, 0, tc.len());
                    proof {
                        assert(tc@.subrange(0, tc@.len() as int) =~= tc@);
                    }
                    if a < b {
                        out.push(text);
                    } else {
                        let t = numbered("[Page ", i, &chars_of(" - No extractable text]"));
                        out.push(string_of(t.as_slice()));
                    }
                },
            }
        }
        Ok(out)
    }

    /// The segmented pages of a whole-document text, unless it holds
    /// nothing but whitespace.
    pub fn pages_from_full_text(&self, full_text: &str) -> (r: Result<Vec<String>, ExtractError>)
        ensures
            trim(full_text@).len() == 0 <==> r == Err::<Vec<String>, ExtractError>(ExtractError::NoText),
            trim(full_text@).len() > 0 <==> r is Ok,
            r matches Ok(v) ==> strings_of(v@) == segmented(full_text@) && v.len() > 0,
    {
        let v = chars_of(full_text);
        let (a, b) = crate::text::trim_bounds(&v, 0, v.len());
        proof {
            assert(v@.subrange(0, v@.len() as int) =~= v@);
        }
        if a == b {
            return Err(ExtractError::NoText);
        }
        Ok(self.intelligent_page_splitting(full_text))
    }
}

} // verus!
