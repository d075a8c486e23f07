//! Text out of a document's raw bytes, for when its page structure cannot be
//! read: parenthesised literals and angle-bracket hex literals that look
//! like text.
use vstd::prelude::*;

use crate::chapters::PdfProcessor;
use crate::content::{lossy_string, lossy_text, spaced};
use crate::text::{append_chars, chars_of, is_space, is_space_char, remove_char, string_of, without_char};

verus! {

pub open spec fn is_ascii_alnum(c: char) -> bool {
    ('0' <= c && c <= '9') || ('a' <= c && c <= 'z') || ('A' <= c && c <= 'Z')
}

/// A character that counts towards readability: ASCII letters and digits,
/// whitespace, and `.,!?;:"'()-`.
pub open spec fn readable_char(c: char) -> bool {
    is_ascii_alnum(c) || is_space(c) || c == '.' || c == ',' || c == '!' || c == '?' || c == ';'
        || c == ':' || c == '"' || c == '\'' || c == '(' || c == ')' || c == '-'
}

pub open spec fn readable_count(s: Seq<char>) -> nat
    decreases s.len(),
{
    if s.len() == 0 {
        0
    } else {
        readable_count(s.drop_last()) + if readable_char(s.last()) { 1nat } else { 0nat }
    }
}

/// At least two characters, more than 70% of them readable.
pub open spec fn readable(s: Seq<char>) -> bool {
    s.len() >= 2 && 10 * readable_count(s) > 7 * s.len()
}

pub open spec fn is_hex_digit(c: char) -> bool {
    ('0' <= c && c <= '9') || ('a' <= c && c <= 'f') || ('A' <= c && c <= 'F')
}

pub open spec fn hex_value(c: char) -> int {
    if '0' <= c && c <= '9' {
        c as int - '0' as int
    } else if 'a' <= c && c <= 'f' {
        c as int - 'a' as int + 10
    } else {
        c as int - 'A' as int + 10
    }
}

/// A byte kept from a hex literal: printable ASCII or ASCII whitespace.
pub open spec fn kept_byte(b: int) -> bool {
    (0x21 <= b && b <= 0x7e) || b == 0x20 || b == 0x09 || b == 0x0a || b == 0x0c || b == 0x0d
}

/// The characters of the byte pairs of `s`: a pair of hex digits gives the
/// byte it spells, kept if printable or whitespace; other pairs and a last
/// odd character give nothing.
pub open spec fn hex_pairs(s: Seq<char>) -> Seq<char>
    decreases s.len(),
{
    if s.len() < 2 {
        Seq::<char>::empty()
    } else {
        let b = hex_value(s[0]) * 16 + hex_value(s[1]);
        let here = if is_hex_digit(s[0]) && is_hex_digit(s[1]) && kept_byte(b) {
            seq![(b as u8) as char]
        } else {
            Seq::<char>::empty()
        };
        here + hex_pairs(s.subrange(2, s.len() as int))
    }
}

/// A hex literal's text: spaces dropped, then decoded by pairs.
pub open spec fn hex_decoded(s: Seq<char>) -> Seq<char> {
    hex_pairs(remove_char(s, ' '))
}

pub struct SpanScan {
    pub spans: Seq<Seq<char>>,
    pub open: Option<Seq<char>>,
}

/// The parenthesised spans: from a `(` to the first `)` after it, the
/// contents without the parentheses.
pub open spec fn paren_scan(s: Seq<char>) -> SpanScan
    decreases s.len(),
{
    if s.len() == 0 {
        SpanScan { spans: Seq::<Seq<char>>::empty(), open: None }
    } else {
        let st = paren_scan(s.drop_last());
        let c = s.last();
        match st.open {
            None => if c == '(' {
                SpanScan { spans: st.spans, open: Some(Seq::<char>::empty()) }
            } else {
                st
            },
            Some(b) => if c == ')' {
                SpanScan { spans: st.spans.push(b), open: None }
            } else {
                SpanScan { spans: st.spans, open: Some(b.push(c)) }
            },
        }
    }
}

pub open spec fn hex_span_char(c: char) -> bool {
    is_hex_digit(c) || is_space(c)
}

/// The hex spans: a `<`, one or more hex digits or whitespace, and a `>`;
/// the contents without the brackets.
pub open spec fn hex_scan(s: Seq<char>) -> SpanScan
    decreases s.len(),
{
    if s.len() == 0 {
        SpanScan { spans: Seq::<Seq<char>>::empty(), open: None }
    } else {
        let st = hex_scan(s.drop_last());
        let c = s.last();
        if c == '<' {
            SpanScan { spans: st.spans, open: Some(Seq::<char>::empty()) }
        } else {
            match st.open {
                None => st,
                Some(b) => if c == '>' {
                    SpanScan {
                        spans: if b.len() > 0 { st.spans.push(b) } else { st.spans },
                        open: None,
                    }
                } else if hex_span_char(c) {
                    SpanScan { spans: st.spans, open: Some(b.push(c)) }
                } else {
                    SpanScan { spans: st.spans, open: None }
                },
            }
        }
    }
}

/// The readable ones.
pub open spec fn keep_readable(p: Seq<Seq<char>>) -> Seq<Seq<char>>
    decreases p.len(),
{
    if p.len() == 0 {
        p
    } else if readable(p.last()) {
        keep_readable(p.drop_last()).push(p.last())
    } else {
        keep_readable(p.drop_last())
    }
}

pub open spec fn decode_each(p: Seq<Seq<char>>) -> Seq<Seq<char>> {
    p.map_values(|x: Seq<char>| hex_decoded(x))
}

/// The text found in raw document text: the readable parenthesised spans,
/// then the readable decoded hex spans, each followed by a space.
pub open spec fn raw_text(s: Seq<char>) -> Seq<char> {
    spaced(keep_readable(paren_scan(s).spans)) + spaced(keep_readable(decode_each(hex_scan(s).spans)))
}

fn is_readable_char(c: char) -> (r: bool)
    ensures
        r == readable_char(c),
{
    ('0' <= c && c <= '9') || ('a' <= c && c <= 'z') || ('A' <= c && c <= 'Z') || is_space_char(c)
        || c == '.' || c == ',' || c == '!' || c == '?' || c == ';' || c == ':' || c == '"' || c
        == '\'' || c == '(' || c == ')' || c == '-'
}

pub fn readable_chars(v: &Vec<char>) -> (r: bool)
    ensures
        r == readable(v@),
{
    let mut count: usize = 0;
    for k in 0..v.len()
        invariant
            count == readable_count(v@.subrange(0, k as int)),
            count <= k,
    {
        assert(v@.subrange(0, k + 1).drop_last() =~= v@.subrange(0, k as int));
        if is_readable_char(v[k]) {
            count = count + 1;
        }
    }
    assert(v@.subrange(0, v.len() as int) =~= v@);
    v.len() >= 2 && (count as u128) * 10 > (v.len() as u128) * 7
}

fn hex_digit_value(c: char) -> (r: Option<u8>)
    ensures
        r is Some <==> is_hex_digit(c),
        r matches Some(d) ==> d as int == hex_value(c),
{
    if '0' <= c && c <= '9' {
        Some((c as u32 - 48) as u8)
    } else if 'a' <= c && c <= 'f' {
        Some((c as u32 - 97 + 10) as u8)
    } else if 'A' <= c && c <= 'F' {
        Some((c as u32 - 65 + 10) as u8)
    } else {
        None
    }
}

pub fn hex_decode_chars(v: &Vec<char>) -> (r: Vec<char>)
    ensures
        r@ == hex_decoded(v@),
{
    let s = without_char(v, ' ');
    let n = s.len();
    let mut out: Vec<char> = Vec::new();
    let mut i: usize = 0;
    assert(s@.subrange(0, n as int) =~= s@);
    assert(out@ + hex_pairs(s@) =~= hex_pairs(s@));
    while i < n && n - i >= 2
        invariant
            n == s.len(),
            i <= n,
            hex_pairs(s@) == out@ + hex_pairs(s@.subrange(i as int, n as int)),
        decreases n - i,
    {
        let ghost t = s@.subrange(i as int, n as int);
        match (hex_digit_value(s[i]), hex_digit_value(s[i + 1])) {
            (Some(a), Some(b)) => {
                let v = a as u32 * 16 + b as u32;
                if (0x21 <= v && v <= 0x7e) || v == 0x20 || v == 0x09 || v == 0x0a || v == 0x0c
                    || v == 0x0d {
                    out.push((v as u8) as char);
                }
            },
            _ => {},
        }
        assert(t.subrange(2, t.len() as int) =~= s@.subrange(i + 2, n as int));
        i = i + 2;
    }
    assert(out@ + hex_pairs(s@.subrange(i as int, n as int)) =~= out@);
    out
}

/// Pushes `x` followed by a space if it is readable.
fn push_if_readable(out: &mut Vec<char>, x: &Vec<char>, kept: Ghost<Seq<Seq<char>>>)
    requires
        old(out)@ == spaced(kept@),
    ensures
        final(out)@ == spaced(if readable(x@) { kept@.push(x@) } else { kept@ }),
{
    if readable_chars(x) {
        append_chars(out, x);
        out.push(' ');
        proof {
            reveal_strlit(" ");
            assert(" "@ =~= seq![' ']);
            assert(kept@.push(x@).drop_last() =~= kept@);
        }
        assert(final(out)@ =~= spaced(kept@.push(x@)));
    }
}

/// The text found in raw document text given as characters.
pub fn raw_text_of(s: &Vec<char>) -> (r: Vec<char>)
    ensures
        r@ == raw_text(s@),
{
    let mut out: Vec<char> = Vec::new();
    let ghost mut kept: Seq<Seq<char>> = Seq::empty();
    let mut open = false;
    let mut buf: Vec<char> = Vec::new();
    for k in 0..s.len()
        invariant
            open == (paren_scan(s@.subrange(0, k as int)).open is Some),
            open ==> paren_scan(s@.subrange(0, k as int)).open == Some(buf@),
            kept == keep_readable(paren_scan(s@.subrange(0, k as int)).spans),
            out@ == spaced(kept),
    {
        assert(s@.subrange(0, k + 1).drop_last() =~= s@.subrange(0, k as int));
        let c = s[k];
        if !open {
            if c == '(' {
                open = true;
                buf = Vec::new();
            }
        } else if c == ')' {
            let ghost spans = paren_scan(s@.subrange(0, k as int)).spans;
            assert(spans.push(buf@).drop_last() =~= spans);
            push_if_readable(&mut out, &buf, Ghost(kept));
            proof {
                kept = if readable(buf@) { kept.push(buf@) } else { kept };
            }
            open = false;
        } else {
            buf.push(c);
        }
    }
    assert(s@.subrange(0, s.len() as int) =~= s@);
    let mut out2: Vec<char> = Vec::new();
    let ghost mut kept2: Seq<Seq<char>> = Seq::empty();
    let mut hopen = false;
    let mut hbuf: Vec<char> = Vec::new();
    for k in 0..s.len()
        invariant
            hopen == (hex_scan(s@.subrange(0, k as int)).open is Some),
            hopen ==> hex_scan(s@.subrange(0, k as int)).open == Some(hbuf@),
            kept2 == keep_readable(decode_each(hex_scan(s@.subrange(0, k as int)).spans)),
            out2@ == spaced(kept2),
    {
        let ghost pre = s@.subrange(0, k as int);
        assert(s@.subrange(0, k + 1).drop_last() =~= pre);
        let c = s[k];
        if c == '<' {
            hopen = true;
            hbuf = Vec::new();
        } else if hopen {
            if c == '>' {
                if hbuf.len() > 0 {
                    let d = hex_decode_chars(&hbuf);
                    let ghost spans = hex_scan(pre).spans;
                    assert(decode_each(spans.push(hbuf@)) =~= decode_each(spans).push(d@));
                    assert(decode_each(spans).push(d@).drop_last() =~= decode_each(spans));
                    push_if_readable(&mut out2, &d, Ghost(kept2));
                    proof {
                        kept2 = if readable(d@) { kept2.push(d@) } else { kept2 };
                    }
                }
                hopen = false;
            } else if is_space_char(c) || hex_digit_value(c).is_some() {
                hbuf.push(c);
            } else {
                hopen = false;
            }
        }
    }
    append_chars(&mut out, &out2);
    out
}

impl PdfProcessor {
    /// At least two characters, and more than 70% of them ASCII letters or
    /// digits, whitespace, or one of `.,!?;:"'()-`.
    pub fn is_likely_readable_text(&self, text: &str) -> (r: bool)
        ensures
            r == readable(text@),
    {
        readable_chars(&chars_of(text))
    }

    /// A hex literal's text: spaces dropped, each pair of hex digits the
    /// byte it spells, kept if printable or whitespace.
    pub fn decode_hex_string(&self, hex_str: &str) -> (r: String)
        ensures
            r@ == hex_decoded(hex_str@),
    {
        let d = hex_decode_chars(&chars_of(hex_str));
        string_of(d.as_slice())
    }

    /// The text found in a document's raw bytes, read as UTF-8 with
    /// replacement characters.
    pub fn extract_raw_text_content(&self, pdf_bytes: &[u8]) -> (r: String)
        ensures
            r@ == raw_text(lossy_text(pdf_bytes@)),
    {
        let text = lossy_string(pdf_bytes);
        let d = raw_text_of(&chars_of(text.as_str()));
        string_of(d.as_slice())
    }
}

} // verus!
