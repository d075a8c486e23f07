//! Text out of a page's content stream: the stream is split into tokens
//! (words, string literals, array brackets), and the string operands of the
//! show-text operators `Tj` and `TJ` between `BT` and `ET` are decoded.
use vstd::prelude::*;

use crate::text::{append_chars, is_space, is_space_char, seqs_of, trim, trimmed};

verus! {

/// What `String::from_utf8_lossy` makes of the bytes.
pub uninterp spec fn lossy_text(b: Seq<u8>) -> Seq<char>;

/// Relies on `String::from_utf8_lossy`: the bytes read as UTF-8, with
/// replacement characters for invalid sequences.
#[verifier::external_body]
pub(crate) fn lossy_string(b: &[u8]) -> (r: String)
    ensures
        r@ == lossy_text(b@),
{
    String::from_utf8_lossy(b).into_owned()
}

pub open spec fn is_octal(c: char) -> bool {
    '0' <= c && c <= '7'
}

pub open spec fn octal_value(c: char) -> int {
    c as int - '0' as int
}

/// The character of a three-digit octal escape, its value taken modulo 256.
pub open spec fn octal_char(a: char, b: char, c: char) -> char {
    (((octal_value(a) * 64 + octal_value(b) * 8 + octal_value(c)) % 256) as u8) as char
}

/// A string literal's contents decoded: `\n`, `\r`, `\t` become the control
/// characters, `\(`, `\)` and `\\` the character escaped, `\ddd` (octal) the
/// character of that code; before any other character the backslash is
/// dropped.
pub open spec fn unescape(s: Seq<char>) -> Seq<char>
    decreases s.len(),
{
    if s.len() == 0 {
        s
    } else if s[0] != '\\' {
        seq![s[0]] + unescape(s.drop_first())
    } else if s.len() == 1 {
        Seq::<char>::empty()
    } else if s.len() >= 4 && is_octal(s[1]) && is_octal(s[2]) && is_octal(s[3]) {
        seq![octal_char(s[1], s[2], s[3])] + unescape(s.subrange(4, s.len() as int))
    } else {
        let c = s[1];
        let d = if c == 'n' {
            '\n'
        } else if c == 'r' {
            '\r'
        } else if c == 't' {
            '\t'
        } else {
            c
        };
        seq![d] + unescape(s.subrange(2, s.len() as int))
    }
}

/// How a character is written inside a string literal.
pub open spec fn escape_char(c: char) -> Seq<char> {
    if c == '(' || c == ')' || c == '\\' {
        seq!['\\', c]
    } else if c == '\n' {
        seq!['\\', 'n']
    } else if c == '\r' {
        seq!['\\', 'r']
    } else if c == '\t' {
        seq!['\\', 't']
    } else {
        seq![c]
    }
}

/// The text written with every parenthesis, backslash, line feed, carriage
/// return and tab escaped.
pub open spec fn escape(t: Seq<char>) -> Seq<char>
    decreases t.len(),
{
    if t.len() == 0 {
        t
    } else {
        escape_char(t[0]) + escape(t.drop_first())
    }
}

/// Decoding undoes escaping: a literal holding `\(`, `\)`, `\\`, `\n`, `\r`
/// and `\t` decodes to exactly the characters they stand for, with no escape
/// left over.
pub proof fn lemma_unescape_escape(t: Seq<char>)
    ensures
        unescape(escape(t)) == t,
    decreases t.len(),
{
    if t.len() > 0 {
        let c = t[0];
        let rest = escape(t.drop_first());
        let s = escape(t);
        lemma_unescape_escape(t.drop_first());
        assert(s == escape_char(c) + rest);
        if c == '(' || c == ')' || c == '\\' || c == '\n' || c == '\r' || c == '\t' {
            lemma_unescape_pair(c, rest);
        } else {
            assert(escape_char(c) == seq![c]);
            assert(s[0] == c);
            assert(s.drop_first() =~= rest);
            assert(unescape(s) == seq![c] + unescape(rest));
        }
        assert(t =~= seq![c] + t.drop_first());
    }
}

/// An escaped character, then anything, decodes to the character, then the
/// decoding of the rest.
proof fn lemma_unescape_pair(c: char, rest: Seq<char>)
    requires
        c == '(' || c == ')' || c == '\\' || c == '\n' || c == '\r' || c == '\t',
    ensures
        unescape(escape_char(c) + rest) == seq![c] + unescape(rest),
{
    let s = escape_char(c) + rest;
    assert(escape_char(c).len() == 2);
    assert(s[0] == '\\');
    assert(!is_octal(s[1]));
    assert(s.subrange(2, s.len() as int) =~= rest);
}

/// One of the escapes `\(`, `\)`, `\\`, `\n`, `\r`, `\t`, after its backslash.
pub open spec fn simple_escape(c: char) -> bool {
    c == '(' || c == ')' || c == '\\' || c == 'n' || c == 'r' || c == 't'
}

/// The character a simple escape stands for.
pub open spec fn escaped_char(c: char) -> char {
    if c == 'n' {
        '\n'
    } else if c == 'r' {
        '\r'
    } else if c == 't' {
        '\t'
    } else {
        c
    }
}

/// Read left to right, every backslash of `s` begins a simple escape.
pub open spec fn only_simple_escapes(s: Seq<char>) -> bool
    decreases s.len(),
{
    if s.len() == 0 {
        true
    } else if s[0] != '\\' {
        only_simple_escapes(s.drop_first())
    } else {
        s.len() >= 2 && simple_escape(s[1]) && only_simple_escapes(s.subrange(2, s.len() as int))
    }
}

/// Each simple escape, read left to right, replaced by its character.
pub open spec fn decode_simple(s: Seq<char>) -> Seq<char>
    decreases s.len(),
{
    if s.len() == 0 {
        s
    } else if s[0] != '\\' || s.len() < 2 {
        seq![s[0]] + decode_simple(s.drop_first())
    } else {
        seq![escaped_char(s[1])] + decode_simple(s.subrange(2, s.len() as int))
    }
}

/// How many times `c` occurs in `s`.
pub open spec fn count_char(s: Seq<char>, c: char) -> nat
    decreases s.len(),
{
    if s.len() == 0 {
        0
    } else {
        (if s[0] == c { 1nat } else { 0nat }) + count_char(s.drop_first(), c)
    }
}

/// How many `\\` escapes `s` holds, read left to right.
pub open spec fn escaped_backslashes(s: Seq<char>) -> nat
    decreases s.len(),
{
    if s.len() == 0 {
        0
    } else if s[0] != '\\' || s.len() < 2 {
        escaped_backslashes(s.drop_first())
    } else {
        (if s[1] == '\\' { 1nat } else { 0nat }) + escaped_backslashes(s.subrange(2, s.len() as int))
    }
}

/// A literal whose backslashes all begin the escapes `\(`, `\)`, `\\`, `\n`,
/// `\r`, `\t` decodes to the text with each escape, read left to right,
/// replaced by its character; a backslash is left only for each `\\`.
pub proof fn lemma_simple_escapes_decoded(s: Seq<char>)
    requires
        only_simple_escapes(s),
    ensures
        unescape(s) == decode_simple(s),
        count_char(unescape(s), '\\') == escaped_backslashes(s),
    decreases s.len(),
{
    if s.len() > 0 {
        if s[0] != '\\' {
            lemma_simple_escapes_decoded(s.drop_first());
            let d = seq![s[0]] + decode_simple(s.drop_first());
            assert(d.drop_first() =~= decode_simple(s.drop_first()));
        } else {
            let rest = s.subrange(2, s.len() as int);
            lemma_simple_escapes_decoded(rest);
            assert(!is_octal(s[1]));
            let d = seq![escaped_char(s[1])] + decode_simple(rest);
            assert(d.drop_first() =~= decode_simple(rest));
        }
    }
}

/// Decodes the escapes of a string literal's contents.
pub fn unescape_literal(s: &Vec<char>) -> (r: Vec<char>)
    ensures
        r@ == unescape(s@),
{
    let n = s.len();
    let mut out: Vec<char> = Vec::new();
    let mut i: usize = 0;
    assert(s@.subrange(0, n as int) =~= s@);
    assert(out@ + unescape(s@) =~= unescape(s@));
    while i < n
        invariant
            n == s.len(),
            i <= n,
            unescape(s@) == out@ + unescape(s@.subrange(i as int, n as int)),
        decreases n - i,
    {
        let ghost t = s@.subrange(i as int, n as int);
        let c = s[i];
        if c != '\\' {
            out.push(c);
            assert(t.drop_first() =~= s@.subrange(i + 1, n as int));
            i = i + 1;
        } else if n - i == 1 {
            i = i + 1;
            assert(s@.subrange(i as int, n as int) =~= Seq::<char>::empty());
        } else if n - i >= 4 && '0' <= s[i + 1] && s[i + 1] <= '7' && '0' <= s[i + 2] && s[i + 2]
            <= '7' && '0' <= s[i + 3] && s[i + 3] <= '7' {
            let v = ((s[i + 1] as u32 - 48) * 64 + (s[i + 2] as u32 - 48) * 8 + (s[i + 3] as u32
                - 48)) % 256;
            let d = (v as u8) as char;
            assert(d == octal_char(t[1], t[2], t[3]));
            out.push(d);
            assert(t.subrange(4, t.len() as int) =~= s@.subrange(i + 4, n as int));
            i = i + 4;
        } else {
            let e = s[i + 1];
            let d = if e == 'n' {
                '\n'
            } else if e == 'r' {
                '\r'
            } else if e == 't' {
                '\t'
            } else {
                e
            };
            out.push(d);
            assert(t.subrange(2, t.len() as int) =~= s@.subrange(i + 2, n as int));
            i = i + 2;
        }
    }
    out
}

/// A token of a content stream.
pub enum Token {
    Word(Seq<char>),
    Literal(Seq<char>),
    ArrayOpen,
    ArrayClose,
}

/// A string literal being read: nesting depth of unescaped parentheses,
/// whether the last character was an escaping backslash, and its contents.
pub struct LitState {
    pub depth: nat,
    pub esc: bool,
    pub buf: Seq<char>,
}

pub struct Lexer {
    pub toks: Seq<Token>,
    pub word: Seq<char>,
    pub lit: Option<LitState>,
}

pub open spec fn flush(toks: Seq<Token>, word: Seq<char>) -> Seq<Token> {
    if word.len() > 0 {
        toks.push(Token::Word(word))
    } else {
        toks
    }
}

/// The lexer after one more character. Whitespace and brackets end a word;
/// `(` opens a literal, which nests on unescaped parentheses and ends at the
/// matching `)`; its contents keep their escapes.
pub open spec fn lex_step(st: Lexer, c: char) -> Lexer {
    match st.lit {
        Some(l) => if l.esc {
            Lexer { lit: Some(LitState { depth: l.depth, esc: false, buf: l.buf.push(c) }), ..st }
        } else if c == '\\' {
            Lexer { lit: Some(LitState { depth: l.depth, esc: true, buf: l.buf.push(c) }), ..st }
        } else if c == '(' {
            Lexer { lit: Some(LitState { depth: l.depth + 1, esc: false, buf: l.buf.push(c) }), ..st }
        } else if c == ')' {
            if l.depth <= 1 {
                Lexer { toks: st.toks.push(Token::Literal(l.buf)), word: Seq::<char>::empty(), lit: None }
            } else {
                Lexer {
                    lit: Some(LitState { depth: (l.depth - 1) as nat, esc: false, buf: l.buf.push(c) }),
                    ..st
                }
            }
        } else {
            Lexer { lit: Some(LitState { depth: l.depth, esc: false, buf: l.buf.push(c) }), ..st }
        },
        None => if c == '(' {
            Lexer {
                toks: flush(st.toks, st.word),
                word: Seq::<char>::empty(),
                lit: Some(LitState { depth: 1, esc: false, buf: Seq::<char>::empty() }),
            }
        } else if c == '[' {
            Lexer { toks: flush(st.toks, st.word).push(Token::ArrayOpen), word: Seq::<char>::empty(), lit: None }
        } else if c == ']' {
            Lexer { toks: flush(st.toks, st.word).push(Token::ArrayClose), word: Seq::<char>::empty(), lit: None }
        } else if is_space(c) {
            Lexer { toks: flush(st.toks, st.word), word: Seq::<char>::empty(), lit: None }
        } else {
            Lexer { word: st.word.push(c), ..st }
        },
    }
}

pub open spec fn lex(s: Seq<char>) -> Lexer
    decreases s.len(),
{
    if s.len() == 0 {
        Lexer { toks: Seq::<Token>::empty(), word: Seq::<char>::empty(), lit: None }
    } else {
        lex_step(lex(s.drop_last()), s.last())
    }
}

/// The tokens of a content stream; a literal left open at the end is lost.
pub open spec fn tokens(s: Seq<char>) -> Seq<Token> {
    let st = lex(s);
    if st.lit is None {
        flush(st.toks, st.word)
    } else {
        st.toks
    }
}

/// The reader of tokens: inside `BT`..`ET` or not, the literals of an array
/// being read, the operand just read (a literal, or an array's literals),
/// and the texts shown so far.
pub struct Reader {
    pub in_text: bool,
    pub arr: Option<Seq<Seq<char>>>,
    pub str_operand: Option<Seq<char>>,
    pub arr_operand: Option<Seq<Seq<char>>>,
    pub out: Seq<Seq<char>>,
}

/// The literals decoded and put together.
pub open spec fn decoded_all(a: Seq<Seq<char>>) -> Seq<char>
    decreases a.len(),
{
    if a.len() == 0 {
        Seq::<char>::empty()
    } else {
        decoded_all(a.drop_last()) + unescape(a.last())
    }
}

/// A shown text, trimmed, kept if not empty.
pub open spec fn shown(out: Seq<Seq<char>>, t: Seq<char>) -> Seq<Seq<char>> {
    if trim(t).len() > 0 {
        out.push(trim(t))
    } else {
        out
    }
}

pub open spec fn read_step(r: Reader, t: Token) -> Reader {
    match t {
        Token::ArrayOpen => Reader { arr: Some(Seq::<Seq<char>>::empty()), str_operand: None, arr_operand: None, ..r },
        Token::ArrayClose => Reader { arr: None, str_operand: None, arr_operand: r.arr, ..r },
        Token::Literal(l) => match r.arr {
            Some(a) => Reader { arr: Some(a.push(l)), ..r },
            None => Reader { str_operand: Some(l), arr_operand: None, ..r },
        },
        Token::Word(w) => {
            let out = if r.in_text && w == "Tj"@ && r.str_operand is Some {
                shown(r.out, unescape(r.str_operand->0))
            } else if r.in_text && w == "TJ"@ && r.arr_operand is Some {
                shown(r.out, decoded_all(r.arr_operand->0))
            } else {
                r.out
            };
            let in_text = if w == "BT"@ {
                true
            } else if w == "ET"@ {
                false
            } else {
                r.in_text
            };
            Reader { in_text, arr: r.arr, str_operand: None, arr_operand: None, out }
        },
    }
}

pub open spec fn read(ts: Seq<Token>) -> Reader
    decreases ts.len(),
{
    if ts.len() == 0 {
        Reader { in_text: false, arr: None, str_operand: None, arr_operand: None, out: Seq::<Seq<char>>::empty() }
    } else {
        read_step(read(ts.drop_last()), ts.last())
    }
}

/// Each text followed by one space.
pub open spec fn spaced(p: Seq<Seq<char>>) -> Seq<char>
    decreases p.len(),
{
    if p.len() == 0 {
        Seq::<char>::empty()
    } else {
        spaced(p.drop_last()) + p.last() + " "@
    }
}

/// The text of a content stream: the texts shown by `Tj` and `TJ` inside
/// text blocks, in order, each decoded, trimmed, and followed by a space.
pub open spec fn stream_text(s: Seq<char>) -> Seq<char> {
    spaced(read(tokens(s)).out)
}

pub enum Tok {
    Word(Vec<char>),
    Literal(Vec<char>),
    ArrayOpen,
    ArrayClose,
}

impl View for Tok {
    type V = Token;

    open spec fn view(&self) -> Token {
        match self {
            Tok::Word(w) => Token::Word(w@),
            Tok::Literal(l) => Token::Literal(l@),
            Tok::ArrayOpen => Token::ArrayOpen,
            Tok::ArrayClose => Token::ArrayClose,
        }
    }
}

pub open spec fn tok_views(v: Seq<Tok>) -> Seq<Token> {
    v.map_values(|t: Tok| t@)
}

fn flush_word(toks: &mut Vec<Tok>, word: Vec<char>)
    ensures
        tok_views(final(toks)@) == flush(tok_views(old(toks)@), word@),
{
    let ghost t0 = tok_views(toks@);
    if word.len() > 0 {
        toks.push(Tok::Word(word));
        assert(tok_views(toks@) =~= t0.push(Token::Word(word@)));
    }
}

/// The tokens of a content stream.
pub fn tokenize(s: &Vec<char>) -> (r: Vec<Tok>)
    ensures
        tok_views(r@) == tokens(s@),
{
    let mut toks: Vec<Tok> = Vec::new();
    let mut word: Vec<char> = Vec::new();
    let mut in_lit = false;
    let mut depth: usize = 0;
    let mut esc = false;
    let mut buf: Vec<char> = Vec::new();
    let mut i: usize = 0;
    while i < s.len()
        invariant
            i <= s.len(),
            depth <= i,
            tok_views(toks@) == lex(s@.subrange(0, i as int)).toks,
            word@ == lex(s@.subrange(0, i as int)).word,
            in_lit == (lex(s@.subrange(0, i as int)).lit is Some),
            in_lit ==> lex(s@.subrange(0, i as int)).lit == Some(
                LitState { depth: depth as nat, esc, buf: buf@ },
            ),
        decreases s.len() - i,
    {
        let ghost pre = s@.subrange(0, i as int);
        assert(s@.subrange(0, i + 1).drop_last() =~= pre);
        let c = s[i];
        let ghost t0 = tok_views(toks@);
        if in_lit {
            if esc {
                buf.push(c);
                esc = false;
            } else if c == '\\' {
                buf.push(c);
                esc = true;
            } else if c == '(' {
                buf.push(c);
                depth = depth + 1;
            } else if c == ')' {
                if depth <= 1 {
                    let lit = buf;
                    buf = Vec::new();
                    toks.push(Tok::Literal(lit));
                    assert(tok_views(toks@) =~= t0.push(Token::Literal(lit@)));
                    in_lit = false;
                    word = Vec::new();
                    depth = 0;
                } else {
                    buf.push(c);
                    depth = depth - 1;
                }
            } else {
                buf.push(c);
            }
        } else {
            if c == '(' {
                let w = word;
                word = Vec::new();
                flush_word(&mut toks, w);
                in_lit = true;
                depth = 1;
                esc = false;
                buf = Vec::new();
            } else if c == '[' || c == ']' {
                let w = word;
                word = Vec::new();
                flush_word(&mut toks, w);
                let ghost t1 = tok_views(toks@);
                if c == '[' {
                    toks.push(Tok::ArrayOpen);
                    assert(tok_views(toks@) =~= t1.push(Token::ArrayOpen));
                } else {
                    toks.push(Tok::ArrayClose);
                    assert(tok_views(toks@) =~= t1.push(Token::ArrayClose));
                }
            } else if is_space_char(c) {
                let w = word;
                word = Vec::new();
                flush_word(&mut toks, w);
            } else {
                word.push(c);
            }
        }
        i = i + 1;
    }
    assert(s@.subrange(0, s.len() as int) =~= s@);
    if !in_lit {
        flush_word(&mut toks, word);
    }
    toks
}

/// Whether `w` is the two characters `a`, `b`.
fn is_word2(w: &Vec<char>, a: char, b: char) -> (r: bool)
    ensures
        r == (w@ == seq![a, b]),
{
    if w.len() == 2 && w[0] == a && w[1] == b {
        assert(w@ =~= seq![a, b]);
        true
    } else {
        false
    }
}

/// The literals of an array decoded and put together.
fn decode_all(a: &Vec<Vec<char>>) -> (r: Vec<char>)
    ensures
        r@ == decoded_all(seqs_of(a@)),
{
    let mut r: Vec<char> = Vec::new();
    for k in 0..a.len()
        invariant
            r@ == decoded_all(seqs_of(a@).subrange(0, k as int)),
    {
        let ghost q = seqs_of(a@).subrange(0, k + 1);
        assert(q.drop_last() =~= seqs_of(a@).subrange(0, k as int));
        assert(q.last() == a@[k as int]@);
        let d = unescape_literal(&a[k]);
        append_chars(&mut r, &d);
    }
    assert(seqs_of(a@).subrange(0, a.len() as int) =~= seqs_of(a@));
    r
}

fn push_shown(out: &mut Vec<Vec<char>>, t: Vec<char>)
    ensures
        seqs_of(final(out)@) == shown(seqs_of(old(out)@), t@),
{
    let tt = trimmed(&t, 0, t.len());
    assert(t@.subrange(0, t@.len() as int) =~= t@);
    if tt.len() > 0 {
        let ghost o0 = seqs_of(out@);
        out.push(tt);
        assert(seqs_of(out@) =~= o0.push(trim(t@)));
    }
}

pub open spec fn opt_seqs(a: Option<Vec<Vec<char>>>) -> Option<Seq<Seq<char>>> {
    match a {
        Some(v) => Some(seqs_of(v@)),
        None => None,
    }
}

pub open spec fn opt_seq(a: Option<Vec<char>>) -> Option<Seq<char>> {
    match a {
        Some(v) => Some(v@),
        None => None,
    }
}

/// The texts shown in the token list, in order.
pub fn read_tokens(ts: &Vec<Tok>) -> (r: Vec<Vec<char>>)
    ensures
        seqs_of(r@) == read(tok_views(ts@)).out,
{
    proof {
        reveal_strlit("Tj");
        reveal_strlit("TJ");
        reveal_strlit("BT");
        reveal_strlit("ET");
        assert("Tj"@ =~= seq!['T', 'j']);
        assert("TJ"@ =~= seq!['T', 'J']);
        assert("BT"@ =~= seq!['B', 'T']);
        assert("ET"@ =~= seq!['E', 'T']);
    }
    let mut in_text = false;
    let mut arr: Option<Vec<Vec<char>>> = None;
    let mut str_operand: Option<Vec<char>> = None;
    let mut arr_operand: Option<Vec<Vec<char>>> = None;
    let mut out: Vec<Vec<char>> = Vec::new();
    let ghost tv = tok_views(ts@);
    assert(tv.subrange(0, 0) =~= Seq::<Token>::empty());
    assert(seqs_of(out@) =~= Seq::<Seq<char>>::empty());
    for k in 0..ts.len()
        invariant
            tv == tok_views(ts@),
            read(tv.subrange(0, k as int)) == (Reader {
                in_text,
                arr: opt_seqs(arr),
                str_operand: opt_seq(str_operand),
                arr_operand: opt_seqs(arr_operand),
                out: seqs_of(out@),
            }),
    {
        let ghost q = tv.subrange(0, k + 1);
        assert(q.drop_last() =~= tv.subrange(0, k as int));
        assert(q.last() == ts@[k as int]@);
        match &ts[k] {
            Tok::ArrayOpen => {
                arr = Some(Vec::new());
                assert(opt_seqs(arr) == Some(Seq::<Seq<char>>::empty()));
                str_operand = None;
                arr_operand = None;
            },
            Tok::ArrayClose => {
                arr_operand = arr;
                arr = None;
                str_operand = None;
            },
            Tok::Literal(l) => {
                let lc = crate::text::slice_of(l, 0, l.len());
                assert(l@.subrange(0, l@.len() as int) =~= l@);
                match arr {
                    Some(a) => {
                        let mut a = a;
                        let ghost a0 = seqs_of(a@);
                        a.push(lc);
                        assert(seqs_of(a@) =~= a0.push(l@));
                        arr = Some(a);
                    },
                    None => {
                        str_operand = Some(lc);
                        arr_operand = None;
                        arr = None;
                    },
                }
            },
            Tok::Word(w) => {
                proof {
                    reveal_strlit("Tj");
                    reveal_strlit("TJ");
                    reveal_strlit("BT");
                    reveal_strlit("ET");
                    assert("Tj"@ =~= seq!['T', 'j']);
                    assert("TJ"@ =~= seq!['T', 'J']);
                    assert("BT"@ =~= seq!['B', 'T']);
                    assert("ET"@ =~= seq!['E', 'T']);
                }
                if in_text && is_word2(w, 'T', 'j') && str_operand.is_some() {
                    match &str_operand {
                        Some(l) => {
                            let d = unescape_literal(l);
                            push_shown(&mut out, d);
                        },
                        None => {},
                    }
                } else if in_text && is_word2(w, 'T', 'J') && arr_operand.is_some() {
                    match &arr_operand {
                        Some(a) => {
                            let d = decode_all(a);
                            push_shown(&mut out, d);
                        },
                        None => {},
                    }
                }
                if is_word2(w, 'B', 'T') {
                    in_text = true;
                } else if is_word2(w, 'E', 'T') {
                    in_text = false;
                }
                str_operand = None;
                arr_operand = None;
            },
        }
    }
    assert(tv.subrange(0, ts.len() as int) =~= tv);
    out
}

/// Each text followed by one space.
fn join_spaced(p: &Vec<Vec<char>>) -> (r: Vec<char>)
    ensures
        r@ == spaced(seqs_of(p@)),
{
    let mut r: Vec<char> = Vec::new();
    for k in 0..p.len()
        invariant
            r@ == spaced(seqs_of(p@).subrange(0, k as int)),
    {
        let ghost q = seqs_of(p@).subrange(0, k + 1);
        assert(q.drop_last() =~= seqs_of(p@).subrange(0, k as int));
        assert(q.last() == p@[k as int]@);
        append_chars(&mut r, &p[k]);
        r.push(' ');
        proof {
            reveal_strlit(" ");
        }
        assert(r@ =~= spaced(q));
    }
    assert(seqs_of(p@).subrange(0, p.len() as int) =~= seqs_of(p@));
    r
}

/// The text of a content stream given as characters.
pub fn stream_text_of(s: &Vec<char>) -> (r: Vec<char>)
    ensures
        r@ == stream_text(s@),
{
    let ts = tokenize(s);
    let shown = read_tokens(&ts);
    join_spaced(&shown)
}

} // verus!
