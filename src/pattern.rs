//! Regular expressions, through the `regex` crate. What a pattern matches is
//! named here and not restated: the contracts of the callers speak of these
//! names.
use vstd::prelude::*;

verus! {

/// Offsets as integers.
pub open spec fn offsets(v: Seq<usize>) -> Seq<int> {
    v.map_values(|k: usize| k as int)
}

/// Whether `pattern` is accepted by `regex::Regex::new`.
pub uninterp spec fn regex_valid(pattern: Seq<char>) -> bool;

/// Whether the compiled `pattern` matches somewhere in `text`.
pub uninterp spec fn regex_is_match(pattern: Seq<char>, text: Seq<char>) -> bool;

/// `text` with every non-overlapping match of `pattern` replaced by `rep`.
pub uninterp spec fn regex_replaced(pattern: Seq<char>, text: Seq<char>, rep: Seq<char>) -> Seq<
    char,
>;

/// The pieces of `text` between the matches of `pattern`.
pub uninterp spec fn regex_split(pattern: Seq<char>, text: Seq<char>) -> Seq<Seq<char>>;

/// The character offsets at which the successive matches of `pattern` in
/// `text` begin.
pub uninterp spec fn regex_match_starts(pattern: Seq<char>, text: Seq<char>) -> Seq<int>;

/// Relies on `regex::Regex::new`: whether it accepts the pattern.
#[verifier::external_body]
pub(crate) fn pattern_compiles(pattern: &str) -> (r: bool)
    ensures
        r == regex_valid(pattern@),
{
    regex::Regex::new(pattern).is_ok()
}

/// Relies on `regex::Regex::is_match`, with the pattern compiled once for
/// all the texts.
#[verifier::external_body]
pub(crate) fn match_each(pattern: &str, texts: &Vec<String>) -> (r: Vec<bool>)
    requires
        regex_valid(pattern@),
    ensures
        r@.len() == texts@.len(),
        forall|i: int| 0 <= i < r@.len() ==> r@[i] == regex_is_match(pattern@, texts@[i]@),
{
    let re = regex::Regex::new(pattern).unwrap();
    texts.iter().map(|t| re.is_match(t)).collect()
}

/// Relies on `regex::Regex::replace_all`; `rep` holds no `$`, so it stands
/// for itself.
#[verifier::external_body]
pub(crate) fn replace_all(pattern: &str, text: &str, rep: &str) -> (r: String)
    requires
        regex_valid(pattern@),
        forall|i: int| 0 <= i < rep@.len() ==> rep@[i] != '$',
    ensures
        r@ == regex_replaced(pattern@, text@, rep@),
{
    let re = regex::Regex::new(pattern).unwrap();
    re.replace_all(text, rep).into_owned()
}

/// Relies on `regex::Regex::split`: the pieces between the matches.
#[verifier::external_body]
pub(crate) fn split(pattern: &str, text: &str) -> (r: Vec<String>)
    requires
        regex_valid(pattern@),
    ensures
        r@.map_values(|s: String| s@) == regex_split(pattern@, text@),
{
    let re = regex::Regex::new(pattern).unwrap();
    re.split(text).map(|s| s.to_string()).collect()
}

/// Relies on `regex::Regex::find_iter`: where each match begins, the byte
/// offset of `Match::start` given as a character offset.
#[verifier::external_body]
pub(crate) fn match_starts(pattern: &str, text: &str) -> (r: Vec<usize>)
    requires
        regex_valid(pattern@),
    ensures
        offsets(r@) == regex_match_starts(pattern@, text@),
{
    let re = regex::Regex::new(pattern).unwrap();
    re.find_iter(text).map(|m| text[..m.start()].chars().count()).collect()
}

} // verus!
