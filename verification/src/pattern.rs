//! Regular-expression matching, as provided by the `regex` crate.
//!
//! Nothing here is proved. Whether a pattern compiles, and where it matches
//! in a text, are named; of the matches only what the crate documents is
//! stated: they are successive, do not overlap, and lie on character
//! boundaries of the text.

use regex::Regex;
use vstd::prelude::*;
use vstd::string::StringSliceAdditionalSpecFns;
use vstd::utf8::is_char_boundary;

verus! {

/// The compiled expression `regex::Regex`, taken as it is.
#[verifier::external_type_specification]
#[verifier::external_body]
pub struct ExRegex(Regex);

/// The compilation error `regex::Error`, taken as it is.
#[verifier::external_type_specification]
#[verifier::external_body]
pub struct ExRegexError(regex::Error);

/// The pattern text a compiled expression was built from, which
/// `Regex::as_str` gives back.
pub uninterp spec fn pattern_source(re: Regex) -> Seq<char>;

/// Whether `Regex::new` accepts the pattern.
pub uninterp spec fn pattern_compiles(pattern: Seq<char>) -> bool;

/// The byte ranges `(start, end)` of the matches that `Regex::find_iter`
/// yields for the pattern in the text, in the order it yields them.
pub uninterp spec fn pattern_matches(pattern: Seq<char>, text: Seq<char>) -> Seq<(usize, usize)>;

/// Byte ranges that follow one another inside a text of `len` bytes without
/// overlapping.
pub open spec fn spans_in_order(spans: Seq<(usize, usize)>, len: int) -> bool {
    &&& forall|i: int| 0 <= i < spans.len() ==> (#[trigger] spans[i]).0 <= spans[i].1 <= len
    &&& forall|i: int, j: int|
        0 <= i < j < spans.len() ==> (#[trigger] spans[i]).1 <= (#[trigger] spans[j]).0
}

/// Byte ranges whose two ends are character boundaries of the UTF-8 text
/// `bytes`.
pub open spec fn spans_on_boundaries(spans: Seq<(usize, usize)>, bytes: Seq<u8>) -> bool {
    forall|i: int|
        0 <= i < spans.len() ==> is_char_boundary(bytes, (#[trigger] spans[i]).0 as int)
            && is_char_boundary(bytes, spans[i].1 as int)
}

/// `Regex::new`: compiles a pattern with the crate's default settings. It
/// succeeds exactly on the patterns the crate accepts, and the compiled
/// expression remembers the pattern text.
#[verifier::external_body]
pub(crate) fn compile(pattern: &str) -> (r: Result<Regex, regex::Error>)
    ensures
        r is Ok <==> pattern_compiles(pattern@),
        r matches Ok(re) ==> pattern_source(re) == pattern@,
{
    Regex::new(pattern)
}

/// `Regex::find_iter`, with each match turned into its `(start, end)` byte
/// offsets. The matches depend on the pattern and the text only; they are
/// successive and non-overlapping, `start <= end` holds of each, and every
/// offset is a character boundary within the text.
#[verifier::external_body]
pub(crate) fn find_spans(re: &Regex, text: &str) -> (spans: Vec<(usize, usize)>)
    ensures
        spans@ == pattern_matches(pattern_source(*re), text@),
        spans_in_order(spans@, text.spec_bytes().len() as int),
        spans_on_boundaries(spans@, text.spec_bytes()),
{
    re.find_iter(text).map(|m| (m.start(), m.end())).collect()
}

/// `Error::to_string` of the `regex` crate: the message of a failed
/// compilation.
#[verifier::external_body]
pub(crate) fn error_message(e: &regex::Error) -> (message: String) {
    e.to_string()
}

} // verus!
