//! Token extraction: from the matches of a boundary pattern to the ordered
//! slices of the text that the engines consume.

use crate::error::ConfigError;
use crate::pattern::{
    compile, error_message, find_spans, pattern_compiles, pattern_matches, pattern_source,
    spans_in_order, spans_on_boundaries,
};
use regex::Regex;
use vstd::prelude::*;
use vstd::string::StringSliceAdditionalSpecFns;
use vstd::utf8::{
    encode_utf8, encode_utf8_valid_utf8, is_char_boundary, is_char_boundary_start_end_of_seq,
    valid_utf8,
};

verus! {

/// How the matches of the boundary pattern turn into tokens.
#[derive(Clone, Copy, Debug, PartialEq, Eq, Structural)]
pub enum BoundaryRule {
    /// The pattern describes what separates tokens: the tokens are the
    /// stretches of text between matches.
    SplitOnMatches,
    /// The pattern describes the tokens themselves.
    MatchesAsTokens,
}

/// A span that holds at least one byte.
pub open spec fn is_nonempty() -> spec_fn((usize, usize)) -> bool {
    |s: (usize, usize)| s.0 < s.1
}

/// The stretches of a text of `len` bytes that the matches leave over:
/// before the first match, between neighbours, and after the last.
pub open spec fn split_pieces(matches: Seq<(usize, usize)>, len: usize) -> Seq<(usize, usize)> {
    Seq::new(
        matches.len() + 1,
        |i: int|
            (
                if i == 0 {
                    0usize
                } else {
                    matches[i - 1].1
                },
                if i == matches.len() {
                    len
                } else {
                    matches[i].0
                },
            ),
    )
}

/// The token spans that a rule makes of the matches in a text of `len`
/// bytes. Under either rule a token is never empty, so an empty text, or
/// one that holds boundaries only, has no tokens.
pub open spec fn token_spans_spec(
    matches: Seq<(usize, usize)>,
    len: usize,
    rule: BoundaryRule,
) -> Seq<(usize, usize)> {
    match rule {
        BoundaryRule::SplitOnMatches => split_pieces(matches, len).filter(is_nonempty()),
        BoundaryRule::MatchesAsTokens => matches.filter(is_nonempty()),
    }
}

/// The byte strings that the spans cut out of a text.
pub open spec fn token_seq(text: Seq<u8>, spans: Seq<(usize, usize)>) -> Seq<Seq<u8>> {
    Seq::new(spans.len(), |i: int| text.subrange(spans[i].0 as int, spans[i].1 as int))
}

/// Every span holds at least one byte.
pub open spec fn all_nonempty(spans: Seq<(usize, usize)>) -> bool {
    forall|i: int| 0 <= i < spans.len() ==> (#[trigger] spans[i]).0 < spans[i].1
}

proof fn lemma_nonempty_on_boundaries(s: Seq<(usize, usize)>, bytes: Seq<u8>)
    requires
        spans_on_boundaries(s, bytes),
    ensures
        spans_on_boundaries(s.filter(is_nonempty()), bytes),
    decreases s.len(),
{
    if s.len() == 0 {
        reveal(Seq::filter);
    } else {
        let rest = s.drop_last();
        assert forall|i: int| 0 <= i < rest.len() implies is_char_boundary(
            bytes,
            (#[trigger] rest[i]).0 as int,
        ) && is_char_boundary(bytes, rest[i].1 as int) by {
            assert(rest[i] == s[i]);
        }
        lemma_nonempty_on_boundaries(rest, bytes);
        rest.lemma_filter_push(s.last(), is_nonempty());
        assert(s =~= rest.push(s.last()));
        let kept = rest.filter(is_nonempty());
        let out = s.filter(is_nonempty());
        assert(is_char_boundary(bytes, s[s.len() - 1].0 as int));
        assert forall|i: int| 0 <= i < out.len() implies is_char_boundary(
            bytes,
            (#[trigger] out[i]).0 as int,
        ) && is_char_boundary(bytes, out[i].1 as int) by {
            if i < kept.len() {
                assert(out[i] == kept[i]);
            }
        }
    }
}

/// Tokens of a text lie on character boundaries when the matches do: each
/// token is valid UTF-8 of its own.
pub proof fn lemma_tokens_on_boundaries(
    matches: Seq<(usize, usize)>,
    bytes: Seq<u8>,
    rule: BoundaryRule,
)
    requires
        valid_utf8(bytes),
        bytes.len() <= usize::MAX,
        spans_on_boundaries(matches, bytes),
    ensures
        spans_on_boundaries(token_spans_spec(matches, bytes.len() as usize, rule), bytes),
{
    is_char_boundary_start_end_of_seq(bytes);
    let pieces = split_pieces(matches, bytes.len() as usize);
    assert forall|i: int| 0 <= i < pieces.len() implies is_char_boundary(
        bytes,
        (#[trigger] pieces[i]).0 as int,
    ) && is_char_boundary(bytes, pieces[i].1 as int) by {
        if i > 0 {
            assert(is_char_boundary(bytes, matches[i - 1].1 as int));
        }
        if i < matches.len() {
            assert(is_char_boundary(bytes, matches[i].0 as int));
        }
    }
    lemma_nonempty_on_boundaries(pieces, bytes);
    lemma_nonempty_on_boundaries(matches, bytes);
}

/// Turns the matches of the boundary pattern into token spans.
pub fn token_spans(matches: &Vec<(usize, usize)>, len: usize, rule: BoundaryRule) -> (tokens: Vec<
    (usize, usize),
>)
    requires
        spans_in_order(matches@, len as int),
    ensures
        tokens@ == token_spans_spec(matches@, len, rule),
        spans_in_order(tokens@, len as int),
        all_nonempty(tokens@),
{
    let mut tokens: Vec<(usize, usize)> = Vec::new();
    let mut i: usize = 0;
    let mut cursor: usize = 0;
    let ghost pieces = split_pieces(matches@, len);
    proof {
        reveal(Seq::filter);
        assert(pieces.take(0).filter(is_nonempty()) =~= Seq::<(usize, usize)>::empty());
        assert(matches@.take(0).filter(is_nonempty()) =~= Seq::<(usize, usize)>::empty());
    }
    while i < matches.len()
        invariant
            i <= matches.len(),
            spans_in_order(matches@, len as int),
            pieces == split_pieces(matches@, len),
            cursor == if i == 0 {
                0usize
            } else {
                matches@[i - 1].1
            },
            cursor <= len,
            tokens@ == match rule {
                BoundaryRule::SplitOnMatches => pieces.take(i as int).filter(is_nonempty()),
                BoundaryRule::MatchesAsTokens => matches@.take(i as int).filter(is_nonempty()),
            },
            spans_in_order(tokens@, len as int),
            all_nonempty(tokens@),
            forall|k: int| 0 <= k < tokens@.len() ==> (#[trigger] tokens@[k]).1 <= cursor,
        decreases matches.len() - i,
    {
        let m: (usize, usize) = matches[i];
        proof {
            assert(matches@[i as int].0 <= matches@[i as int].1 <= len);
            if i > 0 {
                assert(matches@[i - 1].1 <= matches@[i as int].0);
            }
            assert(pieces.take(i + 1) =~= pieces.take(i as int).push(pieces[i as int]));
            assert(matches@.take(i + 1) =~= matches@.take(i as int).push(m));
            pieces.take(i as int).lemma_filter_push(pieces[i as int], is_nonempty());
            matches@.take(i as int).lemma_filter_push(m, is_nonempty());
            assert(pieces[i as int] == (cursor, m.0));
        }
        match rule {
            BoundaryRule::SplitOnMatches => {
                if cursor < m.0 {
                    tokens.push((cursor, m.0));
                }
            },
            BoundaryRule::MatchesAsTokens => {
                if m.0 < m.1 {
                    tokens.push(m);
                }
            },
        }
        cursor = m.1;
        i = i + 1;
    }
    proof {
        assert(matches@.take(i as int) =~= matches@);
        assert(pieces =~= pieces.take(i as int).push(pieces[i as int]));
        pieces.take(i as int).lemma_filter_push(pieces[i as int], is_nonempty());
        assert(pieces[i as int] == (cursor, len));
    }
    match rule {
        BoundaryRule::SplitOnMatches => {
            if cursor < len {
                tokens.push((cursor, len));
            }
        },
        BoundaryRule::MatchesAsTokens => {},
    }
    tokens
}

/// A compiled boundary pattern together with the rule that reads it.
pub struct Tokenizer {
    re: Regex,
    rule: BoundaryRule,
}

/// The token spans of a text under a pattern and a rule: what
/// [`Tokenizer::tokenize`] returns.
pub open spec fn tokens_of(pattern: Seq<char>, rule: BoundaryRule, text: Seq<char>) -> Seq<
    (usize, usize),
> {
    token_spans_spec(pattern_matches(pattern, text), encode_utf8(text).len() as usize, rule)
}

impl Tokenizer {
    /// The pattern text this tokenizer was built from.
    pub closed spec fn pattern(&self) -> Seq<char> {
        pattern_source(self.re)
    }

    /// The rule by which matches become tokens.
    pub closed spec fn rule(&self) -> BoundaryRule {
        self.rule
    }

    /// Compiles a boundary pattern. An invalid pattern is a configuration
    /// error; every other pattern gives a tokenizer.
    pub fn new(pattern: &str, rule: BoundaryRule) -> (r: Result<Tokenizer, ConfigError>)
        ensures
            r is Ok <==> pattern_compiles(pattern@),
            r matches Ok(t) ==> t.pattern() == pattern@ && t.rule() == rule,
            r matches Err(e) ==> e is InvalidPattern,
    {
        match compile(pattern) {
            Ok(re) => Ok(Tokenizer { re, rule }),
            Err(e) => Err(ConfigError::InvalidPattern { message: error_message(&e) }),
        }
    }

    /// The rule by which matches become tokens.
    pub fn boundary_rule(&self) -> (rule: BoundaryRule)
        ensures
            rule == self.rule(),
    {
        self.rule
    }

    /// Splits a text into its tokens, as byte ranges of the text in order.
    pub fn tokenize(&self, text: &str) -> (spans: Vec<(usize, usize)>)
        ensures
            spans@ == tokens_of(self.pattern(), self.rule(), text@),
            spans_in_order(spans@, text.spec_bytes().len() as int),
            spans_on_boundaries(spans@, text.spec_bytes()),
            all_nonempty(spans@),
    {
        let matches = find_spans(&self.re, text);
        let len: usize = text.as_bytes().len();
        proof {
            encode_utf8_valid_utf8(text@);
            lemma_tokens_on_boundaries(matches@, text.spec_bytes(), self.rule);
        }
        token_spans(&matches, len, self.rule)
    }
}

} // verus!
