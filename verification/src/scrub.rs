//! Scrubbing: every stretch of a text that some pattern matches is replaced,
//! overlapping and touching matches as one stretch.

use crate::bounds::{fuse_bounds, fused, lemma_fused_in_order, starts_anchored, stops_anchored};
use crate::chars::{lemma_char_count_of_slice, string_from_utf8};
use crate::error::ConfigError;
use crate::pattern::{
    compile, error_message, find_spans, pattern_compiles, pattern_matches, pattern_source,
    spans_in_order, spans_on_boundaries,
};
use regex::Regex;
use vstd::prelude::*;
use vstd::slice::slice_subrange;
use vstd::string::StringExecFns;
use vstd::string::StringSliceAdditionalSpecFns;
use vstd::utf8::{
    decode_utf8, encode_utf8, encode_utf8_valid_utf8, is_char_boundary,
    is_char_boundary_start_end_of_seq, valid_utf8, valid_utf8_concat,
};

verus! {

/// The text between the stretch before `k` and stretch `k`.
pub open spec fn kept_before(text: Seq<u8>, stretches: Seq<(usize, usize)>, k: int) -> Seq<u8> {
    text.subrange(
        if k == 0 {
            0
        } else {
            stretches[k - 1].1 as int
        },
        stretches[k].0 as int,
    )
}

/// The scrubbed text up to and with the replacement of the first `k`
/// stretches.
pub open spec fn scrubbed_prefix(
    text: Seq<u8>,
    stretches: Seq<(usize, usize)>,
    replacement: Seq<u8>,
    k: nat,
) -> Seq<u8>
    decreases k,
{
    if k == 0 {
        Seq::empty()
    } else {
        scrubbed_prefix(text, stretches, replacement, (k - 1) as nat) + kept_before(
            text,
            stretches,
            k - 1,
        ) + replacement
    }
}

/// The text with each stretch replaced and everything else kept.
pub open spec fn scrubbed(text: Seq<u8>, stretches: Seq<(usize, usize)>, replacement: Seq<u8>) -> Seq<
    u8,
> {
    scrubbed_prefix(text, stretches, replacement, stretches.len()) + text.subrange(
        if stretches.len() == 0 {
            0
        } else {
            stretches.last().1 as int
        },
        text.len() as int,
    )
}

/// Replaces each stretch of the text, given in order, by the replacement.
pub fn scrub_text(text: &[u8], stretches: &Vec<(usize, usize)>, replacement: &[u8]) -> (out: Vec<
    u8,
>)
    requires
        spans_in_order(stretches@, text@.len() as int),
    ensures
        out@ == scrubbed(text@, stretches@, replacement@),
{
    let mut out: Vec<u8> = Vec::new();
    let mut last_stop: usize = 0;
    let mut k: usize = 0;
    while k < stretches.len()
        invariant
            k <= stretches@.len(),
            spans_in_order(stretches@, text@.len() as int),
            last_stop == (if k == 0 {
                0
            } else {
                stretches@[k - 1].1 as int
            }),
            last_stop <= text@.len(),
            out@ == scrubbed_prefix(text@, stretches@, replacement@, k as nat),
        decreases stretches@.len() - k,
    {
        let stretch: (usize, usize) = stretches[k];
        proof {
            assert(stretches@[k as int].0 <= stretches@[k as int].1 <= text@.len());
            if k > 0 {
                assert(stretches@[k - 1].1 <= stretches@[k as int].0);
            }
        }
        out.extend_from_slice(slice_subrange(text, last_stop, stretch.0));
        out.extend_from_slice(replacement);
        last_stop = stretch.1;
        k = k + 1;
    }
    out.extend_from_slice(slice_subrange(text, last_stop, text.len()));
    out
}

/// Fused stretches of bounds that lie on character boundaries lie on
/// character boundaries.
pub proof fn lemma_fused_on_boundaries(
    inputs: Seq<(usize, usize)>,
    out: Seq<(usize, usize)>,
    bytes: Seq<u8>,
)
    requires
        fused(inputs, out),
        spans_on_boundaries(inputs, bytes),
    ensures
        spans_on_boundaries(out, bytes),
{
    reveal(starts_anchored);
    reveal(stops_anchored);
    assert forall|i: int| 0 <= i < out.len() implies is_char_boundary(
        bytes,
        (#[trigger] out[i]).0 as int,
    ) && is_char_boundary(bytes, out[i].1 as int) by {
        assert(out.contains(out[i]));
        let b = choose|b: (usize, usize)| #[trigger] inputs.contains(b) && b.0 == out[i].0;
        let k = choose|k: int| 0 <= k < inputs.len() && inputs[k] == b;
        assert(is_char_boundary(bytes, inputs[k].0 as int));
        let c = choose|c: (usize, usize)| #[trigger] inputs.contains(c) && c.1 == out[i].1;
        let m = choose|m: int| 0 <= m < inputs.len() && inputs[m] == c;
        assert(is_char_boundary(bytes, inputs[m].1 as int));
    }
}

proof fn lemma_scrubbed_prefix_valid(
    text: Seq<u8>,
    stretches: Seq<(usize, usize)>,
    replacement: Seq<u8>,
    k: nat,
)
    requires
        valid_utf8(text),
        valid_utf8(replacement),
        spans_in_order(stretches, text.len() as int),
        spans_on_boundaries(stretches, text),
        k <= stretches.len(),
    ensures
        valid_utf8(scrubbed_prefix(text, stretches, replacement, k)),
    decreases k,
{
    if k > 0 {
        lemma_scrubbed_prefix_valid(text, stretches, replacement, (k - 1) as nat);
        let from = if k - 1 == 0 {
            0
        } else {
            stretches[k - 2].1 as int
        };
        let to = stretches[k - 1].0 as int;
        assert(stretches[k - 1].0 <= stretches[k - 1].1 <= text.len());
        is_char_boundary_start_end_of_seq(text);
        if k - 1 > 0 {
            assert(stretches[k - 2].1 <= stretches[k - 1].0);
            assert(is_char_boundary(text, stretches[k - 2].1 as int));
        }
        assert(is_char_boundary(text, stretches[k - 1].0 as int));
        lemma_char_count_of_slice(text, from, to);
        let head = scrubbed_prefix(text, stretches, replacement, (k - 1) as nat);
        valid_utf8_concat(head, kept_before(text, stretches, k - 1));
        valid_utf8_concat(head + kept_before(text, stretches, k - 1), replacement);
    }
}

/// Scrubbing valid UTF-8 at character boundaries with a replacement that
/// is valid UTF-8 gives valid UTF-8.
pub proof fn lemma_scrubbed_valid(
    text: Seq<u8>,
    stretches: Seq<(usize, usize)>,
    replacement: Seq<u8>,
)
    requires
        valid_utf8(text),
        valid_utf8(replacement),
        spans_in_order(stretches, text.len() as int),
        spans_on_boundaries(stretches, text),
    ensures
        valid_utf8(scrubbed(text, stretches, replacement)),
{
    lemma_scrubbed_prefix_valid(text, stretches, replacement, stretches.len());
    is_char_boundary_start_end_of_seq(text);
    let from = if stretches.len() == 0 {
        0
    } else {
        stretches.last().1 as int
    };
    if stretches.len() > 0 {
        assert(stretches[stretches.len() - 1].0 <= stretches[stretches.len() - 1].1 <= text.len());
        assert(is_char_boundary(text, stretches[stretches.len() - 1].1 as int));
    }
    lemma_char_count_of_slice(text, from, text.len() as int);
    valid_utf8_concat(
        scrubbed_prefix(text, stretches, replacement, stretches.len()),
        text.subrange(from, text.len() as int),
    );
}

/// The matches of the first `k` patterns in a text, pattern after pattern.
pub open spec fn all_matches(sources: Seq<Seq<char>>, text: Seq<char>, k: nat) -> Seq<
    (usize, usize),
>
    decreases k,
{
    if k == 0 {
        Seq::empty()
    } else {
        all_matches(sources, text, (k - 1) as nat) + pattern_matches(sources[k - 1], text)
    }
}

/// The text `out` is the text scrubbed: the matches of all patterns,
/// fused into stretches, each replaced.
pub open spec fn scrubs_to(
    sources: Seq<Seq<char>>,
    replacement: Seq<char>,
    text: Seq<char>,
    out: Seq<char>,
) -> bool {
    exists|stretches: Seq<(usize, usize)>| #[trigger]
        fused(all_matches(sources, text, sources.len()), stretches) && out == decode_utf8(
            scrubbed(encode_utf8(text), stretches, encode_utf8(replacement)),
        )
}

/// The scrubbed text of a row, where it is present.
pub open spec fn row_scrubs_to(
    sources: Seq<Seq<char>>,
    replacement: Seq<char>,
    row: Option<String>,
    out: Option<String>,
) -> bool {
    match row {
        Some(text) => out matches Some(clean) && scrubs_to(sources, replacement, text@, clean@),
        None => out is None,
    }
}

/// The texts of a list of strings.
pub open spec fn pattern_texts(patterns: Seq<String>) -> Seq<Seq<char>> {
    Seq::new(patterns.len(), |i: int| patterns[i]@)
}

/// A set of compiled patterns and the text that replaces what they match.
pub struct Scrubber {
    patterns: Vec<Regex>,
    replacement: String,
}

impl Scrubber {
    /// The pattern texts, in order.
    pub closed spec fn sources(&self) -> Seq<Seq<char>> {
        Seq::new(self.patterns@.len(), |i: int| pattern_source(self.patterns@[i]))
    }

    /// The replacement text.
    pub closed spec fn replacement(&self) -> Seq<char> {
        self.replacement@
    }

    /// Compiles the patterns. If one of them does not compile the set is
    /// refused; otherwise there is a scrubber.
    pub fn new(patterns: &Vec<String>, replacement: &str) -> (r: Result<Scrubber, ConfigError>)
        ensures
            r is Ok <==> forall|i: int|
                0 <= i < patterns@.len() ==> pattern_compiles(#[trigger] patterns@[i]@),
            r matches Ok(s) ==> s.sources() == pattern_texts(patterns@) && s.replacement()
                == replacement@,
            r matches Err(e) ==> e is InvalidPattern,
    {
        let mut compiled: Vec<Regex> = Vec::new();
        let mut i: usize = 0;
        while i < patterns.len()
            invariant
                i <= patterns@.len(),
                compiled@.len() == i,
                forall|k: int| 0 <= k < i ==> pattern_compiles(#[trigger] patterns@[k]@),
                forall|k: int|
                    0 <= k < i ==> pattern_source(#[trigger] compiled@[k]) == patterns@[k]@,
            decreases patterns@.len() - i,
        {
            match compile(patterns[i].as_str()) {
                Ok(re) => {
                    compiled.push(re);
                },
                Err(e) => {
                    assert(!pattern_compiles(patterns@[i as int]@));
                    return Err(ConfigError::InvalidPattern { message: error_message(&e) });
                },
            }
            i = i + 1;
        }
        let scrubber = Scrubber {
            patterns: compiled,
            replacement: String::from_str(replacement),
        };
        assert(scrubber.sources() =~= pattern_texts(patterns@));
        Ok(scrubber)
    }

    /// Scrubs a text: the text with every stretch that the patterns match
    /// replaced.
    pub fn scrub(&self, text: &str) -> (out: String)
        ensures
            scrubs_to(self.sources(), self.replacement(), text@, out@),
    {
        let bytes: &[u8] = text.as_bytes();
        let ghost len = bytes@.len() as int;
        let mut bounds: Vec<(usize, usize)> = Vec::new();
        let mut k: usize = 0;
        while k < self.patterns.len()
            invariant
                k <= self.patterns@.len(),
                len == text.spec_bytes().len(),
                bounds@ == all_matches(self.sources(), text@, k as nat),
                forall|i: int|
                    0 <= i < bounds@.len() ==> (#[trigger] bounds@[i]).0 <= bounds@[i].1 <= len,
                spans_on_boundaries(bounds@, text.spec_bytes()),
            decreases self.patterns@.len() - k,
        {
            let mut spans: Vec<(usize, usize)> = find_spans(&self.patterns[k], text);
            let ghost before = bounds@;
            let ghost found = spans@;
            bounds.append(&mut spans);
            proof {
                assert(bounds@ == before + found);
                assert forall|i: int| 0 <= i < bounds@.len() implies (#[trigger] bounds@[i]).0
                    <= bounds@[i].1 <= len by {
                    if i < before.len() {
                        assert(before[i].0 <= before[i].1 <= len);
                    } else {
                        assert(found[i - before.len()].0 <= found[i - before.len()].1 <= len);
                    }
                }
                assert forall|i: int| 0 <= i < bounds@.len() implies is_char_boundary(
                    text.spec_bytes(),
                    (#[trigger] bounds@[i]).0 as int,
                ) && is_char_boundary(text.spec_bytes(), bounds@[i].1 as int) by {
                    if i < before.len() {
                        assert(is_char_boundary(text.spec_bytes(), before[i].0 as int));
                    } else {
                        assert(is_char_boundary(
                            text.spec_bytes(),
                            found[i - before.len()].0 as int,
                        ));
                    }
                }
            }
            k = k + 1;
        }
        let stretches: Vec<(usize, usize)> = fuse_bounds(&bounds);
        let replacement: &[u8] = self.replacement.as_str().as_bytes();
        proof {
            lemma_fused_in_order(bounds@, stretches@, len);
            lemma_fused_on_boundaries(bounds@, stretches@, bytes@);
            encode_utf8_valid_utf8(text@);
            encode_utf8_valid_utf8(self.replacement@);
            lemma_scrubbed_valid(bytes@, stretches@, replacement@);
        }
        let clean: Vec<u8> = scrub_text(bytes, &stretches, replacement);
        let out: String = string_from_utf8(clean);
        proof {
            assert(fused(all_matches(self.sources(), text@, self.sources().len()), stretches@)
                && out@ == decode_utf8(
                scrubbed(encode_utf8(text@), stretches@, encode_utf8(self.replacement())),
            ));
        }
        out
    }

    /// Scrubs a batch of rows: an absent row stays absent.
    pub fn scrub_rows(&self, rows: &Vec<Option<String>>) -> (out: Vec<Option<String>>)
        ensures
            out@.len() == rows@.len(),
            forall|r: int|
                0 <= r < rows@.len() ==> row_scrubs_to(
                    self.sources(),
                    self.replacement(),
                    rows@[r],
                    #[trigger] out@[r],
                ),
    {
        let mut out: Vec<Option<String>> = Vec::new();
        let mut r: usize = 0;
        while r < rows.len()
            invariant
                r <= rows@.len(),
                out@.len() == r,
                forall|i: int|
                    0 <= i < r ==> row_scrubs_to(
                        self.sources(),
                        self.replacement(),
                        rows@[i],
                        #[trigger] out@[i],
                    ),
            decreases rows@.len() - r,
        {
            let scrubbed_row: Option<String> = match &rows[r] {
                Some(text) => Some(self.scrub(text.as_str())),
                None => None,
            };
            out.push(scrubbed_row);
            r = r + 1;
        }
        out
    }
}

/// Compiles the patterns and scrubs a batch of rows. A pattern that does
/// not compile fails the whole batch before any row is read.
pub fn scrub(rows: &Vec<Option<String>>, patterns: &Vec<String>, replacement: &str) -> (r: Result<
    Vec<Option<String>>,
    ConfigError,
>)
    ensures
        r is Ok <==> forall|i: int|
            0 <= i < patterns@.len() ==> pattern_compiles(#[trigger] patterns@[i]@),
        r matches Ok(out) ==> out@.len() == rows@.len() && forall|i: int|
            0 <= i < rows@.len() ==> row_scrubs_to(
                pattern_texts(patterns@),
                replacement@,
                rows@[i],
                #[trigger] out@[i],
            ),
        r matches Err(e) ==> e is InvalidPattern,
{
    match Scrubber::new(patterns, replacement) {
        Ok(scrubber) => Ok(scrubber.scrub_rows(rows)),
        Err(e) => Err(e),
    }
}

} // verus!
