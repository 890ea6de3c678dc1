//! Repetition signals of texts: for each gram order, the share of a
//! document's characters that repeated grams cover.
//!
//! An engine splits a text into tokens, hashes the grams that end at each
//! token, and hands hashes and token lengths to the counting.

use crate::chars::count_chars;
use crate::counting::{covered_chars, reach, Grams, RepetitionCounts, RepetitionState};
use crate::error::ConfigError;
use crate::fields::{fieldname, fieldname_spec};
use crate::grams::{
    gram_bytes, lemma_range_chars_agree, lemma_range_chars_within_text, range_chars, token_chars,
    total_chars, GRAM_SEPARATOR,
};
use crate::pattern::{pattern_compiles, spans_in_order};
use crate::tokens::{token_seq, tokens_of, BoundaryRule, Tokenizer};
use crate::xxh3::{
    hashed_bytes, hasher_digest128, hasher_seed, hasher_update, hasher_with_seed, hasher_write_u8,
    xxh3_digest128,
};
use vstd::prelude::*;
use vstd::slice::slice_subrange;
use vstd::utf8::encode_utf8;
use xxhash_rust::xxh3::Xxh3;

verus! {

/// The seed under which grams are hashed.
pub const GRAM_SEED: u64 = 0x5eed;

/// The content hash of the gram of `n + 1` tokens ending at `pos`.
pub open spec fn gram_hash(toks: Seq<Seq<u8>>, pos: int, n: int) -> u128 {
    xxh3_digest128(GRAM_SEED, gram_bytes(toks, pos, n))
}

/// The hashes of the grams that end at position `pos`, by order.
pub open spec fn gram_hashes_at(toks: Seq<Seq<u8>>, pos: int, num_dup: int) -> Seq<u128> {
    Seq::new(reach(pos, num_dup) as nat, |n: int| gram_hash(toks, pos, n))
}

/// What the counting reads of the first `k` tokens of a token sequence.
pub open spec fn grams_prefix(toks: Seq<Seq<u8>>, num_dup: int, k: int) -> Grams {
    Grams {
        hashes: Seq::new(k as nat, |pos: int| gram_hashes_at(toks, pos, num_dup)),
        chars: token_chars(toks).take(k),
    }
}

/// What the counting reads of a token sequence.
pub open spec fn grams_of(toks: Seq<Seq<u8>>, num_dup: int) -> Grams {
    grams_prefix(toks, num_dup, toks.len() as int)
}

impl RepetitionCounts {
    /// These counts are the signal of the token sequence `toks` under
    /// `num_top` top orders and `num_dup` orders in all.
    pub open spec fn describes(&self, toks: Seq<Seq<u8>>, num_top: int, num_dup: int) -> bool {
        self.counts_of(grams_of(toks, num_dup), num_top, num_dup)
    }
}

/// The content hashes of the grams that end at token `k`, from the single
/// token up to the longest gram kept: the keyed hash is fed the tokens from
/// the newest back, each closed by the separator, and read after each.
pub fn gram_hashes(text: &[u8], spans: &Vec<(usize, usize)>, k: usize, num_dup: usize) -> (hashes:
    Vec<u128>)
    requires
        spans_in_order(spans@, text@.len() as int),
        k < spans@.len(),
    ensures
        hashes@ == gram_hashes_at(token_seq(text@, spans@), k as int, num_dup as int),
{
    let ghost toks = token_seq(text@, spans@);
    let reach: usize = if k < num_dup {
        k + 1
    } else {
        num_dup
    };
    let mut hashes: Vec<u128> = Vec::new();
    let mut hasher: Xxh3 = hasher_with_seed(GRAM_SEED);
    let mut n: usize = 0;
    assert(hashed_bytes(hasher) =~= gram_bytes(toks, k as int, -1));
    while n < reach
        invariant
            n <= reach <= k + 1,
            k < spans@.len(),
            spans_in_order(spans@, text@.len() as int),
            toks == token_seq(text@, spans@),
            hasher_seed(hasher) == GRAM_SEED,
            hashed_bytes(hasher) == gram_bytes(toks, k as int, n - 1),
            hashes@.len() == n,
            forall|j: int| 0 <= j < n ==> #[trigger] hashes@[j] == gram_hash(toks, k as int, j),
        decreases reach - n,
    {
        let span: (usize, usize) = spans[k - n];
        proof {
            assert(spans@[k - n].0 <= spans@[k - n].1 <= text@.len());
            assert(toks[k - n] == text@.subrange(span.0 as int, span.1 as int));
        }
        hasher_update(&mut hasher, slice_subrange(text, span.0, span.1));
        hasher_write_u8(&mut hasher, GRAM_SEPARATOR);
        assert(hashed_bytes(hasher) =~= gram_bytes(toks, k as int, n as int));
        hashes.push(hasher_digest128(&hasher));
        n = n + 1;
    }
    assert(hashes@ =~= gram_hashes_at(toks, k as int, num_dup as int));
    hashes
}

/// Computes the repetition counts of one document from its tokens, given
/// as byte ranges of `text` in order: a single pass over the tokens with
/// `num_top` top orders among `num_dup` gram orders.
pub fn dup_ngrams_hash(
    text: &[u8],
    spans: &Vec<(usize, usize)>,
    num_top: usize,
    num_dup: usize,
) -> (counts: RepetitionCounts)
    requires
        num_top <= num_dup,
        spans_in_order(spans@, text@.len() as int),
    ensures
        counts.describes(token_seq(text@, spans@), num_top as int, num_dup as int),
        counts.within_total(num_top as int),
{
    let ghost toks = token_seq(text@, spans@);
    let mut state = RepetitionState::new(num_top, num_dup);
    let mut k: usize = 0;
    proof {
        let first = grams_prefix(toks, num_dup as int, 0);
        assert(state.grams().hashes =~= first.hashes);
        assert(state.grams().chars =~= first.chars);
    }
    while k < spans.len()
        invariant
            k <= spans@.len(),
            spans_in_order(spans@, text@.len() as int),
            toks == token_seq(text@, spans@),
            state.wf(),
            state.top_orders() == num_top,
            state.all_orders() == num_dup,
            state.grams() == grams_prefix(toks, num_dup as int, k as int),
        decreases spans@.len() - k,
    {
        let span: (usize, usize) = spans[k];
        proof {
            assert(spans@[k as int].0 <= spans@[k as int].1 <= text@.len());
            assert(toks[k as int] == text@.subrange(span.0 as int, span.1 as int));
            lemma_range_chars_within_text(text@, spans@, k + 1);
            let full = token_chars(toks);
            lemma_range_chars_agree(full.take(k as int), full, 0, k as int);
            assert(range_chars(full, 0, k + 1) == range_chars(full, 0, k as int) + full[k as int]);
        }
        let chars: usize = count_chars(slice_subrange(text, span.0, span.1));
        let hashes: Vec<u128> = gram_hashes(text, spans, k, num_dup);
        state.observe(hashes.as_slice(), chars);
        proof {
            let next = grams_prefix(toks, num_dup as int, k + 1);
            assert(state.grams().hashes =~= next.hashes);
            assert(state.grams().chars =~= next.chars);
        }
        k = k + 1;
    }
    proof {
        assert(token_chars(toks).take(k as int) =~= token_chars(toks));
    }
    state.finish()
}

/// The tokens the repetition engine reads in a text: the non-empty
/// stretches that the matches of the boundary pattern leave over.
pub open spec fn repetition_tokens(pattern: Seq<char>, text: Seq<char>) -> Seq<Seq<u8>> {
    token_seq(encode_utf8(text), tokens_of(pattern, BoundaryRule::SplitOnMatches, text))
}

/// A repetition engine: a boundary pattern, read as what separates tokens,
/// and the numbers of top and of all gram orders. It is made once and only
/// read afterwards.
pub struct RepetitionEngine {
    tokenizer: Tokenizer,
    num_top: usize,
    num_dup: usize,
}

impl RepetitionEngine {
    #[verifier::type_invariant]
    spec fn valid(&self) -> bool {
        &&& self.num_top <= self.num_dup
        &&& self.tokenizer.rule() == BoundaryRule::SplitOnMatches
    }

    /// The pattern text of the boundary rule.
    pub closed spec fn pattern(&self) -> Seq<char> {
        self.tokenizer.pattern()
    }

    /// The number of top-gram orders.
    pub closed spec fn top_orders(&self) -> usize {
        self.num_top
    }

    /// The number of gram orders in all.
    pub closed spec fn all_orders(&self) -> usize {
        self.num_dup
    }

    /// Sets an engine up. More top orders than orders in all are refused;
    /// otherwise a pattern that does not compile is refused; every other
    /// configuration gives an engine.
    pub fn new(pattern: &str, num_top: usize, num_dup: usize) -> (r: Result<
        RepetitionEngine,
        ConfigError,
    >)
        ensures
            r is Ok <==> num_top <= num_dup && pattern_compiles(pattern@),
            r matches Ok(e) ==> e.pattern() == pattern@ && e.top_orders() == num_top
                && e.all_orders() == num_dup,
            r matches Err(e) ==> (if num_top > num_dup {
                e == (ConfigError::TopExceedsDup { num_top, num_dup })
            } else {
                e is InvalidPattern
            }),
    {
        if num_top > num_dup {
            return Err(ConfigError::TopExceedsDup { num_top, num_dup });
        }
        match Tokenizer::new(pattern, BoundaryRule::SplitOnMatches) {
            Ok(tokenizer) => Ok(RepetitionEngine { tokenizer, num_top, num_dup }),
            Err(e) => Err(e),
        }
    }

    /// The number of top-gram orders.
    pub fn num_top(&self) -> (n: usize)
        ensures
            n == self.top_orders(),
            n <= self.all_orders(),
    {
        proof {
            use_type_invariant(self);
        }
        self.num_top
    }

    /// The number of gram orders in all, which is the number of ratios per
    /// document.
    pub fn num_dup(&self) -> (n: usize)
        ensures
            n == self.all_orders(),
    {
        self.num_dup
    }

    /// The rule by which this engine reads its pattern: always
    /// [`BoundaryRule::SplitOnMatches`].
    pub fn boundary_rule(&self) -> (rule: BoundaryRule)
        ensures
            rule == BoundaryRule::SplitOnMatches,
    {
        proof {
            use_type_invariant(self);
        }
        self.tokenizer.boundary_rule()
    }

    /// The names of the ratios, in the order of the orders.
    pub fn field_names(&self) -> (names: Vec<String>)
        ensures
            names@.len() == self.all_orders(),
            forall|i: int|
                0 <= i < names@.len() ==> (#[trigger] names@[i])@ == fieldname_spec(
                    self.top_orders(),
                    i as usize,
                ),
    {
        ratio_names(self.num_top, self.num_dup)
    }

    /// The repetition counts of one document. Every text has counts: an
    /// empty text, or one without tokens, has the zero vector.
    pub fn signals(&self, text: &str) -> (counts: RepetitionCounts)
        ensures
            counts.describes(
                repetition_tokens(self.pattern(), text@),
                self.top_orders() as int,
                self.all_orders() as int,
            ),
            counts.within_total(self.top_orders() as int),
    {
        proof {
            use_type_invariant(self);
        }
        let spans = self.tokenizer.tokenize(text);
        dup_ngrams_hash(text.as_bytes(), &spans, self.num_top, self.num_dup)
    }
}

/// The counts are a function of the tokens and the configuration: two
/// results that describe the same document under the same configuration
/// are equal, whichever run or engine gave them.
pub proof fn lemma_counts_determined(
    c1: RepetitionCounts,
    c2: RepetitionCounts,
    toks: Seq<Seq<u8>>,
    num_top: int,
    num_dup: int,
)
    requires
        c1.describes(toks, num_top, num_dup),
        c2.describes(toks, num_top, num_dup),
    ensures
        c1.covered@ == c2.covered@,
        c1.total == c2.total,
{
    assert(c1.covered@ =~= c2.covered@);
}

/// Two engines with the same configuration give every text the same
/// counts: what [`RepetitionEngine::signals`] returns depends on the
/// pattern, the two numbers of orders and the text only.
pub proof fn lemma_signals_deterministic(
    e1: RepetitionEngine,
    e2: RepetitionEngine,
    text: Seq<char>,
    c1: RepetitionCounts,
    c2: RepetitionCounts,
)
    requires
        e1.pattern() == e2.pattern(),
        e1.top_orders() == e2.top_orders(),
        e1.all_orders() == e2.all_orders(),
        c1.describes(
            repetition_tokens(e1.pattern(), text),
            e1.top_orders() as int,
            e1.all_orders() as int,
        ),
        c2.describes(
            repetition_tokens(e2.pattern(), text),
            e2.top_orders() as int,
            e2.all_orders() as int,
        ),
    ensures
        c1.covered@ == c2.covered@,
        c1.total == c2.total,
{
    lemma_counts_determined(
        c1,
        c2,
        repetition_tokens(e1.pattern(), text),
        e1.top_orders() as int,
        e1.all_orders() as int,
    );
}

/// A ratio as an exact fraction: `num` characters out of `den`, with
/// `den >= 1`.
#[derive(Clone, Copy, Debug, PartialEq, Eq, Structural)]
pub struct Ratio {
    pub num: u128,
    pub den: usize,
}

/// The repetition ratios of a batch of rows, one column per gram order, and
/// for each row whether it was present.
pub struct RepetitionColumns {
    pub columns: Vec<Vec<Ratio>>,
    pub validity: Vec<bool>,
}

/// The ratio that order `n` reports for a row: that of its text where the
/// row is present, zero where it is absent.
pub open spec fn row_ratio(
    pattern: Seq<char>,
    num_top: int,
    num_dup: int,
    row: Option<String>,
    n: int,
) -> Ratio {
    match row {
        Some(text) => {
            let g = grams_of(repetition_tokens(pattern, text@), num_dup);
            Ratio {
                num: covered_chars(g, num_top, n) as u128,
                den: if total_chars(g.chars) == 0 {
                    1usize
                } else {
                    total_chars(g.chars) as usize
                },
            }
        },
        None => Ratio { num: 0, den: 1 },
    }
}

impl RepetitionColumns {
    /// These columns are the ratios of `rows` under the configuration: a
    /// column per order with a ratio per row, and a row is valid exactly
    /// when it is present.
    pub open spec fn describes(
        &self,
        pattern: Seq<char>,
        num_top: int,
        num_dup: int,
        rows: Seq<Option<String>>,
    ) -> bool {
        &&& self.columns@.len() == num_dup
        &&& self.validity@.len() == rows.len()
        &&& forall|r: int| 0 <= r < rows.len() ==> #[trigger] self.validity@[r] == (rows[r] is Some)
        &&& forall|n: int| 0 <= n < num_dup ==> (#[trigger] self.columns@[n])@.len() == rows.len()
        &&& forall|n: int, r: int|
            0 <= n < num_dup && 0 <= r < rows.len() ==> #[trigger] self.columns@[n]@[r]
                == row_ratio(pattern, num_top, num_dup, rows[r], n)
    }
}

impl RepetitionEngine {
    /// The ratios of a batch of rows. An absent row gives an invalid row of
    /// zeros; a present row, an empty text too, gives a valid one.
    pub fn signal_columns(&self, rows: &Vec<Option<String>>) -> (out: RepetitionColumns)
        ensures
            out.describes(
                self.pattern(),
                self.top_orders() as int,
                self.all_orders() as int,
                rows@,
            ),
    {
        proof {
            use_type_invariant(self);
        }
        let num_dup: usize = self.num_dup;
        let ghost pattern = self.pattern();
        let ghost num_top = self.num_top as int;
        let mut columns: Vec<Vec<Ratio>> = Vec::new();
        let mut n: usize = 0;
        while n < num_dup
            invariant
                n <= num_dup,
                columns@.len() == n,
                forall|j: int| 0 <= j < n ==> (#[trigger] columns@[j])@.len() == 0,
            decreases num_dup - n,
        {
            columns.push(Vec::new());
            n = n + 1;
        }
        let mut validity: Vec<bool> = Vec::new();
        let mut r: usize = 0;
        while r < rows.len()
            invariant
                r <= rows@.len(),
                num_dup == self.num_dup,
                pattern == self.pattern(),
                num_top == self.num_top,
                columns@.len() == num_dup,
                validity@.len() == r,
                forall|i: int| 0 <= i < r ==> #[trigger] validity@[i] == (rows@[i] is Some),
                forall|j: int| 0 <= j < num_dup ==> (#[trigger] columns@[j])@.len() == r,
                forall|j: int, i: int|
                    0 <= j < num_dup && 0 <= i < r ==> #[trigger] columns@[j]@[i] == row_ratio(
                        pattern,
                        num_top,
                        num_dup as int,
                        rows@[i],
                        j,
                    ),
            decreases rows@.len() - r,
        {
            let counts: Option<RepetitionCounts> = match &rows[r] {
                Some(text) => Some(self.signals(text.as_str())),
                None => None,
            };
            validity.push(counts.is_some());
            let den: usize = match &counts {
                Some(c) => c.denominator(),
                None => 1,
            };
            let mut j: usize = 0;
            while j < num_dup
                invariant
                    j <= num_dup,
                    r < rows@.len(),
                    num_dup == self.num_dup,
                    pattern == self.pattern(),
                    num_top == self.num_top,
                    columns@.len() == num_dup,
                    counts is Some <==> rows@[r as int] is Some,
                    counts matches Some(c) ==> c.describes(
                        repetition_tokens(pattern, rows@[r as int]->0@),
                        num_top,
                        num_dup as int,
                    ) && den == (if c.total == 0 {
                        1
                    } else {
                        c.total as int
                    }),
                    counts is None ==> den == 1,
                    forall|t: int|
                        0 <= t < num_dup ==> (#[trigger] columns@[t])@.len() == (if t < j {
                            r + 1
                        } else {
                            r as int
                        }),
                    forall|t: int, i: int|
                        0 <= t < num_dup && 0 <= i < r ==> #[trigger] columns@[t]@[i] == row_ratio(
                            pattern,
                            num_top,
                            num_dup as int,
                            rows@[i],
                            t,
                        ),
                    forall|t: int|
                        0 <= t < j ==> #[trigger] columns@[t]@[r as int] == row_ratio(
                            pattern,
                            num_top,
                            num_dup as int,
                            rows@[r as int],
                            t,
                        ),
                decreases num_dup - j,
            {
                let num: u128 = match &counts {
                    Some(c) => c.covered[j],
                    None => 0,
                };
                let ghost before = columns@;
                columns[j].push(Ratio { num, den });
                proof {
                    assert(columns@[j as int]@ == before[j as int]@.push(Ratio { num, den }));
                    assert forall|t: int, i: int|
                        0 <= t < num_dup && 0 <= i < r implies #[trigger] columns@[t]@[i]
                        == row_ratio(pattern, num_top, num_dup as int, rows@[i], t) by {
                        assert(before[t]@[i] == row_ratio(pattern, num_top, num_dup as int, rows@[i], t));
                    }
                    assert forall|t: int| 0 <= t < j + 1 implies #[trigger] columns@[t]@[r as int]
                        == row_ratio(pattern, num_top, num_dup as int, rows@[r as int], t) by {
                        if t < j {
                            assert(before[t]@[r as int] == row_ratio(
                                pattern,
                                num_top,
                                num_dup as int,
                                rows@[r as int],
                                t,
                            ));
                        }
                    }
                }
                j = j + 1;
            }
            r = r + 1;
        }
        RepetitionColumns { columns, validity }
    }
}

/// The names of `num_dup` ratios of which the first `num_top` are top-gram
/// ratios.
fn ratio_names(num_top: usize, num_dup: usize) -> (names: Vec<String>)
    ensures
        names@.len() == num_dup,
        forall|i: int|
            0 <= i < names@.len() ==> (#[trigger] names@[i])@ == fieldname_spec(
                num_top,
                i as usize,
            ),
{
    let mut names: Vec<String> = Vec::new();
    let mut i: usize = 0;
    while i < num_dup
        invariant
            i <= num_dup,
            names@.len() == i,
            forall|j: int|
                0 <= j < i ==> (#[trigger] names@[j])@ == fieldname_spec(num_top, j as usize),
        decreases num_dup - i,
    {
        names.push(fieldname(num_top, num_dup, i));
        i = i + 1;
    }
    names
}

/// The names of the ratios of a configuration, or the refusal of one with
/// more top orders than orders in all.
pub fn repetition_output(num_top: usize, num_dup: usize) -> (r: Result<Vec<String>, ConfigError>)
    ensures
        r is Ok <==> num_top <= num_dup,
        r matches Ok(names) ==> names@.len() == num_dup && forall|i: int|
            0 <= i < names@.len() ==> (#[trigger] names@[i])@ == fieldname_spec(
                num_top,
                i as usize,
            ),
        r matches Err(e) ==> e == (ConfigError::TopExceedsDup { num_top, num_dup }),
{
    if num_top > num_dup {
        return Err(ConfigError::TopExceedsDup { num_top, num_dup });
    }
    Ok(ratio_names(num_top, num_dup))
}

/// Sets a repetition engine up and computes the ratios of a batch of rows.
/// A refused configuration fails before any row is read.
pub fn repetition_signals(
    rows: &Vec<Option<String>>,
    pattern: &str,
    num_top: usize,
    num_dup: usize,
) -> (r: Result<RepetitionColumns, ConfigError>)
    ensures
        r is Ok <==> num_top <= num_dup && pattern_compiles(pattern@),
        r matches Ok(out) ==> out.describes(pattern@, num_top as int, num_dup as int, rows@),
        r matches Err(e) ==> (if num_top > num_dup {
            e == (ConfigError::TopExceedsDup { num_top, num_dup })
        } else {
            e is InvalidPattern
        }),
{
    match RepetitionEngine::new(pattern, num_top, num_dup) {
        Ok(engine) => Ok(engine.signal_columns(rows)),
        Err(e) => Err(e),
    }
}

} // verus!
