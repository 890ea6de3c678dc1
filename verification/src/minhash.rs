//! Banded MinHash fingerprints.
//!
//! An engine derives, once, a family of affine hash functions modulo
//! `2^61 - 1` and the seed of a keyed shingle hash from a seeded
//! pseudorandom stream. For a document it slides a window over the tokens,
//! reduces each window to a value below the modulus, keeps for every hash
//! function the minimum over all windows, and encodes the minima, band by
//! band, as hexadecimal text.

use crate::encode::{
    be_bytes_of_u128s, be_bytes_of_u64s, be_bytes_u128s, be_bytes_u64s, hex_encode, hex_string,
    lemma_be_bytes_u128s_len, lemma_be_bytes_u64s_len,
};
use crate::error::ConfigError;
use crate::grams::{gram_bytes, GRAM_SEPARATOR};
use crate::mersenne::{affine61, affine_spec, mod61, MP};
use crate::pattern::{pattern_compiles, spans_in_order};
use crate::rng::{
    pending_words, rng_from_seed, rng_next_u64, rng_sample_uniform, seeded_words, uniform_pick,
    words_after,
};
use crate::tokens::{token_seq, tokens_of, BoundaryRule, Tokenizer};
use crate::xxh3::{
    hashed_bytes, hasher_digest64, hasher_seed, hasher_update, hasher_with_seed, hasher_write_u8,
    xxh3_128, xxh3_128_spec, xxh3_digest64,
};
use rand::rngs::StdRng;
use vstd::prelude::*;
use vstd::slice::slice_subrange;
use vstd::utf8::encode_utf8;
use xxhash_rust::xxh3::Xxh3;

verus! {

/// The coefficients drawn for `count` hash functions from a stream of
/// words, and the stream that is left: for each function first `a`,
/// uniform in `1..p`, then `b`, uniform in `0..p`.
pub open spec fn drawn_coefficients(words: Map<nat, u64>, count: nat) -> (
    Seq<u64>,
    Seq<u64>,
    Map<nat, u64>,
)
    decreases count,
{
    if count == 0 {
        (Seq::empty(), Seq::empty(), words)
    } else {
        let (a, b, rest) = drawn_coefficients(words, (count - 1) as nat);
        let (a_next, a_used) = uniform_pick(rest, 1, MP);
        let after_a = words_after(rest, a_used);
        let (b_next, b_used) = uniform_pick(after_a, 0, MP);
        (a.push(a_next), b.push(b_next), words_after(after_a, b_used))
    }
}

/// The seed of the keyed shingle hash: the word that follows the
/// coefficients in the stream.
pub open spec fn drawn_shingle_seed(words: Map<nat, u64>, count: nat) -> u64 {
    drawn_coefficients(words, count).2[0]
}

/// The value of the shingle of `window` tokens ending at `pos`: the keyed
/// hash of its bytes, reduced below the modulus.
pub open spec fn shingle_value(seed: u64, toks: Seq<Seq<u8>>, pos: int, window: int) -> u64 {
    (xxh3_digest64(seed, gram_bytes(toks, pos, window - 1)) % MP) as u64
}

/// The values of the shingles of a token sequence, in order: one for each
/// window of `window` tokens, none when there are fewer tokens.
pub open spec fn shingle_values(seed: u64, window: int, toks: Seq<Seq<u8>>) -> Seq<u64> {
    Seq::new(
        if toks.len() >= window {
            (toks.len() - window + 1) as nat
        } else {
            0
        },
        |i: int| shingle_value(seed, toks, i + window - 1, window),
    )
}

/// The lesser of two values.
pub open spec fn lesser(x: u64, y: u64) -> u64 {
    if y < x {
        y
    } else {
        x
    }
}

/// The minimum of the hash function `(a, b)` over shingle values, or
/// `u64::MAX` when there is none.
pub open spec fn least_hash(a: u64, b: u64, shingles: Seq<u64>) -> u64
    decreases shingles.len(),
{
    if shingles.len() == 0 {
        u64::MAX
    } else {
        lesser(
            least_hash(a, b, shingles.drop_last()),
            affine_spec(a as int, b as int, shingles.last() as int) as u64,
        )
    }
}

/// The MinHash signature of a sequence of shingle values: one minimum per
/// hash function.
pub open spec fn signature_of(a: Seq<u64>, b: Seq<u64>, shingles: Seq<u64>) -> Seq<u64> {
    Seq::new(a.len(), |j: int| least_hash(a[j], b[j], shingles))
}

/// A signature that has seen no shingle: `u64::MAX` for every hash
/// function.
pub fn empty_signature(hashes: usize) -> (sig: Vec<u64>)
    ensures
        sig@.len() == hashes,
        forall|j: int| 0 <= j < hashes ==> #[trigger] sig@[j] == u64::MAX,
{
    let mut sig: Vec<u64> = Vec::new();
    let mut j: usize = 0;
    while j < hashes
        invariant
            j <= hashes,
            sig@.len() == j,
            forall|i: int| 0 <= i < j ==> #[trigger] sig@[i] == u64::MAX,
        decreases hashes - j,
    {
        sig.push(u64::MAX);
        j = j + 1;
    }
    sig
}

/// Takes one shingle value into a signature: every minimum is lowered to
/// the hash of the value where that is less.
pub fn absorb_shingle(a: &[u64], b: &[u64], sig: &mut Vec<u64>, shingle: u64)
    requires
        a@.len() == old(sig)@.len(),
        b@.len() == old(sig)@.len(),
    ensures
        final(sig)@.len() == old(sig)@.len(),
        forall|j: int|
            0 <= j < old(sig)@.len() ==> #[trigger] final(sig)@[j] == lesser(
                old(sig)@[j],
                affine_spec(a@[j] as int, b@[j] as int, shingle as int) as u64,
            ),
{
    let hashes: usize = sig.len();
    let mut i: usize = 0;
    while i < hashes
        invariant
            i <= hashes,
            hashes == sig@.len(),
            hashes == old(sig)@.len(),
            a@.len() == hashes,
            b@.len() == hashes,
            forall|j: int|
                0 <= j < i ==> #[trigger] sig@[j] == lesser(
                    old(sig)@[j],
                    affine_spec(a@[j] as int, b@[j] as int, shingle as int) as u64,
                ),
            forall|j: int| i <= j < hashes ==> #[trigger] sig@[j] == old(sig)@[j],
        decreases hashes - i,
    {
        let here: u64 = affine61(a[i], b[i], shingle);
        if here < sig[i] {
            sig.set(i, here);
        }
        i = i + 1;
    }
}

/// The signature of a sequence of shingle values under the hash functions
/// `(a[j], b[j])`.
pub fn signature_from_shingles(a: &[u64], b: &[u64], shingles: &[u64]) -> (sig: Vec<u64>)
    requires
        a@.len() == b@.len(),
    ensures
        sig@ == signature_of(a@, b@, shingles@),
{
    let mut sig: Vec<u64> = empty_signature(a.len());
    let mut k: usize = 0;
    while k < shingles.len()
        invariant
            k <= shingles@.len(),
            a@.len() == b@.len(),
            sig@.len() == a@.len(),
            forall|j: int|
                0 <= j < a@.len() ==> #[trigger] sig@[j] == least_hash(
                    a@[j],
                    b@[j],
                    shingles@.take(k as int),
                ),
        decreases shingles@.len() - k,
    {
        proof {
            assert(shingles@.take(k + 1).drop_last() =~= shingles@.take(k as int));
        }
        absorb_shingle(a, b, &mut sig, shingles[k]);
        k = k + 1;
    }
    proof {
        assert(shingles@.take(k as int) =~= shingles@);
        assert(sig@ =~= signature_of(a@, b@, shingles@));
    }
    sig
}

/// The band values of a signature: each of `buckets` consecutive runs of
/// `bsize` minima, written big-endian and hashed to 128 bits.
pub open spec fn band_hashes(sig: Seq<u64>, buckets: int, bsize: int) -> Seq<u128> {
    Seq::new(
        buckets as nat,
        |i: int| xxh3_128_spec(be_bytes_u64s(sig.subrange(i * bsize, (i + 1) * bsize))),
    )
}

/// The bytes of a fingerprint: the raw minima when a band is a single
/// minimum, the band values otherwise.
pub open spec fn fingerprint_bytes(sig: Seq<u64>, buckets: int, bsize: int) -> Seq<u8> {
    if bsize > 1 {
        be_bytes_u128s(band_hashes(sig, buckets, bsize))
    } else {
        be_bytes_u64s(sig)
    }
}

/// A fingerprint holds 8 bytes per bucket when a band is a single minimum
/// and 16 bytes per bucket otherwise; its hexadecimal text is twice as
/// long.
pub proof fn lemma_fingerprint_length(sig: Seq<u64>, buckets: int, bsize: int)
    requires
        buckets >= 0,
        bsize >= 1,
        sig.len() == buckets * bsize,
    ensures
        bsize == 1 ==> fingerprint_bytes(sig, buckets, bsize).len() == buckets * 8,
        bsize > 1 ==> fingerprint_bytes(sig, buckets, bsize).len() == buckets * 16,
        hex_string(fingerprint_bytes(sig, buckets, bsize)).len() == 2 * fingerprint_bytes(
            sig,
            buckets,
            bsize,
        ).len(),
{
    lemma_be_bytes_u64s_len(sig);
    lemma_be_bytes_u128s_len(band_hashes(sig, buckets, bsize));
    if bsize == 1 {
        assert(buckets * 1 == buckets) by (nonlinear_arith);
    }
}

/// The fingerprint text of raw minima: their big-endian bytes in
/// hexadecimal, 16 digits per minimum.
pub fn fingerprint_of_minima(sig: &[u64]) -> (print: String)
    ensures
        print@ == hex_string(be_bytes_u64s(sig@)),
        print@.len() == 16 * sig@.len(),
{
    proof {
        lemma_be_bytes_u64s_len(sig@);
    }
    let bytes: Vec<u8> = be_bytes_of_u64s(sig);
    hex_encode(bytes.as_slice())
}

/// The fingerprint text of band values: their big-endian bytes in
/// hexadecimal, 32 digits per band.
pub fn fingerprint_of_bands(bands: &[u128]) -> (print: String)
    ensures
        print@ == hex_string(be_bytes_u128s(bands@)),
        print@.len() == 32 * bands@.len(),
{
    proof {
        lemma_be_bytes_u128s_len(bands@);
    }
    let bytes: Vec<u8> = be_bytes_of_u128s(bands);
    hex_encode(bytes.as_slice())
}

/// The hash functions of a MinHash engine and the shape of its bands.
pub struct MinHash {
    a: Vec<u64>,
    b: Vec<u64>,
    buckets: usize,
    bsize: usize,
    window: usize,
    shingle_seed: u64,
}

impl MinHash {
    #[verifier::type_invariant]
    spec fn valid(&self) -> bool {
        &&& self.buckets > 0
        &&& self.bsize > 0
        &&& self.window > 0
        &&& self.a@.len() == self.buckets * self.bsize
        &&& self.b@.len() == self.a@.len()
        &&& forall|j: int| 0 <= j < self.a@.len() ==> 1 <= #[trigger] self.a@[j] < MP
        &&& forall|j: int| 0 <= j < self.b@.len() ==> #[trigger] self.b@[j] < MP
    }

    /// The multipliers of the hash functions.
    pub closed spec fn multipliers(&self) -> Seq<u64> {
        self.a@
    }

    /// The offsets of the hash functions.
    pub closed spec fn offsets(&self) -> Seq<u64> {
        self.b@
    }

    /// The seed of the keyed shingle hash.
    pub closed spec fn shingle_seed(&self) -> u64 {
        self.shingle_seed
    }

    /// The number of bands.
    pub closed spec fn band_count(&self) -> usize {
        self.buckets
    }

    /// The number of hash functions per band.
    pub closed spec fn band_size(&self) -> usize {
        self.bsize
    }

    /// The number of tokens in a shingle.
    pub closed spec fn shingle_len(&self) -> usize {
        self.window
    }

    /// Every multiplier lies in `1..p` and every offset in `0..p`.
    pub open spec fn in_field(&self) -> bool {
        &&& forall|j: int|
            0 <= j < self.multipliers().len() ==> 1 <= #[trigger] self.multipliers()[j] < MP
        &&& forall|j: int| 0 <= j < self.offsets().len() ==> #[trigger] self.offsets()[j] < MP
    }

    /// This engine holds what the stream `words` gives for the shape asked
    /// for.
    pub open spec fn derived_from(
        &self,
        words: Map<nat, u64>,
        buckets: usize,
        bsize: usize,
        window: usize,
    ) -> bool {
        &&& self.band_count() == buckets
        &&& self.band_size() == bsize
        &&& self.shingle_len() == window
        &&& self.multipliers() == drawn_coefficients(words, (buckets * bsize) as nat).0
        &&& self.offsets() == drawn_coefficients(words, (buckets * bsize) as nat).1
        &&& self.shingle_seed() == drawn_shingle_seed(words, (buckets * bsize) as nat)
    }

    /// The signature this engine gives a token sequence.
    pub open spec fn signature(&self, toks: Seq<Seq<u8>>) -> Seq<u64> {
        signature_of(
            self.multipliers(),
            self.offsets(),
            shingle_values(self.shingle_seed(), self.shingle_len() as int, toks),
        )
    }

    /// The fingerprint text this engine gives a token sequence.
    pub open spec fn fingerprint(&self, toks: Seq<Seq<u8>>) -> Seq<char> {
        hex_string(
            fingerprint_bytes(
                self.signature(toks),
                self.band_count() as int,
                self.band_size() as int,
            ),
        )
    }

    /// Derives an engine from a generator: for each of `buckets * bsize`
    /// hash functions a multiplier in `1..p` and an offset in `0..p`, in
    /// that order, and then the seed of the shingle hash.
    ///
    /// A parameter that is zero is refused, and so is a number of hash
    /// functions that does not fit a `usize`; in both cases the generator is
    /// left as it was.
    pub fn from_rng(rng: &mut StdRng, buckets: usize, bsize: usize, window: usize) -> (r: Result<
        MinHash,
        ConfigError,
    >)
        ensures
            r is Ok <==> buckets > 0 && bsize > 0 && window > 0 && buckets * bsize <= usize::MAX,
            r matches Ok(m) ==> m.derived_from(pending_words(*old(rng)), buckets, bsize, window)
                && m.in_field() && pending_words(*final(rng)) == words_after(
                drawn_coefficients(pending_words(*old(rng)), (buckets * bsize) as nat).2,
                1,
            ),
            r matches Err(e) ==> pending_words(*final(rng)) == pending_words(*old(rng)) && e == (
            if buckets == 0 || bsize == 0 || window == 0 {
                ConfigError::NonPositiveParameter
            } else {
                ConfigError::TooManyHashes
            }),
    {
        if buckets == 0 || bsize == 0 || window == 0 {
            return Err(ConfigError::NonPositiveParameter);
        }
        let hashes: usize = match buckets.checked_mul(bsize) {
            Some(h) => h,
            None => {
                return Err(ConfigError::TooManyHashes);
            },
        };
        let ghost words = pending_words(*rng);
        let mut a: Vec<u64> = Vec::new();
        let mut b: Vec<u64> = Vec::new();
        let mut i: usize = 0;
        while i < hashes
            invariant
                i <= hashes,
                a@.len() == i,
                b@.len() == i,
                (a@, b@, pending_words(*rng)) == drawn_coefficients(words, i as nat),
                forall|j: int| 0 <= j < a@.len() ==> 1 <= #[trigger] a@[j] < MP,
                forall|j: int| 0 <= j < b@.len() ==> #[trigger] b@[j] < MP,
            decreases hashes - i,
        {
            let a_next: u64 = rng_sample_uniform(rng, 1, MP);
            let b_next: u64 = rng_sample_uniform(rng, 0, MP);
            a.push(a_next);
            b.push(b_next);
            i = i + 1;
        }
        let shingle_seed: u64 = rng_next_u64(rng);
        Ok(MinHash { a, b, buckets, bsize, window, shingle_seed })
    }

    /// Derives an engine from a 256-bit seed.
    pub fn from_seed(seed: [u8; 32], buckets: usize, bsize: usize, window: usize) -> (r: Result<
        MinHash,
        ConfigError,
    >)
        ensures
            r is Ok <==> buckets > 0 && bsize > 0 && window > 0 && buckets * bsize <= usize::MAX,
            r matches Ok(m) ==> m.derived_from(seeded_words(seed@), buckets, bsize, window)
                && m.in_field(),
            r matches Err(e) ==> e == (if buckets == 0 || bsize == 0 || window == 0 {
                ConfigError::NonPositiveParameter
            } else {
                ConfigError::TooManyHashes
            }),
    {
        let mut rng: StdRng = rng_from_seed(seed);
        MinHash::from_rng(&mut rng, buckets, bsize, window)
    }

    /// The number of hash functions: `buckets * bsize`.
    pub fn hashes(&self) -> (n: usize)
        ensures
            n == self.band_count() * self.band_size(),
            n == self.multipliers().len(),
            n == self.offsets().len(),
    {
        proof {
            use_type_invariant(self);
        }
        self.a.len()
    }
    /// The value of the shingle that ends at token `k`.
    fn shingle_at(&self, text: &[u8], spans: &Vec<(usize, usize)>, k: usize) -> (x: u64)
        requires
            spans_in_order(spans@, text@.len() as int),
            k < spans@.len(),
            self.shingle_len() <= k + 1,
        ensures
            x == shingle_value(
                self.shingle_seed(),
                token_seq(text@, spans@),
                k as int,
                self.shingle_len() as int,
            ),
            x < MP,
    {
        let ghost toks = token_seq(text@, spans@);
        let mut hasher: Xxh3 = hasher_with_seed(self.shingle_seed);
        let mut n: usize = 0;
        assert(hashed_bytes(hasher) =~= gram_bytes(toks, k as int, -1));
        while n < self.window
            invariant
                n <= self.window <= k + 1,
                k < spans@.len(),
                spans_in_order(spans@, text@.len() as int),
                toks == token_seq(text@, spans@),
                hasher_seed(hasher) == self.shingle_seed,
                hashed_bytes(hasher) == gram_bytes(toks, k as int, n - 1),
            decreases self.window - n,
        {
            let span: (usize, usize) = spans[k - n];
            proof {
                assert(spans@[k - n].0 <= spans@[k - n].1 <= text@.len());
                assert(toks[k - n] == text@.subrange(span.0 as int, span.1 as int));
            }
            hasher_update(&mut hasher, slice_subrange(text, span.0, span.1));
            hasher_write_u8(&mut hasher, GRAM_SEPARATOR);
            assert(hashed_bytes(hasher) =~= gram_bytes(toks, k as int, n as int));
            n = n + 1;
        }
        mod61(hasher_digest64(&hasher))
    }

    /// The MinHash signature of a document, given by its tokens as byte
    /// ranges of `text` in order. A document with fewer tokens than a
    /// shingle has the signature of all `u64::MAX`.
    pub fn mk_minhash(&self, text: &[u8], spans: &Vec<(usize, usize)>) -> (sig: Vec<u64>)
        requires
            spans_in_order(spans@, text@.len() as int),
        ensures
            sig@ == self.signature(token_seq(text@, spans@)),
            sig@.len() == self.band_count() * self.band_size(),
    {
        proof {
            use_type_invariant(self);
        }
        let ghost toks = token_seq(text@, spans@);
        let ghost shingles = shingle_values(self.shingle_seed, self.window as int, toks);
        let mut sig: Vec<u64> = empty_signature(self.a.len());
        let mut k: usize = self.window - 1;
        while k < spans.len()
            invariant
                self.window - 1 <= k,
                k <= spans@.len() || k == self.window - 1,
                self.window > 0,
                spans_in_order(spans@, text@.len() as int),
                toks == token_seq(text@, spans@),
                shingles == shingle_values(self.shingle_seed, self.window as int, toks),
                self.a@.len() == self.b@.len(),
                sig@.len() == self.a@.len(),
                forall|j: int|
                    0 <= j < self.a@.len() ==> #[trigger] sig@[j] == least_hash(
                        self.a@[j],
                        self.b@[j],
                        shingles.take(k - (self.window - 1)),
                    ),
            decreases spans@.len() - k,
        {
            let x: u64 = self.shingle_at(text, spans, k);
            proof {
                let i = k - (self.window - 1);
                assert(shingles[i] == x);
                assert(shingles.take(i + 1).drop_last() =~= shingles.take(i));
            }
            absorb_shingle(self.a.as_slice(), self.b.as_slice(), &mut sig, x);
            k = k + 1;
        }
        proof {
            if spans@.len() >= self.window {
                assert(shingles.take(k - (self.window - 1)) =~= shingles);
            } else {
                assert(shingles.take(k - (self.window - 1)) =~= shingles);
            }
            assert(sig@ =~= self.signature(toks));
        }
        sig
    }

    /// The band values of a document: each band of `bsize` minima, written
    /// big-endian, hashed to 128 bits.
    pub fn mk_buckets(&self, text: &[u8], spans: &Vec<(usize, usize)>) -> (bands: Vec<u128>)
        requires
            spans_in_order(spans@, text@.len() as int),
        ensures
            bands@ == band_hashes(
                self.signature(token_seq(text@, spans@)),
                self.band_count() as int,
                self.band_size() as int,
            ),
    {
        proof {
            use_type_invariant(self);
        }
        let sig: Vec<u64> = self.mk_minhash(text, spans);
        let mut bands: Vec<u128> = Vec::new();
        let mut i: usize = 0;
        let mut start: usize = 0;
        let bsize: usize = self.bsize;
        let buckets: usize = self.buckets;
        let hashes: usize = sig.len();
        while i < buckets
            invariant
                i <= buckets,
                bsize > 0,
                start == i * bsize,
                sig@.len() == hashes,
                hashes == buckets * bsize,
                bands@.len() == i,
                forall|t: int|
                    0 <= t < i ==> #[trigger] bands@[t] == xxh3_128_spec(
                        be_bytes_u64s(sig@.subrange(t * bsize, (t + 1) * bsize)),
                    ),
            decreases buckets - i,
        {
            proof {
                assert((i + 1) * bsize == i * bsize + bsize) by (nonlinear_arith);
                assert((i + 1) * bsize <= buckets * bsize) by (nonlinear_arith)
                    requires
                        i + 1 <= buckets,
                        bsize > 0,
                ;
            }
            let band: &[u64] = slice_subrange(sig.as_slice(), start, start + bsize);
            let bytes: Vec<u8> = be_bytes_of_u64s(band);
            bands.push(xxh3_128(bytes.as_slice()));
            start = start + bsize;
            i = i + 1;
        }
        proof {
            assert(bands@ =~= band_hashes(sig@, buckets as int, bsize as int));
        }
        bands
    }

    /// The fingerprint of a document as hexadecimal text: the band values
    /// when a band holds more than one minimum, the raw minima otherwise.
    pub fn apply_str(&self, text: &[u8], spans: &Vec<(usize, usize)>) -> (print: String)
        requires
            spans_in_order(spans@, text@.len() as int),
        ensures
            print@ == self.fingerprint(token_seq(text@, spans@)),
            self.band_size() == 1 ==> print@.len() == 2 * (self.band_count() * 8),
            self.band_size() > 1 ==> print@.len() == 2 * (self.band_count() * 16),
    {
        proof {
            use_type_invariant(self);
            lemma_fingerprint_length(
                self.signature(token_seq(text@, spans@)),
                self.buckets as int,
                self.bsize as int,
            );
        }
        if self.bsize > 1 {
            let bands: Vec<u128> = self.mk_buckets(text, spans);
            fingerprint_of_bands(bands.as_slice())
        } else {
            let sig: Vec<u64> = self.mk_minhash(text, spans);
            fingerprint_of_minima(sig.as_slice())
        }
    }
}

/// Engines derived from the same stream for the same shape give every
/// token sequence the same signature and the same fingerprint.
pub proof fn lemma_same_stream_same_fingerprint(
    m1: MinHash,
    m2: MinHash,
    words: Map<nat, u64>,
    buckets: usize,
    bsize: usize,
    window: usize,
    toks: Seq<Seq<u8>>,
)
    requires
        m1.derived_from(words, buckets, bsize, window),
        m2.derived_from(words, buckets, bsize, window),
    ensures
        m1.signature(toks) == m2.signature(toks),
        m1.fingerprint(toks) == m2.fingerprint(toks),
{
}

/// The tokens the MinHash engine reads in a text: the non-empty matches of
/// its pattern.
pub open spec fn minhash_tokens(pattern: Seq<char>, text: Seq<char>) -> Seq<Seq<u8>> {
    token_seq(encode_utf8(text), tokens_of(pattern, BoundaryRule::MatchesAsTokens, text))
}

/// The fingerprint of a text under a configuration: what
/// [`MinHashEngine::fingerprint`] returns.
pub open spec fn minhash_fingerprint(
    pattern: Seq<char>,
    seed: Seq<u8>,
    buckets: usize,
    bsize: usize,
    window: usize,
    text: Seq<char>,
) -> Seq<char> {
    let words = seeded_words(seed);
    let count = (buckets * bsize) as nat;
    let drawn = drawn_coefficients(words, count);
    let sig = signature_of(
        drawn.0,
        drawn.1,
        shingle_values(
            drawn_shingle_seed(words, count),
            window as int,
            minhash_tokens(pattern, text),
        ),
    );
    hex_string(fingerprint_bytes(sig, buckets as int, bsize as int))
}

/// A MinHash engine for texts: a token pattern, read as what the tokens
/// are, and the hash functions derived from a seed. It is made once and
/// only read afterwards.
pub struct MinHashEngine {
    tokenizer: Tokenizer,
    hasher: MinHash,
    seed: [u8; 32],
}

impl MinHashEngine {
    #[verifier::type_invariant]
    spec fn valid(&self) -> bool {
        &&& self.tokenizer.rule() == BoundaryRule::MatchesAsTokens
        &&& self.hasher.derived_from(
            seeded_words(self.seed@),
            self.hasher.band_count(),
            self.hasher.band_size(),
            self.hasher.shingle_len(),
        )
    }

    /// The pattern text of the token rule.
    pub closed spec fn pattern(&self) -> Seq<char> {
        self.tokenizer.pattern()
    }

    /// The seed the hash functions were derived from.
    pub closed spec fn seed(&self) -> Seq<u8> {
        self.seed@
    }

    /// The number of bands.
    pub closed spec fn buckets(&self) -> usize {
        self.hasher.band_count()
    }

    /// The number of hash functions per band.
    pub closed spec fn bsize(&self) -> usize {
        self.hasher.band_size()
    }

    /// The number of tokens in a shingle.
    pub closed spec fn window(&self) -> usize {
        self.hasher.shingle_len()
    }

    /// Sets an engine up. A pattern that does not compile is refused;
    /// otherwise a parameter that is zero is refused; otherwise a number of
    /// hash functions that does not fit a `usize` is refused; every other
    /// configuration gives an engine.
    pub fn new(pattern: &str, seed: [u8; 32], buckets: usize, bsize: usize, window: usize) -> (r:
        Result<MinHashEngine, ConfigError>)
        ensures
            r is Ok <==> pattern_compiles(pattern@) && buckets > 0 && bsize > 0 && window > 0
                && buckets * bsize <= usize::MAX,
            r matches Ok(e) ==> e.pattern() == pattern@ && e.seed() == seed@ && e.buckets()
                == buckets && e.bsize() == bsize && e.window() == window,
            r matches Err(e) ==> (if !pattern_compiles(pattern@) {
                e is InvalidPattern
            } else if buckets == 0 || bsize == 0 || window == 0 {
                e == ConfigError::NonPositiveParameter
            } else {
                e == ConfigError::TooManyHashes
            }),
    {
        let tokenizer = match Tokenizer::new(pattern, BoundaryRule::MatchesAsTokens) {
            Ok(t) => t,
            Err(e) => {
                return Err(e);
            },
        };
        match MinHash::from_seed(seed, buckets, bsize, window) {
            Ok(hasher) => Ok(MinHashEngine { tokenizer, hasher, seed }),
            Err(e) => Err(e),
        }
    }

    /// The rule by which this engine reads its pattern: always
    /// [`BoundaryRule::MatchesAsTokens`].
    pub fn boundary_rule(&self) -> (rule: BoundaryRule)
        ensures
            rule == BoundaryRule::MatchesAsTokens,
    {
        proof {
            use_type_invariant(self);
        }
        self.tokenizer.boundary_rule()
    }

    /// The fingerprint of a text, as hexadecimal text. Every text has one:
    /// a text with fewer tokens than a shingle has the fingerprint of the
    /// untouched minima.
    pub fn fingerprint(&self, text: &str) -> (print: String)
        ensures
            print@ == minhash_fingerprint(
                self.pattern(),
                self.seed(),
                self.buckets(),
                self.bsize(),
                self.window(),
                text@,
            ),
            self.bsize() == 1 ==> print@.len() == 2 * (self.buckets() * 8),
            self.bsize() > 1 ==> print@.len() == 2 * (self.buckets() * 16),
    {
        proof {
            use_type_invariant(self);
        }
        let spans = self.tokenizer.tokenize(text);
        self.hasher.apply_str(text.as_bytes(), &spans)
    }
}

/// The fingerprint of a row under a configuration: that of its text where
/// the row is present, none where it is absent.
pub open spec fn row_fingerprint(
    pattern: Seq<char>,
    seed: Seq<u8>,
    buckets: usize,
    bsize: usize,
    window: usize,
    row: Option<String>,
) -> Option<Seq<char>> {
    match row {
        Some(text) => Some(minhash_fingerprint(pattern, seed, buckets, bsize, window, text@)),
        None => None,
    }
}

/// The text of a fingerprint that may be absent.
pub open spec fn print_view(print: Option<String>) -> Option<Seq<char>> {
    match print {
        Some(p) => Some(p@),
        None => None,
    }
}

impl MinHashEngine {
    /// The fingerprints of a batch of rows: one per present row, none for
    /// an absent row.
    pub fn fingerprints(&self, rows: &Vec<Option<String>>) -> (prints: Vec<Option<String>>)
        ensures
            prints@.len() == rows@.len(),
            forall|r: int|
                0 <= r < rows@.len() ==> print_view(#[trigger] prints@[r]) == row_fingerprint(
                    self.pattern(),
                    self.seed(),
                    self.buckets(),
                    self.bsize(),
                    self.window(),
                    rows@[r],
                ),
    {
        let mut prints: Vec<Option<String>> = Vec::new();
        let mut r: usize = 0;
        while r < rows.len()
            invariant
                r <= rows@.len(),
                prints@.len() == r,
                forall|i: int|
                    0 <= i < r ==> print_view(#[trigger] prints@[i]) == row_fingerprint(
                        self.pattern(),
                        self.seed(),
                        self.buckets(),
                        self.bsize(),
                        self.window(),
                        rows@[i],
                    ),
            decreases rows@.len() - r,
        {
            let print: Option<String> = match &rows[r] {
                Some(text) => Some(self.fingerprint(text.as_str())),
                None => None,
            };
            prints.push(print);
            r = r + 1;
        }
        prints
    }
}

/// Sets a MinHash engine up and computes the fingerprints of a batch of
/// rows. A refused configuration fails before any row is read.
pub fn minhash(
    rows: &Vec<Option<String>>,
    pattern: &str,
    seed: [u8; 32],
    buckets: usize,
    bsize: usize,
    window: usize,
) -> (r: Result<Vec<Option<String>>, ConfigError>)
    ensures
        r is Ok <==> pattern_compiles(pattern@) && buckets > 0 && bsize > 0 && window > 0 && buckets
            * bsize <= usize::MAX,
        r matches Ok(prints) ==> prints@.len() == rows@.len() && forall|i: int|
            0 <= i < rows@.len() ==> print_view(#[trigger] prints@[i]) == row_fingerprint(
                pattern@,
                seed@,
                buckets,
                bsize,
                window,
                rows@[i],
            ),
        r matches Err(e) ==> (if !pattern_compiles(pattern@) {
            e is InvalidPattern
        } else if buckets == 0 || bsize == 0 || window == 0 {
            e == ConfigError::NonPositiveParameter
        } else {
            e == ConfigError::TooManyHashes
        }),
{
    match MinHashEngine::new(pattern, seed, buckets, bsize, window) {
        Ok(engine) => Ok(engine.fingerprints(rows)),
        Err(e) => Err(e),
    }
}

/// Two engines with the same configuration give every text the same
/// fingerprint: what [`MinHashEngine::fingerprint`] returns depends on the
/// pattern, the seed, the shape and the text only.
pub proof fn lemma_fingerprint_deterministic(e1: MinHashEngine, e2: MinHashEngine, text: Seq<char>)
    requires
        e1.pattern() == e2.pattern(),
        e1.seed() == e2.seed(),
        e1.buckets() == e2.buckets(),
        e1.bsize() == e2.bsize(),
        e1.window() == e2.window(),
    ensures
        minhash_fingerprint(
            e1.pattern(),
            e1.seed(),
            e1.buckets(),
            e1.bsize(),
            e1.window(),
            text,
        ) == minhash_fingerprint(
            e2.pattern(),
            e2.seed(),
            e2.buckets(),
            e2.bsize(),
            e2.window(),
            text,
        ),
{
}

/// The fingerprint of any text under a valid configuration holds 8 bytes
/// per bucket when a band is a single minimum and 16 bytes per bucket
/// otherwise; the text is twice as long.
pub proof fn lemma_minhash_fingerprint_length(
    pattern: Seq<char>,
    seed: Seq<u8>,
    buckets: usize,
    bsize: usize,
    window: usize,
    text: Seq<char>,
)
    requires
        bsize >= 1,
    ensures
        minhash_fingerprint(pattern, seed, buckets, bsize, window, text).len() == 2 * (buckets * (
        if bsize == 1 {
            8int
        } else {
            16int
        })),
{
    let words = seeded_words(seed);
    let count = (buckets * bsize) as nat;
    lemma_drawn_lengths(words, count);
    let drawn = drawn_coefficients(words, count);
    let sig = signature_of(
        drawn.0,
        drawn.1,
        shingle_values(
            drawn_shingle_seed(words, count),
            window as int,
            minhash_tokens(pattern, text),
        ),
    );
    assert(buckets * bsize >= 0) by (nonlinear_arith)
        requires
            buckets >= 0,
            bsize >= 0,
    ;
    lemma_fingerprint_length(sig, buckets as int, bsize as int);
}

/// As many multipliers and offsets are drawn as hash functions are asked
/// for.
pub proof fn lemma_drawn_lengths(words: Map<nat, u64>, count: nat)
    ensures
        drawn_coefficients(words, count).0.len() == count,
        drawn_coefficients(words, count).1.len() == count,
    decreases count,
{
    if count > 0 {
        lemma_drawn_lengths(words, (count - 1) as nat);
    }
}

/// Seeing one more shingle never raises a minimum.
pub proof fn lemma_least_hash_monotone(a: u64, b: u64, shingles: Seq<u64>, more: u64)
    ensures
        least_hash(a, b, shingles.push(more)) <= least_hash(a, b, shingles),
{
    assert(shingles.push(more).drop_last() =~= shingles);
}

/// A minimum is the least hash of the shingles seen: no shingle hashes
/// below it, and it is the hash of one of them unless none was seen, in
/// which case it is `u64::MAX`.
pub proof fn lemma_least_hash_is_least(a: u64, b: u64, shingles: Seq<u64>)
    ensures
        forall|i: int|
            0 <= i < shingles.len() ==> least_hash(a, b, shingles) <= affine_spec(
                a as int,
                b as int,
                #[trigger] shingles[i] as int,
            ),
        shingles.len() == 0 ==> least_hash(a, b, shingles) == u64::MAX,
        shingles.len() > 0 ==> exists|i: int|
            0 <= i < shingles.len() && least_hash(a, b, shingles) == affine_spec(
                a as int,
                b as int,
                #[trigger] shingles[i] as int,
            ),
    decreases shingles.len(),
{
    if shingles.len() > 0 {
        let rest = shingles.drop_last();
        lemma_least_hash_is_least(a, b, rest);
        let here = affine_spec(a as int, b as int, shingles.last() as int);
        assert(0 <= here < MP);
        assert forall|i: int| 0 <= i < shingles.len() implies least_hash(a, b, shingles)
            <= affine_spec(a as int, b as int, #[trigger] shingles[i] as int) by {
            if i < rest.len() {
                assert(rest[i] == shingles[i]);
            }
        }
        if rest.len() > 0 && !(here < least_hash(a, b, rest)) {
            let i = choose|i: int|
                0 <= i < rest.len() && least_hash(a, b, rest) == affine_spec(
                    a as int,
                    b as int,
                    #[trigger] rest[i] as int,
                );
            assert(shingles[i] == rest[i]);
        } else {
            assert(shingles[shingles.len() - 1] == shingles.last());
        }
    }
}

/// The minimum over two runs of shingles is the lesser of the two minima:
/// shingles that hash no lower than a minimum leave it alone.
pub proof fn lemma_least_hash_concat(a: u64, b: u64, first: Seq<u64>, second: Seq<u64>)
    ensures
        least_hash(a, b, first + second) == lesser(
            least_hash(a, b, first),
            least_hash(a, b, second),
        ),
    decreases second.len(),
{
    if second.len() == 0 {
        assert(first + second =~= first);
    } else {
        assert((first + second).drop_last() =~= first + second.drop_last());
        lemma_least_hash_concat(a, b, first, second.drop_last());
    }
}

/// A minimum depends on which shingle values occur, not on their order or
/// number.
pub proof fn lemma_least_hash_same_values(a: u64, b: u64, s1: Seq<u64>, s2: Seq<u64>)
    requires
        forall|x: u64| s1.contains(x) <==> s2.contains(x),
    ensures
        least_hash(a, b, s1) == least_hash(a, b, s2),
{
    lemma_least_hash_is_least(a, b, s1);
    lemma_least_hash_is_least(a, b, s2);
    if s1.len() > 0 {
        assert(s1.contains(s1[0]));
        let i = choose|i: int|
            0 <= i < s1.len() && least_hash(a, b, s1) == affine_spec(
                a as int,
                b as int,
                #[trigger] s1[i] as int,
            );
        assert(s1.contains(s1[i]));
        let j = choose|j: int| 0 <= j < s2.len() && s2[j] == s1[i];
        assert(least_hash(a, b, s2) <= affine_spec(a as int, b as int, s2[j] as int));
        let k = choose|k: int|
            0 <= k < s2.len() && least_hash(a, b, s2) == affine_spec(
                a as int,
                b as int,
                #[trigger] s2[k] as int,
            );
        assert(s2.contains(s2[k]));
        let m = choose|m: int| 0 <= m < s1.len() && s1[m] == s2[k];
        assert(least_hash(a, b, s1) <= affine_spec(a as int, b as int, s1[m] as int));
    } else if s2.len() > 0 {
        assert(s2.contains(s2[0]));
    }
}

} // verus!
