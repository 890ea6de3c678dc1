use std::collections::VecDeque;
use std::hash::{BuildHasher, Hasher};

use rand::distr::uniform::Uniform;
use rand::rngs::StdRng;
use rand::{Rng, RngCore, SeedableRng};
use regex::Regex;
use text_signals::error::ConfigError;
use text_signals::mersenne::{affine61, mod61, MP};
use text_signals::minhash::{
    absorb_shingle, empty_signature, fingerprint_of_bands, fingerprint_of_minima,
    signature_from_shingles, MinHash, MinHashEngine,
};
use text_signals::tokens::BoundaryRule;
use xxhash_rust::xxh3::{xxh3_128, Xxh3Builder};

const SEED: [u8; 32] = [
    1, 2, 3, 4, 5, 6, 7, 8, 9, 10, 11, 12, 13, 14, 15, 16, 17, 18, 19, 20, 21, 22, 23, 24, 25, 26,
    27, 28, 29, 30, 31, 32,
];

struct DequeMinHash {
    a: Vec<u64>,
    b: Vec<u64>,
    bsize: usize,
    window: usize,
    builder: Xxh3Builder,
}

impl DequeMinHash {
    fn new(seed: [u8; 32], buckets: usize, bsize: usize, window: usize) -> DequeMinHash {
        let mut rng = StdRng::from_seed(seed);
        let hashes = buckets * bsize;
        let mut a = Vec::new();
        let mut b = Vec::new();
        let a_dist: Uniform<u64> = Uniform::new(1, MP).unwrap();
        let b_dist: Uniform<u64> = Uniform::new(0, MP).unwrap();
        for _ in 0..hashes {
            a.push(rng.sample(a_dist));
            b.push(rng.sample(b_dist));
        }
        let builder = Xxh3Builder::new().with_seed(rng.next_u64());
        DequeMinHash { a, b, bsize, window, builder }
    }

    fn minima(&self, tokens: &[&str]) -> Vec<u64> {
        let mut window: VecDeque<&str> = VecDeque::new();
        let mut minhash = vec![u64::MAX; self.a.len()];
        for w in tokens {
            window.push_front(w);
            window.truncate(self.window);
            if window.len() == self.window {
                let mut hasher = self.builder.build_hasher();
                for v in &window {
                    hasher.update(v.as_bytes());
                    hasher.write_u8(0xff);
                }
                let shingle = hasher.digest() % MP;
                for k in 0..minhash.len() {
                    let y = (self.a[k] as u128) * (shingle as u128) + (self.b[k] as u128);
                    let h = (y % (MP as u128)) as u64;
                    minhash[k] = std::cmp::min(minhash[k], h);
                }
            }
        }
        minhash
    }

    fn fingerprint(&self, tokens: &[&str]) -> String {
        let minima = self.minima(tokens);
        if self.bsize > 1 {
            let mut bytes: Vec<u8> = Vec::new();
            for band in minima.chunks(self.bsize) {
                let mut band_bytes: Vec<u8> = Vec::new();
                for m in band {
                    band_bytes.extend_from_slice(&m.to_be_bytes());
                }
                bytes.extend_from_slice(&xxh3_128(&band_bytes).to_be_bytes());
            }
            hex::encode(bytes)
        } else {
            let mut bytes: Vec<u8> = Vec::new();
            for m in &minima {
                bytes.extend_from_slice(&m.to_be_bytes());
            }
            hex::encode(bytes)
        }
    }
}

fn word_tokens(text: &str) -> Vec<&str> {
    let re = Regex::new(r"\w+").unwrap();
    re.find_iter(text).map(|m| m.as_str()).collect()
}

fn word_spans(text: &str) -> Vec<(usize, usize)> {
    let re = Regex::new(r"\w+").unwrap();
    re.find_iter(text).map(|m| (m.start(), m.end())).collect()
}

fn engine(buckets: usize, bsize: usize, window: usize) -> MinHashEngine {
    MinHashEngine::new(r"\w+", SEED, buckets, bsize, window).unwrap()
}

fn same_as_deque_minhash(text: &str, buckets: usize, bsize: usize, window: usize) {
    let got = engine(buckets, bsize, window).fingerprint(text);
    let want = DequeMinHash::new(SEED, buckets, bsize, window).fingerprint(&word_tokens(text));
    assert_eq!(got, want);
}

#[test]
fn single_hash_over_single_tokens_is_a_plain_minimum() {
    let text = "a b c";
    let print = engine(1, 1, 1).fingerprint(text);
    assert_eq!(print.len(), 16);

    let mut rng = StdRng::from_seed(SEED);
    let a: u64 = rng.sample(Uniform::new(1, MP).unwrap());
    let b: u64 = rng.sample(Uniform::new(0, MP).unwrap());
    let builder = Xxh3Builder::new().with_seed(rng.next_u64());
    let mut least = u64::MAX;
    for tok in ["a", "b", "c"] {
        let mut hasher = builder.build_hasher();
        hasher.update(tok.as_bytes());
        hasher.write_u8(0xff);
        least = std::cmp::min(least, affine61(a, b, mod61(hasher.digest())));
    }
    assert_eq!(print, hex::encode(least.to_be_bytes()));
}

#[test]
fn fingerprints_match_the_deque_formulation() {
    let text = "the quick brown fox jumps over the lazy dog and the quick brown cat";
    same_as_deque_minhash(text, 1, 1, 1);
    same_as_deque_minhash(text, 4, 1, 2);
    same_as_deque_minhash(text, 3, 2, 3);
    same_as_deque_minhash(text, 8, 4, 5);
    same_as_deque_minhash("", 2, 3, 1);
    same_as_deque_minhash("only two", 2, 2, 3);
    same_as_deque_minhash("été hiver printemps été hiver", 2, 2, 2);
}

#[test]
fn fingerprint_length_is_eight_bytes_per_bucket_for_single_hash_bands() {
    for buckets in [1usize, 2, 5, 16] {
        let print = engine(buckets, 1, 2).fingerprint("one two three four");
        assert_eq!(print.len(), 2 * buckets * 8);
    }
}

#[test]
fn fingerprint_length_is_sixteen_bytes_per_bucket_for_wider_bands() {
    for (buckets, bsize) in [(1usize, 2usize), (3, 2), (4, 7), (10, 3)] {
        let print = engine(buckets, bsize, 2).fingerprint("one two three four");
        assert_eq!(print.len(), 2 * buckets * 16);
    }
}

#[test]
fn fingerprint_is_lowercase_hex() {
    let print = engine(4, 3, 2).fingerprint("alpha beta gamma delta");
    assert!(print.chars().all(|c| c.is_ascii_digit() || ('a'..='f').contains(&c)));
}

#[test]
fn too_few_tokens_gives_the_untouched_minima() {
    let print = engine(2, 1, 3).fingerprint("only two");
    assert_eq!(print, "ffffffffffffffffffffffffffffffff");
    let empty = engine(2, 1, 3).fingerprint("");
    assert_eq!(empty, print);
}

#[test]
fn too_few_tokens_with_bands_gives_the_hash_of_the_untouched_band() {
    let print = engine(2, 2, 3).fingerprint("only two");
    let band = xxh3_128(&[0xffu8; 16]);
    let mut bytes: Vec<u8> = Vec::new();
    bytes.extend_from_slice(&band.to_be_bytes());
    bytes.extend_from_slice(&band.to_be_bytes());
    assert_eq!(print, hex::encode(bytes));
}

#[test]
fn same_seed_and_text_give_the_same_fingerprint() {
    let text = "reproducible across runs and across engines";
    let a = engine(6, 3, 2);
    let b = engine(6, 3, 2);
    assert_eq!(a.fingerprint(text), a.fingerprint(text));
    assert_eq!(a.fingerprint(text), b.fingerprint(text));
}

#[test]
fn another_seed_gives_another_fingerprint() {
    let text = "reproducible across runs and across engines";
    let mut other = SEED;
    other[0] = 99;
    let a = engine(6, 3, 2);
    let b = MinHashEngine::new(r"\w+", other, 6, 3, 2).unwrap();
    assert_ne!(a.fingerprint(text), b.fingerprint(text));
}

#[test]
fn inserted_filler_leaves_unaffected_minima_alone() {
    let base = "a1 a2 a3 a4 a5 a6 a7 a8 a9 a10 a11 a12 a13 a14 a15 a16";
    let with_filler = "a1 a2 a3 a4 a5 a6 a7 a8 a9 a10 a11 a12 a13 a14 a15 a16 filler";
    let window = 2;
    let hasher = MinHash::from_seed(SEED, 16, 1, window).unwrap();
    let plain = hasher.mk_minhash(base.as_bytes(), &word_spans(base));
    let more = hasher.mk_minhash(with_filler.as_bytes(), &word_spans(with_filler));
    // The longer text has every shingle of the shorter one and one more, so
    // no minimum grows, and a minimum changes only where the new shingle
    // undercuts it.
    let direct = DequeMinHash::new(SEED, 16, 1, window);
    let extra = direct.minima(&["a16", "filler"]);
    let mut unchanged = 0;
    for k in 0..16 {
        assert!(more[k] <= plain[k]);
        if extra[k] >= plain[k] {
            assert_eq!(more[k], plain[k]);
            unchanged += 1;
        } else {
            assert_eq!(more[k], extra[k]);
        }
    }
    assert!(unchanged > 0);
}

#[test]
fn signature_depends_on_the_shingles_not_their_order() {
    let hasher = MinHash::from_seed(SEED, 8, 1, 1).unwrap();
    let one = "x y z";
    let two = "z x y x";
    assert_eq!(
        hasher.mk_minhash(one.as_bytes(), &word_spans(one)),
        hasher.mk_minhash(two.as_bytes(), &word_spans(two))
    );
}

#[test]
fn minima_stay_below_the_modulus() {
    let hasher = MinHash::from_seed(SEED, 4, 4, 2).unwrap();
    assert_eq!(hasher.hashes(), 16);
    let text = "one two three four five";
    for m in hasher.mk_minhash(text.as_bytes(), &word_spans(text)) {
        assert!(m < MP);
    }
}

#[test]
fn band_values_are_hashes_of_big_endian_minima() {
    let hasher = MinHash::from_seed(SEED, 3, 2, 2).unwrap();
    let text = "one two three four five";
    let spans = word_spans(text);
    let minima = hasher.mk_minhash(text.as_bytes(), &spans);
    let bands = hasher.mk_buckets(text.as_bytes(), &spans);
    assert_eq!(bands.len(), 3);
    for i in 0..3 {
        let mut bytes: Vec<u8> = Vec::new();
        bytes.extend_from_slice(&minima[2 * i].to_be_bytes());
        bytes.extend_from_slice(&minima[2 * i + 1].to_be_bytes());
        assert_eq!(bands[i], xxh3_128(&bytes));
    }
    let mut all: Vec<u8> = Vec::new();
    for band in &bands {
        all.extend_from_slice(&band.to_be_bytes());
    }
    assert_eq!(hasher.apply_str(text.as_bytes(), &spans), hex::encode(all));
}

#[test]
fn from_rng_draws_in_the_documented_order_and_moves_the_generator() {
    let mut rng = StdRng::from_seed(SEED);
    let first = MinHash::from_rng(&mut rng, 2, 2, 1).unwrap();
    let mut again = StdRng::from_seed(SEED);
    for _ in 0..4 {
        let _: u64 = again.sample(Uniform::new(1, MP).unwrap());
        let _: u64 = again.sample(Uniform::new(0, MP).unwrap());
    }
    let _ = again.next_u64();
    assert_eq!(rng.next_u64(), again.next_u64());
    let seeded = MinHash::from_seed(SEED, 2, 2, 1).unwrap();
    let text = "p q r";
    let spans = word_spans(text);
    assert_eq!(
        first.apply_str(text.as_bytes(), &spans),
        seeded.apply_str(text.as_bytes(), &spans)
    );
}

#[test]
fn refused_parameters_leave_the_generator_alone() {
    let mut rng = StdRng::from_seed(SEED);
    assert!(matches!(
        MinHash::from_rng(&mut rng, 0, 2, 1),
        Err(ConfigError::NonPositiveParameter)
    ));
    let mut fresh = StdRng::from_seed(SEED);
    assert_eq!(rng.next_u64(), fresh.next_u64());
}

#[test]
fn zero_parameters_are_refused() {
    assert!(matches!(
        MinHashEngine::new(r"\w+", SEED, 0, 1, 1),
        Err(ConfigError::NonPositiveParameter)
    ));
    assert!(matches!(
        MinHashEngine::new(r"\w+", SEED, 1, 0, 1),
        Err(ConfigError::NonPositiveParameter)
    ));
    assert!(matches!(
        MinHashEngine::new(r"\w+", SEED, 1, 1, 0),
        Err(ConfigError::NonPositiveParameter)
    ));
}

#[test]
fn uncountable_hash_family_is_refused() {
    assert!(matches!(
        MinHash::from_seed(SEED, usize::MAX, 2, 1),
        Err(ConfigError::TooManyHashes)
    ));
}

#[test]
fn invalid_token_pattern_is_refused_first() {
    assert!(matches!(
        MinHashEngine::new("[", SEED, 0, 0, 0),
        Err(ConfigError::InvalidPattern { .. })
    ));
}

#[test]
fn minhash_engine_reads_matches_as_tokens() {
    assert_eq!(engine(1, 1, 1).boundary_rule(), BoundaryRule::MatchesAsTokens);
    // Text between the matches does not matter.
    let e = engine(4, 2, 2);
    assert_eq!(e.fingerprint("one two three"), e.fingerprint("one, two; three!"));
}

#[test]
fn absorb_shingle_lowers_each_minimum() {
    let a = [1u64, 2, 3];
    let b = [0u64, 5, 7];
    let mut sig = empty_signature(3);
    assert_eq!(sig, vec![u64::MAX; 3]);
    absorb_shingle(&a, &b, &mut sig, 10);
    assert_eq!(sig, vec![10, 25, 37]);
    absorb_shingle(&a, &b, &mut sig, 4);
    assert_eq!(sig, vec![4, 13, 19]);
    absorb_shingle(&a, &b, &mut sig, 6);
    assert_eq!(sig, vec![4, 13, 19]);
}

#[test]
fn signature_from_shingles_is_the_minimum_per_function() {
    let a = [3u64, MP - 1];
    let b = [4u64, 0];
    // (MP - 1) * x mod MP is MP - x for x in 1..MP.
    assert_eq!(signature_from_shingles(&a, &b, &[5, 2, 9]), vec![10, MP - 9]);
    assert_eq!(signature_from_shingles(&a, &b, &[]), vec![u64::MAX, u64::MAX]);
    assert!(signature_from_shingles(&[], &[], &[1, 2, 3]).is_empty());
}

#[test]
fn fingerprint_text_of_values() {
    assert_eq!(fingerprint_of_minima(&[1, 0xabcdef]), "00000000000000010000000000abcdef");
    assert_eq!(fingerprint_of_minima(&[]), "");
    assert_eq!(
        fingerprint_of_bands(&[0x0123456789abcdef_fedcba9876543210]),
        "0123456789abcdeffedcba9876543210"
    );
}
