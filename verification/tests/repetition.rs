use std::collections::{HashMap, HashSet, VecDeque};
use std::hash::{BuildHasher, Hasher};

use text_signals::error::ConfigError;
use text_signals::counting::{RepetitionCounts, RepetitionState};
use text_signals::repetition::{dup_ngrams_hash, gram_hashes, RepetitionEngine};
use text_signals::tokens::BoundaryRule;
use xxhash_rust::xxh3::Xxh3Builder;

/// The deque formulation of the same pass, with one table and one set
/// shared by all orders.
fn deque_counts(tokens: &[&str], num_top: usize, num_dup: usize) -> (Vec<usize>, usize) {
    let builder = Xxh3Builder::new().with_seed(0x5eed);
    let mut seen: HashSet<u128> = HashSet::new();
    let mut counts: HashMap<u128, usize> = HashMap::new();
    let mut sbuf: VecDeque<&str> = VecDeque::new();
    let mut lbuf: VecDeque<usize> = VecDeque::new();
    let mut last = vec![0usize; num_dup];
    let mut dups = vec![0usize; num_dup];
    let mut tot = 0usize;
    for (pos, v) in tokens.iter().enumerate() {
        let vlen = v.chars().count();
        lbuf.push_front(0);
        sbuf.push_front(v);
        lbuf.truncate(num_dup);
        sbuf.truncate(num_dup);
        tot += vlen;
        let mut hasher = builder.build_hasher();
        for n in 0..sbuf.len() {
            lbuf[n] += vlen;
            hasher.update(sbuf[n].as_bytes());
            hasher.write_u8(0xff);
            let ngram = hasher.digest128();
            if n < num_top {
                let c = counts.entry(ngram).or_insert(0);
                *c += lbuf[n];
                dups[n] = std::cmp::max(dups[n], *c);
            } else if !seen.insert(ngram) {
                let unaccounted = std::cmp::min(n, pos - last[n] - 1);
                dups[n] += lbuf[unaccounted];
                last[n] = pos;
            }
        }
    }
    (dups, tot)
}

fn ratio(num: u128, den: usize) -> f32 {
    ((num as f64) / (den as f64)) as f32
}

fn ratios(counts: &RepetitionCounts) -> Vec<f32> {
    let den = counts.denominator();
    counts.covered.iter().map(|c| ratio(*c, den)).collect()
}

fn whitespace_engine(num_top: usize, num_dup: usize) -> RepetitionEngine {
    RepetitionEngine::new(r"\s+", num_top, num_dup).unwrap()
}

fn agrees_with_deque_counts(text: &str, num_top: usize, num_dup: usize) {
    let engine = whitespace_engine(num_top, num_dup);
    let got = engine.signals(text);
    let tokens: Vec<&str> = text.split_whitespace().collect();
    let (want, total) = deque_counts(&tokens, num_top, num_dup);
    assert_eq!(got.total, total);
    let want: Vec<u128> = want.into_iter().map(|c| c as u128).collect();
    assert_eq!(got.covered, want);
}

#[test]
fn cat_sat_example_top_unigram_and_duplicate_bigram() {
    let engine = whitespace_engine(1, 2);
    let counts = engine.signals("the cat sat on the mat the cat sat");
    // 26 characters in nine tokens; "the" occurs three times.
    assert_eq!(counts.total, 26);
    let r = ratios(&counts);
    assert_eq!(counts.covered[0], 3 * 3);
    assert_eq!(r[0], (9.0f64 / 26.0f64) as f32);
    // "the cat" repeats at position 7 and adds its 6 characters; "cat sat"
    // repeats at position 8 and overlaps it in "cat", so it adds only the
    // 3 characters of "sat".
    assert_eq!(counts.covered[1], 6 + 3);
    assert_eq!(r[1], (9.0f64 / 26.0f64) as f32);
}

#[test]
fn overlapping_duplicates_are_not_counted_twice() {
    // Bigrams only: "a a" repeats at positions 2, 3, 4.
    let engine = whitespace_engine(0, 2);
    let counts = engine.signals("a a a a a");
    assert_eq!(counts.total, 5);
    // order 0: every "a" after the first is a repeat of one character.
    // order 1: the first repeat adds both tokens, each later one its last.
    assert_eq!(counts.covered, vec![4u128, 4u128]);
}

#[test]
fn top_bigram_counts_every_occurrence_in_full() {
    let engine = whitespace_engine(2, 2);
    let counts = engine.signals("a a a a");
    assert_eq!(counts.total, 4);
    assert_eq!(counts.covered, vec![4u128, 6u128]);
}

#[test]
fn empty_text_has_zero_ratios_in_a_valid_signal() {
    let engine = whitespace_engine(2, 5);
    let counts = engine.signals("");
    assert_eq!(counts.total, 0);
    assert_eq!(counts.denominator(), 1);
    assert_eq!(counts.covered, vec![0u128; 5]);
    assert_eq!(ratios(&counts), vec![0.0f32; 5]);
}

#[test]
fn boundary_only_text_has_no_tokens() {
    let engine = whitespace_engine(1, 3);
    let counts = engine.signals(" \t\n  ");
    assert_eq!(counts.total, 0);
    assert_eq!(counts.covered, vec![0u128; 3]);
}

#[test]
fn leading_and_trailing_boundaries_make_no_empty_tokens() {
    let engine = whitespace_engine(1, 2);
    let padded = engine.signals("  x y x y  ");
    let plain = engine.signals("x y x y");
    assert_eq!(padded.total, plain.total);
    assert_eq!(padded.covered, plain.covered);
}

#[test]
fn fewer_tokens_than_the_order_gives_zero_for_that_order() {
    let engine = whitespace_engine(2, 6);
    let counts = engine.signals("one two");
    assert_eq!(counts.total, 6);
    assert_eq!(counts.covered, vec![3u128, 6u128, 0, 0, 0, 0]);
}

#[test]
fn characters_are_counted_not_bytes() {
    let engine = whitespace_engine(1, 1);
    let counts = engine.signals("αβγ δ αβγ");
    assert_eq!(counts.total, 7);
    assert_eq!(counts.covered, vec![6u128]);
}

#[test]
fn no_orders_gives_an_empty_signal() {
    let engine = whitespace_engine(0, 0);
    let counts = engine.signals("a b c");
    assert_eq!(counts.total, 3);
    assert!(counts.covered.is_empty());
}

#[test]
fn matches_the_deque_formulation_on_longer_texts() {
    agrees_with_deque_counts("the cat sat on the mat the cat sat", 1, 2);
    agrees_with_deque_counts("the cat sat on the mat the cat sat", 4, 10);
    agrees_with_deque_counts("a b a b a b a b c a b a b", 2, 5);
    agrees_with_deque_counts("x x x x x x x x x x x x x x x x", 3, 7);
    agrees_with_deque_counts(
        "to be or not to be that is the question to be or not to be that is not",
        4,
        10,
    );
    agrees_with_deque_counts("un deux trois un deux trois quatre un deux", 0, 4);
    agrees_with_deque_counts("été été hiver été été hiver", 1, 3);
}

#[test]
fn duplicate_ratios_never_exceed_one() {
    for text in ["a a a a a a a a", "ab ab ab ab cd ab ab", "q w e r t y q w e r t y q w e"] {
        let engine = whitespace_engine(1, 6);
        let counts = engine.signals(text);
        assert!(counts.covered[0] <= counts.total as u128);
        for n in 1..6 {
            assert!(counts.covered[n] <= counts.total as u128);
            assert!(ratio(counts.covered[n], counts.denominator()) <= 1.0);
        }
    }
}

#[test]
fn repeated_runs_and_fresh_engines_agree() {
    let text = "one two one two three one two";
    let a = whitespace_engine(2, 4);
    let b = whitespace_engine(2, 4);
    let first = a.signals(text);
    let second = a.signals(text);
    let other = b.signals(text);
    assert_eq!(first.covered, second.covered);
    assert_eq!(first.total, second.total);
    assert_eq!(first.covered, other.covered);
    assert_eq!(first.total, other.total);
}

#[test]
fn more_top_orders_than_orders_is_refused() {
    match RepetitionEngine::new(r"\s+", 3, 2) {
        Err(ConfigError::TopExceedsDup { num_top, num_dup }) => {
            assert_eq!(num_top, 3);
            assert_eq!(num_dup, 2);
        }
        _ => panic!("expected a refusal"),
    }
    // The order check comes first, whatever the pattern.
    assert!(matches!(
        RepetitionEngine::new("(", 3, 2),
        Err(ConfigError::TopExceedsDup { .. })
    ));
}

#[test]
fn invalid_pattern_is_refused() {
    assert!(matches!(
        RepetitionEngine::new("(unclosed", 1, 2),
        Err(ConfigError::InvalidPattern { .. })
    ));
}

#[test]
fn equal_top_and_dup_is_accepted() {
    let engine = RepetitionEngine::new(r"\s+", 3, 3).unwrap();
    assert_eq!(engine.num_top(), 3);
    assert_eq!(engine.num_dup(), 3);
    assert_eq!(engine.boundary_rule(), BoundaryRule::SplitOnMatches);
}

#[test]
fn field_names_follow_the_orders() {
    let engine = whitespace_engine(2, 4);
    assert_eq!(
        engine.field_names(),
        vec![
            "top_1_gram_char_ratio".to_string(),
            "top_2_gram_char_ratio".to_string(),
            "dup_3_gram_char_ratio".to_string(),
            "dup_4_gram_char_ratio".to_string(),
        ]
    );
}

#[test]
fn tokens_given_directly_as_spans() {
    let text = "ab,cd,ab";
    let spans = vec![(0usize, 2usize), (3, 5), (6, 8)];
    let counts = dup_ngrams_hash(text.as_bytes(), &spans, 1, 1);
    assert_eq!(counts.total, 6);
    assert_eq!(counts.covered, vec![4u128]);
}

#[test]
fn state_counts_from_given_hashes() {
    // Five tokens of one character each; order 0 is a top order, orders 1
    // and 2 are duplicate orders. The hashes are made up: equal hashes mean
    // equal grams.
    let mut state = RepetitionState::new(1, 3);
    state.observe(&[7], 1);
    state.observe(&[7, 70], 1);
    state.observe(&[7, 70, 700], 1);
    state.observe(&[8, 80, 800], 1);
    state.observe(&[7, 81, 700], 1);
    assert_eq!(state.observed(), 5);
    let counts = state.finish();
    assert_eq!(counts.total, 5);
    // hash 7 at order 0 is seen four times.
    // order 1: 70 repeats at position 2 and adds both of its tokens.
    // order 2: 700 repeats at position 4 and adds all three.
    assert_eq!(counts.covered, vec![4u128, 2, 3]);
}

#[test]
fn state_counts_the_unaccounted_part_only() {
    let mut state = RepetitionState::new(0, 2);
    // "a a a a" with token lengths 2, 3, 4, 5.
    state.observe(&[1], 2);
    state.observe(&[1, 11], 3);
    state.observe(&[1, 11], 4);
    state.observe(&[1, 11], 5);
    let counts = state.finish();
    assert_eq!(counts.total, 14);
    // order 0: repeats at positions 1, 2, 3 add 3, 4 and 5 characters.
    // order 1: the repeat at position 2 adds the tokens at 1 and 2, the
    // repeat at position 3 only the token at 3.
    assert_eq!(counts.covered, vec![12u128, 12]);
}

#[test]
fn hash_collisions_only_overestimate_within_bounds() {
    // Every gram has the same hash at every order.
    let mut state = RepetitionState::new(2, 3);
    state.observe(&[0], 1);
    state.observe(&[0, 0], 1);
    state.observe(&[0, 0, 0], 1);
    state.observe(&[0, 0, 0], 1);
    let counts = state.finish();
    assert_eq!(counts.total, 4);
    // order 2: the repeat at position 3 adds its three tokens.
    assert_eq!(counts.covered, vec![4u128, 6, 3]);
    assert!(counts.covered[1] <= 2 * counts.total as u128);
    assert!(counts.covered[2] <= counts.total as u128);
}

#[test]
fn gram_hashes_grow_with_the_position_up_to_the_orders_kept() {
    let text = "aa bb aa bb aa";
    let spans = vec![(0usize, 2usize), (3, 5), (6, 8), (9, 11), (12, 14)];
    assert_eq!(gram_hashes(text.as_bytes(), &spans, 0, 3).len(), 1);
    assert_eq!(gram_hashes(text.as_bytes(), &spans, 1, 3).len(), 2);
    assert_eq!(gram_hashes(text.as_bytes(), &spans, 4, 3).len(), 3);
    assert!(gram_hashes(text.as_bytes(), &spans, 4, 0).is_empty());
    // Equal grams hash alike, different grams differently.
    let at2 = gram_hashes(text.as_bytes(), &spans, 2, 3);
    let at4 = gram_hashes(text.as_bytes(), &spans, 4, 3);
    let at3 = gram_hashes(text.as_bytes(), &spans, 3, 3);
    assert_eq!(at2, at4);
    assert_ne!(at2[0], at3[0]);
    // The hash is the seeded XXH3 of the tokens, newest first, each closed
    // by 0xff.
    let want = xxhash_rust::xxh3::xxh3_128_with_seed(b"bb\xffaa\xff", 0x5eed);
    assert_eq!(at3[1], want);
}
