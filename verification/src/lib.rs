//! Redundancy and near-duplicate signals over text: repetition ratios at
//! several n-gram granularities, and banded MinHash fingerprints.

pub mod bounds;
pub mod chars;
pub mod counting;
pub mod deflate;
pub mod encode;
pub mod error;
pub mod fields;
pub mod grams;
pub mod langid;
pub mod mersenne;
pub mod minhash;
pub mod pattern;
pub mod repetition;
pub mod rng;
pub mod sampling;
pub mod scrub;
pub mod tokens;
pub mod xxh3;
