//! Why an engine could not be set up.

use vstd::prelude::*;

verus! {

/// A configuration that is refused at setup, before any text is processed.
#[derive(Debug)]
pub enum ConfigError {
    /// The boundary-rule pattern is not a valid regular expression.
    InvalidPattern { message: String },
    /// More top-gram orders were asked for than gram orders in all.
    TopExceedsDup { num_top: usize, num_dup: usize },
    /// A MinHash parameter that has to be positive is zero.
    NonPositiveParameter,
    /// `buckets * bsize` hash functions cannot be counted in a `usize`.
    TooManyHashes,
}

} // verus!
