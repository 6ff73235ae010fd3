//! What can go wrong while inputs are prepared and embeddings are spliced.

use candle_core::Error;
use vstd::prelude::*;

verus! {

/// The reasons for which the library gives up.
#[derive(Debug)]
pub enum EmbeddingError {
    /// A tensor operation failed.
    Tensor(Error),
    /// An image could not be turned into patches.
    Preprocess(Error),
    /// The vision tower did not give one row for each placeholder token.
    ImageLength { embeddings: usize, placeholders: usize },
    /// The rows that the vision tower gave are not as wide as the embeddings of tokens.
    ImageWidth,
    /// A span of placeholder tokens is empty or does not lie in the token streams.
    Span { batch: usize, start: usize, end: usize },
}

} // verus!
