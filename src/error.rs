use vstd::prelude::*;

verus! {

/// Failures of the deduplication core. None of them is retried.
#[derive(Clone, Copy, Debug, PartialEq, Eq, Structural)]
pub enum DedupError {
    /// The persisted identifiers and embedding rows are unreadable or differ in count.
    CacheCorrupt,
    /// The embedding provider could not produce a vector for some image.
    ProviderFailure,
    /// Cached embeddings have another dimension than freshly computed ones.
    DimensionMismatch,
    /// The similarity threshold lies outside (0, 1].
    InvalidThreshold,
    /// The chunk size is zero.
    InvalidChunkSize,
    /// Self-comparison was asked for on two sets of different sizes.
    SizeMismatch,
}

} // verus!
