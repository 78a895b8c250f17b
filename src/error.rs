use vstd::prelude::*;

verus! {

/// Why a counting operation failed.
#[derive(Debug, Clone, Copy, PartialEq, Eq)]
pub enum KmerError {
    /// `k` is zero or negative.
    InvalidK,
    /// One accumulator saw two different values of `k`.
    InconsistentK,
    /// The input columns do not line up.
    SchemaMismatch,
    /// The accumulator was already finalized.
    Finalized,
    /// The counts could grow past what a `u64` holds.
    CountOverflow,
}

} // verus!
