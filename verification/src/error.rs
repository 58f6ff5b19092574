//! The ways in which an operation of this library can fail.

use vstd::prelude::*;

verus! {

/// Every failure the library reports. Each kind has exactly one meaning.
#[derive(Clone, Copy, Debug, PartialEq, Eq, Structural)]
pub enum Error {
    /// The content of an item is longer than the block.
    ItemTooLarge,
    /// An item with the same password was added before.
    DuplicatePassword,
    /// No free slot was drawn within the allowed number of attempts.
    PlacementExhausted,
    /// The block holds no message delimited by the markers of this password.
    MarkerNotFound,
    /// The digest rendered a character that is not a lower-case hex digit.
    DigestAlphabetViolation,
    /// The text handed to the digest is longer than the digest can count.
    DigestInputTooLong,
}

/// A byte result with the bytes taken as a sequence.
pub open spec fn bytes_result(r: Result<Vec<u8>, Error>) -> Result<Seq<u8>, Error> {
    match r {
        Ok(bytes) => Ok(bytes@),
        Err(e) => Err(e),
    }
}

} // verus!
