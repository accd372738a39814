//! The closed set of failures that the library reports.

use vstd::prelude::*;

verus! {

/// Why an operation of the library failed.
#[derive(Clone, Copy, Debug, PartialEq, Eq, Structural)]
pub enum AlignError {
    /// A grid was addressed outside its storage.
    OutOfBounds,
    /// A sequence position that should exist was absent.
    NotFound,
    /// The aligned bytes could not be read as text.
    CatchAll,
    /// An input symbol lies outside the alphabet.
    InvalidSymbol,
}

/// Out of bounds error.
pub const ERR_OUT_OF_BOUNDS: AlignError = AlignError::OutOfBounds;

/// Not found error.
pub const ERR_NOT_FOUND: AlignError = AlignError::NotFound;

/// Catch all for the remaining failures.
pub const ERR_CATCH_ALL: AlignError = AlignError::CatchAll;

/// Symbol outside the alphabet.
pub const ERR_INVALID_SYMBOL: AlignError = AlignError::InvalidSymbol;

} // verus!
