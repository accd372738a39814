//! Local alignment of two symbol sequences by the Smith-Waterman recurrence,
//! with the scoring table and the traceback table kept in a generic grid.

pub mod errors;
pub mod matrix;
pub mod recurrence;
pub mod aligner;
pub mod input;

pub use aligner::Aligner;
pub use recurrence::{Trace, GAP, GAP_PENALTY, MATCH, MISMATCH};
pub use errors::{AlignError, ERR_CATCH_ALL, ERR_INVALID_SYMBOL, ERR_NOT_FOUND, ERR_OUT_OF_BOUNDS};
pub use input::string_to_vec;
pub use matrix::{Matrix, Ranked};
