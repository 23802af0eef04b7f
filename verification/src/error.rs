//! The errors that cross the library's boundary.
use vstd::prelude::*;

use crate::id::ID;

verus! {

/// An error returned by the operation log or by one of its parsers.
#[derive(Debug, PartialEq, Eq)]
pub enum LoroError {
    /// The input could not be decoded or cannot be applied yet; the text
    /// says why.
    DecodeError(String),
    /// A change reuses an operation id that the log already holds.
    UsedOpID { id: ID },
}

pub type LoroResult<T> = Result<T, LoroError>;

impl LoroError {
    /// The message of a decode error; empty for the other kinds.
    pub open spec fn message(&self) -> Seq<char> {
        match self {
            LoroError::DecodeError(m) => m@,
            LoroError::UsedOpID { .. } => Seq::empty(),
        }
    }
}

} // verus!
