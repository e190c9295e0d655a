//! Errors that the library reports to its callers.

use vstd::prelude::*;

verus! {

/// What went wrong, by kind.
#[derive(Clone, Copy, Debug, PartialEq, Eq, Structural)]
pub enum DbError {
    /// The key-value store could not be opened or created.
    OpenFailure,
    /// JSON text that the encoder cannot read.
    MalformedJson,
    /// TSON bytes with an unknown tag or an inconsistent length.
    MalformedTson,
    /// A query with an unknown operator, a value of the wrong kind, an
    /// operator outside a key, or a nested object without dot notation.
    InvalidQuery,
    /// A value of a kind that cannot be stored.
    UnsupportedType,
    /// An `_id` that is neither a string nor a number.
    InvalidId,
}

impl DbError {
    /// A message for people.
    pub fn message(&self) -> (r: &'static str) {
        match self {
            DbError::OpenFailure => "the store could not be opened",
            DbError::MalformedJson => "malformed JSON",
            DbError::MalformedTson => "malformed TSON",
            DbError::InvalidQuery => "invalid query",
            DbError::UnsupportedType => "unsupported value type",
            DbError::InvalidId => "_id must be a string or a number",
        }
    }
}

} // verus!
