//! The ways in which a store operation can fail.

use vstd::prelude::*;

verus! {

#[derive(Debug, Clone, PartialEq, Eq)]
pub enum DataStoreError {
    /// Reading or writing the backing file failed; holds the cause.
    Disconnect(String),
    /// The data for the given key is not available.
    Redaction(String),
    /// A row's length does not match the header's.
    InvalidRowLength,
    /// A failure of no other kind.
    Unknown,
    /// The key or the column was not found, or the cell lies past the row's end.
    CoordinatesNotFound,
    /// A selection named unknown columns or rows past the end.
    InvalidSelectionRange { expected: String, found: String },
    /// The backing file does not exist.
    Filename,
    /// A header must name at least one column.
    InvalidHeader { expected: String, found: String },
    /// The header already has a column of this name.
    DuplicateColumn(String),
}

} // verus!
