use vstd::prelude::*;

verus! {

/// Failures of the indexed block access layer.
#[derive(Debug)]
pub enum Error {
    /// A source ended before a whole block could be read.
    UnexpectedEof,
    /// A size or a line count does not fit the machine's integers.
    TryFromIntError,
    /// The index contradicts the contents it describes.
    InconsistentIndex { details: String },
    /// Sorting was asked of a source that cannot be read at random places.
    UnsupportedFormatForIndexing { path: String, format: String },
}

/// Failure to read a size such as `64K`.
#[derive(Debug)]
pub enum SizeParseError {
    ParseIntError,
    TryFromIntError,
    InvalidSize(String),
}

/// Failure to read a size that must not be zero.
#[derive(Debug)]
pub enum NonZeroSizeParseError {
    SizeParseError(SizeParseError),
    ZeroSize,
}

/// A level name that is not recognised, with the names that are.
#[derive(Debug)]
pub struct InvalidLevelError {
    pub value: String,
    pub valid_values: Vec<String>,
}

} // verus!
