//! The ways in which indexing, loading and searching can fail.

use vstd::prelude::*;

verus! {

/// What went wrong.
#[derive(Clone, Copy, Debug, PartialEq, Eq, Structural)]
pub enum ErrorKind {
    /// A document, a directory or an index file could not be opened or read.
    Io,
    /// The bytes of a persisted index do not encode an index.
    Format,
    /// The text of one document could not be extracted from its markup.
    Extraction,
    /// The same path was handed to the index twice.
    DuplicateDocument,
}

/// A failure, with the path of the file or document that it concerns.
#[derive(Debug)]
pub struct IndexError {
    /// What went wrong.
    pub kind: ErrorKind,
    /// The offending path.
    pub path: String,
}

} // verus!
