//! The three kinds of failure a parse can report.
use vstd::prelude::*;

verus! {

/// Why a document could not be produced.
#[derive(Debug, Clone)]
pub enum CifError {
    /// A lexical failure: an unterminated quote or multi-line text field.
    ParseError(String),
    /// A failure of a caller that loads text from a file; never produced
    /// by the in-memory parser.
    IoError(String),
    /// A violation of the block, item, loop or frame grammar.
    InvalidStructure(String),
}

impl CifError {
    /// The message carried by the error, whatever its kind.
    pub fn message(&self) -> (r: &String)
        ensures
            r == match self {
                CifError::ParseError(m) => m,
                CifError::IoError(m) => m,
                CifError::InvalidStructure(m) => m,
            },
    {
        match self {
            CifError::ParseError(m) => m,
            CifError::IoError(m) => m,
            CifError::InvalidStructure(m) => m,
        }
    }
}

} // verus!
