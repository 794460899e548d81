//! Source files, spans and diagnostics.
use vstd::prelude::*;

verus! {

/// A source file, by its number among the files read.
#[derive(Copy, Clone, PartialEq, Eq, Structural, Debug, Hash)]
pub struct FileId(pub u32);

/// A range of byte offsets in a source file.
#[derive(Copy, Clone, PartialEq, Eq, Structural, Debug, Hash)]
pub struct Span(pub usize, pub usize);

impl Span {
    pub fn empty() -> (s: Span)
        ensures
            s == Span(0, 0),
    {
        Span(0, 0)
    }
}

/// A diagnostic, about a place in a source file.
#[derive(Debug)]
pub struct Error {
    pub file: FileId,
    pub span: Span,
    pub message: String,
}

} // verus!
