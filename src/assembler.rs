pub mod encoder;
pub mod parser;

use crate::common::ErrorKind;
use vstd::prelude::*;

verus! {

/// An assembly error: its cause, a message, and where in the source it arose.
#[derive(Debug)]
pub struct Error {
    pub kind: ErrorKind,
    pub message: String,
    pub range: FileRange,
}

/// A position in a source file: line and column, both from 1.
#[derive(PartialEq, Eq, Structural, Debug, Clone, Copy)]
pub struct FilePosition {
    pub line: u64,
    pub column: u64,
}

/// A span of a source file.
#[derive(PartialEq, Eq, Structural, Debug, Clone, Copy)]
pub struct FileRange {
    pub start: FilePosition,
    pub end: FilePosition,
}

impl Error {
    /// An error of the given cause that points nowhere in particular.
    pub fn from_message(kind: ErrorKind, msg: &str) -> (r: Error)
        ensures
            r.kind == kind,
            r.message@ == msg@,
            r.range == FileRange::spec_invalid(),
    {
        Error { kind, message: msg.to_owned(), range: FileRange::invalid() }
    }
}

impl FilePosition {
    /// The first column of the first line.
    pub fn start() -> (r: FilePosition)
        ensures
            r == (FilePosition { line: 1, column: 1 }),
    {
        FilePosition { column: 1, line: 1 }
    }

    /// Moves to the next column.
    pub fn next_column(&mut self)
        requires
            old(self).column < u64::MAX,
        ensures
            *final(self) == (FilePosition { column: (old(self).column + 1) as u64, ..*old(self) }),
    {
        self.column = self.column + 1;
    }

    /// Moves to the first column of the next line.
    pub fn next_line(&mut self)
        requires
            old(self).line < u64::MAX,
        ensures
            *final(self) == (FilePosition { line: (old(self).line + 1) as u64, column: 1 }),
    {
        self.column = 1;
        self.line = self.line + 1;
    }
}

impl FileRange {
    pub open spec fn spec_invalid() -> FileRange {
        FileRange { start: FilePosition { line: 1, column: 1 }, end: FilePosition { line: 1, column: 1 } }
    }

    /// The range used where no place in the source applies.
    pub fn invalid() -> (r: FileRange)
        ensures
            r == Self::spec_invalid(),
    {
        FileRange { start: FilePosition::start(), end: FilePosition::start() }
    }

    /// The range of a single position.
    pub fn single(value: &FilePosition) -> (r: FileRange)
        ensures
            r == (FileRange { start: *value, end: *value }),
    {
        FileRange { start: *value, end: *value }
    }
}

} // verus!
