use vstd::prelude::*;

verus! {

/// An unsigned machine word.
pub type UWord = u64;

/// A signed machine word (two's complement).
pub type IWord = i64;

/// Index of one of the general-purpose registers.
pub type RegisterIndex = u8;

/// Number of general-purpose registers.
pub const REGISTER_NUM: usize = 4;

/// Size of a machine word in bytes.
pub const WORD_BYTE_SIZE: u64 = 8;

/// Size of the backing heap when the machine starts.
pub const INITIAL_MEMORY_SIZE: usize = 65536;

/// Largest size the backing heap may grow to.
pub const MAX_MEMORY_SIZE: usize = 16777216;

/// The cause of a failure.
#[derive(PartialEq, Eq, Structural, Clone, Copy, Debug)]
pub enum ErrorKind {
    /// Failure of the surrounding environment (reading or writing files).
    Io,
    /// Unknown instruction, short read, wrong operand count or operand mode.
    MalformedBinary,
    /// An address that had to be word-aligned was not.
    Alignment,
    /// An access to a virtual address with no mapping, or past the end of an allocation.
    Unmapped,
    /// Data used where a reference is required, or the other way round.
    TypeMismatch,
    /// No heap region is large enough, even after collection and growth.
    OutOfMemory,
    /// A requested virtual base address is not page-aligned or lies below the watermark.
    BadBase,
    /// An immediate operand was used as a destination.
    BadDestination,
    /// A division by zero.
    DivideByZero,
    /// A native service selector that names no service.
    BadNative,
    /// A placeholder at the very end of a format string.
    BadFormat,
    /// An internal table lookup failed.
    InvalidId,
    /// A label or constant was defined twice.
    Redefinition,
    /// A label was used but never defined.
    UnresolvedLabel,
    /// An operand value does not fit in seven bytes.
    OperandTooLarge,
    /// Malformed assembly source.
    Syntax,
    /// Any other failure.
    Other,
}

/// An error of the machine: its cause and a message for people.
#[derive(Debug)]
pub struct Error {
    pub kind: ErrorKind,
    pub message: Option<String>,
}

impl Error {
    /// An error with the given message and no more specific cause.
    pub fn new(msg: &str) -> (r: Error)
        ensures
            r.kind == ErrorKind::Other,
            r.message is Some,
            r.message.unwrap()@ == msg@,
    {
        Error { kind: ErrorKind::Other, message: Some(msg.to_owned()) }
    }

    /// An error of the given cause with the given message.
    pub fn of_kind(kind: ErrorKind, msg: &str) -> (r: Error)
        ensures
            r.kind == kind,
            r.message is Some,
            r.message.unwrap()@ == msg@,
    {
        Error { kind, message: Some(msg.to_owned()) }
    }

    /// The text shown to people for this error.
    pub fn text(&self) -> (r: String)
        ensures
            self.message is Some ==> r@ == self.message.unwrap()@,
    {
        match &self.message {
            Some(m) => m.clone(),
            None => "Unknown error".to_owned(),
        }
    }
}

} // verus!
