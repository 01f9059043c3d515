use crate::assembler::FileRange;
use crate::common::{IWord, RegisterIndex, UWord};
use crate::opcodes::Instruction;
use vstd::prelude::*;

verus! {

/// A directive or instruction of assembly source, and where it stands.
pub struct Token {
    pub value: TokenValue,
    pub range: FileRange,
}

/// What the assembler is asked to produce.
pub enum TokenValue {
    /// Marks the current output offset with a name.
    Label(String),
    /// Gives a name a constant value.
    Define { label: String, value: IWord },
    /// Raw bytes of text; the optional name gets their length.
    String { length_label: Option<String>, value: String },
    /// Pads the output with zeros to a multiple of the given size.
    Align(UWord),
    /// An instruction with its operands.
    Opcode { instruction: Instruction, operands: Vec<Operand> },
}

/// An operand as written in assembly source.
pub enum Operand {
    /// The value of a name, filled in once all names are known.
    Label(String),
    Immediate(IWord),
    Register(RegisterIndex),
    Reference { register: RegisterIndex, offset: IWord },
    Stack(UWord),
}

} // verus!
