use crate::common::{Error, ErrorKind, IWord, RegisterIndex, UWord};
use vstd::prelude::*;

verus! {

/// An action the machine can perform.
#[derive(PartialEq, Eq, Structural, Clone, Copy, Debug, Hash)]
pub enum Instruction {
    NoOperation,
    Move,
    Add,
    Subtract,
    Multiply,
    Divide,
    BitwiseAnd,
    BitwiseOr,
    BitwiseXor,
    BitwiseNot,
    ShiftLeft,
    ShiftRight,
    Compare,
    Jump,
    JumpEqual,
    JumpNotEqual,
    JumpGreater,
    JumpGreaterEqual,
    JumpLess,
    JumpLessEqual,
    Call,
    Return,
    Push,
    Pop,
    New,
    GarbageCollector,
    Reference,
    Unreference,
    CallNative,
    DebugMemory,
    DebugDump,
    DebugCpu,
    Halt,
}

/// How an instruction uses one of its operands.
#[derive(PartialEq, Eq, Structural, Clone, Copy, Debug)]
pub enum OperandMode {
    /// The operand is only read.
    ReadOnly,
    /// The operand is read and written.
    ReadWrite,
}

/// Where an instruction reads or writes a value.
#[derive(PartialEq, Eq, Structural, Clone, Copy, Debug)]
pub enum Operand {
    /// A constant value.
    Immediate(IWord),
    /// The value held in a register.
    Register(RegisterIndex),
    /// The word at the address held in a register, plus a constant offset.
    Reference { register: RegisterIndex, offset: IWord },
    /// The word at the stack pointer plus a constant offset.
    Stack(UWord),
}

/// What the machine knows about an instruction.
pub struct InstructionDescriptor {
    /// The modes of the operands the instruction expects.
    pub operands: Vec<OperandMode>,
    /// The name of the instruction in assembly source.
    pub mnemonic: &'static str,
    /// Whether the instruction transfers control.
    pub is_jump: bool,
}

/// One decoded instruction with its operands.
#[derive(Debug)]
pub struct Opcode {
    pub instruction: Instruction,
    pub operands: Vec<Operand>,
}

/// The instruction whose id is `v`, if any.
pub open spec fn spec_from_value(v: u8) -> Option<Instruction> {
    if v == 0x00 { Some(Instruction::NoOperation) }
    else if v == 0x01 { Some(Instruction::Move) }
    else if v == 0x02 { Some(Instruction::Add) }
    else if v == 0x03 { Some(Instruction::Subtract) }
    else if v == 0x04 { Some(Instruction::Multiply) }
    else if v == 0x05 { Some(Instruction::Divide) }
    else if v == 0x06 { Some(Instruction::BitwiseAnd) }
    else if v == 0x07 { Some(Instruction::BitwiseOr) }
    else if v == 0x08 { Some(Instruction::BitwiseXor) }
    else if v == 0x09 { Some(Instruction::BitwiseNot) }
    else if v == 0x0A { Some(Instruction::ShiftLeft) }
    else if v == 0x0B { Some(Instruction::ShiftRight) }
    else if v == 0x0C { Some(Instruction::Compare) }
    else if v == 0x0D { Some(Instruction::Jump) }
    else if v == 0x0E { Some(Instruction::JumpEqual) }
    else if v == 0x0F { Some(Instruction::JumpNotEqual) }
    else if v == 0x10 { Some(Instruction::JumpGreater) }
    else if v == 0x11 { Some(Instruction::JumpGreaterEqual) }
    else if v == 0x12 { Some(Instruction::JumpLess) }
    else if v == 0x13 { Some(Instruction::JumpLessEqual) }
    else if v == 0x14 { Some(Instruction::Call) }
    else if v == 0x15 { Some(Instruction::Return) }
    else if v == 0x16 { Some(Instruction::Push) }
    else if v == 0x17 { Some(Instruction::Pop) }
    else if v == 0x18 { Some(Instruction::New) }
    else if v == 0x19 { Some(Instruction::GarbageCollector) }
    else if v == 0x1A { Some(Instruction::Reference) }
    else if v == 0x1B { Some(Instruction::Unreference) }
    else if v == 0x1C { Some(Instruction::CallNative) }
    else if v == 0x3C { Some(Instruction::DebugMemory) }
    else if v == 0x3D { Some(Instruction::DebugDump) }
    else if v == 0x3E { Some(Instruction::DebugCpu) }
    else if v == 0x3F { Some(Instruction::Halt) }
    else { None }
}

/// Operand modes `r`, `w` of the two-operand instructions that write their second operand.
pub open spec fn modes_read_write() -> Seq<OperandMode> {
    seq![OperandMode::ReadOnly, OperandMode::ReadWrite]
}

impl Instruction {
    /// The id of the instruction in the binary format.
    pub open spec fn spec_value(self) -> u8 {
        match self {
            Instruction::NoOperation => 0x00,
            Instruction::Move => 0x01,
            Instruction::Add => 0x02,
            Instruction::Subtract => 0x03,
            Instruction::Multiply => 0x04,
            Instruction::Divide => 0x05,
            Instruction::BitwiseAnd => 0x06,
            Instruction::BitwiseOr => 0x07,
            Instruction::BitwiseXor => 0x08,
            Instruction::BitwiseNot => 0x09,
            Instruction::ShiftLeft => 0x0A,
            Instruction::ShiftRight => 0x0B,
            Instruction::Compare => 0x0C,
            Instruction::Jump => 0x0D,
            Instruction::JumpEqual => 0x0E,
            Instruction::JumpNotEqual => 0x0F,
            Instruction::JumpGreater => 0x10,
            Instruction::JumpGreaterEqual => 0x11,
            Instruction::JumpLess => 0x12,
            Instruction::JumpLessEqual => 0x13,
            Instruction::Call => 0x14,
            Instruction::Return => 0x15,
            Instruction::Push => 0x16,
            Instruction::Pop => 0x17,
            Instruction::New => 0x18,
            Instruction::GarbageCollector => 0x19,
            Instruction::Reference => 0x1A,
            Instruction::Unreference => 0x1B,
            Instruction::CallNative => 0x1C,
            Instruction::DebugMemory => 0x3C,
            Instruction::DebugDump => 0x3D,
            Instruction::DebugCpu => 0x3E,
            Instruction::Halt => 0x3F,
        }
    }

    /// The modes of the operands the instruction expects.
    pub open spec fn spec_operand_modes(self) -> Seq<OperandMode> {
        match self {
            Instruction::NoOperation | Instruction::Halt | Instruction::Return
            | Instruction::GarbageCollector | Instruction::DebugMemory => seq![],
            Instruction::Move | Instruction::Add | Instruction::Subtract | Instruction::Multiply
            | Instruction::Divide | Instruction::BitwiseAnd | Instruction::BitwiseOr
            | Instruction::BitwiseXor | Instruction::ShiftLeft | Instruction::ShiftRight
            | Instruction::New => modes_read_write(),
            Instruction::BitwiseNot | Instruction::Pop | Instruction::Reference
            | Instruction::Unreference => seq![OperandMode::ReadWrite],
            Instruction::Compare | Instruction::DebugDump => seq![
                OperandMode::ReadOnly,
                OperandMode::ReadOnly,
            ],
            _ => seq![OperandMode::ReadOnly],
        }
    }

    /// Whether the instruction transfers control.
    pub open spec fn spec_is_jump(self) -> bool {
        match self {
            Instruction::Jump | Instruction::JumpEqual | Instruction::JumpNotEqual
            | Instruction::JumpGreater | Instruction::JumpGreaterEqual | Instruction::JumpLess
            | Instruction::JumpLessEqual | Instruction::Call | Instruction::Return => true,
            _ => false,
        }
    }

    /// The name of the instruction in assembly source.
    pub open spec fn spec_mnemonic(self) -> Seq<char> {
        match self {
            Instruction::NoOperation => "nop"@,
            Instruction::Move => "mov"@,
            Instruction::Add => "add"@,
            Instruction::Subtract => "sub"@,
            Instruction::Multiply => "mul"@,
            Instruction::Divide => "div"@,
            Instruction::BitwiseAnd => "and"@,
            Instruction::BitwiseOr => "or"@,
            Instruction::BitwiseXor => "xor"@,
            Instruction::BitwiseNot => "not"@,
            Instruction::ShiftLeft => "shl"@,
            Instruction::ShiftRight => "shr"@,
            Instruction::Compare => "cmp"@,
            Instruction::Jump => "jmp"@,
            Instruction::JumpEqual => "jeq"@,
            Instruction::JumpNotEqual => "jne"@,
            Instruction::JumpGreater => "jgt"@,
            Instruction::JumpGreaterEqual => "jge"@,
            Instruction::JumpLess => "jlt"@,
            Instruction::JumpLessEqual => "jle"@,
            Instruction::Call => "call"@,
            Instruction::Return => "ret"@,
            Instruction::Push => "push"@,
            Instruction::Pop => "pop"@,
            Instruction::New => "new"@,
            Instruction::GarbageCollector => "gc"@,
            Instruction::Reference => "ref"@,
            Instruction::Unreference => "unref"@,
            Instruction::CallNative => "native"@,
            Instruction::DebugMemory => "debugmem"@,
            Instruction::DebugDump => "debugdump"@,
            Instruction::DebugCpu => "debugcpu"@,
            Instruction::Halt => "halt"@,
        }
    }

    /// The id of the instruction in the binary format.
    pub fn value(&self) -> (r: u8)
        ensures
            r == self.spec_value(),
    {
        match self {
            Instruction::NoOperation => 0x00,
            Instruction::Move => 0x01,
            Instruction::Add => 0x02,
            Instruction::Subtract => 0x03,
            Instruction::Multiply => 0x04,
            Instruction::Divide => 0x05,
            Instruction::BitwiseAnd => 0x06,
            Instruction::BitwiseOr => 0x07,
            Instruction::BitwiseXor => 0x08,
            Instruction::BitwiseNot => 0x09,
            Instruction::ShiftLeft => 0x0A,
            Instruction::ShiftRight => 0x0B,
            Instruction::Compare => 0x0C,
            Instruction::Jump => 0x0D,
            Instruction::JumpEqual => 0x0E,
            Instruction::JumpNotEqual => 0x0F,
            Instruction::JumpGreater => 0x10,
            Instruction::JumpGreaterEqual => 0x11,
            Instruction::JumpLess => 0x12,
            Instruction::JumpLessEqual => 0x13,
            Instruction::Call => 0x14,
            Instruction::Return => 0x15,
            Instruction::Push => 0x16,
            Instruction::Pop => 0x17,
            Instruction::New => 0x18,
            Instruction::GarbageCollector => 0x19,
            Instruction::Reference => 0x1A,
            Instruction::Unreference => 0x1B,
            Instruction::CallNative => 0x1C,
            Instruction::DebugMemory => 0x3C,
            Instruction::DebugDump => 0x3D,
            Instruction::DebugCpu => 0x3E,
            Instruction::Halt => 0x3F,
        }
    }

    /// The instruction with the given id, if there is one.
    pub fn from_value(value: u8) -> (r: Option<Instruction>)
        ensures
            r == spec_from_value(value),
    {
        match value {
            0x00 => Some(Instruction::NoOperation),
            0x01 => Some(Instruction::Move),
            0x02 => Some(Instruction::Add),
            0x03 => Some(Instruction::Subtract),
            0x04 => Some(Instruction::Multiply),
            0x05 => Some(Instruction::Divide),
            0x06 => Some(Instruction::BitwiseAnd),
            0x07 => Some(Instruction::BitwiseOr),
            0x08 => Some(Instruction::BitwiseXor),
            0x09 => Some(Instruction::BitwiseNot),
            0x0A => Some(Instruction::ShiftLeft),
            0x0B => Some(Instruction::ShiftRight),
            0x0C => Some(Instruction::Compare),
            0x0D => Some(Instruction::Jump),
            0x0E => Some(Instruction::JumpEqual),
            0x0F => Some(Instruction::JumpNotEqual),
            0x10 => Some(Instruction::JumpGreater),
            0x11 => Some(Instruction::JumpGreaterEqual),
            0x12 => Some(Instruction::JumpLess),
            0x13 => Some(Instruction::JumpLessEqual),
            0x14 => Some(Instruction::Call),
            0x15 => Some(Instruction::Return),
            0x16 => Some(Instruction::Push),
            0x17 => Some(Instruction::Pop),
            0x18 => Some(Instruction::New),
            0x19 => Some(Instruction::GarbageCollector),
            0x1A => Some(Instruction::Reference),
            0x1B => Some(Instruction::Unreference),
            0x1C => Some(Instruction::CallNative),
            0x3C => Some(Instruction::DebugMemory),
            0x3D => Some(Instruction::DebugDump),
            0x3E => Some(Instruction::DebugCpu),
            0x3F => Some(Instruction::Halt),
            _ => None,
        }
    }

    /// The instruction with the given id; an id that names none is a malformed binary.
    pub fn decode(value: u8) -> (r: Result<Instruction, Error>)
        ensures
            r matches Ok(i) ==> spec_from_value(value) == Some(i),
            r matches Err(e) ==> spec_from_value(value) is None && e.kind
                == ErrorKind::MalformedBinary,
    {
        match Self::from_value(value) {
            Some(i) => Ok(i),
            None => Err(Error::of_kind(ErrorKind::MalformedBinary, "There is no instruction with this value")),
        }
    }

    /// What the machine knows about this instruction.
    pub fn descriptor(&self) -> (r: InstructionDescriptor)
        ensures
            r.operands@ == self.spec_operand_modes(),
            r.mnemonic@ == self.spec_mnemonic(),
            r.is_jump == self.spec_is_jump(),
    {
        let none: Vec<OperandMode> = Vec::new();
        let mut ro: Vec<OperandMode> = Vec::new();
        ro.push(OperandMode::ReadOnly);
        let mut rw: Vec<OperandMode> = Vec::new();
        rw.push(OperandMode::ReadWrite);
        let mut ro_rw: Vec<OperandMode> = Vec::new();
        ro_rw.push(OperandMode::ReadOnly);
        ro_rw.push(OperandMode::ReadWrite);
        let mut ro_ro: Vec<OperandMode> = Vec::new();
        ro_ro.push(OperandMode::ReadOnly);
        ro_ro.push(OperandMode::ReadOnly);
        assert(ro_rw@ =~= modes_read_write());
        assert(ro_ro@ =~= seq![OperandMode::ReadOnly, OperandMode::ReadOnly]);
        assert(ro@ =~= seq![OperandMode::ReadOnly]);
        assert(rw@ =~= seq![OperandMode::ReadWrite]);
        assert(none@ =~= Seq::<OperandMode>::empty());
        match self {
            Instruction::NoOperation => InstructionDescriptor { operands: none, mnemonic: "nop", is_jump: false },
            Instruction::Move => InstructionDescriptor { operands: ro_rw, mnemonic: "mov", is_jump: false },
            Instruction::Add => InstructionDescriptor { operands: ro_rw, mnemonic: "add", is_jump: false },
            Instruction::Subtract => InstructionDescriptor { operands: ro_rw, mnemonic: "sub", is_jump: false },
            Instruction::Multiply => InstructionDescriptor { operands: ro_rw, mnemonic: "mul", is_jump: false },
            Instruction::Divide => InstructionDescriptor { operands: ro_rw, mnemonic: "div", is_jump: false },
            Instruction::BitwiseAnd => InstructionDescriptor { operands: ro_rw, mnemonic: "and", is_jump: false },
            Instruction::BitwiseOr => InstructionDescriptor { operands: ro_rw, mnemonic: "or", is_jump: false },
            Instruction::BitwiseXor => InstructionDescriptor { operands: ro_rw, mnemonic: "xor", is_jump: false },
            Instruction::BitwiseNot => InstructionDescriptor { operands: rw, mnemonic: "not", is_jump: false },
            Instruction::ShiftLeft => InstructionDescriptor { operands: ro_rw, mnemonic: "shl", is_jump: false },
            Instruction::ShiftRight => InstructionDescriptor { operands: ro_rw, mnemonic: "shr", is_jump: false },
            Instruction::Compare => InstructionDescriptor { operands: ro_ro, mnemonic: "cmp", is_jump: false },
            Instruction::Jump => InstructionDescriptor { operands: ro, mnemonic: "jmp", is_jump: true },
            Instruction::JumpEqual => InstructionDescriptor { operands: ro, mnemonic: "jeq", is_jump: true },
            Instruction::JumpNotEqual => InstructionDescriptor { operands: ro, mnemonic: "jne", is_jump: true },
            Instruction::JumpGreater => InstructionDescriptor { operands: ro, mnemonic: "jgt", is_jump: true },
            Instruction::JumpGreaterEqual => InstructionDescriptor { operands: ro, mnemonic: "jge", is_jump: true },
            Instruction::JumpLess => InstructionDescriptor { operands: ro, mnemonic: "jlt", is_jump: true },
            Instruction::JumpLessEqual => InstructionDescriptor { operands: ro, mnemonic: "jle", is_jump: true },
            Instruction::Call => InstructionDescriptor { operands: ro, mnemonic: "call", is_jump: true },
            Instruction::Return => InstructionDescriptor { operands: none, mnemonic: "ret", is_jump: true },
            Instruction::Push => InstructionDescriptor { operands: ro, mnemonic: "push", is_jump: false },
            Instruction::Pop => InstructionDescriptor { operands: rw, mnemonic: "pop", is_jump: false },
            Instruction::New => InstructionDescriptor { operands: ro_rw, mnemonic: "new", is_jump: false },
            Instruction::GarbageCollector => InstructionDescriptor { operands: none, mnemonic: "gc", is_jump: false },
            Instruction::Reference => InstructionDescriptor { operands: rw, mnemonic: "ref", is_jump: false },
            Instruction::Unreference => InstructionDescriptor { operands: rw, mnemonic: "unref", is_jump: false },
            Instruction::CallNative => InstructionDescriptor { operands: ro, mnemonic: "native", is_jump: false },
            Instruction::DebugMemory => InstructionDescriptor { operands: none, mnemonic: "debugmem", is_jump: false },
            Instruction::DebugDump => InstructionDescriptor { operands: ro_ro, mnemonic: "debugdump", is_jump: false },
            Instruction::DebugCpu => InstructionDescriptor { operands: ro, mnemonic: "debugcpu", is_jump: false },
            Instruction::Halt => InstructionDescriptor { operands: none, mnemonic: "halt", is_jump: false },
        }
    }
}

/// Every id of an instruction decodes back to that instruction.
pub proof fn lemma_value_round_trip(i: Instruction)
    ensures
        spec_from_value(i.spec_value()) == Some(i),
        i.spec_value() < 64,
{
}

/// An id that decodes to an instruction is that instruction's id.
pub proof fn lemma_from_value_inverse(v: u8)
    ensures
        spec_from_value(v) matches Some(i) ==> i.spec_value() == v,
{
}

impl OperandMode {
    /// Whether an operand of this mode may stand where `other` is expected.
    pub open spec fn spec_can_be_used_as(self, other: OperandMode) -> bool {
        self == other || (self == OperandMode::ReadWrite && other == OperandMode::ReadOnly)
    }

    /// Checks if one operand mode can be used where another mode is expected.
    pub fn can_be_used_as(&self, other: &Self) -> (r: bool)
        ensures
            r == self.spec_can_be_used_as(*other),
    {
        if *self == *other {
            return true;
        }
        if *self == OperandMode::ReadWrite && *other == OperandMode::ReadOnly {
            return true;
        }
        false
    }
}


/// `256` to the power `n`.
pub open spec fn pow256(n: nat) -> nat
    decreases n,
{
    if n == 0 {
        1
    } else {
        256 * pow256((n - 1) as nat)
    }
}

/// The number held by bytes in little-endian order.
pub open spec fn le_value(b: Seq<u8>) -> nat
    decreases b.len(),
{
    if b.len() == 0 {
        0
    } else {
        b[0] as nat + 256 * le_value(b.drop_first())
    }
}

/// The `n` lowest bytes of `v`, in little-endian order.
pub open spec fn le_bytes(v: nat, n: nat) -> Seq<u8>
    decreases n,
{
    if n == 0 {
        Seq::empty()
    } else {
        seq![(v % 256) as u8] + le_bytes(v / 256, (n - 1) as nat)
    }
}

/// The fewest bytes that hold `v` in little-endian order.
pub open spec fn byte_len(v: nat) -> nat
    decreases v,
{
    if v == 0 {
        0
    } else {
        1 + byte_len(v / 256)
    }
}

/// The first byte of an encoded operand.
pub open spec fn operand_first_byte(mode: int, register: int, negative: bool, size: int) -> int {
    mode * 64 + register * 16 + (if negative { 8int } else { 0 }) + size
}

/// The operand encoded at position `pos` of `b`, and the number of bytes it takes.
pub open spec fn spec_decode_operand(b: Seq<u8>, pos: int) -> Option<(Operand, int)> {
    if pos < 0 || pos >= b.len() {
        None
    } else {
        let fb = b[pos];
        let size = (fb % 8) as int;
        if b.len() < pos + 1 + size {
            None
        } else {
            let u = le_value(b.subrange(pos + 1, pos + 1 + size));
            let s: int = if (fb / 8) % 2 == 1 { -(u as int) } else { u as int };
            let register = ((fb / 16) % 4) as u8;
            let mode = fb / 64;
            let op = if mode == 0 {
                Operand::Immediate(s as i64)
            } else if mode == 1 {
                Operand::Register(register)
            } else if mode == 2 {
                Operand::Reference { register, offset: s as i64 }
            } else {
                Operand::Stack(u as u64)
            };
            Some((op, 1 + size))
        }
    }
}

/// The `count` operands encoded from position `pos` of `b`, and the position after them.
pub open spec fn spec_decode_operands(b: Seq<u8>, pos: int, count: nat) -> Option<(Seq<Operand>, int)>
    decreases count,
{
    if count == 0 {
        Some((Seq::empty(), pos))
    } else {
        match spec_decode_operand(b, pos) {
            None => None,
            Some((op, n)) => match spec_decode_operands(b, pos + n, (count - 1) as nat) {
                None => None,
                Some((rest, end)) => Some((seq![op] + rest, end)),
            },
        }
    }
}

/// Whether each operand may stand where the instruction expects it.
pub open spec fn operands_fit(ops: Seq<Operand>, modes: Seq<OperandMode>) -> bool {
    &&& ops.len() == modes.len()
    &&& forall|i: int| 0 <= i < ops.len() ==> (#[trigger] ops[i]).spec_mode().spec_can_be_used_as(modes[i])
}

/// The instruction encoded at the start of `b`, its operands, and the number of bytes it takes.
pub open spec fn spec_decode_opcode(b: Seq<u8>) -> Option<(Instruction, Seq<Operand>, int)> {
    if b.len() == 0 {
        None
    } else {
        match spec_from_value(b[0] % 64) {
            None => None,
            Some(instr) => match spec_decode_operands(b, 1, (b[0] / 64) as nat) {
                None => None,
                Some((ops, end)) => if operands_fit(ops, instr.spec_operand_modes()) {
                    Some((instr, ops, end))
                } else {
                    None
                },
            },
        }
    }
}

/// The absolute value of a signed word.
pub open spec fn abs_value(v: i64) -> nat {
    if v < 0 { (-(v as int)) as nat } else { v as nat }
}

/// The shortest encoding of an operand in the binary format.
pub open spec fn spec_encode_operand(op: Operand) -> Seq<u8> {
    let (mode, register, negative, value): (int, int, bool, nat) = match op {
        Operand::Immediate(v) => (0, 0, v < 0, abs_value(v)),
        Operand::Register(r) => (1, (r % 4) as int, false, 0),
        Operand::Reference { register, offset } => (2, (register % 4) as int, offset < 0, abs_value(offset)),
        Operand::Stack(s) => (3, 0, false, s as nat),
    };
    let size = byte_len(value);
    seq![operand_first_byte(mode, register, negative, size as int) as u8] + le_bytes(value, size)
}

/// The magnitude of the value an operand carries in the binary format.
pub open spec fn operand_magnitude(op: Operand) -> nat {
    match op {
        Operand::Immediate(v) => abs_value(v),
        Operand::Register(_) => 0,
        Operand::Reference { offset, .. } => abs_value(offset),
        Operand::Stack(s) => s as nat,
    }
}

/// Whether an operand can be written in the binary format: its register exists and its
/// value fits in seven bytes.
pub open spec fn operand_encodable(op: Operand) -> bool {
    &&& operand_magnitude(op) < pow256(7)
    &&& match op {
        Operand::Register(r) => r < 4,
        Operand::Reference { register, .. } => register < 4,
        _ => true,
    }
}

/// The encoding of an instruction with its operands.
pub open spec fn spec_encode_operands(ops: Seq<Operand>) -> Seq<u8>
    decreases ops.len(),
{
    if ops.len() == 0 {
        Seq::empty()
    } else {
        spec_encode_operand(ops[0]) + spec_encode_operands(ops.drop_first())
    }
}

/// The instruction byte: the id in the low six bits and the operand count in the high two.
pub open spec fn instruction_byte(i: Instruction, count: nat) -> u8 {
    (i.spec_value() as int + 64 * (count % 4)) as u8
}

/// The encoding of an instruction with its operands.
pub open spec fn spec_encode_opcode(i: Instruction, ops: Seq<Operand>) -> Seq<u8> {
    seq![instruction_byte(i, ops.len())] + spec_encode_operands(ops)
}

pub proof fn lemma_pow256_positive(n: nat)
    ensures
        pow256(n) > 0,
    decreases n,
{
    if n > 0 {
        lemma_pow256_positive((n - 1) as nat);
    }
}

/// A value held by `n` bytes is below `256` to the `n`.
pub proof fn lemma_le_value_bound(b: Seq<u8>)
    ensures
        le_value(b) < pow256(b.len()),
    decreases b.len(),
{
    if b.len() > 0 {
        lemma_le_value_bound(b.drop_first());
        let r = le_value(b.drop_first());
        assert(r + 1 <= pow256((b.len() - 1) as nat));
        assert(b[0] as nat + 256 * r < 256 * (r + 1)) by (nonlinear_arith)
            requires b[0] < 256;
        assert(256 * (r + 1) <= 256 * pow256((b.len() - 1) as nat)) by (nonlinear_arith)
            requires r + 1 <= pow256((b.len() - 1) as nat);
    }
}

/// Writing a value below `256` to the `n` in `n` bytes and reading it back gives the value.
pub proof fn lemma_le_round_trip(v: nat, n: nat)
    requires
        v < pow256(n),
    ensures
        le_bytes(v, n).len() == n,
        le_value(le_bytes(v, n)) == v,
    decreases n,
{
    if n > 0 {
        let p = pow256((n - 1) as nat);
        assert(v / 256 < p) by (nonlinear_arith)
            requires v < 256 * p;
        lemma_le_round_trip(v / 256, (n - 1) as nat);
        let b = le_bytes(v, n);
        assert(b.drop_first() =~= le_bytes(v / 256, (n - 1) as nat));
        assert(v == v % 256 + 256 * (v / 256)) by (nonlinear_arith);
    }
}

/// The shortest length holds the value, and no shorter one does.
pub proof fn lemma_byte_len_minimal(v: nat)
    ensures
        v < pow256(byte_len(v)),
        byte_len(v) > 0 ==> v >= pow256((byte_len(v) - 1) as nat),
    decreases v,
{
    if v > 0 {
        lemma_byte_len_minimal(v / 256);
        let k = byte_len(v / 256);
        assert(v < 256 * pow256(k)) by (nonlinear_arith)
            requires v / 256 < pow256(k);
        if k > 0 {
            assert(v >= 256 * pow256((k - 1) as nat)) by (nonlinear_arith)
                requires v / 256 >= pow256((k - 1) as nat);
        } else {
            assert(pow256(0) == 1);
        }
    }
}

/// A value below `256` to the `n` takes at most `n` bytes.
pub proof fn lemma_byte_len_at_most(v: nat, n: nat)
    requires
        v < pow256(n),
    ensures
        byte_len(v) <= n,
    decreases n,
{
    if v > 0 {
        let p = pow256((n - 1) as nat);
        assert(n > 0);
        assert(v / 256 < p) by (nonlinear_arith)
            requires v < 256 * p;
        lemma_byte_len_at_most(v / 256, (n - 1) as nat);
    }
}

/// The fields of an operand's first byte can be read back from it.
pub proof fn lemma_first_byte_fields(mode: int, register: int, negative: bool, size: int)
    requires
        0 <= mode < 4,
        0 <= register < 4,
        0 <= size < 8,
    ensures
        0 <= operand_first_byte(mode, register, negative, size) < 256,
        operand_first_byte(mode, register, negative, size) % 8 == size,
        (operand_first_byte(mode, register, negative, size) / 8) % 2 == (if negative { 1int } else { 0 }),
        (operand_first_byte(mode, register, negative, size) / 16) % 4 == register,
        operand_first_byte(mode, register, negative, size) / 64 == mode,
{
    let n: int = if negative { 1 } else { 0 };
    let fb = operand_first_byte(mode, register, negative, size);
    assert(fb == mode * 64 + register * 16 + n * 8 + size);
    assert(fb % 8 == size) by (nonlinear_arith)
        requires fb == mode * 64 + register * 16 + n * 8 + size, 0 <= size < 8, 0 <= mode, 0 <= register, 0 <= n;
    assert(fb / 8 == mode * 8 + register * 2 + n) by (nonlinear_arith)
        requires fb == mode * 64 + register * 16 + n * 8 + size, 0 <= size < 8;
    assert((mode * 8 + register * 2 + n) % 2 == n) by (nonlinear_arith)
        requires 0 <= n < 2, 0 <= mode, 0 <= register;
    assert(fb / 16 == mode * 4 + register) by (nonlinear_arith)
        requires fb == mode * 64 + register * 16 + n * 8 + size, 0 <= size < 8, 0 <= n < 2;
    assert((mode * 4 + register) % 4 == register) by (nonlinear_arith)
        requires 0 <= register < 4, 0 <= mode;
    assert(fb / 64 == mode) by (nonlinear_arith)
        requires fb == mode * 64 + register * 16 + n * 8 + size, 0 <= size < 8, 0 <= n < 2, 0 <= register < 4;
}

/// Decoding the shortest encoding of an operand gives the operand back, whatever follows
/// it, and the encoding takes one byte plus the fewest bytes that hold its value.
pub proof fn lemma_operand_round_trip(op: Operand, rest: Seq<u8>)
    requires
        operand_encodable(op),
    ensures
        spec_encode_operand(op).len() == 1 + byte_len(operand_magnitude(op)),
        spec_decode_operand(spec_encode_operand(op) + rest, 0) == Some(
            (op, spec_encode_operand(op).len() as int),
        ),
{
    let m = operand_magnitude(op);
    lemma_pow256_seven();
    lemma_byte_len_at_most(m, 7);
    let size = byte_len(m);
    lemma_le_round_trip_short(m, size);
    let e = spec_encode_operand(op);
    let b = e + rest;
    assert(b.subrange(1, 1 + size as int) =~= le_bytes(m, size));
    let (mode, register, negative): (int, int, bool) = match op {
        Operand::Immediate(v) => (0, 0, v < 0),
        Operand::Register(r) => (1, r as int, false),
        Operand::Reference { register, offset } => (2, register as int, offset < 0),
        Operand::Stack(s) => (3, 0, false),
    };
    lemma_first_byte_fields(mode, register, negative, size as int);
    assert(b[0] == operand_first_byte(mode, register, negative, size as int) as u8);
}

/// `256` to the seventh.
pub proof fn lemma_pow256_seven()
    ensures
        pow256(7) == 72057594037927936,
{
    reveal_with_fuel(pow256, 8);
}

/// Writing a value that fits in seven bytes in its shortest form and reading it back
/// gives the value.
proof fn lemma_le_round_trip_short(m: nat, size: nat)
    requires
        m < pow256(7),
        size == byte_len(m),
    ensures
        le_bytes(m, size).len() == size,
        le_value(le_bytes(m, size)) == m,
        size <= 7,
{
    lemma_byte_len_at_most(m, 7);
    lemma_byte_len_minimal(m);
    lemma_le_round_trip(m, size);
}

impl Operand {
    /// How this operand may be used: constants are only read.
    pub open spec fn spec_mode(self) -> OperandMode {
        match self {
            Operand::Immediate(_) => OperandMode::ReadOnly,
            _ => OperandMode::ReadWrite,
        }
    }

    /// How this operand may be used: constants are only read.
    pub fn mode(&self) -> (r: OperandMode)
        ensures
            r == self.spec_mode(),
    {
        match self {
            Operand::Immediate(_) => OperandMode::ReadOnly,
            _ => OperandMode::ReadWrite,
        }
    }

    /// Decodes the operand at position `pos` of `bytes`; returns it and the number of
    /// bytes it takes. A short read is a malformed binary.
    pub fn decode(bytes: &[u8], pos: usize) -> (r: Result<(Operand, usize), Error>)
        ensures
            r matches Ok((op, n)) ==> spec_decode_operand(bytes@, pos as int) == Some((op, n as int)),
            r matches Err(e) ==> spec_decode_operand(bytes@, pos as int) is None && e.kind
                == ErrorKind::MalformedBinary,
    {
        if pos >= bytes.len() {
            return Err(Error::of_kind(ErrorKind::MalformedBinary, "Unexpected end of operand"));
        }
        let first_byte = bytes[pos];
        let addr_mode = first_byte / 64;
        let register_num = (first_byte / 16) % 4;
        let sign = (first_byte / 8) % 2;
        let value_size = (first_byte % 8) as usize;
        if bytes.len() - pos - 1 < value_size {
            return Err(Error::of_kind(ErrorKind::MalformedBinary, "Unexpected end of operand value"));
        }
        let ghost vb = bytes@.subrange(pos + 1, pos + 1 + value_size);
        let mut uvalue: u64 = 0;
        let mut i: usize = value_size;
        proof {
            lemma_pow256_seven();
            assert(vb.subrange(i as int, value_size as int) =~= Seq::<u8>::empty());
        }
        while i > 0
            invariant
                i <= value_size <= 7,
                pos + 1 + value_size <= bytes.len(),
                vb == bytes@.subrange(pos + 1, pos + 1 + value_size),
                uvalue as nat == le_value(vb.subrange(i as int, value_size as int)),
                uvalue < pow256((value_size - i) as nat),
                pow256(7) == 72057594037927936,
            decreases i,
        {
            i = i - 1;
            let ghost tail = vb.subrange(i as int, value_size as int);
            assert(tail.drop_first() =~= vb.subrange(i + 1, value_size as int));
            proof {
                lemma_le_value_bound(tail);
                assert(pow256(tail.len()) <= pow256(7)) by {
                    lemma_pow256_monotone(tail.len(), 7);
                }
            }
            uvalue = uvalue * 256 + bytes[pos + 1 + i] as u64;
        }
        assert(vb.subrange(0, value_size as int) =~= vb);
        proof {
            lemma_le_value_bound(vb);
            lemma_pow256_monotone(vb.len(), 7);
        }
        let ivalue: i64 = if sign == 1 { -(uvalue as i64) } else { uvalue as i64 };
        let op = if addr_mode == 0 {
            Operand::Immediate(ivalue)
        } else if addr_mode == 1 {
            Operand::Register(register_num)
        } else if addr_mode == 2 {
            Operand::Reference { register: register_num, offset: ivalue }
        } else {
            Operand::Stack(uvalue)
        };
        Ok((op, 1 + value_size))
    }
}

pub proof fn lemma_pow256_monotone(a: nat, b: nat)
    requires
        a <= b,
    ensures
        pow256(a) <= pow256(b),
    decreases b,
{
    if a < b {
        lemma_pow256_monotone(a, (b - 1) as nat);
        lemma_pow256_positive((b - 1) as nat);
    }
}


impl Opcode {
    /// Decodes the instruction at the start of `bytes`; returns it and the number of bytes
    /// it takes. An unknown instruction id, a short read, or operands that do not match
    /// what the instruction expects, in number or in mode, are a malformed binary.
    pub fn decode(bytes: &[u8]) -> (r: Result<(Opcode, usize), Error>)
        ensures
            r matches Ok((op, n)) ==> spec_decode_opcode(bytes@) == Some(
                (op.instruction, op.operands@, n as int),
            ),
            r matches Err(e) ==> spec_decode_opcode(bytes@) is None && e.kind
                == ErrorKind::MalformedBinary,
    {
        if bytes.len() == 0 {
            return Err(Error::of_kind(ErrorKind::MalformedBinary, "Unexpected end of instruction"));
        }
        let first_byte = bytes[0];
        let operand_count = (first_byte / 64) as usize;
        let instruction = Instruction::decode(first_byte % 64)?;
        let mut operands: Vec<Operand> = Vec::new();
        let mut pos: usize = 1;
        let mut k: usize = 0;
        while k < operand_count
            invariant
                k <= operand_count <= 3,
                bytes@.len() > 0,
                operand_count == bytes@[0] / 64,
                spec_from_value(bytes@[0] % 64) == Some(instruction),
                1 <= pos <= bytes.len(),
                spec_decode_operands(bytes@, 1, operand_count as nat) == match spec_decode_operands(
                    bytes@,
                    pos as int,
                    (operand_count - k) as nat,
                ) {
                    None => None,
                    Some((rest, end)) => Some((operands@ + rest, end)),
                },
            decreases operand_count - k,
        {
            let (op, n) = match Operand::decode(bytes, pos) {
                Ok(x) => x,
                Err(e) => {
                    assert(spec_decode_operands(bytes@, pos as int, (operand_count - k) as nat) is None);
                    assert(spec_decode_operands(bytes@, 1, (bytes@[0] / 64) as nat) is None);
                    assert(spec_decode_opcode(bytes@) is None);
                    return Err(e);
                },
            };
            let ghost old_ops = operands@;
            operands.push(op);
            proof {
                match spec_decode_operands(bytes@, pos + n, (operand_count - k - 1) as nat) {
                    None => {},
                    Some((rest, end)) => {
                        assert(old_ops + (seq![op] + rest) =~= operands@ + rest);
                    },
                }
            }
            pos = pos + n;
            k = k + 1;
        }
        assert(operands@ + Seq::<Operand>::empty() =~= operands@);
        assert(spec_decode_operands(bytes@, 1, operand_count as nat) == Some((operands@, pos as int)));
        assert(spec_decode_operands(bytes@, 1, (bytes@[0] / 64) as nat) == Some((operands@, pos as int)));
        let descriptor = instruction.descriptor();
        if descriptor.operands.len() != operands.len() {
            return Err(Error::of_kind(ErrorKind::MalformedBinary, "Wrong number of operands"));
        }
        let mut i: usize = 0;
        while i < descriptor.operands.len()
            invariant
                descriptor.operands@ == instruction.spec_operand_modes(),
                bytes@.len() > 0,
                spec_from_value(bytes@[0] % 64) == Some(instruction),
                spec_decode_operands(bytes@, 1, (bytes@[0] / 64) as nat) == Some((operands@, pos as int)),
                operands@.len() == descriptor.operands@.len(),
                i <= operands@.len(),
                forall|j: int| 0 <= j < i ==> (#[trigger] operands@[j]).spec_mode().spec_can_be_used_as(descriptor.operands@[j]),
            decreases descriptor.operands.len() - i,
        {
            if !operands[i].mode().can_be_used_as(&descriptor.operands[i]) {
                assert(!operands_fit(operands@, instruction.spec_operand_modes()));
                assert(spec_decode_operands(bytes@, 1, (bytes@[0] / 64) as nat) == Some((operands@, pos as int)));
                assert(spec_decode_opcode(bytes@) is None);
                return Err(Error::of_kind(ErrorKind::MalformedBinary, "Operand cannot be used in this mode"));
            }
            i = i + 1;
        }
        Ok((Opcode { instruction, operands }, pos))
    }
}

/// Decoding the encoding of an instruction gives back the instruction and its operands,
/// whatever follows it, when the operands can be encoded and fit what the instruction expects.
pub proof fn lemma_opcode_round_trip(i: Instruction, ops: Seq<Operand>, rest: Seq<u8>)
    requires
        operands_fit(ops, i.spec_operand_modes()),
        forall|k: int| 0 <= k < ops.len() ==> operand_encodable(#[trigger] ops[k]),
    ensures
        spec_decode_opcode(spec_encode_opcode(i, ops) + rest) == Some(
            (i, ops, spec_encode_opcode(i, ops).len() as int),
        ),
{
    let b = spec_encode_opcode(i, ops) + rest;
    lemma_value_round_trip(i);
    assert(ops.len() <= 2);
    assert(b[0] == instruction_byte(i, ops.len()));
    assert(b[0] % 64 == i.spec_value());
    assert(b[0] / 64 == ops.len());
    assert(b.subrange(1, b.len() as int) =~= spec_encode_operands(ops) + rest);
    lemma_operands_round_trip(ops, b, 1, rest);
}

/// Decoding encoded operands placed at `pos` gives them back.
proof fn lemma_operands_round_trip(ops: Seq<Operand>, b: Seq<u8>, pos: int, rest: Seq<u8>)
    requires
        forall|k: int| 0 <= k < ops.len() ==> operand_encodable(#[trigger] ops[k]),
        0 <= pos <= b.len(),
        b.subrange(pos, b.len() as int) == spec_encode_operands(ops) + rest,
    ensures
        spec_decode_operands(b, pos, ops.len()) == Some((ops, pos + spec_encode_operands(ops).len())),
    decreases ops.len(),
{
    if ops.len() == 0 {
        assert(ops =~= Seq::<Operand>::empty());
    } else {
        let e0 = spec_encode_operand(ops[0]);
        let tail = spec_encode_operands(ops.drop_first());
        let after = tail + rest;
        assert(spec_encode_operands(ops) == e0 + tail);
        assert(b.subrange(pos, b.len() as int) =~= e0 + after);
        lemma_operand_round_trip(ops[0], after);
        lemma_decode_operand_shift(b, pos, e0 + after);
        assert forall|k: int| 0 <= k < ops.drop_first().len() implies operand_encodable(
            #[trigger] ops.drop_first()[k],
        ) by {
            assert(ops.drop_first()[k] == ops[k + 1]);
        }
        let s = b.subrange(pos, b.len() as int);
        assert(b.subrange(pos + e0.len(), b.len() as int) =~= s.subrange(e0.len() as int, s.len() as int));
        assert(s.subrange(e0.len() as int, s.len() as int) =~= tail + rest);
        lemma_operands_round_trip(ops.drop_first(), b, pos + e0.len(), rest);
        assert(seq![ops[0]] + ops.drop_first() =~= ops);
    }
}

/// Decoding an operand at `pos` reads the same as decoding it at the start of what follows `pos`.
proof fn lemma_decode_operand_shift(b: Seq<u8>, pos: int, s: Seq<u8>)
    requires
        0 <= pos <= b.len(),
        b.subrange(pos, b.len() as int) == s,
    ensures
        spec_decode_operand(b, pos) == spec_decode_operand(s, 0),
{
    if pos < b.len() {
        assert(b[pos] == s[0]);
        let size = (s[0] % 8) as int;
        if b.len() >= pos + 1 + size {
            assert(b.subrange(pos + 1, pos + 1 + size) =~= s.subrange(1, 1 + size));
        }
    }
}


/// What `str::to_lowercase` makes of some text.
pub uninterp spec fn lowercase_of(s: Seq<char>) -> Seq<char>;

/// Relies on `str::to_lowercase`: the text in lower case; the result depends on the
/// characters alone.
#[verifier::external_body]
fn lowercase(s: &str) -> (r: String)
    ensures
        r@ == lowercase_of(s@),
{
    s.to_lowercase()
}

/// Whether two texts are the same, compared by their UTF-8 bytes.
pub fn same_text(a: &str, b: &str) -> (r: bool)
    ensures
        r == (a@ == b@),
{
    let ab = a.as_bytes();
    let bb = b.as_bytes();
    proof {
        vstd::utf8::encode_utf8_decode_utf8(a@);
        vstd::utf8::encode_utf8_decode_utf8(b@);
    }
    if ab.len() != bb.len() {
        return false;
    }
    let mut i: usize = 0;
    while i < ab.len()
        invariant
            ab@ == vstd::utf8::encode_utf8(a@),
            bb@ == vstd::utf8::encode_utf8(b@),
            ab@.len() == bb@.len(),
            i <= ab@.len(),
            forall|j: int| 0 <= j < i ==> ab@[j] == bb@[j],
        decreases ab@.len() - i,
    {
        if ab[i] != bb[i] {
            return false;
        }
        i = i + 1;
    }
    assert(ab@ =~= bb@);
    true
}

impl Instruction {
    /// The instruction with the given mnemonic, in any letter case.
    pub fn from_mnemonic(mnemonic: &str) -> (r: Option<Instruction>)
        ensures
            r matches Some(i) ==> i.spec_mnemonic() == lowercase_of(mnemonic@),
            r is None ==> forall|i: Instruction| #[trigger] i.spec_mnemonic() != lowercase_of(mnemonic@),
    {
        let lower = lowercase(mnemonic);
        let mut v: u8 = 0;
        while v < 64
            invariant
                v <= 64,
                lower@ == lowercase_of(mnemonic@),
                forall|w: u8| w < v ==> (#[trigger] spec_from_value(w) matches Some(i) ==> i.spec_mnemonic() != lower@),
            decreases 64 - v,
        {
            if let Some(i) = Instruction::from_value(v) {
                if same_text(lower.as_str(), i.descriptor().mnemonic) {
                    return Some(i);
                }
            }
            v = v + 1;
        }
        assert forall|i: Instruction| #[trigger] i.spec_mnemonic() != lowercase_of(mnemonic@) by {
            lemma_value_round_trip(i);
            assert(spec_from_value(i.spec_value()) == Some(i));
        }
        None
    }
}

} // verus!
