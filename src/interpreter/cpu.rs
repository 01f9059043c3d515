use crate::common::{Error, ErrorKind, MAX_MEMORY_SIZE, REGISTER_NUM, WORD_BYTE_SIZE};
use crate::interpreter::memory::{pinned_kept, survivors_kept, Memory};
use crate::interpreter::regions::spec_total_region_len;
use crate::interpreter::{word_modulus, DataWord};
use crate::opcodes::{spec_decode_opcode, Instruction, Opcode, Operand};
use vstd::prelude::*;

verus! {

/// Size of the stack given to a program, in bytes.
pub const STACK_SIZE: u64 = 2040;

/// Longest encoding of one instruction: its byte and three operands of eight bytes.
pub const MAX_INSTRUCTION_SIZE: u64 = 25;

/// `(index + 1) * 8` modulo `2^64`: how far above the stack pointer a native call
/// parameter lies.
pub open spec fn param_offset(index: u64) -> u64 {
    ((((index % 0x2000_0000_0000_0000) + 1) % 0x2000_0000_0000_0000) * 8) as u64
}

/// `a + b` modulo `2^64`.
pub open spec fn wrap_add(a: u64, b: u64) -> u64 {
    ((a + b) % word_modulus()) as u64
}

/// `a - b` modulo `2^64`.
pub open spec fn wrap_sub(a: u64, b: u64) -> u64 {
    ((a - b + word_modulus()) % word_modulus()) as u64
}

/// `a + b` modulo `2^64`.
pub fn wrapping_add_word(a: u64, b: u64) -> (r: u64)
    ensures
        r == wrap_add(a, b),
{
    if a <= u64::MAX - b {
        a + b
    } else {
        a - (u64::MAX - b) - 1
    }
}

/// `a - b` modulo `2^64`.
pub fn wrapping_sub_word(a: u64, b: u64) -> (r: u64)
    ensures
        r == wrap_sub(a, b),
{
    if a >= b {
        a - b
    } else {
        u64::MAX - (b - a) + 1
    }
}

/// The registers, the two counters and the two flags.
pub struct CpuState {
    pub registers: Vec<DataWord>,
    pub stack_pointer: u64,
    pub instruction_pointer: u64,
    pub carry_flag: bool,
    pub zero_flag: bool,
}

/// What the host must do after a step.
#[derive(Debug)]
pub enum StepAction {
    /// Nothing; go on with the next step.
    Continue,
    /// The program stopped.
    Halt,
    /// Write these bytes to standard output.
    Print(Vec<u8>),
    /// Suspend for this many milliseconds.
    Sleep(u64),
    /// Show the processor state with this value.
    DebugCpu(DataWord),
    /// Show the allocation table.
    DebugMemory,
    /// Show these bytes, read at this address.
    DebugDump { address: u64, bytes: Vec<u8> },
}

/// The machine: a processor and its memory.
pub struct Interpreter {
    pub cpu_state: CpuState,
    pub memory: Memory,
}

impl Interpreter {
    pub open spec fn wf(&self) -> bool {
        &&& self.memory.wf()
        &&& self.cpu_state.registers@.len() == REGISTER_NUM
    }

    /// The address an operand names in memory, if it names one, with the stack pointer
    /// at `sp`.
    pub open spec fn spec_address_at(&self, op: Operand, sp: u64) -> Option<u64> {
        match op {
            Operand::Reference { register, offset } => if register < 4 && self.cpu_state.registers@[register as int].is_reference {
                Some(wrap_add(self.cpu_state.registers@[register as int].value, offset as u64))
            } else {
                None
            },
            Operand::Stack(offset) => Some(wrap_add(sp, offset)),
            _ => None,
        }
    }

    /// The address an operand names in memory, if it names one.
    pub open spec fn spec_address(&self, op: Operand) -> Option<u64> {
        self.spec_address_at(op, self.cpu_state.stack_pointer)
    }

    /// Whether a tagged word can be written where an operand names, with the stack pointer
    /// at `sp`: a register that exists, or a mapped word.
    pub open spec fn spec_writable_at(&self, op: Operand, sp: u64) -> bool {
        match op {
            Operand::Register(i) => i < 4,
            Operand::Immediate(_) => false,
            _ => self.spec_address_at(op, sp) matches Some(a) && self.memory.spec_data_word(a) is Some,
        }
    }

    /// Whether a tagged word can be written where an operand names.
    pub open spec fn spec_writable(&self, op: Operand) -> bool {
        self.spec_writable_at(op, self.cpu_state.stack_pointer)
    }

    /// The tagged word an operand reads, if it can be read.
    pub open spec fn spec_read(&self, op: Operand) -> Option<DataWord> {
        match op {
            Operand::Immediate(v) => Some(DataWord { value: v as u64, is_reference: false }),
            Operand::Register(i) => if i < 4 {
                Some(self.cpu_state.registers@[i as int])
            } else {
                None
            },
            _ => match self.spec_address(op) {
                Some(a) => self.memory.spec_data_word(a),
                None => None,
            },
        }
    }

    /// The address a reference or stack operand names. The register of a reference must
    /// hold a reference.
    pub fn get_effective_address(&self, op: &Operand) -> (r: Result<u64, Error>)
        requires
            self.wf(),
            !(*op is Immediate),
            !(*op is Register),
        ensures
            r matches Ok(a) ==> self.spec_address(*op) == Some(a),
            r matches Err(e) ==> self.spec_address(*op) is None && match *op {
                Operand::Reference { register, .. } => if register < 4 { e.kind == ErrorKind::TypeMismatch } else { e.kind == ErrorKind::MalformedBinary },
                _ => false,
            },
    {
        match op {
            Operand::Reference { register, offset } => {
                if *register >= 4 {
                    return Err(Error::of_kind(ErrorKind::MalformedBinary, "No such register"));
                }
                let base = self.cpu_state.registers[*register as usize].expect_reference()?;
                Ok(wrapping_add_word(base, *offset as u64))
            },
            Operand::Stack(offset) => Ok(wrapping_add_word(self.cpu_state.stack_pointer, *offset)),
            _ => Err(Error::of_kind(ErrorKind::MalformedBinary, "Operand names no address")),
        }
    }

    /// Reads the tagged word an operand names.
    pub fn read(&self, op: &Operand) -> (r: Result<DataWord, Error>)
        requires
            self.wf(),
        ensures
            r matches Ok(w) ==> self.spec_read(*op) == Some(w),
            r is Err ==> self.spec_read(*op) is None,
            r matches Err(e) ==> (*op matches Operand::Reference { register, .. } && register < 4
                && !self.cpu_state.registers@[register as int].is_reference ==> e.kind == ErrorKind::TypeMismatch),
    {
        match op {
            Operand::Immediate(v) => Ok(DataWord { value: *v as u64, is_reference: false }),
            Operand::Register(i) => {
                if *i >= 4 {
                    return Err(Error::of_kind(ErrorKind::MalformedBinary, "No such register"));
                }
                Ok(self.cpu_state.registers[*i as usize])
            },
            _ => {
                let addr = self.get_effective_address(op)?;
                self.memory.get_data_word(addr)
            },
        }
    }
}


/// An arithmetic or bitwise operation of two operands.
#[derive(PartialEq, Eq, Structural, Clone, Copy, Debug)]
pub enum BinaryOp {
    Add,
    Subtract,
    Multiply,
    Divide,
    And,
    Or,
    Xor,
    ShiftLeft,
    ShiftRight,
}

/// The result of `dst op src`, with the carry it sets, or `None` for a division by zero.
pub open spec fn spec_apply(op: BinaryOp, dst: DataWord, src: DataWord) -> Option<(u64, bool)> {
    let a = dst.value;
    let b = src.value;
    match op {
        BinaryOp::Add => Some((((a + b) % word_modulus()) as u64, a + b >= word_modulus())),
        BinaryOp::Subtract => Some((wrap_sub(a, b), a < b)),
        BinaryOp::Multiply => Some((((a * b) % word_modulus()) as u64, a * b >= word_modulus())),
        BinaryOp::Divide => if b == 0 { None } else { Some(((a / b) as u64, false)) },
        BinaryOp::And => Some((a & b, false)),
        BinaryOp::Or => Some((a | b, false)),
        BinaryOp::Xor => Some((a ^ b, false)),
        BinaryOp::ShiftLeft => Some((a << (b % 64), b >= 64)),
        BinaryOp::ShiftRight => Some((a >> (b % 64), b >= 64)),
    }
}

/// `dst op src`, the carry it sets, and the tag: a reference if either operand was.
pub fn apply(op: BinaryOp, dst: DataWord, src: DataWord) -> (r: Result<(DataWord, bool), Error>)
    ensures
        r matches Ok((w, c)) ==> spec_apply(op, dst, src) == Some((w.value, c)) && w.is_reference == (dst.is_reference || src.is_reference),
        r matches Err(e) ==> spec_apply(op, dst, src) is None && e.kind == ErrorKind::DivideByZero,
{
    let tag = dst.is_reference || src.is_reference;
    match op {
        BinaryOp::Add => Ok(dst.overflowing_add(src)),
        BinaryOp::Subtract => Ok(dst.overflowing_sub(src)),
        BinaryOp::Multiply => Ok(dst.overflowing_mul(src)),
        BinaryOp::Divide => dst.overflowing_div(src),
        BinaryOp::And => Ok((DataWord { value: dst.value & src.value, is_reference: tag }, false)),
        BinaryOp::Or => Ok((DataWord { value: dst.value | src.value, is_reference: tag }, false)),
        BinaryOp::Xor => Ok((DataWord { value: dst.value ^ src.value, is_reference: tag }, false)),
        BinaryOp::ShiftLeft => Ok(dst.overflowing_shl(src)),
        BinaryOp::ShiftRight => Ok(dst.overflowing_shr(src)),
    }
}

/// Whether registers `regs` and memory `mem` are those of `old` with `value` written where
/// `op` names, the stack pointer being at `sp`; nothing else changes.
pub open spec fn written_at(old: &Interpreter, sp: u64, regs: Seq<DataWord>, mem: &Memory, op: Operand, value: DataWord) -> bool {
    match op {
        Operand::Register(i) => i < 4 && regs == old.cpu_state.registers@.update(i as int, value) && *mem == old.memory,
        Operand::Immediate(_) => false,
        _ => old.spec_address_at(op, sp) matches Some(a) && mem.spec_data_word(a) == Some(value)
            && mem.heap@ == old.memory.heap_after_data_word(a, value)
            && regs == old.cpu_state.registers@
            && mem.allocations@ == old.memory.allocations@
            && mem.regions@ == old.memory.regions@
            && mem.virtual_mapper == old.memory.virtual_mapper,
    }
}

/// Whether registers `regs` and memory `mem` are those of `old` with `value` written where
/// `op` names; nothing else changes.
pub open spec fn written(old: &Interpreter, regs: Seq<DataWord>, mem: &Memory, op: Operand, value: DataWord) -> bool {
    written_at(old, old.cpu_state.stack_pointer, regs, mem, op, value)
}

/// The arithmetic or bitwise operation an instruction performs, if any.
pub open spec fn binary_op_of(i: Instruction) -> Option<BinaryOp> {
    match i {
        Instruction::Add => Some(BinaryOp::Add),
        Instruction::Subtract => Some(BinaryOp::Subtract),
        Instruction::Multiply => Some(BinaryOp::Multiply),
        Instruction::Divide => Some(BinaryOp::Divide),
        Instruction::BitwiseAnd => Some(BinaryOp::And),
        Instruction::BitwiseOr => Some(BinaryOp::Or),
        Instruction::BitwiseXor => Some(BinaryOp::Xor),
        Instruction::ShiftLeft => Some(BinaryOp::ShiftLeft),
        Instruction::ShiftRight => Some(BinaryOp::ShiftRight),
        _ => None,
    }
}

/// What a data instruction that succeeded did, from the state before it to the state after
/// it: moves write the source with flags set from it, arithmetic writes `dst op src` with
/// the carry from the operation, comparisons set the flags, pushes write at the stack
/// pointer and move it down.
pub open spec fn data_effect(old: &Interpreter, new: &Interpreter, i: Instruction, ops: Seq<Operand>) -> bool {
    &&& (!is_control(i) && i != Instruction::Push && i != Instruction::Pop) ==> new.cpu_state.stack_pointer == old.cpu_state.stack_pointer
    &&& (i == Instruction::Push || i == Instruction::Pop || i == Instruction::Reference || i == Instruction::Unreference
        || i == Instruction::New || i == Instruction::GarbageCollector) ==> new.cpu_state.zero_flag == old.cpu_state.zero_flag
        && new.cpu_state.carry_flag == old.cpu_state.carry_flag
    &&& i == Instruction::Move ==> ops.len() == 2 && old.spec_read(ops[0]) is Some
        && written(old, new.cpu_state.registers@, &new.memory, ops[1], old.spec_read(ops[0]).unwrap())
        && new.cpu_state.zero_flag == (old.spec_read(ops[0]).unwrap().value == 0) && !new.cpu_state.carry_flag
    &&& binary_op_of(i) matches Some(op) ==> ops.len() == 2 && ({
        let src = old.spec_read(ops[0]).unwrap();
        let dst = old.spec_read(ops[1]).unwrap();
        let (v, c) = spec_apply(op, dst, src).unwrap();
        &&& old.spec_read(ops[0]) is Some
        &&& old.spec_read(ops[1]) is Some
        &&& spec_apply(op, dst, src) is Some
        &&& new.cpu_state.carry_flag == c
        &&& new.cpu_state.zero_flag == (v == 0)
        &&& written(old, new.cpu_state.registers@, &new.memory, ops[1], DataWord { value: v, is_reference: dst.is_reference || src.is_reference })
    })
    &&& i == Instruction::NoOperation ==> same_but_ip(old, new)
    &&& i == Instruction::Pop ==> ops.len() == 1 && ({
        let sp = wrap_add(old.cpu_state.stack_pointer, 8);
        &&& old.memory.spec_data_word(sp) is Some
        &&& new.cpu_state.stack_pointer == sp
        &&& written_at(old, sp, new.cpu_state.registers@, &new.memory, ops[0], old.memory.spec_data_word(sp).unwrap())
    })
    &&& i == Instruction::New ==> ops.len() == 2 && old.spec_read(ops[0]) is Some && ({
        let w = new.spec_read(ops[1]).unwrap();
        let size = old.spec_read(ops[0]).unwrap().value;
        &&& new.spec_read(ops[1]) is Some
        &&& w.is_reference
        &&& forall|t: int| 0 <= t < size ==> (#[trigger] new.memory.spec_locate((w.value + t) as u64)) is Some
            && new.memory.spec_locate((w.value + t) as u64).unwrap().1 == t
    })
    &&& i == Instruction::Compare ==> new.memory == old.memory && new.cpu_state.registers == old.cpu_state.registers
        && new.cpu_state.stack_pointer == old.cpu_state.stack_pointer
        && ops.len() == 2 && old.spec_read(ops[0]) is Some && old.spec_read(ops[1]) is Some
        && new.cpu_state.zero_flag == (old.spec_read(ops[0]).unwrap().value == old.spec_read(ops[1]).unwrap().value)
        && new.cpu_state.carry_flag == (old.spec_read(ops[0]).unwrap().value >= old.spec_read(ops[1]).unwrap().value)
    &&& i == Instruction::Push ==> ops.len() == 1 && old.spec_read(ops[0]) is Some
        && push_post(old, new, old.spec_read(ops[0]).unwrap())
    &&& i == Instruction::BitwiseNot ==> ops.len() == 1 && old.spec_read(ops[0]) is Some && ({
        let v = old.spec_read(ops[0]).unwrap();
        &&& written(old, new.cpu_state.registers@, &new.memory, ops[0], DataWord { value: !v.value, is_reference: v.is_reference })
        &&& new.cpu_state.zero_flag == (!v.value == 0)
        &&& !new.cpu_state.carry_flag
    })
    &&& (i == Instruction::Reference || i == Instruction::Unreference) ==> ops.len() == 1 && old.spec_read(ops[0]) is Some
        && written(old, new.cpu_state.registers@, &new.memory, ops[0],
            DataWord { is_reference: i == Instruction::Reference, ..old.spec_read(ops[0]).unwrap() })
    &&& i == Instruction::GarbageCollector ==> new.cpu_state.registers == old.cpu_state.registers
        && survivors_kept(&old.memory, &new.memory) && pinned_kept(&old.memory, &new.memory)
        && (forall|id: u64| #[trigger] old.memory.reachable(old.cpu_state.registers@, id) ==> new.memory.has_allocation(id))
        && (forall|k: int| 0 <= k < new.memory.allocations@.len() ==> old.memory.reachable(old.cpu_state.registers@, #[trigger] new.memory.allocations@[k].id))
}

/// Whether an instruction transfers control: a jump, a call or a return.
pub open spec fn is_control(i: Instruction) -> bool {
    i == Instruction::Jump || i == Instruction::JumpEqual || i == Instruction::JumpNotEqual || i == Instruction::JumpGreater
        || i == Instruction::JumpGreaterEqual || i == Instruction::JumpLess || i == Instruction::JumpLessEqual
        || i == Instruction::Call || i == Instruction::Return
}

/// Whether an instruction calls a native service, shows a diagnostic, or halts.
pub open spec fn is_service(i: Instruction) -> bool {
    i == Instruction::CallNative || i == Instruction::DebugCpu || i == Instruction::DebugMemory
        || i == Instruction::DebugDump || i == Instruction::Halt
}

/// Whether a `new` reads its size and writes a register, so that only the allocation
/// itself can fail.
pub open spec fn new_into_register(m: &Interpreter, ops: Seq<Operand>) -> bool {
    &&& ops.len() == 2
    &&& m.spec_read(ops[0]) is Some
    &&& ops[1] matches Operand::Register(x) && x < 4
}

/// Whether `new` equals `old` but for the instruction pointer.
pub open spec fn same_but_ip(old: &Interpreter, new: &Interpreter) -> bool {
    &&& new.memory == old.memory
    &&& new.cpu_state.registers == old.cpu_state.registers
    &&& new.cpu_state.stack_pointer == old.cpu_state.stack_pointer
    &&& new.cpu_state.zero_flag == old.cpu_state.zero_flag
    &&& new.cpu_state.carry_flag == old.cpu_state.carry_flag
}

/// Whether an instruction succeeds from this state: its operands can be read and its
/// destination written, a divisor is not zero, the stack word it uses is mapped, a return
/// finds a reference, a native call names a service whose parameters can be read. An
/// allocation depends on room in the heap, so `new` is not covered.
pub open spec fn spec_can_execute(m: &Interpreter, i: Instruction, ops: Seq<Operand>) -> bool {
    let sp = m.cpu_state.stack_pointer;
    match i {
        Instruction::NoOperation | Instruction::Halt | Instruction::DebugMemory | Instruction::GarbageCollector => true,
        Instruction::Move => ops.len() == 2 && m.spec_read(ops[0]) is Some && m.spec_writable(ops[1]),
        Instruction::Add | Instruction::Subtract | Instruction::Multiply | Instruction::Divide | Instruction::BitwiseAnd
        | Instruction::BitwiseOr | Instruction::BitwiseXor | Instruction::ShiftLeft | Instruction::ShiftRight =>
            ops.len() == 2 && m.spec_read(ops[0]) is Some && m.spec_read(ops[1]) is Some
            && spec_apply(binary_op_of(i).unwrap(), m.spec_read(ops[1]).unwrap(), m.spec_read(ops[0]).unwrap()) is Some
            && m.spec_writable(ops[1]),
        Instruction::BitwiseNot | Instruction::Reference | Instruction::Unreference =>
            ops.len() == 1 && m.spec_read(ops[0]) is Some && m.spec_writable(ops[0]),
        Instruction::Compare => ops.len() == 2 && m.spec_read(ops[0]) is Some && m.spec_read(ops[1]) is Some,
        Instruction::Jump => ops.len() == 1 && m.spec_read(ops[0]) is Some,
        Instruction::JumpEqual | Instruction::JumpNotEqual | Instruction::JumpGreater | Instruction::JumpGreaterEqual
        | Instruction::JumpLess | Instruction::JumpLessEqual =>
            jump_taken(i, m.cpu_state.zero_flag, m.cpu_state.carry_flag) ==> ops.len() == 1 && m.spec_read(ops[0]) is Some,
        Instruction::Call => ops.len() == 1 && m.spec_read(ops[0]) is Some && m.memory.spec_data_word(sp) is Some,
        Instruction::Return => ops.len() == 0 && m.memory.spec_data_word(wrap_add(sp, 8)) is Some
            && m.memory.spec_data_word(wrap_add(sp, 8)).unwrap().is_reference,
        Instruction::Push => ops.len() == 1 && m.spec_read(ops[0]) is Some && m.memory.spec_data_word(sp) is Some,
        Instruction::Pop => ops.len() == 1 && m.memory.spec_data_word(wrap_add(sp, 8)) is Some
            && m.spec_writable_at(ops[0], wrap_add(sp, 8)),
        Instruction::New => false,
        Instruction::CallNative => ops.len() == 1 && m.spec_read(ops[0]) is Some && ({
            let sel = m.spec_read(ops[0]).unwrap().value;
            &&& sel <= 2
            &&& sel == 0 ==> m.spec_native_print() is Some
            &&& sel == 2 ==> m.spec_param(0) is Some
        }),
        Instruction::DebugCpu => ops.len() == 1 && m.spec_read(ops[0]) is Some,
        Instruction::DebugDump => ops.len() == 2 && m.spec_read(ops[0]) is Some && m.spec_read(ops[1]) is Some
            && m.memory.spec_get(m.spec_read(ops[0]).unwrap().value, m.spec_read(ops[1]).unwrap().value as int) is Some,
    }
}

/// What a native call, a diagnostic or a halt that succeeded did and asked of the host.
pub open spec fn service_effect(old: &Interpreter, new: &Interpreter, i: Instruction, ops: Seq<Operand>, a: StepAction) -> bool {
    &&& i == Instruction::CallNative ==> ops.len() == 1 && old.spec_read(ops[0]) is Some && ({
        let sel = old.spec_read(ops[0]).unwrap().value;
        &&& sel == 0 ==> same_but_ip(old, new) && (a matches StepAction::Print(out) && old.spec_native_print() == Some(out@))
        &&& sel == 1 ==> a is Continue && new.memory == old.memory
            && new.cpu_state.stack_pointer == old.cpu_state.stack_pointer
            && new.cpu_state.registers@ == old.cpu_state.registers@.update(0, DataWord { value: new.cpu_state.registers@[0].value, is_reference: false })
        &&& sel == 2 ==> same_but_ip(old, new) && (a matches StepAction::Sleep(ms) && old.spec_param(0) matches Some(w) && w.value == ms)
    })
    &&& i == Instruction::DebugCpu ==> same_but_ip(old, new) && (a matches StepAction::DebugCpu(w) && old.spec_read(ops[0]) == Some(w))
    &&& i == Instruction::DebugDump ==> same_but_ip(old, new) && (a matches StepAction::DebugDump { address, bytes }
        && old.memory.spec_get(address, old.spec_read(ops[1]).unwrap().value as int) == Some(bytes@)
        && old.spec_read(ops[0]) is Some && old.spec_read(ops[0]).unwrap().value == address)
    &&& i == Instruction::DebugMemory ==> same_but_ip(old, new) && a is DebugMemory
    &&& i == Instruction::Halt ==> same_but_ip(old, new) && a is Halt
}

/// Whether a conditional jump is taken with the given flags.
pub open spec fn jump_taken(i: Instruction, zero: bool, carry: bool) -> bool {
    match i {
        Instruction::JumpEqual => zero,
        Instruction::JumpNotEqual => !zero,
        Instruction::JumpGreater => !zero && carry,
        Instruction::JumpGreaterEqual => carry,
        Instruction::JumpLess => !carry,
        Instruction::JumpLessEqual => zero || !carry,
        _ => true,
    }
}

/// What a control instruction that succeeded did, from the state before it (with the
/// instruction pointer already past it, at `next_ip`) to the state after it: a jump taken
/// moves to its operand, one not taken goes on; a call pushes the return address tagged as
/// a reference and moves to its operand; a return pops a reference and moves to it.
pub open spec fn control_effect(old: &Interpreter, new: &Interpreter, i: Instruction, ops: Seq<Operand>, next_ip: u64) -> bool {
    &&& (i == Instruction::Jump || i == Instruction::JumpEqual || i == Instruction::JumpNotEqual || i == Instruction::JumpGreater
        || i == Instruction::JumpGreaterEqual || i == Instruction::JumpLess || i == Instruction::JumpLessEqual) ==> {
        if jump_taken(i, old.cpu_state.zero_flag, old.cpu_state.carry_flag) {
            ops.len() == 1 && old.spec_read(ops[0]) is Some && new.cpu_state.instruction_pointer == old.spec_read(ops[0]).unwrap().value
                && new.memory == old.memory && new.cpu_state.registers == old.cpu_state.registers
                && new.cpu_state.stack_pointer == old.cpu_state.stack_pointer
        } else {
            new.cpu_state.instruction_pointer == next_ip && new.memory == old.memory
                && new.cpu_state.registers == old.cpu_state.registers
                && new.cpu_state.stack_pointer == old.cpu_state.stack_pointer
        }
    }
    &&& is_control(i) ==> new.cpu_state.zero_flag == old.cpu_state.zero_flag && new.cpu_state.carry_flag == old.cpu_state.carry_flag
        && new.cpu_state.registers == old.cpu_state.registers
    &&& i == Instruction::Call ==> ops.len() == 1 && old.spec_read(ops[0]) is Some
        && push_post(old, new, DataWord { value: next_ip, is_reference: true })
        && new.cpu_state.instruction_pointer == old.spec_read(ops[0]).unwrap().value
    &&& i == Instruction::Return ==> ({
        let sp = wrap_add(old.cpu_state.stack_pointer, 8);
        &&& old.memory.spec_data_word(sp) is Some
        &&& old.memory.spec_data_word(sp).unwrap().is_reference
        &&& new.cpu_state.instruction_pointer == old.memory.spec_data_word(sp).unwrap().value
        &&& new.cpu_state.stack_pointer == sp
        &&& new.memory == old.memory
    })
}

/// Two machines that differ only in their instruction pointers read, write and decide
/// alike.
proof fn lemma_views_agree(old: &Interpreter, mid: &Interpreter)
    requires
        mid.memory == old.memory,
        mid.cpu_state.registers == old.cpu_state.registers,
        mid.cpu_state.stack_pointer == old.cpu_state.stack_pointer,
        mid.cpu_state.zero_flag == old.cpu_state.zero_flag,
        mid.cpu_state.carry_flag == old.cpu_state.carry_flag,
    ensures
        forall|op: Operand, sp: u64| #[trigger] mid.spec_address_at(op, sp) == old.spec_address_at(op, sp),
        forall|op: Operand, sp: u64| #[trigger] mid.spec_writable_at(op, sp) == old.spec_writable_at(op, sp),
        forall|op: Operand| #[trigger] mid.spec_read(op) == old.spec_read(op),
        forall|op: Operand| #[trigger] mid.spec_writable(op) == old.spec_writable(op),
        forall|i: Instruction, ops: Seq<Operand>| #[trigger] spec_can_execute(mid, i, ops) == spec_can_execute(old, i, ops),
{
    assert forall|op: Operand, sp: u64| #[trigger] mid.spec_address_at(op, sp) == old.spec_address_at(op, sp) by {}
    assert forall|op: Operand| #[trigger] mid.spec_read(op) == old.spec_read(op) by {
        assert(mid.spec_address(op) == old.spec_address(op));
    }
    assert forall|op: Operand, sp: u64| #[trigger] mid.spec_writable_at(op, sp) == old.spec_writable_at(op, sp) by {
        assert(mid.spec_address_at(op, sp) == old.spec_address_at(op, sp));
    }
    assert forall|op: Operand| #[trigger] mid.spec_writable(op) == old.spec_writable(op) by {
        assert(mid.spec_writable_at(op, mid.cpu_state.stack_pointer) == old.spec_writable_at(op, old.cpu_state.stack_pointer));
    }
}

/// Whether `new` is `old` with `value` pushed: written at the stack pointer, which then
/// moves down one word.
pub open spec fn push_post(old: &Interpreter, new: &Interpreter, value: DataWord) -> bool {
    &&& new.memory.spec_data_word(old.cpu_state.stack_pointer) == Some(value)
    &&& new.cpu_state.stack_pointer == wrap_sub(old.cpu_state.stack_pointer, 8)
    &&& new.memory.allocations@ == old.memory.allocations@
    &&& new.memory.virtual_mapper == old.memory.virtual_mapper
}

/// Whether `new` is `old` after a pop that returned `value`: the stack pointer moves up
/// one word, and the word there is read.
pub open spec fn pop_post(old: &Interpreter, new: &Interpreter, value: DataWord) -> bool {
    &&& new.cpu_state.stack_pointer == wrap_add(old.cpu_state.stack_pointer, 8)
    &&& new.memory == old.memory
    &&& old.memory.spec_data_word(new.cpu_state.stack_pointer) == Some(value)
}

/// A word pushed and then popped comes back whole, its reference tag included.
pub proof fn lemma_push_then_pop(i0: &Interpreter, i1: &Interpreter, i2: &Interpreter, pushed: DataWord, popped: DataWord)
    requires
        push_post(i0, i1, pushed),
        pop_post(i1, i2, popped),
    ensures
        popped == pushed,
        i2.cpu_state.stack_pointer == i0.cpu_state.stack_pointer,
{
    let s = i0.cpu_state.stack_pointer;
    assert(wrap_add(wrap_sub(s, 8), 8) == s);
}

impl Interpreter {
    /// Writes a tagged word where an operand names; a constant cannot be written.
    pub fn write(&mut self, op: &Operand, value: DataWord) -> (r: Result<(), Error>)
        requires
            old(self).wf(),
        ensures
            final(self).wf(),
            r is Ok ==> written(old(self), final(self).cpu_state.registers@, &final(self).memory, *op, value),
            final(self).cpu_state.stack_pointer == old(self).cpu_state.stack_pointer,
            final(self).cpu_state.instruction_pointer == old(self).cpu_state.instruction_pointer,
            final(self).cpu_state.carry_flag == old(self).cpu_state.carry_flag,
            final(self).cpu_state.zero_flag == old(self).cpu_state.zero_flag,
            r is Ok <==> old(self).spec_writable(*op),
            r matches Err(e) ==> *final(self) == *old(self),
            r matches Err(e) ==> (*op is Immediate ==> e.kind == ErrorKind::BadDestination),
    {
        match op {
            Operand::Immediate(_) => Err(Error::of_kind(ErrorKind::BadDestination, "Immediate value can't be used as a destination")),
            Operand::Register(i) => {
                if *i >= 4 {
                    return Err(Error::of_kind(ErrorKind::MalformedBinary, "No such register"));
                }
                self.cpu_state.registers.set(*i as usize, value);
                Ok(())
            },
            _ => {
                let addr = self.get_effective_address(op)?;
                self.memory.set_data_word(addr, value)
            },
        }
    }

    /// Writes a tagged word, then clears the carry and sets the zero flag from the value.
    pub fn write_with_flags(&mut self, op: &Operand, value: DataWord) -> (r: Result<(), Error>)
        requires
            old(self).wf(),
        ensures
            final(self).wf(),
            r is Ok ==> final(self).cpu_state.zero_flag == (value.value == 0) && !final(self).cpu_state.carry_flag,
            r is Ok ==> written(old(self), final(self).cpu_state.registers@, &final(self).memory, *op, value),
            r is Ok <==> old(self).spec_writable(*op),
            final(self).cpu_state.stack_pointer == old(self).cpu_state.stack_pointer,
            final(self).cpu_state.instruction_pointer == old(self).cpu_state.instruction_pointer,
            r matches Err(e) ==> *final(self) == *old(self),
    {
        self.write(op, value)?;
        self.cpu_state.carry_flag = false;
        self.cpu_state.zero_flag = value.value == 0;
        Ok(())
    }

    /// Writes a tagged word at the stack pointer, then moves it down one word.
    pub fn push_stack(&mut self, value: DataWord) -> (r: Result<(), Error>)
        requires
            old(self).wf(),
        ensures
            final(self).wf(),
            r is Ok <==> old(self).memory.spec_data_word(old(self).cpu_state.stack_pointer) is Some,
            r is Ok ==> push_post(old(self), final(self), value),
            r is Err ==> *final(self) == *old(self),
            final(self).cpu_state.registers == old(self).cpu_state.registers,
            final(self).cpu_state.zero_flag == old(self).cpu_state.zero_flag,
            final(self).cpu_state.carry_flag == old(self).cpu_state.carry_flag,
            final(self).cpu_state.instruction_pointer == old(self).cpu_state.instruction_pointer,
    {
        self.memory.set_data_word(self.cpu_state.stack_pointer, value)?;
        self.cpu_state.stack_pointer = wrapping_sub_word(self.cpu_state.stack_pointer, WORD_BYTE_SIZE);
        Ok(())
    }

    /// Reads the tagged word one word above the stack pointer, then moves the stack pointer
    /// there.
    pub fn pop_stack(&mut self) -> (r: Result<DataWord, Error>)
        requires
            old(self).wf(),
        ensures
            final(self).wf(),
            final(self).memory == old(self).memory,
            final(self).cpu_state.registers == old(self).cpu_state.registers,
            final(self).cpu_state.instruction_pointer == old(self).cpu_state.instruction_pointer,
            final(self).cpu_state.zero_flag == old(self).cpu_state.zero_flag,
            final(self).cpu_state.carry_flag == old(self).cpu_state.carry_flag,
            r is Ok <==> old(self).memory.spec_data_word(wrap_add(old(self).cpu_state.stack_pointer, 8)) is Some,
            r matches Ok(w) ==> pop_post(old(self), final(self), w),
            r is Err ==> *final(self) == *old(self),
    {
        let sp = wrapping_add_word(self.cpu_state.stack_pointer, WORD_BYTE_SIZE);
        let value = self.memory.get_data_word(sp)?;
        self.cpu_state.stack_pointer = sp;
        Ok(value)
    }

    /// Fails unless the instruction has exactly the expected number of operands.
    pub fn ensure_operands(&self, op: &Opcode, expected_operands: usize) -> (r: Result<(), Error>)
        ensures
            r is Ok <==> op.operands@.len() == expected_operands,
            r matches Err(e) ==> e.kind == ErrorKind::MalformedBinary,
    {
        if op.operands.len() != expected_operands {
            Err(Error::of_kind(ErrorKind::MalformedBinary, "Wrong number of operands"))
        } else {
            Ok(())
        }
    }

    /// Applies `dst op src` to the two operands, writes the result to the second one, and
    /// sets the carry to the operation's overflow and the zero flag from the result.
    pub fn combine_with_carry(&mut self, opcode: &Opcode, op: BinaryOp) -> (r: Result<(), Error>)
        requires
            old(self).wf(),
        ensures
            final(self).wf(),
            r is Ok ==> opcode.operands@.len() == 2 && ({
                let src = old(self).spec_read(opcode.operands@[0]).unwrap();
                let dst = old(self).spec_read(opcode.operands@[1]).unwrap();
                let (v, c) = spec_apply(op, dst, src).unwrap();
                &&& old(self).spec_read(opcode.operands@[0]) is Some
                &&& old(self).spec_read(opcode.operands@[1]) is Some
                &&& spec_apply(op, dst, src) is Some
                &&& final(self).cpu_state.carry_flag == c
                &&& final(self).cpu_state.zero_flag == (v == 0)
                &&& written(old(self), final(self).cpu_state.registers@, &final(self).memory, opcode.operands@[1],
                    DataWord { value: v, is_reference: dst.is_reference || src.is_reference })
            }),
            final(self).cpu_state.stack_pointer == old(self).cpu_state.stack_pointer,
            final(self).cpu_state.instruction_pointer == old(self).cpu_state.instruction_pointer,
            r is Err ==> *final(self) == *old(self),
            r is Ok <==> opcode.operands@.len() == 2 && old(self).spec_read(opcode.operands@[0]) is Some
                && old(self).spec_read(opcode.operands@[1]) is Some
                && spec_apply(op, old(self).spec_read(opcode.operands@[1]).unwrap(), old(self).spec_read(opcode.operands@[0]).unwrap()) is Some
                && old(self).spec_writable(opcode.operands@[1]),
    {
        self.ensure_operands(opcode, 2)?;
        let src = self.read(&opcode.operands[0])?;
        let dst = self.read(&opcode.operands[1])?;
        let (result, carry) = apply(op, dst, src)?;
        self.write_with_flags(&opcode.operands[1], result)?;
        self.cpu_state.carry_flag = carry;
        Ok(())
    }

    /// Sets the instruction pointer to the value of the only operand.
    pub fn jump(&mut self, opcode: &Opcode) -> (r: Result<(), Error>)
        requires
            old(self).wf(),
        ensures
            final(self).wf(),
            r is Ok ==> opcode.operands@.len() == 1 && old(self).spec_read(opcode.operands@[0]) is Some
                && final(self).cpu_state.instruction_pointer == old(self).spec_read(opcode.operands@[0]).unwrap().value,
            r is Ok <==> opcode.operands@.len() == 1 && old(self).spec_read(opcode.operands@[0]) is Some,
            final(self).cpu_state.zero_flag == old(self).cpu_state.zero_flag,
            final(self).cpu_state.carry_flag == old(self).cpu_state.carry_flag,
            final(self).memory == old(self).memory,
            final(self).cpu_state.registers == old(self).cpu_state.registers,
            final(self).cpu_state.stack_pointer == old(self).cpu_state.stack_pointer,
            r is Err ==> *final(self) == *old(self),
    {
        self.ensure_operands(opcode, 1)?;
        let addr = self.read(&opcode.operands[0])?.value;
        self.cpu_state.instruction_pointer = addr;
        Ok(())
    }

    /// Jumps when each given flag has its expected value.
    pub fn conditional_jump(&mut self, opcode: &Opcode, zero_flag: Option<bool>, carry_flag: Option<bool>) -> (r: Result<(), Error>)
        requires
            old(self).wf(),
        ensures
            final(self).wf(),
            ({
                let taken = (zero_flag matches Some(z) ==> old(self).cpu_state.zero_flag == z)
                    && (carry_flag matches Some(c) ==> old(self).cpu_state.carry_flag == c);
                &&& !taken ==> *final(self) == *old(self) && r is Ok
                &&& (taken && r is Ok) ==> final(self).cpu_state.instruction_pointer == old(self).spec_read(opcode.operands@[0]).unwrap().value
                    && opcode.operands@.len() == 1 && old(self).spec_read(opcode.operands@[0]) is Some
                &&& taken ==> (r is Ok <==> opcode.operands@.len() == 1 && old(self).spec_read(opcode.operands@[0]) is Some)
            }),
            r is Err ==> *final(self) == *old(self),
            final(self).memory == old(self).memory,
            final(self).cpu_state.registers == old(self).cpu_state.registers,
            final(self).cpu_state.stack_pointer == old(self).cpu_state.stack_pointer,
            final(self).cpu_state.zero_flag == old(self).cpu_state.zero_flag,
            final(self).cpu_state.carry_flag == old(self).cpu_state.carry_flag,
    {
        let zero_matches = match zero_flag {
            None => true,
            Some(expected) => self.cpu_state.zero_flag == expected,
        };
        let carry_matches = match carry_flag {
            None => true,
            Some(expected) => self.cpu_state.carry_flag == expected,
        };
        if zero_matches && carry_matches {
            self.jump(opcode)
        } else {
            Ok(())
        }
    }

    /// Reads the native call parameter `index`: the word `(index + 1) * 8` bytes above the
    /// stack pointer, all modulo `2^64`.
    pub fn read_native_parameter(&self, index: u64) -> (r: Result<DataWord, Error>)
        requires
            self.wf(),
        ensures
            r matches Ok(w) ==> self.memory.spec_data_word(wrap_add(self.cpu_state.stack_pointer, param_offset(index))) == Some(w),
            r is Err ==> self.memory.spec_data_word(wrap_add(self.cpu_state.stack_pointer, param_offset(index))) is None,
    {
        let slot = (index % 0x2000_0000_0000_0000 + 1) % 0x2000_0000_0000_0000;
        let address = wrapping_add_word(self.cpu_state.stack_pointer, slot * WORD_BYTE_SIZE);
        self.memory.get_data_word(address)
    }
}


/// What `String::from_utf8_lossy` makes of some bytes, as UTF-8 bytes.
pub uninterp spec fn utf8_lossy(b: Seq<u8>) -> Seq<u8>;

/// Relies on `String::from_utf8_lossy`: the bytes as text, each invalid sequence replaced;
/// the result depends on the bytes alone.
#[verifier::external_body]
fn lossy_utf8(b: &[u8]) -> (r: Vec<u8>)
    ensures
        r@ == utf8_lossy(b@),
{
    String::from_utf8_lossy(b).into_owned().into_bytes()
}

/// Relies on `rand::random`: a fresh pseudorandom word. Nothing is promised of its value.
#[verifier::external_body]
fn random_word() -> u64 {
    rand::random::<u64>()
}

/// The decimal digits of `n`, most significant first.
pub open spec fn spec_decimal(n: nat) -> Seq<u8>
    decreases n,
{
    if n < 10 {
        seq![(48 + n) as u8]
    } else {
        spec_decimal(n / 10) + seq![(48 + n % 10) as u8]
    }
}

/// The decimal digits of `n`, most significant first.
pub fn decimal(n: u64) -> (r: Vec<u8>)
    ensures
        r@ == spec_decimal(n as nat),
    decreases n,
{
    if n < 10 {
        let mut r: Vec<u8> = Vec::new();
        r.push((48 + n) as u8);
        assert(r@ =~= seq![(48 + n) as u8]);
        r
    } else {
        let mut r = decimal(n / 10);
        r.push((48 + n % 10) as u8);
        r
    }
}

/// A signed value in decimal, with a minus sign when negative.
pub open spec fn spec_signed_decimal(v: i64) -> Seq<u8> {
    if v < 0 {
        seq![45u8] + spec_decimal((-(v as int)) as nat)
    } else {
        spec_decimal(v as nat)
    }
}

/// A signed value in decimal, with a minus sign when negative.
pub fn signed_decimal(v: i64) -> (r: Vec<u8>)
    ensures
        r@ == spec_signed_decimal(v),
{
    if v < 0 {
        let magnitude: u64 = if v == i64::MIN { 0x8000_0000_0000_0000 } else { (-v) as u64 };
        let digits = decimal(magnitude);
        let mut r: Vec<u8> = Vec::new();
        r.push(45);
        let mut k: usize = 0;
        while k < digits.len()
            invariant
                k <= digits@.len(),
                r@ == seq![45u8] + digits@.subrange(0, k as int),
            decreases digits@.len() - k,
        {
            r.push(digits[k]);
            assert(r@ =~= seq![45u8] + digits@.subrange(0, k + 1));
            k = k + 1;
        }
        assert(digits@.subrange(0, digits@.len() as int) =~= digits@);
        r
    } else {
        decimal(v as u64)
    }
}

/// What the placeholder `%c` writes with the parameters from `p` on, and how many
/// parameters it takes.
pub open spec fn placeholder_in(mem: &Memory, sp: u64, c: u8, p: nat) -> Option<(Seq<u8>, nat)> {
    if c == 37 {
        Some((seq![37u8], 0))
    } else if c == 100 || c == 117 {
        match param_in(mem, sp, p) {
            Some(w) => Some((if c == 100 { spec_signed_decimal(w.value as i64) } else { spec_decimal(w.value as nat) }, 1)),
            None => None,
        }
    } else if c == 115 {
        match (param_in(mem, sp, p), param_in(mem, sp, p + 1)) {
            (Some(len), Some(base)) => if base.is_reference {
                match bytes_in(mem, base.value, len.value) {
                    Some(b) => Some((utf8_lossy(b), 2)),
                    None => None,
                }
            } else {
                None
            },
            _ => None,
        }
    } else {
        Some((Seq::empty(), 0))
    }
}

/// What printing the template from byte `i` on writes, with the parameters from `p` on.
pub open spec fn print_in(mem: &Memory, sp: u64, t: Seq<u8>, i: int, p: nat) -> Option<Seq<u8>>
    decreases t.len() - i,
{
    if i < 0 || i >= t.len() {
        Some(Seq::empty())
    } else if t[i] != 37 {
        match print_in(mem, sp, t, i + 1, p) {
            Some(rest) => Some(spec_latin1(t[i]) + rest),
            None => None,
        }
    } else if i + 1 >= t.len() {
        None
    } else {
        match placeholder_in(mem, sp, t[i + 1], p) {
            Some((piece, used)) => match print_in(mem, sp, t, i + 2, p + used) {
                Some(rest) => Some(piece + rest),
                None => None,
            },
            None => None,
        }
    }
}

/// Native call parameter `p` of a machine whose stack pointer is `sp`, if it can be read.
#[verifier::opaque]
pub open spec fn param_in(mem: &Memory, sp: u64, p: nat) -> Option<DataWord> {
    mem.spec_data_word(wrap_add(sp, param_offset(p as u64)))
}

/// The `len` bytes at a virtual address, if they can be read.
#[verifier::opaque]
pub open spec fn bytes_in(mem: &Memory, addr: u64, len: u64) -> Option<Seq<u8>> {
    mem.spec_get(addr, len as int)
}

/// What the native print service writes for a machine whose stack pointer is `sp`.
pub open spec fn native_print_in(mem: &Memory, sp: u64) -> Option<Seq<u8>> {
    match (param_in(mem, sp, 0), param_in(mem, sp, 1)) {
        (Some(len), Some(base)) => if base.is_reference {
            match bytes_in(mem, base.value, len.value) {
                Some(t) => print_in(mem, sp, t, 0, 2),
                None => None,
            }
        } else {
            None
        },
        _ => None,
    }
}

/// The UTF-8 encoding of the character whose code is the byte `c`.
pub open spec fn spec_latin1(c: u8) -> Seq<u8> {
    if c < 128 {
        seq![c]
    } else {
        seq![(0xC0 + c / 64) as u8, (0x80 + c % 64) as u8]
    }
}

/// Appends `b` to `out`.
fn append(out: &mut Vec<u8>, b: &Vec<u8>)
    ensures
        final(out)@ == old(out)@ + b@,
{
    let mut k: usize = 0;
    while k < b.len()
        invariant
            k <= b@.len(),
            out@ == old(out)@ + b@.subrange(0, k as int),
        decreases b@.len() - k,
    {
        out.push(b[k]);
        assert(out@ =~= old(out)@ + b@.subrange(0, k + 1));
        k = k + 1;
    }
    assert(b@.subrange(0, b@.len() as int) =~= b@);
}

impl Interpreter {
    /// Native call parameter `p`, if it can be read.
    pub open spec fn spec_param(&self, p: nat) -> Option<DataWord> {
        param_in(&self.memory, self.cpu_state.stack_pointer, p)
    }

    /// The `len` bytes at a virtual address, if they can be read.
    pub open spec fn spec_bytes_at(&self, addr: u64, len: u64) -> Option<Seq<u8>> {
        bytes_in(&self.memory, addr, len)
    }

    /// Native call parameter `p`.
    fn param(&self, p: u64) -> (r: Result<DataWord, Error>)
        requires
            self.wf(),
        ensures
            r matches Ok(w) ==> self.spec_param(p as nat) == Some(w),
            r is Err ==> self.spec_param(p as nat) is None,
    {
        proof { reveal(param_in); }
        self.read_native_parameter(p)
    }

    /// The `len` bytes at a virtual address.
    fn bytes_at(&self, addr: u64, len: u64) -> (r: Result<Vec<u8>, Error>)
        requires
            self.wf(),
        ensures
            r matches Ok(b) ==> self.spec_bytes_at(addr, len) == Some(b@) && b@.len() == len && len <= 0x100_0000,
            r is Err ==> self.spec_bytes_at(addr, len) is None,
    {
        proof { reveal(bytes_in); }
        self.memory.get(addr, len)
    }

    /// What the placeholder `%c` writes with the parameters from `p` on, and how many
    /// parameters it takes.
    pub open spec fn spec_placeholder(&self, c: u8, p: nat) -> Option<(Seq<u8>, nat)> {
        placeholder_in(&self.memory, self.cpu_state.stack_pointer, c, p)
    }

    /// What printing the template from byte `i` on writes, with the parameters from `p` on.
    pub open spec fn spec_print(&self, t: Seq<u8>, i: int, p: nat) -> Option<Seq<u8>> {
        print_in(&self.memory, self.cpu_state.stack_pointer, t, i, p)
    }

    /// What the placeholder `%c` writes, and how many parameters it takes.
    fn placeholder(&self, c: u8, p: u64) -> (r: Result<(Vec<u8>, u64), Error>)
        requires
            self.wf(),
            p < 0x800_0000,
        ensures
            r matches Ok((piece, used)) ==> self.spec_placeholder(c, p as nat) == Some((piece@, used as nat)) && used <= 2,
            r is Err ==> self.spec_placeholder(c, p as nat) is None,
    {
        let mut out: Vec<u8> = Vec::new();
        if c == 37 {
            out.push(37);
            assert(out@ =~= seq![37u8]);
            Ok((out, 0))
        } else if c == 100 || c == 117 {
            let param = self.param(p)?;
            if c == 100 { Ok((signed_decimal(param.value as i64), 1)) } else { Ok((decimal(param.value), 1)) }
        } else if c == 115 {
            let param_len = self.param(p)?;
            let param = self.param(p + 1)?;
            if !param.is_reference {
                return Err(Error::of_kind(ErrorKind::TypeMismatch, "Tried to print a non-reference as a string"));
            }
            let bytes = self.bytes_at(param.value, param_len.value)?;
            Ok((lossy_utf8(bytes.as_slice()), 2))
        } else {
            assert(out@ =~= Seq::<u8>::empty());
            Ok((out, 0))
        }
    }

    /// What the native print service writes: the template of the given length at the base
    /// reference (parameters 0 and 1), with `%%`, `%d`, `%u` and `%s` filled in from the
    /// parameters that follow.
    pub open spec fn spec_native_print(&self) -> Option<Seq<u8>> {
        native_print_in(&self.memory, self.cpu_state.stack_pointer)
    }

    /// The native print service: the bytes it writes.
    #[verifier::rlimit(100)]
    pub fn native_print(&self) -> (r: Result<Vec<u8>, Error>)
        requires
            self.wf(),
        ensures
            r matches Ok(out) ==> self.spec_native_print() == Some(out@),
            r is Err ==> self.spec_native_print() is None,
            (self.spec_param(0) is Some && self.spec_param(1) is Some && !self.spec_param(1).unwrap().is_reference)
                ==> (r is Err && r->Err_0.kind == ErrorKind::TypeMismatch),
    {
        let string_len = self.param(0)?;
        let string_base = self.param(1)?;
        if !string_base.is_reference {
            return Err(Error::of_kind(ErrorKind::TypeMismatch, "Base address provided isn't a reference"));
        }
        let string = self.bytes_at(string_base.value, string_len.value)?;
        let ghost t = string@;
        assert(self.spec_native_print() == self.spec_print(t, 0, 2));
        let mut out: Vec<u8> = Vec::new();
        let mut i: usize = 0;
        let mut param_index: u64 = 2;
        while i < string.len()
            invariant
                self.wf(),
                t == string@,
                i <= t.len(),
                2 <= param_index <= 2 + 2 * i,
                t.len() <= 0x100_0000,
                self.spec_native_print() == self.spec_print(t, 0, 2),
                self.spec_param(1) is Some && self.spec_param(1).unwrap().is_reference,
                self.spec_print(t, 0, 2) == match self.spec_print(t, i as int, param_index as nat) {
                    Some(rest) => Some(out@ + rest),
                    None => None,
                },
            decreases t.len() - i,
        {
            let c = string[i];
            let ghost before = out@;
            if c != 37 {
                let mut piece: Vec<u8> = Vec::new();
                if c < 128 {
                    piece.push(c);
                } else {
                    piece.push(0xC0 + c / 64);
                    piece.push(0x80 + c % 64);
                }
                assert(piece@ =~= spec_latin1(c));
                append(&mut out, &piece);
                proof {
                    match self.spec_print(t, i + 1, param_index as nat) {
                        Some(rest) => { assert(before + (piece@ + rest) =~= out@ + rest); },
                        None => {},
                    }
                }
                i = i + 1;
            } else {
                if i + 1 >= string.len() {
                    return Err(Error::of_kind(ErrorKind::BadFormat, "Unterminated format string placeholder"));
                }
                let (piece, used) = self.placeholder(string[i + 1], param_index)?;
                append(&mut out, &piece);
                proof {
                    match self.spec_print(t, i + 2, param_index as nat + used as nat) {
                        Some(rest) => { assert(before + (piece@ + rest) =~= out@ + rest); },
                        None => {},
                    }
                }
                param_index = param_index + used;
                i = i + 2;
            }
        }
        proof {
            assert(out@ + Seq::<u8>::empty() =~= out@);
        }
        Ok(out)
    }
}


impl Interpreter {
    /// The instruction at the instruction pointer, its operands and its length: decoded
    /// from the bytes that follow it in its allocation, at most the longest encoding.
    pub open spec fn spec_fetch(&self) -> Option<(Instruction, Seq<Operand>, int)> {
        let ip = self.cpu_state.instruction_pointer;
        match self.memory.spec_locate(ip) {
            Some((i, off)) => {
                let avail = self.memory.allocations@[i].data_length - off;
                let n = if avail < 25 { avail } else { 25 };
                match self.memory.spec_get(ip, n) {
                    Some(b) => spec_decode_opcode(b),
                    None => None,
                }
            },
            None => None,
        }
    }

    /// Decodes the instruction at the instruction pointer and moves the pointer past it.
    pub fn fetch(&mut self) -> (r: Result<Opcode, Error>)
        requires
            old(self).wf(),
        ensures
            final(self).wf(),
            final(self).memory == old(self).memory,
            final(self).cpu_state.registers == old(self).cpu_state.registers,
            final(self).cpu_state.stack_pointer == old(self).cpu_state.stack_pointer,
            final(self).cpu_state.zero_flag == old(self).cpu_state.zero_flag,
            final(self).cpu_state.carry_flag == old(self).cpu_state.carry_flag,
            r matches Ok(op) ==> old(self).spec_fetch() matches Some((i, ops, n)) && i == op.instruction && ops == op.operands@
                && final(self).cpu_state.instruction_pointer == wrap_add(old(self).cpu_state.instruction_pointer, n as u64),
            r matches Err(e) ==> old(self).spec_fetch() is None && (e.kind == ErrorKind::MalformedBinary || e.kind == ErrorKind::Unmapped),
            r is Err ==> *final(self) == *old(self),
    {
        let ip = self.cpu_state.instruction_pointer;
        let avail = self.memory.readable_len(ip)?;
        let n = if avail < MAX_INSTRUCTION_SIZE { avail } else { MAX_INSTRUCTION_SIZE };
        let bytes = self.memory.get(ip, n)?;
        let (opcode, len) = Opcode::decode(bytes.as_slice())?;
        self.cpu_state.instruction_pointer = wrapping_add_word(ip, len as u64);
        Ok(opcode)
    }

    /// The registers, as roots for a collection.
    fn roots(&self) -> (r: Vec<DataWord>)
        requires
            self.wf(),
        ensures
            r@ == self.cpu_state.registers@,
    {
        let mut roots: Vec<DataWord> = Vec::new();
        let mut k: usize = 0;
        while k < self.cpu_state.registers.len()
            invariant
                k <= self.cpu_state.registers@.len(),
                roots@ == self.cpu_state.registers@.subrange(0, k as int),
            decreases self.cpu_state.registers@.len() - k,
        {
            roots.push(self.cpu_state.registers[k]);
            assert(roots@ =~= self.cpu_state.registers@.subrange(0, k + 1));
            k = k + 1;
        }
        assert(roots@ =~= self.cpu_state.registers@);
        roots
    }

    /// Sets or clears the reference tag of the word an operand names.
    fn retag(&mut self, opcode: &Opcode, is_reference: bool) -> (r: Result<(), Error>)
        requires
            old(self).wf(),
        ensures
            final(self).wf(),
            final(self).cpu_state.instruction_pointer == old(self).cpu_state.instruction_pointer,
            final(self).cpu_state.stack_pointer == old(self).cpu_state.stack_pointer,
            final(self).cpu_state.zero_flag == old(self).cpu_state.zero_flag,
            final(self).cpu_state.carry_flag == old(self).cpu_state.carry_flag,
            r is Ok <==> opcode.operands@.len() == 1 && old(self).spec_read(opcode.operands@[0]) is Some
                && old(self).spec_writable(opcode.operands@[0]),
            r is Ok ==> written(old(self), final(self).cpu_state.registers@, &final(self).memory, opcode.operands@[0],
                DataWord { is_reference, ..old(self).spec_read(opcode.operands@[0]).unwrap() }),
            r is Err ==> *final(self) == *old(self),
    {
        self.ensure_operands(opcode, 1)?;
        let value = self.read(&opcode.operands[0])?;
        self.write(&opcode.operands[0], DataWord { value: value.value, is_reference })
    }

    /// Executes one instruction and says what the host must do next. Control moves past
    /// the instruction unless it is a jump, a call or a return. An instruction other than
    /// `new` succeeds exactly when it can execute (see `spec_can_execute`); a failed
    /// instruction other than `new` changes nothing but the instruction pointer.
    #[verifier::rlimit(100)]
    pub fn step(&mut self) -> (r: Result<StepAction, Error>)
        requires
            old(self).wf(),
        ensures
            final(self).wf(),
            r is Ok ==> old(self).spec_fetch() is Some,
            r matches Ok(a) ==> (a is Halt <==> old(self).spec_fetch().unwrap().0 == Instruction::Halt),
            r matches Ok(a) ==> ({
                let (i, ops, n) = old(self).spec_fetch().unwrap();
                &&& !i.spec_is_jump() ==> final(self).cpu_state.instruction_pointer == wrap_add(old(self).cpu_state.instruction_pointer, n as u64)
                &&& data_effect(old(self), final(self), i, ops)
                &&& control_effect(old(self), final(self), i, ops, wrap_add(old(self).cpu_state.instruction_pointer, n as u64))
                &&& service_effect(old(self), final(self), i, ops, a)
            }),
            old(self).spec_fetch() is None ==> r is Err && *final(self) == *old(self),
            old(self).spec_fetch() is Some && old(self).spec_fetch().unwrap().0 != Instruction::New
                ==> (r is Ok <==> spec_can_execute(old(self), old(self).spec_fetch().unwrap().0, old(self).spec_fetch().unwrap().1)),
            r is Err && !(old(self).spec_fetch() is Some && old(self).spec_fetch().unwrap().0 == Instruction::New)
                ==> same_but_ip(old(self), final(self)),
            r is Err ==> final(self).cpu_state.registers == old(self).cpu_state.registers,
            r is Err && old(self).spec_fetch() is Some && old(self).spec_fetch().unwrap().0 == Instruction::New
                && new_into_register(old(self), old(self).spec_fetch().unwrap().1)
                ==> r->Err_0.kind == ErrorKind::OutOfMemory || r->Err_0.kind == ErrorKind::BadBase,
    {
        let opcode = self.fetch()?;
        let ghost mid = *self;
        proof { lemma_views_agree(old(self), &mid); }
        match opcode.instruction {
            Instruction::Jump | Instruction::JumpEqual | Instruction::JumpNotEqual | Instruction::JumpGreater
            | Instruction::JumpGreaterEqual | Instruction::JumpLess | Instruction::JumpLessEqual
            | Instruction::Call | Instruction::Return => {
                let r = self.execute_control(&opcode);
                proof { lemma_lift_step(old(self), &mid, self, opcode.instruction, opcode.operands@, StepAction::Continue, r is Ok); }
                match r {
                    Ok(()) => Ok(StepAction::Continue),
                    Err(e) => Err(e),
                }
            },
            Instruction::CallNative | Instruction::DebugCpu | Instruction::DebugMemory | Instruction::DebugDump
            | Instruction::Halt => {
                let r = self.execute_service(&opcode);
                let ghost a = if r is Ok { r->Ok_0 } else { StepAction::Continue };
                proof { lemma_lift_step(old(self), &mid, self, opcode.instruction, opcode.operands@, a, r is Ok); }
                r
            },
            _ => {
                let r = self.execute_data(&opcode);
                proof { lemma_lift_step(old(self), &mid, self, opcode.instruction, opcode.operands@, StepAction::Continue, r is Ok); }
                match r {
                    Ok(()) => Ok(StepAction::Continue),
                    Err(e) => Err(e),
                }
            },
        }
    }

    /// Executes an instruction that computes, moves or allocates data.
    #[verifier::rlimit(100)]
    fn execute_data(&mut self, opcode: &Opcode) -> (r: Result<(), Error>)
        requires
            old(self).wf(),
            !is_control(opcode.instruction),
            !is_service(opcode.instruction),
        ensures
            final(self).wf(),
            final(self).cpu_state.instruction_pointer == old(self).cpu_state.instruction_pointer,
            r is Ok ==> data_effect(old(self), final(self), opcode.instruction, opcode.operands@),
            r is Ok ==> control_effect(old(self), final(self), opcode.instruction, opcode.operands@, old(self).cpu_state.instruction_pointer),
            r is Ok ==> service_effect(old(self), final(self), opcode.instruction, opcode.operands@, StepAction::Continue),
            opcode.instruction != Instruction::New ==> (r is Ok <==> spec_can_execute(old(self), opcode.instruction, opcode.operands@)),
            r is Err && opcode.instruction != Instruction::New ==> *final(self) == *old(self),
            r is Err ==> final(self).cpu_state.registers == old(self).cpu_state.registers,
            r is Err && opcode.instruction == Instruction::New && new_into_register(old(self), opcode.operands@)
                ==> r->Err_0.kind == ErrorKind::OutOfMemory || r->Err_0.kind == ErrorKind::BadBase,
    {
        match opcode.instruction {
            Instruction::Move => {
                self.ensure_operands(opcode, 2)?;
                let value = self.read(&opcode.operands[0])?;
                self.write_with_flags(&opcode.operands[1], value)?;
            },
            Instruction::Add => self.combine_with_carry(opcode, BinaryOp::Add)?,
            Instruction::Subtract => self.combine_with_carry(opcode, BinaryOp::Subtract)?,
            Instruction::Multiply => self.combine_with_carry(opcode, BinaryOp::Multiply)?,
            Instruction::Divide => self.combine_with_carry(opcode, BinaryOp::Divide)?,
            Instruction::BitwiseAnd => self.combine_with_carry(opcode, BinaryOp::And)?,
            Instruction::BitwiseOr => self.combine_with_carry(opcode, BinaryOp::Or)?,
            Instruction::BitwiseXor => self.combine_with_carry(opcode, BinaryOp::Xor)?,
            Instruction::ShiftLeft => self.combine_with_carry(opcode, BinaryOp::ShiftLeft)?,
            Instruction::ShiftRight => self.combine_with_carry(opcode, BinaryOp::ShiftRight)?,
            Instruction::BitwiseNot => {
                self.ensure_operands(opcode, 1)?;
                let value = self.read(&opcode.operands[0])?;
                self.write_with_flags(&opcode.operands[0], DataWord { value: !value.value, is_reference: value.is_reference })?;
            },
            Instruction::Compare => {
                self.ensure_operands(opcode, 2)?;
                let value1 = self.read(&opcode.operands[0])?.value;
                let value2 = self.read(&opcode.operands[1])?.value;
                self.cpu_state.zero_flag = value1 == value2;
                self.cpu_state.carry_flag = value1 >= value2;
            },
            Instruction::Push => {
                self.ensure_operands(opcode, 1)?;
                let value = self.read(&opcode.operands[0])?;
                self.push_stack(value)?;
            },
            Instruction::Pop => {
                self.ensure_operands(opcode, 1)?;
                let ghost before = *self;
                let old_sp = self.cpu_state.stack_pointer;
                let value = self.pop_stack()?;
                let ghost popped = *self;
                proof { lemma_views_agree_but_sp(&before, &popped); }
                match self.write(&opcode.operands[0], value) {
                    Ok(()) => {},
                    Err(e) => {
                        self.cpu_state.stack_pointer = old_sp;
                        assert(*self == before);
                        return Err(e);
                    },
                }
            },
            Instruction::New => {
                self.ensure_operands(opcode, 2)?;
                let size = self.read(&opcode.operands[0])?.value;
                let roots = self.roots();
                let addr = self.memory.allocate(size, true, roots.as_slice(), None)?;
                let ghost allocated = *self;
                self.write(&opcode.operands[1], DataWord { value: addr, is_reference: true })?;
                proof { lemma_new_effect(old(self), &allocated, self, opcode.operands@, addr, size); }
            },
            Instruction::GarbageCollector => {
                let roots = self.roots();
                self.memory.force_garbage_collection(roots.as_slice())?;
            },
            Instruction::Reference => self.retag(opcode, true)?,
            Instruction::Unreference => self.retag(opcode, false)?,
            _ => {},
        }
        Ok(())
    }

    /// Executes a jump, a call or a return.
    fn execute_control(&mut self, opcode: &Opcode) -> (r: Result<(), Error>)
        requires
            old(self).wf(),
            is_control(opcode.instruction),
        ensures
            final(self).wf(),
            r is Ok ==> control_effect(old(self), final(self), opcode.instruction, opcode.operands@, old(self).cpu_state.instruction_pointer),
            r is Ok ==> data_effect(old(self), final(self), opcode.instruction, opcode.operands@),
            r is Ok ==> service_effect(old(self), final(self), opcode.instruction, opcode.operands@, StepAction::Continue),
            r is Ok <==> spec_can_execute(old(self), opcode.instruction, opcode.operands@),
            r is Err ==> *final(self) == *old(self),
    {
        match opcode.instruction {
            Instruction::Jump => self.jump(opcode)?,
            Instruction::JumpEqual => self.conditional_jump(opcode, Some(true), None)?,
            Instruction::JumpNotEqual => self.conditional_jump(opcode, Some(false), None)?,
            Instruction::JumpGreater => self.conditional_jump(opcode, Some(false), Some(true))?,
            Instruction::JumpGreaterEqual => self.conditional_jump(opcode, None, Some(true))?,
            Instruction::JumpLess => self.conditional_jump(opcode, None, Some(false))?,
            Instruction::JumpLessEqual => {
                if self.cpu_state.zero_flag || !self.cpu_state.carry_flag {
                    self.jump(opcode)?;
                }
            },
            Instruction::Call => {
                self.ensure_operands(opcode, 1)?;
                let addr = self.read(&opcode.operands[0])?.value;
                let ret = DataWord { value: self.cpu_state.instruction_pointer, is_reference: true };
                self.push_stack(ret)?;
                self.cpu_state.instruction_pointer = addr;
            },
            Instruction::Return => {
                self.ensure_operands(opcode, 0)?;
                let sp = wrapping_add_word(self.cpu_state.stack_pointer, WORD_BYTE_SIZE);
                let addr = self.memory.get_data_word(sp)?;
                if !addr.is_reference {
                    return Err(Error::of_kind(ErrorKind::TypeMismatch, "Tried to return from a non-reference data word"));
                }
                self.cpu_state.stack_pointer = sp;
                self.cpu_state.instruction_pointer = addr.value;
            },
            _ => {
                return Err(Error::of_kind(ErrorKind::MalformedBinary, "Not a control instruction"));
            },
        }
        Ok(())
    }

    /// Executes a native service call, a diagnostic, or a halt.
    fn execute_service(&mut self, opcode: &Opcode) -> (r: Result<StepAction, Error>)
        requires
            old(self).wf(),
            is_service(opcode.instruction),
        ensures
            final(self).wf(),
            final(self).cpu_state.instruction_pointer == old(self).cpu_state.instruction_pointer,
            r matches Ok(a) ==> (a is Halt <==> opcode.instruction == Instruction::Halt),
            r matches Ok(a) ==> service_effect(old(self), final(self), opcode.instruction, opcode.operands@, a),
            r is Ok ==> data_effect(old(self), final(self), opcode.instruction, opcode.operands@),
            r is Ok ==> control_effect(old(self), final(self), opcode.instruction, opcode.operands@, old(self).cpu_state.instruction_pointer),
            r is Ok <==> spec_can_execute(old(self), opcode.instruction, opcode.operands@),
            r is Err ==> *final(self) == *old(self),
    {
        match opcode.instruction {
            Instruction::CallNative => {
                self.ensure_operands(opcode, 1)?;
                let selector = self.read(&opcode.operands[0])?.value;
                if selector == 0 {
                    let out = self.native_print()?;
                    Ok(StepAction::Print(out))
                } else if selector == 1 {
                    let value = random_word();
                    self.cpu_state.registers.set(0, DataWord { value, is_reference: false });
                    Ok(StepAction::Continue)
                } else if selector == 2 {
                    let millis = self.param(0)?.value;
                    Ok(StepAction::Sleep(millis))
                } else {
                    Err(Error::of_kind(ErrorKind::BadNative, "There is no native service with this number"))
                }
            },
            Instruction::DebugCpu => {
                self.ensure_operands(opcode, 1)?;
                let value = self.read(&opcode.operands[0])?;
                Ok(StepAction::DebugCpu(value))
            },
            Instruction::DebugMemory => Ok(StepAction::DebugMemory),
            Instruction::DebugDump => {
                self.ensure_operands(opcode, 2)?;
                let address = self.read(&opcode.operands[0])?.value;
                let len = self.read(&opcode.operands[1])?.value;
                let bytes = self.memory.get(address, len)?;
                Ok(StepAction::DebugDump { address, bytes })
            },
            Instruction::Halt => Ok(StepAction::Halt),
            _ => Err(Error::of_kind(ErrorKind::MalformedBinary, "Not a service instruction")),
        }
    }
}

/// What an instruction did from the state after its fetch, it did from the state before
/// it: only the instruction pointer differs, and the effects do not read it.
proof fn lemma_lift_step(old: &Interpreter, mid: &Interpreter, new: &Interpreter, i: Instruction, ops: Seq<Operand>, a: StepAction, ok: bool)
    requires
        mid.memory == old.memory,
        mid.cpu_state.registers == old.cpu_state.registers,
        mid.cpu_state.stack_pointer == old.cpu_state.stack_pointer,
        mid.cpu_state.zero_flag == old.cpu_state.zero_flag,
        mid.cpu_state.carry_flag == old.cpu_state.carry_flag,
        ok ==> data_effect(mid, new, i, ops),
        ok ==> control_effect(mid, new, i, ops, mid.cpu_state.instruction_pointer),
        ok ==> service_effect(mid, new, i, ops, a),
        i != Instruction::New ==> (ok <==> spec_can_execute(mid, i, ops)),
        !ok && i != Instruction::New ==> *new == *mid,
    ensures
        new_into_register(mid, ops) == new_into_register(old, ops),
        ok ==> data_effect(old, new, i, ops),
        ok ==> control_effect(old, new, i, ops, mid.cpu_state.instruction_pointer),
        ok ==> service_effect(old, new, i, ops, a),
        i != Instruction::New ==> (ok <==> spec_can_execute(old, i, ops)),
        !ok && i != Instruction::New ==> same_but_ip(old, new),
{
    lemma_views_agree(old, mid);
    assert(spec_can_execute(mid, i, ops) == spec_can_execute(old, i, ops));
}

/// Two machines that differ only in their stack pointers agree on everything that does not
/// go through the stack pointer.
proof fn lemma_views_agree_but_sp(a: &Interpreter, b: &Interpreter)
    requires
        a.memory == b.memory,
        a.cpu_state.registers == b.cpu_state.registers,
    ensures
        forall|op: Operand, sp: u64| #[trigger] a.spec_address_at(op, sp) == b.spec_address_at(op, sp),
        forall|op: Operand, sp: u64| #[trigger] a.spec_writable_at(op, sp) == b.spec_writable_at(op, sp),
{
    assert forall|op: Operand, sp: u64| #[trigger] a.spec_writable_at(op, sp) == b.spec_writable_at(op, sp) by {
        assert(a.spec_address_at(op, sp) == b.spec_address_at(op, sp));
    }
}

/// After `new`, the destination holds a reference to the start of the new allocation.
#[verifier::rlimit(60)]
proof fn lemma_new_effect(old: &Interpreter, allocated: &Interpreter, new: &Interpreter, ops: Seq<Operand>, addr: u64, size: u64)
    requires
        allocated.wf(),
        ops.len() == 2,
        old.spec_read(ops[0]) is Some,
        old.spec_read(ops[0]).unwrap().value == size,
        forall|t: int| 0 <= t < size ==> #[trigger] allocated.memory.spec_locate((addr + t) as u64) is Some
            && allocated.memory.spec_locate((addr + t) as u64).unwrap().1 == t,
        written(allocated, new.cpu_state.registers@, &new.memory, ops[1], DataWord { value: addr, is_reference: true }),
        new.cpu_state.stack_pointer == allocated.cpu_state.stack_pointer,
        new.cpu_state.stack_pointer == old.cpu_state.stack_pointer,
        new.cpu_state.zero_flag == old.cpu_state.zero_flag,
        new.cpu_state.carry_flag == old.cpu_state.carry_flag,
    ensures
        data_effect(old, new, Instruction::New, ops),
{
    let w = DataWord { value: addr, is_reference: true };
    match ops[1] {
        Operand::Register(i) => {
            assert(new.cpu_state.registers@[i as int] == w);
        },
        _ => {
            assert(new.spec_address(ops[1]) == allocated.spec_address(ops[1]));
        },
    }
    assert(new.spec_read(ops[1]) == Some(w));
    assert forall|t: int| 0 <= t < size implies (#[trigger] new.memory.spec_locate((addr + t) as u64)) is Some
        && new.memory.spec_locate((addr + t) as u64).unwrap().1 == t by {
        assert(new.memory.spec_locate((addr + t) as u64) == allocated.memory.spec_locate((addr + t) as u64));
    }
}

impl Interpreter {
    /// A machine with the program loaded: the program image, padded to whole words, is a
    /// pinned allocation at virtual address 0, and a pinned stack of `STACK_SIZE` bytes
    /// follows; the stack pointer is at the stack's last word and execution starts at 0.
    /// Loading succeeds when the program is not empty and the program's and the stack's
    /// regions fit together in the largest heap.
    #[verifier::rlimit(100)]
    pub fn load(program: &[u8]) -> (r: Result<Interpreter, Error>)
        ensures
            (0 < program@.len() && spec_total_region_len(padded_len(program@.len() as int))
                + spec_total_region_len(STACK_SIZE as int) <= MAX_MEMORY_SIZE) ==> r is Ok,
            r matches Ok(i) ==> {
                &&& i.wf()
                &&& i.cpu_state.instruction_pointer == 0
                &&& !i.cpu_state.carry_flag && !i.cpu_state.zero_flag
                &&& forall|k: int| 0 <= k < 4 ==> #[trigger] i.cpu_state.registers@[k] == (DataWord { value: 0, is_reference: false })
                &&& i.memory.spec_get(0, program@.len() as int) == Some(program@)
                &&& exists|s: int| 0 <= s < i.memory.allocations@.len() && !(#[trigger] i.memory.allocations@[s]).is_collectible
                    && i.memory.allocations@[s].data_length == STACK_SIZE
                    && i.cpu_state.stack_pointer == wrap_sub(wrap_add(i.memory.base_of(i.memory.allocations@[s].id), STACK_SIZE), 8)
            },
    {
        let mut memory = Memory::new();
        if program.len() > MAX_MEMORY_SIZE {
            return Err(Error::of_kind(ErrorKind::OutOfMemory, "Program too large"));
        }
        let len = program.len() as u64;
        let aligned_len = len + (WORD_BYTE_SIZE - len % WORD_BYTE_SIZE) % WORD_BYTE_SIZE;
        assert(aligned_len == padded_len(len as int));
        let no_roots: Vec<DataWord> = Vec::new();
        let ghost m0 = memory;
        let base = match memory.allocate(aligned_len, false, no_roots.as_slice(), Some(0)) {
            Ok(b) => b,
            Err(e) => {
                proof {
                    assert(!crate::interpreter::memory::bad_base(Some(0u64), m0.virtual_mapper.next_address, aligned_len));
                    assert(!crate::interpreter::memory::ids_exhausted(&m0));
                    if memory.allocations@.len() > 0 {
                        let id = memory.allocations@[0].id;
                        lemma_no_reachable_in_empty(&m0, no_roots@, id);
                        assert(m0.reachable(no_roots@, memory.allocations@[0].id));
                    }
                    crate::interpreter::memory::lemma_used_total_of_few(&memory);
                }
                return Err(e);
            },
        };
        if base != 0 {
            return Err(Error::of_kind(ErrorKind::BadBase, "Unable to allocate program data at address 0"));
        }
        let ghost m1 = memory;
        let ghost pid = m0.next_allocation_id;
        proof { lemma_first_allocation(&m0, &m1, pid); }
        match memory.set(0, program) {
            Ok(()) => {},
            Err(e) => {
                proof {
                    if len > 0 {
                        assert((0 + 0int) as u64 == 0u64);
                        assert(m1.spec_locate((0 + 0int) as u64) == Some((m1.alloc_index(pid), 0int)));
                    }
                }
                return Err(e);
            },
        }
        let ghost m2 = memory;
        proof { crate::interpreter::memory::lemma_set_then_get(&m1, &m2, 0, program@); }
        let stack_base = match memory.allocate(STACK_SIZE, false, no_roots.as_slice(), None) {
            Ok(b) => b,
            Err(e) => {
                proof {
                    assert(!crate::interpreter::memory::bad_base(None, m2.virtual_mapper.next_address, STACK_SIZE));
                    assert(!crate::interpreter::memory::ids_exhausted(&m2));
                    lemma_only_program_left(&m2, &memory, no_roots@, pid);
                    crate::interpreter::memory::lemma_used_total_of_few(&memory);
                }
                return Err(e);
            },
        };
        proof {
            let x = m2.alloc_index(pid);
            assert(m2.allocations@[x].id != m2.next_allocation_id);
            crate::interpreter::memory::lemma_survivor_reads_same(&m2, &memory, pid, 0, program@.len() as int);
            assert(m2.base_of(pid) == 0);
        }
        let mut registers: Vec<DataWord> = Vec::new();
        let mut k: usize = 0;
        while k < REGISTER_NUM
            invariant
                k <= REGISTER_NUM,
                registers@.len() == k,
                forall|j: int| 0 <= j < k ==> #[trigger] registers@[j] == (DataWord { value: 0, is_reference: false }),
            decreases REGISTER_NUM - k,
        {
            registers.push(DataWord { value: 0, is_reference: false });
            k = k + 1;
        }
        let stack_pointer = wrapping_sub_word(wrapping_add_word(stack_base, STACK_SIZE), WORD_BYTE_SIZE);
        proof {
            let sid = m2.next_allocation_id;
            let s = memory.alloc_index(sid);
            assert(memory.allocations@[s].id == sid);
        }
        Ok(Interpreter {
            cpu_state: CpuState { registers, stack_pointer, instruction_pointer: 0, carry_flag: false, zero_flag: false },
            memory,
        })
    }
}

/// The first allocation of an empty memory is its only one.
proof fn lemma_first_allocation(m0: &Memory, m1: &Memory, pid: u64)
    requires
        m0.allocations@.len() == 0,
        m1.wf(),
        m1.has_allocation(pid),
        forall|i: int| 0 <= i < m1.allocations@.len() && #[trigger] m1.allocations@[i].id != pid
            ==> crate::interpreter::memory::kept_from(m0, m1, i),
    ensures
        m1.allocations@.len() == 1,
        m1.allocations@[0].id == pid,
        m1.alloc_index(pid) == 0,
{
    assert forall|i: int| 0 <= i < m1.allocations@.len() implies #[trigger] m1.allocations@[i].id == pid by {
        if m1.allocations@[i].id != pid {
            assert(crate::interpreter::memory::kept_from(m0, m1, i));
        }
    }
    if m1.allocations@.len() > 1 {
        assert(m1.allocations@[0].id == m1.allocations@[1].id);
    }
}

/// Nothing is reachable in a memory without allocations.
proof fn lemma_no_reachable_in_empty(m: &Memory, roots: Seq<DataWord>, id: u64)
    requires
        m.allocations@.len() == 0,
    ensures
        !m.reachable(roots, id),
{
    if m.reachable(roots, id) {
        crate::interpreter::memory::lemma_reachable_exists(m, roots, id);
    }
}

/// After an allocation fails in a memory whose only allocation is the pinned program, the
/// program is the only allocation left.
proof fn lemma_only_program_left(m2: &Memory, m: &Memory, roots: Seq<DataWord>, pid: u64)
    requires
        m2.wf(),
        m.wf(),
        m2.allocations@.len() == 1,
        m2.allocations@[0].id == pid,
        !m2.allocations@[0].is_collectible,
        crate::interpreter::memory::pinned_kept(m2, m),
        forall|i: int| 0 <= i < m.allocations@.len() ==> m2.reachable(roots, #[trigger] m.allocations@[i].id),
    ensures
        m.allocations@.len() == 1,
{
    assert(m.has_allocation(pid));
    assert forall|i: int| 0 <= i < m.allocations@.len() implies #[trigger] m.allocations@[i].id == pid by {
        crate::interpreter::memory::lemma_reachable_exists(m2, roots, m.allocations@[i].id);
    }
    if m.allocations@.len() > 1 {
        assert(m.allocations@[0].id == m.allocations@[1].id);
    }
}

/// A length rounded up to whole words.
pub open spec fn padded_len(len: int) -> int {
    len + (8 - len % 8) % 8
}

} // verus!
