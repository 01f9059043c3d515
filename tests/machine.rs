use lakesis::assembler::encoder::encode;
use lakesis::assembler::parser::{Operand as SourceOperand, Token, TokenValue};
use lakesis::assembler::FileRange;
use lakesis::common::ErrorKind;
use lakesis::interpreter::cpu::{apply, BinaryOp, Interpreter, StepAction};
use lakesis::interpreter::memory::Memory;
use lakesis::interpreter::{DataValue, DataWord};
use lakesis::opcodes::Instruction;

fn token(value: TokenValue) -> Token {
    Token { value, range: FileRange::invalid() }
}

fn op(instruction: Instruction, operands: Vec<SourceOperand>) -> Token {
    token(TokenValue::Opcode { instruction, operands })
}

fn word(value: u64, is_reference: bool) -> DataWord {
    DataValue { value, is_reference }
}

/// Runs until the program halts; returns how many steps it took.
fn run(interpreter: &mut Interpreter) -> usize {
    let mut steps = 0;
    loop {
        steps += 1;
        match interpreter.step().unwrap() {
            StepAction::Halt => return steps,
            _ => {}
        }
        assert!(steps < 10_000);
    }
}

fn load(tokens: &[Token]) -> Interpreter {
    let program = encode(tokens).unwrap();
    Interpreter::load(&program).unwrap()
}

#[test]
fn minimal_label_fixup_program_halts() {
    let mut m = load(&[
        token(TokenValue::Label("start".to_string())),
        op(Instruction::Jump, vec![SourceOperand::Label("end".to_string())]),
        token(TokenValue::Label("end".to_string())),
        op(Instruction::Halt, vec![]),
    ]);
    assert_eq!(run(&mut m), 2);
    assert_eq!(m.cpu_state.instruction_pointer, 10);
}

#[test]
fn stack_round_trip_keeps_value_and_tag() {
    let mut m = load(&[
        op(Instruction::Move, vec![SourceOperand::Immediate(2), SourceOperand::Register(0)]),
        op(Instruction::Push, vec![SourceOperand::Register(0)]),
        op(Instruction::Pop, vec![SourceOperand::Register(1)]),
        op(Instruction::Halt, vec![]),
    ]);
    run(&mut m);
    assert_eq!(m.cpu_state.registers[1], word(2, false));
}

#[test]
fn push_then_pop_keeps_reference_tag() {
    let mut m = Interpreter::load(&[0x3F]).unwrap();
    let sp = m.cpu_state.stack_pointer;
    m.push_stack(word(0x1234, true)).unwrap();
    assert_eq!(m.cpu_state.stack_pointer, sp - 8);
    assert_eq!(m.pop_stack().unwrap(), word(0x1234, true));
    assert_eq!(m.cpu_state.stack_pointer, sp);
}

#[test]
fn gc_reclaims_unreachable_and_keeps_reachable() {
    let mut m = load(&[
        op(Instruction::New, vec![SourceOperand::Immediate(8), SourceOperand::Register(0)]),
        op(Instruction::New, vec![SourceOperand::Immediate(8), SourceOperand::Register(1)]),
        op(Instruction::Move, vec![SourceOperand::Immediate(0), SourceOperand::Register(0)]),
        op(Instruction::Halt, vec![]),
    ]);
    run(&mut m);
    let before = m.memory.allocations.len();
    let kept = m.cpu_state.registers[1];
    assert!(kept.is_reference);
    m.memory.set_data_word(kept.value, word(77, false)).unwrap();
    let roots: Vec<DataWord> = m.cpu_state.registers.clone();
    m.memory.force_garbage_collection(&roots).unwrap();
    assert_eq!(m.memory.allocations.len(), before - 1);
    assert_eq!(m.memory.get_data_word(kept.value).unwrap(), word(77, false));
}

#[test]
fn gc_instruction_collects() {
    let mut m = load(&[
        op(Instruction::New, vec![SourceOperand::Immediate(8), SourceOperand::Register(0)]),
        op(Instruction::New, vec![SourceOperand::Immediate(8), SourceOperand::Register(1)]),
        op(Instruction::Move, vec![SourceOperand::Immediate(0), SourceOperand::Register(0)]),
        op(Instruction::GarbageCollector, vec![]),
        op(Instruction::Halt, vec![]),
    ]);
    run(&mut m);
    // the program image, the stack, and the allocation held by R1
    assert_eq!(m.memory.allocations.len(), 3);
    assert!(m.memory.get_data_word(m.cpu_state.registers[1].value).is_ok());
}

#[test]
fn compaction_preserves_contents_and_tags() {
    let mut memory = Memory::new();
    let a = memory.allocate(16, true, &[], None).unwrap();
    let b = memory.allocate(24, true, &[], None).unwrap();
    memory.set_data_word(a, word(1, false)).unwrap();
    memory.set_data_word(b, word(0xDEAD, false)).unwrap();
    memory.set_data_word(b + 8, word(b, true)).unwrap();
    let start_b = memory.allocations.iter().find(|x| x.data_length == 24).unwrap().start;
    memory.force_garbage_collection(&[word(b, true)]).unwrap();
    assert_eq!(memory.allocations.len(), 1);
    assert!(memory.get_data_word(a).is_err());
    assert_eq!(memory.get_data_word(b).unwrap(), word(0xDEAD, false));
    assert_eq!(memory.get_data_word(b + 8).unwrap(), word(b, true));
    assert_eq!(memory.get_data_word(b + 16).unwrap(), word(0, false));
    assert!(memory.allocations[0].start < start_b);
}

#[test]
fn non_collectible_allocations_survive_collection() {
    let mut memory = Memory::new();
    let pinned = memory.allocate(32, false, &[], None).unwrap();
    let loose = memory.allocate(32, true, &[], None).unwrap();
    memory.force_garbage_collection(&[]).unwrap();
    assert!(memory.get_data_word(pinned).is_ok());
    assert!(memory.get_data_word(loose).is_err());
}

#[test]
fn references_inside_reachable_allocations_are_traced() {
    let mut memory = Memory::new();
    let outer = memory.allocate(8, true, &[], None).unwrap();
    let inner = memory.allocate(8, true, &[], None).unwrap();
    memory.set_data_word(outer, word(inner, true)).unwrap();
    memory.set_data_word(inner, word(5, false)).unwrap();
    memory.force_garbage_collection(&[word(outer, true)]).unwrap();
    assert_eq!(memory.allocations.len(), 2);
    assert_eq!(memory.get_data_word(inner).unwrap(), word(5, false));
}

#[test]
fn heap_grows_under_pressure() {
    let mut memory = Memory::new();
    let initial = memory.heap.len();
    let mut last: Option<u64> = None;
    let mut sizes = vec![initial];
    for _ in 0..12 {
        let addr = memory.allocate(16 * 1024, false, &[], None).unwrap();
        if let Some(prev) = last {
            assert_eq!(addr - prev, 17 * 1024);
        }
        last = Some(addr);
        if *sizes.last().unwrap() != memory.heap.len() {
            sizes.push(memory.heap.len());
        }
    }
    assert!(sizes.len() > 1);
    for pair in sizes.windows(2) {
        assert_eq!(pair[1], pair[0] * 2);
    }
}

#[test]
fn out_of_memory_past_the_largest_heap() {
    let mut memory = Memory::new();
    let err = memory.allocate(64 * 1024 * 1024, true, &[], None).unwrap_err();
    assert_eq!(err.kind, ErrorKind::OutOfMemory);
}

#[test]
fn preferred_base_must_be_page_aligned_and_above_watermark() {
    let mut memory = Memory::new();
    assert_eq!(memory.allocate(8, false, &[], Some(100)).unwrap_err().kind, ErrorKind::BadBase);
    assert_eq!(memory.allocate(8, false, &[], Some(4096)).unwrap(), 4096);
    assert_eq!(memory.allocate(8, false, &[], Some(0)).unwrap_err().kind, ErrorKind::BadBase);
}

#[test]
fn data_word_round_trip_and_errors() {
    let mut memory = Memory::new();
    let a = memory.allocate(16, true, &[], None).unwrap();
    memory.set_data_word(a + 8, word(u64::MAX, true)).unwrap();
    assert_eq!(memory.get_data_word(a + 8).unwrap(), word(u64::MAX, true));
    assert_eq!(memory.get_word(a + 8).unwrap(), u64::MAX);
    assert_eq!(memory.is_reference(a + 8).unwrap(), true);
    assert_eq!(memory.get_data_word(a).unwrap(), word(0, false));
    assert_eq!(memory.get_data_word(a + 4).unwrap_err().kind, ErrorKind::Alignment);
    assert_eq!(memory.get_data_word(a + 16).unwrap_err().kind, ErrorKind::Unmapped);
    assert_eq!(memory.get_data_word(1 << 40).unwrap_err().kind, ErrorKind::Unmapped);
    memory.set(a, &[1, 2, 3]).unwrap();
    assert_eq!(memory.get(a, 4).unwrap(), vec![1, 2, 3, 0]);
    assert_eq!(memory.get(a + 10, 8).unwrap_err().kind, ErrorKind::Unmapped);
}

#[test]
fn wrapping_arithmetic_sets_carry() {
    let (r, c) = apply(BinaryOp::Add, word(u64::MAX, false), word(1, false)).unwrap();
    assert_eq!((r.value, c), (0, true));
    let (r, c) = apply(BinaryOp::Subtract, word(0, false), word(1, false)).unwrap();
    assert_eq!((r.value, c), (u64::MAX, true));
    let (r, c) = apply(BinaryOp::Multiply, word(1 << 63, false), word(2, false)).unwrap();
    assert_eq!((r.value, c), (0, true));
    let (r, c) = word(7, false).overflowing_add(word(8, true));
    assert_eq!((r, c), (word(15, true), false));
}

#[test]
fn shift_by_sixty_four_overflows() {
    let (r, c) = apply(BinaryOp::ShiftLeft, word(1, false), word(64, false)).unwrap();
    assert!(c);
    assert_eq!(r.value, 1u64.overflowing_shl(64).0);
    let (r, c) = apply(BinaryOp::ShiftRight, word(256, false), word(4, false)).unwrap();
    assert_eq!((r.value, c), (16, false));
}

#[test]
fn division_by_zero_fails() {
    assert_eq!(apply(BinaryOp::Divide, word(5, false), word(0, false)).unwrap_err().kind, ErrorKind::DivideByZero);
    let mut m = load(&[
        op(Instruction::Move, vec![SourceOperand::Immediate(5), SourceOperand::Register(0)]),
        op(Instruction::Divide, vec![SourceOperand::Immediate(0), SourceOperand::Register(0)]),
        op(Instruction::Halt, vec![]),
    ]);
    m.step().unwrap();
    assert_eq!(m.step().unwrap_err().kind, ErrorKind::DivideByZero);
}

#[test]
fn subtraction_is_destination_minus_source() {
    let mut m = load(&[
        op(Instruction::Move, vec![SourceOperand::Immediate(10), SourceOperand::Register(0)]),
        op(Instruction::Subtract, vec![SourceOperand::Immediate(3), SourceOperand::Register(0)]),
        op(Instruction::Divide, vec![SourceOperand::Immediate(7), SourceOperand::Register(0)]),
        op(Instruction::Halt, vec![]),
    ]);
    run(&mut m);
    assert_eq!(m.cpu_state.registers[0], word(1, false));
    assert!(!m.cpu_state.carry_flag);
    assert!(!m.cpu_state.zero_flag);
}

#[test]
fn compare_and_conditional_jumps() {
    // R1 counts how many times the loop body ran: 3, 2, 1
    let mut m = load(&[
        op(Instruction::Move, vec![SourceOperand::Immediate(3), SourceOperand::Register(0)]),
        token(TokenValue::Label("top".to_string())),
        op(Instruction::Add, vec![SourceOperand::Immediate(1), SourceOperand::Register(1)]),
        op(Instruction::Subtract, vec![SourceOperand::Immediate(1), SourceOperand::Register(0)]),
        op(Instruction::Compare, vec![SourceOperand::Register(0), SourceOperand::Immediate(0)]),
        op(Instruction::JumpNotEqual, vec![SourceOperand::Label("top".to_string())]),
        op(Instruction::Halt, vec![]),
    ]);
    run(&mut m);
    assert_eq!(m.cpu_state.registers[1], word(3, false));
    assert!(m.cpu_state.zero_flag);
}

#[test]
fn call_and_return() {
    let mut m = load(&[
        op(Instruction::Call, vec![SourceOperand::Label("f".to_string())]),
        op(Instruction::Halt, vec![]),
        token(TokenValue::Label("f".to_string())),
        op(Instruction::Move, vec![SourceOperand::Immediate(9), SourceOperand::Register(2)]),
        op(Instruction::Return, vec![]),
    ]);
    run(&mut m);
    assert_eq!(m.cpu_state.registers[2], word(9, false));
}

#[test]
fn return_needs_a_reference() {
    let mut m = load(&[
        op(Instruction::Push, vec![SourceOperand::Immediate(0)]),
        op(Instruction::Return, vec![]),
    ]);
    m.step().unwrap();
    assert_eq!(m.step().unwrap_err().kind, ErrorKind::TypeMismatch);
}

#[test]
fn writing_to_an_immediate_is_refused() {
    let mut m = Interpreter::load(&[0x3F]).unwrap();
    let err = m.write(&lakesis::opcodes::Operand::Immediate(1), word(1, false)).unwrap_err();
    assert_eq!(err.kind, ErrorKind::BadDestination);
}

#[test]
fn reference_operands_need_a_tagged_base() {
    let mut m = load(&[
        op(Instruction::New, vec![SourceOperand::Immediate(16), SourceOperand::Register(0)]),
        op(Instruction::Move, vec![SourceOperand::Immediate(42), SourceOperand::Reference { register: 0, offset: 8 }]),
        op(Instruction::Move, vec![SourceOperand::Reference { register: 0, offset: 8 }, SourceOperand::Register(1)]),
        op(Instruction::Unreference, vec![SourceOperand::Register(0)]),
        op(Instruction::Move, vec![SourceOperand::Reference { register: 0, offset: 8 }, SourceOperand::Register(2)]),
    ]);
    for _ in 0..4 {
        m.step().unwrap();
    }
    assert_eq!(m.cpu_state.registers[1], word(42, false));
    assert!(!m.cpu_state.registers[0].is_reference);
    assert_eq!(m.step().unwrap_err().kind, ErrorKind::TypeMismatch);
}

#[test]
fn native_print_formats_its_template() {
    let mut m = Interpreter::load(&[0x3F]).unwrap();
    let text = m.memory.allocate(16, true, &[], None).unwrap();
    m.memory.set(text, b"v=%d %u %% %s!").unwrap();
    let name = m.memory.allocate(8, true, &[], None).unwrap();
    m.memory.set(name, &[b'o', b'k', 0xFF]).unwrap();
    m.push_stack(word(name, true)).unwrap();
    m.push_stack(word(3, false)).unwrap();
    m.push_stack(word(7, false)).unwrap();
    m.push_stack(word((-5i64) as u64, false)).unwrap();
    m.push_stack(word(text, true)).unwrap();
    m.push_stack(word(14, false)).unwrap();
    let out = m.native_print().unwrap();
    assert_eq!(String::from_utf8(out).unwrap(), "v=-5 7 % ok\u{FFFD}!");
}

#[test]
fn native_print_needs_a_reference_base() {
    let mut m = Interpreter::load(&[0x3F]).unwrap();
    m.push_stack(word(0, false)).unwrap();
    m.push_stack(word(3, false)).unwrap();
    assert!(m.native_print().is_err());
}

#[test]
fn native_services_through_instructions() {
    let mut m = load(&[
        op(Instruction::Push, vec![SourceOperand::Immediate(25)]),
        op(Instruction::CallNative, vec![SourceOperand::Immediate(2)]),
        op(Instruction::CallNative, vec![SourceOperand::Immediate(1)]),
        op(Instruction::CallNative, vec![SourceOperand::Immediate(9)]),
    ]);
    m.step().unwrap();
    assert!(matches!(m.step().unwrap(), StepAction::Sleep(25)));
    m.cpu_state.registers[0] = word(0, true);
    assert!(matches!(m.step().unwrap(), StepAction::Continue));
    assert!(!m.cpu_state.registers[0].is_reference);
    assert_eq!(m.step().unwrap_err().kind, ErrorKind::BadNative);
}

#[test]
fn byte_with_high_bit_prints_as_its_character() {
    let mut m = Interpreter::load(&[0x3F]).unwrap();
    let text = m.memory.allocate(8, true, &[], None).unwrap();
    m.memory.set(text, &[0xE9]).unwrap();
    m.push_stack(word(text, true)).unwrap();
    m.push_stack(word(1, false)).unwrap();
    assert_eq!(m.native_print().unwrap(), "é".as_bytes().to_vec());
}

#[test]
fn addresses_survive_repeated_collections() {
    let mut memory = Memory::new();
    let garbage = memory.allocate(40, true, &[], None).unwrap();
    let kept = memory.allocate(24, true, &[], None).unwrap();
    memory.set_data_word(kept + 16, word(99, false)).unwrap();
    for _ in 0..3 {
        let _ = memory.allocate(8, true, &[], None).unwrap();
        memory.force_garbage_collection(&[word(kept, true)]).unwrap();
        assert_eq!(memory.get_data_word(kept + 16).unwrap(), word(99, false));
    }
    assert!(memory.get_data_word(garbage).is_err());
    assert_eq!(memory.allocations.len(), 1);
}

#[test]
fn shift_by_huge_amounts_overflows() {
    let (r, c) = apply(BinaryOp::ShiftLeft, word(3, false), word(1 << 32, false)).unwrap();
    assert!(c);
    assert_eq!(r.value, 3);
    let (_, c) = apply(BinaryOp::ShiftRight, word(3, false), word(63, false)).unwrap();
    assert!(!c);
}

#[test]
fn failed_division_leaves_registers_and_flags() {
    let mut m = load(&[
        op(Instruction::Move, vec![SourceOperand::Immediate(5), SourceOperand::Register(0)]),
        op(Instruction::Divide, vec![SourceOperand::Register(1), SourceOperand::Register(0)]),
    ]);
    m.step().unwrap();
    let registers = m.cpu_state.registers.clone();
    let (zero, carry, sp) = (m.cpu_state.zero_flag, m.cpu_state.carry_flag, m.cpu_state.stack_pointer);
    assert_eq!(m.step().unwrap_err().kind, ErrorKind::DivideByZero);
    assert_eq!(m.cpu_state.registers, registers);
    assert_eq!((m.cpu_state.zero_flag, m.cpu_state.carry_flag, m.cpu_state.stack_pointer), (zero, carry, sp));
}

#[test]
fn failed_return_leaves_stack_pointer() {
    let mut m = load(&[
        op(Instruction::Push, vec![SourceOperand::Immediate(0)]),
        op(Instruction::Return, vec![]),
    ]);
    m.step().unwrap();
    let sp = m.cpu_state.stack_pointer;
    assert_eq!(m.step().unwrap_err().kind, ErrorKind::TypeMismatch);
    assert_eq!(m.cpu_state.stack_pointer, sp);
}

#[test]
fn untagged_print_template_is_a_type_mismatch() {
    let mut m = Interpreter::load(&[0x3F]).unwrap();
    m.push_stack(word(0, false)).unwrap();
    m.push_stack(word(3, false)).unwrap();
    assert_eq!(m.native_print().unwrap_err().kind, ErrorKind::TypeMismatch);
}

#[test]
fn loading_an_empty_program_fails() {
    assert!(Interpreter::load(&[]).is_err());
}

#[test]
fn loaded_program_reads_back_and_stack_is_set() {
    let program = [0x3Fu8, 1, 2];
    let m = Interpreter::load(&program).unwrap();
    assert_eq!(m.memory.get(0, 3).unwrap(), program.to_vec());
    let stack = m.memory.allocations.iter().find(|a| a.data_length == 2040).unwrap();
    assert!(!stack.is_collectible);
    assert_eq!(m.cpu_state.instruction_pointer, 0);
    assert!(m.memory.get_data_word(m.cpu_state.stack_pointer).is_ok());
}

#[test]
fn writing_one_word_leaves_the_others() {
    let mut memory = Memory::new();
    let a = memory.allocate(32, true, &[], None).unwrap();
    memory.set_data_word(a, word(1, true)).unwrap();
    memory.set_data_word(a + 8, word(2, false)).unwrap();
    memory.set_data_word(a + 16, word(3, true)).unwrap();
    assert_eq!(memory.get_data_word(a).unwrap(), word(1, true));
    assert_eq!(memory.get_data_word(a + 8).unwrap(), word(2, false));
    let b = memory.allocate(8, true, &[word(a, true)], None).unwrap();
    memory.set_data_word(b, word(4, false)).unwrap();
    assert_eq!(memory.get_data_word(a + 16).unwrap(), word(3, true));
}

#[test]
fn request_too_large_is_out_of_memory_even_with_a_bad_base() {
    let mut memory = Memory::new();
    let err = memory.allocate(16 * 1024 * 1024 + 1, true, &[], Some(1)).unwrap_err();
    assert_eq!(err.kind, ErrorKind::OutOfMemory);
}

#[test]
fn bad_base_gives_the_region_back() {
    let mut memory = Memory::new();
    let a = memory.allocate(64, false, &[], None).unwrap();
    let regions_before = memory.regions.regions.len();
    let err = memory.allocate(64, false, &[], Some(a)).unwrap_err();
    assert_eq!(err.kind, ErrorKind::BadBase);
    assert_eq!(memory.regions.regions.len(), regions_before);
    assert_eq!(memory.allocations.len(), 1);
    let b = memory.allocate(64, false, &[], None).unwrap();
    assert!(b > a);
}

#[test]
fn new_into_a_register_and_jumps_keep_flags() {
    let mut m = load(&[
        op(Instruction::Compare, vec![SourceOperand::Immediate(1), SourceOperand::Immediate(1)]),
        op(Instruction::New, vec![SourceOperand::Immediate(16), SourceOperand::Register(2)]),
        op(Instruction::JumpLessEqual, vec![SourceOperand::Label("end".to_string())]),
        token(TokenValue::Label("end".to_string())),
        op(Instruction::Halt, vec![]),
    ]);
    let sp = m.cpu_state.stack_pointer;
    m.step().unwrap();
    m.step().unwrap();
    assert!(m.cpu_state.registers[2].is_reference);
    m.step().unwrap();
    assert!(m.cpu_state.zero_flag && m.cpu_state.carry_flag);
    assert_eq!(m.cpu_state.stack_pointer, sp);
}
