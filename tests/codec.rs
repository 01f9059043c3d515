use lakesis::assembler::encoder::encode;
use lakesis::assembler::parser::{Operand as SourceOperand, Token, TokenValue};
use lakesis::assembler::FileRange;
use lakesis::common::ErrorKind;
use lakesis::opcodes::{Instruction, Opcode, Operand, OperandMode};

fn token(value: TokenValue) -> Token {
    Token { value, range: FileRange::invalid() }
}

fn opcode(instruction: Instruction, operands: Vec<SourceOperand>) -> Token {
    token(TokenValue::Opcode { instruction, operands })
}

#[test]
fn halt_encodes_to_one_byte_and_decodes_back() {
    let bytes = encode(&[opcode(Instruction::Halt, vec![])]).unwrap();
    assert_eq!(bytes, vec![0x3F]);
    let (op, len) = Opcode::decode(&bytes).unwrap();
    assert_eq!(len, 1);
    assert_eq!(op.instruction, Instruction::Halt);
    assert!(op.operands.is_empty());
    assert_eq!(op.instruction.descriptor().mnemonic, "halt");
}

#[test]
fn label_fixup_writes_seven_bytes() {
    let tokens = vec![
        token(TokenValue::Label("start".to_string())),
        opcode(Instruction::Jump, vec![SourceOperand::Label("end".to_string())]),
        token(TokenValue::Label("end".to_string())),
        opcode(Instruction::Halt, vec![]),
    ];
    let bytes = encode(&tokens).unwrap();
    assert_eq!(bytes, vec![0x4D, 0x07, 0x09, 0, 0, 0, 0, 0, 0, 0x3F]);
}

#[test]
fn operand_values_round_trip_in_shortest_form() {
    let cases: Vec<(SourceOperand, Operand, usize)> = vec![
        (SourceOperand::Immediate(0), Operand::Immediate(0), 1),
        (SourceOperand::Immediate(2), Operand::Immediate(2), 2),
        (SourceOperand::Immediate(-300), Operand::Immediate(-300), 3),
        (SourceOperand::Immediate(0xFF_FFFF_FFFF_FFFF), Operand::Immediate(0xFF_FFFF_FFFF_FFFF), 8),
        (SourceOperand::Register(3), Operand::Register(3), 1),
        (SourceOperand::Reference { register: 1, offset: -8 }, Operand::Reference { register: 1, offset: -8 }, 2),
        (SourceOperand::Stack(256), Operand::Stack(256), 3),
    ];
    for (source, expected, len) in cases {
        let bytes = encode(&[opcode(Instruction::Push, vec![source])]).unwrap();
        assert_eq!(bytes.len(), 1 + len);
        let (operand, used) = Operand::decode(&bytes, 1).unwrap();
        assert_eq!(used, len);
        assert_eq!(operand, expected);
    }
}

#[test]
fn negative_immediate_sets_the_sign_bit() {
    let bytes = encode(&[opcode(Instruction::Push, vec![SourceOperand::Immediate(-1)])]).unwrap();
    assert_eq!(bytes, vec![0x56, 0x09, 0x01]);
}

#[test]
fn operand_too_large_is_refused() {
    let err = encode(&[opcode(Instruction::Push, vec![SourceOperand::Immediate(0x100_0000_0000_0000)])]).unwrap_err();
    assert_eq!(err.kind, ErrorKind::OperandTooLarge);
}

#[test]
fn align_of_one_or_zero_is_an_error() {
    for n in [0u64, 1u64] {
        let err = encode(&[token(TokenValue::Align(n))]).unwrap_err();
        assert_eq!(err.kind, ErrorKind::Alignment);
    }
}

#[test]
fn align_pads_with_zeros() {
    let tokens = vec![opcode(Instruction::Halt, vec![]), token(TokenValue::Align(4)), opcode(Instruction::Halt, vec![])];
    assert_eq!(encode(&tokens).unwrap(), vec![0x3F, 0, 0, 0, 0x3F]);
}

#[test]
fn redefinition_is_an_error() {
    let tokens = vec![token(TokenValue::Label("a".to_string())), token(TokenValue::Define { label: "a".to_string(), value: 3 })];
    assert_eq!(encode(&tokens).unwrap_err().kind, ErrorKind::Redefinition);
}

#[test]
fn unknown_label_is_an_error() {
    let tokens = vec![opcode(Instruction::Jump, vec![SourceOperand::Label("nowhere".to_string())])];
    assert_eq!(encode(&tokens).unwrap_err().kind, ErrorKind::UnresolvedLabel);
}

#[test]
fn string_with_length_label() {
    let tokens = vec![
        token(TokenValue::String { length_label: Some("len".to_string()), value: "hé".to_string() }),
        opcode(Instruction::Push, vec![SourceOperand::Label("len".to_string())]),
    ];
    let bytes = encode(&tokens).unwrap();
    assert_eq!(bytes, vec![b'h', 0xC3, 0xA9, 0x56, 0x07, 3, 0, 0, 0, 0, 0, 0]);
}

#[test]
fn define_gives_label_value() {
    let tokens = vec![
        token(TokenValue::Define { label: "k".to_string(), value: 0x1234 }),
        opcode(Instruction::Push, vec![SourceOperand::Label("k".to_string())]),
    ];
    assert_eq!(encode(&tokens).unwrap(), vec![0x56, 0x07, 0x34, 0x12, 0, 0, 0, 0, 0]);
}

#[test]
fn unknown_instruction_id_is_malformed() {
    assert_eq!(Instruction::decode(0x20).unwrap_err().kind, ErrorKind::MalformedBinary);
    assert_eq!(Instruction::decode(0x3F).unwrap(), Instruction::Halt);
    assert_eq!(Opcode::decode(&[0x20]).unwrap_err().kind, ErrorKind::MalformedBinary);
}

#[test]
fn every_id_decodes_to_its_instruction_or_fails() {
    for b in 0u8..=255 {
        match Instruction::from_value(b & 0x3F) {
            Some(i) => assert_eq!(i.value(), b & 0x3F),
            None => assert!(Instruction::decode(b & 0x3F).is_err()),
        }
    }
}

#[test]
fn short_and_mismatched_operands_are_malformed() {
    assert_eq!(Opcode::decode(&[0x4D]).unwrap_err().kind, ErrorKind::MalformedBinary);
    assert_eq!(Opcode::decode(&[0x4D, 0x02, 0x01]).unwrap_err().kind, ErrorKind::MalformedBinary);
    assert_eq!(Opcode::decode(&[0x3F | 0x40, 0x00]).unwrap_err().kind, ErrorKind::MalformedBinary);
    // mov with an immediate destination
    assert_eq!(Opcode::decode(&[0x81, 0x01, 0x05, 0x00]).unwrap_err().kind, ErrorKind::MalformedBinary);
}

#[test]
fn operand_modes() {
    assert!(OperandMode::ReadWrite.can_be_used_as(&OperandMode::ReadOnly));
    assert!(!OperandMode::ReadOnly.can_be_used_as(&OperandMode::ReadWrite));
    assert_eq!(Operand::Immediate(1).mode(), OperandMode::ReadOnly);
    assert_eq!(Operand::Stack(1).mode(), OperandMode::ReadWrite);
}

#[test]
fn mnemonics_are_found_whatever_their_case() {
    assert_eq!(Instruction::from_mnemonic("JMP"), Some(Instruction::Jump));
    assert_eq!(Instruction::from_mnemonic("debugmem"), Some(Instruction::DebugMemory));
    assert_eq!(Instruction::from_mnemonic("jump"), None);
}

#[test]
fn assembled_program_disassembles_to_the_same_instructions() {
    let program: Vec<(Instruction, Vec<SourceOperand>, Vec<Operand>)> = vec![
        (Instruction::Move, vec![SourceOperand::Immediate(-7), SourceOperand::Register(2)], vec![Operand::Immediate(-7), Operand::Register(2)]),
        (Instruction::Add, vec![SourceOperand::Stack(16), SourceOperand::Reference { register: 3, offset: 1024 }], vec![Operand::Stack(16), Operand::Reference { register: 3, offset: 1024 }]),
        (Instruction::Compare, vec![SourceOperand::Register(0), SourceOperand::Immediate(0)], vec![Operand::Register(0), Operand::Immediate(0)]),
        (Instruction::GarbageCollector, vec![], vec![]),
        (Instruction::Halt, vec![], vec![]),
    ];
    let tokens: Vec<Token> = program.iter().map(|(i, ops, _)| opcode(*i, ops.iter().map(|o| match o {
        SourceOperand::Immediate(v) => SourceOperand::Immediate(*v),
        SourceOperand::Register(r) => SourceOperand::Register(*r),
        SourceOperand::Reference { register, offset } => SourceOperand::Reference { register: *register, offset: *offset },
        SourceOperand::Stack(s) => SourceOperand::Stack(*s),
        SourceOperand::Label(l) => SourceOperand::Label(l.clone()),
    }).collect())).collect();
    let bytes = encode(&tokens).unwrap();
    let mut position = 0;
    for (instruction, _, operands) in &program {
        let (op, len) = Opcode::decode(&bytes[position..]).unwrap();
        assert_eq!(op.instruction, *instruction);
        assert_eq!(&op.operands, operands);
        position += len;
    }
    assert_eq!(position, bytes.len());
}
