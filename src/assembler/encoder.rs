use crate::assembler::parser::{Operand, Token, TokenValue};
use crate::assembler::{Error, FileRange};
use crate::common::ErrorKind;
use crate::opcodes::{
    abs_value, byte_len, instruction_byte, le_bytes, lemma_opcode_round_trip, lemma_pow256_seven,
    operand_encodable, operand_first_byte, operand_magnitude, operands_fit, pow256,
    spec_decode_opcode, spec_encode_opcode, spec_encode_operand, spec_encode_operands, Instruction,
    Operand as CoreOperand,
};
use vstd::prelude::*;
use vstd::utf8::encode_utf8;

verus! {

/// Bytes written so far, the names defined so far with their values, and the places
/// where a name's value is still to be written.
pub type EncodeState = (Seq<u8>, Seq<(Seq<char>, u64)>, Seq<(int, Seq<char>)>);

/// The operand of the binary format that a source operand naming no label stands for.
pub open spec fn core_operand(op: Operand) -> CoreOperand {
    match op {
        Operand::Immediate(v) => CoreOperand::Immediate(v),
        Operand::Register(r) => CoreOperand::Register(r),
        Operand::Reference { register, offset } => CoreOperand::Reference { register, offset },
        Operand::Stack(s) => CoreOperand::Stack(s),
        Operand::Label(_) => CoreOperand::Immediate(0),
    }
}

/// The bytes of one source operand: a label reserves seven value bytes for its fixup; any
/// other operand takes its shortest encoding, which must fit in seven value bytes.
pub open spec fn operand_bytes(op: Operand) -> Result<Seq<u8>, ErrorKind> {
    match op {
        Operand::Label(_) => Ok(seq![7u8] + Seq::new(7, |i: int| 0u8)),
        _ => if operand_magnitude(core_operand(op)) < pow256(7) {
            Ok(spec_encode_operand(core_operand(op)))
        } else {
            Err(ErrorKind::OperandTooLarge)
        },
    }
}

/// The bytes of the operands written from offset `start`, and the fixups they need.
pub open spec fn operands_bytes(ops: Seq<Operand>, start: int) -> Result<(Seq<u8>, Seq<(int, Seq<char>)>), ErrorKind>
    decreases ops.len(),
{
    if ops.len() == 0 {
        Ok((Seq::empty(), Seq::empty()))
    } else {
        match operands_bytes(ops.drop_last(), start) {
            Err(k) => Err(k),
            Ok((b, fx)) => match operand_bytes(ops.last()) {
                Err(k) => Err(k),
                Ok(ob) => Ok((b + ob, with_fixup(fx, ops.last(), start + b.len() + 1))),
            },
        }
    }
}

/// The fixups after an operand whose value bytes start at `pos`.
pub open spec fn with_fixup(fx: Seq<(int, Seq<char>)>, op: Operand, pos: int) -> Seq<(int, Seq<char>)> {
    match op {
        Operand::Label(name) => fx.push((pos, name@)),
        _ => fx,
    }
}

/// Whether a name is defined.
pub open spec fn is_defined(labels: Seq<(Seq<char>, u64)>, name: Seq<char>) -> bool {
    exists|i: int| 0 <= i < labels.len() && labels[i].0 == name
}

/// The value of a name, if it is defined.
pub open spec fn lookup(labels: Seq<(Seq<char>, u64)>, name: Seq<char>) -> Option<u64> {
    if is_defined(labels, name) {
        Some(labels[choose|i: int| 0 <= i < labels.len() && labels[i].0 == name].1)
    } else {
        None
    }
}

/// The state with a new name defined; a name cannot be defined twice.
pub open spec fn define(st: EncodeState, name: Seq<char>, value: u64) -> Result<EncodeState, ErrorKind> {
    if is_defined(st.1, name) {
        Err(ErrorKind::Redefinition)
    } else {
        Ok((st.0, st.1.push((name, value)), st.2))
    }
}

/// Zero bytes that bring `len` up to a multiple of `n`.
pub open spec fn padding(len: int, n: int) -> int {
    (n - len % n) % n
}

/// The state after one token.
pub open spec fn spec_token(st: EncodeState, tv: TokenValue) -> Result<EncodeState, ErrorKind> {
    match tv {
        TokenValue::Label(s) => define(st, s@, st.0.len() as u64),
        TokenValue::Define { label, value } => define(st, label@, value as u64),
        TokenValue::String { length_label, value } => {
            let bytes = encode_utf8(value@);
            let st1 = match length_label {
                Some(l) => define(st, l@, bytes.len() as u64),
                None => Ok(st),
            };
            match st1 {
                Ok(s1) => Ok((s1.0 + bytes, s1.1, s1.2)),
                Err(k) => Err(k),
            }
        },
        TokenValue::Align(n) => if n <= 1 {
            Err(ErrorKind::Alignment)
        } else {
            Ok((st.0 + Seq::new(padding(st.0.len() as int, n as int) as nat, |i: int| 0u8), st.1, st.2))
        },
        TokenValue::Opcode { instruction, operands } => match operands_bytes(operands@, st.0.len() + 1int) {
            Ok((b, fx)) => Ok((st.0 + seq![instruction_byte(instruction, operands@.len())] + b, st.1, st.2 + fx)),
            Err(k) => Err(k),
        },
    }
}

/// The state after the tokens, in order.
pub open spec fn spec_tokens(tokens: Seq<Token>) -> Result<EncodeState, ErrorKind>
    decreases tokens.len(),
{
    if tokens.len() == 0 {
        Ok((Seq::empty(), Seq::empty(), Seq::empty()))
    } else {
        match spec_tokens(tokens.drop_last()) {
            Ok(st) => spec_token(st, tokens.last().value),
            Err(k) => Err(k),
        }
    }
}

/// The bytes with each fixup written: seven little-endian bytes of the name's value.
pub open spec fn apply_fixups(bytes: Seq<u8>, labels: Seq<(Seq<char>, u64)>, fixups: Seq<(int, Seq<char>)>) -> Result<Seq<u8>, ErrorKind>
    decreases fixups.len(),
{
    if fixups.len() == 0 {
        Ok(bytes)
    } else {
        match apply_fixups(bytes, labels, fixups.drop_last()) {
            Ok(b) => match lookup(labels, fixups.last().1) {
                Some(v) => {
                    let off = fixups.last().0;
                    if 0 <= off && off + 7 <= b.len() {
                        Ok(b.subrange(0, off) + le_bytes(v as nat, 7) + b.subrange(off + 7, b.len() as int))
                    } else {
                        Err(ErrorKind::UnresolvedLabel)
                    }
                },
                None => Err(ErrorKind::UnresolvedLabel),
            },
            Err(k) => Err(k),
        }
    }
}

/// The binary that the tokens assemble to.
pub open spec fn spec_encode(tokens: Seq<Token>) -> Result<Seq<u8>, ErrorKind> {
    match spec_tokens(tokens) {
        Ok(st) => apply_fixups(st.0, st.1, st.2),
        Err(k) => Err(k),
    }
}


/// The fields of an operand's first byte and its value, as the encoder sees them.
struct OperandData {
    addressing_mode: u8,
    register_number: u8,
    value_is_positive: bool,
    value_absolute: u64,
    is_label: bool,
}

/// The absolute value of a signed word.
fn unsigned_abs(v: i64) -> (r: u64)
    ensures
        r as nat == abs_value(v),
{
    if v < 0 {
        (-(v + 1)) as u64 + 1
    } else {
        v as u64
    }
}

/// The shortest little-endian bytes of a value.
fn shortest_le_bytes(v: u64) -> (r: Vec<u8>)
    ensures
        r@ == le_bytes(v as nat, byte_len(v as nat)),
{
    let mut out: Vec<u8> = Vec::new();
    let mut rest: u64 = v;
    while rest > 0
        invariant
            out@ + le_bytes(rest as nat, byte_len(rest as nat)) == le_bytes(v as nat, byte_len(v as nat)),
        decreases rest,
    {
        let ghost before = out@;
        let ghost k = byte_len((rest / 256) as nat);
        assert(byte_len(rest as nat) == 1 + k);
        assert(le_bytes(rest as nat, (1 + k) as nat) == seq![(rest % 256) as u8] + le_bytes((rest / 256) as nat, k));
        out.push((rest % 256) as u8);
        assert(before + (seq![(rest % 256) as u8] + le_bytes((rest / 256) as nat, k)) =~= out@ + le_bytes((rest / 256) as nat, k));
        rest = rest / 256;
    }
    assert(out@ + le_bytes(0, 0) =~= out@);
    out
}

/// Turns a token stream into the binary instruction format.
pub struct Encoder {
    pub output: Vec<u8>,
    pub label_names: Vec<String>,
    pub label_values: Vec<u64>,
    pub fixup_offsets: Vec<usize>,
    pub fixup_names: Vec<String>,
}

impl Encoder {
    pub open spec fn labels(&self) -> Seq<(Seq<char>, u64)> {
        Seq::new(self.label_names@.len(), |i: int| (self.label_names@[i]@, self.label_values@[i]))
    }

    pub open spec fn fixups(&self) -> Seq<(int, Seq<char>)> {
        Seq::new(self.fixup_offsets@.len(), |i: int| (self.fixup_offsets@[i] as int, self.fixup_names@[i]@))
    }

    pub open spec fn state(&self) -> EncodeState {
        (self.output@, self.labels(), self.fixups())
    }

    pub open spec fn inv(&self) -> bool {
        &&& self.label_names@.len() == self.label_values@.len()
        &&& self.fixup_offsets@.len() == self.fixup_names@.len()
        &&& forall|i: int, j: int| 0 <= i < self.labels().len() && 0 <= j < self.labels().len() && i != j
            ==> #[trigger] self.labels()[i].0 != #[trigger] self.labels()[j].0
    }

    /// An encoder that has written nothing.
    pub fn new() -> (r: Encoder)
        ensures
            r.inv(),
            r.state() == (Seq::<u8>::empty(), Seq::<(Seq<char>, u64)>::empty(), Seq::<(int, Seq<char>)>::empty()),
    {
        let r = Encoder { output: Vec::new(), label_names: Vec::new(), label_values: Vec::new(), fixup_offsets: Vec::new(), fixup_names: Vec::new() };
        assert(r.labels() =~= Seq::<(Seq<char>, u64)>::empty());
        assert(r.fixups() =~= Seq::<(int, Seq<char>)>::empty());
        r
    }

    /// The error for a token at the given place.
    fn make_error(kind: ErrorKind, msg: &str, range: FileRange) -> (r: Error)
        ensures
            r.kind == kind,
    {
        Error { kind, message: msg.to_owned(), range }
    }

    /// The index of the name among those defined.
    fn find_label(&self, name: &String) -> (r: Option<usize>)
        requires
            self.inv(),
        ensures
            r matches Some(i) ==> i < self.label_names@.len() && self.labels()[i as int].0 == name@,
            r is None ==> !is_defined(self.labels(), name@),
    {
        let mut i: usize = 0;
        while i < self.label_names.len()
            invariant
                self.inv(),
                i <= self.label_names@.len(),
                forall|j: int| 0 <= j < i ==> self.labels()[j].0 != name@,
            decreases self.label_names@.len() - i,
        {
            if self.label_names[i] == *name {
                return Some(i);
            }
            i = i + 1;
        }
        None
    }

    /// Defines a name; defining it again is an error.
    fn set_label_value_without_override(&mut self, name: &String, value: u64, range: FileRange) -> (r: Result<(), Error>)
        requires
            old(self).inv(),
        ensures
            final(self).inv(),
            r is Ok ==> define(old(self).state(), name@, value) == Ok::<EncodeState, ErrorKind>(final(self).state()),
            r matches Err(e) ==> define(old(self).state(), name@, value) == Err::<EncodeState, ErrorKind>(e.kind) && e.kind == ErrorKind::Redefinition,
    {
        if self.find_label(name).is_some() {
            return Err(Self::make_error(ErrorKind::Redefinition, "Redefinition of label", range));
        }
        let ghost before = self.labels();
        self.label_names.push(name.clone());
        self.label_values.push(value);
        assert(self.labels() =~= before.push((name@, value)));
        assert(self.fixups() =~= old(self).fixups());
        Ok(())
    }

    /// Appends bytes to the output.
    fn write(&mut self, bytes: &[u8])
        requires
            old(self).inv(),
        ensures
            final(self).inv(),
            final(self).state() == (old(self).output@ + bytes@, old(self).labels(), old(self).fixups()),
    {
        append_slice(&mut self.output, bytes);
    }

    /// Appends one byte to the output.
    fn write_byte(&mut self, byte: u8)
        requires
            old(self).inv(),
        ensures
            final(self).inv(),
            final(self).state() == (old(self).output@.push(byte), old(self).labels(), old(self).fixups()),
    {
        self.output.push(byte);
    }

    /// Pads the output with zeros to a multiple of `alignment`, which must exceed 1.
    fn align_output(&mut self, alignment: u64, range: FileRange) -> (r: Result<(), Error>)
        requires
            old(self).inv(),
        ensures
            final(self).inv(),
            r is Ok ==> spec_token(old(self).state(), TokenValue::Align(alignment)) == Ok::<EncodeState, ErrorKind>(final(self).state()),
            r matches Err(e) ==> spec_token(old(self).state(), TokenValue::Align(alignment)) == Err::<EncodeState, ErrorKind>(e.kind) && e.kind == ErrorKind::Alignment,
            r is Err ==> final(self).state() == old(self).state() && alignment <= 1,
    {
        if alignment <= 1 {
            return Err(Self::make_error(ErrorKind::Alignment, "Alignment must be bigger than 1", range));
        }
        let len = self.output.len() as u64;
        let pad = (alignment - len % alignment) % alignment;
        let mut zeros: Vec<u8> = Vec::new();
        let mut k: u64 = 0;
        while k < pad
            invariant
                k <= pad,
                zeros@ == Seq::new(k as nat, |i: int| 0u8),
            decreases pad - k,
        {
            zeros.push(0);
            assert(zeros@ =~= Seq::new((k + 1) as nat, |i: int| 0u8));
            k = k + 1;
        }
        self.write(zeros.as_slice());
        Ok(())
    }

    /// Records the current output offset under a name.
    fn remember_label(&mut self, name: &String, range: FileRange) -> (r: Result<(), Error>)
        requires
            old(self).inv(),
        ensures
            final(self).inv(),
            r is Ok ==> define(old(self).state(), name@, old(self).output@.len() as u64) == Ok::<EncodeState, ErrorKind>(final(self).state()),
            r matches Err(e) ==> define(old(self).state(), name@, old(self).output@.len() as u64) == Err::<EncodeState, ErrorKind>(e.kind),
    {
        let offset = self.output.len() as u64;
        self.set_label_value_without_override(name, offset, range)
    }

    /// Writes the bytes of a string; the optional name gets their count.
    fn encode_string(&mut self, length_label: &Option<String>, value: &String, range: FileRange) -> (r: Result<(), Error>)
        requires
            old(self).inv(),
        ensures
            final(self).inv(),
            r is Ok ==> spec_token(old(self).state(), TokenValue::String { length_label: *length_label, value: *value }) == Ok::<EncodeState, ErrorKind>(final(self).state()),
            r matches Err(e) ==> spec_token(old(self).state(), TokenValue::String { length_label: *length_label, value: *value }) == Err::<EncodeState, ErrorKind>(e.kind),
    {
        let bytes = value.as_str().as_bytes();
        if let Some(label) = length_label {
            self.set_label_value_without_override(label, bytes.len() as u64, range)?;
        }
        self.write(bytes);
        Ok(())
    }

    /// The fields of an operand's first byte and its value.
    fn get_operand_data(operand: &Operand) -> (r: OperandData)
        ensures
            r.is_label == (*operand is Label),
            r.register_number == match *operand {
                Operand::Register(x) => x,
                Operand::Reference { register, .. } => register,
                _ => 0u8,
            },
            r.is_label ==> r.addressing_mode == 0 && r.value_is_positive && r.value_absolute == 0,
            !r.is_label ==> ({
                let c = core_operand(*operand);
                &&& r.value_absolute as nat == operand_magnitude(c)
                &&& spec_encode_operand(c) == seq![operand_first_byte(r.addressing_mode as int, (r.register_number % 4) as int, !r.value_is_positive, byte_len(operand_magnitude(c)) as int) as u8]
                    + le_bytes(operand_magnitude(c), byte_len(operand_magnitude(c)))
                &&& r.addressing_mode < 4
            }),
    {
        match operand {
            Operand::Label(_) => OperandData { addressing_mode: 0, register_number: 0, value_is_positive: true, value_absolute: 0, is_label: true },
            Operand::Immediate(x) => OperandData { addressing_mode: 0, register_number: 0, value_is_positive: *x >= 0, value_absolute: unsigned_abs(*x), is_label: false },
            Operand::Register(r) => OperandData { addressing_mode: 1, register_number: *r, value_is_positive: true, value_absolute: 0, is_label: false },
            Operand::Reference { register, offset } => OperandData { addressing_mode: 2, register_number: *register, value_is_positive: *offset >= 0, value_absolute: unsigned_abs(*offset), is_label: false },
            Operand::Stack(o) => OperandData { addressing_mode: 3, register_number: 0, value_is_positive: true, value_absolute: *o, is_label: false },
        }
    }

    /// Writes one operand: its first byte, then its value. A label reserves seven bytes
    /// and is recorded for the fixup pass; any other value must fit in seven bytes.
    fn encode_operand(&mut self, operand: &Operand, range: FileRange) -> (r: Result<(), Error>)
        requires
            old(self).inv(),
        ensures
            final(self).inv(),
            r is Ok ==> operand_bytes(*operand) is Ok,
            r is Ok ==> final(self).output@ == old(self).output@ + operand_bytes(*operand).unwrap(),
            r is Ok ==> final(self).labels() == old(self).labels(),
            r is Ok ==> final(self).fixups() == with_fixup(old(self).fixups(), *operand, old(self).output@.len() + 1int),
            r matches Err(e) ==> operand_bytes(*operand) == Err::<Seq<u8>, ErrorKind>(e.kind) && e.kind == ErrorKind::OperandTooLarge,
    {
        let data = Self::get_operand_data(operand);
        proof { lemma_pow256_seven(); }
        if let Operand::Label(name) = operand {
            self.write_byte(7);
            let offset = self.output.len();
            let ghost before = self.fixups();
            self.fixup_offsets.push(offset);
            self.fixup_names.push(name.clone());
            assert(self.fixups() =~= before.push((offset as int, name@)));
            let zeros: [u8; 7] = [0, 0, 0, 0, 0, 0, 0];
            let ghost mid = self.output@;
            self.write(&zeros);
            assert(zeros@ =~= Seq::new(7, |i: int| 0u8));
            assert(self.output@ =~= old(self).output@ + (seq![7u8] + Seq::new(7, |i: int| 0u8)));
            return Ok(());
        }
        if data.value_absolute >= 0x100_0000_0000_0000 {
            return Err(Self::make_error(ErrorKind::OperandTooLarge, "Operand value cannot be longer than 7 bytes", range));
        }
        let value_bytes = shortest_le_bytes(data.value_absolute);
        proof {
            crate::opcodes::lemma_byte_len_at_most(data.value_absolute as nat, 7);
            crate::opcodes::lemma_byte_len_minimal(data.value_absolute as nat);
            crate::opcodes::lemma_le_round_trip(data.value_absolute as nat, byte_len(data.value_absolute as nat));
            crate::opcodes::lemma_first_byte_fields(data.addressing_mode as int, (data.register_number % 4) as int, !data.value_is_positive, value_bytes@.len() as int);
        }
        let size = value_bytes.len() as u8;
        let sign: u8 = if data.value_is_positive { 0 } else { 8 };
        let first_byte: u8 = data.addressing_mode * 64 + (data.register_number % 4) * 16 + sign + size;
        self.write_byte(first_byte);
        self.write(value_bytes.as_slice());
        assert(self.output@ =~= old(self).output@ + (seq![first_byte] + value_bytes@));
        Ok(())
    }
}


/// Once a prefix of the operands fails to encode, so do all longer prefixes.
proof fn lemma_operands_fail(ops: Seq<Operand>, start: int, j: int, m: int)
    requires
        0 <= j <= m <= ops.len(),
        operands_bytes(ops.subrange(0, j), start) is Err,
    ensures
        operands_bytes(ops.subrange(0, m), start) == operands_bytes(ops.subrange(0, j), start),
    decreases m - j,
{
    if m > j {
        lemma_operands_fail(ops, start, j, m - 1);
        assert(ops.subrange(0, m).drop_last() =~= ops.subrange(0, m - 1));
    }
}

/// Once a prefix of the tokens fails to encode, so do all longer prefixes.
proof fn lemma_tokens_fail(tokens: Seq<Token>, j: int, m: int)
    requires
        0 <= j <= m <= tokens.len(),
        spec_tokens(tokens.subrange(0, j)) is Err,
    ensures
        spec_tokens(tokens.subrange(0, m)) == spec_tokens(tokens.subrange(0, j)),
    decreases m - j,
{
    if m > j {
        lemma_tokens_fail(tokens, j, m - 1);
        assert(tokens.subrange(0, m).drop_last() =~= tokens.subrange(0, m - 1));
    }
}

/// Once a prefix of the fixups fails, so do all longer prefixes.
proof fn lemma_fixups_fail(bytes: Seq<u8>, labels: Seq<(Seq<char>, u64)>, fx: Seq<(int, Seq<char>)>, j: int, m: int)
    requires
        0 <= j <= m <= fx.len(),
        apply_fixups(bytes, labels, fx.subrange(0, j)) is Err,
    ensures
        apply_fixups(bytes, labels, fx.subrange(0, m)) == apply_fixups(bytes, labels, fx.subrange(0, j)),
    decreases m - j,
{
    if m > j {
        lemma_fixups_fail(bytes, labels, fx, j, m - 1);
        assert(fx.subrange(0, m).drop_last() =~= fx.subrange(0, m - 1));
    }
}

/// Appends bytes to a buffer.
fn append_slice(out: &mut Vec<u8>, bytes: &[u8])
    ensures
        final(out)@ == old(out)@ + bytes@,
{
    let mut k: usize = 0;
    while k < bytes.len()
        invariant
            k <= bytes@.len(),
            out@ == old(out)@ + bytes@.subrange(0, k as int),
        decreases bytes@.len() - k,
    {
        out.push(bytes[k]);
        assert(out@ =~= old(out)@ + bytes@.subrange(0, k + 1));
        k = k + 1;
    }
    assert(bytes@.subrange(0, bytes@.len() as int) =~= bytes@);
}

/// The `n` bytes of `le_bytes` are `n`.
proof fn lemma_le_bytes_len(v: nat, n: nat)
    ensures
        le_bytes(v, n).len() == n,
    decreases n,
{
    if n > 0 {
        lemma_le_bytes_len(v / 256, (n - 1) as nat);
    }
}

/// Writes the seven low bytes of a value, little-endian, at an offset.
fn write_le7(output: &mut Vec<u8>, offset: usize, value: u64)
    requires
        offset + 7 <= old(output)@.len(),
    ensures
        final(output)@ == old(output)@.subrange(0, offset as int) + le_bytes(value as nat, 7)
            + old(output)@.subrange(offset + 7, old(output)@.len() as int),
{
    let ghost target = old(output)@.subrange(0, offset as int) + le_bytes(value as nat, 7)
        + old(output)@.subrange(offset + 7, old(output)@.len() as int);
    let mut rest: u64 = value;
    let mut k: usize = 0;
    let len = output.len();
    proof { lemma_le_bytes_len(value as nat, 7); }
    while k < 7
        invariant
            len == output@.len(),
            k <= 7,
            offset + 7 <= output@.len(),
            output@.len() == old(output)@.len(),
            le_bytes(value as nat, 7) == le_bytes(value as nat, 7).subrange(0, k as int) + le_bytes(rest as nat, (7 - k) as nat),
            forall|p: int| 0 <= p < output@.len() && (p < offset || p >= offset + k) ==> #[trigger] output@[p] == old(output)@[p],
            forall|p: int| offset <= p < offset + k ==> #[trigger] output@[p] == le_bytes(value as nat, 7)[p - offset],
        decreases 7 - k,
    {
        let ghost lb = le_bytes(value as nat, 7);
        proof {
            lemma_le_bytes_len(value as nat, 7);
            lemma_le_bytes_len(rest as nat, (7 - k) as nat);
            lemma_le_bytes_len((rest / 256) as nat, (7 - k - 1) as nat);
        }
        assert(le_bytes(rest as nat, (7 - k) as nat) == seq![(rest % 256) as u8] + le_bytes((rest / 256) as nat, (7 - k - 1) as nat));
        assert((lb.subrange(0, k as int) + le_bytes(rest as nat, (7 - k) as nat))[k as int] == le_bytes(rest as nat, (7 - k) as nat)[0]);
        assert(lb[k as int] == (rest % 256) as u8);
        output.set(offset + k, (rest % 256) as u8);
        assert(lb == lb.subrange(0, k + 1) + le_bytes((rest / 256) as nat, (7 - k - 1) as nat)) by {
            assert(lb.subrange(0, k + 1) =~= lb.subrange(0, k as int).push((rest % 256) as u8));
            assert(lb.subrange(0, k as int) + (seq![(rest % 256) as u8] + le_bytes((rest / 256) as nat, (7 - k - 1) as nat))
                =~= lb.subrange(0, k as int).push((rest % 256) as u8) + le_bytes((rest / 256) as nat, (7 - k - 1) as nat));
        }
        rest = rest / 256;
        k = k + 1;
    }
    assert forall|p: int| 0 <= p < output@.len() implies #[trigger] output@[p] == target[p] by {
        if p < offset {
        } else if p < offset + 7 {
            assert(target[p] == le_bytes(value as nat, 7)[p - offset]);
        } else {
        }
    }
    assert(output@ =~= target);
}

impl Encoder {
    /// Writes an instruction: its byte (id and operand count), then each operand.
    fn encode_opcode(&mut self, instr: Instruction, operands: &Vec<Operand>, range: FileRange) -> (r: Result<(), Error>)
        requires
            old(self).inv(),
        ensures
            final(self).inv(),
            r is Ok ==> spec_token(old(self).state(), TokenValue::Opcode { instruction: instr, operands: *operands }) == Ok::<EncodeState, ErrorKind>(final(self).state()),
            r matches Err(e) ==> spec_token(old(self).state(), TokenValue::Opcode { instruction: instr, operands: *operands }) == Err::<EncodeState, ErrorKind>(e.kind),
    {
        let count = operands.len();
        let value: u8 = instr.value() + 64 * ((count % 4) as u8);
        assert(value == instruction_byte(instr, operands@.len())) by {
            crate::opcodes::lemma_value_round_trip(instr);
        }
        self.write_byte(value);
        let ghost start: int = old(self).output@.len() + 1int;
        let ghost out1 = self.output@;
        let ghost fx0 = self.fixups();
        let mut k: usize = 0;
        assert(operands@.subrange(0, 0) =~= Seq::<Operand>::empty());
        while k < operands.len()
            invariant
                self.inv(),
                k <= operands@.len(),
                start == old(self).output@.len() + 1,
                out1 == old(self).output@.push(value),
                fx0 == old(self).fixups(),
                self.labels() == old(self).labels(),
                operands_bytes(operands@.subrange(0, k as int), start) matches Ok((b, fx))
                    && self.output@ == out1 + b && self.fixups() == fx0 + fx,
            decreases operands@.len() - k,
        {
            let ghost (b, fx) = operands_bytes(operands@.subrange(0, k as int), start).unwrap();
            let ghost before = *self;
            assert(operands@.subrange(0, k + 1).drop_last() =~= operands@.subrange(0, k as int));
            assert(operands@.subrange(0, k + 1).last() == operands@[k as int]);
            match self.encode_operand(&operands[k], range) {
                Ok(()) => {},
                Err(e) => {
                    proof { lemma_operands_fail(operands@, start, k + 1, operands@.len() as int); }
                    assert(operands@.subrange(0, operands@.len() as int) =~= operands@);
                    return Err(e);
                },
            }
            proof {
                let ob = operand_bytes(operands@[k as int]).unwrap();
                assert(self.output@ =~= out1 + (b + ob));
                assert(before.output@.len() + 1 == start + b.len() + 1);
                match operands@[k as int] {
                    Operand::Label(name) => { assert(self.fixups() =~= fx0 + fx.push((start + b.len() + 1int, name@))); },
                    _ => {},
                }
            }
            k = k + 1;
        }
        assert(operands@.subrange(0, operands@.len() as int) =~= operands@);
        proof {
            let (b, fx) = operands_bytes(operands@, start).unwrap();
            assert(old(self).output@ + seq![value] + b =~= out1 + b);
        }
        Ok(())
    }

    /// Handles one token.
    fn encode_single(&mut self, token: &Token) -> (r: Result<(), Error>)
        requires
            old(self).inv(),
        ensures
            final(self).inv(),
            r is Ok ==> spec_token(old(self).state(), token.value) == Ok::<EncodeState, ErrorKind>(final(self).state()),
            r matches Err(e) ==> spec_token(old(self).state(), token.value) == Err::<EncodeState, ErrorKind>(e.kind),
    {
        match &token.value {
            TokenValue::Label(s) => self.remember_label(s, token.range),
            TokenValue::Define { label, value } => self.set_label_value_without_override(label, *value as u64, token.range),
            TokenValue::String { length_label, value } => self.encode_string(length_label, value, token.range),
            TokenValue::Align(n) => self.align_output(*n, token.range),
            TokenValue::Opcode { instruction, operands } => self.encode_opcode(*instruction, operands, token.range),
        }
    }

    /// Writes the value of each name where it was used.
    fn fixup(&mut self) -> (r: Result<(), Error>)
        requires
            old(self).inv(),
        ensures
            r matches Ok(()) ==> apply_fixups(old(self).output@, old(self).labels(), old(self).fixups()) == Ok::<Seq<u8>, ErrorKind>(final(self).output@),
            r matches Err(e) ==> apply_fixups(old(self).output@, old(self).labels(), old(self).fixups()) == Err::<Seq<u8>, ErrorKind>(e.kind)
                && e.kind == ErrorKind::UnresolvedLabel,
    {
        let ghost out0 = self.output@;
        let ghost labels = self.labels();
        let ghost fxs = self.fixups();
        let mut k: usize = 0;
        assert(fxs.subrange(0, 0) =~= Seq::<(int, Seq<char>)>::empty());
        while k < self.fixup_offsets.len()
            invariant
                self.inv(),
                k <= fxs.len(),
                self.labels() == labels,
                self.fixups() == fxs,
                labels == old(self).labels(),
                fxs == old(self).fixups(),
                out0 == old(self).output@,
                apply_fixups(out0, labels, fxs.subrange(0, k as int)) == Ok::<Seq<u8>, ErrorKind>(self.output@),
            decreases fxs.len() - k,
        {
            assert(fxs.subrange(0, k + 1).drop_last() =~= fxs.subrange(0, k as int));
            assert(fxs.subrange(0, k + 1).last() == fxs[k as int]);
            let offset = self.fixup_offsets[k];
            let index = match self.find_label(&self.fixup_names[k]) {
                Some(i) => i,
                None => {
                    proof { lemma_fixups_fail(out0, labels, fxs, k + 1, fxs.len() as int); }
                    assert(fxs.subrange(0, fxs.len() as int) =~= fxs);
                    return Err(Error::from_message(ErrorKind::UnresolvedLabel, "Label not found"));
                },
            };
            proof {
                let name = fxs[k as int].1;
                assert(labels[index as int].0 == name);
                let c = choose|i: int| 0 <= i < labels.len() && labels[i].0 == name;
                assert(c == index);
            }
            if offset > self.output.len() || self.output.len() - offset < 7 {
                proof { lemma_fixups_fail(out0, labels, fxs, k + 1, fxs.len() as int); }
                assert(fxs.subrange(0, fxs.len() as int) =~= fxs);
                return Err(Error::from_message(ErrorKind::UnresolvedLabel, "Label position out of range"));
            }
            let value = self.label_values[index];
            write_le7(&mut self.output, offset, value);
            k = k + 1;
        }
        assert(fxs.subrange(0, fxs.len() as int) =~= fxs);
        Ok(())
    }
}

/// Assembles tokens into the binary instruction format: each token in order, then each
/// use of a name filled in with its value.
pub fn encode(tokens: &[Token]) -> (r: Result<Vec<u8>, Error>)
    ensures
        r matches Ok(out) ==> spec_encode(tokens@) == Ok::<Seq<u8>, ErrorKind>(out@),
        r matches Err(e) ==> spec_encode(tokens@) == Err::<Seq<u8>, ErrorKind>(e.kind),
{
    let mut encoder = Encoder::new();
    let mut i: usize = 0;
    assert(tokens@.subrange(0, 0) =~= Seq::<Token>::empty());
    while i < tokens.len()
        invariant
            encoder.inv(),
            i <= tokens@.len(),
            spec_tokens(tokens@.subrange(0, i as int)) == Ok::<EncodeState, ErrorKind>(encoder.state()),
        decreases tokens@.len() - i,
    {
        assert(tokens@.subrange(0, i + 1).drop_last() =~= tokens@.subrange(0, i as int));
        assert(tokens@.subrange(0, i + 1).last() == tokens@[i as int]);
        match encoder.encode_single(&tokens[i]) {
            Ok(()) => {},
            Err(e) => {
                proof { lemma_tokens_fail(tokens@, i + 1, tokens@.len() as int); }
                assert(tokens@.subrange(0, tokens@.len() as int) =~= tokens@);
                return Err(e);
            },
        }
        i = i + 1;
    }
    assert(tokens@.subrange(0, tokens@.len() as int) =~= tokens@);
    encoder.fixup()?;
    Ok(encoder.output)
}


/// The operands of the binary format that source operands naming no label stand for.
pub open spec fn core_operands(ops: Seq<Operand>) -> Seq<CoreOperand> {
    ops.map_values(|o: Operand| core_operand(o))
}

/// Encoding one more operand appends its bytes.
proof fn lemma_encode_operands_push(s: Seq<CoreOperand>, x: CoreOperand)
    ensures
        spec_encode_operands(s.push(x)) == spec_encode_operands(s) + spec_encode_operand(x),
    decreases s.len(),
{
    if s.len() == 0 {
        assert(s.push(x).drop_first() =~= Seq::<CoreOperand>::empty());
        assert(spec_encode_operands(Seq::<CoreOperand>::empty()) == Seq::<u8>::empty());
        assert(spec_encode_operand(x) + Seq::<u8>::empty() =~= spec_encode_operand(x));
        assert(Seq::<u8>::empty() + spec_encode_operand(x) =~= spec_encode_operand(x));
    } else {
        lemma_encode_operands_push(s.drop_first(), x);
        assert(s.push(x).drop_first() =~= s.drop_first().push(x));
        assert(s.push(x)[0] == s[0]);
        assert(spec_encode_operand(s[0]) + (spec_encode_operands(s.drop_first()) + spec_encode_operand(x))
            =~= (spec_encode_operand(s[0]) + spec_encode_operands(s.drop_first())) + spec_encode_operand(x));
    }
}

/// Operands that name no label and fit in seven bytes assemble to their shortest
/// encodings, with no fixups.
proof fn lemma_operands_without_labels(ops: Seq<Operand>, start: int)
    requires
        forall|k: int| 0 <= k < ops.len() ==> !(#[trigger] ops[k] is Label) && operand_encodable(core_operand(ops[k])),
    ensures
        operands_bytes(ops, start) == Ok::<(Seq<u8>, Seq<(int, Seq<char>)>), ErrorKind>((spec_encode_operands(core_operands(ops)), Seq::<(int, Seq<char>)>::empty())),
    decreases ops.len(),
{
    if ops.len() == 0 {
        assert(core_operands(ops) =~= Seq::<CoreOperand>::empty());
    } else {
        let init = ops.drop_last();
        assert forall|k: int| 0 <= k < init.len() implies !(#[trigger] init[k] is Label) && operand_encodable(core_operand(init[k])) by {
            assert(init[k] == ops[k]);
        }
        lemma_operands_without_labels(init, start);
        assert(core_operands(ops) =~= core_operands(init).push(core_operand(ops.last())));
        lemma_encode_operands_push(core_operands(init), core_operand(ops.last()));
        assert(!(ops.last() is Label));
        assert(operand_encodable(core_operand(ops[ops.len() - 1])));
    }
}

/// An instruction assembled from operands that name no label decodes back to the same
/// instruction with the same operand values, whatever follows it in the binary.
pub proof fn lemma_assembled_instruction_decodes(st: EncodeState, instr: Instruction, operands: Vec<Operand>, rest: Seq<u8>)
    requires
        forall|k: int| 0 <= k < operands@.len() ==> !(#[trigger] operands@[k] is Label) && operand_encodable(core_operand(operands@[k])),
        operands_fit(core_operands(operands@), instr.spec_operand_modes()),
    ensures
        ({
            let enc = spec_encode_opcode(instr, core_operands(operands@));
            &&& spec_token(st, TokenValue::Opcode { instruction: instr, operands }) == Ok::<EncodeState, ErrorKind>((st.0 + enc, st.1, st.2))
            &&& spec_decode_opcode(enc + rest) == Some((instr, core_operands(operands@), enc.len() as int))
        }),
{
    let ops = operands@;
    let core = core_operands(ops);
    lemma_operands_without_labels(ops, st.0.len() + 1int);
    let enc = spec_encode_opcode(instr, core);
    assert(st.0 + seq![instruction_byte(instr, ops.len())] + spec_encode_operands(core) =~= st.0 + enc);
    assert(st.2 + Seq::<(int, Seq<char>)>::empty() =~= st.2);
    assert forall|k: int| 0 <= k < core.len() implies operand_encodable(#[trigger] core[k]) by {
        assert(core[k] == core_operand(ops[k]));
    }
    lemma_opcode_round_trip(instr, core, rest);
}

} // verus!
