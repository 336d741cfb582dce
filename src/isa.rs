//! The instruction format shared by the assembler and the emulator.
//!
//! An instruction is four 16-bit words: a header and three operands.
//! The header holds three flag bits (13..15) over a 13-bit opcode (0..12);
//! each operand holds a 4-bit offset nibble (12..15) over a 12-bit base (0..11).
use vstd::prelude::*;

verus! {

pub const NUM_REGS: usize = 12;

pub const MEM_SIZE: usize = 65536;

pub const REG_A: u16 = 0;

pub const REG_B: u16 = 1;

pub const REG_C: u16 = 2;

pub const REG_D: u16 = 3;

pub const REG_IP: u16 = 4;

pub const REG_SS: u16 = 5;

pub const REG_SO: u16 = 6;

pub const REG_MS: u16 = 7;

pub const REG_MO: u16 = 8;

pub const REG_I: u16 = 9;

pub const REG_O: u16 = 10;

pub const REG_ST: u16 = 11;

/// The flag field of a header word.
pub open spec fn flags_of(header: u16) -> u16 {
    (header >> 13u16) & 7u16
}

/// The opcode field of a header word.
pub open spec fn opcode_of(header: u16) -> u16 {
    header & 0x1FFFu16
}

/// The 12-bit base of an operand word: a register index or a literal.
pub open spec fn base_of(word: u16) -> u16 {
    word & 0x0FFFu16
}

/// The 4-bit offset nibble of an operand word.
pub open spec fn nibble_of(word: u16) -> u16 {
    (word >> 12u16) & 0xFu16
}

/// Whether operand `k` (0 for A, 1 for B, 2 for C) is marked immediate.
pub open spec fn is_immediate(flags: u16, k: u16) -> bool {
    (flags >> k) & 1u16 == 1u16
}

/// The header word for `opcode` with the given flag bits.
pub open spec fn header_word(flags: u16, opcode: u16) -> u16 {
    ((flags << 13u16) | opcode) as u16
}

/// The operand word holding `base` in its low 12 bits and `nibble` above.
pub open spec fn operand_word(base: u16, nibble: u16) -> u16 {
    ((nibble << 12u16) | base) as u16
}

/// Packing a header and reading it back gives the same fields.
pub proof fn lemma_header_fields(flags: u16, opcode: u16)
    requires
        flags < 8,
        opcode < 0x2000,
    ensures
        flags_of(header_word(flags, opcode)) == flags,
        opcode_of(header_word(flags, opcode)) == opcode,
{
    assert(((((flags << 13u16) | opcode) >> 13u16) & 7u16) == flags) by (bit_vector)
        requires
            flags < 8,
            opcode < 0x2000,
    ;
    assert((((flags << 13u16) | opcode) & 0x1FFFu16) == opcode) by (bit_vector)
        requires
            flags < 8,
            opcode < 0x2000,
    ;
}

/// Packing an operand word and reading it back gives the same fields.
pub proof fn lemma_operand_fields(base: u16, nibble: u16)
    requires
        base < 0x1000,
        nibble < 16,
    ensures
        base_of(operand_word(base, nibble)) == base,
        nibble_of(operand_word(base, nibble)) == nibble,
{
    assert((((nibble << 12u16) | base) & 0x0FFFu16) == base) by (bit_vector)
        requires
            base < 0x1000,
            nibble < 16,
    ;
    assert(((((nibble << 12u16) | base) >> 12u16) & 0xFu16) == nibble) by (bit_vector)
        requires
            base < 0x1000,
            nibble < 16,
    ;
}

/// The operations of the machine, numbered 0 to 21 in this order.
#[derive(Clone, Copy, PartialEq, Eq, Debug, Structural)]
pub enum Opcode {
    Mov,
    Add,
    Sub,
    Mul,
    And,
    Or,
    Xor,
    Not,
    Jmp,
    Jml,
    Jmle,
    Jmb,
    Jmbe,
    Jme,
    Jmne,
    Save,
    Load,
    Push,
    Pop,
    Halt,
    Shl,
    Shr,
}

/// The operation that an opcode value selects; values past 21 halt.
pub open spec fn decode_opcode(op: u16) -> Opcode {
    if op == 0 {
        Opcode::Mov
    } else if op == 1 {
        Opcode::Add
    } else if op == 2 {
        Opcode::Sub
    } else if op == 3 {
        Opcode::Mul
    } else if op == 4 {
        Opcode::And
    } else if op == 5 {
        Opcode::Or
    } else if op == 6 {
        Opcode::Xor
    } else if op == 7 {
        Opcode::Not
    } else if op == 8 {
        Opcode::Jmp
    } else if op == 9 {
        Opcode::Jml
    } else if op == 10 {
        Opcode::Jmle
    } else if op == 11 {
        Opcode::Jmb
    } else if op == 12 {
        Opcode::Jmbe
    } else if op == 13 {
        Opcode::Jme
    } else if op == 14 {
        Opcode::Jmne
    } else if op == 15 {
        Opcode::Save
    } else if op == 16 {
        Opcode::Load
    } else if op == 17 {
        Opcode::Push
    } else if op == 18 {
        Opcode::Pop
    } else if op == 20 {
        Opcode::Shl
    } else if op == 21 {
        Opcode::Shr
    } else {
        Opcode::Halt
    }
}

impl Opcode {
    /// The number that encodes this operation.
    pub open spec fn number(self) -> u16 {
        match self {
            Opcode::Mov => 0,
            Opcode::Add => 1,
            Opcode::Sub => 2,
            Opcode::Mul => 3,
            Opcode::And => 4,
            Opcode::Or => 5,
            Opcode::Xor => 6,
            Opcode::Not => 7,
            Opcode::Jmp => 8,
            Opcode::Jml => 9,
            Opcode::Jmle => 10,
            Opcode::Jmb => 11,
            Opcode::Jmbe => 12,
            Opcode::Jme => 13,
            Opcode::Jmne => 14,
            Opcode::Save => 15,
            Opcode::Load => 16,
            Opcode::Push => 17,
            Opcode::Pop => 18,
            Opcode::Halt => 19,
            Opcode::Shl => 20,
            Opcode::Shr => 21,
        }
    }
}

impl Opcode {
    /// The number that encodes this operation.
    pub fn to_u16(self) -> (r: u16)
        ensures
            r == self.number(),
    {
        match self {
            Opcode::Mov => 0,
            Opcode::Add => 1,
            Opcode::Sub => 2,
            Opcode::Mul => 3,
            Opcode::And => 4,
            Opcode::Or => 5,
            Opcode::Xor => 6,
            Opcode::Not => 7,
            Opcode::Jmp => 8,
            Opcode::Jml => 9,
            Opcode::Jmle => 10,
            Opcode::Jmb => 11,
            Opcode::Jmbe => 12,
            Opcode::Jme => 13,
            Opcode::Jmne => 14,
            Opcode::Save => 15,
            Opcode::Load => 16,
            Opcode::Push => 17,
            Opcode::Pop => 18,
            Opcode::Halt => 19,
            Opcode::Shl => 20,
            Opcode::Shr => 21,
        }
    }
}

impl From<u16> for Opcode {
    fn from(op: u16) -> (r: Opcode)
        ensures
            r == decode_opcode(op),
    {
        match op {
            0 => Opcode::Mov,
            1 => Opcode::Add,
            2 => Opcode::Sub,
            3 => Opcode::Mul,
            4 => Opcode::And,
            5 => Opcode::Or,
            6 => Opcode::Xor,
            7 => Opcode::Not,
            8 => Opcode::Jmp,
            9 => Opcode::Jml,
            10 => Opcode::Jmle,
            11 => Opcode::Jmb,
            12 => Opcode::Jmbe,
            13 => Opcode::Jme,
            14 => Opcode::Jmne,
            15 => Opcode::Save,
            16 => Opcode::Load,
            17 => Opcode::Push,
            18 => Opcode::Pop,
            19 => Opcode::Halt,
            20 => Opcode::Shl,
            21 => Opcode::Shr,
            _ => Opcode::Halt,
        }
    }
}

impl vstd::std_specs::convert::FromSpecImpl<u16> for Opcode {
    open spec fn obeys_from_spec() -> bool {
        true
    }

    open spec fn from_spec(op: u16) -> Opcode {
        decode_opcode(op)
    }
}

/// Every operation survives encoding and decoding.
pub proof fn lemma_opcode_round_trip(op: Opcode)
    ensures
        decode_opcode(op.number()) == op,
        op.number() < 22,
{
}

/// The byte form of a program: each word little-endian, low byte first.
pub open spec fn program_bytes(words: Seq<u16>) -> Seq<u8> {
    Seq::new(
        2 * words.len(),
        |i: int|
            if i % 2 == 0 {
                (words[i / 2] % 256) as u8
            } else {
                (words[i / 2] / 256) as u8
            },
    )
}

/// The words of a program's byte form; a trailing odd byte is ignored.
pub open spec fn program_words(bytes: Seq<u8>) -> Seq<u16> {
    Seq::new(bytes.len() / 2, |i: int| (bytes[2 * i] + 256 * bytes[2 * i + 1]) as u16)
}

/// Packs `words` into bytes, each word little-endian.
pub fn program_to_bytes(words: &[u16]) -> (r: Vec<u8>)
    requires
        2 * words@.len() <= usize::MAX,
    ensures
        r@ == program_bytes(words@),
{
    let mut out: Vec<u8> = Vec::new();
    let mut i: usize = 0;
    while i < words.len()
        invariant
            i <= words@.len(),
            2 * words@.len() <= usize::MAX,
            out@.len() == 2 * i,
            forall|j: int| 0 <= j < 2 * i ==> #[trigger] out@[j] == program_bytes(words@)[j],
        decreases words.len() - i,
    {
        let w = words[i];
        assert(w & 0xFFu16 == w % 256) by (bit_vector);
        assert(w >> 8u16 == w / 256) by (bit_vector);
        out.push((w & 0xFF) as u8);
        out.push((w >> 8) as u8);
        assert((2 * i) / 2 == i && (2 * i) % 2 == 0 && (2 * i + 1) / 2 == i && (2 * i + 1) % 2
            == 1);
        i = i + 1;
    }
    assert(out@ =~= program_bytes(words@));
    out
}

/// Unpacks little-endian byte pairs into words; a trailing odd byte is ignored.
pub fn program_from_bytes(bytes: &[u8]) -> (r: Vec<u16>)
    ensures
        r@ == program_words(bytes@),
{
    let mut out: Vec<u16> = Vec::new();
    let mut i: usize = 0;
    while i < bytes.len() / 2
        invariant
            i <= bytes@.len() / 2,
            out@.len() == i,
            forall|j: int| 0 <= j < i ==> #[trigger] out@[j] == program_words(bytes@)[j],
        decreases bytes.len() / 2 - i,
    {
        let lo = bytes[2 * i] as u16;
        let hi = bytes[2 * i + 1] as u16;
        assert((hi << 8u16) | lo == lo + 256 * hi) by (bit_vector)
            requires
                lo < 256,
                hi < 256,
        ;
        out.push((hi << 8) | lo);
        i = i + 1;
    }
    assert(out@ =~= program_words(bytes@));
    out
}

/// Unpacking the byte form of a program gives the program back.
pub proof fn lemma_program_bytes_round_trip(words: Seq<u16>)
    ensures
        program_words(program_bytes(words)) == words,
{
    let b = program_bytes(words);
    assert forall|i: int| 0 <= i < words.len() implies #[trigger] program_words(b)[i] == words[i] by {
        assert((2 * i) / 2 == i && (2 * i) % 2 == 0 && (2 * i + 1) / 2 == i && (2 * i + 1) % 2
            == 1);
    }
    assert(program_words(b) =~= words);
}

} // verus!
