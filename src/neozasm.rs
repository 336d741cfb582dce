//! The assembler: line-oriented source text to the packed word stream.
//!
//! The first pass collects constants (`const NAME: EXPR`), labels (`NAME:`,
//! optionally written `label NAME:`) and instruction lines. The second pass
//! encodes each instruction line as four words, and a final `halt` is appended.
use vstd::prelude::*;
use vstd::string::StringSliceAdditionalSpecFns;

use crate::emulator::{operand_value, wrap16};
use crate::isa::{
    base_of, decode_opcode, flags_of, header_word, is_immediate, lemma_header_fields,
    lemma_opcode_round_trip, lemma_operand_fields, nibble_of, opcode_of, operand_word, Opcode,
};
use crate::text::{
    find_byte, find_space, first_index, first_space, is_space, lemma_first_index_bound, parse_u16,
    parse_u16_range, pieces, range_equals, remove_spaces, split_on, split_ranges, trim, trim_end,
    trim_range, trim_start, without_spaces,
};

verus! {

/// What went wrong in an assembly.
#[derive(Clone, Copy, PartialEq, Eq, Debug, Structural)]
pub enum AsmErrorKind {
    /// The first word of an instruction line is no mnemonic.
    UnknownInstruction,
    /// An instruction has the wrong number of operands.
    ArityMismatch,
    /// A name is neither a number, a register, a constant nor a label.
    UnknownSymbol,
    /// An operand or expression is not well formed.
    InvalidOperandSyntax,
    /// A register offset or an immediate value does not fit its operand field.
    OffsetOutOfRange,
}

/// The description of an error kind.
pub open spec fn kind_message(kind: AsmErrorKind) -> Seq<char> {
    match kind {
        AsmErrorKind::UnknownInstruction => "unknown instruction"@,
        AsmErrorKind::ArityMismatch => "wrong number of operands"@,
        AsmErrorKind::UnknownSymbol => "unknown symbol"@,
        AsmErrorKind::InvalidOperandSyntax => "invalid operand"@,
        AsmErrorKind::OffsetOutOfRange => "offset or value out of range"@,
    }
}

impl AsmErrorKind {
    /// A short description of this kind of error.
    pub fn message(&self) -> (r: &'static str)
        ensures
            r@ == kind_message(*self),
    {
        match self {
            AsmErrorKind::UnknownInstruction => "unknown instruction",
            AsmErrorKind::ArityMismatch => "wrong number of operands",
            AsmErrorKind::UnknownSymbol => "unknown symbol",
            AsmErrorKind::InvalidOperandSyntax => "invalid operand",
            AsmErrorKind::OffsetOutOfRange => "offset or value out of range",
        }
    }
}

/// An assembly error and the 1-based source line it arose on.
#[derive(Clone, Copy, PartialEq, Eq, Debug, Structural)]
pub struct AsmError {
    pub line: usize,
    pub kind: AsmErrorKind,
}

/// A named value: a constant or a label.
pub struct Symbol {
    pub name: Vec<u8>,
    pub value: u16,
}

/// The names and values of `v`, in order.
pub open spec fn symbol_pairs(v: Seq<Symbol>) -> Seq<(Seq<u8>, u16)> {
    Seq::new(v.len(), |i: int| (v[i].name@, v[i].value))
}

/// The value of `name` in `syms`; a later entry hides an earlier one.
pub open spec fn lookup(syms: Seq<(Seq<u8>, u16)>, name: Seq<u8>) -> Option<u16>
    decreases syms.len(),
{
    if syms.len() == 0 {
        None
    } else if syms.last().0 == name {
        Some(syms.last().1)
    } else {
        lookup(syms.drop_last(), name)
    }
}

/// The register that `t` names, by index: `A`, `B`, `C`, `D`, `IP`, `SS`,
/// `SO`, `MS`, `MO`, `I`, `O`, `ST`.
pub open spec fn register_number(t: Seq<u8>) -> Option<u16> {
    if t.len() == 1 {
        let x = t[0];
        if x == 65 {
            Some(0)
        } else if x == 66 {
            Some(1)
        } else if x == 67 {
            Some(2)
        } else if x == 68 {
            Some(3)
        } else if x == 73 {
            Some(9)
        } else if x == 79 {
            Some(10)
        } else {
            None
        }
    } else if t.len() == 2 {
        let (x, y) = (t[0], t[1]);
        if x == 73 && y == 80 {
            Some(4)
        } else if x == 83 && y == 83 {
            Some(5)
        } else if x == 83 && y == 79 {
            Some(6)
        } else if x == 77 && y == 83 {
            Some(7)
        } else if x == 77 && y == 79 {
            Some(8)
        } else if x == 83 && y == 84 {
            Some(11)
        } else {
            None
        }
    } else {
        None
    }
}

/// A letter, a digit or an underscore.
pub open spec fn is_name_byte(b: u8) -> bool {
    (48 <= b && b <= 57) || (65 <= b && b <= 90) || (97 <= b && b <= 122) || b == 95
}

/// A name: name bytes, not starting with a digit.
pub open spec fn is_name(t: Seq<u8>) -> bool {
    t.len() > 0 && !(48 <= t[0] && t[0] <= 57) && forall|i: int|
        0 <= i < t.len() ==> is_name_byte(#[trigger] t[i])
}

/// The error for text that resolves to nothing: an unknown symbol when it
/// has the shape of a name, else a syntax error.
pub open spec fn unresolved(t: Seq<u8>) -> AsmErrorKind {
    if is_name(t) {
        AsmErrorKind::UnknownSymbol
    } else {
        AsmErrorKind::InvalidOperandSyntax
    }
}

proof fn lemma_trim_len(t: Seq<u8>)
    ensures
        trim(t).len() <= t.len(),
    decreases t.len(),
{
    lemma_trim_start_len(t);
    lemma_trim_end_len(trim_start(t));
}

proof fn lemma_trim_start_len(t: Seq<u8>)
    ensures
        trim_start(t).len() <= t.len(),
    decreases t.len(),
{
    if t.len() > 0 && is_space(t[0]) {
        lemma_trim_start_len(t.skip(1));
    }
}

proof fn lemma_trim_end_len(t: Seq<u8>)
    ensures
        trim_end(t).len() <= t.len(),
    decreases t.len(),
{
    if t.len() > 0 && is_space(t.last()) {
        lemma_trim_end_len(t.drop_last());
    }
}

/// The value of an expression: after trimming, a decimal number, a symbol, `L+R`
/// split at the first `+`, `L-R` split at the first `-`, or a register name
/// (its index). Sums and differences wrap to 16 bits.
pub open spec fn eval(text: Seq<u8>, syms: Seq<(Seq<u8>, u16)>) -> Result<u16, AsmErrorKind>
    decreases text.len(),
    via eval_decreases
{
    let t = trim(text);
    if parse_u16(t) is Some {
        Ok(parse_u16(t)->0)
    } else if lookup(syms, t) is Some {
        Ok(lookup(syms, t)->0)
    } else if first_index(t, 43) is Some {
        let i = first_index(t, 43)->0;
        match eval(t.take(i), syms) {
            Err(e) => Err(e),
            Ok(l) => match eval(t.skip(i + 1), syms) {
                Err(e) => Err(e),
                Ok(r) => Ok(((l + r) % 0x10000) as u16),
            },
        }
    } else if first_index(t, 45) is Some {
        let i = first_index(t, 45)->0;
        match eval(t.take(i), syms) {
            Err(e) => Err(e),
            Ok(l) => match eval(t.skip(i + 1), syms) {
                Err(e) => Err(e),
                Ok(r) => Ok(((l - r) % 0x10000) as u16),
            },
        }
    } else if register_number(t) is Some {
        Ok(register_number(t)->0)
    } else {
        Err(unresolved(t))
    }
}

#[via_fn]
proof fn eval_decreases(text: Seq<u8>, syms: Seq<(Seq<u8>, u16)>) {
    lemma_trim_len(text);
    lemma_first_index_bound(trim(text), 43);
    lemma_first_index_bound(trim(text), 45);
}

/// An immediate operand holding `v`: it must fit the 12-bit base field.
pub open spec fn immediate(v: u16) -> Result<(u16, bool), AsmErrorKind> {
    if v <= 0xFFF {
        Ok((v, true))
    } else {
        Err(AsmErrorKind::OffsetOutOfRange)
    }
}

/// Register `reg` plus the offset that `offset` evaluated to (at most 8).
pub open spec fn register_plus(reg: u16, offset: Result<u16, AsmErrorKind>) -> Result<
    (u16, bool),
    AsmErrorKind,
> {
    match offset {
        Err(e) => Err(e),
        Ok(k) => if k <= 8 {
            Ok((operand_word(reg, k), false))
        } else {
            Err(AsmErrorKind::OffsetOutOfRange)
        },
    }
}

/// Register `reg` minus the offset that `offset` evaluated to (at most 7),
/// stored as `16 - offset` modulo 16.
pub open spec fn register_minus(reg: u16, offset: Result<u16, AsmErrorKind>) -> Result<
    (u16, bool),
    AsmErrorKind,
> {
    match offset {
        Err(e) => Err(e),
        Ok(k) => if k <= 7 {
            Ok((operand_word(reg, ((16 - k) % 16) as u16), false))
        } else {
            Err(AsmErrorKind::OffsetOutOfRange)
        },
    }
}

/// Whether `t` split at its first `c` has a register name on one side.
pub open spec fn register_form(t: Seq<u8>, c: u8) -> bool {
    match first_index(t, c) {
        None => false,
        Some(i) => register_number(trim(t.take(i))) is Some || register_number(
            trim(t.skip(i + 1)),
        ) is Some,
    }
}

/// An operand: its encoded word and whether it is immediate.
///
/// After trimming: a decimal number is immediate; `R+E` or `E+R` with a
/// register `R` is that register with offset `E`; `R-E` or `E-R` likewise with
/// a negative offset; a register name is that register; a symbol, or any other
/// text holding `+` or `-`, is an immediate expression.
pub open spec fn operand(text: Seq<u8>, syms: Seq<(Seq<u8>, u16)>) -> Result<
    (u16, bool),
    AsmErrorKind,
> {
    let t = trim(text);
    if parse_u16(t) is Some {
        immediate(parse_u16(t)->0)
    } else if register_form(t, 43) {
        let i = first_index(t, 43)->0;
        let (l, r) = (trim(t.take(i)), trim(t.skip(i + 1)));
        if register_number(l) is Some {
            register_plus(register_number(l)->0, eval(r, syms))
        } else {
            register_plus(register_number(r)->0, eval(l, syms))
        }
    } else if register_form(t, 45) {
        let i = first_index(t, 45)->0;
        let (l, r) = (trim(t.take(i)), trim(t.skip(i + 1)));
        if register_number(l) is Some {
            register_minus(register_number(l)->0, eval(r, syms))
        } else {
            register_minus(register_number(r)->0, eval(l, syms))
        }
    } else if register_number(t) is Some {
        Ok((register_number(t)->0, false))
    } else if lookup(syms, t) is Some || first_index(t, 43) is Some || first_index(t, 45) is Some {
        match eval(t, syms) {
            Err(e) => Err(e),
            Ok(v) => immediate(v),
        }
    } else {
        Err(unresolved(t))
    }
}

/// The operation that a mnemonic names: `mov`, `add`, `sub`, `mul`, `and`,
/// `or`, `xor`, `not`, `jmp`, `jml`, `jmle`, `jmb`, `jmbe`, `jme`, `jmne`,
/// `save`, `load`, `push`, `pop`, `halt`, `shl`, `shr`.
pub open spec fn mnemonic(t: Seq<u8>) -> Option<Opcode> {
    if t.len() == 2 {
        if t[0] == 111 && t[1] == 114 {
            Some(Opcode::Or)
        } else {
            None
        }
    } else if t.len() == 3 {
        if t[0] == 109 && t[1] == 111 && t[2] == 118 {
            Some(Opcode::Mov)
        } else if t[0] == 97 && t[1] == 100 && t[2] == 100 {
            Some(Opcode::Add)
        } else if t[0] == 115 && t[1] == 117 && t[2] == 98 {
            Some(Opcode::Sub)
        } else if t[0] == 109 && t[1] == 117 && t[2] == 108 {
            Some(Opcode::Mul)
        } else if t[0] == 97 && t[1] == 110 && t[2] == 100 {
            Some(Opcode::And)
        } else if t[0] == 120 && t[1] == 111 && t[2] == 114 {
            Some(Opcode::Xor)
        } else if t[0] == 110 && t[1] == 111 && t[2] == 116 {
            Some(Opcode::Not)
        } else if t[0] == 106 && t[1] == 109 && t[2] == 112 {
            Some(Opcode::Jmp)
        } else if t[0] == 106 && t[1] == 109 && t[2] == 108 {
            Some(Opcode::Jml)
        } else if t[0] == 106 && t[1] == 109 && t[2] == 98 {
            Some(Opcode::Jmb)
        } else if t[0] == 106 && t[1] == 109 && t[2] == 101 {
            Some(Opcode::Jme)
        } else if t[0] == 112 && t[1] == 111 && t[2] == 112 {
            Some(Opcode::Pop)
        } else if t[0] == 115 && t[1] == 104 && t[2] == 108 {
            Some(Opcode::Shl)
        } else if t[0] == 115 && t[1] == 104 && t[2] == 114 {
            Some(Opcode::Shr)
        } else {
            None
        }
    } else if t.len() == 4 {
        if t[0] == 106 && t[1] == 109 && t[2] == 108 && t[3] == 101 {
            Some(Opcode::Jmle)
        } else if t[0] == 106 && t[1] == 109 && t[2] == 98 && t[3] == 101 {
            Some(Opcode::Jmbe)
        } else if t[0] == 106 && t[1] == 109 && t[2] == 110 && t[3] == 101 {
            Some(Opcode::Jmne)
        } else if t[0] == 115 && t[1] == 97 && t[2] == 118 && t[3] == 101 {
            Some(Opcode::Save)
        } else if t[0] == 108 && t[1] == 111 && t[2] == 97 && t[3] == 100 {
            Some(Opcode::Load)
        } else if t[0] == 112 && t[1] == 117 && t[2] == 115 && t[3] == 104 {
            Some(Opcode::Push)
        } else if t[0] == 104 && t[1] == 97 && t[2] == 108 && t[3] == 116 {
            Some(Opcode::Halt)
        } else {
            None
        }
    } else {
        None
    }
}

/// How many operands an operation takes in source text.
pub open spec fn arity(op: Opcode) -> nat {
    match op {
        Opcode::Halt => 0,
        Opcode::Jmp | Opcode::Save | Opcode::Load | Opcode::Push | Opcode::Pop => 1,
        Opcode::Mov | Opcode::Mul | Opcode::Not => 2,
        _ => 3,
    }
}

/// Which source operand fills operand slot `k` (0 for A, 1 for B, 2 for C):
/// the target of `jmp` goes to C, every other operand to the slot of its position.
pub open spec fn slot_source(op: Opcode, k: int) -> Option<int> {
    if op == Opcode::Jmp {
        if k == 2 {
            Some(0)
        } else {
            None
        }
    } else if k < arity(op) {
        Some(k)
    } else {
        None
    }
}

/// The word in operand slot `k`; 0 for an unused slot.
pub open spec fn slot_word(op: Opcode, res: Seq<(u16, bool)>, k: int) -> u16 {
    match slot_source(op, k) {
        Some(j) => res[j].0,
        None => 0,
    }
}

/// The flag bit of operand slot `k`: 1 for an immediate operand.
pub open spec fn slot_flag(op: Opcode, res: Seq<(u16, bool)>, k: int) -> u16 {
    match slot_source(op, k) {
        Some(j) => if res[j].1 {
            1
        } else {
            0
        },
        None => 0,
    }
}

/// The four words of an instruction whose resolved operands are `res`.
pub open spec fn instruction(op: Opcode, res: Seq<(u16, bool)>) -> Seq<u16> {
    seq![
        header_word(
            (slot_flag(op, res, 0) + 2 * slot_flag(op, res, 1) + 4 * slot_flag(op, res, 2)) as u16,
            op.number(),
        ),
        slot_word(op, res, 0),
        slot_word(op, res, 1),
        slot_word(op, res, 2),
    ]
}

/// The resolved operands, in order; the first failure is reported.
pub open spec fn operands(args: Seq<Seq<u8>>, syms: Seq<(Seq<u8>, u16)>) -> Result<
    Seq<(u16, bool)>,
    AsmErrorKind,
>
    decreases args.len(),
{
    if args.len() == 0 {
        Ok(Seq::empty())
    } else {
        match operands(args.drop_last(), syms) {
            Err(e) => Err(e),
            Ok(res) => match operand(args.last(), syms) {
                Err(e) => Err(e),
                Ok(x) => Ok(res.push(x)),
            },
        }
    }
}

/// The pieces of `ps` that are not empty.
pub open spec fn nonempty(ps: Seq<Seq<u8>>) -> Seq<Seq<u8>>
    decreases ps.len(),
{
    if ps.len() == 0 {
        Seq::empty()
    } else if ps.last().len() > 0 {
        nonempty(ps.drop_last()).push(ps.last())
    } else {
        nonempty(ps.drop_last())
    }
}

/// Where the mnemonic of a trimmed instruction line ends.
pub open spec fn mnemonic_end(t: Seq<u8>) -> int {
    match first_space(t) {
        Some(i) => i,
        None => t.len() as int,
    }
}

/// The operand texts of a trimmed instruction line: what follows the mnemonic,
/// with white space removed, split at commas, empty pieces dropped.
pub open spec fn operand_texts(t: Seq<u8>) -> Seq<Seq<u8>> {
    nonempty(split_on(without_spaces(t.skip(mnemonic_end(t))), 44))
}

/// The four words of a trimmed instruction line.
pub open spec fn encode_line(t: Seq<u8>, syms: Seq<(Seq<u8>, u16)>) -> Result<
    Seq<u16>,
    AsmErrorKind,
> {
    match mnemonic(t.take(mnemonic_end(t))) {
        None => Err(AsmErrorKind::UnknownInstruction),
        Some(op) => if operand_texts(t).len() != arity(op) {
            Err(AsmErrorKind::ArityMismatch)
        } else {
            match operands(operand_texts(t), syms) {
                Err(e) => Err(e),
                Ok(res) => Ok(instruction(op, res)),
            }
        },
    }
}

/// What the first pass has collected: constants, labels, and the trimmed
/// instruction lines with their line numbers.
pub ghost struct Scan {
    pub consts: Seq<(Seq<u8>, u16)>,
    pub labels: Seq<(Seq<u8>, u16)>,
    pub code: Seq<(usize, Seq<u8>)>,
}

/// The bytes of `const ` .
pub open spec fn const_keyword() -> Seq<u8> {
    seq![99u8, 111u8, 110u8, 115u8, 116u8, 32u8]
}

/// The bytes of `label ` .
pub open spec fn label_keyword() -> Seq<u8> {
    seq![108u8, 97u8, 98u8, 101u8, 108u8, 32u8]
}

/// A line without its comment, which starts at the first `;`.
pub open spec fn strip_comment(line: Seq<u8>) -> Seq<u8> {
    match first_index(line, 59) {
        Some(i) => line.take(i),
        None => line,
    }
}

/// `t` without its trailing colons.
pub open spec fn trim_colons(t: Seq<u8>) -> Seq<u8>
    decreases t.len(),
{
    if t.len() > 0 && t.last() == 58 {
        trim_colons(t.drop_last())
    } else {
        t
    }
}

/// The name that a label line declares: the line without its trailing colons,
/// trimmed, and without a leading `label ` .
pub open spec fn label_name(t: Seq<u8>) -> Seq<u8> {
    let u = trim(trim_colons(t));
    if u.len() >= 6 && u.take(6) == label_keyword() {
        u.skip(6)
    } else {
        u
    }
}

/// Whether a trimmed line declares a constant: `const ` then a `:` somewhere.
pub open spec fn is_const_line(t: Seq<u8>) -> bool {
    t.len() >= 6 && t.take(6) == const_keyword() && first_index(t.skip(6), 58) is Some
}

/// The first pass on line `number`, whose text is `raw`.
pub open spec fn scan_line(st: Scan, raw: Seq<u8>, number: usize) -> Result<Scan, AsmError> {
    let t = trim(strip_comment(raw));
    if t.len() == 0 {
        Ok(st)
    } else if is_const_line(t) {
        let rest = t.skip(6);
        let k = first_index(rest, 58)->0;
        match eval(rest.skip(k + 1), st.consts) {
            Err(kind) => Err(AsmError { line: number, kind }),
            Ok(v) => Ok(Scan { consts: st.consts.push((trim(rest.take(k)), v)), ..st }),
        }
    } else if t.last() == 58 {
        Ok(
            Scan {
                labels: st.labels.push((label_name(t), (st.code.len() % 0x10000) as u16)),
                ..st
            },
        )
    } else {
        Ok(Scan { code: st.code.push((number, t)), ..st })
    }
}

/// The first pass over `lines`, numbered from 1.
pub open spec fn scan(lines: Seq<Seq<u8>>) -> Result<Scan, AsmError>
    decreases lines.len(),
{
    if lines.len() == 0 {
        Ok(Scan { consts: Seq::empty(), labels: Seq::empty(), code: Seq::empty() })
    } else {
        match scan(lines.drop_last()) {
            Err(e) => Err(e),
            Ok(st) => scan_line(st, lines.last(), lines.len() as usize),
        }
    }
}

/// The second pass: the words of every instruction line, in order.
pub open spec fn encode_all(code: Seq<(usize, Seq<u8>)>, syms: Seq<(Seq<u8>, u16)>) -> Result<
    Seq<u16>,
    AsmError,
>
    decreases code.len(),
{
    if code.len() == 0 {
        Ok(Seq::empty())
    } else {
        match encode_all(code.drop_last(), syms) {
            Err(e) => Err(e),
            Ok(w) => match encode_line(code.last().1, syms) {
                Err(kind) => Err(AsmError { line: code.last().0, kind }),
                Ok(x) => Ok(w + x),
            },
        }
    }
}

/// The closing instruction: `halt` with zero operands.
pub open spec fn halt_instruction() -> Seq<u16> {
    seq![header_word(0, Opcode::Halt.number()), 0u16, 0u16, 0u16]
}

/// The program that `src` assembles to: the first pass over its lines, then
/// every instruction line encoded against the labels and constants (a
/// constant hides a label of the same name), then a closing `halt`.
pub open spec fn assembly(src: Seq<u8>) -> Result<Seq<u16>, AsmError> {
    match scan(split_on(src, 10)) {
        Err(e) => Err(e),
        Ok(st) => match encode_all(st.code, st.labels + st.consts) {
            Err(e) => Err(e),
            Ok(w) => Ok(w + halt_instruction()),
        },
    }
}

/// The register that `s[lo..hi]` names.
pub fn reg_index(s: &[u8], lo: usize, hi: usize) -> (r: Option<u16>)
    requires
        lo <= hi <= s@.len(),
    ensures
        r == register_number(s@.subrange(lo as int, hi as int)),
{
    if hi - lo == 1 {
        let x = s[lo];
        if x == 65 {
            Some(0)
        } else if x == 66 {
            Some(1)
        } else if x == 67 {
            Some(2)
        } else if x == 68 {
            Some(3)
        } else if x == 73 {
            Some(9)
        } else if x == 79 {
            Some(10)
        } else {
            None
        }
    } else if hi - lo == 2 {
        let x = s[lo];
        let y = s[lo + 1];
        if x == 73 && y == 80 {
            Some(4)
        } else if x == 83 && y == 83 {
            Some(5)
        } else if x == 83 && y == 79 {
            Some(6)
        } else if x == 77 && y == 83 {
            Some(7)
        } else if x == 77 && y == 79 {
            Some(8)
        } else if x == 83 && y == 84 {
            Some(11)
        } else {
            None
        }
    } else {
        None
    }
}

fn is_name_range(s: &[u8], lo: usize, hi: usize) -> (r: bool)
    requires
        lo <= hi <= s@.len(),
    ensures
        r == is_name(s@.subrange(lo as int, hi as int)),
{
    let ghost t = s@.subrange(lo as int, hi as int);
    if lo == hi || (48 <= s[lo] && s[lo] <= 57) {
        return false;
    }
    let mut i = lo;
    while i < hi
        invariant
            lo <= i <= hi <= s@.len(),
            t == s@.subrange(lo as int, hi as int),
            forall|j: int| 0 <= j < i - lo ==> is_name_byte(#[trigger] t[j]),
        decreases hi - i,
    {
        let b = s[i];
        if !((48 <= b && b <= 57) || (65 <= b && b <= 90) || (97 <= b && b <= 122) || b == 95) {
            assert(!is_name_byte(t[i - lo]));
            return false;
        }
        i = i + 1;
    }
    true
}

/// The value of `s[lo..hi]` in `symbols`; the last entry of a name counts.
fn lookup_symbol(symbols: &Vec<Symbol>, s: &[u8], lo: usize, hi: usize) -> (r: Option<u16>)
    requires
        lo <= hi <= s@.len(),
    ensures
        r == lookup(symbol_pairs(symbols@), s@.subrange(lo as int, hi as int)),
{
    let ghost t = s@.subrange(lo as int, hi as int);
    let ghost all = symbol_pairs(symbols@);
    let mut i = symbols.len();
    assert(all.take(i as int) =~= all);
    while i > 0
        invariant
            lo <= hi <= s@.len(),
            t == s@.subrange(lo as int, hi as int),
            i <= symbols@.len(),
            all == symbol_pairs(symbols@),
            lookup(all, t) == lookup(all.take(i as int), t),
        decreases i,
    {
        assert(all.take(i as int).last() == all[i - 1]);
        assert(all.take(i as int).drop_last() =~= all.take(i - 1));
        if range_equals(s, lo, hi, symbols[i - 1].name.as_slice()) {
            return Some(symbols[i - 1].value);
        }
        i = i - 1;
    }
    None
}

/// The value of the expression `s[lo..hi]` (see `eval`).
pub fn resolve_expr(s: &[u8], lo: usize, hi: usize, symbols: &Vec<Symbol>) -> (r: Result<
    u16,
    AsmErrorKind,
>)
    requires
        lo <= hi <= s@.len(),
    ensures
        r == eval(s@.subrange(lo as int, hi as int), symbol_pairs(symbols@)),
    decreases hi - lo,
{
    let (a, b) = trim_range(s, lo, hi);
    let ghost t = s@.subrange(a as int, b as int);
    if let Some(n) = parse_u16_range(s, a, b) {
        return Ok(n);
    }
    if let Some(v) = lookup_symbol(symbols, s, a, b) {
        return Ok(v);
    }
    if let Some(i) = find_byte(s, a, b, 43) {
        assert(t.take(i - a) =~= s@.subrange(a as int, i as int));
        assert(t.skip(i - a + 1) =~= s@.subrange(i + 1, b as int));
        let l = match resolve_expr(s, a, i, symbols) {
            Ok(l) => l,
            Err(e) => return Err(e),
        };
        let r = match resolve_expr(s, i + 1, b, symbols) {
            Ok(r) => r,
            Err(e) => return Err(e),
        };
        return Ok(l.wrapping_add(r));
    }
    if let Some(i) = find_byte(s, a, b, 45) {
        assert(t.take(i - a) =~= s@.subrange(a as int, i as int));
        assert(t.skip(i - a + 1) =~= s@.subrange(i + 1, b as int));
        let l = match resolve_expr(s, a, i, symbols) {
            Ok(l) => l,
            Err(e) => return Err(e),
        };
        let r = match resolve_expr(s, i + 1, b, symbols) {
            Ok(r) => r,
            Err(e) => return Err(e),
        };
        return Ok(l.wrapping_sub(r));
    }
    if let Some(g) = reg_index(s, a, b) {
        return Ok(g);
    }
    if is_name_range(s, a, b) {
        Err(AsmErrorKind::UnknownSymbol)
    } else {
        Err(AsmErrorKind::InvalidOperandSyntax)
    }
}

fn encode_offset(reg: u16, offset: Result<u16, AsmErrorKind>, negative: bool) -> (r: Result<
    (u16, bool),
    AsmErrorKind,
>)
    requires
        reg < 12,
    ensures
        r == if negative {
            register_minus(reg, offset)
        } else {
            register_plus(reg, offset)
        },
{
    match offset {
        Err(e) => Err(e),
        Ok(k) => {
            if negative {
                if k <= 7 {
                    let nibble = (16 - k) % 16;
                    Ok(((nibble << 12) | reg, false))
                } else {
                    Err(AsmErrorKind::OffsetOutOfRange)
                }
            } else {
                if k <= 8 {
                    Ok(((k << 12) | reg, false))
                } else {
                    Err(AsmErrorKind::OffsetOutOfRange)
                }
            }
        },
    }
}

/// The encoded word of the operand `s[lo..hi]` and whether it is immediate
/// (see `operand`).
pub fn resolve_operand(s: &[u8], lo: usize, hi: usize, symbols: &Vec<Symbol>) -> (r: Result<
    (u16, bool),
    AsmErrorKind,
>)
    requires
        lo <= hi <= s@.len(),
    ensures
        r == operand(s@.subrange(lo as int, hi as int), symbol_pairs(symbols@)),
{
    let (a, b) = trim_range(s, lo, hi);
    let ghost t = s@.subrange(a as int, b as int);
    if let Some(n) = parse_u16_range(s, a, b) {
        return if n <= 0xFFF {
            Ok((n, true))
        } else {
            Err(AsmErrorKind::OffsetOutOfRange)
        };
    }
    let plus = find_byte(s, a, b, 43);
    if let Some(i) = plus {
        assert(t.take(i - a) =~= s@.subrange(a as int, i as int));
        assert(t.skip(i - a + 1) =~= s@.subrange(i + 1, b as int));
        let (la, lb) = trim_range(s, a, i);
        let (ra, rb) = trim_range(s, i + 1, b);
        if let Some(g) = reg_index(s, la, lb) {
            return encode_offset(g, resolve_expr(s, ra, rb, symbols), false);
        } else if let Some(g) = reg_index(s, ra, rb) {
            return encode_offset(g, resolve_expr(s, la, lb, symbols), false);
        }
    }
    let minus = find_byte(s, a, b, 45);
    if let Some(i) = minus {
        assert(t.take(i - a) =~= s@.subrange(a as int, i as int));
        assert(t.skip(i - a + 1) =~= s@.subrange(i + 1, b as int));
        let (la, lb) = trim_range(s, a, i);
        let (ra, rb) = trim_range(s, i + 1, b);
        if let Some(g) = reg_index(s, la, lb) {
            return encode_offset(g, resolve_expr(s, ra, rb, symbols), true);
        } else if let Some(g) = reg_index(s, ra, rb) {
            return encode_offset(g, resolve_expr(s, la, lb, symbols), true);
        }
    }
    if let Some(g) = reg_index(s, a, b) {
        return Ok((g, false));
    }
    if lookup_symbol(symbols, s, a, b).is_some() || plus.is_some() || minus.is_some() {
        return match resolve_expr(s, a, b, symbols) {
            Err(e) => Err(e),
            Ok(v) => if v <= 0xFFF {
                Ok((v, true))
            } else {
                Err(AsmErrorKind::OffsetOutOfRange)
            },
        };
    }
    if is_name_range(s, a, b) {
        Err(AsmErrorKind::UnknownSymbol)
    } else {
        Err(AsmErrorKind::InvalidOperandSyntax)
    }
}

/// The operation that the mnemonic `s[lo..hi]` names.
fn mnemonic_opcode(s: &[u8], lo: usize, hi: usize) -> (r: Option<Opcode>)
    requires
        lo <= hi <= s@.len(),
    ensures
        r == mnemonic(s@.subrange(lo as int, hi as int)),
{
    if hi - lo == 2 {
        if s[lo] == 111 && s[lo + 1] == 114 {
            Some(Opcode::Or)
        } else {
            None
        }
    } else if hi - lo == 3 {
        if s[lo] == 109 && s[lo + 1] == 111 && s[lo + 2] == 118 {
            Some(Opcode::Mov)
        } else if s[lo] == 97 && s[lo + 1] == 100 && s[lo + 2] == 100 {
            Some(Opcode::Add)
        } else if s[lo] == 115 && s[lo + 1] == 117 && s[lo + 2] == 98 {
            Some(Opcode::Sub)
        } else if s[lo] == 109 && s[lo + 1] == 117 && s[lo + 2] == 108 {
            Some(Opcode::Mul)
        } else if s[lo] == 97 && s[lo + 1] == 110 && s[lo + 2] == 100 {
            Some(Opcode::And)
        } else if s[lo] == 120 && s[lo + 1] == 111 && s[lo + 2] == 114 {
            Some(Opcode::Xor)
        } else if s[lo] == 110 && s[lo + 1] == 111 && s[lo + 2] == 116 {
            Some(Opcode::Not)
        } else if s[lo] == 106 && s[lo + 1] == 109 && s[lo + 2] == 112 {
            Some(Opcode::Jmp)
        } else if s[lo] == 106 && s[lo + 1] == 109 && s[lo + 2] == 108 {
            Some(Opcode::Jml)
        } else if s[lo] == 106 && s[lo + 1] == 109 && s[lo + 2] == 98 {
            Some(Opcode::Jmb)
        } else if s[lo] == 106 && s[lo + 1] == 109 && s[lo + 2] == 101 {
            Some(Opcode::Jme)
        } else if s[lo] == 112 && s[lo + 1] == 111 && s[lo + 2] == 112 {
            Some(Opcode::Pop)
        } else if s[lo] == 115 && s[lo + 1] == 104 && s[lo + 2] == 108 {
            Some(Opcode::Shl)
        } else if s[lo] == 115 && s[lo + 1] == 104 && s[lo + 2] == 114 {
            Some(Opcode::Shr)
        } else {
            None
        }
    } else if hi - lo == 4 {
        if s[lo] == 106 && s[lo + 1] == 109 && s[lo + 2] == 108 && s[lo + 3] == 101 {
            Some(Opcode::Jmle)
        } else if s[lo] == 106 && s[lo + 1] == 109 && s[lo + 2] == 98 && s[lo + 3] == 101 {
            Some(Opcode::Jmbe)
        } else if s[lo] == 106 && s[lo + 1] == 109 && s[lo + 2] == 110 && s[lo + 3] == 101 {
            Some(Opcode::Jmne)
        } else if s[lo] == 115 && s[lo + 1] == 97 && s[lo + 2] == 118 && s[lo + 3] == 101 {
            Some(Opcode::Save)
        } else if s[lo] == 108 && s[lo + 1] == 111 && s[lo + 2] == 97 && s[lo + 3] == 100 {
            Some(Opcode::Load)
        } else if s[lo] == 112 && s[lo + 1] == 117 && s[lo + 2] == 115 && s[lo + 3] == 104 {
            Some(Opcode::Push)
        } else if s[lo] == 104 && s[lo + 1] == 97 && s[lo + 2] == 108 && s[lo + 3] == 116 {
            Some(Opcode::Halt)
        } else {
            None
        }
    } else {
        None
    }
}

fn arity_of(op: Opcode) -> (r: usize)
    ensures
        r == arity(op),
{
    match op {
        Opcode::Halt => 0,
        Opcode::Jmp | Opcode::Save | Opcode::Load | Opcode::Push | Opcode::Pop => 1,
        Opcode::Mov | Opcode::Mul | Opcode::Not => 2,
        _ => 3,
    }
}

proof fn lemma_operands_error_prefix(args: Seq<Seq<u8>>, syms: Seq<(Seq<u8>, u16)>, k: int)
    requires
        0 <= k <= args.len(),
        operands(args.take(k), syms) is Err,
    ensures
        operands(args, syms) == operands(args.take(k), syms),
    decreases args.len(),
{
    if k == args.len() {
        assert(args.take(k) =~= args);
    } else {
        assert(args.drop_last().take(k) =~= args.take(k));
        lemma_operands_error_prefix(args.drop_last(), syms, k);
    }
}

/// The four words of the trimmed instruction line `s[lo..hi]` (see `encode_line`).
#[verifier::rlimit(40)]
fn encode_instruction(s: &[u8], lo: usize, hi: usize, symbols: &Vec<Symbol>) -> (r: Result<
    Vec<u16>,
    AsmErrorKind,
>)
    requires
        lo <= hi <= s@.len(),
    ensures
        match r {
            Ok(w) => encode_line(s@.subrange(lo as int, hi as int), symbol_pairs(symbols@)) == Ok::<
                Seq<u16>,
                AsmErrorKind,
            >(w@),
            Err(e) => encode_line(s@.subrange(lo as int, hi as int), symbol_pairs(symbols@))
                == Err::<Seq<u16>, AsmErrorKind>(e),
        },
{
    let ghost t = s@.subrange(lo as int, hi as int);
    let ghost syms = symbol_pairs(symbols@);
    let end = match find_space(s, lo, hi) {
        Some(i) => i,
        None => hi,
    };
    assert(mnemonic_end(t) == end - lo);
    assert(t.take(end - lo) =~= s@.subrange(lo as int, end as int));
    let op = match mnemonic_opcode(s, lo, end) {
        None => return Err(AsmErrorKind::UnknownInstruction),
        Some(op) => op,
    };
    assert(t.skip(end - lo) =~= s@.subrange(end as int, hi as int));
    let args = remove_spaces(s, end, hi);
    let ranges = split_ranges(args.as_slice(), 0, args.len(), 44);
    assert(args@.subrange(0, args@.len() as int) =~= args@);
    let ghost all = pieces(args@, ranges@);
    assert(forall|k: int|
        0 <= k < ranges@.len() ==> 0 <= #[trigger] ranges@[k].0 <= ranges@[k].1 <= args@.len());
    let mut kept: Vec<(usize, usize)> = Vec::new();
    let mut j: usize = 0;
    while j < ranges.len()
        invariant
            j <= ranges@.len(),
            all == pieces(args@, ranges@),
            pieces(args@, kept@) == nonempty(all.take(j as int)),
            forall|k: int| 0 <= k < ranges@.len() ==> 0 <= #[trigger] ranges@[k].0 <= ranges@[k].1 <= args@.len(),
            forall|k: int| 0 <= k < kept@.len() ==> 0 <= #[trigger] kept@[k].0 <= kept@[k].1 <= args@.len(),
        decreases ranges.len() - j,
    {
        let ghost before = pieces(args@, kept@);
        assert(all.take(j + 1).drop_last() =~= all.take(j as int));
        let (a, b) = ranges[j];
        if b > a {
            kept.push((a, b));
            assert(pieces(args@, kept@) =~= before.push(args@.subrange(a as int, b as int)));
        } else {
            assert(pieces(args@, kept@) =~= before);
        }
        j = j + 1;
    }
    assert(all.take(j as int) =~= all);
    let ghost texts = pieces(args@, kept@);
    assert(texts == operand_texts(t));
    let n = arity_of(op);
    if kept.len() != n {
        return Err(AsmErrorKind::ArityMismatch);
    }
    let mut res: Vec<(u16, bool)> = Vec::new();
    let mut k: usize = 0;
    assert(texts.take(0) =~= Seq::<Seq<u8>>::empty());
    while k < kept.len()
        invariant
            k <= kept@.len(),
            texts == pieces(args@, kept@),
            syms == symbol_pairs(symbols@),
            forall|i: int| 0 <= i < kept@.len() ==> 0 <= #[trigger] kept@[i].0 <= kept@[i].1 <= args@.len(),
            operands(texts.take(k as int), syms) == Ok::<Seq<(u16, bool)>, AsmErrorKind>(res@),
            res@.len() == k,
            texts == operand_texts(t),
            texts.len() == arity(op),
            t == s@.subrange(lo as int, hi as int),
            mnemonic(t.take(mnemonic_end(t))) == Some(op),
        decreases kept.len() - k,
    {
        assert(texts.take(k + 1).drop_last() =~= texts.take(k as int));
        let (a, b) = kept[k];
        assert(texts.take(k + 1).last() == args@.subrange(a as int, b as int));
        match resolve_operand(args.as_slice(), a, b, symbols) {
            Err(e) => {
                proof {
                    lemma_operands_error_prefix(texts, syms, k + 1);
                }
                return Err(e);
            },
            Ok(x) => {
                res.push(x);
            },
        }
        k = k + 1;
    }
    assert(texts.take(k as int) =~= texts);
    let ghost rs = res@;
    let (mut wa, mut wb, mut wc) = (0u16, 0u16, 0u16);
    let (mut fa, mut fb, mut fc) = (0u16, 0u16, 0u16);
    if op == Opcode::Jmp {
        wc = res[0].0;
        fc = if res[0].1 { 1 } else { 0 };
    } else {
        if n > 0 {
            wa = res[0].0;
            fa = if res[0].1 { 1 } else { 0 };
        }
        if n > 1 {
            wb = res[1].0;
            fb = if res[1].1 { 1 } else { 0 };
        }
        if n > 2 {
            wc = res[2].0;
            fc = if res[2].1 { 1 } else { 0 };
        }
    }
    let f = fa + 2 * fb + 4 * fc;
    let header = (f << 13) | op.to_u16();
    let mut w: Vec<u16> = Vec::new();
    w.push(header);
    w.push(wa);
    w.push(wb);
    w.push(wc);
    assert(w@ =~= instruction(op, rs));
    Ok(w)
}

fn copy_range(s: &[u8], lo: usize, hi: usize) -> (r: Vec<u8>)
    requires
        lo <= hi <= s@.len(),
    ensures
        r@ == s@.subrange(lo as int, hi as int),
{
    let mut out: Vec<u8> = Vec::new();
    let mut i = lo;
    while i < hi
        invariant
            lo <= i <= hi <= s@.len(),
            out@ == s@.subrange(lo as int, i as int),
        decreases hi - i,
    {
        out.push(s[i]);
        assert(out@ =~= s@.subrange(lo as int, i + 1));
        i = i + 1;
    }
    out
}

/// What the first pass collects, with instruction lines as
/// `(line number, start, end)` ranges of the source.
struct Collected {
    consts: Vec<Symbol>,
    labels: Vec<Symbol>,
    code: Vec<(usize, usize, usize)>,
}

/// The instruction lines that `code` selects from `src`.
spec fn code_lines(src: Seq<u8>, code: Seq<(usize, usize, usize)>) -> Seq<(usize, Seq<u8>)> {
    Seq::new(code.len(), |i: int| (code[i].0, src.subrange(code[i].1 as int, code[i].2 as int)))
}

spec fn code_in_bounds(src: Seq<u8>, code: Seq<(usize, usize, usize)>) -> bool {
    forall|i: int| 0 <= i < code.len() ==> #[trigger] code[i].1 <= code[i].2 <= src.len()
}

impl Collected {
    spec fn scan_view(&self, src: Seq<u8>) -> Scan {
        Scan {
            consts: symbol_pairs(self.consts@),
            labels: symbol_pairs(self.labels@),
            code: code_lines(src, self.code@),
        }
    }
}

/// The first pass on line `number`, the range `lo..hi` of `src` (see `scan_line`).
#[verifier::rlimit(40)]
fn collect_line(c: &mut Collected, src: &[u8], lo: usize, hi: usize, number: usize) -> (r: Result<
    (),
    AsmError,
>)
    requires
        lo <= hi <= src@.len(),
        code_in_bounds(src@, old(c).code@),
    ensures
        code_in_bounds(src@, final(c).code@),
        match r {
            Ok(_) => scan_line(old(c).scan_view(src@), src@.subrange(lo as int, hi as int), number)
                == Ok::<Scan, AsmError>(final(c).scan_view(src@)),
            Err(e) => scan_line(old(c).scan_view(src@), src@.subrange(lo as int, hi as int), number)
                == Err::<Scan, AsmError>(e),
        },
{
    let ghost raw = src@.subrange(lo as int, hi as int);
    let ghost st = c.scan_view(src@);
    let cut = match find_byte(src, lo, hi, 59) {
        Some(i) => i,
        None => hi,
    };
    assert(strip_comment(raw) =~= src@.subrange(lo as int, cut as int));
    let (a, b) = trim_range(src, lo, cut);
    let ghost t = src@.subrange(a as int, b as int);
    if a == b {
        return Ok(());
    }
    let const_kw: [u8; 6] = [99, 111, 110, 115, 116, 32];
    assert(const_kw@ =~= const_keyword());
    proof {
        if t.len() >= 6 {
            assert(t.take(6) =~= src@.subrange(a as int, a + 6));
            assert(t.skip(6) =~= src@.subrange(a + 6, b as int));
        }
    }
    if b - a >= 6 && range_equals(src, a, a + 6, const_kw.as_slice()) {
        if let Some(k) = find_byte(src, a + 6, b, 58) {
            let ghost rest = t.skip(6);
            assert(rest.skip(k - a - 6 + 1) =~= src@.subrange(k + 1, b as int));
            assert(rest.take(k - a - 6) =~= src@.subrange(a + 6, k as int));
            let v = match resolve_expr(src, k + 1, b, &c.consts) {
                Ok(v) => v,
                Err(kind) => return Err(AsmError { line: number, kind }),
            };
            let (na, nb) = trim_range(src, a + 6, k);
            let name = copy_range(src, na, nb);
            c.consts.push(Symbol { name, value: v });
            assert(c.scan_view(src@).consts =~= st.consts.push((trim(rest.take(k - a - 6)), v)));
            assert(c.scan_view(src@).code =~= st.code);
            return Ok(());
        }
    }
    assert(!is_const_line(t));
    assert(t.last() == src[b - 1]);
    if src[b - 1] == 58 {
        let mut e = b;
        while e > a && src[e - 1] == 58
            invariant
                a <= e <= b <= src@.len(),
                trim_colons(src@.subrange(a as int, e as int)) == trim_colons(t),
                t == src@.subrange(a as int, b as int),
            decreases e - a,
        {
            assert(src@.subrange(a as int, e as int).drop_last() =~= src@.subrange(
                a as int,
                e - 1,
            ));
            e = e - 1;
        }
        let (ua, ub) = trim_range(src, a, e);
        let label_kw: [u8; 6] = [108, 97, 98, 101, 108, 32];
        assert(label_kw@ =~= label_keyword());
        let ghost u = src@.subrange(ua as int, ub as int);
        let start = if ub - ua >= 6 && range_equals(src, ua, ua + 6, label_kw.as_slice()) {
            assert(u.take(6) =~= src@.subrange(ua as int, ua + 6));
            assert(u.skip(6) =~= src@.subrange(ua + 6, ub as int));
            ua + 6
        } else {
            proof {
                if u.len() >= 6 {
                    assert(u.take(6) =~= src@.subrange(ua as int, ua + 6));
                }
            }
            ua
        };
        let name = copy_range(src, start, ub);
        let value = (c.code.len() % 0x10000) as u16;
        c.labels.push(Symbol { name, value });
        assert(c.scan_view(src@).labels =~= st.labels.push((label_name(t), value)));
        assert(c.scan_view(src@).code =~= st.code);
        return Ok(());
    }
    c.code.push((number, a, b));
    assert(c.scan_view(src@).code =~= st.code.push((number, t)));
    Ok(())
}

proof fn lemma_scan_error_prefix(lines: Seq<Seq<u8>>, k: int)
    requires
        0 <= k <= lines.len(),
        scan(lines.take(k)) is Err,
    ensures
        scan(lines) == scan(lines.take(k)),
    decreases lines.len(),
{
    if k == lines.len() {
        assert(lines.take(k) =~= lines);
    } else {
        assert(lines.drop_last().take(k) =~= lines.take(k));
        lemma_scan_error_prefix(lines.drop_last(), k);
    }
}

proof fn lemma_encode_error_prefix(
    code: Seq<(usize, Seq<u8>)>,
    syms: Seq<(Seq<u8>, u16)>,
    k: int,
)
    requires
        0 <= k <= code.len(),
        encode_all(code.take(k), syms) is Err,
    ensures
        encode_all(code, syms) == encode_all(code.take(k), syms),
    decreases code.len(),
{
    if k == code.len() {
        assert(code.take(k) =~= code);
    } else {
        assert(code.drop_last().take(k) =~= code.take(k));
        lemma_encode_error_prefix(code.drop_last(), syms, k);
    }
}

/// Assembles `source` into the word stream that the emulator runs.
///
/// Fails, with the 1-based number of the offending line, on an unknown
/// mnemonic, a wrong number of operands, an unknown symbol, a malformed
/// operand, or an offset or immediate that does not fit its field.
pub fn assemble(source: &str) -> (r: Result<Vec<u16>, AsmError>)
    ensures
        match r {
            Ok(w) => assembly(source.spec_bytes()) == Ok::<Seq<u16>, AsmError>(w@),
            Err(e) => assembly(source.spec_bytes()) == Err::<Seq<u16>, AsmError>(e),
        },
{
    let src = source.as_bytes();
    let lines = split_ranges(src, 0, src.len(), 10);
    assert(src@.subrange(0, src@.len() as int) =~= src@);
    let ghost all = pieces(src@, lines@);
    let mut c = Collected { consts: Vec::new(), labels: Vec::new(), code: Vec::new() };
    assert(all.take(0) =~= Seq::<Seq<u8>>::empty());
    assert(c.scan_view(src@).consts =~= Seq::empty());
    assert(c.scan_view(src@).labels =~= Seq::empty());
    assert(c.scan_view(src@).code =~= Seq::empty());
    let mut j: usize = 0;
    while j < lines.len()
        invariant
            j <= lines@.len(),
            all == pieces(src@, lines@),
            all == split_on(src@, 10),
            src@ == source.spec_bytes(),
            forall|k: int| 0 <= k < lines@.len() ==> 0 <= #[trigger] lines@[k].0 <= lines@[k].1 <= src@.len(),
            code_in_bounds(src@, c.code@),
            scan(all.take(j as int)) == Ok::<Scan, AsmError>(c.scan_view(src@)),
        decreases lines.len() - j,
    {
        let (lo, hi) = lines[j];
        assert(all.take(j + 1).drop_last() =~= all.take(j as int));
        assert(all.take(j + 1).last() == src@.subrange(lo as int, hi as int));
        match collect_line(&mut c, src, lo, hi, j + 1) {
            Err(e) => {
                proof {
                    lemma_scan_error_prefix(all, j + 1);
                }
                return Err(e);
            },
            Ok(_) => {},
        }
        j = j + 1;
    }
    assert(all.take(j as int) =~= all);
    let ghost st = c.scan_view(src@);
    let Collected { consts, labels, code } = c;
    let mut symbols = labels;
    let mut consts = consts;
    symbols.append(&mut consts);
    let ghost syms = symbol_pairs(symbols@);
    assert(syms =~= st.labels + st.consts);
    let ghost lines_of_code = code_lines(src@, code@);
    let mut out: Vec<u16> = Vec::new();
    let mut k: usize = 0;
    assert(lines_of_code.take(0) =~= Seq::<(usize, Seq<u8>)>::empty());
    while k < code.len()
        invariant
            k <= code@.len(),
            lines_of_code == code_lines(src@, code@),
            code_in_bounds(src@, code@),
            syms == symbol_pairs(symbols@),
            src@ == source.spec_bytes(),
            scan(split_on(src@, 10)) == Ok::<Scan, AsmError>(st),
            syms == st.labels + st.consts,
            lines_of_code == st.code,
            encode_all(lines_of_code.take(k as int), syms) == Ok::<Seq<u16>, AsmError>(out@),
        decreases code.len() - k,
    {
        let (number, lo, hi) = code[k];
        assert(lines_of_code.take(k + 1).drop_last() =~= lines_of_code.take(k as int));
        assert(lines_of_code.take(k + 1).last() == (number, src@.subrange(lo as int, hi as int)));
        match encode_instruction(src, lo, hi, &symbols) {
            Err(kind) => {
                proof {
                    lemma_encode_error_prefix(lines_of_code, syms, k + 1);
                }
                return Err(AsmError { line: number, kind });
            },
            Ok(w) => {
                let mut w = w;
                out.append(&mut w);
            },
        }
        k = k + 1;
    }
    assert(lines_of_code.take(k as int) =~= lines_of_code);
    let ghost body = out@;
    let halt = Opcode::Halt.to_u16();
    assert(((0u16 << 13u16) | 19u16) == 19u16) by (bit_vector);
    out.push(halt);
    out.push(0);
    out.push(0);
    out.push(0);
    assert(out@ =~= body + halt_instruction());
    Ok(out)
}

/// The emulator reads back the header that the assembler writes: it decodes
/// to the instruction's operation, and operand slot `k` is marked immediate
/// exactly when the operand placed there resolved to an immediate.
pub proof fn lemma_header_reads_back(op: Opcode, res: Seq<(u16, bool)>, k: u16)
    requires
        res.len() == arity(op),
        k < 3,
    ensures
        decode_opcode(opcode_of(instruction(op, res)[0])) == op,
        is_immediate(flags_of(instruction(op, res)[0]), k) == (slot_flag(op, res, k as int) == 1),
{
    let (a, b, c) = (slot_flag(op, res, 0), slot_flag(op, res, 1), slot_flag(op, res, 2));
    lemma_opcode_round_trip(op);
    lemma_header_fields((a + 2 * b + 4 * c) as u16, op.number());
    let f = (a + 2 * b + 4 * c) as u16;
    assert(((f >> k) & 1u16 == 1u16) == ((k == 0 && a == 1) || (k == 1 && b == 1) || (k == 2 && c
        == 1))) by (bit_vector)
        requires
            a <= 1,
            b <= 1,
            c <= 1,
            k < 3,
            f == a + 2 * b + 4 * c,
    ;
}

/// The emulator reads back the operands that the assembler writes: an
/// immediate reads as its value, `R+E` as register `R` plus `E`, and `R-E` as
/// register `R` minus `E`, wrapping to 16 bits.
pub proof fn lemma_operand_reads_back(
    text: Seq<u8>,
    syms: Seq<(Seq<u8>, u16)>,
    regs: Seq<u16>,
    flags: u16,
    k: u16,
)
    requires
        regs.len() == 12,
        operand(text, syms) is Ok,
        is_immediate(flags, k) == (operand(text, syms)->Ok_0).1,
    ensures
        ({
            let t = trim(text);
            let word = (operand(text, syms)->Ok_0).0;
            if parse_u16(t) is Some {
                operand_value(regs, flags, word, k) == parse_u16(t)->0
            } else if register_form(t, 43) || register_form(t, 45) {
                let i = if register_form(t, 43) {
                    first_index(t, 43)->0
                } else {
                    first_index(t, 45)->0
                };
                let (l, r) = (trim(t.take(i)), trim(t.skip(i + 1)));
                let (reg, offset) = if register_number(l) is Some {
                    (register_number(l)->0, eval(r, syms)->Ok_0)
                } else {
                    (register_number(r)->0, eval(l, syms)->Ok_0)
                };
                operand_value(regs, flags, word, k) == if register_form(t, 43) {
                    wrap16(regs[reg as int] + offset)
                } else {
                    wrap16(regs[reg as int] - offset)
                }
            } else if register_number(t) is Some {
                operand_value(regs, flags, word, k) == regs[register_number(t)->0 as int]
            } else {
                operand_value(regs, flags, word, k) == eval(t, syms)->Ok_0
            }
        }),
{
    let t = trim(text);
    let word = (operand(text, syms)->Ok_0).0;
    if parse_u16(t) is Some {
        lemma_operand_fields(word, 0);
        assert(operand_word(word, 0) == word) by (bit_vector)
            requires
                word < 0x1000,
        ;
    } else if register_form(t, 43) || register_form(t, 45) {
        let i = if register_form(t, 43) {
            first_index(t, 43)->0
        } else {
            first_index(t, 45)->0
        };
        let (l, r) = (trim(t.take(i)), trim(t.skip(i + 1)));
        let reg = if register_number(l) is Some {
            register_number(l)->0
        } else {
            register_number(r)->0
        };
        let off = if register_number(l) is Some {
            eval(r, syms)->Ok_0
        } else {
            eval(l, syms)->Ok_0
        };
        let nib = if register_form(t, 43) {
            off
        } else {
            ((16 - off) % 16) as u16
        };
        assert(word == operand_word(reg, nib));
        lemma_operand_fields(reg, nib);
        assert(reg < 12);
        assert(operand_value(regs, flags, word, k) == if register_form(t, 43) {
            wrap16(regs[reg as int] + off)
        } else {
            wrap16(regs[reg as int] - off)
        });
    } else if register_number(t) is Some {
        let g = register_number(t)->0;
        lemma_operand_fields(g, 0);
        assert(operand_word(g, 0) == g) by (bit_vector)
            requires
                g < 0x1000,
        ;
    } else {
        lemma_operand_fields(word, 0);
        assert(operand_word(word, 0) == word) by (bit_vector)
            requires
                word < 0x1000,
        ;
    }
}

} // verus!
