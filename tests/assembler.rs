use crust_zinc::emulator::{Emulator, StepResult};
use crust_zinc::neozasm::{assemble, AsmError, AsmErrorKind};

const HALT: [u16; 4] = [19, 0, 0, 0];

fn run(source: &str) -> Emulator {
    let program = assemble(source).expect("assembles");
    let mut emu = Emulator::new();
    emu.load_program(&program);
    let mut steps = 0;
    while emu.step() == StepResult::Continue {
        steps += 1;
        assert!(steps < 10_000, "program did not halt");
    }
    emu
}

fn error_of(source: &str) -> AsmError {
    match assemble(source) {
        Ok(words) => panic!("assembled to {:?}", words),
        Err(e) => e,
    }
}

#[test]
fn empty_source_is_a_lone_halt() {
    assert_eq!(assemble("").unwrap(), HALT.to_vec());
    assert_eq!(assemble("; only a comment\n\n   \n").unwrap(), HALT.to_vec());
}

#[test]
fn constant_operand_is_immediate() {
    let words = assemble("const N: 5\nmov N, A").unwrap();
    assert_eq!(words.len(), 8);
    assert_eq!(words[0] & 0x1FFF, 0);
    assert_eq!(words[0] >> 13, 1);
    assert_eq!(words[1], 5);
    assert_eq!(words[2], 0);
    assert_eq!(&words[4..], &HALT);
}

#[test]
fn forward_label_resolves_to_instruction_index() {
    let words = assemble("jmp end\nmov 1, A\nend:\nmov 2, B\nhalt").unwrap();
    // jmp: opcode 8, target in operand C, marked immediate
    assert_eq!(words[0], (4 << 13) | 8);
    assert_eq!(words[3], 2);
    assert_eq!(words.len(), 5 * 4);
}

#[test]
fn label_keyword_and_extra_colons() {
    let words = assemble("mov 1, A\nlabel top::\njmp top").unwrap();
    assert_eq!(words[7], 1);
}

#[test]
fn constants_use_earlier_constants_and_arithmetic() {
    let words = assemble("const A0: 10\nconst B0: A0 + 5\nconst C0: B0 - 3\nmov C0, A\nmov 2+3, B").unwrap();
    assert_eq!(words[1], 12);
    assert_eq!(words[5], 5);
    assert_eq!(words[4] >> 13, 1);
}

#[test]
fn subtraction_splits_at_first_minus() {
    // 9 - (4 - 1)
    let words = assemble("mov 9 - 4 - 1, A").unwrap();
    assert_eq!(words[1], 6);
}

#[test]
fn register_offsets_encode_nibbles() {
    let words = assemble("mov B + 3, A\nmov 2 + C, A\nmov D - 1, A\nmov B - 7, A\nmov SO - 0, A").unwrap();
    assert_eq!(words[1], (3 << 12) | 1);
    assert_eq!(words[5], (2 << 12) | 2);
    assert_eq!(words[9], (15 << 12) | 3);
    assert_eq!(words[13], (9 << 12) | 1);
    assert_eq!(words[17], 6);
    for i in 0..5 {
        assert_eq!(words[4 * i] >> 13, 0);
    }
}

#[test]
fn operands_fill_their_slots() {
    let words = assemble("add A, 7, C\nnot 3, D\nload B\npop C\npush 9\nmul 2, 3").unwrap();
    assert_eq!(&words[0..4], &[(2 << 13) | 1, 0, 7, 2]);
    assert_eq!(&words[4..8], &[(1 << 13) | 7, 3, 3, 0]);
    assert_eq!(&words[8..12], &[16, 1, 0, 0]);
    assert_eq!(&words[12..16], &[18, 2, 0, 0]);
    assert_eq!(&words[16..20], &[(1 << 13) | 17, 9, 0, 0]);
    assert_eq!(&words[20..24], &[(3 << 13) | 3, 2, 3, 0]);
}

#[test]
fn whitespace_and_empty_operands_are_ignored() {
    let a = assemble("  add\tA ,  B,C   ; comment\r\n").unwrap();
    let b = assemble("add A,B,,C").unwrap();
    assert_eq!(a, b);
    assert_eq!(&a[0..4], &[1, 0, 1, 2]);
}

#[test]
fn unknown_instruction_is_reported_with_line() {
    let e = error_of("mov 1, A\n\nfoo A");
    assert_eq!(e, AsmError { line: 3, kind: AsmErrorKind::UnknownInstruction });
    let e = error_of("const X");
    assert_eq!(e.kind, AsmErrorKind::UnknownInstruction);
}

#[test]
fn arity_mismatch_is_reported() {
    assert_eq!(error_of("mov A").kind, AsmErrorKind::ArityMismatch);
    assert_eq!(error_of("add A, B").kind, AsmErrorKind::ArityMismatch);
    assert_eq!(error_of("halt A").kind, AsmErrorKind::ArityMismatch);
    assert_eq!(error_of("\njmp").line, 2);
}

#[test]
fn unknown_symbol_is_reported() {
    assert_eq!(error_of("mov X, A"), AsmError { line: 1, kind: AsmErrorKind::UnknownSymbol });
    assert_eq!(error_of("const K: Q + 1").kind, AsmErrorKind::UnknownSymbol);
    // labels are not visible while constants are declared
    assert_eq!(error_of("here:\nconst K: here").kind, AsmErrorKind::UnknownSymbol);
}

#[test]
fn invalid_operand_syntax_is_reported() {
    assert_eq!(error_of("mov 5x, A").kind, AsmErrorKind::InvalidOperandSyntax);
    assert_eq!(error_of("mov 1 +, A").kind, AsmErrorKind::InvalidOperandSyntax);
    assert_eq!(error_of("mov 70000, A").kind, AsmErrorKind::InvalidOperandSyntax);
}

#[test]
fn offset_out_of_range_is_reported() {
    assert_eq!(error_of("mov A + 9, B").kind, AsmErrorKind::OffsetOutOfRange);
    assert_eq!(error_of("mov A - 8, B").kind, AsmErrorKind::OffsetOutOfRange);
    assert_eq!(error_of("mov 4096, B").kind, AsmErrorKind::OffsetOutOfRange);
    assert_eq!(assemble("mov 4095, B").unwrap()[1], 4095);
}

#[test]
fn constant_hides_label_of_same_name() {
    let words = assemble("X:\nconst X: 7\njmp X").unwrap();
    assert_eq!(words[3], 7);
}

#[test]
fn round_trip_arithmetic() {
    let emu = run("mov 5, A\nmov 7, B\nadd A, B, C\nsub C, 2, D\nhalt");
    assert_eq!(emu.read_reg(0), 5);
    assert_eq!(emu.read_reg(1), 7);
    assert_eq!(emu.read_reg(2), 12);
    assert_eq!(emu.read_reg(3), 10);
}

#[test]
fn round_trip_branching_loop() {
    let source = "const N: 5\nmov 0, A\nmov N, B\nloop:\nadd A, B, A\nsub B, 1, B\njmne B, 0, loop\nhalt";
    let emu = run(source);
    assert_eq!(emu.read_reg(0), 15);
    assert_eq!(emu.read_reg(1), 0);
}

#[test]
fn round_trip_stack() {
    let emu = run("mov 42, A\npush A\nmov 0, A\npop B");
    assert_eq!(emu.read_reg(0), 0);
    assert_eq!(emu.read_reg(1), 42);
    assert_eq!(emu.read_reg(6), 0);
}

#[test]
fn round_trip_memory() {
    let emu = run("mov 123, A\nsave A\nsub MS, 2, MS\nload B\nhalt");
    assert_eq!(emu.read_reg(1), 123);
    assert_eq!(emu.read_reg(7), 0x8000 - 2);
}

#[test]
fn round_trip_register_offsets_and_mul() {
    let emu = run("mov 10, A\nmov A - 3, B\nmov A + 8, C\nmul 300, 300");
    assert_eq!(emu.read_reg(1), 7);
    assert_eq!(emu.read_reg(2), 0);
    assert_eq!(emu.read_reg(3), 24464);
}

#[test]
fn round_trip_not_and_shifts() {
    let emu = run("not 15, D\nshl 1, 4, A\nshr D, 8, B");
    assert_eq!(emu.read_reg(3), 0xFFF0);
    assert_eq!(emu.read_reg(0), 16);
    assert_eq!(emu.read_reg(1), 0xFF);
}

#[test]
fn error_kinds_have_messages() {
    assert_eq!(AsmErrorKind::UnknownInstruction.message(), "unknown instruction");
    assert_eq!(AsmErrorKind::ArityMismatch.message(), "wrong number of operands");
    assert_eq!(AsmErrorKind::UnknownSymbol.message(), "unknown symbol");
    assert_eq!(AsmErrorKind::InvalidOperandSyntax.message(), "invalid operand");
    assert_eq!(AsmErrorKind::OffsetOutOfRange.message(), "offset or value out of range");
}
