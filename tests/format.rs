use crust_zinc::isa::{program_from_bytes, program_to_bytes, Opcode};
use crust_zinc::neozasm::assemble;

#[test]
fn program_bytes_are_little_endian() {
    assert_eq!(program_to_bytes(&[0x1234, 0x00FF]), vec![0x34, 0x12, 0xFF, 0x00]);
    assert_eq!(program_to_bytes(&[]), Vec::<u8>::new());
}

#[test]
fn program_words_ignore_trailing_byte() {
    assert_eq!(program_from_bytes(&[0x34, 0x12, 0xFF]), vec![0x1234]);
    assert_eq!(program_from_bytes(&[]), Vec::<u16>::new());
}

#[test]
fn assembled_program_survives_byte_round_trip() {
    let words = assemble("mov 5, A\nadd A, 1, B").unwrap();
    assert_eq!(program_from_bytes(&program_to_bytes(&words)), words);
}

#[test]
fn opcode_numbers() {
    assert_eq!(Opcode::from(0u16), Opcode::Mov);
    assert_eq!(Opcode::from(9u16), Opcode::Jml);
    assert_eq!(Opcode::from(19u16), Opcode::Halt);
    assert_eq!(Opcode::from(21u16), Opcode::Shr);
    assert_eq!(Opcode::from(22u16), Opcode::Halt);
    assert_eq!(Opcode::from(255u16), Opcode::Halt);
    assert_eq!(Opcode::Shl.to_u16(), 20);
    for n in 0u16..22 {
        assert_eq!(Opcode::from(n).to_u16(), n);
    }
}
