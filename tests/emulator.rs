use crust_zinc::emulator::{Emulator, StepResult};

const REG_A: u16 = 0;
const REG_B: u16 = 1;
const REG_C: u16 = 2;
const REG_D: u16 = 3;
const REG_IP: u16 = 4;
const REG_SS: u16 = 5;
const REG_SO: u16 = 6;
const REG_MS: u16 = 7;
const REG_O: u16 = 10;

fn header(flags: u16, opcode: u16) -> u16 {
    (flags << 13) | opcode
}

fn machine_with(program: &[u16]) -> Emulator {
    let mut emu = Emulator::new();
    emu.load_program(program);
    emu
}

#[test]
fn new_machine_matches_reset_values() {
    let emu = Emulator::new();
    assert_eq!(emu.read_reg(REG_SS), 0x4000);
    assert_eq!(emu.read_reg(REG_MS), 0x8000);
    for r in [0u16, 1, 2, 3, 4, 6, 8, 9, 10, 11] {
        assert_eq!(emu.read_reg(r), 0);
    }
}

#[test]
fn default_machine_is_all_zero() {
    let emu = Emulator::default();
    for r in 0u16..12 {
        assert_eq!(emu.read_reg(r), 0);
    }
    assert_eq!(emu.read_mem_u16(0x4000), 0);
}

#[test]
fn load_program_stores_words_little_endian() {
    let emu = machine_with(&[0x1234, 0xABCD]);
    assert_eq!(emu.read_mem_u16(0), 0x1234);
    assert_eq!(emu.read_mem_u16(2), 0xABCD);
    assert_eq!(emu.read_mem_u16(1), 0xCD12);
}

#[test]
fn memory_edges_never_fault() {
    let mut emu = Emulator::new();
    assert_eq!(emu.read_mem_u16(65535), 0);
    assert_eq!(emu.read_mem_u16(usize::MAX), 0);
    emu.write_mem_u16(65535, 0xFFFF);
    assert_eq!(emu.read_mem_u16(65534), 0);
    emu.write_mem_u16(65534, 0xBEEF);
    assert_eq!(emu.read_mem_u16(65534), 0xBEEF);
}

#[test]
fn register_index_out_of_range_is_ignored() {
    let mut emu = Emulator::new();
    emu.write_reg(12, 7);
    emu.write_reg(4095, 7);
    assert_eq!(emu.read_reg(12), 0);
    assert_eq!(emu.read_reg(4095), 0);
}

#[test]
fn operand_resolution() {
    let mut emu = Emulator::new();
    emu.write_reg(REG_B, 100);
    // immediate 5 plus nibble 3
    assert_eq!(emu.r_i(1, (3 << 12) | 5, 0), 8);
    // register B plus 8
    assert_eq!(emu.r_i(0, (8 << 12) | REG_B, 1), 108);
    // register B minus 7 (nibble 9)
    assert_eq!(emu.r_i(0, (9 << 12) | REG_B, 2), 93);
    // register B minus 1 (nibble 15)
    assert_eq!(emu.r_i(0, (15 << 12) | REG_B, 0), 99);
    // flag bit for another operand does not make this one immediate
    assert_eq!(emu.r_i(2, REG_B, 0), 100);
    assert_eq!(emu.read_reg(REG_B), 100);
}

#[test]
fn add_overflow_unsigned() {
    let mut emu = machine_with(&[header(0, 1), REG_A, REG_B, REG_C]);
    emu.write_reg(REG_A, 0xFFFF);
    emu.write_reg(REG_B, 1);
    emu.write_reg(REG_C, 9);
    assert!(emu.step() == StepResult::Continue);
    assert_eq!(emu.read_reg(REG_C), 0);
    assert_eq!(emu.read_reg(REG_O) & 2, 2);
}

#[test]
fn add_overflow_signed_threshold() {
    let mut emu = machine_with(&[
        header(0, 1),
        REG_A,
        REG_B,
        REG_C,
        header(0, 1),
        REG_A,
        REG_D,
        REG_C,
    ]);
    emu.write_reg(REG_O, 1);
    emu.write_reg(REG_A, 32767);
    emu.write_reg(REG_B, 1);
    emu.write_reg(REG_D, 0);
    assert!(emu.step() == StepResult::Continue);
    assert_eq!(emu.read_reg(REG_C), 0);
    assert_eq!(emu.read_reg(REG_O), 3);
    assert!(emu.step() == StepResult::Continue);
    assert_eq!(emu.read_reg(REG_C), 32767);
    assert_eq!(emu.read_reg(REG_O), 1);
}

#[test]
fn add_without_overflow_clears_flag() {
    let mut emu = machine_with(&[header(3, 1), 20, 22, REG_C]);
    emu.write_reg(REG_O, 2);
    assert!(emu.step() == StepResult::Continue);
    assert_eq!(emu.read_reg(REG_C), 42);
    assert_eq!(emu.read_reg(REG_O), 0);
    // the same sum in unsigned mode with a large operand stays below 65535
    let mut emu = machine_with(&[header(0, 1), REG_A, REG_B, REG_C]);
    emu.write_reg(REG_A, 40000);
    emu.write_reg(REG_B, 20000);
    emu.step();
    assert_eq!(emu.read_reg(REG_C), 60000);
    assert_eq!(emu.read_reg(REG_O) & 2, 0);
}

#[test]
fn sub_wraps_below_zero() {
    let mut emu = machine_with(&[header(3, 2), 0, 1, REG_D]);
    assert!(emu.step() == StepResult::Continue);
    assert_eq!(emu.read_reg(REG_D), 65535);
}

#[test]
fn mul_truncates_into_d_and_clears_c() {
    let mut emu = machine_with(&[header(3, 3), 300, 300, 0, header(3, 3), 6, 7, 0]);
    emu.write_reg(REG_C, 55);
    emu.step();
    assert_eq!(emu.read_reg(REG_D), 24464);
    assert_eq!(emu.read_reg(REG_C), 0);
    emu.write_reg(REG_C, 55);
    emu.step();
    assert_eq!(emu.read_reg(REG_D), 42);
    assert_eq!(emu.read_reg(REG_C), 0);
}

#[test]
fn bitwise_and_shifts() {
    let mut emu = machine_with(&[
        header(3, 4),
        0xF0F,
        0x0FF,
        REG_A,
        header(3, 5),
        0xF00,
        0x00F,
        REG_B,
        header(3, 6),
        0xFFF,
        0x0F0,
        REG_C,
        header(1, 7),
        0x00F,
        REG_D,
        0,
        header(3, 20),
        1,
        19,
        REG_A,
        header(3, 21),
        0x800,
        4,
        REG_B,
    ]);
    for _ in 0..6 {
        assert!(emu.step() == StepResult::Continue);
    }
    assert_eq!(emu.read_reg(REG_C), 0xF0F);
    assert_eq!(emu.read_reg(REG_D), 0xFFF0);
    // shift amount is taken modulo 16: 19 & 15 == 3
    assert_eq!(emu.read_reg(REG_A), 8);
    assert_eq!(emu.read_reg(REG_B), 0x80);
}

#[test]
fn mov_writes_raw_b_register() {
    let mut emu = machine_with(&[header(1, 0), 77, REG_D, 0]);
    emu.step();
    assert_eq!(emu.read_reg(REG_D), 77);
    assert_eq!(emu.read_reg(REG_IP), 1);
}

#[test]
fn jml_jumps_when_less() {
    let mut emu = machine_with(&[header(7, 9), 1, 2, 10]);
    emu.step();
    assert_eq!(emu.read_reg(REG_IP), 10);
}

#[test]
fn jml_falls_through_when_not_less() {
    let mut emu = machine_with(&[header(7, 9), 2, 1, 10]);
    emu.step();
    assert_eq!(emu.read_reg(REG_IP), 1);
}

#[test]
fn conditional_jumps_compare_unsigned() {
    // (opcode, a, b, taken)
    let cases = [
        (10u16, 3u16, 3u16, true),
        (10, 4, 3, false),
        (11, 4, 3, true),
        (11, 3, 3, false),
        (12, 3, 3, true),
        (12, 2, 3, false),
        (13, 5, 5, true),
        (13, 5, 6, false),
        (14, 5, 6, true),
        (14, 5, 5, false),
    ];
    for (op, a, b, taken) in cases {
        let mut emu = machine_with(&[header(7, op), a, b, 20]);
        emu.step();
        assert_eq!(emu.read_reg(REG_IP), if taken { 20 } else { 1 });
    }
    // 0xFFFF is larger than 1 when compared unsigned
    let mut emu = machine_with(&[header(6, 11), REG_A, 1, 20]);
    emu.write_reg(REG_A, 0xFFFF);
    emu.step();
    assert_eq!(emu.read_reg(REG_IP), 20);
}

#[test]
fn push_then_pop_restores_value_and_offset() {
    let mut emu = machine_with(&[header(0, 17), REG_A, 0, 0, header(0, 18), REG_A, 0, 0]);
    emu.write_reg(REG_A, 0xBEEF);
    let so = emu.read_reg(REG_SO);
    emu.step();
    assert_eq!(emu.read_reg(REG_SO), so.wrapping_add(2));
    emu.write_reg(REG_A, 0);
    emu.step();
    assert_eq!(emu.read_reg(REG_A), 0xBEEF);
    assert_eq!(emu.read_reg(REG_SO), so);
    assert_eq!(emu.read_mem_u16(0x4000), 0xBEEF);
}

#[test]
fn pop_from_empty_stack_wraps_offset() {
    let mut emu = machine_with(&[header(0, 18), REG_B, 0, 0]);
    emu.step();
    assert_eq!(emu.read_reg(REG_SO), 65534);
    // SS + SO wraps to 0x3FFE, which holds 0
    assert_eq!(emu.read_reg(REG_B), 0);
}

#[test]
fn save_and_load_use_ms_plus_ip() {
    let mut emu = machine_with(&[header(1, 15), 321, 0, 0, header(0, 16), REG_C, 0, 0]);
    emu.step();
    assert_eq!(emu.read_mem_u16(0x8000 + 1), 321);
    emu.write_mem_u16(0x8000 + 2, 654);
    emu.step();
    assert_eq!(emu.read_reg(REG_C), 654);
}

#[test]
fn ip_past_end_halts_without_change() {
    let mut emu = Emulator::new();
    emu.write_reg(REG_IP, 8192);
    emu.write_reg(REG_A, 5);
    let before = emu.get_state_string();
    assert!(emu.step() == StepResult::Halt);
    assert_eq!(emu.get_state_string(), before);
    emu.write_reg(REG_IP, 0xFFFF);
    let before = emu.get_state_string();
    assert!(emu.step() == StepResult::Halt);
    assert_eq!(emu.get_state_string(), before);
}

#[test]
fn last_instruction_slot_still_runs() {
    let mut emu = Emulator::new();
    emu.write_mem_u16(8191 * 8, header(1, 0));
    emu.write_mem_u16(8191 * 8 + 2, 9);
    emu.write_mem_u16(8191 * 8 + 4, REG_A);
    emu.write_reg(REG_IP, 8191);
    assert!(emu.step() == StepResult::Continue);
    assert_eq!(emu.read_reg(REG_A), 9);
    assert!(emu.step() == StepResult::Halt);
}

#[test]
fn unknown_opcode_halts() {
    let mut emu = machine_with(&[255, 0, 0, 0]);
    assert!(emu.step() == StepResult::Halt);
    assert_eq!(emu.read_reg(REG_IP), 1);
    let mut emu = machine_with(&[22, 0, 0, 0]);
    assert!(emu.step() == StepResult::Halt);
    let mut emu = machine_with(&[header(0, 19), 0, 0, 0]);
    assert!(emu.step() == StepResult::Halt);
}

#[test]
fn writing_o_sets_signed_mode() {
    let mut emu = machine_with(&[header(2, 1), REG_A, 1, REG_C, header(2, 1), REG_A, 1, REG_C]);
    emu.write_reg(REG_A, 32767);
    emu.write_reg(REG_O, 1);
    emu.step();
    assert_eq!(emu.read_reg(REG_C), 0);
    emu.write_reg(REG_O, 0);
    emu.step();
    assert_eq!(emu.read_reg(REG_C), 32768);
}

#[test]
fn reset_then_load_equals_fresh_machine() {
    let program = [header(3, 1), 2, 3, REG_A, header(0, 19), 0, 0, 0];
    let mut used = Emulator::new();
    used.write_reg(REG_A, 17);
    used.write_reg(REG_O, 1);
    used.write_mem_u16(100, 0xAAAA);
    used.write_mem_u16(0x9000, 0x5555);
    used.load_program(&[1, 2, 3, 4, 5, 6, 7, 8, 9, 10]);
    used.step();
    used.reset();
    used.load_program(&program);
    let fresh = machine_with(&program);
    assert_eq!(used.get_state_string(), fresh.get_state_string());
    for addr in (0..65536usize).step_by(2) {
        assert_eq!(used.read_mem_u16(addr), fresh.read_mem_u16(addr));
    }
}

#[test]
fn state_string_format() {
    let mut emu = Emulator::new();
    emu.write_reg(REG_A, 0xBEEF);
    emu.write_reg(REG_D, 10);
    let regs: Vec<u16> = (0u16..12).map(|r| emu.read_reg(r)).collect();
    let names = ["A ", "B ", "C ", "D ", "IP", "SS", "SO", "MS", "MO", "I ", "O ", "ST"];
    let expected: Vec<String> = names
        .iter()
        .zip(regs.iter())
        .map(|(n, v)| format!("{} = {:#06X} ({})", n, v, v))
        .collect();
    assert_eq!(emu.get_state_string(), expected.join("\n"));
    assert!(emu.get_state_string().starts_with("A  = 0xBEEF (48879)\nB  = 0x0000 (0)\n"));
    assert!(emu.get_state_string().contains("SS = 0x4000 (16384)"));
}
