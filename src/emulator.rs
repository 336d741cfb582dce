//! The emulator: twelve 16-bit registers, 64 KiB of byte memory, and a
//! single-step interpreter that never faults.
use vstd::prelude::*;

use vstd::string::StringExecFns;

use crate::isa::{
    base_of, decode_opcode, flags_of, is_immediate, nibble_of, opcode_of, program_bytes, Opcode,
    MEM_SIZE, NUM_REGS,
    REG_C, REG_D, REG_I, REG_IP, REG_MO, REG_MS, REG_O, REG_SO, REG_SS, REG_ST,
};
use crate::listing::{append_value_line, value_line};

verus! {

/// What one step reports to its caller.
#[derive(Clone, Copy, PartialEq, Eq, Debug, Structural)]
pub enum StepResult {
    Continue,
    Halt,
}

/// The mathematical state of a machine: its registers and its memory.
pub ghost struct MachineState {
    pub regs: Seq<u16>,
    pub mem: Seq<u8>,
}

/// A state of the right shape: twelve registers and 65536 bytes.
pub open spec fn well_shaped(s: MachineState) -> bool {
    s.regs.len() == NUM_REGS && s.mem.len() == MEM_SIZE
}

/// `x` reduced to 16 bits.
pub open spec fn wrap16(x: int) -> u16 {
    (x % 0x10000) as u16
}

/// Register `i`, or 0 when `i` names no register.
pub open spec fn reg_value(regs: Seq<u16>, i: int) -> u16 {
    if 0 <= i < NUM_REGS {
        regs[i]
    } else {
        0
    }
}

/// The registers with register `i` set to `v`; unchanged when `i` names no register.
pub open spec fn with_reg(regs: Seq<u16>, i: int, v: u16) -> Seq<u16> {
    if 0 <= i < NUM_REGS {
        regs.update(i, v)
    } else {
        regs
    }
}

/// Whether the `O` register selects signed arithmetic.
pub open spec fn signed_mode(regs: Seq<u16>) -> bool {
    regs[REG_O as int] & 1u16 == 1u16
}

/// The little-endian word at `addr`, or 0 when its two bytes do not fit in memory.
pub open spec fn mem_word(mem: Seq<u8>, addr: int) -> u16 {
    if 0 <= addr && addr + 1 < MEM_SIZE {
        (mem[addr] + 256 * mem[addr + 1]) as u16
    } else {
        0
    }
}

/// Memory with the little-endian word `v` stored at `addr`; unchanged when it does not fit.
pub open spec fn with_mem_word(mem: Seq<u8>, addr: int, v: u16) -> Seq<u8> {
    if 0 <= addr && addr + 1 < MEM_SIZE {
        mem.update(addr, (v % 256) as u8).update(addr + 1, (v / 256) as u8)
    } else {
        mem
    }
}

/// The value of operand `k` with raw word `word`: a literal plus its nibble when
/// the flag bit is set, else the named register plus a signed nibble offset.
pub open spec fn operand_value(regs: Seq<u16>, flags: u16, word: u16, k: u16) -> u16 {
    let base = base_of(word);
    let nibble = nibble_of(word);
    if is_immediate(flags, k) {
        (base + nibble) as u16
    } else if nibble > 8 {
        wrap16(reg_value(regs, base as int) - (16 - nibble))
    } else {
        wrap16(reg_value(regs, base as int) + nibble)
    }
}

/// The state right after `reset`.
pub open spec fn reset_state() -> MachineState {
    MachineState {
        regs: Seq::new(NUM_REGS as nat, |i: int| 0u16).update(REG_SS as int, 0x4000u16).update(
            REG_MS as int,
            0x8000u16,
        ),
        mem: Seq::new(MEM_SIZE as nat, |i: int| 0u8),
    }
}

/// Memory after storing `program` word by word from address 0.
pub open spec fn load_words(mem: Seq<u8>, program: Seq<u16>) -> Seq<u8>
    decreases program.len(),
{
    if program.len() == 0 {
        mem
    } else {
        let n = program.len() - 1;
        with_mem_word(load_words(mem, program.take(n)), 2 * n, program[n])
    }
}

/// The state after loading `program` into `s`: registers kept, memory overwritten.
pub open spec fn load_state(s: MachineState, program: Seq<u16>) -> MachineState {
    MachineState { regs: s.regs, mem: load_words(s.mem, program) }
}

/// Whether a conditional jump with operands `a` and `b` is taken.
pub open spec fn jump_taken(op: Opcode, a: u16, b: u16) -> bool {
    match op {
        Opcode::Jmp => true,
        Opcode::Jml => a < b,
        Opcode::Jmle => a <= b,
        Opcode::Jmb => a > b,
        Opcode::Jmbe => a >= b,
        Opcode::Jme => a == b,
        Opcode::Jmne => a != b,
        _ => false,
    }
}

/// Registers after `Add` of `va` and `vb` into register `dest`.
pub open spec fn add_regs(regs: Seq<u16>, dest: int, va: u16, vb: u16) -> Seq<u16> {
    let sum = va + vb;
    let max: int = if signed_mode(regs) {
        32767
    } else {
        65535
    };
    if sum > max {
        let r = with_reg(regs, dest, 0);
        r.update(REG_O as int, r[REG_O as int] | 2u16)
    } else {
        let r = with_reg(regs, dest, sum as u16);
        r.update(REG_O as int, r[REG_O as int] & 0xFFFDu16)
    }
}

/// The effect of operation `op` once `IP` has been advanced: `regs` holds the
/// advanced registers, `a`, `b`, `c` the raw operand words and `va`, `vb`, `vc`
/// their values.
pub open spec fn execute(
    op: Opcode,
    regs: Seq<u16>,
    mem: Seq<u8>,
    a: u16,
    b: u16,
    c: u16,
    va: u16,
    vb: u16,
    vc: u16,
) -> (MachineState, StepResult) {
    let same = MachineState { regs, mem };
    let set = |i: int, v: u16| MachineState { regs: with_reg(regs, i, v), mem };
    match op {
        Opcode::Mov => (set(base_of(b) as int, va), StepResult::Continue),
        Opcode::Add => (
            MachineState { regs: add_regs(regs, base_of(c) as int, va, vb), mem },
            StepResult::Continue,
        ),
        Opcode::Sub => (set(base_of(c) as int, wrap16(va - vb)), StepResult::Continue),
        Opcode::Mul => (
            MachineState {
                regs: regs.update(REG_C as int, 0).update(REG_D as int, wrap16(va * vb)),
                mem,
            },
            StepResult::Continue,
        ),
        Opcode::And => (set(base_of(c) as int, va & vb), StepResult::Continue),
        Opcode::Or => (set(base_of(c) as int, va | vb), StepResult::Continue),
        Opcode::Xor => (set(base_of(c) as int, va ^ vb), StepResult::Continue),
        Opcode::Not => (set(base_of(b) as int, !va), StepResult::Continue),
        Opcode::Jmp | Opcode::Jml | Opcode::Jmle | Opcode::Jmb | Opcode::Jmbe | Opcode::Jme
        | Opcode::Jmne => if jump_taken(op, va, vb) {
            (set(REG_IP as int, vc), StepResult::Continue)
        } else {
            (same, StepResult::Continue)
        },
        Opcode::Save => {
            let addr = wrap16(regs[REG_MS as int] + regs[REG_IP as int]);
            (MachineState { regs, mem: with_mem_word(mem, addr as int, va) }, StepResult::Continue)
        },
        Opcode::Load => {
            let addr = wrap16(regs[REG_MS as int] + regs[REG_IP as int]);
            (set(base_of(a) as int, mem_word(mem, addr as int)), StepResult::Continue)
        },
        Opcode::Push => {
            let addr = wrap16(regs[REG_SS as int] + regs[REG_SO as int]);
            (
                MachineState {
                    regs: regs.update(REG_SO as int, wrap16(regs[REG_SO as int] + 2)),
                    mem: with_mem_word(mem, addr as int, va),
                },
                StepResult::Continue,
            )
        },
        Opcode::Pop => {
            let so = wrap16(regs[REG_SO as int] - 2);
            let popped = regs.update(REG_SO as int, so);
            let addr = wrap16(regs[REG_SS as int] + so);
            (
                MachineState {
                    regs: with_reg(popped, base_of(a) as int, mem_word(mem, addr as int)),
                    mem,
                },
                StepResult::Continue,
            )
        },
        Opcode::Halt => (same, StepResult::Halt),
        Opcode::Shl => (set(base_of(c) as int, va << (vb & 15u16)), StepResult::Continue),
        Opcode::Shr => (set(base_of(c) as int, va >> (vb & 15u16)), StepResult::Continue),
    }
}

/// One step of the machine: the state after it and what it reports.
///
/// An instruction pointer whose 8-byte instruction would not fit in memory
/// halts with nothing changed. Otherwise the four words at `IP * 8` are read,
/// `IP` advances by one, the operands are resolved against the advanced
/// registers, and the operation runs.
#[verifier::opaque]
pub open spec fn step_state(s: MachineState) -> (MachineState, StepResult) {
    let ip = s.regs[REG_IP as int];
    let addr = ip * 8;
    if addr + 8 > MEM_SIZE {
        (s, StepResult::Halt)
    } else {
        let header = mem_word(s.mem, addr);
        let a = mem_word(s.mem, addr + 2);
        let b = mem_word(s.mem, addr + 4);
        let c = mem_word(s.mem, addr + 6);
        let flags = flags_of(header);
        let regs = s.regs.update(REG_IP as int, wrap16(ip + 1));
        execute(
            decode_opcode(opcode_of(header)),
            regs,
            s.mem,
            a,
            b,
            c,
            operand_value(regs, flags, a, 0),
            operand_value(regs, flags, b, 1),
            operand_value(regs, flags, c, 2),
        )
    }
}

/// The name of register `i` as it appears in a dump, padded to two columns.
pub open spec fn register_label(i: int) -> Seq<char> {
    seq![
        seq!['A', ' '],
        seq!['B', ' '],
        seq!['C', ' '],
        seq!['D', ' '],
        seq!['I', 'P'],
        seq!['S', 'S'],
        seq!['S', 'O'],
        seq!['M', 'S'],
        seq!['M', 'O'],
        seq!['I', ' '],
        seq!['O', ' '],
        seq!['S', 'T'],
    ][i]
}

/// The dump lines of the first `n` registers, separated by newlines.
pub open spec fn dump_lines(regs: Seq<u16>, n: nat) -> Seq<char>
    decreases n,
{
    if n == 0 {
        Seq::empty()
    } else if n == 1 {
        value_line(register_label(0), regs[0])
    } else {
        dump_lines(regs, (n - 1) as nat) + seq!['\n'] + value_line(
            register_label(n - 1),
            regs[n - 1],
        )
    }
}

/// The register dump of `regs`: one line per register, from `A` to `ST`.
pub open spec fn state_text(regs: Seq<u16>) -> Seq<char> {
    dump_lines(regs, NUM_REGS as nat)
}

fn label_str(i: usize) -> (r: &'static str)
    requires
        i < NUM_REGS,
    ensures
        r@ == register_label(i as int),
{
    proof {
        reveal_strlit("A ");
        reveal_strlit("B ");
        reveal_strlit("C ");
        reveal_strlit("D ");
        reveal_strlit("IP");
        reveal_strlit("SS");
        reveal_strlit("SO");
        reveal_strlit("MS");
        reveal_strlit("MO");
        reveal_strlit("I ");
        reveal_strlit("O ");
        reveal_strlit("ST");
    }
    match i {
        0 => "A ",
        1 => "B ",
        2 => "C ",
        3 => "D ",
        4 => "IP",
        5 => "SS",
        6 => "SO",
        7 => "MS",
        8 => "MO",
        9 => "I ",
        10 => "O ",
        _ => "ST",
    }
}

/// A machine with 64 KiB of memory and twelve registers.
///
/// Besides the registers and memory it caches whether signed arithmetic is
/// selected; every write to `O` recomputes that flag from bit 0.
pub struct Emulator {
    regs: [u16; 12],
    ram: [u8; 65536],
    is_signed: bool,
}

impl View for Emulator {
    type V = MachineState;

    closed spec fn view(&self) -> MachineState {
        MachineState { regs: self.regs@, mem: self.ram@ }
    }
}

/// The state with every register and byte zero.
pub open spec fn zero_state() -> MachineState {
    MachineState {
        regs: Seq::new(NUM_REGS as nat, |i: int| 0u16),
        mem: Seq::new(MEM_SIZE as nat, |i: int| 0u8),
    }
}

proof fn lemma_wrapping(x: u16, y: u16)
    ensures
        x.wrapping_add(y) == wrap16(x + y),
        x.wrapping_sub(y) == wrap16(x - y),
{
}

impl Default for Emulator {
    /// A machine with every register and byte zero.
    fn default() -> (r: Emulator)
        ensures
            r@ == zero_state(),
            r.wf(),
    {
        let r = Emulator { regs: [0u16; 12], ram: [0u8; 65536], is_signed: false };
        assert(r.regs@ =~= zero_state().regs);
        assert(r.ram@ =~= zero_state().mem);
        assert(0u16 & 1u16 == 0u16) by (bit_vector);
        r
    }
}

impl Emulator {
    /// The cached signed-mode flag agrees with bit 0 of `O`.
    pub closed spec fn wf(&self) -> bool {
        self.is_signed == signed_mode(self.regs@)
    }

    /// Every state that a machine holds has the right shape.
    pub proof fn lemma_well_shaped(&self)
        ensures
            well_shaped(self@),
    {
    }

    /// A machine in the state that `reset` establishes.
    pub fn new() -> (r: Emulator)
        ensures
            r@ == reset_state(),
            r.wf(),
    {
        let mut emu = Emulator::default();
        emu.reset();
        emu
    }

    /// Clears all registers and memory, then sets `SS` to 0x4000 and `MS` to 0x8000.
    pub fn reset(&mut self)
        ensures
            final(self)@ == reset_state(),
            final(self).wf(),
    {
        self.regs = [0u16; 12];
        self.ram = [0u8; 65536];
        self.regs[REG_SS as usize] = 0x4000;
        self.regs[REG_MS as usize] = 0x8000;
        self.regs[REG_MO as usize] = 0;
        self.regs[REG_I as usize] = 0;
        self.regs[REG_ST as usize] = 0;
        self.is_signed = false;
        assert(self.regs@ =~= reset_state().regs);
        assert(self.ram@ =~= reset_state().mem);
        assert(0u16 & 1u16 == 0u16) by (bit_vector);
    }

    /// Register `idx`, or 0 when `idx` names no register.
    pub fn read_reg(&self, idx: u16) -> (r: u16)
        ensures
            r == reg_value(self@.regs, idx as int),
    {
        if (idx as usize) < NUM_REGS {
            self.regs[idx as usize]
        } else {
            0
        }
    }

    /// Sets register `idx` to `val`; does nothing when `idx` names no register.
    pub fn write_reg(&mut self, idx: u16, val: u16)
        requires
            old(self).wf(),
        ensures
            final(self)@ == (MachineState {
                regs: with_reg(old(self)@.regs, idx as int, val),
                mem: old(self)@.mem,
            }),
            final(self).wf(),
    {
        if (idx as usize) < NUM_REGS {
            self.regs[idx as usize] = val;
            if idx == REG_O {
                self.is_signed = val & 1 != 0;
                assert(val & 1u16 != 0 <==> val & 1u16 == 1u16) by (bit_vector);
            }
        }
    }

    /// The little-endian word at `addr`, or 0 when it does not fit in memory.
    pub fn read_mem_u16(&self, addr: usize) -> (r: u16)
        ensures
            r == mem_word(self@.mem, addr as int),
    {
        if addr >= MEM_SIZE - 1 {
            return 0;
        }
        let lo = self.ram[addr] as u16;
        let hi = self.ram[addr + 1] as u16;
        assert((hi << 8u16) | lo == lo + 256 * hi) by (bit_vector)
            requires
                lo < 256,
                hi < 256,
        ;
        (hi << 8) | lo
    }

    /// Stores `val` little-endian at `addr`; does nothing when it does not fit in memory.
    pub fn write_mem_u16(&mut self, addr: usize, val: u16)
        requires
            old(self).wf(),
        ensures
            final(self)@ == (MachineState {
                regs: old(self)@.regs,
                mem: with_mem_word(old(self)@.mem, addr as int, val),
            }),
            final(self).wf(),
    {
        if addr >= MEM_SIZE - 1 {
            return;
        }
        assert(val & 0xFFu16 == val % 256) by (bit_vector);
        assert(val >> 8u16 == val / 256) by (bit_vector);
        self.ram[addr] = (val & 0xFF) as u8;
        self.ram[addr + 1] = (val >> 8) as u8;
    }

    /// Stores `program` word by word, little-endian, from address 0.
    /// Registers are kept; words that would not fit are dropped.
    pub fn load_program(&mut self, program: &[u16])
        requires
            old(self).wf(),
        ensures
            final(self)@ == load_state(old(self)@, program@),
            final(self).wf(),
    {
        let mut i: usize = 0;
        while i < program.len()
            invariant
                i <= program@.len(),
                self.wf(),
                self@ == load_state(old(self)@, program@.take(i as int)),
            decreases program.len() - i,
        {
            let addr: usize = if i < MEM_SIZE / 2 {
                i * 2
            } else {
                MEM_SIZE
            };
            self.write_mem_u16(addr, program[i]);
            assert(program@.take(i + 1).take(i as int) =~= program@.take(i as int));
            i = i + 1;
        }
        assert(program@.take(i as int) =~= program@);
    }

    /// The value of an operand: `f` is the header's flag field, `param` the raw
    /// operand word and `bit` its position (0 for A, 1 for B, 2 for C).
    pub fn r_i(&self, f: u16, param: u16, bit: u16) -> (r: u16)
        requires
            bit < 3,
        ensures
            r == operand_value(self@.regs, f, param, bit),
    {
        assert((f >> bit) & 1u16 != 0 <==> (f >> bit) & 1u16 == 1u16) by (bit_vector);
        assert(param & 0x0FFFu16 < 4096) by (bit_vector);
        assert((param >> 12u16) & 0xFu16 < 16) by (bit_vector);
        if (f >> bit) & 1 != 0 {
            let offset = (param >> 12) & 0xF;
            let value = param & 0x0FFF;
            value + offset
        } else {
            let reg_idx = param & 0x0FFF;
            let offset = (param >> 12) & 0xF;
            let reg_val = self.read_reg(reg_idx);
            proof {
                lemma_wrapping(reg_val, offset);
                lemma_wrapping(reg_val, (16 - offset) as u16);
            }
            if offset > 8 {
                reg_val.wrapping_sub(16 - offset)
            } else {
                reg_val.wrapping_add(offset)
            }
        }
    }

    /// Runs one instruction and reports whether the machine goes on.
    ///
    /// Never faults: an instruction pointer past the end of memory and an
    /// unknown opcode both halt, arithmetic wraps, and out-of-range register
    /// and memory accesses read 0 or do nothing.
    #[verifier::rlimit(50)]
    pub fn step(&mut self) -> (r: StepResult)
        requires
            old(self).wf(),
        ensures
            (final(self)@, r) == step_state(old(self)@),
            final(self).wf(),
    {
        proof {
            reveal(step_state);
        }
        let ip = self.read_reg(REG_IP);
        let addr = ip as usize * 8;
        if addr + 6 >= MEM_SIZE {
            return StepResult::Halt;
        }
        let instr = self.read_mem_u16(addr);
        let f = (instr >> 13) & 0x7;
        let opcode = instr & 0x1FFF;
        let a = self.read_mem_u16(addr + 2);
        let b = self.read_mem_u16(addr + 4);
        let c = self.read_mem_u16(addr + 6);
        proof {
            lemma_wrapping(ip, 1);
        }
        self.write_reg(REG_IP, ip.wrapping_add(1));
        let va = self.r_i(f, a, 0);
        let vb = self.r_i(f, b, 1);
        let vc = self.r_i(f, c, 2);
        let op = Opcode::from(opcode);
        assert(c & 0xFFFu16 == c & 0x0FFFu16) by (bit_vector);
        assert(b & 0xFFFu16 == b & 0x0FFFu16) by (bit_vector);
        assert(a & 0xFFFu16 == a & 0x0FFFu16) by (bit_vector);
        match op {
            Opcode::Mov => {
                let target_reg = b & 0xFFF;
                self.write_reg(target_reg, va);
            },
            Opcode::Add => {
                let target_reg = c & 0xFFF;
                let res = va as u32 + vb as u32;
                let max: u32 = if self.is_signed {
                    32767
                } else {
                    65535
                };
                if res > max {
                    self.write_reg(target_reg, 0);
                    let o = self.regs[REG_O as usize] | 2;
                    self.write_reg(REG_O, o);
                } else {
                    self.write_reg(target_reg, res as u16);
                    let o = self.regs[REG_O as usize] & !2;
                    assert(!2u16 == 0xFFFDu16) by (bit_vector);
                    self.write_reg(REG_O, o);
                }
            },
            Opcode::Sub => {
                let target_reg = c & 0xFFF;
                proof {
                    lemma_wrapping(va, vb);
                }
                self.write_reg(target_reg, va.wrapping_sub(vb));
            },
            Opcode::Mul => {
                assert(va as u32 * vb as u32 <= 0xFFFE0001) by (nonlinear_arith)
                    requires
                        va <= 0xFFFF,
                        vb <= 0xFFFF,
                ;
                let res = (va as u32) * (vb as u32);
                self.write_reg(REG_C, 0);
                self.write_reg(REG_D, (res % 0x10000) as u16);
            },
            Opcode::And => {
                let target_reg = c & 0xFFF;
                self.write_reg(target_reg, va & vb);
            },
            Opcode::Or => {
                let target_reg = c & 0xFFF;
                self.write_reg(target_reg, va | vb);
            },
            Opcode::Xor => {
                let target_reg = c & 0xFFF;
                self.write_reg(target_reg, va ^ vb);
            },
            Opcode::Not => {
                let target_reg = b & 0xFFF;
                self.write_reg(target_reg, !va);
            },
            Opcode::Jmp => self.write_reg(REG_IP, vc),
            Opcode::Jml => {
                if va < vb {
                    self.write_reg(REG_IP, vc)
                }
            },
            Opcode::Jmle => {
                if va <= vb {
                    self.write_reg(REG_IP, vc)
                }
            },
            Opcode::Jmb => {
                if va > vb {
                    self.write_reg(REG_IP, vc)
                }
            },
            Opcode::Jmbe => {
                if va >= vb {
                    self.write_reg(REG_IP, vc)
                }
            },
            Opcode::Jme => {
                if va == vb {
                    self.write_reg(REG_IP, vc)
                }
            },
            Opcode::Jmne => {
                if va != vb {
                    self.write_reg(REG_IP, vc)
                }
            },
            Opcode::Save => {
                let ms = self.regs[REG_MS as usize];
                let ipv = self.regs[REG_IP as usize];
                proof {
                    lemma_wrapping(ms, ipv);
                }
                let addr = ms.wrapping_add(ipv) as usize;
                self.write_mem_u16(addr, va);
            },
            Opcode::Load => {
                let ms = self.regs[REG_MS as usize];
                let ipv = self.regs[REG_IP as usize];
                proof {
                    lemma_wrapping(ms, ipv);
                }
                let addr = ms.wrapping_add(ipv) as usize;
                let val = self.read_mem_u16(addr);
                let target_reg = a & 0xFFF;
                self.write_reg(target_reg, val);
            },
            Opcode::Push => {
                let ss = self.regs[REG_SS as usize];
                let so = self.regs[REG_SO as usize];
                proof {
                    lemma_wrapping(ss, so);
                    lemma_wrapping(so, 2);
                }
                let addr = ss.wrapping_add(so) as usize;
                self.write_mem_u16(addr, va);
                self.regs[REG_SO as usize] = so.wrapping_add(2);
            },
            Opcode::Pop => {
                let so = self.regs[REG_SO as usize];
                proof {
                    lemma_wrapping(so, 2);
                }
                let so = so.wrapping_sub(2);
                self.regs[REG_SO as usize] = so;
                let ss = self.regs[REG_SS as usize];
                proof {
                    lemma_wrapping(ss, so);
                }
                let addr = ss.wrapping_add(so) as usize;
                let val = self.read_mem_u16(addr);
                let target_reg = a & 0xFFF;
                self.write_reg(target_reg, val);
            },
            Opcode::Halt => return StepResult::Halt,
            Opcode::Shl => {
                let target_reg = c & 0xFFF;
                assert(vb & 15u16 < 16) by (bit_vector);
                self.write_reg(target_reg, va << (vb & 15));
            },
            Opcode::Shr => {
                let target_reg = c & 0xFFF;
                assert(vb & 15u16 < 16) by (bit_vector);
                self.write_reg(target_reg, va >> (vb & 15));
            },
        }
        StepResult::Continue
    }

    /// A dump of all twelve registers, each in hexadecimal and in decimal.
    pub fn get_state_string(&self) -> (r: String)
        ensures
            r@ == state_text(self@.regs),
    {
        let mut out = String::new();
        let mut i: usize = 0;
        while i < NUM_REGS
            invariant
                i <= NUM_REGS,
                out@ == dump_lines(self@.regs, i as nat),
            decreases NUM_REGS - i,
        {
            if i > 0 {
                proof {
                    reveal_strlit("\n");
                }
                out.append("\n");
            }
            let ghost before = out@;
            append_value_line(&mut out, label_str(i), self.regs[i]);
            assert(out@ =~= dump_lines(self@.regs, (i + 1) as nat)) by {
                if i > 0 {
                    assert(before =~= dump_lines(self@.regs, i as nat) + seq!['\n']);
                }
            }
            i = i + 1;
        }
        out
    }
}

/// The header word of the instruction at `IP`.
pub open spec fn current_header(s: MachineState) -> u16 {
    mem_word(s.mem, s.regs[REG_IP as int] * 8)
}

/// Raw operand word `k` (0 for A, 1 for B, 2 for C) of the instruction at `IP`.
pub open spec fn current_word(s: MachineState, k: u16) -> u16 {
    mem_word(s.mem, s.regs[REG_IP as int] * 8 + 2 + 2 * k)
}

/// The operation of the instruction at `IP`.
pub open spec fn current_op(s: MachineState) -> Opcode {
    decode_opcode(opcode_of(current_header(s)))
}

/// The value of operand `k` of the instruction at `IP`, resolved as a step
/// resolves it: after `IP` has advanced.
pub open spec fn current_value(s: MachineState, k: u16) -> u16 {
    operand_value(
        s.regs.update(REG_IP as int, wrap16(s.regs[REG_IP as int] + 1)),
        flags_of(current_header(s)),
        current_word(s, k),
        k,
    )
}

/// Whether the instruction at `IP` fits in memory and so runs.
pub open spec fn runs(s: MachineState) -> bool {
    s.regs[REG_IP as int] as int * 8 + 8 <= MEM_SIZE
}

proof fn lemma_step_runs(s: MachineState)
    requires
        well_shaped(s),
        runs(s),
    ensures
        ({
            let regs = s.regs.update(REG_IP as int, wrap16(s.regs[REG_IP as int] + 1));
            step_state(s) == execute(
                current_op(s),
                regs,
                s.mem,
                current_word(s, 0),
                current_word(s, 1),
                current_word(s, 2),
                current_value(s, 0),
                current_value(s, 1),
                current_value(s, 2),
            )
        }),
{
    reveal(step_state);
}

/// `Add` overflows exactly when the sum exceeds 32767 in signed mode, or 65535
/// otherwise: bit 1 of `O` is then set and the destination receives 0; else
/// bit 1 is cleared and the destination receives the sum.
pub proof fn lemma_add_overflow(s: MachineState)
    requires
        well_shaped(s),
        runs(s),
        current_op(s) == Opcode::Add,
    ensures
        ({
            let sum = current_value(s, 0) + current_value(s, 1);
            let max: int = if signed_mode(s.regs) {
                32767
            } else {
                65535
            };
            let dest = base_of(current_word(s, 2)) as int;
            let after = step_state(s).0.regs;
            &&& step_state(s).1 == StepResult::Continue
            &&& (after[REG_O as int] & 2u16 == 2u16) == (sum > max)
            &&& dest < NUM_REGS && dest != REG_O ==> after[dest] == if sum > max {
                0
            } else {
                sum
            }
        }),
{
    lemma_step_runs(s);
    let regs = s.regs.update(REG_IP as int, wrap16(s.regs[REG_IP as int] + 1));
    let r0 = with_reg(regs, base_of(current_word(s, 2)) as int, 0);
    let sum = current_value(s, 0) + current_value(s, 1);
    let r1 = with_reg(regs, base_of(current_word(s, 2)) as int, sum as u16);
    let (o0, o1) = (r0[REG_O as int], r1[REG_O as int]);
    assert((o0 | 2u16) & 2u16 == 2u16) by (bit_vector);
    assert((o1 & 0xFFFDu16) & 2u16 == 0u16) by (bit_vector);
}

/// `Sub` stores the difference of its operands modulo 65536 (0 - 1 gives 65535).
pub proof fn lemma_sub_wraps(s: MachineState)
    requires
        well_shaped(s),
        runs(s),
        current_op(s) == Opcode::Sub,
        base_of(current_word(s, 2)) < NUM_REGS,
    ensures
        step_state(s).1 == StepResult::Continue,
        step_state(s).0.regs[base_of(current_word(s, 2)) as int] == (current_value(s, 0)
            - current_value(s, 1)) % 0x10000,
{
    lemma_step_runs(s);
}

/// `Mul` stores the low 16 bits of the product in `D` and always clears `C`.
pub proof fn lemma_mul_low_bits(s: MachineState)
    requires
        well_shaped(s),
        runs(s),
        current_op(s) == Opcode::Mul,
    ensures
        step_state(s).1 == StepResult::Continue,
        step_state(s).0.regs[REG_C as int] == 0,
        step_state(s).0.regs[REG_D as int] == (current_value(s, 0) * current_value(s, 1))
            % 0x10000,
{
    lemma_step_runs(s);
}

/// `Jml` jumps to its third operand exactly when its first operand is below
/// its second, compared unsigned; otherwise it moves on to the next instruction.
pub proof fn lemma_jml_jumps_iff_less(s: MachineState)
    requires
        well_shaped(s),
        runs(s),
        current_op(s) == Opcode::Jml,
    ensures
        step_state(s).1 == StepResult::Continue,
        step_state(s).0.regs[REG_IP as int] == if current_value(s, 0) < current_value(s, 1) {
            current_value(s, 2)
        } else {
            (s.regs[REG_IP as int] + 1) as u16
        },
{
    lemma_step_runs(s);
}

/// Stepping with an instruction pointer whose instruction would not fit in
/// memory halts and leaves every register and byte as it was.
pub proof fn lemma_past_end_halts(s: MachineState)
    requires
        well_shaped(s),
        s.regs[REG_IP as int] as int * 8 + 8 > MEM_SIZE,
    ensures
        step_state(s) == (s, StepResult::Halt),
{
    reveal(step_state);
}

/// An instruction whose opcode names no operation halts: it advances `IP` and
/// changes nothing else.
pub proof fn lemma_unknown_opcode_halts(s: MachineState)
    requires
        well_shaped(s),
        s.regs[REG_IP as int] as int * 8 + 8 <= MEM_SIZE,
        opcode_of(mem_word(s.mem, s.regs[REG_IP as int] * 8)) >= 22,
    ensures
        step_state(s) == (MachineState {
            regs: s.regs.update(REG_IP as int, (s.regs[REG_IP as int] + 1) as u16),
            mem: s.mem,
        }, StepResult::Halt),
{
    reveal(step_state);
}

proof fn lemma_word_round_trip(mem: Seq<u8>, addr: int, v: u16)
    requires
        mem.len() == MEM_SIZE,
        0 <= addr,
        addr + 1 < MEM_SIZE,
    ensures
        mem_word(with_mem_word(mem, addr, v), addr) == v,
{
}

proof fn lemma_word_untouched(mem: Seq<u8>, addr: int, v: u16, other: int)
    requires
        mem.len() == MEM_SIZE,
        other + 1 < addr || addr + 1 < other,
    ensures
        mem_word(with_mem_word(mem, addr, v), other) == mem_word(mem, other),
{
}

#[verifier::rlimit(40)]
proof fn lemma_step_push(s: MachineState)
    requires
        well_shaped(s),
        s.regs[REG_IP as int] as int * 8 + 8 <= MEM_SIZE,
        decode_opcode(opcode_of(mem_word(s.mem, s.regs[REG_IP as int] * 8))) == Opcode::Push,
    ensures
        ({
            let ip = s.regs[REG_IP as int];
            let regs = s.regs.update(REG_IP as int, wrap16(ip + 1));
            let pushed = operand_value(
                regs,
                flags_of(mem_word(s.mem, ip * 8)),
                mem_word(s.mem, ip * 8 + 2),
                0,
            );
            let addr = wrap16(s.regs[REG_SS as int] + s.regs[REG_SO as int]);
            step_state(s) == (MachineState {
                regs: regs.update(REG_SO as int, wrap16(s.regs[REG_SO as int] + 2)),
                mem: with_mem_word(s.mem, addr as int, pushed),
            }, StepResult::Continue)
        }),
{
    lemma_step_runs(s);
}

#[verifier::rlimit(40)]
proof fn lemma_step_pop(s: MachineState)
    requires
        well_shaped(s),
        s.regs[REG_IP as int] as int * 8 + 8 <= MEM_SIZE,
        decode_opcode(opcode_of(mem_word(s.mem, s.regs[REG_IP as int] * 8))) == Opcode::Pop,
    ensures
        ({
            let ip = s.regs[REG_IP as int];
            let so = wrap16(s.regs[REG_SO as int] - 2);
            let regs = s.regs.update(REG_IP as int, wrap16(ip + 1)).update(REG_SO as int, so);
            let addr = wrap16(s.regs[REG_SS as int] + so);
            step_state(s) == (MachineState {
                regs: with_reg(
                    regs,
                    base_of(mem_word(s.mem, ip * 8 + 2)) as int,
                    mem_word(s.mem, addr as int),
                ),
                mem: s.mem,
            }, StepResult::Continue)
        }),
{
    lemma_step_runs(s);
}

/// A `Push` followed by a `Pop` gives back the pushed value: the register that
/// the `Pop` names receives the value that the `Push` stored, and `SO` returns to
/// where it was (unless `SO` is itself that register). This holds when the stack
/// word fits in memory and does not overlap the `Pop` instruction.
pub proof fn lemma_push_then_pop(s: MachineState)
    requires
        well_shaped(s),
        s.regs[REG_IP as int] as int * 8 + 16 <= MEM_SIZE,
        decode_opcode(opcode_of(mem_word(s.mem, s.regs[REG_IP as int] * 8))) == Opcode::Push,
        decode_opcode(opcode_of(mem_word(s.mem, s.regs[REG_IP as int] * 8 + 8))) == Opcode::Pop,
        wrap16(s.regs[REG_SS as int] + s.regs[REG_SO as int]) + 1 < MEM_SIZE,
        wrap16(s.regs[REG_SS as int] + s.regs[REG_SO as int]) + 2 <= s.regs[REG_IP as int] * 8 + 8
            || wrap16(s.regs[REG_SS as int] + s.regs[REG_SO as int]) >= s.regs[REG_IP as int] * 8
            + 16,
    ensures
        ({
            let ip = s.regs[REG_IP as int];
            let header = mem_word(s.mem, ip * 8);
            let pushed = operand_value(
                s.regs.update(REG_IP as int, (ip + 1) as u16),
                flags_of(header),
                mem_word(s.mem, ip * 8 + 2),
                0,
            );
            let target = base_of(mem_word(s.mem, ip * 8 + 10)) as int;
            let (s1, r1) = step_state(s);
            let (s2, r2) = step_state(s1);
            &&& r1 == StepResult::Continue
            &&& r2 == StepResult::Continue
            &&& target < NUM_REGS ==> s2.regs[target] == pushed
            &&& target != REG_SO ==> s2.regs[REG_SO as int] == s.regs[REG_SO as int]
            &&& s2.regs[REG_IP as int] == ip + 2 || target == REG_IP
        }),
{
    let ip = s.regs[REG_IP as int];
    let addr = wrap16(s.regs[REG_SS as int] + s.regs[REG_SO as int]) as int;
    let header = mem_word(s.mem, ip * 8);
    let pushed = operand_value(
        s.regs.update(REG_IP as int, (ip + 1) as u16),
        flags_of(header),
        mem_word(s.mem, ip * 8 + 2),
        0,
    );
    lemma_step_push(s);
    let (s1, r1) = step_state(s);
    lemma_word_round_trip(s.mem, addr, pushed);
    lemma_word_untouched(s.mem, addr, pushed, ip * 8 + 8);
    lemma_word_untouched(s.mem, addr, pushed, ip * 8 + 10);
    lemma_word_untouched(s.mem, addr, pushed, ip * 8 + 12);
    lemma_word_untouched(s.mem, addr, pushed, ip * 8 + 14);
    assert(s1.regs[REG_IP as int] == ip + 1);
    assert(wrap16(s1.regs[REG_SO as int] - 2) == s.regs[REG_SO as int]);
    lemma_step_pop(s1);
}

/// Loading `program` stores its byte form from address 0, as far as it fits,
/// and leaves the rest of memory as it was.
pub proof fn lemma_load_contents(mem: Seq<u8>, program: Seq<u16>)
    requires
        mem.len() == MEM_SIZE,
    ensures
        load_words(mem, program).len() == MEM_SIZE,
        forall|i: int|
            0 <= i < MEM_SIZE ==> #[trigger] load_words(mem, program)[i] == if i < 2
                * program.len() {
                program_bytes(program)[i]
            } else {
                mem[i]
            },
    decreases program.len(),
{
    if program.len() > 0 {
        let n = program.len() - 1;
        let prefix = program.take(n);
        lemma_load_contents(mem, prefix);
        let before = load_words(mem, prefix);
        assert forall|i: int| 0 <= i < MEM_SIZE implies #[trigger] load_words(mem, program)[i]
            == if i < 2 * program.len() {
            program_bytes(program)[i]
        } else {
            mem[i]
        } by {
            if i < 2 * n {
                assert(i / 2 < n);
                assert(program_bytes(prefix)[i] == program_bytes(program)[i]);
            } else if i == 2 * n {
                assert(i / 2 == n && i % 2 == 0);
            } else if i == 2 * n + 1 {
                assert(i / 2 == n && i % 2 == 1);
            }
        }
    }
}

/// After `reset` and `load_program` a machine holds the registers of `reset`,
/// the program's byte form from address 0, and zero everywhere else. This does
/// not depend on what it held before, and it is what a new machine holds after
/// loading the same program.
pub proof fn lemma_reset_then_load(program: Seq<u16>)
    ensures
        load_state(reset_state(), program) == (MachineState {
            regs: reset_state().regs,
            mem: Seq::new(
                MEM_SIZE as nat,
                |i: int|
                    if i < 2 * program.len() {
                        program_bytes(program)[i]
                    } else {
                        0u8
                    },
            ),
        }),
{
    lemma_load_contents(reset_state().mem, program);
    assert(load_state(reset_state(), program).mem =~= Seq::new(
        MEM_SIZE as nat,
        |i: int|
            if i < 2 * program.len() {
                program_bytes(program)[i]
            } else {
                0u8
            },
    ));
}

} // verus!
