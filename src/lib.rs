//! A 16-bit register machine: its instruction format, an emulator that runs
//! the packed word stream, and a two-pass assembler that produces it.
pub mod emulator;
pub mod isa;
pub mod listing;
pub mod neozasm;
pub mod text;
