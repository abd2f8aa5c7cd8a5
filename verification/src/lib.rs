//! A verified CHIP-8 interpreter core.
//!
//! The machine state (memory, registers, stack, timers, framebuffer, keypad)
//! lives in [`chip8::Chip8`]; one fetch-decode-execute cycle is
//! [`chip8::Chip8::do_iteration`], whose effect is pinned down by the
//! mathematical transition function [`chip8::step_spec`]. General laws about
//! the instruction set are proved in [`laws`].

pub mod chip8;
pub mod decode;
pub mod draw;
pub mod laws;
