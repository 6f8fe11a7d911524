//! An interpreter for a small esoteric language: a Brainfuck-derived
//! instruction set extended with pointer dereference/indirection operators
//! and a direct host-syscall instruction.
//!
//! `parser` turns program text into an instruction tree; `machine` holds the
//! execution state (register file, growable memory arena, pointer stack);
//! `engine` walks the tree against that state; `hex` renders the final
//! memory dump. The host system call itself cannot be performed here: when
//! the engine meets a `Syscall` node with no recorded response left, it
//! stops and reports `NeedTrap`, and the caller performs the call and runs
//! the program again with the response appended.

pub mod engine;
pub mod hex;
pub mod machine;
pub mod parser;
