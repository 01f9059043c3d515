//! A small register machine with a garbage-collected heap, and the assembler
//! that lowers its assembly language into the binary instruction format.

pub mod assembler;
pub mod common;
pub mod interpreter;
pub mod opcodes;
