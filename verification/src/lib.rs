//! A small register machine: its instruction set, a line-oriented assembler,
//! a binary wire format for instructions, and the interpreter that runs them.

pub mod assembler;
pub mod emulator;
pub mod instruction;
pub mod listing;
pub mod registry;
pub mod render;
pub mod stream;
pub mod text;
