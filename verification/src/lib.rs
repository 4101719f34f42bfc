//! Control-flow-directed disassembly of an x86-64 code image.
//!
//! Starting from the entry point, the exploration decodes linear runs of
//! instructions, follows the immediate targets of jumps and calls, and keeps
//! an ordered map from address to decoded instruction.

pub mod address_map;
pub mod disassembly;
pub mod elf;
pub mod engine;
pub mod exploration;
pub mod image;
pub mod instruction;
pub mod laws;
pub mod render;
