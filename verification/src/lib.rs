//! Compiler-plugin logic for two macros and two low-level experiments:
//! the `asm_format!` operand allocator, the `macro_regex!` matcher compiler
//! and its Pike-VM, a segmented triple-array layout with its cursors, and a
//! run-merging scan over a byte slice.
pub mod hashing;
pub mod macro_regex;
pub mod asm_format;
pub mod vectrivec;
