//! `asm_format!`: inline assembly written with format-string operands.
//!
//! The macro takes options (`volatile`, `alignstack`, `intel`, or a
//! clobbered register), the assembly template, and operands that are
//! positional (`expr`, `expr -> out`), named (`name = expr [-> out]`) or
//! explicitly constrained (`"constraint" = expr [-> out]`). In the template,
//! `{..:ty}` reads an operand as an input and `{..:<ty}` writes it as an
//! output; each distinct operand and type gets one slot, numbered outputs
//! first, and the placeholder becomes `$n`.
pub mod text;
pub mod operands;
pub mod arguments;
