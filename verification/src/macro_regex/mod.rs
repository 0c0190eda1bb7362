//! `macro_regex!`: compiles a macro matcher into instructions for a Pike VM
//! and runs that VM over a token stream.
pub mod syntax;
pub mod program;
pub mod threads;
pub mod vm;
pub mod nfa;
