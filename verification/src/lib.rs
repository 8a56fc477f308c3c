//! A small bytecode interpreter: a lookahead-1 scanner turns source text into
//! tokens, a Pratt parser compiles them directly into a linear chunk of
//! opcodes with a constant pool, and a stack machine executes the chunk
//! against a global environment.
//!
//! Numbers are IEEE-754 binary64 values carried as their bit patterns.
//! Comparisons, negation and equality on numbers are computed here in integer
//! code; the four arithmetic operations and the reading of numeric literals
//! are handed to the embedding program, which the virtual machine asks for
//! one result at a time.

pub mod compiler;
pub mod scanner;
pub mod text;
pub mod util;
pub mod value;
pub mod vm;
