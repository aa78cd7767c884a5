//! A single nonnegative big integer, the canonical index, and the ways it is
//! written down: text over an alphabet, fixed-width words, and short
//! instructions that rebuild it.
pub mod bignum;
pub mod positional;
pub mod codec;
pub mod error;
pub mod alphabet;
pub mod text;
pub mod sequence;
pub mod pattern;
pub mod instruction;
pub mod analyzer;
pub mod state;
