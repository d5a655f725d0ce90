//! A small pattern matcher over string slices, and a word-difference utility.
//!
//! `matcher` compiles patterns made of literal text, groups of alternatives
//! `(a|b)` and wildcards `.`, and matches them token by token against candidate
//! text. `difference` finds the words that one sentence has and another lacks.
//! `text` holds the byte-level string helpers both rest on.

pub mod difference;
pub mod matcher;
pub mod text;
