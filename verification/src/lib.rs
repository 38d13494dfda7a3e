//! A small regular-expression engine for single lines of text.
//!
//! A pattern is compiled into a program, a sequence of atoms
//! ([`compiler`]), unless it is an alternation group, which is taken apart
//! into its branches ([`group`]). A program is run against a line whose
//! characters have been classified ([`symbol`]) by a greedy matcher that
//! starts again after a mismatch ([`matcher`]). What holds of anchors,
//! searches and groups in general is stated and proved in [`laws`].
//!
//! The pattern syntax: `\d`, `\w`, `\\`, `.`, `[abc]`, `[^abc]`, a leading
//! `^`, a trailing `$`, `+` and `?` behind a literal character, and
//! `(first|second|...)` as the whole pattern.

pub mod atom;
pub mod symbol;
pub mod compiler;
pub mod group;
pub mod matcher;
pub mod laws;

pub use crate::atom::Atom;
pub use crate::compiler::parse_pattern;
pub use crate::matcher::{match_pattern, match_program};
pub use crate::symbol::Symbol;
