//! Formatting twice is formatting once: what the formatter writes, it
//! leaves as it is. The statement is `fixed::lemma_format_is_idempotent`;
//! the other modules lead up to it:
//!
//! - `classes`: what is taken for granted of the classes of characters;
//! - `tokens`: the tokens that the lexer reads are sound, and tokens that
//!   are written are read again as they were;
//! - `trees`, `lines`, `texts`, `lowered`, `files`, `blocks`: a parsed text
//!   is, line by line, the tokens of its declarations; the lines of the
//!   formatter are these tokens, written; and a text with the same kinds
//!   of tokens is parsed to declarations with the same lines;
//! - `rows`, `squeeze`: the lines of a formatted text by what they hold,
//!   and the order in which the formatter lays them out;
//! - `paper`, `lexrows`, `scanrows`: what the lexer and the scanner of
//!   comments read from a text that is laid out so;
//! - `replay`: formatting such a text writes its lines again.

pub mod blocks;
pub mod classes;
pub mod files;
pub mod fixed;
pub mod lexrows;
pub mod lines;
pub mod lowered;
pub mod paper;
pub mod replay;
pub mod rows;
pub mod scanrows;
pub mod squeeze;
pub mod texts;
pub mod tokens;
pub mod trees;
