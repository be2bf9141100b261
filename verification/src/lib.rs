//! A small schema language: declarations of record types (`.struct`) and
//! tagged unions (`.enum`), a parser for them, the graph of declared types
//! with the analysis of recursive properties, and a formatter that keeps
//! comments and blank lines.
//!
//! - `parser`: positions, the lexer, the grammar and the parse tree, the
//!   lowering of trees to declarations, and the scanner of comments;
//! - `leaptypes`: names, types, declarations, and the graph that holds the
//!   declarations by handle and by name;
//! - `prop_recursion_check`: which properties lead back to the type that
//!   declares them;
//! - `formatter`: a text in its written form, with its comments; `stable`
//!   proves that the formatter leaves its own output as it is;
//! - `naming`, `describe`: names in the writing styles of target
//!   languages, and declarations as text for messages;
//! - `handle`, `stringmap`, `text`, `seqs`: what the others are built on.
//!
//! A text is a sequence of characters; every position in it is a byte
//! offset of its UTF-8 encoding. Each function states what it returns over
//! such sequences and over the values of the types, written as their views.

pub mod describe;
pub mod formatter;
pub mod handle;
pub mod leaptypes;
pub mod naming;
pub mod parser;
pub mod prop_recursion_check;
pub mod seqs;
pub mod stable;
pub mod stringmap;
pub mod text;
