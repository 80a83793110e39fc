//! YAMD - Yet Another Markdown Document (flavour).
//!
//! - [`lexer`] splits source text into tokens that cover it byte for byte.
//! - [`op`] parses the tokens into a flat stream of Start/End/Value operations whose contents
//!   cover the source exactly once and whose Start/End pairs nest.
//! - [`parser`] reads a part of a text between a start and an end sequence of characters;
//!   [`s`] reads strikethrough with it, and [`text`] holds plain text.
//! - [`sd`] and [`toolkit`] hold character-level helpers: named values, pattern matchers and
//!   tokenizers.
pub mod lexer;
pub mod node_parser;
pub mod nodes;
pub mod op;
pub mod parser;
pub mod s;
pub mod sd;
pub mod text;
pub mod toolkit;
