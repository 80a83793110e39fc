//! Building blocks for matching character patterns.
pub mod context;
pub mod lexer;
pub mod matcher;
pub mod pattern;
pub mod tokenizer;
