//! Helpers for deserializing nodes from text: context values and a pattern tokenizer.
pub mod context;
pub mod tokenizer;
