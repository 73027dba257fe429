//! Inline emphasis: a tokenizer for `*`, `_` and backslash escapes, and a
//! delimiter-matching parser that builds a tree of bold, italic and plain text.
//!
//! `tokenizer::tokenize` and `parser::parse` are proved to compute the
//! mathematical models `tokenizer::tokenize_model` and `parser::parse_model`;
//! `laws` states and proves general properties of those models.

pub mod ast;
pub mod laws;
pub mod parser;
pub mod token;
pub mod tokenizer;
