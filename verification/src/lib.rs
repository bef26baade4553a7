//! A front end for a small C-like surface syntax: a lexer that turns text
//! into classified tokens, a tree builder that groups tokens by brackets and
//! statement terminators, and a reorderer that puts one flat statement into
//! postfix order.

pub mod parser;
pub mod rpn;
pub mod text;
pub mod tokenizer;
