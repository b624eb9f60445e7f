//! A tokenizer and recursive-descent parser for a nested, Sass-like
//! stylesheet dialect, with a check for misplaced parent references (`&`)
//! in selectors.

pub mod text;
pub mod lexer;
pub mod expression;
pub mod parser;
pub mod ambuster;
pub mod laws;
