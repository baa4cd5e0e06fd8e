//! A small integer calculator: a tokenizer, a flat precedence parser that
//! builds an expression tree, and an evaluator for that tree.

pub mod ast;
pub mod eval;
pub mod token;
