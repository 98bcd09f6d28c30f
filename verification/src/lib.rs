//! A small spoken-arithmetic calculator: a tokenizer that understands
//! both symbolic and word-form operators, a precedence-climbing parser,
//! an evaluator with integer/rational promotion, and a caret-style
//! error renderer. Inputs and error positions are byte-oriented
//! throughout; fractional values are exact rationals.
pub mod ast;
pub mod eval;
pub mod lexer;
pub mod parser;
pub mod render;
pub mod value;
