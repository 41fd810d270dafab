//! A verified interpreter for dice-algebra expressions: integer arithmetic
//! mixed with tabletop-style dice rolls, e.g. `2d6h1 + (10-2*2)/2`.
//!
//! The pipeline has three stages: [`lexer::tokenize`] turns text into tokens,
//! [`parser::parse`] builds an abstract syntax tree by recursive descent, and
//! the tree's `execute_ast` methods evaluate it against an injected source of
//! randomness, producing a numeric result and a human-readable roll trace.

pub mod ast;
pub mod dice_error;
pub mod lexer;
pub mod parser;
pub mod rng;
pub mod text;
