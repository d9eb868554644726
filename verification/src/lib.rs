//! Front end for a small concatenative, stack-based language: a scanner, a
//! parser, a declared-type resolver, and a stack-effect type inferencer.
//!
//! Source text is scanned into positioned tokens, parsed into top-level
//! cycles (bare terms and `def` definitions) made of factors, and each term
//! is given a stack-effect type `(inputs -> outputs)` by abstract
//! interpretation over a symbolic stack.

pub mod abstract_interpreter;
pub mod error;
pub mod parser;
pub mod typechecker;
pub mod scanner;
pub mod text;
