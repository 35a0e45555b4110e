//! Arithmetic expression pipeline: a tokenizer, an infix-to-postfix converter
//! (shunting-yard) and the structural check of postfix evaluation.
//!
//! Numbers stay in their source text here; turning that text into values and
//! doing the arithmetic is left to the caller.

pub mod token;
pub mod tokenizer;
pub mod postfix;
pub mod evaluate;
pub mod laws;
pub mod grammar;
