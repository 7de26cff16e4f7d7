//! A small Forth-like interpreter.
//!
//! The library tokenizes a line of text, executes built-in stack-manipulation
//! and arithmetic words, and supports runtime definition of new words through
//! `: NAME ... ;` blocks.

pub mod forth;
pub mod semantics;
pub mod token;
pub mod tokenizer;

pub use crate::forth::Forth;
pub use crate::token::Error;
pub use crate::token::ForthResult;
pub use crate::token::Value;
