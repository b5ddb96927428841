//! Front end of the Luna compiler: a segmented arena with typed handles, a
//! source cache with byte-accurate spans, and a resilient tokenizer.
//!
//! Source text flows from the [`span::FileCache`], which stores each file once
//! in an [`arena::Arena`], through [`lexer::lexer`], which turns it into
//! tokens that each carry the [`span::Span`] they were read from. The lexical
//! grammar itself is stated in [`grammar`], and the tokenizer is proved to
//! follow it.

pub mod arena;
pub mod chars;
pub mod grammar;
pub mod lexer;
pub mod span;
pub mod text;
pub mod token;
