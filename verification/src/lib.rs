//! A tokenizer for a small expansion language: the keywords `expan` and
//! `mod`, bare words, double-quoted strings, three pairs of brackets and the
//! comma.

pub mod chars;
pub mod error;
pub mod grammar;
pub mod lexer;
pub mod scan;
pub mod text;
pub mod token;

pub use crate::error::LexError;
pub use crate::lexer::{tokenize, Lexer, LexerState};
pub use crate::scan::take_while;
pub use crate::token::Token;
