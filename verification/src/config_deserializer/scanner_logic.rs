//! The scanner: from characters to tokens.

pub mod identifiers;
pub mod scanner;
pub mod strings;
