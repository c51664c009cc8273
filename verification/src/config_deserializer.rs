//! The two stages that turn configuration text into a table, and the data
//! they work on.

pub mod laws;
pub mod lexer;
pub mod parser;
pub mod scanner_logic;
pub mod table;
