//! A reader for a small, line-oriented key/value configuration format.
//!
//! Text is scanned into tokens, the tokens are parsed into a table, and a
//! credential profile can then be looked up in that table:
//!
//! ```text
//! # accounts
//! default_username = "ann"
//!
//! [[credential]]
//! username = "ann"
//! host = "example.org"
//! ```
//!
//! Every stage is specified by a function on sequences of characters or of
//! tokens (`scan`, `parse`, `lookup`), and the executable code is proved to
//! compute exactly that function. `config_deserializer::laws` holds what is
//! proved of those functions themselves.

pub mod config_deserializer;
pub mod profile;
