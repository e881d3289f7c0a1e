//! Textual schema handling: the type tree and the message-type parser.

pub mod parser;
pub mod types;
