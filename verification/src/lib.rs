//! Line-based input and output of a stream editor, and its regular expressions.
pub mod byte_engine;
pub mod captures;
pub mod chunk;
pub mod error;
pub mod fancy_engine;
pub mod laws;
pub mod lines;
pub mod literal;
pub mod matcher;
pub mod output;
pub mod pattern;
pub mod reader;
pub mod scan_laws;
pub mod syntax;
pub mod text;
