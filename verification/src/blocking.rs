//! Blocking: lists of domains and patterns, and the engine that holds queries against them.

pub mod engine;
pub mod parser;

pub use self::engine::BlockEngine;
pub use self::parser::ParsedList;
