//! Requests: their parts, the parser of their heads, and their bodies.

pub mod body;
pub mod parser;
pub mod types;
