//! File paths and media types.

pub mod mime;
pub mod path;
