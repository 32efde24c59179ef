//! Responses: their parts, the ones the server gives, and their bytes on the
//! wire.

pub mod builder;
pub mod types;
pub mod writer;
