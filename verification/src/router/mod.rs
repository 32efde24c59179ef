//! From a request to the server, the route and the handler that answer it.

pub mod handler;
pub mod matcher;
