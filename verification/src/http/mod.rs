//! HTTP/1.1 messages.

pub mod request;
pub mod response;
