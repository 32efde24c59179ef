//! Connections, their timeouts, and the addresses to listen on.

pub mod connection;
pub mod listener;
pub mod timeout;
