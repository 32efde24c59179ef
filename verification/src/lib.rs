//! An event-driven HTTP/1.1 server: everything it decides, proved.

pub mod cgi;
pub mod config;
pub mod event_loop;
pub mod handlers;
pub mod http;
pub mod router;
pub mod server;
pub mod session;
pub mod string_map;
pub mod text;
pub mod utils;
