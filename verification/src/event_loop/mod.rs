//! The decisions of an event loop over sockets and pipes that never block.
//!
//! - [`epoll`]: the flags that events come with.
//! - [`registry`]: what each descriptor is.
//! - [`dispatcher`]: what to do about each event.

pub mod dispatcher;
pub mod epoll;
pub mod registry;
