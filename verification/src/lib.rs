//! The non-blocking core of a line-oriented relay: readiness flags, a chunked
//! inbound buffer, shared outbound messages with per-recipient cursors, and the
//! decisions a single-threaded reactor takes on each readiness event.

pub mod epoll;
pub mod layout;
pub mod buffer;
pub mod message;
pub mod client;
pub mod reactor;
