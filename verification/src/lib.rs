//! Core of a terminal internal event source: an incremental parser driver
//! over a fixed-capacity byte buffer, a pending-event queue, and a timeout
//! tracker, composed into the decision logic behind a multiplexed
//! `try_read`-style event loop.

pub mod event;
pub mod timeout;
pub mod parse;
pub mod ansi;
pub mod driver;
pub mod buffer;
pub mod source;
pub mod laws;
