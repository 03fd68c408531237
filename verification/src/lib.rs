//! A message-queue service core speaking a Redis-like line-oriented wire
//! protocol (RESP).
//!
//! The crate pairs an incremental frame decoder, which reassembles protocol
//! frames from a byte stream arriving in arbitrarily sized chunks, with a
//! visibility-timeout delivery queue that tracks in-flight messages, expires
//! and redelivers them, and caps redelivery attempts. A command parser maps a
//! decoded frame into a typed command between the two.

pub mod constants;
pub mod resp;
pub mod queue;
pub mod resp_reader;
pub mod raw_cmd;
pub mod resp_buffered_reader;
pub mod server;
pub mod utils;
