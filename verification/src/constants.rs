//! Process-wide constants of the wire protocol and its buffers.

use vstd::prelude::*;

verus! {

pub const DEFAULT_CLIENT_SIZE: usize = 1000;

pub const ASCII_LINE_FEED: u8 = 10;

pub const ASCII_CARRIAGE_RETURN: u8 = 13;

pub const ASCII_ASTERISK: u8 = 42;

pub const ASCII_BULK_STRING: u8 = 36;

pub const RESP_BUFFER_SIZE: usize = 4096;

pub const RESP_COMMAND_ARG_SIZE: usize = 100;

} // verus!
