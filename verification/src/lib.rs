//! Streaming HTTP 1.1 framing, with its parsing and encoding decisions proved.
//!
//! `client` encodes requests and decodes responses, `server` decodes requests and
//! encodes responses, `chunked` holds the chunked transfer coding. Each part is a
//! state machine over plain bytes; reading and writing sockets is left to callers.
use vstd::prelude::*;

pub mod error;
pub mod head;
pub mod chunked;
pub mod digits;
pub mod bytes;
pub mod server;
pub mod client;
pub mod body;
pub mod read_notifier;
pub mod sequenced;

verus! {

/// The maximum amount of headers parsed on the server.
pub const MAX_HEADERS: usize = 128;

/// The maximum length of a message head, in bytes.
pub const MAX_HEAD_LENGTH: usize = 8192;

} // verus!
