//! The decisions of the listener: how many connections it serves at once
//! and how it backs off when accepting fails.
use vstd::prelude::*;
use vstd::string::StringSliceAdditionalSpecFns;

verus! {

/// The port the server listens on unless told otherwise.
pub const DEFAULT_PORT: u16 = 6379;

/// The most connections served at once.
pub const MAX_CONNECTIONS: usize = 255;

/// The longest wait, in seconds, between two attempts to accept.
pub const MAX_BACKOFF: u64 = 64;

/// What the listener does after a failed accept that came after a wait of
/// `backoff` seconds: wait `Some(next)` seconds and try again, twice as long
/// each time, or give up with `None` once the wait would pass the ceiling.
pub fn next_backoff(backoff: u64) -> (r: Option<u64>)
    ensures
        backoff > MAX_BACKOFF ==> r is None,
        backoff <= MAX_BACKOFF ==> r == Some((backoff * 2) as u64),
{
    if backoff > MAX_BACKOFF {
        None
    } else {
        Some(backoff * 2)
    }
}

/// An unsigned number written as an optional `+` and one or more decimal
/// digits, with a value that fits in 64 bits.
pub open spec fn unsigned_text(b: Seq<u8>) -> Option<u64> {
    if b.len() > 0 && b[0] == 43u8 {
        crate::frame::line_number(b.subrange(1, b.len() as int))
    } else {
        crate::frame::line_number(b)
    }
}

/// Reads a command-line expiry given in milliseconds: an optional `+`
/// and decimal digits, as `u64`'s own parser takes them.
pub fn duration_from_ms_str(src: &str) -> (r: Option<u64>)
    ensures
        r == unsigned_text(src.spec_bytes()),
{
    let bytes = src.as_bytes();
    if bytes.len() > 0 && bytes[0] == 43u8 {
        crate::frame::parse_decimal(vstd::slice::slice_subrange(bytes, 1, bytes.len()))
    } else {
        crate::frame::parse_decimal(bytes)
    }
}

} // verus!
