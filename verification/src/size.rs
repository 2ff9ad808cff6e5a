//! Sizing of frames.

use vstd::prelude::*;

verus! {

/// The byte that ends every frame and occurs nowhere else in it.
pub const ZERO: u8 = 0;

/// Longest stretch of message bytes that one overhead byte can cover.
pub const MAX_RUN: usize = 254;

/// Length of the longest frame that a message of `raw_len` bytes can have:
/// the message, one overhead byte for every started stretch of 254 bytes (one
/// for the empty message too), and the closing zero.
pub open spec fn max_frame_len(raw_len: nat) -> nat {
    if raw_len == 0 {
        2
    } else {
        raw_len + (raw_len + 253) / 254 + 1
    }
}

/// Returns the largest possible frame length for a message of `raw_len`
/// bytes. The bound has to fit a `usize`.
pub fn max_encoded_len(raw_len: usize) -> (n: usize)
    requires
        max_frame_len(raw_len as nat) <= usize::MAX,
    ensures
        n == max_frame_len(raw_len as nat),
{
    let overhead: usize = if raw_len == 0 {
        1
    } else {
        (raw_len - 1) / 254 + 1
    };
    raw_len + overhead + 1
}

} // verus!
