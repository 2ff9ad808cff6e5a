//! Decoding one byte at a time, with no buffer for the frame.

use crate::decode::CobsError;
use crate::model::gap;
use crate::model::unchunked;
use vstd::prelude::*;

verus! {

/// What one byte of a frame gave.
#[derive(Copy, Clone, Debug, PartialEq, Eq, Structural)]
pub enum DecodeStatus {
    /// This byte of the message.
    Append(u8),
    /// Nothing yet: the byte was taken and more are needed.
    Pending,
    /// The end of the message: the byte was the closing zero.
    Done,
}

/// A decoder that is fed a frame byte by byte. It holds how many bytes of
/// the current chunk are still to come, and whether a zero is owed once
/// another chunk opens.
///
/// It reports no error. A frame that stops early looks like one that is
/// still arriving, so whoever feeds the decoder decides when to give up.
#[derive(Copy, Clone, Debug, PartialEq, Eq, Structural)]
pub struct Decoder {
    /// Bytes of the current chunk that have not arrived yet.
    pub remaining: u8,
    /// Whether the current chunk is shorter than 254 bytes.
    pub pending_zero: bool,
}

impl Default for Decoder {
    fn default() -> (d: Self)
        ensures
            d == Decoder::fresh(),
    {
        Decoder { remaining: 0, pending_zero: false }
    }
}

impl Decoder {
    /// The decoder before the first byte of a frame.
    pub open spec fn fresh() -> Decoder {
        Decoder { remaining: 0, pending_zero: false }
    }

    /// The decoder after `byte` has been fed to it.
    pub open spec fn after(self, byte: u8) -> Decoder {
        if self.remaining > 0 {
            Decoder { remaining: (self.remaining - 1) as u8, pending_zero: self.pending_zero }
        } else if byte == 0 {
            Decoder::fresh()
        } else {
            Decoder { remaining: (byte - 1) as u8, pending_zero: byte != 255 }
        }
    }

    /// What feeding `byte` gives: inside a chunk the byte itself; at a chunk
    /// boundary the end for a zero, else the owed zero or nothing.
    pub open spec fn status(self, byte: u8) -> DecodeStatus {
        if self.remaining > 0 {
            DecodeStatus::Append(byte)
        } else if byte == 0 {
            DecodeStatus::Done
        } else if self.pending_zero {
            DecodeStatus::Append(0)
        } else {
            DecodeStatus::Pending
        }
    }

    /// The message that feeding `s` gives up to the first `Done`, or `None`
    /// where `s` ends before one.
    pub open spec fn replay(self, s: Seq<u8>) -> Option<Seq<u8>>
        decreases s.len(),
    {
        if s.len() == 0 {
            None
        } else {
            match self.status(s[0]) {
                DecodeStatus::Done => Some(Seq::empty()),
                DecodeStatus::Pending => self.after(s[0]).replay(s.skip(1)),
                DecodeStatus::Append(b) => match self.after(s[0]).replay(s.skip(1)) {
                    None => None,
                    Some(t) => Some(seq![b] + t),
                },
            }
        }
    }

    /// A decoder for the start of a frame.
    pub fn new() -> (d: Self)
        ensures
            d == Decoder::fresh(),
    {
        Decoder { remaining: 0, pending_zero: false }
    }

    /// Feeds one byte of the frame. The result is always `Ok`. After `Done`
    /// the decoder stands at the start of the next frame.
    pub fn advance(&mut self, byte: u8) -> (r: Result<DecodeStatus, CobsError>)
        ensures
            r == Ok::<DecodeStatus, CobsError>(old(self).status(byte)),
            *final(self) == old(self).after(byte),
    {
        if self.remaining > 0 {
            self.remaining -= 1;
            Ok(DecodeStatus::Append(byte))
        } else if byte == 0 {
            self.pending_zero = false;
            Ok(DecodeStatus::Done)
        } else {
            let owed = self.pending_zero;
            self.remaining = byte - 1;
            self.pending_zero = byte != 255;
            if owed {
                Ok(DecodeStatus::Append(0))
            } else {
                Ok(DecodeStatus::Pending)
            }
        }
    }
}

} // verus!
