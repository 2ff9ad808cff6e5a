//! Consistent Overhead Byte Stuffing with zero as the sentinel.
//!
//! A message of arbitrary bytes becomes a frame that holds zero only as its
//! last byte, so that frames can be told apart in a stream: a reader that
//! starts anywhere finds the next frame behind the next zero. The frame is a
//! series of chunks, each an overhead byte `n + 1` followed by `n` bytes of
//! the message, and a closing zero. It is longer than the message by one
//! byte for every started 254 bytes and the closing zero, at most.
//!
//! Encoding: `encode_buf` from one buffer to another, `encode_iter` byte by
//! byte. Decoding: `decode_buf` from one buffer to another,
//! `decode_in_place` within one buffer, `Decoder` byte by byte.
//!
//! Decoding finds a frame that stops early. It does not find other damage:
//! a checksum over the message is the caller's business.

pub mod block;
pub mod decode;
pub mod encode;
pub mod laws;
pub mod lazy;
pub mod model;
pub mod size;
pub mod stepper;

pub use crate::decode::decode;
pub use crate::decode::decode_buf;
pub use crate::decode::decode_in_place;
pub use crate::decode::decode_len;
pub use crate::decode::CobsError;
pub use crate::encode::encode;
pub use crate::encode::encode_buf;
pub use crate::lazy::encode_iter;
pub use crate::lazy::encode_len;
pub use crate::lazy::take_run;
pub use crate::lazy::EncodeIter;
pub use crate::lazy::EncodeState;
pub use crate::size::max_encoded_len;
pub use crate::size::MAX_RUN;
pub use crate::size::ZERO;
pub use crate::stepper::DecodeStatus;
pub use crate::stepper::Decoder;
