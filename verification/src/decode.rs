//! Decoding of frames: from one buffer to another, and within one buffer.

use crate::block::copy_block;
use crate::block::shift_block;
use crate::model::decoded;
use crate::model::gap;
use crate::model::lemma_unchunked_step;
use crate::model::unchunked;
use crate::size::MAX_RUN;
use crate::size::ZERO;
use vstd::prelude::*;

verus! {

/// Errors that can occur while decoding.
#[derive(Copy, Clone, Debug, PartialEq, Eq, Structural)]
pub enum CobsError {
    /// The input ended inside a chunk or before a closing zero, so part of
    /// the frame is missing. (This is also what a reader sees that starts in
    /// the middle of a stream and has not yet met a zero.)
    Truncated,
}

impl CobsError {
    /// A short text for the error.
    pub fn description(&self) -> (text: &'static str)
        ensures
            text@ == "input truncated"@,
    {
        match self {
            CobsError::Truncated => "input truncated",
        }
    }
}

/// Reads an overhead byte: `None` for the closing zero, else the number of
/// bytes in the chunk that the byte opens.
pub fn decode_len(code: u8) -> (len: Option<usize>)
    ensures
        len == (if code == 0 {
            None
        } else {
            Some((code - 1) as usize)
        }),
{
    if code == ZERO {
        None
    } else {
        Some((code - 1) as usize)
    }
}

/// Decodes the frame at the start of `bytes` into `output`, from index 0 on,
/// and returns the length of the message. The frame ends at the first zero
/// that stands where an overhead byte is due; what follows it is ignored. The
/// bytes of `output` behind the message keep their values.
///
/// Fails with `Truncated` where `bytes` ends inside a chunk or without a
/// closing zero. `output` may then hold part of the message.
///
/// `output` has to be as long as `bytes` at least.
pub fn decode_buf(bytes: &[u8], output: &mut [u8]) -> (r: Result<usize, CobsError>)
    requires
        old(output)@.len() >= bytes@.len(),
    ensures
        r is Ok <==> decoded(bytes@) is Some,
        r matches Ok(n) ==> n == decoded(bytes@).unwrap().len() && n < bytes@.len()
            && final(output)@ == decoded(bytes@).unwrap() + old(output)@.skip(n as int),
        r matches Err(e) ==> e == CobsError::Truncated,
        final(output)@.len() == old(output)@.len(),
        forall|i: int|
            bytes@.len() <= i < old(output)@.len() ==> final(output)@[i] == old(output)@[i],
{
    let ghost before = output@;
    let len = bytes.len();
    let mut inpos: usize = 0;
    let mut outpos: usize = 0;
    let mut trailing_zero = false;
    proof {
        assert(bytes@.skip(0) =~= bytes@);
        match unchunked(bytes@, false) {
            None => {},
            Some(t) => {
                assert(output@.take(0) + t =~= t);
            },
        }
    }
    while inpos < len
        invariant
            len == bytes@.len(),
            before == old(output)@,
            output@.len() == before.len(),
            before.len() >= len,
            inpos <= len,
            outpos + (if trailing_zero { 1int } else { 0int }) <= inpos,
            unchunked(bytes@.skip(inpos as int), trailing_zero) is None ==> decoded(bytes@) is None,
            unchunked(bytes@.skip(inpos as int), trailing_zero) matches Some(t) ==> decoded(bytes@)
                == Some(output@.take(outpos as int) + t),
            forall|i: int| outpos <= i < before.len() ==> output@[i] == before[i],
        decreases len - inpos,
    {
        let ghost rest = bytes@.skip(inpos as int);
        let ghost done = output@.take(outpos as int);
        let head = bytes[inpos];
        assert(rest[0] == head);
        inpos += 1;
        let n = match decode_len(head) {
            Some(n) => n,
            None => {
                proof {
                    assert(done + Seq::<u8>::empty() =~= done);
                    assert(output@ =~= done + before.skip(outpos as int));
                }
                return Ok(outpos);
            },
        };
        // A chunk that was shorter than the limit stood before a zero of the
        // message, which is due now that another chunk follows.
        if trailing_zero {
            output[outpos] = ZERO;
            outpos += 1;
        }
        let ghost mid = output@;
        assert(mid.take(outpos as int) =~= done + gap(trailing_zero));
        // Nothing is copied for an empty chunk.
        if n != 0 {
            // A chunk that claims more bytes than are left is cut short.
            if len - inpos < n {
                return Err(CobsError::Truncated);
            }
            copy_block(bytes, inpos, output, outpos, n);
            inpos += n;
            outpos += n;
        }
        proof {
            let run = rest.subrange(1, 1 + n);
            assert(run =~= bytes@.subrange(inpos - n, inpos as int));
            assert(rest.skip(1 + n) =~= bytes@.skip(inpos as int));
            assert(output@.take(outpos as int) =~= mid.take(outpos - n) + run);
            assert forall|i: int| outpos <= i < before.len() implies output@[i] == before[i] by {
                assert(output@[i] == mid[i]);
            }
            lemma_unchunked_step(rest, trailing_zero, done, decoded(bytes@));
        }
        // Only a chunk shorter than the limit stands for a zero behind it.
        trailing_zero = n != MAX_RUN;
    }
    Err(CobsError::Truncated)
}

/// Decodes `bytes` and appends the message to `output`.
///
/// Fails as `decode_buf` does. `output` is then longer by the length of
/// `bytes`: it keeps what it held, and what stands behind that is part of the
/// message and filling.
///
/// The two lengths together have to fit a `usize`.
pub fn decode(bytes: &[u8], output: &mut Vec<u8>) -> (r: Result<(), CobsError>)
    requires
        old(output)@.len() + bytes@.len() <= usize::MAX,
    ensures
        r is Ok <==> decoded(bytes@) is Some,
        r is Ok ==> final(output)@ == old(output)@ + decoded(bytes@).unwrap(),
        r matches Err(e) ==> e == CobsError::Truncated && final(output)@.len() == old(output)@.len()
            + bytes@.len() && final(output)@.take(old(output)@.len() as int) == old(output)@,
{
    let ghost before = output@;
    let offset = output.len();
    output.resize(offset + bytes.len(), 0);
    let (head, tail) = output.as_mut_slice().split_at_mut(offset);
    let ghost room = tail@;
    let decoded_len = decode_buf(bytes, tail);
    proof {
        assert(head@ =~= before);
        assert((head@ + tail@).take(offset as int) =~= head@);
    }
    match decoded_len {
        Ok(actual_len) => {
            output.truncate(offset + actual_len);
            proof {
                let m = decoded(bytes@).unwrap();
                assert((before + (m + room.skip(actual_len as int))).subrange(
                    0,
                    offset + actual_len,
                ) =~= before + m);
            }
            Ok(())
        },
        Err(e) => Err(e),
    }
}

/// Decodes the frame at the start of `bytes` within `bytes`: the message
/// ends up at index 0 and its length is returned. No second buffer is needed,
/// as a message is shorter than its frame. What `bytes` holds behind the
/// message afterwards is of no use.
///
/// Fails with `Truncated` where `bytes` ends inside a chunk or without a
/// closing zero. `bytes` may then hold part of the message.
pub fn decode_in_place(bytes: &mut [u8]) -> (r: Result<usize, CobsError>)
    ensures
        r is Ok <==> decoded(old(bytes)@) is Some,
        r matches Ok(n) ==> n == decoded(old(bytes)@).unwrap().len() && n < old(bytes)@.len()
            && final(bytes)@.take(n as int) == decoded(old(bytes)@).unwrap(),
        r matches Err(e) ==> e == CobsError::Truncated,
        final(bytes)@.len() == old(bytes)@.len(),
{
    let ghost before = bytes@;
    let len = bytes.len();
    let mut inpos: usize = 0;
    let mut outpos: usize = 0;
    let mut extra_zero = false;
    proof {
        assert(before.skip(0) =~= before);
        match unchunked(before, false) {
            None => {},
            Some(t) => {
                assert(bytes@.take(0) + t =~= t);
            },
        }
    }
    while inpos < len
        invariant
            before == old(bytes)@,
            len == before.len(),
            bytes@.len() == len,
            inpos <= len,
            outpos <= inpos,
            extra_zero ==> outpos >= 1 && bytes@[outpos - 1] == 0,
            forall|i: int| inpos <= i < len ==> bytes@[i] == before[i],
            unchunked(before.skip(inpos as int), extra_zero) is None ==> decoded(before) is None,
            unchunked(before.skip(inpos as int), extra_zero) matches Some(t) ==> decoded(before)
                == Some(
                bytes@.take(outpos - (if extra_zero { 1int } else { 0int })) + t,
            ),
        decreases len - inpos,
    {
        let ghost rest = before.skip(inpos as int);
        let ghost shown: int = outpos - (if extra_zero { 1int } else { 0int });
        let ghost done = bytes@.take(shown);
        let head = bytes[inpos];
        assert(rest[0] == head);
        let n = match decode_len(head) {
            Some(n) => n,
            None => {
                proof {
                    assert(done + Seq::<u8>::empty() =~= done);
                }
                // The zero written behind the last chunk is not part of the
                // message: no chunk followed.
                return Ok(if extra_zero { outpos - 1 } else { outpos });
            },
        };
        if len - inpos - 1 < n {
            return Err(CobsError::Truncated);
        }
        let ghost mid = bytes@;
        assert(mid.take(outpos as int) =~= done + gap(extra_zero));
        shift_block(bytes, inpos + 1, outpos, n);
        proof {
            let run = rest.subrange(1, 1 + n);
            assert(run =~= mid.subrange(inpos + 1, inpos + 1 + n));
            assert(rest.skip(1 + n) =~= before.skip(inpos + 1 + n));
            assert(bytes@.take(outpos + n) =~= mid.take(outpos as int) + run);
            assert forall|i: int| inpos + 1 + n <= i < len implies bytes@[i] == before[i] by {
                assert(bytes@[i] == mid[i]);
            }
            lemma_unchunked_step(rest, extra_zero, done, decoded(before));
        }
        inpos += 1 + n;
        outpos += n;
        extra_zero = n != MAX_RUN;
        if extra_zero {
            let ghost full = bytes@;
            bytes[outpos] = ZERO;
            outpos += 1;
            assert(bytes@.take(outpos - 1) =~= full.take(outpos - 1));
        }
    }
    Err(CobsError::Truncated)
}

} // verus!
