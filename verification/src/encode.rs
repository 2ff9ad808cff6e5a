//! Encoding of a whole message into a buffer.

use crate::block::copy_block;
use crate::lazy::encode_len;
use crate::model::bulk_frame;
use crate::model::first_zero;
use crate::model::lemma_first_zero_from;
use crate::model::lemma_run_chunks_len;
use crate::model::lemma_stuffed_len;
use crate::model::run_chunks;
use crate::model::stuffed;
use crate::size::max_encoded_len;
use crate::size::max_frame_len;
use crate::size::MAX_RUN;
use crate::size::ZERO;
use vstd::prelude::*;

verus! {

/// What is still to be written once the chunks of the stretch up to `end`
/// are out: nothing where the stretch reached the end of the message, else
/// the chunks of what stands behind the zero at `end`.
pub open spec fn behind(s: Seq<u8>, end: int) -> Seq<u8> {
    if end >= s.len() {
        Seq::empty()
    } else {
        stuffed(s.skip(end + 1))
    }
}

/// With its first stretch ending at `end`, the chunks of `s` from `start` on
/// are those of the stretch and what is to be written behind it.
proof fn lemma_stuffed_unfold(s: Seq<u8>, start: int, end: int)
    requires
        0 <= start <= end <= s.len(),
        forall|i: int| start <= i < end ==> s[i] != 0,
        end == s.len() || s[end] == 0,
    ensures
        stuffed(s.skip(start)) == run_chunks(s.subrange(start, end)) + behind(s, end),
{
    let t = s.skip(start);
    lemma_first_zero_from(t, end - start);
    if end >= s.len() {
        assert(t =~= s.subrange(start, end));
        assert(run_chunks(t) + behind(s, end) =~= run_chunks(t));
    } else {
        assert(t.take(end - start) =~= s.subrange(start, end));
        assert(t.skip(end - start + 1) =~= s.skip(end + 1));
    }
}

/// Encodes the message `bytes` into `output`, from index 0 on, and returns the
/// number of bytes written, which is also one more than the index of the only
/// zero among them. The bytes of `output` behind the frame keep their values.
///
/// The message is cut at every zero, and each stretch between two cuts is
/// written as chunks of 254 bytes at most: an empty stretch as one empty
/// chunk, any other as its full chunks and, where bytes are left over, one
/// shorter chunk.
///
/// `output` has to hold `max_encoded_len(bytes.len())` bytes at least.
pub fn encode_buf(bytes: &[u8], output: &mut [u8]) -> (n: usize)
    requires
        old(output)@.len() >= max_frame_len(bytes@.len()),
    ensures
        n == bulk_frame(bytes@).len(),
        n <= max_frame_len(bytes@.len()),
        final(output)@ == bulk_frame(bytes@) + old(output)@.skip(n as int),
{
    let ghost before = output@;
    let ghost whole = stuffed(bytes@);
    let len = bytes.len();
    let out_len = output.len();
    let mut inpos: usize = 0;
    let mut outpos: usize = 0;
    proof {
        lemma_stuffed_len(bytes@);
        assert(bytes@.skip(0) =~= bytes@);
        assert(output@.take(0) + whole =~= whole);
    }
    // One round for each stretch between two zeros.
    loop
        invariant_except_break
            output@.take(outpos as int) + stuffed(bytes@.skip(inpos as int)) == whole,
        invariant
            len == bytes@.len(),
            out_len == before.len(),
            output@.len() == before.len(),
            whole == stuffed(bytes@),
            whole.len() + 1 <= out_len,
            inpos <= len,
            outpos <= out_len,
            forall|i: int| outpos <= i < out_len ==> output@[i] == before[i],
        ensures
            len == bytes@.len(),
            out_len == before.len(),
            output@.len() == before.len(),
            outpos < out_len,
            output@.take(outpos as int) == whole,
            forall|i: int| outpos <= i < out_len ==> output@[i] == before[i],
        decreases len - inpos,
    {
        let mut end: usize = inpos;
        while end < len && bytes[end] != ZERO
            invariant
                len == bytes@.len(),
                inpos <= end <= len,
                forall|i: int| inpos <= i < end ==> bytes@[i] != 0,
            decreases len - end,
        {
            end += 1;
        }
        proof {
            lemma_stuffed_unfold(bytes@, inpos as int, end as int);
        }
        // A stretch of more than 254 bytes takes several chunks. An empty
        // stretch still takes one, so the test stands at the end.
        loop
            invariant_except_break
                output@.take(outpos as int) + run_chunks(bytes@.subrange(inpos as int, end as int))
                    + behind(bytes@, end as int) == whole,
            invariant
                len == bytes@.len(),
                out_len == before.len(),
                output@.len() == before.len(),
                whole.len() + 1 <= out_len,
                inpos <= end <= len,
                outpos <= out_len,
                forall|i: int| outpos <= i < out_len ==> output@[i] == before[i],
            ensures
                inpos == end,
                outpos <= out_len,
                output@.len() == before.len(),
                output@.take(outpos as int) + behind(bytes@, end as int) == whole,
                forall|i: int| outpos <= i < out_len ==> output@[i] == before[i],
            decreases end - inpos,
        {
            let ghost run = bytes@.subrange(inpos as int, end as int);
            let ghost done = output@.take(outpos as int);
            let chunk_len: usize = if end - inpos < MAX_RUN {
                end - inpos
            } else {
                MAX_RUN
            };
            proof {
                lemma_run_chunks_len(run);
                assert((done + run_chunks(run) + behind(bytes@, end as int)).len() == outpos
                    + run_chunks(run).len() + behind(bytes@, end as int).len());
            }
            let code = encode_len(chunk_len);
            output[outpos] = code;
            copy_block(bytes, inpos, output, outpos + 1, chunk_len);
            proof {
                let chunk = bytes@.subrange(inpos as int, inpos + chunk_len);
                assert(chunk =~= run.take(chunk_len as int));
                assert(output@.take(outpos + 1 + chunk_len) =~= done + seq![code] + chunk);
                assert(run.skip(chunk_len as int) =~= bytes@.subrange(
                    inpos + chunk_len,
                    end as int,
                ));
                if run.len() <= 254 {
                    assert(chunk =~= run);
                    assert(done + run_chunks(run) + behind(bytes@, end as int) =~= (done + seq![
                        code,
                    ] + chunk) + behind(bytes@, end as int));
                } else {
                    assert(done + run_chunks(run) + behind(bytes@, end as int) =~= (done + seq![
                        code,
                    ] + chunk) + run_chunks(run.skip(254)) + behind(bytes@, end as int));
                }
            }
            outpos += chunk_len + 1;
            inpos += chunk_len;
            if inpos == end {
                break ;
            }
        }
        if end == len {
            proof {
                assert(output@.take(outpos as int) + behind(bytes@, end as int)
                    =~= output@.take(outpos as int));
            }
            break ;
        }
        inpos = end + 1;
    }
    // The closing zero stands behind the last chunk.
    output[outpos] = ZERO;
    proof {
        assert(output@ =~= (whole + seq![0u8]) + before.skip(outpos + 1));
    }
    outpos + 1
}

/// Encodes `bytes` as `encode_buf` does and appends the frame to `output`.
///
/// The length of `output` and the longest frame of the message together have
/// to fit a `usize`.
pub fn encode(bytes: &[u8], output: &mut Vec<u8>)
    requires
        old(output)@.len() + max_frame_len(bytes@.len()) <= usize::MAX,
    ensures
        final(output)@ == old(output)@ + bulk_frame(bytes@),
{
    let ghost before = output@;
    let offset = output.len();
    // Room for the longest frame, cut back to what was used.
    output.resize(offset + max_encoded_len(bytes.len()), 0);
    let (head, tail) = output.as_mut_slice().split_at_mut(offset);
    let ghost room = tail@;
    let actual_len = encode_buf(bytes, tail);
    proof {
        assert(head@ =~= before);
    }
    output.truncate(offset + actual_len);
    proof {
        assert((before + (bulk_frame(bytes@) + room.skip(actual_len as int))).subrange(
            0,
            offset + actual_len,
        ) =~= before + bulk_frame(bytes@));
    }
}

} // verus!
