//! The mathematical model: what a frame is and what it decodes to, over
//! sequences of bytes.

use crate::size::max_frame_len;
use vstd::prelude::*;

verus! {

/// Index of the first zero in `s`, or the length of `s` where it holds none.
pub open spec fn first_zero(s: Seq<u8>) -> nat
    decreases s.len(),
{
    if s.len() == 0 || s[0] == 0 {
        0
    } else {
        1 + first_zero(s.skip(1))
    }
}

/// Length of the chunk that starts a message: the bytes before its first
/// zero, 254 of them at most.
pub open spec fn run_len(s: Seq<u8>) -> nat {
    if first_zero(s) < 254 {
        first_zero(s)
    } else {
        254
    }
}

/// What is left of the message once its first chunk has been taken: nothing
/// (`None`) where the chunk reached the end, else the bytes behind it, without
/// the zero that a chunk of fewer than 254 bytes stands for.
pub open spec fn after_run(s: Seq<u8>) -> Option<Seq<u8>> {
    let n = run_len(s);
    if n >= s.len() {
        None
    } else if n == 254 {
        Some(s.skip(254))
    } else {
        Some(s.skip(n as int + 1))
    }
}

/// The chunks of a message, scanned from the front: an overhead byte and the
/// bytes it covers, then the chunks of what is left.
pub open spec fn chunked(s: Seq<u8>) -> Seq<u8>
    decreases s.len(),
{
    let n = run_len(s);
    let head = seq![(n + 1) as u8] + s.take(n as int);
    if n >= s.len() {
        head
    } else if n == 254 {
        head + chunked(s.skip(254))
    } else {
        head + chunked(s.skip(n as int + 1))
    }
}

/// The frame of a message: its chunks and the closing zero.
pub open spec fn frame(s: Seq<u8>) -> Seq<u8> {
    chunked(s) + seq![0u8]
}

/// The chunks of one stretch of bytes, cut every 254 bytes. A stretch of
/// exactly 254 bytes is one full chunk, with nothing behind it.
pub open spec fn run_chunks(run: Seq<u8>) -> Seq<u8>
    decreases run.len(),
{
    if run.len() <= 254 {
        seq![(run.len() + 1) as u8] + run
    } else {
        seq![255u8] + run.take(254) + run_chunks(run.skip(254))
    }
}

/// The chunks of a message that is first cut at every zero, each stretch
/// between two cuts then chunked by itself.
pub open spec fn stuffed(s: Seq<u8>) -> Seq<u8>
    decreases s.len(),
{
    let k = first_zero(s);
    if k >= s.len() {
        run_chunks(s)
    } else {
        run_chunks(s.take(k as int)) + stuffed(s.skip(k as int + 1))
    }
}

/// What the bulk encoder writes: the stretches between zeros, chunked one by
/// one, and the closing zero.
pub open spec fn bulk_frame(s: Seq<u8>) -> Seq<u8> {
    stuffed(s) + seq![0u8]
}

/// Whether cutting at zeros first and scanning from the front give the same
/// chunks: no stretch that a zero ends is a whole number (one or more) of
/// full chunks.
pub open spec fn evenly_cut(s: Seq<u8>) -> bool
    decreases s.len(),
{
    let k = first_zero(s);
    k >= s.len() || (ends_short(k) && evenly_cut(s.skip(k as int + 1)))
}

/// The zero that stands between two chunks, where the first was short.
pub open spec fn gap(pending: bool) -> Seq<u8> {
    if pending {
        seq![0u8]
    } else {
        Seq::empty()
    }
}

/// Decodes `s` from a chunk boundary on. `pending` says that the chunk before
/// was shorter than 254 bytes, so that a zero is owed if another chunk
/// follows. `None` where `s` ends inside a chunk or before a closing zero.
pub open spec fn unchunked(s: Seq<u8>, pending: bool) -> Option<Seq<u8>>
    decreases s.len(),
{
    if s.len() == 0 {
        None
    } else if s[0] == 0 {
        Some(Seq::empty())
    } else {
        let n = s[0] - 1;
        if s.len() - 1 < n {
            None
        } else {
            match unchunked(s.skip(1 + n), n != 254) {
                None => None,
                Some(t) => Some(gap(pending) + s.subrange(1, 1 + n) + t),
            }
        }
    }
}

/// The message that a frame holds, or `None` where the input is truncated.
/// Bytes behind the closing zero are not looked at.
pub open spec fn decoded(s: Seq<u8>) -> Option<Seq<u8>> {
    unchunked(s, false)
}

/// Whether a stretch of `k` bytes ends in a chunk of fewer than 254 bytes,
/// the empty stretch included: only such a chunk stands for a zero behind it.
pub open spec fn ends_short(k: nat) -> bool {
    k == 0 || k % 254 != 0
}

/// The message without the zeros that end a stretch of one or more full
/// chunks: what is left of it in the frame that the bulk encoder writes.
pub open spec fn squeezed(s: Seq<u8>) -> Seq<u8>
    decreases s.len(),
{
    let k = first_zero(s);
    if k >= s.len() {
        s
    } else {
        s.take(k as int) + gap(ends_short(k)) + squeezed(s.skip(k as int + 1))
    }
}

/// What follows a chunk in the frame: the frame of what is left of the
/// message, or the closing zero alone where nothing is left.
pub open spec fn rest_frame(rest: Option<Seq<u8>>) -> Seq<u8> {
    match rest {
        None => seq![0u8],
        Some(r) => frame(r),
    }
}

/// `first_zero` is within the sequence, no byte before it is zero, and the
/// byte at it is zero where there is one.
pub proof fn lemma_first_zero(s: Seq<u8>)
    ensures
        first_zero(s) <= s.len(),
        forall|i: int| 0 <= i < first_zero(s) ==> s[i] != 0,
        first_zero(s) < s.len() ==> s[first_zero(s) as int] == 0,
    decreases s.len(),
{
    if s.len() != 0 && s[0] != 0 {
        let t = s.skip(1);
        lemma_first_zero(t);
        assert forall|i: int| 0 <= i < first_zero(s) implies s[i] != 0 by {
            if i > 0 {
                assert(s[i] == t[i - 1]);
            }
        }
        if first_zero(s) < s.len() {
            assert(s[first_zero(s) as int] == t[first_zero(t) as int]);
        }
    }
}

/// `first_zero` is no less than the length of any zero-free prefix.
pub proof fn lemma_first_zero_from(s: Seq<u8>, k: int)
    requires
        0 <= k <= s.len(),
        forall|i: int| 0 <= i < k ==> s[i] != 0,
    ensures
        first_zero(s) >= k,
        k == s.len() || s[k] == 0 ==> first_zero(s) == k,
    decreases k,
{
    if k > 0 {
        let t = s.skip(1);
        assert forall|i: int| 0 <= i < k - 1 implies t[i] != 0 by {
            assert(t[i] == s[i + 1]);
        }
        lemma_first_zero_from(t, k - 1);
    }
}

/// A frame is the overhead byte of its first chunk, the chunk's bytes, and what
/// follows the chunk.
pub proof fn lemma_frame_unfold(s: Seq<u8>)
    ensures
        run_len(s) <= 254,
        run_len(s) <= s.len(),
        frame(s) == seq![(run_len(s) + 1) as u8] + s.take(run_len(s) as int) + rest_frame(
            after_run(s),
        ),
{
    lemma_first_zero(s);
    let n = run_len(s);
    let head = seq![(n + 1) as u8] + s.take(n as int);
    if n >= s.len() {
        assert(frame(s) =~= head + seq![0u8]);
    } else if n == 254 {
        assert(frame(s) =~= head + (chunked(s.skip(254)) + seq![0u8]));
    } else {
        assert(frame(s) =~= head + (chunked(s.skip(n as int + 1)) + seq![0u8]));
    }
}

/// The chunks of a stretch are its bytes and one overhead byte for every
/// started 254 of them, one for the empty stretch too.
pub proof fn lemma_run_chunks_len(run: Seq<u8>)
    ensures
        run_chunks(run).len() + 1 == max_frame_len(run.len()),
    decreases run.len(),
{
    if run.len() > 254 {
        lemma_run_chunks_len(run.skip(254));
    }
}

/// Cutting at zeros first never gives more than the longest frame, less the
/// closing zero.
pub proof fn lemma_stuffed_len(s: Seq<u8>)
    ensures
        stuffed(s).len() + 1 <= max_frame_len(s.len()),
    decreases s.len(),
{
    lemma_first_zero(s);
    let k = first_zero(s);
    if k >= s.len() {
        lemma_run_chunks_len(s);
    } else {
        lemma_run_chunks_len(s.take(k as int));
        lemma_stuffed_len(s.skip(k as int + 1));
    }
}

/// One step of decoding: where `whole` is `done` followed by what `s` decodes
/// to, and `s` starts with a complete chunk, `whole` is `done`, the owed zero
/// and the chunk's bytes, followed by what the rest of `s` decodes to.
pub proof fn lemma_unchunked_step(s: Seq<u8>, pending: bool, done: Seq<u8>, whole: Option<Seq<u8>>)
    requires
        s.len() > 0,
        s[0] != 0,
        s[0] <= s.len(),
        unchunked(s, pending) is None ==> whole is None,
        unchunked(s, pending) matches Some(t) ==> whole == Some(done + t),
    ensures
        unchunked(s.skip(s[0] as int), s[0] != 255) is None ==> whole is None,
        unchunked(s.skip(s[0] as int), s[0] != 255) matches Some(t) ==> whole == Some(
            done + gap(pending) + s.subrange(1, s[0] as int) + t,
        ),
{
    let n = s[0] - 1;
    assert(s.skip(1 + n) == s.skip(s[0] as int));
    match unchunked(s.skip(1 + n), n != 254) {
        None => {},
        Some(t) => {
            assert(done + (gap(pending) + s.subrange(1, 1 + n) + t) =~= done + gap(pending)
                + s.subrange(1, s[0] as int) + t);
        },
    }
}

} // verus!
