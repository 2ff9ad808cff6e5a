//! What holds of the encoders and decoders together, stated over the model
//! that their contracts use.

use crate::model::after_run;
use crate::model::bulk_frame;
use crate::model::chunked;
use crate::model::decoded;
use crate::model::ends_short;
use crate::model::evenly_cut;
use crate::model::first_zero;
use crate::model::frame;
use crate::model::gap;
use crate::model::lemma_first_zero;
use crate::model::lemma_first_zero_from;
use crate::model::lemma_frame_unfold;
use crate::model::lemma_run_chunks_len;
use crate::model::lemma_stuffed_len;
use crate::model::rest_frame;
use crate::model::run_chunks;
use crate::model::run_len;
use crate::model::squeezed;
use crate::model::stuffed;
use crate::model::unchunked;
use crate::size::max_frame_len;
use crate::stepper::Decoder;
use vstd::prelude::*;

verus! {

/// Whether no byte of `s` is zero.
pub open spec fn zero_free(s: Seq<u8>) -> bool {
    forall|i: int| 0 <= i < s.len() ==> s[i] != 0
}

/// The empty chunk that scanning from the front puts behind a stretch of `k`
/// bytes that a zero ends, where the stretch is a whole number of full
/// chunks.
pub open spec fn filler(k: nat) -> Seq<u8> {
    if k > 0 && k % 254 == 0 {
        seq![1u8]
    } else {
        Seq::empty()
    }
}

/// Scanned from the front, a message without a zero gives the chunks of its
/// one stretch.
proof fn lemma_chunked_zero_free(s: Seq<u8>)
    requires
        zero_free(s),
    ensures
        chunked(s) == run_chunks(s),
    decreases s.len(),
{
    lemma_first_zero_from(s, s.len() as int);
    if s.len() <= 254 {
        assert(s.take(s.len() as int) =~= s);
    } else {
        lemma_chunked_zero_free(s.skip(254));
    }
}

/// Scanned from the front, a message with a zero gives the chunks of its
/// first stretch, the filler, and the chunks of what stands behind the zero.
proof fn lemma_chunked_at_zero(s: Seq<u8>)
    requires
        first_zero(s) < s.len(),
    ensures
        chunked(s) == run_chunks(s.take(first_zero(s) as int)) + filler(first_zero(s)) + chunked(
            s.skip(first_zero(s) as int + 1),
        ),
    decreases s.len(),
{
    lemma_first_zero(s);
    let k = first_zero(s);
    let behind = chunked(s.skip(k as int + 1));
    if k < 254 {
        assert(chunked(s) =~= run_chunks(s.take(k as int)) + filler(k) + behind);
    } else {
        let t = s.skip(254);
        assert forall|i: int| 0 <= i < k - 254 implies t[i] != 0 by {
            assert(t[i] == s[i + 254]);
        }
        lemma_first_zero_from(t, k - 254);
        assert(t.skip(k - 254 + 1) =~= s.skip(k as int + 1));
        if k == 254 {
            assert(t.take(0) =~= Seq::<u8>::empty());
            assert(s.take(254).len() == 254);
            assert(chunked(t) =~= seq![1u8] + behind);
            assert(chunked(s) =~= run_chunks(s.take(k as int)) + filler(k) + behind);
        } else {
            lemma_chunked_at_zero(t);
            assert(s.take(k as int).skip(254) =~= t.take(k - 254));
            assert(s.take(k as int).take(254) =~= s.take(254));
            assert(filler((k - 254) as nat) == filler(k));
            assert(chunked(s) =~= run_chunks(s.take(k as int)) + filler(k) + behind);
        }
    }
}

/// Cutting at zeros first gives the chunks of scanning from the front where
/// the message is evenly cut, and fewer bytes where it is not.
proof fn lemma_stuffed_chunked(s: Seq<u8>)
    ensures
        evenly_cut(s) ==> stuffed(s) == chunked(s),
        !evenly_cut(s) ==> stuffed(s).len() < chunked(s).len(),
        stuffed(s).len() <= chunked(s).len(),
    decreases s.len(),
{
    lemma_first_zero(s);
    let k = first_zero(s);
    if k >= s.len() {
        lemma_chunked_zero_free(s);
    } else {
        lemma_chunked_at_zero(s);
        lemma_stuffed_chunked(s.skip(k as int + 1));
    }
}

/// The two encoders give the same frame for the messages that are evenly
/// cut, and for no others: a stretch of one or more full chunks that a zero
/// ends gets an empty chunk behind it only when the message is scanned from
/// the front.
pub proof fn law_encoders_agree(m: Seq<u8>)
    ensures
        evenly_cut(m) <==> bulk_frame(m) == frame(m),
{
    lemma_stuffed_chunked(m);
    if !evenly_cut(m) {
        assert(bulk_frame(m).len() == stuffed(m).len() + 1);
        assert(frame(m).len() == chunked(m).len() + 1);
    }
}

/// A message without a zero is evenly cut.
pub proof fn law_zero_free_evenly_cut(m: Seq<u8>)
    requires
        zero_free(m),
    ensures
        evenly_cut(m),
{
    lemma_first_zero_from(m, m.len() as int);
}

/// No frame is longer than the bound that buffers are sized by, whichever
/// encoder wrote it, and the frame of a message without a zero is exactly
/// that long.
pub proof fn law_frame_len_bound(m: Seq<u8>)
    ensures
        frame(m).len() <= max_frame_len(m.len()),
        bulk_frame(m).len() <= max_frame_len(m.len()),
        bulk_frame(m).len() <= frame(m).len(),
        zero_free(m) ==> frame(m).len() == max_frame_len(m.len()) && bulk_frame(m).len()
            == max_frame_len(m.len()),
{
    lemma_chunked_len(m);
    lemma_stuffed_len(m);
    lemma_stuffed_chunked(m);
    if zero_free(m) {
        lemma_chunked_zero_free(m);
        lemma_first_zero_from(m, m.len() as int);
        lemma_run_chunks_len(m);
    }
}

/// Scanning from the front never gives more than the longest frame, less
/// the closing zero.
proof fn lemma_chunked_len(s: Seq<u8>)
    ensures
        chunked(s).len() + 1 <= max_frame_len(s.len()),
    decreases s.len(),
{
    lemma_first_zero(s);
    let n = run_len(s);
    if n >= s.len() {
    } else if n == 254 {
        lemma_chunked_len(s.skip(254));
    } else {
        lemma_chunked_len(s.skip(n as int + 1));
    }
}

/// Decoding the frame of `s` from a chunk boundary gives the owed zero and
/// `s`.
proof fn lemma_unchunked_frame(s: Seq<u8>, pending: bool)
    ensures
        unchunked(frame(s), pending) == Some(gap(pending) + s),
    decreases s.len(),
{
    lemma_frame_unfold(s);
    lemma_first_zero(s);
    let n = run_len(s);
    let f = frame(s);
    let behind = rest_frame(after_run(s));
    assert(f[0] == (n + 1) as u8);
    assert(f.subrange(1, 1 + n as int) =~= s.take(n as int));
    assert(f.skip(1 + n as int) =~= behind);
    if n >= s.len() {
        assert(unchunked(behind, n != 254) == Some(Seq::<u8>::empty()));
        assert(gap(pending) + s.take(n as int) + Seq::<u8>::empty() =~= gap(pending) + s);
    } else if n == 254 {
        lemma_unchunked_frame(s.skip(254), false);
        assert(gap(pending) + s.take(254) + (gap(false) + s.skip(254)) =~= gap(pending) + s);
    } else {
        lemma_unchunked_frame(s.skip(n as int + 1), true);
        assert(gap(pending) + s.take(n as int) + (gap(true) + s.skip(n as int + 1)) =~= gap(
            pending,
        ) + s);
    }
}

/// Inside a chunk the decoder hands the bytes on as they come: `s` is
/// replayed as the rest of the chunk and then what the bytes behind it give
/// from the chunk boundary on, and gives nothing where it ends inside the
/// chunk.
proof fn lemma_replay_chunk(d: Decoder, s: Seq<u8>)
    ensures
        d.remaining > s.len() ==> d.replay(s) is None,
        d.remaining <= s.len() ==> d.replay(s) == (match (Decoder {
            remaining: 0,
            pending_zero: d.pending_zero,
        }).replay(s.skip(d.remaining as int)) {
            None => None::<Seq<u8>>,
            Some(t) => Some(s.take(d.remaining as int) + t),
        }),
    decreases d.remaining,
{
    if d.remaining == 0 {
        assert(s.skip(0) =~= s);
        match d.replay(s) {
            None => {},
            Some(t) => {
                assert(s.take(0) + t =~= t);
            },
        }
    } else if s.len() > 0 {
        let e = d.after(s[0]);
        lemma_replay_chunk(e, s.skip(1));
        if d.remaining <= s.len() {
            assert(s.skip(1).skip(e.remaining as int) =~= s.skip(d.remaining as int));
            match (Decoder { remaining: 0, pending_zero: d.pending_zero }).replay(
                s.skip(d.remaining as int),
            ) {
                None => {},
                Some(t) => {
                    assert(seq![s[0]] + (s.skip(1).take(e.remaining as int) + t) =~= s.take(
                        d.remaining as int,
                    ) + t);
                },
            }
        }
    }
}

/// At a chunk boundary the decoder that is fed byte by byte gives what the
/// model gives.
proof fn lemma_replay_unchunked(s: Seq<u8>, pending: bool)
    ensures
        (Decoder { remaining: 0, pending_zero: pending }).replay(s) == unchunked(s, pending),
    decreases s.len(),
{
    let d = Decoder { remaining: 0, pending_zero: pending };
    if s.len() > 0 && s[0] != 0 {
        let n = s[0] - 1;
        let e = d.after(s[0]);
        let t = s.skip(1);
        lemma_replay_chunk(e, t);
        if s.len() - 1 >= n {
            lemma_replay_unchunked(s.skip(1 + n), n != 254);
            assert(t.skip(n) =~= s.skip(1 + n));
            assert(t.take(n) =~= s.subrange(1, 1 + n));
            match unchunked(s.skip(1 + n), n != 254) {
                None => {},
                Some(u) => {
                    assert(gap(pending) + s.subrange(1, 1 + n) + u =~= gap(pending) + (t.take(n)
                        + u));
                    if pending {
                        assert(gap(pending) + (t.take(n) + u) =~= seq![0u8] + (t.take(n) + u));
                    } else {
                        assert(gap(pending) + (t.take(n) + u) =~= t.take(n) + u);
                    }
                },
            }
        }
    }
}

/// Fed byte by byte from the start of a frame, the decoder gives the message
/// that the other decoders give, and reaches no end where they report a
/// truncated input.
pub proof fn law_replay_is_decoded(s: Seq<u8>)
    ensures
        Decoder::fresh().replay(s) == decoded(s),
{
    lemma_replay_unchunked(s, false);
}

/// Decoding the chunks of a stretch and what follows them gives the owed
/// zero, the stretch, and what the rest decodes to.
proof fn lemma_unchunked_run_chunks(run: Seq<u8>, behind: Seq<u8>, pending: bool)
    ensures
        unchunked(run_chunks(run) + behind, pending) == (match unchunked(
            behind,
            ends_short(run.len()),
        ) {
            None => None::<Seq<u8>>,
            Some(t) => Some(gap(pending) + run + t),
        }),
    decreases run.len(),
{
    let f = run_chunks(run) + behind;
    if run.len() <= 254 {
        let n = run.len() as int;
        assert(f[0] == (n + 1) as u8);
        assert(f.subrange(1, 1 + n) =~= run);
        assert(f.skip(1 + n) =~= behind);
    } else {
        let t = run.skip(254);
        lemma_unchunked_run_chunks(t, behind, false);
        assert(f[0] == 255);
        assert(f.subrange(1, 255) =~= run.take(254));
        assert(f.skip(255) =~= run_chunks(t) + behind);
        assert(ends_short(t.len()) == ends_short(run.len()));
        match unchunked(behind, ends_short(run.len())) {
            None => {},
            Some(u) => {
                assert(gap(pending) + run.take(254) + (gap(false) + t + u) =~= gap(pending) + run
                    + u);
            },
        }
    }
}

/// Decoding what the bulk encoder writes gives the owed zero and the
/// squeezed message.
proof fn lemma_unchunked_bulk_frame(s: Seq<u8>, pending: bool)
    ensures
        unchunked(bulk_frame(s), pending) == Some(gap(pending) + squeezed(s)),
    decreases s.len(),
{
    lemma_first_zero(s);
    let k = first_zero(s);
    let end = seq![0u8];
    assert(unchunked(end, ends_short(k)) == Some(Seq::<u8>::empty()));
    if k >= s.len() {
        lemma_unchunked_run_chunks(s, end, pending);
        assert(gap(pending) + s + Seq::<u8>::empty() =~= gap(pending) + s);
    } else {
        let run = s.take(k as int);
        let t = s.skip(k as int + 1);
        lemma_unchunked_run_chunks(run, bulk_frame(t), pending);
        lemma_unchunked_bulk_frame(t, ends_short(k));
        assert(bulk_frame(s) =~= run_chunks(run) + bulk_frame(t));
        assert(gap(pending) + run + (gap(ends_short(k)) + squeezed(t)) =~= gap(pending)
            + squeezed(s));
    }
}

/// Squeezing takes nothing from a message that is evenly cut, and makes any
/// other message shorter.
proof fn lemma_squeezed(s: Seq<u8>)
    ensures
        evenly_cut(s) ==> squeezed(s) == s,
        !evenly_cut(s) ==> squeezed(s).len() < s.len(),
        squeezed(s).len() <= s.len(),
    decreases s.len(),
{
    lemma_first_zero(s);
    let k = first_zero(s);
    if k < s.len() {
        let t = s.skip(k as int + 1);
        lemma_squeezed(t);
        if evenly_cut(s) {
            assert(s.take(k as int) + seq![0u8] + t =~= s);
        }
    }
}

/// The frame that the bulk encoder writes decodes to the squeezed message,
/// whichever decoder reads it. That is the message itself where it is evenly
/// cut, and a shorter one where it is not: a zero that ends a stretch of one
/// or more full chunks is lost.
pub proof fn law_bulk_round_trip(m: Seq<u8>)
    ensures
        decoded(bulk_frame(m)) == Some(squeezed(m)),
        Decoder::fresh().replay(bulk_frame(m)) == Some(squeezed(m)),
        squeezed(m) == m <==> evenly_cut(m),
{
    lemma_unchunked_bulk_frame(m, false);
    assert(gap(false) + squeezed(m) =~= squeezed(m));
    law_replay_is_decoded(bulk_frame(m));
    lemma_squeezed(m);
}

/// Every message comes back from its frame, whichever decoder reads it. The
/// frame that the bulk encoder writes gives the message back where the
/// message is evenly cut.
pub proof fn law_round_trip(m: Seq<u8>)
    ensures
        decoded(frame(m)) == Some(m),
        Decoder::fresh().replay(frame(m)) == Some(m),
        evenly_cut(m) ==> decoded(bulk_frame(m)) == Some(m) && Decoder::fresh().replay(
            bulk_frame(m),
        ) == Some(m),
{
    lemma_unchunked_frame(m, false);
    assert(gap(false) + m =~= m);
    law_replay_is_decoded(frame(m));
    law_encoders_agree(m);
}

/// The chunks of a stretch without a zero hold no zero.
proof fn lemma_run_chunks_zero_free(run: Seq<u8>)
    requires
        zero_free(run),
    ensures
        zero_free(run_chunks(run)),
    decreases run.len(),
{
    if run.len() > 254 {
        let t = run.skip(254);
        assert forall|i: int| 0 <= i < t.len() implies t[i] != 0 by {
            assert(t[i] == run[i + 254]);
        }
        lemma_run_chunks_zero_free(t);
        let c = run_chunks(run);
        assert forall|i: int| 0 <= i < c.len() implies c[i] != 0 by {
            if 1 <= i < 255 {
                assert(c[i] == run[i - 1]);
            } else if i >= 255 {
                assert(c[i] == run_chunks(t)[i - 255]);
            }
        }
    }
}

/// Scanning from the front gives chunks that hold no zero.
proof fn lemma_chunked_no_zero(s: Seq<u8>)
    ensures
        zero_free(chunked(s)),
    decreases s.len(),
{
    lemma_first_zero(s);
    let n = run_len(s);
    let head = seq![(n + 1) as u8] + s.take(n as int);
    assert(zero_free(head));
    if n >= s.len() {
    } else {
        let t = if n == 254 {
            s.skip(254)
        } else {
            s.skip(n as int + 1)
        };
        lemma_chunked_no_zero(t);
        let c = chunked(s);
        assert(c == head + chunked(t));
        assert forall|i: int| 0 <= i < c.len() implies c[i] != 0 by {
            if i < head.len() {
                assert(c[i] == head[i]);
            } else {
                assert(c[i] == chunked(t)[i - head.len()]);
            }
        }
    }
}

/// Cutting at zeros first gives chunks that hold no zero.
proof fn lemma_stuffed_no_zero(s: Seq<u8>)
    ensures
        zero_free(stuffed(s)),
    decreases s.len(),
{
    lemma_first_zero(s);
    let k = first_zero(s);
    if k >= s.len() {
        lemma_run_chunks_zero_free(s);
    } else {
        let head = run_chunks(s.take(k as int));
        let t = s.skip(k as int + 1);
        lemma_run_chunks_zero_free(s.take(k as int));
        lemma_stuffed_no_zero(t);
        let c = stuffed(s);
        assert forall|i: int| 0 <= i < c.len() implies c[i] != 0 by {
            if i < head.len() {
                assert(c[i] == head[i]);
            } else {
                assert(c[i] == stuffed(t)[i - head.len()]);
            }
        }
    }
}

/// A frame holds zero exactly once, as its last byte, whichever encoder
/// wrote it.
pub proof fn law_single_zero(m: Seq<u8>)
    ensures
        forall|i: int| 0 <= i < frame(m).len() ==> (frame(m)[i] == 0 <==> i == frame(m).len() - 1),
        forall|i: int|
            0 <= i < bulk_frame(m).len() ==> (bulk_frame(m)[i] == 0 <==> i == bulk_frame(m).len()
                - 1),
{
    lemma_chunked_no_zero(m);
    lemma_stuffed_no_zero(m);
    assert forall|i: int| 0 <= i < frame(m).len() implies (frame(m)[i] == 0 <==> i == frame(
        m,
    ).len() - 1) by {
        if i < chunked(m).len() {
            assert(frame(m)[i] == chunked(m)[i]);
        }
    }
    assert forall|i: int| 0 <= i < bulk_frame(m).len() implies (bulk_frame(m)[i] == 0 <==> i
        == bulk_frame(m).len() - 1) by {
        if i < stuffed(m).len() {
            assert(bulk_frame(m)[i] == stuffed(m)[i]);
        }
    }
}

/// An input without a zero holds no complete frame.
proof fn lemma_zero_free_truncated(s: Seq<u8>, pending: bool)
    requires
        zero_free(s),
    ensures
        unchunked(s, pending) is None,
    decreases s.len(),
{
    if s.len() > 0 {
        let n = s[0] - 1;
        if s.len() - 1 >= n {
            let t = s.skip(1 + n);
            assert forall|i: int| 0 <= i < t.len() implies t[i] != 0 by {
                assert(t[i] == s[i + 1 + n]);
            }
            lemma_zero_free_truncated(t, n != 254);
        }
    }
}

/// A frame that is cut short anywhere decodes to nothing: every decoder
/// reports a truncated input for the first `k` bytes of a frame, and the
/// decoder that is fed byte by byte reaches no end, whichever encoder wrote
/// the frame.
pub proof fn law_prefix_truncated(m: Seq<u8>, k: int)
    requires
        0 <= k,
    ensures
        k < frame(m).len() ==> decoded(frame(m).take(k)) is None && Decoder::fresh().replay(
            frame(m).take(k),
        ) is None,
        k < bulk_frame(m).len() ==> decoded(bulk_frame(m).take(k)) is None
            && Decoder::fresh().replay(bulk_frame(m).take(k)) is None,
{
    law_single_zero(m);
    if k < frame(m).len() {
        let p = frame(m).take(k);
        assert forall|i: int| 0 <= i < p.len() implies p[i] != 0 by {
            assert(p[i] == frame(m)[i]);
        }
        lemma_zero_free_truncated(p, false);
        law_replay_is_decoded(p);
    }
    if k < bulk_frame(m).len() {
        let p = bulk_frame(m).take(k);
        assert forall|i: int| 0 <= i < p.len() implies p[i] != 0 by {
            assert(p[i] == bulk_frame(m)[i]);
        }
        lemma_zero_free_truncated(p, false);
        law_replay_is_decoded(p);
    }
}

/// A message is shorter than any input that it is decoded from.
pub proof fn law_decoded_is_shorter(s: Seq<u8>)
    ensures
        decoded(s) matches Some(m) ==> m.len() < s.len(),
{
    lemma_unchunked_len(s, false);
}

/// What an input decodes to from a chunk boundary, the owed zero included,
/// is no longer than the input.
proof fn lemma_unchunked_len(s: Seq<u8>, pending: bool)
    ensures
        unchunked(s, pending) matches Some(m) ==> m.len() + 1 <= s.len() + gap(pending).len(),
    decreases s.len(),
{
    if s.len() > 0 && s[0] != 0 {
        let n = s[0] - 1;
        if s.len() - 1 >= n {
            lemma_unchunked_len(s.skip(1 + n), n != 254);
        }
    }
}

} // verus!
