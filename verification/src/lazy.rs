//! Encoding one byte at a time, with no buffer for the frame.

use crate::model::after_run;
use crate::model::frame;
use crate::model::lemma_first_zero;
use crate::model::lemma_first_zero_from;
use crate::model::lemma_frame_unfold;
use crate::model::rest_frame;
use crate::model::run_len;
use crate::size::MAX_RUN;
use crate::size::ZERO;
use vstd::prelude::*;

verus! {

/// The bytes of a part of the message that may be absent.
pub open spec fn some_bytes(rest: Option<&[u8]>) -> Option<Seq<u8>> {
    match rest {
        None => None,
        Some(r) => Some(r@),
    }
}

/// Writes the length of a chunk, 254 at most, as an overhead byte, which is
/// never zero.
pub fn encode_len(len: usize) -> (code: u8)
    requires
        len <= MAX_RUN,
    ensures
        code == len + 1,
{
    (len + 1) as u8
}

/// Takes the first chunk off the front of `bytes`: up to 254 bytes, none of
/// them zero.
///
/// Returns the chunk and what is left to encode: `None` where the chunk
/// reached the end of `bytes`, else the bytes behind it, without the zero
/// that ended the chunk. What is left may be empty, where `bytes` ends in
/// that zero, and still stands for a chunk.
pub fn take_run(bytes: &[u8]) -> (r: (&[u8], Option<&[u8]>))
    ensures
        r.0@ == bytes@.take(run_len(bytes@) as int),
        some_bytes(r.1) == after_run(bytes@),
{
    let len = bytes.len();
    let max_len: usize = if len < MAX_RUN {
        len
    } else {
        MAX_RUN
    };
    let mut run_len: usize = 0;
    while run_len < max_len && bytes[run_len] != ZERO
        invariant
            run_len <= max_len <= len,
            len == bytes@.len(),
            forall|i: int| 0 <= i < run_len ==> bytes@[i] != 0,
        decreases max_len - run_len,
    {
        run_len += 1;
    }
    proof {
        lemma_first_zero(bytes@);
        lemma_first_zero_from(bytes@, run_len as int);
    }
    let (run, rest) = bytes.split_at(run_len);
    let rest = if rest.is_empty() {
        None
    } else if run_len == MAX_RUN {
        // A full chunk stands for no zero: a zero behind it is still to be
        // encoded.
        Some(rest)
    } else {
        let (_, tail) = rest.split_at(1);
        proof {
            assert(tail@ =~= bytes@.skip(run_len + 1));
        }
        Some(tail)
    };
    proof {
        assert(run@ =~= bytes@.take(run_len as int));
        assert(bytes@.subrange(run_len as int, len as int) =~= bytes@.skip(run_len as int));
    }
    (run, rest)
}

/// Where an encoding stands.
#[derive(Copy, Clone, Debug)]
pub enum EncodeState<'a> {
    /// At a chunk boundary, with these bytes of the message left: the next
    /// byte is an overhead byte.
    Begin(&'a [u8]),
    /// Inside a chunk: the next byte is this one, then come the other bytes
    /// of the chunk, then what is left of the message, if anything.
    Run(u8, &'a [u8], Option<&'a [u8]>),
    /// The message is used up: the next byte is the closing zero.
    End,
}

impl<'a> EncodeState<'a> {
    /// The bytes that are still to come from this state on.
    pub open spec fn pending(self) -> Seq<u8> {
        match self {
            EncodeState::Begin(bytes) => frame(bytes@),
            EncodeState::Run(b, run, rest) => seq![b] + run@ + rest_frame(some_bytes(rest)),
            EncodeState::End => seq![0u8],
        }
    }

    /// Gives the next byte of the frame and the state behind it, `None` once
    /// the closing zero has been given.
    pub fn next(self) -> (r: (u8, Option<Self>))
        ensures
            self.pending() == seq![r.0] + (match r.1 {
                Some(s) => s.pending(),
                None => Seq::empty(),
            }),
            r.1 is None <==> self is End,
    {
        match self {
            EncodeState::Begin(bytes) => {
                let (run, rest) = take_run(bytes);
                proof {
                    lemma_frame_unfold(bytes@);
                }
                let b = encode_len(run.len());
                (b, Some(Self::next_run_state(run, rest)))
            },
            EncodeState::Run(b, run, rest) => (b, Some(Self::next_run_state(run, rest))),
            EncodeState::End => {
                assert(seq![0u8] + Seq::<u8>::empty() =~= seq![0u8]);
                (ZERO, None)
            },
        }
    }

    /// The state in which the bytes of `run` are to come, then what `rest`
    /// stands for.
    pub fn next_run_state(run: &'a [u8], rest: Option<&'a [u8]>) -> (s: Self)
        ensures
            s.pending() == run@ + rest_frame(some_bytes(rest)),
    {
        if run.len() > 0 {
            // The chunk has bytes left, which go out before anything else.
            let (first, others) = run.split_at(1);
            proof {
                assert(run@ =~= seq![run@[0]] + others@);
            }
            EncodeState::Run(first[0], others, rest)
        } else {
            proof {
                assert(run@ + rest_frame(some_bytes(rest)) =~= rest_frame(some_bytes(rest)));
            }
            Self::new_run_state(rest)
        }
    }

    /// The state in which what `rest` stands for is to come: another chunk,
    /// or the closing zero where nothing is left.
    pub fn new_run_state(rest: Option<&'a [u8]>) -> (s: Self)
        ensures
            s.pending() == rest_frame(some_bytes(rest)),
    {
        match rest {
            Some(r) => EncodeState::Begin(r),
            None => EncodeState::End,
        }
    }
}

/// The frame of a message, handed out byte by byte.
pub struct EncodeIter<'a> {
    state: Option<EncodeState<'a>>,
}

impl<'a> View for EncodeIter<'a> {
    type V = Seq<u8>;

    /// The bytes that are still to come.
    closed spec fn view(&self) -> Seq<u8> {
        match self.state {
            Some(s) => s.pending(),
            None => Seq::empty(),
        }
    }
}

impl<'a> EncodeIter<'a> {
    /// Gives the next byte of the frame, `None` once the closing zero has
    /// been given.
    pub fn next(&mut self) -> (b: Option<u8>)
        ensures
            old(self)@.len() == 0 ==> b is None && final(self)@ == old(self)@,
            old(self)@.len() > 0 ==> b == Some(old(self)@[0]) && final(self)@ == old(self)@.skip(
                1,
            ),
    {
        match self.state {
            None => None,
            Some(s) => {
                let (b, behind) = s.next();
                self.state = behind;
                proof {
                    assert(self@ =~= s.pending().skip(1));
                }
                Some(b)
            },
        }
    }

    /// Gives all the bytes that are still to come.
    pub fn collect(self) -> (v: Vec<u8>)
        ensures
            v@ == self@,
    {
        let mut it = self;
        let mut v: Vec<u8> = Vec::new();
        loop
            invariant
                v@ + it@ == self@,
            ensures
                v@ == self@,
            decreases it@.len(),
        {
            match it.next() {
                Some(b) => {
                    proof {
                        assert(v@.push(b) + it@ =~= v@ + (seq![b] + it@));
                    }
                    v.push(b);
                },
                None => {
                    proof {
                        assert(v@ + it@ =~= v@);
                    }
                    break ;
                },
            }
        }
        v
    }
}

/// Encodes `bytes` as a frame whose bytes are handed out one at a time. This
/// needs no room for the frame, and is much slower than `encode_buf`.
pub fn encode_iter(bytes: &[u8]) -> (it: EncodeIter<'_>)
    ensures
        it@ == frame(bytes@),
{
    EncodeIter { state: Some(EncodeState::Begin(bytes)) }
}

} // verus!
