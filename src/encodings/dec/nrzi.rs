//! Bit-stuffing NRZI frame decoder: from envelope transitions back to bytes.
use vstd::prelude::*;

use crate::signals::am::Transition;
use crate::utils::{bytes_bit, BitVec};

verus! {

/// Why a transition sequence is not a frame.
#[derive(Debug, Clone, Copy, PartialEq, Eq, Structural)]
pub enum Error {
    /// A transition that has no place in a frame; `parse` does not return it.
    IncorrectTransition,
    /// The frame ended before its trailing run of zeros was complete.
    IncompleteFrame,
    /// The preamble edges do not alternate from a rising edge.
    IncorrectStartOfFrame,
    /// A run of zeros is longer than bit stuffing allows.
    IncorrectBitStuffingInTransitions,
}

/// How far decoding has come after some prefix of the transitions.
pub enum Progress {
    /// Within the preamble, after that many of its edges.
    Preamble(nat),
    /// Within the payload: the zeros since the last edge, and the bits so far.
    Payload(nat, Seq<bool>),
    /// The frame ended: transitions consumed, and the whole bytes of the payload.
    Done(nat, Seq<bool>),
    /// Not a frame.
    Failed(Error),
}

/// `bits` cut back to a whole number of bytes.
pub open spec fn whole_bytes(bits: Seq<bool>) -> Seq<bool> {
    bits.subrange(0, ((bits.len() / 8) * 8) as int)
}

/// The decoder's reaction to transition `t`, the `idx`-th of the input.
pub open spec fn parse_step(
    p: Progress,
    t: Transition,
    idx: nat,
    stuff_bit_after: nat,
    preamble: nat,
) -> Progress {
    match p {
        Progress::Preamble(sof) => {
            let edge_expected = if sof % 2 == 0 {
                t == Transition::Rising
            } else {
                t == Transition::Falling
            };
            if sof == 0 && t is Noise {
                Progress::Preamble(0)
            } else if edge_expected {
                if sof + 1 < preamble {
                    Progress::Preamble(sof + 1)
                } else {
                    Progress::Payload(0, Seq::empty())
                }
            } else {
                Progress::Failed(Error::IncorrectStartOfFrame)
            }
        },
        Progress::Payload(zeros, bits) => match t {
            Transition::Hold(h) => {
                if h + zeros <= stuff_bit_after {
                    Progress::Payload((zeros + h) as nat, bits + Seq::new(h as nat, |i: int| false))
                } else {
                    Progress::Failed(Error::IncorrectBitStuffingInTransitions)
                }
            },
            Transition::Noise(_) => {
                if zeros >= stuff_bit_after {
                    Progress::Done(idx + 1, whole_bytes(bits))
                } else {
                    Progress::Failed(Error::IncompleteFrame)
                }
            },
            _ => Progress::Payload(
                0,
                if zeros < stuff_bit_after {
                    bits.push(true)
                } else {
                    bits
                },
            ),
        },
        _ => p,
    }
}

/// Progress after the first `n` transitions of `frame`.
pub open spec fn parse_progress(
    frame: Seq<Transition>,
    n: nat,
    stuff_bit_after: nat,
    preamble: nat,
) -> Progress
    decreases n,
{
    if n == 0 {
        Progress::Preamble(0)
    } else {
        parse_step(
            parse_progress(frame, (n - 1) as nat, stuff_bit_after, preamble),
            frame[n - 1],
            (n - 1) as nat,
            stuff_bit_after,
            preamble,
        )
    }
}

/// Once a frame has ended or failed, later transitions change nothing.
proof fn lemma_progress_settled(
    frame: Seq<Transition>,
    i: nat,
    n: nat,
    stuff_bit_after: nat,
    preamble: nat,
)
    requires
        i <= n,
        parse_progress(frame, i, stuff_bit_after, preamble) is Done || parse_progress(
            frame,
            i,
            stuff_bit_after,
            preamble,
        ) is Failed,
    ensures
        parse_progress(frame, n, stuff_bit_after, preamble) == parse_progress(
            frame,
            i,
            stuff_bit_after,
            preamble,
        ),
    decreases n - i,
{
    if i < n {
        lemma_progress_settled(frame, i, (n - 1) as nat, stuff_bit_after, preamble);
    }
}

/// A decoded frame.
pub struct NRZI {
    stuff_bit_after: usize,
    payload: BitVec,
    frame_offset: usize,
    preamble: u8,
}

impl NRZI {
    /// The payload bits.
    pub closed spec fn spec_bits(&self) -> Seq<bool> {
        self.payload@
    }

    /// Number of transitions that the frame took up.
    pub closed spec fn spec_frame_offset(&self) -> usize {
        self.frame_offset
    }

    pub closed spec fn wf(&self) -> bool {
        self.payload.wf()
    }

    /// Decodes the frame at the start of `frame`: a rising edge (after any
    /// noise), `preamble` alternating edges in all, then payload bits until a
    /// noise transition that follows at least `bit_stuffing` zeros.
    pub fn parse(frame: &[Transition], bit_stuffing: usize, preamble: u8) -> (r: Result<Self, Error>)
        requires
            frame@.len() * (bit_stuffing + 1) < usize::MAX,
        ensures
            match parse_progress(frame@, frame@.len() as nat, bit_stuffing as nat, preamble as nat) {
                Progress::Done(offset, bits) => r matches Ok(n) && n.wf() && n.spec_bits() == bits
                    && n.spec_frame_offset() == offset,
                Progress::Failed(e) => r == Err::<Self, Error>(e),
                _ => r == Err::<Self, Error>(Error::IncompleteFrame),
            },
    {
        let mut result = BitVec::new();
        let mut zeros: usize = 0;
        let mut in_payload = false;
        let mut sof: u8 = 0;
        let mut idx: usize = 0;
        while idx < frame.len()
            invariant
                frame@.len() * (bit_stuffing + 1) < usize::MAX,
                idx <= frame@.len(),
                result.wf(),
                result@.len() <= idx * bit_stuffing,
                zeros <= bit_stuffing,
                in_payload ==> parse_progress(frame@, idx as nat, bit_stuffing as nat, preamble as nat)
                    == Progress::Payload(zeros as nat, result@),
                !in_payload ==> parse_progress(frame@, idx as nat, bit_stuffing as nat, preamble as nat)
                    == Progress::Preamble(sof as nat),
                !in_payload ==> sof <= preamble,
                !in_payload ==> result@.len() == 0,
            decreases frame@.len() - idx,
        {
            let ghost before = parse_progress(frame@, idx as nat, bit_stuffing as nat, preamble as nat);
            assert(parse_progress(frame@, (idx + 1) as nat, bit_stuffing as nat, preamble as nat)
                == parse_step(before, frame@[idx as int], idx as nat, bit_stuffing as nat, preamble as nat));
            proof {
                assert(idx * bit_stuffing + bit_stuffing < usize::MAX) by (nonlinear_arith)
                    requires
                        idx < frame@.len(),
                        frame@.len() * (bit_stuffing + 1) < usize::MAX,
                ;
            }
            let ts = frame[idx];
            if !in_payload {
                let expected = if sof % 2 == 0 {
                    matches!(ts, Transition::Rising)
                } else {
                    matches!(ts, Transition::Falling)
                };
                if sof == 0 && matches!(ts, Transition::Noise(_)) {
                } else if expected {
                    sof += 1;
                    if sof < preamble {
                    } else {
                        in_payload = true;
                        zeros = 0;
                        assert(result@ =~= Seq::<bool>::empty());
                    }
                } else {
                    proof {
                        lemma_progress_settled(frame@, (idx + 1) as nat, frame@.len() as nat, bit_stuffing as nat, preamble as nat);
                    }
                    return Err(Error::IncorrectStartOfFrame);
                }
            } else {
                match ts {
                    Transition::Hold(hold_length) => {
                        if hold_length <= bit_stuffing - zeros {
                            let ghost start = result@;
                            let mut k: usize = 0;
                            while k < hold_length
                                invariant
                                    k <= hold_length <= bit_stuffing,
                                    result.wf(),
                                    result@.len() < usize::MAX - bit_stuffing + k,
                                    result@ =~= start + Seq::new(k as nat, |i: int| false),
                                decreases hold_length - k,
                            {
                                result.push(false);
                                k = k + 1;
                            }
                            zeros = zeros + hold_length;
                        } else {
                            proof {
                                lemma_progress_settled(frame@, (idx + 1) as nat, frame@.len() as nat, bit_stuffing as nat, preamble as nat);
                            }
                            return Err(Error::IncorrectBitStuffingInTransitions);
                        }
                    },
                    Transition::Noise(_) => {
                        if zeros >= bit_stuffing {
                            result.truncate_last_incomplete_byte();
                            proof {
                                lemma_progress_settled(frame@, (idx + 1) as nat, frame@.len() as nat, bit_stuffing as nat, preamble as nat);
                            }
                            return Ok(
                                Self {
                                    stuff_bit_after: bit_stuffing,
                                    payload: result,
                                    frame_offset: idx + 1,
                                    preamble,
                                },
                            );
                        } else {
                            proof {
                                lemma_progress_settled(frame@, (idx + 1) as nat, frame@.len() as nat, bit_stuffing as nat, preamble as nat);
                            }
                            return Err(Error::IncompleteFrame);
                        }
                    },
                    _ => {
                        if zeros < bit_stuffing {
                            result.push(true);
                        }
                        zeros = 0;
                    },
                }
            }
            assert((idx + 1) * bit_stuffing == idx * bit_stuffing + bit_stuffing) by (nonlinear_arith);
            idx = idx + 1;
        }
        Err(Error::IncompleteFrame)
    }

    /// The payload bytes.
    pub fn payload(&self) -> (r: &Vec<u8>)
        requires
            self.wf(),
        ensures
            r@.len() == (self.spec_bits().len() + 7) / 8,
            forall|i: int|
                0 <= i < r@.len() * 8 ==> #[trigger] bytes_bit(r@, i) == (i < self.spec_bits().len()
                    && self.spec_bits()[i]),
    {
        self.payload.byte_vec()
    }

    /// Number of transitions that the frame took up.
    pub fn frame_offset(&self) -> (r: usize)
        ensures
            r == self.spec_frame_offset(),
    {
        self.frame_offset
    }
}

} // verus!
