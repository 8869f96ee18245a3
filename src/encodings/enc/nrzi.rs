//! Bit-stuffing NRZI frame encoder.
//!
//! A frame is a preamble of `StartOfFrame` symbols, the payload bits most
//! significant bit first with a `StuffBit` after every `stuff_bit_after`
//! zeros in a row, and a trailer of `stuff_bit_after + 2` `EndOfFrame` symbols.
use vstd::prelude::*;

use crate::encodings::nrzi::Value;
use crate::utils::bytes_bit;

verus! {

/// The bits of `payload`, most significant bit of each byte first.
pub open spec fn payload_bits(payload: Seq<u8>) -> Seq<bool> {
    Seq::new(payload.len() * 8, |i: int| bytes_bit(payload, i))
}

/// Number of preamble symbols: a frame always starts with at least one.
pub open spec fn preamble_len(preamble: nat) -> nat {
    if preamble == 0 {
        1
    } else {
        preamble
    }
}

/// Preamble symbols from index `from` on.
pub open spec fn preamble_symbols(from: nat, preamble: nat) -> Seq<Value> {
    Seq::new(
        (preamble_len(preamble) - from) as nat,
        |i: int| Value::StartOfFrame((from + i) as u8),
    )
}

/// Payload symbols for `bits`, when the last `zeros` bits sent were zeros.
pub open spec fn stuffed(bits: Seq<bool>, stuff_bit_after: nat, zeros: nat) -> Seq<Value>
    decreases bits.len(), if zeros >= stuff_bit_after {
        1int
    } else {
        0int
    },
{
    if bits.len() == 0 {
        Seq::empty()
    } else if zeros >= stuff_bit_after {
        if stuff_bit_after == 0 {
            Seq::empty()
        } else {
            seq![Value::StuffBit] + stuffed(bits, stuff_bit_after, 0)
        }
    } else {
        seq![Value::Bit(bits[0])] + stuffed(
            bits.drop_first(),
            stuff_bit_after,
            if bits[0] {
                0
            } else {
                zeros + 1
            },
        )
    }
}

/// Trailer symbols from index `from` on, then `Complete`.
pub open spec fn trailer(from: nat, stuff_bit_after: nat) -> Seq<Value> {
    Seq::new(
        (stuff_bit_after + 2 - from) as nat,
        |i: int| Value::EndOfFrame((from + i) as u8),
    ).push(Value::Complete)
}

/// Every symbol the encoder yields for a frame, ending with `Complete`.
pub open spec fn frame(payload: Seq<u8>, stuff_bit_after: nat, preamble: nat) -> Seq<Value> {
    preamble_symbols(0, preamble) + stuffed(payload_bits(payload), stuff_bit_after, 0) + trailer(
        0,
        stuff_bit_after,
    )
}

proof fn lemma_stuffed_no_complete(bits: Seq<bool>, stuff_bit_after: nat, zeros: nat)
    ensures
        forall|i: int|
            0 <= i < stuffed(bits, stuff_bit_after, zeros).len() ==> !(#[trigger] stuffed(
                bits,
                stuff_bit_after,
                zeros,
            )[i] is Complete),
    decreases bits.len(), if zeros >= stuff_bit_after {
        1int
    } else {
        0int
    },
{
    if bits.len() == 0 {
    } else if zeros >= stuff_bit_after {
        if stuff_bit_after > 0 {
            lemma_stuffed_no_complete(bits, stuff_bit_after, 0);
        }
    } else {
        lemma_stuffed_no_complete(
            bits.drop_first(),
            stuff_bit_after,
            if bits[0] {
                0
            } else {
                zeros + 1
            },
        );
    }
}

/// The `n` symbols from index `i` on are all zero bits.
pub open spec fn zero_run(symbols: Seq<Value>, i: int, n: int) -> bool {
    &&& 0 <= i
    &&& i + n <= symbols.len()
    &&& forall|k: int| 0 <= k < n ==> #[trigger] symbols[i + k] == Value::Bit(false)
}

proof fn lemma_zero_run_shift(a: Seq<Value>, b: Seq<Value>, d: int, i: int, n: int)
    requires
        zero_run(a, i, n),
        n >= 1,
        d <= i,
        forall|j: int| d <= j < a.len() ==> #[trigger] a[j] == b[j - d],
        a.len() - d <= b.len(),
    ensures
        zero_run(b, i - d, n),
{
    assert forall|k: int| 0 <= k < n implies #[trigger] b[i - d + k] == Value::Bit(false) by {
        assert(a[i + k] == Value::Bit(false));
    }
}

proof fn lemma_stuffed_zero_runs(bits: Seq<bool>, stuff_bit_after: nat, zeros: nat)
    requires
        stuff_bit_after >= 1,
        zeros <= stuff_bit_after,
    ensures
        forall|i: int, n: int|
            #[trigger] zero_run(stuffed(bits, stuff_bit_after, zeros), i, n) ==> n <= stuff_bit_after
                - if i == 0 {
                zeros as int
            } else {
                0
            },
    decreases bits.len(), if zeros >= stuff_bit_after {
        1int
    } else {
        0int
    },
{
    let st = stuffed(bits, stuff_bit_after, zeros);
    if bits.len() == 0 {
    } else if zeros >= stuff_bit_after {
        let t = stuffed(bits, stuff_bit_after, 0);
        lemma_stuffed_zero_runs(bits, stuff_bit_after, 0);
        assert(st == seq![Value::StuffBit] + t);
        assert forall|i: int, n: int| #[trigger] zero_run(st, i, n) implies n <= stuff_bit_after
            - if i == 0 {
            zeros as int
        } else {
            0
        } by {
            if n >= 1 {
                if i == 0 {
                    assert(st[i + 0] == Value::Bit(false));
                } else {
                    lemma_zero_run_shift(st, t, 1, i, n);
                    assert(zero_run(t, i - 1, n));
                }
            }
        }
    } else {
        let z2: nat = if bits[0] {
            0
        } else {
            zeros + 1
        };
        let t = stuffed(bits.drop_first(), stuff_bit_after, z2);
        lemma_stuffed_zero_runs(bits.drop_first(), stuff_bit_after, z2);
        assert(st == seq![Value::Bit(bits[0])] + t);
        assert forall|i: int, n: int| #[trigger] zero_run(st, i, n) implies n <= stuff_bit_after
            - if i == 0 {
            zeros as int
        } else {
            0
        } by {
            if n >= 2 && i == 0 {
                assert(st[i + 0] == Value::Bit(false));
                assert(!bits[0]);
                assert forall|k: int| 0 <= k < n - 1 implies #[trigger] t[0 + k] == Value::Bit(
                    false,
                ) by {
                    assert(st[0 + (k + 1)] == Value::Bit(false));
                }
                assert(zero_run(t, 0, n - 1));
            } else if n >= 1 && i >= 1 {
                lemma_zero_run_shift(st, t, 1, i, n);
                assert(zero_run(t, i - 1, n));
            }
        }
    }
}

/// No frame holds more than `stuff_bit_after` zero bits in a row.
pub proof fn lemma_frame_zero_runs(payload: Seq<u8>, stuff_bit_after: nat, preamble: nat)
    requires
        stuff_bit_after >= 1,
    ensures
        forall|i: int, n: int|
            #[trigger] zero_run(frame(payload, stuff_bit_after, preamble), i, n) ==> n
                <= stuff_bit_after,
{
    let a = preamble_symbols(0, preamble);
    let b = stuffed(payload_bits(payload), stuff_bit_after, 0);
    let c = trailer(0, stuff_bit_after);
    let f = frame(payload, stuff_bit_after, preamble);
    let m = (a.len() + b.len()) as int;
    lemma_stuffed_zero_runs(payload_bits(payload), stuff_bit_after, 0);
    assert forall|i: int, n: int| #[trigger] zero_run(f, i, n) implies n <= stuff_bit_after by {
        if n >= 1 {
            assert(f[i + 0] == Value::Bit(false));
            assert(f[i + (n - 1)] == Value::Bit(false));
            if i < a.len() {
                assert(f[i] == a[i]);
            }
            if i + n - 1 >= a.len() + b.len() {
                assert(f[i + n - 1] == c[i + n - 1 - a.len() - b.len()]);
            }
            assert forall|j: int| a.len() <= j < a.len() + b.len() implies #[trigger] f.subrange(0, m)[j] == b[j - a.len()] by {}
            lemma_zero_run_shift_prefix(f, m, i, n);
            lemma_zero_run_shift(f.subrange(0, m), b, a.len() as int, i, n);
        }
    }
}

proof fn lemma_zero_run_shift_prefix(f: Seq<Value>, m: int, i: int, n: int)
    requires
        zero_run(f, i, n),
        0 <= m <= f.len(),
        i + n <= m,
    ensures
        zero_run(f.subrange(0, m), i, n),
{
    assert forall|k: int| 0 <= k < n implies #[trigger] f.subrange(0, m)[i + k] == Value::Bit(
        false,
    ) by {
        assert(f[i + k] == Value::Bit(false));
    }
}

#[derive(Clone, Copy)]
enum StateMachine {
    BeginOfFrame,
    Payload,
    EndOfFrame,
    Complete,
}

/// What to encode.
#[derive(Clone)]
pub struct Parameters {
    payload: Vec<u8>,
    stuff_bit_after: u8,
    preamble: u8,
}

impl Parameters {
    pub closed spec fn spec_payload(&self) -> Seq<u8> {
        self.payload@
    }

    pub closed spec fn spec_stuff_bit_after(&self) -> u8 {
        self.stuff_bit_after
    }

    pub closed spec fn spec_preamble(&self) -> u8 {
        self.preamble
    }

    /// A stuff bit follows every `stuff_bit_after` zeros; the trailer's
    /// indices, up to `stuff_bit_after + 1`, and the count past them fit in a byte.
    pub open spec fn wf(&self) -> bool {
        1 <= self.spec_stuff_bit_after() <= 253
    }

    pub fn new(payload: Vec<u8>, stuff_bit_after: u8, preamble: u8) -> (r: Self)
        ensures
            r.spec_payload() == payload@,
            r.spec_stuff_bit_after() == stuff_bit_after,
            r.spec_preamble() == preamble,
    {
        Self { payload, stuff_bit_after, preamble }
    }
}

struct State {
    payload_offset: usize,
    current_bit_offset: u8,
    contigous_zeros: u8,
    preamble: u8,
    sm: StateMachine,
}

impl State {
    fn init() -> (r: Self)
        ensures
            r.payload_offset == 0,
            r.current_bit_offset == 0,
            r.contigous_zeros == 0,
            r.preamble == 0,
            r.sm is BeginOfFrame,
    {
        Self {
            payload_offset: 0,
            current_bit_offset: 0,
            contigous_zeros: 0,
            sm: StateMachine::BeginOfFrame,
            preamble: 0,
        }
    }
}

/// Encoder that yields the symbols of one frame.
pub struct NRZI {
    c: Parameters,
    m: State,
}

impl NRZI {
    spec fn bit_index(&self) -> int {
        self.m.payload_offset * 8 + self.m.current_bit_offset
    }

    /// The symbols still to come, ending with `Complete`.
    pub closed spec fn remaining(&self) -> Seq<Value> {
        let s = self.c.stuff_bit_after as nat;
        let bits = payload_bits(self.c.payload@);
        match self.m.sm {
            StateMachine::BeginOfFrame => preamble_symbols(self.m.preamble as nat, self.c.preamble as nat)
                + stuffed(bits, s, 0) + trailer(0, s),
            StateMachine::Payload => stuffed(
                bits.subrange(self.bit_index(), bits.len() as int),
                s,
                self.m.contigous_zeros as nat,
            ) + trailer(0, s),
            StateMachine::EndOfFrame => trailer(self.m.contigous_zeros as nat, s),
            StateMachine::Complete => seq![Value::Complete],
        }
    }

    pub closed spec fn wf(&self) -> bool {
        &&& self.c.wf()
        &&& self.c.payload@.len() * 8 < usize::MAX
        &&& self.m.current_bit_offset < 8
        &&& match self.m.sm {
            StateMachine::BeginOfFrame => {
                &&& self.m.preamble < preamble_len(self.c.preamble as nat)
                &&& self.m.payload_offset == 0
                &&& self.m.current_bit_offset == 0
                &&& self.m.contigous_zeros == 0
            },
            StateMachine::Payload => {
                &&& self.m.payload_offset < self.c.payload@.len()
                &&& self.m.contigous_zeros <= self.c.stuff_bit_after
            },
            StateMachine::EndOfFrame => self.m.contigous_zeros <= self.c.stuff_bit_after + 1,
            StateMachine::Complete => true,
        }
    }

    pub fn new(c: Parameters) -> (r: Self)
        requires
            c.wf(),
            c.spec_payload().len() * 8 < usize::MAX,
        ensures
            r.wf(),
            r.remaining() == frame(
                c.spec_payload(),
                c.spec_stuff_bit_after() as nat,
                c.spec_preamble() as nat,
            ),
    {
        Self { c, m: State::init() }
    }

    /// What remains always ends with `Complete`, and holds it nowhere else.
    pub proof fn lemma_remaining_shape(&self)
        requires
            self.wf(),
        ensures
            self.remaining().len() >= 1,
            self.remaining().last() == Value::Complete,
            forall|i: int|
                0 <= i < self.remaining().len() - 1 ==> !(#[trigger] self.remaining()[i] is Complete),
    {
        let s = self.c.stuff_bit_after as nat;
        let bits = payload_bits(self.c.payload@);
        let r = self.remaining();
        match self.m.sm {
            StateMachine::BeginOfFrame => {
                let a = preamble_symbols(self.m.preamble as nat, self.c.preamble as nat);
                let b = stuffed(bits, s, 0);
                let c = trailer(0, s);
                lemma_stuffed_no_complete(bits, s, 0);
                assert(r == a + b + c);
                assert forall|i: int| 0 <= i < r.len() - 1 implies !(#[trigger] r[i] is Complete) by {
                    if i < a.len() {
                        assert(r[i] == a[i]);
                    } else if i < a.len() + b.len() {
                        assert(r[i] == b[i - a.len()]);
                    } else {
                        assert(r[i] == c[i - a.len() - b.len()]);
                    }
                }
            },
            StateMachine::Payload => {
                let rest = bits.subrange(self.bit_index(), bits.len() as int);
                let b = stuffed(rest, s, self.m.contigous_zeros as nat);
                let c = trailer(0, s);
                lemma_stuffed_no_complete(rest, s, self.m.contigous_zeros as nat);
                assert forall|i: int| 0 <= i < r.len() - 1 implies !(#[trigger] r[i] is Complete) by {
                    if i < b.len() {
                        assert(r[i] == b[i]);
                    } else {
                        assert(r[i] == c[i - b.len()]);
                    }
                }
            },
            StateMachine::EndOfFrame => {},
            StateMachine::Complete => {},
        }
    }

    /// The symbol at the head of what remains.
    pub fn current(&self) -> (r: Value)
        requires
            self.wf(),
        ensures
            r == self.remaining()[0],
            r is Complete ==> self.remaining() == seq![Value::Complete],
    {
        proof {
            self.lemma_remaining_shape();
            if self.remaining()[0] is Complete {
                assert(self.remaining() =~= seq![Value::Complete]);
            }
        }
        let ghost s = self.c.stuff_bit_after as nat;
        let ghost bits = payload_bits(self.c.payload@);
        match self.m.sm {
            StateMachine::BeginOfFrame => Value::StartOfFrame(self.m.preamble),
            StateMachine::Payload => {
                proof {
                    let rest = bits.subrange(self.bit_index(), bits.len() as int);
                    assert(rest.len() > 0);
                    assert(rest[0] == bits[self.bit_index()]);
                }
                if !self.stuffing() {
                    Value::Bit(self.current_bit())
                } else {
                    Value::StuffBit
                }
            },
            StateMachine::EndOfFrame => Value::EndOfFrame(self.m.contigous_zeros),
            StateMachine::Complete => Value::Complete,
        }
    }

    /// Moves past the head symbol; once `Complete` is reached it stays.
    pub fn advance(&mut self)
        requires
            old(self).wf(),
        ensures
            final(self).wf(),
            final(self).remaining() == if old(self).remaining().len() > 1 {
                old(self).remaining().drop_first()
            } else {
                old(self).remaining()
            },
            old(self).remaining()[0] is Complete ==> final(self).remaining() == seq![Value::Complete],
    {
        proof {
            self.lemma_remaining_shape();
            if self.remaining()[0] is Complete {
                assert(self.remaining() =~= seq![Value::Complete]);
            }
        }
        let ghost s = self.c.stuff_bit_after as nat;
        let ghost bits = payload_bits(self.c.payload@);
        let ghost before = self.remaining();
        let sm = self.m.sm;
        match sm {
            StateMachine::BeginOfFrame => {
                self.m.preamble += 1;
                if self.m.preamble < self.c.preamble {
                    self.m.sm = StateMachine::BeginOfFrame;
                    assert(self.remaining() =~= before.drop_first());
                } else if self.c.payload.len() == 0 {
                    self.m.contigous_zeros = 0;
                    self.m.sm = StateMachine::EndOfFrame;
                    assert(bits.len() == 0);
                    assert(self.remaining() =~= before.drop_first());
                } else {
                    self.m.sm = StateMachine::Payload;
                    assert(bits.subrange(0, bits.len() as int) =~= bits);
                    assert(self.remaining() =~= before.drop_first());
                }
            },
            StateMachine::Payload => {
                let ghost k = self.bit_index();
                let ghost rest = bits.subrange(k, bits.len() as int);
                let last_bit = self.current_bit();
                if !self.stuffing() {
                    if !last_bit {
                        self.m.contigous_zeros += 1;
                    } else {
                        self.m.contigous_zeros = 0;
                    }
                    self.advance_bit();
                    assert(rest.drop_first() =~= bits.subrange(k + 1, bits.len() as int));
                } else {
                    self.m.contigous_zeros = 0;
                }
                if !self.is_end_of_frame() {
                    self.m.sm = StateMachine::Payload;
                    assert(self.remaining() =~= before.drop_first());
                } else {
                    self.m.contigous_zeros = 0;
                    self.m.sm = StateMachine::EndOfFrame;
                    assert(self.remaining() =~= before.drop_first());
                }
            },
            StateMachine::EndOfFrame => {
                self.m.contigous_zeros += 1;
                if self.m.contigous_zeros > self.c.stuff_bit_after + 1 {
                    self.m.sm = StateMachine::Complete;
                } else {
                    self.m.sm = StateMachine::EndOfFrame;
                }
                assert(self.remaining() =~= before.drop_first());
            },
            StateMachine::Complete => {
                self.m.sm = StateMachine::Complete;
            },
        }
    }

    /// The head symbol, moving past it; `None` once the frame is complete.
    pub fn next(&mut self) -> (r: Option<Value>)
        requires
            old(self).wf(),
        ensures
            final(self).wf(),
            r == if old(self).remaining()[0] is Complete {
                None
            } else {
                Some(old(self).remaining()[0])
            },
            final(self).remaining() == if old(self).remaining().len() > 1 {
                old(self).remaining().drop_first()
            } else {
                old(self).remaining()
            },
            old(self).remaining()[0] is Complete ==> final(self).remaining() == seq![Value::Complete],
    {
        let result = self.current();
        self.advance();
        match result {
            Value::Complete => None,
            value => Some(value),
        }
    }

    /// Every symbol still to come, without the final `Complete`.
    pub fn values(self) -> (r: Vec<Value>)
        requires
            self.wf(),
        ensures
            r@ == self.remaining().drop_last(),
    {
        let mut nrzi = self;
        let mut out: Vec<Value> = Vec::new();
        proof {
            nrzi.lemma_remaining_shape();
        }
        loop
            invariant
                nrzi.wf(),
                nrzi.remaining().len() >= 1,
                out@ + nrzi.remaining().drop_last() == self.remaining().drop_last(),
            decreases nrzi.remaining().len(),
        {
            proof {
                nrzi.lemma_remaining_shape();
            }
            let ghost before = nrzi.remaining();
            match nrzi.next() {
                Some(v) => {
                    assert(before.len() > 1);
                    out.push(v);
                    assert(out@ + nrzi.remaining().drop_last() =~= self.remaining().drop_last()) by {
                        assert(before.drop_last() =~= seq![v] + before.drop_first().drop_last());
                    }
                },
                None => {
                    assert(before.len() == 1);
                    assert(before.drop_last() =~= Seq::<Value>::empty());
                    assert(out@ =~= self.remaining().drop_last());
                    return out;
                },
            }
        }
    }

    fn advance_bit(&mut self)
        requires
            old(self).m.current_bit_offset < 8,
            old(self).m.payload_offset < old(self).c.payload@.len(),
            old(self).c.payload@.len() * 8 < usize::MAX,
        ensures
            final(self).c == old(self).c,
            final(self).m.sm == old(self).m.sm,
            final(self).m.contigous_zeros == old(self).m.contigous_zeros,
            final(self).m.preamble == old(self).m.preamble,
            final(self).m.current_bit_offset < 8,
            final(self).bit_index() == old(self).bit_index() + 1,
            final(self).m.payload_offset <= old(self).c.payload@.len(),
            final(self).m.payload_offset == old(self).c.payload@.len() ==> final(self).m.current_bit_offset == 0,
    {
        if self.m.current_bit_offset < 7 {
            self.m.current_bit_offset += 1
        } else {
            self.m.current_bit_offset = 0;
            self.m.payload_offset += 1;
        }
    }

    fn current_bit(&self) -> (r: bool)
        requires
            self.m.current_bit_offset < 8,
            self.m.payload_offset < self.c.payload@.len(),
        ensures
            r == payload_bits(self.c.payload@)[self.bit_index()],
    {
        let byte = self.c.payload[self.m.payload_offset];
        let r = crate::utils::BitVec::read_bit(byte, self.m.current_bit_offset);
        proof {
            let i = self.bit_index();
            assert(i / 8 == self.m.payload_offset as int);
            assert(i % 8 == self.m.current_bit_offset as int);
        }
        r
    }

    fn stuffing(&self) -> (r: bool)
        ensures
            r == (self.m.contigous_zeros >= self.c.stuff_bit_after),
    {
        self.m.contigous_zeros >= self.c.stuff_bit_after
    }

    fn is_end_of_frame(&self) -> (r: bool)
        ensures
            r == (self.m.payload_offset >= self.c.payload@.len()),
    {
        self.m.payload_offset >= self.c.payload.len()
    }
}

} // verus!
