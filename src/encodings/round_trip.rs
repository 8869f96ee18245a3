//! Encoding a payload, reading the frame's transitions off the envelope, and
//! decoding them gives the payload back.
use vstd::prelude::*;

use crate::encodings::dec::nrzi::{parse_progress, parse_step, whole_bytes, Progress};
use crate::encodings::enc::nrzi::{
    frame,
    payload_bits,
    preamble_len,
    preamble_symbols,
    stuffed,
    trailer,
};
use crate::encodings::nrzi::Value;
use crate::signals::am::Transition;
use crate::signals::enc::am::utils::{
    close,
    convert_prefix,
    convert_step,
    edge_step,
    hold_step,
    transitions_of,
    trailing_hold,
    with_hold,
    Conversion,
};
use crate::signals::BinaryLevel;
use crate::utils::{byte_bit, bytes_bit};

verus! {

/// Decoder progress over all of `ts`.
pub open spec fn decoded(ts: Seq<Transition>, s: nat, pre: nat) -> Progress {
    parse_progress(ts, ts.len(), s, pre)
}

/// `n` zero bits.
pub open spec fn zeros(n: nat) -> Seq<bool> {
    Seq::new(n, |i: int| false)
}

proof fn lemma_progress_prefix(a: Seq<Transition>, b: Seq<Transition>, n: nat, s: nat, pre: nat)
    requires
        n <= a.len(),
        n <= b.len(),
        a.subrange(0, n as int) == b.subrange(0, n as int),
    ensures
        parse_progress(a, n, s, pre) == parse_progress(b, n, s, pre),
    decreases n,
{
    if n > 0 {
        assert(a.subrange(0, n - 1) =~= a.subrange(0, n as int).subrange(0, n - 1));
        assert(b.subrange(0, n - 1) =~= b.subrange(0, n as int).subrange(0, n - 1));
        assert(a[n - 1] == a.subrange(0, n as int)[n - 1]);
        assert(b[n - 1] == b.subrange(0, n as int)[n - 1]);
        lemma_progress_prefix(a, b, (n - 1) as nat, s, pre);
    }
}

proof fn lemma_decoded_push(ts: Seq<Transition>, t: Transition, s: nat, pre: nat)
    ensures
        decoded(ts.push(t), s, pre) == parse_step(decoded(ts, s, pre), t, ts.len(), s, pre),
{
    let a = ts.push(t);
    assert(a.subrange(0, ts.len() as int) =~= ts.subrange(0, ts.len() as int));
    lemma_progress_prefix(a, ts, ts.len(), s, pre);
    assert(a[ts.len() as int] == t);
}

/// The decoder has read the bits `b` of a payload, the last `z` of them zeros
/// that stand as one hold at the end of `ts`.
pub open spec fn in_payload(ts: Seq<Transition>, z: nat, b: Seq<bool>, s: nat, pre: nat) -> bool {
    &&& decoded(ts, s, pre) == Progress::Payload(z, b)
    &&& z <= s
    &&& z <= 8
    &&& ts.len() > 0
    &&& z == 0 ==> !(ts.last() is Hold) && !(ts.last() is Noise)
    &&& z > 0 ==> {
        &&& ts.last() == Transition::Hold(z as usize)
        &&& z <= b.len()
        &&& decoded(ts.drop_last(), s, pre) == Progress::Payload(0, b.subrange(0, b.len() - z))
        &&& b.subrange(b.len() - z, b.len() as int) == zeros(z)
    }
}

proof fn lemma_edge(ts: Seq<Transition>, z: nat, b: Seq<bool>, t: Transition, s: nat, pre: nat)
    requires
        in_payload(ts, z, b, s, pre),
        t == Transition::Rising || t == Transition::Falling,
    ensures
        in_payload(
            ts.push(t),
            0,
            if z < s {
                b.push(true)
            } else {
                b
            },
            s,
            pre,
        ),
        trailing_hold(ts) == z,
{
    lemma_decoded_push(ts, t, s, pre);
}

proof fn lemma_hold(ts: Seq<Transition>, z: nat, b: Seq<bool>, s: nat, pre: nat)
    requires
        in_payload(ts, z, b, s, pre),
        z < s,
        z < 8,
    ensures
        in_payload(with_hold(ts), z + 1, b.push(false), s, pre),
        trailing_hold(ts) == z,
{
    let nb = b.push(false);
    if z == 0 {
        assert(with_hold(ts) == ts.push(Transition::Hold(1)));
        lemma_decoded_push(ts, Transition::Hold(1), s, pre);
        assert(b + Seq::new(1nat, |i: int| false) =~= nb);
        assert(ts.push(Transition::Hold(1)).drop_last() =~= ts);
        assert(nb.subrange(0, nb.len() - 1) =~= b);
        assert(nb.subrange(nb.len() - 1, nb.len() as int) =~= zeros(1));
    } else {
        let base = ts.drop_last();
        let b0 = b.subrange(0, b.len() - z);
        let nts = base.push(Transition::Hold((z + 1) as usize));
        assert(with_hold(ts) == nts);
        lemma_decoded_push(base, Transition::Hold((z + 1) as usize), s, pre);
        assert(b =~= b0 + zeros(z)) by {
            assert(b =~= b.subrange(0, b.len() - z) + b.subrange(b.len() - z, b.len() as int));
        }
        assert(b0 + Seq::new((z + 1) as nat, |i: int| false) =~= nb);
        assert(nts.drop_last() =~= base);
        assert(nb.subrange(0, nb.len() - (z + 1)) =~= b0);
        assert(nb.subrange(nb.len() - (z + 1), nb.len() as int) =~= zeros(z + 1));
    }
}

proof fn lemma_close(ts: Seq<Transition>, z: nat, b: Seq<bool>, s: nat, pre: nat)
    requires
        in_payload(ts, z, b, s, pre),
        z >= s,
    ensures
        decoded(ts.push(Transition::Noise(1)), s, pre) == Progress::Done(
            ts.len() + 1,
            whole_bytes(b),
        ),
        trailing_hold(ts) == z,
{
    lemma_decoded_push(ts, Transition::Noise(1), s, pre);
}

/// Conversion and decoding over the preamble: after `i` start-of-frame
/// symbols the envelope has alternated `i` times.
proof fn lemma_preamble(v: Seq<Value>, i: nat, s: nat, pre: nat)
    requires
        i <= preamble_len(pre),
        i <= v.len(),
        forall|k: int| 0 <= k < i ==> #[trigger] v[k] is StartOfFrame,
    ensures
        convert_prefix(v, i, s) == Conversion::Running(
            if i % 2 == 0 {
                BinaryLevel::Low
            } else {
                BinaryLevel::High
            },
            Seq::new(i, |k: int| if k % 2 == 0 {
                Transition::Rising
            } else {
                Transition::Falling
            }),
        ),
        decoded(
            Seq::new(i, |k: int| if k % 2 == 0 {
                Transition::Rising
            } else {
                Transition::Falling
            }),
            s,
            pre,
        ) == if i < pre || i == 0 {
            Progress::Preamble(i)
        } else {
            Progress::Payload(0, Seq::<bool>::empty())
        },
    decreases i,
{
    let alt = |n: nat| Seq::new(n, |k: int| if k % 2 == 0 {
        Transition::Rising
    } else {
        Transition::Falling
    });
    if i > 0 {
        let j = (i - 1) as nat;
        lemma_preamble(v, j, s, pre);
        assert(alt(i) =~= alt(j).push(if j % 2 == 0 {
            Transition::Rising
        } else {
            Transition::Falling
        }));
        lemma_decoded_push(
            alt(j),
            if j % 2 == 0 {
                Transition::Rising
            } else {
                Transition::Falling
            },
            s,
            pre,
        );
        assert(v[j as int] is StartOfFrame);
        let lj = if j % 2 == 0 {
            BinaryLevel::Low
        } else {
            BinaryLevel::High
        };
        assert(convert_prefix(v, i, s) == convert_step(convert_prefix(v, j, s), v[j as int], s));
        assert(convert_prefix(v, i, s) == edge_step(lj, alt(j)));
        assert(lj.spec_transition() == if j % 2 == 0 {
            Transition::Rising
        } else {
            Transition::Falling
        });
        assert(lj.spec_neg() == if i % 2 == 0 {
            BinaryLevel::Low
        } else {
            BinaryLevel::High
        });
    } else {
        assert(alt(0) =~= Seq::<Transition>::empty());
    }
}

/// Conversion and decoding over the payload symbols `stuffed(bits, s, z)`
/// found in `v` from index `n` on.
proof fn lemma_payload(
    v: Seq<Value>,
    n: nat,
    bits: Seq<bool>,
    z: nat,
    level: BinaryLevel,
    ts: Seq<Transition>,
    b: Seq<bool>,
    s: nat,
    pre: nat,
) -> (res: (BinaryLevel, Seq<Transition>, nat))
    requires
        1 <= s <= 8,
        convert_prefix(v, n, s) == Conversion::Running(level, ts),
        in_payload(ts, z, b, s, pre),
        n + stuffed(bits, s, z).len() <= v.len(),
        forall|k: int|
            0 <= k < stuffed(bits, s, z).len() ==> #[trigger] v[n + k] == stuffed(bits, s, z)[k],
    ensures
        convert_prefix(v, n + stuffed(bits, s, z).len(), s) == Conversion::Running(res.0, res.1),
        in_payload(res.1, res.2, b + bits, s, pre),
    decreases bits.len(), if z >= s {
        1int
    } else {
        0int
    },
{
    let st = stuffed(bits, s, z);
    if bits.len() == 0 {
        assert(b + bits =~= b);
        (level, ts, z)
    } else if z >= s {
        let rest = stuffed(bits, s, 0);
        assert(st == seq![Value::StuffBit] + rest);
        assert(v[n as int + 0] == st[0]);
        let t = level.spec_transition();
        lemma_edge(ts, z, b, t, s, pre);
        assert(convert_prefix(v, n + 1, s) == edge_step(level, ts));
        assert forall|k: int| 0 <= k < rest.len() implies #[trigger] v[(n + 1) + k] == rest[k] by {
            assert(v[n + (k + 1)] == st[k + 1]);
        }
        lemma_payload(v, n + 1, bits, 0, level.spec_neg(), ts.push(t), b, s, pre)
    } else {
        let bit = bits[0];
        let z2: nat = if bit {
            0
        } else {
            z + 1
        };
        let rest = stuffed(bits.drop_first(), s, z2);
        assert(st == seq![Value::Bit(bit)] + rest);
        assert(v[n as int + 0] == st[0]);
        assert forall|k: int| 0 <= k < rest.len() implies #[trigger] v[(n + 1) + k] == rest[k] by {
            assert(v[n + (k + 1)] == st[k + 1]);
        }
        assert(b + bits =~= b.push(bit) + bits.drop_first());
        if bit {
            let t = level.spec_transition();
            lemma_edge(ts, z, b, t, s, pre);
            assert(convert_prefix(v, n + 1, s) == edge_step(level, ts));
            lemma_payload(v, n + 1, bits.drop_first(), 0, level.spec_neg(), ts.push(t), b.push(true), s, pre)
        } else {
            lemma_hold(ts, z, b, s, pre);
            assert(convert_prefix(v, n + 1, s) == hold_step(level, ts, s));
            lemma_payload(v, n + 1, bits.drop_first(), z + 1, level, with_hold(ts), b.push(false), s, pre)
        }
    }
}

/// Conversion and decoding over `c` idle trailer symbols at the low level.
proof fn lemma_idle(
    v: Seq<Value>,
    n: nat,
    c: nat,
    ts: Seq<Transition>,
    z: nat,
    b: Seq<bool>,
    s: nat,
    pre: nat,
) -> (res: Seq<Transition>)
    requires
        1 <= s <= 8,
        z + c <= s,
        convert_prefix(v, n, s) == Conversion::Running(BinaryLevel::Low, ts),
        in_payload(ts, z, b, s, pre),
        n + c <= v.len(),
        forall|k: int|
            0 <= k < c ==> (#[trigger] v[n + k] is EndOfFrame && v[n + k]->EndOfFrame_0 != 0),
    ensures
        convert_prefix(v, n + c, s) == Conversion::Running(BinaryLevel::Low, res),
        in_payload(res, z + c, b + zeros(c), s, pre),
    decreases c,
{
    if c == 0 {
        assert(b + zeros(0) =~= b);
        ts
    } else {
        assert(v[n as int + 0] is EndOfFrame && v[n as int + 0]->EndOfFrame_0 != 0);
        lemma_hold(ts, z, b, s, pre);
        assert(convert_prefix(v, n + 1, s) == hold_step(BinaryLevel::Low, ts, s));
        assert forall|k: int| 0 <= k < c - 1 implies (#[trigger] v[(n + 1) + k] is EndOfFrame
            && v[(n + 1) + k]->EndOfFrame_0 != 0) by {
            assert(v[n + (k + 1)] is EndOfFrame && v[n + (k + 1)]->EndOfFrame_0 != 0);
        }
        assert(b.push(false) + zeros((c - 1) as nat) =~= b + zeros(c));
        lemma_idle(v, n + 1, (c - 1) as nat, with_hold(ts), z + 1, b.push(false), s, pre)
    }
}

proof fn lemma_conversion_settled(v: Seq<Value>, i: nat, n: nat, s: nat)
    requires
        i <= n,
        !(convert_prefix(v, i, s) is Running),
    ensures
        convert_prefix(v, n, s) == convert_prefix(v, i, s),
    decreases n - i,
{
    if i < n {
        lemma_conversion_settled(v, i, (n - 1) as nat, s);
    }
}

proof fn lemma_whole_bytes_of_extended(p: Seq<bool>, extra: Seq<bool>)
    requires
        p.len() % 8 == 0,
        extra.len() < 8,
    ensures
        whole_bytes(p + extra) == p,
{
    let x = p + extra;
    assert((x.len() / 8) * 8 == p.len()) by {
        vstd::arithmetic::div_mod::lemma_fundamental_div_mod(p.len() as int, 8);
        vstd::arithmetic::div_mod::lemma_fundamental_div_mod_converse(
            x.len() as int,
            8,
            (p.len() / 8) as int,
            extra.len() as int,
        );
    }
    assert(whole_bytes(x) =~= p);
}

/// A frame's symbols, read as envelope transitions, decode to the payload's
/// bits; the decoder stops at the transition that ends the frame. This holds
/// for every payload and preamble when at most five zeros go before a stuff
/// bit: the trailer then adds fewer than eight bits, which the decoder drops.
pub proof fn lemma_round_trip(payload: Seq<u8>, stuff_bit_after: nat, preamble: nat)
    requires
        1 <= stuff_bit_after <= 5,
        preamble < 256,
    ensures
        transitions_of(frame(payload, stuff_bit_after, preamble).drop_last(), stuff_bit_after) matches Ok(
            ts,
        ) && decoded(ts, stuff_bit_after, preamble) == Progress::Done(
            ts.len(),
            payload_bits(payload),
        ),
{
    let s = stuff_bit_after;
    let pre = preamble;
    let bits = payload_bits(payload);
    let a = preamble_symbols(0, pre);
    let bs = stuffed(bits, s, 0);
    let c = trailer(0, s);
    let f = frame(payload, s, pre);
    let v = f.drop_last();
    let la = a.len();
    let lb = bs.len();
    assert(f == a + bs + c);
    assert(v.len() == la + lb + s + 2);
    assert forall|k: int| 0 <= k < la implies #[trigger] v[k] is StartOfFrame by {
        assert(v[k] == a[k]);
    }
    assert forall|k: int| 0 <= k < lb implies #[trigger] v[la + k] == bs[k] by {
        assert(v[la + k] == f[la + k]);
    }
    assert forall|k: int| 0 <= k < s + 2 implies #[trigger] v[la + lb + k] == Value::EndOfFrame(
        k as u8,
    ) by {
        assert(v[la + lb + k] == f[la + lb + k]);
        assert(f[la + lb + k] == c[k]);
    }
    // Preamble.
    lemma_preamble(v, la, s, pre);
    let alt = Seq::new(la, |k: int| if k % 2 == 0 {
        Transition::Rising
    } else {
        Transition::Falling
    });
    let level0 = if la % 2 == 0 {
        BinaryLevel::Low
    } else {
        BinaryLevel::High
    };
    assert(in_payload(alt, 0, Seq::<bool>::empty(), s, pre));
    // Payload.
    let (level1, ts1, z1) = lemma_payload(v, la, bits, 0, level0, alt, Seq::<bool>::empty(), s, pre);
    assert(Seq::<bool>::empty() + bits =~= bits);
    let m = la + lb;
    // The first trailer symbol is an edge.
    let e0 = level1.spec_transition();
    assert(v[la + lb + 0int] == Value::EndOfFrame(0));
    assert(convert_prefix(v, m + 1, s) == edge_step(level1, ts1));
    lemma_edge(ts1, z1, bits, e0, s, pre);
    let bits_one_edge = if z1 < s {
        bits.push(true)
    } else {
        bits
    };
    let ts2 = ts1.push(e0);
    assert(bits.len() % 8 == 0);
    if level1 == BinaryLevel::Low {
        // High after the first edge: a falling edge, then `s` idle symbols.
        assert(v[la + lb + 1int] == Value::EndOfFrame(1));
        assert(convert_prefix(v, m + 2, s) == edge_step(BinaryLevel::High, ts2));
        lemma_edge(ts2, 0, bits_one_edge, Transition::Falling, s, pre);
        let ts3 = ts2.push(Transition::Falling);
        let bits_two_edges = bits_one_edge.push(true);
        assert forall|k: int| 0 <= k < s implies (#[trigger] v[(m + 2) + k] is EndOfFrame && v[(m
            + 2) + k]->EndOfFrame_0 != 0) by {
            assert(v[la + lb + (k + 2)] == Value::EndOfFrame((k + 2) as u8));
        }
        let ts4 = lemma_idle(v, m + 2, s, ts3, 0, bits_two_edges, s, pre);
        assert(m + 2 + s == v.len());
        lemma_close(ts4, s, bits_two_edges + zeros(s), s, pre);
        let extra = if z1 < s {
            seq![true, true] + zeros(s)
        } else {
            seq![true] + zeros(s)
        };
        assert(bits_two_edges + zeros(s) =~= bits + extra);
        lemma_whole_bytes_of_extended(bits, extra);
    } else {
        // Low after the first edge: `s + 1` idle symbols, the last of which
        // is one too many.
        assert forall|k: int| 0 <= k < s + 1 implies (#[trigger] v[(m + 1) + k] is EndOfFrame
            && v[(m + 1) + k]->EndOfFrame_0 != 0) by {
            assert(v[la + lb + (k + 1)] == Value::EndOfFrame((k + 1) as u8));
        }
        let ts4 = lemma_idle(v, m + 1, s, ts2, 0, bits_one_edge, s, pre);
        lemma_close(ts4, s, bits_one_edge + zeros(s), s, pre);
        assert(v[(m + 1 + s) as int] is EndOfFrame && v[(m + 1 + s) as int]->EndOfFrame_0 != 0) by {
            assert(v[(m + 1) + (s as int)] is EndOfFrame);
        }
        assert(convert_prefix(v, m + 2 + s, s) == hold_step(BinaryLevel::Low, ts4, s));
        lemma_conversion_settled(v, m + 2 + s, v.len(), s);
        let extra = if z1 < s {
            seq![true] + zeros(s)
        } else {
            zeros(s)
        };
        assert(bits_one_edge + zeros(s) =~= bits + extra);
        lemma_whole_bytes_of_extended(bits, extra);
    }
}

/// Bytes whose bits, most significant first, are a payload's bits are that payload.
pub proof fn lemma_bytes_from_bits(r: Seq<u8>, payload: Seq<u8>)
    requires
        r.len() == payload.len(),
        forall|i: int| 0 <= i < r.len() * 8 ==> #[trigger] bytes_bit(r, i) == payload_bits(payload)[i],
    ensures
        r == payload,
{
    assert forall|j: int| 0 <= j < r.len() implies r[j] == payload[j] by {
        let x = r[j];
        let y = payload[j];
        assert forall|n: u8| n < 8 implies byte_bit(x, n) == byte_bit(y, n) by {
            let i = j * 8 + n;
            assert(i / 8 == j && i % 8 == n as int);
            assert(bytes_bit(r, i) == payload_bits(payload)[i]);
        }
        assert(byte_bit(x, 0) == byte_bit(y, 0));
        assert(byte_bit(x, 1) == byte_bit(y, 1));
        assert(byte_bit(x, 2) == byte_bit(y, 2));
        assert(byte_bit(x, 3) == byte_bit(y, 3));
        assert(byte_bit(x, 4) == byte_bit(y, 4));
        assert(byte_bit(x, 5) == byte_bit(y, 5));
        assert(byte_bit(x, 6) == byte_bit(y, 6));
        assert(byte_bit(x, 7) == byte_bit(y, 7));
        assert(x == y) by (bit_vector)
            requires
                (x & (0x80u8 >> 0u8) != 0) == (y & (0x80u8 >> 0u8) != 0),
                (x & (0x80u8 >> 1u8) != 0) == (y & (0x80u8 >> 1u8) != 0),
                (x & (0x80u8 >> 2u8) != 0) == (y & (0x80u8 >> 2u8) != 0),
                (x & (0x80u8 >> 3u8) != 0) == (y & (0x80u8 >> 3u8) != 0),
                (x & (0x80u8 >> 4u8) != 0) == (y & (0x80u8 >> 4u8) != 0),
                (x & (0x80u8 >> 5u8) != 0) == (y & (0x80u8 >> 5u8) != 0),
                (x & (0x80u8 >> 6u8) != 0) == (y & (0x80u8 >> 6u8) != 0),
                (x & (0x80u8 >> 7u8) != 0) == (y & (0x80u8 >> 7u8) != 0),
        ;
    }
    assert(r =~= payload);
}

} // verus!
