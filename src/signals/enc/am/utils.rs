//! The transitions that an encoded frame shows on the envelope.
use vstd::prelude::*;

use crate::encodings::nrzi::Value;
use crate::signals::am::Transition;
use crate::signals::BinaryLevel;

verus! {

/// Where a conversion stands after some symbols.
pub enum Conversion {
    /// At this level, with these transitions so far.
    Running(BinaryLevel, Seq<Transition>),
    /// Synchronisation is lost: these are all the transitions.
    Stopped(Seq<Transition>),
    /// The symbols do not form a frame.
    Failed,
}

/// Length of the run of windows without an edge at the end of `ts`.
pub open spec fn trailing_hold(ts: Seq<Transition>) -> nat {
    if ts.len() > 0 && ts.last() is Hold {
        ts.last()->Hold_0 as nat
    } else {
        0
    }
}

/// `ts` followed by one more window without an edge.
pub open spec fn with_hold(ts: Seq<Transition>) -> Seq<Transition> {
    if ts.len() > 0 && ts.last() is Hold {
        ts.drop_last().push(Transition::Hold((ts.last()->Hold_0 + 1) as usize))
    } else {
        ts.push(Transition::Hold(1))
    }
}

/// One window without an edge; a run longer than `stuff_bit_after` loses
/// synchronisation, as a receiver sees it.
pub open spec fn hold_step(level: BinaryLevel, ts: Seq<Transition>, stuff_bit_after: nat) -> Conversion {
    if trailing_hold(ts) >= stuff_bit_after {
        Conversion::Stopped(ts.push(Transition::Noise(1)))
    } else {
        Conversion::Running(level, with_hold(ts))
    }
}

/// An edge out of `level`.
pub open spec fn edge_step(level: BinaryLevel, ts: Seq<Transition>) -> Conversion {
    Conversion::Running(level.spec_neg(), ts.push(level.spec_transition()))
}

/// The end of the frame: the envelope must be low, and noise follows.
pub open spec fn close(level: BinaryLevel, ts: Seq<Transition>) -> Conversion {
    match level {
        BinaryLevel::Low => Conversion::Stopped(ts.push(Transition::Noise(1))),
        BinaryLevel::High => Conversion::Failed,
    }
}

/// The conversion's reaction to one symbol.
pub open spec fn convert_step(c: Conversion, v: Value, stuff_bit_after: nat) -> Conversion {
    match c {
        Conversion::Running(level, ts) => match v {
            Value::StartOfFrame(_) => edge_step(level, ts),
            Value::StuffBit => edge_step(level, ts),
            Value::Bit(b) => if b {
                edge_step(level, ts)
            } else {
                hold_step(level, ts, stuff_bit_after)
            },
            Value::EndOfFrame(k) => if k == 0 {
                edge_step(level, ts)
            } else if level == BinaryLevel::High && k == 1 {
                edge_step(level, ts)
            } else if level == BinaryLevel::Low {
                hold_step(level, ts, stuff_bit_after)
            } else {
                Conversion::Failed
            },
            Value::Complete => close(level, ts),
        },
        _ => c,
    }
}

/// Where the conversion stands after the first `n` symbols.
pub open spec fn convert_prefix(values: Seq<Value>, n: nat, stuff_bit_after: nat) -> Conversion
    decreases n,
{
    if n == 0 {
        Conversion::Running(BinaryLevel::Low, Seq::empty())
    } else {
        convert_step(
            convert_prefix(values, (n - 1) as nat, stuff_bit_after),
            values[n - 1],
            stuff_bit_after,
        )
    }
}

/// The transitions of a whole symbol sequence; its end closes the frame as
/// `Complete` does.
pub open spec fn transitions_of(values: Seq<Value>, stuff_bit_after: nat) -> Result<
    Seq<Transition>,
    (),
> {
    match convert_prefix(values, values.len(), stuff_bit_after) {
        Conversion::Running(level, ts) => match close(level, ts) {
            Conversion::Stopped(t) => Ok(t),
            _ => Err(()),
        },
        Conversion::Stopped(ts) => Ok(ts),
        Conversion::Failed => Err(()),
    }
}

proof fn lemma_conversion_settled(values: Seq<Value>, i: nat, n: nat, stuff_bit_after: nat)
    requires
        i <= n,
        !(convert_prefix(values, i, stuff_bit_after) is Running),
    ensures
        convert_prefix(values, n, stuff_bit_after) == convert_prefix(values, i, stuff_bit_after),
    decreases n - i,
{
    if i < n {
        lemma_conversion_settled(values, i, (n - 1) as nat, stuff_bit_after);
    }
}

/// Each hold in `ts` is at least one window and shorter than `bound`.
spec fn holds_within(ts: Seq<Transition>, bound: int) -> bool {
    forall|j: int| 0 <= j < ts.len() && #[trigger] ts[j] is Hold ==> 1 <= ts[j]->Hold_0 < bound
}

/// The envelope transitions of an encoded frame, starting from the low level:
/// each edge symbol flips the level, each zero bit or idle trailer symbol is a
/// window without an edge (runs merged), and the frame closes with noise.
pub fn nrzi_to_transition_states(input: &[Value], stuff_bit_after: usize) -> (r: Result<
    Vec<Transition>,
    (),
>)
    ensures
        match r {
            Ok(v) => transitions_of(input@, stuff_bit_after as nat) == Ok::<Seq<Transition>, ()>(v@),
            Err(_) => transitions_of(input@, stuff_bit_after as nat) is Err,
        },
{
    let mut result: Vec<Transition> = Vec::new();
    let mut level = BinaryLevel::Low;
    let mut idx: usize = 0;
    let ghost s = stuff_bit_after as nat;
    while idx < input.len()
        invariant
            idx <= input@.len(),
            s == stuff_bit_after as nat,
            convert_prefix(input@, idx as nat, s) == Conversion::Running(level, result@),
            holds_within(result@, idx as int + 1),
        decreases input@.len() - idx,
    {
        assert(convert_prefix(input@, (idx + 1) as nat, s) == convert_step(
            convert_prefix(input@, idx as nat, s),
            input@[idx as int],
            s,
        ));
        let value = input[idx];
        let mut hold = false;
        let mut edge = false;
        match value {
            Value::StartOfFrame(_) => {
                edge = true;
            },
            Value::StuffBit => {
                edge = true;
            },
            Value::Bit(b) => {
                if b {
                    edge = true;
                } else {
                    hold = true;
                }
            },
            Value::EndOfFrame(k) => {
                if k == 0 {
                    edge = true;
                } else if matches!(level, BinaryLevel::High) && k == 1 {
                    edge = true;
                } else if matches!(level, BinaryLevel::Low) {
                    hold = true;
                } else {
                    assert(convert_prefix(input@, (idx + 1) as nat, s) == Conversion::Failed);
                    proof {
                        lemma_conversion_settled(input@, (idx + 1) as nat, input@.len(), s);
                    }
                    assert(convert_prefix(input@, input@.len(), s) == Conversion::Failed);
                    return Err(());
                }
            },
            Value::Complete => {
                proof {
                    lemma_conversion_settled(input@, (idx + 1) as nat, input@.len(), s);
                }
                return match level {
                    BinaryLevel::Low => {
                        result.push(Transition::Noise(1));
                        Ok(result)
                    },
                    BinaryLevel::High => Err(()),
                };
            },
        }
        if edge {
            result.push(level.transition());
            level = level.neg();
        } else {
            let ghost before = result@;
            let n = result.len();
            let trailing: usize = if n > 0 {
                match result[n - 1] {
                    Transition::Hold(h) => h,
                    _ => 0,
                }
            } else {
                0
            };
            assert(trailing == trailing_hold(before));
            assert(convert_prefix(input@, (idx + 1) as nat, s) == hold_step(level, before, s));
            if trailing >= stuff_bit_after {
                result.push(Transition::Noise(1));
                proof {
                    lemma_conversion_settled(input@, (idx + 1) as nat, input@.len(), s);
                }
                return Ok(result);
            }
            if n > 0 && trailing > 0 {
                result.set(n - 1, Transition::Hold(trailing + 1));
            } else {
                result.push(Transition::Hold(1));
            }
            assert(result@ =~= with_hold(before));
        }
        idx = idx + 1;
    }
    match level {
        BinaryLevel::Low => {
            result.push(Transition::Noise(1));
            Ok(result)
        },
        BinaryLevel::High => Err(()),
    }
}

} // verus!
