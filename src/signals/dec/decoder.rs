//! The receiver's state machine: from the carrier's amplitude envelope, one
//! amplitude per window, to the stream of transitions.
use vstd::prelude::*;

use crate::signals::am::Transition;
use crate::signals::dec::am::{first_edge, mean_abs_rise, search, SearchConfig};
use crate::units::Proportion;
use crate::utils::{weighted, WindowedWeightedAverage};

verus! {

/// Whether the receiver has locked on to a frame, and which edge comes next.
#[derive(Debug, Clone, Copy, PartialEq, Eq, Structural)]
pub enum StateMachine {
    Searching,
    Synchronized(Transition),
}

/// The opposite edge.
pub open spec fn opposite(t: Transition) -> Transition {
    match t {
        Transition::Rising => Transition::Falling,
        Transition::Falling => Transition::Rising,
        _ => t,
    }
}

/// `a + b`, saturating at `usize::MAX`.
pub open spec fn sat_add(a: usize, b: usize) -> usize {
    if a + b > usize::MAX {
        usize::MAX
    } else {
        (a + b) as usize
    }
}

/// The last edge of `ts`, looking past one trailing hold.
pub open spec fn prev_edge(ts: Seq<Transition>) -> Option<Transition> {
    if ts.len() == 0 {
        None
    } else if ts.last() is Hold {
        if ts.len() >= 2 {
            Some(ts[ts.len() - 2])
        } else {
            None
        }
    } else {
        Some(ts.last())
    }
}

/// Whether pushing edge `t` keeps it, rather than turning it into noise.
pub open spec fn edge_accepted(ts: Seq<Transition>, t: Transition) -> bool {
    prev_edge(ts) != Some(t)
}

#[verifier::opaque]
/// `ts` after pushing `t`: empty runs are dropped, runs of holds and runs of
/// noise merge, and an edge that repeats the previous one becomes noise.
pub open spec fn push_spec(ts: Seq<Transition>, t: Transition) -> Seq<Transition> {
    match t {
        Transition::Hold(n) => if n == 0 {
            ts
        } else if ts.len() > 0 && ts.last() is Hold {
            ts.drop_last().push(Transition::Hold(sat_add(ts.last()->Hold_0, n)))
        } else {
            ts.push(t)
        },
        Transition::Noise(n) => if n == 0 {
            ts
        } else if ts.len() > 0 && ts.last() is Noise {
            ts.drop_last().push(Transition::Noise(sat_add(ts.last()->Noise_0, n)))
        } else {
            ts.push(t)
        },
        _ => if edge_accepted(ts, t) {
            ts.push(t)
        } else {
            ts.push(Transition::Noise(1))
        },
    }
}

#[verifier::opaque]
/// No two neighbours are both holds or both noise, and no run is empty.
pub open spec fn transitions_wf(ts: Seq<Transition>) -> bool {
    &&& forall|i: int|
        0 <= i < ts.len() - 1 ==> !(#[trigger] ts[i] is Hold && ts[i + 1] is Hold) && !(
        ts[i] is Noise && ts[i + 1] is Noise)
    &&& forall|i: int|
        0 <= i < ts.len() ==> (#[trigger] ts[i] is Hold ==> ts[i]->Hold_0 > 0) && (
        ts[i] is Noise ==> ts[i]->Noise_0 > 0)
}

/// What the receiver is configured with.
#[derive(Debug, Clone, Copy)]
pub struct Parameters {
    /// How edges are searched for.
    pub search: SearchConfig,
    /// Longest run of symbols without an edge in a frame.
    pub max_transitionless_windows: usize,
    /// Weight of the held noise level against each new estimate.
    pub noise_weight: u64,
    /// Amplitudes that a synchronised search looks at: enough for the
    /// longest run without an edge, and the edge after it.
    pub hold_window: usize,
}

impl Parameters {
    pub open spec fn wf(&self) -> bool {
        &&& self.search.wf()
        &&& self.hold_window == self.hold_window_size()
    }

    /// `window_width * (max_transitionless_windows + 1) + transition_width + 2`.
    pub open spec fn hold_window_size(&self) -> int {
        self.search.window_width * (self.max_transitionless_windows + 1)
            + self.search.transition_width + 2
    }

    /// Settings for windows of `1 / window_width` of a symbol: an edge takes
    /// `transition_width` of a symbol.
    pub fn new(
        window_width: usize,
        transition_width: Proportion,
        min_snr: Proportion,
        max_transitionless_windows: usize,
        noise_weight: u64,
    ) -> (r: Self)
        requires
            window_width >= 1,
            0 <= transition_width.0,
            2 <= transition_width.0 * window_width / 65536,
            window_width * (max_transitionless_windows + 1) + transition_width.0 * window_width
                / 65536 + 2 <= usize::MAX,
        ensures
            r.wf(),
            r.search.window_width == window_width,
            r.search.transition_width == transition_width.0 * window_width / 65536,
            r.search.min_snr == min_snr,
            r.max_transitionless_windows == max_transitionless_windows,
            r.noise_weight == noise_weight,
    {
        assert(crate::units::UNIT == 65536);
        let tw = transition_width.scale_usize(window_width);
        assert(tw == (if transition_width.0 <= 0 { 0 } else { transition_width.0 * window_width / crate::units::UNIT as int }));
        assert(transition_width.0 > 0);
        assert(tw == transition_width.0 * window_width / 65536);
        assert(max_transitionless_windows + 1 <= window_width * (max_transitionless_windows + 1))
            by (nonlinear_arith)
            requires
                window_width >= 1,
        ;
        let hold_window = window_width * (max_transitionless_windows + 1) + tw + 2;
        Self {
            search: SearchConfig { transition_width: tw, window_width, min_snr },
            max_transitionless_windows,
            noise_weight,
            hold_window,
        }
    }
}

/// The receiver's state as plain values.
pub struct DecoderState {
    pub amplitudes: Seq<i32>,
    pub transitions: Seq<Transition>,
    pub noise: u64,
    pub sm: StateMachine,
}

/// One step while searching: the first rising edge in all the amplitudes
/// synchronises the receiver; without one, all but half a symbol of them go.
#[verifier::opaque]
pub open spec fn searching_step(p: Parameters, st: DecoderState) -> Option<DecoderState> {
    let c = p.search;
    let amps = st.amplitudes;
    let len = amps.len() as int;
    let ww = c.window_width as int;
    let w = c.transition_width as nat;
    if len <= ww {
        None
    } else {
        match first_edge(amps, w, true, mean_abs_rise(amps, w), c.min_snr.0 as int, 0) {
            Some(idx) => {
                let mid = idx + 1 + ww / 2;
                let cut = if mid < len {
                    mid
                } else {
                    len
                };
                Some(
                    DecoderState {
                        amplitudes: amps.subrange(cut, len),
                        transitions: push_spec(st.transitions, Transition::Rising),
                        noise: weighted(
                            st.noise as int,
                            p.noise_weight as int,
                            mean_abs_rise(amps, w),
                            len,
                        ) as u64,
                        sm: if edge_accepted(st.transitions, Transition::Rising) {
                            StateMachine::Synchronized(Transition::Falling)
                        } else {
                            StateMachine::Searching
                        },
                    },
                )
            },
            None => Some(DecoderState { amplitudes: amps.subrange(len - ww / 2, len), ..st }),
        }
    }
}

/// One step while synchronised and expecting edge `e`: the edge is searched
/// for within the longest run of symbols without one, against the rolling
/// noise level. The symbols before it are a hold; too many of them, or no
/// edge in a full window, lose synchronisation.
#[verifier::opaque]
pub open spec fn synchronized_step(p: Parameters, st: DecoderState, e: Transition) -> Option<
    DecoderState,
> {
    let c = p.search;
    let amps = st.amplitudes;
    let len = amps.len() as int;
    let ww = c.window_width as int;
    let w = c.transition_width as nat;
    let size = p.hold_window_size();
    let hlen = if size < len {
        size
    } else {
        len
    };
    let hw = amps.subrange(0, hlen);
    let found = if hlen < w {
        None
    } else {
        first_edge(hw, w, e == Transition::Rising, st.noise as int, c.min_snr.0 as int, 0)
    };
    match found {
        Some(idx) => {
            let mid = idx + 1 + ww / 2;
            let cut = if mid < len {
                mid
            } else {
                len
            };
            let quiet = (idx + 1) / ww;
            let t1 = push_spec(st.transitions, Transition::Hold(quiet as usize));
            Some(
                DecoderState {
                    amplitudes: amps.subrange(cut, len),
                    transitions: if quiet <= p.max_transitionless_windows {
                        push_spec(t1, e)
                    } else {
                        push_spec(st.transitions, Transition::Noise(1))
                    },
                    noise: weighted(
                        st.noise as int,
                        p.noise_weight as int,
                        mean_abs_rise(hw, w),
                        hlen,
                    ) as u64,
                    sm: if quiet <= p.max_transitionless_windows && edge_accepted(t1, e) {
                        StateMachine::Synchronized(opposite(e))
                    } else {
                        StateMachine::Searching
                    },
                },
            )
        },
        None => if hlen >= size {
            Some(
                DecoderState {
                    transitions: push_spec(
                        push_spec(st.transitions, Transition::Hold(p.max_transitionless_windows)),
                        Transition::Noise(1),
                    ),
                    sm: StateMachine::Searching,
                    ..st
                },
            )
        } else {
            None
        },
    }
}

/// One step of the receiver, or `None` when it must wait for more amplitudes.
pub open spec fn step_spec(p: Parameters, st: DecoderState) -> Option<DecoderState> {
    match st.sm {
        StateMachine::Searching => searching_step(p, st),
        StateMachine::Synchronized(e) => synchronized_step(p, st, e),
    }
}

/// The state after `n` steps, or after the last possible one.
pub open spec fn after_steps(p: Parameters, st: DecoderState, n: nat) -> DecoderState
    decreases n,
{
    if n == 0 {
        st
    } else {
        let prev = after_steps(p, st, (n - 1) as nat);
        match step_spec(p, prev) {
            Some(next) => next,
            None => prev,
        }
    }
}

/// Receiver of one carrier: holds the envelope not yet parsed, the
/// transitions found so far, the rolling noise level and the state machine.
pub struct Decoder {
    p: Parameters,
    carrier_amplitudes: Vec<i32>,
    transitions: Vec<Transition>,
    noise_level: WindowedWeightedAverage,
    sm: StateMachine,
}

impl Decoder {
    pub closed spec fn spec_parameters(&self) -> Parameters {
        self.p
    }

    pub closed spec fn state(&self) -> DecoderState {
        DecoderState {
            amplitudes: self.carrier_amplitudes@,
            transitions: self.transitions@,
            noise: self.noise_level.spec_value(),
            sm: self.sm,
        }
    }

    pub closed spec fn wf(&self) -> bool {
        &&& self.p.wf()
        &&& self.carrier_amplitudes@.len() + self.p.search.window_width < usize::MAX
        &&& self.noise_level.spec_internal_weight() == self.p.noise_weight
        &&& self.noise_level.spec_value() <= 0x1_0000_0000
        &&& transitions_wf(self.transitions@)
        &&& match self.sm {
            StateMachine::Searching => true,
            StateMachine::Synchronized(e) => e == Transition::Rising || e == Transition::Falling,
        }
    }

    /// A receiver with no amplitudes yet, searching, at `initial_noise_level`.
    pub fn new(p: Parameters, initial_noise_level: u64) -> (r: Self)
        requires
            p.wf(),
            initial_noise_level <= 0x1_0000_0000,
        ensures
            r.wf(),
            r.spec_parameters() == p,
            r.state().amplitudes == Seq::<i32>::empty(),
            r.state().transitions == Seq::<Transition>::empty(),
            r.state().noise == initial_noise_level,
            r.state().sm == StateMachine::Searching,
    {
        reveal(transitions_wf);
        let ww = p.search.window_width;
        let m = p.max_transitionless_windows;
        assert(ww <= ww * (m + 1)) by (nonlinear_arith);
        Self {
            p,
            carrier_amplitudes: Vec::new(),
            transitions: Vec::new(),
            noise_level: WindowedWeightedAverage::new(initial_noise_level, p.noise_weight),
            sm: StateMachine::Searching,
        }
    }

    /// Appends the amplitudes of further windows.
    pub fn append_amplitudes(&mut self, amplitudes: &[i32])
        requires
            old(self).wf(),
            old(self).state().amplitudes.len() + amplitudes@.len()
                + old(self).spec_parameters().search.window_width < usize::MAX,
        ensures
            final(self).wf(),
            final(self).spec_parameters() == old(self).spec_parameters(),
            final(self).state() == (DecoderState {
                amplitudes: old(self).state().amplitudes + amplitudes@,
                ..old(self).state()
            }),
    {
        let mut i: usize = 0;
        while i < amplitudes.len()
            invariant
                i <= amplitudes@.len(),
                self.p == old(self).p,
                self.transitions == old(self).transitions,
                self.noise_level == old(self).noise_level,
                self.sm == old(self).sm,
                old(self).carrier_amplitudes@.len() + amplitudes@.len() + self.p.search.window_width < usize::MAX,
                self.carrier_amplitudes@ == old(self).carrier_amplitudes@ + amplitudes@.subrange(
                    0,
                    i as int,
                ),
            decreases amplitudes@.len() - i,
        {
            self.carrier_amplitudes.push(amplitudes[i]);
            i = i + 1;
            assert(self.carrier_amplitudes@ =~= old(self).carrier_amplitudes@ + amplitudes@.subrange(0, i as int));
        }
        assert(amplitudes@.subrange(0, i as int) =~= amplitudes@);
    }

    /// The transitions found so far.
    pub fn transitions(&self) -> (r: &Vec<Transition>)
        ensures
            r@ == self.state().transitions,
    {
        &self.transitions
    }

    /// The amplitudes not parsed yet.
    pub fn carrier_amplitudes(&self) -> (r: &Vec<i32>)
        ensures
            r@ == self.state().amplitudes,
    {
        &self.carrier_amplitudes
    }

    /// The rolling noise level.
    pub fn noise_level(&self) -> (r: u64)
        ensures
            r == self.state().noise,
    {
        self.noise_level.value()
    }

    /// The state machine.
    pub fn state_machine(&self) -> (r: StateMachine)
        ensures
            r == self.state().sm,
    {
        self.sm
    }

    fn edge_accepted(&self, t: Transition) -> (r: bool)
        ensures
            r == edge_accepted(self.transitions@, t),
    {
        let len = self.transitions.len();
        if len == 0 {
            return true;
        }
        let last = self.transitions[len - 1];
        let prev = if let Transition::Hold(_) = last {
            if len >= 2 {
                Some(self.transitions[len - 2])
            } else {
                None
            }
        } else {
            Some(last)
        };
        match prev {
            Some(e) => e != t,
            None => true,
        }
    }

    fn push_transition(&mut self, t: Transition)
        requires
            transitions_wf(old(self).transitions@),
        ensures
            transitions_wf(final(self).transitions@),
            final(self).transitions@ == push_spec(old(self).transitions@, t),
            final(self).p == old(self).p,
            final(self).carrier_amplitudes == old(self).carrier_amplitudes,
            final(self).noise_level == old(self).noise_level,
            final(self).sm == old(self).sm,
    {
        reveal(push_spec);
        reveal(transitions_wf);
        let len = self.transitions.len();
        match t {
            Transition::Hold(n) => {
                if n == 0 {
                    return ;
                }
                if len > 0 {
                    if let Transition::Hold(m) = self.transitions[len - 1] {
                        let sum = if m > usize::MAX - n {
                            usize::MAX
                        } else {
                            m + n
                        };
                        self.transitions.set(len - 1, Transition::Hold(sum));
                        return ;
                    }
                }
                self.transitions.push(t);
            },
            Transition::Noise(n) => {
                if n == 0 {
                    return ;
                }
                if len > 0 {
                    if let Transition::Noise(m) = self.transitions[len - 1] {
                        let sum = if m > usize::MAX - n {
                            usize::MAX
                        } else {
                            m + n
                        };
                        self.transitions.set(len - 1, Transition::Noise(sum));
                        return ;
                    }
                }
                self.transitions.push(t);
            },
            _ => {
                if self.edge_accepted(t) {
                    self.transitions.push(t);
                } else {
                    self.transitions.push(Transition::Noise(1));
                }
            },
        }
    }

    fn drop_front(&mut self, k: usize)
        requires
            k <= old(self).carrier_amplitudes@.len(),
        ensures
            final(self).carrier_amplitudes@ == old(self).carrier_amplitudes@.subrange(
                k as int,
                old(self).carrier_amplitudes@.len() as int,
            ),
            final(self).p == old(self).p,
            final(self).transitions == old(self).transitions,
            final(self).noise_level == old(self).noise_level,
            final(self).sm == old(self).sm,
    {
        let tail = self.carrier_amplitudes.split_off(k);
        self.carrier_amplitudes = tail;
    }

    fn update_noise(&mut self, estimate: u64, weight: usize)
        requires
            old(self).noise_level.spec_value() <= 0x1_0000_0000,
            estimate <= 0x1_0000_0000,
            weight >= 1,
        ensures
            final(self).noise_level.spec_value() <= 0x1_0000_0000,
            final(self).noise_level.spec_value() == weighted(
                old(self).noise_level.spec_value() as int,
                old(self).noise_level.spec_internal_weight() as int,
                estimate as int,
                weight as int,
            ),
            final(self).noise_level.spec_internal_weight() == old(self).noise_level.spec_internal_weight(),
            final(self).p == old(self).p,
            final(self).transitions == old(self).transitions,
            final(self).carrier_amplitudes == old(self).carrier_amplitudes,
            final(self).sm == old(self).sm,
    {
        let ghost v = self.noise_level.spec_value() as int;
        let ghost iw = self.noise_level.spec_internal_weight() as int;
        proof {
            assert(v * iw + estimate * weight <= 0x1_0000_0000 * 0x1_0000_0000_0000_0000 * 2)
                by (nonlinear_arith)
                requires
                    0 <= v <= 0x1_0000_0000,
                    0 <= iw < 0x1_0000_0000_0000_0000,
                    0 <= estimate <= 0x1_0000_0000,
                    0 <= weight < 0x1_0000_0000_0000_0000,
            ;
            crate::utils::lemma_weighted_between(v, iw, estimate as int, weight as int, 0, 0x1_0000_0000);
        }
        self.noise_level.acc(estimate, weight as u64);
    }

    #[verifier::rlimit(100)]
    fn step_searching(&mut self) -> (r: bool)
        requires
            old(self).wf(),
            old(self).sm == StateMachine::Searching,
        ensures
            final(self).wf(),
            final(self).p == old(self).p,
            match searching_step(old(self).p, old(self).state()) {
                Some(next) => r && final(self).state() == next,
                None => !r && final(self).state() == old(self).state(),
            },
            r ==> final(self).carrier_amplitudes@.len() < old(self).carrier_amplitudes@.len(),
    {
        reveal(searching_step);
        let ghost before = self.state();
        let c = self.p.search;
        let len = self.carrier_amplitudes.len();
        let ww = c.window_width;
        if len <= ww {
            return false;
        }
        let found = search(&c, self.carrier_amplitudes.as_slice(), Transition::Rising, None);
        match found {
            Some(ts) => {
                let accepted = self.edge_accepted(Transition::Rising);
                self.push_transition(Transition::Rising);
                let mid = ts.mid_transition_window_offset;
                let cut = if mid < len {
                    mid
                } else {
                    len
                };
                self.drop_front(cut);
                self.update_noise(ts.calculated_noise_level, len);
                self.sm = if accepted {
                    StateMachine::Synchronized(Transition::Falling)
                } else {
                    StateMachine::Searching
                };
            },
            None => {
                self.drop_front(len - ww / 2);
            },
        }
        true
    }

    #[verifier::rlimit(100)]
    fn step_synchronized(&mut self, e: Transition) -> (r: bool)
        requires
            old(self).wf(),
            old(self).sm == StateMachine::Synchronized(e),
        ensures
            final(self).wf(),
            final(self).p == old(self).p,
            match synchronized_step(old(self).p, old(self).state(), e) {
                Some(next) => r && final(self).state() == next,
                None => !r && final(self).state() == old(self).state(),
            },
            r ==> final(self).carrier_amplitudes@.len() < old(self).carrier_amplitudes@.len() || (
            final(self).carrier_amplitudes@.len() == old(self).carrier_amplitudes@.len()
                && final(self).sm is Searching),
    {
        reveal(synchronized_step);
        let ghost before = self.state();
        let c = self.p.search;
        let len = self.carrier_amplitudes.len();
        let ww = c.window_width;
        let size = self.p.hold_window;
        let hlen = if size < len {
            size
        } else {
            len
        };
        let found = {
            let hw = &self.carrier_amplitudes.as_slice()[0..hlen];
            search(&c, hw, e, Some(self.noise_level.value()))
        };
        match found {
            Some(ts) => {
                let quiet = ts.transitionless_windows;
                if quiet <= self.p.max_transitionless_windows {
                    self.push_transition(Transition::Hold(quiet));
                    let accepted = self.edge_accepted(e);
                    self.push_transition(e);
                    self.sm = if accepted {
                        match e {
                            Transition::Rising => StateMachine::Synchronized(Transition::Falling),
                            _ => StateMachine::Synchronized(Transition::Rising),
                        }
                    } else {
                        StateMachine::Searching
                    };
                } else {
                    self.push_transition(Transition::Noise(1));
                    self.sm = StateMachine::Searching;
                }
                let mid = ts.mid_transition_window_offset;
                let cut = if mid < len {
                    mid
                } else {
                    len
                };
                self.drop_front(cut);
                self.update_noise(ts.calculated_noise_level, hlen);
                true
            },
            None => {
                if hlen >= size {
                    self.push_transition(Transition::Hold(self.p.max_transitionless_windows));
                    self.push_transition(Transition::Noise(1));
                    self.sm = StateMachine::Searching;
                    true
                } else {
                    false
                }
            },
        }
    }

    /// Takes one step of the receiver; `false`, changing nothing, when it
    /// must wait for more amplitudes.
    pub fn step(&mut self) -> (r: bool)
        requires
            old(self).wf(),
        ensures
            final(self).wf(),
            final(self).spec_parameters() == old(self).spec_parameters(),
            transitions_wf(final(self).state().transitions),
            match step_spec(old(self).spec_parameters(), old(self).state()) {
                Some(next) => r && final(self).state() == next,
                None => !r && final(self).state() == old(self).state(),
            },
            r ==> final(self).state().amplitudes.len() < old(self).state().amplitudes.len() || (
            final(self).state().amplitudes.len() == old(self).state().amplitudes.len()
                && old(self).state().sm is Synchronized && final(self).state().sm is Searching),
    {
        match self.sm {
            StateMachine::Searching => self.step_searching(),
            StateMachine::Synchronized(e) => self.step_synchronized(e),
        }
    }

    /// Steps the receiver until it must wait for more amplitudes.
    pub fn parse(&mut self)
        requires
            old(self).wf(),
        ensures
            final(self).wf(),
            final(self).spec_parameters() == old(self).spec_parameters(),
            transitions_wf(final(self).state().transitions),
            exists|n: nat| after_steps(old(self).spec_parameters(), old(self).state(), n)
                == final(self).state(),
            step_spec(final(self).spec_parameters(), final(self).state()) is None,
    {
        let ghost p = self.p;
        let ghost start = self.state();
        let ghost mut n: nat = 0;
        loop
            invariant
                self.wf(),
                self.p == p,
                p == old(self).p,
                start == old(self).state(),
                after_steps(p, start, n) == self.state(),
            decreases self.carrier_amplitudes@.len(), if self.sm is Synchronized {
                1int
            } else {
                0int
            },
        {
            let ghost before = self.state();
            if !self.step() {
                assert(after_steps(p, start, n) == self.state());
                assert(after_steps(old(self).spec_parameters(), old(self).state(), n) == self.state());
                return ;
            }
            proof {
                n = n + 1;
            }
        }
    }
}

} // verus!
