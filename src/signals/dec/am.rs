//! Recovery of transitions from the carrier's amplitude envelope.
use vstd::prelude::*;

use crate::sampling::SampleCount;
use crate::signals::am::Transition;
use crate::units::{Proportion, UNIT};
use crate::utils::conv1d::{tap, valid, valid_at, window_sum};
use crate::utils::nms;

verus! {

/// Sample `k` of the signal shifted right by `half` and padded with zeros.
pub open spec fn padded(s: Seq<i32>, half: int, k: int) -> int {
    if 0 <= k - half < s.len() {
        s[k - half] as int
    } else {
        0
    }
}

/// Largest of the `n >= 1` padded samples from index `lo` on.
pub open spec fn window_max(s: Seq<i32>, half: int, lo: int, n: nat) -> int
    decreases n,
{
    if n <= 1 {
        padded(s, half, lo)
    } else {
        let m = window_max(s, half, lo, (n - 1) as nat);
        let v = padded(s, half, lo + n - 1);
        if m >= v {
            m
        } else {
            v
        }
    }
}

/// Output `j` of the envelope follower with a window of `size` samples.
pub open spec fn envelope_at(s: Seq<i32>, size: nat, j: int) -> int {
    window_max(s, (size / 2) as int, j + 1, size)
}

/// The longest prefix of `len` samples made of whole windows of `window`
/// samples.
pub fn window_aligned_len(len: usize, window: usize) -> (r: usize)
    requires
        window > 0,
    ensures
        r <= len,
        r % window == 0,
        len - r < window,
{
    proof {
        vstd::arithmetic::div_mod::lemma_mod_bound(len as int, window as int);
        vstd::arithmetic::div_mod::lemma_fundamental_div_mod(len as int, window as int);
        vstd::arithmetic::div_mod::lemma_div_pos_is_pos(len as int, window as int);
        vstd::arithmetic::mul::lemma_mul_nonnegative(window as int, (len / window) as int);
    }
    let r = len - len % window;
    proof {
        vstd::arithmetic::div_mod::lemma_fundamental_div_mod(len as int, window as int);
        vstd::arithmetic::div_mod::lemma_mod_multiples_basic((len / window) as int, window as int);
        assert(r == window * (len / window));
        vstd::arithmetic::mul::lemma_mul_is_commutative(window as int, (len / window) as int);
    }
    r
}

/// Rolling maximum over one carrier cycle: follows the envelope of a
/// rectified carrier.
pub struct EnvelopeCalculation {
    buffer_size: usize,
}

impl EnvelopeCalculation {
    pub closed spec fn spec_buffer_size(&self) -> usize {
        self.buffer_size
    }

    pub fn new(carrier_wave_cycle: SampleCount) -> (r: Self)
        ensures
            r.spec_buffer_size() == carrier_wave_cycle.0,
    {
        Self { buffer_size: carrier_wave_cycle.value() }
    }

    /// Samples of the window before and after its centre.
    pub fn tail_lengths(&self) -> (r: (usize, usize))
        ensures
            r == (self.spec_buffer_size() / 2, (self.spec_buffer_size() / 2 + self.spec_buffer_size()
                % 2) as usize),
    {
        let remainder = self.buffer_size % 2;
        let half = self.buffer_size / 2;
        (half, half + remainder)
    }

    /// Replaces each sample `j` by the largest sample in the window of
    /// `buffer_size` samples that starts `buffer_size / 2 - 1` samples before
    /// it, counting samples outside the input as zero.
    pub fn process_padded(&mut self, s: &mut [i32])
        requires
            old(self).spec_buffer_size() >= 1,
            old(s)@.len() + old(self).spec_buffer_size() < usize::MAX,
        ensures
            *final(self) == *old(self),
            final(s)@.len() == old(s)@.len(),
            forall|j: int|
                0 <= j < old(s)@.len() ==> #[trigger] final(s)@[j] == envelope_at(
                    old(s)@,
                    old(self).spec_buffer_size() as nat,
                    j,
                ),
    {
        let len = self.buffer_size;
        let half = len / 2;
        let mut input: Vec<i32> = Vec::new();
        let mut i: usize = 0;
        while i < s.len()
            invariant
                i <= s@.len(),
                input@ == s@.subrange(0, i as int),
            decreases s@.len() - i,
        {
            input.push(s[i]);
            i = i + 1;
        }
        assert(input@ == old(s)@);
        let n = s.len();
        let mut j: usize = 0;
        while j < n
            invariant
                n == s@.len() == input@.len(),
                len == self.buffer_size >= 1,
                half == len / 2,
                n + len < usize::MAX,
                j <= n,
                forall|k: int| 0 <= k < j ==> #[trigger] s@[k] == envelope_at(input@, len as nat, k),
            decreases n - j,
        {
            let lo = j + 1;
            let mut m: i32 = Self::padded_sample(&input, half, lo);
            let mut t: usize = 1;
            while t < len
                invariant
                    n == input@.len(),
                    n + len < usize::MAX,
                    j < n,
                    lo == j + 1,
                    1 <= t <= len,
                    m == window_max(input@, half as int, lo as int, t as nat),
                decreases len - t,
            {
                let v = Self::padded_sample(&input, half, lo + t);
                if v > m {
                    m = v;
                }
                t = t + 1;
            }
            s[j] = m;
            j = j + 1;
        }
    }

    fn padded_sample(input: &Vec<i32>, half: usize, k: usize) -> (r: i32)
        ensures
            r == padded(input@, half as int, k as int),
    {
        if k >= half && k - half < input.len() {
            input[k - half]
        } else {
            0
        }
    }
}

/// The kernel that finds a step of `width` samples: `-1` first, `+1` last.
pub open spec fn step_kernel(width: nat) -> Seq<i32> {
    Seq::new(width, |i: int| if i == 0 {
        -1i32
    } else if i == width - 1 {
        1i32
    } else {
        0i32
    })
}

/// The step response at `i`: how much the signal rose over `width` samples.
pub open spec fn rise(s: Seq<i32>, width: nat, i: int) -> int {
    s[i + width - 1] - s[i]
}

proof fn lemma_step_kernel_sum(s: Seq<i32>, width: nat, i: int, n: int)
    requires
        width >= 2,
        0 <= i,
        i + width <= s.len(),
        1 <= n <= width,
    ensures
        window_sum(s, step_kernel(width), i, n) == if n == width {
            rise(s, width, i)
        } else {
            -s[i]
        },
    decreases n,
{
    let k = step_kernel(width);
    if n > 1 {
        lemma_step_kernel_sum(s, width, i, n - 1);
    }
    let a = s[i + n - 1] as int;
    let b = k[n - 1] as int;
    assert(tap(s, k, i, n - 1) == a * b);
    if n == 1 {
        assert(b == -1);
        assert(a * b == -a) by (nonlinear_arith)
            requires
                b == -1,
        ;
        assert(window_sum(s, k, i, 0) == 0);
    } else if n == width {
        assert(b == 1);
        assert(a * b == a) by (nonlinear_arith)
            requires
                b == 1,
        ;
    } else {
        assert(b == 0);
        assert(a * b == 0) by (nonlinear_arith)
            requires
                b == 0,
        ;
    }
}

/// The step response equals the `valid` convolution with the step kernel.
proof fn lemma_rise_is_convolution(s: Seq<i32>, width: nat, i: int)
    requires
        width >= 2,
        0 <= i,
        i + width <= s.len(),
    ensures
        valid_at(s, step_kernel(width), i) == rise(s, width, i),
{
    lemma_step_kernel_sum(s, width, i, width as int);
}

/// Scan state of the start-of-frame search after the first `n` step
/// responses over `w` samples: the first response above `min_level`, and
/// within `w` responses of it the index and value of the largest.
pub open spec fn rising_scan(s: Seq<i32>, w: nat, min_level: int, n: int) -> Option<(int, int, int)>
    decreases n,
{
    if n <= 0 {
        None
    } else {
        let acc = rising_scan(s, w, min_level, n - 1);
        let i = n - 1;
        let d = rise(s, w, i);
        match acc {
            None => if d > min_level {
                Some((i, i, d))
            } else {
                None
            },
            Some((first, at, level)) => if i - first < w && d > level {
                Some((first, i, d))
            } else {
                acc
            },
        }
    }
}

/// Sum of the first `n` samples.
pub open spec fn prefix_sum(s: Seq<i32>, n: int) -> int
    decreases n,
{
    if n <= 0 {
        0
    } else {
        prefix_sum(s, n - 1) + s[n - 1]
    }
}

/// `a / b` rounded toward zero.
pub open spec fn trunc_div(a: int, b: int) -> int {
    if a >= 0 {
        a / b
    } else {
        -((-a) / b)
    }
}

/// Start of a frame: the steepest rise over a transition near the first
/// rise above a level.
#[derive(Debug, Clone, Copy)]
pub struct StartOfFrameSearch {
    /// Where the steepest rise starts.
    pub transition_offset: usize,
    /// How much the signal rises there.
    pub signal_level: i64,
    /// Mean of the samples before it, rounded toward zero; zero when there
    /// are none.
    pub noise_level: i64,
}

impl StartOfFrameSearch {
    /// Looks at the rise over every `transition_width + 1` consecutive
    /// samples; from the first rise above `min_signal_level`, keeps the
    /// largest rise among the next `transition_width + 1`.
    pub fn search_rising(s: &[i32], transition_width: SampleCount, min_signal_level: i64) -> (r:
        Option<Self>)
        requires
            transition_width.0 + 1 < usize::MAX,
        ensures
            match rising_scan(
                s@,
                (transition_width.0 + 1) as nat,
                min_signal_level as int,
                s@.len() - transition_width.0,
            ) {
                None => r is None,
                Some((first, at, level)) => r matches Some(f) && f.transition_offset == at
                    && f.signal_level == level && f.noise_level == if at == 0 {
                    0
                } else {
                    trunc_div(prefix_sum(s@, at), at)
                },
            },
    {
        let tw = transition_width.value() + 1;
        let ghost w = tw as nat;
        if s.len() < tw {
            proof {
                assert(rising_scan(s@, w, min_signal_level as int, s@.len() - transition_width.0)
                    == None::<(int, int, int)>);
            }
            return None;
        }
        let len = s.len();
        let n = len - tw + 1;
        let mut found = false;
        let mut first: usize = 0;
        let mut at: usize = 0;
        let mut level: i64 = 0;
        let mut i: usize = 0;
        while i < n
            invariant
                n == s@.len() - w + 1,
                len == s@.len(),
                w == tw >= 1,
                i <= n,
                at < n,
                first <= i,
                found ==> rising_scan(s@, w, min_signal_level as int, i as int) == Some(
                    (first as int, at as int, level as int),
                ),
                !found ==> rising_scan(s@, w, min_signal_level as int, i as int) is None,
            decreases n - i,
        {
            let d: i64 = s[i + (tw - 1)] as i64 - s[i] as i64;
            if !found {
                if d > min_signal_level {
                    found = true;
                    first = i;
                    at = i;
                    level = d;
                }
            } else if i - first < tw && d > level {
                at = i;
                level = d;
            }
            i = i + 1;
        }
        if !found {
            return None;
        }
        let mut sum: i128 = 0;
        let mut k: usize = 0;
        while k < at
            invariant
                at < n <= s@.len(),
                k <= at,
                sum == prefix_sum(s@, k as int),
                -0x8000_0000 * k <= sum <= 0x8000_0000 * k,
            decreases at - k,
        {
            sum = sum + s[k] as i128;
            k = k + 1;
        }
        proof {
            if at > 0 {
                if sum >= 0 {
                    vstd::arithmetic::div_mod::lemma_div_is_ordered(sum as int, 0x8000_0000 * at, at as int);
                    vstd::arithmetic::div_mod::lemma_div_multiples_vanish(0x8000_0000, at as int);
                } else {
                    vstd::arithmetic::div_mod::lemma_div_is_ordered(-sum, 0x8000_0000 * at, at as int);
                    vstd::arithmetic::div_mod::lemma_div_multiples_vanish(0x8000_0000, at as int);
                }
            }
        }
        let noise_level: i64 = if at == 0 {
            0
        } else if sum >= 0 {
            (sum / at as i128) as i64
        } else {
            -(((-sum) / at as i128) as i64)
        };
        Some(StartOfFrameSearch { transition_offset: at, signal_level: level, noise_level })
    }
}

/// Number of step responses over a signal of `len` samples.
pub open spec fn edge_count(len: int, width: nat) -> int {
    len - width + 1
}

pub open spec fn abs(x: int) -> int {
    if x < 0 {
        -x
    } else {
        x
    }
}

/// Sum of the magnitudes of the first `n` step responses.
pub open spec fn rise_abs_sum(s: Seq<i32>, width: nat, n: int) -> int
    decreases n,
{
    if n <= 0 {
        0
    } else {
        rise_abs_sum(s, width, n - 1) + abs(rise(s, width, n - 1))
    }
}

/// The noise level of a signal: mean magnitude of its step responses, rounded down.
pub open spec fn mean_abs_rise(s: Seq<i32>, width: nat) -> int {
    rise_abs_sum(s, width, edge_count(s.len() as int, width)) / edge_count(
        s.len() as int,
        width,
    )
}

/// A noise level as a divisor: zero stands for the smallest positive level.
pub open spec fn noise_floor(noise: int) -> int {
    if noise == 0 {
        1
    } else {
        noise
    }
}

/// Whether step response `idx + 1` is an edge of the wanted direction: it
/// exceeds `min_snr` times the noise level, and it is a local extremum.
pub open spec fn is_edge(
    s: Seq<i32>,
    width: nat,
    idx: int,
    rising: bool,
    noise: int,
    min_snr: int,
) -> bool {
    let c = rise(s, width, idx + 1);
    &&& if rising {
        c * UNIT > min_snr * noise_floor(noise)
    } else {
        c * UNIT < -min_snr * noise_floor(noise)
    }
    &&& (rise(s, width, idx) <= c) != (c <= rise(s, width, idx + 2))
}

/// The first `idx >= from` at which `is_edge` holds.
pub open spec fn first_edge(
    s: Seq<i32>,
    width: nat,
    rising: bool,
    noise: int,
    min_snr: int,
    from: int,
) -> Option<int>
    decreases edge_count(s.len() as int, width) - 2 - from,
{
    if from < 0 || from >= edge_count(s.len() as int, width) - 2 {
        None
    } else if is_edge(s, width, from, rising, noise, min_snr) {
        Some(from)
    } else {
        first_edge(s, width, rising, noise, min_snr, from + 1)
    }
}

/// Settings of the edge search.
#[derive(Debug, Clone, Copy)]
pub struct SearchConfig {
    /// Samples that an edge takes.
    pub transition_width: usize,
    /// Samples per symbol.
    pub window_width: usize,
    /// Least ratio of an edge's response to the noise level.
    pub min_snr: Proportion,
}

impl SearchConfig {
    pub open spec fn wf(&self) -> bool {
        self.transition_width >= 2 && self.window_width >= 1
    }
}

/// An edge found by `search`.
#[derive(Debug, Clone, Copy)]
pub struct TransitionSearch {
    /// The edge's direction.
    pub ts: Transition,
    /// Index of the edge's step response.
    pub sig_begin_offset: usize,
    /// Half a symbol past the edge.
    pub mid_transition_window_offset: usize,
    /// Whole symbols before the edge.
    pub transitionless_windows: usize,
    /// The edge's response relative to the noise level.
    pub snr: Proportion,
    /// Mean magnitude of the step responses of the searched signal.
    pub calculated_noise_level: u64,
}

/// Finds the first edge of direction `ts` in `signal`: a step response, over
/// `transition_width` samples, that stands out of the noise level by
/// `min_snr` and is a local extremum. The noise level is `ref_noise_level`
/// when given, else the signal's own.
pub fn search(c: &SearchConfig, signal: &[i32], ts: Transition, ref_noise_level: Option<u64>) -> (r:
    Option<TransitionSearch>)
    requires
        c.wf(),
        ts == Transition::Rising || ts == Transition::Falling,
        signal@.len() + c.window_width < usize::MAX,
    ensures
        signal@.len() < c.transition_width ==> r is None,
        r matches Some(t) ==> 1 <= t.sig_begin_offset <= t.mid_transition_window_offset,
        signal@.len() >= c.transition_width ==> {
            let w = c.transition_width as nat;
            let calculated = mean_abs_rise(signal@, w);
            let noise = match ref_noise_level {
                Some(x) => x as int,
                None => calculated,
            };
            match first_edge(signal@, w, ts == Transition::Rising, noise, c.min_snr.0 as int, 0) {
                None => r is None,
                Some(idx) => r matches Some(t) && t.ts == ts && t.sig_begin_offset == idx + 1
                    && t.mid_transition_window_offset == idx + 1 + c.window_width / 2
                    && t.transitionless_windows == (idx + 1) / (c.window_width as int)
                    && t.snr.0 == abs(rise(signal@, w, idx + 1)) * UNIT / noise_floor(noise)
                    && t.calculated_noise_level == calculated
                    && t.calculated_noise_level <= 0x1_0000_0000,
            }
        },
{
    let tw = c.transition_width;
    if signal.len() < tw {
        return None;
    }
    let mut kernel: Vec<i32> = Vec::new();
    let mut k: usize = 0;
    while k < tw
        invariant
            k <= tw,
            kernel@ == step_kernel(tw as nat).subrange(0, k as int),
        decreases tw - k,
    {
        let tap_value: i32 = if k == 0 {
            -1
        } else if k == tw - 1 {
            1
        } else {
            0
        };
        kernel.push(tap_value);
        k = k + 1;
    }
    assert(kernel@ =~= step_kernel(tw as nat));
    let n = signal.len() - tw + 1;
    let mut conv: Vec<i128> = Vec::new();
    let mut k: usize = 0;
    while k < n
        invariant
            k <= n,
            conv@.len() == k,
        decreases n - k,
    {
        conv.push(0);
        k = k + 1;
    }
    let res = valid(signal, kernel.as_slice(), conv.as_mut_slice());
    assert(res is Ok);
    let ghost w = tw as nat;
    assert forall|i: int| 0 <= i < n implies #[trigger] conv@[i] == rise(signal@, w, i) by {
        lemma_rise_is_convolution(signal@, w, i);
    }
    let mut sum: u128 = 0;
    let mut i: usize = 0;
    while i < n
        invariant
            n == conv@.len() == edge_count(signal@.len() as int, w),
            w == tw >= 2,
            i <= n,
            forall|j: int| 0 <= j < n ==> #[trigger] conv@[j] == rise(signal@, w, j),
            sum == rise_abs_sum(signal@, w, i as int),
            sum <= i * 0x1_0000_0000,
        decreases n - i,
    {
        let v = conv[i];
        assert(-0x1_0000_0000 <= v <= 0x1_0000_0000);
        let a: u128 = if v < 0 {
            (-v) as u128
        } else {
            v as u128
        };
        sum = sum + a;
        i = i + 1;
    }
    let calculated: u128 = sum / (n as u128);
    proof {
        vstd::arithmetic::div_mod::lemma_div_is_ordered(sum as int, n * 0x1_0000_0000, n as int);
        vstd::arithmetic::div_mod::lemma_div_multiples_vanish(0x1_0000_0000, n as int);
    }
    let calculated_noise_level: u64 = calculated as u64;
    let noise: u64 = match ref_noise_level {
        Some(x) => x,
        None => calculated_noise_level,
    };
    let floor: i128 = if noise == 0 {
        1
    } else {
        noise as i128
    };
    let rising = matches!(ts, Transition::Rising);
    let min_snr = c.min_snr.0 as i128;
    assert(-0x8000_0000_0000_0000_0000_0000_0000_0000 < min_snr * floor
        < 0x8000_0000_0000_0000_0000_0000_0000_0000) by (nonlinear_arith)
        requires
            -0x8000_0000_0000_0000 <= min_snr < 0x8000_0000_0000_0000,
            1 <= floor < 0x1_0000_0000_0000_0000,
    ;
    let threshold: i128 = min_snr * floor;
    if n < 3 {
        return None;
    }
    let mut idx: usize = 0;
    while idx < n - 2
        invariant
            n == conv@.len() == edge_count(signal@.len() as int, w),
            n >= 3,
            w == tw >= 2,
            idx <= n - 2,
            forall|j: int| 0 <= j < n ==> #[trigger] conv@[j] == rise(signal@, w, j),
            first_edge(signal@, w, rising, noise as int, min_snr as int, 0) == first_edge(
                signal@,
                w,
                rising,
                noise as int,
                min_snr as int,
                idx as int,
            ),
            floor == noise_floor(noise as int),
            threshold == min_snr * floor,
            -0x8000_0000_0000_0000_0000_0000_0000_0000 < threshold,
            c.wf(),
            signal@.len() + c.window_width < usize::MAX,
            signal@.len() >= tw,
            tw == c.transition_width,
            calculated_noise_level == mean_abs_rise(signal@, w),
            noise == match ref_noise_level {
                Some(x) => x,
                None => calculated_noise_level,
            },
            rising == (ts == Transition::Rising),
            min_snr == c.min_snr.0,
            calculated_noise_level <= 0x1_0000_0000,
        decreases n - 2 - idx,
    {
        let cv = conv[idx + 1];
        assert(-0x1_0000_0000 <= cv <= 0x1_0000_0000);
        let scaled: i128 = cv * (UNIT as i128);
        let strong = if rising {
            scaled > threshold
        } else {
            scaled < -threshold
        };
        let extremum = if strong {
            let window = &conv.as_slice()[idx..idx + 3];
            assert(window@ =~= conv@.subrange(idx as int, idx + 3));
            assert(window@[0] == conv@[idx as int]);
            assert(window@[1] == conv@[idx + 1]);
            assert(window@[2] == conv@[idx + 2]);
            nms(window)
        } else {
            false
        };
        assert(cv == rise(signal@, w, idx + 1));
        assert(scaled == rise(signal@, w, idx + 1) * UNIT);
        assert(rising ==> (strong <==> rise(signal@, w, idx + 1) * UNIT > min_snr * noise_floor(noise as int)));
        assert(-min_snr * floor == -(min_snr * floor)) by (nonlinear_arith);
        assert(!rising ==> (strong <==> rise(signal@, w, idx + 1) * UNIT < -min_snr * noise_floor(noise as int)));
        assert(strong ==> (extremum <==> ((rise(signal@, w, idx as int) <= cv) != (cv <= rise(signal@, w, idx + 2)))));
        assert(strong && extremum <==> is_edge(signal@, w, idx as int, rising, noise as int, min_snr as int));
        if strong && extremum {
            let begin = idx + 1;
            let magnitude: i128 = if cv < 0 {
                -cv
            } else {
                cv
            };
            let snr: i128 = magnitude * (UNIT as i128) / floor;
            proof {
                vstd::arithmetic::div_mod::lemma_div_is_ordered_by_denominator(
                    magnitude * UNIT,
                    1,
                    floor as int,
                );
            }
            return Some(
                TransitionSearch {
                    ts,
                    sig_begin_offset: begin,
                    mid_transition_window_offset: begin + c.window_width / 2,
                    transitionless_windows: begin / c.window_width,
                    snr: Proportion(snr as i64),
                    calculated_noise_level,
                },
            );
        }
        idx = idx + 1;
    }
    None
}

} // verus!
