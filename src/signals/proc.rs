//! Bin arithmetic of a discrete Fourier transform: which bins make up a band.
use vstd::prelude::*;

verus! {

/// Why a band could not be taken.
#[derive(Debug, Clone, Copy, PartialEq, Eq, Structural)]
pub enum Error {
    /// The band's centre lies at or past the highest bin.
    FrequencyOutOfBounds,
}

/// Bins up to the highest frequency in a transform of `len` points.
pub fn frequency_steps(len: usize) -> (r: usize)
    ensures
        r == len / 2,
{
    len / 2
}

/// The bin nearest to `freq` when `steps` bins span `0 ..= max_frequency`
/// (halves round up).
pub fn center_bin(freq: u64, max_frequency: u64, steps: usize) -> (r: u64)
    requires
        max_frequency > 0,
        (2 * freq * steps + max_frequency) / (2 * max_frequency as int) <= u64::MAX,
    ensures
        r == (2 * freq * steps + max_frequency) / (2 * max_frequency as int),
{
    assert(freq * steps <= 0xffff_ffff_ffff_ffff * 0xffff_ffff_ffff_ffff) by (nonlinear_arith)
        requires
            freq <= 0xffff_ffff_ffff_ffffu64,
            steps <= usize::MAX,
            usize::MAX <= 0xffff_ffff_ffff_ffff,
    ;
    let n: u128 = (freq as u128) * (steps as u128);
    let m: u128 = max_frequency as u128;
    let q: u128 = n / m;
    let rem: u128 = n % m;
    let up: u128 = if 2 * rem >= m {
        1
    } else {
        0
    };
    proof {
        vstd::arithmetic::div_mod::lemma_fundamental_div_mod(n as int, m as int);
        let x = 2 * freq * steps + max_frequency;
        let d = 2 * max_frequency as int;
        assert(x == (q + up) * d + (2 * rem + m - d * up)) by (nonlinear_arith)
            requires
                n == m * q + rem,
                n == freq * steps,
                x == 2 * freq * steps + max_frequency,
                d == 2 * m,
                m == max_frequency,
        ;
        vstd::arithmetic::div_mod::lemma_fundamental_div_mod_converse(
            x,
            d,
            (q + up) as int,
            2 * rem + m - d * up,
        );
    }
    (q + up) as u64
}

/// Bins `[lower, upper)` within `radius` of bin `item`, clipped to
/// `[0, frequency_steps)`.
pub fn band_step_bounds(item: usize, radius: usize, frequency_steps: usize) -> (r: Result<
    (usize, usize),
    Error,
>)
    ensures
        item >= frequency_steps ==> r == Err::<(usize, usize), Error>(Error::FrequencyOutOfBounds),
        item < frequency_steps ==> r == Ok::<(usize, usize), Error>(
            (
                if item >= radius {
                    (item - radius) as usize
                } else {
                    0
                },
                if item + radius + 1 < frequency_steps {
                    (item + radius + 1) as usize
                } else {
                    frequency_steps
                },
            ),
        ),
{
    if item < frequency_steps {
        let lower_bound = if item >= radius {
            item - radius
        } else {
            0
        };
        let upper_bound = if radius < frequency_steps - item - 1 {
            item + radius + 1
        } else {
            frequency_steps
        };
        Ok((lower_bound, upper_bound))
    } else {
        Err(Error::FrequencyOutOfBounds)
    }
}

/// Whether bin `i` of `len` lies outside the two-sided band `[lower, upper)`
/// and its mirror `[len - upper, len - lower)`; those bins are cleared by a
/// band-pass filter.
pub open spec fn outside_band(i: int, len: int, lower: int, upper: int) -> bool {
    !(lower <= i < upper) && !(len - upper <= i < len - lower)
}

/// Sets the bins outside the two-sided band `[lower, upper)` to `zero`.
pub fn filter_band<T: Copy>(bins: &mut [T], lower: usize, upper: usize, zero: T)
    requires
        lower <= upper <= old(bins)@.len() / 2,
    ensures
        final(bins)@.len() == old(bins)@.len(),
        forall|i: int|
            0 <= i < old(bins)@.len() ==> #[trigger] final(bins)@[i] == if outside_band(
                i,
                old(bins)@.len() as int,
                lower as int,
                upper as int,
            ) {
                zero
            } else {
                old(bins)@[i]
            },
{
    let len = bins.len();
    let mut i: usize = 0;
    while i < len
        invariant
            len == bins@.len() == old(bins)@.len(),
            lower <= upper <= len / 2,
            i <= len,
            forall|j: int|
                0 <= j < i ==> #[trigger] bins@[j] == if outside_band(
                    j,
                    len as int,
                    lower as int,
                    upper as int,
                ) {
                    zero
                } else {
                    old(bins)@[j]
                },
            forall|j: int| i <= j < len ==> #[trigger] bins@[j] == old(bins)@[j],
        decreases len - i,
    {
        let inside = (lower <= i && i < upper) || (len - upper <= i && i < len - lower);
        if !inside {
            bins[i] = zero;
        }
        i = i + 1;
    }
}

} // verus!
