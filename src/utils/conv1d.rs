//! One-dimensional discrete convolution of integer signals.
//!
//! Samples and kernel taps are `i32`; sums are accumulated in `i128`, which
//! cannot overflow for any slice length that fits in memory.
use vstd::prelude::*;

verus! {

/// Why a `valid` convolution was refused.
#[derive(Debug, Clone, Copy, PartialEq, Eq)]
pub enum Error {
    IncorrectOutputSize,
    SignalShorterThanKernel,
}

/// Largest magnitude of a product of two `i32` values.
pub open spec fn product_bound() -> int {
    0x4000_0000_0000_0000
}

/// Contribution of kernel tap `j` when the kernel starts at signal index `offset`;
/// signal positions outside the signal count as zero.
pub open spec fn tap(signal: Seq<i32>, kernel: Seq<i32>, offset: int, j: int) -> int {
    if 0 <= offset + j < signal.len() {
        signal[offset + j] * kernel[j]
    } else {
        0
    }
}

/// Sum of the first `n` taps of `kernel` laid over `signal` from index `offset`.
pub open spec fn window_sum(signal: Seq<i32>, kernel: Seq<i32>, offset: int, n: int) -> int
    decreases n,
{
    if n <= 0 {
        0
    } else {
        window_sum(signal, kernel, offset, n - 1) + tap(signal, kernel, offset, n - 1)
    }
}

/// Output `i` of the `same` convolution: the kernel is centred on sample `i`.
pub open spec fn same_at(signal: Seq<i32>, kernel: Seq<i32>, i: int) -> int {
    window_sum(signal, kernel, i - kernel.len() / 2, kernel.len() as int)
}

/// Output `i` of the `valid` convolution: the kernel starts at sample `i`.
pub open spec fn valid_at(signal: Seq<i32>, kernel: Seq<i32>, i: int) -> int {
    window_sum(signal, kernel, i, kernel.len() as int)
}

/// Number of outputs of a `valid` convolution.
pub open spec fn valid_len(signal: int, kernel: int) -> int {
    signal - kernel + 1
}

proof fn lemma_tap_bound(signal: Seq<i32>, kernel: Seq<i32>, offset: int, j: int)
    requires
        0 <= j < kernel.len(),
    ensures
        -product_bound() <= tap(signal, kernel, offset, j) <= product_bound(),
{
    if 0 <= offset + j < signal.len() {
        let a = signal[offset + j] as int;
        let b = kernel[j] as int;
        assert(-0x8000_0000 <= a <= 0x7fff_ffff);
        assert(-0x8000_0000 <= b <= 0x7fff_ffff);
        assert(-0x4000_0000_0000_0000 <= a * b <= 0x4000_0000_0000_0000) by (nonlinear_arith)
            requires
                -0x8000_0000 <= a <= 0x7fff_ffff,
                -0x8000_0000 <= b <= 0x7fff_ffff,
        ;
    }
}

/// Sum of the first `n` taps, accumulated in `i128`.
fn window_sum_exec(signal: &[i32], kernel: &[i32], offset: i128, n: usize) -> (r: i128)
    requires
        n <= kernel@.len(),
        -0x1_0000_0000_0000_0000 <= offset <= 0x1_0000_0000_0000_0000,
    ensures
        r == window_sum(signal@, kernel@, offset as int, n as int),
{
    let mut acc: i128 = 0;
    let mut j: usize = 0;
    while j < n
        invariant
            j <= n <= kernel@.len(),
            -0x1_0000_0000_0000_0000 <= offset <= 0x1_0000_0000_0000_0000,
            acc == window_sum(signal@, kernel@, offset as int, j as int),
            -(j as int) * product_bound() <= acc <= (j as int) * product_bound(),
        decreases n - j,
    {
        proof {
            lemma_tap_bound(signal@, kernel@, offset as int, j as int);
        }
        let pos: i128 = offset + j as i128;
        if 0 <= pos && pos < signal.len() as i128 {
            let p: i128 = (signal[pos as usize] as i128) * (kernel[j] as i128);
            acc = acc + p;
        }
        j = j + 1;
    }
    acc
}

/// `signal.len() - kernel.len() + 1`, the output length of a `valid` convolution.
pub fn valid_result_length(signal: usize, kernel: usize) -> (r: usize)
    requires
        kernel <= signal,
        signal - kernel < usize::MAX,
    ensures
        r == valid_len(signal as int, kernel as int),
{
    signal - kernel + 1
}

/// Convolution that keeps the signal's length: output `i` centres the kernel on
/// sample `i`, with samples outside the signal taken as zero.
pub fn same(signal: &[i32], kernel: &[i32], result: &mut [i128])
    requires
        old(result)@.len() == signal@.len(),
    ensures
        final(result)@.len() == signal@.len(),
        forall|i: int|
            0 <= i < signal@.len() ==> #[trigger] final(result)@[i] == same_at(signal@, kernel@, i),
{
    let half: i128 = (kernel.len() / 2) as i128;
    let n = result.len();
    let mut i: usize = 0;
    while i < n
        invariant
            n == result@.len() == signal@.len(),
            i <= n,
            half == kernel@.len() / 2,
            forall|k: int| 0 <= k < i ==> #[trigger] result@[k] == same_at(signal@, kernel@, k),
        decreases n - i,
    {
        let v = window_sum_exec(signal, kernel, i as i128 - half, kernel.len());
        result[i] = v;
        i = i + 1;
    }
}

/// Convolution over the positions where the whole kernel lies inside the signal.
pub fn valid(signal: &[i32], kernel: &[i32], result: &mut [i128]) -> (r: Result<(), Error>)
    requires
        kernel@.len() > 0,
    ensures
        signal@.len() < kernel@.len() ==> r == Err::<(), Error>(Error::SignalShorterThanKernel),
        signal@.len() >= kernel@.len() && old(result)@.len() != valid_len(
            signal@.len() as int,
            kernel@.len() as int,
        ) ==> r == Err::<(), Error>(Error::IncorrectOutputSize),
        r is Err ==> final(result)@ == old(result)@,
        r is Ok <==> (signal@.len() >= kernel@.len() && old(result)@.len() == valid_len(
            signal@.len() as int,
            kernel@.len() as int,
        )),
        r is Ok ==> forall|i: int|
            0 <= i < final(result)@.len() ==> #[trigger] final(result)@[i] == valid_at(
                signal@,
                kernel@,
                i,
            ),
        final(result)@.len() == old(result)@.len(),
{
    if signal.len() < kernel.len() {
        return Err(Error::SignalShorterThanKernel);
    }
    if result.len() != valid_result_length(signal.len(), kernel.len()) {
        return Err(Error::IncorrectOutputSize);
    }
    let n = result.len();
    let mut i: usize = 0;
    while i < n
        invariant
            n == result@.len() == signal@.len() - kernel@.len() + 1,
            i <= n,
            forall|k: int| 0 <= k < i ==> #[trigger] result@[k] == valid_at(signal@, kernel@, k),
        decreases n - i,
    {
        let v = window_sum_exec(signal, kernel, i as i128, kernel.len());
        result[i] = v;
        i = i + 1;
    }
    Ok(())
}

} // verus!
