//! Convolution, order statistics, rolling averages and bit packing.
use vstd::prelude::*;
use vstd::relations::{sorted_by, total_ordering};

pub mod conv1d;

verus! {

/// Ascending order on `i128`, the order of every sort in this crate.
pub open spec fn ascending() -> spec_fn(i128, i128) -> bool {
    |a: i128, b: i128| a <= b
}

/// The pseudo-median of `s`: the element at index `len / 2` of `s` sorted ascending.
pub open spec fn median_of(s: Seq<i128>) -> i128 {
    s.sort_by(ascending())[(s.len() / 2) as int]
}

/// Relies on `slice::sort`: sorts the values ascending, keeping each of them.
#[verifier::external_body]
fn sort_ascending(v: &mut Vec<i128>)
    ensures
        sorted_by(final(v)@, ascending()),
        final(v)@.to_multiset() == old(v)@.to_multiset(),
{
    v.sort();
}

proof fn lemma_ascending_total()
    ensures
        total_ordering(ascending()),
{
    let r = ascending();
    assert(vstd::relations::reflexive(r));
    assert(vstd::relations::antisymmetric(r));
    assert(vstd::relations::transitive(r));
    assert(vstd::relations::strongly_connected(r));
}

/// A sequence sorted ascending is its own sorted form.
proof fn lemma_sorted_is_sort(s: Seq<i128>, t: Seq<i128>)
    requires
        sorted_by(t, ascending()),
        t.to_multiset() == s.to_multiset(),
    ensures
        s.sort_by(ascending()) == t,
{
    lemma_ascending_total();
    s.lemma_sort_by_ensures(ascending());
    vstd::seq_lib::lemma_sorted_unique(s.sort_by(ascending()), t, ascending());
}

/// The median of a sequence that is already sorted is its middle element.
pub proof fn lemma_median_of_sorted(s: Seq<i128>)
    requires
        s.len() > 0,
        sorted_by(s, ascending()),
    ensures
        median_of(s) == s[(s.len() / 2) as int],
{
    lemma_sorted_is_sort(s, s);
}

/// The median of one value is that value.
pub proof fn lemma_median_of_single(x: i128)
    ensures
        median_of(seq![x]) == x,
{
    let s = seq![x];
    assert(sorted_by(s, ascending()));
    lemma_median_of_sorted(s);
}

/// Element at index `len / 2` of the input sorted ascending; no averaging for
/// even lengths. Fails on an empty input.
pub fn median_non_averaged(input: &[i128]) -> (r: Result<i128, ()>)
    ensures
        input@.len() == 0 <==> r is Err,
        input@.len() > 0 ==> r == Ok::<i128, ()>(median_of(input@)),
        input@.len() == 1 ==> r == Ok::<i128, ()>(input@[0]),
        input@.len() > 0 && sorted_by(input@, ascending()) ==> r == Ok::<i128, ()>(
            input@[(input@.len() / 2) as int],
        ),
{
    let mut ordered: Vec<i128> = Vec::new();
    let mut i: usize = 0;
    while i < input.len()
        invariant
            i <= input@.len(),
            ordered@ == input@.subrange(0, i as int),
        decreases input@.len() - i,
    {
        ordered.push(input[i]);
        i = i + 1;
    }
    assert(ordered@ == input@);
    if input.len() == 0 {
        return Err(());
    }
    sort_ascending(&mut ordered);
    proof {
        broadcast use vstd::seq_lib::group_to_multiset_ensures;

        assert(ordered@.len() == ordered@.to_multiset().len());
        assert(input@.len() == input@.to_multiset().len());
        lemma_sorted_is_sort(input@, ordered@);
        if input@.len() == 1 {
            assert(input@ =~= seq![input@[0]]);
            lemma_median_of_single(input@[0]);
        }
        if sorted_by(input@, ascending()) {
            lemma_median_of_sorted(input@);
        }
    }
    Ok(ordered[ordered.len() / 2])
}

/// Sum over neighbouring pairs of `+1` for a non-decreasing step and `-1` for a
/// decreasing one, over the first `n` pairs.
pub open spec fn step_balance(s: Seq<i128>, n: int) -> int
    decreases n,
{
    if n <= 0 {
        0
    } else {
        step_balance(s, n - 1) + if s[n - 1] <= s[n] {
            1int
        } else {
            -1int
        }
    }
}

/// Non-maximum suppression test: as many rising as falling steps. On three
/// samples this holds exactly when the middle one is a local extremum.
pub fn nms(input: &[i128]) -> (r: bool)
    ensures
        r == (input@.len() < 2 || step_balance(input@, input@.len() - 1) == 0),
        input@.len() == 3 ==> (r <==> ((input@[0] <= input@[1]) != (input@[1] <= input@[2]))),
{
    if input.len() < 2 {
        return true;
    }
    let mut sum: i128 = 0;
    let mut i: usize = 0;
    let n = input.len() - 1;
    while i < n
        invariant
            n == input@.len() - 1,
            i <= n,
            sum == step_balance(input@, i as int),
            -(i as int) <= sum <= i as int,
        decreases n - i,
    {
        if input[i] <= input[i + 1] {
            sum = sum + 1;
        } else {
            sum = sum - 1;
        }
        i = i + 1;
    }
    proof {
        if input@.len() == 3 {
            reveal_with_fuel(step_balance, 3);
        }
    }
    sum == 0
}

/// The first `min(size, input.len())` elements of `input`.
pub fn begin_upper_limit_slice<T>(input: &[T], size: usize) -> (r: &[T])
    ensures
        r@ == input@.subrange(0, if size < input@.len() { size as int } else { input@.len() as int }),
{
    let len = input.len();
    let end = if size < len { size } else { len };
    &input[0..end]
}

/// `(value * internal_weight + v * w) / (internal_weight + w)`, rounded down.
pub open spec fn weighted(value: int, internal_weight: int, v: int, w: int) -> int {
    (value * internal_weight + v * w) / (internal_weight + w)
}

/// Rolling weighted mean: the held value weighs `internal_weight` against each
/// new value's own weight.
pub struct WindowedWeightedAverage {
    value: u64,
    internal_weight: u64,
}

impl WindowedWeightedAverage {
    /// The current mean.
    pub closed spec fn spec_value(&self) -> u64 {
        self.value
    }

    /// The fixed weight of the held mean.
    pub closed spec fn spec_internal_weight(&self) -> u64 {
        self.internal_weight
    }

    pub fn new(initial_value: u64, internal_weight: u64) -> (r: Self)
        ensures
            r.spec_value() == initial_value,
            r.spec_internal_weight() == internal_weight,
    {
        Self { value: initial_value, internal_weight }
    }

    pub fn value(&self) -> (r: u64)
        ensures
            r == self.spec_value(),
    {
        self.value
    }

    /// Folds `value` with weight `weight` into the mean.
    pub fn acc(&mut self, value: u64, weight: u64)
        requires
            old(self).spec_internal_weight() + weight > 0,
            old(self).spec_value() * old(self).spec_internal_weight() + value * weight
                <= u128::MAX,
        ensures
            final(self).spec_internal_weight() == old(self).spec_internal_weight(),
            final(self).spec_value() == weighted(
                old(self).spec_value() as int,
                old(self).spec_internal_weight() as int,
                value as int,
                weight as int,
            ),
    {
        let a: u128 = self.value as u128 * self.internal_weight as u128;
        let b: u128 = value as u128 * weight as u128;
        let d: u128 = self.internal_weight as u128 + weight as u128;
        proof {
            lemma_weighted_between(
                self.value as int,
                self.internal_weight as int,
                value as int,
                weight as int,
                0,
                u64::MAX as int,
            );
        }
        let q: u128 = (a + b) / d;
        self.value = q as u64;
    }
}

/// A weighted mean of two values in `[lo, hi]` lies in `[lo, hi]`: the rolling
/// mean stays between the least and the greatest value it has taken in.
pub proof fn lemma_weighted_between(value: int, internal_weight: int, v: int, w: int, lo: int, hi: int)
    requires
        internal_weight >= 0,
        w >= 0,
        internal_weight + w > 0,
        lo <= value <= hi,
        lo <= v <= hi,
    ensures
        lo <= weighted(value, internal_weight, v, w) <= hi,
{
    let d = internal_weight + w;
    let n = value * internal_weight + v * w;
    assert(lo * d <= n <= hi * d) by (nonlinear_arith)
        requires
            internal_weight >= 0,
            w >= 0,
            d == internal_weight + w,
            n == value * internal_weight + v * w,
            lo <= value <= hi,
            lo <= v <= hi,
    ;
    vstd::arithmetic::div_mod::lemma_div_is_ordered(lo * d, n, d);
    vstd::arithmetic::div_mod::lemma_div_is_ordered(n, hi * d, d);
    vstd::arithmetic::div_mod::lemma_div_multiples_vanish(lo, d);
    vstd::arithmetic::div_mod::lemma_div_multiples_vanish(hi, d);
}

/// Folding the larger of two values, with the same positive weight, into two
/// equal averages never leaves the first above the second.
pub proof fn lemma_acc_monotone(a: WindowedWeightedAverage, v1: u64, v2: u64, w: u64)
    requires
        w > 0,
        v1 <= v2,
    ensures
        weighted(a.spec_value() as int, a.spec_internal_weight() as int, v1 as int, w as int)
            <= weighted(a.spec_value() as int, a.spec_internal_weight() as int, v2 as int, w as int),
{
    lemma_weighted_monotone(
        a.spec_value() as int,
        a.spec_internal_weight() as int,
        v1 as int,
        v2 as int,
        w as int,
    );
}

/// Folding a value into the average keeps it between the least and the
/// greatest value it has held or taken in.
pub proof fn lemma_acc_between(a: WindowedWeightedAverage, v: u64, w: u64, lo: int, hi: int)
    requires
        a.spec_internal_weight() + w > 0,
        lo <= a.spec_value() <= hi,
        lo <= v <= hi,
    ensures
        lo <= weighted(a.spec_value() as int, a.spec_internal_weight() as int, v as int, w as int)
            <= hi,
{
    lemma_weighted_between(
        a.spec_value() as int,
        a.spec_internal_weight() as int,
        v as int,
        w as int,
        lo,
        hi,
    );
}

/// With a positive weight, folding in a larger value never gives a smaller mean.
pub proof fn lemma_weighted_monotone(value: int, internal_weight: int, v1: int, v2: int, w: int)
    requires
        internal_weight >= 0,
        w > 0,
        v1 <= v2,
    ensures
        weighted(value, internal_weight, v1, w) <= weighted(value, internal_weight, v2, w),
{
    let d = internal_weight + w;
    assert(value * internal_weight + v1 * w <= value * internal_weight + v2 * w) by (nonlinear_arith)
        requires
            w > 0,
            v1 <= v2,
    ;
    vstd::arithmetic::div_mod::lemma_div_is_ordered(
        value * internal_weight + v1 * w,
        value * internal_weight + v2 * w,
        d,
    );
}

/// Bit `n` of `b`, counting from the most significant bit (`n == 0`).
pub open spec fn byte_bit(b: u8, n: u8) -> bool {
    b & (0x80u8 >> n) != 0
}

/// Bit `i` of a byte string, most significant bit of each byte first.
pub open spec fn bytes_bit(bytes: Seq<u8>, i: int) -> bool {
    byte_bit(bytes[i / 8], (i % 8) as u8)
}

/// Append-only sequence of bits packed into bytes, most significant bit first.
pub struct BitVec {
    s: Vec<u8>,
    bl: usize,
}

impl View for BitVec {
    type V = Seq<bool>;

    closed spec fn view(&self) -> Seq<bool> {
        Seq::new(self.bl as nat, |i: int| bytes_bit(self.s@, i))
    }
}

impl BitVec {
    /// Just the bytes that the bits need, and every bit past the end clear.
    pub closed spec fn wf(&self) -> bool {
        &&& self.s@.len() == (self.bl as int + 7) / 8
        &&& forall|i: int| self.bl <= i < self.s@.len() * 8 ==> !#[trigger] bytes_bit(self.s@, i)
    }

    /// The packed bytes: as many as the bits need, with the unused low bits of
    /// the last one clear.
    pub closed spec fn spec_bytes(&self) -> Seq<u8> {
        self.s@
    }

    pub fn new() -> (r: Self)
        ensures
            r.wf(),
            r@ == Seq::<bool>::empty(),
    {
        let r = Self { s: Vec::new(), bl: 0 };
        assert(r@ =~= Seq::<bool>::empty());
        r
    }

    pub fn push(&mut self, value: bool)
        requires
            old(self).wf(),
            old(self)@.len() < usize::MAX,
        ensures
            final(self).wf(),
            final(self)@ == old(self)@.push(value),
    {
        let ghost old_s = self.s@;
        let pos = self.bl % 8;
        if pos == 0 {
            self.s.push(0u8);
        }
        let last = self.s.len() - 1;
        assert(last as int == self.bl as int / 8);
        let updated = Self::set_bit(self.s[last], pos, value);
        self.s.set(last, updated);
        self.bl = self.bl + 1;
        proof {
            assert forall|i: int| 0 <= i < self.s@.len() * 8 && i != old(self).bl implies
                #[trigger] bytes_bit(self.s@, i) == (if i / 8 == last as int && pos == 0 {
                    false
                } else {
                    bytes_bit(old_s, i)
                }) by {
                if i / 8 == last as int {
                    assert((i % 8) as u8 != pos as u8);
                    if pos == 0 {
                        let m = (i % 8) as u8;
                        assert(0u8 & (0x80u8 >> m) == 0) by (bit_vector);
                    }
                } else {
                    assert(self.s@[i / 8] == old_s[i / 8]);
                }
            }
            assert(bytes_bit(self.s@, old(self).bl as int) == value);
            assert(self@ =~= old(self)@.push(value));
        }
    }

    pub fn len(&self) -> (r: usize)
        ensures
            r == self@.len(),
    {
        self.bl
    }

    /// Bit `n` of `b`, counting from the most significant bit.
    pub fn read_bit(b: u8, n: u8) -> (r: bool)
        requires
            n < 8,
        ensures
            r == byte_bit(b, n),
    {
        let r = b & (0b_1_u8 << (7 - n)) != 0u8;
        assert(b & (1u8 << (7 - n) as u8) == b & (0x80u8 >> n)) by (bit_vector)
            requires
                n < 8,
        ;
        r
    }

    /// Drops the bits after the last whole byte.
    pub fn truncate_last_incomplete_byte(&mut self)
        requires
            old(self).wf(),
        ensures
            final(self).wf(),
            final(self)@ == old(self)@.subrange(0, ((old(self)@.len() / 8) * 8) as int),
    {
        if self.bl % 8 > 0 {
            let ghost old_s = self.s@;
            let n = self.s.len() - 1;
            self.s.truncate(n);
            self.bl = (self.bl / 8) * 8;
            proof {
                assert forall|i: int| 0 <= i < self.s@.len() * 8 implies #[trigger] bytes_bit(
                    self.s@,
                    i,
                ) == bytes_bit(old_s, i) by {
                    assert(self.s@[i / 8] == old_s[i / 8]);
                }
                assert(self@ =~= old(self)@.subrange(0, ((old(self)@.len() / 8) * 8) as int));
            }
        } else {
            assert(self@ =~= old(self)@.subrange(0, ((old(self)@.len() / 8) * 8) as int));
        }
    }

    /// `b` with bit `n` (from the most significant) set to `value`.
    pub fn set_bit(b: u8, n: usize, value: bool) -> (r: u8)
        requires
            n < 8,
        ensures
            forall|m: u8| m < 8 ==> #[trigger] byte_bit(r, m) == if m == n as u8 {
                value
            } else {
                byte_bit(b, m)
            },
    {
        let k = n as u8;
        let bit = 0b_1_u8 << (7 - k);
        let result = b & !bit;
        let r = if value {
            result | bit
        } else {
            result
        };
        assert forall|m: u8| m < 8 implies #[trigger] byte_bit(r, m) == if m == k {
            value
        } else {
            byte_bit(b, m)
        } by {
            if value {
                assert(r == (b & !(1u8 << (7 - k) as u8)) | (1u8 << (7 - k) as u8));
                assert(((b & !(1u8 << (7 - k) as u8)) | (1u8 << (7 - k) as u8)) & (0x80u8 >> m)
                    != 0 <==> (m == k || b & (0x80u8 >> m) != 0)) by (bit_vector)
                    requires
                        m < 8,
                        k < 8,
                ;
            } else {
                assert(r == b & !(1u8 << (7 - k) as u8));
                assert((b & !(1u8 << (7 - k) as u8)) & (0x80u8 >> m) != 0 <==> (m != k && b & (
                0x80u8 >> m) != 0)) by (bit_vector)
                    requires
                        m < 8,
                        k < 8,
                ;
            }
        }
        r
    }

    /// The packed bytes.
    pub fn byte_vec(&self) -> (r: &Vec<u8>)
        requires
            self.wf(),
        ensures
            r@ == self.spec_bytes(),
            r@.len() == (self@.len() + 7) / 8,
            forall|i: int| 0 <= i < r@.len() * 8 ==> #[trigger] bytes_bit(r@, i) == (i < self@.len()
                && self@[i]),
    {
        &self.s
    }
}

} // verus!
