//! Bounded-error percentile histogram.
//!
//! Non-negative integer samples are counted in a fixed-shape table of
//! buckets laid out log-linearly: values below `resolution` get a bucket
//! each, and every further doubling of the value range is split into
//! `resolution / 2` equal-width buckets.  `resolution` is `2 * 10^d` for a
//! configured number `d` of significant decimal digits, so the value
//! reported for a bucket overstates a sample in it by at most one part in
//! `10^d`.  Recording and merging only add bucket weight; a percentile
//! query returns the upper bound of the first bucket at which the running
//! count reaches the requested share of all samples.

use vstd::prelude::*;
use vstd::arithmetic::div_mod::{
    lemma_div_is_ordered, lemma_div_denominator, lemma_fundamental_div_mod,
    lemma_fundamental_div_mod_converse, lemma_div_pos_is_pos,
    lemma_div_is_strictly_smaller, lemma_multiply_divide_lt,
};
use vstd::arithmetic::mul::{
    lemma_mul_inequality, lemma_mul_upper_bound, lemma_mul_is_distributive_add_other_way,
    lemma_mul_strict_inequality,
};
use vstd::arithmetic::power2::{pow2, lemma_pow2_adds, lemma_pow2_pos, lemma2_to64};

verus! {

/// Number of doublings of the value range tracked beyond the linear range,
/// and so the largest bucket row index.
pub const MAX_SCALE: u64 = 24;

/// 10 to the power `e`.
pub open spec fn pow10(e: nat) -> nat
    decreases e,
{
    if e == 0 {
        1
    } else {
        10 * pow10((e - 1) as nat)
    }
}

/// Number of equal-width buckets covering the linear value range
/// `[0, resolution)`, chosen so that bucket widths keep `digits`
/// significant decimal digits.
pub open spec fn spec_resolution(digits: nat) -> nat {
    2 * pow10(digits)
}

/// Total number of buckets for a given resolution: one per value in the
/// linear range, then `resolution / 2` per doubling.
pub open spec fn spec_bucket_count(r: int) -> int {
    r + (MAX_SCALE as int) * (r / 2)
}

/// Largest value that a histogram of the given resolution can record.
pub open spec fn spec_max_trackable(r: int) -> int {
    r * pow2(MAX_SCALE as nat) as int - 1
}

/// Bucket row (number of halvings applied to a value before it falls in
/// the linear range): the least `s` with `v / 2^s < r`.
pub open spec fn scale_of(v: int, r: int) -> int
    decreases v when 2 <= r
{
    if v < r {
        0
    } else {
        1 + scale_of(v / 2, r)
    }
}

/// Bucket index of a recorded value.  Values below `r` are their own
/// index; a value of row `s >= 1` halves to a column in `[r/2, r)`, and
/// each row beyond the first contributes `r/2` buckets.
pub open spec fn idx_of(v: int, r: int) -> int {
    if v < r {
        v
    } else {
        let s = scale_of(v, r);
        r + (s - 1) * (r / 2) + (v / pow2(s as nat) as int - r / 2)
    }
}

/// Row of a bucket index.
pub open spec fn row_of(i: int, r: int) -> int {
    if i < r {
        0
    } else {
        1 + (i - r) / (r / 2)
    }
}

/// Column (value after halvings) of a bucket index.
pub open spec fn col_of(i: int, r: int) -> int {
    if i < r {
        i
    } else {
        r / 2 + (i - r) % (r / 2)
    }
}

/// Largest value falling into a bucket: the value reported for it.
pub open spec fn rep_of(i: int, r: int) -> int {
    (col_of(i, r) + 1) * pow2(row_of(i, r) as nat) as int - 1
}

/// Sum of the first `n` bucket counts.
pub open spec fn sum_counts(s: Seq<u64>, n: int) -> int
    decreases n,
{
    if n <= 0 {
        0
    } else {
        sum_counts(s, n - 1) + s[n - 1]
    }
}

/// The mathematical content of a histogram: its precision and its bucket
/// counts.
#[verifier::ext_equal]
pub ghost struct HistogramView {
    pub sig_digits: nat,
    pub counts: Seq<u64>,
}

/// Total number of recorded samples.
pub open spec fn total_of(h: HistogramView) -> int {
    sum_counts(h.counts, h.counts.len() as int)
}

/// The empty histogram of a given precision.
pub open spec fn spec_empty_hist(digits: nat) -> HistogramView {
    HistogramView {
        sig_digits: digits,
        counts: Seq::new(
            spec_bucket_count(spec_resolution(digits) as int) as nat,
            |i: int| 0u64,
        ),
    }
}

/// A structurally valid histogram: supported precision, the fixed bucket
/// table shape for that precision, and a machine-representable total.
pub open spec fn wf_hist(h: HistogramView) -> bool {
    &&& h.sig_digits <= 5
    &&& h.counts.len() == spec_bucket_count(spec_resolution(h.sig_digits) as int)
    &&& total_of(h) <= u64::MAX
}

/// The histogram after one more sample of the given value.
pub open spec fn spec_record(h: HistogramView, value: int) -> HistogramView {
    let r = spec_resolution(h.sig_digits) as int;
    let i = idx_of(value, r);
    HistogramView { counts: h.counts.update(i, (h.counts[i] + 1) as u64), ..h }
}

/// Bucket-wise sum of two histograms of equal shape.
pub open spec fn spec_merge(a: HistogramView, b: HistogramView) -> HistogramView {
    HistogramView {
        counts: Seq::new(a.counts.len(), |i: int| (a.counts[i] + b.counts[i]) as u64),
        ..a
    }
}

/// Number of samples that a percentile query must cover: the least count
/// amounting to `p` percent of `total`, and at least one sample.
pub open spec fn target_count(total: int, p: int) -> int {
    let t = (p * total + 99) / 100;
    if t < 1 {
        1
    } else {
        t
    }
}

/// First bucket index at or after `i` at which the running count reaches
/// `target`, or the bucket count if none does.
pub open spec fn vap_idx(counts: Seq<u64>, target: int, i: int) -> int
    decreases counts.len() - i when 0 <= i <= counts.len()
{
    if i >= counts.len() {
        counts.len() as int
    } else if sum_counts(counts, i + 1) >= target {
        i
    } else {
        vap_idx(counts, target, i + 1)
    }
}

/// The value at percentile `p`: the smallest bucket value below which at
/// least `p` percent of all recorded samples fall, or 0 for an empty
/// histogram.
pub open spec fn spec_value_at_percentile(h: HistogramView, p: int) -> int {
    let r = spec_resolution(h.sig_digits) as int;
    if total_of(h) == 0 {
        0
    } else {
        rep_of(vap_idx(h.counts, target_count(total_of(h), p), 0), r)
    }
}

/// Why a histogram operation was refused.
#[derive(Clone, Copy, Debug, PartialEq, Eq, Structural)]
pub enum HistogramError {
    /// The requested number of significant digits is not supported.
    InvalidPrecision,
    /// The value exceeds the largest trackable value for this precision.
    ValueOutOfRange,
    /// The two histograms were configured with different precisions.
    IncompatibleConfiguration,
    /// Recording would overflow the histogram's sample counter.
    CapacityExceeded,
}

/// A mergeable histogram of non-negative integer samples with bounded
/// relative error and memory independent of the number of samples.
pub struct Histogram {
    sig_digits: u8,
    resolution: u64,
    counts: Vec<u64>,
    total: u64,
}

impl View for Histogram {
    type V = HistogramView;

    closed spec fn view(&self) -> HistogramView {
        HistogramView { sig_digits: self.sig_digits as nat, counts: self.counts@ }
    }
}

impl Histogram {
    /// Structural validity plus agreement of the cached resolution and
    /// total with the bucket table.
    pub closed spec fn well_formed(self) -> bool {
        &&& wf_hist(self@)
        &&& self.resolution == spec_resolution(self.sig_digits as nat)
        &&& self.total == total_of(self@)
    }

    /// A well-formed histogram has a structurally valid view.
    pub proof fn lemma_well_formed_view(&self)
        requires
            self.well_formed(),
        ensures
            wf_hist(self@),
    {
    }

    /// Creates an empty histogram keeping `sig_digits` significant decimal
    /// digits; precisions above 5 digits are refused.
    pub fn new(sig_digits: u8) -> (result: Result<Histogram, HistogramError>)
        ensures
            sig_digits <= 5 ==> {
                &&& result is Ok
                &&& result.unwrap().well_formed()
                &&& result.unwrap()@.sig_digits == sig_digits as nat
                &&& result.unwrap()@ == spec_empty_hist(sig_digits as nat)
                &&& total_of(result.unwrap()@) == 0
            },
            sig_digits > 5 ==> result == Err::<Histogram, HistogramError>(
                HistogramError::InvalidPrecision,
            ),
    {
        if sig_digits > 5 {
            return Err(HistogramError::InvalidPrecision);
        }
        proof {
            lemma_pow10_bounds(sig_digits as nat);
        }
        let resolution: u64 = 2 * pow10_u64(sig_digits);
        let bucket_count: u64 = resolution + MAX_SCALE * (resolution / 2);
        let counts: Vec<u64> = vec![0u64; bucket_count as usize];
        let h = Histogram { sig_digits, resolution, counts, total: 0 };
        proof {
            lemma_sum_all_zero(h.counts@, h.counts@.len() as int);
            assert(h@ =~= spec_empty_hist(sig_digits as nat));
        }
        Ok(h)
    }

    /// The configured number of significant decimal digits.
    pub fn precision_digits(&self) -> (d: u8)
        requires
            self.well_formed(),
        ensures
            d as nat == self@.sig_digits,
    {
        self.sig_digits
    }

    /// Number of samples recorded so far.
    pub fn total_count(&self) -> (t: u64)
        requires
            self.well_formed(),
        ensures
            t == total_of(self@),
    {
        self.total
    }

    /// The largest value this histogram can record.
    pub fn max_trackable(&self) -> (m: u64)
        requires
            self.well_formed(),
        ensures
            m == spec_max_trackable(spec_resolution(self@.sig_digits) as int),
    {
        proof {
            lemma_pow10_bounds(self.sig_digits as nat);
            lemma2_to64();
        }
        self.resolution * 16777216 - 1
    }

    /// Counts one sample.  Fails exactly on values beyond the trackable
    /// range, leaving the histogram unchanged.
    pub fn record(&mut self, value: u64) -> (result: Result<(), HistogramError>)
        requires
            old(self).well_formed(),
            total_of(old(self)@) < u64::MAX,
        ensures
            final(self).well_formed(),
            final(self)@.sig_digits == old(self)@.sig_digits,
            value <= spec_max_trackable(spec_resolution(old(self)@.sig_digits) as int) ==> {
                &&& result is Ok
                &&& final(self)@ == spec_record(old(self)@, value as int)
                &&& total_of(final(self)@) == total_of(old(self)@) + 1
            },
            value > spec_max_trackable(spec_resolution(old(self)@.sig_digits) as int) ==> {
                &&& result == Err::<(), HistogramError>(HistogramError::ValueOutOfRange)
                &&& *final(self) == *old(self)
            },
    {
        if value > self.max_trackable() {
            return Err(HistogramError::ValueOutOfRange);
        }
        let i = self.bucket_index(value);
        proof {
            lemma_sum_bounds(self.counts@, self.counts@.len() as int);
            lemma_sum_mono(self.counts@, i + 1, self.counts@.len() as int);
        }
        let c = self.counts[i];
        self.counts[i] = c + 1;
        self.total = self.total + 1;
        proof {
            lemma_sum_update(old(self).counts@, i as int, (c + 1) as u64,
                old(self).counts@.len() as int);
        }
        Ok(())
    }

    /// Adds every sample of `other` into `self`.  Fails exactly when the
    /// two histograms keep different precisions, leaving `self` unchanged.
    pub fn merge(&mut self, other: &Histogram) -> (result: Result<(), HistogramError>)
        requires
            old(self).well_formed(),
            other.well_formed(),
            total_of(old(self)@) + total_of(other@) <= u64::MAX,
        ensures
            final(self).well_formed(),
            final(self)@.sig_digits == old(self)@.sig_digits,
            old(self)@.sig_digits == other@.sig_digits ==> {
                &&& result is Ok
                &&& final(self)@ == spec_merge(old(self)@, other@)
                &&& total_of(final(self)@) == total_of(old(self)@) + total_of(other@)
            },
            old(self)@.sig_digits != other@.sig_digits ==> {
                &&& result == Err::<(), HistogramError>(HistogramError::IncompatibleConfiguration)
                &&& *final(self) == *old(self)
            },
    {
        if self.sig_digits != other.sig_digits {
            return Err(HistogramError::IncompatibleConfiguration);
        }
        proof {
            lemma_sum_bounds(self.counts@, self.counts@.len() as int);
            lemma_sum_bounds(other.counts@, other.counts@.len() as int);
        }
        let n = self.counts.len();
        let mut i: usize = 0;
        while i < n
            invariant
                n == self.counts@.len(),
                n == old(self).counts@.len(),
                n == other.counts@.len(),
                i <= n,
                forall|j: int| 0 <= j < i ==> self.counts@[j]
                    == (old(self).counts@[j] + other.counts@[j]) as u64,
                forall|j: int| i <= j < n ==> self.counts@[j] == old(self).counts@[j],
                forall|j: int| 0 <= j < n ==> old(self).counts@[j] + other.counts@[j] <= u64::MAX,
                self.sig_digits == old(self).sig_digits,
                self.resolution == old(self).resolution,
                self.total == old(self).total,
            decreases n - i,
        {
            let a = self.counts[i];
            let b = other.counts[i];
            self.counts[i] = a + b;
            i = i + 1;
        }
        self.total = self.total + other.total;
        proof {
            assert(self.counts@ =~= spec_merge(old(self)@, other@).counts);
            assert(self@ =~= spec_merge(old(self)@, other@));
            lemma_sum_pointwise_add(old(self).counts@, other.counts@, n as int);
        }
        Ok(())
    }

    /// The smallest bucket value below which at least `percentile` percent
    /// of the recorded samples fall; 0 if nothing was recorded.
    pub fn value_at_percentile(&self, percentile: u8) -> (v: u64)
        requires
            self.well_formed(),
            percentile <= 100,
        ensures
            v == spec_value_at_percentile(self@, percentile as int),
    {
        if self.total == 0 {
            return 0;
        }
        let ghost total = total_of(self@) as int;
        proof {
            lemma_mul_upper_bound(percentile as int, 100, self.total as int, u64::MAX as int);
        }
        let t128: u128 = ((percentile as u128) * (self.total as u128) + 99) / 100;
        proof {
            lemma_mul_inequality(percentile as int, 100, self.total as int);
            lemma_div_is_ordered(
                percentile as int * self.total as int + 99,
                100 * self.total as int + 99,
                100,
            );
            lemma_hundred_div(self.total as int);
        }
        let target: u64 = if t128 < 1 {
            1
        } else {
            t128 as u64
        };
        proof {
            assert(1 <= target <= total);
            assert(target == target_count(total, percentile as int));
        }
        let n = self.counts.len();
        let mut i: usize = 0;
        let mut cum: u64 = 0;
        loop
            invariant
                self.well_formed(),
                n == self.counts@.len(),
                0 <= i <= n,
                cum == sum_counts(self.counts@, i as int),
                cum < target,
                1 <= target <= total,
                total == total_of(self@),
                target == target_count(total, percentile as int),
                vap_idx(self.counts@, target as int, 0) == vap_idx(
                    self.counts@, target as int, i as int),
            decreases n - i,
        {
            proof {
                if i == n {
                    assert(sum_counts(self.counts@, n as int) == total);
                    assert(false);
                }
                lemma_sum_mono(self.counts@, i + 1, n as int);
                lemma_sum_bounds(self.counts@, n as int);
            }
            let c = self.counts[i];
            if cum + c >= target {
                proof {
                    assert(sum_counts(self.counts@, i + 1) == cum + c);
                    assert(vap_idx(self.counts@, target as int, i as int) == i);
                }
                return self.bucket_value(i);
            }
            cum = cum + c;
            i = i + 1;
        }
    }

    /// The bucket counts, one per bucket in index order.
    pub fn bucket_counts(&self) -> (r: &Vec<u64>)
        ensures
            r@ == self@.counts,
    {
        &self.counts
    }

    /// Rebuilds a histogram from a snapshot's parts.  Accepts exactly the
    /// precisions, table shapes and totals that a histogram of this
    /// implementation can have.
    pub(crate) fn from_parts(sig_digits: u8, counts: Vec<u64>) -> (result: Result<
        Histogram,
        HistogramError,
    >)
        ensures
            result is Ok <==> {
                &&& sig_digits <= 5
                &&& counts@.len() == spec_bucket_count(spec_resolution(sig_digits as nat) as int)
                &&& sum_counts(counts@, counts@.len() as int) <= u64::MAX
            },
            result is Ok ==> {
                &&& result.unwrap().well_formed()
                &&& result.unwrap()@ == (HistogramView {
                    sig_digits: sig_digits as nat,
                    counts: counts@,
                })
            },
    {
        if sig_digits > 5 {
            return Err(HistogramError::InvalidPrecision);
        }
        proof {
            lemma_pow10_bounds(sig_digits as nat);
        }
        let resolution: u64 = 2 * pow10_u64(sig_digits);
        let bucket_count: u64 = resolution + MAX_SCALE * (resolution / 2);
        if counts.len() as u64 != bucket_count {
            return Err(HistogramError::IncompatibleConfiguration);
        }
        let n = counts.len();
        let mut total: u64 = 0;
        let mut i: usize = 0;
        while i < n
            invariant
                n == counts@.len(),
                i <= n,
                total == sum_counts(counts@, i as int),
            decreases n - i,
        {
            let c = counts[i];
            if c > u64::MAX - total {
                proof {
                    lemma_sum_mono(counts@, i as int + 1, n as int);
                }
                return Err(HistogramError::CapacityExceeded);
            }
            total = total + c;
            i = i + 1;
        }
        Ok(Histogram { sig_digits, resolution, counts, total })
    }

    /// Index of the bucket a value falls into.
    fn bucket_index(&self, value: u64) -> (idx: usize)
        requires
            self.well_formed(),
            value <= spec_max_trackable(spec_resolution(self@.sig_digits) as int),
        ensures
            idx == idx_of(value as int, spec_resolution(self@.sig_digits) as int),
            idx < self@.counts.len(),
    {
        let r = self.resolution;
        proof {
            lemma_pow10_bounds(self.sig_digits as nat);
        }
        if value < r {
            return value as usize;
        }
        let mut w = value;
        let mut s: u64 = 0;
        proof {
            lemma2_to64();
            lemma_scale_bound(value as int, r as int, MAX_SCALE as nat);
            lemma_scale_pos(value as int, r as int);
        }
        while w >= r
            invariant
                2 <= r,
                r == spec_resolution(self@.sig_digits),
                w == value as int / pow2(s as nat) as int,
                scale_of(value as int, r as int) == s + scale_of(w as int, r as int),
                s >= 1 ==> value as int / pow2((s - 1) as nat) as int >= r,
                scale_of(value as int, r as int) <= MAX_SCALE,
                s <= scale_of(value as int, r as int),
            decreases w,
        {
            proof {
                lemma_pow2_pos(s as nat);
                lemma_pow2_adds(s as nat, 1);
                lemma2_to64();
                lemma_div_denominator(value as int, pow2(s as nat) as int, 2);
                lemma_scale_pos(w as int, r as int);
                lemma_scale_pos(w as int / 2, r as int);
            }
            w = w / 2;
            s = s + 1;
        }
        proof {
            assert(scale_of(w as int, r as int) == 0);
            assert(s == scale_of(value as int, r as int));
            assert(s >= 1);
            lemma_div_is_ordered(r as int, value as int / pow2((s - 1) as nat) as int, 2);
            lemma_pow2_adds((s - 1) as nat, 1);
            lemma2_to64();
            lemma_div_denominator(value as int, pow2((s - 1) as nat) as int, 2);
            assert(w >= r / 2);
            lemma_mul_upper_bound(s as int - 1, MAX_SCALE as int - 1, r as int / 2, 100000);
        }
        let idx = r + (s - 1) * (r / 2) + (w - r / 2);
        proof {
            lemma_mul_inequality(s as int - 1, MAX_SCALE as int - 1, r as int / 2);
        }
        idx as usize
    }

    /// The value reported for a bucket: the largest value that falls
    /// into it.
    fn bucket_value(&self, i: usize) -> (v: u64)
        requires
            self.well_formed(),
            i < self@.counts.len(),
        ensures
            v == rep_of(i as int, spec_resolution(self@.sig_digits) as int),
    {
        let r = self.resolution;
        proof {
            lemma_pow10_bounds(self.sig_digits as nat);
        }
        if i < r as usize {
            proof {
                lemma2_to64();
                assert(row_of(i as int, r as int) == 0);
                assert(rep_of(i as int, r as int) == (i as int + 1) * pow2(0nat) as int - 1);
            }
            return i as u64;
        }
        let j = (i as u64) - r;
        let half = r / 2;
        let s = 1 + j / half;
        let m = half + j % half;
        proof {
            lemma_fundamental_div_mod(j as int, half as int);
            lemma_multiply_divide_lt(j as int, half as int, MAX_SCALE as int);
            lemma2_to64();
            lemma_pow2_bound(s as nat);
            lemma_mul_upper_bound(m as int + 1, r as int, pow2(s as nat) as int,
                pow2(MAX_SCALE as nat) as int);
            lemma_mul_inequality(1, m as int + 1, pow2(s as nat) as int);
        }
        let p = pow2_u64(s);
        (m + 1) * p - 1
    }
}

/// `10^e` for the supported precisions.
fn pow10_u64(e: u8) -> (r: u64)
    requires
        e <= 5,
    ensures
        r == pow10(e as nat),
{
    let mut p: u64 = 1;
    let mut i: u8 = 0;
    while i < e
        invariant
            i <= e <= 5,
            p == pow10(i as nat),
        decreases e - i,
    {
        proof {
            lemma_pow10_bounds(i as nat);
            lemma_pow10_bounds((i + 1) as nat);
        }
        p = p * 10;
        i = i + 1;
    }
    p
}

/// `2^e` for exponents up to the largest bucket row.
fn pow2_u64(e: u64) -> (r: u64)
    requires
        e <= MAX_SCALE + 1,
    ensures
        r == pow2(e as nat),
{
    let mut p: u64 = 1;
    let mut i: u64 = 0;
    proof {
        lemma2_to64();
    }
    while i < e
        invariant
            i <= e <= MAX_SCALE + 1,
            p == pow2(i as nat),
        decreases e - i,
    {
        proof {
            lemma_pow2_bound(i as nat);
            lemma_pow2_adds(i as nat, 1);
            lemma2_to64();
        }
        p = p * 2;
        i = i + 1;
    }
    p
}

/// Bounds for the supported precisions.
pub proof fn lemma_pow10_bounds(d: nat)
    requires
        d <= 5,
    ensures
        1 <= pow10(d) <= 100000,
        2 <= spec_resolution(d) <= 200000,
        spec_resolution(d) % 2 == 0,
{
    assert(pow10(0) == 1);
    assert(pow10(1) == 10);
    assert(pow10(2) == 100);
    assert(pow10(3) == 1000);
    assert(pow10(4) == 10000);
    assert(pow10(5) == 100000);
}

/// `2^e` stays within the bucket-value range for rows up to the maximum.
proof fn lemma_pow2_bound(e: nat)
    requires
        e <= MAX_SCALE + 1,
    ensures
        1 <= pow2(e) <= 0x2000000,
{
    lemma2_to64();
    if e < 25 {
        vstd::arithmetic::power2::lemma_pow2_strictly_increases(e, 25);
    }
}

/// The scale function is positive on values in or beyond the first
/// doubling row.
proof fn lemma_scale_pos(v: int, r: int)
    requires
        2 <= r,
        v >= 0,
    ensures
        scale_of(v, r) >= 0,
    decreases v,
{
    if v >= r {
        lemma_div_is_strictly_smaller(v, 2);
        lemma_div_pos_is_pos(v, 2);
        lemma_scale_pos(v / 2, r);
    }
}

/// Values below `r * 2^k` have scale at most `k`.
proof fn lemma_scale_bound(v: int, r: int, k: nat)
    requires
        2 <= r,
        0 <= v,
        v < (r * pow2(k) as int),
    ensures
        scale_of(v, r) <= k,
    decreases v,
{
    lemma_pow2_pos(k);
    if v < r {
    } else {
        if k == 0 {
            lemma2_to64();
            assert(r * pow2(k) as int == r) by (nonlinear_arith)
                requires
                    pow2(k) == 1,
            ;
            assert(false);
        }
        lemma_pow2_adds((k - 1) as nat, 1);
        lemma2_to64();
        lemma_pow2_pos((k - 1) as nat);
        assert(v / 2 < (r * pow2((k - 1) as nat) as int)) by {
            lemma_fundamental_div_mod(v, 2);
            assert(r * pow2(k) as int == (r * pow2((k - 1) as nat) as int) * 2) by {
                vstd::arithmetic::mul::lemma_mul_is_associative(
                    r, pow2((k - 1) as nat) as int, 2);
            }
        }
        lemma_div_is_strictly_smaller(v, 2);
        lemma_div_pos_is_pos(v, 2);
        lemma_scale_bound(v / 2, r, (k - 1) as nat);
    }
}

/// `(100 * t + 99) / 100 == t`.
proof fn lemma_hundred_div(t: int)
    requires
        t >= 0,
    ensures
        (100 * t + 99) / 100 == t,
{
    lemma_fundamental_div_mod_converse(100 * t + 99, 100, t, 99);
}

/// A sum of bucket counts is non-negative and bounds each summand.
proof fn lemma_sum_bounds(s: Seq<u64>, n: int)
    requires
        0 <= n <= s.len(),
    ensures
        0 <= sum_counts(s, n),
        forall|i: int| 0 <= i < n ==> s[i] <= sum_counts(s, n),
    decreases n,
{
    if n > 0 {
        lemma_sum_bounds(s, n - 1);
    }
}

/// Prefix sums are monotone in the prefix length.
proof fn lemma_sum_mono(s: Seq<u64>, m: int, n: int)
    requires
        0 <= m <= n <= s.len(),
    ensures
        sum_counts(s, m) <= sum_counts(s, n),
    decreases n,
{
    if m < n {
        lemma_sum_mono(s, m, n - 1);
    }
}

/// A sum over all-zero counts is zero.
proof fn lemma_sum_all_zero(s: Seq<u64>, n: int)
    requires
        0 <= n <= s.len(),
        forall|i: int| 0 <= i < n ==> s[i] == 0,
    ensures
        sum_counts(s, n) == 0,
    decreases n,
{
    if n > 0 {
        lemma_sum_all_zero(s, n - 1);
    }
}

/// A zero sum forces every summand to be zero.
proof fn lemma_sum_zero_all_zero(s: Seq<u64>, n: int)
    requires
        0 <= n <= s.len(),
        sum_counts(s, n) == 0,
    ensures
        forall|i: int| 0 <= i < n ==> s[i] == 0,
    decreases n,
{
    if n > 0 {
        lemma_sum_bounds(s, n - 1);
        lemma_sum_zero_all_zero(s, n - 1);
    }
}

/// Updating one entry shifts the sum by the difference at that entry.
proof fn lemma_sum_update(s: Seq<u64>, i: int, v: u64, n: int)
    requires
        0 <= i < s.len(),
        0 <= n <= s.len(),
    ensures
        n <= i ==> sum_counts(s.update(i, v), n) == sum_counts(s, n),
        i < n ==> sum_counts(s.update(i, v), n) == sum_counts(s, n) - s[i] + v,
    decreases n,
{
    if n > 0 {
        lemma_sum_update(s, i, v, n - 1);
    }
}

/// The sum of a bucket-wise addition is the sum of the two sums.
proof fn lemma_sum_pointwise_add(a: Seq<u64>, b: Seq<u64>, n: int)
    requires
        a.len() == b.len(),
        0 <= n <= a.len(),
        forall|i: int| 0 <= i < a.len() ==> a[i] + b[i] <= u64::MAX,
    ensures
        sum_counts(Seq::new(a.len(), |i: int| (a[i] + b[i]) as u64), n)
            == sum_counts(a, n) + sum_counts(b, n),
    decreases n,
{
    if n > 0 {
        lemma_sum_pointwise_add(a, b, n - 1);
    }
}

/// The found bucket of a percentile query never moves left as the target
/// count grows.
proof fn lemma_vap_idx_mono(counts: Seq<u64>, t1: int, t2: int, i: int)
    requires
        0 <= i <= counts.len(),
        t1 <= t2,
    ensures
        vap_idx(counts, t1, i) <= vap_idx(counts, t2, i),
    decreases counts.len() - i,
{
    if i < counts.len() && sum_counts(counts, i + 1) < t1 {
        lemma_vap_idx_mono(counts, t1, t2, i + 1);
    } else if i < counts.len() && sum_counts(counts, i + 1) >= t2 {
    } else if i < counts.len() {
        lemma_vap_idx_ge(counts, t2, i + 1);
    }
}

/// A percentile query's found bucket lies at or after the start index.
proof fn lemma_vap_idx_ge(counts: Seq<u64>, t: int, i: int)
    requires
        0 <= i <= counts.len(),
    ensures
        i <= vap_idx(counts, t, i) <= counts.len(),
    decreases counts.len() - i,
{
    if i < counts.len() && sum_counts(counts, i + 1) < t {
        lemma_vap_idx_ge(counts, t, i + 1);
    }
}

/// When the target count is reachable, the query finds a bucket strictly
/// inside the table.
proof fn lemma_vap_idx_found(counts: Seq<u64>, t: int, i: int)
    requires
        0 <= i <= counts.len(),
        sum_counts(counts, i) < t,
        t <= sum_counts(counts, counts.len() as int),
    ensures
        i <= vap_idx(counts, t, i) < counts.len(),
        sum_counts(counts, vap_idx(counts, t, i) + 1) >= t,
    decreases counts.len() - i,
{
    if i == counts.len() {
    } else if sum_counts(counts, i + 1) >= t {
    } else {
        lemma_vap_idx_found(counts, t, i + 1);
    }
}

/// In the linear row a bucket's value is its own index.
proof fn lemma_rep_linear(k: int, r: int)
    requires
        2 <= r,
        0 <= k < r,
    ensures
        rep_of(k, r) == k,
{
    lemma2_to64();
    assert((k + 1) * pow2(0nat) as int == k + 1) by (nonlinear_arith)
        requires
            pow2(0nat) == 1,
    ;
}

/// Bucket values grow strictly from each bucket to the next.
proof fn lemma_rep_adjacent(i: int, r: int)
    requires
        2 <= r,
        r % 2 == 0,
        0 <= i,
        i + 1 < spec_bucket_count(r),
    ensures
        rep_of(i, r) < rep_of(i + 1, r),
{
    let half = r / 2;
    lemma2_to64();
    if i + 1 < r {
        lemma_rep_linear(i, r);
        lemma_rep_linear(i + 1, r);
    } else if i + 1 == r {
        // end of the linear row to the first doubling row
        lemma_rep_linear(i, r);
        assert(row_of(i, r) == 0 && col_of(i, r) == i);
        assert((0int) / half == 0 && (0int) % half == 0) by {
            lemma_fundamental_div_mod_converse(0, half, 0, 0);
        }
        assert(row_of(i + 1, r) == 1 && col_of(i + 1, r) == half);
        assert(pow2(1nat) == 2);
        assert(rep_of(i + 1, r) == (half + 1) * 2 - 1);
        assert((half + 1) * 2 == r + 2) by {
            lemma_mul_is_distributive_add_other_way(2, half, 1);
        }
        assert(rep_of(i, r) == i);
        assert(rep_of(i + 1, r) == r + 1);
    } else {
        let j = i - r;
        let q = j / half;
        let m = j % half;
        lemma_fundamental_div_mod(j, half);
        vstd::arithmetic::div_mod::lemma_mod_bound(j, half);
        let s = 1 + q;
        lemma_div_pos_is_pos(j, half);
        lemma_pow2_pos(s as nat);
        lemma_pow2_adds(s as nat, 1);
        if m < half - 1 {
            // next bucket in the same row
            assert((j + 1) / half == q && (j + 1) % half == m + 1) by {
                lemma_fundamental_div_mod_converse(j + 1, half, q, m + 1);
            }
            assert(rep_of(i, r) == (half + m + 1) * pow2(s as nat) as int - 1);
            assert(rep_of(i + 1, r) == (half + m + 2) * pow2(s as nat) as int - 1);
            assert(((half + m + 1) * pow2(s as nat) as int) < ((half + m + 2) * pow2(s as nat) as int)) by {
                lemma_mul_strict_inequality(half + m + 1, half + m + 2, pow2(s as nat) as int);
            }
        } else {
            // last bucket of a row to the first bucket of the next row
            assert((j + 1) / half == q + 1 && (j + 1) % half == 0) by {
                lemma_mul_is_distributive_add_other_way(half, q, 1);
                lemma_fundamental_div_mod_converse(j + 1, half, q + 1, 0);
            }
            assert(rep_of(i, r) == (half + half) * pow2(s as nat) as int - 1);
            assert(rep_of(i + 1, r) == (half + 1) * pow2((s + 1) as nat) as int - 1);
            assert(pow2((s + 1) as nat) as int == pow2(s as nat) as int * 2);
            assert((half + 1) * (pow2(s as nat) as int * 2) == (half + half + 2) * pow2(s as nat)
                as int) by (nonlinear_arith);
            assert(((half + half) * pow2(s as nat) as int) < ((half + half + 2) * pow2(s as nat) as int)) by {
                lemma_mul_strict_inequality(half + half, half + half + 2, pow2(s as nat) as int);
            }
        }
    }
}

/// Bucket values grow with the bucket index.
proof fn lemma_rep_mono(i: int, j: int, r: int)
    requires
        2 <= r,
        r % 2 == 0,
        0 <= i <= j,
        j < spec_bucket_count(r),
    ensures
        rep_of(i, r) <= rep_of(j, r),
    decreases j - i,
{
    if i < j {
        lemma_rep_mono(i, j - 1, r);
        lemma_rep_adjacent(j - 1, r);
    }
}

/// MONOTONICITY LAW: at equal contents, a higher percentile is never
/// answered with a smaller value.
pub proof fn lemma_value_at_percentile_monotone(h: HistogramView, p1: int, p2: int)
    requires
        wf_hist(h),
        0 <= p1 <= p2 <= 100,
    ensures
        spec_value_at_percentile(h, p1) <= spec_value_at_percentile(h, p2),
{
    let r = spec_resolution(h.sig_digits) as int;
    let total = total_of(h);
    lemma_pow10_bounds(h.sig_digits);
    if total != 0 {
        lemma_sum_bounds(h.counts, h.counts.len() as int);
        let t1 = target_count(total, p1);
        let t2 = target_count(total, p2);
        assert(t1 <= t2) by {
            lemma_mul_inequality(p1, p2, total);
            lemma_div_is_ordered(p1 * total + 99, p2 * total + 99, 100);
        }
        assert(t2 <= total) by {
            lemma_mul_inequality(p2, 100, total);
            lemma_div_is_ordered(p2 * total + 99, 100 * total + 99, 100);
            lemma_hundred_div(total);
        }
        let i1 = vap_idx(h.counts, t1, 0);
        let i2 = vap_idx(h.counts, t2, 0);
        lemma_vap_idx_mono(h.counts, t1, t2, 0);
        lemma_vap_idx_found(h.counts, t1, 0);
        lemma_vap_idx_found(h.counts, t2, 0);
        lemma_rep_mono(i1, i2, r);
    }
}

/// MERGE IDENTITY LAW: merging with an empty histogram of compatible
/// configuration changes neither the contents nor any percentile query.
pub proof fn lemma_merge_empty_identity(h: HistogramView, e: HistogramView)
    requires
        wf_hist(h),
        wf_hist(e),
        h.sig_digits == e.sig_digits,
        total_of(e) == 0,
    ensures
        spec_merge(h, e) == h,
        forall|p: int| spec_value_at_percentile(spec_merge(h, e), p)
            == spec_value_at_percentile(h, p),
{
    lemma_sum_zero_all_zero(e.counts, e.counts.len() as int);
    assert(spec_merge(h, e).counts =~= h.counts);
    assert(spec_merge(h, e) =~= h);
}

} // verus!
