//! The binomial envelope: the range of outlier counts that a sub-range of
//! `n` trials is expected to hold when the whole series holds `k` outliers
//! out of `t` values.
//!
//! With rate `p = k / t`, the expected count is `mean = n * p` and its spread
//! is `sd = sqrt(mean * (1 - p))`. The envelope is `floor(mean - sd)` to
//! `ceil(mean + sd)`. Scaled by `t` these are whole numbers but for the root:
//! `t * mean = n * k` and `t * sd = sqrt(n * k * (t - k))`, so the bounds are
//! computed exactly, with an integer square root.

use vstd::arithmetic::div_mod::{lemma_fundamental_div_mod, lemma_mod_pos_bound};
use vstd::prelude::*;

verus! {

/// The largest series length that the envelope takes: every product that
/// the computation forms then fits in 128 bits.
pub const MAX_SERIES_LEN: u64 = 0x100_0000_0000;

/// The square of the scaled spread: `(t * sd)^2 = n * k * (t - k)`.
pub open spec fn scaled_variance(n: int, k: int, t: int) -> int {
    n * k * (t - k)
}

/// Whether `l` lies at or below `mean - sd`, scaled by `t`:
/// `l * t <= n * k - sqrt(n * k * (t - k))`.
pub open spec fn at_or_below_band(n: int, k: int, t: int, l: int) -> bool {
    let gap = n * k - l * t;
    gap >= 0 && gap * gap >= scaled_variance(n, k, t)
}

/// Whether `h` lies at or above `mean + sd`, scaled by `t`:
/// `h * t >= n * k + sqrt(n * k * (t - k))`.
pub open spec fn at_or_above_band(n: int, k: int, t: int, h: int) -> bool {
    let gap = h * t - n * k;
    gap >= 0 && gap * gap >= scaled_variance(n, k, t)
}

/// `l` is `floor(mean - sd)`: the largest integer at or below `mean - sd`.
pub open spec fn is_envelope_low(n: int, k: int, t: int, l: int) -> bool {
    at_or_below_band(n, k, t, l) && !at_or_below_band(n, k, t, l + 1)
}

/// `h` is `ceil(mean + sd)`: the smallest integer at or above `mean + sd`.
pub open spec fn is_envelope_high(n: int, k: int, t: int, h: int) -> bool {
    at_or_above_band(n, k, t, h) && !at_or_above_band(n, k, t, h - 1)
}

/// Whether `c` is the least natural number whose square reaches `d`.
pub open spec fn is_ceil_sqrt(d: int, c: int) -> bool {
    c >= 0 && c * c >= d && (c == 0 || (c - 1) * (c - 1) < d)
}

/// The expected range of outlier counts in a sub-range, rounded outward to
/// whole counts.
#[derive(Clone, Copy, Debug, PartialEq, Eq)]
pub struct Envelope {
    pub low: i128,
    pub high: i128,
}

impl Envelope {
    /// Whether the null hypothesis holds: the observed count lies within the
    /// envelope, both ends included.
    pub open spec fn holds_for(self, count: int) -> bool {
        self.low <= count <= self.high
    }

    /// Decides whether `count` lies within the envelope.
    pub fn contains(&self, count: usize) -> (r: bool)
        ensures
            r == self.holds_for(count as int),
    {
        let c = count as i128;
        self.low <= c && c <= self.high
    }
}

proof fn lemma_square_le(a: int, b: int)
    requires
        0 <= a <= b,
    ensures
        a * a <= b * b,
{
    assert(a * a <= b * b) by (nonlinear_arith)
        requires
            0 <= a <= b,
    ;
}

/// For a natural number `x`, reaching `d` with its square is reaching its
/// ceiling root.
proof fn lemma_ceil_sqrt_bound(d: int, c: int, x: int)
    requires
        is_ceil_sqrt(d, c),
    ensures
        (x >= 0 && x * x >= d) <==> x >= c,
{
    if x >= c {
        lemma_square_le(c, x);
    }
    if x >= 0 && x < c {
        lemma_square_le(x, c - 1);
    }
}

proof fn lemma_floor_div(x: int, t: int)
    requires
        x >= 0,
        t > 0,
    ensures
        (x / t) * t <= x < (x / t) * t + t,
        x / t >= 0,
{
    lemma_fundamental_div_mod(x, t);
    lemma_mod_pos_bound(x, t);
    assert(t * (x / t) == (x / t) * t) by (nonlinear_arith);
    assert(x / t >= 0) by (nonlinear_arith)
        requires
            x >= 0,
            t > 0,
            x == t * (x / t) + x % t,
            0 <= x % t < t,
    ;
}

/// The least natural number whose square reaches `d`.
fn ceil_sqrt(d: u128) -> (c: u128)
    requires
        d <= 0x100_0000_0000_0000_0000_0000_0000_0000,
    ensures
        is_ceil_sqrt(d as int, c as int),
        c <= 0x1000_0000_0000_0000,
{
    let mut lo: u128 = 0;
    let mut hi: u128 = 0x1000_0000_0000_0000;
    assert(0x1000_0000_0000_0000int * 0x1000_0000_0000_0000int
        == 0x100_0000_0000_0000_0000_0000_0000_0000int);
    while lo < hi
        invariant
            lo <= hi <= 0x1000_0000_0000_0000,
            hi * hi >= d,
            lo == 0 || (lo - 1) * (lo - 1) < d,
        decreases hi - lo,
    {
        let mid = lo + (hi - lo) / 2;
        assert(mid * mid <= 0x100_0000_0000_0000_0000_0000_0000_0000) by {
            lemma_square_le(mid as int, 0x1000_0000_0000_0000);
        }
        if mid * mid >= d {
            hi = mid;
        } else {
            lo = mid + 1;
        }
    }
    lo
}

/// The envelope for `trials` trials when `outliers` of `total` values are
/// outliers.
pub fn estimate(trials: usize, outliers: usize, total: usize) -> (e: Envelope)
    requires
        0 < total <= MAX_SERIES_LEN,
        outliers <= total,
        trials <= MAX_SERIES_LEN,
    ensures
        is_envelope_low(trials as int, outliers as int, total as int, e.low as int),
        is_envelope_high(trials as int, outliers as int, total as int, e.high as int),
{
    let ghost (n, k, tt) = (trials as int, outliers as int, total as int);
    assert(0x100_0000_0000int * 0x100_0000_0000int == 0x1_0000_0000_0000_0000_0000int);
    assert(n * k <= 0x100_0000_0000 * 0x100_0000_0000) by {
        vstd::arithmetic::mul::lemma_mul_upper_bound(n, 0x100_0000_0000, k, 0x100_0000_0000);
    }
    let nk: u128 = trials as u128 * outliers as u128;
    let rest: u128 = (total - outliers) as u128;
    assert(nk * rest <= 0x1_0000_0000_0000_0000_0000 * 0x100_0000_0000) by {
        vstd::arithmetic::mul::lemma_mul_upper_bound(
            nk as int,
            0x1_0000_0000_0000_0000_0000,
            rest as int,
            0x100_0000_0000,
        );
    }
    assert(0x1_0000_0000_0000_0000_0000int * 0x100_0000_0000int
        == 0x100_0000_0000_0000_0000_0000_0000_0000int);
    let d: u128 = nk * rest;
    assert(d == scaled_variance(n, k, tt));
    let c = ceil_sqrt(d);
    let t = total as u128;
    let low: i128 = if nk >= c {
        let q = (nk - c) / t;
        proof {
            lemma_floor_div((nk - c) as int, tt);
        }
        q as i128
    } else {
        let q = (c - nk + t - 1) / t;
        proof {
            lemma_floor_div((c - nk + t - 1) as int, tt);
            let lq = -(q as int);
            assert(lq * tt == -(q * tt)) by (nonlinear_arith)
                requires
                    lq == -(q as int),
            ;
            assert((lq + 1) * tt == lq * tt + tt) by (nonlinear_arith);
            assert(n * k - lq * tt >= c);
            assert(n * k - (lq + 1) * tt < c);
        }
        -(q as i128)
    };
    let high: i128 = {
        let q = (nk + c + t - 1) / t;
        proof {
            lemma_floor_div((nk + c + t - 1) as int, tt);
        }
        q as i128
    };
    proof {
        lemma_ceil_sqrt_bound(d as int, c as int, n * k - low * tt);
        lemma_ceil_sqrt_bound(d as int, c as int, n * k - (low + 1) * tt);
        lemma_ceil_sqrt_bound(d as int, c as int, high * tt - n * k);
        lemma_ceil_sqrt_bound(d as int, c as int, (high - 1) * tt - n * k);
        assert((low + 1) * tt == low * tt + tt) by (nonlinear_arith);
        assert((high - 1) * tt == high * tt - tt) by (nonlinear_arith);
    }
    Envelope { low, high }
}

/// The envelope is symmetric about the expected count `mean = n * k / t` up
/// to its outward rounding: `low <= mean <= high`, the distances
/// `mean - low` and `high - mean` differ by less than one count, and where
/// the mean is a whole number the two ends lie at equal distances from it.
pub proof fn lemma_envelope_symmetric(n: int, k: int, t: int, low: int, high: int)
    requires
        n >= 0,
        0 <= k <= t,
        t > 0,
        is_envelope_low(n, k, t, low),
        is_envelope_high(n, k, t, high),
    ensures
        low * t <= n * k <= high * t,
        -t < (n * k - low * t) - (high * t - n * k) < t,
        (n * k) % t == 0 ==> low + high == 2 * ((n * k) / t),
{
    let x = n * k - low * t;
    let y = high * t - n * k;
    assert((low + 1) * t == low * t + t) by (nonlinear_arith);
    assert((high - 1) * t == high * t - t) by (nonlinear_arith);
    if x - y >= t {
        lemma_square_le(y, x - t);
        assert(at_or_below_band(n, k, t, low + 1));
    }
    if y - x >= t {
        lemma_square_le(x, y - t);
        assert(at_or_above_band(n, k, t, high - 1));
    }
    if (n * k) % t == 0 {
        let m = (n * k) / t;
        lemma_fundamental_div_mod(n * k, t);
        assert(n * k == m * t) by (nonlinear_arith)
            requires
                n * k == t * m + 0,
        ;
        let e = low + high - 2 * m;
        assert(e * t == low * t + high * t - 2 * (m * t)) by (nonlinear_arith)
            requires
                e == low + high - 2 * m,
        ;
        assert(e == 0) by (nonlinear_arith)
            requires
                -t < e * t < t,
                t > 0,
        ;
    }
}

proof fn lemma_band_monotone(n: int, k: int, t: int, a: int, b: int)
    requires
        t > 0,
        a <= b,
    ensures
        at_or_below_band(n, k, t, b) ==> at_or_below_band(n, k, t, a),
        at_or_above_band(n, k, t, a) ==> at_or_above_band(n, k, t, b),
{
    assert(a * t <= b * t) by (nonlinear_arith)
        requires
            t > 0,
            a <= b,
    ;
    if at_or_below_band(n, k, t, b) {
        lemma_square_le(n * k - b * t, n * k - a * t);
    }
    if at_or_above_band(n, k, t, a) {
        lemma_square_le(a * t - n * k, b * t - n * k);
    }
}

/// Each end of the envelope is determined: at most one integer is
/// `floor(mean - sd)` and at most one is `ceil(mean + sd)`.
pub proof fn lemma_envelope_unique(n: int, k: int, t: int, l1: int, l2: int, h1: int, h2: int)
    requires
        t > 0,
        is_envelope_low(n, k, t, l1),
        is_envelope_low(n, k, t, l2),
        is_envelope_high(n, k, t, h1),
        is_envelope_high(n, k, t, h2),
    ensures
        l1 == l2,
        h1 == h2,
{
    if l1 < l2 {
        lemma_band_monotone(n, k, t, l1 + 1, l2);
    }
    if l2 < l1 {
        lemma_band_monotone(n, k, t, l2 + 1, l1);
    }
    if h1 < h2 {
        lemma_band_monotone(n, k, t, h1, h2 - 1);
    }
    if h2 < h1 {
        lemma_band_monotone(n, k, t, h2, h1 - 1);
    }
}

} // verus!
