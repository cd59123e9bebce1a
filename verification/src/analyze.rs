//! Statistics of images, the choice of a wavelet filter, and distortion.
//!
//! All numbers are exact sums of integers. Means, variances and decibels are
//! quotients and logarithms of them, which callers form as they need them.

use crate::error::{fails_with, Fault, IcerError, Result};
use crate::header::WaveletFilter;
use crate::image::{IcerImage, IcerPixelFormat, IcerPlane};
use crate::strip::{clamped, depth_in_range, half_range, half_value, lemma_row_inside, read_samples, rows_inside, sample_size, shifted_samples};
use crate::decoder::depth_of_format;
use crate::priority::two_to;
use crate::rd::compare_quotients;
use vstd::prelude::*;
use vstd::arithmetic::power2::pow2;

verus! {

// ---------------------------------------------------------------------------
// Statistics
// ---------------------------------------------------------------------------

/// Sums over the first plane of an image, in tones of 8 bits.
#[derive(Debug, Clone, Copy, PartialEq, Eq, Structural)]
pub struct ImageStats {
    /// Number of samples.
    pub pixels: u64,
    /// Sum of the tones. The mean is this over `pixels`.
    pub sum: u128,
    /// Sum of the squared tones.
    pub sum_of_squares: u128,
    /// Sum of the differences of horizontal neighbours.
    pub h_gradient: u128,
    /// Number of pairs of horizontal neighbours.
    pub h_pairs: u64,
    /// Sum of the differences of vertical neighbours.
    pub v_gradient: u128,
    /// Number of pairs of vertical neighbours.
    pub v_pairs: u64,
    /// Greatest tone less smallest tone.
    pub dynamic_range: u8,
}

/// The tones of samples: their eight most significant bits. Samples beyond the
/// range of their bits have the nearest tone.
pub open spec fn tones(samples: Seq<i32>, bits: u8) -> Seq<int> {
    Seq::new(
        samples.len(),
        |i: int|
            clamped(samples[i] + half_range(bits), bits) / (pow2((bits - 8) as nat) as int),
    )
}

/// Difference of two tones.
pub open spec fn gap(a: int, b: int) -> int {
    if a < b {
        b - a
    } else {
        a - b
    }
}

/// The sums over the first `k` tones of rows of `width`; the pairs are those
/// of a tone with the one left of it and the one above it.
pub open spec fn sums_until(t: Seq<int>, width: int, k: int) -> (int, int, int, int, int, int)
    decreases k,
{
    if k <= 0 {
        (0, 0, 0, 0, 0, 0)
    } else {
        let (sum, squares, h, hn, v, vn) = sums_until(t, width, k - 1);
        let i = k - 1;
        let left = i % width != 0;
        let above = i >= width;
        (
            sum + t[i],
            squares + t[i] * t[i],
            if left {
                h + gap(t[i], t[i - 1])
            } else {
                h
            },
            if left {
                hn + 1
            } else {
                hn
            },
            if above {
                v + gap(t[i], t[i - width])
            } else {
                v
            },
            if above {
                vn + 1
            } else {
                vn
            },
        )
    }
}

/// Smallest and greatest of the first `k` tones; 255 and 0 where there are
/// none.
pub open spec fn extremes_until(t: Seq<int>, k: int) -> (int, int)
    decreases k,
{
    if k <= 0 {
        (255, 0)
    } else {
        let (low, high) = extremes_until(t, k - 1);
        (
            if t[k - 1] < low {
                t[k - 1]
            } else {
                low
            },
            if t[k - 1] > high {
                t[k - 1]
            } else {
                high
            },
        )
    }
}

/// The statistics of samples in rows of `width`.
pub open spec fn stats_of(samples: Seq<i32>, bits: u8, width: int) -> ImageStats {
    let t = tones(samples, bits);
    let n = t.len() as int;
    let (sum, squares, h, hn, v, vn) = sums_until(t, width, n);
    let (low, high) = extremes_until(t, n);
    ImageStats {
        pixels: n as u64,
        sum: sum as u128,
        sum_of_squares: squares as u128,
        h_gradient: h as u128,
        h_pairs: hn as u64,
        v_gradient: v as u128,
        v_pairs: vn as u64,
        dynamic_range: if high > low {
            (high - low) as u8
        } else {
            0
        },
    }
}

fn gap_of(a: u64, b: u64) -> (d: u64)
    ensures
        d == gap(a as int, b as int),
{
    if a < b {
        b - a
    } else {
        a - b
    }
}

/// The tone of a sample.
fn tone_of(v: i32, half: i64, unit: i64, bits: u8) -> (t: u64)
    requires
        1 <= unit <= 256,
        128 <= half <= 32768,
        half == 128 * unit,
        half == half_range(bits),
    ensures
        t == clamped(v + half, bits) / (unit as int),
        t <= 255,
{
    let x: i64 = v as i64 + half;
    let c: i64 = if x < 0 {
        0
    } else if x > 2 * half - 1 {
        2 * half - 1
    } else {
        x
    };
    assert(0 <= c / unit <= 255) by (nonlinear_arith)
        requires
            0 <= c < 256 * unit,
            unit >= 1,
    ;
    (c / unit) as u64
}

proof fn lemma_tone_unit(bits: u8)
    requires
        depth_in_range(bits),
    ensures
        half_range(bits) == 128 * pow2((bits - 8) as nat),
        1 <= pow2((bits - 8) as nat) <= 256,
{
    vstd::arithmetic::power2::lemma2_to64();
    vstd::arithmetic::power2::lemma_pow2_adds(7, (bits - 8) as nat);
    vstd::arithmetic::power2::lemma_pow2_pos((bits - 8) as nat);
    if bits < 16 {
        vstd::arithmetic::power2::lemma_pow2_strictly_increases((bits - 8) as nat, 8);
    }
}

/// The statistics of samples.
pub(crate) fn measure_stats(samples: &Vec<i32>, bits: u8, width: usize) -> (s: ImageStats)
    requires
        depth_in_range(bits),
        width >= 1,
    ensures
        s == stats_of(samples@, bits, width as int),
        stats_ok(s),
{
    let half: i64 = half_value(bits);
    let unit: i64 = two_to(bits - 8) as i64;
    proof {
        lemma_tone_unit(bits);
    }
    let ghost t = tones(samples@, bits);
    let n: usize = samples.len();
    let (mut sum, mut squares): (u128, u128) = (0, 0);
    let (mut h, mut hn): (u128, u64) = (0, 0);
    let (mut v, mut vn): (u128, u64) = (0, 0);
    let (mut low, mut high): (u64, u64) = (255, 0);
    let mut k: usize = 0;
    while k < n
        invariant
            k <= n == samples@.len(),
            n <= usize::MAX,
            width >= 1,
            depth_in_range(bits),
            half == half_range(bits),
            128 <= half <= 32768,
            unit == pow2((bits - 8) as nat),
            1 <= unit <= 256,
            half == 128 * unit,
            t == tones(samples@, bits),
            sums_until(t, width as int, k as int) == (
                sum as int,
                squares as int,
                h as int,
                hn as int,
                v as int,
                vn as int,
            ),
            extremes_until(t, k as int) == (low as int, high as int),
            sum <= 255 * k,
            squares <= 65025 * k,
            h <= 255 * hn,
            hn <= k,
            v <= 255 * vn,
            vn <= k,
            low <= 255,
            high <= 255,
        decreases n - k,
    {
        let tone: u64 = tone_of(samples[k], half, unit, bits);
        assert(t[k as int] == tone);
        sum = sum + tone as u128;
        assert(0 <= tone * tone <= 65025) by (nonlinear_arith)
            requires
                0 <= tone <= 255,
        ;
        squares = squares + (tone * tone) as u128;
        if k % width != 0 {
            assert(k > 0) by (nonlinear_arith)
                requires
                    k >= 0,
                    width >= 1,
                    k as int % (width as int) != 0,
            ;
            let before: u64 = tone_of(samples[k - 1], half, unit, bits);
            assert(t[k - 1] == before);
            h = h + gap_of(tone, before) as u128;
            hn = hn + 1;
        }
        if k >= width {
            let over: u64 = tone_of(samples[k - width], half, unit, bits);
            assert(t[k - width] == over);
            v = v + gap_of(tone, over) as u128;
            vn = vn + 1;
        }
        if tone < low {
            low = tone;
        }
        if tone > high {
            high = tone;
        }
        k = k + 1;
    }
    ImageStats {
        pixels: n as u64,
        sum,
        sum_of_squares: squares,
        h_gradient: h,
        h_pairs: hn,
        v_gradient: v,
        v_pairs: vn,
        dynamic_range: if high > low {
            (high - low) as u8
        } else {
            0
        },
    }
}

/// What the statistics of an image keep.
pub open spec fn stats_ok(s: ImageStats) -> bool {
    &&& s.sum <= 255 * s.pixels
    &&& s.sum_of_squares <= 65025 * s.pixels
    &&& s.h_gradient <= 255 * s.h_pairs
    &&& s.h_pairs <= s.pixels
    &&& s.v_gradient <= 255 * s.v_pairs
    &&& s.v_pairs <= s.pixels
}

/// The variance of the tones is below `t`.
pub open spec fn variance_below(s: ImageStats, t: int) -> bool {
    s.pixels * s.sum_of_squares - s.sum * s.sum < t * (s.pixels * s.pixels)
}

/// The sum of the squares of the mean differences of horizontal and of
/// vertical neighbours is below `t`. Where there are no neighbours, the mean
/// is 0.
pub open spec fn edges_below(s: ImageStats, t: int) -> bool {
    let hn: int = if s.h_pairs == 0 {
        1
    } else {
        s.h_pairs as int
    };
    let vn: int = if s.v_pairs == 0 {
        1
    } else {
        s.v_pairs as int
    };
    (s.h_gradient * s.h_gradient) * (vn * vn) + (s.v_gradient * s.v_gradient) * (hn * hn) < t * ((hn
        * hn) * (vn * vn))
}

/// The filter that the statistics recommend: filter A where the root mean
/// square of the edges is at least 16 and the variance at least 200, and else
/// filter Q.
pub open spec fn recommended(s: ImageStats) -> WaveletFilter {
    if s.dynamic_range != 0 && !variance_below(s, 1) && !edges_below(s, 256) && !variance_below(
        s,
        200,
    ) {
        WaveletFilter::NineSevenA
    } else {
        WaveletFilter::Reversible53
    }
}

/// `n * squares - sum * sum` in terms of sums about the number `m`.
proof fn lemma_about(n: int, sum: int, squares: int, m: int)
    ensures
        n * squares - sum * sum == n * (squares - 2 * (m * sum) + (m * m) * n) - (sum - m * n) * (sum
            - m * n),
{
    let (ms, mn) = (m * sum, m * n);
    assert(n * (squares - 2 * ms + (m * m) * n) == n * squares - 2 * (n * ms) + n * ((m * m) * n))
        by (nonlinear_arith);
    assert((sum - mn) * (sum - mn) == sum * sum - 2 * (sum * mn) + mn * mn) by (nonlinear_arith);
    assert(n * ms == sum * mn) by (nonlinear_arith)
        requires
            ms == m * sum,
            mn == m * n,
    ;
    assert(n * ((m * m) * n) == mn * mn) by (nonlinear_arith)
        requires
            mn == m * n,
    ;
}

/// `n * x - r * r < t * (n * n)` by the quotient of `x` and `n`.
proof fn lemma_by_quotient(n: int, x: int, r: int, t: int)
    requires
        n > 0,
        0 <= r < n,
    ensures
        n * x - r * r < t * (n * n) <==> x / n < t || (x / n == t && (x % n) * n < r * r),
{
    let (q, e) = (x / n, x % n);
    vstd::arithmetic::div_mod::lemma_fundamental_div_mod(x, n);
    let area = n * n;
    assert(n * x == q * area + e * n) by (nonlinear_arith)
        requires
            x == n * q + e,
            area == n * n,
    ;
    assert(0 <= e * n <= area - n && 0 <= r * r < area) by (nonlinear_arith)
        requires
            0 <= e <= n - 1,
            0 <= r < n,
            area == n * n,
    ;
    if q < t {
        assert(q * area + area <= t * area) by (nonlinear_arith)
            requires
                q + 1 <= t,
                area > 0,
        ;
    } else if q > t {
        assert(q * area >= t * area + area) by (nonlinear_arith)
            requires
                q >= t + 1,
                area > 0,
        ;
    }
}

/// Quotient and remainder of a number that may be negative.
fn divide(x: i128, n: i128) -> (r: (i128, i128))
    requires
        n > 0,
        x > i128::MIN,
    ensures
        r.0 == x as int / n as int,
        r.1 == x as int % n as int,
{
    if x >= 0 {
        return (x / n, x % n);
    }
    let y: i128 = -x;
    let (q, e): (i128, i128) = (y / n, y % n);
    proof {
        vstd::arithmetic::div_mod::lemma_fundamental_div_mod(y as int, n as int);
        let (k, r) = if e == 0 {
            (-q, 0int)
        } else {
            (-q - 1, n - e)
        };
        assert(x == k * n + r) by (nonlinear_arith)
            requires
                -x == n * q + e,
                e == 0 ==> k == -q && r == 0,
                e != 0 ==> k == -q - 1 && r == n - e,
        ;
        vstd::arithmetic::div_mod::lemma_fundamental_div_mod_converse(x as int, n as int, k, r);
        assert(0 <= q <= y) by (nonlinear_arith)
            requires
                q == y as int / n as int,
                y >= 0,
                n >= 1,
        ;
    }
    if e == 0 {
        (-q, 0)
    } else {
        (-q - 1, n - e)
    }
}

fn is_variance_below(s: &ImageStats, t: u128) -> (r: bool)
    requires
        stats_ok(*s),
        t <= 1000,
    ensures
        r == variance_below(*s, t as int),
{
    if s.pixels == 0 {
        assert(0 * s.sum_of_squares == 0 && t * (0 * 0) == 0) by (nonlinear_arith);
        assert(s.sum == 0);
        return false;
    }
    let (n, sum, squares): (i128, i128, i128) = (
        s.pixels as i128,
        s.sum as i128,
        s.sum_of_squares as i128,
    );
    let m: i128 = sum / n;
    let r: i128 = sum % n;
    proof {
        vstd::arithmetic::div_mod::lemma_fundamental_div_mod(sum as int, n as int);
        assert(0 <= m <= 255) by (nonlinear_arith)
            requires
                m == sum as int / n as int,
                0 <= sum <= 255 * n,
                n > 0,
        ;
        assert(m * n == n * m) by (nonlinear_arith);
        assert(0 <= m * sum <= 255 * sum && 0 <= m * m <= 65025) by (nonlinear_arith)
            requires
                0 <= m <= 255,
                0 <= sum,
        ;
        assert(0 <= (m * m) * n <= 65025 * n) by (nonlinear_arith)
            requires
                0 <= m * m <= 65025,
                n >= 0,
        ;
        lemma_about(n as int, sum as int, squares as int, m as int);
    }
    let x: i128 = squares - 2 * (m * sum) + (m * m) * n;
    let (q, e): (i128, i128) = divide(x, n);
    proof {
        lemma_by_quotient(n as int, x as int, r as int, t as int);
        assert(0 <= e * n <= 0xFFFF_FFFF_FFFF_FFFF * 0xFFFF_FFFF_FFFF_FFFF && 0 <= r * r
            <= 0xFFFF_FFFF_FFFF_FFFF * 0xFFFF_FFFF_FFFF_FFFF) by (nonlinear_arith)
            requires
                0 <= e < n,
                0 <= r < n,
                n <= 0xFFFF_FFFF_FFFF_FFFF,
        ;
    }
    q < t as i128 || (q == t as i128 && (e as u128) * (n as u128) < (r as u128) * (r as u128))
}

proof fn lemma_sum_of_quotients(x: int, a: int, y: int, b: int, t: int)
    requires
        a > 0,
        b > 0,
    ensures
        x * b + y * a < t * (a * b) <==> {
            let q = x / a + y / b;
            q < t - 1 || (q == t - 1 && (x % a) * b < (b - y % b) * a)
        },
{
    let (qx, rx, qy, ry) = (x / a, x % a, y / b, y % b);
    vstd::arithmetic::div_mod::lemma_fundamental_div_mod(x, a);
    vstd::arithmetic::div_mod::lemma_fundamental_div_mod(y, b);
    assert(0 <= rx < a && 0 <= ry < b);
    let area = a * b;
    let q = qx + qy;
    assert(x * b + y * a == q * area + rx * b + ry * a) by (nonlinear_arith)
        requires
            x == a * qx + rx,
            y == b * qy + ry,
            area == a * b,
            q == qx + qy,
    ;
    assert(0 <= rx * b < area) by (nonlinear_arith)
        requires
            0 <= rx < a,
            b > 0,
            area == a * b,
    ;
    assert(0 <= ry * a < area) by (nonlinear_arith)
        requires
            0 <= ry < b,
            a > 0,
            area == a * b,
    ;
    assert((b - ry) * a == area - ry * a) by (nonlinear_arith)
        requires
            area == a * b,
    ;
    if q < t - 1 {
        assert(q * area + 2 * area <= t * area) by (nonlinear_arith)
            requires
                q + 2 <= t,
                area > 0,
        ;
    } else if q >= t {
        assert(q * area >= t * area) by (nonlinear_arith)
            requires
                q >= t,
                area > 0,
        ;
    } else {
        assert(t * area == q * area + area) by (nonlinear_arith)
            requires
                t == q + 1,
        ;
    }
}

/// Quotient and remainder of the squares of `h` and `n`.
fn square_quotient(h: u128, n: u64) -> (r: (u128, u128))
    requires
        n > 0,
        h <= 255 * n,
    ensures
        r.0 == (h * h) / (n * n),
        r.1 == (h * h) % (n * n),
        r.0 <= 0x10_0000,
{
    let m: u128 = n as u128;
    let (a, b): (u128, u128) = (h / m, h % m);
    proof {
        vstd::arithmetic::div_mod::lemma_fundamental_div_mod(h as int, m as int);
        assert(0 <= a <= 255) by (nonlinear_arith)
            requires
                a == h as int / m as int,
                0 <= h <= 255 * m,
                m > 0,
        ;
        assert(0 <= a * b <= 255 * b && a * a <= 65025) by (nonlinear_arith)
            requires
                0 <= a <= 255,
                0 <= b,
        ;
    }
    let w: u128 = 2 * (a * b);
    let (c, d): (u128, u128) = (w / m, w % m);
    proof {
        vstd::arithmetic::div_mod::lemma_fundamental_div_mod(w as int, m as int);
        assert(0 <= c <= 510) by (nonlinear_arith)
            requires
                c == w as int / m as int,
                0 <= w <= 510 * m,
                m > 0,
        ;
        assert(0 <= d * m <= m * m - m && 0 <= b * b < m * m && m * m <= 0xFFFF_FFFF_FFFF_FFFF
            * 0xFFFF_FFFF_FFFF_FFFF) by (nonlinear_arith)
            requires
                0 <= d <= m - 1,
                0 <= b < m,
                m <= 0xFFFF_FFFF_FFFF_FFFF,
        ;
        let area = m * m;
        assert(h * h == (a * a + c) * area + (d * m + b * b)) by {
            assert((m * a + b) * (m * a + b) == (a * a) * area + m * (2 * (a * b)) + b * b)
                by (nonlinear_arith)
                requires
                    area == m * m,
            ;
            assert(m * (m * c + d) == c * area + d * m) by (nonlinear_arith)
                requires
                    area == m * m,
            ;
            assert((a * a + c) * area == (a * a) * area + c * area) by (nonlinear_arith);
        }
    }
    let (area, x, y): (u128, u128, u128) = (m * m, d * m, b * b);
    let (q, rest): (u128, u128) = if x >= area - y {
        (a * a + c + 1, x - (area - y))
    } else {
        (a * a + c, x + y)
    };
    proof {
        let k = a * a + c;
        assert((k + 1) * area == k * area + area) by (nonlinear_arith);
        vstd::arithmetic::div_mod::lemma_fundamental_div_mod_converse(
            h * h,
            area as int,
            q as int,
            rest as int,
        );
    }
    (q, rest)
}

fn are_edges_below(s: &ImageStats, t: u128) -> (r: bool)
    requires
        stats_ok(*s),
        1 <= t <= 1000,
    ensures
        r == edges_below(*s, t as int),
{
    let hn: u64 = if s.h_pairs == 0 {
        1
    } else {
        s.h_pairs
    };
    let vn: u64 = if s.v_pairs == 0 {
        1
    } else {
        s.v_pairs
    };
    let (h, v): (u128, u128) = (s.h_gradient, s.v_gradient);
    let (qx, rx): (u128, u128) = square_quotient(h, hn);
    let (qy, ry): (u128, u128) = square_quotient(v, vn);
    proof {
        assert(0 < hn * hn <= 0xFFFF_FFFF_FFFF_FFFF * 0xFFFF_FFFF_FFFF_FFFF && 0 < vn * vn
            <= 0xFFFF_FFFF_FFFF_FFFF * 0xFFFF_FFFF_FFFF_FFFF) by (nonlinear_arith)
            requires
                1 <= hn <= 0xFFFF_FFFF_FFFF_FFFF,
                1 <= vn <= 0xFFFF_FFFF_FFFF_FFFF,
        ;
        lemma_sum_of_quotients(h * h, hn * hn, v * v, vn * vn, t as int);
    }
    let (a, b): (u128, u128) = (hn as u128 * hn as u128, vn as u128 * vn as u128);
    let q: u128 = qx + qy;
    if q + 1 < t {
        return true;
    }
    if q + 1 > t {
        return false;
    }
    let (greater, _) = compare_quotients(b - ry, b, rx, a);
    greater
}

/// The filter that the statistics recommend.
pub fn recommend_filter(stats: &ImageStats) -> (f: WaveletFilter)
    requires
        stats_ok(*stats),
    ensures
        f == recommended(*stats),
{
    if stats.dynamic_range == 0 || is_variance_below(stats, 1) {
        return WaveletFilter::Reversible53;
    }
    if are_edges_below(stats, 16) {
        proof {
            lemma_edges_order(*stats);
        }
        return WaveletFilter::Reversible53;
    }
    if !are_edges_below(stats, 256) && !is_variance_below(stats, 200) {
        return WaveletFilter::NineSevenA;
    }
    WaveletFilter::Reversible53
}

proof fn lemma_edges_order(s: ImageStats)
    requires
        edges_below(s, 16),
    ensures
        edges_below(s, 256),
{
    let hn: int = if s.h_pairs == 0 {
        1
    } else {
        s.h_pairs as int
    };
    let vn: int = if s.v_pairs == 0 {
        1
    } else {
        s.v_pairs as int
    };
    let area = (hn * hn) * (vn * vn);
    assert(area >= 0) by (nonlinear_arith)
        requires
            area == (hn * hn) * (vn * vn),
    ;
}

impl ImageStats {
    /// The statistics of the first plane of an image.
    pub fn from_image(image: &IcerImage) -> (s: Self)
        requires
            image.planes@.len() > 0,
            analysable(*image),
        ensures
            s == stats_of(
                shifted_samples(
                    image.planes@[0],
                    depth_of_format(image.pixel_format),
                    image.width as int,
                    0,
                    image.height as int,
                ),
                depth_of_format(image.pixel_format),
                image.width as int,
            ),
            stats_ok(s),
    {
        let bits: u8 = image.pixel_format.bit_depth();
        let plane = &image.planes[0];
        if image.width == 0 {
            proof {
                assert(0 * image.height == 0);
                let samples = shifted_samples(*plane, bits, 0, 0, image.height as int);
                assert(samples.len() == 0);
                assert(tones(samples, bits).len() == 0);
            }
            return ImageStats {
                pixels: 0,
                sum: 0,
                sum_of_squares: 0,
                h_gradient: 0,
                h_pairs: 0,
                v_gradient: 0,
                v_pairs: 0,
                dynamic_range: 0,
            };
        }
        let samples = read_samples(plane, bits, image.width as usize, 0, image.height as usize);
        measure_stats(&samples, bits, image.width as usize)
    }
}

/// The first plane of an image can be analysed: its rows are there, and its
/// samples can be addressed.
pub open spec fn analysable(image: IcerImage) -> bool {
    let bits = depth_of_format(image.pixel_format);
    &&& depth_in_range(bits)
    &&& image.width * image.height <= usize::MAX
    &&& image.width * sample_size(bits) <= usize::MAX
    &&& rows_inside(image.planes@[0], image.width * sample_size(bits), image.height as int)
}

/// The statistics of an image and the filter that they recommend.
pub fn analyze(image: &IcerImage) -> (r: (ImageStats, WaveletFilter))
    requires
        image.planes@.len() > 0,
        analysable(*image),
    ensures
        r.0 == stats_of(
            shifted_samples(
                image.planes@[0],
                depth_of_format(image.pixel_format),
                image.width as int,
                0,
                image.height as int,
            ),
            depth_of_format(image.pixel_format),
            image.width as int,
        ),
        r.1 == recommended(r.0),
{
    let stats = ImageStats::from_image(image);
    let filter = recommend_filter(&stats);
    (stats, filter)
}

/// Whether an image is one of 8-bit gray samples that is not empty.
pub fn supported_for_analysis(image: &IcerImage) -> (r: bool)
    ensures
        r == (image.pixel_format == IcerPixelFormat::Gray8 && image.planes@.len() > 0
            && image.width > 0 && image.height > 0),
{
    match image.pixel_format {
        IcerPixelFormat::Gray8 => image.planes.len() > 0 && image.width > 0 && image.height > 0,
        _ => false,
    }
}

// ---------------------------------------------------------------------------
// Distortion
// ---------------------------------------------------------------------------

/// The byte of a plane at `(x, y)`.
pub open spec fn byte_at(plane: IcerPlane, x: int, y: int) -> int {
    plane.data@[y * plane.stride + x] as int
}

/// Sums over the samples of a region of two planes.
pub struct RegionTotals {
    /// Sum of the samples of the first plane.
    pub first: int,
    /// Sum of the samples of the second plane.
    pub second: int,
    /// Sum of the squared samples of the first plane.
    pub first_squares: int,
    /// Sum of the squared samples of the second plane.
    pub second_squares: int,
    /// Sum of the products of samples of one place.
    pub products: int,
    /// Sum of the differences.
    pub differences: int,
    /// Sum of the squared differences.
    pub squared_differences: int,
    /// Greatest difference.
    pub greatest: int,
}

/// The sums over the first `k` samples, row by row, of a region of `width`
/// columns that starts at `(x0, y0)`.
pub open spec fn region_totals(
    a: IcerPlane,
    b: IcerPlane,
    x0: int,
    y0: int,
    width: int,
    k: int,
) -> RegionTotals
    decreases k,
{
    if k <= 0 {
        RegionTotals {
            first: 0,
            second: 0,
            first_squares: 0,
            second_squares: 0,
            products: 0,
            differences: 0,
            squared_differences: 0,
            greatest: 0,
        }
    } else {
        let t = region_totals(a, b, x0, y0, width, k - 1);
        let (x, y) = (x0 + (k - 1) % width, y0 + (k - 1) / width);
        let (u, v) = (byte_at(a, x, y), byte_at(b, x, y));
        let d = gap(u, v);
        RegionTotals {
            first: t.first + u,
            second: t.second + v,
            first_squares: t.first_squares + u * u,
            second_squares: t.second_squares + v * v,
            products: t.products + u * v,
            differences: t.differences + d,
            squared_differences: t.squared_differences + d * d,
            greatest: if d > t.greatest {
                d
            } else {
                t.greatest
            },
        }
    }
}

/// Sums over the samples of a region of two planes.
#[derive(Debug, Clone, Copy, PartialEq, Eq, Structural)]
pub struct RegionSums {
    /// Number of samples.
    pub pixels: u64,
    /// Sum of the samples of the first plane.
    pub first: u128,
    /// Sum of the samples of the second plane.
    pub second: u128,
    /// Sum of the squared samples of the first plane.
    pub first_squares: u128,
    /// Sum of the squared samples of the second plane.
    pub second_squares: u128,
    /// Sum of the products of samples of one place.
    pub products: u128,
    /// Sum of the differences.
    pub differences: u128,
    /// Sum of the squared differences.
    pub squared_differences: u128,
    /// Greatest difference.
    pub greatest: u8,
}

impl RegionSums {
    /// The sums as integers.
    pub open spec fn totals(self) -> RegionTotals {
        RegionTotals {
            first: self.first as int,
            second: self.second as int,
            first_squares: self.first_squares as int,
            second_squares: self.second_squares as int,
            products: self.products as int,
            differences: self.differences as int,
            squared_differences: self.squared_differences as int,
            greatest: self.greatest as int,
        }
    }
}

/// The samples of a region lie inside a plane.
pub open spec fn region_inside(plane: IcerPlane, x0: int, y0: int, width: int, height: int) -> bool {
    rows_inside(plane, x0 + width, y0 + height)
}

/// Sums over a region of two planes of bytes.
pub fn sum_region(a: &IcerPlane, b: &IcerPlane, x0: u32, y0: u32, width: u32, height: u32) -> (s: RegionSums)
    requires
        region_inside(*a, x0 as int, y0 as int, width as int, height as int),
        region_inside(*b, x0 as int, y0 as int, width as int, height as int),
    ensures
        s.pixels == width * height,
        s.totals() == region_totals(
            *a,
            *b,
            x0 as int,
            y0 as int,
            width as int,
            width * height,
        ),
{
    let mut s = RegionSums {
        pixels: 0,
        first: 0,
        second: 0,
        first_squares: 0,
        second_squares: 0,
        products: 0,
        differences: 0,
        squared_differences: 0,
        greatest: 0,
    };
    assert(0 <= width * height <= 0xFFFF_FFFF * 0xFFFF_FFFF) by (nonlinear_arith)
        requires
            0 <= width <= 0xFFFF_FFFF,
            0 <= height <= 0xFFFF_FFFF,
    ;
    let n: u64 = width as u64 * height as u64;
    let mut k: u64 = 0;
    while k < n
        invariant
            k <= n,
            n == width * height,
            region_inside(*a, x0 as int, y0 as int, width as int, height as int),
            region_inside(*b, x0 as int, y0 as int, width as int, height as int),
            s.pixels == k,
            s.totals() == region_totals(
                *a,
                *b,
                x0 as int,
                y0 as int,
                width as int,
                k as int,
            ),
            s.first <= 255 * k,
            s.second <= 255 * k,
            s.differences <= 255 * k,
            s.first_squares <= 65025 * k,
            s.second_squares <= 65025 * k,
            s.products <= 65025 * k,
            s.squared_differences <= 65025 * k,
        decreases n - k,
    {
        proof {
            assert(width > 0) by (nonlinear_arith)
                requires
                    0 <= k < n,
                    n == width * height,
                    width >= 0,
            ;
            assert(0 <= k as int / (width as int) < height) by (nonlinear_arith)
                requires
                    0 <= k < width * height,
                    width > 0,
            ;
            let y = y0 + k as int / (width as int);
            lemma_row_inside(*a, x0 + width, y0 + height, y);
            lemma_row_inside(*b, x0 + width, y0 + height, y);
            assert(a.data@.len() == a.data.len() && b.data@.len() == b.data.len());
        }
        let x: u64 = x0 as u64 + k % width as u64;
        let y: u64 = y0 as u64 + k / width as u64;
        let u: u128 = a.data[(y as u128 * a.stride as u128 + x as u128) as usize] as u128;
        let v: u128 = b.data[(y as u128 * b.stride as u128 + x as u128) as usize] as u128;
        let d: u128 = if u < v {
            v - u
        } else {
            u - v
        };
        assert(0 <= u * u <= 65025 && 0 <= v * v <= 65025 && 0 <= u * v <= 65025 && 0 <= d * d
            <= 65025) by (nonlinear_arith)
            requires
                0 <= u <= 255,
                0 <= v <= 255,
                0 <= d <= 255,
        ;
        s = RegionSums {
            pixels: s.pixels + 1,
            first: s.first + u,
            second: s.second + v,
            first_squares: s.first_squares + u * u,
            second_squares: s.second_squares + v * v,
            products: s.products + u * v,
            differences: s.differences + d,
            squared_differences: s.squared_differences + d * d,
            greatest: if d > s.greatest as u128 {
                d as u8
            } else {
                s.greatest
            },
        };
        k = k + 1;
    }
    s
}

/// The rows of the first plane of an image are there, as bytes.
pub open spec fn rows_there(image: IcerImage) -> bool {
    image.planes@.len() > 0 ==> rows_inside(
        image.planes@[0],
        image.width as int,
        image.height as int,
    )
}

/// How the first plane of an image differs from that of its original. The mean
/// squared error is `squared_error` over `pixels`.
#[derive(Debug, Clone, Copy, PartialEq, Eq, Structural)]
pub struct DistortionReport {
    /// Number of samples.
    pub pixels: u64,
    /// Sum of the squared differences.
    pub squared_error: u128,
    /// Sum of the differences.
    pub absolute_error: u128,
    /// Greatest difference.
    pub max_abs_error: u8,
}

impl DistortionReport {
    /// Hold the first planes of two images of 8-bit samples together.
    pub fn compare(original: &IcerImage, decoded: &IcerImage) -> (r: Result<Self>)
        requires
            rows_there(*original),
            rows_there(*decoded),
        ensures
            if original.width != decoded.width || original.height != decoded.height
                || original.planes@.len() == 0 || decoded.planes@.len() == 0 {
                fails_with(r, Fault::Unsupported)
            } else {
                let n = original.width * original.height;
                let t = region_totals(
                    original.planes@[0],
                    decoded.planes@[0],
                    0,
                    0,
                    original.width as int,
                    n,
                );
                &&& r is Ok
                &&& r->Ok_0.pixels == n
                &&& r->Ok_0.squared_error == t.squared_differences
                &&& r->Ok_0.absolute_error == t.differences
                &&& r->Ok_0.max_abs_error == t.greatest
            },
    {
        if original.width != decoded.width || original.height != decoded.height {
            return Err(IcerError::unsupported("distortion: geometry mismatch"));
        }
        if original.planes.len() == 0 {
            return Err(IcerError::unsupported("distortion: original has no planes"));
        }
        if decoded.planes.len() == 0 {
            return Err(IcerError::unsupported("distortion: decoded has no planes"));
        }
        let s = sum_region(
            &original.planes[0],
            &decoded.planes[0],
            0,
            0,
            original.width,
            original.height,
        );
        Ok(
            DistortionReport {
                pixels: s.pixels,
                squared_error: s.squared_differences,
                absolute_error: s.differences,
                max_abs_error: s.greatest,
            },
        )
    }
}

/// Sum of the differences of two images over a region, and the number of its
/// samples. The mean absolute error is their quotient.
pub fn region_mae(
    original: &IcerImage,
    decoded: &IcerImage,
    x0: u32,
    y0: u32,
    region_w: u32,
    region_h: u32,
) -> (r: Result<(u128, u64)>)
    requires
        rows_there(*original),
        rows_there(*decoded),
    ensures
        if original.width != decoded.width || original.height != decoded.height || x0 + region_w
            > original.width || y0 + region_h > original.height {
            fails_with(r, Fault::Unsupported)
        } else if region_w == 0 || region_h == 0 {
            r == Ok::<(u128, u64), IcerError>((0, 0))
        } else if original.planes@.len() == 0 || decoded.planes@.len() == 0 {
            fails_with(r, Fault::Unsupported)
        } else {
            let n = region_w * region_h;
            &&& r is Ok
            &&& (r->Ok_0).0 == region_totals(
                original.planes@[0],
                decoded.planes@[0],
                x0 as int,
                y0 as int,
                region_w as int,
                n,
            ).differences
            &&& (r->Ok_0).1 == n
        },
{
    if original.width != decoded.width || original.height != decoded.height {
        return Err(IcerError::unsupported("region_mae: geometry mismatch"));
    }
    if x0 as u64 + region_w as u64 > original.width as u64 || y0 as u64 + region_h as u64
        > original.height as u64 {
        return Err(IcerError::unsupported("region_mae: region exceeds the image"));
    }
    if region_w == 0 || region_h == 0 {
        return Ok((0, 0));
    }
    if original.planes.len() == 0 || decoded.planes.len() == 0 {
        return Err(IcerError::unsupported("region_mae: an image has no planes"));
    }
    proof {
        lemma_region(
            original.planes@[0],
            original.width as int,
            original.height as int,
            x0 as int,
            y0 as int,
            region_w as int,
            region_h as int,
        );
        lemma_region(
            decoded.planes@[0],
            decoded.width as int,
            decoded.height as int,
            x0 as int,
            y0 as int,
            region_w as int,
            region_h as int,
        );
    }
    let s = sum_region(
        &original.planes[0],
        &decoded.planes[0],
        x0,
        y0,
        region_w,
        region_h,
    );
    Ok((s.differences, s.pixels))
}

/// A region of a plane whose rows are there lies inside it.
pub proof fn lemma_region(
    plane: IcerPlane,
    width: int,
    height: int,
    x0: int,
    y0: int,
    region_w: int,
    region_h: int,
)
    requires
        rows_inside(plane, width, height),
        0 <= x0,
        0 <= y0,
        region_w >= 0,
        region_h >= 1,
        x0 + region_w <= width,
        y0 + region_h <= height,
    ensures
        region_inside(plane, x0, y0, region_w, region_h),
{
    assert((y0 + region_h - 1) * plane.stride <= (height - 1) * plane.stride) by (nonlinear_arith)
        requires
            0 <= y0 + region_h - 1 <= height - 1,
            plane.stride >= 0,
    ;
}

/// **An image does not differ from itself.**
pub proof fn no_distortion_of_itself(a: IcerPlane, x0: int, y0: int, width: int, k: int)
    ensures
        ({
            let t = region_totals(a, a, x0, y0, width, k);
            t.differences == 0 && t.squared_differences == 0 && t.greatest == 0 && t.first
                == t.second && t.first_squares == t.second_squares && t.products
                == t.first_squares
        }),
    decreases k,
{
    if k > 0 {
        no_distortion_of_itself(a, x0, y0, width, k - 1);
        let u = byte_at(a, x0 + (k - 1) % width, y0 + (k - 1) / width);
        let d = gap(u, u);
        assert(d * d == 0) by (nonlinear_arith)
            requires
                d == 0,
        ;
    }
}

} // verus!
