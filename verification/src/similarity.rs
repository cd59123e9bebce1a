//! Structural similarity of two images.
//!
//! A window of samples scores
//! `(2 m m' + c)(2 s + c') / ((m m + m' m' + c)(v + v' + c'))`, where `m` and
//! `m'` are its means, `v` and `v'` its variances and `s` its covariance in the
//! two images, `c` is the square of 2.55 and `c'` that of 7.65. The score is
//! kept as a fraction of two integers.

use crate::analyze::{byte_at, lemma_region, region_totals, rows_there, sum_region, RegionSums, RegionTotals};
use crate::error::{fails_with, Fault, IcerError, Result};
use crate::image::{IcerImage, IcerPlane};
use crate::strip::rows_inside;
use vstd::prelude::*;

verus! {

/// Side of a window.
pub const SSIM_WINDOW: u32 = 8;

/// Side of the windows of an image with a side of `n` samples.
pub open spec fn window_side(n: int) -> int {
    if n < SSIM_WINDOW {
        n
    } else {
        SSIM_WINDOW as int
    }
}

/// Number of windows along a side of `n` samples.
pub open spec fn windows_along(n: int) -> int {
    n - window_side(n) + 1
}

/// Numerator and denominator of the score of a window of `n` samples, both
/// `10^8 n^4` times what the means give.
pub open spec fn window_score(t: RegionTotals, n: int) -> (int, int) {
    let mixed = t.first * t.second;
    let squares = t.first * t.first + t.second * t.second;
    let area = n * n;
    (
        (20000 * mixed + 65025 * area) * (20000 * (n * t.products - mixed) + 585225 * area),
        (10000 * squares + 65025 * area) * (10000 * (n * (t.first_squares + t.second_squares)
            - squares) + 585225 * area),
    )
}

/// The score of window `i` of two planes, row by row.
pub open spec fn score_at(a: IcerPlane, b: IcerPlane, width: int, height: int, i: int) -> (int, int) {
    let (w, h) = (window_side(width), window_side(height));
    let across = windows_along(width);
    window_score(region_totals(a, b, i % across, i / across, w, w * h), w * h)
}

/// Number of windows of an image.
pub open spec fn window_count(width: int, height: int) -> int {
    if width == 0 || height == 0 {
        0
    } else {
        windows_along(width) * windows_along(height)
    }
}

/// The score of a window, as a fraction.
#[derive(Debug, Clone, Copy, PartialEq, Eq, Structural)]
pub struct WindowScore {
    /// Numerator.
    pub numerator: i128,
    /// Denominator.
    pub denominator: i128,
}

// ---------------------------------------------------------------------------
// Bounds
// ---------------------------------------------------------------------------

proof fn lemma_totals_bound(a: IcerPlane, b: IcerPlane, x0: int, y0: int, width: int, k: int)
    requires
        0 <= k,
    ensures
        ({
            let t = region_totals(a, b, x0, y0, width, k);
            &&& 0 <= t.first <= 255 * k
            &&& 0 <= t.second <= 255 * k
            &&& 0 <= t.first_squares <= 65025 * k
            &&& 0 <= t.second_squares <= 65025 * k
            &&& 0 <= t.products <= 65025 * k
        }),
    decreases k,
{
    if k > 0 {
        lemma_totals_bound(a, b, x0, y0, width, k - 1);
        let (x, y) = (x0 + (k - 1) % width, y0 + (k - 1) / width);
        let (u, v) = (byte_at(a, x, y), byte_at(b, x, y));
        assert(0 <= u * u <= 65025 && 0 <= v * v <= 65025 && 0 <= u * v <= 65025)
            by (nonlinear_arith)
            requires
                0 <= u <= 255,
                0 <= v <= 255,
        ;
    }
}

proof fn lemma_square_sum(m: int, e: int, d: int, q: int, s: int, k: int)
    requires
        m * m * q - 2 * (m * e) * s + k * (e * e) >= 0,
    ensures
        m * m * (q + d * d) - 2 * (m * e) * (s + d) + (k + 1) * (e * e) >= 0,
{
    let (mm, me, ee, dd) = (m * m, m * e, e * e, d * d);
    assert(mm * (q + dd) == mm * q + mm * dd) by (nonlinear_arith);
    assert(2 * me * (s + d) == 2 * me * s + 2 * (me * d)) by (nonlinear_arith);
    assert((k + 1) * ee == k * ee + ee) by (nonlinear_arith);
    let md = m * d;
    assert((md - e) * (md - e) == md * md - 2 * (md * e) + e * e) by (nonlinear_arith);
    assert(md * md == mm * dd) by (nonlinear_arith)
        requires
            md == m * d,
            mm == m * m,
            dd == d * d,
    ;
    assert(md * e == me * d) by (nonlinear_arith)
        requires
            md == m * d,
            me == m * e,
    ;
    assert((md - e) * (md - e) >= 0) by (nonlinear_arith);
}

/// Squared distances of the sums, or of the differences, of two samples are
/// not negative.
proof fn lemma_distances(
    a: IcerPlane,
    b: IcerPlane,
    x0: int,
    y0: int,
    width: int,
    k: int,
    minus: bool,
    m: int,
    e: int,
)
    requires
        0 <= k,
    ensures
        ({
            let t = region_totals(a, b, x0, y0, width, k);
            let q = t.first_squares + t.second_squares + (if minus {
                -2 * t.products
            } else {
                2 * t.products
            });
            let s = if minus {
                t.first - t.second
            } else {
                t.first + t.second
            };
            m * m * q - 2 * (m * e) * s + k * (e * e) >= 0
        }),
    decreases k,
{
    let t = region_totals(a, b, x0, y0, width, k);
    if k > 0 {
        lemma_distances(a, b, x0, y0, width, k - 1, minus, m, e);
        let before = region_totals(a, b, x0, y0, width, k - 1);
        let (x, y) = (x0 + (k - 1) % width, y0 + (k - 1) / width);
        let (u, v) = (byte_at(a, x, y), byte_at(b, x, y));
        let d = if minus {
            u - v
        } else {
            u + v
        };
        let q = before.first_squares + before.second_squares + (if minus {
            -2 * before.products
        } else {
            2 * before.products
        });
        let s = if minus {
            before.first - before.second
        } else {
            before.first + before.second
        };
        lemma_square_sum(m, e, d, q, s, k - 1);
        assert((u - v) * (u - v) == u * u + v * v - 2 * (u * v)) by (nonlinear_arith);
        assert((u + v) * (u + v) == u * u + v * v + 2 * (u * v)) by (nonlinear_arith);
    } else {
        assert(m * m * 0 == 0 && 2 * (m * e) * 0 == 0 && 0 * (e * e) == 0) by (nonlinear_arith);
    }
}

/// A variance is not negative.
proof fn lemma_variance(
    a: IcerPlane,
    b: IcerPlane,
    x0: int,
    y0: int,
    width: int,
    n: int,
    minus: bool,
)
    requires
        0 < n,
    ensures
        ({
            let t = region_totals(a, b, x0, y0, width, n);
            let q = t.first_squares + t.second_squares + (if minus {
                -2 * t.products
            } else {
                2 * t.products
            });
            let s = if minus {
                t.first - t.second
            } else {
                t.first + t.second
            };
            n * q - s * s >= 0
        }),
{
    let t = region_totals(a, b, x0, y0, width, n);
    let q = t.first_squares + t.second_squares + (if minus {
        -2 * t.products
    } else {
        2 * t.products
    });
    let s = if minus {
        t.first - t.second
    } else {
        t.first + t.second
    };
    lemma_distances(a, b, x0, y0, width, n, minus, n, s);
    assert(n * n * q - 2 * (n * s) * s + n * (s * s) == n * (n * q - s * s)) by (nonlinear_arith);
    assert(n * q - s * s >= 0) by (nonlinear_arith)
        requires
            n * (n * q - s * s) >= 0,
            n > 0,
    ;
}

/// The factors of a score: the mixed ones are not greater than the others.
proof fn lemma_factors(a: IcerPlane, b: IcerPlane, x0: int, y0: int, width: int, n: int)
    requires
        0 < n,
    ensures
        ({
            let t = region_totals(a, b, x0, y0, width, n);
            let mixed = t.first * t.second;
            let squares = t.first * t.first + t.second * t.second;
            &&& 0 <= 2 * mixed <= squares
            &&& 2 * (n * t.products - mixed) <= n * (t.first_squares + t.second_squares) - squares
            &&& -2 * (n * t.products - mixed) <= n * (t.first_squares + t.second_squares) - squares
            &&& n * n > 0
        }),
{
    let t = region_totals(a, b, x0, y0, width, n);
    let (f, s) = (t.first, t.second);
    lemma_totals_bound(a, b, x0, y0, width, n);
    lemma_variance(a, b, x0, y0, width, n, true);
    lemma_variance(a, b, x0, y0, width, n, false);
    assert(0 <= 2 * (f * s) <= f * f + s * s) by (nonlinear_arith)
        requires
            f >= 0,
            s >= 0,
    ;
    assert(n * n > 0) by (nonlinear_arith)
        requires
            n > 0,
    ;
    assert((f - s) * (f - s) == f * f + s * s - 2 * (f * s)) by (nonlinear_arith);
    assert((f + s) * (f + s) == f * f + s * s + 2 * (f * s)) by (nonlinear_arith);
    let c = t.first_squares + t.second_squares;
    let p = t.products;
    assert(n * (c - 2 * p) == n * c - 2 * (n * p)) by (nonlinear_arith);
    assert(n * (c + 2 * p) == n * c + 2 * (n * p)) by (nonlinear_arith);
}

/// **A score lies between -1 and 1.**
pub proof fn scores_are_fractions(a: IcerPlane, b: IcerPlane, width: int, height: int, i: int)
    requires
        width >= 1,
        height >= 1,
    ensures
        ({
            let (p, q) = score_at(a, b, width, height, i);
            &&& q > 0
            &&& -q <= p <= q
        }),
{
    let (w, h) = (window_side(width), window_side(height));
    let across = windows_along(width);
    let n = w * h;
    assert(n > 0) by (nonlinear_arith)
        requires
            n == w * h,
            w >= 1,
            h >= 1,
    ;
    lemma_factors(a, b, i % across, i / across, w, n);
    let t = region_totals(a, b, i % across, i / across, w, n);
    let mixed = t.first * t.second;
    let squares = t.first * t.first + t.second * t.second;
    let area = n * n;
    let x = 20000 * mixed + 65025 * area;
    let y = 20000 * (n * t.products - mixed) + 585225 * area;
    let u = 10000 * squares + 65025 * area;
    let v = 10000 * (n * (t.first_squares + t.second_squares) - squares) + 585225 * area;
    assert(u * v > 0 && -(u * v) <= x * y <= u * v) by (nonlinear_arith)
        requires
            0 <= x <= u,
            0 < u,
            0 < v,
            -v <= y <= v,
    ;
}

/// **A window that two planes share scores 1.**
pub proof fn equal_windows_score_one(
    a: IcerPlane,
    b: IcerPlane,
    x0: int,
    y0: int,
    width: int,
    n: int,
)
    requires
        0 <= n,
        forall|k: int|
            0 <= k < n ==> #[trigger] byte_at(a, x0 + k % width, y0 + k / width) == byte_at(
                b,
                x0 + k % width,
                y0 + k / width,
            ),
    ensures
        ({
            let (p, q) = window_score(region_totals(a, b, x0, y0, width, n), n);
            p == q
        }),
{
    lemma_equal_totals(a, b, x0, y0, width, n);
    let t = region_totals(a, b, x0, y0, width, n);
    let (f, s, p) = (t.first * t.first, t.first_squares, t.products);
    assert(n * (s + s) - (f + f) == 2 * (n * s - f)) by (nonlinear_arith);
}

proof fn lemma_equal_totals(a: IcerPlane, b: IcerPlane, x0: int, y0: int, width: int, n: int)
    requires
        0 <= n,
        forall|k: int|
            0 <= k < n ==> #[trigger] byte_at(a, x0 + k % width, y0 + k / width) == byte_at(
                b,
                x0 + k % width,
                y0 + k / width,
            ),
    ensures
        ({
            let t = region_totals(a, b, x0, y0, width, n);
            &&& t.first == t.second
            &&& t.first_squares == t.second_squares == t.products
        }),
    decreases n,
{
    if n > 0 {
        lemma_equal_totals(a, b, x0, y0, width, n - 1);
        assert(byte_at(a, x0 + (n - 1) % width, y0 + (n - 1) / width) == byte_at(
            b,
            x0 + (n - 1) % width,
            y0 + (n - 1) / width,
        ));
    }
}

// ---------------------------------------------------------------------------
// Measuring
// ---------------------------------------------------------------------------

proof fn lemma_product_bound(x: int, y: int, a: int, b: int)
    requires
        -a <= x <= a,
        -b <= y <= b,
    ensures
        -(a * b) <= x * y <= a * b,
{
    assert(-(a * b) <= x * y <= a * b) by (nonlinear_arith)
        requires
            -a <= x <= a,
            -b <= y <= b,
    ;
}

/// The score of a window of at most 64 samples.
fn score_window(s: &RegionSums) -> (score: WindowScore)
    requires
        s.pixels <= 64,
        s.first <= 255 * s.pixels,
        s.second <= 255 * s.pixels,
        s.first_squares <= 65025 * s.pixels,
        s.second_squares <= 65025 * s.pixels,
        s.products <= 65025 * s.pixels,
    ensures
        (score.numerator as int, score.denominator as int) == window_score(
            s.totals(),
            s.pixels as int,
        ),
{
    let n: i128 = s.pixels as i128;
    let f: i128 = s.first as i128;
    let g: i128 = s.second as i128;
    let p: i128 = s.products as i128;
    let c: i128 = s.first_squares as i128 + s.second_squares as i128;
    proof {
        lemma_product_bound(f as int, g as int, 16320, 16320);
        lemma_product_bound(f as int, f as int, 16320, 16320);
        lemma_product_bound(g as int, g as int, 16320, 16320);
        lemma_product_bound(n as int, n as int, 64, 64);
        lemma_product_bound(n as int, p as int, 64, 4161600);
        lemma_product_bound(n as int, c as int, 64, 8323200);
    }
    let mixed: i128 = f * g;
    let squares: i128 = f * f + g * g;
    let area: i128 = n * n;
    let x: i128 = 20000 * mixed + 65025 * area;
    let y: i128 = 20000 * (n * p - mixed) + 585225 * area;
    let u: i128 = 10000 * squares + 65025 * area;
    let v: i128 = 10000 * (n * c - squares) + 585225 * area;
    proof {
        lemma_product_bound(x as int, y as int, 0x1_0000_0000_0000, 0x1_0000_0000_0000);
        lemma_product_bound(u as int, v as int, 0x1_0000_0000_0000, 0x1_0000_0000_0000);
    }
    WindowScore { numerator: x * y, denominator: u * v }
}

fn side_of(n: u32) -> (side: u32)
    ensures
        side == window_side(n as int),
{
    if n < SSIM_WINDOW {
        n
    } else {
        SSIM_WINDOW
    }
}

/// The scores of all windows of the first planes of two images of 8-bit
/// samples, row by row. The structural similarity of the images is their mean,
/// or 1 where an image has no samples.
pub fn ssim(original: &IcerImage, decoded: &IcerImage) -> (r: Result<Vec<WindowScore>>)
    requires
        rows_there(*original),
        rows_there(*decoded),
    ensures
        if original.width != decoded.width || original.height != decoded.height
            || original.planes@.len() == 0 || decoded.planes@.len() == 0 {
            fails_with(r, Fault::Unsupported)
        } else {
            let (w, h) = (original.width as int, original.height as int);
            &&& r is Ok
            &&& r->Ok_0@.len() == window_count(w, h)
            &&& forall|i: int|
                0 <= i < window_count(w, h) ==> ((#[trigger] r->Ok_0@[i]).numerator as int,
                r->Ok_0@[i].denominator as int) == score_at(
                    original.planes@[0],
                    decoded.planes@[0],
                    w,
                    h,
                    i,
                )
        },
{
    if original.width != decoded.width || original.height != decoded.height {
        return Err(IcerError::unsupported("ssim: geometry mismatch"));
    }
    if original.planes.len() == 0 {
        return Err(IcerError::unsupported("ssim: original has no planes"));
    }
    if decoded.planes.len() == 0 {
        return Err(IcerError::unsupported("ssim: decoded has no planes"));
    }
    let (w, h): (u32, u32) = (original.width, original.height);
    let mut scores: Vec<WindowScore> = Vec::new();
    if w == 0 || h == 0 {
        return Ok(scores);
    }
    let (a, b) = (&original.planes[0], &decoded.planes[0]);
    let (win_w, win_h): (u32, u32) = (side_of(w), side_of(h));
    let across: u64 = (w - win_w) as u64 + 1;
    let down: u64 = (h - win_h) as u64 + 1;
    assert(0 <= across * down <= 0xFFFF_FFFF * 0xFFFF_FFFF) by (nonlinear_arith)
        requires
            0 <= across <= 0xFFFF_FFFF,
            0 <= down <= 0xFFFF_FFFF,
    ;
    let n: u64 = across * down;
    let mut i: u64 = 0;
    while i < n
        invariant
            i <= n,
            n == across * down,
            1 <= w,
            1 <= h,
            win_w == window_side(w as int),
            win_h == window_side(h as int),
            across == windows_along(w as int),
            down == windows_along(h as int),
            rows_inside(*a, w as int, h as int),
            rows_inside(*b, w as int, h as int),
            scores@.len() == i,
            forall|j: int|
                0 <= j < i ==> ((#[trigger] scores@[j]).numerator as int,
                scores@[j].denominator as int) == score_at(*a, *b, w as int, h as int, j),
        decreases n - i,
    {
        assert(0 <= i as int / (across as int) < down) by (nonlinear_arith)
            requires
                0 <= i < across * down,
                across >= 1,
        ;
        let x: u32 = (i % across) as u32;
        let y: u32 = (i / across) as u32;
        proof {
            lemma_region(*a, w as int, h as int, x as int, y as int, win_w as int, win_h as int);
            lemma_region(*b, w as int, h as int, x as int, y as int, win_w as int, win_h as int);
            lemma_product_bound(win_w as int, win_h as int, 8, 8);
            assert(0 <= win_w * win_h) by (nonlinear_arith)
                requires
                    win_w >= 0,
                    win_h >= 0,
            ;
            lemma_totals_bound(*a, *b, x as int, y as int, win_w as int, win_w * win_h);
        }
        let s = sum_region(a, b, x, y, win_w, win_h);
        scores.push(score_window(&s));
        i = i + 1;
    }
    Ok(scores)
}

} // verus!
