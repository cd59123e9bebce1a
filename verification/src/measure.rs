//! How the sums over regions of two planes add up.

use crate::analyze::{byte_at, extremes_until, region_totals, stats_of, sums_until, tones, RegionTotals};
use crate::image::IcerPlane;
use crate::similarity::{score_at, window_score};
use vstd::prelude::*;

verus! {

/// The sums over two regions together.
pub open spec fn together(s: RegionTotals, t: RegionTotals) -> RegionTotals {
    RegionTotals {
        first: s.first + t.first,
        second: s.second + t.second,
        first_squares: s.first_squares + t.first_squares,
        second_squares: s.second_squares + t.second_squares,
        products: s.products + t.products,
        differences: s.differences + t.differences,
        squared_differences: s.squared_differences + t.squared_differences,
        greatest: if s.greatest < t.greatest {
            t.greatest
        } else {
            s.greatest
        },
    }
}

proof fn lemma_greatest(a: IcerPlane, b: IcerPlane, x0: int, y0: int, width: int, k: int)
    ensures
        region_totals(a, b, x0, y0, width, k).greatest >= 0,
    decreases k,
{
    if k > 0 {
        lemma_greatest(a, b, x0, y0, width, k - 1);
    }
}

/// **A single sample is measured by itself.**
pub proof fn single_samples_are_measured(a: IcerPlane, b: IcerPlane, x: int, y: int)
    ensures
        ({
            let t = region_totals(a, b, x, y, 1, 1);
            let u = a.data@[y * a.stride + x] as int;
            let v = b.data@[y * b.stride + x] as int;
            &&& t.first == u
            &&& t.second == v
            &&& t.first_squares == u * u
            &&& t.second_squares == v * v
            &&& t.products == u * v
            &&& t.differences == (if u < v {
                v - u
            } else {
                u - v
            })
            &&& t.squared_differences == (u - v) * (u - v)
            &&& t.greatest == t.differences
        }),
{
    reveal_with_fuel(region_totals, 2);
    let u = a.data@[y * a.stride + x] as int;
    let v = b.data@[y * b.stride + x] as int;
    assert(x + 0int % 1 == x && y + 0int / 1 == y);
    assert((v - u) * (v - u) == (u - v) * (u - v)) by (nonlinear_arith);
}

proof fn lemma_rows(a: IcerPlane, b: IcerPlane, x0: int, y0: int, width: int, h: int, k: int)
    requires
        width > 0,
        0 <= h,
        0 <= k,
    ensures
        region_totals(a, b, x0, y0, width, width * h + k) == together(
            region_totals(a, b, x0, y0, width, width * h),
            region_totals(a, b, x0, y0 + h, width, k),
        ),
    decreases k,
{
    assert(0 <= width * h) by (nonlinear_arith)
        requires
            width > 0,
            0 <= h,
    ;
    lemma_greatest(a, b, x0, y0, width, width * h);
    lemma_greatest(a, b, x0, y0 + h, width, k);
    if k > 0 {
        lemma_rows(a, b, x0, y0, width, h, k - 1);
        lemma_greatest(a, b, x0, y0 + h, width, k - 1);
        let i = k - 1;
        vstd::arithmetic::div_mod::lemma_hoist_over_denominator(i, h, width as nat);
        vstd::arithmetic::div_mod::lemma_mod_multiples_vanish(h, i, width);
        assert(width * h + i == i + h * width) by (nonlinear_arith);
        assert((width * h + i) / width == i / width + h);
        assert((width * h + i) % width == i % width);
    }
}

/// **The rows of a region add up**: the sums over a region are those over its
/// upper and over its lower rows together.
pub proof fn rows_add_up(a: IcerPlane, b: IcerPlane, x0: int, y0: int, width: int, h: int, more: int)
    requires
        width > 0,
        0 <= h,
        0 <= more,
    ensures
        region_totals(a, b, x0, y0, width, width * (h + more)) == together(
            region_totals(a, b, x0, y0, width, width * h),
            region_totals(a, b, x0, y0 + h, width, width * more),
        ),
{
    assert(width * (h + more) == width * h + width * more && 0 <= width * more)
        by (nonlinear_arith)
        requires
            width > 0,
            0 <= more,
    ;
    lemma_rows(a, b, x0, y0, width, h, width * more);
}

proof fn lemma_row_start(a: IcerPlane, b: IcerPlane, x0: int, y: int, w: int, width: int, k: int)
    requires
        0 <= k <= w <= width,
    ensures
        region_totals(a, b, x0, y, width, k) == region_totals(a, b, x0, y, w, k),
    decreases k,
{
    if k > 0 {
        lemma_row_start(a, b, x0, y, w, width, k - 1);
        let i = k - 1;
        vstd::arithmetic::div_mod::lemma_small_mod(i as nat, w as nat);
        vstd::arithmetic::div_mod::lemma_small_mod(i as nat, width as nat);
        vstd::arithmetic::div_mod::lemma_basic_div(i, w);
        vstd::arithmetic::div_mod::lemma_basic_div(i, width);
    }
}

/// **The samples of a row add up**: the sums over a row are those over its left
/// and over its right samples together.
pub proof fn columns_add_up(a: IcerPlane, b: IcerPlane, x0: int, y: int, w: int, more: int)
    requires
        0 <= w,
        0 <= more,
    ensures
        region_totals(a, b, x0, y, w + more, w + more) == together(
            region_totals(a, b, x0, y, w, w),
            region_totals(a, b, x0 + w, y, more, more),
        ),
    decreases more,
{
    lemma_greatest(a, b, x0, y, w, w);
    lemma_greatest(a, b, x0 + w, y, more, more);
    if more > 0 {
        columns_add_up(a, b, x0, y, w, more - 1);
        lemma_greatest(a, b, x0 + w, y, more - 1, more - 1);
        let n = w + more;
        lemma_row_start(a, b, x0, y, n - 1, n, n - 1);
        lemma_row_start(a, b, x0 + w, y, more - 1, more, more - 1);
        vstd::arithmetic::div_mod::lemma_small_mod((n - 1) as nat, n as nat);
        vstd::arithmetic::div_mod::lemma_small_mod((more - 1) as nat, more as nat);
        vstd::arithmetic::div_mod::lemma_basic_div(n - 1, n);
        vstd::arithmetic::div_mod::lemma_basic_div(more - 1, more);
    }
}

/// **It does not matter which of two planes comes first**: their samples change
/// places, and their differences stay.
pub proof fn differences_are_symmetric(a: IcerPlane, b: IcerPlane, x0: int, y0: int, width: int, k: int)
    ensures
        ({
            let (s, t) = (
                region_totals(a, b, x0, y0, width, k),
                region_totals(b, a, x0, y0, width, k),
            );
            &&& s.first == t.second
            &&& s.second == t.first
            &&& s.first_squares == t.second_squares
            &&& s.second_squares == t.first_squares
            &&& s.products == t.products
            &&& s.differences == t.differences
            &&& s.squared_differences == t.squared_differences
            &&& s.greatest == t.greatest
        }),
    decreases k,
{
    if k > 0 {
        differences_are_symmetric(a, b, x0, y0, width, k - 1);
        let (x, y) = (x0 + (k - 1) % width, y0 + (k - 1) / width);
        let (u, v) = (byte_at(a, x, y), byte_at(b, x, y));
        assert(u * v == v * u) by (nonlinear_arith);
    }
}

/// **The score of a window does not depend on which of two planes comes first.**
pub proof fn scores_are_symmetric(a: IcerPlane, b: IcerPlane, width: int, height: int, i: int)
    ensures
        score_at(a, b, width, height, i) == score_at(b, a, width, height, i),
{
    let (w, h) = (
        crate::similarity::window_side(width),
        crate::similarity::window_side(height),
    );
    let across = crate::similarity::windows_along(width);
    let n = w * h;
    differences_are_symmetric(a, b, i % across, i / across, w, n);
    let (s, t) = (
        region_totals(a, b, i % across, i / across, w, n),
        region_totals(b, a, i % across, i / across, w, n),
    );
    assert(s.first * s.second == t.first * t.second) by (nonlinear_arith)
        requires
            s.first == t.second,
            s.second == t.first,
    ;
    assert(s.first * s.first + s.second * s.second == t.first * t.first + t.second * t.second);
    assert(window_score(s, n) == window_score(t, n));
}

// ---------------------------------------------------------------------------
// Statistics
// ---------------------------------------------------------------------------

proof fn lemma_extremes(t: Seq<int>, k: int)
    requires
        0 <= k <= t.len(),
        forall|i: int| 0 <= i < t.len() ==> 0 <= #[trigger] t[i] <= 255,
    ensures
        ({
            let (low, high) = extremes_until(t, k);
            &&& forall|i: int| 0 <= i < k ==> low <= #[trigger] t[i] <= high
            &&& k > 0 ==> exists|i: int| 0 <= i < k && #[trigger] t[i] == low
            &&& k > 0 ==> exists|i: int| 0 <= i < k && #[trigger] t[i] == high
            &&& k == 0 ==> low == 255 && high == 0
        }),
    decreases k,
{
    if k > 0 {
        lemma_extremes(t, k - 1);
        let (low, high) = extremes_until(t, k - 1);
        let (l, h) = extremes_until(t, k);
        assert(0 <= t[k - 1] <= 255);
        if t[k - 1] < low || k == 1 {
            assert(t[k - 1] == l);
        } else {
            let i = choose|i: int| 0 <= i < k - 1 && #[trigger] t[i] == low;
            assert(t[i] == l);
        }
        if t[k - 1] > high || k == 1 {
            assert(t[k - 1] == h);
        } else {
            let i = choose|i: int| 0 <= i < k - 1 && #[trigger] t[i] == high;
            assert(t[i] == h);
        }
    }
}

/// Two tones are the farthest apart.
pub open spec fn widest(t: Seq<int>, i: int, j: int) -> bool {
    &&& 0 <= i < t.len()
    &&& 0 <= j < t.len()
    &&& forall|k: int| 0 <= k < t.len() ==> t[i] <= #[trigger] t[k] <= t[j]
}

/// **The dynamic range is the distance of the darkest tone from the brightest**,
/// and the number of samples is that of the tones.
pub proof fn ranges_are_attained(samples: Seq<i32>, bits: u8, width: int)
    requires
        samples.len() > 0,
        samples.len() <= u64::MAX,
        forall|i: int|
            0 <= i < samples.len() ==> 0 <= #[trigger] tones(samples, bits)[i] <= 255,
    ensures
        stats_of(samples, bits, width).pixels == samples.len(),
        exists|i: int, j: int| #[trigger]
            widest(tones(samples, bits), i, j) && stats_of(samples, bits, width).dynamic_range
                == tones(samples, bits)[j] - tones(samples, bits)[i],
{
    let t = tones(samples, bits);
    let n = t.len() as int;
    lemma_extremes(t, n);
    let (low, high) = extremes_until(t, n);
    let i = choose|i: int| 0 <= i < n && #[trigger] t[i] == low;
    let j = choose|j: int| 0 <= j < n && #[trigger] t[j] == high;
    assert(widest(t, i, j));
}

/// **Every sample has a left neighbour but the first of its row, and one above it
/// but those of the first row.**
pub proof fn neighbours_are_counted(t: Seq<int>, width: int, height: int)
    requires
        width > 0,
        height > 0,
    ensures
        sums_until(t, width, width * height).3 == (width - 1) * height,
        sums_until(t, width, width * height).5 == width * (height - 1),
{
    lemma_left_pairs(t, width, height, 0);
    lemma_above_pairs(t, width, width * height);
    assert(width * height >= width && width * height - width == width * (height - 1))
        by (nonlinear_arith)
        requires
            width > 0,
            height > 0,
    ;
}

proof fn lemma_left_pairs(t: Seq<int>, width: int, h: int, k: int)
    requires
        width > 0,
        0 <= h,
        0 <= k < width,
    ensures
        sums_until(t, width, width * h + k).3 == (width - 1) * h + (if k > 0 {
            k - 1
        } else {
            0
        }),
    decreases h, k,
{
    assert(0 <= width * h) by (nonlinear_arith)
        requires
            width > 0,
            0 <= h,
    ;
    if k > 0 {
        lemma_left_pairs(t, width, h, k - 1);
        let i = k - 1;
        assert(width * h + i == i + width * h);
        vstd::arithmetic::div_mod::lemma_mod_multiples_vanish(h, i, width);
        vstd::arithmetic::div_mod::lemma_small_mod(i as nat, width as nat);
        assert((width * h + i) % width == i);
    } else if h > 0 {
        lemma_left_pairs(t, width, h - 1, width - 1);
        let i = width - 1;
        vstd::arithmetic::div_mod::lemma_mod_multiples_vanish(h - 1, i, width);
        vstd::arithmetic::div_mod::lemma_small_mod(i as nat, width as nat);
        assert(width * (h - 1) + i == width * h - 1) by (nonlinear_arith)
            requires
                i == width - 1,
        ;
        assert((width * h - 1) % width == i);
        assert((width - 1) * h == (width - 1) * (h - 1) + (width - 1)) by (nonlinear_arith);
    } else {
        assert(width * h == 0 && (width - 1) * h == 0) by (nonlinear_arith)
            requires
                h == 0,
        ;
    }
}

proof fn lemma_above_pairs(t: Seq<int>, width: int, k: int)
    requires
        width > 0,
        0 <= k,
    ensures
        sums_until(t, width, k).5 == (if k > width {
            k - width
        } else {
            0
        }),
    decreases k,
{
    if k > 0 {
        lemma_above_pairs(t, width, k - 1);
    }
}

/// **What has one tone has no edges**: no neighbours of it differ, its sum is the
/// tone as often as there are samples, and its range is nothing.
pub proof fn flat_images_have_no_edges(t: Seq<int>, width: int, k: int, v: int)
    requires
        width > 0,
        0 <= k <= t.len(),
        forall|i: int| 0 <= i < t.len() ==> #[trigger] t[i] == v,
    ensures
        sums_until(t, width, k).0 == v * k,
        sums_until(t, width, k).1 == v * v * k,
        sums_until(t, width, k).2 == 0,
        sums_until(t, width, k).4 == 0,
    decreases k,
{
    if k > 0 {
        flat_images_have_no_edges(t, width, k - 1, v);
        let i = k - 1;
        assert(t[i] == v);
        if i % width != 0 {
            assert(i >= 1) by {
                if i == 0 {
                    vstd::arithmetic::div_mod::lemma_small_mod(0, width as nat);
                }
            }
            assert(t[i - 1] == v);
        }
        if i >= width {
            assert(t[i - width] == v);
        }
        assert(v * (k - 1) + v == v * k) by (nonlinear_arith);
        assert(v * v * (k - 1) + v * v == v * v * k) by (nonlinear_arith);
    } else {
        assert(v * 0 == 0 && v * v * 0 == 0) by (nonlinear_arith);
    }
}

/// Sum of the distances of the first `k` tones from their neighbours in rows of
/// `width`: from the one on the left where `across`, and else from the one above.
pub open spec fn steps_until(t: Seq<int>, width: int, across: bool, k: int) -> int
    decreases k,
{
    if k <= 0 {
        0
    } else {
        let i = k - 1;
        let (x, y) = (i % width, i / width);
        let before = steps_until(t, width, across, k - 1);
        if across && x > 0 {
            before + distance(t[y * width + x], t[y * width + x - 1])
        } else if !across && y > 0 {
            before + distance(t[y * width + x], t[(y - 1) * width + x])
        } else {
            before
        }
    }
}

/// Distance of two numbers.
pub open spec fn distance(a: int, b: int) -> int {
    if a - b < 0 {
        b - a
    } else {
        a - b
    }
}

/// Sum of the first `k` numbers, or of their squares.
pub open spec fn summed(t: Seq<int>, squared: bool, k: int) -> int
    decreases k,
{
    if k <= 0 {
        0
    } else {
        summed(t, squared, k - 1) + (if squared {
            t[k - 1] * t[k - 1]
        } else {
            t[k - 1]
        })
    }
}

/// **Gradients are the steps from column to column and from row to row.**
pub proof fn gradients_are_steps(t: Seq<int>, width: int, k: int)
    requires
        width > 0,
        0 <= k,
    ensures
        sums_until(t, width, k).0 == summed(t, false, k),
        sums_until(t, width, k).1 == summed(t, true, k),
        sums_until(t, width, k).2 == steps_until(t, width, true, k),
        sums_until(t, width, k).4 == steps_until(t, width, false, k),
    decreases k,
{
    if k > 0 {
        gradients_are_steps(t, width, k - 1);
        let i = k - 1;
        let (x, y) = (i % width, i / width);
        vstd::arithmetic::div_mod::lemma_fundamental_div_mod(i, width);
        assert(y * width + x == i) by (nonlinear_arith)
            requires
                i == width * y + x,
        ;
        assert((y - 1) * width + x == i - width) by (nonlinear_arith)
            requires
                i == width * y + x,
        ;
        assert(y > 0 <==> i >= width) by (nonlinear_arith)
            requires
                i == width * y + x,
                0 <= x < width,
                width > 0,
                i >= 0,
        ;
    }
}

} // verus!
