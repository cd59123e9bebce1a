//! Partition of the LL subband into segments.
//!
//! A rectangle of `w` by `h` pixels is cut into `s` nearly square segments of
//! nearly equal area, in integer arithmetic alone. The segments stand in `r`
//! rows. The first `r_t` rows form the top region, which is `h_t` pixels high
//! and has `c` columns; the other rows form the bottom region, which has
//! `c + 1` columns. Segments are numbered in raster order.
//!
//! The decoder computes the same boundaries from the size of the image, the
//! number of decomposition levels and the number of segments, so that no
//! boundary is ever sent.
use vstd::prelude::*;
use vstd::arithmetic::power2::pow2;

use crate::error::{fails_with, Fault, IcerError, Result};
use crate::priority::{lemma_index, two_to};
use crate::text::with_numbers;

verus! {

/// The numbers that describe a partition.
#[derive(Debug, Clone, Copy, PartialEq, Eq, Structural)]
pub struct PartitionParams {
    /// Rows of segments.
    pub r: usize,
    /// Columns of the top region.
    pub c: usize,
    /// Rows of the top region; equal to `r` where there is no bottom region.
    pub r_t: usize,
    /// Height of the top region.
    pub h_t: usize,
    /// Width of the first `c_t0` columns of the top region; the others are
    /// one wider.
    pub x_t: usize,
    /// Number of narrow columns of the top region.
    pub c_t0: usize,
    /// Height of the first `r_t0` rows of the top region; the others are one
    /// higher.
    pub y_t: usize,
    /// Number of low rows of the top region.
    pub r_t0: usize,
    /// Width of the first `c_b0` columns of the bottom region.
    pub x_b: usize,
    /// Number of narrow columns of the bottom region.
    pub c_b0: usize,
    /// Height of the first `r_b0` rows of the bottom region.
    pub y_b: usize,
    /// Number of low rows of the bottom region.
    pub r_b0: usize,
}

/// One segment of a partition, in pixels of the LL subband.
#[derive(Debug, Clone, Copy, PartialEq, Eq, Structural)]
pub struct SegmentRect {
    /// Number of the segment in raster order.
    pub index: usize,
    /// Left edge.
    pub x: usize,
    /// Top edge.
    pub y: usize,
    /// Width, at least 1.
    pub width: usize,
    /// Height, at least 1.
    pub height: usize,
}

/// `a / b`, rounded up.
pub open spec fn ceil_div(a: int, b: int) -> int {
    (a + b - 1) / b
}

/// `a / b`, rounded up.
pub fn div_up(a: usize, b: usize) -> (q: usize)
    requires
        b >= 1,
    ensures
        q == ceil_div(a as int, b as int),
        q <= a,
        q * b >= a,
        a >= 1 ==> q >= 1,
{
    if a == 0 {
        proof {
            let bi = b as int;
            assert((bi - 1) / bi == 0) by (nonlinear_arith)
                requires
                    bi >= 1,
            ;
        }
        0
    } else {
        let q: usize = (a - 1) / b + 1;
        proof {
            let ai = a as int;
            let bi = b as int;
            assert((ai - 1 + bi) / bi == (ai - 1) / bi + 1 && (ai - 1) / bi + 1 <= ai && ((ai - 1)
                / bi + 1) * bi >= ai) by (nonlinear_arith)
                requires
                    ai >= 1,
                    bi >= 1,
            ;
        }
        q
    }
}

/// Size of the LL subband of an image after `d` decomposition levels.
pub fn ll_dimensions(image_w: usize, image_h: usize, d: u8) -> (r: (usize, usize))
    requires
        d <= 31,
    ensures
        r.0 == ceil_div(image_w as int, pow2(d as nat) as int),
        r.1 == ceil_div(image_h as int, pow2(d as nat) as int),
        r.0 <= image_w,
        r.1 <= image_h,
{
    let s: usize = two_to(d);
    (div_up(image_w, s), div_up(image_h, s))
}

/// A partition of a `w` by `h` rectangle into `s` segments exists.
pub open spec fn can_partition(w: int, h: int, s: int) -> bool {
    w >= 1 && h >= 1 && s >= 1 && s <= w * h
}

/// `r` is the number of rows of segments: as many as segments where the
/// rectangle is that tall, else the number for which the average segment is
/// nearest to a square.
pub open spec fn is_row_count(w: int, h: int, s: int, r: int) -> bool {
    if h > (s - 1) * w {
        r == s
    } else {
        1 <= r && (r - 1) * r * w < h * s && h * s <= (r + 1) * r * w
    }
}

/// **The number of rows is unique.**
pub proof fn row_count_is_unique(w: int, h: int, s: int, r1: int, r2: int)
    requires
        can_partition(w, h, s),
        is_row_count(w, h, s, r1),
        is_row_count(w, h, s, r2),
    ensures
        r1 == r2,
{
    if h <= (s - 1) * w {
        if r1 < r2 {
            lemma_rows_in_order(w, r1, r2);
        }
        if r2 < r1 {
            lemma_rows_in_order(w, r2, r1);
        }
    }
}

proof fn lemma_rows_in_order(w: int, a: int, b: int)
    requires
        w >= 1,
        1 <= a < b,
    ensures
        (a + 1) * a * w <= (b - 1) * b * w,
{
    assert((a + 1) * a <= b * (b - 1)) by (nonlinear_arith)
        requires
            1 <= a,
            a + 1 <= b,
    ;
    assert((a + 1) * a * w <= (b - 1) * b * w) by (nonlinear_arith)
        requires
            (a + 1) * a <= b * (b - 1),
            w >= 1,
    ;
}

/// The equations that fix every number of a partition.
pub open spec fn is_params(w: int, h: int, s: int, p: PartitionParams) -> bool {
    let rounded = (h * p.c * p.r_t + s / 2) / s;
    &&& is_row_count(w, h, s, p.r as int)
    &&& p.c == s / (p.r as int)
    &&& p.r_t == (p.c + 1) * p.r - s
    &&& p.h_t == (if p.r_t >= rounded {
        p.r_t as int
    } else {
        rounded
    })
    &&& p.x_t == w / (p.c as int)
    &&& p.c_t0 == (p.x_t + 1) * p.c - w
    &&& p.y_t == p.h_t / p.r_t
    &&& p.r_t0 == (p.y_t + 1) * p.r_t - p.h_t
    &&& if p.r_t < p.r {
        &&& p.x_b == w / (p.c + 1)
        &&& p.c_b0 == (p.x_b + 1) * (p.c + 1) - w
        &&& p.y_b == (h - p.h_t) / (p.r - p.r_t)
        &&& p.r_b0 == (p.y_b + 1) * (p.r - p.r_t) - (h - p.h_t)
    } else {
        p.x_b == 0 && p.c_b0 == 0 && p.y_b == 0 && p.r_b0 == 0
    }
}

/// `extent` pixels are divided into `count` divisions, the first `narrow` of
/// size `base` and the others of size `base + 1`, and none is empty.
pub open spec fn is_division(base: int, narrow: int, count: int, extent: int) -> bool {
    &&& base >= 1
    &&& 1 <= narrow <= count
    &&& narrow * base + (count - narrow) * (base + 1) == extent
}

/// Where division `i` starts.
pub open spec fn division_start(base: int, narrow: int, i: int) -> int {
    if i <= narrow {
        i * base
    } else {
        narrow * base + (i - narrow) * (base + 1)
    }
}

/// Size of division `i`.
pub open spec fn division_size(base: int, narrow: int, i: int) -> int {
    if i < narrow {
        base
    } else {
        base + 1
    }
}

/// The division that holds pixel `x`.
pub open spec fn division_of(base: int, narrow: int, x: int) -> int {
    if x < narrow * base {
        x / base
    } else {
        narrow + (x - narrow * base) / (base + 1)
    }
}

proof fn lemma_even_division(extent: int, count: int)
    requires
        1 <= count <= extent,
    ensures
        is_division(extent / count, (extent / count + 1) * count - extent, count, extent),
{
    let base = extent / count;
    let narrow = (base + 1) * count - extent;
    assert(base * count <= extent < (base + 1) * count && base >= 1) by (nonlinear_arith)
        requires
            base == extent / count,
            1 <= count <= extent,
    ;
    assert((base + 1) * count == base * count + count) by (nonlinear_arith);
    assert(narrow * base + (count - narrow) * (base + 1) == count * (base + 1) - narrow)
        by (nonlinear_arith);
    assert(count * (base + 1) == (base + 1) * count) by (nonlinear_arith);
}

proof fn lemma_division(base: int, narrow: int, count: int, extent: int, x: int, i: int)
    requires
        is_division(base, narrow, count, extent),
    ensures
        0 <= x < extent ==> 0 <= division_of(base, narrow, x) < count,
        0 <= x < extent && i == division_of(base, narrow, x) ==> division_start(base, narrow, i)
            <= x < division_start(base, narrow, i) + division_size(base, narrow, i),
        0 <= i < count && division_start(base, narrow, i) <= x < division_start(base, narrow, i)
            + division_size(base, narrow, i) ==> i == division_of(base, narrow, x),
        0 <= i < count ==> 0 <= division_start(base, narrow, i) && division_start(base, narrow, i)
            + division_size(base, narrow, i) <= extent,
        0 <= i < count ==> division_start(base, narrow, i + 1) == division_start(base, narrow, i)
            + division_size(base, narrow, i),
{
    let m = narrow * base;
    let wide = base + 1;
    assert(m >= 1) by (nonlinear_arith)
        requires
            m == narrow * base,
            narrow >= 1,
            base >= 1,
    ;
    assert((i + 1) * base == i * base + base) by (nonlinear_arith);
    assert((i + 1 - narrow) * wide == (i - narrow) * wide + wide) by (nonlinear_arith);
    if 0 <= i < count {
        if i < narrow {
            assert(i * base >= 0 && (i + 1) * base <= m) by (nonlinear_arith)
                requires
                    0 <= i < narrow,
                    base >= 1,
                    m == narrow * base,
            ;
            assert((count - narrow) * wide >= 0) by (nonlinear_arith)
                requires
                    count >= narrow,
                    wide >= 1,
            ;
        } else {
            if i == narrow {
                assert(i * base == m);
                assert((i - narrow) * wide == 0) by (nonlinear_arith)
                    requires
                        i == narrow,
                ;
            }
            assert(0 <= (i - narrow) * wide && (i + 1 - narrow) * wide <= (count - narrow) * wide)
                by (nonlinear_arith)
                requires
                    narrow <= i < count,
                    wide >= 1,
            ;
        }
    }
    if 0 <= x < extent {
        if x < m {
            let d = x / base;
            assert(0 <= d < narrow && d * base <= x < (d + 1) * base) by (nonlinear_arith)
                requires
                    d == x / base,
                    0 <= x < m,
                    m == narrow * base,
                    base >= 1,
            ;
            assert((d + 1) * base == d * base + base) by (nonlinear_arith);
        } else {
            let k = (x - m) / wide;
            assert(0 <= k < count - narrow && k * wide <= x - m < k * wide + wide)
                by (nonlinear_arith)
                requires
                    k == (x - m) / wide,
                    0 <= x - m < (count - narrow) * wide,
                    wide >= 1,
            ;
            let d = narrow + k;
            assert((d - narrow) * wide == k * wide);
            if k == 0 {
                assert(d * base == m);
            }
        }
    }
    if 0 <= i < count && division_start(base, narrow, i) <= x < division_start(base, narrow, i)
        + division_size(base, narrow, i) {
        if i < narrow {
            assert(x / base == i) by (nonlinear_arith)
                requires
                    i * base <= x < i * base + base,
                    base >= 1,
            ;
        } else {
            if i == narrow {
                assert(i * base == m);
            }
            let k = i - narrow;
            assert(k * wide <= x - m < k * wide + wide);
            assert(x - m >= 0) by (nonlinear_arith)
                requires
                    k * wide <= x - m,
                    k >= 0,
                    wide >= 1,
            ;
            assert((x - m) / wide == k) by (nonlinear_arith)
                requires
                    k * wide <= x - m < k * wide + wide,
                    wide >= 1,
            ;
        }
    }
}

proof fn lemma_row_count(w: int, h: int, s: int, r: int)
    requires
        can_partition(w, h, s),
        is_row_count(w, h, s, r),
    ensures
        1 <= r <= h,
        r <= s,
        s <= r * w,
{
    if h > (s - 1) * w {
        assert(s <= h) by (nonlinear_arith)
            requires
                h > (s - 1) * w,
                w >= 1,
                s >= 1,
        ;
        assert(s <= s * w) by (nonlinear_arith)
            requires
                w >= 1,
                s >= 1,
        ;
    } else {
        if s > r * w {
            assert(h >= r + 1) by (nonlinear_arith)
                requires
                    s <= w * h,
                    s > r * w,
                    w >= 1,
            ;
            assert(h * s >= (r + 1) * (r * w + 1)) by (nonlinear_arith)
                requires
                    h >= r + 1,
                    s >= r * w + 1,
                    r >= 1,
                    w >= 1,
            ;
            assert((r + 1) * (r * w + 1) == (r + 1) * r * w + r + 1) by (nonlinear_arith);
            assert(false);
        }
        if r > h {
            assert((r - 1) * r * w >= h * (r * w)) by (nonlinear_arith)
                requires
                    r - 1 >= h,
                    r >= 1,
                    w >= 1,
            ;
            assert(h * (r * w) >= h * s) by (nonlinear_arith)
                requires
                    r * w >= s,
                    h >= 1,
            ;
            assert(false);
        }
        if r > s {
            assert((r - 1) * r >= s * (s + 1)) by (nonlinear_arith)
                requires
                    r - 1 >= s,
                    s >= 1,
            ;
            assert((r - 1) * r * w >= s * (s + 1) * w) by (nonlinear_arith)
                requires
                    (r - 1) * r >= s * (s + 1),
                    w >= 1,
            ;
            assert(h * s <= (s - 1) * w * s) by (nonlinear_arith)
                requires
                    h <= (s - 1) * w,
                    s >= 1,
            ;
            assert((s - 1) * w * s <= s * (s + 1) * w) by (nonlinear_arith)
                requires
                    s >= 1,
                    w >= 1,
            ;
            assert(false);
        }
    }
}

proof fn lemma_columns(w: int, s: int, r: int, c: int, r_t: int)
    requires
        1 <= r <= s,
        s <= r * w,
        c == s / r,
        r_t == (c + 1) * r - s,
    ensures
        1 <= c <= w,
        c <= s,
        1 <= r_t <= r,
        r_t < r ==> c + 1 <= w,
        c * r_t + (c + 1) * (r - r_t) == s,
        r_t == r <==> c * r == s,
        c * r_t <= s,
        c * r <= s,
{
    assert(c * r <= s < (c + 1) * r && c >= 1 && c <= s) by (nonlinear_arith)
        requires
            c == s / r,
            1 <= r <= s,
    ;
    assert((c + 1) * r == c * r + r) by (nonlinear_arith);
    assert(c * r_t + (c + 1) * (r - r_t) == (c + 1) * r - r_t) by (nonlinear_arith);
    assert(c * r_t <= c * r) by (nonlinear_arith)
        requires
            r_t <= r,
            c >= 1,
    ;
    assert(c <= w) by (nonlinear_arith)
        requires
            c * r <= s,
            s <= r * w,
            r >= 1,
    ;
    if r_t < r {
        assert(c < w) by (nonlinear_arith)
            requires
                c * r < s,
                s <= r * w,
                r >= 1,
        ;
    }
}

proof fn lemma_top_height(h: int, s: int, r: int, c: int, r_t: int, h_t: int)
    requires
        s >= 1,
        1 <= r <= h,
        c >= 1,
        1 <= r_t <= r,
        c * r_t + (c + 1) * (r - r_t) == s,
        ({
            let rounded = (h * c * r_t + s / 2) / s;
            h_t == (if r_t >= rounded {
                r_t
            } else {
                rounded
            })
        }),
    ensures
        r_t <= h_t <= h,
        r_t == r ==> h_t == h,
        h_t + (r - r_t) <= h,
{
    let rounded = (h * c * r_t + s / 2) / s;
    let r_b = r - r_t;
    if r_t == r {
        assert(h * c * r_t == h * s) by (nonlinear_arith)
            requires
                c * r_t + (c + 1) * (r - r_t) == s,
                r_t == r,
        ;
        assert((h * s + s / 2) / s == h) by (nonlinear_arith)
            requires
                s >= 1,
        ;
    } else {
        assert(h * c * r_t == h * s - h * ((c + 1) * r_b)) by (nonlinear_arith)
            requires
                c * r_t + (c + 1) * r_b == s,
        ;
        assert((c + 1) * r == s + r_t) by (nonlinear_arith)
            requires
                c * r_t + (c + 1) * (r - r_t) == s,
        ;
        assert(h * ((c + 1) * r_b) >= s * r_b + r_b) by (nonlinear_arith)
            requires
                h >= r,
                (c + 1) * r == s + r_t,
                r_t >= 1,
                r_b >= 1,
                c >= 1,
        ;
        let top = h * c * r_t + s / 2;
        assert(top < (h - r_b + 1) * s) by (nonlinear_arith)
            requires
                top == h * s - h * ((c + 1) * r_b) + s / 2,
                h * ((c + 1) * r_b) >= s * r_b + r_b,
                r_b >= 1,
                s >= 1,
        ;
        assert(top / s < h - r_b + 1) by (nonlinear_arith)
            requires
                top < (h - r_b + 1) * s,
                s >= 1,
        ;
    }
}

/// **The numbers of a partition are unique.**
pub proof fn params_are_unique(w: int, h: int, s: int, p1: PartitionParams, p2: PartitionParams)
    requires
        can_partition(w, h, s),
        is_params(w, h, s, p1),
        is_params(w, h, s, p2),
    ensures
        p1 == p2,
{
    row_count_is_unique(w, h, s, p1.r as int, p2.r as int);
}

/// What a partition keeps: every region is divided without an empty row or
/// column.
pub open spec fn regions_ok(w: int, h: int, s: int, p: PartitionParams) -> bool {
    &&& p.r >= 1 && p.c >= 1
    &&& 1 <= p.r_t <= p.r
    &&& p.r_t < p.r ==> p.c < w
    &&& is_division(p.x_t as int, p.c_t0 as int, p.c as int, w)
    &&& is_division(p.y_t as int, p.r_t0 as int, p.r_t as int, p.h_t as int)
    &&& p.c * p.r_t + (p.c + 1) * (p.r - p.r_t) == s
    &&& p.r_t == p.r ==> p.h_t == h
    &&& p.r_t < p.r ==> is_division(p.x_b as int, p.c_b0 as int, p.c + 1, w) && is_division(
        p.y_b as int,
        p.r_b0 as int,
        p.r - p.r_t,
        h - p.h_t,
    )
}

/// **Every partition is valid**: no row and no column is empty, and the rows
/// and columns fill the rectangle.
pub proof fn partitions_are_valid(w: int, h: int, s: int, p: PartitionParams)
    requires
        can_partition(w, h, s),
        is_params(w, h, s, p),
    ensures
        regions_ok(w, h, s, p),
{
    lemma_row_count(w, h, s, p.r as int);
    lemma_columns(w, s, p.r as int, p.c as int, p.r_t as int);
    lemma_top_height(h, s, p.r as int, p.c as int, p.r_t as int, p.h_t as int);
    lemma_even_division(w, p.c as int);
    lemma_even_division(p.h_t as int, p.r_t as int);
    if p.r_t < p.r {
        lemma_even_division(w, p.c + 1);
        lemma_even_division(h - p.h_t, p.r - p.r_t);
    }
}

/// The numbers that describe the partition of a `w` by `h` rectangle into `s`
/// segments.
///
/// Fails with [`IcerError::Unsupported`] where a number is zero or there are
/// more segments than pixels.
pub fn partition_params(w: usize, h: usize, s: usize) -> (res: Result<PartitionParams>)
    ensures
        fails_with(res, Fault::Unsupported) <==> !can_partition(w as int, h as int, s as int),
        res is Ok <==> can_partition(w as int, h as int, s as int),
        res matches Ok(p) ==> is_params(w as int, h as int, s as int, p),
{
    if w == 0 || h == 0 || s == 0 {
        return Err(IcerError::unsupported("partition inputs must be positive"));
    }
    let ghost wi = w as int;
    let ghost hi = h as int;
    let ghost si = s as int;
    proof {
        lemma_mul_u128(w, h);
        lemma_mul_u128(h, s);
    }
    if s as u128 > w as u128 * h as u128 {
        return Err(
            IcerError::Unsupported(
                with_numbers("too many segments: ", s as u64, " for a width of ", w as u64, ""),
            ),
        );
    }
    let hs: u128 = h as u128 * s as u128;
    assert(0 < hi * si) by (nonlinear_arith)
        requires
            hi >= 1,
            si >= 1,
    ;
    let limit: u128 = (hs - 1) / w as u128;
    let mut r: usize = 1;
    assert((0int) * 1 * wi == 0);
    while r < s && (r as u128 + 1) * r as u128 <= limit
        invariant
            1 <= r <= s,
            w >= 1,
            h >= 1,
            hs == h * s,
            hs >= 1,
            limit == (hs - 1) / w as int,
            (r - 1) * r * w < h * s,
            r < s ==> (r + 1) * r <= u128::MAX,
        decreases s - r,
    {
        proof {
            lemma_quotient((r + 1) * r, hs as int, w as int);
            assert((r + 1 - 1) * (r + 1) * w == (r + 1) * r * w) by (nonlinear_arith);
            if r + 1 < s {
                lemma_mul_u128((r + 2) as usize, (r + 1) as usize);
            }
        }
        r = r + 1;
    }
    proof {
        if r < s {
            lemma_quotient((r + 1) * r, hs as int, w as int);
        }
        lemma_found_rows(w as int, h as int, s as int, r as int);
        lemma_row_count(w as int, h as int, s as int, r as int);
        let c = si / r as int;
        lemma_columns(wi, si, r as int, c, (c + 1) * r - s);
    }
    let c: usize = s / r;
    assert((c + 1) * r == c * r + r) by (nonlinear_arith);
    // (c + 1) * r - s, without leaving the range of usize
    let r_t: usize = r - (s - c * r);
    proof {
        assert(hi * c * r_t == hi * (c * r_t)) by (nonlinear_arith);
        assert(hi * (c * r_t) <= hi * si) by (nonlinear_arith)
            requires
                c * r_t <= si,
                hi >= 1,
        ;
        assert(0 <= hi * c <= hi * si) by (nonlinear_arith)
            requires
                1 <= c <= si,
                hi >= 1,
        ;
        assert(hi * si + si <= u128::MAX) by (nonlinear_arith)
            requires
                0 <= hi <= 0xffff_ffff_ffff_ffff,
                0 <= si <= 0xffff_ffff_ffff_ffff,
        ;
        assert(0 <= hi * (c * r_t)) by (nonlinear_arith)
            requires
                c >= 1,
                r_t >= 1,
                hi >= 1,
        ;
    }
    let rounded: u128 = (h as u128 * c as u128 * r_t as u128 + (s / 2) as u128) / s as u128;
    proof {
        let num = hi * c * r_t + si / 2;
        assert(0 <= num / si <= hi) by (nonlinear_arith)
            requires
                0 <= num <= hi * si + si / 2,
                si >= 1,
        ;
    }
    let h_t: usize = if r_t as u128 >= rounded {
        r_t
    } else {
        rounded as usize
    };
    proof {
        lemma_top_height(hi, si, r as int, c as int, r_t as int, h_t as int);
        lemma_even_division(wi, c as int);
        lemma_even_division(h_t as int, r_t as int);
    }
    let x_t: usize = w / c;
    let c_t0: usize = narrow_count(w, c);
    let y_t: usize = h_t / r_t;
    let r_t0: usize = narrow_count(h_t, r_t);
    if r_t < r {
        proof {
            lemma_even_division(wi, c + 1);
            lemma_even_division(hi - h_t, r - r_t);
        }
        let x_b: usize = w / (c + 1);
        let c_b0: usize = narrow_count(w, c + 1);
        let y_b: usize = (h - h_t) / (r - r_t);
        let r_b0: usize = narrow_count(h - h_t, r - r_t);
        Ok(PartitionParams { r, c, r_t, h_t, x_t, c_t0, y_t, r_t0, x_b, c_b0, y_b, r_b0 })
    } else {
        Ok(
            PartitionParams {
                r,
                c,
                r_t,
                h_t,
                x_t,
                c_t0,
                y_t,
                r_t0,
                x_b: 0,
                c_b0: 0,
                y_b: 0,
                r_b0: 0,
            },
        )
    }
}

/// How many of `count` nearly equal divisions of `extent` are the smaller ones.
fn narrow_count(extent: usize, count: usize) -> (n: usize)
    requires
        1 <= count <= extent,
    ensures
        n == (extent as int / count as int + 1) * count - extent,
{
    proof {
        let e = extent as int;
        let k = count as int;
        vstd::arithmetic::div_mod::lemma_fundamental_div_mod(e, k);
        assert((e / k + 1) * k == k * (e / k) + k) by (nonlinear_arith);
    }
    count - extent % count
}

proof fn lemma_mul_u128(a: usize, b: usize)
    ensures
        0 <= a * b <= u128::MAX,
{
    assert(0 <= a * b <= 0xffff_ffff_ffff_ffff * 0xffff_ffff_ffff_ffff) by (nonlinear_arith)
        requires
            0 <= a <= 0xffff_ffff_ffff_ffff,
            0 <= b <= 0xffff_ffff_ffff_ffff,
    ;
}

proof fn lemma_quotient(x: int, n: int, w: int)
    requires
        n >= 1,
        w >= 1,
    ensures
        x <= (n - 1) / w <==> x * w < n,
{
    let q = (n - 1) / w;
    assert(q * w <= n - 1 < (q + 1) * w) by (nonlinear_arith)
        requires
            q == (n - 1) / w,
            w >= 1,
    ;
    if x <= q {
        assert(x * w <= q * w) by (nonlinear_arith)
            requires
                x <= q,
                w >= 1,
        ;
    } else {
        assert(x * w >= (q + 1) * w) by (nonlinear_arith)
            requires
                x >= q + 1,
                w >= 1,
        ;
    }
}

proof fn lemma_found_rows(w: int, h: int, s: int, r: int)
    requires
        w >= 1,
        1 <= r <= s,
        (r - 1) * r * w < h * s,
        r == s || (r + 1) * r * w >= h * s,
    ensures
        is_row_count(w, h, s, r),
{
    if h > (s - 1) * w {
        if r < s {
            assert((r + 1) * r <= s * (s - 1)) by (nonlinear_arith)
                requires
                    1 <= r,
                    r + 1 <= s,
            ;
            assert((r + 1) * r * w <= s * (s - 1) * w) by (nonlinear_arith)
                requires
                    (r + 1) * r <= s * (s - 1),
                    w >= 1,
            ;
            assert(h * s > s * (s - 1) * w) by (nonlinear_arith)
                requires
                    h > (s - 1) * w,
                    s >= 1,
            ;
        }
    } else if r == s {
        assert(h * s <= (s - 1) * w * s) by (nonlinear_arith)
            requires
                h <= (s - 1) * w,
                s >= 1,
        ;
        assert((s - 1) * w * s <= (s + 1) * s * w) by (nonlinear_arith)
            requires
                s >= 1,
                w >= 1,
        ;
    }
}

/// The part of segment `k` of a region that has `columns` columns: its row and
/// its column.
pub open spec fn region_rect(
    index: int,
    k: int,
    columns: int,
    x_base: int,
    x_narrow: int,
    y_base: int,
    y_narrow: int,
    top: int,
    rect: SegmentRect,
) -> bool {
    &&& rect.index == index
    &&& rect.x == division_start(x_base, x_narrow, k % columns)
    &&& rect.width == division_size(x_base, x_narrow, k % columns)
    &&& rect.y == top + division_start(y_base, y_narrow, k / columns)
    &&& rect.height == division_size(y_base, y_narrow, k / columns)
}

/// `rect` is segment `k` of the partition `p`: the top region is filled first,
/// row by row, and then the bottom region.
pub open spec fn is_rect(p: PartitionParams, k: int, rect: SegmentRect) -> bool {
    let top = p.c * p.r_t;
    if k < top {
        region_rect(
            k,
            k,
            p.c as int,
            p.x_t as int,
            p.c_t0 as int,
            p.y_t as int,
            p.r_t0 as int,
            0,
            rect,
        )
    } else {
        region_rect(
            k,
            k - top,
            p.c + 1,
            p.x_b as int,
            p.c_b0 as int,
            p.y_b as int,
            p.r_b0 as int,
            p.h_t as int,
            rect,
        )
    }
}

/// The segment that holds pixel `(x, y)`.
pub open spec fn segment_of(p: PartitionParams, x: int, y: int) -> int {
    if y < p.h_t {
        division_of(p.y_t as int, p.r_t0 as int, y) * p.c + division_of(
            p.x_t as int,
            p.c_t0 as int,
            x,
        )
    } else {
        p.c * p.r_t + division_of(p.y_b as int, p.r_b0 as int, y - p.h_t) * (p.c + 1) + division_of(
            p.x_b as int,
            p.c_b0 as int,
            x,
        )
    }
}

/// Pixel `(x, y)` lies in `rect`.
pub open spec fn covers(rect: SegmentRect, x: int, y: int) -> bool {
    rect.x <= x < rect.x + rect.width && rect.y <= y < rect.y + rect.height
}

proof fn lemma_grid(columns: int, rows: int, row: int, col: int, k: int)
    requires
        columns >= 1,
        0 <= row < rows,
        0 <= col < columns,
    ensures
        0 <= row * columns + col < columns * rows,
        k == row * columns + col <==> (k / columns == row && k % columns == col),
{
    lemma_index(col, row, columns, rows);
    if k / columns == row && k % columns == col {
        vstd::arithmetic::div_mod::lemma_fundamental_div_mod(k, columns);
        assert(columns * row == row * columns) by (nonlinear_arith);
    }
}

proof fn lemma_grid_split(columns: int, rows: int, k: int)
    requires
        columns >= 1,
        0 <= k < columns * rows,
    ensures
        0 <= k / columns < rows,
        0 <= k % columns < columns,
        k == (k / columns) * columns + k % columns,
{
    vstd::arithmetic::div_mod::lemma_fundamental_div_mod(k, columns);
    let q = k / columns;
    assert(columns * q == q * columns) by (nonlinear_arith);
    assert(0 <= k / columns < rows) by (nonlinear_arith)
        requires
            columns >= 1,
            0 <= k < columns * rows,
    ;
}

/// **The segments of a partition tile the rectangle**: each lies within it,
/// none is empty, and each pixel lies in exactly one of them.
pub proof fn segments_tile(w: int, h: int, s: int, p: PartitionParams, k: int, rect: SegmentRect, x: int, y: int)
    requires
        can_partition(w, h, s),
        is_params(w, h, s, p),
        0 <= k < s,
        is_rect(p, k, rect),
        0 <= x < w,
        0 <= y < h,
    ensures
        rect.width >= 1,
        rect.height >= 1,
        rect.x + rect.width <= w,
        rect.y + rect.height <= h,
        0 <= segment_of(p, x, y) < s,
        covers(rect, x, y) <==> k == segment_of(p, x, y),
{
    partitions_are_valid(w, h, s, p);
    let top = p.c * p.r_t;
    let (xt, ct0, yt, rt0) = (p.x_t as int, p.c_t0 as int, p.y_t as int, p.r_t0 as int);
    let (xb, cb0, yb, rb0) = (p.x_b as int, p.c_b0 as int, p.y_b as int, p.r_b0 as int);
    let rb = p.r - p.r_t;
    assert((p.c + 1) * rb >= 0) by (nonlinear_arith)
        requires
            rb >= 0,
            p.c >= 1,
    ;
    // where the pixel lies
    if y < p.h_t {
        lemma_division(xt, ct0, p.c as int, w, x, division_of(xt, ct0, x));
        lemma_division(yt, rt0, p.r_t as int, p.h_t as int, y, division_of(yt, rt0, y));
        lemma_grid(p.c as int, p.r_t as int, division_of(yt, rt0, y), division_of(xt, ct0, x), k);
    } else {
        let yy = y - p.h_t;
        lemma_division(xb, cb0, p.c + 1, w, x, division_of(xb, cb0, x));
        lemma_division(yb, rb0, rb, h - p.h_t, yy, division_of(yb, rb0, yy));
        lemma_grid(p.c + 1, rb, division_of(yb, rb0, yy), division_of(xb, cb0, x), k - top);
    }
    // where the segment lies
    if k < top {
        lemma_grid_split(p.c as int, p.r_t as int, k);
        lemma_division(xt, ct0, p.c as int, w, x, k % (p.c as int));
        lemma_division(yt, rt0, p.r_t as int, p.h_t as int, y, k / (p.c as int));
        if p.r_t < p.r {
            lemma_division(yb, rb0, rb, h - p.h_t, 0, 0);
        }
    } else {
        let kk = k - top;
        assert(rb > 0) by {
            if rb == 0 {
                assert((p.c + 1) * rb == 0) by (nonlinear_arith)
                    requires
                        rb == 0,
                ;
            }
        }
        lemma_grid_split(p.c + 1, rb, kk);
        lemma_division(xb, cb0, p.c + 1, w, x, kk % (p.c + 1));
        lemma_division(yb, rb0, rb, h - p.h_t, y - p.h_t, kk / (p.c + 1));
    }
}

/// Edges of the divisions of one axis: where each starts and its size.
fn division_edges(base: usize, base_count: usize, count: usize, Ghost(extent): Ghost<int>) -> (out:
    Vec<(usize, usize)>)
    requires
        is_division(base as int, base_count as int, count as int, extent),
        extent <= usize::MAX,
    ensures
        out@.len() == count,
        forall|i: int|
            0 <= i < count ==> {
                &&& (#[trigger] out@[i]).0 == division_start(base as int, base_count as int, i)
                &&& out@[i].1 == division_size(base as int, base_count as int, i)
            },
{
    let mut out: Vec<(usize, usize)> = Vec::new();
    let mut at: usize = 0;
    let mut i: usize = 0;
    assert(0 * base as int == 0);
    while i < count
        invariant
            i <= count,
            is_division(base as int, base_count as int, count as int, extent),
            extent <= usize::MAX,
            at == division_start(base as int, base_count as int, i as int),
            out@.len() == i,
            forall|j: int|
                0 <= j < i ==> {
                    &&& (#[trigger] out@[j]).0 == division_start(base as int, base_count as int, j)
                    &&& out@[j].1 == division_size(base as int, base_count as int, j)
                },
        decreases count - i,
    {
        proof {
            lemma_division(base as int, base_count as int, count as int, extent, 0, i as int);
        }
        let size: usize = if i < base_count {
            base
        } else {
            base + 1
        };
        out.push((at, size));
        at = at + size;
        i = i + 1;
    }
    out
}

/// The segments of a `w` by `h` rectangle in raster order.
///
/// Fails as [`partition_params`] does.
pub fn partition(w: usize, h: usize, s: usize) -> (res: Result<Vec<SegmentRect>>)
    ensures
        fails_with(res, Fault::Unsupported) <==> !can_partition(w as int, h as int, s as int),
        res is Ok <==> can_partition(w as int, h as int, s as int),
        res is Ok ==> exists|p: PartitionParams| #[trigger]
            is_partition(w as int, h as int, s as int, p, res->Ok_0@),
{
    let p = match partition_params(w, h, s) {
        Ok(p) => p,
        Err(e) => return Err(e),
    };
    proof {
        partitions_are_valid(w as int, h as int, s as int, p);
    }
    let mut out: Vec<SegmentRect> = Vec::new();
    let top_cols = division_edges(p.x_t, p.c_t0, p.c, Ghost(w as int));
    let top_rows = division_edges(p.y_t, p.r_t0, p.r_t, Ghost(p.h_t as int));
    let ghost top = p.c * p.r_t;
    let mut row: usize = 0;
    assert(0 * p.c as int == 0);
    while row < p.r_t
        invariant
            row <= p.r_t,
            regions_ok(w as int, h as int, s as int, p),
            top == p.c * p.r_t,
            out@.len() == row * p.c,
            top_cols@.len() == p.c,
            top_rows@.len() == p.r_t,
            forall|i: int|
                0 <= i < p.c ==> {
                    &&& (#[trigger] top_cols@[i]).0 == division_start(
                        p.x_t as int,
                        p.c_t0 as int,
                        i,
                    )
                    &&& top_cols@[i].1 == division_size(p.x_t as int, p.c_t0 as int, i)
                },
            forall|i: int|
                0 <= i < p.r_t ==> {
                    &&& (#[trigger] top_rows@[i]).0 == division_start(
                        p.y_t as int,
                        p.r_t0 as int,
                        i,
                    )
                    &&& top_rows@[i].1 == division_size(p.y_t as int, p.r_t0 as int, i)
                },
            forall|k: int| 0 <= k < out@.len() ==> is_rect(p, k, #[trigger] out@[k]),
        decreases p.r_t - row,
    {
        let (y, height) = top_rows[row];
        let mut col: usize = 0;
        while col < p.c
            invariant
                col <= p.c,
                row < p.r_t,
                top == p.c * p.r_t,
                p.c >= 1,
                out@.len() == row * p.c + col,
                top_cols@.len() == p.c,
                y == division_start(p.y_t as int, p.r_t0 as int, row as int),
                height == division_size(p.y_t as int, p.r_t0 as int, row as int),
                forall|i: int|
                    0 <= i < p.c ==> {
                        &&& (#[trigger] top_cols@[i]).0 == division_start(
                            p.x_t as int,
                            p.c_t0 as int,
                            i,
                        )
                        &&& top_cols@[i].1 == division_size(p.x_t as int, p.c_t0 as int, i)
                    },
                forall|k: int| 0 <= k < out@.len() ==> is_rect(p, k, #[trigger] out@[k]),
            decreases p.c - col,
        {
            let (x, width) = top_cols[col];
            proof {
                lemma_grid(
                    p.c as int,
                    p.r_t as int,
                    row as int,
                    col as int,
                    row * p.c + col,
                );
            }
            let index: usize = out.len();
            out.push(SegmentRect { index, x, y, width, height });
            col = col + 1;
        }
        assert((row + 1) * p.c == row * p.c + p.c) by (nonlinear_arith);
        row = row + 1;
    }
    assert(p.r_t * p.c == p.c * p.r_t) by (nonlinear_arith);
    if p.r_t < p.r {
        let bot_cols = division_edges(p.x_b, p.c_b0, p.c + 1, Ghost(w as int));
        let bot_rows = division_edges(p.y_b, p.r_b0, p.r - p.r_t, Ghost(h - p.h_t));
        let mut row: usize = 0;
        assert(0 * (p.c + 1) == 0);
        while row < p.r - p.r_t
            invariant
                row <= p.r - p.r_t,
                p.r_t < p.r,
                regions_ok(w as int, h as int, s as int, p),
                top == p.c * p.r_t,
                out@.len() == top + row * (p.c + 1),
                bot_cols@.len() == p.c + 1,
                bot_rows@.len() == p.r - p.r_t,
                p.c < w,
                forall|i: int|
                    0 <= i < p.c + 1 ==> {
                        &&& (#[trigger] bot_cols@[i]).0 == division_start(
                            p.x_b as int,
                            p.c_b0 as int,
                            i,
                        )
                        &&& bot_cols@[i].1 == division_size(p.x_b as int, p.c_b0 as int, i)
                    },
                forall|i: int|
                    0 <= i < p.r - p.r_t ==> {
                        &&& (#[trigger] bot_rows@[i]).0 == division_start(
                            p.y_b as int,
                            p.r_b0 as int,
                            i,
                        )
                        &&& bot_rows@[i].1 == division_size(p.y_b as int, p.r_b0 as int, i)
                    },
                forall|k: int| 0 <= k < out@.len() ==> is_rect(p, k, #[trigger] out@[k]),
            decreases p.r - p.r_t - row,
        {
            let (dy, height) = bot_rows[row];
            proof {
                lemma_division(
                    p.y_b as int,
                    p.r_b0 as int,
                    p.r - p.r_t,
                    h - p.h_t,
                    0,
                    row as int,
                );
            }
            let y: usize = p.h_t + dy;
            let mut col: usize = 0;
            while col < p.c + 1
                invariant
                    col <= p.c + 1,
                    p.c < w,
                    row < p.r - p.r_t,
                    top == p.c * p.r_t,
                    p.c >= 1,
                    p.r_t >= 1,
                    out@.len() == top + row * (p.c + 1) + col,
                    bot_cols@.len() == p.c + 1,
                    y == p.h_t + division_start(p.y_b as int, p.r_b0 as int, row as int),
                    height == division_size(p.y_b as int, p.r_b0 as int, row as int),
                    forall|i: int|
                        0 <= i < p.c + 1 ==> {
                            &&& (#[trigger] bot_cols@[i]).0 == division_start(
                                p.x_b as int,
                                p.c_b0 as int,
                                i,
                            )
                            &&& bot_cols@[i].1 == division_size(p.x_b as int, p.c_b0 as int, i)
                        },
                    forall|k: int| 0 <= k < out@.len() ==> is_rect(p, k, #[trigger] out@[k]),
                decreases p.c + 1 - col,
            {
                let (x, width) = bot_cols[col];
                proof {
                    lemma_grid(
                        p.c + 1,
                        p.r - p.r_t,
                        row as int,
                        col as int,
                        row * (p.c + 1) + col,
                    );
                }
                let index: usize = out.len();
                out.push(SegmentRect { index, x, y, width, height });
                col = col + 1;
            }
            assert((row + 1) * (p.c + 1) == row * (p.c + 1) + p.c + 1) by (nonlinear_arith);
            row = row + 1;
        }
        assert((p.r - p.r_t) * (p.c + 1) == (p.c + 1) * (p.r - p.r_t)) by (nonlinear_arith);
    } else {
        assert((p.c + 1) * (p.r - p.r_t) == 0) by (nonlinear_arith)
            requires
                p.r == p.r_t,
        ;
    }
    let res: Result<Vec<SegmentRect>> = Ok(out);
    assert(is_partition(w as int, h as int, s as int, p, res->Ok_0@));
    res
}

/// `rects` are the segments of the partition `p`.
pub open spec fn is_partition(w: int, h: int, s: int, p: PartitionParams, rects: Seq<SegmentRect>) -> bool {
    &&& is_params(w, h, s, p)
    &&& rects.len() == s
    &&& forall|k: int| 0 <= k < s ==> is_rect(p, k, #[trigger] rects[k])
}

impl SegmentRect {
    /// The block of the image that belongs to the segment: columns `x0..x1`
    /// and rows `y0..y1`, as `(x0, x1, y0, y1)`.
    pub open spec fn window(self, levels: int, image_w: int, image_h: int) -> (int, int, int, int) {
        let step = pow2(levels as nat) as int;
        let (x1, y1) = ((self.x + self.width) * step, (self.y + self.height) * step);
        (
            self.x * step,
            if x1 < image_w {
                x1
            } else {
                image_w
            },
            self.y * step,
            if y1 < image_h {
                y1
            } else {
                image_h
            },
        )
    }

    /// The block of the image that belongs to the segment: columns `x0..x1`
    /// and rows `y0..y1`, as `(x0, x1, y0, y1)`.
    pub fn image_window(&self, levels: u8, image_w: usize, image_h: usize) -> (r: (
        usize,
        usize,
        usize,
        usize,
    ))
        requires
            levels <= 31,
            self.x + self.width <= ceil_div(image_w as int, pow2(levels as nat) as int),
            self.y + self.height <= ceil_div(image_h as int, pow2(levels as nat) as int),
            self.width >= 1,
            self.height >= 1,
        ensures
            (r.0 as int, r.1 as int, r.2 as int, r.3 as int) == self.window(
                levels as int,
                image_w as int,
                image_h as int,
            ),
            r.0 < r.1 <= image_w,
            r.2 < r.3 <= image_h,
    {
        let step: usize = two_to(levels);
        proof {
            lemma_block_start(self.x as int, self.width as int, image_w as int, step as int);
            lemma_block_start(self.y as int, self.height as int, image_h as int, step as int);
        }
        (
            self.x * step,
            block_end(self.x + self.width, step, image_w),
            self.y * step,
            block_end(self.y + self.height, step, image_h),
        )
    }
}

proof fn lemma_block_start(x: int, width: int, limit: int, step: int)
    requires
        step >= 1,
        x >= 0,
        width >= 1,
        limit >= 0,
        x + width <= ceil_div(limit, step),
    ensures
        0 <= x * step < limit,
        x + width <= limit,
        x * step < (x + width) * step,
{
    let q = ceil_div(limit, step);
    assert(q * step <= limit + step - 1) by (nonlinear_arith)
        requires
            q == (limit + step - 1) / step,
            step >= 1,
    ;
    assert(0 <= x * step && x * step + step <= q * step && x * step < (x + width) * step)
        by (nonlinear_arith)
        requires
            0 <= x,
            x + 1 <= x + width <= q,
            step >= 1,
    ;
    assert(q <= limit) by (nonlinear_arith)
        requires
            q * step <= limit + step - 1,
            limit >= 1,
            step >= 1,
    ;
}

/// `edge * step`, but no more than `limit`.
fn block_end(edge: usize, step: usize, limit: usize) -> (e: usize)
    requires
        step >= 1,
    ensures
        e == (if edge * step < limit {
            edge * step
        } else {
            limit as int
        }),
{
    let q: usize = limit / step;
    proof {
        let l = limit as int;
        let s = step as int;
        assert((l / s) * s <= l < (l / s + 1) * s) by (nonlinear_arith)
            requires
                l >= 0,
                s >= 1,
        ;
    }
    if edge > q {
        assert(edge * step >= (q + 1) * step) by (nonlinear_arith)
            requires
                edge >= q + 1,
                step >= 1,
        ;
        limit
    } else {
        assert(edge * step <= q * step) by (nonlinear_arith)
            requires
                edge <= q,
                step >= 1,
        ;
        edge * step
    }
}

/// The division of an axis that holds pixel `x`.
fn find_division(base: usize, narrow: usize, count: usize, x: usize, Ghost(extent): Ghost<int>) -> (d:
    usize)
    requires
        is_division(base as int, narrow as int, count as int, extent),
        x < extent <= usize::MAX,
    ensures
        d == division_of(base as int, narrow as int, x as int),
        d < count,
{
    proof {
        lemma_division(
            base as int,
            narrow as int,
            count as int,
            extent,
            x as int,
            division_of(base as int, narrow as int, x as int),
        );
        assert(narrow * base <= extent) by (nonlinear_arith)
            requires
                is_division(base as int, narrow as int, count as int, extent),
        ;
        assert(base + 1 <= extent + 1) by (nonlinear_arith)
            requires
                narrow * base <= extent,
                narrow >= 1,
        ;
    }
    let edge: usize = narrow * base;
    if x < edge {
        x / base
    } else {
        // base + 1 could leave the range of usize only for a single division
        if narrow == count {
            proof {
                assert((count - narrow) * (base + 1) == 0) by (nonlinear_arith)
                    requires
                        count == narrow,
                ;
            }
            narrow
        } else {
            assert(base + 1 <= extent) by (nonlinear_arith)
                requires
                    is_division(base as int, narrow as int, count as int, extent),
                    narrow < count,
            ;
            narrow + (x - edge) / (base + 1)
        }
    }
}

/// For each coefficient of an image the segment that it belongs to: the one
/// that holds the LL pixel of the same place.
pub open spec fn segment_map(p: PartitionParams, w: int, h: int, levels: int) -> Seq<u16> {
    let step = pow2(levels as nat) as int;
    Seq::new(
        (w * h) as nat,
        |i: int| segment_of(p, (i % w) / step, (i / w) / step) as u16,
    )
}

/// For each coefficient of an image the segment that it belongs to.
///
/// Fails as [`partition_params`] does on the LL subband.
pub fn coefficient_segment_map(w: usize, h: usize, levels: u8, segment_count: usize) -> (res: Result<
    Vec<u16>,
>)
    requires
        levels <= 31,
        w * h <= usize::MAX,
        segment_count <= 0x1_0000,
    ensures
        ({
            let step = pow2(levels as nat) as int;
            let (w_ll, h_ll) = (ceil_div(w as int, step), ceil_div(h as int, step));
            &&& fails_with(res, Fault::Unsupported) <==> !can_partition(
                w_ll,
                h_ll,
                segment_count as int,
            )
            &&& res is Ok <==> can_partition(w_ll, h_ll, segment_count as int)
            &&& res matches Ok(map) ==> exists|p: PartitionParams|
                is_params(w_ll, h_ll, segment_count as int, p) && map@ == #[trigger] segment_map(
                    p,
                    w as int,
                    h as int,
                    levels as int,
                )
        }),
{
    let step: usize = two_to(levels);
    let (w_ll, h_ll) = ll_dimensions(w, h, levels);
    let p = match partition_params(w_ll, h_ll, segment_count) {
        Ok(p) => p,
        Err(e) => return Err(e),
    };
    let ghost all = segment_map(p, w as int, h as int, levels as int);
    proof {
        partitions_are_valid(w_ll as int, h_ll as int, segment_count as int, p);
    }
    let mut out: Vec<u16> = Vec::new();
    assert(all.take(0) =~= Seq::empty());
    let mut y: usize = 0;
    while y < h
        invariant
            y <= h,
            step == pow2(levels as nat),
            step >= 1,
            w_ll == ceil_div(w as int, step as int),
            h_ll == ceil_div(h as int, step as int),
            segment_count <= 0x1_0000,
            can_partition(w_ll as int, h_ll as int, segment_count as int),
            is_params(w_ll as int, h_ll as int, segment_count as int, p),
            regions_ok(w_ll as int, h_ll as int, segment_count as int, p),
            all == segment_map(p, w as int, h as int, levels as int),
            out@ == all.take(y * w),
        decreases h - y,
    {
        let mut x: usize = 0;
        while x < w
            invariant
                x <= w,
                y < h,
                step == pow2(levels as nat),
                step >= 1,
                w_ll == ceil_div(w as int, step as int),
                h_ll == ceil_div(h as int, step as int),
                segment_count <= 0x1_0000,
                can_partition(w_ll as int, h_ll as int, segment_count as int),
                is_params(w_ll as int, h_ll as int, segment_count as int, p),
                regions_ok(w_ll as int, h_ll as int, segment_count as int, p),
                all == segment_map(p, w as int, h as int, levels as int),
                out@ == all.take(y * w + x),
            decreases w - x,
        {
            proof {
                lemma_ll_pixel(x as int, w as int, step as int);
                lemma_ll_pixel(y as int, h as int, step as int);
                lemma_index(x as int, y as int, w as int, h as int);
            }
            let seg: usize = find_segment(
                &p,
                w_ll,
                h_ll,
                segment_count,
                x / step,
                y / step,
            );
            proof {
                assert(all[y * w + x] == seg as u16);
                assert(all.take(y * w + x + 1) =~= all.take(y * w + x).push(seg as u16));
            }
            out.push(seg as u16);
            x = x + 1;
        }
        assert((y + 1) * w == y * w + w) by (nonlinear_arith);
        y = y + 1;
    }
    assert(h * w == w * h) by (nonlinear_arith);
    assert(all.take(h * w) =~= all);
    Ok(out)
}

pub proof fn lemma_ll_pixel(x: int, w: int, step: int)
    requires
        0 <= x < w,
        step >= 1,
    ensures
        0 <= x / step < ceil_div(w, step),
{
    assert(0 <= x / step < (w + step - 1) / step) by (nonlinear_arith)
        requires
            0 <= x < w,
            step >= 1,
    ;
}

/// The segment that holds pixel `(x, y)` of the LL subband.
fn find_segment(p: &PartitionParams, w: usize, h: usize, s: usize, x: usize, y: usize) -> (k: usize)
    requires
        can_partition(w as int, h as int, s as int),
        regions_ok(w as int, h as int, s as int, *p),
        x < w,
        y < h,
    ensures
        k == segment_of(*p, x as int, y as int),
        k < s,
{
    let ghost rb = p.r - p.r_t;
    proof {
        assert((p.c + 1) * rb >= 0) by (nonlinear_arith)
            requires
                rb >= 0,
                p.c >= 1,
        ;
    }
    if y < p.h_t {
        let row: usize = find_division(p.y_t, p.r_t0, p.r_t, y, Ghost(p.h_t as int));
        let col: usize = find_division(p.x_t, p.c_t0, p.c, x, Ghost(w as int));
        proof {
            lemma_grid(p.c as int, p.r_t as int, row as int, col as int, 0);
            assert(row * p.c >= 0) by (nonlinear_arith);
        }
        row * p.c + col
    } else {
        let row: usize = find_division(p.y_b, p.r_b0, p.r - p.r_t, y - p.h_t, Ghost(h - p.h_t));
        let col: usize = find_division(p.x_b, p.c_b0, p.c + 1, x, Ghost(w as int));
        proof {
            lemma_grid(p.c + 1, rb, row as int, col as int, 0);
            assert(row * (p.c + 1) >= 0 && p.c * p.r_t >= 0) by (nonlinear_arith);
        }
        p.c * p.r_t + row * (p.c + 1) + col
    }
}

// ---------------------------------------------------------------------------
// Existence
// ---------------------------------------------------------------------------

/// The number of rows, from `r` on.
proof fn lemma_rows_exist(w: int, h: int, s: int, r: int) -> (found: int)
    requires
        can_partition(w, h, s),
        1 <= r <= s,
        (r - 1) * r * w < h * s,
    ensures
        is_row_count(w, h, s, found),
    decreases s - r,
{
    if r == s || (r + 1) * r * w >= h * s {
        lemma_found_rows(w, h, s, r);
        r
    } else {
        assert((r + 1 - 1) * (r + 1) * w == (r + 1) * r * w) by (nonlinear_arith);
        lemma_rows_exist(w, h, s, r + 1)
    }
}

/// **A rectangle with enough pixels has a partition.**
pub proof fn partitions_exist(w: int, h: int, s: int)
    requires
        can_partition(w, h, s),
        w <= usize::MAX,
        h <= usize::MAX,
        s <= usize::MAX,
    ensures
        exists|p: PartitionParams| is_params(w, h, s, p),
{
    assert(0 < h * s) by (nonlinear_arith)
        requires
            h >= 1,
            s >= 1,
    ;
    assert((1 - 1) * 1 * w == 0) by (nonlinear_arith);
    let r = lemma_rows_exist(w, h, s, 1);
    lemma_row_count(w, h, s, r);
    let c = s / r;
    let r_t = (c + 1) * r - s;
    lemma_columns(w, s, r, c, r_t);
    let rounded = (h * c * r_t + s / 2) / s;
    let h_t = if r_t >= rounded {
        r_t
    } else {
        rounded
    };
    lemma_top_height(h, s, r, c, r_t, h_t);
    lemma_even_division(w, c);
    lemma_even_division(h_t, r_t);
    let x_t = w / c;
    let y_t = h_t / r_t;
    lemma_quotient_fits(w, c);
    lemma_quotient_fits(h_t, r_t);
    let bottom = r_t < r;
    if bottom {
        lemma_even_division(w, c + 1);
        lemma_even_division(h - h_t, r - r_t);
        lemma_quotient_fits(w, c + 1);
        lemma_quotient_fits(h - h_t, r - r_t);
    }
    let p = PartitionParams {
        r: r as usize,
        c: c as usize,
        r_t: r_t as usize,
        h_t: h_t as usize,
        x_t: x_t as usize,
        c_t0: ((x_t + 1) * c - w) as usize,
        y_t: y_t as usize,
        r_t0: ((y_t + 1) * r_t - h_t) as usize,
        x_b: if bottom {
            (w / (c + 1)) as usize
        } else {
            0
        },
        c_b0: if bottom {
            ((w / (c + 1) + 1) * (c + 1) - w) as usize
        } else {
            0
        },
        y_b: if bottom {
            ((h - h_t) / (r - r_t)) as usize
        } else {
            0
        },
        r_b0: if bottom {
            (((h - h_t) / (r - r_t) + 1) * (r - r_t) - (h - h_t)) as usize
        } else {
            0
        },
    };
    assert(is_params(w, h, s, p));
}

proof fn lemma_quotient_fits(extent: int, count: int)
    requires
        1 <= count <= extent,
    ensures
        0 <= extent / count <= extent,
        0 <= (extent / count + 1) * count - extent <= count,
{
    let q = extent / count;
    assert(0 <= q <= extent && q * count <= extent < (q + 1) * count && (q + 1) * count == q * count
        + count) by (nonlinear_arith)
        requires
            q == extent / count,
            1 <= count <= extent,
    ;
}

/// **A partition has all its segments.**
pub proof fn rectangles_exist(w: int, h: int, s: int, p: PartitionParams, k: int)
    requires
        can_partition(w, h, s),
        is_params(w, h, s, p),
        0 <= k < s,
        w <= usize::MAX,
        h <= usize::MAX,
        s <= usize::MAX,
    ensures
        exists|rect: SegmentRect| is_rect(p, k, rect),
{
    partitions_are_valid(w, h, s, p);
    let top = p.c * p.r_t;
    let rb = p.r - p.r_t;
    let (columns, kk) = if k < top {
        (p.c as int, k)
    } else {
        (p.c + 1, k - top)
    };
    if k < top {
        lemma_grid_split(p.c as int, p.r_t as int, k);
        lemma_division(
            p.x_t as int,
            p.c_t0 as int,
            p.c as int,
            w,
            0,
            k % (p.c as int),
        );
        lemma_division(
            p.y_t as int,
            p.r_t0 as int,
            p.r_t as int,
            p.h_t as int,
            0,
            k / (p.c as int),
        );
        let rect = SegmentRect {
            index: k as usize,
            x: division_start(p.x_t as int, p.c_t0 as int, kk % columns) as usize,
            y: division_start(p.y_t as int, p.r_t0 as int, kk / columns) as usize,
            width: division_size(p.x_t as int, p.c_t0 as int, kk % columns) as usize,
            height: division_size(p.y_t as int, p.r_t0 as int, kk / columns) as usize,
        };
        assert(is_rect(p, k, rect));
    } else {
        assert((p.c + 1) * rb >= 0) by (nonlinear_arith)
            requires
                rb >= 0,
                p.c >= 1,
        ;
        assert(rb > 0) by {
            if rb == 0 {
                assert((p.c + 1) * rb == 0) by (nonlinear_arith)
                    requires
                        rb == 0,
                ;
            }
        }
        lemma_grid_split(p.c + 1, rb, kk);
        lemma_division(p.x_b as int, p.c_b0 as int, p.c + 1, w, 0, kk % (p.c + 1));
        lemma_division(p.y_b as int, p.r_b0 as int, rb, h - p.h_t, 0, kk / (p.c + 1));
        let rect = SegmentRect {
            index: k as usize,
            x: division_start(p.x_b as int, p.c_b0 as int, kk % columns) as usize,
            y: (p.h_t + division_start(p.y_b as int, p.r_b0 as int, kk / columns)) as usize,
            width: division_size(p.x_b as int, p.c_b0 as int, kk % columns) as usize,
            height: division_size(p.y_b as int, p.r_b0 as int, kk / columns) as usize,
        };
        assert(is_rect(p, k, rect));
    }
}

} // verus!
