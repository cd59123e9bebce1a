//! Images that are segmented in the transform domain.
//!
//! The image is transformed as a whole. The segments divide the LL subband of
//! the transform into rectangles, and each carries all the coefficients over
//! its rectangle. Every header holds the size of the image, the number of
//! segments and the index of its own. Decoding puts the coefficients of the
//! segments together and undoes the transform once.

use crate::error::{fails_with, Fault, IcerError, Result};
use crate::header::{Segment, SegmentHeader, WalkedSegment};
use crate::partition::{can_partition, ceil_div, coefficient_segment_map, is_params, is_partition, is_rect, lemma_ll_pixel, ll_dimensions, params_are_unique, partition, partitions_exist, rectangles_exist, segment_map, segment_of, segments_tile, PartitionParams, SegmentRect};
use crate::scan::repeated;
use crate::strip::{decode_coeffs, depth_in_range, sample_bytes_of, sample_size, samples_back, segment_coeffs, write_samples, zero_coeffs};
use crate::wavelet_int::{has_integer_transform, inverse_2d_dyadic, is_integer};
use vstd::prelude::*;
use vstd::arithmetic::power2::pow2;

verus! {

/// Two headers describe segments of the same image.
pub open spec fn same_image(a: SegmentHeader, b: SegmentHeader) -> bool {
    &&& a.width == b.width
    &&& a.height == b.height
    &&& a.decomp_levels == b.decomp_levels
    &&& a.filter == b.filter
    &&& a.total_segments == b.total_segments
    &&& a.transform_segmented == b.transform_segmented
    &&& !a.uncompressed && !b.uncompressed
}

/// Whether two headers describe segments of the same image.
pub(crate) fn agree(a: &SegmentHeader, b: &SegmentHeader) -> (r: bool)
    ensures
        r == same_image(*a, *b),
{
    a.width == b.width && a.height == b.height && a.decomp_levels == b.decomp_levels && a.filter
        == b.filter && a.total_segments == b.total_segments && a.transform_segmented
        == b.transform_segmented && !a.uncompressed && !b.uncompressed
}

/// Size of the LL subband of an image.
pub open spec fn ll_size(w: int, h: int, levels: int) -> (int, int) {
    let step = pow2(levels as nat) as int;
    (ceil_div(w, step), ceil_div(h, step))
}

/// An image can be divided into `count` segments.
pub open spec fn can_segment(w: int, h: int, levels: int, count: int) -> bool {
    can_partition(ll_size(w, h, levels).0, ll_size(w, h, levels).1, count)
}

/// The partition of the LL subband of an image into `count` segments.
pub open spec fn ll_partition(w: int, h: int, levels: int, count: int) -> PartitionParams {
    choose|p: PartitionParams| #[trigger]
        is_params(ll_size(w, h, levels).0, ll_size(w, h, levels).1, count, p)
}

/// Rectangle `k` of a partition.
pub open spec fn rect_at(p: PartitionParams, k: int) -> SegmentRect {
    choose|r: SegmentRect| #[trigger] is_rect(p, k, r)
}

/// The block of the image under rectangle `k`.
pub open spec fn window_at(p: PartitionParams, k: int, w: int, h: int, levels: int) -> (
    usize,
    usize,
    usize,
    usize,
) {
    let (x0, x1, y0, y1) = rect_at(p, k).window(levels, w, h);
    (x0 as usize, x1 as usize, y0 as usize, y1 as usize)
}

proof fn lemma_rect_at(p: PartitionParams, k: int, r: SegmentRect)
    requires
        is_rect(p, k, r),
    ensures
        rect_at(p, k) == r,
{
    let c = rect_at(p, k);
    assert(is_rect(p, k, c));
    assert(c == r);
}

/// **The blocks of the segments of an image cover it.** Each block lies in the
/// image, and a pixel lies in the block of the segment that its LL pixel
/// belongs to.
pub proof fn blocks_cover(w: int, h: int, levels: int, count: int, k: int, x: int, y: int)
    requires
        1 <= w <= usize::MAX,
        1 <= h <= usize::MAX,
        count <= usize::MAX,
        0 <= levels <= 31,
        can_segment(w, h, levels, count),
        0 <= k < count,
        0 <= x < w,
        0 <= y < h,
    ensures
        ({
            let p = ll_partition(w, h, levels, count);
            let step = pow2(levels as nat) as int;
            let (x0, x1, y0, y1) = window_at(p, k, w, h, levels);
            &&& is_params(ll_size(w, h, levels).0, ll_size(w, h, levels).1, count, p)
            &&& x0 < x1 <= w
            &&& y0 < y1 <= h
            &&& 0 <= segment_of(p, x / step, y / step) < count
            &&& x0 <= x < x1 && y0 <= y < y1 <==> segment_of(p, x / step, y / step) == k
        }),
{
    let (lw, lh) = ll_size(w, h, levels);
    let step = pow2(levels as nat) as int;
    vstd::arithmetic::power2::lemma_pow2_pos(levels as nat);
    lemma_ll_pixel(x, w, step);
    lemma_ll_pixel(y, h, step);
    assert(lw <= w && lh <= h) by (nonlinear_arith)
        requires
            lw == (w + step - 1) / step,
            lh == (h + step - 1) / step,
            step >= 1,
            w >= 1,
            h >= 1,
    ;
    partitions_exist(lw, lh, count);
    let p = ll_partition(w, h, levels, count);
    assert(is_params(lw, lh, count, p));
    rectangles_exist(lw, lh, count, p, k);
    let r = rect_at(p, k);
    assert(is_rect(p, k, r));
    segments_tile(lw, lh, count, p, k, r, x / step, y / step);
    lemma_block_range(r.x as int, r.width as int, w, step, x);
    lemma_block_range(r.y as int, r.height as int, h, step, y);
}

/// A block holds the pixels of its part of the LL subband.
proof fn lemma_block_range(a: int, n: int, limit: int, step: int, x: int)
    requires
        step >= 1,
        a >= 0,
        n >= 1,
        limit >= 1,
        a + n <= ceil_div(limit, step),
        0 <= x < limit,
    ensures
        0 <= a * step < limit,
        a * step < (a + n) * step,
        a * step <= x < (a + n) * step <==> a <= x / step < a + n,
{
    let q = ceil_div(limit, step);
    assert(q * step <= limit + step - 1) by (nonlinear_arith)
        requires
            q == (limit + step - 1) / step,
            step >= 1,
    ;
    assert(0 <= a * step && a * step + step <= q * step && a * step < (a + n) * step)
        by (nonlinear_arith)
        requires
            0 <= a,
            a + 1 <= a + n <= q,
            step >= 1,
    ;
    assert(a * step <= x < (a + n) * step <==> a <= x / step < a + n) by (nonlinear_arith)
        requires
            step >= 1,
            x >= 0,
    ;
}

/// The coefficients of an image after its first `k` segments, in the order of
/// the stream. Coefficients of segments that did not come are 0.
pub open spec fn merged(first: SegmentHeader, segments: Seq<Segment>, k: int) -> core::result::Result<
    Seq<i32>,
    Fault,
>
    decreases k,
{
    let (w, h, levels) = (first.width as int, first.height as int, first.decomp_levels as int);
    let p = ll_partition(w, h, levels, first.total_segments as int);
    let map = segment_map(p, w, h, levels);
    if k <= 0 {
        Ok(zero_coeffs(w * h))
    } else {
        match merged(first, segments, k - 1) {
            Err(f) => Err(f),
            Ok(before) => {
                let index = segments[k - 1].header.segment_index;
                match segment_coeffs(
                    segments[k - 1],
                    Some((map, index)),
                    Some(window_at(p, index as int, w, h, levels)),
                ) {
                    Err(f) => Err(f),
                    Ok(coeffs) => Ok(
                        Seq::new(
                            (w * h) as nat,
                            |i: int|
                                if map[i] == index {
                                    coeffs[i]
                                } else {
                                    before[i]
                                },
                        ),
                    ),
                }
            },
        }
    }
}

/// The bytes of the samples of an image that is segmented in the transform
/// domain, or why it cannot be decoded.
pub open spec fn image_merged(segments: Seq<Segment>, bits: u8) -> core::result::Result<
    Seq<u8>,
    Fault,
> {
    let first = segments[0].header;
    if !can_segment(
        first.width as int,
        first.height as int,
        first.decomp_levels as int,
        first.total_segments as int,
    ) || !is_integer(first.filter) {
        Err(Fault::Unsupported)
    } else {
        match merged(first, segments, segments.len() as int) {
            Err(f) => Err(f),
            Ok(coeffs) => Ok(sample_bytes_of(samples_back(first, coeffs), bits)),
        }
    }
}

proof fn lemma_merged_fails(first: SegmentHeader, segments: Seq<Segment>, k: int, n: int)
    requires
        1 <= k <= n,
        merged(first, segments, k) is Err,
    ensures
        merged(first, segments, n) == merged(first, segments, k),
    decreases n,
{
    if n > k {
        lemma_merged_fails(first, segments, k, n - 1);
    }
}

/// The rectangles of the segments of an image and the segment of each of its
/// coefficients.
pub(crate) fn divide_image(w: usize, h: usize, levels: u8, count: usize) -> (r: Result<
    (Vec<SegmentRect>, Vec<u16>),
>)
    requires
        levels <= 31,
        w * h <= usize::MAX,
        count <= 0x1_0000,
    ensures
        can_segment(w as int, h as int, levels as int, count as int) <==> r is Ok,
        r is Err ==> fails_with(r, Fault::Unsupported),
        r matches Ok((rects, map)) ==> {
            let p = ll_partition(w as int, h as int, levels as int, count as int);
            &&& rects@.len() == count
            &&& forall|k: int| 0 <= k < count ==> is_rect(p, k, #[trigger] rects@[k])
            &&& map@ == segment_map(p, w as int, h as int, levels as int)
            &&& is_params(
                ll_size(w as int, h as int, levels as int).0,
                ll_size(w as int, h as int, levels as int).1,
                count as int,
                p,
            )
        },
{
    let map = match coefficient_segment_map(w, h, levels, count) {
        Ok(m) => m,
        Err(e) => return Err(e),
    };
    let (w_ll, h_ll) = ll_dimensions(w, h, levels);
    let rects = match partition(w_ll, h_ll, count) {
        Ok(v) => v,
        Err(e) => return Err(e),
    };
    proof {
        let (lw, lh) = ll_size(w as int, h as int, levels as int);
        let s = count as int;
        let p = ll_partition(w as int, h as int, levels as int, s);
        let q = choose|q: PartitionParams| #[trigger] is_partition(lw, lh, s, q, rects@);
        assert(is_params(lw, lh, s, q));
        params_are_unique(lw, lh, s, p, q);
        let m = choose|m: PartitionParams|
            is_params(lw, lh, s, m) && map@ == #[trigger] segment_map(
                m,
                w as int,
                h as int,
                levels as int,
            );
        params_are_unique(lw, lh, s, p, m);
    }
    Ok((rects, map))
}

/// The block of the image under rectangle `k`.
pub(crate) fn block_of(
    rects: &Vec<SegmentRect>,
    k: usize,
    w: usize,
    h: usize,
    levels: u8,
    count: usize,
) -> (r: (usize, usize, usize, usize))
    requires
        levels <= 31,
        w >= 1,
        h >= 1,
        can_segment(w as int, h as int, levels as int, count as int),
        k < count == rects@.len(),
        ({
            let p = ll_partition(w as int, h as int, levels as int, count as int);
            &&& is_rect(p, k as int, rects@[k as int])
            &&& is_params(
                ll_size(w as int, h as int, levels as int).0,
                ll_size(w as int, h as int, levels as int).1,
                count as int,
                p,
            )
        }),
    ensures
        r == window_at(
            ll_partition(w as int, h as int, levels as int, count as int),
            k as int,
            w as int,
            h as int,
            levels as int,
        ),
        r.0 < r.1 <= w,
        r.2 < r.3 <= h,
{
    proof {
        let p = ll_partition(w as int, h as int, levels as int, count as int);
        let (lw, lh) = ll_size(w as int, h as int, levels as int);
        lemma_rect_at(p, k as int, rects@[k as int]);
        segments_tile(lw, lh, count as int, p, k as int, rects@[k as int], 0, 0);
    }
    rects[k].image_window(levels, w, h)
}

/// The bytes of the samples of an image that is segmented in the transform
/// domain.
pub(crate) fn decode_merged(walked: &Vec<WalkedSegment>, bits: u8) -> (r: Result<Vec<u8>>)
    requires
        walked@.len() > 0,
        forall|i: int|
            #![trigger walked@[i]]
            0 <= i < walked@.len() ==> walked@[i].header.valid() && same_image(
                walked@[0].header,
                walked@[i].header,
            ) && walked@[i].header.segment_index < walked@[0].header.total_segments,
        depth_in_range(bits),
        walked@[0].header.width * walked@[0].header.height * sample_size(bits) <= usize::MAX,
    ensures
        match image_merged(Seq::new(walked@.len(), |i: int| walked@[i]@), bits) {
            Err(f) => fails_with(r, f),
            Ok(data) => r is Ok && r->Ok_0@ == data && data.len() == walked@[0].header.width
                * walked@[0].header.height * sample_size(bits),
        },
{
    let first = walked[0].header;
    let ghost segments = Seq::new(walked@.len(), |i: int| walked@[i]@);
    let width: usize = first.width as usize;
    let height: usize = first.height as usize;
    let levels: u8 = first.decomp_levels;
    let count: usize = first.total_segments as usize;
    assert(walked@[0].header.valid());
    proof {
        let a = width * height;
        assert(a >= 0) by (nonlinear_arith)
            requires
                a == width * height,
                width >= 0,
                height >= 0,
        ;
        assert(a * sample_size(bits) >= a) by (nonlinear_arith)
            requires
                a >= 0,
                sample_size(bits) >= 1,
        ;
        assert(segments[0].header == first);
    }
    let (rects, map) = match divide_image(width, height, levels, count) {
        Ok(v) => v,
        Err(e) => return Err(e),
    };
    if !has_integer_transform(first.filter) {
        return Err(IcerError::unsupported("the wavelet filter has no integer transform"));
    }
    let mut coeffs = repeated(0i32, width * height);
    assert(coeffs@ =~= zero_coeffs(width * height));
    let ghost p = ll_partition(width as int, height as int, levels as int, count as int);
    let mut k: usize = 0;
    while k < walked.len()
        invariant
            k <= walked@.len(),
            segments == Seq::new(walked@.len(), |i: int| walked@[i]@),
            first == walked@[0].header,
            first == segments[0].header,
            first.valid(),
            width == first.width,
            height == first.height,
            levels == first.decomp_levels,
            count == first.total_segments,
            width * height <= usize::MAX,
            p == ll_partition(width as int, height as int, levels as int, count as int),
            can_segment(width as int, height as int, levels as int, count as int),
            is_integer(first.filter),
            is_params(
                ll_size(width as int, height as int, levels as int).0,
                ll_size(width as int, height as int, levels as int).1,
                count as int,
                p,
            ),
            rects@.len() == count,
            forall|j: int| 0 <= j < count ==> is_rect(p, j, #[trigger] rects@[j]),
            map@ == segment_map(p, width as int, height as int, levels as int),
            forall|i: int|
                #![trigger walked@[i]]
                0 <= i < walked@.len() ==> walked@[i].header.valid() && same_image(
                    first,
                    walked@[i].header,
                ) && walked@[i].header.segment_index < count,
            merged(first, segments, k as int) == Ok::<Seq<i32>, Fault>(coeffs@),
            coeffs@.len() == width * height,
        decreases walked@.len() - k,
    {
        let w = &walked[k];
        let index: u16 = w.header.segment_index;
        assert(walked@[k as int].header.segment_index < count);
        let window = block_of(&rects, index as usize, width, height, levels, count);
        let part = match decode_coeffs(w, Some((map.as_slice(), index)), Some(window)) {
            Ok(c) => c,
            Err(e) => {
                proof {
                    assert(segments[k as int] == w@);
                    lemma_merged_fails(first, segments, k + 1, segments.len() as int);
                }
                return Err(e);
            },
        };
        let ghost before = coeffs@;
        let mut i: usize = 0;
        while i < coeffs.len()
            invariant
                i <= coeffs@.len(),
                coeffs@.len() == before.len() == part@.len() == map@.len(),
                forall|j: int|
                    0 <= j < coeffs@.len() ==> #[trigger] coeffs@[j] == (if j < i && map@[j]
                        == index {
                        part@[j]
                    } else {
                        before[j]
                    }),
            decreases coeffs@.len() - i,
        {
            if map[i] == index {
                coeffs.set(i, part[i]);
            }
            i = i + 1;
        }
        proof {
            assert(segments[k as int] == w@);
            assert(coeffs@ =~= merged(first, segments, k + 1)->Ok_0);
        }
        k = k + 1;
    }
    inverse_2d_dyadic(&mut coeffs, width, height, levels, first.filter);
    Ok(write_samples(&coeffs, bits))
}

} // verus!
