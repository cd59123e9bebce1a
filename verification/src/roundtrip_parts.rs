//! What a decoder makes of images that are segmented in the transform domain.

use crate::assemble::{parts_fault, plane_decoded, steady, too_large};
use crate::compress::{coded_selection, coefficients, lowest_bit, planes_for, rows_of, Settings};
use crate::decoder::{by_index, pixels_of, stream_segments, DecodeLimits};
use crate::emit::{packets_bytes, pixels_until, segment_ok, stream_of, stream_reads_back, Quota};
use crate::encoder::{at_rank, emission_order, is_ranking, lemma_every_rank, plane_segments};
use crate::error::Fault;
use crate::header::{Packet, Segment};
use crate::image::IcerPlane;
use crate::merge::{blocks_cover, can_segment, ll_partition, merged, window_at};
use crate::ordering::{each_once, each_once_in_order, lemma_nothing_kept, lemma_one_more_kept, lemma_placeholder_member, matches_kept, own_index, written_and_left_out};
use crate::partition::segment_map;
use crate::parts::{block_coeffs, empty_segment, part_headers, part_segment, parts_encoded, parts_written, placeholders};
use crate::priority::lemma_index;
use crate::roundtrip::{lemma_area_bound, lemma_planes_hold, lemma_samples_bounded, samples_give_rows, segments_decode_to_what_is_known, whole_segments_are_exact};
use crate::roundtrip_stream::{decodable, generous, lemma_body_carried, lemma_no_placeholders, lossless, orders_are_rankings};
use crate::scan::{magnitude_of, Grid, Selection};
use crate::strip::{sample_bytes_of, sample_size, segment_coeffs, shifted_samples};
use crate::wavelet_int::{bounded, grown, inverse_levels, is_integer, transform_is_reversible, weights_of};
use vstd::arithmetic::power2::pow2;
use vstd::prelude::*;

verus! {

// ---------------------------------------------------------------------------
// One part
// ---------------------------------------------------------------------------

/// The coefficients that a part decodes to.
pub open spec fn part_coeffs(s: Segment) -> core::result::Result<Seq<i32>, Fault> {
    let (w, h) = (s.header.width as int, s.header.height as int);
    let levels = s.header.decomp_levels as int;
    let p = ll_partition(w, h, levels, s.header.total_segments as int);
    let index = s.header.segment_index;
    segment_coeffs(
        s,
        Some((segment_map(p, w, h, levels), index)),
        Some(window_at(p, index as int, w, h, levels)),
    )
}

/// A segment is one of `n` parts of an image: it can be carried and decoded.
pub open spec fn is_part(s: Segment, set: Settings, width: int, height: int, n: int) -> bool {
    &&& segment_ok(s)
    &&& s.header.segment_index < n
    &&& s.header.width == width
    &&& s.header.height == height
    &&& s.header.decomp_levels == set.levels
    &&& s.header.filter == set.filter
    &&& s.header.total_segments == n
    &&& s.header.transform_segmented
    &&& !s.header.uncompressed
    &&& part_coeffs(s) is Ok
    &&& part_coeffs(s)->Ok_0.len() == width * height
}

/// The segment of coefficient `i` of an image.
pub open spec fn owner(width: int, height: int, levels: int, n: int, i: int) -> u16 {
    segment_map(ll_partition(width, height, levels, n), width, height, levels)[i]
}

/// A part decodes to the coefficients of its segment.
pub open spec fn has_part(s: Segment, coeffs: Seq<i32>) -> bool {
    let (w, h) = (s.header.width as int, s.header.height as int);
    forall|i: int|
        0 <= i < coeffs.len() && owner(
            w,
            h,
            s.header.decomp_levels as int,
            s.header.total_segments as int,
            i,
        ) == s.header.segment_index ==> part_coeffs(s)->Ok_0[i] == #[trigger] coeffs[i]
}

/// An image can be divided into `n` parts.
pub open spec fn divisible(set: Settings, width: int, height: int, n: int) -> bool {
    &&& set.ok()
    &&& set.sync_prefix != 0
    &&& 2 <= width <= 0xFFFF
    &&& 2 <= height <= 0xFFFF
    &&& 1 <= n <= 255
    &&& can_segment(width, height, set.levels as int, n)
}

/// A coefficient lies in the block of its segment, and in no other.
pub proof fn lemma_owner(set: Settings, width: int, height: int, n: int, k: int, i: int)
    requires
        divisible(set, width, height, n),
        0 <= k < n,
        0 <= i < width * height,
    ensures
        ({
            let p = ll_partition(width, height, set.levels as int, n);
            let (x0, x1, y0, y1) = window_at(p, k, width, height, set.levels as int);
            &&& x0 < x1 <= width
            &&& y0 < y1 <= height
            &&& 0 <= i % width < width
            &&& 0 <= i / width < height
            &&& owner(width, height, set.levels as int, n, i) < n
            &&& x0 <= i % width < x1 && y0 <= i / width < y1 <==> owner(
                width,
                height,
                set.levels as int,
                n,
                i,
            ) == k
        }),
{
    assert(0 <= i % width < width && 0 <= i / width < height) by (nonlinear_arith)
        requires
            0 <= i < width * height,
            width >= 1,
    ;
    blocks_cover(width, height, set.levels as int, n, k, i % width, i / width);
}

/// The coefficients of a block are bounded as those of the image are.
proof fn lemma_block_bounded(
    coeffs: Seq<i32>,
    width: int,
    height: int,
    window: (usize, usize, usize, usize),
    b: int,
)
    requires
        coeffs.len() == width * height,
        bounded(coeffs, b),
        window.0 < window.1 <= width,
        window.2 < window.3 <= height,
    ensures
        bounded(block_coeffs(coeffs, width, window), b),
{
    let (x0, x1, y0, y1) = window;
    let w = x1 - x0;
    let block = block_coeffs(coeffs, width, window);
    assert forall|i: int| 0 <= i < block.len() implies -b <= #[trigger] block[i] <= b by {
        assert(0 <= i % w < w && 0 <= i / w < y1 - y0) by (nonlinear_arith)
            requires
                0 <= i < w * (y1 - y0),
                w >= 1,
        ;
        lemma_index(x0 + i % w, y0 + i / w, width, height);
        assert(block[i] == coeffs[(y0 + i / w) * width + x0 + i % w]);
    }
}

/// The bit planes of a block hold every coefficient that its part codes.
proof fn lemma_block_fits(
    g: Grid,
    coeffs: Seq<i32>,
    f: Selection,
    window: (usize, usize, usize, usize),
    q: u8,
)
    requires
        coeffs.len() == g.area(),
        f.window == Some(window),
        window.0 < window.1 <= g.width,
        window.2 < window.3 <= g.height,
        crate::bitplane::fits_planes(block_coeffs(coeffs, g.width as int, window), q as int),
    ensures
        crate::readback::scope_fits(g, coeffs, f, q),
{
    let (x0, x1, y0, y1) = window;
    let w = x1 - x0;
    let width = g.width as int;
    let block = block_coeffs(coeffs, width, window);
    assert forall|i: int| 0 <= i < coeffs.len() && crate::readback::in_scope(g, f, i) implies magnitude_of(
        #[trigger] coeffs[i],
    ) < pow2(q as nat) by {
        let (x, y) = (i % width, i / width);
        lemma_index(x - x0, y - y0, w, y1 - y0);
        let k = (y - y0) * w + (x - x0);
        assert((y1 - y0) * w == w * (y1 - y0)) by (nonlinear_arith);
        assert(width * (i / width) + i % width == i) by {
            vstd::arithmetic::div_mod::lemma_fundamental_div_mod(i, width);
        }
        assert(y * width == width * y) by (nonlinear_arith);
        assert(block[k] == coeffs[i]);
        assert(magnitude_of(block[k]) < pow2(q as nat));
    }
}

/// The part with an index is a part, and without limits and without a loss it
/// has the coefficients of its segment.
proof fn lemma_part(
    set: Settings,
    coeffs: Seq<i32>,
    width: usize,
    height: usize,
    index: u16,
    n: int,
    budget: Option<u64>,
)
    requires
        divisible(set, width as int, height as int, n),
        index < n,
        coeffs.len() == width * height,
        bounded(coeffs, grown(grown(0x1_0000))),
        part_segment(set, coeffs, width, height, index, n as u8, budget) is Ok,
    ensures
        ({
            let s = part_segment(set, coeffs, width, height, index, n as u8, budget)->Ok_0;
            &&& is_part(s, set, width as int, height as int, n)
            &&& s.header.segment_index == index
            &&& budget is None && set.target is None && set.min_loss == 0 ==> has_part(s, coeffs)
        }),
{
    let s = part_segment(set, coeffs, width, height, index, n as u8, budget)->Ok_0;
    let (w, h, levels) = (width as int, height as int, set.levels as int);
    let g = Grid { width, height, levels: set.levels };
    let p = ll_partition(w, h, levels, n);
    let map = segment_map(p, w, h, levels);
    let window = window_at(p, index as int, w, h, levels);
    let segment = Some((map, index));
    let f = coded_selection(set, g, segment, Some(window));
    let block = block_coeffs(coeffs, w, window);
    let q = planes_for(set, block);
    let floor = lowest_bit(f, g.area());
    let quota = Quota { budget, target: set.target };
    lemma_area_bound(g);
    assert(w * h >= 1) by (nonlinear_arith)
        requires
            w >= 2,
            h >= 2,
    ;
    lemma_owner(set, w, h, n, index as int, 0);
    lemma_block_bounded(coeffs, w, h, window, grown(grown(0x1_0000)));
    lemma_planes_hold(set, block, grown(grown(0x1_0000)));
    lemma_block_fits(g, coeffs, f, window, q);
    lemma_body_carried(set, g, coeffs, f, q, quota, floor, None);
    segments_decode_to_what_is_known(
        set,
        s.header,
        g,
        coeffs,
        segment,
        Some(window),
        q,
        quota,
        floor,
        s.packets,
    );
    if budget is None && set.target is None && set.min_loss == 0 {
        assert forall|i: int| 0 <= i < coeffs.len() && owner(w, h, levels, n, i) == index implies part_coeffs(
            s,
        )->Ok_0[i] == #[trigger] coeffs[i] by {
            lemma_owner(set, w, h, n, index as int, i);
            assert(f.in_segment(i));
            whole_segments_are_exact(
                set,
                s.header,
                g,
                coeffs,
                segment,
                Some(window),
                q,
                s.packets,
                i,
            );
        }
    }
}

proof fn lemma_empty_part(set: Settings, width: int, height: int, n: int, i: int)
    requires
        divisible(set, width, height, n),
        0 <= i < n,
    ensures
        is_part(
            empty_segment(part_headers(set, width, height, n as u8)[i]),
            set,
            width,
            height,
            n,
        ),
        part_headers(set, width, height, n as u8)[i].segment_index == i,
{
    let s = empty_segment(part_headers(set, width, height, n as u8)[i]);
    assert(packets_bytes(Seq::<Packet>::empty()) =~= Seq::empty());
    assert(width * height >= 0) by (nonlinear_arith)
        requires
            width >= 2,
            height >= 2,
    ;
}

// ---------------------------------------------------------------------------
// All parts
// ---------------------------------------------------------------------------

/// All segments are parts.
pub open spec fn all_are_parts(segments: Seq<Segment>, set: Settings, width: int, height: int, n: int) -> bool {
    forall|i: int|
        0 <= i < segments.len() ==> is_part(#[trigger] segments[i], set, width, height, n)
}

/// All parts decode to the coefficients of their segments.
pub open spec fn all_have_parts(segments: Seq<Segment>, coeffs: Seq<i32>) -> bool {
    forall|i: int| 0 <= i < segments.len() ==> has_part(#[trigger] segments[i], coeffs)
}

/// Settings without a loss but for their limits.
spec fn whole(set: Settings, budget: Option<u64>) -> bool {
    budget is None && set.target is None && set.min_loss == 0
}

proof fn lemma_parts_written(
    set: Settings,
    coeffs: Seq<i32>,
    width: usize,
    height: usize,
    n: int,
    order: Seq<u16>,
    budget: Option<u64>,
    k: int,
)
    requires
        divisible(set, width as int, height as int, n),
        is_ranking(order, n),
        coeffs.len() == width * height,
        bounded(coeffs, grown(grown(0x1_0000))),
        0 <= k <= n,
        parts_written(set, coeffs, width, height, n as u8, order, budget, k) is Ok,
    ensures
        ({
            let w = parts_written(set, coeffs, width, height, n as u8, order, budget, k)->Ok_0;
            &&& matches_kept(w, n)
            &&& all_are_parts(w.segments, set, width as int, height as int, n)
            &&& forall|v: int|
                0 <= v < n && #[trigger] w.kept[v] ==> exists|j: int|
                    0 <= j < k && #[trigger] order[j] == v
            &&& budget is None ==> forall|j: int|
                0 <= j < k ==> w.kept[#[trigger] order[j] as int]
            &&& whole(set, budget) ==> all_have_parts(w.segments, coeffs)
        }),
    decreases k,
{
    let after = parts_written(set, coeffs, width, height, n as u8, order, budget, k)->Ok_0;
    if k <= 0 {
        lemma_nothing_kept(n);
    } else {
        lemma_parts_written(set, coeffs, width, height, n, order, budget, k - 1);
        let w = parts_written(set, coeffs, width, height, n as u8, order, budget, k - 1)->Ok_0;
        let i = order[k - 1];
        let inner = match budget {
            Some(b) => Some(
                crate::parts::left_of(
                    b as int,
                    stream_of(w.segments).len() as int,
                    crate::parts::reserve_of(w.kept, i as int),
                ) as u64,
            ),
            None => None,
        };
        let s = part_segment(set, coeffs, width, height, i, n as u8, inner)->Ok_0;
        lemma_part(set, coeffs, width, height, i, n, inner);
        if w.kept[i as int] {
            let j = choose|j: int| 0 <= j < k - 1 && #[trigger] order[j] == i;
            assert(order[j] != order[k - 1]);
        }
        lemma_one_more_kept(w, n, s);
        assert forall|v: int| 0 <= v < n && #[trigger] after.kept[v] implies exists|j: int|
            0 <= j < k && #[trigger] order[j] == v by {
            if w.kept[v] {
                let j = choose|j: int| 0 <= j < k - 1 && #[trigger] order[j] == v;
                assert(order[j] == v);
            } else {
                assert(order[k - 1] == v);
            }
        }
        if budget is None {
            assert forall|j: int| 0 <= j < k implies after.kept[#[trigger] order[j] as int] by {
                if j < k - 1 {
                    assert(w.kept[order[j] as int]);
                }
            }
        }
    }
}

/// The segments that encoding an image in parts leads to.
proof fn lemma_parts_encoded(
    set: Settings,
    coeffs: Seq<i32>,
    width: usize,
    height: usize,
    n: int,
    order: Seq<u16>,
    budget: Option<u64>,
)
    requires
        divisible(set, width as int, height as int, n),
        is_ranking(order, n),
        coeffs.len() == width * height,
        bounded(coeffs, grown(grown(0x1_0000))),
        parts_encoded(set, coeffs, width, height, n as u8, order, budget) is Ok,
    ensures
        ({
            let segments = parts_encoded(
                set,
                coeffs,
                width,
                height,
                n as u8,
                order,
                budget,
            )->Ok_0;
            &&& each_once(segments, n)
            &&& all_are_parts(segments, set, width as int, height as int, n)
            &&& whole(set, budget) ==> all_have_parts(segments, coeffs)
        }),
{
    lemma_parts_written(set, coeffs, width, height, n, order, budget, n);
    let w = parts_written(set, coeffs, width, height, n as u8, order, budget, n)->Ok_0;
    let headers = part_headers(set, width as int, height as int, n as u8);
    let rest = placeholders(w.kept, headers, n);
    let all = w.segments + rest;
    assert(own_index(headers, n)) by {
        assert forall|i: int| 0 <= i < n implies (#[trigger] headers[i]).segment_index == i by {
            lemma_empty_part(set, width as int, height as int, n, i);
        }
    }
    written_and_left_out(w, headers, n);
    assert forall|i: int| 0 <= i < all.len() implies is_part(
        #[trigger] all[i],
        set,
        width as int,
        height as int,
        n,
    ) by {
        if i < w.segments.len() {
            assert(all[i] == w.segments[i]);
        } else {
            let k = i - w.segments.len();
            assert(all[i] == rest[k]);
            lemma_placeholder_member(w.kept, headers, n, k);
            let j = choose|j: int|
                0 <= j < n && #[trigger] headers[j] == rest[k].header && rest[k]
                    == empty_segment(headers[j]);
            lemma_empty_part(set, width as int, height as int, n, j);
        }
    }
    if budget is None {
        assert forall|v: int| 0 <= v < n implies #[trigger] w.kept[v] by {
            lemma_every_rank(order, n, v);
            let j = at_rank(order, v);
            assert(w.kept[order[j] as int]);
        }
        lemma_no_placeholders(w.kept, headers, n);
        assert(all =~= w.segments);
    }
}

/// The first `k` parts, in order, merge to the coefficients of their segments.
proof fn lemma_merged_parts(
    t: Seq<Segment>,
    set: Settings,
    coeffs: Seq<i32>,
    width: int,
    height: int,
    n: int,
    k: int,
)
    requires
        divisible(set, width, height, n),
        t.len() == n,
        forall|i: int| 0 <= i < n ==> (#[trigger] t[i]).header.segment_index == i,
        all_are_parts(t, set, width, height, n),
        coeffs.len() == width * height,
        0 <= k <= n,
    ensures
        merged(t[0].header, t, k) is Ok,
        merged(t[0].header, t, k)->Ok_0.len() == width * height,
        all_have_parts(t, coeffs) ==> forall|i: int|
            0 <= i < coeffs.len() && owner(width, height, set.levels as int, n, i) < k ==> merged(
                t[0].header,
                t,
                k,
            )->Ok_0[i] == #[trigger] coeffs[i],
        parts_fault(t, true, k) is None,
    decreases k,
{
    assert(is_part(t[0], set, width, height, n));
    if k > 0 {
        lemma_merged_parts(t, set, coeffs, width, height, n, k - 1);
        let s = t[k - 1];
        assert(is_part(s, set, width, height, n));
        assert(s.header.segment_index == k - 1);
        let out = merged(t[0].header, t, k)->Ok_0;
        let before = merged(t[0].header, t, k - 1)->Ok_0;
        if all_have_parts(t, coeffs) {
            assert(has_part(s, coeffs));
            assert forall|i: int|
                0 <= i < coeffs.len() && owner(width, height, set.levels as int, n, i) < k implies out[i]
                == #[trigger] coeffs[i] by {
                if owner(width, height, set.levels as int, n, i) == k - 1 {
                    assert(part_coeffs(s)->Ok_0[i] == coeffs[i]);
                } else {
                    assert(before[i] == coeffs[i]);
                }
            }
        }
    }
}

proof fn lemma_parts_pixels(segments: Seq<Segment>, area: int, k: int)
    requires
        0 <= k <= segments.len(),
        forall|i: int| 0 <= i < segments.len() ==> pixels_of((#[trigger] segments[i]).header) == area,
    ensures
        pixels_until(segments, k) == k * area,
    decreases k,
{
    if k > 0 {
        lemma_parts_pixels(segments, area, k - 1);
        assert((k - 1) * area + area == k * area) by (nonlinear_arith);
    } else {
        assert(0 * area == 0);
    }
}

/// Parts in any order decode to an image of their size.
proof fn lemma_parts_decode(
    segments: Seq<Segment>,
    set: Settings,
    coeffs: Seq<i32>,
    width: int,
    height: int,
    n: int,
    limits: DecodeLimits,
)
    requires
        divisible(set, width, height, n),
        is_integer(set.filter),
        each_once(segments, n),
        all_are_parts(segments, set, width, height, n),
        coeffs.len() == width * height,
        !too_large(width, height, set.bits),
        generous(limits, width, height, n),
    ensures
        ({
            let r = plane_decoded(stream_of(segments), set.bits, limits);
            &&& stream_segments(stream_of(segments), limits) == Ok::<Seq<Segment>, Fault>(segments)
            &&& r is Ok
            &&& steady(stream_of(segments), limits)
            &&& r->Ok_0.width == width
            &&& r->Ok_0.height == height
            &&& all_have_parts(segments, coeffs) ==> r->Ok_0.data == sample_bytes_of(
                inverse_levels(
                    weights_of(set.filter),
                    width as usize,
                    height as usize,
                    coeffs,
                    set.levels as int,
                ),
                set.bits,
            )
        }),
{
    each_once_in_order(segments, n);
    let t = by_index(segments);
    assert forall|i: int| 0 <= i < n implies is_part(#[trigger] t[i], set, width, height, n) by {
        let j = choose|j: int| 0 <= j < segments.len() && segments[j] == t[i];
        assert(is_part(segments[j], set, width, height, n));
    }
    if all_have_parts(segments, coeffs) {
        assert forall|i: int| 0 <= i < n implies has_part(#[trigger] t[i], coeffs) by {
            let j = choose|j: int| 0 <= j < segments.len() && segments[j] == t[i];
            assert(has_part(segments[j], coeffs));
        }
    }
    lemma_merged_parts(t, set, coeffs, width, height, n, n);
    let area = width * height;
    assert forall|i: int| 0 <= i < segments.len() implies segment_ok(#[trigger] segments[i])
        && pixels_of(segments[i].header) == area by {
        assert(is_part(segments[i], set, width, height, n));
    }
    lemma_parts_pixels(segments, area, segments.len() as int);
    stream_reads_back(segments, limits);
    assert(is_part(t[0], set, width, height, n));
    if all_have_parts(segments, coeffs) {
        let out = merged(t[0].header, t, n)->Ok_0;
        assert forall|i: int| 0 <= i < coeffs.len() implies out[i] == #[trigger] coeffs[i] by {
            lemma_owner(set, width, height, n, 0, i);
        }
        assert(out =~= coeffs);
    }
}

/// **The stream of an image that is segmented in the transform domain decodes
/// to an image of the same size, and without a loss to the image itself.** The
/// first holds whatever a budget leaves of the parts.
pub proof fn parts_read_back(
    set: Settings,
    ranks: Option<Vec<u16>>,
    plane: IcerPlane,
    width: usize,
    height: usize,
    budget: Option<u64>,
    limits: DecodeLimits,
)
    requires
        decodable(set, plane, width as int, height as int),
        set.transform,
        plane_segments(set, ranks, plane, width, height, budget) is Ok,
        generous(limits, width as int, height as int, set.count()),
    ensures
        ({
            let segments = plane_segments(set, ranks, plane, width, height, budget)->Ok_0;
            let r = plane_decoded(stream_of(segments), set.bits, limits);
            &&& stream_segments(stream_of(segments), limits) == Ok::<Seq<Segment>, Fault>(segments)
            &&& r is Ok
            &&& steady(stream_of(segments), limits)
            &&& r->Ok_0.width == width
            &&& r->Ok_0.height == height
            &&& budget is None && lossless(set, plane, width as int, height as int)
                ==> r->Ok_0.data == rows_of(plane, width * sample_size(set.bits), 0, height as int)
        }),
{
    let segments = plane_segments(set, ranks, plane, width, height, budget)->Ok_0;
    let (w, h, n) = (width as int, height as int, set.count());
    let samples = shifted_samples(plane, set.bits, w, 0, h);
    let coeffs = coefficients(set, samples, width, height);
    lemma_samples_bounded(plane, set.bits, w, 0, h);
    transform_is_reversible(set.filter, width, height, samples, set.levels as int, 0x1_0000);
    orders_are_rankings(ranks, n);
    let order = emission_order(ranks, n)->Ok_0;
    lemma_parts_encoded(set, coeffs, width, height, n, order, budget);
    lemma_parts_decode(segments, set, coeffs, w, h, n, limits);
    if budget is None && lossless(set, plane, w, h) {
        samples_give_rows(plane, set.bits, w, 0, h);
    }
}

} // verus!
