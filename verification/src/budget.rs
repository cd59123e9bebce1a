//! How long the streams of an encoder with a byte budget are.

use crate::assemble::missing_of;
use crate::decoder::depth_of_format;
use crate::emit::{packets_bytes, segment_stream, stream_of};
use crate::encoder::{all_strips, emission_order, image_encoded, image_plane_stream, inner_budget, is_ranking, plane_filter, plane_segments, plane_stream, plane_streams, ranked_written, strip_at, strip_headers, strip_rows, strips_written, EncodeOptions, Limits};
use crate::compress::{rows_of, strip_raw, strip_segment, Settings};
use crate::header::{Packet, Segment, SegmentHeader};
use crate::image::{IcerImage, IcerPixelFormat, IcerPlane};
use crate::plane_container::{joined, length_table, prefix_bytes};
use crate::parts::{empty_segment, left_of, lemma_missing_bound, lemma_stream_join, lemma_stream_push, part_headers, part_segment, parts_written, placeholders, reserve_of, Written};
use crate::roundtrip_image::usual_job;
use crate::roundtrip_stream::orders_are_rankings;
use crate::strip::sample_size;
use vstd::prelude::*;

verus! {

/// Bytes of a stream once the empty segments for those left out are written.
pub open spec fn total_of(w: Written) -> int {
    stream_of(w.segments).len() + 12 * missing_of(w.kept, w.kept.len() as int)
}

/// An empty segment is a header.
proof fn lemma_empty_length(h: SegmentHeader)
    ensures
        segment_stream(empty_segment(h)).len() == 12,
{
    assert(packets_bytes(Seq::<Packet>::empty()) =~= Seq::empty());
}

/// The empty segments for those left out have 12 bytes each.
proof fn lemma_placeholder_length(kept: Seq<bool>, headers: Seq<SegmentHeader>, k: int)
    requires
        0 <= k <= kept.len(),
    ensures
        stream_of(placeholders(kept, headers, k)).len() == 12 * missing_of(kept, k),
    decreases k,
{
    if k > 0 {
        lemma_placeholder_length(kept, headers, k - 1);
        if !kept[k - 1] {
            lemma_stream_push(placeholders(kept, headers, k - 1), empty_segment(headers[k - 1]));
            lemma_empty_length(headers[k - 1]);
        }
    }
}

proof fn lemma_total(w: Written, headers: Seq<SegmentHeader>, n: int)
    requires
        n == w.kept.len(),
    ensures
        stream_of(w.segments + placeholders(w.kept, headers, n)).len() == total_of(w),
        stream_of(w.segments).len() <= total_of(w) <= stream_of(w.segments).len() + 12 * n,
{
    lemma_stream_join(w.segments, placeholders(w.kept, headers, n));
    lemma_placeholder_length(w.kept, headers, n);
    lemma_missing_bound(w.kept, n);
}

/// Where nothing is kept, everything is left out.
proof fn lemma_nothing_kept_yet(kept: Seq<bool>, k: int)
    requires
        0 <= k <= kept.len(),
        forall|i: int| 0 <= i < k ==> !#[trigger] kept[i],
    ensures
        missing_of(kept, k) == k,
    decreases k,
{
    if k > 0 {
        lemma_nothing_kept_yet(kept, k - 1);
    }
}

/// The larger of a budget and the headers of `n` segments.
pub open spec fn cap(b: u64, n: int) -> int {
    if b < 12 * n {
        12 * n
    } else {
        b as int
    }
}

proof fn lemma_strips_length(
    set: Settings,
    plane: IcerPlane,
    width: usize,
    height: int,
    each: int,
    n: int,
    b: u64,
    k: int,
)
    requires
        0 <= k <= n,
        strips_written(set, plane, width, height, each, n, Some(b), k) is Ok,
    ensures
        ({
            let w = strips_written(set, plane, width, height, each, n, Some(b), k)->Ok_0.0;
            &&& w.kept.len() == n
            &&& stream_of(w.segments).len() <= b
        }),
    decreases k,
{
    if k > 0 {
        lemma_strips_length(set, plane, width, height, each, n, b, k - 1);
        let (w, full) = strips_written(set, plane, width, height, each, n, Some(b), k - 1)->Ok_0;
        let used = stream_of(w.segments).len() as int;
        if !full && used < b {
            let inner = Some(left_of(b as int, used, 12 * (n - k)) as u64);
            let s = strip_at(set, plane, width, height, each, k - 1, inner)->Ok_0;
            lemma_stream_push(w.segments, s);
        }
    }
}

proof fn lemma_ranked_length(strips: Seq<Segment>, order: Seq<u16>, b: u64, n: int, k: int)
    requires
        strips.len() == n,
        is_ranking(order, n),
        0 <= k <= n,
    ensures
        ({
            let w = ranked_written(strips, order, Some(b), k);
            &&& w.kept.len() == n
            &&& total_of(w) <= cap(b, n)
        }),
    decreases k,
{
    let after = ranked_written(strips, order, Some(b), k);
    if k <= 0 {
        lemma_nothing_kept_yet(after.kept, n);
    } else {
        lemma_ranked_length(strips, order, b, n, k - 1);
        let w = ranked_written(strips, order, Some(b), k - 1);
        lemma_stream_push(w.segments, strips[order[k - 1] as int]);
    }
}

proof fn lemma_parts_length(
    set: Settings,
    coeffs: Seq<i32>,
    width: usize,
    height: usize,
    total: u8,
    order: Seq<u16>,
    b: u64,
    k: int,
)
    requires
        is_ranking(order, total as int),
        0 <= k <= total,
        parts_written(set, coeffs, width, height, total, order, Some(b), k) is Ok,
    ensures
        ({
            let w = parts_written(set, coeffs, width, height, total, order, Some(b), k)->Ok_0;
            &&& w.kept.len() == total
            &&& total_of(w) <= cap(b, total as int)
        }),
    decreases k,
{
    let after = parts_written(set, coeffs, width, height, total, order, Some(b), k)->Ok_0;
    if k <= 0 {
        lemma_nothing_kept_yet(after.kept, total as int);
    } else {
        lemma_parts_length(set, coeffs, width, height, total, order, b, k - 1);
        let w = parts_written(set, coeffs, width, height, total, order, Some(b), k - 1)->Ok_0;
        let i = order[k - 1];
        let used = stream_of(w.segments).len() as int;
        let reserve = reserve_of(w.kept, i as int);
        let left = left_of(b as int, used, reserve);
        lemma_missing_bound(w.kept.update(i as int, true), total as int);
        assert(0 <= left <= b);
        let s = part_segment(set, coeffs, width, height, i, total, Some(left as u64))->Ok_0;
        lemma_stream_push(w.segments, s);
        assert(segment_stream(s).len() >= 12) by {
            assert(segment_stream(s) == s.header.to_bytes() + packets_bytes(s.packets));
        }
    }
}

/// **A byte budget holds but for the headers.** The stream of a plane has at
/// most as many bytes as the budget and the headers of its segments together.
/// With one segment, with ranks, and where the image is segmented in the
/// transform domain, headers are not counted on top: the stream has at most as
/// many bytes as the larger of the two.
pub proof fn budgets_hold(
    set: Settings,
    ranks: Option<Vec<u16>>,
    plane: IcerPlane,
    width: usize,
    height: usize,
    b: u64,
)
    requires
        plane_segments(set, ranks, plane, width, height, Some(b)) is Ok,
    ensures
        ({
            let n = set.count();
            let length = stream_of(
                plane_segments(set, ranks, plane, width, height, Some(b))->Ok_0,
            ).len();
            &&& length <= b + 12 * n
            &&& n == 1 || ranks is Some || set.transform ==> length <= cap(b, n)
        }),
{
    let n = set.count();
    let segments = plane_segments(set, ranks, plane, width, height, Some(b))->Ok_0;
    if set.transform {
        orders_are_rankings(ranks, n);
        let order = emission_order(ranks, n)->Ok_0;
        let coeffs = crate::compress::coefficients(
            set,
            crate::strip::shifted_samples(plane, set.bits, width as int, 0, height as int),
            width,
            height,
        );
        lemma_parts_length(set, coeffs, width, height, n as u8, order, b, n);
        let w = parts_written(set, coeffs, width, height, n as u8, order, Some(b), n)->Ok_0;
        lemma_total(w, part_headers(set, width as int, height as int, n as u8), n);
    } else if n == 1 {
        let s = segments[0];
        assert(segments =~= Seq::<Segment>::empty().push(s));
        lemma_stream_push(Seq::<Segment>::empty(), s);
        lemma_empty_length(s.header);
    } else {
        let each = crate::partition::ceil_div(height as int, n);
        let headers = strip_headers(set, width as int, height as int, each, n);
        if ranks is None {
            lemma_strips_length(set, plane, width, height as int, each, n, b, n);
            let w = strips_written(
                set,
                plane,
                width,
                height as int,
                each,
                n,
                Some(b),
                n,
            )->Ok_0.0;
            lemma_total(w, headers, n);
        } else {
            orders_are_rankings(ranks, n);
            let order = emission_order(ranks, n)->Ok_0;
            let strips = all_strips(set, plane, width, height as int, each, Some(b), n)->Ok_0;
            lemma_strip_count(set, plane, width, height as int, each, b, n);
            lemma_ranked_length(strips, order, b, n, n);
            lemma_total(ranked_written(strips, order, Some(b), n), headers, n);
        }
    }
}

proof fn lemma_strip_count(
    set: Settings,
    plane: IcerPlane,
    width: usize,
    height: int,
    each: int,
    b: u64,
    k: int,
)
    requires
        0 <= k,
        all_strips(set, plane, width, height, each, Some(b), k) is Ok,
    ensures
        all_strips(set, plane, width, height, each, Some(b), k)->Ok_0.len() == k,
    decreases k,
{
    if k > 0 {
        lemma_strip_count(set, plane, width, height, each, b, k - 1);
    }
}

// ---------------------------------------------------------------------------
// Streams without a budget
// ---------------------------------------------------------------------------

/// Largest number of bytes of a segment: a header and the longest body that it
/// can announce.
pub const MAX_SEGMENT: u32 = 0x1_000B;

proof fn lemma_strip_bound(
    set: Settings,
    plane: IcerPlane,
    width: usize,
    y0: int,
    height: usize,
    index: u16,
    budget: Option<u64>,
)
    requires
        strip_segment(set, plane, width, y0, height, index, budget) is Ok,
    ensures
        segment_stream(strip_segment(set, plane, width, y0, height, index, budget)->Ok_0).len()
            <= MAX_SEGMENT,
{
    reveal(strip_segment);
    let rows = rows_of(plane, width * sample_size(set.bits), y0, height as int);
    let raw = strip_raw(set, rows, width as int, height as int, index);
    if raw is Ok {
        let p = raw->Ok_0.packets[0];
        assert(raw->Ok_0.packets =~= Seq::<Packet>::empty().push(p));
        assert(Seq::<Packet>::empty().push(p).drop_last() =~= Seq::<Packet>::empty());
        assert(packets_bytes(Seq::<Packet>::empty()) =~= Seq::empty());
        assert(packets_bytes(raw->Ok_0.packets) =~= p.header.to_bytes() + p.body);
    }
}

proof fn lemma_strips_bound(
    set: Settings,
    plane: IcerPlane,
    width: usize,
    height: int,
    each: int,
    n: int,
    budget: Option<u64>,
    k: int,
)
    requires
        0 <= k <= n,
        strips_written(set, plane, width, height, each, n, budget, k) is Ok,
    ensures
        ({
            let w = strips_written(set, plane, width, height, each, n, budget, k)->Ok_0.0;
            &&& w.kept.len() == n
            &&& stream_of(w.segments).len() <= MAX_SEGMENT * k
        }),
    decreases k,
{
    if k > 0 {
        lemma_strips_bound(set, plane, width, height, each, n, budget, k - 1);
        let (w, full) = strips_written(set, plane, width, height, each, n, budget, k - 1)->Ok_0;
        let used = stream_of(w.segments).len() as int;
        if !(full || (budget matches Some(b) && used >= b)) {
            let inner = match budget {
                Some(b) => Some(left_of(b as int, used, 12 * (n - k)) as u64),
                None => None,
            };
            let s = strip_at(set, plane, width, height, each, k - 1, inner)->Ok_0;
            lemma_strip_bound(
                set,
                plane,
                width,
                (k - 1) * each,
                strip_rows(height, each, k - 1) as usize,
                (k - 1) as u16,
                inner,
            );
            lemma_stream_push(w.segments, s);
        }
    }
}

proof fn lemma_all_strips_bound(
    set: Settings,
    plane: IcerPlane,
    width: usize,
    height: int,
    each: int,
    budget: Option<u64>,
    k: int,
)
    requires
        0 <= k,
        all_strips(set, plane, width, height, each, budget, k) is Ok,
    ensures
        all_strips(set, plane, width, height, each, budget, k)->Ok_0.len() == k,
        forall|i: int|
            0 <= i < k ==> segment_stream(
                #[trigger] all_strips(set, plane, width, height, each, budget, k)->Ok_0[i],
            ).len() <= MAX_SEGMENT,
    decreases k,
{
    if k > 0 {
        lemma_all_strips_bound(set, plane, width, height, each, budget, k - 1);
        lemma_strip_bound(
            set,
            plane,
            width,
            (k - 1) * each,
            strip_rows(height, each, k - 1) as usize,
            (k - 1) as u16,
            budget,
        );
        let all = all_strips(set, plane, width, height, each, budget, k)->Ok_0;
        let before = all_strips(set, plane, width, height, each, budget, k - 1)->Ok_0;
        assert forall|i: int| 0 <= i < k implies segment_stream(#[trigger] all[i]).len()
            <= MAX_SEGMENT by {
            if i < k - 1 {
                assert(all[i] == before[i]);
            }
        }
    }
}

proof fn lemma_ranked_bound(strips: Seq<Segment>, order: Seq<u16>, budget: Option<u64>, n: int, k: int)
    requires
        strips.len() == n,
        is_ranking(order, n),
        0 <= k <= n,
        forall|i: int| 0 <= i < n ==> segment_stream(#[trigger] strips[i]).len() <= MAX_SEGMENT,
    ensures
        ({
            let w = ranked_written(strips, order, budget, k);
            &&& w.kept.len() == n
            &&& stream_of(w.segments).len() <= MAX_SEGMENT * k
        }),
    decreases k,
{
    if k > 0 {
        lemma_ranked_bound(strips, order, budget, n, k - 1);
        let i = order[k - 1] as int;
        assert(0 <= i < n);
        assert(segment_stream(strips[i]).len() <= MAX_SEGMENT);
        lemma_stream_push(ranked_written(strips, order, budget, k - 1).segments, strips[i]);
    }
}

proof fn lemma_parts_bound(
    set: Settings,
    coeffs: Seq<i32>,
    width: usize,
    height: usize,
    total: u8,
    order: Seq<u16>,
    budget: Option<u64>,
    k: int,
)
    requires
        is_ranking(order, total as int),
        0 <= k <= total,
        parts_written(set, coeffs, width, height, total, order, budget, k) is Ok,
    ensures
        ({
            let w = parts_written(set, coeffs, width, height, total, order, budget, k)->Ok_0;
            &&& w.kept.len() == total
            &&& stream_of(w.segments).len() <= MAX_SEGMENT * k
        }),
    decreases k,
{
    if k > 0 {
        lemma_parts_bound(set, coeffs, width, height, total, order, budget, k - 1);
        let w = parts_written(set, coeffs, width, height, total, order, budget, k - 1)->Ok_0;
        let i = order[k - 1];
        let inner = match budget {
            Some(b) => Some(
                left_of(
                    b as int,
                    stream_of(w.segments).len() as int,
                    reserve_of(w.kept, i as int),
                ) as u64,
            ),
            None => None,
        };
        let s = part_segment(set, coeffs, width, height, i, total, inner)->Ok_0;
        assert(segment_stream(s).len() == 12 + packets_bytes(s.packets).len());
        lemma_stream_push(w.segments, s);
    }
}

/// **A stream has no more bytes than its segments can announce**, and a header
/// for each of them.
pub proof fn streams_are_bounded(
    set: Settings,
    ranks: Option<Vec<u16>>,
    plane: IcerPlane,
    width: usize,
    height: usize,
    budget: Option<u64>,
)
    requires
        plane_segments(set, ranks, plane, width, height, budget) is Ok,
    ensures
        stream_of(plane_segments(set, ranks, plane, width, height, budget)->Ok_0).len() <= (
        MAX_SEGMENT + 12) * set.count(),
{
    let n = set.count();
    let segments = plane_segments(set, ranks, plane, width, height, budget)->Ok_0;
    if set.transform {
        orders_are_rankings(ranks, n);
        let order = emission_order(ranks, n)->Ok_0;
        let coeffs = crate::compress::coefficients(
            set,
            crate::strip::shifted_samples(plane, set.bits, width as int, 0, height as int),
            width,
            height,
        );
        lemma_parts_bound(set, coeffs, width, height, n as u8, order, budget, n);
        let w = parts_written(set, coeffs, width, height, n as u8, order, budget, n)->Ok_0;
        lemma_total(w, part_headers(set, width as int, height as int, n as u8), n);
    } else if n == 1 {
        let s = segments[0];
        assert(segments =~= Seq::<Segment>::empty().push(s));
        lemma_stream_push(Seq::<Segment>::empty(), s);
        lemma_empty_length(s.header);
        lemma_strip_bound(set, plane, width, 0, height, 0, budget);
    } else {
        let each = crate::partition::ceil_div(height as int, n);
        let headers = strip_headers(set, width as int, height as int, each, n);
        if ranks is None {
            lemma_strips_bound(set, plane, width, height as int, each, n, budget, n);
            let w = strips_written(
                set,
                plane,
                width,
                height as int,
                each,
                n,
                budget,
                n,
            )->Ok_0.0;
            lemma_total(w, headers, n);
        } else {
            orders_are_rankings(ranks, n);
            let order = emission_order(ranks, n)->Ok_0;
            let strips = all_strips(set, plane, width, height as int, each, budget, n)->Ok_0;
            lemma_all_strips_bound(set, plane, width, height as int, each, budget, n);
            lemma_ranked_bound(strips, order, budget, n, n);
            lemma_total(ranked_written(strips, order, budget, n), headers, n);
        }
    }
}

// ---------------------------------------------------------------------------
// Images
// ---------------------------------------------------------------------------

/// The stream of plane `i` of an image with a budget.
proof fn lemma_plane_length(opts: &EncodeOptions, image: &IcerImage, i: int)
    requires
        opts.byte_budget is Some,
        0 <= i < image.planes@.len(),
        image_plane_stream(opts, usual_job(), image, i) is Ok,
    ensures
        image_plane_stream(opts, usual_job(), image, i)->Ok_0.len() <= inner_budget(
            image.pixel_format,
            opts.byte_budget,
        )->0 + 12 * opts.settings(opts.filter, 8).count(),
{
    reveal(plane_stream);
    let format = image.pixel_format;
    let plane = image.planes@[i];
    let (w, h) = (image.width as usize, image.height as usize);
    let filter = plane_filter(opts, Limits::Given, format, &plane, w, h)->Ok_0;
    let set = opts.settings(filter, depth_of_format(format));
    let b = inner_budget(format, opts.byte_budget)->0;
    budgets_hold(set, opts.segment_priorities, plane, w, h, b);
}

/// **A byte budget holds for gray images but for the headers**: 12 bytes for
/// each segment, and for deep samples the 9 bytes of the container where the
/// budget is smaller than that.
pub proof fn gray_budgets_hold(opts: &EncodeOptions, image: &IcerImage)
    requires
        image.pixel_format != IcerPixelFormat::Yuv444P,
        opts.byte_budget is Some,
        image_encoded(opts, usual_job(), image) is Ok,
    ensures
        ({
            let b = opts.byte_budget->0 as int;
            let cap = if image.pixel_format is GrayDeep && b < 9 {
                9
            } else {
                b
            };
            image_encoded(opts, usual_job(), image)->Ok_0.len() <= cap + 12 * opts.settings(
                opts.filter,
                8,
            ).count()
        }),
{
    reveal(image_encoded);
    let bytes = image_encoded(opts, usual_job(), image)->Ok_0;
    let streams = plane_streams(opts, usual_job(), image, 1)->Ok_0;
    reveal_with_fuel(plane_streams, 2);
    lemma_plane_length(opts, image, 0);
    let stream = image_plane_stream(opts, usual_job(), image, 0)->Ok_0;
    assert(streams =~= seq![stream]);
    if image.pixel_format is GrayDeep {
        reveal_with_fuel(length_table, 2);
        reveal_with_fuel(joined, 2);
        assert(streams.drop_last() =~= Seq::empty());
        assert(bytes == prefix_bytes(image.pixel_format) + length_table(streams) + joined(streams));
        assert(joined(streams).len() == stream.len());
        assert(length_table(streams).len() == 4);
    }
}

/// **In a colour image a byte budget holds for each plane**: the container has
/// at most 16 bytes more than three planes, each of which keeps the budget but
/// for 12 bytes for each of its segments.
pub proof fn colour_budgets_hold(opts: &EncodeOptions, image: &IcerImage)
    requires
        image.pixel_format == IcerPixelFormat::Yuv444P,
        opts.byte_budget is Some,
        image_encoded(opts, usual_job(), image) is Ok,
    ensures
        image_encoded(opts, usual_job(), image)->Ok_0.len() <= 16 + 3 * (opts.byte_budget->0 + 12
            * opts.settings(opts.filter, 8).count()),
{
    reveal(image_encoded);
    let bytes = image_encoded(opts, usual_job(), image)->Ok_0;
    let streams = plane_streams(opts, usual_job(), image, 3)->Ok_0;
    reveal_with_fuel(plane_streams, 4);
    lemma_plane_length(opts, image, 0);
    lemma_plane_length(opts, image, 1);
    lemma_plane_length(opts, image, 2);
    let (a, b, c) = (
        image_plane_stream(opts, usual_job(), image, 0)->Ok_0,
        image_plane_stream(opts, usual_job(), image, 1)->Ok_0,
        image_plane_stream(opts, usual_job(), image, 2)->Ok_0,
    );
    assert(streams =~= seq![a, b, c]);
    reveal_with_fuel(length_table, 4);
    reveal_with_fuel(joined, 4);
    assert(streams.drop_last() =~= seq![a, b]);
    assert(seq![a, b].drop_last() =~= seq![a]);
    assert(seq![a].drop_last() =~= Seq::empty());
    assert(bytes == prefix_bytes(image.pixel_format) + length_table(streams) + joined(streams));
    assert(joined(streams).len() == a.len() + b.len() + c.len());
    assert(length_table(streams).len() == 12);
}

} // verus!
