//! How the segments of a plane share a byte budget.

use crate::ample::{keeps_first, lemma_free_parts, lemma_free_strips, lemma_keep_next, lemma_keep_none, lemma_segment_length};
use crate::assemble::missing_of;
use crate::compress::{coefficients, Settings};
use crate::decoder::{depth_of_format, stream_segments, DecodeLimits};
use crate::emit::{packets_bytes, segment_stream, stream_of};
use crate::encoder::{as_stream, emission_order, image_encoded, image_ok, image_plane_stream, image_refused, inner_budget, is_ranking, plane_filter, plane_segments, plane_stream, plane_streams, strip_at, strip_headers, strip_rows, strips_written, EncodeOptions, Limits};
use crate::header::{segment_header, Segment, SegmentHeader};
use crate::image::{IcerImage, IcerPixelFormat, IcerPlane};
use crate::parts::{left_of, lemma_stream_push, part_headers, part_segment, parts_written, placeholders, reserve_of};
use crate::partition::ceil_div;
use crate::plane_container::{container_bytes, joined, length_table, parsed_streams, parsing_inverts_framing, some_oversized, starts_container};
use crate::roundtrip_image::{allows, planes_read_back, usual_job};
use crate::roundtrip_stream::orders_are_rankings;
use crate::runs::{lemma_fewer_bytes, parts_keep_the_longest_run, shortened, strips_keep_the_longest_run};
use crate::strip::shifted_samples;
use crate::survivors::stream_of_plane;
use vstd::prelude::*;

verus! {

/// What segment `k` of `n` may take of `b` bytes: what those before it leave
/// beside 12 bytes for each that follows.
pub open spec fn share_of(some: Seq<Segment>, n: int, b: int, k: int) -> int {
    b - stream_of(some.take(k)).len() - 12 * (n - 1 - k)
}

/// Segments are others, each up to the longest run of its packets that fits
/// into what those before it leave.
#[verifier::opaque]
pub open spec fn shares(some: Seq<Segment>, all: Seq<Segment>, n: int, b: int) -> bool {
    &&& some.len() == all.len()
    &&& forall|k: int|
        0 <= k < some.len() ==> shortened(#[trigger] some[k], all[k], share_of(some, n, b, k))
}

/// One more segment that takes its share.
proof fn lemma_share_push(
    some: Seq<Segment>,
    all: Seq<Segment>,
    n: int,
    b: int,
    s: Segment,
    t: Segment,
)
    requires
        shares(some, all, n, b),
        some.len() < n,
        shortened(s, t, b - stream_of(some).len() - 12 * (n - 1 - some.len())),
    ensures
        shares(some.push(s), all.push(t), n, b),
{
    reveal(shares);
    let more = some.push(s);
    assert forall|k: int| 0 <= k < more.len() implies shortened(
        #[trigger] more[k],
        all.push(t)[k],
        share_of(more, n, b, k),
    ) by {
        if k < some.len() {
            assert(more.take(k) =~= some.take(k));
            assert(shortened(some[k], all[k], share_of(some, n, b, k)));
        } else {
            assert(more.take(k) =~= some);
        }
    }
}

/// A segment that got at least a header's bytes keeps to them.
proof fn lemma_share_fits(s: Segment, t: Segment, b: int)
    requires
        shortened(s, t, b),
        12 <= b,
    ensures
        12 <= segment_stream(s).len() <= b,
{
    lemma_segment_length(s);
    if s.packets.len() == 0 {
        assert(packets_bytes(s.packets) =~= Seq::empty());
    }
}

/// Nothing stands for segments where all are kept.
pub proof fn lemma_none_missing(kept: Seq<bool>, headers: Seq<SegmentHeader>, n: int)
    requires
        0 <= n <= kept.len(),
        missing_of(kept, n) == 0,
    ensures
        placeholders(kept, headers, n) == Seq::<Segment>::empty(),
    decreases n,
{
    if n > 0 {
        crate::parts::lemma_missing_bound(kept, n - 1);
        lemma_none_missing(kept, headers, n - 1);
    }
}

proof fn lemma_all_kept(kept: Seq<bool>, n: int)
    requires
        0 <= n <= kept.len(),
        forall|i: int| 0 <= i < n ==> #[trigger] kept[i],
    ensures
        missing_of(kept, n) == 0,
    decreases n,
{
    if n > 0 {
        lemma_all_kept(kept, n - 1);
    }
}

/// Without a budget the first `k` strips are the first `k` segments.
proof fn lemma_free_kept(
    set: Settings,
    plane: IcerPlane,
    width: usize,
    height: int,
    each: int,
    n: int,
    k: int,
)
    requires
        0 <= k <= n,
        strips_written(set, plane, width, height, each, n, None, n) is Ok,
    ensures
        ({
            let r = strips_written(set, plane, width, height, each, n, None, k);
            &&& r is Ok
            &&& !r->Ok_0.1
            &&& r->Ok_0.0.segments.len() == k
            &&& r->Ok_0.0.kept.len() == n
            &&& forall|i: int| 0 <= i < k ==> #[trigger] r->Ok_0.0.kept[i]
        }),
    decreases k,
{
    lemma_free_strips(set, plane, width, height, each, n, k, n);
    if k > 0 {
        lemma_free_kept(set, plane, width, height, each, n, k - 1);
    }
}

proof fn lemma_strips_share(
    set: Settings,
    plane: IcerPlane,
    width: usize,
    height: int,
    each: int,
    n: int,
    b: u64,
    k: int,
)
    requires
        !set.rd_pruning,
        !set.fallback,
        !set.uncompressed,
        0 <= k <= n,
        12 * n <= b,
        strips_written(set, plane, width, height, each, n, None, n) is Ok,
    ensures
        ({
            let r = strips_written(set, plane, width, height, each, n, Some(b), k);
            let all = strips_written(set, plane, width, height, each, n, None, k)->Ok_0.0;
            &&& r is Ok
            &&& !r->Ok_0.1
            &&& r->Ok_0.0.kept.len() == n
            &&& forall|i: int| 0 <= i < k ==> #[trigger] r->Ok_0.0.kept[i]
            &&& r->Ok_0.0.segments.len() == k
            &&& stream_of(r->Ok_0.0.segments).len() + 12 * (n - k) <= b
            &&& shares(r->Ok_0.0.segments, all.segments, n, b as int)
        }),
    decreases k,
{
    lemma_free_kept(set, plane, width, height, each, n, k);
    if k > 0 {
        lemma_strips_share(set, plane, width, height, each, n, b, k - 1);
        lemma_free_kept(set, plane, width, height, each, n, k - 1);
        let all = strips_written(set, plane, width, height, each, n, None, k - 1)->Ok_0.0;
        let w = strips_written(set, plane, width, height, each, n, Some(b), k - 1)->Ok_0.0;
        let used = stream_of(w.segments).len() as int;
        let left = left_of(b as int, used, 12 * (n - k)) as u64;
        let t = strip_at(set, plane, width, height, each, k - 1, None)->Ok_0;
        strips_keep_the_longest_run(
            set,
            plane,
            width,
            (k - 1) * each,
            strip_rows(height, each, k - 1) as usize,
            (k - 1) as u16,
            left,
        );
        let s = strip_at(set, plane, width, height, each, k - 1, Some(left))->Ok_0;
        lemma_share_fits(s, t, left as int);
        lemma_stream_push(w.segments, s);
        lemma_share_push(w.segments, all.segments, n, b as int, s, t);
    } else {
        reveal(shares);
    }
}

proof fn lemma_parts_share(
    set: Settings,
    coeffs: Seq<i32>,
    width: usize,
    height: usize,
    total: u8,
    order: Seq<u16>,
    b: u64,
    k: int,
)
    requires
        is_ranking(order, total as int),
        0 <= k <= total,
        12 * total <= b,
        parts_written(set, coeffs, width, height, total, order, None, total as int) is Ok,
    ensures
        ({
            let r = parts_written(set, coeffs, width, height, total, order, Some(b), k);
            let all = parts_written(set, coeffs, width, height, total, order, None, k);
            &&& r is Ok
            &&& all is Ok
            &&& keeps_first(r->Ok_0.kept, order, total as int, k)
            &&& keeps_first(all->Ok_0.kept, order, total as int, k)
            &&& r->Ok_0.segments.len() == k
            &&& stream_of(r->Ok_0.segments).len() + 12 * (total - k) <= b
            &&& shares(r->Ok_0.segments, all->Ok_0.segments, total as int, b as int)
        }),
    decreases k,
{
    let n = total as int;
    lemma_free_parts(set, coeffs, width, height, total, order, k, n);
    lemma_free_parts(set, coeffs, width, height, total, order, k, k);
    if k > 0 {
        lemma_parts_share(set, coeffs, width, height, total, order, b, k - 1);
        let all = parts_written(set, coeffs, width, height, total, order, None, k - 1)->Ok_0;
        let w = parts_written(set, coeffs, width, height, total, order, Some(b), k - 1)->Ok_0;
        let i = order[k - 1];
        lemma_keep_next(w.kept, order, n, k - 1);
        let used = stream_of(w.segments).len() as int;
        let left = left_of(b as int, used, reserve_of(w.kept, i as int)) as u64;
        let t = part_segment(set, coeffs, width, height, i, total, None)->Ok_0;
        parts_keep_the_longest_run(set, coeffs, width, height, i, total, left);
        let s = part_segment(set, coeffs, width, height, i, total, Some(left))->Ok_0;
        lemma_share_fits(s, t, left as int);
        lemma_stream_push(w.segments, s);
        lemma_share_push(w.segments, all.segments, n, b as int, s, t);
    } else {
        reveal(shares);
        lemma_keep_none(order, n, n);
    }
}

/// **Segments share a budget from the first on.** Of a plane of which every
/// segment can be written without a budget, a budget that has room for their
/// headers leaves every segment, in the same order, and of each the longest run
/// of packets that fits into what the segments before it leave beside the
/// headers of those behind it. This holds of a single segment, of strips without
/// ranks, and of the parts of a transform with or without ranks.
pub proof fn segments_share_a_budget(
    set: Settings,
    ranks: Option<Vec<u16>>,
    plane: IcerPlane,
    width: usize,
    height: usize,
    b: u64,
)
    requires
        !set.rd_pruning,
        !set.fallback,
        !set.uncompressed,
        set.transform || ranks is None || set.segment_count <= 1,
        12 * set.segment_count <= b,
        12 <= b,
        plane_segments(set, ranks, plane, width, height, None) is Ok,
    ensures
        plane_segments(set, ranks, plane, width, height, Some(b)) is Ok,
        shares(
            plane_segments(set, ranks, plane, width, height, Some(b))->Ok_0,
            plane_segments(set, ranks, plane, width, height, None)->Ok_0,
            set.count(),
            b as int,
        ),
        plane_segments(set, ranks, plane, width, height, None)->Ok_0.len() == set.count(),
{
    reveal(shares);
    let n = set.count();
    let h = height as int;
    if set.transform {
        orders_are_rankings(ranks, n);
        let order = emission_order(ranks, n)->Ok_0;
        let coeffs = coefficients(
            set,
            shifted_samples(plane, set.bits, width as int, 0, h),
            width,
            height,
        );
        lemma_parts_share(set, coeffs, width, height, n as u8, order, b, n);
        let w = parts_written(set, coeffs, width, height, n as u8, order, Some(b), n)->Ok_0;
        let all = parts_written(set, coeffs, width, height, n as u8, order, None, n)->Ok_0;
        let headers = part_headers(set, width as int, h, n as u8);
        lemma_none_missing(w.kept, headers, n);
        lemma_none_missing(all.kept, headers, n);
        assert(w.segments + Seq::<Segment>::empty() =~= w.segments);
        assert(all.segments + Seq::<Segment>::empty() =~= all.segments);
    } else if n == 1 {
        strips_keep_the_longest_run(set, plane, width, 0, height, 0, b);
        let some = plane_segments(set, ranks, plane, width, height, Some(b))->Ok_0;
        let all = plane_segments(set, ranks, plane, width, height, None)->Ok_0;
        let s = crate::compress::strip_segment(set, plane, width, 0, height, 0, Some(b))->Ok_0;
        lemma_share_fits(s, all[0], b as int);
        assert(some[0] == s);
        assert(some.take(0) =~= Seq::<Segment>::empty());
    } else {
        let each = ceil_div(h, n);
        let headers = strip_headers(set, width as int, h, each, n);
        lemma_strips_share(set, plane, width, h, each, n, b, n);
        lemma_free_kept(set, plane, width, h, each, n, n);
        let w = strips_written(set, plane, width, h, each, n, Some(b), n)->Ok_0.0;
        let all = strips_written(set, plane, width, h, each, n, None, n)->Ok_0.0;
        lemma_all_kept(w.kept, n);
        lemma_all_kept(all.kept, n);
        lemma_none_missing(w.kept, headers, n);
        lemma_none_missing(all.kept, headers, n);
        assert(w.segments + Seq::<Segment>::empty() =~= w.segments);
        assert(all.segments + Seq::<Segment>::empty() =~= all.segments);
    }
}

// ---------------------------------------------------------------------------
// Images
// ---------------------------------------------------------------------------

/// What a byte budget leaves for the stream of a plane: deep gray samples take
/// 9 bytes for their container.
pub open spec fn plane_budget(format: IcerPixelFormat, b: u64) -> int {
    if format is GrayDeep {
        b - 9
    } else {
        b as int
    }
}

/// Options under which packets are written in their order as far as they fit.
pub open spec fn plainly_cut(opts: EncodeOptions) -> bool {
    &&& !opts.rd_pruning
    &&& !opts.auto_uncompressed_fallback
    &&& !opts.uncompressed
    &&& opts.quality_target is None
    &&& !opts.auto_filter || !opts.auto_filter_rd
    &&& opts.transform_segments || opts.segment_priorities is None || opts.segment_count <= 1
    &&& opts.sync_prefix != 0
}

/// The segments of one stream are those of another, each up to the longest run
/// of its packets that fits into what those before it leave.
pub open spec fn streams_share(
    some: Seq<u8>,
    all: Seq<u8>,
    limits: DecodeLimits,
    n: int,
    b: int,
) -> bool {
    &&& stream_segments(all, limits) is Ok
    &&& stream_segments(some, limits) is Ok
    &&& stream_segments(all, limits)->Ok_0.len() == n
    &&& shares(stream_segments(some, limits)->Ok_0, stream_segments(all, limits)->Ok_0, n, b)
}

proof fn lemma_plane_shares(
    opts: &EncodeOptions,
    free: &EncodeOptions,
    image: &IcerImage,
    limits: DecodeLimits,
    i: int,
)
    requires
        image_ok(*image),
        !image_refused(*image),
        plainly_cut(*opts),
        opts.byte_budget is Some,
        *free == (EncodeOptions { byte_budget: None, ..*opts }),
        12 * opts.segment_count <= plane_budget(image.pixel_format, opts.byte_budget->0),
        12 <= plane_budget(image.pixel_format, opts.byte_budget->0),
        allows(limits, *opts, *image),
        0 <= i < image.pixel_format.planes(),
        image_plane_stream(free, usual_job(), image, i) is Ok,
    ensures
        image_plane_stream(opts, usual_job(), image, i) is Ok,
        streams_share(
            image_plane_stream(opts, usual_job(), image, i)->Ok_0,
            image_plane_stream(free, usual_job(), image, i)->Ok_0,
            limits,
            opts.settings(opts.filter, 8).count(),
            plane_budget(image.pixel_format, opts.byte_budget->0),
        ),
        image_plane_stream(opts, usual_job(), image, i)->Ok_0.len() <= image_plane_stream(
            free,
            usual_job(),
            image,
            i,
        )->Ok_0.len(),
{
    let format = image.pixel_format;
    let plane = image.planes@[i];
    let (w, h) = (image.width as usize, image.height as usize);
    let filter = plane_filter(free, Limits::Given, format, &plane, w, h)->Ok_0;
    let set = opts.settings(filter, depth_of_format(format));
    let ranks = opts.segment_priorities;
    let b = plane_budget(format, opts.byte_budget->0) as u64;
    lemma_plane_streams(opts, free, image, i);
    segments_share_a_budget(set, ranks, plane, w, h, b);
    planes_read_back(set, ranks, plane, w, h, None, limits);
    planes_read_back(set, ranks, plane, w, h, Some(b), limits);
    let some = plane_segments(set, ranks, plane, w, h, Some(b))->Ok_0;
    let all = plane_segments(set, ranks, plane, w, h, None)->Ok_0;
    assert(some.len() == all.len()) by {
        reveal(shares);
    }
    lemma_shares_shorter(some, all, set.count(), b as int, some.len() as int);
    assert(some.take(some.len() as int) =~= some);
    assert(all.take(all.len() as int) =~= all);
}

/// The streams of a plane with and without a budget.
proof fn lemma_plane_streams(
    opts: &EncodeOptions,
    free: &EncodeOptions,
    image: &IcerImage,
    i: int,
)
    requires
        plainly_cut(*opts),
        opts.byte_budget is Some,
        *free == (EncodeOptions { byte_budget: None, ..*opts }),
        12 <= plane_budget(image.pixel_format, opts.byte_budget->0),
        image_plane_stream(free, usual_job(), image, i) is Ok,
    ensures
        ({
            let format = image.pixel_format;
            let plane = image.planes@[i];
            let (w, h) = (image.width as usize, image.height as usize);
            let filter = plane_filter(free, Limits::Given, format, &plane, w, h)->Ok_0;
            let set = opts.settings(filter, depth_of_format(format));
            let ranks = opts.segment_priorities;
            let b = plane_budget(format, opts.byte_budget->0) as u64;
            &&& image_plane_stream(free, usual_job(), image, i) == as_stream(
                plane_segments(set, ranks, plane, w, h, None),
            )
            &&& image_plane_stream(opts, usual_job(), image, i) == as_stream(
                plane_segments(set, ranks, plane, w, h, Some(b)),
            )
        }),
{
    reveal(plane_stream);
    let format = image.pixel_format;
    let plane = image.planes@[i];
    let (w, h) = (image.width as usize, image.height as usize);
    assert(plane_filter(opts, Limits::Given, format, &plane, w, h) == plane_filter(
        free,
        Limits::Given,
        format,
        &plane,
        w,
        h,
    ));
    let filter = plane_filter(free, Limits::Given, format, &plane, w, h)->Ok_0;
    assert(opts.settings(filter, depth_of_format(format)) == free.settings(
        filter,
        depth_of_format(format),
    ));
    let b = plane_budget(format, opts.byte_budget->0) as u64;
    assert(inner_budget(format, opts.byte_budget) == Some(b));
    assert(inner_budget(format, free.byte_budget) is None);
}

/// Segments that share a budget are no longer than the others.
proof fn lemma_shares_shorter(some: Seq<Segment>, all: Seq<Segment>, n: int, b: int, k: int)
    requires
        shares(some, all, n, b),
        0 <= k <= some.len(),
    ensures
        stream_of(some.take(k)).len() <= stream_of(all.take(k)).len(),
    decreases k,
{
    reveal(shares);
    if k > 0 {
        lemma_shares_shorter(some, all, n, b, k - 1);
        assert(shortened(some[k - 1], all[k - 1], share_of(some, n, b, k - 1)));
        assert(some.take(k) =~= some.take(k - 1).push(some[k - 1]));
        assert(all.take(k) =~= all.take(k - 1).push(all[k - 1]));
        lemma_stream_push(some.take(k - 1), some[k - 1]);
        lemma_stream_push(all.take(k - 1), all[k - 1]);
        lemma_segment_length(some[k - 1]);
        lemma_segment_length(all[k - 1]);
        lemma_fewer_bytes(all[k - 1].packets, some[k - 1].packets.len() as int);
    }
}

proof fn lemma_streams_share(
    opts: &EncodeOptions,
    free: &EncodeOptions,
    image: &IcerImage,
    limits: DecodeLimits,
    k: int,
)
    requires
        image_ok(*image),
        !image_refused(*image),
        plainly_cut(*opts),
        opts.byte_budget is Some,
        *free == (EncodeOptions { byte_budget: None, ..*opts }),
        12 * opts.segment_count <= plane_budget(image.pixel_format, opts.byte_budget->0),
        12 <= plane_budget(image.pixel_format, opts.byte_budget->0),
        allows(limits, *opts, *image),
        0 <= k <= image.pixel_format.planes(),
        plane_streams(free, usual_job(), image, k) is Ok,
    ensures
        plane_streams(opts, usual_job(), image, k) is Ok,
        plane_streams(opts, usual_job(), image, k)->Ok_0.len() == k,
        plane_streams(free, usual_job(), image, k)->Ok_0.len() == k,
        forall|i: int|
            0 <= i < k ==> ({
                let some = #[trigger] plane_streams(opts, usual_job(), image, k)->Ok_0[i];
                let all = plane_streams(free, usual_job(), image, k)->Ok_0[i];
                &&& streams_share(
                    some,
                    all,
                    limits,
                    opts.settings(opts.filter, 8).count(),
                    plane_budget(image.pixel_format, opts.byte_budget->0),
                )
                &&& some.len() <= all.len()
            }),
    decreases k,
{
    if k > 0 {
        lemma_streams_share(opts, free, image, limits, k - 1);
        lemma_plane_shares(opts, free, image, limits, k - 1);
    }
}

/// **A byte budget cuts an image down to the packets that fit.** Every plane of
/// the image that is encoded with a budget has the segments of the same plane
/// without one, each with the longest run of its packets that fits into what the
/// segments before it leave beside the headers of those behind it.
pub proof fn image_budgets_are_shared(
    opts: &EncodeOptions,
    free: &EncodeOptions,
    image: &IcerImage,
    limits: DecodeLimits,
    i: int,
)
    requires
        image_ok(*image),
        plainly_cut(*opts),
        opts.byte_budget is Some,
        *free == (EncodeOptions { byte_budget: None, ..*opts }),
        12 * opts.segment_count <= plane_budget(image.pixel_format, opts.byte_budget->0),
        12 <= plane_budget(image.pixel_format, opts.byte_budget->0),
        allows(limits, *opts, *image),
        0 <= i < image.pixel_format.planes(),
        image_encoded(free, usual_job(), image) is Ok,
        image_encoded(free, usual_job(), image)->Ok_0.len() <= usize::MAX,
    ensures
        image_encoded(opts, usual_job(), image) is Ok,
        streams_share(
            stream_of_plane(image_encoded(opts, usual_job(), image)->Ok_0, i),
            stream_of_plane(image_encoded(free, usual_job(), image)->Ok_0, i),
            limits,
            if opts.segment_count == 0 {
                1
            } else {
                opts.segment_count as int
            },
            plane_budget(image.pixel_format, opts.byte_budget->0),
        ),
{
    reveal(image_encoded);
    let format = image.pixel_format;
    let n = format.planes() as int;
    lemma_streams_share(opts, free, image, limits, n);
    let some = plane_streams(opts, usual_job(), image, n)->Ok_0;
    let all = plane_streams(free, usual_job(), image, n)->Ok_0;
    assert(some[i] == some[i]);
    if format == IcerPixelFormat::Gray8 {
        assert(i == 0);
        reveal(shares);
        lemma_no_container(some[0], limits);
        lemma_no_container(all[0], limits);
    } else {
        assert(!some_oversized(some)) by {
            assert forall|j: int| 0 <= j < some.len() implies #[trigger] some[j].len()
                <= u32::MAX by {
                assert(all[j].len() <= u32::MAX);
            }
        }
        lemma_joined_shorter(some, all, n);
        parsing_inverts_framing(format, some);
        parsing_inverts_framing(format, all);
        let (x, y) = (container_bytes(format, some), container_bytes(format, all));
        assert(parsed_streams(x)[i] == stream_of_plane(x, i));
        assert(parsed_streams(y)[i] == stream_of_plane(y, i));
    }
}

/// A stream with a segment is no container.
proof fn lemma_no_container(bytes: Seq<u8>, limits: DecodeLimits)
    requires
        stream_segments(bytes, limits) is Ok,
        stream_segments(bytes, limits)->Ok_0.len() > 0,
    ensures
        !starts_container(bytes),
{
    assert(bytes.skip(0) =~= bytes);
    assert(segment_header(bytes) is Ok);
}

/// Shorter streams make shorter containers.
proof fn lemma_joined_shorter(some: Seq<Seq<u8>>, all: Seq<Seq<u8>>, k: int)
    requires
        some.len() == all.len() == k,
        forall|i: int| 0 <= i < k ==> #[trigger] some[i].len() <= all[i].len(),
    ensures
        joined(some).len() <= joined(all).len(),
        length_table(some).len() == length_table(all).len(),
    decreases k,
{
    if k > 0 {
        let (x, y) = (some.drop_last(), all.drop_last());
        assert forall|i: int| 0 <= i < k - 1 implies #[trigger] x[i].len() <= y[i].len() by {
            assert(some[i].len() <= all[i].len());
        }
        lemma_joined_shorter(x, y, k - 1);
        assert(some[k - 1].len() <= all[k - 1].len());
    }
}

} // verus!
