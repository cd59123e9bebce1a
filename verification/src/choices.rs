//! What the options of an encoder change in the bytes of an image.

use crate::ample::lemma_segment_length;
use crate::analyze::{recommended, stats_of};
use crate::assemble::{plane_decoded, strips_data};
use crate::bitplane::Coded;
use crate::choosing::chosen_strips_are_never_worse;
use crate::compress::{choosing, coded_packets_of, coded_selection, coefficients, lowest_bit, packets_chosen, planes_for, strip_compressed, strip_segment, Settings};
use crate::decoder::{by_index, depth_of_format, ordering_permutes, stream_segments, DecodeLimits};
use crate::emit::{packets_bytes, planes_emitted, segment_stream, Quota};
use crate::encoder::{as_stream, filter_outcomes, image_encoded, image_ok, image_plane_stream, image_refused, inner_budget, pick_is_shortest, picked, plane_filter, plane_outcomes, plane_segments, plane_stream, plane_streams, EncodeOptions, Job, Limits};
use crate::error::Fault;
use crate::header::{Segment, WaveletFilter};
use crate::image::{IcerImage, IcerPixelFormat, IcerPlane};
use crate::pieces::{ended, headers_say_how, lemma_segment_count, ranked_strips_fit_or_are_left_out, raw_samples_stand_in_where_shorter, segments_come_by_rank, targets_end_segments, untargeted, written_or_left_out};
use crate::plane_container::{container_bytes, parsed_streams, parsing_inverts_framing, starts_container};
use crate::quality::words_error;
use crate::roundtrip::in_range;
use crate::roundtrip_image::{allows, planes_read_back, usual_job};
use crate::runs::shortened;
use crate::sharing::plane_budget;
use crate::strip::{shifted_samples, strip_decoded};
use crate::survivors::stream_of_plane;
use vstd::prelude::*;

verus! {

/// The segments of plane `i` in the bytes of an image.
pub open spec fn segments_of(bytes: Seq<u8>, i: int, limits: DecodeLimits) -> Seq<Segment> {
    stream_segments(stream_of_plane(bytes, i), limits)->Ok_0
}

/// The filter of plane `i` of an image.
#[verifier::opaque]
spec fn filter_of(opts: &EncodeOptions, image: &IcerImage, i: int) -> WaveletFilter {
    plane_filter(
        opts,
        Limits::Given,
        image.pixel_format,
        &image.planes@[i],
        image.width as usize,
        image.height as usize,
    )->Ok_0
}

/// Filters that are not found by trial rest on the samples alone.
proof fn lemma_same_filter(opts: &EncodeOptions, other: &EncodeOptions, image: &IcerImage, i: int)
    requires
        !opts.auto_filter || !opts.auto_filter_rd,
        other.auto_filter == opts.auto_filter,
        other.auto_filter_rd == opts.auto_filter_rd,
        other.filter == opts.filter,
        !opts.auto_filter || other.uncompressed == opts.uncompressed,
    ensures
        filter_of(opts, image, i) == filter_of(other, image, i),
        !opts.auto_filter ==> filter_of(opts, image, i) == opts.filter,
{
    reveal(filter_of);
}

/// The segments of plane `i` of an image.
spec fn segments_for(opts: &EncodeOptions, image: &IcerImage, i: int) -> core::result::Result<
    Seq<Segment>,
    Fault,
> {
    plane_segments(
        opts.settings(filter_of(opts, image, i), depth_of_format(image.pixel_format)),
        opts.segment_priorities,
        image.planes@[i],
        image.width as usize,
        image.height as usize,
        inner_budget(image.pixel_format, opts.byte_budget),
    )
}

proof fn lemma_stream_for(opts: &EncodeOptions, image: &IcerImage, i: int)
    requires
        opts.quality_target is None || opts.uncompressed,
        image_plane_stream(opts, usual_job(), image, i) is Ok,
    ensures
        image_plane_stream(opts, usual_job(), image, i) == as_stream(segments_for(opts, image, i)),
        segments_for(opts, image, i) is Ok,
{
    reveal(plane_stream);
    reveal(filter_of);
}

proof fn lemma_streams_until(opts: &EncodeOptions, image: &IcerImage, i: int, k: int)
    requires
        0 <= i < k,
        plane_streams(opts, usual_job(), image, k) is Ok,
    ensures
        plane_streams(opts, usual_job(), image, k)->Ok_0.len() == k,
        image_plane_stream(opts, usual_job(), image, i) == Ok::<Seq<u8>, Fault>(
            plane_streams(opts, usual_job(), image, k)->Ok_0[i],
        ),
    decreases k,
{
    if i < k - 1 {
        lemma_streams_until(opts, image, i, k - 1);
    } else if k > 1 {
        lemma_streams_until(opts, image, k - 2, k - 1);
    }
}

/// The streams of the planes are found in the bytes of an image.
proof fn lemma_plane_found(opts: &EncodeOptions, image: &IcerImage, i: int)
    requires
        0 <= i < image.pixel_format.planes(),
        image_encoded(opts, usual_job(), image) is Ok,
        image_encoded(opts, usual_job(), image)->Ok_0.len() <= usize::MAX,
        image_plane_stream(opts, usual_job(), image, i) is Ok ==> !starts_container(
            image_plane_stream(opts, usual_job(), image, i)->Ok_0,
        ),
    ensures
        image_plane_stream(opts, usual_job(), image, i) == Ok::<Seq<u8>, Fault>(
            stream_of_plane(image_encoded(opts, usual_job(), image)->Ok_0, i),
        ),
        !image_refused(*image),
{
    reveal(image_encoded);
    let format = image.pixel_format;
    let n = format.planes() as int;
    let streams = plane_streams(opts, usual_job(), image, n)->Ok_0;
    lemma_streams_until(opts, image, i, n);
    if format != IcerPixelFormat::Gray8 {
        parsing_inverts_framing(format, streams);
        let x = container_bytes(format, streams);
        assert(parsed_streams(x)[i] == stream_of_plane(x, i));
    }
}

/// The segments of the planes are found in the bytes of an image.
proof fn lemma_found(opts: &EncodeOptions, image: &IcerImage, limits: DecodeLimits, i: int)
    requires
        image_ok(*image),
        opts.sync_prefix != 0,
        opts.quality_target is None || opts.uncompressed,
        allows(limits, *opts, *image),
        0 <= i < image.pixel_format.planes(),
        image_encoded(opts, usual_job(), image) is Ok,
        image_encoded(opts, usual_job(), image)->Ok_0.len() <= usize::MAX,
    ensures
        segments_for(opts, image, i) == Ok::<Seq<Segment>, Fault>(
            segments_of(image_encoded(opts, usual_job(), image)->Ok_0, i, limits),
        ),
{
    reveal(image_encoded);
    let n = image.pixel_format.planes() as int;
    lemma_streams_until(opts, image, i, n);
    lemma_stream_for(opts, image, i);
    let bits = depth_of_format(image.pixel_format);
    let set = opts.settings(filter_of(opts, image, i), bits);
    let (w, h) = (image.width as usize, image.height as usize);
    let budget = inner_budget(image.pixel_format, opts.byte_budget);
    planes_read_back(
        set,
        opts.segment_priorities,
        image.planes@[i],
        w,
        h,
        budget,
        limits,
    );
    let stream = image_plane_stream(opts, usual_job(), image, i)->Ok_0;
    crate::roundtrip_image::streams_are_told_apart(stream, set.bits, limits);
    lemma_plane_found(opts, image, i);
}

// ---------------------------------------------------------------------------
// Soft targets
// ---------------------------------------------------------------------------

/// **A soft target ends every segment of an image when it is reached.** Each
/// plane has the segments that it has without a target, each with its packets up
/// to the one, or the bit plane, with which it reaches the target.
pub proof fn image_targets_end_segments(
    opts: &EncodeOptions,
    free: &EncodeOptions,
    image: &IcerImage,
    limits: DecodeLimits,
    i: int,
)
    requires
        image_ok(*image),
        opts.sync_prefix != 0,
        opts.target_bytes is Some,
        opts.byte_budget is None,
        opts.quality_target is None,
        !opts.rd_pruning,
        !opts.auto_uncompressed_fallback,
        !opts.uncompressed,
        !opts.auto_filter || !opts.auto_filter_rd,
        *free == (EncodeOptions { target_bytes: None, ..*opts }),
        allows(limits, *opts, *image),
        0 <= i < image.pixel_format.planes(),
        image_encoded(opts, usual_job(), image) is Ok,
        image_encoded(opts, usual_job(), image)->Ok_0.len() <= usize::MAX,
        image_encoded(free, usual_job(), image) is Ok,
        image_encoded(free, usual_job(), image)->Ok_0.len() <= usize::MAX,
    ensures
        ({
            let some = segments_of(image_encoded(opts, usual_job(), image)->Ok_0, i, limits);
            let all = segments_of(image_encoded(free, usual_job(), image)->Ok_0, i, limits);
            &&& some.len() == all.len()
            &&& forall|k: int|
                0 <= k < all.len() ==> ended(
                    #[trigger] some[k],
                    all[k],
                    opts.target_bytes->0 as int,
                )
        }),
{
    lemma_found(opts, image, limits, i);
    lemma_found(free, image, limits, i);
    let bits = depth_of_format(image.pixel_format);
    lemma_same_filter(opts, free, image, i);
    let set = opts.settings(filter_of(opts, image, i), bits);
    assert(free.settings(filter_of(free, image, i), bits) == untargeted(set));
    targets_end_segments(
        set,
        opts.segment_priorities,
        image.planes@[i],
        image.width as usize,
        image.height as usize,
    );
}

// ---------------------------------------------------------------------------
// Raw samples that stand in
// ---------------------------------------------------------------------------

/// **In an image raw samples stand in for exactly the segments that are longer
/// than they are.** Where they may, the segments of each plane are those of the
/// compressed image, but where the one of the raw image has fewer bytes it stands
/// in their place.
pub proof fn image_raw_samples_stand_in(
    opts: &EncodeOptions,
    small: &EncodeOptions,
    raw: &EncodeOptions,
    image: &IcerImage,
    limits: DecodeLimits,
    i: int,
)
    requires
        image_ok(*image),
        opts.sync_prefix != 0,
        opts.auto_uncompressed_fallback,
        opts.byte_budget is None,
        opts.quality_target is None,
        !opts.rd_pruning,
        !opts.uncompressed,
        !opts.auto_filter,
        *small == (EncodeOptions { auto_uncompressed_fallback: false, ..*opts }),
        *raw == (EncodeOptions {
            auto_uncompressed_fallback: false,
            uncompressed: true,
            ..*opts
        }),
        allows(limits, *opts, *image),
        0 <= i < image.pixel_format.planes(),
        image_encoded(opts, usual_job(), image) is Ok,
        image_encoded(opts, usual_job(), image)->Ok_0.len() <= usize::MAX,
        image_encoded(small, usual_job(), image) is Ok,
        image_encoded(small, usual_job(), image)->Ok_0.len() <= usize::MAX,
        image_encoded(raw, usual_job(), image) is Ok,
        image_encoded(raw, usual_job(), image)->Ok_0.len() <= usize::MAX,
    ensures
        ({
            let out = segments_of(image_encoded(opts, usual_job(), image)->Ok_0, i, limits);
            let a = segments_of(image_encoded(small, usual_job(), image)->Ok_0, i, limits);
            let c = segments_of(image_encoded(raw, usual_job(), image)->Ok_0, i, limits);
            &&& out.len() == a.len() == c.len()
            &&& forall|k: int|
                0 <= k < out.len() ==> #[trigger] out[k] == (if segment_stream(c[k]).len()
                    < segment_stream(a[k]).len() {
                    c[k]
                } else {
                    a[k]
                })
        }),
{
    lemma_found(opts, image, limits, i);
    lemma_found(small, image, limits, i);
    lemma_found(raw, image, limits, i);
    let bits = depth_of_format(image.pixel_format);
    lemma_same_filter(opts, small, image, i);
    lemma_same_filter(opts, raw, image, i);
    let set = opts.settings(opts.filter, bits);
    assert(small.settings(opts.filter, bits) == (Settings {
        fallback: false,
        uncompressed: false,
        ..set
    }));
    assert(raw.settings(opts.filter, bits) == (Settings {
        fallback: false,
        uncompressed: true,
        ..set
    }));
    raw_samples_stand_in_where_shorter(
        set,
        opts.segment_priorities,
        image.planes@[i],
        image.width as usize,
        image.height as usize,
    );
}

// ---------------------------------------------------------------------------
// Filters that are tried
// ---------------------------------------------------------------------------

/// **A filter that is found by trial gives the shortest stream.** Where the
/// options ask for it, the stream of each plane is that of the 5/3 filter or that
/// of the 9/7 filter A, whichever is shorter, and the former where both are of
/// one length.
pub proof fn tried_filters_give_the_shortest(
    opts: &EncodeOptions,
    first: &EncodeOptions,
    second: &EncodeOptions,
    image: &IcerImage,
    i: int,
)
    requires
        opts.auto_filter,
        opts.auto_filter_rd,
        !opts.uncompressed,
        *first == (EncodeOptions {
            auto_filter: false,
            filter: WaveletFilter::Reversible53,
            ..*opts
        }),
        *second == (EncodeOptions {
            auto_filter: false,
            filter: WaveletFilter::NineSevenA,
            ..*opts
        }),
    ensures
        image_plane_stream(opts, usual_job(), image, i) == (match (
            image_plane_stream(first, usual_job(), image, i),
            image_plane_stream(second, usual_job(), image, i),
        ) {
            (Ok(x), Ok(y)) => if y.len() < x.len() {
                Ok::<Seq<u8>, Fault>(y)
            } else {
                Ok::<Seq<u8>, Fault>(x)
            },
            (Ok(x), Err(_)) => Ok::<Seq<u8>, Fault>(x),
            (Err(_), r) => r,
        }),
{
    let format = image.pixel_format;
    let plane = &image.planes@[i];
    let (w, h) = (image.width as usize, image.height as usize);
    let outcomes = plane_outcomes(opts, Limits::Given, format, plane, w, h);
    lemma_same_stream(opts, first, image, i, WaveletFilter::Reversible53);
    lemma_same_stream(opts, second, image, i, WaveletFilter::NineSevenA);
    assert(outcomes[0] == image_plane_stream(first, usual_job(), image, i));
    assert(outcomes[1] == image_plane_stream(second, usual_job(), image, i));
    pick_is_shortest(outcomes, 2);
}

/// With a given filter it does not matter whether another was asked for.
proof fn lemma_same_stream(
    opts: &EncodeOptions,
    other: &EncodeOptions,
    image: &IcerImage,
    i: int,
    filter: WaveletFilter,
)
    requires
        *other == (EncodeOptions { auto_filter: false, filter, ..*opts }),
    ensures
        plane_stream(
            opts,
            filter,
            Limits::Given,
            image.pixel_format,
            &image.planes@[i],
            image.width as usize,
            image.height as usize,
        ) == image_plane_stream(other, usual_job(), image, i),
{
    reveal(plane_stream);
    let bits = depth_of_format(image.pixel_format);
    assert(opts.settings(filter, bits) == other.settings(filter, bits));
}

/// The bytes of an image with a filter, whatever filter its options have.
pub open spec fn with_filter(opts: &EncodeOptions, image: &IcerImage, filter: WaveletFilter) -> core::result::Result<
    Seq<u8>,
    Fault,
> {
    image_encoded(opts, Job { filter: Some(filter), limits: Limits::Given }, image)
}

/// **The filter that is picked from candidates gives the shortest bytes of an
/// image**, and the first of those that do. There is none only where no candidate
/// can encode the image.
pub proof fn picked_filters_give_the_shortest(
    opts: &EncodeOptions,
    image: &IcerImage,
    candidates: Seq<WaveletFilter>,
    k: int,
)
    requires
        0 <= k < candidates.len(),
    ensures
        match picked(filter_outcomes(opts, image, candidates)) {
            Err(_) => with_filter(opts, image, candidates[k]) is Err,
            Ok((i, n)) => {
                &&& 0 <= i < candidates.len()
                &&& with_filter(opts, image, candidates[i]) is Ok
                &&& with_filter(opts, image, candidates[i])->Ok_0.len() == n
                &&& with_filter(opts, image, candidates[k]) matches Ok(bytes) ==> n <= bytes.len()
                    && (k < i ==> n < bytes.len())
            },
        },
{
    let outcomes = filter_outcomes(opts, image, candidates);
    pick_is_shortest(outcomes, candidates.len() as int);
    assert(outcomes[k] == with_filter(opts, image, candidates[k]));
    if picked(outcomes) is Ok {
        let i = picked(outcomes)->Ok_0.0;
        assert(outcomes[i] == with_filter(opts, image, candidates[i]));
    }
}

/// **To encode an image with a filter is to encode it with options that name
/// that filter.**
pub proof fn filters_are_those_of_options(
    opts: &EncodeOptions,
    other: &EncodeOptions,
    image: &IcerImage,
    filter: WaveletFilter,
)
    requires
        *other == (EncodeOptions { auto_filter: false, filter, ..*opts }),
    ensures
        with_filter(opts, image, filter) == image_encoded(other, usual_job(), image),
{
    reveal(image_encoded);
    lemma_same_streams(opts, other, image, filter, image.pixel_format.planes() as int);
}

proof fn lemma_same_streams(
    opts: &EncodeOptions,
    other: &EncodeOptions,
    image: &IcerImage,
    filter: WaveletFilter,
    k: int,
)
    requires
        *other == (EncodeOptions { auto_filter: false, filter, ..*opts }),
    ensures
        plane_streams(opts, Job { filter: Some(filter), limits: Limits::Given }, image, k)
            == plane_streams(other, usual_job(), image, k),
    decreases k,
{
    if k > 0 {
        lemma_same_streams(opts, other, image, filter, k - 1);
        lemma_same_stream(opts, other, image, k - 1, filter);
    }
}

// ---------------------------------------------------------------------------
// Ranks under a budget
// ---------------------------------------------------------------------------

/// **Ranked strips of an image are written as far as they fit.** From the lowest
/// rank on, each strip of a plane is written with the longest run of its packets
/// that fits into the whole budget, if that fits behind the strips before it that
/// are written and beside the headers of the others. Where it does not, an empty
/// segment stands for it.
pub proof fn image_ranked_strips_fit(
    opts: &EncodeOptions,
    free: &EncodeOptions,
    image: &IcerImage,
    limits: DecodeLimits,
    i: int,
    k: int,
) -> (r: (Segment, int))
    requires
        image_ok(*image),
        opts.sync_prefix != 0,
        opts.byte_budget is Some,
        opts.segment_priorities is Some,
        2 <= opts.segment_count,
        opts.quality_target is None,
        !opts.transform_segments,
        !opts.rd_pruning,
        !opts.auto_uncompressed_fallback,
        !opts.uncompressed,
        !opts.auto_filter || !opts.auto_filter_rd,
        *free == (EncodeOptions { byte_budget: None, ..*opts }),
        allows(limits, *opts, *image),
        0 <= i < image.pixel_format.planes(),
        9 <= opts.byte_budget->0,
        image_encoded(opts, usual_job(), image) is Ok,
        image_encoded(opts, usual_job(), image)->Ok_0.len() <= usize::MAX,
        image_encoded(free, usual_job(), image) is Ok,
        image_encoded(free, usual_job(), image)->Ok_0.len() <= usize::MAX,
        0 <= k < opts.segment_count,
    ensures
        ({
            let out = segments_of(image_encoded(opts, usual_job(), image)->Ok_0, i, limits);
            let all = segments_of(image_encoded(free, usual_job(), image)->Ok_0, i, limits);
            let b = plane_budget(image.pixel_format, opts.byte_budget->0);
            &&& all.len() == opts.segment_count
            &&& opts.segment_priorities->0@[all[k].header.segment_index as int] == k
            &&& shortened(r.0, all[k], b)
            &&& written_or_left_out(out, all, k, r.0, r.1, b)
        }),
{
    lemma_found(opts, image, limits, i);
    lemma_found(free, image, limits, i);
    let bits = depth_of_format(image.pixel_format);
    lemma_same_filter(opts, free, image, i);
    let set = opts.settings(filter_of(opts, image, i), bits);
    assert(free.settings(filter_of(free, image, i), bits) == set);
    let b = plane_budget(image.pixel_format, opts.byte_budget->0) as u64;
    assert(inner_budget(image.pixel_format, opts.byte_budget) == Some(b));
    ranked_strips_fit_or_are_left_out(
        set,
        opts.segment_priorities,
        image.planes@[i],
        image.width as usize,
        image.height as usize,
        b,
        k,
    )
}

// ---------------------------------------------------------------------------
// Packets that are chosen by what they promise
// ---------------------------------------------------------------------------

/// Packets that are chosen keep to a budget.
proof fn lemma_chosen_fit(packets: Seq<Coded>, q: u8, min_loss: u8, b: u64, floor: u8, chosen: Option<Seq<bool>>, s: int)
    requires
        planes_emitted(
            packets,
            q,
            min_loss,
            Quota { budget: Some(b), target: None },
            floor,
            chosen,
            s,
        ) is Ok,
    ensures
        ({
            let list = planes_emitted(
                packets,
                q,
                min_loss,
                Quota { budget: Some(b), target: None },
                floor,
                chosen,
                s,
            )->Ok_0.packets;
            list.len() == 0 || 12 + packets_bytes(list).len() <= b
        }),
    decreases s,
{
    if s > 0 {
        lemma_chosen_fit(packets, q, min_loss, b, floor, chosen, s - 1);
    }
}

/// A strip keeps to a budget that has room for a header.
proof fn lemma_strip_fits(
    set: Settings,
    plane: IcerPlane,
    width: usize,
    height: usize,
    b: u64,
)
    requires
        !set.priority,
        !set.uncompressed,
        !set.fallback,
        set.target is None,
        12 <= b,
        strip_segment(set, plane, width, 0, height, 0, Some(b)) is Ok,
    ensures
        ({
            let s = strip_segment(set, plane, width, 0, height, 0, Some(b))->Ok_0;
            let samples = shifted_samples(plane, set.bits, width as int, 0, height as int);
            &&& segment_stream(s).len() <= b
            &&& strip_compressed(set, samples, width, height, 0, Some(b)) == Ok::<Segment, Fault>(s)
        }),
{
    reveal(strip_segment);
    let s = strip_segment(set, plane, width, 0, height, 0, Some(b))->Ok_0;
    let samples = shifted_samples(plane, set.bits, width as int, 0, height as int);
    let g = crate::scan::Grid { width, height, levels: set.levels };
    let coeffs = coefficients(set, samples, width, height);
    let q = planes_for(set, coeffs);
    let f = coded_selection(set, g, None, None);
    let packets = coded_packets_of(set, g, coeffs, f, q);
    let floor = lowest_bit(f, g.area());
    let chosen = if choosing(set, Some(b)) {
        Some(packets_chosen(set, samples, coeffs, packets, width, height, q, b))
    } else {
        None
    };
    lemma_chosen_fit(packets, q, set.min_loss, b, floor, chosen, 2 * q);
    lemma_segment_length(s);
    if s.packets.len() == 0 {
        assert(packets_bytes(s.packets) =~= Seq::empty());
    }
}

/// A plane of one segment decodes to what the segment does.
proof fn lemma_single_decoded(bytes: Seq<u8>, s: Segment, bits: u8, limits: DecodeLimits)
    requires
        stream_segments(bytes, limits) == Ok::<Seq<Segment>, Fault>(seq![s]),
        plane_decoded(bytes, bits, limits) is Ok,
        !s.header.transform_segmented,
    ensures
        strip_decoded(s, bits) == Ok::<Seq<u8>, Fault>(
            plane_decoded(bytes, bits, limits)->Ok_0.data,
        ),
{
    ordering_permutes(seq![s]);
    let t = by_index(seq![s]);
    assert(t =~= seq![s]) by {
        broadcast use vstd::seq_lib::group_to_multiset_ensures;

        assert(t.contains(t[0]));
        assert(seq![s].to_multiset().count(t[0]) > 0);
        assert(seq![s].contains(t[0]));
    }
    reveal_with_fuel(strips_data, 2);
    let data = strip_decoded(s, bits)->Ok_0;
    assert(Seq::<u8>::empty() + data =~= data);
}

/// A plane of one segment under a budget decodes to what that segment does.
proof fn lemma_single_segment(
    set: Settings,
    ranks: Option<Vec<u16>>,
    plane: IcerPlane,
    width: usize,
    height: usize,
    b: u64,
    bytes: Seq<u8>,
    limits: DecodeLimits,
) -> (s: Segment)
    requires
        !set.priority,
        !set.uncompressed,
        !set.fallback,
        !set.transform,
        set.target is None,
        set.segment_count <= 1,
        12 <= b,
        stream_segments(bytes, limits) == plane_segments(set, ranks, plane, width, height, Some(b)),
        plane_decoded(bytes, set.bits, limits) is Ok,
    ensures
        strip_compressed(
            set,
            shifted_samples(plane, set.bits, width as int, 0, height as int),
            width,
            height,
            0,
            Some(b),
        ) == Ok::<Segment, Fault>(s),
        strip_decoded(s, set.bits) == Ok::<Seq<u8>, Fault>(
            plane_decoded(bytes, set.bits, limits)->Ok_0.data,
        ),
{
    let s = strip_segment(set, plane, width, 0, height, 0, Some(b))->Ok_0;
    lemma_strip_fits(set, plane, width, height, b);
    assert(stream_segments(bytes, limits) == Ok::<Seq<Segment>, Fault>(seq![s]));
    lemma_single_decoded(bytes, s, set.bits, limits);
    s
}

/// A stream decodes to `n` samples with no larger squared error than another.
#[verifier::opaque]
pub open spec fn no_worse(
    samples: Seq<i32>,
    bits: u8,
    n: int,
    a: Seq<u8>,
    c: Seq<u8>,
    limits: DecodeLimits,
) -> bool {
    match (plane_decoded(a, bits, limits), plane_decoded(c, bits, limits)) {
        (Ok(x), Ok(y)) => words_error(samples, x.data, bits, n) <= words_error(
            samples,
            y.data,
            bits,
            n,
        ),
        _ => false,
    }
}

/// **An image whose packets are chosen by what they promise is never worse than
/// one whose packets are written in their order as far as they fit**: with the
/// same budget each of its planes decodes with no larger squared error.
pub proof fn chosen_images_are_never_worse(
    opts: &EncodeOptions,
    plain: &EncodeOptions,
    image: &IcerImage,
    limits: DecodeLimits,
    i: int,
)
    requires
        image_ok(*image),
        opts.sync_prefix != 0,
        opts.byte_budget is Some,
        opts.rd_pruning,
        opts.target_bytes is None,
        opts.quality_target is None,
        opts.segment_count <= 1,
        !opts.auto_uncompressed_fallback,
        !opts.uncompressed,
        !opts.auto_filter || !opts.auto_filter_rd,
        *plain == (EncodeOptions { rd_pruning: false, ..*opts }),
        allows(limits, *opts, *image),
        0 <= i < image.pixel_format.planes(),
        12 <= plane_budget(image.pixel_format, opts.byte_budget->0),
        in_range(
            shifted_samples(
                image.planes@[i],
                depth_of_format(image.pixel_format),
                image.width as int,
                0,
                image.height as int,
            ),
            depth_of_format(image.pixel_format),
        ),
        image_encoded(opts, usual_job(), image) is Ok,
        image_encoded(opts, usual_job(), image)->Ok_0.len() <= usize::MAX,
        image_encoded(plain, usual_job(), image) is Ok,
        image_encoded(plain, usual_job(), image)->Ok_0.len() <= usize::MAX,
    ensures
        no_worse(
            shifted_samples(
                image.planes@[i],
                depth_of_format(image.pixel_format),
                image.width as int,
                0,
                image.height as int,
            ),
            depth_of_format(image.pixel_format),
            image.width * image.height,
            stream_of_plane(image_encoded(opts, usual_job(), image)->Ok_0, i),
            stream_of_plane(image_encoded(plain, usual_job(), image)->Ok_0, i),
            limits,
        ),
{
    let a = stream_of_plane(image_encoded(opts, usual_job(), image)->Ok_0, i);
    let c = stream_of_plane(image_encoded(plain, usual_job(), image)->Ok_0, i);
    let filter = filter_of(opts, image, i);
    lemma_same_filter(opts, plain, image, i);
    lemma_found_under(opts, image, limits, i, filter);
    lemma_found_under(plain, image, limits, i, filter);
    let set = opts.settings(filter, depth_of_format(image.pixel_format));
    lemma_chosen_planes(
        set,
        plain.settings(filter, depth_of_format(image.pixel_format)),
        opts.segment_priorities,
        image.planes@[i],
        image.width as usize,
        image.height as usize,
        plane_budget(image.pixel_format, opts.byte_budget->0) as u64,
        a,
        c,
        limits,
    );
}

/// Bytes are the stream of a plane under a budget.
#[verifier::opaque]
spec fn holds_plane(
    bytes: Seq<u8>,
    set: Settings,
    ranks: Option<Vec<u16>>,
    plane: IcerPlane,
    width: usize,
    height: usize,
    b: u64,
    limits: DecodeLimits,
) -> bool {
    &&& plane_decoded(bytes, set.bits, limits) is Ok
    &&& stream_segments(bytes, limits) is Ok
    &&& stream_segments(bytes, limits) == plane_segments(set, ranks, plane, width, height, Some(b))
}

/// Plane `i` of an image under a budget.
proof fn lemma_found_under(
    opts: &EncodeOptions,
    image: &IcerImage,
    limits: DecodeLimits,
    i: int,
    filter: WaveletFilter,
)
    requires
        image_ok(*image),
        opts.sync_prefix != 0,
        opts.quality_target is None || opts.uncompressed,
        allows(limits, *opts, *image),
        0 <= i < image.pixel_format.planes(),
        opts.byte_budget is Some,
        0 <= plane_budget(image.pixel_format, opts.byte_budget->0),
        filter == filter_of(opts, image, i),
        image_encoded(opts, usual_job(), image) is Ok,
        image_encoded(opts, usual_job(), image)->Ok_0.len() <= usize::MAX,
    ensures
        holds_plane(
            stream_of_plane(image_encoded(opts, usual_job(), image)->Ok_0, i),
            opts.settings(filter, depth_of_format(image.pixel_format)),
            opts.segment_priorities,
            image.planes@[i],
            image.width as usize,
            image.height as usize,
            plane_budget(image.pixel_format, opts.byte_budget->0) as u64,
            limits,
        ),
        opts.settings(filter, depth_of_format(image.pixel_format)).ok(),
{
    reveal(holds_plane);
    assert(!image_refused(*image)) by {
        reveal(image_encoded);
    }
    lemma_found(opts, image, limits, i);
    lemma_decodes(opts, image, limits, i);
    let b = plane_budget(image.pixel_format, opts.byte_budget->0) as u64;
    assert(inner_budget(image.pixel_format, opts.byte_budget) == Some(b));
}

/// A plane whose packets are chosen is never worse than a plainly cut one.
proof fn lemma_chosen_planes(
    set: Settings,
    other: Settings,
    ranks: Option<Vec<u16>>,
    plane: IcerPlane,
    width: usize,
    height: usize,
    b: u64,
    a: Seq<u8>,
    c: Seq<u8>,
    limits: DecodeLimits,
)
    requires
        set.ok(),
        set.rd_pruning,
        !set.uncompressed,
        !set.fallback,
        set.target is None,
        set.segment_count <= 1,
        12 <= b,
        in_range(
            shifted_samples(plane, set.bits, width as int, 0, height as int),
            set.bits,
        ),
        other == (Settings { rd_pruning: false, target: None, ..set }),
        holds_plane(a, set, ranks, plane, width, height, b, limits),
        holds_plane(c, other, ranks, plane, width, height, b, limits),
    ensures
        no_worse(
            shifted_samples(plane, set.bits, width as int, 0, height as int),
            set.bits,
            width * height,
            a,
            c,
            limits,
        ),
{
    reveal(holds_plane);
    reveal(no_worse);
    let samples = shifted_samples(plane, set.bits, width as int, 0, height as int);
    assert(!set.conflicting());
    let x = lemma_single_segment(set, ranks, plane, width, height, b, a, limits);
    let y = lemma_single_segment(other, ranks, plane, width, height, b, c, limits);
    assert(0 <= width * height) by (nonlinear_arith)
        requires
            0 <= width,
            0 <= height,
    ;
    assert(samples.len() == width * height);
    chosen_strips_are_never_worse(set, samples, width, height, 0, b, x, y);
}

/// The planes of an image decode.
proof fn lemma_decodes(opts: &EncodeOptions, image: &IcerImage, limits: DecodeLimits, i: int)
    requires
        image_ok(*image),
        opts.sync_prefix != 0,
        opts.quality_target is None || opts.uncompressed,
        allows(limits, *opts, *image),
        0 <= i < image.pixel_format.planes(),
        image_encoded(opts, usual_job(), image) is Ok,
        image_encoded(opts, usual_job(), image)->Ok_0.len() <= usize::MAX,
    ensures
        ({
            let s = stream_of_plane(image_encoded(opts, usual_job(), image)->Ok_0, i);
            &&& plane_decoded(s, depth_of_format(image.pixel_format), limits) is Ok
            &&& stream_segments(s, limits) is Ok
        }),
{
    reveal(image_encoded);
    let n = image.pixel_format.planes() as int;
    lemma_streams_until(opts, image, i, n);
    lemma_stream_for(opts, image, i);
    let set = opts.settings(filter_of(opts, image, i), depth_of_format(image.pixel_format));
    planes_read_back(
        set,
        opts.segment_priorities,
        image.planes@[i],
        image.width as usize,
        image.height as usize,
        inner_budget(image.pixel_format, opts.byte_budget),
        limits,
    );
    let stream = image_plane_stream(opts, usual_job(), image, i)->Ok_0;
    crate::roundtrip_image::streams_are_told_apart(stream, set.bits, limits);
    lemma_plane_found(opts, image, i);
}

// ---------------------------------------------------------------------------
// The order of segments
// ---------------------------------------------------------------------------

/// **The segments of every plane of an image come from the lowest rank on, and
/// without ranks from the lowest index on.**
pub proof fn image_segments_come_by_rank(
    opts: &EncodeOptions,
    image: &IcerImage,
    limits: DecodeLimits,
    i: int,
    k: int,
)
    requires
        image_ok(*image),
        opts.sync_prefix != 0,
        opts.byte_budget is None,
        opts.quality_target is None || opts.uncompressed,
        allows(limits, *opts, *image),
        0 <= i < image.pixel_format.planes(),
        image_encoded(opts, usual_job(), image) is Ok,
        image_encoded(opts, usual_job(), image)->Ok_0.len() <= usize::MAX,
        0 <= k < opts.segment_count,
        2 <= opts.segment_count,
    ensures
        ({
            let all = segments_of(image_encoded(opts, usual_job(), image)->Ok_0, i, limits);
            &&& all.len() == opts.segment_count
            &&& match opts.segment_priorities {
                None => all[k].header.segment_index == k,
                Some(v) => all[k].header.segment_index < v@.len()
                    && v@[all[k].header.segment_index as int] == k,
            }
        }),
{
    lemma_found(opts, image, limits, i);
    segments_come_by_rank(
        opts.settings(filter_of(opts, image, i), depth_of_format(image.pixel_format)),
        opts.segment_priorities,
        image.planes@[i],
        image.width as usize,
        image.height as usize,
        k,
    );
}

/// **An automatic filter is the one that the statistics of a plane recommend**:
/// a plane is encoded as with options that name that filter.
pub proof fn automatic_filters_are_recommended(
    opts: &EncodeOptions,
    other: &EncodeOptions,
    image: &IcerImage,
    i: int,
)
    requires
        opts.auto_filter,
        !opts.auto_filter_rd,
        !opts.uncompressed,
        *other == (EncodeOptions {
            auto_filter: false,
            filter: recommended(
                stats_of(
                    shifted_samples(
                        image.planes@[i],
                        depth_of_format(image.pixel_format),
                        image.width as int,
                        0,
                        image.height as int,
                    ),
                    depth_of_format(image.pixel_format),
                    image.width as int,
                ),
            ),
            ..*opts
        }),
    ensures
        image_plane_stream(opts, usual_job(), image, i) == image_plane_stream(
            other,
            usual_job(),
            image,
            i,
        ),
{
    lemma_same_stream(opts, other, image, i, other.filter);
}

/// **The headers in an image say how it was encoded**, whatever filter each of
/// its planes has.
pub proof fn image_headers_say_how(
    opts: &EncodeOptions,
    image: &IcerImage,
    limits: DecodeLimits,
    i: int,
    k: int,
)
    requires
        image_ok(*image),
        opts.sync_prefix != 0,
        opts.byte_budget is None,
        opts.quality_target is None || opts.uncompressed,
        allows(limits, *opts, *image),
        0 <= i < image.pixel_format.planes(),
        image_encoded(opts, usual_job(), image) is Ok,
        image_encoded(opts, usual_job(), image)->Ok_0.len() <= usize::MAX,
        0 <= k < segments_of(image_encoded(opts, usual_job(), image)->Ok_0, i, limits).len(),
    ensures
        ({
            let h = segments_of(image_encoded(opts, usual_job(), image)->Ok_0, i, limits)[k].header;
            &&& h.sync_prefix == opts.sync_prefix
            &&& !opts.auto_filter ==> h.filter == opts.filter
            &&& h.decomp_levels == (if opts.wavelet_levels < 1 {
                1
            } else if opts.wavelet_levels > 6 {
                6
            } else {
                opts.wavelet_levels
            })
            &&& h.width == image.width
            &&& h.transform_segmented == opts.transform_segments
            &&& opts.uncompressed ==> h.uncompressed
            &&& h.uncompressed ==> opts.uncompressed || opts.auto_uncompressed_fallback
            &&& h.interleaved_entropy == (opts.interleaved_entropy && !h.uncompressed)
            &&& h.priority_interleaved == (opts.priority_interleaving && !h.uncompressed)
        }),
{
    lemma_found(opts, image, limits, i);
    let set = opts.settings(filter_of(opts, image, i), depth_of_format(image.pixel_format));
    if !opts.auto_filter {
        lemma_same_filter(opts, opts, image, i);
    }
    let (w, h) = (image.width as usize, image.height as usize);
    lemma_segment_count(set, opts.segment_priorities, image.planes@[i], w, h);
    headers_say_how(set, opts.segment_priorities, image.planes@[i], w, h, k);
}

} // verus!
