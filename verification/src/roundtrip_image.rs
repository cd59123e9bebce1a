//! What a decoder makes of encoded images.

use crate::assemble::{lenient_agrees_on_complete_streams, missing_of, plane_decoded, plane_partial, steady, Picture};
use crate::compress::{rows_of, Settings};
use crate::cube_wire::starts_cube;
use crate::decoder::{depth_of_format, image_decoded, image_partial, pictures_of, planes_decoded, planes_partial, sizes_differ, stream_segments, DecodeLimits};
use crate::emit::stream_of;
use crate::encoder::{as_stream, image_encoded, image_ok, image_plane_stream, image_refused, inner_budget, plane_filter, plane_ok, plane_segments, plane_stream, plane_streams, EncodeOptions, Job, Limits};
use crate::error::Fault;
use crate::header::{segment_header, Segment, WaveletFilter};
use crate::image::{IcerImage, IcerPixelFormat, IcerPlane};
use crate::plane_container::{parsed, parsed_streams, parsing_inverts_framing, starts_container};
use crate::quality::{plane_bounds, plane_searched, search_finds_a_budget, PlaneTrial, Trial};
use crate::roundtrip::lemma_bytes_in_range;
use crate::roundtrip_parts::parts_read_back;
use crate::roundtrip_stream::{decodable, generous, lossless, strips_read_back};
use crate::strip::sample_size;
use vstd::prelude::*;

verus! {

/// How many times over a stream announces the pixels of its plane: every part
/// of a transform announces all of them.
pub open spec fn announced(set: Settings) -> int {
    if set.transform {
        set.count()
    } else {
        1
    }
}

/// **The stream of a plane decodes to a plane of the same size, and without a
/// loss to the plane itself.** The first holds whatever a budget leaves of its
/// segments, in whatever order they come.
pub proof fn planes_read_back(
    set: Settings,
    ranks: Option<Vec<u16>>,
    plane: IcerPlane,
    width: usize,
    height: usize,
    budget: Option<u64>,
    limits: DecodeLimits,
)
    requires
        decodable(set, plane, width as int, height as int),
        plane_segments(set, ranks, plane, width, height, budget) is Ok,
        generous(limits, width as int, height as int, announced(set)),
    ensures
        ({
            let segments = plane_segments(set, ranks, plane, width, height, budget)->Ok_0;
            let r = plane_decoded(stream_of(segments), set.bits, limits);
            &&& stream_segments(stream_of(segments), limits) == Ok::<Seq<Segment>, Fault>(segments)
            &&& r is Ok
            &&& steady(stream_of(segments), limits)
            &&& r->Ok_0.width == width
            &&& r->Ok_0.height == height
            &&& budget is None && lossless(set, plane, width as int, height as int)
                ==> r->Ok_0.data == rows_of(plane, width * sample_size(set.bits), 0, height as int)
        }),
{
    if set.transform {
        parts_read_back(set, ranks, plane, width, height, budget, limits);
    } else {
        strips_read_back(set, ranks, plane, width, height, budget, limits);
    }
}

/// The options set no limit to the stream of an image.
pub open spec fn unlimited(opts: EncodeOptions) -> bool {
    opts.byte_budget is None && (opts.quality_target is None || opts.uncompressed)
}

/// Picture `p` has the size of an image.
pub open spec fn has_size(p: Picture, image: IcerImage) -> bool {
    p.width == image.width && p.height == image.height
}

/// Picture `p` holds the rows of a plane of an image, without padding.
pub open spec fn has_rows(p: Picture, image: IcerImage, i: int) -> bool {
    p.data == rows_of(
        image.planes@[i],
        image.width * sample_size(depth_of_format(image.pixel_format)),
        0,
        image.height as int,
    )
}

/// Plane `i` of an image is encoded without a loss.
pub open spec fn plane_lossless(opts: EncodeOptions, image: IcerImage, i: int) -> bool {
    &&& unlimited(opts)
    &&& lossless(
        opts.settings(opts.filter, depth_of_format(image.pixel_format)),
        image.planes@[i],
        image.width as int,
        image.height as int,
    )
}

/// The limits of a decoder allow the planes of an image.
pub open spec fn allows(limits: DecodeLimits, opts: EncodeOptions, image: IcerImage) -> bool {
    generous(
        limits,
        image.width as int,
        image.height as int,
        announced(opts.settings(opts.filter, 8)),
    )
}

/// **Streams tell from their first bytes what they are**: that of a plane is
/// neither a container nor a cube, and a cube is no image.
pub proof fn streams_are_told_apart(bytes: Seq<u8>, bits: u8, limits: DecodeLimits)
    ensures
        plane_decoded(bytes, bits, limits) is Ok ==> !starts_container(bytes) && !starts_cube(bytes),
        starts_cube(bytes) ==> image_decoded(bytes, limits) == Err::<
            (IcerPixelFormat, Seq<Picture>),
            Fault,
        >(Fault::InvalidData),
{
    assert(bytes.skip(0) =~= bytes);
    if plane_decoded(bytes, bits, limits) is Ok {
        assert(segment_header(bytes) is Ok);
    }
    if starts_cube(bytes) {
        assert(bytes[0] == bytes.take(4)[0] && bytes[1] == bytes.take(4)[1] && bytes[2]
            == bytes.take(4)[2]);
    }
}

/// The stream that a search finds is that of a budget.
proof fn lemma_searched_budget(
    set: Settings,
    ranks: &Option<Vec<u16>>,
    plane: &IcerPlane,
    width: usize,
    height: usize,
    target: u64,
) -> (r: Option<u64>)
    requires
        plane_searched(set, ranks, plane, width, height, target) is Ok,
    ensures
        as_stream(plane_segments(set, *ranks, *plane, width, height, r)) == plane_searched(
            set,
            ranks,
            plane,
            width,
            height,
            target,
        ),
{
    let (low, high) = plane_bounds(set, *ranks, *plane, width, height)->Ok_0;
    if low >= high {
        None
    } else {
        let t = PlaneTrial { set, ranks, plane, width, height };
        search_finds_a_budget(t, target as int, low as u64, high as u64);
        let bytes = plane_searched(set, ranks, plane, width, height, target)->Ok_0;
        let b = choose|b: u64| (#[trigger] t.outcome(b)) matches Ok((x, _)) && x == bytes;
        assert(t.outcome(b) matches Ok((x, _)) && x == bytes);
        Some(b)
    }
}

/// The stream of plane `i` of an image is that of a budget.
proof fn lemma_plane_budget(opts: &EncodeOptions, image: &IcerImage, i: int) -> (r: (
    WaveletFilter,
    Option<u64>,
))
    requires
        !image_refused(*image),
        0 <= i < image.planes@.len(),
        image_plane_stream(opts, usual_job(), image, i) is Ok,
    ensures
        ({
            let segments = plane_segments(
                opts.settings(r.0, depth_of_format(image.pixel_format)),
                opts.segment_priorities,
                image.planes@[i],
                image.width as usize,
                image.height as usize,
                r.1,
            );
            &&& segments is Ok
            &&& image_plane_stream(opts, usual_job(), image, i)
                == Ok::<Seq<u8>, Fault>(stream_of(segments->Ok_0))
            &&& unlimited(*opts) ==> r.1 is None
        }),
{
    reveal(plane_stream);
    let format = image.pixel_format;
    let plane = &image.planes@[i];
    let (w, h) = (image.width as usize, image.height as usize);
    let filter = plane_filter(opts, Limits::Given, format, plane, w, h)->Ok_0;
    let set = opts.settings(filter, depth_of_format(format));
    let ranks = &opts.segment_priorities;
    if opts.quality_target is Some && !opts.uncompressed {
        (filter, lemma_searched_budget(set, ranks, plane, w, h, opts.quality_target->0))
    } else {
        (filter, inner_budget(format, opts.byte_budget))
    }
}

/// The stream of plane `i` of an image.
proof fn lemma_plane(opts: &EncodeOptions, image: &IcerImage, i: int, limits: DecodeLimits)
    requires
        image_ok(*image),
        !image_refused(*image),
        opts.sync_prefix != 0,
        0 <= i < image.pixel_format.planes(),
        allows(limits, *opts, *image),
        image_plane_stream(opts, usual_job(), image, i) is Ok,
    ensures
        ({
            let bytes = image_plane_stream(
                opts,
                usual_job(),
                image,
                i,
            )->Ok_0;
            let r = plane_decoded(bytes, depth_of_format(image.pixel_format), limits);
            &&& r is Ok
            &&& has_size(r->Ok_0, *image)
            &&& plane_lossless(*opts, *image, i) ==> has_rows(r->Ok_0, *image, i)
            &&& !starts_container(bytes)
            &&& steady(bytes, limits)
        }),
{
    let bits = depth_of_format(image.pixel_format);
    let plane = image.planes@[i];
    let (w, h) = (image.width as usize, image.height as usize);
    let (filter, budget) = lemma_plane_budget(opts, image, i);
    let set = opts.settings(filter, bits);
    assert(plane_ok(image.planes@[i], w as int, h as int, bits));
    planes_read_back(set, opts.segment_priorities, plane, w, h, budget, limits);
    let bytes = image_plane_stream(
        opts,
        usual_job(),
        image,
        i,
    )->Ok_0;
    streams_are_told_apart(bytes, bits, limits);
}

/// The job of encoding an image as the options say.
pub open spec fn usual_job() -> Job {
    Job { filter: None, limits: Limits::Given }
}

/// What decoding a stream leads to: pictures of the size of an image, and
/// where a plane is encoded without a loss its rows.
pub open spec fn pictures_match(opts: EncodeOptions, image: IcerImage, pictures: Seq<Picture>) -> bool {
    forall|i: int|
        0 <= i < pictures.len() ==> has_size(#[trigger] pictures[i], image) && (plane_lossless(
            opts,
            image,
            i,
        ) ==> has_rows(pictures[i], image, i))
}

/// The streams of the first `k` planes are there and decode.
proof fn lemma_streams(opts: &EncodeOptions, image: &IcerImage, k: int, limits: DecodeLimits)
    requires
        image_ok(*image),
        !image_refused(*image),
        opts.sync_prefix != 0,
        0 <= k <= image.pixel_format.planes(),
        allows(limits, *opts, *image),
        plane_streams(opts, usual_job(), image, k) is Ok,
    ensures
        plane_streams(opts, usual_job(), image, k)->Ok_0.len() == k,
        forall|i: int|
            0 <= i < k ==> ({
                let stream = #[trigger] plane_streams(opts, usual_job(), image, k)->Ok_0[i];
                let r = plane_decoded(stream, depth_of_format(image.pixel_format), limits);
                &&& r is Ok
                &&& has_size(r->Ok_0, *image)
                &&& plane_lossless(*opts, *image, i) ==> has_rows(r->Ok_0, *image, i)
                &&& !starts_container(stream)
                &&& steady(stream, limits)
            }),
    decreases k,
{
    if k > 0 {
        lemma_streams(opts, image, k - 1, limits);
        lemma_plane(opts, image, k - 1, limits);
    }
}

/// The first `k` planes of a container are those of its streams.
proof fn lemma_container_planes(
    opts: &EncodeOptions,
    image: &IcerImage,
    bytes: Seq<u8>,
    streams: Seq<Seq<u8>>,
    k: int,
    limits: DecodeLimits,
)
    requires
        parsed(bytes) is Ok,
        parsed_streams(bytes) == streams,
        0 <= k <= streams.len(),
        forall|i: int|
            0 <= i < streams.len() ==> ({
                let r = plane_decoded(
                    #[trigger] streams[i],
                    depth_of_format(image.pixel_format),
                    limits,
                );
                &&& r is Ok
                &&& has_size(r->Ok_0, *image)
                &&& plane_lossless(*opts, *image, i) ==> has_rows(r->Ok_0, *image, i)
            }),
    ensures
        ({
            let ranges = parsed(bytes)->Ok_0.1;
            let r = planes_decoded(bytes, ranges, depth_of_format(image.pixel_format), limits, k);
            &&& ranges.len() == streams.len()
            &&& r is Ok
            &&& r->Ok_0.len() == k
            &&& pictures_match(*opts, *image, r->Ok_0)
        }),
    decreases k,
{
    if k > 0 {
        lemma_container_planes(opts, image, bytes, streams, k - 1, limits);
        let ranges = parsed(bytes)->Ok_0.1;
        assert(parsed_streams(bytes)[k - 1] == bytes.subrange(ranges[k - 1].0, ranges[k - 1].1));
        assert(streams[k - 1] == bytes.subrange(ranges[k - 1].0, ranges[k - 1].1));
        let bits = depth_of_format(image.pixel_format);
        assert(plane_decoded(streams[k - 1], bits, limits) is Ok);
    }
}

/// **The stream of an image decodes to an image of the same format and size,
/// and planes that are encoded without a loss come back as they were.** The
/// first holds whatever the limits of the options leave.
pub proof fn images_read_back(opts: &EncodeOptions, image: &IcerImage, limits: DecodeLimits)
    requires
        image_ok(*image),
        opts.sync_prefix != 0,
        allows(limits, *opts, *image),
        image_encoded(opts, usual_job(), image) is Ok,
        image_encoded(opts, usual_job(), image)->Ok_0.len() <= usize::MAX,
    ensures
        ({
            let r = image_decoded(image_encoded(opts, usual_job(), image)->Ok_0, limits);
            &&& r is Ok
            &&& r->Ok_0.0 == image.pixel_format
            &&& r->Ok_0.1.len() == image.pixel_format.planes()
            &&& pictures_match(*opts, *image, r->Ok_0.1)
        }),
{
    reveal(image_encoded);
    let format = image.pixel_format;
    let n = format.planes() as int;
    let bytes = image_encoded(opts, usual_job(), image)->Ok_0;
    let streams = plane_streams(opts, usual_job(), image, n)->Ok_0;
    lemma_streams(opts, image, n, limits);
    assert(streams[0] == streams[0] && !starts_container(streams[0]));
    if format == IcerPixelFormat::Gray8 {
        assert(bytes == streams[0]);
    } else {
        parsing_inverts_framing(format, streams);
        lemma_container_planes(opts, image, bytes, streams, n, limits);
        let ranges = parsed(bytes)->Ok_0.1;
        let pictures = planes_decoded(bytes, ranges, depth_of_format(format), limits, n)->Ok_0;
        assert(!sizes_differ(pictures)) by {
            assert(has_size(pictures[0], *image));
            assert forall|i: int| 0 <= i < pictures.len() implies (#[trigger] pictures[i]).width
                == pictures[0].width && pictures[i].height == pictures[0].height by {
                assert(has_size(pictures[i], *image));
            }
        }
    }
}

/// **Without limits and without a minimum loss, 8-bit images come back as they
/// were.**
pub proof fn unlimited_images_are_lossless(opts: &EncodeOptions, image: &IcerImage, i: int)
    requires
        unlimited(*opts),
        opts.target_bytes is None,
        opts.min_loss == 0,
        !(image.pixel_format is GrayDeep),
    ensures
        plane_lossless(*opts, *image, i),
{
    lemma_bytes_in_range(image.planes@[i], image.width as int, 0, image.height as int);
}

/// The first `k` planes of a container without a gap decode leniently as they
/// decode.
proof fn lemma_lenient_planes(bytes: Seq<u8>, ranges: Seq<(int, int)>, bits: u8, limits: DecodeLimits, k: int)
    requires
        0 <= k,
        planes_decoded(bytes, ranges, bits, limits, k) is Ok,
        forall|i: int|
            0 <= i < k ==> steady(
                bytes.subrange((#[trigger] ranges[i]).0, ranges[i].1),
                limits,
            ),
    ensures
        ({
            let r = planes_partial(bytes, ranges, bits, limits, k);
            &&& r is Ok
            &&& r->Ok_0.len() == k
            &&& pictures_of(r->Ok_0) == planes_decoded(bytes, ranges, bits, limits, k)->Ok_0
            &&& forall|i: int|
                0 <= i < k ==> missing_of(
                    (#[trigger] r->Ok_0[i]).received,
                    r->Ok_0[i].received.len() as int,
                ) == 0
        }),
    decreases k,
{
    if k <= 0 {
        assert(pictures_of(Seq::empty()) =~= Seq::<Picture>::empty());
    } else {
        lemma_lenient_planes(bytes, ranges, bits, limits, k - 1);
        let stream = bytes.subrange(ranges[k - 1].0, ranges[k - 1].1);
        assert(steady(stream, limits));
        lenient_agrees_on_complete_streams(stream, bits, limits);
        let before = planes_partial(bytes, ranges, bits, limits, k - 1)->Ok_0;
        let p = plane_partial(stream, bits, limits)->Ok_0;
        assert(pictures_of(before.push(p)) =~= pictures_of(before).push(p.picture));
    }
}

/// **The stream of an image decodes leniently as it decodes strictly**, and no
/// segment is reported as missing.
pub proof fn lenient_images_read_back(opts: &EncodeOptions, image: &IcerImage, limits: DecodeLimits)
    requires
        image_ok(*image),
        opts.sync_prefix != 0,
        allows(limits, *opts, *image),
        image_encoded(opts, usual_job(), image) is Ok,
        image_encoded(opts, usual_job(), image)->Ok_0.len() <= usize::MAX,
    ensures
        ({
            let bytes = image_encoded(opts, usual_job(), image)->Ok_0;
            let strict = image_decoded(bytes, limits)->Ok_0;
            let r = image_partial(bytes, limits);
            &&& r is Ok
            &&& r->Ok_0.0 == strict.0
            &&& r->Ok_0.1 == strict.1
            &&& missing_of(r->Ok_0.2, r->Ok_0.2.len() as int) == 0
        }),
{
    images_read_back(opts, image, limits);
    reveal(image_encoded);
    let format = image.pixel_format;
    let n = format.planes() as int;
    let bytes = image_encoded(opts, usual_job(), image)->Ok_0;
    let streams = plane_streams(opts, usual_job(), image, n)->Ok_0;
    lemma_streams(opts, image, n, limits);
    if format == IcerPixelFormat::Gray8 {
        assert(bytes == streams[0]);
        assert(steady(streams[0], limits) && !starts_container(streams[0]));
        lenient_agrees_on_complete_streams(bytes, 8, limits);
    } else {
        parsing_inverts_framing(format, streams);
        let ranges = parsed(bytes)->Ok_0.1;
        assert(parsed_streams(bytes).len() == ranges.len());
        assert forall|i: int| 0 <= i < ranges.len() implies steady(
            bytes.subrange((#[trigger] ranges[i]).0, ranges[i].1),
            limits,
        ) by {
            assert(parsed_streams(bytes)[i] == bytes.subrange(ranges[i].0, ranges[i].1));
            assert(steady(streams[i], limits));
        }
        lemma_lenient_planes(bytes, ranges, depth_of_format(format), limits, ranges.len() as int);
    }
}

} // verus!
