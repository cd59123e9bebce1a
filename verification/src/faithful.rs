//! What an image that was decoded holds.

use crate::assemble::{lemma_parts_ok, lemma_strips_ok, plane_decoded, plane_partial};
use crate::decoder::{by_index, depth_of_format, holds_pictures, image_decoded, image_partial, ordering_permutes, pictures_of, pixels_of, planes_decoded, planes_partial, reports, segment_bytes, segments_from, stream_segments, DecodeLimits, LenientDecode};
use crate::encoder::{image_encoded, image_ok, image_refused, EncodeOptions};
use crate::header::{segment_at_start, Segment};
use crate::image::{IcerImage, IcerPixelFormat};
use crate::metadata::lemma_ranges;
use crate::plane_container::{parsed, starts_container};
use crate::roundtrip_image::{allows, has_rows, has_size, images_read_back, lenient_images_read_back, plane_lossless, usual_job};
use crate::shuffle::pixels_in;
use crate::strip::sample_size;
use crate::survivors::{lemma_sorted_member, stream_of_plane};
use vstd::prelude::*;

verus! {

// ---------------------------------------------------------------------------
// Samples
// ---------------------------------------------------------------------------

/// Where a byte of a row stands in rows without padding.
proof fn lemma_byte_place(row: int, y: int, c: int)
    requires
        0 <= c < row,
        0 <= y,
    ensures
        (y * row + c) / row == y,
        (y * row + c) % row == c,
        0 <= y * row + c,
{
    assert(y * row + c == row * y + c) by (nonlinear_arith);
    assert(0 <= row * y) by (nonlinear_arith)
        requires
            0 <= row,
            0 <= y,
    ;
    vstd::arithmetic::div_mod::lemma_fundamental_div_mod_converse(row * y + c, row, y, c);
}

/// A sample of a picture with the rows of a plane is that of the plane.
proof fn lemma_sample_kept(image: IcerImage, d: IcerImage, p: int, x: int, y: int)
    requires
        0 <= p < image.planes@.len(),
        p < d.planes@.len(),
        d.width == image.width,
        d.height == image.height,
        d.pixel_format == image.pixel_format,
        d.planes@[p].stride == image.width * image.pixel_format.sample_width(),
        d.planes@[p].data@ == crate::compress::rows_of(
            image.planes@[p],
            image.width * image.pixel_format.sample_width(),
            0,
            image.height as int,
        ),
        0 <= x < image.width,
        0 <= y < image.height,
    ensures
        d.has_sample(p, x, y),
        d.sample_value(p, x, y) == image.sample_value(p, x, y),
{
    let size = image.pixel_format.sample_width() as int;
    let row = image.width * size;
    assert(0 <= x * size && x * size + size <= row) by (nonlinear_arith)
        requires
            0 <= x < image.width,
            row == image.width * size,
            size >= 1,
    ;
    assert(y * row + row <= row * image.height) by (nonlinear_arith)
        requires
            0 <= y < image.height,
            row >= 0,
    ;
    lemma_byte_place(row, y, x * size);
    if size == 2 {
        lemma_byte_place(row, y, x * size + 1);
    }
}

/// **What was encoded without a loss is what is decoded, sample by sample.** An
/// image that is decoded from the bytes of another has its size, its format and
/// its planes, and every sample of a plane that was encoded without a loss.
pub proof fn samples_read_back(
    opts: &EncodeOptions,
    image: &IcerImage,
    limits: DecodeLimits,
    d: IcerImage,
    p: int,
    x: int,
    y: int,
)
    requires
        image_ok(*image),
        opts.sync_prefix != 0,
        allows(limits, *opts, *image),
        image_encoded(opts, usual_job(), image) is Ok,
        image_encoded(opts, usual_job(), image)->Ok_0.len() <= usize::MAX,
        ({
            let r = image_decoded(image_encoded(opts, usual_job(), image)->Ok_0, limits);
            holds_pictures(d, r->Ok_0.0, r->Ok_0.1)
        }),
        0 <= p < image.pixel_format.planes(),
        0 <= x < image.width,
        0 <= y < image.height,
    ensures
        d.width == image.width,
        d.height == image.height,
        d.pixel_format == image.pixel_format,
        d.planes@.len() == image.pixel_format.planes(),
        plane_lossless(*opts, *image, p) ==> d.has_sample(p, x, y) && d.sample_value(p, x, y)
            == image.sample_value(p, x, y),
{
    assert(!image_refused(*image)) by {
        reveal(image_encoded);
    }
    images_read_back(opts, image, limits);
    let r = image_decoded(image_encoded(opts, usual_job(), image)->Ok_0, limits)->Ok_0;
    let pictures = r.1;
    assert(has_size(pictures[0], *image));
    assert(has_size(pictures[p], *image));
    assert(d.planes@[p].data@ == pictures[p].data);
    assert(sample_size(depth_of_format(image.pixel_format)) == image.pixel_format.sample_width());
    if plane_lossless(*opts, *image, p) {
        assert(has_rows(pictures[p], *image, p));
        lemma_sample_kept(*image, d, p, x, y);
    }
}

/// **A lenient decoder shows of a whole image the same samples, and misses
/// nothing.**
pub proof fn lenient_samples_read_back(
    opts: &EncodeOptions,
    image: &IcerImage,
    limits: DecodeLimits,
    d: LenientDecode,
    p: int,
    x: int,
    y: int,
)
    requires
        image_ok(*image),
        opts.sync_prefix != 0,
        allows(limits, *opts, *image),
        image_encoded(opts, usual_job(), image) is Ok,
        image_encoded(opts, usual_job(), image)->Ok_0.len() <= usize::MAX,
        ({
            let r = image_partial(image_encoded(opts, usual_job(), image)->Ok_0, limits);
            reports(d, r->Ok_0.0, r->Ok_0.1, r->Ok_0.2)
        }),
        0 <= p < image.pixel_format.planes(),
        0 <= x < image.width,
        0 <= y < image.height,
    ensures
        d.image.width == image.width,
        d.image.height == image.height,
        d.image.pixel_format == image.pixel_format,
        d.image.planes@.len() == image.pixel_format.planes(),
        d.missing_count == 0,
        plane_lossless(*opts, *image, p) ==> d.image.has_sample(p, x, y) && d.image.sample_value(
            p,
            x,
            y,
        ) == image.sample_value(p, x, y),
{
    lenient_images_read_back(opts, image, limits);
    samples_read_back(opts, image, limits, d.image, p, x, y);
}

// ---------------------------------------------------------------------------
// Planes
// ---------------------------------------------------------------------------

proof fn lemma_planes_alone(
    bytes: Seq<u8>,
    ranges: Seq<(int, int)>,
    bits: u8,
    limits: DecodeLimits,
    i: int,
    k: int,
)
    requires
        0 <= i < k,
        planes_decoded(bytes, ranges, bits, limits, k) is Ok,
    ensures
        planes_decoded(bytes, ranges, bits, limits, k)->Ok_0.len() == k,
        plane_decoded(bytes.subrange(ranges[i].0, ranges[i].1), bits, limits) == Ok::<
            crate::assemble::Picture,
            crate::error::Fault,
        >(planes_decoded(bytes, ranges, bits, limits, k)->Ok_0[i]),
    decreases k,
{
    if i < k - 1 {
        lemma_planes_alone(bytes, ranges, bits, limits, i, k - 1);
    } else if k > 1 {
        lemma_planes_alone(bytes, ranges, bits, limits, k - 2, k - 1);
    }
}

/// **Every plane of an image is decoded from its own stream**: each has the
/// samples that its stream alone decodes to, row after row without padding, and
/// all have one size.
pub proof fn planes_decode_on_their_own(bytes: Seq<u8>, limits: DecodeLimits, d: IcerImage, i: int)
    requires
        image_decoded(bytes, limits) is Ok,
        holds_pictures(
            d,
            image_decoded(bytes, limits)->Ok_0.0,
            image_decoded(bytes, limits)->Ok_0.1,
        ),
        0 <= i < d.planes@.len(),
    ensures
        ({
            let format = d.pixel_format;
            let r = plane_decoded(stream_of_plane(bytes, i), format_depth(format), limits);
            &&& r is Ok
            &&& d.planes@.len() == (if starts_container(bytes) {
                parsed(bytes)->Ok_0.1.len()
            } else {
                1
            })
            &&& d.width == r->Ok_0.width
            &&& d.height == r->Ok_0.height
            &&& d.planes@[i].data@ == r->Ok_0.data
            &&& d.planes@[i].stride == d.width * (if format is GrayDeep {
                2int
            } else {
                1
            })
            &&& d.pts == 0
        }),
{
    let (format, pictures) = image_decoded(bytes, limits)->Ok_0;
    if starts_container(bytes) {
        let ranges = parsed(bytes)->Ok_0.1;
        let n = ranges.len() as int;
        lemma_planes_alone(bytes, ranges, depth_of_format(format), limits, n - 1, n);
        lemma_planes_alone(bytes, ranges, depth_of_format(format), limits, i, n);
        assert(pictures[i].width == pictures[0].width && pictures[i].height == pictures[0].height);
    }
    assert(d.planes@[i].data@ == pictures[i].data);
}

/// Bits of the samples of a format.
pub open spec fn format_depth(format: IcerPixelFormat) -> u8 {
    match format {
        IcerPixelFormat::GrayDeep { bits } => bits,
        _ => 8,
    }
}

// ---------------------------------------------------------------------------
// Limits
// ---------------------------------------------------------------------------

pub proof fn lemma_limits(bytes: Seq<u8>, cursor: int, total: int, limits: DecodeLimits)
    requires
        segments_from(bytes, cursor, total, limits) is Ok,
        0 <= total <= limits.max_total_pixels,
    ensures
        ({
            let s = segments_from(bytes, cursor, total, limits)->Ok_0;
            &&& forall|i: int|
                0 <= i < s.len() ==> (#[trigger] s[i]).header.width * s[i].header.height
                    <= limits.max_pixels_per_segment
            &&& total + pixels_in(s) <= limits.max_total_pixels
        }),
    decreases bytes.len() - cursor,
{
    if 0 <= cursor < bytes.len() {
        let s = segment_at_start(bytes.skip(cursor))->Ok_0;
        let px = pixels_of(s.header);
        let rest = segments_from(bytes, cursor + segment_bytes(s), total + px, limits)->Ok_0;
        crate::shuffle::lemma_pixels_positive(s.header);
        lemma_limits(bytes, cursor + segment_bytes(s), total + px, limits);
        let all = segments_from(bytes, cursor, total, limits)->Ok_0;
        assert(all == seq![s] + rest);
        assert(all.drop_first() =~= rest);
        assert forall|i: int| 0 <= i < all.len() implies (#[trigger] all[i]).header.width
            * all[i].header.height <= limits.max_pixels_per_segment by {
            if i > 0 {
                assert(all[i] == rest[i - 1]);
            }
        }
    }
}

/// **Limits are kept**: a stream of which any segment, or all of them together,
/// have more samples than the limits allow is not decoded.
pub proof fn limits_are_kept(bytes: Seq<u8>, bits: u8, limits: DecodeLimits)
    requires
        plane_decoded(bytes, bits, limits) is Ok || plane_partial(bytes, bits, limits) is Ok,
    ensures
        ({
            let s = stream_segments(bytes, limits);
            &&& s is Ok
            &&& s->Ok_0.len() > 0
            &&& forall|i: int|
                0 <= i < s->Ok_0.len() ==> (#[trigger] s->Ok_0[i]).header.width
                    * s->Ok_0[i].header.height <= limits.max_pixels_per_segment
            &&& pixels_in(s->Ok_0) <= limits.max_total_pixels
        }),
{
    lemma_limits(bytes, 0, 0, limits);
}

// ---------------------------------------------------------------------------
// Segments
// ---------------------------------------------------------------------------

/// Where every index is its place in order, no two segments share one.
proof fn lemma_no_index_twice(s: Seq<Segment>, a: int, b: int)
    requires
        forall|i: int| 0 <= i < s.len() ==> (#[trigger] by_index(s)[i]).header.segment_index == i,
        0 <= a < b < s.len(),
    ensures
        s[a].header.segment_index != s[b].header.segment_index,
        s[a].header.segment_index < s.len(),
        s[b].header.segment_index < s.len(),
{
    broadcast use vstd::seq_lib::group_to_multiset_ensures;

    ordering_permutes(s);
    let t = by_index(s);
    let i = lemma_sorted_member(s, a);
    let j = lemma_sorted_member(s, b);
    assert(t[i].header.segment_index == i);
    assert(t[j].header.segment_index == j);
    if s[a].header.segment_index == s[b].header.segment_index {
        assert(i == j);
        let (less, rest) = (t.remove(i), s.remove(a));
        assert(less.to_multiset() =~= t.to_multiset().remove(t[i]));
        assert(rest.to_multiset() =~= s.to_multiset().remove(s[a]));
        assert(rest[b - 1] == s[b]);
        assert(rest.contains(s[b]));
        assert(less.to_multiset().count(s[b]) > 0);
        assert(less.contains(s[b]));
        let k = less.index_of(s[b]);
        if k < i {
            assert(less[k] == t[k]);
        } else {
            assert(less[k] == t[k + 1]);
        }
    }
}

/// **A plane is decoded only from all of its segments, each once.** Strips have
/// the width of the plane and none is a part of a transform; parts all say the
/// size of the plane and how many they are.
pub proof fn whole_planes_have_each_segment_once(bytes: Seq<u8>, bits: u8, limits: DecodeLimits)
    requires
        plane_decoded(bytes, bits, limits) is Ok,
    ensures
        ({
            let s = stream_segments(bytes, limits)->Ok_0;
            let p = plane_decoded(bytes, bits, limits)->Ok_0;
            &&& s.len() > 0
            &&& forall|a: int| 0 <= a < s.len() ==> (#[trigger] s[a]).header.segment_index < s.len()
            &&& forall|a: int, b: int|
                0 <= a < b < s.len() ==> (#[trigger] s[a]).header.segment_index != (
                #[trigger] s[b]).header.segment_index
            &&& forall|a: int|
                0 <= a < s.len() ==> (#[trigger] s[a]).header.width == p.width
                    && s[a].header.transform_segmented == s[0].header.transform_segmented
            &&& s[0].header.transform_segmented ==> forall|a: int|
                0 <= a < s.len() ==> (#[trigger] s[a]).header.height == p.height
                    && s[a].header.total_segments == s.len()
        }),
{
    let s = stream_segments(bytes, limits)->Ok_0;
    let p = plane_decoded(bytes, bits, limits)->Ok_0;
    let n = s.len() as int;
    ordering_permutes(s);
    let t = by_index(s);
    assert forall|i: int| 0 <= i < n implies (#[trigger] t[i]).header.segment_index == i
        && t[i].header.width == p.width && t[i].header.transform_segmented
        == t[0].header.transform_segmented && (t[0].header.transform_segmented
        ==> t[i].header.height == p.height && t[i].header.total_segments == n) by {
        if t[0].header.transform_segmented {
            lemma_parts_ok(t, true, i + 1, n);
        } else {
            lemma_strips_ok(t, i + 1, n);
        }
    }
    assert forall|a: int| 0 <= a < n implies (#[trigger] s[a]).header.segment_index < n
        && s[a].header.width == p.width && s[a].header.transform_segmented
        == t[0].header.transform_segmented && (t[0].header.transform_segmented
        ==> s[a].header.height == p.height && s[a].header.total_segments == n) by {
        let k = lemma_sorted_member(s, a);
        assert(t[k].header.segment_index == k);
    }
    assert forall|a: int, b: int| 0 <= a < b < n implies (#[trigger] s[a]).header.segment_index
        != (#[trigger] s[b]).header.segment_index by {
        lemma_no_index_twice(s, a, b);
    }
}

// ---------------------------------------------------------------------------
// Planes of damaged images
// ---------------------------------------------------------------------------

proof fn lemma_partial_alone(
    bytes: Seq<u8>,
    ranges: Seq<(int, int)>,
    bits: u8,
    limits: DecodeLimits,
    i: int,
    k: int,
)
    requires
        0 <= i < k,
        planes_partial(bytes, ranges, bits, limits, k) is Ok,
    ensures
        planes_partial(bytes, ranges, bits, limits, k)->Ok_0.len() == k,
        plane_partial(bytes.subrange(ranges[i].0, ranges[i].1), bits, limits) == Ok::<
            crate::assemble::PartialPicture,
            crate::error::Fault,
        >(planes_partial(bytes, ranges, bits, limits, k)->Ok_0[i]),
    decreases k,
{
    if i < k - 1 {
        lemma_partial_alone(bytes, ranges, bits, limits, i, k - 1);
    } else if k > 1 {
        lemma_partial_alone(bytes, ranges, bits, limits, k - 2, k - 1);
    }
}

/// **A lenient decoder, too, decodes every plane of an image from its own
/// stream**, as far as it is there.
pub proof fn lenient_planes_decode_on_their_own(
    bytes: Seq<u8>,
    limits: DecodeLimits,
    d: LenientDecode,
    i: int,
)
    requires
        image_partial(bytes, limits) matches Ok((format, pictures, received)) && reports(
            d,
            format,
            pictures,
            received,
        ),
        0 <= i < d.image.planes@.len(),
    ensures
        ({
            let format = d.image.pixel_format;
            let r = plane_partial(stream_of_plane(bytes, i), format_depth(format), limits);
            &&& r is Ok
            &&& d.image.planes@.len() == (if starts_container(bytes) {
                parsed(bytes)->Ok_0.1.len()
            } else {
                1
            })
            &&& d.image.width == r->Ok_0.picture.width
            &&& d.image.height == r->Ok_0.picture.height
            &&& d.image.planes@[i].data@ == r->Ok_0.picture.data
            &&& d.image.planes@[i].stride == d.image.width * (if format is GrayDeep {
                2int
            } else {
                1
            })
            &&& i == 0 ==> d.received@ == r->Ok_0.received
        }),
{
    let (format, pictures, received) = image_partial(bytes, limits)->Ok_0;
    if starts_container(bytes) {
        let ranges = parsed(bytes)->Ok_0.1;
        let n = ranges.len() as int;
        let bits = depth_of_format(format);
        let partial = planes_partial(bytes, ranges, bits, limits, n)->Ok_0;
        lemma_ranges(bytes);
        lemma_partial_alone(bytes, ranges, bits, limits, n - 1, n);
        lemma_partial_alone(bytes, ranges, bits, limits, i, n);
        assert(pictures == pictures_of(partial));
        assert(pictures[i] == partial[i].picture);
        assert(pictures[i].width == pictures[0].width && pictures[i].height == pictures[0].height);
    }
    assert(d.image.planes@[i].data@ == pictures[i].data);
}

} // verus!
