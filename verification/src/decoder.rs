//! Decoding of byte streams: metadata, images, and images of which segments
//! are missing.
//!
//! A stream is a sequence of segments. The segments of an image are either
//! strips of its rows, in the order of their index from the top, or parts of
//! its transform (see [`crate::merge`]). An image of more than one plane, or of
//! deep samples, is a container of one stream for each plane.
//!
//! A header can ask for any size up to 65535 by 65535 samples.
//! [`DecodeLimits`] says how much of that the decoder accepts.

use crate::assemble::{count_missing, decode_plane, decode_plane_lenient, missing_of, plane_decoded, plane_partial, DecodedPlane, PartialPicture, Picture};
use crate::error::{fails_with, Fault, IcerError, Result};
use crate::header::{segment_at_start, walk_segment, Segment, SegmentHeader, WalkedSegment};
use crate::image::{IcerImage, IcerPixelFormat, IcerPlane};
use crate::plane_container::{is_container, parse_container, parsed, starts_container};
use crate::bytes::slice_of;
use crate::strip::{depth_in_range, joined_bodies, raw_bytes};
use crate::text::with_numbers;
use vstd::prelude::*;

verus! {

/// What a decoder accepts, in samples.
#[derive(Debug, Clone, Copy, PartialEq, Eq, Structural)]
pub struct DecodeLimits {
    /// Largest number of samples of one segment.
    pub max_pixels_per_segment: u64,
    /// Largest number of samples of all segments of a stream.
    pub max_total_pixels: u64,
}

impl DecodeLimits {
    /// Largest number of samples of one segment, unless another is chosen.
    pub const DEFAULT_MAX_PIXELS_PER_SEGMENT: u64 = 64 * 1024 * 1024;

    /// Largest number of samples of a stream, unless another is chosen.
    pub const DEFAULT_MAX_TOTAL_PIXELS: u64 = 256 * 1024 * 1024;

    /// The limits that the entry points without limits use.
    pub open spec fn usual() -> DecodeLimits {
        DecodeLimits {
            max_pixels_per_segment: DecodeLimits::DEFAULT_MAX_PIXELS_PER_SEGMENT,
            max_total_pixels: DecodeLimits::DEFAULT_MAX_TOTAL_PIXELS,
        }
    }

    /// No limits. For streams that are trusted.
    pub fn unlimited() -> (l: Self)
        ensures
            l.max_pixels_per_segment == u64::MAX,
            l.max_total_pixels == u64::MAX,
    {
        DecodeLimits { max_pixels_per_segment: u64::MAX, max_total_pixels: u64::MAX }
    }
}

impl Default for DecodeLimits {
    fn default() -> (l: Self)
        ensures
            l == DecodeLimits::usual(),
    {
        DecodeLimits {
            max_pixels_per_segment: DecodeLimits::DEFAULT_MAX_PIXELS_PER_SEGMENT,
            max_total_pixels: DecodeLimits::DEFAULT_MAX_TOTAL_PIXELS,
        }
    }
}

// ---------------------------------------------------------------------------
// Walking a stream
// ---------------------------------------------------------------------------

/// Number of samples of a segment.
pub open spec fn pixels_of(header: SegmentHeader) -> int {
    header.width * header.height
}

/// Number of samples of a segment.
fn segment_pixels(header: &SegmentHeader) -> (px: u64)
    ensures
        px == pixels_of(*header),
{
    assert(0 <= header.width * header.height <= 0xFFFE_0001) by (nonlinear_arith)
        requires
            0 <= header.width <= 0xFFFF,
            0 <= header.height <= 0xFFFF,
    ;
    header.width as u64 * header.height as u64
}

/// `total` and `px` samples more, or why there may not be so many.
pub open spec fn counted(total: int, px: int, limits: DecodeLimits) -> core::result::Result<int, Fault> {
    if total + px > u64::MAX {
        Err(Fault::InvalidData)
    } else if total + px > limits.max_total_pixels {
        Err(Fault::Unsupported)
    } else {
        Ok(total + px)
    }
}

fn count_pixels(total: u64, px: u64, limits: &DecodeLimits) -> (r: Result<u64>)
    ensures
        match counted(total as int, px as int, *limits) {
            Err(f) => fails_with(r, f),
            Ok(n) => r is Ok && r->Ok_0 == n,
        },
{
    match total.checked_add(px) {
        None => Err(IcerError::invalid("pixel-count overflow")),
        Some(sum) => if sum > limits.max_total_pixels {
            Err(
                IcerError::Unsupported(
                    with_numbers(
                        "image pixel-count ",
                        sum,
                        " exceeds total cap of ",
                        limits.max_total_pixels,
                        " pixels",
                    ),
                ),
            )
        } else {
            Ok(sum)
        },
    }
}

/// `first` before the segments of `r`.
pub open spec fn segments_first(
    first: Seq<Segment>,
    r: core::result::Result<Seq<Segment>, Fault>,
) -> core::result::Result<Seq<Segment>, Fault> {
    match r {
        Err(f) => Err(f),
        Ok(rest) => Ok(first + rest),
    }
}

/// The segments of `bytes` from `cursor` on, after segments of `total`
/// samples, or why they cannot be read within the limits.
pub open spec fn segments_from(
    bytes: Seq<u8>,
    cursor: int,
    total: int,
    limits: DecodeLimits,
) -> core::result::Result<Seq<Segment>, Fault>
    decreases bytes.len() - cursor,
{
    if cursor >= bytes.len() || cursor < 0 {
        Ok(Seq::empty())
    } else {
        match segment_at_start(bytes.skip(cursor)) {
            Err(f) => Err(f),
            Ok(s) => if pixels_of(s.header) > limits.max_pixels_per_segment {
                Err(Fault::Unsupported)
            } else {
                match counted(total, pixels_of(s.header), limits) {
                    Err(f) => Err(f),
                    Ok(n) => segments_first(
                        seq![s],
                        segments_from(bytes, cursor + segment_bytes(s), n, limits),
                    ),
                }
            },
        }
    }
}

/// Bytes of a segment, its header among them.
pub open spec fn segment_bytes(s: Segment) -> int {
    12 + s.header.segment_length
}

/// The segments of a stream, or why they cannot be read within the limits.
pub open spec fn stream_segments(bytes: Seq<u8>, limits: DecodeLimits) -> core::result::Result<
    Seq<Segment>,
    Fault,
> {
    segments_from(bytes, 0, 0, limits)
}

/// Where segment `k` starts.
pub open spec fn offset_of(segments: Seq<Segment>, k: int) -> int
    decreases k,
{
    if k <= 0 {
        0
    } else {
        offset_of(segments, k - 1) + segment_bytes(segments[k - 1])
    }
}

/// The segments as values.
pub open spec fn segment_views(walked: Seq<WalkedSegment>) -> Seq<Segment> {
    Seq::new(walked.len(), |i: int| walked[i]@)
}

/// What is known of a segment that was walked.
pub open spec fn walked_ok(w: WalkedSegment) -> bool {
    w.header.valid() && w.consumed == 12 + w.header.segment_length
}

proof fn lemma_offset_prefix(a: Seq<Segment>, b: Seq<Segment>, k: int)
    requires
        0 <= k <= a.len() <= b.len(),
        forall|i: int| 0 <= i < a.len() ==> a[i] == b[i],
    ensures
        offset_of(a, k) == offset_of(b, k),
    decreases k,
{
    if k > 0 {
        lemma_offset_prefix(a, b, k - 1);
    }
}

proof fn lemma_offset_grows(a: Seq<Segment>, j: int, k: int)
    requires
        0 <= j <= k,
    ensures
        0 <= offset_of(a, j) <= offset_of(a, k),
    decreases k,
{
    if k > j {
        lemma_offset_grows(a, j, k - 1);
    } else if k > 0 {
        lemma_offset_grows(a, k - 1, k - 1);
    }
}

/// The segments of a stream.
pub(crate) fn walk_stream<'a>(bytes: &'a [u8], limits: &DecodeLimits) -> (r: Result<
    Vec<WalkedSegment<'a>>,
>)
    ensures
        match stream_segments(bytes@, *limits) {
            Err(f) => fails_with(r, f),
            Ok(segments) => {
                &&& r is Ok
                &&& segment_views(r->Ok_0@) == segments
                &&& forall|i: int| 0 <= i < r->Ok_0@.len() ==> walked_ok(#[trigger] r->Ok_0@[i])
                &&& offset_of(segments, segments.len() as int) == bytes@.len()
            },
        },
{
    let mut out: Vec<WalkedSegment<'a>> = Vec::new();
    let mut total: u64 = 0;
    let mut cursor: usize = 0;
    let ghost mut seen: Seq<Segment> = Seq::empty();
    let ghost all = stream_segments(bytes@, *limits);
    assert(all == segments_first(seen, all)) by {
        if all is Ok {
            assert(seen + all->Ok_0 =~= all->Ok_0);
        }
    }
    while cursor < bytes.len()
        invariant
            cursor <= bytes@.len(),
            all == stream_segments(bytes@, *limits),
            all == segments_first(
                seen,
                segments_from(bytes@, cursor as int, total as int, *limits),
            ),
            seen == segment_views(out@),
            forall|i: int| 0 <= i < out@.len() ==> walked_ok(#[trigger] out@[i]),
            cursor == offset_of(seen, seen.len() as int),
        decreases bytes@.len() - cursor,
    {
        let tail = slice_of(bytes, cursor, bytes.len());
        assert(tail@ =~= bytes@.skip(cursor as int));
        let walked = match walk_segment(tail) {
            Ok(w) => w,
            Err(e) => return Err(e),
        };
        let px: u64 = segment_pixels(&walked.header);
        if px > limits.max_pixels_per_segment {
            return Err(
                IcerError::Unsupported(
                    with_numbers(
                        "segment of ",
                        px,
                        " pixels exceeds per-segment cap of ",
                        limits.max_pixels_per_segment,
                        " pixels",
                    ),
                ),
            );
        }
        let sum: u64 = match count_pixels(total, px, limits) {
            Ok(n) => n,
            Err(e) => return Err(e),
        };
        let ghost s = walked@;
        proof {
            let rest = segments_from(
                bytes@,
                cursor + segment_bytes(s),
                sum as int,
                *limits,
            );
            assert(segments_from(bytes@, cursor as int, total as int, *limits) == segments_first(
                seq![s],
                rest,
            ));
            if rest is Ok {
                assert(seen + (seq![s] + rest->Ok_0) =~= seen.push(s) + rest->Ok_0);
            }
            lemma_offset_prefix(seen, seen.push(s), seen.len() as int);
            seen = seen.push(s);
        }
        cursor = cursor + walked.consumed;
        total = sum;
        out.push(walked);
        assert(seen =~= segment_views(out@));
    }
    assert(seen + Seq::<Segment>::empty() =~= seen);
    Ok(out)
}

// ---------------------------------------------------------------------------
// Metadata
// ---------------------------------------------------------------------------

/// What is known of a segment without decoding it.
#[derive(Debug, Clone)]
pub struct SegmentMetadata {
    /// Header.
    pub header: SegmentHeader,
    /// Number of packets.
    pub packet_count: usize,
    /// Where the segment starts.
    pub offset: usize,
    /// Bytes of the segment, its header among them.
    pub byte_length: usize,
}

/// What is known of a stream without decoding it.
#[derive(Debug, Clone)]
pub struct IcerMetadata {
    /// The segments in the order of the stream.
    pub segments: Vec<SegmentMetadata>,
}

/// What is known of segment `k`, where the stream starts at `base`.
pub open spec fn metadata_entry(segments: Seq<Segment>, base: int, k: int) -> SegmentMetadata {
    SegmentMetadata {
        header: segments[k].header,
        packet_count: segments[k].packets.len() as usize,
        offset: (base + offset_of(segments, k)) as usize,
        byte_length: segment_bytes(segments[k]) as usize,
    }
}

/// What is known of a stream of one plane.
pub open spec fn plain_metadata(bytes: Seq<u8>, limits: DecodeLimits) -> core::result::Result<
    Seq<SegmentMetadata>,
    Fault,
> {
    match stream_segments(bytes, limits) {
        Err(f) => Err(f),
        Ok(segments) => Ok(
            Seq::new(segments.len(), |k: int| metadata_entry(segments, 0, k)),
        ),
    }
}

/// Number of samples of the first `k` segments after `total` samples, or why
/// there may not be so many.
pub open spec fn counted_all(
    segments: Seq<SegmentMetadata>,
    total: int,
    limits: DecodeLimits,
    k: int,
) -> core::result::Result<int, Fault>
    decreases k,
{
    if k <= 0 {
        Ok(total)
    } else {
        match counted_all(segments, total, limits, k - 1) {
            Err(f) => Err(f),
            Ok(n) => counted(n, pixels_of(segments[k - 1].header), limits),
        }
    }
}

/// `m` of a stream that starts at `base`.
pub open spec fn rebased(m: SegmentMetadata, base: int) -> SegmentMetadata {
    SegmentMetadata { offset: (m.offset + base) as usize, ..m }
}

/// What is known of the first `k` planes of a container, with the number of
/// their samples.
pub open spec fn planes_metadata(
    bytes: Seq<u8>,
    ranges: Seq<(int, int)>,
    limits: DecodeLimits,
    k: int,
) -> core::result::Result<(Seq<SegmentMetadata>, int), Fault>
    decreases bytes.len(), k,
{
    if k <= 0 || k > 3 {
        Ok((Seq::empty(), 0))
    } else {
        match planes_metadata(bytes, ranges, limits, k - 1) {
            Err(f) => Err(f),
            Ok((before, total)) => {
                let (start, end) = ranges[k - 1];
                if !(0 < start <= end <= bytes.len()) {
                    Err(Fault::Truncated)
                } else {
                    match stream_metadata(bytes.subrange(start, end), limits) {
                        Err(f) => Err(f),
                        Ok(sub) => match counted_all(sub, total, limits, sub.len() as int) {
                            Err(f) => Err(f),
                            Ok(n) => Ok(
                                (
                                    before + Seq::new(
                                        sub.len(),
                                        |i: int| rebased(sub[i], start),
                                    ),
                                    n,
                                ),
                            ),
                        },
                    }
                }
            },
        }
    }
}

/// What is known of a stream or container.
pub open spec fn stream_metadata(bytes: Seq<u8>, limits: DecodeLimits) -> core::result::Result<
    Seq<SegmentMetadata>,
    Fault,
>
    decreases bytes.len(), 4int,
{
    if !starts_container(bytes) {
        plain_metadata(bytes, limits)
    } else {
        match parsed(bytes) {
            Err(f) => Err(f),
            Ok((format, ranges)) => match planes_metadata(
                bytes,
                ranges,
                limits,
                ranges.len() as int,
            ) {
                Err(f) => Err(f),
                Ok((segments, _)) => Ok(segments),
            },
        }
    }
}

/// The metadata of every segment of a stream, within the usual limits.
pub fn parse_icer_metadata(bytes: &[u8]) -> (r: Result<IcerMetadata>)
    ensures
        match stream_metadata(bytes@, DecodeLimits::usual()) {
            Err(f) => fails_with(r, f),
            Ok(segments) => r is Ok && r->Ok_0.segments@ == segments,
        },
{
    let limits = DecodeLimits::default();
    parse_icer_metadata_with_limits(bytes, &limits)
}

/// The metadata of every segment of a stream. Nothing is decoded.
pub fn parse_icer_metadata_with_limits(bytes: &[u8], limits: &DecodeLimits) -> (r: Result<
    IcerMetadata,
>)
    ensures
        match stream_metadata(bytes@, *limits) {
            Err(f) => fails_with(r, f),
            Ok(segments) => {
                &&& r is Ok
                &&& r->Ok_0.segments@ == segments
                &&& forall|i: int|
                    0 <= i < segments.len() ==> (#[trigger] segments[i]).offset
                        + segments[i].byte_length <= bytes@.len()
            },
        },
    decreases bytes@.len(),
{
    if is_container(bytes) {
        let parsed_c = match parse_container(bytes) {
            Ok(c) => c,
            Err(e) => return Err(e),
        };
        let ghost ranges = parsed_c.ranges();
        let mut segments: Vec<SegmentMetadata> = Vec::new();
        let mut total: u64 = 0;
        let n: usize = parsed_c.plane_ranges.len();
        let mut k: usize = 0;
        while k < n
            invariant
                k <= n <= 3,
                n == parsed_c.plane_ranges@.len(),
                ranges == parsed_c.ranges(),
                parsed(bytes@) is Ok,
                parsed(bytes@)->Ok_0.1 == ranges,
                starts_container(bytes@),
                forall|i: int|
                    0 <= i < ranges.len() ==> 0 < (#[trigger] ranges[i]).0 <= ranges[i].1
                        <= bytes@.len(),
                planes_metadata(bytes@, ranges, *limits, k as int) is Ok,
                planes_metadata(bytes@, ranges, *limits, k as int)->Ok_0.0 == segments@,
                planes_metadata(bytes@, ranges, *limits, k as int)->Ok_0.1 == total,
                forall|i: int|
                    0 <= i < segments@.len() ==> (#[trigger] segments@[i]).offset
                        + segments@[i].byte_length <= bytes@.len(),
            decreases n - k,
        {
            let (base, end) = parsed_c.plane_ranges[k];
            assert(ranges[k as int] == (base as int, end as int));
            let sub = parsed_c.plane_bytes(bytes, k);
            let sub_meta = match parse_icer_metadata_with_limits(sub, limits) {
                Ok(m) => m,
                Err(e) => {
                    proof {
                        lemma_planes_fail(bytes@, ranges, *limits, k + 1, n as int);
                    }
                    return Err(e);
                },
            };
            let ghost sm = sub_meta.segments@;
            let ghost before = segments@;
            let ghost start_total = total;
            let mut i: usize = 0;
            while i < sub_meta.segments.len()
                invariant
                    i <= sm.len(),
                    sm == sub_meta.segments@,
                    counted_all(sm, start_total as int, *limits, i as int) == Ok::<int, Fault>(
                        total as int,
                    ),
                    k < n <= 3,
                    n == ranges.len(),
                    starts_container(bytes@),
                    parsed(bytes@) is Ok,
                    parsed(bytes@)->Ok_0.1 == ranges,
                    ranges[k as int] == (base as int, end as int),
                    0 < base <= end <= bytes@.len(),
                    planes_metadata(bytes@, ranges, *limits, k as int) == Ok::<
                        (Seq<SegmentMetadata>, int),
                        Fault,
                    >((before, start_total as int)),
                    stream_metadata(bytes@.subrange(base as int, end as int), *limits) == Ok::<
                        Seq<SegmentMetadata>,
                        Fault,
                    >(sm),
                decreases sm.len() - i,
            {
                let px: u64 = segment_pixels(&sub_meta.segments[i].header);
                total = match count_pixels(total, px, limits) {
                    Ok(t) => t,
                    Err(e) => {
                        proof {
                            lemma_counted_fails(sm, start_total as int, *limits, i + 1, sm.len() as int);
                            lemma_planes_fail(bytes@, ranges, *limits, k + 1, n as int);
                        }
                        return Err(e);
                    },
                };
                i = i + 1;
            }
            let ghost moved = Seq::new(sm.len(), |i: int| rebased(sm[i], base as int));
            let mut j: usize = 0;
            while j < sub_meta.segments.len()
                invariant
                    j <= sm.len(),
                    sm == sub_meta.segments@,
                    moved == Seq::new(sm.len(), |i: int| rebased(sm[i], base as int)),
                    segments@ == before + moved.take(j as int),
                    base <= end <= bytes@.len(),
                    forall|i: int|
                        0 <= i < sm.len() ==> (#[trigger] sm[i]).offset + sm[i].byte_length <= end
                            - base,
                    forall|i: int|
                        0 <= i < segments@.len() ==> (#[trigger] segments@[i]).offset
                            + segments@[i].byte_length <= bytes@.len(),
                decreases sm.len() - j,
            {
                let m = &sub_meta.segments[j];
                assert(bytes@.len() == bytes.len());
                segments.push(
                    SegmentMetadata {
                        header: m.header,
                        packet_count: m.packet_count,
                        offset: m.offset + base,
                        byte_length: m.byte_length,
                    },
                );
                assert(moved.take(j + 1) =~= moved.take(j as int).push(moved[j as int]));
                assert(segments@ =~= before + moved.take(j + 1));
                j = j + 1;
            }
            assert(moved.take(sm.len() as int) =~= moved);
            k = k + 1;
        }
        return Ok(IcerMetadata { segments });
    }
    let walked = match walk_stream(bytes, limits) {
        Ok(w) => w,
        Err(e) => return Err(e),
    };
    let ghost all = segment_views(walked@);
    let mut segments: Vec<SegmentMetadata> = Vec::new();
    let mut offset: usize = 0;
    let mut k: usize = 0;
    while k < walked.len()
        invariant
            k <= walked@.len(),
            all == segment_views(walked@),
            forall|i: int| 0 <= i < walked@.len() ==> walked_ok(#[trigger] walked@[i]),
            offset_of(all, all.len() as int) == bytes@.len(),
            offset == offset_of(all, k as int),
            segments@.len() == k,
            forall|i: int| 0 <= i < k ==> #[trigger] segments@[i] == metadata_entry(all, 0, i),
            forall|i: int|
                0 <= i < k ==> (#[trigger] segments@[i]).offset + segments@[i].byte_length
                    <= bytes@.len(),
        decreases walked@.len() - k,
    {
        let w = &walked[k];
        proof {
            assert(all[k as int] == w@);
            assert(walked_ok(walked@[k as int]));
            lemma_offset_grows(all, k + 1, all.len() as int);
            assert(bytes@.len() == bytes.len());
        }
        segments.push(
            SegmentMetadata {
                header: w.header,
                packet_count: w.packets.len(),
                offset,
                byte_length: w.consumed,
            },
        );
        offset = offset + w.consumed;
        k = k + 1;
    }
    proof {
        let entries = Seq::new(all.len(), |k: int| metadata_entry(all, 0, k));
        assert(segments@ =~= entries);
    }
    Ok(IcerMetadata { segments })
}

proof fn lemma_planes_fail(
    bytes: Seq<u8>,
    ranges: Seq<(int, int)>,
    limits: DecodeLimits,
    k: int,
    n: int,
)
    requires
        1 <= k <= n <= 3,
        planes_metadata(bytes, ranges, limits, k) is Err,
    ensures
        planes_metadata(bytes, ranges, limits, n) == planes_metadata(bytes, ranges, limits, k),
    decreases n,
{
    if n > k {
        lemma_planes_fail(bytes, ranges, limits, k, n - 1);
    }
}

proof fn lemma_counted_fails(
    segments: Seq<SegmentMetadata>,
    total: int,
    limits: DecodeLimits,
    k: int,
    n: int,
)
    requires
        1 <= k <= n,
        counted_all(segments, total, limits, k) is Err,
    ensures
        counted_all(segments, total, limits, n) == counted_all(segments, total, limits, k),
    decreases n,
{
    if n > k {
        lemma_counted_fails(segments, total, limits, k, n - 1);
    }
}

// ---------------------------------------------------------------------------
// The order of segments
// ---------------------------------------------------------------------------

/// `s` with `x` behind every segment whose index is not greater.
pub open spec fn insert_by_index(s: Seq<Segment>, x: Segment) -> Seq<Segment>
    decreases s.len(),
{
    if s.len() == 0 || s.last().header.segment_index <= x.header.segment_index {
        s.push(x)
    } else {
        insert_by_index(s.drop_last(), x).push(s.last())
    }
}

/// The segments in the order of their index; segments of one index keep their
/// order.
pub open spec fn by_index(s: Seq<Segment>) -> Seq<Segment>
    decreases s.len(),
{
    if s.len() == 0 {
        Seq::empty()
    } else {
        insert_by_index(by_index(s.drop_last()), s.last())
    }
}

/// No segment has a smaller index than one before it.
pub open spec fn in_index_order(s: Seq<Segment>) -> bool {
    forall|i: int, j: int|
        0 <= i <= j < s.len() ==> (#[trigger] s[i]).header.segment_index <= (
        #[trigger] s[j]).header.segment_index
}

proof fn lemma_insert_orders(s: Seq<Segment>, x: Segment)
    requires
        in_index_order(s),
    ensures
        in_index_order(insert_by_index(s, x)),
        insert_by_index(s, x).len() == s.len() + 1,
        insert_by_index(s, x).to_multiset() == s.to_multiset().insert(x),
        s.len() > 0 ==> insert_by_index(s, x).last().header.segment_index == (if s.last().header.segment_index
            <= x.header.segment_index {
            x.header.segment_index
        } else {
            s.last().header.segment_index
        }),
        s.len() == 0 ==> insert_by_index(s, x).last() == x,
    decreases s.len(),
{
    broadcast use vstd::seq_lib::group_to_multiset_ensures;

    if s.len() == 0 || s.last().header.segment_index <= x.header.segment_index {
    } else {
        let t = s.drop_last();
        assert(t.push(s.last()) =~= s);
        lemma_insert_orders(t, x);
        let r = insert_by_index(t, x);
        assert(r.last().header.segment_index <= s.last().header.segment_index);
        assert(insert_by_index(s, x).to_multiset() =~= s.to_multiset().insert(x));
    }
}

/// **Putting the segments in order loses none of them, adds none and orders
/// them.**
pub proof fn ordering_permutes(s: Seq<Segment>)
    ensures
        in_index_order(by_index(s)),
        by_index(s).len() == s.len(),
        by_index(s).to_multiset() == s.to_multiset(),
    decreases s.len(),
{
    broadcast use vstd::seq_lib::group_to_multiset_ensures;

    if s.len() > 0 {
        ordering_permutes(s.drop_last());
        lemma_insert_orders(by_index(s.drop_last()), s.last());
        assert(s.drop_last().push(s.last()) =~= s);
    }
}

/// **Segments that come in order stay as they are.**
pub proof fn ordered_stays(s: Seq<Segment>)
    requires
        in_index_order(s),
    ensures
        by_index(s) == s,
    decreases s.len(),
{
    if s.len() > 0 {
        let t = s.drop_last();
        ordered_stays(t);
        assert(t.push(s.last()) =~= s);
    }
}

proof fn lemma_insert_place(s: Seq<Segment>, x: Segment, j: int)
    requires
        0 <= j <= s.len(),
        forall|i: int|
            j <= i < s.len() ==> (#[trigger] s[i]).header.segment_index > x.header.segment_index,
        j == 0 || s[j - 1].header.segment_index <= x.header.segment_index,
    ensures
        insert_by_index(s, x) == s.insert(j, x),
    decreases s.len(),
{
    if j == s.len() {
        assert(s.insert(j, x) =~= s.push(x));
    } else {
        lemma_insert_place(s.drop_last(), x, j);
        assert(s.insert(j, x) =~= s.drop_last().insert(j, x).push(s.last()));
    }
}

/// Put the segments in the order of their index.
pub(crate) fn sort_by_index(walked: &mut Vec<WalkedSegment>)
    requires
        forall|i: int| 0 <= i < old(walked)@.len() ==> walked_ok(#[trigger] old(walked)@[i]),
    ensures
        segment_views(final(walked)@) == by_index(segment_views(old(walked)@)),
        final(walked)@.len() == old(walked)@.len(),
        forall|i: int| 0 <= i < final(walked)@.len() ==> walked_ok(#[trigger] final(walked)@[i]),
{
    let ghost start = segment_views(walked@);
    let n: usize = walked.len();
    let mut k: usize = 0;
    assert(segment_views(walked@).take(0) =~= Seq::<Segment>::empty());
    assert(start.take(0) =~= Seq::<Segment>::empty());
    while k < n
        invariant
            k <= n,
            walked@.len() == n == start.len(),
            segment_views(walked@).take(k as int) == by_index(start.take(k as int)),
            forall|i: int| k <= i < n ==> (#[trigger] walked@[i])@ == start[i],
            forall|i: int| 0 <= i < walked@.len() ==> walked_ok(#[trigger] walked@[i]),
        decreases n - k,
    {
        let ghost before = segment_views(walked@);
        let ghost sorted = before.take(k as int);
        let ghost x = before[k as int];
        let key: u16 = walked[k].header.segment_index;
        let mut j: usize = k;
        while j > 0 && walked[j - 1].header.segment_index > key
            invariant
                j <= k < n,
                walked@.len() == n,
                before == segment_views(walked@),
                key == before[k as int].header.segment_index,
                forall|i: int|
                    j <= i < k ==> (#[trigger] before[i]).header.segment_index > key,
            decreases j,
        {
            assert(before[j - 1] == walked@[j - 1]@);
            j = j - 1;
        }
        proof {
            if j > 0 {
                assert(before[j - 1] == walked@[j - 1]@);
            }
            lemma_insert_place(sorted, x, j as int);
            assert(start.take(k + 1).drop_last() =~= start.take(k as int));
            assert(start.take(k + 1).last() == x);
        }
        if j < k {
            let ghost old_walked = walked@;
            let moved = walked.remove(k);
            walked.insert(j, moved);
            assert(walked@ =~= old_walked.remove(k as int).insert(j as int, old_walked[k as int]));
            assert forall|i: int| 0 <= i < walked@.len() implies walked_ok(#[trigger] walked@[i]) by {
                if i < j {
                    assert(walked@[i] == old_walked[i]);
                } else if i == j {
                    assert(walked@[i] == old_walked[k as int]);
                } else if i <= k {
                    assert(walked@[i] == old_walked[i - 1]);
                } else {
                    assert(walked@[i] == old_walked[i]);
                }
            }
        }
        assert(segment_views(walked@).take(k + 1) =~= sorted.insert(j as int, x));
        k = k + 1;
    }
    assert(start.take(n as int) =~= start);
    assert(segment_views(walked@).take(n as int) =~= segment_views(walked@));
}

// ---------------------------------------------------------------------------
// Images
// ---------------------------------------------------------------------------

/// Significant bits of the samples of a format.
pub open spec fn depth_of_format(format: IcerPixelFormat) -> u8 {
    match format {
        IcerPixelFormat::GrayDeep { bits } => bits,
        _ => 8,
    }
}

/// The first `k` planes of a container.
pub open spec fn planes_decoded(
    bytes: Seq<u8>,
    ranges: Seq<(int, int)>,
    bits: u8,
    limits: DecodeLimits,
    k: int,
) -> core::result::Result<Seq<Picture>, Fault>
    decreases k,
{
    if k <= 0 {
        Ok(Seq::empty())
    } else {
        match planes_decoded(bytes, ranges, bits, limits, k - 1) {
            Err(f) => Err(f),
            Ok(before) => match plane_decoded(
                bytes.subrange(ranges[k - 1].0, ranges[k - 1].1),
                bits,
                limits,
            ) {
                Err(f) => Err(f),
                Ok(p) => Ok(before.push(p)),
            },
        }
    }
}

/// Some plane has another size than the first.
pub open spec fn sizes_differ(pictures: Seq<Picture>) -> bool {
    exists|i: int|
        0 <= i < pictures.len() && ((#[trigger] pictures[i]).width != pictures[0].width
            || pictures[i].height != pictures[0].height)
}

/// The format and the planes of a stream or container, or why it cannot be
/// decoded.
pub open spec fn image_decoded(bytes: Seq<u8>, limits: DecodeLimits) -> core::result::Result<
    (IcerPixelFormat, Seq<Picture>),
    Fault,
> {
    if starts_container(bytes) {
        match parsed(bytes) {
            Err(f) => Err(f),
            Ok((format, ranges)) => match planes_decoded(
                bytes,
                ranges,
                depth_of_format(format),
                limits,
                ranges.len() as int,
            ) {
                Err(f) => Err(f),
                Ok(pictures) => if sizes_differ(pictures) {
                    Err(Fault::Unsupported)
                } else {
                    Ok((format, pictures))
                },
            },
        }
    } else {
        match plane_decoded(bytes, 8, limits) {
            Err(f) => Err(f),
            Ok(p) => Ok((IcerPixelFormat::Gray8, seq![p])),
        }
    }
}

/// `image` holds `pictures` as its planes, without padding.
pub open spec fn holds_pictures(image: IcerImage, format: IcerPixelFormat, pictures: Seq<Picture>) -> bool {
    &&& image.width == pictures[0].width
    &&& image.height == pictures[0].height
    &&& image.pixel_format == format
    &&& image.pts == 0
    &&& image.planes@.len() == pictures.len()
    &&& forall|i: int|
        0 <= i < pictures.len() ==> (#[trigger] image.planes@[i]).stride == pictures[0].width
            * format.sample_width() && image.planes@[i].data@ == pictures[i].data
}

proof fn lemma_planes_stop(
    bytes: Seq<u8>,
    ranges: Seq<(int, int)>,
    bits: u8,
    limits: DecodeLimits,
    k: int,
    n: int,
)
    requires
        1 <= k <= n,
        planes_decoded(bytes, ranges, bits, limits, k) is Err,
    ensures
        planes_decoded(bytes, ranges, bits, limits, n) == planes_decoded(
            bytes,
            ranges,
            bits,
            limits,
            k,
        ),
    decreases n,
{
    if n > k {
        lemma_planes_stop(bytes, ranges, bits, limits, k, n - 1);
    }
}

/// The pictures that decoded planes show.
pub open spec fn plane_views(planes: Seq<DecodedPlane>) -> Seq<Picture> {
    Seq::new(planes.len(), |i: int| planes[i]@)
}

/// The image of planes of one size.
fn image_of(planes: Vec<DecodedPlane>, format: IcerPixelFormat) -> (image: IcerImage)
    requires
        planes@.len() > 0,
        !sizes_differ(plane_views(planes@)),
        planes@[0].width <= 0xFFFF,
    ensures
        holds_pictures(image, format, plane_views(planes@)),
{
    let ghost pictures = plane_views(planes@);
    let mut planes = planes;
    let width: u32 = planes[0].width;
    let height: u32 = planes[0].height;
    assert(pictures[0] == planes@[0]@);
    let size: usize = format.sample_bytes();
    assert(0 <= width * size <= 0x2_0000) by (nonlinear_arith)
        requires
            0 <= width <= 0xFFFF,
            0 <= size <= 2,
    ;
    let stride: usize = width as usize * size;
    let mut reversed: Vec<IcerPlane> = Vec::new();
    let n: usize = planes.len();
    while planes.len() > 0
        invariant
            n == pictures.len(),
            stride == pictures[0].width * format.sample_width(),
            planes@.len() + reversed@.len() == n,
            plane_views(planes@) == pictures.take(planes@.len() as int),
            forall|i: int|
                #![trigger reversed@[i]]
                0 <= i < reversed@.len() ==> reversed@[i].stride == stride
                    && reversed@[i].data@ == pictures[n - 1 - i].data,
        decreases planes@.len(),
    {
        let ghost before = planes@;
        let p = planes.pop();
        match p {
            Some(plane) => {
                assert(plane_views(before)[before.len() - 1] == plane@);
                reversed.push(IcerPlane { stride, data: plane.data });
            },
            None => {},
        }
        assert(plane_views(planes@) =~= pictures.take(planes@.len() as int)) by {
            assert forall|i: int| 0 <= i < planes@.len() implies plane_views(planes@)[i]
                == pictures[i] by {
                assert(plane_views(before)[i] == pictures.take(before.len() as int)[i]);
            }
        }
    }
    let mut out: Vec<IcerPlane> = Vec::new();
    while reversed.len() > 0
        invariant
            n == pictures.len(),
            out@.len() + reversed@.len() == n,
            forall|i: int|
                #![trigger reversed@[i]]
                0 <= i < reversed@.len() ==> reversed@[i].stride == stride
                    && reversed@[i].data@ == pictures[n - 1 - i].data,
            forall|i: int|
                #![trigger out@[i]]
                0 <= i < out@.len() ==> out@[i].stride == stride && out@[i].data@
                    == pictures[i].data,
        decreases reversed@.len(),
    {
        let p = reversed.pop();
        match p {
            Some(plane) => {
                out.push(plane);
            },
            None => {},
        }
    }
    IcerImage { width, height, pixel_format: format, planes: out, pts: 0 }
}

/// Decode a stream or container, within the usual limits.
pub fn parse_icer(bytes: &[u8]) -> (r: Result<IcerImage>)
    ensures
        match image_decoded(bytes@, DecodeLimits::usual()) {
            Err(f) => fails_with(r, f),
            Ok((format, pictures)) => r is Ok && holds_pictures(r->Ok_0, format, pictures),
        },
{
    let limits = DecodeLimits::default();
    parse_icer_with_limits(bytes, &limits)
}

/// Decode a stream or container.
pub fn parse_icer_with_limits(bytes: &[u8], limits: &DecodeLimits) -> (r: Result<IcerImage>)
    ensures
        match image_decoded(bytes@, *limits) {
            Err(f) => fails_with(r, f),
            Ok((format, pictures)) => r is Ok && holds_pictures(r->Ok_0, format, pictures),
        },
{
    if is_container(bytes) {
        return parse_icer_multi_plane(bytes, limits);
    }
    match decode_plane(bytes, 8, limits) {
        Err(e) => Err(e),
        Ok(plane) => {
            let mut planes: Vec<DecodedPlane> = Vec::new();
            let ghost p = plane@;
            planes.push(plane);
            assert(plane_views(planes@) =~= seq![p]);
            Ok(image_of(planes, IcerPixelFormat::Gray8))
        },
    }
}

fn parse_icer_multi_plane(bytes: &[u8], limits: &DecodeLimits) -> (r: Result<IcerImage>)
    requires
        starts_container(bytes@),
    ensures
        match image_decoded(bytes@, *limits) {
            Err(f) => fails_with(r, f),
            Ok((format, pictures)) => r is Ok && holds_pictures(r->Ok_0, format, pictures),
        },
{
    let container = match parse_container(bytes) {
        Ok(c) => c,
        Err(e) => return Err(e),
    };
    let format = container.format;
    let bits: u8 = format.bit_depth();
    let ghost ranges = container.ranges();
    let n: usize = container.plane_ranges.len();
    let mut planes: Vec<DecodedPlane> = Vec::new();
    let mut k: usize = 0;
    assert(plane_views(planes@) =~= Seq::empty());
    while k < n
        invariant
            k <= n,
            n == ranges.len(),
            ranges == container.ranges(),
            depth_in_range(bits),
            bits == depth_of_format(format),
            starts_container(bytes@),
            parsed(bytes@) == Ok::<(IcerPixelFormat, Seq<(int, int)>), Fault>((format, ranges)),
            forall|i: int|
                0 <= i < ranges.len() ==> 0 < (#[trigger] ranges[i]).0 <= ranges[i].1
                    <= bytes@.len(),
            planes@.len() == k,
            planes_decoded(bytes@, ranges, bits, *limits, k as int) == Ok::<Seq<Picture>, Fault>(
                plane_views(planes@),
            ),
            forall|i: int| 0 <= i < k ==> (#[trigger] planes@[i]).width <= 0xFFFF,
        decreases n - k,
    {
        assert(ranges[k as int].0 <= ranges[k as int].1);
        let sub = container.plane_bytes(bytes, k);
        match decode_plane(sub, bits, limits) {
            Ok(p) => {
                let ghost before = planes@;
                planes.push(p);
                assert(plane_views(planes@) =~= plane_views(before).push(p@));
            },
            Err(e) => {
                proof {
                    lemma_planes_stop(bytes@, ranges, bits, *limits, k + 1, n as int);
                }
                return Err(e);
            },
        }
        k = k + 1;
    }
    if !same_sizes(&planes) {
        return Err(IcerError::unsupported("colour planes of different sizes"));
    }
    Ok(image_of(planes, format))
}

fn same_sizes(planes: &Vec<DecodedPlane>) -> (r: bool)
    requires
        planes@.len() > 0,
    ensures
        r == !sizes_differ(plane_views(planes@)),
{
    let ghost pictures = plane_views(planes@);
    assert(pictures[0] == planes@[0]@);
    let mut i: usize = 0;
    while i < planes.len()
        invariant
            i <= planes@.len(),
            planes@.len() > 0,
            pictures == plane_views(planes@),
            pictures[0] == planes@[0]@,
            forall|j: int|
                0 <= j < i ==> (#[trigger] pictures[j]).width == pictures[0].width
                    && pictures[j].height == pictures[0].height,
        decreases planes@.len() - i,
    {
        assert(pictures[i as int] == planes@[i as int]@);
        if planes[i].width != planes[0].width || planes[i].height != planes[0].height {
            return false;
        }
        i = i + 1;
    }
    true
}

// ---------------------------------------------------------------------------
// Images of which segments are missing
// ---------------------------------------------------------------------------

/// An image of which segments may be missing.
#[derive(Debug, Clone)]
pub struct LenientDecode {
    /// The image. Missing strips are flat.
    pub image: IcerImage,
    /// For each index whether its segment was there.
    pub received: Vec<bool>,
    /// Number of segments that were missing.
    pub missing_count: usize,
}

/// The first `k` planes of a container of which segments may be missing.
pub open spec fn planes_partial(
    bytes: Seq<u8>,
    ranges: Seq<(int, int)>,
    bits: u8,
    limits: DecodeLimits,
    k: int,
) -> core::result::Result<Seq<PartialPicture>, Fault>
    decreases k,
{
    if k <= 0 {
        Ok(Seq::empty())
    } else {
        match planes_partial(bytes, ranges, bits, limits, k - 1) {
            Err(f) => Err(f),
            Ok(before) => match plane_partial(
                bytes.subrange(ranges[k - 1].0, ranges[k - 1].1),
                bits,
                limits,
            ) {
                Err(f) => Err(f),
                Ok(p) => Ok(before.push(p)),
            },
        }
    }
}

/// The planes without the reports on their segments.
pub open spec fn pictures_of(partial: Seq<PartialPicture>) -> Seq<Picture> {
    Seq::new(partial.len(), |i: int| partial[i].picture)
}

/// The format and the planes of a stream or container of which segments may be
/// missing, with the segments that were there, or why it cannot be decoded.
/// Of a container the report is that on the first plane.
pub open spec fn image_partial(bytes: Seq<u8>, limits: DecodeLimits) -> core::result::Result<
    (IcerPixelFormat, Seq<Picture>, Seq<bool>),
    Fault,
> {
    if starts_container(bytes) {
        match parsed(bytes) {
            Err(f) => Err(f),
            Ok((format, ranges)) => match planes_partial(
                bytes,
                ranges,
                depth_of_format(format),
                limits,
                ranges.len() as int,
            ) {
                Err(f) => Err(f),
                Ok(partial) => if sizes_differ(pictures_of(partial)) {
                    Err(Fault::Unsupported)
                } else {
                    Ok((format, pictures_of(partial), partial[0].received))
                },
            },
        }
    } else {
        match plane_partial(bytes, 8, limits) {
            Err(f) => Err(f),
            Ok(p) => Ok((IcerPixelFormat::Gray8, seq![p.picture], p.received)),
        }
    }
}

/// `d` is what a lenient decode gives.
pub open spec fn reports(
    d: LenientDecode,
    format: IcerPixelFormat,
    pictures: Seq<Picture>,
    received: Seq<bool>,
) -> bool {
    &&& holds_pictures(d.image, format, pictures)
    &&& d.received@ == received
    &&& d.missing_count == missing_of(received, received.len() as int)
}

proof fn lemma_partial_stop(
    bytes: Seq<u8>,
    ranges: Seq<(int, int)>,
    bits: u8,
    limits: DecodeLimits,
    k: int,
    n: int,
)
    requires
        1 <= k <= n,
        planes_partial(bytes, ranges, bits, limits, k) is Err,
    ensures
        planes_partial(bytes, ranges, bits, limits, n) == planes_partial(
            bytes,
            ranges,
            bits,
            limits,
            k,
        ),
    decreases n,
{
    if n > k {
        lemma_partial_stop(bytes, ranges, bits, limits, k, n - 1);
    }
}

/// Decode a stream or container of which segments may be missing, within the
/// usual limits.
///
/// Of strips, the first must be there: it says what the height of the others
/// is. A strip before the last with another height is refused. The image ends
/// with the last strip that is there.
pub fn parse_icer_lenient(bytes: &[u8]) -> (r: Result<LenientDecode>)
    ensures
        match image_partial(bytes@, DecodeLimits::usual()) {
            Err(f) => fails_with(r, f),
            Ok((format, pictures, received)) => r is Ok && reports(
                r->Ok_0,
                format,
                pictures,
                received,
            ),
        },
{
    let limits = DecodeLimits::default();
    parse_icer_lenient_with_limits(bytes, &limits)
}

/// Decode a stream or container of which segments may be missing.
///
/// Of strips, the first must be there: it says what the height of the others
/// is. A strip before the last with another height is refused. The image ends
/// with the last strip that is there.
pub fn parse_icer_lenient_with_limits(bytes: &[u8], limits: &DecodeLimits) -> (r: Result<
    LenientDecode,
>)
    ensures
        match image_partial(bytes@, *limits) {
            Err(f) => fails_with(r, f),
            Ok((format, pictures, received)) => r is Ok && reports(
                r->Ok_0,
                format,
                pictures,
                received,
            ),
        },
{
    if is_container(bytes) {
        return parse_icer_lenient_multi_plane(bytes, limits);
    }
    match decode_plane_lenient(bytes, 8, limits) {
        Err(e) => Err(e),
        Ok(partial) => {
            let mut planes: Vec<DecodedPlane> = Vec::new();
            let ghost p = partial@;
            let missing_count: usize = count_missing(&partial.received);
            planes.push(partial.plane);
            assert(plane_views(planes@) =~= seq![p.picture]);
            let image = image_of(planes, IcerPixelFormat::Gray8);
            Ok(LenientDecode { image, received: partial.received, missing_count })
        },
    }
}

#[verifier::rlimit(50)]
#[verifier::spinoff_prover]
fn parse_icer_lenient_multi_plane(bytes: &[u8], limits: &DecodeLimits) -> (r: Result<LenientDecode>)
    requires
        starts_container(bytes@),
    ensures
        match image_partial(bytes@, *limits) {
            Err(f) => fails_with(r, f),
            Ok((format, pictures, received)) => r is Ok && reports(
                r->Ok_0,
                format,
                pictures,
                received,
            ),
        },
{
    let container = match parse_container(bytes) {
        Ok(c) => c,
        Err(e) => return Err(e),
    };
    let format = container.format;
    let bits: u8 = format.bit_depth();
    let ghost ranges = container.ranges();
    let n: usize = container.plane_ranges.len();
    let mut planes: Vec<DecodedPlane> = Vec::new();
    let mut received: Vec<bool> = Vec::new();
    let ghost mut partial: Seq<PartialPicture> = Seq::empty();
    let mut k: usize = 0;
    assert(plane_views(planes@) =~= pictures_of(partial));
    while k < n
        invariant
            k <= n,
            n == ranges.len(),
            ranges == container.ranges(),
            depth_in_range(bits),
            bits == depth_of_format(format),
            starts_container(bytes@),
            parsed(bytes@) == Ok::<(IcerPixelFormat, Seq<(int, int)>), Fault>((format, ranges)),
            forall|i: int|
                0 <= i < ranges.len() ==> 0 < (#[trigger] ranges[i]).0 <= ranges[i].1
                    <= bytes@.len(),
            planes@.len() == k,
            planes_partial(bytes@, ranges, bits, *limits, k as int) == Ok::<
                Seq<PartialPicture>,
                Fault,
            >(partial),
            partial.len() == k,
            plane_views(planes@) == pictures_of(partial),
            k > 0 ==> received@ == partial[0].received,
            forall|i: int| 0 <= i < k ==> (#[trigger] planes@[i]).width <= 0xFFFF,
        decreases n - k,
    {
        assert(ranges[k as int].0 <= ranges[k as int].1);
        let sub = container.plane_bytes(bytes, k);
        match decode_plane_lenient(sub, bits, limits) {
            Ok(p) => {
                let ghost before = planes@;
                let ghost earlier = partial;
                proof {
                    partial = partial.push(p@);
                }
                if k == 0 {
                    received = p.received;
                }
                planes.push(p.plane);
                assert(plane_views(planes@) =~= plane_views(before).push(p.plane@));
                assert(pictures_of(partial) =~= pictures_of(earlier).push(p.plane@));
            },
            Err(e) => {
                proof {
                    lemma_partial_stop(bytes@, ranges, bits, *limits, k + 1, n as int);
                }
                return Err(e);
            },
        }
        k = k + 1;
    }
    if !same_sizes(&planes) {
        return Err(IcerError::unsupported("colour planes of different sizes"));
    }
    let missing_count: usize = count_missing(&received);
    let image = image_of(planes, format);
    Ok(LenientDecode { image, received, missing_count })
}

/// Decode one uncompressed segment of 8-bit samples.
pub fn decode_uncompressed_icer(walked: &WalkedSegment) -> (r: Result<IcerImage>)
    ensures
        ({
            let h = walked.header;
            let all = joined_bodies(walked@.packets);
            if !h.uncompressed {
                fails_with(r, Fault::InvalidData)
            } else if all.len() < h.width * h.height {
                fails_with(r, Fault::Truncated)
            } else {
                r is Ok && holds_pictures(
                    r->Ok_0,
                    IcerPixelFormat::Gray8,
                    seq![
                        Picture {
                            width: h.width as int,
                            height: h.height as int,
                            data: all.take(h.width * h.height),
                        },
                    ],
                )
            }
        }),
{
    let h = walked.header;
    if !h.uncompressed {
        return Err(IcerError::invalid("decode_uncompressed_icer called on compressed segment"));
    }
    assert(0 <= h.width * h.height <= 0xFFFE_0001) by (nonlinear_arith)
        requires
            0 <= h.width <= 0xFFFF,
            0 <= h.height <= 0xFFFF,
    ;
    let data = match raw_bytes(walked, h.width as usize * h.height as usize) {
        Ok(d) => d,
        Err(e) => return Err(e),
    };
    let mut planes: Vec<DecodedPlane> = Vec::new();
    planes.push(DecodedPlane { width: h.width as u32, height: h.height as u32, data });
    assert(plane_views(planes@) =~= seq![planes@[0]@]);
    Ok(image_of(planes, IcerPixelFormat::Gray8))
}

} // verus!
