//! What the metadata of a stream or container points at.

use crate::bytes::be32;
use crate::decoder::{counted_all, depth_of_format, image_decoded, image_partial, metadata_entry, offset_of, plain_metadata, planes_decoded, planes_metadata, planes_partial, rebased, segment_bytes, segments_from, stream_metadata, stream_segments, DecodeLimits, SegmentMetadata};
use crate::error::Fault;
use crate::header::{packet_header, packets_between, segment_at_start, segment_header, Segment};
use crate::plane_container::{container_format, parsed, placing_fault, plane_start, starts_container, table_start};
use crate::shuffle::framed;
use vstd::prelude::*;

verus! {

// ---------------------------------------------------------------------------
// Walking
// ---------------------------------------------------------------------------

/// Packets are read from their own bytes, and each has a header of 4 bytes.
proof fn lemma_packets_own(all: Seq<u8>, n: int, cursor: int, end: int)
    requires
        end <= n <= all.len(),
        packets_between(all, cursor, end) is Ok,
    ensures
        packets_between(all.take(n), cursor, end) == packets_between(all, cursor, end),
        0 <= cursor <= end ==> 4 * packets_between(all, cursor, end)->Ok_0.len() <= end - cursor,
    decreases end - cursor,
{
    if 0 <= cursor < end {
        let part = all.take(n);
        let own = part.skip(cursor);
        let more = all.skip(cursor);
        assert(packet_header(more) is Ok);
        let stop = cursor + 4 + packet_header(more)->Ok_0.body_length;
        assert(packets_between(all, stop, end) is Ok);
        assert(stop <= end);
        assert(more[0] == own[0] && more[1] == own[1] && more[2] == own[2] && more[3] == own[3]);
        assert(packet_header(own) == packet_header(more));
        assert(part.subrange(cursor + 4, stop) =~= all.subrange(cursor + 4, stop));
        lemma_packets_own(all, n, stop, end);
    }
}

/// A segment is read from its own bytes.
pub proof fn lemma_segment_own(all: Seq<u8>)
    requires
        segment_at_start(all) is Ok,
    ensures
        ({
            let s = segment_at_start(all)->Ok_0;
            let n = segment_bytes(s);
            &&& 12 <= n <= all.len()
            &&& segment_at_start(all.take(n)) == segment_at_start(all)
            &&& 4 * s.packets.len() <= n
        }),
{
    let s = segment_at_start(all)->Ok_0;
    let n = segment_bytes(s);
    let part = all.take(n);
    assert(segment_header(all) is Ok);
    assert(forall|i: int| 0 <= i < 12 ==> all[i] == part[i]);
    assert(part[2] == all[2] && part[7] == all[7] && part[10] == all[10] && part[11] == all[11]);
    assert(part[0] == all[0] && part[1] == all[1] && part[3] == all[3] && part[4] == all[4]);
    assert(part[5] == all[5] && part[6] == all[6] && part[8] == all[8] && part[9] == all[9]);
    assert(segment_header(part) == segment_header(all));
    lemma_packets_own(all, n, 12, n);
}

/// The first offset of a list is that of the rest and the first segment.
proof fn lemma_offset_first(list: Seq<Segment>, x: Segment, k: int)
    requires
        1 <= k <= list.len() + 1,
    ensures
        offset_of(seq![x] + list, k) == segment_bytes(x) + offset_of(list, k - 1),
    decreases k,
{
    let all = seq![x] + list;
    if k > 1 {
        lemma_offset_first(list, x, k - 1);
        assert(all[k - 1] == list[k - 2]);
    } else {
        assert(all[0] == x);
        assert(offset_of(all, 0) == 0 && offset_of(list, 0) == 0);
        assert(offset_of(all, 1) == offset_of(all, 0) + segment_bytes(all[0]));
    }
}

/// The segments that are walked lie one behind the other, up to the end.
pub proof fn lemma_walk(bytes: Seq<u8>, cursor: int, total: int, limits: DecodeLimits)
    requires
        0 <= cursor <= bytes.len(),
        segments_from(bytes, cursor, total, limits) is Ok,
    ensures
        ({
            let list = segments_from(bytes, cursor, total, limits)->Ok_0;
            &&& cursor + offset_of(list, list.len() as int) == bytes.len()
            &&& forall|k: int|
                #![trigger list[k]]
                0 <= k < list.len() ==> {
                    let at = cursor + offset_of(list, k);
                    &&& cursor <= at
                    &&& at + segment_bytes(list[k]) <= bytes.len()
                    &&& segment_at_start(bytes.skip(at)) == Ok::<Segment, Fault>(list[k])
                }
        }),
    decreases bytes.len() - cursor,
{
    let list = segments_from(bytes, cursor, total, limits)->Ok_0;
    if cursor < bytes.len() {
        let x = segment_at_start(bytes.skip(cursor))->Ok_0;
        lemma_segment_own(bytes.skip(cursor));
        let next = cursor + segment_bytes(x);
        let n = crate::decoder::counted(total, crate::decoder::pixels_of(x.header), limits)->Ok_0;
        let rest = segments_from(bytes, next, n, limits)->Ok_0;
        lemma_walk(bytes, next, n, limits);
        assert(list == seq![x] + rest);
        lemma_offset_first(rest, x, list.len() as int);
        assert forall|k: int|
            #![trigger list[k]]
            0 <= k < list.len() implies {
            let at = cursor + offset_of(list, k);
            &&& cursor <= at
            &&& at + segment_bytes(list[k]) <= bytes.len()
            &&& segment_at_start(bytes.skip(at)) == Ok::<Segment, Fault>(list[k])
        } by {
            if k > 0 {
                lemma_offset_first(rest, x, k);
                assert(list[k] == rest[k - 1]);
            } else {
                assert(offset_of(list, 0) == 0);
            }
        }
    } else {
        assert(list =~= Seq::empty());
        assert(offset_of(list, 0) == 0);
    }
}

// ---------------------------------------------------------------------------
// Entries
// ---------------------------------------------------------------------------

/// An entry of metadata tells of a segment in `bytes`: the bytes that it names
/// are one segment from the first to the last, walking from there on finds it,
/// and its header and the number of its packets are those of the entry.
pub open spec fn points_at_segment(bytes: Seq<u8>, m: SegmentMetadata) -> bool {
    &&& m.offset + m.byte_length <= bytes.len()
    &&& m.byte_length == 12 + m.header.segment_length
    &&& segment_at_start(bytes.skip(m.offset as int)) matches Ok(s) && s.header == m.header
        && s.packets.len() == m.packet_count
    &&& segment_at_start(
        bytes.subrange(m.offset as int, m.offset + m.byte_length),
    ) == segment_at_start(bytes.skip(m.offset as int))
}

proof fn lemma_plain_entry(bytes: Seq<u8>, limits: DecodeLimits, i: int)
    requires
        bytes.len() <= usize::MAX,
        plain_metadata(bytes, limits) is Ok,
        0 <= i < plain_metadata(bytes, limits)->Ok_0.len(),
    ensures
        points_at_segment(bytes, plain_metadata(bytes, limits)->Ok_0[i]),
        plain_metadata(bytes, limits)->Ok_0[i].offset == offset_of(
            stream_segments(bytes, limits)->Ok_0,
            i,
        ),
{
    let list = stream_segments(bytes, limits)->Ok_0;
    lemma_walk(bytes, 0, 0, limits);
    let x = list[i];
    let at = offset_of(list, i);
    lemma_segment_own(bytes.skip(at));
    let n = segment_bytes(x);
    assert(bytes.skip(at).take(n) =~= bytes.subrange(at, at + n));
    assert(plain_metadata(bytes, limits)->Ok_0[i] == metadata_entry(list, 0, i));
}

/// What an entry points at in a part of the bytes it points at in the whole.
proof fn lemma_rebased(bytes: Seq<u8>, start: int, end: int, m: SegmentMetadata)
    requires
        0 <= start <= end <= bytes.len() <= usize::MAX,
        points_at_segment(bytes.subrange(start, end), m),
    ensures
        points_at_segment(bytes, rebased(m, start)),
        rebased(m, start).offset == m.offset + start,
{
    let sub = bytes.subrange(start, end);
    let r = rebased(m, start);
    let (a, n) = (m.offset as int, m.byte_length as int);
    let piece = sub.subrange(a, a + n);
    assert(piece =~= bytes.subrange(start + a, start + a + n));
    assert(bytes.skip(start + a) =~= piece + bytes.skip(start + a + n));
    assert(framed(piece));
    crate::shuffle::lemma_segment_local(piece, bytes.skip(start + a + n));
}

proof fn lemma_start_grows(bytes: Seq<u8>, table: int, n: int, i: int, j: int)
    requires
        0 <= i <= j,
        0 <= table,
        0 <= n,
    ensures
        table + 4 * n <= plane_start(bytes, table, n, i) <= plane_start(bytes, table, n, j),
    decreases j,
{
    if i < j {
        lemma_start_grows(bytes, table, n, i, j - 1);
        assert(be32(bytes, table + 4 * (j - 1)) >= 0);
    } else if j > 0 {
        lemma_start_grows(bytes, table, n, j - 1, j - 1);
        assert(be32(bytes, table + 4 * (j - 1)) >= 0);
    }
}

proof fn lemma_placed(bytes: Seq<u8>, table: int, n: int, i: int, j: int)
    requires
        0 <= i <= j < n,
        placing_fault(bytes, table, n, i) is None,
    ensures
        plane_start(bytes, table, n, j + 1) <= bytes.len(),
    decreases n - i,
{
    if i < j {
        lemma_placed(bytes, table, n, i + 1, j);
    }
}

/// The streams of a container lie one behind the other.
pub proof fn lemma_ranges(bytes: Seq<u8>)
    requires
        parsed(bytes) is Ok,
    ensures
        ({
            let ranges = parsed(bytes)->Ok_0.1;
            &&& 1 <= ranges.len() <= 3
            &&& ranges.len() == parsed(bytes)->Ok_0.0.planes()
            &&& ranges[0].0 >= 4
            &&& forall|i: int|
                0 <= i < ranges.len() ==> 4 <= (#[trigger] ranges[i]).0 <= ranges[i].1
                    <= bytes.len()
            &&& forall|i: int, j: int|
                0 <= i < ranges.len() && j == i + 1 && j < ranges.len() ==> (
                #[trigger] ranges[i]).1 == (#[trigger] ranges[j]).0
        }),
{
    let format = container_format(bytes)->Ok_0;
    let n = format.planes() as int;
    let table = table_start(format);
    let ranges = parsed(bytes)->Ok_0.1;
    assert forall|i: int| 0 <= i < ranges.len() implies 4 <= (#[trigger] ranges[i]).0
        <= ranges[i].1 <= bytes.len() by {
        lemma_start_grows(bytes, table, n, i, i + 1);
        lemma_placed(bytes, table, n, 0, i);
    }
}

proof fn lemma_plane_entries(
    bytes: Seq<u8>,
    ranges: Seq<(int, int)>,
    limits: DecodeLimits,
    k: int,
    i: int,
)
    requires
        bytes.len() <= usize::MAX,
        0 <= k <= 3,
        planes_metadata(bytes, ranges, limits, k) is Ok,
        0 <= i < planes_metadata(bytes, ranges, limits, k)->Ok_0.0.len(),
    ensures
        points_at_segment(bytes, planes_metadata(bytes, ranges, limits, k)->Ok_0.0[i]),
    decreases bytes.len(), k,
{
    if k > 0 {
        let before = planes_metadata(bytes, ranges, limits, k - 1)->Ok_0.0;
        let (start, end) = ranges[k - 1];
        let sub = bytes.subrange(start, end);
        let entries = stream_metadata(sub, limits)->Ok_0;
        let all = planes_metadata(bytes, ranges, limits, k)->Ok_0.0;
        if i < before.len() {
            lemma_plane_entries(bytes, ranges, limits, k - 1, i);
            assert(all[i] == before[i]);
        } else {
            let j = i - before.len();
            assert(all[i] == rebased(entries[j], start));
            metadata_points_at_segments(sub, limits, j);
            lemma_rebased(bytes, start, end, entries[j]);
        }
    }
}

/// **Every entry of the metadata tells where a segment lies in the bytes that
/// were given**, how long it is, and what its header and the number of its
/// packets are.
pub proof fn metadata_points_at_segments(bytes: Seq<u8>, limits: DecodeLimits, i: int)
    requires
        bytes.len() <= usize::MAX,
        stream_metadata(bytes, limits) is Ok,
        0 <= i < stream_metadata(bytes, limits)->Ok_0.len(),
    ensures
        points_at_segment(bytes, stream_metadata(bytes, limits)->Ok_0[i]),
    decreases bytes.len(), 4int,
{
    if starts_container(bytes) {
        let ranges = parsed(bytes)->Ok_0.1;
        lemma_ranges(bytes);
        lemma_plane_entries(bytes, ranges, limits, ranges.len() as int, i);
    } else {
        lemma_plain_entry(bytes, limits, i);
    }
}

// ---------------------------------------------------------------------------
// All entries
// ---------------------------------------------------------------------------

/// The entries follow one another from `start` to `end` without a gap.
pub open spec fn tiles(m: Seq<SegmentMetadata>, start: int, end: int) -> bool {
    &&& m.len() == 0 ==> start == end
    &&& m.len() > 0 ==> m[0].offset == start && m.last().offset + m.last().byte_length == end
    &&& forall|i: int, j: int|
        0 <= i < m.len() && j == i + 1 && j < m.len() ==> (#[trigger] m[i]).offset
            + m[i].byte_length == (#[trigger] m[j]).offset
}

proof fn lemma_plain_tiles(bytes: Seq<u8>, limits: DecodeLimits)
    requires
        bytes.len() <= usize::MAX,
        plain_metadata(bytes, limits) is Ok,
    ensures
        tiles(plain_metadata(bytes, limits)->Ok_0, 0, bytes.len() as int),
{
    let list = stream_segments(bytes, limits)->Ok_0;
    let m = plain_metadata(bytes, limits)->Ok_0;
    lemma_walk(bytes, 0, 0, limits);
    assert forall|i: int| 0 <= i < m.len() implies (#[trigger] m[i]).offset == offset_of(list, i)
        && m[i].byte_length == segment_bytes(list[i]) by {
        lemma_plain_entry(bytes, limits, i);
    }
    if m.len() > 0 {
        let k = m.len() - 1;
        assert(offset_of(list, k + 1) == offset_of(list, k) + segment_bytes(list[k]));
        assert(offset_of(list, 0) == 0);
    } else {
        assert(offset_of(list, 0) == 0);
    }
}

/// No stream of a container is a container.
pub open spec fn unnested(bytes: Seq<u8>) -> bool {
    starts_container(bytes) && parsed(bytes) is Ok ==> forall|i: int|
        0 <= i < parsed(bytes)->Ok_0.1.len() ==> !starts_container(
            bytes.subrange((#[trigger] parsed(bytes)->Ok_0.1[i]).0, parsed(bytes)->Ok_0.1[i].1),
        )
}

/// What follows without a gap goes on without one.
proof fn lemma_tiles_join(
    a: Seq<SegmentMetadata>,
    b: Seq<SegmentMetadata>,
    start: int,
    middle: int,
    end: int,
)
    requires
        tiles(a, start, middle),
        tiles(b, middle, end),
    ensures
        tiles(a + b, start, end),
{
    let all = a + b;
    assert forall|i: int, j: int|
        0 <= i < all.len() && j == i + 1 && j < all.len() implies (#[trigger] all[i]).offset
        + all[i].byte_length == (#[trigger] all[j]).offset by {
        if j < a.len() {
            assert(all[i] == a[i] && all[j] == a[j]);
        } else if i >= a.len() {
            assert(all[i] == b[i - a.len()] && all[j] == b[j - a.len()]);
        } else {
            assert(all[i] == a.last() && all[j] == b[0]);
        }
    }
    if b.len() > 0 {
        assert(all.last() == b.last());
    } else if a.len() > 0 {
        assert(all.last() == a.last());
    }
    if a.len() > 0 {
        assert(all[0] == a[0]);
    } else if b.len() > 0 {
        assert(all[0] == b[0]);
    }
}

/// The entries of one stream of a container.
proof fn lemma_moved_tiles(bytes: Seq<u8>, limits: DecodeLimits, start: int, end: int)
    requires
        0 <= start <= end <= bytes.len() <= usize::MAX,
        plain_metadata(bytes.subrange(start, end), limits) is Ok,
    ensures
        ({
            let entries = plain_metadata(bytes.subrange(start, end), limits)->Ok_0;
            tiles(Seq::new(entries.len(), |i: int| rebased(entries[i], start)), start, end)
        }),
{
    let sub = bytes.subrange(start, end);
    let entries = plain_metadata(sub, limits)->Ok_0;
    lemma_plain_tiles(sub, limits);
    let moved = Seq::new(entries.len(), |i: int| rebased(entries[i], start));
    assert forall|i: int| 0 <= i < moved.len() implies (#[trigger] moved[i]).offset
        == entries[i].offset + start && moved[i].byte_length == entries[i].byte_length by {
        lemma_plain_entry(sub, limits, i);
        lemma_rebased(bytes, start, end, entries[i]);
    }
    assert forall|i: int, j: int|
        0 <= i < moved.len() && j == i + 1 && j < moved.len() implies (#[trigger] moved[i]).offset
        + moved[i].byte_length == (#[trigger] moved[j]).offset by {
        assert(entries[i].offset + entries[i].byte_length == entries[j].offset);
    }
    if moved.len() > 0 {
        assert(moved.last().offset == entries.last().offset + start);
    }
}

proof fn lemma_planes_tile(
    bytes: Seq<u8>,
    ranges: Seq<(int, int)>,
    limits: DecodeLimits,
    k: int,
)
    requires
        bytes.len() <= usize::MAX,
        forall|i: int|
            0 <= i < ranges.len() ==> 4 <= (#[trigger] ranges[i]).0 <= ranges[i].1 <= bytes.len()
                && !starts_container(bytes.subrange(ranges[i].0, ranges[i].1)),
        forall|i: int, j: int|
            0 <= i < ranges.len() && j == i + 1 && j < ranges.len() ==> (#[trigger] ranges[i]).1
                == (#[trigger] ranges[j]).0,
        1 <= k <= ranges.len() <= 3,
        planes_metadata(bytes, ranges, limits, k) is Ok,
    ensures
        tiles(planes_metadata(bytes, ranges, limits, k)->Ok_0.0, ranges[0].0, ranges[k - 1].1),
    decreases k,
{
    let before = planes_metadata(bytes, ranges, limits, k - 1)->Ok_0.0;
    let all = planes_metadata(bytes, ranges, limits, k)->Ok_0.0;
    let (start, end) = ranges[k - 1];
    let sub = bytes.subrange(start, end);
    assert(!starts_container(sub));
    let entries = stream_metadata(sub, limits)->Ok_0;
    assert(entries == plain_metadata(sub, limits)->Ok_0);
    let moved = Seq::new(entries.len(), |i: int| rebased(entries[i], start));
    lemma_moved_tiles(bytes, limits, start, end);
    assert(all == before + moved);
    if k > 1 {
        lemma_planes_tile(bytes, ranges, limits, k - 1);
        assert(ranges[k - 2].1 == ranges[k - 1].0);
        lemma_tiles_join(before, moved, ranges[0].0, start, end);
    } else {
        assert(before =~= Seq::empty());
        assert(all =~= moved);
    }
}

/// **The metadata leaves out no segment**: its entries follow one another from
/// the first byte of a stream to the last, or of a container from the first
/// byte of its first stream to the last one of its last. Streams that are
/// containers themselves are not part of this: between their entries stand
/// their own heads.
pub proof fn metadata_leaves_out_nothing(bytes: Seq<u8>, limits: DecodeLimits)
    requires
        bytes.len() <= usize::MAX,
        stream_metadata(bytes, limits) is Ok,
        unnested(bytes),
    ensures
        !starts_container(bytes) ==> tiles(
            stream_metadata(bytes, limits)->Ok_0,
            0,
            bytes.len() as int,
        ),
        starts_container(bytes) ==> parsed(bytes) is Ok && tiles(
            stream_metadata(bytes, limits)->Ok_0,
            parsed(bytes)->Ok_0.1[0].0,
            parsed(bytes)->Ok_0.1.last().1,
        ),
{
    if starts_container(bytes) {
        lemma_ranges(bytes);
        let ranges = parsed(bytes)->Ok_0.1;
        assert forall|i: int| 0 <= i < ranges.len() implies 4 <= (#[trigger] ranges[i]).0
            <= ranges[i].1 <= bytes.len() && !starts_container(
            bytes.subrange(ranges[i].0, ranges[i].1),
        ) by {}
        lemma_planes_tile(bytes, ranges, limits, ranges.len() as int);
    } else {
        lemma_plain_tiles(bytes, limits);
    }
}

// ---------------------------------------------------------------------------
// When there is metadata
// ---------------------------------------------------------------------------

/// Limits that allow all that others allow.
pub open spec fn wider(limits: DecodeLimits, other: DecodeLimits) -> bool {
    &&& limits.max_pixels_per_segment >= other.max_pixels_per_segment
    &&& limits.max_total_pixels >= other.max_total_pixels
}

/// Number of samples of the first `k` segments.
spec fn samples_until(list: Seq<Segment>, k: int) -> int
    decreases k,
{
    if k <= 0 {
        0
    } else {
        samples_until(list, k - 1) + crate::decoder::pixels_of(list[k - 1].header)
    }
}

proof fn lemma_samples_first(list: Seq<Segment>, x: Segment, k: int)
    requires
        1 <= k <= list.len() + 1,
    ensures
        samples_until(seq![x] + list, k) == crate::decoder::pixels_of(x.header) + samples_until(
            list,
            k - 1,
        ),
    decreases k,
{
    let all = seq![x] + list;
    if k > 1 {
        lemma_samples_first(list, x, k - 1);
        assert(all[k - 1] == list[k - 2]);
    } else {
        assert(all[0] == x);
        assert(samples_until(all, 0) == 0 && samples_until(list, 0) == 0);
        assert(samples_until(all, 1) == samples_until(all, 0) + crate::decoder::pixels_of(
            all[0].header,
        ));
    }
}

/// What can be walked within limits can be walked within wider ones.
proof fn lemma_wider_walk(
    bytes: Seq<u8>,
    cursor: int,
    total: int,
    limits: DecodeLimits,
    wide: DecodeLimits,
)
    requires
        0 <= cursor <= bytes.len(),
        0 <= total <= limits.max_total_pixels,
        wider(wide, limits),
        segments_from(bytes, cursor, total, limits) is Ok,
    ensures
        segments_from(bytes, cursor, total, wide) == segments_from(bytes, cursor, total, limits),
        ({
            let list = segments_from(bytes, cursor, total, limits)->Ok_0;
            total + samples_until(list, list.len() as int) <= limits.max_total_pixels
        }),
    decreases bytes.len() - cursor,
{
    if cursor < bytes.len() {
        let x = segment_at_start(bytes.skip(cursor))->Ok_0;
        lemma_segment_own(bytes.skip(cursor));
        let next = cursor + segment_bytes(x);
        let n = total + crate::decoder::pixels_of(x.header);
        crate::shuffle::lemma_pixels_positive(x.header);
        let rest = segments_from(bytes, next, n, limits)->Ok_0;
        lemma_wider_walk(bytes, next, n, limits, wide);
        lemma_samples_first(rest, x, rest.len() as int + 1);
    } else {
        assert(segments_from(bytes, cursor, total, limits)->Ok_0 =~= Seq::empty());
    }
}

proof fn lemma_counted(
    list: Seq<Segment>,
    m: Seq<SegmentMetadata>,
    total: int,
    limits: DecodeLimits,
    k: int,
)
    requires
        0 <= k <= list.len() == m.len(),
        forall|i: int| 0 <= i < m.len() ==> (#[trigger] m[i]).header == list[i].header,
        0 <= total,
        total + samples_until(list, k) <= limits.max_total_pixels,
    ensures
        counted_all(m, total, limits, k) == Ok::<int, Fault>(total + samples_until(list, k)),
    decreases k,
{
    if k > 0 {
        crate::shuffle::lemma_pixels_positive(list[k - 1].header);
        lemma_counted(list, m, total, limits, k - 1);
        assert(m[k - 1].header == list[k - 1].header);
    }
}

/// The streams of a container can be walked.
spec fn all_walked(bytes: Seq<u8>, ranges: Seq<(int, int)>, limits: DecodeLimits) -> bool {
    forall|i: int|
        0 <= i < ranges.len() ==> 4 <= (#[trigger] ranges[i]).0 <= ranges[i].1 <= bytes.len() && {
            let sub = bytes.subrange(ranges[i].0, ranges[i].1);
            &&& !starts_container(sub)
            &&& stream_segments(sub, limits) is Ok
        }
}

proof fn lemma_all_metadata(
    bytes: Seq<u8>,
    ranges: Seq<(int, int)>,
    limits: DecodeLimits,
    wide: DecodeLimits,
    k: int,
)
    requires
        0 <= k <= ranges.len() <= 3,
        all_walked(bytes, ranges, limits),
        wider(wide, limits),
        3 * limits.max_total_pixels <= wide.max_total_pixels,
    ensures
        planes_metadata(bytes, ranges, wide, k) is Ok,
        0 <= planes_metadata(bytes, ranges, wide, k)->Ok_0.1 <= k * limits.max_total_pixels,
    decreases k,
{
    if k > 0 {
        lemma_all_metadata(bytes, ranges, limits, wide, k - 1);
        let total = planes_metadata(bytes, ranges, wide, k - 1)->Ok_0.1;
        let (start, end) = ranges[k - 1];
        assert(4 <= ranges[k - 1].0);
        let sub = bytes.subrange(start, end);
        lemma_wider_walk(sub, 0, 0, limits, wide);
        let list = stream_segments(sub, wide)->Ok_0;
        let m = stream_metadata(sub, wide)->Ok_0;
        assert(m == Seq::new(list.len(), |i: int| metadata_entry(list, 0, i)));
        assert(total + samples_until(list, list.len() as int) <= k * limits.max_total_pixels <= 3
            * limits.max_total_pixels) by (nonlinear_arith)
            requires
                total <= (k - 1) * limits.max_total_pixels,
                samples_until(list, list.len() as int) <= limits.max_total_pixels,
                1 <= k <= 3,
        ;
        lemma_counted(list, m, total, wide, list.len() as int);
        lemma_samples_positive(list, list.len() as int);
    } else {
        assert(0 * limits.max_total_pixels == 0);
    }
}

proof fn lemma_samples_positive(list: Seq<Segment>, k: int)
    ensures
        samples_until(list, k) >= 0,
    decreases k,
{
    if k > 0 {
        lemma_samples_positive(list, k - 1);
        crate::shuffle::lemma_pixels_positive(list[k - 1].header);
    }
}

/// A stream whose segments can be walked is no container.
proof fn lemma_walked_plain(sub: Seq<u8>, limits: DecodeLimits)
    requires
        stream_segments(sub, limits) is Ok,
        stream_segments(sub, limits)->Ok_0.len() > 0,
    ensures
        !starts_container(sub),
{
    assert(sub.skip(0) =~= sub);
    if sub.len() > 0 {
        assert(segment_header(sub) is Ok);
    }
}

/// Every stream of a container is decoded, and so can be walked.
proof fn lemma_decoded_walks(
    bytes: Seq<u8>,
    ranges: Seq<(int, int)>,
    bits: u8,
    limits: DecodeLimits,
    k: int,
    i: int,
)
    requires
        0 <= i < k,
        planes_decoded(bytes, ranges, bits, limits, k) is Ok || planes_partial(
            bytes,
            ranges,
            bits,
            limits,
            k,
        ) is Ok,
    ensures
        ({
            let sub = bytes.subrange(ranges[i].0, ranges[i].1);
            &&& stream_segments(sub, limits) is Ok
            &&& !starts_container(sub)
        }),
    decreases k,
{
    if i < k - 1 {
        lemma_decoded_walks(bytes, ranges, bits, limits, k - 1, i);
    } else {
        let sub = bytes.subrange(ranges[i].0, ranges[i].1);
        lemma_walked_plain(sub, limits);
    }
}

/// **What can be decoded has metadata**, strictly or leniently: a stream within
/// the same limits, and a container within limits that allow the samples of all
/// of its planes.
pub proof fn decodable_images_have_metadata(bytes: Seq<u8>, limits: DecodeLimits, wide: DecodeLimits)
    requires
        image_decoded(bytes, limits) is Ok || image_partial(bytes, limits) is Ok,
        wider(wide, limits),
        starts_container(bytes) ==> 3 * limits.max_total_pixels <= wide.max_total_pixels,
    ensures
        stream_metadata(bytes, wide) is Ok,
{
    if starts_container(bytes) {
        let (format, ranges) = parsed(bytes)->Ok_0;
        let bits = depth_of_format(format);
        lemma_ranges(bytes);
        assert forall|i: int| 0 <= i < ranges.len() implies 4 <= (#[trigger] ranges[i]).0
            <= ranges[i].1 <= bytes.len() && {
            let sub = bytes.subrange(ranges[i].0, ranges[i].1);
            &&& !starts_container(sub)
            &&& stream_segments(sub, limits) is Ok
        } by {
            lemma_decoded_walks(bytes, ranges, bits, limits, ranges.len() as int, i);
        }
        lemma_all_metadata(bytes, ranges, limits, wide, ranges.len() as int);
    } else {
        lemma_wider_walk(bytes, 0, 0, limits, wide);
    }
}

} // verus!
