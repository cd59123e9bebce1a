//! What a lenient decoder reports of a cube stream that ends early.

use crate::bitplane3d::CodedGroup;
use crate::bytes::{be16, be32};
use crate::cube_decode::{count_there, cube_decoded, holds_cube, tells_of, LenientCubeDecode};
use crate::cube_wire::{cube_bytes, fixed_fault, groups_read, header_fields, means_at, segment_read, segments_read, CubeHeader, SegmentData};
use crate::decoder::DecodeLimits;
use crate::roundtrip3d::{can_carry, cube_streams_read_back};
use vstd::prelude::*;

verus! {

/// Bytes of the first `k` packets: 5 for the head of each, and its body.
pub open spec fn packets_len(packets: Seq<CodedGroup>, k: int) -> int
    decreases k,
{
    if k <= 0 {
        0
    } else {
        packets_len(packets, k - 1) + 5 + packets[k - 1].body.len()
    }
}

/// Where segment `k` of a stream starts: behind 17 bytes of the stream's header,
/// and behind the segments before it, which have 4 bytes, 4 for the mean of each
/// band, and their packets.
pub open spec fn segment_start(list: Seq<Option<SegmentData>>, bands: int, k: int) -> int
    decreases k,
{
    if k <= 0 {
        17
    } else {
        let packets = list[k - 1]->0.packets;
        segment_start(list, bands, k - 1) + 4 + 4 * bands + packets_len(
            packets,
            packets.len() as int,
        )
    }
}

/// Where the first `p` packets of segment `k` end.
pub open spec fn packets_end(list: Seq<Option<SegmentData>>, bands: int, k: int, p: int) -> int {
    segment_start(list, bands, k) + 4 + 4 * bands + packets_len(list[k]->0.packets, p)
}

proof fn lemma_len_take(packets: Seq<CodedGroup>, n: int, k: int)
    requires
        0 <= k <= n <= packets.len(),
    ensures
        packets_len(packets.take(n), k) == packets_len(packets, k),
        packets_len(packets, k) >= 0,
    decreases k,
{
    if k > 0 {
        lemma_len_take(packets, n, k - 1);
    }
}

/// Packets that were all read.
proof fn lemma_all_read(bytes: Seq<u8>, pos: int, k: int)
    requires
        0 <= pos,
        0 <= k,
        !groups_read(bytes, pos, k).cut,
    ensures
        ({
            let r = groups_read(bytes, pos, k);
            &&& r.packets.len() == k
            &&& r.end == pos + packets_len(r.packets, k)
            &&& pos <= r.end
            &&& k > 0 ==> {
                let before = groups_read(bytes, pos, k - 1);
                &&& !before.cut
                &&& before.packets == r.packets.take(k - 1)
                &&& r.packets[k - 1].body.len() == be32(bytes, before.end + 1)
                &&& before.end == pos + packets_len(r.packets, k - 1)
            }
        }),
    decreases k,
{
    if k > 0 {
        lemma_all_read(bytes, pos, k - 1);
        let before = groups_read(bytes, pos, k - 1);
        let r = groups_read(bytes, pos, k);
        assert(r.packets.take(k - 1) =~= before.packets);
        lemma_len_take(r.packets, k - 1, k - 1);
        assert(be32(bytes, before.end + 1) >= 0);
    }
}

/// Packets in the first `n` bytes: those that end there.
proof fn lemma_some_read(bytes: Seq<u8>, n: int, pos: int, k: int)
    requires
        0 <= pos <= n <= bytes.len(),
        0 <= k,
        !groups_read(bytes, pos, k).cut,
    ensures
        ({
            let whole = groups_read(bytes, pos, k).packets;
            let part = groups_read(bytes.take(n), pos, k);
            let p = part.packets.len() as int;
            &&& whole.len() == k
            &&& p <= k
            &&& part.packets == whole.take(p)
            &&& part.end == pos + packets_len(whole, p)
            &&& part.end <= n
            &&& p < k ==> pos + packets_len(whole, p + 1) > n
            &&& part.cut <==> p < k
        }),
    decreases k,
{
    lemma_all_read(bytes, pos, k);
    if k > 0 {
        lemma_some_read(bytes, n, pos, k - 1);
        let some = bytes.take(n);
        let whole = groups_read(bytes, pos, k).packets;
        let first = groups_read(bytes, pos, k - 1).packets;
        let before = groups_read(some, pos, k - 1);
        let part = groups_read(some, pos, k);
        let p = before.packets.len() as int;
        assert(first == whole.take(k - 1));
        assert(first.take(p) =~= whole.take(p));
        lemma_len_take(whole, k - 1, p);
        if before.cut {
            lemma_len_take(whole, k - 1, p + 1);
        } else {
            let at = before.end;
            assert(whole.take(k - 1) =~= before.packets);
            assert(groups_read(bytes, pos, k - 1).end == at);
            if at + 5 <= n {
                assert(be32(some, at + 1) == be32(bytes, at + 1));
                let end = at + 5 + be32(bytes, at + 1);
                if end <= n {
                    assert(some.subrange(at + 5, end) =~= bytes.subrange(at + 5, end));
                    assert(part.packets =~= whole);
                    assert(whole.take(k) =~= whole);
                }
            }
        }
    } else {
        assert(groups_read(bytes, pos, k).packets.take(0) =~= Seq::<CodedGroup>::empty());
    }
}

/// What is left of a segment that starts at `pos` in the first `n` bytes.
spec fn left_of_segment(
    part: Option<SegmentData>,
    whole: SegmentData,
    pos: int,
    bands: int,
    n: int,
) -> bool {
    &&& part is Some <==> pos + 2 + 4 * bands <= n
    &&& part is Some ==> {
        let p = part->0.packets.len() as int;
        &&& part->0.q == whole.q
        &&& part->0.means == whole.means
        &&& p <= whole.packets.len()
        &&& part->0.packets == whole.packets.take(p)
        &&& p > 0 ==> pos + 4 + 4 * bands + packets_len(whole.packets, p) <= n
        &&& p < whole.packets.len() ==> pos + 4 + 4 * bands + packets_len(whole.packets, p + 1) > n
    }
}

proof fn lemma_segment_left(bytes: Seq<u8>, n: int, pos: int, index: int, bands: int)
    requires
        0 <= pos <= n <= bytes.len(),
        bands >= 0,
        segment_read(bytes, pos, index, bands).fault is None,
    ensures
        ({
            let whole = segment_read(bytes, pos, index, bands);
            let part = segment_read(bytes.take(n), pos, index, bands);
            &&& whole.data is Some
            &&& whole.end == pos + 4 + 4 * bands + packets_len(
                whole.data->0.packets,
                whole.data->0.packets.len() as int,
            )
            &&& whole.end >= pos + 4 + 4 * bands
            &&& left_of_segment(part.data, whole.data->0, pos, bands, n)
            &&& part.fault is Some <==> whole.end > n
            &&& part.fault is None ==> part.end == whole.end
        }),
{
    let some = bytes.take(n);
    let whole = segment_read(bytes, pos, index, bands);
    let at = pos + 2 + 4 * bands;
    assert(fixed_fault(bytes, pos, index, bands) is None);
    let k = be16(bytes, at);
    assert(k >= 0);
    assert(!groups_read(bytes, at + 2, k).cut);
    lemma_all_read(bytes, at + 2, k);
    let packets = whole.data->0.packets;
    if at <= n {
        assert(means_at(some, pos + 2, bands) =~= means_at(bytes, pos + 2, bands)) by {
            assert forall|j: int| 0 <= j < bands implies #[trigger] means_at(some, pos + 2, bands)[j]
                == means_at(bytes, pos + 2, bands)[j] by {
                assert(be32(some, pos + 2 + 4 * j) == be32(bytes, pos + 2 + 4 * j));
            }
        }
        if at + 2 <= n {
            assert(be16(some, at) == k);
            lemma_some_read(bytes, n, at + 2, k);
            let p = segment_read(some, pos, index, bands).data->0.packets.len() as int;
            if p < k {
                lemma_len_grows(packets, p + 1, k);
            }
        } else {
            assert(packets.take(0) =~= Seq::<CodedGroup>::empty());
            if packets.len() > 0 {
                reveal_with_fuel(packets_len, 2);
            }
        }
    }
}

proof fn lemma_len_grows(packets: Seq<CodedGroup>, j: int, k: int)
    requires
        0 <= j <= k <= packets.len(),
    ensures
        packets_len(packets, j) <= packets_len(packets, k),
    decreases k,
{
    if j < k {
        lemma_len_grows(packets, j, k - 1);
    }
}

proof fn lemma_starts_alike(a: Seq<Option<SegmentData>>, b: Seq<Option<SegmentData>>, bands: int, k: int)
    requires
        0 <= k <= a.len(),
        k <= b.len(),
        forall|i: int| 0 <= i < k ==> a[i] == b[i],
    ensures
        segment_start(a, bands, k) == segment_start(b, bands, k),
    decreases k,
{
    if k > 0 {
        lemma_starts_alike(a, b, bands, k - 1);
        assert(a[k - 1] == b[k - 1]);
    }
}

proof fn lemma_segments_left(bytes: Seq<u8>, n: int, bands: int, k: int)
    requires
        17 <= n <= bytes.len(),
        bands >= 0,
        0 <= k,
        segments_read(bytes, 17, bands, k).fault is None,
    ensures
        ({
            let whole = segments_read(bytes, 17, bands, k);
            let part = segments_read(bytes.take(n), 17, bands, k);
            &&& whole.list.len() == k
            &&& part.list.len() == k
            &&& whole.pos == segment_start(whole.list, bands, k)
            &&& whole.pos >= 17
            &&& part.fault is Some <==> whole.pos > n
            &&& part.fault is None ==> part.pos == whole.pos
            &&& forall|i: int| 0 <= i < k ==> (#[trigger] whole.list[i]) is Some
            &&& forall|i: int|
                0 <= i < k ==> left_of_segment(
                    #[trigger] part.list[i],
                    whole.list[i]->0,
                    segment_start(whole.list, bands, i),
                    bands,
                    n,
                )
        }),
    decreases k,
{
    if k > 0 {
        lemma_segments_left(bytes, n, bands, k - 1);
        let whole = segments_read(bytes, 17, bands, k);
        let part = segments_read(bytes.take(n), 17, bands, k);
        let before = segments_read(bytes, 17, bands, k - 1);
        let some = segments_read(bytes.take(n), 17, bands, k - 1);
        lemma_starts_alike(before.list, whole.list, bands, k - 1);
        if before.pos <= n {
            lemma_segment_left(bytes, n, before.pos, k - 1, bands);
        } else {
            lemma_segment_left(bytes, bytes.len() as int, before.pos, k - 1, bands);
        }
        assert forall|i: int| 0 <= i < k implies left_of_segment(
            #[trigger] part.list[i],
            whole.list[i]->0,
            segment_start(whole.list, bands, i),
            bands,
            n,
        ) by {
            if i < k - 1 {
                lemma_starts_alike(before.list, whole.list, bands, i);
                assert(part.list[i] == some.list[i]);
                assert(whole.list[i] == before.list[i]);
            }
        }
    }
}

/// Segments that are there come first.
proof fn lemma_there(list: Seq<Option<SegmentData>>, k: int, i: int)
    requires
        0 <= i < k <= list.len(),
        forall|a: int, b: int|
            0 <= a < b < list.len() && (#[trigger] list[b]) is Some ==> (#[trigger] list[a]) is Some,
    ensures
        i < count_there(list, k) <==> list[i] is Some,
        0 <= count_there(list, k) <= k,
    decreases k,
{
    if k > 1 {
        lemma_there(list, k - 1, if i < k - 1 {
            i
        } else {
            k - 2
        });
        lemma_there(list, k - 1, k - 2);
        if list[k - 1] is Some {
            assert(list[k - 2] is Some);
            assert(list[i] is Some);
        }
    } else {
        assert(count_there(list, 0) == 0);
    }
}

proof fn lemma_starts_grow(list: Seq<Option<SegmentData>>, bands: int, j: int, k: int)
    requires
        0 <= j <= k <= list.len(),
        bands >= 0,
    ensures
        segment_start(list, bands, j) <= segment_start(list, bands, k),
    decreases k,
{
    if j < k {
        lemma_starts_grow(list, bands, j, k - 1);
        let packets = list[k - 1]->0.packets;
        lemma_len_take(packets, packets.len() as int, packets.len() as int);
    }
}

/// Of segment `k` those packets are counted that end in the first `n` bytes, and
/// the segment itself is if its means do.
pub open spec fn counts_what_ends(
    r: LenientCubeDecode,
    list: Seq<Option<SegmentData>>,
    bands: int,
    n: int,
    k: int,
) -> bool {
    let p = r.packets_received@[k] as int;
    &&& k < r.segments_received <==> segment_start(list, bands, k) + 2 + 4 * bands <= n
    &&& p <= list[k]->0.packets.len()
    &&& p > 0 ==> packets_end(list, bands, k, p) <= n
    &&& p < list[k]->0.packets.len() ==> packets_end(list, bands, k, p + 1) > n
}

/// **A lenient decoder tells what is left of a cube stream that ends early.** Of
/// the first `n` bytes of a stream it counts the segments whose means are there,
/// and of each segment exactly the packets that end there. It says that the
/// stream is truncated if and only if some of it is missing.
pub proof fn cut_cubes_tell_what_is_left(
    bytes: Seq<u8>,
    limits: DecodeLimits,
    n: int,
    r: LenientCubeDecode,
)
    requires
        cube_decoded(bytes, limits, false) is Ok,
        17 <= n <= bytes.len(),
        cube_decoded(bytes.take(n), limits, true) matches Ok(d) && tells_of(r, d),
    ensures
        ({
            let whole = cube_decoded(bytes, limits, false)->Ok_0;
            let list = whole.reading.list;
            let bands = whole.header.bands as int;
            let count = list.len() as int;
            &&& r.cube.width == whole.header.width
            &&& r.cube.height == whole.header.height
            &&& r.cube.bands == whole.header.bands
            &&& r.packets_received@.len() == count
            &&& r.truncated <==> n < segment_start(list, bands, count)
            &&& forall|k: int|
                0 <= k < count ==> #[trigger] counts_what_ends(r, list, bands, n, k)
        }),
{
    let some = bytes.take(n);
    let whole = cube_decoded(bytes, limits, false)->Ok_0;
    let d = cube_decoded(some, limits, true)->Ok_0;
    assert(some.take(4) =~= bytes.take(4));
    assert(header_fields(some) == header_fields(bytes));
    let h = whole.header;
    let bands = h.bands as int;
    let list = whole.reading.list;
    let count = h.count as int;
    lemma_segments_left(bytes, n, bands, count);
    let part = d.reading.list;
    assert forall|a: int, b: int|
        0 <= a < b < part.len() && (#[trigger] part[b]) is Some implies (
    #[trigger] part[a]) is Some by {
        lemma_starts_grow(list, bands, a, b);
    }
    assert forall|k: int| 0 <= k < count implies #[trigger] counts_what_ends(
        r,
        list,
        bands,
        n,
        k,
    ) by {
        lemma_there(part, count, k);
        assert(left_of_segment(
            part[k],
            list[k]->0,
            segment_start(list, bands, k),
            bands,
            n,
        ));
        if part[k] is None && list[k]->0.packets.len() > 0 {
            reveal_with_fuel(packets_len, 2);
        }
    }
}

/// Segments with the first packets of each.
pub open spec fn first_packets(list: Seq<SegmentData>, counts: Seq<usize>) -> Seq<SegmentData> {
    Seq::new(
        list.len(),
        |k: int|
            SegmentData { packets: list[k].packets.take(counts[k] as int), ..list[k] },
    )
}

/// **What is left of a cube stream decodes as a stream of just that.** Where the
/// means of all segments are there, the cube that a lenient decoder shows is the
/// one that a strict decoder shows of a stream with no packets but the received.
pub proof fn cut_cubes_decode_what_is_left(
    h: CubeHeader,
    list: Seq<SegmentData>,
    limits: DecodeLimits,
    n: int,
    r: LenientCubeDecode,
)
    requires
        h.valid(),
        list.len() == h.count,
        forall|k: int| 0 <= k < list.len() ==> can_carry(#[trigger] list[k], h.bands as int),
        cube_decoded(cube_bytes(h, list), limits, false) is Ok,
        17 <= n <= cube_bytes(h, list).len(),
        cube_decoded(cube_bytes(h, list).take(n), limits, true) matches Ok(d) && tells_of(r, d),
        r.segments_received == list.len(),
    ensures
        cube_decoded(
            cube_bytes(h, first_packets(list, r.packets_received@)),
            limits,
            false,
        ) matches Ok(d) && holds_cube(r.cube, d),
{
    let bytes = cube_bytes(h, list);
    let some = bytes.take(n);
    let cut = first_packets(list, r.packets_received@);
    let bands = h.bands as int;
    cube_streams_read_back(h, list);
    cut_cubes_tell_what_is_left(bytes, limits, n, r);
    let whole = cube_decoded(bytes, limits, false)->Ok_0;
    let d = cube_decoded(some, limits, true)->Ok_0;
    assert(some.take(4) =~= bytes.take(4));
    assert(header_fields(some) == header_fields(bytes));
    let count = h.count as int;
    lemma_segments_left(bytes, n, bands, count);
    let part = d.reading.list;
    assert forall|k: int| 0 <= k < count implies part[k] == Some(#[trigger] cut[k]) by {
        assert(counts_what_ends(r, whole.reading.list, bands, n, k));
        assert(left_of_segment(
            part[k],
            whole.reading.list[k]->0,
            segment_start(whole.reading.list, bands, k),
            bands,
            n,
        ));
        assert(whole.reading.list[k] == Some(list[k]));
    }
    assert forall|k: int| 0 <= k < cut.len() implies can_carry(#[trigger] cut[k], bands) by {
        assert(can_carry(list[k], bands));
        assert(counts_what_ends(r, whole.reading.list, bands, n, k));
    }
    cube_streams_read_back(h, cut);
    assert(part =~= Seq::new(cut.len(), |k: int| Some(cut[k])));
}

} // verus!
