//! Cube streams under quotas, and cube streams that end early.

use crate::bitplane3d::{cube_coded, cube_said, CodedGroup, Layout, TOP_PRIORITY};
use crate::bytes::{be16, be32};
use crate::cube::{cube_encoded, framing, kept_from, kept_row, segment_coded, segments_coded, stream_header, within_quota, CubeEncodeOptions, IcerCube, Keeping};
use crate::cube_decode::{cube_decoded, DecodedCube};
use crate::cube_wire::{fixed_fault, groups_read, header_fields, means_at, segment_read, segments_read, SegmentData};
use crate::decoder::DecodeLimits;
use crate::entropy::EntropyKind;
use crate::error::Fault;
use crate::roundtrip3d::{groups_len, header_reads_back, kept_len, lemma_kept_update, lemma_nothing_kept, lemma_segments_carried, lemma_segments_len, lemma_stream_header, lemma_stream_read};
use vstd::prelude::*;

verus! {

// ---------------------------------------------------------------------------
// The order of packets
// ---------------------------------------------------------------------------

/// Packets come from the highest priority down, and no two have the same.
pub open spec fn descending(packets: Seq<CodedGroup>) -> bool {
    &&& forall|a: int, b: int|
        0 <= a < b < packets.len() ==> (#[trigger] packets[a]).priority > (
        #[trigger] packets[b]).priority
    &&& forall|a: int| 0 <= a < packets.len() ==> (#[trigger] packets[a]).priority <= TOP_PRIORITY
}

pub proof fn lemma_descending(
    lay: Layout,
    coeffs: Seq<i32>,
    kind: EntropyKind,
    q: int,
    floor: int,
    p: int,
)
    requires
        0 <= p <= TOP_PRIORITY + 1,
    ensures
        descending(cube_said(lay, coeffs, kind, q, floor, p).packets),
        forall|a: int|
            0 <= a < cube_said(lay, coeffs, kind, q, floor, p).packets.len() ==> ({
                let x = #[trigger] cube_said(lay, coeffs, kind, q, floor, p).packets[a];
                x.priority >= p && x.priority >= floor
            }),
    decreases TOP_PRIORITY + 1 - p,
{
    if p <= TOP_PRIORITY {
        lemma_descending(lay, coeffs, kind, q, floor, p + 1);
    }
}

/// **The packets of a cube come from the highest priority down**, one for each
/// priority at most, and none below the minimum.
pub proof fn cube_packets_descend(
    lay: Layout,
    coeffs: Seq<i32>,
    kind: EntropyKind,
    q: int,
    floor: int,
)
    ensures
        descending(cube_coded(lay, coeffs, kind, q, floor)),
        forall|a: int|
            0 <= a < cube_coded(lay, coeffs, kind, q, floor).len() ==> (
            #[trigger] cube_coded(lay, coeffs, kind, q, floor)[a]).priority >= floor,
{
    lemma_descending(lay, coeffs, kind, q, floor, 0);
}

// ---------------------------------------------------------------------------
// Ample quotas
// ---------------------------------------------------------------------------

/// The first `n` packets are those with priority `p` and more.
spec fn down_to(packets: Seq<CodedGroup>, n: int, p: int) -> bool {
    &&& 0 <= n <= packets.len()
    &&& n < packets.len() ==> packets[n].priority < p
}

/// Bytes of all packets of the first `k` segments.
spec fn all_lens(list: Seq<SegmentData>) -> Seq<int> {
    Seq::new(list.len(), |i: int| list[i].packets.len() as int)
}

proof fn lemma_groups_grow(packets: Seq<CodedGroup>, j: int, k: int)
    requires
        0 <= j <= k,
    ensures
        groups_len(packets, j) <= groups_len(packets, k),
    decreases k,
{
    if j < k {
        lemma_groups_grow(packets, j, k - 1);
    }
}

/// Keeping fewer packets takes fewer bytes.
proof fn lemma_kept_grows(list: Seq<SegmentData>, a: Seq<int>, b: Seq<int>, k: int)
    requires
        0 <= k <= list.len(),
        a.len() == list.len() == b.len(),
        forall|i: int| 0 <= i < list.len() ==> 0 <= #[trigger] a[i] <= b[i],
    ensures
        kept_len(list, a, k) <= kept_len(list, b, k),
    decreases k,
{
    if k > 0 {
        lemma_kept_grows(list, a, b, k - 1);
        assert(0 <= a[k - 1] <= b[k - 1]);
        lemma_groups_grow(list[k - 1].packets, a[k - 1], b[k - 1]);
    }
}

/// What is kept before segment `s` of the row of priority `p`, where the quota
/// is ample.
spec fn keeps_down_to(list: Seq<SegmentData>, floor: int, st: Keeping, p: int, s: int) -> bool {
    &&& !st.stopped
    &&& st.keep.len() == list.len()
    &&& st.used == floor + kept_len(list, st.keep, list.len() as int)
    &&& forall|i: int|
        0 <= i < list.len() ==> down_to(
            list[i].packets,
            #[trigger] st.keep[i],
            if i < s {
                p
            } else {
                p + 1
            },
        )
}

/// Every segment has its packets in order.
spec fn all_descending(list: Seq<SegmentData>) -> bool {
    forall|i: int| 0 <= i < list.len() ==> descending((#[trigger] list[i]).packets)
}

proof fn lemma_row_ample(list: Seq<SegmentData>, quota: int, floor: int, st: Keeping, p: int, s: int)
    requires
        all_descending(list),
        floor + kept_len(list, all_lens(list), list.len() as int) <= quota,
        keeps_down_to(list, floor, st, p, 0),
        0 <= s <= list.len(),
    ensures
        keeps_down_to(list, floor, kept_row(list, quota, st, p, s), p, s),
    decreases s,
{
    if s > 0 {
        lemma_row_ample(list, quota, floor, st, p, s - 1);
        let before = kept_row(list, quota, st, p, s - 1);
        let after = kept_row(list, quota, st, p, s);
        let k = before.keep[s - 1];
        let n = list.len() as int;
        let packets = list[s - 1].packets;
        assert(down_to(packets, k, p + 1));
        assert(descending(packets));
        if k < packets.len() && packets[k].priority == p {
            let more = before.keep.update(s - 1, k + 1);
            lemma_kept_update(list, before.keep, s - 1, n);
            assert forall|i: int| 0 <= i < n implies 0 <= #[trigger] more[i] <= all_lens(list)[i] by {
                if i != s - 1 {
                    assert(down_to(
                        list[i].packets,
                        before.keep[i],
                        if i < s - 1 {
                            p
                        } else {
                            p + 1
                        },
                    ));
                }
            }
            lemma_kept_grows(list, more, all_lens(list), n);
            assert(after.keep == more);
        }
        assert forall|i: int| 0 <= i < n implies down_to(
            list[i].packets,
            #[trigger] after.keep[i],
            if i < s {
                p
            } else {
                p + 1
            },
        ) by {
            assert(down_to(
                list[i].packets,
                before.keep[i],
                if i < s - 1 {
                    p
                } else {
                    p + 1
                },
            ));
        }
    }
}

proof fn lemma_from_ample(list: Seq<SegmentData>, quota: int, floor: int, p: int)
    requires
        all_descending(list),
        floor + kept_len(list, all_lens(list), list.len() as int) <= quota,
        0 <= p <= TOP_PRIORITY + 1,
    ensures
        keeps_down_to(list, floor, kept_from(list, quota, floor, p), p, list.len() as int),
    decreases TOP_PRIORITY + 1 - p,
{
    let r = kept_from(list, quota, floor, p);
    let n = list.len() as int;
    if p > TOP_PRIORITY {
        lemma_nothing_kept(list, r.keep, n);
        assert forall|i: int| 0 <= i < n implies down_to(list[i].packets, #[trigger] r.keep[i], p) by {
            assert(descending(list[i].packets));
        }
    } else {
        lemma_from_ample(list, quota, floor, p + 1);
        let st = kept_from(list, quota, floor, p + 1);
        assert(keeps_down_to(list, floor, st, p, 0)) by {
            assert forall|i: int| 0 <= i < n implies down_to(
                list[i].packets,
                #[trigger] st.keep[i],
                p + 1,
            ) by {}
        }
        lemma_row_ample(list, quota, floor, st, p, n);
    }
}

proof fn lemma_quota_ample(list: Seq<SegmentData>, quota: u64, bands: int)
    requires
        all_descending(list),
        framing(bands, list.len() as int) + kept_len(list, all_lens(list), list.len() as int)
            <= quota,
    ensures
        within_quota(list, Some(quota), bands) == list,
{
    let floor = framing(bands, list.len() as int);
    lemma_from_ample(list, quota as int, floor, 0);
    let keep = kept_from(list, quota as int, floor, 0).keep;
    let cut = within_quota(list, Some(quota), bands);
    assert forall|i: int| 0 <= i < list.len() implies cut[i] == list[i] by {
        assert(down_to(list[i].packets, keep[i], 0));
        assert(keep[i] == list[i].packets.len());
        assert(list[i].packets.take(keep[i]) =~= list[i].packets);
    }
    assert(cut =~= list);
}

/// **A quota that the stream of a cube fits into does not change it.**
pub proof fn ample_quotas_change_nothing(cube: IcerCube, opts: CubeEncodeOptions, quota: u64)
    requires
        cube.volume() <= usize::MAX,
        opts.byte_quota is None,
        cube_encoded(cube, opts) is Ok,
        cube_encoded(cube, opts)->Ok_0.len() <= quota,
    ensures
        cube_encoded(cube, (CubeEncodeOptions { byte_quota: Some(quota), ..opts })) == cube_encoded(
            cube,
            opts,
        ),
{
    let tight = CubeEncodeOptions { byte_quota: Some(quota), ..opts };
    let list = segments_coded(cube, opts);
    let bands = cube.bands as int;
    let n = list.len() as int;
    lemma_stream_header(cube, opts);
    header_reads_back(stream_header(cube, opts), Seq::empty());
    assert(segments_coded(cube, tight) =~= list) by {
        assert forall|k: int| 0 <= k < n implies segments_coded(cube, tight)[k] == list[k] by {
            assert(segment_coded(cube, tight, k) == segment_coded(cube, opts, k));
        }
    }
    assert forall|i: int| 0 <= i < n implies descending((#[trigger] list[i]).packets)
        && list[i].means.len() == bands by {
        lemma_segments_carried(cube, opts, i);
        assert(list[i] == segment_coded(cube, opts, i));
        lemma_segment_descends(cube, opts, i);
    }
    assert forall|i: int| 0 <= i < n implies 0 <= #[trigger] all_lens(list)[i]
        <= list[i].packets.len() && list[i].means.len() == bands && list[i] == (SegmentData {
        packets: list[i].packets.take(all_lens(list)[i]),
        ..list[i]
    }) by {
        assert(descending(list[i].packets));
        assert(list[i].packets.take(list[i].packets.len() as int) =~= list[i].packets);
    }
    lemma_segments_len(list, all_lens(list), list, bands, n);
    lemma_quota_ample(list, quota, bands);
    let none = Seq::new(list.len(), |i: int| 0int);
    lemma_nothing_kept(list, none, n);
    lemma_kept_grows(list, none, all_lens(list), n);
    assert(stream_header(cube, tight) == stream_header(cube, opts));
}

pub proof fn lemma_segment_descends(cube: IcerCube, opts: CubeEncodeOptions, k: int)
    ensures
        descending(segment_coded(cube, opts, k).packets),
{
    let levels = crate::priority::clamped_levels(opts.wavelet_levels) as int;
    let kind = crate::entropy::coder_of(opts.interleaved_entropy);
    let s = segment_coded(cube, opts, k);
    if opts.transform_domain {
        let v = crate::cube::cube_volume(cube);
        let lay = crate::cube::part_layout(v, levels, opts.segment_count as int, k);
        let coeffs = crate::wavelet3d::cube_forward(
            opts.filter,
            v,
            levels,
            crate::cube::strip_of(cube, 0, cube.height as int),
        );
        cube_packets_descend(
            lay,
            crate::cube_means::means_subtracted(lay, coeffs),
            kind,
            s.q as int,
            opts.min_loss as int,
        );
    } else {
        let each = crate::cube::strip_height(cube, opts);
        let v = crate::cube::strip_volume(
            cube.width as int,
            cube.height as int,
            cube.bands as int,
            each,
            k,
        );
        let lay = crate::bitplane3d::whole_layout(v, levels);
        let coeffs = crate::cube::strip_transform(cube, opts, each, k);
        cube_packets_descend(
            lay,
            crate::cube_means::means_subtracted(lay, coeffs),
            kind,
            s.q as int,
            opts.min_loss as int,
        );
    }
}

// ---------------------------------------------------------------------------
// Streams that end early
// ---------------------------------------------------------------------------

/// Packets in the first `n` bytes of a stream.
proof fn lemma_groups_cut(bytes: Seq<u8>, n: int, pos: int, k: int)
    requires
        0 <= pos <= n <= bytes.len(),
        !groups_read(bytes, pos, k).cut,
    ensures
        groups_read(bytes, pos, k).end >= pos,
        ({
            let part = groups_read(bytes.take(n), pos, k);
            let whole = groups_read(bytes, pos, k);
            if whole.end <= n {
                part == whole
            } else {
                part.cut
            }
        }),
    decreases k,
{
    if k > 0 {
        lemma_groups_cut(bytes, n, pos, k - 1);
        let some = bytes.take(n);
        let before = groups_read(bytes, pos, k - 1);
        let at = before.end;
        if at <= n && at + 5 <= n {
            assert(be32(some, at + 1) == be32(bytes, at + 1));
            let end = at + 5 + be32(bytes, at + 1);
            if end <= n {
                assert(some.subrange(at + 5, end) =~= bytes.subrange(at + 5, end));
            }
        }
    }
}

/// A segment in the first `n` bytes of a stream.
proof fn lemma_segment_cut(bytes: Seq<u8>, n: int, pos: int, index: int, bands: int)
    requires
        0 <= pos <= n <= bytes.len(),
        bands >= 0,
        segment_read(bytes, pos, index, bands).fault is None,
    ensures
        segment_read(bytes, pos, index, bands).end >= pos,
        ({
            let part = segment_read(bytes.take(n), pos, index, bands);
            let whole = segment_read(bytes, pos, index, bands);
            if whole.end <= n {
                part == whole
            } else {
                part.fault == Some(Fault::Truncated)
            }
        }),
{
    let some = bytes.take(n);
    let at = pos + 2 + 4 * bands;
    assert(fixed_fault(bytes, pos, index, bands) is None);
    assert(groups_read(bytes, at + 2, be16(bytes, at)).cut == false);
    lemma_groups_end(bytes, at + 2, be16(bytes, at));
    if at + 2 <= n {
        assert(be16(some, at) == be16(bytes, at));
        lemma_groups_cut(bytes, n, at + 2, be16(bytes, at));
        assert(means_at(some, pos + 2, bands) =~= means_at(bytes, pos + 2, bands)) by {
            assert forall|k: int| 0 <= k < bands implies #[trigger] means_at(some, pos + 2, bands)[k]
                == means_at(bytes, pos + 2, bands)[k] by {
                assert(be32(some, pos + 2 + 4 * k) == be32(bytes, pos + 2 + 4 * k));
            }
        }
    }
}

proof fn lemma_groups_end(bytes: Seq<u8>, pos: int, k: int)
    requires
        0 <= pos,
    ensures
        groups_read(bytes, pos, k).end >= pos,
    decreases k,
{
    if k > 0 {
        lemma_groups_end(bytes, pos, k - 1);
    }
}

/// Segments in the first `n` bytes of a stream.
proof fn lemma_segments_cut(bytes: Seq<u8>, n: int, bands: int, k: int)
    requires
        17 <= n <= bytes.len(),
        bands >= 0,
        segments_read(bytes, 17, bands, k).fault is None,
    ensures
        segments_read(bytes, 17, bands, k).pos >= 17,
        ({
            let part = segments_read(bytes.take(n), 17, bands, k);
            let whole = segments_read(bytes, 17, bands, k);
            if whole.pos <= n {
                part == whole
            } else {
                part.fault == Some(Fault::Truncated)
            }
        }),
    decreases k,
{
    if k > 0 {
        lemma_segments_cut(bytes, n, bands, k - 1);
        let before = segments_read(bytes, 17, bands, k - 1);
        if before.pos <= n {
            lemma_segment_cut(bytes, n, before.pos, k - 1, bands);
        } else {
            lemma_segment_cut(bytes, bytes.len() as int, before.pos, k - 1, bands);
        }
    }
}

/// **A cube stream that ends early is truncated**, wherever it ends: a strict
/// decoder takes it only as a whole.
pub proof fn cut_streams_are_truncated(bytes: Seq<u8>, limits: DecodeLimits, n: int)
    requires
        cube_decoded(bytes, limits, false) is Ok,
        cube_decoded(bytes, limits, false)->Ok_0.reading.pos == bytes.len(),
        0 <= n < bytes.len(),
    ensures
        cube_decoded(bytes.take(n), limits, false) == Err::<DecodedCube, Fault>(Fault::Truncated),
{
    let some = bytes.take(n);
    if n >= 4 {
        assert(some.take(4) =~= bytes.take(4));
    }
    if n >= 17 {
        assert(header_fields(some) == header_fields(bytes));
        let h = header_fields(bytes);
        lemma_segments_cut(bytes, n, h.bands as int, h.count as int);
    }
}

/// **So is the stream of a cube.**
pub proof fn cut_cubes_are_truncated(
    cube: IcerCube,
    opts: CubeEncodeOptions,
    limits: DecodeLimits,
    n: int,
)
    requires
        cube.volume() <= usize::MAX,
        cube_encoded(cube, opts) is Ok,
        !stream_header(cube, opts).beyond(limits),
        0 <= n < cube_encoded(cube, opts)->Ok_0.len(),
    ensures
        cube_decoded(cube_encoded(cube, opts)->Ok_0.take(n), limits, false) == Err::<
            DecodedCube,
            Fault,
        >(Fault::Truncated),
{
    lemma_stream_read(cube, opts);
    lemma_stream_header(cube, opts);
    cut_streams_are_truncated(cube_encoded(cube, opts)->Ok_0, limits, n);
}

} // verus!
