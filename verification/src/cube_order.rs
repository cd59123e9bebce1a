//! Which packets of a cube a minimum priority and a byte quota leave.

use crate::bitplane3d::{cube_coded, cube_said, in_use, CodedGroup, Layout, TOP_PRIORITY};
use crate::cube::{cube_encoded, framing, kept_from, kept_one, kept_row, lemma_strip_count, options_refused, segment_coded, segments_coded, some_overlong, stream_header, stream_segments_count, within_quota, CubeEncodeOptions, IcerCube, Keeping};
use crate::cube_quota::{descending, lemma_descending, lemma_segment_descends};
use crate::cube_wire::{cube_bytes, SegmentData};
use crate::entropy::EntropyKind;
use crate::error::Fault;
use crate::subband3d::plane_with;
use crate::roundtrip3d::{kept_len, lemma_kept_update, lemma_nothing_kept};
use vstd::prelude::*;

verus! {

// ---------------------------------------------------------------------------
// The minimum priority
// ---------------------------------------------------------------------------

/// Down to the minimum nothing is left out.
proof fn lemma_above_minimum(
    lay: Layout,
    coeffs: Seq<i32>,
    kind: EntropyKind,
    q: int,
    floor: int,
    p: int,
)
    requires
        p >= floor,
        0 <= p <= TOP_PRIORITY + 1,
    ensures
        cube_said(lay, coeffs, kind, q, floor, p) == cube_said(lay, coeffs, kind, q, 0, p),
    decreases TOP_PRIORITY + 1 - p,
{
    if p <= TOP_PRIORITY {
        lemma_above_minimum(lay, coeffs, kind, q, floor, p + 1);
    }
}

/// Below the minimum nothing is said, and what would be said comes behind.
proof fn lemma_below_minimum(
    lay: Layout,
    coeffs: Seq<i32>,
    kind: EntropyKind,
    q: int,
    floor: int,
    p: int,
)
    requires
        0 <= p <= floor <= TOP_PRIORITY + 1,
    ensures
        ({
            let some = cube_said(lay, coeffs, kind, q, floor, p).packets;
            let all = cube_said(lay, coeffs, kind, q, 0, p).packets;
            &&& some == cube_said(lay, coeffs, kind, q, floor, floor).packets
            &&& some.len() <= all.len()
            &&& some == all.take(some.len() as int)
            &&& forall|a: int|
                some.len() <= a < all.len() ==> (#[trigger] all[a]).priority < floor
        }),
    decreases floor - p,
{
    let some = cube_said(lay, coeffs, kind, q, floor, p).packets;
    let all = cube_said(lay, coeffs, kind, q, 0, p).packets;
    if p < floor {
        lemma_below_minimum(lay, coeffs, kind, q, floor, p + 1);
        let more = cube_said(lay, coeffs, kind, q, 0, p + 1).packets;
        assert(some == more.take(some.len() as int));
        assert(all.take(some.len() as int) =~= more.take(some.len() as int));
    } else {
        lemma_above_minimum(lay, coeffs, kind, q, floor, p);
        assert(all.take(some.len() as int) =~= some);
    }
}

/// **A minimum priority leaves the packets that reach it, as they are**: they
/// are the first ones of those without a minimum.
pub proof fn minimum_leaves_a_prefix(
    lay: Layout,
    coeffs: Seq<i32>,
    kind: EntropyKind,
    q: int,
    floor: int,
)
    requires
        floor >= 0,
    ensures
        ({
            let some = cube_coded(lay, coeffs, kind, q, floor);
            let all = cube_coded(lay, coeffs, kind, q, 0);
            &&& some.len() <= all.len()
            &&& some == all.take(some.len() as int)
            &&& forall|a: int|
                0 <= a < all.len() ==> ((#[trigger] all[a]).priority >= floor <==> a < some.len())
        }),
{
    let some = cube_coded(lay, coeffs, kind, q, floor);
    let all = cube_coded(lay, coeffs, kind, q, 0);
    let f: int = if floor <= TOP_PRIORITY + 1 {
        floor
    } else {
        TOP_PRIORITY + 1
    };
    lemma_high_minimum(lay, coeffs, kind, q, floor, 0);
    lemma_below_minimum(lay, coeffs, kind, q, f, 0);
    lemma_descending(lay, coeffs, kind, q, 0, 0);
    lemma_descending(lay, coeffs, kind, q, floor, 0);
    assert forall|a: int| 0 <= a < all.len() implies ((#[trigger] all[a]).priority >= floor <==> a
        < some.len()) by {
        if a < some.len() {
            assert(all[a] == some[a]);
        } else {
            assert(all[a].priority < f);
        }
    }
}

/// All minima beyond the highest priority leave nothing.
proof fn lemma_high_minimum(
    lay: Layout,
    coeffs: Seq<i32>,
    kind: EntropyKind,
    q: int,
    floor: int,
    p: int,
)
    requires
        0 <= p <= TOP_PRIORITY + 1,
    ensures
        floor > TOP_PRIORITY ==> cube_said(lay, coeffs, kind, q, floor, p) == cube_said(
            lay,
            coeffs,
            kind,
            q,
            TOP_PRIORITY + 1,
            p,
        ),
    decreases TOP_PRIORITY + 1 - p,
{
    if p <= TOP_PRIORITY {
        lemma_high_minimum(lay, coeffs, kind, q, floor, p + 1);
    }
}

proof fn lemma_no_planes(
    lay: Layout,
    coeffs: Seq<i32>,
    kind: EntropyKind,
    floor: int,
    p: int,
)
    requires
        0 <= p <= TOP_PRIORITY + 1,
    ensures
        cube_said(lay, coeffs, kind, 0, floor, p).packets.len() == 0,
    decreases TOP_PRIORITY + 1 - p,
{
    if p <= TOP_PRIORITY {
        lemma_no_planes(lay, coeffs, kind, floor, p + 1);
        assert(!in_use(lay, 0, p)) by {
            assert forall|n: int| 0 <= n < lay.count() implies (#[trigger] plane_with(
                lay.base(n),
                0,
                p,
            )) is None by {}
        }
    }
}

/// **Without bit planes there are no packets.**
pub proof fn nothing_makes_no_packets(
    lay: Layout,
    coeffs: Seq<i32>,
    kind: EntropyKind,
    floor: int,
)
    ensures
        cube_coded(lay, coeffs, kind, 0, floor) == Seq::<CodedGroup>::empty(),
{
    lemma_no_planes(lay, coeffs, kind, floor, 0);
    assert(cube_coded(lay, coeffs, kind, 0, floor) =~= Seq::<CodedGroup>::empty());
}

// ---------------------------------------------------------------------------
// Byte quotas
// ---------------------------------------------------------------------------

/// Packet `a` of segment `i` comes before the packets with priority `p` of
/// segment `s` and of later ones: it has a higher priority, or the same in an
/// earlier segment.
pub open spec fn comes_before(list: Seq<SegmentData>, i: int, a: int, p: int, s: int) -> bool {
    let own = list[i].packets[a].priority;
    own > p || own == p && i < s
}

/// Bytes that a packet takes in the stream.
pub open spec fn packet_cost(list: Seq<SegmentData>, i: int, a: int) -> int {
    5 + list[i].packets[a].body.len() as int
}

/// For each segment exactly those packets are kept that come before the place
/// of priority `p` in segment `s`.
pub open spec fn kept_before(list: Seq<SegmentData>, keep: Seq<int>, p: int, s: int) -> bool {
    forall|i: int, a: int|
        0 <= i < list.len() && 0 <= a < list[i].packets.len() ==> (a < keep[i] <==> (
        #[trigger] comes_before(list, i, a, p, s)))
}

/// What is kept fits.
spec fn kept_fits(list: Seq<SegmentData>, quota: int, floor: int, st: Keeping) -> bool {
    &&& st.keep.len() == list.len()
    &&& st.used == floor + kept_len(list, st.keep, list.len() as int)
    &&& st.used <= quota
    &&& forall|i: int|
        0 <= i < list.len() ==> 0 <= #[trigger] st.keep[i] <= list[i].packets.len()
}

/// Packet `keep[s]` of segment `s` is the first that is not kept, and it does
/// not fit.
pub open spec fn stops_at(list: Seq<SegmentData>, quota: int, st: Keeping, s: int) -> bool {
    &&& 0 <= s < list.len()
    &&& st.keep[s] < list[s].packets.len()
    &&& kept_before(list, st.keep, list[s].packets[st.keep[s]].priority as int, s)
    &&& st.used + packet_cost(list, s, st.keep[s]) > quota
}

/// What is kept up to the place of priority `p` in segment `s`.
spec fn kept_until(list: Seq<SegmentData>, quota: int, floor: int, st: Keeping, p: int, s: int) -> bool {
    &&& kept_fits(list, quota, floor, st)
    &&& if st.stopped {
        exists|t: int| #[trigger] stops_at(list, quota, st, t)
    } else {
        kept_before(list, st.keep, p, s)
    }
}

/// Every segment has its packets in order.
pub open spec fn all_in_order(list: Seq<SegmentData>) -> bool {
    forall|i: int| 0 <= i < list.len() ==> descending((#[trigger] list[i]).packets)
}

proof fn lemma_one_kept(list: Seq<SegmentData>, quota: int, floor: int, st: Keeping, p: int, s: int)
    requires
        all_in_order(list),
        kept_until(list, quota, floor, st, p, s),
        0 <= s < list.len(),
    ensures
        kept_until(list, quota, floor, kept_one(list, quota, st, p, s), p, s + 1),
{
    let r = kept_one(list, quota, st, p, s);
    let n = list.len() as int;
    let k = st.keep[s];
    let packets = list[s].packets;
    if st.stopped {
        assert(r == st);
    } else {
        assert(descending(packets));
        if k >= packets.len() || packets[k].priority != p {
            assert forall|i: int, a: int|
                0 <= i < n && 0 <= a < list[i].packets.len() implies (a < st.keep[i] <==> (
            #[trigger] comes_before(list, i, a, p, s + 1))) by {
                assert(a < st.keep[i] <==> comes_before(list, i, a, p, s));
                if i == s && list[i].packets[a].priority == p {
                    assert(!comes_before(list, s, a, p, s));
                    assert(a >= k);
                    assert(!comes_before(list, s, k, p, s));
                    assert(packets[k].priority <= p);
                    if a > k {
                        assert(packets[k].priority > packets[a].priority);
                    }
                }
            }
        } else if st.used + packet_cost(list, s, k) > quota {
            assert(kept_before(list, r.keep, p, s));
            assert(stops_at(list, quota, r, s));
        } else {
            lemma_kept_update(list, st.keep, s, n);
            assert forall|i: int, a: int|
                0 <= i < n && 0 <= a < list[i].packets.len() implies (a < r.keep[i] <==> (
            #[trigger] comes_before(list, i, a, p, s + 1))) by {
                assert(a < st.keep[i] <==> comes_before(list, i, a, p, s));
                if i == s {
                    if a > k {
                        assert(packets[k].priority > packets[a].priority);
                    } else if a < k {
                        assert(comes_before(list, s, a, p, s));
                    }
                }
            }
        }
    }
}

proof fn lemma_row_kept(list: Seq<SegmentData>, quota: int, floor: int, st: Keeping, p: int, s: int)
    requires
        all_in_order(list),
        kept_until(list, quota, floor, st, p, 0),
        0 <= s <= list.len(),
    ensures
        kept_until(list, quota, floor, kept_row(list, quota, st, p, s), p, s),
    decreases s,
{
    if s > 0 {
        lemma_row_kept(list, quota, floor, st, p, s - 1);
        lemma_one_kept(list, quota, floor, kept_row(list, quota, st, p, s - 1), p, s - 1);
    }
}

proof fn lemma_from_kept(list: Seq<SegmentData>, quota: int, floor: int, p: int)
    requires
        all_in_order(list),
        floor <= quota,
        0 <= p <= TOP_PRIORITY + 1,
    ensures
        kept_until(list, quota, floor, kept_from(list, quota, floor, p), p - 1, 0),
    decreases TOP_PRIORITY + 1 - p,
{
    let r = kept_from(list, quota, floor, p);
    let n = list.len() as int;
    if p > TOP_PRIORITY {
        lemma_nothing_kept(list, r.keep, n);
        assert forall|i: int, a: int|
            0 <= i < n && 0 <= a < list[i].packets.len() implies (a < r.keep[i] <==> (
        #[trigger] comes_before(list, i, a, p - 1, 0))) by {
            assert(descending(list[i].packets));
            assert(list[i].packets[a].priority <= TOP_PRIORITY);
        }
    } else {
        lemma_from_kept(list, quota, floor, p + 1);
        let st = kept_from(list, quota, floor, p + 1);
        lemma_row_kept(list, quota, floor, st, p, n);
        if !r.stopped {
            assert forall|i: int, a: int|
                0 <= i < n && 0 <= a < list[i].packets.len() implies (a < r.keep[i] <==> (
            #[trigger] comes_before(list, i, a, p - 1, 0))) by {
                assert(a < r.keep[i] <==> comes_before(list, i, a, p, n));
            }
        }
    }
}

/// Packet `a` of segment `i` comes before packet `b` of segment `j`.
pub open spec fn goes_first(list: Seq<SegmentData>, i: int, a: int, j: int, b: int) -> bool {
    comes_before(list, i, a, list[j].packets[b].priority as int, j)
}

/// **A quota keeps the longest run of packets that fits**, where all packets of
/// all segments stand in one order: from the highest priority down, and among
/// equal ones from the first segment to the last. What is kept comes before
/// what is not, it fits together with the framing, and the first packet that is
/// not kept would no longer fit.
pub proof fn quotas_keep_the_longest_run(cube: IcerCube, opts: CubeEncodeOptions, quota: u64)
    requires
        framing(cube.bands as int, segments_coded(cube, opts).len() as int) <= quota,
    ensures
        ({
            let all = segments_coded(cube, opts);
            let cut = within_quota(all, Some(quota), cube.bands as int);
            let keep = Seq::new(all.len(), |i: int| cut[i].packets.len() as int);
            let used = framing(cube.bands as int, all.len() as int) + kept_len(
                all,
                keep,
                all.len() as int,
            );
            &&& cut.len() == all.len()
            &&& forall|i: int|
                0 <= i < all.len() ==> keep[i] <= all[i].packets.len() && (#[trigger] cut[i])
                    == (SegmentData { packets: all[i].packets.take(keep[i]), ..all[i] })
            &&& forall|i: int, a: int, j: int, b: int|
                0 <= i < all.len() && 0 <= a < keep[i] && 0 <= j < all.len() && keep[j] <= b
                    < all[j].packets.len() ==> #[trigger] goes_first(all, i, a, j, b)
            &&& used <= quota
            &&& forall|s: int|
                0 <= s < all.len() && keep[s] < all[s].packets.len() && (forall|j: int|
                    0 <= j < all.len() && j != s && keep[j] < all[j].packets.len() ==> #[trigger]
                    goes_first(all, s, keep[s], j, keep[j])) ==> used + #[trigger] packet_cost(
                    all,
                    s,
                    keep[s],
                ) > quota
        }),
{
    let all = segments_coded(cube, opts);
    let bands = cube.bands as int;
    let n = all.len() as int;
    let floor = framing(bands, n);
    let cut = within_quota(all, Some(quota), bands);
    let keep = Seq::new(all.len(), |i: int| cut[i].packets.len() as int);
    let st = kept_from(all, quota as int, floor, 0);
    assert forall|i: int| 0 <= i < n implies descending((#[trigger] all[i]).packets) by {
        assert(all[i] == segment_coded(cube, opts, i));
        lemma_segment_descends(cube, opts, i);
    }
    lemma_from_kept(all, quota as int, floor, 0);
    assert(keep =~= st.keep) by {
        assert forall|i: int| 0 <= i < n implies keep[i] == st.keep[i] by {
            assert(0 <= st.keep[i] <= all[i].packets.len());
        }
    }
    if st.stopped {
        let t = choose|t: int| #[trigger] stops_at(all, quota as int, st, t);
        let p = all[t].packets[keep[t]].priority as int;
        assert forall|i: int, a: int, j: int, b: int|
            0 <= i < n && 0 <= a < keep[i] && 0 <= j < n && keep[j] <= b
                < all[j].packets.len() implies #[trigger] goes_first(all, i, a, j, b) by {
            assert(0 <= st.keep[j] && st.keep[i] <= all[i].packets.len());
            assert(comes_before(all, i, a, p, t));
            assert(!comes_before(all, j, b, p, t));
        }
        assert forall|s: int|
            0 <= s < n && keep[s] < all[s].packets.len() && (forall|j: int|
                0 <= j < n && j != s && keep[j] < all[j].packets.len() ==> #[trigger] goes_first(
                    all,
                    s,
                    keep[s],
                    j,
                    keep[j],
                )) implies floor + kept_len(all, keep, n) + #[trigger] packet_cost(all, s, keep[s])
            > quota by {
            if s != t {
                assert(0 <= st.keep[s]);
                assert(goes_first(all, s, keep[s], t, keep[t]));
                assert(!comes_before(all, s, keep[s], p, t));
            }
        }
    } else {
        assert forall|i: int| 0 <= i < n implies keep[i] == all[i].packets.len() by {
            assert(0 <= st.keep[i] <= all[i].packets.len());
            if keep[i] < all[i].packets.len() {
                assert(comes_before(all, i, keep[i], -1, 0));
            }
        }
    }
}

/// **A cube that can be encoded can be encoded under every quota that leaves
/// room for the framing**, and what changes in the stream is which packets are
/// kept.
pub proof fn quotas_cut_the_stream(cube: IcerCube, opts: CubeEncodeOptions, quota: u64)
    requires
        opts.byte_quota is None,
        cube_encoded(cube, opts) is Ok,
        framing(cube.bands as int, segments_coded(cube, opts).len() as int) <= quota,
    ensures
        cube_encoded(cube, opts)->Ok_0 == cube_bytes(
            stream_header(cube, opts),
            segments_coded(cube, opts),
        ),
        cube_encoded(cube, (CubeEncodeOptions { byte_quota: Some(quota), ..opts })) == Ok::<
            Seq<u8>,
            Fault,
        >(
            cube_bytes(
                stream_header(cube, opts),
                within_quota(segments_coded(cube, opts), Some(quota), cube.bands as int),
            ),
        ),
{
    let tight = CubeEncodeOptions { byte_quota: Some(quota), ..opts };
    let all = segments_coded(cube, opts);
    let cut = within_quota(all, Some(quota), cube.bands as int);
    assert(segments_coded(cube, tight) =~= all) by {
        assert forall|k: int| 0 <= k < all.len() implies segments_coded(cube, tight)[k]
            == all[k] by {
            assert(segment_coded(cube, tight, k) == segment_coded(cube, opts, k));
        }
    }
    quotas_keep_the_longest_run(cube, opts, quota);
    assert(!some_overlong(cut)) by {
        assert forall|i: int, j: int| 0 <= i < cut.len() && 0 <= j < cut[i].packets.len() implies (
        #[trigger] cut[i].packets[j]).body.len() <= u32::MAX by {
            assert(cut[i].packets[j] == all[i].packets[j]);
            assert(!some_overlong(all));
        }
    }
    assert(stream_header(cube, tight) == stream_header(cube, opts));
}

/// **A quota has to leave room for the framing**, and a cube that could be
/// encoded is refused under a smaller one.
pub proof fn quotas_need_the_framing(cube: IcerCube, opts: CubeEncodeOptions)
    requires
        cube.fault() is None,
        opts.byte_quota is Some,
        opts.byte_quota->0 < framing(cube.bands as int, stream_segments_count(cube, opts)),
    ensures
        cube_encoded(cube, opts) == Err::<Seq<u8>, Fault>(Fault::Unsupported),
{
    if !options_refused(cube, opts) {
        if !opts.transform_domain {
            lemma_strip_count(cube.height as int, opts.segment_count as int);
        }
        assert(segments_coded(cube, opts).len() == stream_segments_count(cube, opts));
    }
}

/// **A minimum leaves of every segment of a stream the packets that reach it**,
/// and all else as it is.
pub proof fn minimum_leaves_prefixes(cube: IcerCube, opts: CubeEncodeOptions, k: int)
    ensures
        ({
            let some = segment_coded(cube, opts, k);
            let all = segment_coded(cube, (CubeEncodeOptions { min_loss: 0, ..opts }), k);
            &&& some.q == all.q
            &&& some.means == all.means
            &&& some.packets.len() <= all.packets.len()
            &&& some.packets == all.packets.take(some.packets.len() as int)
            &&& forall|a: int|
                0 <= a < all.packets.len() ==> ((#[trigger] all.packets[a]).priority
                    >= opts.min_loss <==> a < some.packets.len())
        }),
{
    let levels = crate::priority::clamped_levels(opts.wavelet_levels) as int;
    let kind = crate::entropy::coder_of(opts.interleaved_entropy);
    let s = segment_coded(cube, opts, k);
    if opts.transform_domain {
        let v = crate::cube::cube_volume(cube);
        let lay = crate::cube::part_layout(v, levels, opts.segment_count as int, k);
        let coeffs = crate::wavelet3d::cube_forward(
            opts.filter,
            v,
            levels,
            crate::cube::strip_of(cube, 0, cube.height as int),
        );
        minimum_leaves_a_prefix(
            lay,
            crate::cube_means::means_subtracted(lay, coeffs),
            kind,
            s.q as int,
            opts.min_loss as int,
        );
    } else {
        let each = crate::cube::strip_height(cube, opts);
        let v = crate::cube::strip_volume(
            cube.width as int,
            cube.height as int,
            cube.bands as int,
            each,
            k,
        );
        let lay = crate::bitplane3d::whole_layout(v, levels);
        let coeffs = crate::cube::strip_transform(cube, opts, each, k);
        minimum_leaves_a_prefix(
            lay,
            crate::cube_means::means_subtracted(lay, coeffs),
            kind,
            s.q as int,
            opts.min_loss as int,
        );
    }
}

} // verus!
