//! What a decoder makes of the streams of an encoder.
//!
//! Whatever the limits, the stream of a plane decodes to a plane of the same
//! size. Without limits and without a loss it decodes to the plane itself.

use crate::assemble::{plane_decoded, steady, strips_data, strips_fault, strips_height, too_large};
use crate::bitplane::{index_from, schedule_coded, schedule_params, Coded};
use crate::compress::{body_of_packets, choosing, coded_packets_of, coded_selection, coefficients, lowest_bit, planes_for, rows_of, strip_compressed, strip_raw, strip_segment, Settings};
use crate::decoder::{by_index, ordering_permutes, pixels_of, stream_segments, DecodeLimits};
use crate::emit::{groups_emitted, packet_ok, packets_bytes, planes_emitted, segment_ok, stream_of, stream_reads_back, within_limits, Quota};
use crate::encoder::{all_strips, emission_order, plane_ok, plane_segments, at_rank, is_ranking, lemma_every_rank, lemma_last_strip, ranked_written, strip_at, strip_headers, strip_rows, strips_encoded, strips_written};
use crate::entropy::coder_of;
use crate::error::Fault;
use crate::header::{Packet, Segment, SegmentHeader};
use crate::image::IcerPlane;
use crate::ordering::{each_once, index_count, each_once_in_order, lemma_nothing_kept, lemma_one_more_kept, lemma_pixels_ordered, lemma_pixels_total, lemma_placeholder_member, matches_kept, own_index, pixels_total, written_and_left_out};
use crate::partition::ceil_div;
use crate::parts::{empty_segment, placeholders, Written};
use crate::priority::{coeff_count, group_list, is_excluded, FINE_PACKET_COEFFS, group_packets, groups_from, packet_of_run, packets_from, schedule, top_priority, Group, ScheduleParams, Scheduled, SubbandBitPlane};
use crate::readback::lemma_whole_scope;
use crate::roundtrip::{in_range, lemma_area_bound, lemma_planes_hold, lemma_samples_bounded, lemma_scope_of_all, samples_give_rows, whole_segments_are_exact};
use crate::scan::{everything, Grid, Selection};
use crate::strip::{depth_in_range, joined_bodies, sample_bytes_of, sample_size, segment_coeffs, segment_size, shifted_samples, strip_decoded};
use crate::wavelet_int::{bounded, grown, transform_is_reversible};
use vstd::prelude::*;

verus! {

// ---------------------------------------------------------------------------
// Segments can be carried
// ---------------------------------------------------------------------------

proof fn lemma_index_found(packets: Seq<Coded>, plane: u8, sig: bool, k: int)
    requires
        0 <= k,
    ensures
        index_from(packets, plane, sig, k) matches Some(i) ==> k <= i < packets.len()
            && packets[i].bit_plane == plane && packets[i].is_significance == sig,
    decreases packets.len() - k,
{
    if k < packets.len() && !(packets[k].bit_plane == plane && packets[k].is_significance == sig) {
        lemma_index_found(packets, plane, sig, k + 1);
    }
}

proof fn lemma_planes_carried(
    packets: Seq<Coded>,
    q: u8,
    min_loss: u8,
    quota: Quota,
    floor: u8,
    chosen: Option<Seq<bool>>,
    s: int,
)
    requires
        q <= 31,
        0 <= s <= 2 * q,
        planes_emitted(packets, q, min_loss, quota, floor, chosen, s) is Ok,
    ensures
        forall|i: int|
            0 <= i < planes_emitted(
                packets,
                q,
                min_loss,
                quota,
                floor,
                chosen,
                s,
            )->Ok_0.packets.len() ==> packet_ok(
                #[trigger] planes_emitted(
                    packets,
                    q,
                    min_loss,
                    quota,
                    floor,
                    chosen,
                    s,
                )->Ok_0.packets[i],
            ),
    decreases s,
{
    if s > 0 {
        lemma_planes_carried(packets, q, min_loss, quota, floor, chosen, s - 1);
        lemma_index_found(packets, ((s - 1) / 2) as u8, (s - 1) % 2 == 0, 0);
    }
}

proof fn lemma_groups_carried(packets: Seq<Coded>, min_loss: u8, quota: Quota, s: int)
    requires
        0 <= s <= packets.len(),
        forall|i: int| 0 <= i < packets.len() ==> (#[trigger] packets[i]).bit_plane < 64,
        groups_emitted(packets, min_loss, quota, s) is Ok,
    ensures
        forall|i: int|
            0 <= i < groups_emitted(packets, min_loss, quota, s)->Ok_0.packets.len() ==> packet_ok(
                #[trigger] groups_emitted(packets, min_loss, quota, s)->Ok_0.packets[i],
            ),
    decreases s,
{
    if s > 0 {
        lemma_groups_carried(packets, min_loss, quota, s - 1);
        assert(packets[s - 1].bit_plane < 64);
    }
}

proof fn lemma_group_count(levels: u8, q: int, p: int)
    requires
        p >= -q - 1,
    ensures
        groups_from(levels, q, p).len() <= p + q + 1,
    decreases p + q + 1,
{
    if p >= -q {
        lemma_group_count(levels, q, p - 1);
    }
}

proof fn lemma_group_packets_index(
    par: ScheduleParams,
    group: int,
    run: Seq<SubbandBitPlane>,
    units: Seq<SubbandBitPlane>,
)
    ensures
        forall|i: int|
            0 <= i < group_packets(par, group, run, units).len() ==> (
            #[trigger] group_packets(par, group, run, units)[i]).group_index == group,
    decreases units.len(),
{
    if units.len() > 0 {
        let rest = units.drop_first();
        lemma_group_packets_index(par, group, run, rest);
        lemma_group_packets_index(par, group, Seq::empty(), rest);
        lemma_group_packets_index(par, group, run.push(units[0]), rest);
        let all = group_packets(par, group, run, units);
        let a = packet_of_run(group, run);
        let c = group_packets(par, group, Seq::empty(), rest);
        assert forall|i: int| 0 <= i < all.len() implies (#[trigger] all[i]).group_index == group by {
            let u = units[0];
            if is_excluded(u, par.levels, par.q, par.min_loss) {
                assert(all[i] == group_packets(par, group, run, rest)[i]);
            } else if coeff_count(u.subband, par.width, par.height) > FINE_PACKET_COEFFS {
                if i > a.len() {
                    assert(all[i] == c[i - a.len() - 1]);
                }
            } else {
                assert(all[i] == group_packets(par, group, run.push(u), rest)[i]);
            }
        }
    }
}

proof fn lemma_packets_index(par: ScheduleParams, groups: Seq<Group>, k: int)
    requires
        0 <= k,
    ensures
        forall|i: int|
            0 <= i < packets_from(par, groups, k).len() ==> k <= (
            #[trigger] packets_from(par, groups, k)[i]).group_index < groups.len(),
    decreases groups.len() - k,
{
    if k < groups.len() {
        let first = group_packets(par, k, Seq::empty(), groups[k].units);
        let rest = packets_from(par, groups, k + 1);
        let all = packets_from(par, groups, k);
        lemma_group_packets_index(par, k, Seq::empty(), groups[k].units);
        lemma_packets_index(par, groups, k + 1);
        assert forall|i: int| 0 <= i < all.len() implies k <= (#[trigger] all[i]).group_index
            < groups.len() by {
            if i < first.len() {
                assert(all[i] == first[i]);
            } else {
                assert(all[i] == rest[i - first.len()]);
            }
        }
    }
}

proof fn lemma_coded_groups(
    g: Grid,
    coeffs: Seq<i32>,
    f: Selection,
    kind: crate::entropy::EntropyKind,
    q: u8,
    plan: Seq<Scheduled>,
    k: int,
)
    requires
        0 <= k <= plan.len(),
        forall|i: int| 0 <= i < plan.len() ==> 0 <= (#[trigger] plan[i]).group_index < 64,
    ensures
        forall|i: int|
            0 <= i < schedule_coded(g, coeffs, f, kind, q, plan, k).packets.len() ==> (
            #[trigger] schedule_coded(g, coeffs, f, kind, q, plan, k).packets[i]).bit_plane < 64,
    decreases k,
{
    if k > 0 {
        lemma_coded_groups(g, coeffs, f, kind, q, plan, k - 1);
        assert(0 <= plan[k - 1].group_index < 64);
        let before = schedule_coded(g, coeffs, f, kind, q, plan, k - 1).packets;
        let after = schedule_coded(g, coeffs, f, kind, q, plan, k).packets;
        assert forall|i: int| 0 <= i < after.len() implies (#[trigger] after[i]).bit_plane < 64 by {
            if i < before.len() {
                assert(after[i] == before[i]);
            }
        }
    }
}

/// The packets of a segment can be carried.
pub proof fn lemma_body_carried(
    set: Settings,
    g: Grid,
    coeffs: Seq<i32>,
    f: Selection,
    q: u8,
    quota: Quota,
    floor: u8,
    chosen: Option<Seq<bool>>,
)
    requires
        set.ok(),
        g.levels == set.levels,
        1 <= q <= 31,
        body_of_packets(set, coded_packets_of(set, g, coeffs, f, q), q, quota, floor, chosen) is Ok,
    ensures
        ({
            let list = body_of_packets(
                set,
                coded_packets_of(set, g, coeffs, f, q),
                q,
                quota,
                floor,
                chosen,
            )->Ok_0;
            &&& packets_bytes(list).len() <= 0xFFFF
            &&& forall|i: int| 0 <= i < list.len() ==> packet_ok(#[trigger] list[i])
        }),
{
    let packets = coded_packets_of(set, g, coeffs, f, q);
    if set.priority {
        let par = schedule_params(g, q, set.min_loss);
        let plan = schedule(par);
        lemma_group_count(g.levels, q as int, top_priority(g.levels));
        lemma_packets_index(par, group_list(par.levels, par.q), 0);
        lemma_coded_groups(
            g,
            coeffs,
            f,
            coder_of(set.interleaved),
            q,
            plan,
            plan.len() as int,
        );
        lemma_groups_carried(packets, set.min_loss, quota, packets.len() as int);
    } else {
        lemma_planes_carried(packets, q, set.min_loss, quota, floor, chosen, 2 * q);
    }
}

// ---------------------------------------------------------------------------
// Strips
// ---------------------------------------------------------------------------

/// A segment is the strip with its index: it can be carried and decoded, and
/// has the size of that strip.
pub open spec fn is_strip(
    s: Segment,
    bits: u8,
    width: int,
    height: int,
    each: int,
    n: int,
) -> bool {
    &&& segment_ok(s)
    &&& s.header.segment_index < n
    &&& s.header.width == width
    &&& s.header.height == strip_rows(height, each, s.header.segment_index as int)
    &&& !s.header.transform_segmented
    &&& strip_decoded(s, bits) is Ok
}

/// A segment decodes to the rows of the strip with its index.
pub open spec fn has_rows(s: Segment, bits: u8, plane: IcerPlane, width: int, height: int, each: int) -> bool {
    strip_decoded(s, bits) == Ok::<Seq<u8>, Fault>(
        rows_of(
            plane,
            width * sample_size(bits),
            s.header.segment_index * each,
            strip_rows(height, each, s.header.segment_index as int),
        ),
    )
}

/// **Raw samples decode to themselves.**
pub proof fn raw_strips_are_exact(set: Settings, rows: Seq<u8>, width: int, height: int, index: u16)
    requires
        set.ok(),
        set.sync_prefix != 0,
        1 <= width <= 0xFFFF,
        1 <= height <= 0xFFFF,
        rows.len() == width * height * sample_size(set.bits),
        strip_raw(set, rows, width, height, index) is Ok,
    ensures
        segment_ok(strip_raw(set, rows, width, height, index)->Ok_0),
        strip_decoded(strip_raw(set, rows, width, height, index)->Ok_0, set.bits) == Ok::<
            Seq<u8>,
            Fault,
        >(rows),
{
    let s = strip_raw(set, rows, width, height, index)->Ok_0;
    let p = s.packets[0];
    assert(s.packets.drop_last() =~= Seq::empty());
    assert(packets_bytes(Seq::<Packet>::empty()) =~= Seq::empty());
    assert(p.header.to_bytes().len() == 4);
    assert(packets_bytes(s.packets) == packets_bytes(s.packets.drop_last()) + p.header.to_bytes()
        + p.body);
    assert(joined_bodies(Seq::<Packet>::empty()) =~= Seq::empty());
    assert(joined_bodies(s.packets) =~= rows);
    assert(rows.take(rows.len() as int) =~= rows);
    assert(segment_size(s.header, set.bits) == rows.len());
}

/// A compressed strip can be carried and decoded, whatever its limits.
proof fn lemma_compressed_decodes(
    set: Settings,
    samples: Seq<i32>,
    width: usize,
    height: usize,
    index: u16,
    budget: Option<u64>,
)
    requires
        set.ok(),
        set.sync_prefix != 0,
        bounded(samples, 0x1_0000),
        samples.len() == width * height,
        strip_compressed(set, samples, width, height, index, budget) is Ok,
    ensures
        ({
            let s = strip_compressed(set, samples, width, height, index, budget)->Ok_0;
            &&& segment_ok(s)
            &&& strip_decoded(s, set.bits) is Ok
        }),
{
    let s = strip_compressed(set, samples, width, height, index, budget)->Ok_0;
    let g = Grid { width, height, levels: set.levels };
    let coeffs = coefficients(set, samples, width, height);
    lemma_area_bound(g);
    transform_is_reversible(set.filter, width, height, samples, set.levels as int, 0x1_0000);
    lemma_planes_hold(set, coeffs, grown(grown(0x1_0000)));
    let q = planes_for(set, coeffs);
    let f = coded_selection(set, g, None, None);
    let floor = lowest_bit(f, g.area());
    if choosing(set, budget) {
        let packets = coded_packets_of(set, g, coeffs, f, q);
        lemma_body_carried(
            set,
            g,
            coeffs,
            f,
            q,
            Quota { budget, target: None },
            floor,
            Some(
                crate::compress::packets_chosen(
                    set,
                    samples,
                    coeffs,
                    packets,
                    width,
                    height,
                    q,
                    budget->0,
                ),
            ),
        );
    } else {
        lemma_body_carried(
            set,
            g,
            coeffs,
            f,
            q,
            Quota { budget, target: set.target },
            floor,
            None,
        );
    }
}

/// **A compressed strip without limits and without a loss decodes to its
/// samples.**
pub proof fn compressed_strips_are_exact(
    set: Settings,
    samples: Seq<i32>,
    width: usize,
    height: usize,
    index: u16,
)
    requires
        set.ok(),
        set.target is None,
        set.min_loss == 0,
        bounded(samples, 0x1_0000),
        samples.len() == width * height,
        strip_compressed(set, samples, width, height, index, None) is Ok,
    ensures
        strip_decoded(
            strip_compressed(set, samples, width, height, index, None)->Ok_0,
            set.bits,
        ) == Ok::<Seq<u8>, Fault>(sample_bytes_of(samples, set.bits)),
{
    let s = strip_compressed(set, samples, width, height, index, None)->Ok_0;
    let g = Grid { width, height, levels: set.levels };
    let coeffs = coefficients(set, samples, width, height);
    lemma_area_bound(g);
    transform_is_reversible(set.filter, width, height, samples, set.levels as int, 0x1_0000);
    lemma_planes_hold(set, coeffs, grown(grown(0x1_0000)));
    let q = planes_for(set, coeffs);
    let f = coded_selection(set, g, None, None);
    assert(f == everything());
    lemma_scope_of_all(g, coeffs, f, q);
    assert(coeffs.len() > 0) by (nonlinear_arith)
        requires
            coeffs.len() == width * height,
            width >= 2,
            height >= 2,
    ;
    let out = segment_coeffs(s, None, None)->Ok_0;
    assert forall|i: int| 0 <= i < coeffs.len() implies out[i] == coeffs[i] && out.len()
        == coeffs.len() && segment_coeffs(s, None, None) is Ok && s.packets.len() > 0 by {
        lemma_whole_scope(g, i);
        whole_segments_are_exact(set, s.header, g, coeffs, None, None, q, s.packets, i);
    }
    assert(segment_coeffs(s, None, None) is Ok && out.len() == coeffs.len() && s.packets.len()
        > 0) by {
        assert(out[0] == coeffs[0]);
    }
    assert(out =~= coeffs);
}

/// What is asked of a plane and its settings so that its stream can be
/// decoded.
pub open spec fn decodable(set: Settings, plane: IcerPlane, width: int, height: int) -> bool {
    &&& set.ok()
    &&& set.sync_prefix != 0
    &&& width >= 1
    &&& height >= 1
    &&& plane_ok(plane, width, height, set.bits)
}

/// A strip of a plane as a segment is that strip.
proof fn lemma_strip_is_strip(
    set: Settings,
    plane: IcerPlane,
    width: usize,
    height: int,
    each: int,
    i: int,
    n: int,
    budget: Option<u64>,
)
    requires
        set.ok(),
        set.sync_prefix != 0,
        0 <= i < n <= 0xFFFF,
        1 <= width <= 0xFFFF,
        1 <= strip_rows(height, each, i) <= 0xFFFF,
        strip_at(set, plane, width, height, each, i, budget) is Ok,
    ensures
        is_strip(
            strip_at(set, plane, width, height, each, i, budget)->Ok_0,
            set.bits,
            width as int,
            height,
            each,
            n,
        ),
        strip_at(set, plane, width, height, each, i, budget)->Ok_0.header.segment_index == i,
{
    reveal(strip_segment);
    let rows = strip_rows(height, each, i);
    let samples = shifted_samples(plane, set.bits, width as int, i * each, rows);
    let size = sample_size(set.bits);
    lemma_samples_bounded(plane, set.bits, width as int, i * each, rows);
    lemma_rows_len(plane, width as int, size, i * each, rows);
    assert(width * rows >= 0) by (nonlinear_arith)
        requires
            width >= 0,
            rows >= 0,
    ;
    let raw = strip_raw(
        set,
        rows_of(plane, width * size, i * each, rows),
        width as int,
        rows,
        i as u16,
    );
    if raw is Ok {
        raw_strips_are_exact(
            set,
            rows_of(plane, width * size, i * each, rows),
            width as int,
            rows,
            i as u16,
        );
    }
    if !set.uncompressed {
        lemma_compressed_decodes(set, samples, width, rows as usize, i as u16, budget);
    }
}

proof fn lemma_rows_len(plane: IcerPlane, width: int, size: int, y0: int, rows: int)
    requires
        width >= 0,
        rows >= 0,
        size >= 1,
    ensures
        rows_of(plane, width * size, y0, rows).len() == width * rows * size,
{
    assert((width * size) * rows == width * rows * size && (width * size) * rows >= 0)
        by (nonlinear_arith)
        requires
            width >= 0,
            rows >= 0,
            size >= 1,
    ;
}

/// Settings and samples without a loss.
pub open spec fn lossless(set: Settings, plane: IcerPlane, width: int, height: int) -> bool {
    set.uncompressed || {
        &&& set.target is None
        &&& set.min_loss == 0
        &&& in_range(shifted_samples(plane, set.bits, width, 0, height), set.bits)
    }
}

/// A strip without limits and without a loss decodes to its rows.
proof fn lemma_strip_has_rows(
    set: Settings,
    plane: IcerPlane,
    width: usize,
    height: int,
    each: int,
    i: int,
    n: int,
)
    requires
        set.ok(),
        set.sync_prefix != 0,
        0 <= i < n <= 0xFFFF,
        1 <= width <= 0xFFFF,
        1 <= strip_rows(height, each, i) <= 0xFFFF,
        0 <= i * each,
        lossless(set, plane, width as int, height),
        strip_at(set, plane, width, height, each, i, None) is Ok,
    ensures
        has_rows(
            strip_at(set, plane, width, height, each, i, None)->Ok_0,
            set.bits,
            plane,
            width as int,
            height,
            each,
        ),
{
    reveal(strip_segment);
    lemma_strip_is_strip(set, plane, width, height, each, i, n, None);
    let rows = strip_rows(height, each, i);
    let size = sample_size(set.bits);
    let samples = shifted_samples(plane, set.bits, width as int, i * each, rows);
    lemma_rows_len(plane, width as int, size, i * each, rows);
    assert(width * rows >= 0) by (nonlinear_arith)
        requires
            width >= 0,
            rows >= 0,
    ;
    let bytes = rows_of(plane, width * size, i * each, rows);
    let raw = strip_raw(set, bytes, width as int, rows, i as u16);
    if raw is Ok {
        raw_strips_are_exact(set, bytes, width as int, rows, i as u16);
    }
    if !set.uncompressed {
        lemma_samples_bounded(plane, set.bits, width as int, i * each, rows);
        lemma_strip_samples(plane, set.bits, width as int, height, i * each, rows);
        compressed_strips_are_exact(set, samples, width, rows as usize, i as u16);
        samples_give_rows(plane, set.bits, width as int, i * each, rows);
    }
}

/// Samples of a strip are samples of the plane.
proof fn lemma_strip_samples(plane: IcerPlane, bits: u8, width: int, height: int, y0: int, rows: int)
    requires
        depth_in_range(bits),
        width >= 1,
        0 <= y0,
        0 <= rows,
        y0 + rows <= height,
        in_range(shifted_samples(plane, bits, width, 0, height), bits),
    ensures
        in_range(shifted_samples(plane, bits, width, y0, rows), bits),
{
    let all = shifted_samples(plane, bits, width, 0, height);
    let part = shifted_samples(plane, bits, width, y0, rows);
    assert forall|i: int| 0 <= i < part.len() implies -crate::strip::half_range(bits)
        <= #[trigger] part[i] < crate::strip::half_range(bits) by {
        let k = y0 * width + i;
        assert(width * rows >= 0) by (nonlinear_arith)
            requires
                width >= 0,
                rows >= 0,
        ;
        assert(0 <= k < width * height) by (nonlinear_arith)
            requires
                k == y0 * width + i,
                0 <= i < width * rows,
                0 <= y0,
                y0 + rows <= height,
                width >= 1,
        ;
        assert(k == width * y0 + i) by (nonlinear_arith)
            requires
                k == y0 * width + i,
        ;
        vstd::arithmetic::div_mod::lemma_hoist_over_denominator(i, y0, width as nat);
        vstd::arithmetic::div_mod::lemma_mod_multiples_vanish(y0, i, width);
        assert(k / width == y0 + i / width);
        assert(k % width == i % width);
        assert(all[k] == part[i]);
    }
}

// ---------------------------------------------------------------------------
// Streams of strips
// ---------------------------------------------------------------------------

/// All segments are strips of a plane.
pub open spec fn all_are_strips(
    segments: Seq<Segment>,
    bits: u8,
    width: int,
    height: int,
    each: int,
    n: int,
) -> bool {
    forall|i: int|
        0 <= i < segments.len() ==> is_strip(#[trigger] segments[i], bits, width, height, each, n)
}

/// All segments decode to the rows of their strips.
pub open spec fn all_have_rows(
    segments: Seq<Segment>,
    bits: u8,
    plane: IcerPlane,
    width: int,
    height: int,
    each: int,
) -> bool {
    forall|i: int|
        0 <= i < segments.len() ==> has_rows(
            #[trigger] segments[i],
            bits,
            plane,
            width,
            height,
            each,
        )
}

/// A plane is divided into `n` strips of `each` rows, the last of which may
/// have fewer.
pub open spec fn divided(width: int, height: int, each: int, n: int) -> bool {
    &&& 1 <= width <= 0xFFFF
    &&& 1 <= each <= 0xFFFF
    &&& 1 <= n <= 0xFFFF
    &&& (n - 1) * each < height <= n * each
}

proof fn lemma_strip_rows(width: int, height: int, each: int, n: int, i: int)
    requires
        divided(width, height, each, n),
        0 <= i < n,
    ensures
        1 <= strip_rows(height, each, i) <= each,
        0 <= i * each,
        i * each + strip_rows(height, each, i) <= height,
        i < n - 1 ==> strip_rows(height, each, i) == each,
        i == n - 1 ==> i * each + strip_rows(height, each, i) == height,
{
    assert(0 <= i * each <= (n - 1) * each) by (nonlinear_arith)
        requires
            0 <= i <= n - 1,
            each >= 1,
    ;
    if i < n - 1 {
        assert(i * each + each <= (n - 1) * each) by (nonlinear_arith)
            requires
                i + 1 <= n - 1,
                each >= 1,
        ;
    } else {
        assert((n - 1) * each + each == n * each) by (nonlinear_arith);
    }
}

proof fn lemma_empty_strip(set: Settings, width: int, height: int, each: int, n: int, i: int)
    requires
        set.ok(),
        set.sync_prefix != 0,
        divided(width, height, each, n),
        0 <= i < n,
    ensures
        is_strip(
            empty_segment(strip_headers(set, width, height, each, n)[i]),
            set.bits,
            width,
            height,
            each,
            n,
        ),
        strip_headers(set, width, height, each, n)[i].segment_index == i,
{
    lemma_strip_rows(width, height, each, n, i);
    let s = empty_segment(strip_headers(set, width, height, each, n)[i]);
    assert(packets_bytes(Seq::<Packet>::empty()) =~= Seq::empty());
    assert(segment_ok(s));
}

proof fn lemma_written_strips(
    set: Settings,
    plane: IcerPlane,
    width: usize,
    height: int,
    each: int,
    n: int,
    budget: Option<u64>,
    k: int,
)
    requires
        set.ok(),
        set.sync_prefix != 0,
        divided(width as int, height, each, n),
        0 <= k <= n,
        strips_written(set, plane, width, height, each, n, budget, k) is Ok,
    ensures
        ({
            let (w, full) = strips_written(set, plane, width, height, each, n, budget, k)->Ok_0;
            &&& matches_kept(w, n)
            &&& all_are_strips(w.segments, set.bits, width as int, height, each, n)
            &&& forall|v: int| k <= v < n ==> !(#[trigger] w.kept[v])
            &&& budget is None ==> !full && forall|v: int| 0 <= v < k ==> #[trigger] w.kept[v]
            &&& budget is None && lossless(set, plane, width as int, height) ==> all_have_rows(
                w.segments,
                set.bits,
                plane,
                width as int,
                height,
                each,
            )
        }),
    decreases k,
{
    if k <= 0 {
        lemma_nothing_kept(n);
    } else {
        lemma_written_strips(set, plane, width, height, each, n, budget, k - 1);
        let (w, full) = strips_written(set, plane, width, height, each, n, budget, k - 1)->Ok_0;
        let (after, full_after) = strips_written(
            set,
            plane,
            width,
            height,
            each,
            n,
            budget,
            k,
        )->Ok_0;
        lemma_strip_rows(width as int, height, each, n, k - 1);
        let used = stream_of(w.segments).len() as int;
        if full || (budget matches Some(b) && used >= b) {
        } else {
            let inner = match budget {
                Some(b) => Some(crate::parts::left_of(b as int, used, 12 * (n - k)) as u64),
                None => None,
            };
            let s = strip_at(set, plane, width, height, each, k - 1, inner)->Ok_0;
            lemma_strip_is_strip(set, plane, width, height, each, k - 1, n, inner);
            if after.segments.len() > w.segments.len() {
                lemma_one_more_kept(w, n, s);
                assert(after.segments =~= w.segments.push(s));
                if budget is None && lossless(set, plane, width as int, height) {
                    lemma_strip_has_rows(set, plane, width, height, each, k - 1, n);
                }
            }
        }
    }
}

proof fn lemma_all_strips(
    set: Settings,
    plane: IcerPlane,
    width: usize,
    height: int,
    each: int,
    n: int,
    budget: Option<u64>,
    k: int,
)
    requires
        set.ok(),
        set.sync_prefix != 0,
        divided(width as int, height, each, n),
        0 <= k <= n,
        all_strips(set, plane, width, height, each, budget, k) is Ok,
    ensures
        ({
            let strips = all_strips(set, plane, width, height, each, budget, k)->Ok_0;
            &&& strips.len() == k
            &&& forall|i: int|
                0 <= i < k ==> (#[trigger] strips[i]).header.segment_index == i
            &&& all_are_strips(strips, set.bits, width as int, height, each, n)
            &&& budget is None && lossless(set, plane, width as int, height) ==> all_have_rows(
                strips,
                set.bits,
                plane,
                width as int,
                height,
                each,
            )
        }),
    decreases k,
{
    if k > 0 {
        lemma_all_strips(set, plane, width, height, each, n, budget, k - 1);
        lemma_strip_rows(width as int, height, each, n, k - 1);
        lemma_strip_is_strip(set, plane, width, height, each, k - 1, n, budget);
        if budget is None && lossless(set, plane, width as int, height) {
            lemma_strip_has_rows(set, plane, width, height, each, k - 1, n);
        }
    }
}

/// The order of ranks names every segment once.
pub proof fn lemma_order_distinct(ranks: Option<Vec<u16>>, n: int, i: int, j: int)
    requires
        1 <= n <= 0xFFFF,
        emission_order(ranks, n) is Ok,
        0 <= i < j < n,
    ensures
        emission_order(ranks, n)->Ok_0.len() == n,
        emission_order(ranks, n)->Ok_0[i] != emission_order(ranks, n)->Ok_0[j],
        emission_order(ranks, n)->Ok_0[i] < n,
        emission_order(ranks, n)->Ok_0[j] < n,
{
    match ranks {
        None => {},
        Some(v) => {
            lemma_every_rank(v@, n, i);
            lemma_every_rank(v@, n, j);
        },
    }
}

pub proof fn lemma_order_range(ranks: Option<Vec<u16>>, n: int, i: int)
    requires
        1 <= n <= 0xFFFF,
        emission_order(ranks, n) is Ok,
        0 <= i < n,
    ensures
        emission_order(ranks, n)->Ok_0.len() == n,
        emission_order(ranks, n)->Ok_0[i] < n,
{
    match ranks {
        None => {},
        Some(v) => {
            lemma_every_rank(v@, n, i);
        },
    }
}

proof fn lemma_ranked_strips(
    ranks: Option<Vec<u16>>,
    strips: Seq<Segment>,
    bits: u8,
    plane: IcerPlane,
    width: int,
    height: int,
    each: int,
    n: int,
    budget: Option<u64>,
    k: int,
)
    requires
        1 <= n <= 0xFFFF,
        emission_order(ranks, n) is Ok,
        strips.len() == n,
        forall|i: int| 0 <= i < n ==> (#[trigger] strips[i]).header.segment_index == i,
        all_are_strips(strips, bits, width, height, each, n),
        0 <= k <= n,
    ensures
        ({
            let order = emission_order(ranks, n)->Ok_0;
            let w = ranked_written(strips, order, budget, k);
            &&& matches_kept(w, n)
            &&& all_are_strips(w.segments, bits, width, height, each, n)
            &&& forall|v: int|
                0 <= v < n && #[trigger] w.kept[v] ==> exists|j: int|
                    0 <= j < k && #[trigger] order[j] == v
            &&& budget is None ==> forall|j: int|
                0 <= j < k ==> w.kept[#[trigger] order[j] as int]
            &&& all_have_rows(strips, bits, plane, width, height, each) ==> all_have_rows(
                w.segments,
                bits,
                plane,
                width,
                height,
                each,
            )
        }),
    decreases k,
{
    let order = emission_order(ranks, n)->Ok_0;
    if k <= 0 {
        lemma_nothing_kept(n);
    } else {
        lemma_ranked_strips(
            ranks,
            strips,
            bits,
            plane,
            width,
            height,
            each,
            n,
            budget,
            k - 1,
        );
        lemma_order_range(ranks, n, k - 1);
        let w = ranked_written(strips, order, budget, k - 1);
        let after = ranked_written(strips, order, budget, k);
        let i = order[k - 1] as int;
        if w.kept[i] {
            let j = choose|j: int| 0 <= j < k - 1 && #[trigger] order[j] == i;
            lemma_order_distinct(ranks, n, j, k - 1);
        }
        assert(strips[i].header.segment_index == i);
        assert(is_strip(strips[i], bits, width, height, each, n));
        lemma_one_more_kept(w, n, strips[i]);
        if after.segments.len() > w.segments.len() {
            assert forall|v: int| 0 <= v < n && #[trigger] after.kept[v] implies exists|j: int|
                0 <= j < k && #[trigger] order[j] == v by {
                if v == i {
                    assert(order[k - 1] == v);
                } else {
                    assert(w.kept[v]);
                    let j = choose|j: int| 0 <= j < k - 1 && #[trigger] order[j] == v;
                    assert(order[j] == v);
                }
            }
        } else {
            assert forall|v: int| 0 <= v < n && #[trigger] after.kept[v] implies exists|j: int|
                0 <= j < k && #[trigger] order[j] == v by {
                let j = choose|j: int| 0 <= j < k - 1 && #[trigger] order[j] == v;
                assert(order[j] == v);
            }
        }
        if budget is None {
            assert forall|j: int| 0 <= j < k implies after.kept[#[trigger] order[j] as int] by {
                lemma_order_range(ranks, n, j);
                if j < k - 1 {
                    assert(w.kept[order[j] as int]);
                }
            }
        }
    }
}

/// With the empty segments for those left out, written strips are all strips.
proof fn lemma_with_placeholders(
    set: Settings,
    w: Written,
    width: int,
    height: int,
    each: int,
    n: int,
)
    requires
        set.ok(),
        set.sync_prefix != 0,
        divided(width, height, each, n),
        matches_kept(w, n),
        all_are_strips(w.segments, set.bits, width, height, each, n),
    ensures
        ({
            let headers = strip_headers(set, width, height, each, n);
            let all = w.segments + placeholders(w.kept, headers, n);
            &&& each_once(all, n)
            &&& all_are_strips(all, set.bits, width, height, each, n)
        }),
{
    let headers = strip_headers(set, width, height, each, n);
    let rest = placeholders(w.kept, headers, n);
    let all = w.segments + rest;
    assert(own_index(headers, n)) by {
        assert forall|i: int| 0 <= i < n implies (#[trigger] headers[i]).segment_index == i by {
            lemma_empty_strip(set, width, height, each, n, i);
        }
    }
    written_and_left_out(w, headers, n);
    assert forall|i: int| 0 <= i < all.len() implies is_strip(
        #[trigger] all[i],
        set.bits,
        width,
        height,
        each,
        n,
    ) by {
        if i < w.segments.len() {
            assert(all[i] == w.segments[i]);
        } else {
            let k = i - w.segments.len();
            assert(all[i] == rest[k]);
            lemma_placeholder_member(w.kept, headers, n, k);
            let j = choose|j: int|
                0 <= j < n && #[trigger] headers[j] == rest[k].header && rest[k]
                    == empty_segment(headers[j]);
            lemma_empty_strip(set, width, height, each, n, j);
        }
    }
}

pub proof fn lemma_no_placeholders(kept: Seq<bool>, headers: Seq<SegmentHeader>, k: int)
    requires
        0 <= k <= kept.len(),
        forall|v: int| 0 <= v < k ==> #[trigger] kept[v],
    ensures
        placeholders(kept, headers, k).len() == 0,
    decreases k,
{
    if k > 0 {
        lemma_no_placeholders(kept, headers, k - 1);
    }
}

/// **An order of ranks is one of all segments.**
pub proof fn orders_are_rankings(ranks: Option<Vec<u16>>, n: int)
    requires
        1 <= n <= 0xFFFF,
        emission_order(ranks, n) is Ok,
    ensures
        is_ranking(emission_order(ranks, n)->Ok_0, n),
{
    let order = emission_order(ranks, n)->Ok_0;
    lemma_order_range(ranks, n, 0);
    assert forall|i: int| 0 <= i < n implies #[trigger] order[i] < n by {
        lemma_order_range(ranks, n, i);
    }
    assert forall|i: int, j: int| 0 <= i < j < n implies #[trigger] order[i]
        != #[trigger] order[j] by {
        lemma_order_distinct(ranks, n, i, j);
    }
}

/// The segments that encoding a plane in more than one strip leads to.
proof fn lemma_strips_encoded(
    ranks: Option<Vec<u16>>,
    set: Settings,
    plane: IcerPlane,
    width: usize,
    height: usize,
    n: int,
    budget: Option<u64>,
)
    requires
        decodable(set, plane, width as int, height as int),
        2 <= n <= 0xFFFF,
        strips_encoded(ranks, set, plane, width, height, n, budget) is Ok,
    ensures
        ({
            let segments = strips_encoded(ranks, set, plane, width, height, n, budget)->Ok_0;
            let each = ceil_div(height as int, n);
            &&& divided(width as int, height as int, each, n)
            &&& each_once(segments, n)
            &&& all_are_strips(segments, set.bits, width as int, height as int, each, n)
            &&& budget is None && lossless(set, plane, width as int, height as int)
                ==> all_have_rows(
                segments,
                set.bits,
                plane,
                width as int,
                height as int,
                each,
            )
        }),
{
    let segments = strips_encoded(ranks, set, plane, width, height, n, budget)->Ok_0;
    let (w_, h_) = (width as int, height as int);
    let each = ceil_div(h_, n);
    lemma_last_strip(h_, each, n);
    let headers = strip_headers(set, w_, h_, each, n);
    let order = emission_order(ranks, n)->Ok_0;
    orders_are_rankings(ranks, n);
    let w = if ranks is None {
        lemma_written_strips(set, plane, width, h_, each, n, budget, n);
        strips_written(set, plane, width, h_, each, n, budget, n)->Ok_0.0
    } else {
        let strips = all_strips(set, plane, width, h_, each, budget, n)->Ok_0;
        lemma_all_strips(set, plane, width, h_, each, n, budget, n);
        lemma_ranked_strips(ranks, strips, set.bits, plane, w_, h_, each, n, budget, n);
        let w = ranked_written(strips, order, budget, n);
        if budget is None {
            assert forall|v: int| 0 <= v < n implies #[trigger] w.kept[v] by {
                lemma_every_rank(order, n, v);
                let j = at_rank(order, v);
                assert(w.kept[order[j] as int]);
            }
        }
        w
    };
    assert(segments == w.segments + placeholders(w.kept, headers, n));
    lemma_with_placeholders(set, w, w_, h_, each, n);
    if budget is None {
        lemma_no_placeholders(w.kept, headers, n);
        assert(segments =~= w.segments);
    }
}

/// The segment that encoding a plane in one strip leads to.
proof fn lemma_single_encoded(
    ranks: Option<Vec<u16>>,
    set: Settings,
    plane: IcerPlane,
    width: usize,
    height: usize,
    budget: Option<u64>,
)
    requires
        decodable(set, plane, width as int, height as int),
        strips_encoded(ranks, set, plane, width, height, 1, budget) is Ok,
    ensures
        ({
            let segments = strips_encoded(ranks, set, plane, width, height, 1, budget)->Ok_0;
            let each = height as int;
            &&& divided(width as int, height as int, each, 1)
            &&& each_once(segments, 1)
            &&& all_are_strips(segments, set.bits, width as int, height as int, each, 1)
            &&& budget is None && lossless(set, plane, width as int, height as int)
                ==> all_have_rows(
                segments,
                set.bits,
                plane,
                width as int,
                height as int,
                each,
            )
        }),
{
    let segments = strips_encoded(ranks, set, plane, width, height, 1, budget)->Ok_0;
    let (w_, h_) = (width as int, height as int);
    let s = segments[0];
    assert(strip_at(set, plane, width, h_, h_, 0, budget) == strip_segment(
        set,
        plane,
        width,
        0,
        height,
        0,
        budget,
    ));
    lemma_strip_is_strip(set, plane, width, h_, h_, 0, 1, budget);
    lemma_empty_strip(set, w_, h_, h_, 1, 0);
    if budget is None && lossless(set, plane, w_, h_) {
        lemma_strip_has_rows(set, plane, width, h_, h_, 0, 1);
    }
    assert(segments.len() == 1);
    assert forall|v: int| 0 <= v < 1 implies #[trigger] index_count(segments, v) == 1 by {
        assert(segments.drop_last() =~= Seq::empty());
        assert(index_count(Seq::<Segment>::empty(), v) == 0);
    }
}

proof fn lemma_rows_join(plane: IcerPlane, row: int, a: int, b: int)
    requires
        row >= 1,
        a >= 0,
        b >= 0,
    ensures
        rows_of(plane, row, 0, a) + rows_of(plane, row, a, b) == rows_of(plane, row, 0, a + b),
{
    let left = rows_of(plane, row, 0, a);
    let right = rows_of(plane, row, a, b);
    let all = rows_of(plane, row, 0, a + b);
    assert(row * (a + b) == row * a + row * b && row * a >= 0 && row * b >= 0) by (nonlinear_arith)
        requires
            row >= 1,
            a >= 0,
            b >= 0,
    ;
    assert forall|i: int| 0 <= i < all.len() implies all[i] == (left + right)[i] by {
        if i >= row * a {
            let k = i - row * a;
            vstd::arithmetic::div_mod::lemma_hoist_over_denominator(k, a, row as nat);
            vstd::arithmetic::div_mod::lemma_mod_multiples_vanish(a, k, row);
            assert(a * row == row * a) by (nonlinear_arith);
            assert(i / row == a + k / row);
            assert(i % row == k % row);
        }
    }
    assert(left + right =~= all);
}

/// The strips of a plane in order, after the first `k`.
proof fn lemma_strips_in_order(
    t: Seq<Segment>,
    bits: u8,
    plane: IcerPlane,
    width: int,
    height: int,
    each: int,
    n: int,
    k: int,
)
    requires
        depth_in_range(bits),
        divided(width, height, each, n),
        t.len() == n,
        forall|i: int| 0 <= i < n ==> (#[trigger] t[i]).header.segment_index == i,
        all_are_strips(t, bits, width, height, each, n),
        0 <= k <= n,
    ensures
        strips_fault(t, k) is None,
        strips_height(t, k) == (if k < n {
            k * each
        } else {
            height
        }),
        pixels_total(t.take(k)) == width * strips_height(t, k),
        strips_data(t, bits, k) is Ok,
        all_have_rows(t, bits, plane, width, height, each) ==> strips_data(t, bits, k) == Ok::<
            Seq<u8>,
            Fault,
        >(rows_of(plane, width * sample_size(bits), 0, strips_height(t, k))),
    decreases k,
{
    let row = width * sample_size(bits);
    assert(row >= 1) by (nonlinear_arith)
        requires
            row == width * sample_size(bits),
            width >= 1,
            sample_size(bits) >= 1,
    ;
    if k <= 0 {
        assert(0 * each == 0);
        assert(width * 0 == 0);
        assert(t.take(0) =~= Seq::empty());
        assert(row * 0 == 0);
        assert(rows_of(plane, row, 0, 0) =~= Seq::empty());
    } else {
        lemma_strips_in_order(t, bits, plane, width, height, each, n, k - 1);
        let s = t[k - 1];
        assert(s.header.segment_index == k - 1);
        assert(is_strip(s, bits, width, height, each, n));
        assert(is_strip(t[0], bits, width, height, each, n));
        lemma_strip_rows(width, height, each, n, k - 1);
        let rows = strip_rows(height, each, k - 1);
        let before = strips_height(t, k - 1);
        assert((k - 1) * each + each == k * each) by (nonlinear_arith);
        assert(before == (k - 1) * each);
        assert(t.take(k).drop_last() =~= t.take(k - 1));
        assert(t.take(k).last() == s);
        assert(width * (before + rows) == width * before + width * rows) by (nonlinear_arith);
        if all_have_rows(t, bits, plane, width, height, each) {
            assert(has_rows(s, bits, plane, width, height, each));
            lemma_rows_join(plane, row, before, rows);
        }
    }
}

/// The limits of a decoder allow a plane that is announced `n` times over.
pub open spec fn generous(limits: DecodeLimits, width: int, height: int, n: int) -> bool {
    width * height <= limits.max_pixels_per_segment && n * (width * height)
        <= limits.max_total_pixels
}

/// Strips in any order decode to a plane of their size.
proof fn lemma_strips_decode(
    segments: Seq<Segment>,
    bits: u8,
    plane: IcerPlane,
    width: int,
    height: int,
    each: int,
    n: int,
    limits: DecodeLimits,
)
    requires
        depth_in_range(bits),
        divided(width, height, each, n),
        each_once(segments, n),
        all_are_strips(segments, bits, width, height, each, n),
        !too_large(width, height, bits),
        generous(limits, width, height, 1),
    ensures
        ({
            let r = plane_decoded(stream_of(segments), bits, limits);
            &&& stream_segments(stream_of(segments), limits) == Ok::<Seq<Segment>, Fault>(segments)
            &&& r is Ok
            &&& steady(stream_of(segments), limits)
            &&& r->Ok_0.width == width
            &&& r->Ok_0.height == height
            &&& all_have_rows(segments, bits, plane, width, height, each) ==> r->Ok_0.data
                == rows_of(plane, width * sample_size(bits), 0, height)
        }),
{
    each_once_in_order(segments, n);
    let t = by_index(segments);
    assert forall|i: int| 0 <= i < n implies is_strip(
        #[trigger] t[i],
        bits,
        width,
        height,
        each,
        n,
    ) by {
        let j = choose|j: int| 0 <= j < segments.len() && segments[j] == t[i];
        assert(is_strip(segments[j], bits, width, height, each, n));
    }
    if all_have_rows(segments, bits, plane, width, height, each) {
        assert forall|i: int| 0 <= i < n implies has_rows(
            #[trigger] t[i],
            bits,
            plane,
            width,
            height,
            each,
        ) by {
            let j = choose|j: int| 0 <= j < segments.len() && segments[j] == t[i];
            assert(has_rows(segments[j], bits, plane, width, height, each));
        }
    }
    lemma_strips_in_order(t, bits, plane, width, height, each, n, n);
    assert(t.take(n) =~= t);
    lemma_pixels_ordered(segments);
    lemma_pixels_total(segments, segments.len() as int);
    assert(segments.take(segments.len() as int) =~= segments);
    let area = width * height;
    assert(within_limits(segments, limits)) by {
        assert forall|i: int| 0 <= i < segments.len() implies pixels_of(
            (#[trigger] segments[i]).header,
        ) <= limits.max_pixels_per_segment by {
            let s = segments[i];
            assert(is_strip(s, bits, width, height, each, n));
            lemma_strip_rows(width, height, each, n, s.header.segment_index as int);
            let rows = s.header.height as int;
            assert(width * rows <= width * height) by (nonlinear_arith)
                requires
                    width >= 1,
                    0 <= rows <= height,
            ;
        }
    }
    assert forall|i: int| 0 <= i < segments.len() implies segment_ok(#[trigger] segments[i]) by {
        assert(is_strip(segments[i], bits, width, height, each, n));
    }
    stream_reads_back(segments, limits);
    assert(is_strip(t[0], bits, width, height, each, n));
    ordering_permutes(segments);
    assert forall|i: int| 0 <= i < t.len() - 1 implies (#[trigger] t[i]).header.height
        == t[0].header.height by {
        assert(is_strip(t[i], bits, width, height, each, n));
        lemma_strip_rows(width, height, each, n, i);
        lemma_strip_rows(width, height, each, n, 0);
    }
}

/// **The stream of strips decodes to a plane of the same size, and without a
/// loss to the plane itself.** The first holds whatever a budget leaves of the
/// strips, and in whatever order they stand.
pub proof fn strips_read_back(
    set: Settings,
    ranks: Option<Vec<u16>>,
    plane: IcerPlane,
    width: usize,
    height: usize,
    budget: Option<u64>,
    limits: DecodeLimits,
)
    requires
        decodable(set, plane, width as int, height as int),
        !set.transform,
        set.count() <= 0xFFFF,
        plane_segments(set, ranks, plane, width, height, budget) is Ok,
        generous(limits, width as int, height as int, 1),
    ensures
        ({
            let segments = plane_segments(set, ranks, plane, width, height, budget)->Ok_0;
            let r = plane_decoded(stream_of(segments), set.bits, limits);
            &&& stream_segments(stream_of(segments), limits) == Ok::<Seq<Segment>, Fault>(segments)
            &&& r is Ok
            &&& steady(stream_of(segments), limits)
            &&& r->Ok_0.width == width
            &&& r->Ok_0.height == height
            &&& budget is None && lossless(set, plane, width as int, height as int)
                ==> r->Ok_0.data == rows_of(plane, width * sample_size(set.bits), 0, height as int)
        }),
{
    let segments = plane_segments(set, ranks, plane, width, height, budget)->Ok_0;
    let n = set.count();
    let (w, h) = (width as int, height as int);
    if n == 1 {
        lemma_single_encoded(ranks, set, plane, width, height, budget);
        lemma_strips_decode(segments, set.bits, plane, w, h, h, n, limits);
    } else {
        lemma_strips_encoded(ranks, set, plane, width, height, n, budget);
        lemma_strips_decode(segments, set.bits, plane, w, h, ceil_div(h, n), n, limits);
    }
}

} // verus!
