//! What a decoder makes of the segments of an encoder.
//!
//! A segment that ends early, because of a quota or a minimum loss, decodes to
//! what has arrived of its coefficients. A whole segment without a loss decodes
//! to the samples that it was made of.

use crate::bitplane::{bitplanes_decoded, body_of, fits_planes, index_from, planes_from, planes_heard, prioritized_decoded, schedule_heard, schedule_params, Coded};
use crate::compress::{body_of_packets, coded_packets_of, coded_selection, planes_for, rows_of, Settings};
use crate::emit::{group_packet, groups_emitted, plane_packet, planes_emitted, Quota};
use crate::entropy::{coder_of, EntropyKind};
use crate::error::Fault;
use crate::header::{Packet, Segment, SegmentHeader};
use crate::image::IcerPlane;
use crate::priority::{all_planes_come, packets_carry_the_order, schedule, Scheduled};
use crate::readback::{lemma_exact_value, lemma_packets, packet_depth, packets_read_back, scope_fits, value_to};
use crate::readback_priority::{final_depth, lemma_subband_of, order_depth, prioritized_packets_read_back, prioritized_reads_back, subband_of, unit_order, units_before};
use crate::scan::{fresh_hearing, magnitude_of, reconstructed, Grid, Selection};
use crate::strip::{coded_packets, depth_in_range, half_range, sample_bytes_of, sample_size, segment_coeffs, segment_grid, segment_selection, shifted_samples, word_at, zero_coeffs};
use crate::wavelet_int::bounded;
use vstd::prelude::*;
use vstd::arithmetic::power2::pow2;

verus! {

// ---------------------------------------------------------------------------
// What a segment carries
// ---------------------------------------------------------------------------

/// Packets in the order of bit planes, two for each.
pub open spec fn in_plane_order(packets: Seq<Coded>, q: u8) -> bool {
    &&& packets.len() == 2 * q
    &&& forall|k: int|
        0 <= k < 2 * q ==> (#[trigger] packets[k]).bit_plane == k / 2
            && packets[k].is_significance == (k % 2 == 0)
}

pub proof fn lemma_index_in_order(packets: Seq<Coded>, q: u8, s: int, from: int)
    requires
        in_plane_order(packets, q),
        q <= 31,
        0 <= from <= s < 2 * q,
    ensures
        index_from(packets, (s / 2) as u8, s % 2 == 0, from) == Some(s),
    decreases s - from,
{
    if from < s {
        assert(packets[from].bit_plane == from / 2 && packets[from].is_significance == (from % 2
            == 0));
        lemma_index_in_order(packets, q, s, from + 1);
    } else {
        assert(packets[s].bit_plane == s / 2);
    }
}

/// Without a choice of packets a segment carries the first of them.
proof fn lemma_planes_prefix(packets: Seq<Coded>, q: u8, min_loss: u8, quota: Quota, floor: u8, s: int)
    requires
        in_plane_order(packets, q),
        q <= 31,
        0 <= s <= 2 * q,
        planes_emitted(packets, q, min_loss, quota, floor, None, s) is Ok,
    ensures
        ({
            let e = planes_emitted(packets, q, min_loss, quota, floor, None, s)->Ok_0;
            &&& e.packets.len() <= s
            &&& !e.done ==> e.packets.len() == s
            &&& forall|i: int|
                0 <= i < e.packets.len() ==> #[trigger] e.packets[i] == plane_packet(
                    packets[i],
                    min_loss,
                ) && packets[i].body.len() <= 0xFFFF
        }),
    decreases s,
{
    if s > 0 {
        lemma_planes_prefix(packets, q, min_loss, quota, floor, s - 1);
        lemma_index_in_order(packets, q, s - 1, 0);
    }
}

proof fn lemma_groups_prefix(packets: Seq<Coded>, min_loss: u8, quota: Quota, s: int)
    requires
        0 <= s <= packets.len(),
        groups_emitted(packets, min_loss, quota, s) is Ok,
    ensures
        ({
            let e = groups_emitted(packets, min_loss, quota, s)->Ok_0;
            &&& e.packets.len() <= s
            &&& !e.done ==> e.packets.len() == s
            &&& forall|i: int|
                0 <= i < e.packets.len() ==> #[trigger] e.packets[i] == group_packet(
                    packets[i],
                    min_loss,
                ) && packets[i].body.len() <= 0xFFFF
        }),
    decreases s,
{
    if s > 0 {
        lemma_groups_prefix(packets, min_loss, quota, s - 1);
    }
}

/// Two lists of packets that differ in nothing but the kind of their bits
/// decode to the same in the priority order.
proof fn lemma_heard_bodies(
    g: Grid,
    f: Selection,
    kind: EntropyKind,
    q: u8,
    plan: Seq<Scheduled>,
    a: Seq<Coded>,
    b: Seq<Coded>,
    k: int,
)
    requires
        0 <= k,
        a.len() == b.len(),
        forall|i: int|
            0 <= i < a.len() ==> (#[trigger] a[i]).bit_plane == b[i].bit_plane && a[i].body
                == b[i].body,
    ensures
        schedule_heard(g, f, kind, q, plan, a, k) == schedule_heard(g, f, kind, q, plan, b, k),
    decreases k,
{
    if k > 0 {
        lemma_heard_bodies(g, f, kind, q, plan, a, b, k - 1);
        if k - 1 < a.len() {
            assert(a[k - 1].body == b[k - 1].body);
        }
    }
}

/// Nothing decodes from no packets.
pub proof fn lemma_nothing_heard(g: Grid, f: Selection, kind: EntropyKind, q: u8, p: int)
    requires
        0 <= p,
    ensures
        planes_heard(g, f, kind, q, Seq::empty(), p).s == fresh_hearing(g.area(), q),
    decreases p,
{
    if p > 0 {
        lemma_nothing_heard(g, f, kind, q, p - 1);
        assert(body_of(Seq::empty(), (p - 1) as u8, true) is None);
    }
}

proof fn lemma_nothing_scheduled(g: Grid, f: Selection, kind: EntropyKind, q: u8, plan: Seq<Scheduled>, k: int)
    requires
        0 <= k,
    ensures
        schedule_heard(g, f, kind, q, plan, Seq::empty(), k).s == fresh_hearing(g.area(), q),
    decreases k,
{
    if k > 0 {
        lemma_nothing_scheduled(g, f, kind, q, plan, k - 1);
    }
}

pub proof fn lemma_fresh_values(n: int, q: u8)
    requires
        n >= 0,
    ensures
        reconstructed(fresh_hearing(n, q)) == zero_coeffs(n),
{
    assert(reconstructed(fresh_hearing(n, q)) =~= zero_coeffs(n));
}

/// How far coefficient `i` is known after the first `k` packets of a segment.
pub open spec fn depth_after(
    set: Settings,
    g: Grid,
    coeffs: Seq<i32>,
    f: Selection,
    q: u8,
    i: int,
    k: int,
) -> u32 {
    if set.priority {
        order_depth(
            g,
            f,
            q,
            unit_order(g, q, set.min_loss),
            i,
            units_before(schedule(schedule_params(g, q, set.min_loss)), k),
        )
    } else {
        packet_depth(g, coeffs, f, q, i, k)
    }
}

/// What is known of all coefficients after the first `k` packets of a segment.
pub open spec fn known_after(
    set: Settings,
    g: Grid,
    coeffs: Seq<i32>,
    f: Selection,
    q: u8,
    k: int,
) -> Seq<i32> {
    Seq::new(
        coeffs.len(),
        |i: int| value_to(coeffs[i], depth_after(set, g, coeffs, f, q, i, k)),
    )
}

/// A header that fits the settings.
pub open spec fn header_fits(set: Settings, header: SegmentHeader, g: Grid, q: u8) -> bool {
    &&& header.width == g.width
    &&& header.height == g.height
    &&& header.decomp_levels == set.levels == g.levels
    &&& header.bit_plane_count == q
    &&& header.interleaved_entropy == set.interleaved
    &&& header.priority_interleaved == set.priority
}

pub proof fn lemma_area_bound(g: Grid)
    requires
        g.width <= 0xFFFF,
        g.height <= 0xFFFF,
    ensures
        0 <= g.area() <= 0xFFFE_0001,
        g.ok(),
{
    assert(0 <= g.width * g.height <= 0xFFFE_0001) by (nonlinear_arith)
        requires
            0 <= g.width <= 0xFFFF,
            0 <= g.height <= 0xFFFF,
    ;
}

/// **A segment decodes to what its packets tell of its coefficients**, however
/// many of them a quota or a minimum loss leaves.
pub proof fn segments_decode_to_what_is_known(
    set: Settings,
    header: SegmentHeader,
    g: Grid,
    coeffs: Seq<i32>,
    segment: Option<(Seq<u16>, u16)>,
    window: Option<(usize, usize, usize, usize)>,
    q: u8,
    quota: Quota,
    floor: u8,
    list: Seq<Packet>,
)
    requires
        set.ok(),
        header_fits(set, header, g, q),
        g.width <= 0xFFFF,
        g.height <= 0xFFFF,
        coeffs.len() == g.area(),
        1 <= q <= 31,
        scope_fits(g, coeffs, coded_selection(set, g, segment, window), q),
        body_of_packets(
            set,
            coded_packets_of(set, g, coeffs, coded_selection(set, g, segment, window), q),
            q,
            quota,
            floor,
            None,
        ) == Ok::<Seq<Packet>, Fault>(list),
    ensures
        segment_coeffs(Segment { header, packets: list }, segment, window) == Ok::<Seq<i32>, Fault>(
            known_after(
                set,
                g,
                coeffs,
                coded_selection(set, g, segment, window),
                q,
                list.len() as int,
            ),
        ),
        list.len() <= coded_packets_of(
            set,
            g,
            coeffs,
            coded_selection(set, g, segment, window),
            q,
        ).len(),
{
    let f = coded_selection(set, g, segment, window);
    let kind = coder_of(set.interleaved);
    let packets = coded_packets_of(set, g, coeffs, f, q);
    let k = list.len() as int;
    lemma_area_bound(g);
    let known = known_after(set, g, coeffs, f, q, k);
    let s = Segment { header, packets: list };
    let plan = schedule(schedule_params(g, q, set.min_loss));
    if set.priority {
        lemma_groups_prefix(packets, set.min_loss, quota, packets.len() as int);
        prioritized_packets_read_back(g, coeffs, f, kind, q, set.min_loss, 0);
        prioritized_packets_read_back(g, coeffs, f, kind, q, set.min_loss, k);
        let some = packets.take(k);
        let sent = coded_packets(list);
        assert forall|i: int| 0 <= i < sent.len() implies (#[trigger] sent[i]).bit_plane
            == some[i].bit_plane && sent[i].body == some[i].body by {
            assert(list[i] == group_packet(packets[i], set.min_loss));
        }
        lemma_heard_bodies(g, f, kind, q, plan, sent, some, plan.len() as int);
        assert(known =~= prioritized_decoded(g, f, kind, q, set.min_loss, some));
        if k == 0 {
            assert(some =~= Seq::empty());
            lemma_nothing_scheduled(g, f, kind, q, plan, plan.len() as int);
            lemma_fresh_values(g.area(), q);
        } else {
            assert(list[0] == group_packet(packets[0], set.min_loss));
        }
    } else {
        lemma_packets(g, coeffs, f, kind, q, q as int);
        lemma_planes_prefix(packets, q, set.min_loss, quota, floor, 2 * q);
        packets_read_back(g, coeffs, f, kind, q, k);
        let some = packets.take(k);
        let sent = coded_packets(list);
        assert(sent =~= some) by {
            assert forall|i: int| 0 <= i < k implies sent[i] == some[i] by {
                assert(list[i] == plane_packet(packets[i], set.min_loss));
            }
        }
        assert(known =~= bitplanes_decoded(g, f, kind, q, some));
        if k == 0 {
            assert(some =~= Seq::empty());
            lemma_nothing_heard(g, f, kind, q, q as int);
            lemma_fresh_values(g.area(), q);
        } else {
            assert(list[0] == plane_packet(packets[0], set.min_loss));
        }
    }
    assert(segment_grid(header) == g);
    if k > 0 {
        assert(list[0].header.min_loss == set.min_loss);
        assert(segment_selection(segment, window, header, set.min_loss) == f);
    }
}

// ---------------------------------------------------------------------------
// Samples and their transform
// ---------------------------------------------------------------------------

/// Every sample lies in the range of its bits.
pub open spec fn in_range(samples: Seq<i32>, bits: u8) -> bool {
    forall|i: int|
        0 <= i < samples.len() ==> -half_range(bits) <= #[trigger] samples[i] < half_range(bits)
}

/// **The bytes of the samples of a strip are those of its rows**, where all of
/// them lie in the range of their bits.
pub proof fn samples_give_rows(plane: IcerPlane, bits: u8, width: int, y0: int, rows: int)
    requires
        depth_in_range(bits),
        width >= 1,
        rows >= 0,
        in_range(shifted_samples(plane, bits, width, y0, rows), bits),
    ensures
        sample_bytes_of(shifted_samples(plane, bits, width, y0, rows), bits) == rows_of(
            plane,
            width * sample_size(bits),
            y0,
            rows,
        ),
{
    let samples = shifted_samples(plane, bits, width, y0, rows);
    let size = sample_size(bits);
    let a = sample_bytes_of(samples, bits);
    let b = rows_of(plane, width * size, y0, rows);
    let n = width * rows;
    assert(n >= 0) by (nonlinear_arith)
        requires
            n == width * rows,
            width >= 0,
            rows >= 0,
    ;
    assert(n * size == (width * size) * rows) by (nonlinear_arith)
        requires
            n == width * rows,
    ;
    assert(n * size >= 0) by (nonlinear_arith)
        requires
            n >= 0,
            size >= 0,
    ;
    assert(a.len() == b.len());
    assert forall|j: int| 0 <= j < a.len() implies a[j] == b[j] by {
        let i = j / size;
        assert(0 <= i < n) by (nonlinear_arith)
            requires
                i == j / size,
                0 <= j < n * size,
                size >= 1,
        ;
        vstd::arithmetic::div_mod::lemma_div_denominator(j, size, width);
        vstd::arithmetic::div_mod::lemma_breakdown(j, size, width);
        assert(size * width == width * size) by (nonlinear_arith);
        assert(size * (i % width) == (i % width) * size) by (nonlinear_arith);
        let off = (y0 + i / width) * plane.stride + (i % width) * size;
        assert(-half_range(bits) <= samples[i] < half_range(bits));
        lemma_word_shift(plane, bits, off);
        assert(samples[i] == word_at(plane.data@, off, size) - half_range(bits));
        assert(j % (width * size) == (i % width) * size + j % size);
        assert(j / (width * size) == i / width);
        assert(0 <= j % size < size);
        assert(b[j] == plane.data@[off + j % size]);
        let v = word_at(plane.data@, off, size);
        assert(crate::strip::clamped(samples[i] + half_range(bits), bits) == v);
        if size == 2 {
            let (low, high) = (plane.data@[off] as int, plane.data@[off + 1] as int);
            assert(v == low + 256 * high);
            assert(v % 256 == low && v / 256 == high);
            assert(j % 2 == 0 || j % 2 == 1);
        } else {
            assert(j % 1 == 0);
            assert(v == plane.data@[off]);
        }
        assert(a[j] == b[j]);
    }
    assert(a =~= b);
}

/// A word less the middle of its range is a 32-bit number.
pub proof fn lemma_word_shift(plane: IcerPlane, bits: u8, off: int)
    requires
        depth_in_range(bits),
    ensures
        -0x8000 <= word_at(plane.data@, off, sample_size(bits)) - half_range(bits) <= 0xFFFF,
        128 <= half_range(bits) <= 0x8000,
{
    vstd::arithmetic::power2::lemma2_to64();
    if bits > 8 {
        vstd::arithmetic::power2::lemma_pow2_strictly_increases(7, (bits - 1) as nat);
    }
    if bits < 16 {
        vstd::arithmetic::power2::lemma_pow2_strictly_increases((bits - 1) as nat, 15);
    }
}

/// The samples of a plane are bounded.
pub proof fn lemma_samples_bounded(plane: IcerPlane, bits: u8, width: int, y0: int, rows: int)
    requires
        depth_in_range(bits),
    ensures
        bounded(shifted_samples(plane, bits, width, y0, rows), 0x1_0000),
{
    let samples = shifted_samples(plane, bits, width, y0, rows);
    assert forall|i: int| 0 <= i < samples.len() implies -0x1_0000 <= #[trigger] samples[i]
        <= 0x1_0000 by {
        let off = (y0 + i / width) * plane.stride + (i % width) * sample_size(bits);
        lemma_word_shift(plane, bits, off);
    }
}

/// 8-bit samples always lie in their range.
pub proof fn lemma_bytes_in_range(plane: IcerPlane, width: int, y0: int, rows: int)
    ensures
        in_range(shifted_samples(plane, 8, width, y0, rows), 8),
{
    let samples = shifted_samples(plane, 8, width, y0, rows);
    vstd::arithmetic::power2::lemma2_to64();
    assert forall|i: int| 0 <= i < samples.len() implies -half_range(8) <= #[trigger] samples[i]
        < half_range(8) by {
        let off = (y0 + i / width) * plane.stride + (i % width);
        lemma_word_shift(plane, 8, off);
    }
}

/// The bit planes of a segment hold all its coefficients.
pub proof fn lemma_planes_hold(set: Settings, coeffs: Seq<i32>, b: int)
    requires
        bounded(coeffs, b),
        0 <= b < 0x200000,
    ensures
        1 <= planes_for(set, coeffs) <= 31,
        fits_planes(coeffs, planes_for(set, coeffs) as int),
{
    let q = planes_for(set, coeffs) as int;
    vstd::arithmetic::power2::lemma2_to64();
    assert(pow2(21) == 0x200000);
    assert(fits_planes(coeffs, 21)) by {
        assert forall|i: int| 0 <= i < coeffs.len() implies magnitude_of(#[trigger] coeffs[i])
            < pow2(21) by {
            assert(-b <= coeffs[i] <= b);
        }
    }
    lemma_planes_from_fit(coeffs, 1, 21);
    let p = planes_from(coeffs, 1);
    assert(q >= p);
    if q > p {
        vstd::arithmetic::power2::lemma_pow2_strictly_increases(p as nat, q as nat);
        assert forall|i: int| 0 <= i < coeffs.len() implies magnitude_of(#[trigger] coeffs[i])
            < pow2(q as nat) by {
            assert(magnitude_of(coeffs[i]) < pow2(p as nat));
        }
    }
}

proof fn lemma_planes_from_fit(coeffs: Seq<i32>, p: int, top: int)
    requires
        1 <= p <= top <= 30,
        fits_planes(coeffs, top),
    ensures
        p <= planes_from(coeffs, p) <= top,
        fits_planes(coeffs, planes_from(coeffs, p)),
    decreases top - p,
{
    if p < top && !fits_planes(coeffs, p) {
        lemma_planes_from_fit(coeffs, p + 1, top);
    }
}

pub proof fn lemma_scope_of_all(g: Grid, coeffs: Seq<i32>, f: Selection, q: u8)
    requires
        fits_planes(coeffs, q as int),
    ensures
        scope_fits(g, coeffs, f, q),
{
}

/// Without limits a segment carries all packets.
proof fn lemma_unlimited(packets: Seq<Coded>, q: u8, min_loss: u8, s: int)
    requires
        in_plane_order(packets, q),
        q <= 31,
        0 <= s <= 2 * q,
        planes_emitted(packets, q, min_loss, Quota { budget: None, target: None }, 0, None, s) is Ok,
    ensures
        !planes_emitted(
            packets,
            q,
            min_loss,
            Quota { budget: None, target: None },
            0,
            None,
            s,
        )->Ok_0.done,
        planes_emitted(
            packets,
            q,
            min_loss,
            Quota { budget: None, target: None },
            0,
            None,
            s,
        )->Ok_0.soft is None,
    decreases s,
{
    if s > 0 {
        lemma_unlimited(packets, q, min_loss, s - 1);
    }
}

proof fn lemma_unlimited_groups(packets: Seq<Coded>, min_loss: u8, s: int)
    requires
        0 <= s <= packets.len(),
        groups_emitted(packets, min_loss, Quota { budget: None, target: None }, s) is Ok,
    ensures
        !groups_emitted(
            packets,
            min_loss,
            Quota { budget: None, target: None },
            s,
        )->Ok_0.done,
    decreases s,
{
    if s > 0 {
        lemma_unlimited_groups(packets, min_loss, s - 1);
    }
}

/// **A whole segment without a loss decodes to its coefficients.**
pub proof fn whole_segments_are_exact(
    set: Settings,
    header: SegmentHeader,
    g: Grid,
    coeffs: Seq<i32>,
    segment: Option<(Seq<u16>, u16)>,
    window: Option<(usize, usize, usize, usize)>,
    q: u8,
    list: Seq<Packet>,
    i: int,
)
    requires
        set.ok(),
        set.min_loss == 0,
        header_fits(set, header, g, q),
        g.width <= 0xFFFF,
        g.height <= 0xFFFF,
        coeffs.len() == g.area(),
        1 <= q <= 31,
        scope_fits(g, coeffs, coded_selection(set, g, segment, window), q),
        body_of_packets(
            set,
            coded_packets_of(set, g, coeffs, coded_selection(set, g, segment, window), q),
            q,
            Quota { budget: None, target: None },
            0,
            None,
        ) == Ok::<Seq<Packet>, Fault>(list),
        0 <= i < coeffs.len(),
        crate::readback::in_scope(g, coded_selection(set, g, segment, window), i),
    ensures
        segment_coeffs(Segment { header, packets: list }, segment, window) is Ok,
        segment_coeffs(Segment { header, packets: list }, segment, window)->Ok_0[i] == coeffs[i],
        segment_coeffs(Segment { header, packets: list }, segment, window)->Ok_0.len()
            == coeffs.len(),
        list.len() > 0,
{
    let quota = Quota { budget: None, target: None };
    let f = coded_selection(set, g, segment, window);
    let kind = coder_of(set.interleaved);
    let packets = coded_packets_of(set, g, coeffs, f, q);
    let n = packets.len() as int;
    lemma_area_bound(g);
    segments_decode_to_what_is_known(
        set,
        header,
        g,
        coeffs,
        segment,
        window,
        q,
        quota,
        0,
        list,
    );
    let known = known_after(set, g, coeffs, f, q, list.len() as int);
    if set.priority {
        lemma_groups_prefix(packets, 0, quota, n);
        lemma_unlimited_groups(packets, 0, n);
        prioritized_reads_back(g, coeffs, f, kind, q, 0);
        prioritized_packets_read_back(g, coeffs, f, kind, q, 0, 0);
        prioritized_packets_read_back(g, coeffs, f, kind, q, 0, n);
        lemma_subband_of(g, i);
        let par = schedule_params(g, q, 0);
        packets_carry_the_order(par);
        all_planes_come(par, subband_of(g, i));
        if n == 0 {
            assert(unit_order(g, q, 0).len() == 0);
        }
        assert(packets.take(n) =~= packets);
        let out = prioritized_decoded(g, f, kind, q, 0, packets);
        assert(known =~= out);
        assert(out[i] == value_to(coeffs[i], final_depth(g, f, q, 0, i)));
        assert(final_depth(g, f, q, 0, i) == 0);
    } else {
        lemma_packets(g, coeffs, f, kind, q, q as int);
        lemma_planes_prefix(packets, q, 0, quota, 0, 2 * q);
        lemma_unlimited(packets, q, 0, 2 * q);
        assert(known[i] == value_to(coeffs[i], packet_depth(g, coeffs, f, q, i, 2 * q)));
        assert(2 * q / 2 == q as int);
        assert(packet_depth(g, coeffs, f, q, i, 2 * q) == 0);
    }
    lemma_exact_value(coeffs[i], q);
}

} // verus!
