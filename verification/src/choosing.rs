//! Packets that are chosen by what they promise never decode worse than those
//! that plain truncation leaves.

use crate::bitplane::{bitplanes_decoded, index_from, Coded};
use crate::compress::{body_budget, coded_packets_of, coded_selection, coefficients, lowest_bit, packets_chosen, planes_for, strip_coding, strip_compressed, Settings};
use crate::emit::{packets_bytes, plane_packet, planes_emitted, Quota};
use crate::entropy::coder_of;
use crate::error::Fault;
use crate::header::{Packet, Segment};
use crate::quality::words_error;
use crate::rd::{best_plan, chain_plan, choice_is_never_worse, chosen_of, empty_plan, filled_plan, lemma_index_bounds, lemma_ranked, plans_are_decodable, promises, ranked_refinements, squared_error, truncated_until, weight_map, wire_size, Coding2d, Plan};
use crate::readback::lemma_packets;
use crate::roundtrip::{in_plane_order, in_range, lemma_area_bound, lemma_fresh_values, lemma_index_in_order, lemma_nothing_heard, lemma_planes_hold};
use crate::scan::{everything, Grid};
use crate::sizes::{lemma_inverse_size, lemma_planes_size};
use crate::strip::{clamped, coded_packets, depth_in_range, half_range, sample_bytes_of, sample_size, segment_grid, segment_selection, strip_decoded, word_at};
use crate::wavelet_int::{bounded, grown, is_integer, nothing_comes_of_nothing, transform_is_reversible, weights_of};
use vstd::prelude::*;

verus! {

// ---------------------------------------------------------------------------
// The bytes of a choice
// ---------------------------------------------------------------------------

/// Bytes of the chosen ones of the first `k` packets, with their headers.
pub open spec fn chosen_bytes(packets: Seq<Coded>, chosen: Seq<bool>, k: int) -> int
    decreases k,
{
    if k <= 0 {
        0
    } else {
        chosen_bytes(packets, chosen, k - 1) + (if chosen[k - 1] {
            wire_size(packets, k - 1)
        } else {
            0
        })
    }
}

proof fn lemma_chosen_bytes_grow(packets: Seq<Coded>, chosen: Seq<bool>, j: int, k: int)
    requires
        0 <= j <= k,
    ensures
        0 <= chosen_bytes(packets, chosen, j) <= chosen_bytes(packets, chosen, k),
    decreases k,
{
    if j < k {
        lemma_chosen_bytes_grow(packets, chosen, j, k - 1);
    } else if k > 0 {
        lemma_chosen_bytes_grow(packets, chosen, j - 1, k - 1);
    }
}

proof fn lemma_one_more_chosen(packets: Seq<Coded>, chosen: Seq<bool>, i: int, k: int)
    requires
        0 <= i < chosen.len(),
        0 <= k <= chosen.len(),
    ensures
        chosen_bytes(packets, chosen.update(i, true), k) <= chosen_bytes(packets, chosen, k)
            + wire_size(packets, i),
    decreases k,
{
    if k > 0 {
        lemma_one_more_chosen(packets, chosen, i, k - 1);
        lemma_later_choice(packets, chosen, i, k - 1);
    }
}

/// What is chosen behind the first `k` packets adds nothing to them.
proof fn lemma_later_choice(packets: Seq<Coded>, chosen: Seq<bool>, i: int, k: int)
    requires
        0 <= i < chosen.len(),
        0 <= k <= chosen.len(),
    ensures
        k <= i ==> chosen_bytes(packets, chosen.update(i, true), k) == chosen_bytes(
            packets,
            chosen,
            k,
        ),
        k <= i ==> chosen_of(packets, chosen.update(i, true), k) == chosen_of(packets, chosen, k),
    decreases k,
{
    if k > 0 {
        lemma_later_choice(packets, chosen, i, k - 1);
    }
}

proof fn lemma_none_chosen(packets: Seq<Coded>, k: int)
    requires
        0 <= k <= packets.len(),
    ensures
        chosen_bytes(packets, empty_plan(packets.len() as int).chosen, k) == 0,
    decreases k,
{
    if k > 0 {
        lemma_none_chosen(packets, k - 1);
    }
}

/// The plan counts all the bytes of its packets.
spec fn honest(packets: Seq<Coded>, p: Plan) -> bool {
    &&& p.chosen.len() == packets.len()
    &&& chosen_bytes(packets, p.chosen, packets.len() as int) <= p.bytes
}

proof fn lemma_honest_chain(packets: Seq<Coded>, promises: Seq<int>, k: int)
    requires
        0 <= k <= 256,
        chain_plan(packets, promises, k) is Some,
    ensures
        honest(packets, chain_plan(packets, promises, k)->0),
    decreases k,
{
    if k > 0 {
        lemma_honest_chain(packets, promises, k - 1);
        lemma_index_bounds(packets, (k - 1) as u8, true, 0);
        let p = chain_plan(packets, promises, k - 1)->0;
        let i = index_from(packets, (k - 1) as u8, true, 0)->0;
        lemma_one_more_chosen(packets, p.chosen, i, packets.len() as int);
    } else {
        lemma_none_chosen(packets, packets.len() as int);
    }
}

proof fn lemma_honest_filled(
    p: Plan,
    list: Seq<int>,
    packets: Seq<Coded>,
    promises: Seq<int>,
    budget: int,
    k: int,
)
    requires
        0 <= k <= list.len(),
        honest(packets, p),
        forall|j: int| 0 <= j < list.len() ==> 0 <= #[trigger] list[j] < packets.len(),
    ensures
        honest(packets, filled_plan(p, list, packets, promises, budget, k)),
    decreases k,
{
    if k > 0 {
        lemma_honest_filled(p, list, packets, promises, budget, k - 1);
        let before = filled_plan(p, list, packets, promises, budget, k - 1);
        lemma_one_more_chosen(packets, before.chosen, list[k - 1], packets.len() as int);
    }
}

proof fn lemma_honest_best(packets: Seq<Coded>, promises: Seq<int>, budget: int, k: int)
    requires
        0 <= k <= 255,
    ensures
        honest(packets, best_plan(packets, promises, budget, k)),
    decreases k,
{
    if k > 0 {
        lemma_honest_best(packets, promises, budget, k - 1);
        if chain_plan(packets, promises, k) is Some {
            lemma_honest_chain(packets, promises, k);
            lemma_ranked(packets, promises, k);
            let list = ranked_refinements(packets, promises, k);
            lemma_honest_filled(
                chain_plan(packets, promises, k)->0,
                list,
                packets,
                promises,
                budget,
                list.len() as int,
            );
        }
    } else {
        lemma_none_chosen(packets, packets.len() as int);
    }
}

// ---------------------------------------------------------------------------
// The packets of a segment
// ---------------------------------------------------------------------------

proof fn lemma_packet_bytes(list: Seq<Packet>, c: Coded)
    requires
        c.body.len() <= 0xFFFF,
    ensures
        packets_bytes(list.push(plane_packet(c, 0))).len() == packets_bytes(list).len() + 4
            + c.body.len(),
        coded_packets(list.push(plane_packet(c, 0))) == coded_packets(list).push(c),
{
    assert(list.push(plane_packet(c, 0)).drop_last() =~= list);
    assert(coded_packets(list.push(plane_packet(c, 0))) =~= coded_packets(list).push(c));
}

/// A segment carries what was chosen for it, where that fits its budget.
proof fn lemma_chosen_carried(packets: Seq<Coded>, q: u8, b: u64, chosen: Seq<bool>, s: int)
    requires
        in_plane_order(packets, q),
        q <= 31,
        0 <= s <= 2 * q,
        chosen.len() == packets.len(),
        chosen_bytes(packets, chosen, 2 * q) <= body_budget(b),
        planes_emitted(
            packets,
            q,
            0,
            Quota { budget: Some(b), target: None },
            0,
            Some(chosen),
            s,
        ) is Ok,
    ensures
        ({
            let e = planes_emitted(
                packets,
                q,
                0,
                Quota { budget: Some(b), target: None },
                0,
                Some(chosen),
                s,
            )->Ok_0;
            &&& !e.done
            &&& e.soft is None
            &&& coded_packets(e.packets) == chosen_of(packets, chosen, s)
            &&& packets_bytes(e.packets).len() == chosen_bytes(packets, chosen, s)
        }),
    decreases s,
{
    let quota = Quota { budget: Some(b), target: None };
    if s > 0 {
        lemma_chosen_carried(packets, q, b, chosen, s - 1);
        lemma_index_in_order(packets, q, s - 1, 0);
        lemma_chosen_bytes_grow(packets, chosen, s - 1, 2 * q);
        lemma_chosen_bytes_grow(packets, chosen, s, 2 * q);
        let e = planes_emitted(packets, q, 0, quota, 0, Some(chosen), s - 1)->Ok_0;
        if chosen[s - 1] {
            lemma_packet_bytes(e.packets, packets[s - 1]);
        }
    } else {
        let e = planes_emitted(packets, q, 0, quota, 0, Some(chosen), s)->Ok_0;
        assert(coded_packets(e.packets) =~= Seq::empty());
    }
}

/// Without a choice a segment carries what plain truncation keeps.
proof fn lemma_truncated_carried(packets: Seq<Coded>, q: u8, b: u64, s: int)
    requires
        in_plane_order(packets, q),
        q <= 31,
        0 <= s <= 2 * q,
        planes_emitted(
            packets,
            q,
            0,
            Quota { budget: Some(b), target: None },
            0,
            None,
            s,
        ) is Ok,
    ensures
        ({
            let e = planes_emitted(
                packets,
                q,
                0,
                Quota { budget: Some(b), target: None },
                0,
                None,
                s,
            )->Ok_0;
            let (kept, used, full) = truncated_until(packets, body_budget(b), s);
            &&& e.done == full
            &&& e.soft is None
            &&& coded_packets(e.packets) == chosen_of(packets, kept, s)
            &&& packets_bytes(e.packets).len() == used == chosen_bytes(packets, kept, s)
            &&& kept.len() == packets.len()
            &&& forall|j: int| s <= j < kept.len() ==> !#[trigger] kept[j]
            &&& used <= body_budget(b)
        }),
    decreases s,
{
    let quota = Quota { budget: Some(b), target: None };
    if s > 0 {
        lemma_truncated_carried(packets, q, b, s - 1);
        lemma_index_in_order(packets, q, s - 1, 0);
        let e = planes_emitted(packets, q, 0, quota, 0, None, s - 1)->Ok_0;
        let (kept, used, full) = truncated_until(packets, body_budget(b), s - 1);
        assert(!kept[s - 1]);
        lemma_later_choice(packets, kept, s - 1, s - 1);
        if !e.done {
            lemma_packet_bytes(e.packets, packets[s - 1]);
        }
    } else {
        let e = planes_emitted(packets, q, 0, quota, 0, None, s)->Ok_0;
        assert(coded_packets(e.packets) =~= Seq::empty());
    }
}

/// Packets of a strip without a loss say so.
proof fn lemma_no_loss(packets: Seq<Coded>, q: u8, b: u64, chosen: Option<Seq<bool>>, s: int)
    requires
        planes_emitted(
            packets,
            q,
            0,
            Quota { budget: Some(b), target: None },
            0,
            chosen,
            s,
        ) is Ok,
    ensures
        forall|i: int|
            0 <= i < planes_emitted(
                packets,
                q,
                0,
                Quota { budget: Some(b), target: None },
                0,
                chosen,
                s,
            )->Ok_0.packets.len() ==> (#[trigger] planes_emitted(
                packets,
                q,
                0,
                Quota { budget: Some(b), target: None },
                0,
                chosen,
                s,
            )->Ok_0.packets[i]).header.min_loss == 0,
    decreases s,
{
    if s > 0 {
        lemma_no_loss(packets, q, b, chosen, s - 1);
    }
}

// ---------------------------------------------------------------------------
// Decoding
// ---------------------------------------------------------------------------

/// Samples differ from the bytes of other samples as from these samples.
proof fn lemma_error_of_bytes(samples: Seq<i32>, out: Seq<i32>, bits: u8, k: int)
    requires
        depth_in_range(bits),
        in_range(samples, bits),
        0 <= k <= samples.len(),
        out.len() == samples.len(),
    ensures
        words_error(samples, sample_bytes_of(out, bits), bits, k) == squared_error(
            samples,
            out,
            bits,
            k,
        ),
    decreases k,
{
    if k > 0 {
        lemma_error_of_bytes(samples, out, bits, k - 1);
        let i = k - 1;
        let size = sample_size(bits);
        let bytes = sample_bytes_of(out, bits);
        let v = clamped(out[i] + half_range(bits), bits);
        vstd::arithmetic::power2::lemma2_to64();
        vstd::arithmetic::power2::lemma_pow2_pos((bits - 1) as nat);
        if bits < 16 {
            vstd::arithmetic::power2::lemma_pow2_strictly_increases((bits - 1) as nat, 15);
        }
        assert(0 <= v < 2 * half_range(bits) <= 0x1_0000);
        assert(i * size + size <= out.len() * size) by (nonlinear_arith)
            requires
                i + 1 <= out.len(),
                size >= 1,
        ;
        assert(0 <= i * size) by (nonlinear_arith)
            requires
                i >= 0,
                size >= 1,
        ;
        assert((i * size) / size == i && (i * size) % size == 0) by (nonlinear_arith)
            requires
                size >= 1,
        ;
        if size == 2 {
            assert((i * 2 + 1) / 2 == i && (i * 2 + 1) % 2 == 1);
        } else {
            assert(half_range(bits) == 128);
        }
        assert(word_at(bytes, i * size, size) == v);
        assert(clamped(samples[i] + half_range(bits), bits) == samples[i] + half_range(bits));
    }
}

/// A strip of packets decodes to the samples that they stand for.
proof fn lemma_strip_of_packets(c: Coding2d, s: Segment, packets: Seq<Coded>)
    requires
        depth_in_range(c.bits),
        1 <= c.q <= 31,
        c.levels <= 31,
        c.width <= 0xFFFF,
        c.height <= 0xFFFF,
        is_integer(c.filter),
        !s.header.uncompressed,
        !s.header.priority_interleaved,
        s.header.width == c.width,
        s.header.height == c.height,
        s.header.decomp_levels == c.levels,
        s.header.filter == c.filter,
        s.header.bit_plane_count == c.q,
        coder_of(s.header.interleaved_entropy) == c.kind,
        coded_packets(s.packets) == packets,
        s.packets.len() > 0 ==> s.packets[0].header.min_loss == 0,
    ensures
        strip_decoded(s, c.bits) == Ok::<Seq<u8>, Fault>(
            sample_bytes_of(c.decoded(packets), c.bits),
        ),
        c.decoded(packets).len() == c.width * c.height,
{
    let g = c.grid();
    lemma_area_bound(g);
    assert(segment_grid(s.header) == g);
    let coeffs = bitplanes_decoded(g, everything(), c.kind, c.q, packets);
    lemma_planes_size(g, everything(), c.kind, c.q, packets, c.q as int);
    let w = weights_of(c.filter);
    lemma_inverse_size(w, c.width, c.height, coeffs, c.levels as int);
    if s.packets.len() == 0 {
        assert(packets =~= Seq::empty());
        lemma_nothing_heard(g, everything(), c.kind, c.q, c.q as int);
        lemma_fresh_values(g.area(), c.q);
        nothing_comes_of_nothing(w, c.width, c.height, coeffs, c.levels as int);
    } else {
        assert(segment_selection(None, None, s.header, 0) == everything());
    }
}

/// **Packets that are chosen by what they promise never decode worse than the
/// packets that plain truncation leaves under the same budget.**
pub proof fn chosen_strips_are_never_worse(
    set: Settings,
    samples: Seq<i32>,
    width: usize,
    height: usize,
    index: u16,
    b: u64,
    chosen: Segment,
    plain: Segment,
)
    requires
        set.ok(),
        set.rd_pruning,
        !set.priority,
        set.min_loss == 0,
        in_range(samples, set.bits),
        samples.len() == width * height,
        strip_compressed(set, samples, width, height, index, Some(b)) == Ok::<Segment, Fault>(
            chosen,
        ),
        strip_compressed(
            Settings { rd_pruning: false, target: None, ..set },
            samples,
            width,
            height,
            index,
            Some(b),
        ) == Ok::<Segment, Fault>(plain),
    ensures
        match (strip_decoded(chosen, set.bits), strip_decoded(plain, set.bits)) {
            (Ok(x), Ok(y)) => words_error(samples, x, set.bits, width * height) <= words_error(
                samples,
                y,
                set.bits,
                width * height,
            ),
            _ => false,
        },
{
    let free = Settings { rd_pruning: false, target: None, ..set };
    let g = Grid { width, height, levels: set.levels };
    let coeffs = coefficients(set, samples, width, height);
    lemma_area_bound(g);
    vstd::arithmetic::power2::lemma2_to64();
    if set.bits < 16 {
        vstd::arithmetic::power2::lemma_pow2_strictly_increases((set.bits - 1) as nat, 15);
    }
    assert(bounded(samples, 0x1_0000));
    transform_is_reversible(set.filter, width, height, samples, set.levels as int, 0x1_0000);
    lemma_planes_hold(set, coeffs, grown(grown(0x1_0000)));
    let q = planes_for(set, coeffs);
    assert(planes_for(free, coeffs) == q);
    let f = coded_selection(set, g, None, None);
    assert(f == everything());
    assert(coded_selection(free, g, None, None) == f);
    assert(lowest_bit(f, g.area()) == 0);
    let packets = coded_packets_of(set, g, coeffs, f, q);
    lemma_packets(g, coeffs, f, coder_of(set.interleaved), q, q as int);
    assert(in_plane_order(packets, q));
    let c = strip_coding(set, width, height, q);
    let left = body_budget(b);
    let promised = promises(
        coeffs,
        weight_map(width, height, set.levels, set.filter),
        q,
        packets,
    );
    let greedy = best_plan(packets, promised, left, q as int).chosen;
    let strict = truncated_until(packets, left, 2 * q).0;
    plans_are_decodable(packets, promised, left, q as int);
    lemma_honest_best(packets, promised, left, q as int);
    lemma_truncated_carried(packets, q, b, 2 * q);
    let taken = packets_chosen(set, samples, coeffs, packets, width, height, q, b);
    assert(taken == c.better_of(samples, packets, greedy, strict));
    lemma_chosen_carried(packets, q, b, taken, 2 * q);
    let x = chosen_of(packets, taken, 2 * q);
    let y = chosen_of(packets, strict, 2 * q);
    lemma_no_loss(packets, q, b, Some(taken), 2 * q);
    lemma_no_loss(packets, q, b, None, 2 * q);
    lemma_strip_of_packets(c, chosen, x);
    lemma_strip_of_packets(c, plain, y);
    lemma_error_of_bytes(samples, c.decoded(x), set.bits, width * height);
    lemma_error_of_bytes(samples, c.decoded(y), set.bits, width * height);
    choice_is_never_worse(c, samples, packets, greedy, strict);
}

} // verus!
