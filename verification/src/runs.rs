//! A byte budget keeps as many packets as fit, and a soft target as many as it
//! takes to reach it.

use crate::bitplane::Coded;
use crate::compress::{body_of_packets, coded_packets_of, coded_selection, coefficients, lowest_bit, planes_for, strip_segment, Settings};
use crate::emit::{groups_emitted, packets_bytes, planes_emitted, segment_stream, Emission, Quota};
use crate::error::Fault;
use crate::header::{Packet, Segment};
use crate::image::IcerPlane;
use crate::parts::part_segment;
use crate::rd::lemma_index_bounds;
use crate::strip::shifted_samples;
use vstd::prelude::*;

verus! {

// ---------------------------------------------------------------------------
// Budgets
// ---------------------------------------------------------------------------

/// Packets are the longest run of others, from the first on, that fits into
/// `b` bytes together with the 12 bytes of a segment's header.
pub open spec fn longest_run(some: Seq<Packet>, all: Seq<Packet>, b: int) -> bool {
    &&& some.len() <= all.len()
    &&& some == all.take(some.len() as int)
    &&& some.len() == 0 || 12 + packets_bytes(some).len() <= b
    &&& some.len() < all.len() ==> 12 + packets_bytes(all.take(some.len() as int + 1)).len() > b
}

/// What a budget leaves after some steps.
spec fn runs(some: Emission, all: Emission, b: u64) -> bool {
    &&& some == all || (some.done && some.packets.len() < all.packets.len())
    &&& longest_run(some.packets, all.packets, b as int)
}

/// What a budget leaves stays what it is when more packets follow.
proof fn lemma_run_stays(some: Seq<Packet>, all: Seq<Packet>, p: Packet, b: int)
    requires
        longest_run(some, all, b),
        some.len() < all.len(),
    ensures
        longest_run(some, all.push(p), b),
{
    let n = some.len() as int;
    assert(all.push(p).take(n) =~= all.take(n));
    assert(all.push(p).take(n + 1) =~= all.take(n + 1));
}

/// One more packet fits or ends the run.
proof fn lemma_run_step(all: Seq<Packet>, p: Packet, b: int)
    requires
        longest_run(all, all, b),
    ensures
        12 + packets_bytes(all.push(p)).len() <= b ==> longest_run(all.push(p), all.push(p), b),
        12 + packets_bytes(all.push(p)).len() > b ==> longest_run(all, all.push(p), b),
{
    let n = all.len() as int;
    assert(all.push(p).take(n) =~= all);
    assert(all.push(p).take(n + 1) =~= all.push(p));
}

proof fn lemma_planes_run(
    packets: Seq<Coded>,
    q: u8,
    min_loss: u8,
    target: Option<u64>,
    floor: u8,
    b: u64,
    s: int,
)
    requires
        0 <= s,
        planes_emitted(packets, q, min_loss, Quota { budget: None, target }, floor, None, s) is Ok,
    ensures
        planes_emitted(packets, q, min_loss, Quota { budget: Some(b), target }, floor, None, s) is Ok,
        runs(
            planes_emitted(
                packets,
                q,
                min_loss,
                Quota { budget: Some(b), target },
                floor,
                None,
                s,
            )->Ok_0,
            planes_emitted(
                packets,
                q,
                min_loss,
                Quota { budget: None, target },
                floor,
                None,
                s,
            )->Ok_0,
            b,
        ),
    decreases s,
{
    let none = Seq::<Packet>::empty();
    assert(none.take(0) =~= none);
    if s > 0 {
        lemma_planes_run(packets, q, min_loss, target, floor, b, s - 1);
        let (tight, free) = (Quota { budget: Some(b), target }, Quota { budget: None, target });
        let some = planes_emitted(packets, q, min_loss, tight, floor, None, s - 1)->Ok_0;
        let before = planes_emitted(packets, q, min_loss, free, floor, None, s - 1)->Ok_0;
        let after = planes_emitted(packets, q, min_loss, free, floor, None, s)->Ok_0;
        if after.packets != before.packets {
            let p = after.packets.last();
            assert(after.packets =~= before.packets.push(p));
            if some.packets.len() < before.packets.len() {
                lemma_run_stays(some.packets, before.packets, p, b as int);
            } else {
                lemma_run_step(before.packets, p, b as int);
            }
        }
    }
}

proof fn lemma_groups_run(packets: Seq<Coded>, min_loss: u8, target: Option<u64>, b: u64, s: int)
    requires
        0 <= s,
        groups_emitted(packets, min_loss, Quota { budget: None, target }, s) is Ok,
    ensures
        groups_emitted(packets, min_loss, Quota { budget: Some(b), target }, s) is Ok,
        runs(
            groups_emitted(packets, min_loss, Quota { budget: Some(b), target }, s)->Ok_0,
            groups_emitted(packets, min_loss, Quota { budget: None, target }, s)->Ok_0,
            b,
        ),
    decreases s,
{
    let none = Seq::<Packet>::empty();
    assert(none.take(0) =~= none);
    if s > 0 {
        lemma_groups_run(packets, min_loss, target, b, s - 1);
        let (tight, free) = (Quota { budget: Some(b), target }, Quota { budget: None, target });
        let some = groups_emitted(packets, min_loss, tight, s - 1)->Ok_0;
        let before = groups_emitted(packets, min_loss, free, s - 1)->Ok_0;
        let after = groups_emitted(packets, min_loss, free, s)->Ok_0;
        if after.packets != before.packets {
            let p = after.packets.last();
            assert(after.packets =~= before.packets.push(p));
            if some.packets.len() < before.packets.len() {
                lemma_run_stays(some.packets, before.packets, p, b as int);
            } else {
                lemma_run_step(before.packets, p, b as int);
            }
        }
    }
}

/// The bytes of the first packets are no more than those of all.
pub proof fn lemma_fewer_bytes(all: Seq<Packet>, k: int)
    requires
        0 <= k <= all.len(),
    ensures
        packets_bytes(all.take(k)).len() <= packets_bytes(all).len(),
{
    assert(all.take(k) + all.skip(k) =~= all);
    crate::emit::lemma_packets_join(all.take(k), all.skip(k));
}

/// **A budget keeps the longest run of packets that fits**, in the order of bit
/// planes and in the order of priorities: where a segment can be written without
/// a budget, the packets that are written with one are the first of those, they
/// fit, and with the next one they would not.
pub proof fn budgets_keep_the_longest_run(
    set: Settings,
    packets: Seq<Coded>,
    q: u8,
    floor: u8,
    b: u64,
    all: Seq<Packet>,
)
    requires
        body_of_packets(
            set,
            packets,
            q,
            Quota { budget: None, target: set.target },
            floor,
            None,
        ) == Ok::<Seq<Packet>, Fault>(all),
    ensures
        body_of_packets(
            set,
            packets,
            q,
            Quota { budget: Some(b), target: set.target },
            floor,
            None,
        ) is Ok,
        longest_run(
            body_of_packets(
                set,
                packets,
                q,
                Quota { budget: Some(b), target: set.target },
                floor,
                None,
            )->Ok_0,
            all,
            b as int,
        ),
{
    let tight = Quota { budget: Some(b), target: set.target };
    if set.priority {
        lemma_groups_run(packets, set.min_loss, set.target, b, packets.len() as int);
        let some = groups_emitted(packets, set.min_loss, tight, packets.len() as int)->Ok_0.packets;
        lemma_fewer_bytes(all, some.len() as int);
    } else {
        lemma_planes_run(packets, q, set.min_loss, set.target, floor, b, 2 * q);
        let some = planes_emitted(
            packets,
            q,
            set.min_loss,
            tight,
            floor,
            None,
            2 * q,
        )->Ok_0.packets;
        lemma_fewer_bytes(all, some.len() as int);
    }
}

/// A segment is another up to the longest run of its packets that fits.
pub open spec fn shortened(some: Segment, all: Segment, b: int) -> bool {
    &&& longest_run(some.packets, all.packets, b)
    &&& some.header.segment_length == segment_stream(some).len() - 12
    &&& some.header == (crate::header::SegmentHeader {
        segment_length: some.header.segment_length,
        ..all.header
    })
}

/// **A budget shortens a strip to the longest run of its packets that fits.**
pub proof fn strips_keep_the_longest_run(
    set: Settings,
    plane: IcerPlane,
    width: usize,
    y0: int,
    height: usize,
    index: u16,
    b: u64,
)
    requires
        !set.rd_pruning,
        !set.fallback,
        !set.uncompressed,
        strip_segment(set, plane, width, y0, height, index, None) is Ok,
    ensures
        strip_segment(set, plane, width, y0, height, index, Some(b)) is Ok,
        shortened(
            strip_segment(set, plane, width, y0, height, index, Some(b))->Ok_0,
            strip_segment(set, plane, width, y0, height, index, None)->Ok_0,
            b as int,
        ),
{
    reveal(strip_segment);
    let all = strip_segment(set, plane, width, y0, height, index, None)->Ok_0;
    let samples = shifted_samples(plane, set.bits, width as int, y0, height as int);
    let g = crate::scan::Grid { width, height, levels: set.levels };
    let coeffs = coefficients(set, samples, width, height);
    let q = planes_for(set, coeffs);
    let f = coded_selection(set, g, None, None);
    budgets_keep_the_longest_run(
        set,
        coded_packets_of(set, g, coeffs, f, q),
        q,
        lowest_bit(f, g.area()),
        b,
        all.packets,
    );
    let some = strip_segment(set, plane, width, y0, height, index, Some(b))->Ok_0;
    assert(packets_bytes(some.packets).len() <= 0xFFFF);
}

/// **A budget shortens a part of a transform to the longest run of its packets
/// that fits.**
pub proof fn parts_keep_the_longest_run(
    set: Settings,
    coeffs: Seq<i32>,
    width: usize,
    height: usize,
    index: u16,
    total: u8,
    b: u64,
)
    requires
        part_segment(set, coeffs, width, height, index, total, None) is Ok,
    ensures
        part_segment(set, coeffs, width, height, index, total, Some(b)) is Ok,
        shortened(
            part_segment(set, coeffs, width, height, index, total, Some(b))->Ok_0,
            part_segment(set, coeffs, width, height, index, total, None)->Ok_0,
            b as int,
        ),
{
    let all = part_segment(set, coeffs, width, height, index, total, None)->Ok_0;
    let g = crate::scan::Grid { width, height, levels: set.levels };
    let (w, h, levels) = (width as int, height as int, set.levels as int);
    let p = crate::merge::ll_partition(w, h, levels, total as int);
    let map = crate::partition::segment_map(p, w, h, levels);
    let window = crate::merge::window_at(p, index as int, w, h, levels);
    let f = coded_selection(set, g, Some((map, index)), Some(window));
    let q = planes_for(set, crate::parts::block_coeffs(coeffs, w, window));
    budgets_keep_the_longest_run(
        set,
        coded_packets_of(set, g, coeffs, f, q),
        q,
        lowest_bit(f, g.area()),
        b,
        all.packets,
    );
    let some = part_segment(set, coeffs, width, height, index, total, Some(b))->Ok_0;
    assert(packets_bytes(some.packets).len() <= 0xFFFF);
}

// ---------------------------------------------------------------------------
// Targets
// ---------------------------------------------------------------------------

/// Packets are the first of others, up to the one with which a segment reaches
/// `t` bytes. Where that one is finished with its bit plane, so are they.
pub open spec fn up_to_target(some: Seq<Packet>, all: Seq<Packet>, t: int, whole_planes: bool) -> bool {
    let k = some.len() as int;
    &&& k <= all.len()
    &&& some == all.take(k)
    &&& k == 0 ==> all.len() == 0
    &&& k < all.len() ==> 12 + packets_bytes(some).len() >= t
    &&& whole_planes && k < all.len() ==> all[k].header.bit_plane != all[k - 1].header.bit_plane
    &&& forall|j: int|
        1 <= j < k && 12 + packets_bytes(#[trigger] all.take(j)).len() >= t ==> whole_planes
            && all[j].header.bit_plane == all[j - 1].header.bit_plane
}

proof fn lemma_groups_target(packets: Seq<Coded>, min_loss: u8, t: u64, s: int)
    requires
        0 <= s,
        groups_emitted(packets, min_loss, Quota { budget: None, target: None }, s) is Ok,
    ensures
        groups_emitted(packets, min_loss, Quota { budget: None, target: Some(t) }, s) is Ok,
        ({
            let some = groups_emitted(
                packets,
                min_loss,
                Quota { budget: None, target: Some(t) },
                s,
            )->Ok_0;
            let all = groups_emitted(
                packets,
                min_loss,
                Quota { budget: None, target: None },
                s,
            )->Ok_0;
            &&& up_to_target(some.packets, all.packets, t as int, false)
            &&& !all.done
            &&& some.done <==> some.packets.len() > 0 && 12 + packets_bytes(some.packets).len()
                >= t
            &&& !some.done ==> some.packets == all.packets
        }),
    decreases s,
{
    if s > 0 {
        lemma_groups_target(packets, min_loss, t, s - 1);
        let (soft, free) = (
            Quota { budget: None, target: Some(t) },
            Quota { budget: None, target: None },
        );
        let some = groups_emitted(packets, min_loss, soft, s - 1)->Ok_0;
        let before = groups_emitted(packets, min_loss, free, s - 1)->Ok_0;
        let after = groups_emitted(packets, min_loss, free, s)->Ok_0;
        let p = after.packets.last();
        let k = some.packets.len() as int;
        assert(after.packets =~= before.packets.push(p));
        assert(after.packets.take(k) =~= before.packets.take(k));
        assert(after.packets.take(k + 1) =~= before.packets.take(k).push(after.packets[k]));
        assert forall|j: int| 1 <= j <= k implies #[trigger] after.packets.take(j)
            == before.packets.take(j) by {
            assert(after.packets.take(j) =~= before.packets.take(j));
        }
        if !some.done && k > 0 {
            assert(before.packets.take(k) =~= some.packets);
        }
    } else {
        assert(Seq::<Packet>::empty().take(0) =~= Seq::<Packet>::empty());
    }
}

/// With one more packet a segment is no shorter.
proof fn lemma_longer(all: Seq<Packet>, j: int, k: int)
    requires
        0 <= j <= k <= all.len(),
    ensures
        packets_bytes(all.take(j)).len() <= packets_bytes(all.take(k)).len(),
{
    assert(all.take(k).take(j) =~= all.take(j));
    lemma_fewer_bytes(all.take(k), j);
}

/// What a target leaves after `s` steps of the order of bit planes.
spec fn planes_reached(some: Emission, all: Emission, t: int, s: int) -> bool {
    let k = some.packets.len() as int;
    &&& k <= all.packets.len()
    &&& some.packets == all.packets.take(k)
    &&& forall|i: int|
        0 <= i < all.packets.len() ==> (#[trigger] all.packets[i]).header.bit_plane <= (s - 1) / 2
    &&& match some.soft {
        None => {
            &&& some == all
            &&& forall|j: int|
                1 <= j <= k ==> 12 + packets_bytes(#[trigger] all.packets.take(j)).len() < t
        },
        Some(p) => {
            &&& k > 0
            &&& p <= (s - 1) / 2
            &&& 12 + packets_bytes(some.packets).len() >= t
            &&& all.packets[k - 1].header.bit_plane == p
            &&& forall|j: int|
                1 <= j <= k && 12 + packets_bytes(#[trigger] all.packets.take(j)).len() >= t
                    ==> all.packets[j - 1].header.bit_plane == p
            &&& !some.done ==> k == all.packets.len() && !all.done
            &&& some.done && !all.done ==> (s - 1) / 2 > p
            &&& k < all.packets.len() ==> all.packets[k].header.bit_plane > p
        },
    }
}

proof fn lemma_planes_target(
    packets: Seq<Coded>,
    q: u8,
    min_loss: u8,
    t: u64,
    floor: u8,
    s: int,
)
    requires
        0 <= s <= 2 * q,
        planes_emitted(
            packets,
            q,
            min_loss,
            Quota { budget: None, target: None },
            floor,
            None,
            s,
        ) is Ok,
    ensures
        planes_emitted(
            packets,
            q,
            min_loss,
            Quota { budget: None, target: Some(t) },
            floor,
            None,
            s,
        ) is Ok,
        planes_reached(
            planes_emitted(
                packets,
                q,
                min_loss,
                Quota { budget: None, target: Some(t) },
                floor,
                None,
                s,
            )->Ok_0,
            planes_emitted(
                packets,
                q,
                min_loss,
                Quota { budget: None, target: None },
                floor,
                None,
                s,
            )->Ok_0,
            t as int,
            s,
        ),
    decreases s,
{
    if s > 0 {
        lemma_planes_target(packets, q, min_loss, t, floor, s - 1);
        let (soft, free) = (
            Quota { budget: None, target: Some(t) },
            Quota { budget: None, target: None },
        );
        let some = planes_emitted(packets, q, min_loss, soft, floor, None, s - 1)->Ok_0;
        let before = planes_emitted(packets, q, min_loss, free, floor, None, s - 1)->Ok_0;
        let after = planes_emitted(packets, q, min_loss, free, floor, None, s)->Ok_0;
        let k = some.packets.len() as int;
        let plane = (s - 1) / 2;
        lemma_index_bounds(packets, plane as u8, (s - 1) % 2 == 0, 0);
        if after.packets != before.packets {
            let p = after.packets.last();
            assert(after.packets =~= before.packets.push(p));
            assert(p.header.bit_plane == plane);
            assert forall|j: int| 0 <= j <= before.packets.len() implies #[trigger] after.packets.take(
                j,
            ) == before.packets.take(j) by {
                assert(after.packets.take(j) =~= before.packets.take(j));
            }
            assert(after.packets.take(after.packets.len() as int) =~= after.packets);
            lemma_longer(after.packets, k, after.packets.len() as int);
        }
        let now = planes_emitted(packets, q, min_loss, soft, floor, None, s)->Ok_0;
        assert(now.packets == after.packets.take(now.packets.len() as int));
        if some.soft is None {
            assert(some == before);
            if now.soft is None {
                assert(now.done == after.done);
                assert(after.soft is None);
                assert(now.packets == after.packets);
                assert(now == after);
            } else {
                assert(now.packets == after.packets);
            }
        } else {
            if !some.done && now.packets.len() > k {
                assert(plane == some.soft->0);
            }
        }
    } else {
        assert(Seq::<Packet>::empty().take(0) =~= Seq::<Packet>::empty());
    }
}

/// **A soft target is reached, and not passed by more than it takes.** A segment
/// gets its packets in their order. In the order of priorities it ends with the
/// packet that reaches the target. In the order of bit planes it ends with the
/// bit plane in which the target is reached.
pub proof fn targets_are_reached_once(
    set: Settings,
    packets: Seq<Coded>,
    q: u8,
    floor: u8,
    t: u64,
    all: Seq<Packet>,
)
    requires
        body_of_packets(
            set,
            packets,
            q,
            Quota { budget: None, target: None },
            floor,
            None,
        ) == Ok::<Seq<Packet>, Fault>(all),
    ensures
        body_of_packets(
            set,
            packets,
            q,
            Quota { budget: None, target: Some(t) },
            floor,
            None,
        ) is Ok,
        up_to_target(
            body_of_packets(
                set,
                packets,
                q,
                Quota { budget: None, target: Some(t) },
                floor,
                None,
            )->Ok_0,
            all,
            t as int,
            !set.priority,
        ),
{
    let soft = Quota { budget: None, target: Some(t) };
    if set.priority {
        lemma_groups_target(packets, set.min_loss, t, packets.len() as int);
        let some = groups_emitted(packets, set.min_loss, soft, packets.len() as int)->Ok_0.packets;
        lemma_fewer_bytes(all, some.len() as int);
    } else {
        lemma_planes_target(packets, q, set.min_loss, t, floor, 2 * q);
        let e = planes_emitted(packets, q, set.min_loss, soft, floor, None, 2 * q)->Ok_0;
        let k = e.packets.len() as int;
        lemma_fewer_bytes(all, k);
        assert forall|j: int|
            1 <= j < k && 12 + packets_bytes(#[trigger] all.take(j)).len() >= t implies
            all[j].header.bit_plane == all[j - 1].header.bit_plane by {
            lemma_longer(all, j, j + 1);
            assert(12 + packets_bytes(all.take(j + 1)).len() >= t);
        }
    }
}

} // verus!
