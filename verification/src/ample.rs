//! Budgets that are large enough change nothing, and smaller ones cut off the
//! end of a segment.

use crate::assemble::missing_of;
use crate::bitplane::Coded;
use crate::compress::{body_of_packets, coded_packets_of, coded_selection, coefficients, lowest_bit, planes_for, strip_compressed, strip_segment, Settings};
use crate::emit::{groups_emitted, packets_bytes, planes_emitted, segment_stream, stream_of, Emission, Quota};
use crate::encoder::{all_strips, at_rank, emission_order, is_ranking, lemma_every_rank, plane_segments, ranked_written, strip_at, strip_headers, strips_written};
use crate::error::Fault;
use crate::header::{Packet, Segment};
use crate::image::IcerPlane;
use crate::parts::{left_of, lemma_stream_join, lemma_stream_push, part_headers, part_segment, parts_written, placeholders, reserve_of};
use crate::partition::ceil_div;
use crate::roundtrip_stream::orders_are_rankings;
use crate::strip::shifted_samples;
use vstd::prelude::*;

verus! {

// ---------------------------------------------------------------------------
// Packets
// ---------------------------------------------------------------------------

proof fn lemma_bytes_push(list: Seq<Packet>, p: Packet)
    ensures
        packets_bytes(list.push(p)).len() >= packets_bytes(list).len(),
{
    assert(list.push(p).drop_last() =~= list);
}

/// The bytes of a segment do not become fewer.
proof fn lemma_planes_grow(
    packets: Seq<Coded>,
    q: u8,
    min_loss: u8,
    quota: Quota,
    floor: u8,
    s: int,
    n: int,
)
    requires
        0 <= s <= n,
        planes_emitted(packets, q, min_loss, quota, floor, None, n) is Ok,
    ensures
        planes_emitted(packets, q, min_loss, quota, floor, None, s) is Ok,
        packets_bytes(planes_emitted(packets, q, min_loss, quota, floor, None, s)->Ok_0.packets).len()
            <= packets_bytes(
            planes_emitted(packets, q, min_loss, quota, floor, None, n)->Ok_0.packets,
        ).len(),
    decreases n,
{
    if s < n {
        lemma_planes_grow(packets, q, min_loss, quota, floor, s, n - 1);
        let before = planes_emitted(packets, q, min_loss, quota, floor, None, n - 1)->Ok_0;
        let after = planes_emitted(packets, q, min_loss, quota, floor, None, n)->Ok_0;
        if after.packets != before.packets {
            let p = after.packets.last();
            assert(after.packets =~= before.packets.push(p));
            lemma_bytes_push(before.packets, p);
        }
    }
}

proof fn lemma_groups_grow(packets: Seq<Coded>, min_loss: u8, quota: Quota, s: int, n: int)
    requires
        0 <= s <= n,
        groups_emitted(packets, min_loss, quota, n) is Ok,
    ensures
        groups_emitted(packets, min_loss, quota, s) is Ok,
        packets_bytes(groups_emitted(packets, min_loss, quota, s)->Ok_0.packets).len()
            <= packets_bytes(groups_emitted(packets, min_loss, quota, n)->Ok_0.packets).len(),
    decreases n,
{
    if s < n {
        lemma_groups_grow(packets, min_loss, quota, s, n - 1);
        let before = groups_emitted(packets, min_loss, quota, n - 1)->Ok_0;
        let after = groups_emitted(packets, min_loss, quota, n)->Ok_0;
        if after.packets != before.packets {
            let p = after.packets.last();
            assert(after.packets =~= before.packets.push(p));
            lemma_bytes_push(before.packets, p);
        }
    }
}

proof fn lemma_planes_ample(
    packets: Seq<Coded>,
    q: u8,
    min_loss: u8,
    target: Option<u64>,
    floor: u8,
    b: u64,
    s: int,
    n: int,
)
    requires
        0 <= s <= n,
        ({
            let r = planes_emitted(
                packets,
                q,
                min_loss,
                Quota { budget: None, target },
                floor,
                None,
                n,
            );
            r is Ok && 12 + packets_bytes(r->Ok_0.packets).len() <= b
        }),
    ensures
        planes_emitted(packets, q, min_loss, Quota { budget: Some(b), target }, floor, None, s)
            == planes_emitted(packets, q, min_loss, Quota { budget: None, target }, floor, None, s),
    decreases s,
{
    let free = Quota { budget: None, target };
    lemma_planes_grow(packets, q, min_loss, free, floor, s, n);
    if s > 0 {
        lemma_planes_ample(packets, q, min_loss, target, floor, b, s - 1, n);
    }
}

proof fn lemma_groups_ample(
    packets: Seq<Coded>,
    min_loss: u8,
    target: Option<u64>,
    b: u64,
    s: int,
    n: int,
)
    requires
        0 <= s <= n,
        ({
            let r = groups_emitted(packets, min_loss, Quota { budget: None, target }, n);
            r is Ok && 12 + packets_bytes(r->Ok_0.packets).len() <= b
        }),
    ensures
        groups_emitted(packets, min_loss, Quota { budget: Some(b), target }, s) == groups_emitted(
            packets,
            min_loss,
            Quota { budget: None, target },
            s,
        ),
    decreases s,
{
    let free = Quota { budget: None, target };
    lemma_groups_grow(packets, min_loss, free, s, n);
    if s > 0 {
        lemma_groups_ample(packets, min_loss, target, b, s - 1, n);
    }
}

/// A segment that fits into a budget is the same without it.
proof fn lemma_body_ample(
    set: Settings,
    packets: Seq<Coded>,
    q: u8,
    floor: u8,
    b: u64,
    list: Seq<Packet>,
)
    requires
        body_of_packets(
            set,
            packets,
            q,
            Quota { budget: None, target: set.target },
            floor,
            None,
        ) == Ok::<Seq<Packet>, Fault>(list),
        12 + packets_bytes(list).len() <= b,
    ensures
        body_of_packets(
            set,
            packets,
            q,
            Quota { budget: Some(b), target: set.target },
            floor,
            None,
        ) == Ok::<Seq<Packet>, Fault>(list),
{
    if set.priority {
        let n = packets.len() as int;
        lemma_groups_ample(packets, set.min_loss, set.target, b, n, n);
    } else {
        lemma_planes_ample(packets, q, set.min_loss, set.target, floor, b, 2 * q, 2 * q);
    }
}

/// What a budget leaves after some steps: everything, or the packets before
/// one that did not fit.
spec fn cut_off(some: Emission, all: Emission) -> bool {
    some == all || (some.done && some.packets.len() <= all.packets.len() && some.packets
        == all.packets.take(some.packets.len() as int))
}

proof fn lemma_planes_cut(
    packets: Seq<Coded>,
    q: u8,
    min_loss: u8,
    target: Option<u64>,
    floor: u8,
    b: u64,
    s: int,
)
    requires
        0 <= s,
        planes_emitted(packets, q, min_loss, Quota { budget: None, target }, floor, None, s) is Ok,
        planes_emitted(packets, q, min_loss, Quota { budget: Some(b), target }, floor, None, s) is Ok,
    ensures
        cut_off(
            planes_emitted(
                packets,
                q,
                min_loss,
                Quota { budget: Some(b), target },
                floor,
                None,
                s,
            )->Ok_0,
            planes_emitted(
                packets,
                q,
                min_loss,
                Quota { budget: None, target },
                floor,
                None,
                s,
            )->Ok_0,
        ),
    decreases s,
{
    if s > 0 {
        lemma_planes_cut(packets, q, min_loss, target, floor, b, s - 1);
        let (tight, free) = (Quota { budget: Some(b), target }, Quota { budget: None, target });
        let some = planes_emitted(packets, q, min_loss, tight, floor, None, s - 1)->Ok_0;
        let before = planes_emitted(packets, q, min_loss, free, floor, None, s - 1)->Ok_0;
        let after = planes_emitted(packets, q, min_loss, free, floor, None, s)->Ok_0;
        let n = some.packets.len() as int;
        if after.packets != before.packets {
            let p = after.packets.last();
            assert(after.packets =~= before.packets.push(p));
            if n <= before.packets.len() {
                assert(after.packets.take(n) =~= before.packets.take(n));
            }
        }
        assert(before.packets.take(before.packets.len() as int) =~= before.packets);
    }
}

proof fn lemma_groups_cut(packets: Seq<Coded>, min_loss: u8, target: Option<u64>, b: u64, s: int)
    requires
        0 <= s,
        groups_emitted(packets, min_loss, Quota { budget: None, target }, s) is Ok,
        groups_emitted(packets, min_loss, Quota { budget: Some(b), target }, s) is Ok,
    ensures
        cut_off(
            groups_emitted(packets, min_loss, Quota { budget: Some(b), target }, s)->Ok_0,
            groups_emitted(packets, min_loss, Quota { budget: None, target }, s)->Ok_0,
        ),
    decreases s,
{
    if s > 0 {
        lemma_groups_cut(packets, min_loss, target, b, s - 1);
        let (tight, free) = (Quota { budget: Some(b), target }, Quota { budget: None, target });
        let some = groups_emitted(packets, min_loss, tight, s - 1)->Ok_0;
        let before = groups_emitted(packets, min_loss, free, s - 1)->Ok_0;
        let after = groups_emitted(packets, min_loss, free, s)->Ok_0;
        let n = some.packets.len() as int;
        if after.packets != before.packets {
            let p = after.packets.last();
            assert(after.packets =~= before.packets.push(p));
            if n <= before.packets.len() {
                assert(after.packets.take(n) =~= before.packets.take(n));
            }
        }
        assert(before.packets.take(before.packets.len() as int) =~= before.packets);
    }
}

/// **A budget cuts off the end of a segment**: the packets that it leaves are
/// the first of those without it.
pub proof fn budgets_cut_off_the_end(
    set: Settings,
    packets: Seq<Coded>,
    q: u8,
    floor: u8,
    b: u64,
    some: Seq<Packet>,
    all: Seq<Packet>,
)
    requires
        body_of_packets(
            set,
            packets,
            q,
            Quota { budget: None, target: set.target },
            floor,
            None,
        ) == Ok::<Seq<Packet>, Fault>(all),
        body_of_packets(
            set,
            packets,
            q,
            Quota { budget: Some(b), target: set.target },
            floor,
            None,
        ) == Ok::<Seq<Packet>, Fault>(some),
    ensures
        some.len() <= all.len(),
        some == all.take(some.len() as int),
{
    if set.priority {
        lemma_groups_cut(packets, set.min_loss, set.target, b, packets.len() as int);
    } else {
        lemma_planes_cut(packets, q, set.min_loss, set.target, floor, b, 2 * q);
    }
    assert(all.take(all.len() as int) =~= all);
}

// ---------------------------------------------------------------------------
// Segments
// ---------------------------------------------------------------------------

/// The settings without raw samples that stand in.
pub open spec fn bare(set: Settings) -> Settings {
    Settings { fallback: false, ..set }
}

/// Raw samples that stand in do not change how a strip is compressed.
pub proof fn lemma_bare_compressed(
    set: Settings,
    samples: Seq<i32>,
    width: usize,
    height: usize,
    index: u16,
    budget: Option<u64>,
)
    requires
        !set.rd_pruning,
    ensures
        strip_compressed(set, samples, width, height, index, budget) == strip_compressed(
            bare(set),
            samples,
            width,
            height,
            index,
            budget,
        ),
{
    let g = crate::scan::Grid { width, height, levels: set.levels };
    let coeffs = coefficients(set, samples, width, height);
    assert(coeffs == coefficients(bare(set), samples, width, height));
    let q = planes_for(set, coeffs);
    assert(q == planes_for(bare(set), coeffs));
    let f = coded_selection(set, g, None, None);
    assert(f == coded_selection(bare(set), g, None, None));
    assert(coded_packets_of(set, g, coeffs, f, q) == coded_packets_of(bare(set), g, coeffs, f, q));
}

pub proof fn lemma_segment_length(s: Segment)
    ensures
        segment_stream(s).len() == 12 + packets_bytes(s.packets).len(),
{
}

proof fn lemma_strip_ample(
    set: Settings,
    plane: IcerPlane,
    width: usize,
    y0: int,
    height: usize,
    index: u16,
    b: u64,
)
    requires
        !set.rd_pruning,
        strip_segment(bare(set), plane, width, y0, height, index, None) is Ok,
        segment_stream(
            strip_segment(bare(set), plane, width, y0, height, index, None)->Ok_0,
        ).len() <= b,
    ensures
        strip_segment(set, plane, width, y0, height, index, Some(b)) == strip_segment(
            set,
            plane,
            width,
            y0,
            height,
            index,
            None,
        ),
{
    reveal(strip_segment);
    let s = strip_segment(bare(set), plane, width, y0, height, index, None)->Ok_0;
    lemma_segment_length(s);
    if !set.uncompressed {
        let samples = shifted_samples(plane, set.bits, width as int, y0, height as int);
        lemma_bare_compressed(set, samples, width, height, index, None);
        let g = crate::scan::Grid { width, height, levels: set.levels };
        let coeffs = coefficients(set, samples, width, height);
        let q = planes_for(set, coeffs);
        let f = coded_selection(set, g, None, None);
        let packets = coded_packets_of(set, g, coeffs, f, q);
        let floor = lowest_bit(f, g.area());
        assert(strip_compressed(set, samples, width, height, index, None) == Ok::<Segment, Fault>(s));
        lemma_body_ample(set, packets, q, floor, b, s.packets);
    }
}

/// Raw samples stand in only where they are shorter.
proof fn lemma_strip_bare(
    set: Settings,
    plane: IcerPlane,
    width: usize,
    y0: int,
    height: usize,
    index: u16,
)
    requires
        !set.rd_pruning,
        strip_segment(bare(set), plane, width, y0, height, index, None) is Ok,
    ensures
        strip_segment(set, plane, width, y0, height, index, None) is Ok,
        segment_stream(strip_segment(set, plane, width, y0, height, index, None)->Ok_0).len()
            <= segment_stream(
            strip_segment(bare(set), plane, width, y0, height, index, None)->Ok_0,
        ).len(),
{
    reveal(strip_segment);
    let samples = shifted_samples(plane, set.bits, width as int, y0, height as int);
    lemma_bare_compressed(set, samples, width, height, index, None);
}

proof fn lemma_part_ample(
    set: Settings,
    coeffs: Seq<i32>,
    width: usize,
    height: usize,
    index: u16,
    total: u8,
    b: u64,
)
    requires
        part_segment(set, coeffs, width, height, index, total, None) is Ok,
        segment_stream(part_segment(set, coeffs, width, height, index, total, None)->Ok_0).len()
            <= b,
    ensures
        part_segment(set, coeffs, width, height, index, total, Some(b)) == part_segment(
            set,
            coeffs,
            width,
            height,
            index,
            total,
            None,
        ),
{
    let s = part_segment(set, coeffs, width, height, index, total, None)->Ok_0;
    lemma_segment_length(s);
    let g = crate::scan::Grid { width, height, levels: set.levels };
    let (w, h, levels) = (width as int, height as int, set.levels as int);
    let p = crate::merge::ll_partition(w, h, levels, total as int);
    let map = crate::partition::segment_map(p, w, h, levels);
    let window = crate::merge::window_at(p, index as int, w, h, levels);
    let f = coded_selection(set, g, Some((map, index)), Some(window));
    let q = planes_for(set, crate::parts::block_coeffs(coeffs, w, window));
    lemma_body_ample(
        set,
        coded_packets_of(set, g, coeffs, f, q),
        q,
        lowest_bit(f, g.area()),
        b,
        s.packets,
    );
}

// ---------------------------------------------------------------------------
// Streams
// ---------------------------------------------------------------------------

/// Without a budget a strip is written, and takes at least a header.
proof fn lemma_free_strip(
    set: Settings,
    plane: IcerPlane,
    width: usize,
    height: int,
    each: int,
    n: int,
    k: int,
)
    requires
        0 < k <= n,
        strips_written(set, plane, width, height, each, n, None, k) is Ok,
    ensures
        strips_written(set, plane, width, height, each, n, None, k - 1) is Ok,
        ({
            let before = strips_written(set, plane, width, height, each, n, None, k - 1)->Ok_0;
            let after = strips_written(set, plane, width, height, each, n, None, k)->Ok_0;
            !before.1 ==> !after.1 && stream_of(before.0.segments).len() + 12 <= stream_of(
                after.0.segments,
            ).len()
        }),
{
    let (w, _) = strips_written(set, plane, width, height, each, n, None, k - 1)->Ok_0;
    let s = strip_at(set, plane, width, height, each, k - 1, None)->Ok_0;
    lemma_stream_push(w.segments, s);
    lemma_segment_length(s);
}

/// Without a budget every strip is written.
pub proof fn lemma_free_strips(
    set: Settings,
    plane: IcerPlane,
    width: usize,
    height: int,
    each: int,
    n: int,
    j: int,
    k: int,
)
    requires
        0 <= j <= k <= n,
        strips_written(set, plane, width, height, each, n, None, k) is Ok,
    ensures
        strips_written(set, plane, width, height, each, n, None, j) is Ok,
        !strips_written(set, plane, width, height, each, n, None, j)->Ok_0.1,
        !strips_written(set, plane, width, height, each, n, None, k)->Ok_0.1,
        stream_of(
            strips_written(set, plane, width, height, each, n, None, j)->Ok_0.0.segments,
        ).len() + 12 * (k - j) <= stream_of(
            strips_written(set, plane, width, height, each, n, None, k)->Ok_0.0.segments,
        ).len(),
    decreases k,
{
    if k > 0 {
        lemma_free_strip(set, plane, width, height, each, n, k);
        lemma_free_strips(
            set,
            plane,
            width,
            height,
            each,
            n,
            if j < k {
                j
            } else {
                k - 1
            },
            k - 1,
        );
    }
}

proof fn lemma_strips_ample(
    set: Settings,
    plane: IcerPlane,
    width: usize,
    height: int,
    each: int,
    n: int,
    b: u64,
    k: int,
)
    requires
        !set.rd_pruning,
        0 <= k <= n,
        strips_written(bare(set), plane, width, height, each, n, None, n) is Ok,
        stream_of(
            strips_written(bare(set), plane, width, height, each, n, None, n)->Ok_0.0.segments,
        ).len() <= b,
    ensures
        strips_written(set, plane, width, height, each, n, None, k) is Ok,
        !strips_written(set, plane, width, height, each, n, None, k)->Ok_0.1,
        stream_of(
            strips_written(set, plane, width, height, each, n, None, k)->Ok_0.0.segments,
        ).len() <= stream_of(
            strips_written(bare(set), plane, width, height, each, n, None, k)->Ok_0.0.segments,
        ).len(),
        strips_written(set, plane, width, height, each, n, Some(b), k) == strips_written(
            set,
            plane,
            width,
            height,
            each,
            n,
            None,
            k,
        ),
    decreases k,
{
    if k > 0 {
        lemma_strips_ample(set, plane, width, height, each, n, b, k - 1);
        lemma_free_strips(bare(set), plane, width, height, each, n, k - 1, n);
        lemma_free_strips(bare(set), plane, width, height, each, n, k, n);
        let (w, _) = strips_written(set, plane, width, height, each, n, None, k - 1)->Ok_0;
        let (wb, _) = strips_written(bare(set), plane, width, height, each, n, None, k - 1)->Ok_0;
        let sb = strip_at(bare(set), plane, width, height, each, k - 1, None)->Ok_0;
        let (y0, rows) = (
            (k - 1) * each,
            crate::encoder::strip_rows(height, each, k - 1) as usize,
        );
        lemma_strip_bare(set, plane, width, y0, rows, (k - 1) as u16);
        let s = strip_at(set, plane, width, height, each, k - 1, None)->Ok_0;
        lemma_stream_push(w.segments, s);
        lemma_stream_push(wb.segments, sb);
        lemma_segment_length(s);
        let used = stream_of(w.segments).len() as int;
        let left = left_of(b as int, used, 12 * (n - k));
        assert(segment_stream(s).len() <= segment_stream(sb).len() <= left <= b);
        lemma_strip_ample(set, plane, width, y0, rows, (k - 1) as u16, left as u64);
    }
}

/// One more segment is kept.
pub proof fn lemma_one_less_missing(kept: Seq<bool>, i: int, k: int)
    requires
        0 <= i < kept.len(),
        0 <= k <= kept.len(),
        !kept[i],
    ensures
        missing_of(kept.update(i, true), k) == missing_of(kept, k) - (if i < k {
            1int
        } else {
            0
        }),
    decreases k,
{
    if k > 0 {
        lemma_one_less_missing(kept, i, k - 1);
    }
}

/// What is kept after the first `k` of an order of which all are kept.
pub open spec fn keeps_first(kept: Seq<bool>, order: Seq<u16>, n: int, k: int) -> bool {
    &&& kept.len() == n
    &&& missing_of(kept, n) == n - k
    &&& forall|v: int|
        0 <= v < n && #[trigger] kept[v] ==> exists|j: int| 0 <= j < k && #[trigger] order[j] == v
}

pub proof fn lemma_keep_next(kept: Seq<bool>, order: Seq<u16>, n: int, k: int)
    requires
        is_ranking(order, n),
        0 <= k < n,
        keeps_first(kept, order, n, k),
    ensures
        !kept[order[k] as int],
        keeps_first(kept.update(order[k] as int, true), order, n, k + 1),
{
    let i = order[k] as int;
    assert(0 <= i < n);
    if kept[i] {
        let j = choose|j: int| 0 <= j < k && #[trigger] order[j] == i;
        assert(order[j] != order[k]);
    }
    lemma_one_less_missing(kept, i, n);
    let after = kept.update(i, true);
    assert forall|v: int| 0 <= v < n && #[trigger] after[v] implies exists|j: int|
        0 <= j < k + 1 && #[trigger] order[j] == v by {
        if v == i {
            assert(order[k] == v);
        } else {
            assert(kept[v]);
            let j = choose|j: int| 0 <= j < k && #[trigger] order[j] == v;
            assert(order[j] == v);
        }
    }
}

pub proof fn lemma_keep_none(order: Seq<u16>, n: int, k: int)
    requires
        0 <= k <= n,
    ensures
        missing_of(Seq::new(n as nat, |i: int| false), k) == k,
    decreases k,
{
    if k > 0 {
        lemma_keep_none(order, n, k - 1);
    }
}

/// Without a budget segments are written in their order, each of them.
pub proof fn lemma_free_ranked(strips: Seq<Segment>, order: Seq<u16>, n: int, j: int, k: int)
    requires
        strips.len() == n,
        is_ranking(order, n),
        0 <= j <= k <= n,
    ensures
        keeps_first(ranked_written(strips, order, None, k).kept, order, n, k),
        stream_of(ranked_written(strips, order, None, j).segments).len() + 12 * (k - j)
            <= stream_of(ranked_written(strips, order, None, k).segments).len(),
        forall|i: int|
            0 <= i < k ==> segment_stream(strips[#[trigger] order[i] as int]).len() <= stream_of(
                ranked_written(strips, order, None, k).segments,
            ).len(),
    decreases k,
{
    if k <= 0 {
        lemma_keep_none(order, n, n);
    } else {
        if j < k {
            lemma_free_ranked(strips, order, n, j, k - 1);
        } else {
            lemma_free_ranked(strips, order, n, k - 1, k - 1);
        }
        let w = ranked_written(strips, order, None, k - 1);
        let i = order[k - 1] as int;
        lemma_keep_next(w.kept, order, n, k - 1);
        lemma_stream_push(w.segments, strips[i]);
        lemma_segment_length(strips[i]);
    }
}

proof fn lemma_ranked_ample(strips: Seq<Segment>, order: Seq<u16>, n: int, b: u64, k: int)
    requires
        strips.len() == n,
        is_ranking(order, n),
        0 <= k <= n,
        stream_of(ranked_written(strips, order, None, n).segments).len() <= b,
    ensures
        ranked_written(strips, order, Some(b), k) == ranked_written(strips, order, None, k),
    decreases k,
{
    if k > 0 {
        lemma_ranked_ample(strips, order, n, b, k - 1);
        lemma_free_ranked(strips, order, n, k - 1, k - 1);
        lemma_free_ranked(strips, order, n, k, k);
        lemma_free_ranked(strips, order, n, k, n);
        let w = ranked_written(strips, order, None, k - 1);
        lemma_stream_push(w.segments, strips[order[k - 1] as int]);
    }
}

/// Strips that are no longer than others take no more bytes in the same order.
proof fn lemma_ranked_shorter(a: Seq<Segment>, c: Seq<Segment>, order: Seq<u16>, n: int, k: int)
    requires
        a.len() == c.len() == n,
        is_ranking(order, n),
        0 <= k <= n,
        forall|i: int|
            0 <= i < n ==> segment_stream(#[trigger] a[i]).len() <= segment_stream(c[i]).len(),
    ensures
        stream_of(ranked_written(a, order, None, k).segments).len() <= stream_of(
            ranked_written(c, order, None, k).segments,
        ).len(),
    decreases k,
{
    if k > 0 {
        lemma_ranked_shorter(a, c, order, n, k - 1);
        let i = order[k - 1] as int;
        assert(0 <= i < n);
        assert(segment_stream(a[i]).len() <= segment_stream(c[i]).len());
        lemma_stream_push(ranked_written(a, order, None, k - 1).segments, a[i]);
        lemma_stream_push(ranked_written(c, order, None, k - 1).segments, c[i]);
    }
}

proof fn lemma_all_strips_ample(
    set: Settings,
    plane: IcerPlane,
    width: usize,
    height: int,
    each: int,
    b: u64,
    k: int,
)
    requires
        !set.rd_pruning,
        0 <= k,
        all_strips(bare(set), plane, width, height, each, None, k) is Ok,
        forall|i: int|
            0 <= i < k ==> segment_stream(
                #[trigger] all_strips(bare(set), plane, width, height, each, None, k)->Ok_0[i],
            ).len() <= b,
    ensures
        all_strips(bare(set), plane, width, height, each, None, k)->Ok_0.len() == k,
        all_strips(set, plane, width, height, each, None, k) is Ok,
        all_strips(set, plane, width, height, each, None, k)->Ok_0.len() == k,
        forall|i: int|
            0 <= i < k ==> segment_stream(
                #[trigger] all_strips(set, plane, width, height, each, None, k)->Ok_0[i],
            ).len() <= segment_stream(
                all_strips(bare(set), plane, width, height, each, None, k)->Ok_0[i],
            ).len(),
        all_strips(set, plane, width, height, each, Some(b), k) == all_strips(
            set,
            plane,
            width,
            height,
            each,
            None,
            k,
        ),
    decreases k,
{
    if k > 0 {
        let all = all_strips(bare(set), plane, width, height, each, None, k)->Ok_0;
        let before = all_strips(bare(set), plane, width, height, each, None, k - 1)->Ok_0;
        lemma_strip_count(bare(set), plane, width, height, each, k - 1);
        assert forall|i: int| 0 <= i < k - 1 implies segment_stream(#[trigger] before[i]).len()
            <= b by {
            assert(all[i] == before[i]);
        }
        lemma_all_strips_ample(set, plane, width, height, each, b, k - 1);
        assert(segment_stream(all[k - 1]).len() <= b);
        let (y0, rows) = (
            (k - 1) * each,
            crate::encoder::strip_rows(height, each, k - 1) as usize,
        );
        lemma_strip_ample(set, plane, width, y0, rows, (k - 1) as u16, b);
        lemma_strip_bare(set, plane, width, y0, rows, (k - 1) as u16);
        let own = all_strips(set, plane, width, height, each, None, k)->Ok_0;
        let first = all_strips(set, plane, width, height, each, None, k - 1)->Ok_0;
        assert forall|i: int| 0 <= i < k implies segment_stream(#[trigger] own[i]).len()
            <= segment_stream(all[i]).len() by {
            if i < k - 1 {
                assert(own[i] == first[i] && all[i] == before[i]);
            }
        }
    }
}

proof fn lemma_strip_count(set: Settings, plane: IcerPlane, width: usize, height: int, each: int, k: int)
    requires
        0 <= k,
        all_strips(set, plane, width, height, each, None, k) is Ok,
    ensures
        all_strips(set, plane, width, height, each, None, k)->Ok_0.len() == k,
    decreases k,
{
    if k > 0 {
        lemma_strip_count(set, plane, width, height, each, k - 1);
    }
}

/// Without a budget parts are written in their order, each of them.
pub proof fn lemma_free_parts(
    set: Settings,
    coeffs: Seq<i32>,
    width: usize,
    height: usize,
    total: u8,
    order: Seq<u16>,
    j: int,
    k: int,
)
    requires
        is_ranking(order, total as int),
        0 <= j <= k <= total,
        parts_written(set, coeffs, width, height, total, order, None, k) is Ok,
    ensures
        parts_written(set, coeffs, width, height, total, order, None, j) is Ok,
        keeps_first(
            parts_written(set, coeffs, width, height, total, order, None, k)->Ok_0.kept,
            order,
            total as int,
            k,
        ),
        stream_of(
            parts_written(set, coeffs, width, height, total, order, None, j)->Ok_0.segments,
        ).len() + 12 * (k - j) <= stream_of(
            parts_written(set, coeffs, width, height, total, order, None, k)->Ok_0.segments,
        ).len(),
    decreases k,
{
    if k <= 0 {
        lemma_keep_none(order, total as int, total as int);
    } else {
        if j < k {
            lemma_free_parts(set, coeffs, width, height, total, order, j, k - 1);
        } else {
            lemma_free_parts(set, coeffs, width, height, total, order, k - 1, k - 1);
        }
        let w = parts_written(set, coeffs, width, height, total, order, None, k - 1)->Ok_0;
        let s = part_segment(set, coeffs, width, height, order[k - 1], total, None)->Ok_0;
        lemma_keep_next(w.kept, order, total as int, k - 1);
        lemma_stream_push(w.segments, s);
        lemma_segment_length(s);
    }
}

proof fn lemma_parts_ample(
    set: Settings,
    coeffs: Seq<i32>,
    width: usize,
    height: usize,
    total: u8,
    order: Seq<u16>,
    b: u64,
    k: int,
)
    requires
        is_ranking(order, total as int),
        0 <= k <= total,
        parts_written(set, coeffs, width, height, total, order, None, total as int) is Ok,
        stream_of(
            parts_written(
                set,
                coeffs,
                width,
                height,
                total,
                order,
                None,
                total as int,
            )->Ok_0.segments,
        ).len() <= b,
    ensures
        parts_written(set, coeffs, width, height, total, order, Some(b), k) == parts_written(
            set,
            coeffs,
            width,
            height,
            total,
            order,
            None,
            k,
        ),
    decreases k,
{
    if k > 0 {
        let n = total as int;
        lemma_parts_ample(set, coeffs, width, height, total, order, b, k - 1);
        lemma_free_parts(set, coeffs, width, height, total, order, k, n);
        lemma_free_parts(set, coeffs, width, height, total, order, k - 1, k);
        lemma_free_parts(set, coeffs, width, height, total, order, k - 1, k - 1);
        let w = parts_written(set, coeffs, width, height, total, order, None, k - 1)->Ok_0;
        let i = order[k - 1];
        let s = part_segment(set, coeffs, width, height, i, total, None)->Ok_0;
        lemma_stream_push(w.segments, s);
        lemma_segment_length(s);
        lemma_keep_next(w.kept, order, n, k - 1);
        let used = stream_of(w.segments).len() as int;
        let left = left_of(b as int, used, reserve_of(w.kept, i as int));
        assert(segment_stream(s).len() <= left <= b);
        lemma_part_ample(set, coeffs, width, height, i, total, left as u64);
    }
}

/// **A budget that the stream of a plane fits into does not change it**, where
/// packets are not chosen by what they promise. Where raw samples may stand in,
/// a budget is large enough if the stream fits into it without them: each
/// segment is then complete or raw.
#[verifier::rlimit(50)]
#[verifier::spinoff_prover]
pub proof fn ample_budgets_change_nothing(
    set: Settings,
    ranks: Option<Vec<u16>>,
    plane: IcerPlane,
    width: usize,
    height: usize,
    b: u64,
)
    requires
        !set.rd_pruning,
        plane_segments(bare(set), ranks, plane, width, height, None) is Ok,
        stream_of(plane_segments(bare(set), ranks, plane, width, height, None)->Ok_0).len() <= b,
    ensures
        plane_segments(set, ranks, plane, width, height, Some(b)) == plane_segments(
            set,
            ranks,
            plane,
            width,
            height,
            None,
        ),
{
    let n = set.count();
    let free = bare(set);
    let segments = plane_segments(free, ranks, plane, width, height, None)->Ok_0;
    let h = height as int;
    if set.transform {
        if !set.fallback {
            assert(free == set);
            orders_are_rankings(ranks, n);
            let order = emission_order(ranks, n)->Ok_0;
            let coeffs = coefficients(
                set,
                shifted_samples(plane, set.bits, width as int, 0, h),
                width,
                height,
            );
            let w = parts_written(set, coeffs, width, height, n as u8, order, None, n)->Ok_0;
            lemma_stream_join(
                w.segments,
                placeholders(w.kept, part_headers(set, width as int, h, n as u8), n),
            );
            lemma_parts_ample(set, coeffs, width, height, n as u8, order, b, n);
        }
    } else if n == 1 {
        let s = strip_segment(free, plane, width, 0, height, 0, None)->Ok_0;
        assert(segments =~= Seq::<Segment>::empty().push(s));
        lemma_stream_push(Seq::<Segment>::empty(), s);
        lemma_strip_ample(set, plane, width, 0, height, 0, b);
        lemma_strip_bare(set, plane, width, 0, height, 0);
    } else {
        let each = ceil_div(h, n);
        let headers = strip_headers(free, width as int, h, each, n);
        if ranks is None {
            let w = strips_written(free, plane, width, h, each, n, None, n)->Ok_0.0;
            lemma_stream_join(w.segments, placeholders(w.kept, headers, n));
            lemma_strips_ample(set, plane, width, h, each, n, b, n);
        } else {
            orders_are_rankings(ranks, n);
            let order = emission_order(ranks, n)->Ok_0;
            let strips = all_strips(free, plane, width, h, each, None, n)->Ok_0;
            lemma_strip_count(free, plane, width, h, each, n);
            let w = ranked_written(strips, order, None, n);
            lemma_stream_join(w.segments, placeholders(w.kept, headers, n));
            lemma_free_ranked(strips, order, n, n, n);
            assert forall|i: int| 0 <= i < n implies segment_stream(#[trigger] strips[i]).len()
                <= b by {
                lemma_every_rank(order, n, i);
                let j = at_rank(order, i);
                assert(segment_stream(strips[order[j] as int]).len() <= stream_of(
                    w.segments,
                ).len());
            }
            lemma_all_strips_ample(set, plane, width, h, each, b, n);
            let own = all_strips(set, plane, width, h, each, None, n)->Ok_0;
            lemma_ranked_shorter(own, strips, order, n, n);
            lemma_ranked_ample(own, order, n, b, n);
        }
    }
}

} // verus!
