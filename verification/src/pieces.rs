//! The segments of a plane without a budget, one by one: how soft targets, raw
//! samples that stand in, and ranks change them.

use crate::ample::{lemma_bare_compressed, lemma_free_parts, lemma_free_ranked, lemma_keep_none, lemma_one_less_missing, lemma_segment_length};
use crate::assemble::missing_of;
use crate::compress::{coded_packets_of, coded_selection, coefficients, lowest_bit, planes_for, strip_segment, Settings};
use crate::emit::{segment_stream, stream_of};
use crate::encoder::{all_strips, emission_order, is_ranking, plane_segments, ranked_written, strip_at, strip_headers, strip_rows, strips_written};
use crate::error::Fault;
use crate::header::{Segment, SegmentHeader};
use crate::image::IcerPlane;
use crate::parts::{empty_segment, part_headers, part_segment, parts_written, placeholders, reserve_of, Written};
use crate::partition::ceil_div;
use crate::roundtrip_stream::orders_are_rankings;
use crate::runs::{shortened, strips_keep_the_longest_run, targets_are_reached_once, up_to_target};
use crate::sharing::lemma_none_missing;
use crate::strip::shifted_samples;
use vstd::prelude::*;

verus! {

/// Segment `k` of a plane in the order in which they are written, without a
/// budget.
spec fn piece(
    set: Settings,
    ranks: Option<Vec<u16>>,
    plane: IcerPlane,
    width: usize,
    height: usize,
    k: int,
) -> core::result::Result<Segment, Fault> {
    let n = set.count();
    let order = emission_order(ranks, n)->Ok_0;
    if set.transform {
        part_segment(
            set,
            coefficients(
                set,
                shifted_samples(plane, set.bits, width as int, 0, height as int),
                width,
                height,
            ),
            width,
            height,
            order[k],
            n as u8,
            None,
        )
    } else if n == 1 {
        strip_segment(set, plane, width, 0, height, 0, None)
    } else {
        strip_at(set, plane, width, height as int, ceil_div(height as int, n), order[k] as int, None)
    }
}

/// Strips are written one after the other.
proof fn lemma_strips_listed(
    set: Settings,
    plane: IcerPlane,
    width: usize,
    height: int,
    each: int,
    n: int,
    k: int,
)
    requires
        0 <= k <= n,
    ensures
        ({
            let r = strips_written(set, plane, width, height, each, n, None, k);
            &&& r is Ok <==> forall|i: int|
                0 <= i < k ==> (#[trigger] strip_at(set, plane, width, height, each, i, None)) is Ok
            &&& r is Ok ==> {
                &&& !r->Ok_0.1
                &&& r->Ok_0.0.kept.len() == n
                &&& r->Ok_0.0.segments.len() == k
                &&& forall|i: int|
                    0 <= i < k ==> #[trigger] r->Ok_0.0.segments[i] == strip_at(
                        set,
                        plane,
                        width,
                        height,
                        each,
                        i,
                        None,
                    )->Ok_0
                &&& missing_of(r->Ok_0.0.kept, k) == 0
            }
        }),
    decreases k,
{
    if k > 0 {
        lemma_strips_listed(set, plane, width, height, each, n, k - 1);
        let before = strips_written(set, plane, width, height, each, n, None, k - 1);
        let r = strips_written(set, plane, width, height, each, n, None, k);
        if r is Ok {
            assert forall|i: int| 0 <= i < k implies (#[trigger] strip_at(
                set,
                plane,
                width,
                height,
                each,
                i,
                None,
            )) is Ok by {}
            lemma_missing_update(before->Ok_0.0.kept, k - 1, k - 1);
        } else if before is Ok {
            assert(strip_at(set, plane, width, height, each, k - 1, None) is Err);
        }
    }
}

/// What is kept at a later place changes nothing before it.
proof fn lemma_missing_update(kept: Seq<bool>, i: int, k: int)
    requires
        0 <= k <= i < kept.len(),
    ensures
        missing_of(kept.update(i, true), k) == missing_of(kept, k),
    decreases k,
{
    if k > 0 {
        lemma_missing_update(kept, i, k - 1);
    }
}

/// Strips are encoded one after the other.
proof fn lemma_all_listed(
    set: Settings,
    plane: IcerPlane,
    width: usize,
    height: int,
    each: int,
    budget: Option<u64>,
    k: int,
)
    requires
        0 <= k,
    ensures
        ({
            let r = all_strips(set, plane, width, height, each, budget, k);
            &&& r is Ok <==> forall|i: int|
                0 <= i < k ==> (#[trigger] strip_at(
                    set,
                    plane,
                    width,
                    height,
                    each,
                    i,
                    budget,
                )) is Ok
            &&& r is Ok ==> {
                &&& r->Ok_0.len() == k
                &&& forall|i: int|
                    0 <= i < k ==> #[trigger] r->Ok_0[i] == strip_at(
                        set,
                        plane,
                        width,
                        height,
                        each,
                        i,
                        budget,
                    )->Ok_0
            }
        }),
    decreases k,
{
    if k > 0 {
        lemma_all_listed(set, plane, width, height, each, budget, k - 1);
        if all_strips(set, plane, width, height, each, budget, k) is Ok {
            assert forall|i: int| 0 <= i < k implies (#[trigger] strip_at(
                set,
                plane,
                width,
                height,
                each,
                i,
                budget,
            )) is Ok by {}
        }
    }
}

/// Without a budget ranked segments are written in their order.
proof fn lemma_ranked_listed(strips: Seq<Segment>, order: Seq<u16>, k: int)
    requires
        0 <= k <= order.len(),
    ensures
        ranked_written(strips, order, None, k).segments.len() == k,
        forall|i: int|
            0 <= i < k ==> #[trigger] ranked_written(strips, order, None, k).segments[i]
                == strips[order[i] as int],
    decreases k,
{
    if k > 0 {
        lemma_ranked_listed(strips, order, k - 1);
    }
}

/// Part `k` of an order.
#[verifier::opaque]
spec fn part_at(
    set: Settings,
    coeffs: Seq<i32>,
    width: usize,
    height: usize,
    total: u8,
    order: Seq<u16>,
    k: int,
) -> core::result::Result<Segment, Fault> {
    part_segment(set, coeffs, width, height, order[k], total, None)
}

/// One more part is written, or is why there are none.
proof fn lemma_part_step(
    set: Settings,
    coeffs: Seq<i32>,
    width: usize,
    height: usize,
    total: u8,
    order: Seq<u16>,
    k: int,
)
    requires
        0 < k <= order.len(),
    ensures
        ({
            let before = parts_written(set, coeffs, width, height, total, order, None, k - 1);
            let r = parts_written(set, coeffs, width, height, total, order, None, k);
            let part = part_at(set, coeffs, width, height, total, order, k - 1);
            &&& r is Ok <==> before is Ok && part is Ok
            &&& r is Ok ==> r->Ok_0.segments == before->Ok_0.segments.push(part->Ok_0)
        }),
{
    reveal(part_at);
}

/// Without a budget parts are written in their order.
proof fn lemma_parts_listed(
    set: Settings,
    coeffs: Seq<i32>,
    width: usize,
    height: usize,
    total: u8,
    order: Seq<u16>,
    k: int,
)
    requires
        0 <= k <= order.len(),
    ensures
        ({
            let r = parts_written(set, coeffs, width, height, total, order, None, k);
            &&& r is Ok <==> forall|i: int|
                0 <= i < k ==> (#[trigger] part_at(
                    set,
                    coeffs,
                    width,
                    height,
                    total,
                    order,
                    i,
                )) is Ok
            &&& r is Ok ==> {
                &&& r->Ok_0.segments.len() == k
                &&& forall|i: int|
                    0 <= i < k ==> #[trigger] r->Ok_0.segments[i] == part_at(
                        set,
                        coeffs,
                        width,
                        height,
                        total,
                        order,
                        i,
                    )->Ok_0
            }
        }),
    decreases k,
{
    if k > 0 {
        lemma_parts_listed(set, coeffs, width, height, total, order, k - 1);
        lemma_part_step(set, coeffs, width, height, total, order, k);
    }
}

/// A plane is refused whatever its segments are.
spec fn refused(
    set: Settings,
    ranks: Option<Vec<u16>>,
    width: usize,
    height: usize,
) -> bool {
    let n = set.count();
    ||| set.conflicting()
    ||| set.transform && (width < 2 || height < 2 || width > 0xFFFF || height > 0xFFFF || n > 255
        || !crate::wavelet_int::is_integer(set.filter) || !crate::merge::can_segment(
        width as int,
        height as int,
        set.levels as int,
        n,
    ) || emission_order(ranks, n) is Err)
    ||| !set.transform && n == 1 && (width > 0xFFFF || height > 0xFFFF)
    ||| !set.transform && n > 1 && (crate::encoder::strips_refused(width as int, height as int, n)
        || emission_order(ranks, n) is Err)
}

/// Without a budget a plane has its segments, each of them.
proof fn lemma_listed(
    set: Settings,
    ranks: Option<Vec<u16>>,
    plane: IcerPlane,
    width: usize,
    height: usize,
)
    ensures
        ({
            let r = plane_segments(set, ranks, plane, width, height, None);
            &&& r is Ok <==> !refused(set, ranks, width, height) && forall|k: int|
                0 <= k < set.count() ==> (#[trigger] piece(
                    set,
                    ranks,
                    plane,
                    width,
                    height,
                    k,
                )) is Ok
            &&& r is Ok ==> {
                &&& r->Ok_0.len() == set.count()
                &&& forall|k: int|
                    0 <= k < set.count() ==> #[trigger] r->Ok_0[k] == piece(
                        set,
                        ranks,
                        plane,
                        width,
                        height,
                        k,
                    )->Ok_0
            }
        }),
{
    let n = set.count();
    let h = height as int;
    if !refused(set, ranks, width, height) {
        if set.transform {
            lemma_listed_parts(set, ranks, plane, width, height);
        } else if n == 1 {
            assert(piece(set, ranks, plane, width, height, 0) == strip_segment(
                set,
                plane,
                width,
                0,
                height,
                0,
                None,
            ));
        } else {
            lemma_listed_strips(set, ranks, plane, width, height);
        }
    }
}

proof fn lemma_listed_parts(
    set: Settings,
    ranks: Option<Vec<u16>>,
    plane: IcerPlane,
    width: usize,
    height: usize,
)
    requires
        set.transform,
        !refused(set, ranks, width, height),
    ensures
        ({
            let r = plane_segments(set, ranks, plane, width, height, None);
            &&& r is Ok <==> forall|k: int|
                0 <= k < set.count() ==> (#[trigger] piece(
                    set,
                    ranks,
                    plane,
                    width,
                    height,
                    k,
                )) is Ok
            &&& r is Ok ==> {
                &&& r->Ok_0.len() == set.count()
                &&& forall|k: int|
                    0 <= k < set.count() ==> #[trigger] r->Ok_0[k] == piece(
                        set,
                        ranks,
                        plane,
                        width,
                        height,
                        k,
                    )->Ok_0
            }
        }),
{
    let n = set.count();
    let h = height as int;
    orders_are_rankings(ranks, n);
    let order = emission_order(ranks, n)->Ok_0;
    let coeffs = coefficients(
        set,
        shifted_samples(plane, set.bits, width as int, 0, h),
        width,
        height,
    );
    lemma_parts_listed(set, coeffs, width, height, n as u8, order, n);
    let r = parts_written(set, coeffs, width, height, n as u8, order, None, n);
    if r is Ok {
        let w = r->Ok_0;
        lemma_free_parts(set, coeffs, width, height, n as u8, order, n, n);
        lemma_none_missing(w.kept, part_headers(set, width as int, h, n as u8), n);
        assert(w.segments + Seq::<Segment>::empty() =~= w.segments);
        assert forall|k: int| 0 <= k < n implies (#[trigger] piece(
            set,
            ranks,
            plane,
            width,
            height,
            k,
        )) is Ok && w.segments[k] == piece(set, ranks, plane, width, height, k)->Ok_0 by {
            assert(part_at(set, coeffs, width, height, n as u8, order, k) is Ok);
            reveal(part_at);
        }
    } else {
        let i = choose|i: int|
            0 <= i < n && (#[trigger] part_at(
                set,
                coeffs,
                width,
                height,
                n as u8,
                order,
                i,
            )) is Err;
        assert(piece(set, ranks, plane, width, height, i) is Err) by {
            reveal(part_at);
        }
    }
}

proof fn lemma_listed_strips(
    set: Settings,
    ranks: Option<Vec<u16>>,
    plane: IcerPlane,
    width: usize,
    height: usize,
)
    requires
        !set.transform,
        set.count() > 1,
        !refused(set, ranks, width, height),
    ensures
        ({
            let r = plane_segments(set, ranks, plane, width, height, None);
            &&& r is Ok <==> forall|k: int|
                0 <= k < set.count() ==> (#[trigger] piece(
                    set,
                    ranks,
                    plane,
                    width,
                    height,
                    k,
                )) is Ok
            &&& r is Ok ==> {
                &&& r->Ok_0.len() == set.count()
                &&& forall|k: int|
                    0 <= k < set.count() ==> #[trigger] r->Ok_0[k] == piece(
                        set,
                        ranks,
                        plane,
                        width,
                        height,
                        k,
                    )->Ok_0
            }
        }),
{
    let n = set.count();
    let h = height as int;
    orders_are_rankings(ranks, n);
    let order = emission_order(ranks, n)->Ok_0;
    let each = ceil_div(h, n);
    let headers = strip_headers(set, width as int, h, each, n);
    let fine = forall|i: int|
        0 <= i < n ==> (#[trigger] strip_at(set, plane, width, h, each, i, None)) is Ok;
    if fine {
        assert forall|k: int| 0 <= k < n implies (#[trigger] piece(
            set,
            ranks,
            plane,
            width,
            height,
            k,
        )) is Ok by {
            assert(0 <= order[k] < n);
        }
    } else {
        let i = choose|i: int|
            0 <= i < n && (#[trigger] strip_at(set, plane, width, h, each, i, None)) is Err;
        let k = crate::encoder::at_rank(order, i);
        crate::encoder::lemma_every_rank(order, n, i);
        assert(piece(set, ranks, plane, width, height, k) is Err);
    }
    if ranks is None {
        lemma_strips_listed(set, plane, width, h, each, n, n);
        let r = strips_written(set, plane, width, h, each, n, None, n);
        if r is Ok {
            let w = r->Ok_0.0;
            lemma_none_missing(w.kept, headers, n);
            assert(w.segments + Seq::<Segment>::empty() =~= w.segments);
        }
    } else {
        lemma_all_listed(set, plane, width, h, each, None, n);
        let r = all_strips(set, plane, width, h, each, None, n);
        if r is Ok {
            let strips = r->Ok_0;
            lemma_ranked_listed(strips, order, n);
            lemma_free_ranked(strips, order, n, n, n);
            let w = ranked_written(strips, order, None, n);
            lemma_none_missing(w.kept, headers, n);
            assert(w.segments + Seq::<Segment>::empty() =~= w.segments);
            assert forall|k: int| 0 <= k < n implies #[trigger] w.segments[k] == piece(
                set,
                ranks,
                plane,
                width,
                height,
                k,
            )->Ok_0 by {
                assert(0 <= order[k] < n);
            }
        }
    }
}

// ---------------------------------------------------------------------------
// Soft targets
// ---------------------------------------------------------------------------

/// A segment is another up to the packet or the bit plane that reaches a soft
/// target.
pub open spec fn ended(some: Segment, all: Segment, t: int) -> bool {
    &&& up_to_target(some.packets, all.packets, t, !all.header.priority_interleaved)
    &&& some.header.segment_length == segment_stream(some).len() - 12
    &&& some.header == (SegmentHeader {
        segment_length: some.header.segment_length,
        ..all.header
    })
}

/// The settings without a soft target.
pub open spec fn untargeted(set: Settings) -> Settings {
    Settings { target: None, ..set }
}

proof fn lemma_strip_ended(
    set: Settings,
    plane: IcerPlane,
    width: usize,
    y0: int,
    height: usize,
    index: u16,
)
    requires
        !set.rd_pruning,
        !set.fallback,
        !set.uncompressed,
        set.target is Some,
        strip_segment(untargeted(set), plane, width, y0, height, index, None) is Ok,
    ensures
        strip_segment(set, plane, width, y0, height, index, None) is Ok,
        ended(
            strip_segment(set, plane, width, y0, height, index, None)->Ok_0,
            strip_segment(untargeted(set), plane, width, y0, height, index, None)->Ok_0,
            set.target->0 as int,
        ),
{
    reveal(strip_segment);
    let free = untargeted(set);
    let all = strip_segment(free, plane, width, y0, height, index, None)->Ok_0;
    let samples = shifted_samples(plane, set.bits, width as int, y0, height as int);
    let g = crate::scan::Grid { width, height, levels: set.levels };
    let coeffs = coefficients(set, samples, width, height);
    assert(coeffs == coefficients(free, samples, width, height));
    let q = planes_for(set, coeffs);
    assert(q == planes_for(free, coeffs));
    let f = coded_selection(set, g, None, None);
    assert(f == coded_selection(free, g, None, None));
    let packets = coded_packets_of(set, g, coeffs, f, q);
    assert(packets == coded_packets_of(free, g, coeffs, f, q));
    targets_are_reached_once(
        set,
        packets,
        q,
        lowest_bit(f, g.area()),
        set.target->0,
        all.packets,
    );
    let some = strip_segment(set, plane, width, y0, height, index, None)->Ok_0;
    lemma_segment_length(some);
    lemma_segment_length(all);
    crate::runs::lemma_fewer_bytes(all.packets, some.packets.len() as int);
}

proof fn lemma_part_ended(
    set: Settings,
    coeffs: Seq<i32>,
    width: usize,
    height: usize,
    index: u16,
    total: u8,
)
    requires
        set.target is Some,
        part_segment(untargeted(set), coeffs, width, height, index, total, None) is Ok,
    ensures
        part_segment(set, coeffs, width, height, index, total, None) is Ok,
        ended(
            part_segment(set, coeffs, width, height, index, total, None)->Ok_0,
            part_segment(untargeted(set), coeffs, width, height, index, total, None)->Ok_0,
            set.target->0 as int,
        ),
{
    let free = untargeted(set);
    let all = part_segment(free, coeffs, width, height, index, total, None)->Ok_0;
    let g = crate::scan::Grid { width, height, levels: set.levels };
    let (w, h, levels) = (width as int, height as int, set.levels as int);
    let p = crate::merge::ll_partition(w, h, levels, total as int);
    let map = crate::partition::segment_map(p, w, h, levels);
    let window = crate::merge::window_at(p, index as int, w, h, levels);
    let f = coded_selection(set, g, Some((map, index)), Some(window));
    assert(f == coded_selection(free, g, Some((map, index)), Some(window)));
    let block = crate::parts::block_coeffs(coeffs, w, window);
    let q = planes_for(set, block);
    assert(q == planes_for(free, block));
    let packets = coded_packets_of(set, g, coeffs, f, q);
    assert(packets == coded_packets_of(free, g, coeffs, f, q));
    targets_are_reached_once(
        set,
        packets,
        q,
        lowest_bit(f, g.area()),
        set.target->0,
        all.packets,
    );
    let some = part_segment(set, coeffs, width, height, index, total, None)->Ok_0;
    lemma_segment_length(some);
    lemma_segment_length(all);
    crate::runs::lemma_fewer_bytes(all.packets, some.packets.len() as int);
}

/// **A soft target ends each segment of a plane when it is reached**: the
/// segments are those without a target, in the same order, each with its packets
/// up to the one, or the bit plane, with which it reaches the target.
pub proof fn targets_end_segments(
    set: Settings,
    ranks: Option<Vec<u16>>,
    plane: IcerPlane,
    width: usize,
    height: usize,
)
    requires
        !set.rd_pruning,
        !set.fallback,
        !set.uncompressed,
        set.target is Some,
        plane_segments(untargeted(set), ranks, plane, width, height, None) is Ok,
    ensures
        ({
            let all = plane_segments(untargeted(set), ranks, plane, width, height, None)->Ok_0;
            let r = plane_segments(set, ranks, plane, width, height, None);
            &&& r is Ok
            &&& r->Ok_0.len() == all.len()
            &&& forall|k: int|
                0 <= k < all.len() ==> ended(
                    #[trigger] r->Ok_0[k],
                    all[k],
                    set.target->0 as int,
                )
        }),
{
    let free = untargeted(set);
    let h = height as int;
    let n = set.count();
    lemma_listed(free, ranks, plane, width, height);
    lemma_listed(set, ranks, plane, width, height);
    assert(refused(free, ranks, width, height) == refused(set, ranks, width, height));
    let all = plane_segments(free, ranks, plane, width, height, None)->Ok_0;
    assert forall|k: int| 0 <= k < n implies (#[trigger] piece(
        set,
        ranks,
        plane,
        width,
        height,
        k,
    )) is Ok && ended(
        piece(set, ranks, plane, width, height, k)->Ok_0,
        all[k],
        set.target->0 as int,
    ) by {
        assert(all[k] == piece(free, ranks, plane, width, height, k)->Ok_0);
        assert(piece(free, ranks, plane, width, height, k) is Ok);
        let order = emission_order(ranks, n)->Ok_0;
        if set.transform {
            let samples = shifted_samples(plane, set.bits, width as int, 0, h);
            assert(coefficients(free, samples, width, height) == coefficients(
                set,
                samples,
                width,
                height,
            ));
            lemma_part_ended(
                set,
                coefficients(set, samples, width, height),
                width,
                height,
                order[k],
                n as u8,
            );
        } else if n == 1 {
            lemma_strip_ended(set, plane, width, 0, height, 0);
        } else {
            let each = ceil_div(h, n);
            let i = order[k] as int;
            lemma_strip_ended(
                set,
                plane,
                width,
                i * each,
                strip_rows(h, each, i) as usize,
                i as u16,
            );
        }
    }
}

// ---------------------------------------------------------------------------
// Raw samples that stand in
// ---------------------------------------------------------------------------

/// **Raw samples stand in for a segment exactly where they are shorter.** The
/// segments of a plane are those that are compressed, but where the segment of
/// raw samples has fewer bytes it stands in their place.
pub proof fn raw_samples_stand_in_where_shorter(
    set: Settings,
    ranks: Option<Vec<u16>>,
    plane: IcerPlane,
    width: usize,
    height: usize,
)
    requires
        set.fallback,
        plane_segments(
            Settings { fallback: false, uncompressed: false, ..set },
            ranks,
            plane,
            width,
            height,
            None,
        ) is Ok,
        plane_segments(
            Settings { fallback: false, uncompressed: true, ..set },
            ranks,
            plane,
            width,
            height,
            None,
        ) is Ok,
        !set.uncompressed,
        !set.rd_pruning,
    ensures
        ({
            let small = plane_segments(
                Settings { fallback: false, uncompressed: false, ..set },
                ranks,
                plane,
                width,
                height,
                None,
            )->Ok_0;
            let raw = plane_segments(
                Settings { fallback: false, uncompressed: true, ..set },
                ranks,
                plane,
                width,
                height,
                None,
            )->Ok_0;
            let r = plane_segments(set, ranks, plane, width, height, None);
            &&& r is Ok
            &&& r->Ok_0.len() == small.len() == raw.len()
            &&& forall|k: int|
                0 <= k < small.len() ==> #[trigger] r->Ok_0[k] == (if segment_stream(raw[k]).len()
                    < segment_stream(small[k]).len() {
                    raw[k]
                } else {
                    small[k]
                })
        }),
{
    let a = Settings { fallback: false, uncompressed: false, ..set };
    let c = Settings { fallback: false, uncompressed: true, ..set };
    let h = height as int;
    let n = set.count();
    lemma_listed(a, ranks, plane, width, height);
    lemma_listed(c, ranks, plane, width, height);
    lemma_listed(set, ranks, plane, width, height);
    assert(!set.transform);
    let small = plane_segments(a, ranks, plane, width, height, None)->Ok_0;
    let raw = plane_segments(c, ranks, plane, width, height, None)->Ok_0;
    assert forall|k: int| 0 <= k < n implies (#[trigger] piece(
        set,
        ranks,
        plane,
        width,
        height,
        k,
    )) is Ok && piece(set, ranks, plane, width, height, k)->Ok_0 == (if segment_stream(
        raw[k],
    ).len() < segment_stream(small[k]).len() {
        raw[k]
    } else {
        small[k]
    }) by {
        assert(small[k] == piece(a, ranks, plane, width, height, k)->Ok_0);
        assert(raw[k] == piece(c, ranks, plane, width, height, k)->Ok_0);
        assert(piece(a, ranks, plane, width, height, k) is Ok);
        assert(piece(c, ranks, plane, width, height, k) is Ok);
        let order = emission_order(ranks, n)->Ok_0;
        if n == 1 {
            lemma_strip_raw_or_small(set, plane, width, 0, height, 0);
        } else {
            let each = ceil_div(h, n);
            let i = order[k] as int;
            lemma_strip_raw_or_small(
                set,
                plane,
                width,
                i * each,
                strip_rows(h, each, i) as usize,
                i as u16,
            );
        }
    }
}

proof fn lemma_strip_raw_or_small(
    set: Settings,
    plane: IcerPlane,
    width: usize,
    y0: int,
    height: usize,
    index: u16,
)
    requires
        set.fallback,
        !set.uncompressed,
        !set.rd_pruning,
        strip_segment(
            Settings { fallback: false, uncompressed: false, ..set },
            plane,
            width,
            y0,
            height,
            index,
            None,
        ) is Ok,
        strip_segment(
            Settings { fallback: false, uncompressed: true, ..set },
            plane,
            width,
            y0,
            height,
            index,
            None,
        ) is Ok,
    ensures
        ({
            let small = strip_segment(
                Settings { fallback: false, uncompressed: false, ..set },
                plane,
                width,
                y0,
                height,
                index,
                None,
            )->Ok_0;
            let raw = strip_segment(
                Settings { fallback: false, uncompressed: true, ..set },
                plane,
                width,
                y0,
                height,
                index,
                None,
            )->Ok_0;
            strip_segment(set, plane, width, y0, height, index, None) == Ok::<Segment, Fault>(
                if segment_stream(raw).len() < segment_stream(small).len() {
                    raw
                } else {
                    small
                },
            )
        }),
{
    reveal(strip_segment);
    let samples = shifted_samples(plane, set.bits, width as int, y0, height as int);
    lemma_bare_compressed(set, samples, width, height, index, None);
}

// ---------------------------------------------------------------------------
// Ranks under a budget
// ---------------------------------------------------------------------------

/// What is kept of the first `k` of an order.
spec fn keeps_some(w: Written, order: Seq<u16>, n: int, k: int) -> bool {
    &&& w.kept.len() == n
    &&& w.segments.len() <= k
    &&& missing_of(w.kept, n) == n - w.segments.len()
    &&& forall|v: int|
        0 <= v < n && #[trigger] w.kept[v] ==> exists|j: int| 0 <= j < k && #[trigger] order[j] == v
    &&& forall|a: int|
        0 <= a < w.segments.len() ==> exists|j: int|
            0 <= j < k && #[trigger] order[j] == (#[trigger] w.segments[a]).header.segment_index
}

proof fn lemma_some_kept(strips: Seq<Segment>, order: Seq<u16>, b: u64, n: int, k: int)
    requires
        strips.len() == n,
        is_ranking(order, n),
        0 <= k <= n,
        forall|i: int| 0 <= i < n ==> (#[trigger] strips[i]).header.segment_index == i,
    ensures
        keeps_some(ranked_written(strips, order, Some(b), k), order, n, k),
        k < n ==> {
            let w = ranked_written(strips, order, Some(b), k);
            &&& !w.kept[order[k] as int]
            &&& reserve_of(w.kept, order[k] as int) == 12 * (n - 1 - w.segments.len())
        },
    decreases k,
{
    let w = ranked_written(strips, order, Some(b), k);
    if k <= 0 {
        lemma_keep_none(order, n, n);
    } else {
        lemma_some_kept(strips, order, b, n, k - 1);
        let before = ranked_written(strips, order, Some(b), k - 1);
        let i = order[k - 1] as int;
        assert(0 <= i < n);
        lemma_one_less_missing(before.kept, i, n);
        assert forall|v: int| 0 <= v < n && #[trigger] w.kept[v] implies exists|j: int|
            0 <= j < k && #[trigger] order[j] == v by {
            if v == i {
                assert(order[k - 1] == v);
            } else {
                assert(before.kept[v]);
                let j = choose|j: int| 0 <= j < k - 1 && #[trigger] order[j] == v;
                assert(order[j] == v);
            }
        }
        assert forall|a: int| 0 <= a < w.segments.len() implies exists|j: int|
            0 <= j < k && #[trigger] order[j] == (
            #[trigger] w.segments[a]).header.segment_index by {
            if a < before.segments.len() {
                let s = before.segments[a];
                let j = choose|j: int|
                    0 <= j < k - 1 && #[trigger] order[j] == s.header.segment_index;
                assert(order[j] == w.segments[a].header.segment_index);
            } else {
                assert(w.segments[a] == strips[i]);
                assert(order[k - 1] == w.segments[a].header.segment_index);
            }
        }
    }
    if k < n {
        let i = order[k] as int;
        assert(0 <= i < n);
        if w.kept[i] {
            let j = choose|j: int| 0 <= j < k && #[trigger] order[j] == i;
            assert(order[j] != order[k]);
        }
        lemma_one_less_missing(w.kept, i, n);
    }
}

/// What was written stays, and what was left out stays out.
proof fn lemma_ranked_stays(strips: Seq<Segment>, order: Seq<u16>, b: u64, n: int, j: int, k: int)
    requires
        strips.len() == n,
        is_ranking(order, n),
        0 <= j <= k <= n,
    ensures
        ({
            let before = ranked_written(strips, order, Some(b), j);
            let after = ranked_written(strips, order, Some(b), k);
            &&& before.segments.len() <= after.segments.len()
            &&& before.segments == after.segments.take(before.segments.len() as int)
            &&& before.kept.len() == n
            &&& after.kept.len() == n
            &&& forall|v: int|
                0 <= v < n && #[trigger] after.kept[v] && !before.kept[v] ==> exists|i: int|
                    j <= i < k && #[trigger] order[i] == v
        }),
    decreases k,
{
    let after = ranked_written(strips, order, Some(b), k);
    if j < k {
        lemma_ranked_stays(strips, order, b, n, j, k - 1);
        let before = ranked_written(strips, order, Some(b), j);
        let mid = ranked_written(strips, order, Some(b), k - 1);
        let m = before.segments.len() as int;
        assert(after.segments.take(m) =~= mid.segments.take(m));
        assert forall|v: int| 0 <= v < n && #[trigger] after.kept[v] && !before.kept[v] implies exists|
            i: int,
        | j <= i < k && #[trigger] order[i] == v by {
            if v == order[k - 1] {
                assert(order[k - 1] == v);
            } else {
                assert(mid.kept[v]);
                let i = choose|i: int| j <= i < k - 1 && #[trigger] order[i] == v;
                assert(order[i] == v);
            }
        }
    } else {
        assert(after.segments.take(after.segments.len() as int) =~= after.segments);
        lemma_ranked_kept_len(strips, order, b, n, k);
    }
}

proof fn lemma_ranked_kept_len(strips: Seq<Segment>, order: Seq<u16>, b: u64, n: int, k: int)
    requires
        strips.len() == n,
        is_ranking(order, n),
        k <= n,
    ensures
        ranked_written(strips, order, Some(b), k).kept.len() == n,
    decreases k,
{
    if k > 0 {
        assert(order[k - 1] < n);
        lemma_ranked_kept_len(strips, order, b, n, k - 1);
    }
}

/// An empty segment stands for each that was left out.
proof fn lemma_stands_in(kept: Seq<bool>, headers: Seq<SegmentHeader>, i: int, n: int) -> (j: int)
    requires
        0 <= i < n <= kept.len(),
        !kept[i],
    ensures
        0 <= j < placeholders(kept, headers, n).len(),
        placeholders(kept, headers, n)[j] == empty_segment(headers[i]),
    decreases n,
{
    if i == n - 1 {
        placeholders(kept, headers, n).len() - 1
    } else {
        lemma_stands_in(kept, headers, i, n - 1)
    }
}

/// A strip has its index in its header.
proof fn lemma_strip_index(
    set: Settings,
    plane: IcerPlane,
    width: usize,
    y0: int,
    height: usize,
    index: u16,
    budget: Option<u64>,
)
    ensures
        strip_segment(set, plane, width, y0, height, index, budget) matches Ok(s)
            ==> s.header.segment_index == index,
{
    reveal(strip_segment);
}

/// Segment `k` of an order is written if it fits behind those before it that
/// are, beside a header of 12 bytes for each of the others; else an empty segment
/// stands for it.
pub open spec fn written_or_left_out(
    out: Seq<Segment>,
    all: Seq<Segment>,
    k: int,
    s: Segment,
    m: int,
    b: int,
) -> bool {
    &&& 0 <= m <= k
    &&& forall|a: int|
        0 <= a < m ==> exists|j: int|
            0 <= j < k && (#[trigger] all[j]).header.segment_index == (
            #[trigger] out[a]).header.segment_index
    &&& if stream_of(out.take(m)).len() + segment_stream(s).len() + 12 * (all.len() - 1 - m) <= b {
        m < out.len() && out[m] == s
    } else {
        exists|j: int|
            m <= j < out.len() && (#[trigger] out[j]).header.segment_index
                == all[k].header.segment_index && out[j].packets.len() == 0
    }
}

/// **Ranked strips are written as far as they fit.** From the lowest rank on,
/// each strip is written with the longest run of its packets that fits into the
/// whole budget, if that fits behind the strips that are written before it and
/// beside the headers of the others. Where it does not, an empty segment stands
/// for it.
#[verifier::rlimit(60)]
#[verifier::spinoff_prover]
pub proof fn ranked_strips_fit_or_are_left_out(
    set: Settings,
    ranks: Option<Vec<u16>>,
    plane: IcerPlane,
    width: usize,
    height: usize,
    b: u64,
    k: int,
) -> (r: (Segment, int))
    requires
        !set.rd_pruning,
        !set.fallback,
        !set.uncompressed,
        !set.transform,
        ranks is Some,
        2 <= set.segment_count,
        plane_segments(set, ranks, plane, width, height, None) is Ok,
        0 <= k < set.segment_count,
    ensures
        ({
            let all = plane_segments(set, ranks, plane, width, height, None)->Ok_0;
            let out = plane_segments(set, ranks, plane, width, height, Some(b));
            &&& all.len() == set.segment_count
            &&& ranks->0@[all[k].header.segment_index as int] == k
            &&& out is Ok
            &&& shortened(r.0, all[k], b as int)
            &&& written_or_left_out(out->Ok_0, all, k, r.0, r.1, b as int)
        }),
{
    let n = set.count();
    let h = height as int;
    lemma_listed(set, ranks, plane, width, height);
    let all = plane_segments(set, ranks, plane, width, height, None)->Ok_0;
    assert(!refused(set, ranks, width, height));
    orders_are_rankings(ranks, n);
    let order = emission_order(ranks, n)->Ok_0;
    let each = ceil_div(h, n);
    assert forall|j: int| 0 <= j < n implies (#[trigger] all[j]).header.segment_index == order[j]
        && strip_at(set, plane, width, h, each, order[j] as int, None) == Ok::<Segment, Fault>(
        all[j],
    ) by {
        assert(piece(set, ranks, plane, width, height, j) is Ok);
        lemma_strip_index(
            set,
            plane,
            width,
            order[j] * each,
            strip_rows(h, each, order[j] as int) as usize,
            order[j],
            None,
        );
    }
    assert forall|i: int| 0 <= i < n implies (#[trigger] strip_at(
        set,
        plane,
        width,
        h,
        each,
        i,
        Some(b),
    )) is Ok && strip_at(set, plane, width, h, each, i, Some(b))->Ok_0.header.segment_index
        == i by {
        let j = crate::encoder::at_rank(order, i);
        crate::encoder::lemma_every_rank(order, n, i);
        assert(all[j].header.segment_index == order[j]);
        let rows = strip_rows(h, each, i) as usize;
        strips_keep_the_longest_run(set, plane, width, i * each, rows, i as u16, b);
        lemma_strip_index(set, plane, width, i * each, rows, i as u16, Some(b));
    }
    lemma_all_listed(set, plane, width, h, each, Some(b), n);
    let strips = all_strips(set, plane, width, h, each, Some(b), n)->Ok_0;
    let i = order[k] as int;
    assert(0 <= i < n);
    let s = strips[i];
    assert(all[k].header.segment_index == i);
    crate::encoder::lemma_every_rank(ranks->0@, n, k);
    strips_keep_the_longest_run(
        set,
        plane,
        width,
        i * each,
        strip_rows(h, each, i) as usize,
        i as u16,
        b,
    );
    lemma_some_kept(strips, order, b, n, k);
    lemma_ranked_stays(strips, order, b, n, k, n);
    lemma_ranked_stays(strips, order, b, n, k + 1, n);
    let w = ranked_written(strips, order, Some(b), k);
    let last = ranked_written(strips, order, Some(b), n);
    let headers = strip_headers(set, width as int, h, each, n);
    let behind = placeholders(last.kept, headers, n);
    let out = last.segments + behind;
    let m = w.segments.len() as int;
    assert(out.take(m) =~= w.segments);
    assert forall|a: int| 0 <= a < m implies exists|j: int|
        0 <= j < k && (#[trigger] all[j]).header.segment_index == (
        #[trigger] out[a]).header.segment_index by {
        assert(out[a] == w.segments[a]);
        let j = choose|j: int|
            0 <= j < k && #[trigger] order[j] == w.segments[a].header.segment_index;
        assert(all[j].header.segment_index == order[j]);
    }
    let next = ranked_written(strips, order, Some(b), k + 1);
    if stream_of(w.segments).len() + segment_stream(s).len() + 12 * (n - 1 - m) <= b {
        assert(next.segments[m] == s);
        assert(out[m] == next.segments[m]);
    } else {
        assert(next == w);
        if last.kept[i] {
            let j = choose|j: int| k + 1 <= j < n && #[trigger] order[j] == i;
            assert(order[k] != order[j]);
        }
        let j = lemma_stands_in(last.kept, headers, i, n);
        assert(out[last.segments.len() + j] == behind[j]);
        assert(out[last.segments.len() + j].header.segment_index == i);
    }
    (s, m)
}

// ---------------------------------------------------------------------------
// The order of segments
// ---------------------------------------------------------------------------

/// **Segments are written from the lowest rank on, and without ranks from the
/// lowest index on.** This holds of the strips of a plane as of the parts of a
/// transform.
pub proof fn segments_come_by_rank(
    set: Settings,
    ranks: Option<Vec<u16>>,
    plane: IcerPlane,
    width: usize,
    height: usize,
    k: int,
)
    requires
        plane_segments(set, ranks, plane, width, height, None) is Ok,
        0 <= k < set.segment_count,
        2 <= set.segment_count,
    ensures
        ({
            let all = plane_segments(set, ranks, plane, width, height, None)->Ok_0;
            &&& all.len() == set.segment_count
            &&& match ranks {
                None => all[k].header.segment_index == k,
                Some(v) => all[k].header.segment_index < v@.len()
                    && v@[all[k].header.segment_index as int] == k,
            }
        }),
{
    let n = set.count();
    let h = height as int;
    lemma_listed(set, ranks, plane, width, height);
    assert(!refused(set, ranks, width, height));
    let all = plane_segments(set, ranks, plane, width, height, None)->Ok_0;
    let order = emission_order(ranks, n)->Ok_0;
    assert(all[k] == piece(set, ranks, plane, width, height, k)->Ok_0);
    assert(piece(set, ranks, plane, width, height, k) is Ok);
    if !set.transform {
        let each = ceil_div(h, n);
        lemma_strip_index(
            set,
            plane,
            width,
            order[k] * each,
            strip_rows(h, each, order[k] as int) as usize,
            order[k],
            None,
        );
    }
    assert(all[k].header.segment_index == order[k]);
    if ranks is Some {
        crate::encoder::lemma_every_rank(ranks->0@, n, k);
    }
}

// ---------------------------------------------------------------------------
// Headers
// ---------------------------------------------------------------------------

/// A header says how a segment was encoded.
pub open spec fn says_how(h: SegmentHeader, set: Settings) -> bool {
    &&& h.sync_prefix == set.sync_prefix
    &&& h.filter == set.filter
    &&& h.decomp_levels == set.levels
    &&& h.transform_segmented == set.transform
    &&& h.total_segments == (if set.transform {
        set.count()
    } else {
        0
    })
    &&& set.uncompressed ==> h.uncompressed
    &&& h.uncompressed ==> set.uncompressed || set.fallback
    &&& h.interleaved_entropy == (set.interleaved && !h.uncompressed)
    &&& h.priority_interleaved == (set.priority && !h.uncompressed)
}

proof fn lemma_strip_says_how(
    set: Settings,
    plane: IcerPlane,
    width: usize,
    y0: int,
    height: usize,
    index: u16,
)
    requires
        !set.transform,
        strip_segment(set, plane, width, y0, height, index, None) is Ok,
        width <= 0xFFFF,
        height <= 0xFFFF,
    ensures
        ({
            let h = strip_segment(set, plane, width, y0, height, index, None)->Ok_0.header;
            says_how(h, set) && h.width == width && h.height == height
        }),
{
    reveal(strip_segment);
}

/// **Headers say how segments were encoded**: with which filter, how many
/// levels, which coder and which order, and whether as samples or in the
/// transform domain.
pub proof fn headers_say_how(
    set: Settings,
    ranks: Option<Vec<u16>>,
    plane: IcerPlane,
    width: usize,
    height: usize,
    k: int,
)
    requires
        plane_segments(set, ranks, plane, width, height, None) is Ok,
        0 <= k < set.count(),
    ensures
        ({
            let h = plane_segments(set, ranks, plane, width, height, None)->Ok_0[k].header;
            says_how(h, set) && h.width == width && (set.transform || set.count() == 1
                ==> h.height == height)
        }),
{
    let n = set.count();
    let h = height as int;
    lemma_listed(set, ranks, plane, width, height);
    assert(!refused(set, ranks, width, height));
    let all = plane_segments(set, ranks, plane, width, height, None)->Ok_0;
    assert(all[k] == piece(set, ranks, plane, width, height, k)->Ok_0);
    assert(piece(set, ranks, plane, width, height, k) is Ok);
    if !set.transform {
        if n == 1 {
            lemma_strip_says_how(set, plane, width, 0, height, 0);
        } else {
            let each = ceil_div(h, n);
            orders_are_rankings(ranks, n);
            let order = emission_order(ranks, n)->Ok_0;
            assert(0 <= order[k] < n);
            let rows = strip_rows(h, each, order[k] as int);
            lemma_rows_small(h, each, n, order[k] as int);
            lemma_strip_says_how(
                set,
                plane,
                width,
                order[k] * each,
                rows as usize,
                order[k],
            );
        }
    }
}

/// Strips are not higher than most of them.
proof fn lemma_rows_small(height: int, each: int, n: int, i: int)
    requires
        2 <= n,
        0 <= i < n,
        1 <= each <= 0xFFFF,
        0 < height,
        ceil_div(height, each) == n,
    ensures
        0 <= strip_rows(height, each, i) <= each,
{
    assert(i * each <= height) by (nonlinear_arith)
        requires
            0 <= i < n,
            1 <= each,
            0 < height,
            n == (height + each - 1) / each,
    ;
}

/// Without a budget a plane has as many segments as were asked for.
pub proof fn lemma_segment_count(
    set: Settings,
    ranks: Option<Vec<u16>>,
    plane: IcerPlane,
    width: usize,
    height: usize,
)
    requires
        plane_segments(set, ranks, plane, width, height, None) is Ok,
    ensures
        plane_segments(set, ranks, plane, width, height, None)->Ok_0.len() == set.count(),
{
    lemma_listed(set, ranks, plane, width, height);
}

} // verus!
