//! Segments of lower rank come first.

use crate::compress::Settings;
use crate::encoder::{at_rank, is_ranking, lemma_every_rank, ranked_written};
use crate::header::Segment;
use crate::parts::{left_of, part_segment, parts_written, reserve_of};
use crate::emit::stream_of;
use vstd::prelude::*;

verus! {

/// The place of the segment with index `v` in an order.
pub open spec fn place_of(order: Seq<u16>, v: int) -> int {
    at_rank(order, v)
}

/// Segments stand in an order.
pub open spec fn in_order(segments: Seq<Segment>, order: Seq<u16>) -> bool {
    forall|a: int, b: int|
        0 <= a < b < segments.len() ==> place_of(
            order,
            (#[trigger] segments[a]).header.segment_index as int,
        ) < place_of(order, (#[trigger] segments[b]).header.segment_index as int)
}

/// Segments are among the first `k` of an order.
spec fn among_first(segments: Seq<Segment>, order: Seq<u16>, k: int) -> bool {
    forall|a: int|
        0 <= a < segments.len() ==> place_of(
            order,
            (#[trigger] segments[a]).header.segment_index as int,
        ) < k
}

/// Every index has its own place.
proof fn lemma_own_place(order: Seq<u16>, n: int, k: int)
    requires
        is_ranking(order, n),
        0 <= k < n,
    ensures
        place_of(order, order[k] as int) == k,
{
    let v = order[k] as int;
    lemma_every_rank(order, n, v);
    let j = at_rank(order, v);
    if j < k {
        assert(order[j] != order[k]);
    } else if k < j {
        assert(order[k] != order[j]);
    }
}

proof fn lemma_ranked(strips: Seq<Segment>, order: Seq<u16>, budget: Option<u64>, n: int, k: int)
    requires
        strips.len() == n,
        is_ranking(order, n),
        forall|i: int| 0 <= i < n ==> (#[trigger] strips[i]).header.segment_index == i,
        0 <= k <= n,
    ensures
        in_order(ranked_written(strips, order, budget, k).segments, order),
        among_first(ranked_written(strips, order, budget, k).segments, order, k),
    decreases k,
{
    if k > 0 {
        lemma_ranked(strips, order, budget, n, k - 1);
        lemma_own_place(order, n, k - 1);
        let i = order[k - 1] as int;
        assert(strips[i].header.segment_index == i);
    }
}

/// **Ranked strips are written from the lowest rank on**, whichever of them a
/// budget leaves out.
pub proof fn ranked_strips_come_by_rank(strips: Seq<Segment>, order: Seq<u16>, budget: Option<u64>)
    requires
        is_ranking(order, strips.len() as int),
        forall|i: int|
            0 <= i < strips.len() ==> (#[trigger] strips[i]).header.segment_index == i,
    ensures
        in_order(
            ranked_written(strips, order, budget, strips.len() as int).segments,
            order,
        ),
{
    lemma_ranked(strips, order, budget, strips.len() as int, strips.len() as int);
}

proof fn lemma_parts(
    set: Settings,
    coeffs: Seq<i32>,
    width: usize,
    height: usize,
    total: u8,
    order: Seq<u16>,
    budget: Option<u64>,
    k: int,
)
    requires
        is_ranking(order, total as int),
        0 <= k <= total,
        parts_written(set, coeffs, width, height, total, order, budget, k) is Ok,
    ensures
        in_order(
            parts_written(set, coeffs, width, height, total, order, budget, k)->Ok_0.segments,
            order,
        ),
        among_first(
            parts_written(set, coeffs, width, height, total, order, budget, k)->Ok_0.segments,
            order,
            k,
        ),
    decreases k,
{
    if k > 0 {
        lemma_parts(set, coeffs, width, height, total, order, budget, k - 1);
        lemma_own_place(order, total as int, k - 1);
        let w = parts_written(set, coeffs, width, height, total, order, budget, k - 1)->Ok_0;
        let i = order[k - 1];
        let inner = match budget {
            Some(b) => Some(
                left_of(
                    b as int,
                    stream_of(w.segments).len() as int,
                    reserve_of(w.kept, i as int),
                ) as u64,
            ),
            None => None,
        };
        let s = part_segment(set, coeffs, width, height, i, total, inner)->Ok_0;
        assert(s.header.segment_index == i);
    }
}

/// **Parts of a transform are written from the lowest rank on**, whichever of
/// them a budget leaves out.
pub proof fn parts_come_by_rank(
    set: Settings,
    coeffs: Seq<i32>,
    width: usize,
    height: usize,
    total: u8,
    order: Seq<u16>,
    budget: Option<u64>,
)
    requires
        is_ranking(order, total as int),
        parts_written(set, coeffs, width, height, total, order, budget, total as int) is Ok,
    ensures
        in_order(
            parts_written(
                set,
                coeffs,
                width,
                height,
                total,
                order,
                budget,
                total as int,
            )->Ok_0.segments,
            order,
        ),
{
    lemma_parts(set, coeffs, width, height, total, order, budget, total as int);
}

} // verus!
