//! A loss stays within its segment: segments that arrived decode to what they
//! decode to in a complete stream, wherever others are missing.

use crate::assemble::{received_of, some_misfit, strips_joined, strips_partial, strips_placed};
use crate::decoder::in_index_order;
use crate::error::Fault;
use crate::header::{Segment, SegmentHeader};
use crate::merge::{ll_partition, merged, window_at};
use crate::partition::segment_map;
use crate::sizes::strips_have_their_size;
use crate::strip::{depth_in_range, flat_bytes, sample_size, segment_coeffs, segment_size, strip_decoded};
use vstd::prelude::*;

verus! {

// ---------------------------------------------------------------------------
// Strips
// ---------------------------------------------------------------------------

/// What stands for strip `j`.
spec fn piece(strips: Seq<Option<Seq<u8>>>, flat: Seq<u8>, j: int) -> Seq<u8> {
    match strips[j] {
        Some(data) => data,
        None => flat,
    }
}

proof fn lemma_joined_grow(strips: Seq<Option<Seq<u8>>>, flat: Seq<u8>, j: int, k: int)
    requires
        0 <= j <= k,
    ensures
        strips_joined(strips, flat, j).len() <= strips_joined(strips, flat, k).len(),
        strips_joined(strips, flat, k).take(strips_joined(strips, flat, j).len() as int)
            == strips_joined(strips, flat, j),
    decreases k,
{
    let a = strips_joined(strips, flat, j);
    let b = strips_joined(strips, flat, k);
    if j < k {
        lemma_joined_grow(strips, flat, j, k - 1);
        let c = strips_joined(strips, flat, k - 1);
        assert(b.take(a.len() as int) =~= c.take(a.len() as int));
    } else {
        assert(b.take(a.len() as int) =~= a);
    }
}

proof fn lemma_joined_size(strips: Seq<Option<Seq<u8>>>, flat: Seq<u8>, each: int, k: int)
    requires
        0 <= k,
        forall|j: int| 0 <= j < k ==> (#[trigger] piece(strips, flat, j)).len() == each,
    ensures
        strips_joined(strips, flat, k).len() == k * each,
    decreases k,
{
    if k > 0 {
        lemma_joined_size(strips, flat, each, k - 1);
        assert(piece(strips, flat, k - 1).len() == each);
        assert((k - 1) * each + each == k * each) by (nonlinear_arith);
    } else {
        assert(0 * each == 0);
    }
}

/// Each piece stands behind those before it.
proof fn lemma_piece_place(strips: Seq<Option<Seq<u8>>>, flat: Seq<u8>, each: int, j: int, k: int)
    requires
        0 <= j < k,
        each >= 0,
        forall|i: int| 0 <= i < j ==> (#[trigger] piece(strips, flat, i)).len() == each,
    ensures
        ({
            let all = strips_joined(strips, flat, k);
            let p = piece(strips, flat, j);
            &&& 0 <= j * each
            &&& j * each + p.len() <= all.len()
            &&& all.subrange(j * each, j * each + p.len()) == p
        }),
{
    lemma_joined_size(strips, flat, each, j);
    lemma_joined_grow(strips, flat, j + 1, k);
    let all = strips_joined(strips, flat, k);
    let first = strips_joined(strips, flat, j + 1);
    let p = piece(strips, flat, j);
    assert(first == strips_joined(strips, flat, j) + p);
    assert(0 <= j * each) by (nonlinear_arith)
        requires
            0 <= j,
            0 <= each,
    ;
    assert(all.subrange(j * each, j * each + p.len()) =~= p) by {
        assert forall|i: int| 0 <= i < p.len() implies all[j * each + i] == p[i] by {
            assert(all.take(first.len() as int)[j * each + i] == first[j * each + i]);
        }
    }
}

/// Segment `j` is the last of that index among the first `k`.
pub open spec fn is_last(s: Seq<Segment>, index: int, j: int, k: int) -> bool {
    &&& 0 <= j < k
    &&& s[j].header.segment_index == index
    &&& forall|m: int| j < m < k ==> (#[trigger] s[m]).header.segment_index != index
}

/// A segment of that index is among the first `k`.
pub open spec fn is_among(s: Seq<Segment>, index: int, k: int) -> bool {
    exists|j: int| 0 <= j < k && (#[trigger] s[j]).header.segment_index == index
}

/// What the places hold after `k` segments.
spec fn places_hold(s: Seq<Segment>, bits: u8, strips: Seq<Option<Seq<u8>>>, k: int) -> bool {
    let last = s.last().header.segment_index;
    &&& strips.len() == last + 1
    &&& forall|j: int|
        0 <= j <= last ==> ((#[trigger] strips[j]) is Some <==> is_among(s, j, k))
    &&& forall|j: int|
        0 <= j < last && (#[trigger] strips[j]) is Some ==> strips[j]->0.len() == segment_size(
            s[0].header,
            bits,
        )
    &&& forall|index: int, i: int| #[trigger]
        is_last(s, index, i, k) ==> strip_decoded(s[i], bits) is Ok && strips[index] == Some(
            strip_decoded(s[i], bits)->Ok_0,
        )
}

proof fn lemma_places(s: Seq<Segment>, bits: u8, k: int)
    requires
        0 <= k <= s.len(),
        s.len() > 0,
        depth_in_range(bits),
        in_index_order(s),
        !some_misfit(s),
        forall|i: int| 0 <= i < s.len() ==> (#[trigger] s[i]).header.valid(),
        strips_placed(s, bits, k) is Ok,
    ensures
        places_hold(s, bits, strips_placed(s, bits, k)->Ok_0, k),
    decreases k,
{
    let strips = strips_placed(s, bits, k)->Ok_0;
    if k > 0 {
        lemma_places(s, bits, k - 1);
        let before = strips_placed(s, bits, k - 1)->Ok_0;
        let h = s[k - 1].header;
        let index = h.segment_index as int;
        let last = s.last().header.segment_index;
        assert(s[k - 1].header.segment_index <= s[s.len() - 1].header.segment_index);
        assert(h.valid());
        strips_have_their_size(s[k - 1], bits);
        assert(h.width == s[0].header.width);
        let data = strip_decoded(s[k - 1], bits)->Ok_0;
        assert(strips == before.update(index, Some(data)));
        assert forall|j: int| 0 <= j <= last implies ((#[trigger] strips[j]) is Some <==> is_among(
            s,
            j,
            k,
        )) by {
            assert(before[j] is Some <==> is_among(s, j, k - 1));
            if j == index {
                assert(s[k - 1].header.segment_index == j);
            }
            if is_among(s, j, k - 1) {
                let i = choose|i: int|
                    0 <= i < k - 1 && (#[trigger] s[i]).header.segment_index == j;
                assert(s[i].header.segment_index == j);
            }
        }
        assert forall|j: int| 0 <= j < last && (#[trigger] strips[j]) is Some implies strips[j]->0.len()
            == segment_size(s[0].header, bits) by {
            if j != index {
                assert(before[j] is Some);
            }
        }
        assert forall|at: int, i: int| #[trigger] is_last(s, at, i, k) implies strip_decoded(
            s[i],
            bits,
        ) is Ok && strips[at] == Some(strip_decoded(s[i], bits)->Ok_0) by {
            if i < k - 1 {
                assert(s[k - 1].header.segment_index != at);
                assert(is_last(s, at, i, k - 1));
                assert(s[i].header.segment_index <= s[s.len() - 1].header.segment_index);
            }
        }
    }
}

pub proof fn lemma_received(s: Seq<Segment>, n: int, k: int)
    requires
        0 <= k <= s.len(),
        0 <= n,
        forall|i: int| 0 <= i < s.len() ==> (#[trigger] s[i]).header.segment_index < n,
    ensures
        received_of(s, n, k).len() == n,
        forall|j: int|
            0 <= j < n ==> (#[trigger] received_of(s, n, k)[j] <==> is_among(s, j, k)),
    decreases k,
{
    if k > 0 {
        lemma_received(s, n, k - 1);
        let before = received_of(s, n, k - 1);
        let after = received_of(s, n, k);
        let index = s[k - 1].header.segment_index as int;
        assert forall|j: int| 0 <= j < n implies (#[trigger] after[j] <==> is_among(s, j, k)) by {
            assert(before[j] <==> is_among(s, j, k - 1));
            if j == index {
                assert(s[k - 1].header.segment_index == j);
            }
            if is_among(s, j, k - 1) {
                let i = choose|i: int|
                    0 <= i < k - 1 && (#[trigger] s[i]).header.segment_index == j;
                assert(s[i].header.segment_index == j);
            }
        }
    }
}

proof fn lemma_pieces(s: Seq<Segment>, bits: u8)
    requires
        s.len() > 0,
        depth_in_range(bits),
        in_index_order(s),
        forall|i: int| 0 <= i < s.len() ==> (#[trigger] s[i]).header.valid(),
        strips_partial(s, bits) is Ok,
    ensures
        ({
            let strips = strips_placed(s, bits, s.len() as int)->Ok_0;
            let first = s[0].header;
            let flat = flat_bytes(first.width * first.height, bits);
            let last = s.last().header.segment_index;
            &&& places_hold(s, bits, strips, s.len() as int)
            &&& segment_size(first, bits) >= 0
            &&& flat.len() == segment_size(first, bits)
            &&& forall|j: int|
                0 <= j < last ==> (#[trigger] piece(strips, flat, j)).len() == segment_size(
                    first,
                    bits,
                )
            &&& forall|j: int|
                0 <= j <= last ==> (#[trigger] strips_partial(s, bits)->Ok_0.received[j]
                    <==> is_among(s, j, s.len() as int))
        }),
{
    let n = s.len() as int;
    let strips = strips_placed(s, bits, n)->Ok_0;
    let first = s[0].header;
    let flat = flat_bytes(first.width * first.height, bits);
    let last = s.last().header.segment_index;
    lemma_places(s, bits, n);
    assert(first.width * first.height >= 0 && first.width * first.height * sample_size(bits) >= 0)
        by (nonlinear_arith)
        requires
            first.width >= 0,
            first.height >= 0,
            sample_size(bits) >= 0,
    ;
    assert forall|j: int| 0 <= j < last implies (#[trigger] piece(strips, flat, j)).len()
        == segment_size(first, bits) by {
        assert(strips[j] is Some ==> strips[j]->0.len() == segment_size(first, bits));
    }
    assert forall|i: int| 0 <= i < s.len() implies (#[trigger] s[i]).header.segment_index < last
        + 1 by {
        assert(s[i].header.segment_index <= s[s.len() - 1].header.segment_index);
    }
    lemma_received(s, last + 1, n);
}

/// **A strip that arrived is in its place and reported, whatever else is
/// missing.** Of strips of one index the last counts.
pub proof fn received_strips_keep_their_rows(s: Seq<Segment>, bits: u8, i: int)
    requires
        depth_in_range(bits),
        in_index_order(s),
        forall|j: int| 0 <= j < s.len() ==> (#[trigger] s[j]).header.valid(),
        strips_partial(s, bits) is Ok,
        0 <= i < s.len(),
        forall|j: int|
            i < j < s.len() ==> (#[trigger] s[j]).header.segment_index
                != s[i].header.segment_index,
    ensures
        ({
            let p = strips_partial(s, bits)->Ok_0;
            let index = s[i].header.segment_index as int;
            let at = index * segment_size(s[0].header, bits);
            let rows = strip_decoded(s[i], bits)->Ok_0;
            &&& strip_decoded(s[i], bits) is Ok
            &&& p.received[index]
            &&& 0 <= at
            &&& at + rows.len() <= p.picture.data.len()
            &&& p.picture.data.subrange(at, at + rows.len()) == rows
        }),
{
    let n = s.len() as int;
    lemma_pieces(s, bits);
    let strips = strips_placed(s, bits, n)->Ok_0;
    let first = s[0].header;
    let flat = flat_bytes(first.width * first.height, bits);
    let index = s[i].header.segment_index as int;
    assert(s[i].header.segment_index <= s[n - 1].header.segment_index);
    assert(is_last(s, index, i, n));
    assert(piece(strips, flat, index) == strip_decoded(s[i], bits)->Ok_0);
    assert(is_among(s, index, n));
    lemma_piece_place(
        strips,
        flat,
        segment_size(first, bits),
        index,
        s.last().header.segment_index + 1,
    );
}

/// **Samples in the middle of their range stand for a strip that is missing,
/// and it is reported.**
pub proof fn missing_strips_are_flat(s: Seq<Segment>, bits: u8, k: int)
    requires
        s.len() > 0,
        depth_in_range(bits),
        in_index_order(s),
        forall|j: int| 0 <= j < s.len() ==> (#[trigger] s[j]).header.valid(),
        strips_partial(s, bits) is Ok,
        0 <= k < s.last().header.segment_index,
        forall|j: int|
            0 <= j < s.len() ==> (#[trigger] s[j]).header.segment_index != k,
    ensures
        ({
            let p = strips_partial(s, bits)->Ok_0;
            let first = s[0].header;
            let each = segment_size(first, bits);
            &&& !p.received[k]
            &&& 0 <= k * each
            &&& k * each + each <= p.picture.data.len()
            &&& p.picture.data.subrange(k * each, k * each + each) == flat_bytes(
                first.width * first.height,
                bits,
            )
        }),
{
    let n = s.len() as int;
    lemma_pieces(s, bits);
    let strips = strips_placed(s, bits, n)->Ok_0;
    let first = s[0].header;
    let flat = flat_bytes(first.width * first.height, bits);
    assert(!is_among(s, k, n));
    assert(strips[k] is None);
    assert(piece(strips, flat, k) == flat);
    lemma_piece_place(
        strips,
        flat,
        segment_size(first, bits),
        k,
        s.last().header.segment_index + 1,
    );
}

// ---------------------------------------------------------------------------
// Parts of a transform
// ---------------------------------------------------------------------------

/// Which part of a transform each coefficient belongs to.
pub open spec fn parts_map(first: SegmentHeader) -> Seq<u16> {
    let (w, h, levels) = (first.width as int, first.height as int, first.decomp_levels as int);
    segment_map(ll_partition(w, h, levels, first.total_segments as int), w, h, levels)
}

/// The coefficients that a part of a transform carries.
pub open spec fn part_carries(first: SegmentHeader, s: Segment) -> core::result::Result<
    Seq<i32>,
    Fault,
> {
    let (w, h, levels) = (first.width as int, first.height as int, first.decomp_levels as int);
    let p = ll_partition(w, h, levels, first.total_segments as int);
    let index = s.header.segment_index;
    segment_coeffs(
        s,
        Some((parts_map(first), index)),
        Some(window_at(p, index as int, w, h, levels)),
    )
}

/// **Each coefficient comes of its own part, whatever else is missing**: it is
/// 0 where that part is missing. Of parts of one index the last counts.
pub proof fn parts_do_not_mix(first: SegmentHeader, s: Seq<Segment>, k: int, i: int)
    requires
        0 <= k <= s.len(),
        0 <= i < first.width * first.height,
        merged(first, s, k) is Ok,
    ensures
        ({
            let index = parts_map(first)[i] as int;
            &&& !is_among(s, index, k) ==> merged(first, s, k)->Ok_0[i] == 0
            &&& forall|j: int| #[trigger]
                is_last(s, index, j, k) ==> part_carries(first, s[j]) is Ok && merged(
                    first,
                    s,
                    k,
                )->Ok_0[i] == part_carries(first, s[j])->Ok_0[i]
        }),
    decreases k,
{
    if k > 0 {
        let index = parts_map(first)[i] as int;
        parts_do_not_mix(first, s, k - 1, i);
        let after = merged(first, s, k)->Ok_0;
        if !is_among(s, index, k) {
            assert(s[k - 1].header.segment_index != index);
            if is_among(s, index, k - 1) {
                let j = choose|j: int|
                    0 <= j < k - 1 && (#[trigger] s[j]).header.segment_index == index;
                assert(s[j].header.segment_index == index);
            }
        }
        assert forall|j: int| #[trigger] is_last(s, index, j, k) implies part_carries(
            first,
            s[j],
        ) is Ok && after[i] == part_carries(first, s[j])->Ok_0[i] by {
            if j < k - 1 {
                assert(s[k - 1].header.segment_index != index);
                assert(is_last(s, index, j, k - 1));
            }
        }
    }
}

} // verus!
