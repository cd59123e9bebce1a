//! Segments that come in another order.

use crate::assemble::{parts_fault, plane_decoded, plane_partial, strips_fault};
use crate::bytes::be16;
use crate::decoder::{by_index, counted, image_decoded, image_partial, in_index_order, ordering_permutes, pixels_of, segment_bytes, segments_from, stream_segments, DecodeLimits};
use crate::error::Fault;
use crate::header::{packet_header, packets_between, segment_at_start, segment_header, Segment, SegmentHeader};
use crate::plane_container::starts_container;
use vstd::prelude::*;

verus! {

// ---------------------------------------------------------------------------
// Segments as byte strings
// ---------------------------------------------------------------------------

/// A byte string that is one segment from its first byte to its last.
pub open spec fn framed(piece: Seq<u8>) -> bool {
    segment_at_start(piece) is Ok && piece.len() == segment_bytes(segment_at_start(piece)->Ok_0)
}

/// Every piece is one segment.
pub open spec fn all_framed(pieces: Seq<Seq<u8>>) -> bool {
    forall|i: int| 0 <= i < pieces.len() ==> framed(#[trigger] pieces[i])
}

/// The segments of pieces.
pub open spec fn segments_in(pieces: Seq<Seq<u8>>) -> Seq<Segment> {
    Seq::new(pieces.len(), |i: int| segment_at_start(pieces[i])->Ok_0)
}

proof fn lemma_packets_local(piece: Seq<u8>, rest: Seq<u8>, cursor: int, end: int)
    requires
        end <= piece.len(),
        packets_between(piece, cursor, end) is Ok,
    ensures
        packets_between(piece + rest, cursor, end) == packets_between(piece, cursor, end),
    decreases end - cursor,
{
    if 0 <= cursor < end {
        let all = piece + rest;
        let own = piece.skip(cursor);
        let more = all.skip(cursor);
        assert(packet_header(own) is Ok);
        assert(own.len() >= 4);
        assert(more[0] == own[0] && more[1] == own[1] && more[2] == own[2] && more[3] == own[3]);
        assert(packet_header(more) == packet_header(own));
        let stop = cursor + 4 + packet_header(own)->Ok_0.body_length;
        assert(all.subrange(cursor + 4, stop) =~= piece.subrange(cursor + 4, stop));
        lemma_packets_local(piece, rest, stop, end);
    }
}

/// What follows a segment does not matter.
pub proof fn lemma_segment_local(piece: Seq<u8>, rest: Seq<u8>)
    requires
        framed(piece),
    ensures
        segment_at_start(piece + rest) == segment_at_start(piece),
        piece.len() >= 12,
        !(piece[0] == 0 && piece[1] == 0),
{
    let all = piece + rest;
    assert(segment_header(piece) is Ok);
    assert(forall|i: int| 0 <= i < 12 ==> all[i] == piece[i]);
    assert(be16(all, 0) == be16(piece, 0));
    assert(be16(all, 3) == be16(piece, 3));
    assert(be16(all, 5) == be16(piece, 5));
    assert(be16(all, 8) == be16(piece, 8));
    assert(be16(all, 10) == be16(piece, 10));
    assert(all[2] == piece[2] && all[7] == piece[7] && all[10] == piece[10] && all[11]
        == piece[11]);
    assert(segment_header(all) == segment_header(piece));
    let end = 12 + segment_header(piece)->Ok_0.segment_length;
    lemma_packets_local(piece, rest, 12, end);
}

// ---------------------------------------------------------------------------
// Limits
// ---------------------------------------------------------------------------

/// Number of samples of all segments.
pub open spec fn pixels_in(segments: Seq<Segment>) -> int
    decreases segments.len(),
{
    if segments.len() == 0 {
        0
    } else {
        pixels_of(segments[0].header) + pixels_in(segments.drop_first())
    }
}

/// No segment is too large.
pub open spec fn none_too_large(segments: Seq<Segment>, limits: DecodeLimits) -> bool {
    forall|i: int|
        0 <= i < segments.len() ==> pixels_of((#[trigger] segments[i]).header)
            <= limits.max_pixels_per_segment
}

pub proof fn lemma_pixels_positive(h: SegmentHeader)
    ensures
        pixels_of(h) >= 0,
{
    assert(h.width * h.height >= 0) by (nonlinear_arith)
        requires
            h.width >= 0,
            h.height >= 0,
    ;
}

proof fn lemma_pixels_sum(segments: Seq<Segment>)
    ensures
        pixels_in(segments) >= 0,
    decreases segments.len(),
{
    if segments.len() > 0 {
        lemma_pixels_positive(segments[0].header);
        lemma_pixels_sum(segments.drop_first());
    }
}

pub proof fn lemma_pixels_remove(segments: Seq<Segment>, j: int)
    requires
        0 <= j < segments.len(),
    ensures
        pixels_in(segments) == pixels_of(segments[j].header) + pixels_in(segments.remove(j)),
    decreases segments.len(),
{
    if j == 0 {
        assert(segments.remove(0) =~= segments.drop_first());
    } else {
        let rest = segments.drop_first();
        lemma_pixels_remove(rest, j - 1);
        let less = segments.remove(j);
        assert(less.drop_first() =~= rest.remove(j - 1));
        assert(less[0] == segments[0]);
    }
}

/// Where the first element of one order stands in another.
proof fn lemma_first_elsewhere<A>(a: Seq<A>, b: Seq<A>) -> (j: int)
    requires
        a.len() > 0,
        a.to_multiset() == b.to_multiset(),
    ensures
        0 <= j < b.len(),
        b[j] == a[0],
        a.drop_first().to_multiset() == b.remove(j).to_multiset(),
        a.len() == b.len(),
{
    broadcast use vstd::seq_lib::group_to_multiset_ensures;

    assert(a.contains(a[0]));
    assert(a.to_multiset().count(a[0]) > 0);
    assert(b.contains(a[0]));
    let j = b.index_of(a[0]);
    assert(a.drop_first() =~= a.remove(0));
    assert(a.len() == a.to_multiset().len() && b.len() == b.to_multiset().len());
    j
}

proof fn lemma_pixels_permute(a: Seq<Segment>, b: Seq<Segment>)
    requires
        a.to_multiset() == b.to_multiset(),
    ensures
        pixels_in(a) == pixels_in(b),
        a.len() == b.len(),
    decreases a.len(),
{
    broadcast use vstd::seq_lib::group_to_multiset_ensures;

    assert(a.len() == a.to_multiset().len() && b.len() == b.to_multiset().len());
    if a.len() > 0 {
        let j = lemma_first_elsewhere(a, b);
        lemma_pixels_remove(b, j);
        lemma_pixels_permute(a.drop_first(), b.remove(j));
    }
}

proof fn lemma_large_permute(a: Seq<Segment>, b: Seq<Segment>, limits: DecodeLimits)
    requires
        a.to_multiset() == b.to_multiset(),
        none_too_large(a, limits),
    ensures
        none_too_large(b, limits),
{
    broadcast use vstd::seq_lib::group_to_multiset_ensures;

    assert forall|i: int| 0 <= i < b.len() implies pixels_of((#[trigger] b[i]).header)
        <= limits.max_pixels_per_segment by {
        assert(b.contains(b[i]));
        assert(b.to_multiset().count(b[i]) > 0);
        assert(a.contains(b[i]));
        let j = a.index_of(b[i]);
        assert(a[j] == b[i]);
    }
}

proof fn lemma_segments_permute(a: Seq<Seq<u8>>, b: Seq<Seq<u8>>)
    requires
        a.to_multiset() == b.to_multiset(),
    ensures
        segments_in(a).to_multiset() == segments_in(b).to_multiset(),
    decreases a.len(),
{
    broadcast use vstd::seq_lib::group_to_multiset_ensures;

    assert(a.len() == a.to_multiset().len() && b.len() == b.to_multiset().len());
    if a.len() == 0 {
        assert(segments_in(a) =~= segments_in(b));
    } else {
        let j = lemma_first_elsewhere(a, b);
        lemma_segments_permute(a.drop_first(), b.remove(j));
        let (x, y) = (segments_in(a), segments_in(b));
        assert(x.remove(0) =~= segments_in(a.drop_first()));
        assert(y.remove(j) =~= segments_in(b.remove(j)));
        assert(x[0] == y[j]);
        assert(x.contains(x[0]) && y.contains(y[j]));
        assert(x.to_multiset().count(x[0]) > 0 && y.to_multiset().count(y[j]) > 0);
        assert(x.to_multiset() =~= x.remove(0).to_multiset().insert(x[0]));
        assert(y.to_multiset() =~= y.remove(j).to_multiset().insert(y[j]));
    }
}

proof fn lemma_framed_permute(a: Seq<Seq<u8>>, b: Seq<Seq<u8>>)
    requires
        a.to_multiset() == b.to_multiset(),
        all_framed(a),
    ensures
        all_framed(b),
{
    broadcast use vstd::seq_lib::group_to_multiset_ensures;

    assert forall|i: int| 0 <= i < b.len() implies framed(#[trigger] b[i]) by {
        assert(b.contains(b[i]));
        assert(b.to_multiset().count(b[i]) > 0);
        assert(a.contains(b[i]));
        let j = a.index_of(b[i]);
        assert(framed(a[j]));
    }
}

// ---------------------------------------------------------------------------
// Reading
// ---------------------------------------------------------------------------

/// Pieces behind other bytes read as their segments, where the limits allow it.
pub proof fn lemma_pieces_read(
    before: Seq<u8>,
    pieces: Seq<Seq<u8>>,
    total: int,
    limits: DecodeLimits,
)
    requires
        all_framed(pieces),
        0 <= total <= limits.max_total_pixels,
    ensures
        ({
            let r = segments_from(
                before + pieces.flatten(),
                before.len() as int,
                total,
                limits,
            );
            let s = segments_in(pieces);
            &&& r is Ok <==> none_too_large(s, limits) && total + pixels_in(s)
                <= limits.max_total_pixels
            &&& r is Ok ==> r->Ok_0 == s
        }),
    decreases pieces.len(),
{
    let bytes = before + pieces.flatten();
    let cursor = before.len() as int;
    let s = segments_in(pieces);
    if pieces.len() == 0 {
        assert(s =~= Seq::empty());
    } else {
        let piece = pieces[0];
        let rest = pieces.drop_first();
        assert(framed(piece));
        lemma_segment_local(piece, rest.flatten());
        assert(bytes.skip(cursor) =~= piece + rest.flatten());
        assert(all_framed(rest)) by {
            assert forall|i: int| 0 <= i < rest.len() implies framed(#[trigger] rest[i]) by {
                assert(framed(pieces[i + 1]));
            }
        }
        let x = s[0];
        assert(segment_at_start(bytes.skip(cursor)) == Ok::<Segment, Fault>(x));
        assert(s.drop_first() =~= segments_in(rest));
        lemma_pixels_positive(x.header);
        lemma_pixels_sum(segments_in(rest));
        assert(none_too_large(s, limits) <==> pixels_of(x.header) <= limits.max_pixels_per_segment
            && none_too_large(segments_in(rest), limits)) by {
            if pixels_of(x.header) <= limits.max_pixels_per_segment && none_too_large(
                segments_in(rest),
                limits,
            ) {
                assert forall|i: int| 0 <= i < s.len() implies pixels_of((#[trigger] s[i]).header)
                    <= limits.max_pixels_per_segment by {
                    if i > 0 {
                        assert(s[i] == segments_in(rest)[i - 1]);
                    }
                }
            }
            if none_too_large(s, limits) {
                assert forall|i: int| 0 <= i < rest.len() implies pixels_of(
                    (#[trigger] segments_in(rest)[i]).header,
                ) <= limits.max_pixels_per_segment by {
                    assert(s[i + 1] == segments_in(rest)[i]);
                }
            }
        }
        let n = total + pixels_of(x.header);
        if pixels_of(x.header) <= limits.max_pixels_per_segment && n <= limits.max_total_pixels {
            lemma_pieces_read(before + piece, rest, n, limits);
            assert((before + piece) + rest.flatten() =~= bytes);
            assert(counted(total, pixels_of(x.header), limits) == Ok::<int, Fault>(n));
            assert(seq![x] + segments_in(rest) =~= s);
        } else {
            assert(segments_from(bytes, cursor, total, limits) is Err);
        }
    }
}

// ---------------------------------------------------------------------------
// Ordering
// ---------------------------------------------------------------------------

/// No two segments have the same index.
pub open spec fn indices_differ(s: Seq<Segment>) -> bool {
    forall|i: int, j: int|
        0 <= i < j < s.len() ==> (#[trigger] s[i]).header.segment_index != (
        #[trigger] s[j]).header.segment_index
}

/// There is one order by index.
pub proof fn lemma_order_is_one(a: Seq<Segment>, b: Seq<Segment>)
    requires
        in_index_order(a),
        in_index_order(b),
        indices_differ(a),
        a.to_multiset() == b.to_multiset(),
    ensures
        a == b,
    decreases a.len(),
{
    broadcast use vstd::seq_lib::group_to_multiset_ensures;

    assert(a.len() == a.to_multiset().len() && b.len() == b.to_multiset().len());
    if a.len() == 0 {
        assert(a =~= b);
    } else {
        let n = a.len() as int;
        let (x, y) = (a.last(), b.last());
        assert(a.contains(x) && b.contains(y));
        assert(a.to_multiset().count(x) > 0 && b.to_multiset().count(y) > 0);
        assert(b.contains(x) && a.contains(y));
        let j = b.index_of(x);
        let i = a.index_of(y);
        assert(b[j].header.segment_index <= b[n - 1].header.segment_index);
        assert(a[i].header.segment_index <= a[n - 1].header.segment_index);
        assert(i == n - 1);
        assert(a.drop_last() =~= a.remove(n - 1));
        assert(b.drop_last() =~= b.remove(n - 1));
        lemma_order_is_one(a.drop_last(), b.drop_last());
        assert(a =~= a.drop_last().push(x));
        assert(b =~= b.drop_last().push(y));
    }
}

proof fn lemma_index_permute(a: Seq<Segment>, b: Seq<Segment>)
    requires
        indices_differ(by_index(a)),
        a.to_multiset() == b.to_multiset(),
    ensures
        by_index(a) == by_index(b),
{
    ordering_permutes(a);
    ordering_permutes(b);
    lemma_order_is_one(by_index(a), by_index(b));
}

/// Indices that differ do so in any order.
proof fn lemma_differ_permute(a: Seq<Segment>, b: Seq<Segment>)
    requires
        indices_differ(a),
        a.to_multiset() == b.to_multiset(),
    ensures
        indices_differ(b),
    decreases a.len(),
{
    broadcast use vstd::seq_lib::group_to_multiset_ensures;

    assert(a.len() == a.to_multiset().len() && b.len() == b.to_multiset().len());
    if a.len() > 0 {
        let k = lemma_first_elsewhere(a, b);
        let (rest, less) = (a.drop_first(), b.remove(k));
        assert(indices_differ(rest)) by {
            assert forall|i: int, j: int| 0 <= i < j < rest.len() implies (
            #[trigger] rest[i]).header.segment_index != (
            #[trigger] rest[j]).header.segment_index by {
                assert(a[i + 1].header.segment_index != a[j + 1].header.segment_index);
            }
        }
        lemma_differ_permute(rest, less);
        assert forall|i: int| 0 <= i < b.len() && i != k implies (
        #[trigger] b[i]).header.segment_index != a[0].header.segment_index by {
            let x = b[i];
            let at: int = if i < k {
                i
            } else {
                i - 1
            };
            assert(less[at] == x);
            assert(less.contains(x));
            assert(less.to_multiset().count(x) > 0);
            assert(rest.contains(x));
            let j = rest.index_of(x);
            assert(a[j + 1] == x);
        }
        assert forall|i: int, j: int| 0 <= i < j < b.len() implies (
        #[trigger] b[i]).header.segment_index != (#[trigger] b[j]).header.segment_index by {
            if i != k && j != k {
                let x: int = if i < k {
                    i
                } else {
                    i - 1
                };
                let y: int = if j < k {
                    j
                } else {
                    j - 1
                };
                assert(less[x] == b[i] && less[y] == b[j]);
            }
        }
    }
}

proof fn lemma_strips_numbered(s: Seq<Segment>, k: int, n: int)
    requires
        1 <= k <= n,
        strips_fault(s, n) is None,
    ensures
        s[k - 1].header.segment_index == k - 1,
    decreases n,
{
    if n > k {
        lemma_strips_numbered(s, k, n - 1);
    }
}

proof fn lemma_parts_numbered(s: Seq<Segment>, k: int, n: int)
    requires
        1 <= k <= n,
        parts_fault(s, true, n) is None,
    ensures
        s[k - 1].header.segment_index == k - 1,
    decreases n,
{
    if n > k {
        lemma_parts_numbered(s, k, n - 1);
    }
}

/// Pieces in two orders have the same segments in the order of their index.
proof fn lemma_pieces_permute(a: Seq<Seq<u8>>, b: Seq<Seq<u8>>, limits: DecodeLimits)
    requires
        all_framed(a),
        a.to_multiset() == b.to_multiset(),
        stream_segments(a.flatten(), limits) is Ok,
    ensures
        all_framed(b),
        stream_segments(a.flatten(), limits) == Ok::<Seq<Segment>, Fault>(segments_in(a)),
        stream_segments(b.flatten(), limits) == Ok::<Seq<Segment>, Fault>(segments_in(b)),
        segments_in(a).to_multiset() == segments_in(b).to_multiset(),
        segments_in(a).len() == segments_in(b).len(),
{
    lemma_framed_permute(a, b);
    lemma_segments_permute(a, b);
    let none = Seq::<u8>::empty();
    assert(none + a.flatten() =~= a.flatten());
    assert(none + b.flatten() =~= b.flatten());
    lemma_pieces_read(none, a, 0, limits);
    lemma_pieces_read(none, b, 0, limits);
    lemma_pixels_permute(segments_in(a), segments_in(b));
    lemma_large_permute(segments_in(a), segments_in(b), limits);
}

/// **The segments of a plane may come in any order**: a stream that decodes
/// shows the same plane when its segments are put in another order.
pub proof fn planes_come_in_any_order(
    a: Seq<Seq<u8>>,
    b: Seq<Seq<u8>>,
    bits: u8,
    limits: DecodeLimits,
)
    requires
        all_framed(a),
        a.to_multiset() == b.to_multiset(),
        plane_decoded(a.flatten(), bits, limits) is Ok,
    ensures
        plane_decoded(b.flatten(), bits, limits) == plane_decoded(a.flatten(), bits, limits),
{
    lemma_pieces_permute(a, b, limits);
    let s = by_index(segments_in(a));
    ordering_permutes(segments_in(a));
    assert(indices_differ(s)) by {
        assert forall|i: int, j: int| 0 <= i < j < s.len() implies (
        #[trigger] s[i]).header.segment_index != (#[trigger] s[j]).header.segment_index by {
            let n = s.len() as int;
            if s[0].header.transform_segmented {
                lemma_parts_numbered(s, i + 1, n);
                lemma_parts_numbered(s, j + 1, n);
            } else {
                lemma_strips_numbered(s, i + 1, n);
                lemma_strips_numbered(s, j + 1, n);
            }
        }
    }
    lemma_index_permute(segments_in(a), segments_in(b));
}

proof fn lemma_no_container(pieces: Seq<Seq<u8>>)
    requires
        all_framed(pieces),
    ensures
        !starts_container(pieces.flatten()),
{
    if pieces.len() > 0 {
        assert(framed(pieces[0]));
        lemma_segment_local(pieces[0], pieces.drop_first().flatten());
        assert(pieces.flatten()[0] == pieces[0][0]);
        assert(pieces.flatten()[1] == pieces[0][1]);
    }
}

/// **The segments of an image may come in any order**: a stream that decodes
/// shows the same image when its segments are put in another order.
pub proof fn segments_come_in_any_order(a: Seq<Seq<u8>>, b: Seq<Seq<u8>>, limits: DecodeLimits)
    requires
        all_framed(a),
        a.to_multiset() == b.to_multiset(),
        image_decoded(a.flatten(), limits) is Ok,
    ensures
        image_decoded(b.flatten(), limits) == image_decoded(a.flatten(), limits),
{
    lemma_framed_permute(a, b);
    lemma_no_container(a);
    lemma_no_container(b);
    planes_come_in_any_order(a, b, 8, limits);
}

/// **A lenient decoder does not mind the order of the segments either**, where
/// no index comes twice: it shows the same image and reports the same segments
/// as missing.
pub proof fn some_segments_come_in_any_order(
    a: Seq<Seq<u8>>,
    b: Seq<Seq<u8>>,
    limits: DecodeLimits,
)
    requires
        all_framed(a),
        a.to_multiset() == b.to_multiset(),
        indices_differ(segments_in(a)),
        image_partial(a.flatten(), limits) is Ok,
    ensures
        image_partial(b.flatten(), limits) == image_partial(a.flatten(), limits),
{
    lemma_framed_permute(a, b);
    lemma_no_container(a);
    lemma_no_container(b);
    assert(plane_partial(a.flatten(), 8, limits) is Ok);
    lemma_pieces_permute(a, b, limits);
    ordering_permutes(segments_in(a));
    lemma_differ_permute(segments_in(a), by_index(segments_in(a)));
    lemma_index_permute(segments_in(a), segments_in(b));
}

} // verus!
