//! What a lenient decoder reports of a damaged stream or container.

use crate::assemble::{even_strips, lemma_complete_placed, lemma_parts_ok, lemma_strips_data_fail, lemma_strips_ok, lenient_agrees_on_complete_streams, missing_of, parts_fault, plane_decoded, plane_partial, some_misfit, steady, strips_data, strips_fault, strips_height, strips_joined, strips_placed, too_large};
use crate::bytes::be16;
use crate::containment::{is_among, lemma_received, parts_map};
use crate::decoder::{by_index, image_partial, ordering_permutes, planes_partial, reports, segments_from, stream_segments, DecodeLimits, LenientDecode};
use crate::error::Fault;
use crate::header::{segment_at_start, segment_header, Segment, SegmentHeader};
use crate::merge::{merged, same_image};
use crate::plane_container::{parsed, starts_container};
use crate::shuffle::{all_framed, framed, lemma_order_is_one, lemma_pieces_read, lemma_pixels_positive, lemma_pixels_remove, lemma_segment_local, none_too_large, segments_in};
use crate::sizes::strips_have_their_size;
use crate::strip::{depth_in_range, flat_bytes, half_range, sample_bytes_of, sample_size, samples_back, strip_decoded};
use vstd::prelude::*;

verus! {

/// The stream of plane `k`: of a container one of its streams, and else all of
/// the bytes.
pub open spec fn stream_of_plane(bytes: Seq<u8>, k: int) -> Seq<u8> {
    if starts_container(bytes) {
        let range = parsed(bytes)->Ok_0.1[k];
        bytes.subrange(range.0, range.1)
    } else {
        bytes
    }
}

/// A segment with index `i` is among `s`.
pub open spec fn has_index(s: Seq<Segment>, i: int) -> bool {
    exists|j: int| 0 <= j < s.len() && (#[trigger] s[j]).header.segment_index == i
}

/// The places among the first `n` that were not received.
pub open spec fn lost_places(received: Seq<bool>, n: int) -> Set<int> {
    Set::new(|i: int| 0 <= i < n && !received[i])
}

proof fn lemma_lost_places(received: Seq<bool>, n: int)
    requires
        0 <= n <= received.len(),
    ensures
        lost_places(received, n).finite(),
        lost_places(received, n).len() == missing_of(received, n),
    decreases n,
{
    let now = lost_places(received, n);
    if n == 0 {
        assert(now =~= Set::empty());
    } else {
        lemma_lost_places(received, n - 1);
        let before = lost_places(received, n - 1);
        if received[n - 1] {
            assert(now =~= before);
        } else {
            assert(now =~= before.insert(n - 1));
        }
    }
}

/// Sorting keeps the indices that are there.
proof fn lemma_same_indices(s: Seq<Segment>, i: int)
    ensures
        has_index(by_index(s), i) <==> has_index(s, i),
        is_among(by_index(s), i, s.len() as int) <==> has_index(s, i),
        by_index(s).len() == s.len(),
{
    broadcast use vstd::seq_lib::group_to_multiset_ensures;

    ordering_permutes(s);
    let t = by_index(s);
    if has_index(s, i) {
        let j = choose|j: int| 0 <= j < s.len() && (#[trigger] s[j]).header.segment_index == i;
        assert(s.contains(s[j]));
        assert(t.to_multiset().count(s[j]) > 0);
        let k = t.index_of(s[j]);
        assert(t[k].header.segment_index == i);
    }
    if has_index(t, i) {
        let j = choose|j: int| 0 <= j < t.len() && (#[trigger] t[j]).header.segment_index == i;
        assert(t.contains(t[j]));
        assert(s.to_multiset().count(t[j]) > 0);
        let k = s.index_of(t[j]);
        assert(s[k].header.segment_index == i);
    }
}

/// What sorting finds of one segment it finds of a segment that was there.
pub proof fn lemma_sorted_member(s: Seq<Segment>, k: int) -> (j: int)
    requires
        0 <= k < s.len(),
    ensures
        0 <= j < s.len(),
        by_index(s)[j] == s[k],
{
    broadcast use vstd::seq_lib::group_to_multiset_ensures;

    ordering_permutes(s);
    let t = by_index(s);
    assert(s.contains(s[k]));
    assert(t.to_multiset().count(s[k]) > 0);
    t.index_of(s[k])
}

proof fn lemma_parts_same(s: Seq<Segment>, k: int, n: int)
    requires
        1 <= k <= n,
        parts_fault(s, false, n) is None,
    ensures
        same_image(s[0].header, s[k - 1].header),
        s[k - 1].header.segment_index < s[0].header.total_segments,
    decreases n,
{
    if n > k {
        lemma_parts_same(s, k, n - 1);
    }
}

/// A report tells of each segment index of a stream whether a segment with
/// that index is there. Of strips it ends with the last one that is there; of
/// parts of a transform it tells of all of them.
pub open spec fn tells_of(received: Seq<bool>, s: Seq<Segment>) -> bool {
    &&& s.len() > 0
    &&& forall|i: int| 0 <= i < received.len() ==> (#[trigger] received[i] <==> has_index(s, i))
    &&& forall|j: int| 0 <= j < s.len() ==> (#[trigger] s[j]).header.segment_index < received.len()
    &&& (forall|j: int| 0 <= j < s.len() ==> !(#[trigger] s[j]).header.transform_segmented)
        ==> has_index(s, received.len() - 1)
    &&& forall|j: int|
        0 <= j < s.len() && (#[trigger] s[j]).header.transform_segmented ==> received.len()
            == s[j].header.total_segments
}

proof fn lemma_plane_tells(bytes: Seq<u8>, bits: u8, limits: DecodeLimits)
    requires
        plane_partial(bytes, bits, limits) is Ok,
    ensures
        stream_segments(bytes, limits) is Ok,
        tells_of(
            plane_partial(bytes, bits, limits)->Ok_0.received,
            stream_segments(bytes, limits)->Ok_0,
        ),
{
    let s = stream_segments(bytes, limits)->Ok_0;
    let t = by_index(s);
    let n = s.len() as int;
    ordering_permutes(s);
    let received = plane_partial(bytes, bits, limits)->Ok_0.received;
    let count = if t[0].header.transform_segmented {
        t[0].header.total_segments as int
    } else {
        t.last().header.segment_index + 1
    };
    assert forall|j: int| 0 <= j < n implies (#[trigger] t[j]).header.segment_index < count && (
    t[j].header.transform_segmented == t[0].header.transform_segmented) && (
    t[0].header.transform_segmented ==> t[j].header.total_segments == count) by {
        if t[0].header.transform_segmented {
            lemma_parts_same(t, j + 1, n);
        } else {
            assert(t[j].header.segment_index <= t[n - 1].header.segment_index);
            assert(!some_misfit(t));
        }
    }
    lemma_received(t, count, n);
    assert forall|i: int| 0 <= i < received.len() implies (#[trigger] received[i] <==> has_index(
        s,
        i,
    )) by {
        lemma_same_indices(s, i);
    }
    assert forall|j: int| 0 <= j < n implies (#[trigger] s[j]).header.segment_index < count && (
    s[j].header.transform_segmented == t[0].header.transform_segmented) && (
    t[0].header.transform_segmented ==> s[j].header.total_segments == count) by {
        let k = lemma_sorted_member(s, j);
        assert(t[k] == s[j]);
    }
    if !t[0].header.transform_segmented {
        assert(t[n - 1].header.segment_index == count - 1);
        assert(has_index(t, count - 1));
        lemma_same_indices(s, count - 1);
    } else {
        assert(s[0].header.transform_segmented);
    }
}

/// **A lenient decoder reports which segments of the first plane arrived**: its
/// report has an entry for each segment index, and an entry is true exactly
/// where a segment with that index is among the segments of the stream, or in a
/// container of its first stream. What it counts as missing is the number of
/// the entries that are false.
pub proof fn reports_tell_what_arrived(bytes: Seq<u8>, limits: DecodeLimits, d: LenientDecode)
    requires
        image_partial(bytes, limits) matches Ok((format, pictures, received)) && reports(
            d,
            format,
            pictures,
            received,
        ),
    ensures
        stream_segments(stream_of_plane(bytes, 0), limits) is Ok,
        tells_of(d.received@, stream_segments(stream_of_plane(bytes, 0), limits)->Ok_0),
        d.missing_count == lost_places(d.received@, d.received@.len() as int).len(),
        d.missing_count > 0 <==> exists|i: int|
            0 <= i < d.received@.len() && !(#[trigger] d.received@[i]),
{
    let n = d.received@.len() as int;
    if starts_container(bytes) {
        let (format, ranges) = parsed(bytes)->Ok_0;
        let bits = crate::decoder::depth_of_format(format);
        crate::metadata::lemma_ranges(bytes);
        lemma_first_plane(bytes, ranges, bits, limits, ranges.len() as int);
        lemma_plane_tells(stream_of_plane(bytes, 0), bits, limits);
    } else {
        lemma_plane_tells(bytes, 8, limits);
    }
    lemma_lost_places(d.received@, n);
    let lost = lost_places(d.received@, n);
    if exists|i: int| 0 <= i < n && !(#[trigger] d.received@[i]) {
        let i = choose|i: int| 0 <= i < n && !(#[trigger] d.received@[i]);
        assert(lost.contains(i));
        assert(lost.len() > 0);
    } else {
        assert(lost =~= Set::empty());
    }
}

proof fn lemma_first_plane(
    bytes: Seq<u8>,
    ranges: Seq<(int, int)>,
    bits: u8,
    limits: DecodeLimits,
    k: int,
)
    requires
        k >= 1,
        planes_partial(bytes, ranges, bits, limits, k) is Ok,
    ensures
        planes_partial(bytes, ranges, bits, limits, k)->Ok_0.len() == k,
        plane_partial(bytes.subrange(ranges[0].0, ranges[0].1), bits, limits) == Ok::<
            crate::assemble::PartialPicture,
            crate::error::Fault,
        >(planes_partial(bytes, ranges, bits, limits, k)->Ok_0[0]),
    decreases k,
{
    reveal_with_fuel(planes_partial, 2);
    if k > 1 {
        lemma_first_plane(bytes, ranges, bits, limits, k - 1);
    }
}

// ---------------------------------------------------------------------------
// One segment is lost
// ---------------------------------------------------------------------------

/// Without one of its pieces a stream has the segments of the others.
proof fn lemma_piece_lost(a: Seq<Seq<u8>>, lost: int, limits: DecodeLimits)
    requires
        all_framed(a),
        0 <= lost < a.len(),
        stream_segments(a.flatten(), limits) is Ok,
    ensures
        stream_segments(a.flatten(), limits) == Ok::<Seq<Segment>, Fault>(segments_in(a)),
        stream_segments(a.remove(lost).flatten(), limits) == Ok::<Seq<Segment>, Fault>(
            segments_in(a).remove(lost),
        ),
{
    let b = a.remove(lost);
    let (s, u) = (segments_in(a), segments_in(a).remove(lost));
    assert(segments_in(b) =~= u);
    assert(all_framed(b)) by {
        assert forall|i: int| 0 <= i < b.len() implies framed(#[trigger] b[i]) by {
            if i < lost {
                assert(framed(a[i]));
            } else {
                assert(framed(a[i + 1]));
            }
        }
    }
    let none = Seq::<u8>::empty();
    assert(none + a.flatten() =~= a.flatten());
    assert(none + b.flatten() =~= b.flatten());
    lemma_pieces_read(none, a, 0, limits);
    lemma_pieces_read(none, b, 0, limits);
    lemma_pixels_remove(s, lost);
    lemma_pixels_positive(s[lost].header);
    assert(none_too_large(u, limits)) by {
        assert forall|i: int| 0 <= i < u.len() implies crate::decoder::pixels_of(
            (#[trigger] u[i]).header,
        ) <= limits.max_pixels_per_segment by {
            if i < lost {
                assert(u[i] == s[i]);
            } else {
                assert(u[i] == s[i + 1]);
            }
        }
    }
}

/// Where every index is its place, the others stay in order when one is lost.
proof fn lemma_order_without(s: Seq<Segment>, lost: int)
    requires
        0 <= lost < s.len(),
        forall|i: int| 0 <= i < s.len() ==> (#[trigger] by_index(s)[i]).header.segment_index == i,
    ensures
        ({
            let idx = s[lost].header.segment_index as int;
            &&& 0 <= idx < s.len()
            &&& by_index(s).len() == s.len()
            &&& by_index(s)[idx] == s[lost]
            &&& by_index(s.remove(lost)) == by_index(s).remove(idx)
        }),
{
    broadcast use vstd::seq_lib::group_to_multiset_ensures;

    ordering_permutes(s);
    ordering_permutes(s.remove(lost));
    let t = by_index(s);
    let k = lemma_sorted_member(s, lost);
    assert(t[k].header.segment_index == k);
    let less = t.remove(k);
    let u = by_index(s.remove(lost));
    assert(less.to_multiset() =~= t.to_multiset().remove(t[k]));
    assert(s.remove(lost).to_multiset() =~= s.to_multiset().remove(s[lost]));
    assert forall|i: int| 0 <= i < less.len() implies (#[trigger] less[i]).header.segment_index
        == (if i < k {
        i
    } else {
        i + 1
    }) by {
        if i < k {
            assert(less[i] == t[i]);
        } else {
            assert(less[i] == t[i + 1]);
        }
    }
    lemma_order_is_one(less, u);
}

/// The places that are filled without strip `idx`.
proof fn lemma_placed_without(t: Seq<Segment>, idx: int, bits: u8, k: int)
    requires
        0 < idx < t.len() - 1,
        0 <= k < t.len(),
        strips_fault(t, t.len() as int) is None,
        even_strips(t),
        strips_data(t, bits, t.len() as int) is Ok,
    ensures
        ({
            let u = t.remove(idx);
            let r = strips_placed(u, bits, k);
            let filled = if k <= idx {
                k
            } else {
                k + 1
            };
            &&& r is Ok
            &&& r->Ok_0.len() == t.len()
            &&& forall|i: int|
                0 <= i < t.len() ==> #[trigger] r->Ok_0[i] == (if i < filled && i != idx {
                    Some(strip_decoded(t[i], bits)->Ok_0)
                } else {
                    None
                })
        }),
    decreases k,
{
    let n = t.len() as int;
    let u = t.remove(idx);
    lemma_strips_ok(t, n, n);
    assert(u.last() == t.last());
    assert(u[0] == t[0]);
    if k > 0 {
        lemma_placed_without(t, idx, bits, k - 1);
        let at = if k <= idx {
            k - 1
        } else {
            k
        };
        assert(u[k - 1] == t[at]);
        lemma_strips_ok(t, at + 1, n);
        if strips_data(t, bits, at + 1) is Err {
            lemma_strips_data_fail(t, bits, at + 1, n);
        }
        assert(strips_data(t, bits, at + 1) is Ok);
        if at < n - 1 {
            assert(t[at].header.height == t[0].header.height);
        }
    }
}

/// Where one of the places is empty, what stands there is flat, and all else is
/// as it was.
proof fn lemma_joined_without(
    strips: Seq<Option<Seq<u8>>>,
    flat: Seq<u8>,
    idx: int,
    k: int,
)
    requires
        0 <= idx < strips.len(),
        0 <= k <= strips.len(),
        forall|i: int| 0 <= i < strips.len() ==> (#[trigger] strips[i]) is Some,
        forall|i: int| 0 <= i < strips.len() - 1 ==> (#[trigger] strips[i])->0.len() == flat.len(),
        idx < strips.len() - 1,
    ensures
        ({
            let a = strips_joined(strips, flat, k);
            let b = strips_joined(strips.update(idx, None), flat, k);
            let each = flat.len() as int;
            &&& a.len() == b.len()
            &&& k < strips.len() ==> a.len() == k * each
            &&& forall|x: int|
                0 <= x < b.len() ==> #[trigger] b[x] == (if idx * each <= x < idx * each + each {
                    flat[x - idx * each]
                } else {
                    a[x]
                })
        }),
    decreases k,
{
    let each = flat.len() as int;
    if k > 0 {
        lemma_joined_without(strips, flat, idx, k - 1);
        let less = strips.update(idx, None);
        let a = strips_joined(strips, flat, k - 1);
        let b = strips_joined(less, flat, k - 1);
        assert(strips[k - 1] is Some);
        assert((k - 1) * each + each == k * each) by (nonlinear_arith);
        if k - 1 != idx {
            assert(less[k - 1] == strips[k - 1]);
            if k - 1 < idx {
                assert((k - 1) * each + each <= idx * each) by (nonlinear_arith)
                    requires
                        k - 1 < idx,
                        each >= 0,
                ;
            } else {
                assert(idx * each + each <= (k - 1) * each) by (nonlinear_arith)
                    requires
                        idx < k - 1,
                        each >= 0,
                ;
            }
        }
        let (x, y) = (strips_joined(strips, flat, k), strips_joined(less, flat, k));
        assert(x == a + strips[k - 1]->0);
    } else {
        assert(0 * each == 0);
    }
}

/// The byte of a sample in the middle of its range, where `x` is its place.
pub open spec fn middle_byte(bits: u8, x: int) -> u8 {
    if sample_size(bits) == 1 {
        128
    } else if x % 2 == 0 {
        (half_range(bits) % 256) as u8
    } else {
        (half_range(bits) / 256) as u8
    }
}

proof fn lemma_flat_middle(n: int, bits: u8, x: int)
    requires
        depth_in_range(bits),
        0 <= x < n * sample_size(bits),
        0 <= n,
    ensures
        flat_bytes(n, bits).len() == n * sample_size(bits),
        flat_bytes(n, bits)[x] == middle_byte(bits, x),
{
    vstd::arithmetic::power2::lemma2_to64();
    if bits < 16 {
        vstd::arithmetic::power2::lemma_pow2_strictly_increases((bits - 1) as nat, 15);
    }
    let size = sample_size(bits);
    assert(0 <= x / size < n) by (nonlinear_arith)
        requires
            0 <= x < n * size,
            size >= 1,
    ;
}

/// **A lost strip leaves the rest of a plane as it is.** A plane is decoded
/// from strips in any order, all of one height but for the last. Without one of
/// them, neither the first nor the last, a lenient decoder shows a plane of the
/// same size: the rows of the lost strip are flat, in the middle of the range of
/// samples, all other rows are those of the whole plane, and the report names
/// the lost strip alone.
#[verifier::rlimit(60)]
#[verifier::spinoff_prover]
pub proof fn lost_strips_leave_the_rest(
    a: Seq<Seq<u8>>,
    lost: int,
    bits: u8,
    limits: DecodeLimits,
)
    requires
        depth_in_range(bits),
        all_framed(a),
        0 <= lost < a.len(),
        plane_decoded(a.flatten(), bits, limits) is Ok,
        !segments_in(a)[lost].header.transform_segmented,
        0 < segments_in(a)[lost].header.segment_index < a.len() - 1,
        forall|i: int|
            0 <= i < a.len() && (#[trigger] segments_in(a)[i]).header.segment_index < a.len() - 1
                ==> segments_in(a)[i].header.height == segments_in(a)[lost].header.height,
    ensures
        ({
            let header = segments_in(a)[lost].header;
            let whole = plane_decoded(a.flatten(), bits, limits)->Ok_0;
            let rest = plane_partial(a.remove(lost).flatten(), bits, limits);
            let each = header.width * header.height * sample_size(bits);
            let at = header.segment_index * each;
            &&& rest is Ok
            &&& rest->Ok_0.picture.width == whole.width
            &&& rest->Ok_0.picture.height == whole.height
            &&& rest->Ok_0.picture.data.len() == whole.data.len()
            &&& forall|x: int|
                0 <= x < whole.data.len() ==> #[trigger] rest->Ok_0.picture.data[x] == (if at <= x
                    < at + each {
                    middle_byte(bits, x - at)
                } else {
                    whole.data[x]
                })
            &&& rest->Ok_0.received.len() == a.len()
            &&& forall|i: int|
                0 <= i < a.len() ==> (#[trigger] rest->Ok_0.received[i] <==> i
                    != header.segment_index)
        }),
{
    let s = segments_in(a);
    let n = s.len() as int;
    lemma_piece_lost(a, lost, limits);
    ordering_permutes(s);
    let t = by_index(s);
    let idx = s[lost].header.segment_index as int;
    let k = lemma_sorted_member(s, lost);
    if t[0].header.transform_segmented {
        lemma_parts_ok(t, true, k + 1, n);
    }
    assert forall|i: int| 0 <= i < n implies (#[trigger] t[i]).header.segment_index == i
        && t[i].header.width == t[0].header.width && !t[i].header.transform_segmented by {
        lemma_strips_ok(t, i + 1, n);
    }
    lemma_order_without(s, lost);
    let u = t.remove(idx);
    assert(even_strips(t)) by {
        assert forall|i: int| 0 <= i < n - 1 implies (#[trigger] t[i]).header.height
            == t[0].header.height by {
            lemma_known_height(s, i, s[lost].header.height);
            lemma_known_height(s, 0, s[lost].header.height);
        }
    }
    assert(steady(a.flatten(), limits));
    lenient_agrees_on_complete_streams(a.flatten(), bits, limits);
    lemma_complete_placed(t, bits, n);
    lemma_placed_without(t, idx, bits, n - 1);
    let strips = strips_placed(t, bits, n)->Ok_0;
    let less = strips_placed(u, bits, n - 1)->Ok_0;
    assert(less =~= strips.update(idx, None));
    let first = t[0].header;
    let flat = flat_bytes(first.width * first.height, bits);
    assert(u[0] == t[0] && u.last() == t.last());
    assert(t[n - 1].header.segment_index == n - 1);
    assert forall|i: int| 0 <= i < u.len() implies (#[trigger] u[i]).header.width == first.width
        && !u[i].header.transform_segmented && u[i].header.segment_index < n by {
        if i < idx {
            assert(u[i] == t[i]);
        } else {
            assert(u[i] == t[i + 1]);
        }
    }
    assert(!some_misfit(u));
    let size = sample_size(bits);
    assert(0 <= first.width * first.height && 0 <= first.width * first.height * size)
        by (nonlinear_arith)
        requires
            first.width >= 0,
            first.height >= 0,
            size >= 0,
    ;
    assert(flat.len() == first.width * first.height * size);
    assert forall|i: int| 0 <= i < n - 1 implies (#[trigger] strips[i])->0.len() == flat.len() by {
        lemma_walked_valid(a, limits, t, i);
        if strips_data(t, bits, i + 1) is Err {
            lemma_strips_data_fail(t, bits, i + 1, n);
        }
        strips_have_their_size(t[i], bits);
        assert(t[i].header.height == first.height);
    }
    lemma_joined_without(strips, flat, idx, n);
    let each = flat.len() as int;
    assert forall|x: int| idx * each <= x < idx * each + each implies flat[x - idx * each]
        == #[trigger] middle_byte(bits, x - idx * each) by {
        lemma_flat_middle(first.width * first.height, bits, x - idx * each);
    }
    let count = n;
    lemma_received(u, count, n - 1);
    assert forall|i: int| 0 <= i < n implies (#[trigger] is_among(u, i, n - 1) <==> i != idx) by {
        if i != idx {
            let at = if i < idx {
                i
            } else {
                i - 1
            };
            assert(u[at] == t[i]);
            assert(u[at].header.segment_index == i);
        } else if is_among(u, i, n - 1) {
            let m = choose|m: int| 0 <= m < n - 1 && (#[trigger] u[m]).header.segment_index == i;
            if m < idx {
                assert(u[m] == t[m]);
            } else {
                assert(u[m] == t[m + 1]);
            }
        }
    }
    assert(t[idx].header.height == first.height && t[idx].header.width == first.width);
}

/// A height that all but the last strip have.
proof fn lemma_known_height(s: Seq<Segment>, i: int, h: u16)
    requires
        0 <= i < s.len() - 1,
        by_index(s)[i].header.segment_index == i,
        forall|j: int|
            0 <= j < s.len() && (#[trigger] s[j]).header.segment_index < s.len() - 1
                ==> s[j].header.height == h,
    ensures
        by_index(s)[i].header.height == h,
{
    broadcast use vstd::seq_lib::group_to_multiset_ensures;

    ordering_permutes(s);
    let t = by_index(s);
    assert(t.contains(t[i]));
    assert(s.to_multiset().count(t[i]) > 0);
    let j = s.index_of(t[i]);
    assert(s[j] == t[i]);
}

/// Segments that were read have valid headers.
proof fn lemma_walked_valid(a: Seq<Seq<u8>>, limits: DecodeLimits, t: Seq<Segment>, i: int)
    requires
        all_framed(a),
        t == by_index(segments_in(a)),
        0 <= i < a.len(),
    ensures
        t[i].header.valid(),
{
    broadcast use vstd::seq_lib::group_to_multiset_ensures;

    let s = segments_in(a);
    ordering_permutes(s);
    assert(t.contains(t[i]));
    assert(s.to_multiset().count(t[i]) > 0);
    let j = s.index_of(t[i]);
    assert(s[j] == t[i]);
    assert(framed(a[j]));
}

/// What the first strips decode to rests on them alone.
proof fn lemma_first_strips(t: Seq<Segment>, bits: u8, m: int, k: int)
    requires
        0 <= k <= m <= t.len(),
    ensures
        strips_fault(t.take(m), k) == strips_fault(t, k),
        strips_data(t.take(m), bits, k) == strips_data(t, bits, k),
        strips_height(t.take(m), k) == strips_height(t, k),
    decreases k,
{
    if k > 0 {
        lemma_first_strips(t, bits, m, k - 1);
    }
}

/// **Without its last strip a plane ends earlier, and without its first it cannot
/// be decoded.** Of two or more strips of one height but for the last, a lenient
/// decoder shows without the last one the rows of the others, and misses none of
/// them; without the first it fails as on a truncated stream.
#[verifier::rlimit(60)]
#[verifier::spinoff_prover]
pub proof fn lost_ends_shorten_or_fail(
    a: Seq<Seq<u8>>,
    lost: int,
    bits: u8,
    limits: DecodeLimits,
)
    requires
        depth_in_range(bits),
        all_framed(a),
        2 <= a.len(),
        0 <= lost < a.len(),
        plane_decoded(a.flatten(), bits, limits) is Ok,
        !segments_in(a)[lost].header.transform_segmented,
        forall|i: int, j: int|
            0 <= i < a.len() && 0 <= j < a.len() && (
            #[trigger] segments_in(a)[i]).header.segment_index < a.len() - 1 && (
            #[trigger] segments_in(a)[j]).header.segment_index < a.len() - 1
                ==> segments_in(a)[i].header.height == segments_in(a)[j].header.height,
    ensures
        ({
            let header = segments_in(a)[lost].header;
            let whole = plane_decoded(a.flatten(), bits, limits)->Ok_0;
            let rest = plane_partial(a.remove(lost).flatten(), bits, limits);
            &&& header.segment_index == 0 ==> rest is Err && rest->Err_0 == Fault::Truncated
            &&& header.segment_index == a.len() - 1 ==> {
                &&& rest is Ok
                &&& rest->Ok_0.picture.width == whole.width
                &&& rest->Ok_0.picture.height == whole.height - header.height
                &&& rest->Ok_0.picture.data.len() == whole.data.len() - header.width
                    * header.height * sample_size(bits)
                &&& rest->Ok_0.picture.data == whole.data.take(
                    rest->Ok_0.picture.data.len() as int,
                )
                &&& rest->Ok_0.received.len() == a.len() - 1
                &&& forall|i: int| 0 <= i < a.len() - 1 ==> #[trigger] rest->Ok_0.received[i]
            }
        }),
{
    let s = segments_in(a);
    let n = s.len() as int;
    lemma_piece_lost(a, lost, limits);
    ordering_permutes(s);
    let t = by_index(s);
    let header = s[lost].header;
    let idx = header.segment_index as int;
    let k = lemma_sorted_member(s, lost);
    if t[0].header.transform_segmented {
        lemma_parts_ok(t, true, k + 1, n);
    }
    assert forall|i: int| 0 <= i < n implies (#[trigger] t[i]).header.segment_index == i
        && t[i].header.width == t[0].header.width && !t[i].header.transform_segmented by {
        lemma_strips_ok(t, i + 1, n);
    }
    lemma_order_without(s, lost);
    let u = t.remove(idx);
    if idx == 0 {
        assert(u[0] == t[1]);
    }
    if idx == n - 1 {
        let rest = a.remove(lost).flatten();
        assert(u =~= t.take(n - 1));
        lemma_first_strips(t, bits, n - 1, n - 1);
        let last = t[n - 1];
        assert(last == s[lost]);
        lemma_walked_valid(a, limits, t, n - 1);
        strips_have_their_size(last, bits);
        let (w, h) = (t[0].header.width as int, strips_height(t, n));
        assert(strips_height(u, n - 1) == h - last.header.height);
        lemma_heights_positive(t, n - 1);
        let size = sample_size(bits);
        assert(w * (h - last.header.height) * size <= w * h * size) by (nonlinear_arith)
            requires
                0 <= w,
                0 <= last.header.height,
                0 <= size,
        ;
        assert(!too_large(w, h - last.header.height, bits));
        assert(plane_decoded(rest, bits, limits) is Ok);
        assert(even_strips(u)) by {
            assert forall|i: int| 0 <= i < n - 2 implies (#[trigger] u[i]).header.height
                == u[0].header.height by {
                lemma_equal_heights(s, i, 0);
            }
        }
        assert(steady(rest, limits));
        lenient_agrees_on_complete_streams(rest, bits, limits);
        let whole = plane_decoded(a.flatten(), bits, limits)->Ok_0.data;
        let short = strips_data(t, bits, n - 1)->Ok_0;
        assert(whole == short + strip_decoded(last, bits)->Ok_0);
        assert(whole.take(short.len() as int) =~= short);
        lemma_received(u, n - 1, n - 1);
        assert forall|i: int| 0 <= i < n - 1 implies #[trigger] is_among(u, i, n - 1) by {
            assert(u[i].header.segment_index == i);
        }
    }
}

proof fn lemma_heights_positive(t: Seq<Segment>, k: int)
    ensures
        0 <= strips_height(t, k),
    decreases k,
{
    if k > 0 {
        lemma_heights_positive(t, k - 1);
    }
}

/// Strips before the last have one height in order as out of it.
proof fn lemma_equal_heights(s: Seq<Segment>, i: int, j: int)
    requires
        0 <= i < s.len() - 1,
        0 <= j < s.len() - 1,
        by_index(s)[i].header.segment_index == i,
        by_index(s)[j].header.segment_index == j,
        forall|a: int, b: int|
            0 <= a < s.len() && 0 <= b < s.len() && (#[trigger] s[a]).header.segment_index
                < s.len() - 1 && (#[trigger] s[b]).header.segment_index < s.len() - 1
                ==> s[a].header.height == s[b].header.height,
    ensures
        by_index(s)[i].header.height == by_index(s)[j].header.height,
{
    broadcast use vstd::seq_lib::group_to_multiset_ensures;

    ordering_permutes(s);
    let t = by_index(s);
    assert(t.contains(t[i]) && t.contains(t[j]));
    assert(s.to_multiset().count(t[i]) > 0 && s.to_multiset().count(t[j]) > 0);
    let (x, y) = (s.index_of(t[i]), s.index_of(t[j]));
    assert(s[x] == t[i] && s[y] == t[j]);
}

// ---------------------------------------------------------------------------
// One part of a transform is lost
// ---------------------------------------------------------------------------

proof fn lemma_merged_before(first: SegmentHeader, t: Seq<Segment>, j: int, k: int)
    requires
        0 <= j <= k,
        merged(first, t, k) is Ok,
    ensures
        merged(first, t, j) is Ok,
    decreases k,
{
    if j < k {
        lemma_merged_before(first, t, j, k - 1);
    }
}

/// What is merged rests on a few of the fields of a header.
proof fn lemma_merged_alike(a: SegmentHeader, b: SegmentHeader, t: Seq<Segment>, k: int)
    requires
        same_image(a, b),
    ensures
        merged(a, t, k) == merged(b, t, k),
    decreases k,
{
    if k > 0 {
        lemma_merged_alike(a, b, t, k - 1);
    }
}

/// Coefficients of which those of part `idx` are zero.
pub open spec fn without_part(first: SegmentHeader, coeffs: Seq<i32>, idx: int) -> Seq<i32> {
    Seq::new(
        coeffs.len(),
        |i: int|
            if parts_map(first)[i] == idx {
                0
            } else {
                coeffs[i]
            },
    )
}

/// Without part `idx`, what is merged has zeros for its coefficients.
proof fn lemma_merged_without(first: SegmentHeader, t: Seq<Segment>, idx: int, k: int)
    requires
        0 <= idx < t.len(),
        0 <= k < t.len(),
        forall|i: int| 0 <= i < t.len() ==> (#[trigger] t[i]).header.segment_index == i,
        merged(first, t, t.len() as int) is Ok,
    ensures
        ({
            let kk = if k < idx {
                k
            } else {
                k + 1
            };
            let r = merged(first, t.remove(idx), k);
            &&& r is Ok
            &&& merged(first, t, kk) is Ok
            &&& r->Ok_0.len() == merged(first, t, kk)->Ok_0.len()
            &&& forall|i: int|
                0 <= i < r->Ok_0.len() ==> #[trigger] r->Ok_0[i] == (if parts_map(first)[i] == idx {
                    0
                } else {
                    merged(first, t, kk)->Ok_0[i]
                })
        }),
    decreases k,
{
    let u = t.remove(idx);
    let n = t.len() as int;
    let kk = if k < idx {
        k
    } else {
        k + 1
    };
    lemma_merged_before(first, t, kk, n);
    lemma_merged_before(first, t, k, n);
    if k > 0 {
        lemma_merged_without(first, t, idx, k - 1);
        let at = if k <= idx {
            k - 1
        } else {
            k
        };
        assert(u[k - 1] == t[at]);
        assert(t[at].header.segment_index == at);
        assert(t[idx].header.segment_index == idx);
        if k > idx {
            assert(merged(first, t, k + 1) is Ok);
        }
    } else {
        assert(t[0].header.segment_index == 0);
    }
}

/// **A lost part of a transform leaves the other coefficients as they are.** A
/// plane is decoded from two or more parts of a transform in any order. Without
/// one of them, a lenient decoder shows a plane of the same size: it is
/// transformed back from the same coefficients, but for those of the lost part,
/// which are zero. The report names the lost part alone.
#[verifier::rlimit(60)]
#[verifier::spinoff_prover]
pub proof fn lost_parts_leave_the_rest(
    a: Seq<Seq<u8>>,
    lost: int,
    bits: u8,
    limits: DecodeLimits,
) -> (coeffs: Seq<i32>)
    requires
        all_framed(a),
        2 <= a.len(),
        0 <= lost < a.len(),
        plane_decoded(a.flatten(), bits, limits) is Ok,
        segments_in(a)[lost].header.transform_segmented,
    ensures
        ({
            let header = segments_in(a)[lost].header;
            let whole = plane_decoded(a.flatten(), bits, limits)->Ok_0;
            let rest = plane_partial(a.remove(lost).flatten(), bits, limits);
            &&& coeffs.len() == header.width * header.height
            &&& whole.data == sample_bytes_of(samples_back(header, coeffs), bits)
            &&& rest is Ok
            &&& rest->Ok_0.picture.width == whole.width
            &&& rest->Ok_0.picture.height == whole.height
            &&& rest->Ok_0.picture.data == sample_bytes_of(
                samples_back(
                    header,
                    without_part(header, coeffs, header.segment_index as int),
                ),
                bits,
            )
            &&& rest->Ok_0.received.len() == a.len()
            &&& forall|i: int|
                0 <= i < a.len() ==> (#[trigger] rest->Ok_0.received[i] <==> i
                    != header.segment_index)
        }),
{
    let s = segments_in(a);
    let n = s.len() as int;
    lemma_piece_lost(a, lost, limits);
    ordering_permutes(s);
    let t = by_index(s);
    let header = s[lost].header;
    let idx = header.segment_index as int;
    let k = lemma_sorted_member(s, lost);
    if !t[0].header.transform_segmented {
        lemma_strips_ok(t, k + 1, n);
    }
    let first = t[0].header;
    assert forall|i: int| 0 <= i < n implies (#[trigger] t[i]).header.segment_index == i
        && same_image(first, t[i].header) by {
        lemma_parts_ok(t, true, i + 1, n);
    }
    assert(same_image(first, header));
    lemma_order_without(s, lost);
    let u = t.remove(idx);
    let coeffs = merged(first, t, n)->Ok_0;
    lemma_merged_without(first, t, idx, n - 1);
    let other = u[0].header;
    assert(u[0] == (if idx == 0 {
        t[1]
    } else {
        t[0]
    }));
    assert(same_image(first, other));
    lemma_merged_alike(first, other, u, n - 1);
    let less = merged(first, u, n - 1)->Ok_0;
    lemma_area_of(first, t, n);
    assert(less =~= without_part(header, coeffs, idx));
    lemma_parts_without(t, idx, n - 1);
    lemma_received(u, n, n - 1);
    assert forall|i: int| 0 <= i < n implies (#[trigger] is_among(u, i, n - 1) <==> i != idx) by {
        if i != idx {
            let at = if i < idx {
                i
            } else {
                i - 1
            };
            assert(u[at] == t[i]);
            assert(u[at].header.segment_index == i);
        } else if is_among(u, i, n - 1) {
            let m = choose|m: int| 0 <= m < n - 1 && (#[trigger] u[m]).header.segment_index == i;
            if m < idx {
                assert(u[m] == t[m]);
            } else {
                assert(u[m] == t[m + 1]);
            }
        }
    }
    coeffs
}

proof fn lemma_area_of(first: SegmentHeader, t: Seq<Segment>, k: int)
    requires
        merged(first, t, k) is Ok,
    ensures
        merged(first, t, k)->Ok_0.len() == first.width * first.height,
{
    assert(0 <= first.width * first.height) by (nonlinear_arith)
        requires
            0 <= first.width,
            0 <= first.height,
    ;
}

/// The other parts stay parts of one image.
proof fn lemma_parts_without(t: Seq<Segment>, idx: int, k: int)
    requires
        0 <= idx < t.len(),
        2 <= t.len(),
        0 <= k < t.len(),
        t[0].header.total_segments == t.len(),
        forall|i: int|
            0 <= i < t.len() ==> (#[trigger] t[i]).header.segment_index == i && same_image(
                t[0].header,
                t[i].header,
            ),
    ensures
        parts_fault(t.remove(idx), false, k) is None,
    decreases k,
{
    if k > 0 {
        lemma_parts_without(t, idx, k - 1);
        let u = t.remove(idx);
        assert(u[0] == (if idx == 0 {
            t[1]
        } else {
            t[0]
        }));
        assert(u[k - 1] == (if k <= idx {
            t[k - 1]
        } else {
            t[k]
        }));
    }
}

// ---------------------------------------------------------------------------
// Streams that end within a segment
// ---------------------------------------------------------------------------

/// The beginning of a segment is no segment.
proof fn lemma_torn(piece: Seq<u8>, n: int)
    requires
        framed(piece),
        0 <= n < piece.len(),
    ensures
        segment_at_start(piece.take(n)) == Err::<Segment, Fault>(Fault::Truncated),
{
    let torn = piece.take(n);
    assert(segment_header(piece) is Ok);
    if n >= 12 {
        assert(forall|i: int| 0 <= i < 12 ==> torn[i] == piece[i]);
        assert(be16(torn, 0) == be16(piece, 0));
        assert(be16(torn, 3) == be16(piece, 3));
        assert(be16(torn, 5) == be16(piece, 5));
        assert(be16(torn, 8) == be16(piece, 8));
        assert(be16(torn, 10) == be16(piece, 10));
        assert(torn[2] == piece[2] && torn[7] == piece[7] && torn[10] == piece[10] && torn[11]
            == piece[11]);
        assert(segment_header(torn) == segment_header(piece));
    }
}

proof fn lemma_torn_stream(
    before: Seq<u8>,
    a: Seq<Seq<u8>>,
    piece: Seq<u8>,
    n: int,
    total: int,
    limits: DecodeLimits,
)
    requires
        all_framed(a),
        framed(piece),
        0 < n < piece.len(),
        segments_from(before + a.flatten(), before.len() as int, total, limits) is Ok,
        0 <= total <= limits.max_total_pixels,
    ensures
        segments_from(before + a.flatten() + piece.take(n), before.len() as int, total, limits)
            == Err::<Seq<Segment>, Fault>(Fault::Truncated),
    decreases a.len(),
{
    let whole = before + a.flatten();
    let bytes = whole + piece.take(n);
    let cursor = before.len() as int;
    if a.len() == 0 {
        lemma_torn(piece, n);
        assert(bytes.skip(cursor) =~= piece.take(n));
    } else {
        let first = a[0];
        let rest = a.drop_first();
        assert(framed(first));
        lemma_segment_local(first, rest.flatten());
        lemma_segment_local(first, rest.flatten() + piece.take(n));
        assert(whole.skip(cursor) =~= first + rest.flatten());
        assert(bytes.skip(cursor) =~= first + (rest.flatten() + piece.take(n)));
        assert(all_framed(rest)) by {
            assert forall|i: int| 0 <= i < rest.len() implies framed(#[trigger] rest[i]) by {
                assert(framed(a[i + 1]));
            }
        }
        let x = segment_at_start(first)->Ok_0;
        lemma_pixels_positive(x.header);
        let next = before + first;
        let more = total + crate::decoder::pixels_of(x.header);
        assert(next + rest.flatten() =~= whole);
        assert(next + rest.flatten() + piece.take(n) =~= bytes);
        lemma_torn_stream(next, rest, piece, n, more, limits);
    }
}

/// **A stream that ends within a segment is truncated**, for a strict decoder and
/// for a lenient one: segments may be missing, but not parts of one.
pub proof fn torn_streams_are_truncated(
    a: Seq<Seq<u8>>,
    piece: Seq<u8>,
    n: int,
    bits: u8,
    limits: DecodeLimits,
)
    requires
        all_framed(a),
        framed(piece),
        0 < n < piece.len(),
        stream_segments(a.flatten(), limits) is Ok,
    ensures
        plane_decoded(a.flatten() + piece.take(n), bits, limits) is Err,
        plane_decoded(a.flatten() + piece.take(n), bits, limits)->Err_0 == Fault::Truncated,
        plane_partial(a.flatten() + piece.take(n), bits, limits) is Err,
        plane_partial(a.flatten() + piece.take(n), bits, limits)->Err_0 == Fault::Truncated,
{
    let none = Seq::<u8>::empty();
    assert(none + a.flatten() =~= a.flatten());
    lemma_torn_stream(none, a, piece, n, 0, limits);
}

} // verus!
