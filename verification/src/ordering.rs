//! Segments that come in any order, each once.

use crate::decoder::{by_index, in_index_order, insert_by_index, ordering_permutes, pixels_of};
use crate::emit::pixels_until;
use crate::header::{Segment, SegmentHeader};
use crate::parts::{empty_segment, placeholders, Written};
use vstd::prelude::*;

verus! {

/// Number of segments with index `v`.
pub open spec fn index_count(s: Seq<Segment>, v: int) -> int
    decreases s.len(),
{
    if s.len() == 0 {
        0
    } else {
        index_count(s.drop_last(), v) + (if s.last().header.segment_index == v {
            1int
        } else {
            0
        })
    }
}

/// Every index below `n` comes once, and no other.
pub open spec fn each_once(s: Seq<Segment>, n: int) -> bool {
    &&& forall|i: int| 0 <= i < s.len() ==> (#[trigger] s[i]).header.segment_index < n
    &&& forall|v: int| 0 <= v < n ==> #[trigger] index_count(s, v) == 1
}

proof fn lemma_count_push(s: Seq<Segment>, x: Segment, v: int)
    ensures
        index_count(s.push(x), v) == index_count(s, v) + (if x.header.segment_index == v {
            1int
        } else {
            0
        }),
{
    assert(s.push(x).drop_last() =~= s);
}

pub proof fn lemma_count_join(a: Seq<Segment>, b: Seq<Segment>, v: int)
    ensures
        index_count(a + b, v) == index_count(a, v) + index_count(b, v),
    decreases b.len(),
{
    if b.len() == 0 {
        assert(a + b =~= a);
    } else {
        lemma_count_join(a, b.drop_last(), v);
        assert((a + b).drop_last() =~= a + b.drop_last());
    }
}

proof fn lemma_count_insert(s: Seq<Segment>, x: Segment, v: int)
    ensures
        index_count(insert_by_index(s, x), v) == index_count(s.push(x), v),
        insert_by_index(s, x).len() == s.len() + 1,
    decreases s.len(),
{
    lemma_count_push(s, x, v);
    if s.len() == 0 || s.last().header.segment_index <= x.header.segment_index {
    } else {
        lemma_count_insert(s.drop_last(), x, v);
        lemma_count_push(s.drop_last(), x, v);
        lemma_count_push(insert_by_index(s.drop_last(), x), s.last(), v);
    }
}

proof fn lemma_count_ordered(s: Seq<Segment>, v: int)
    ensures
        index_count(by_index(s), v) == index_count(s, v),
    decreases s.len(),
{
    if s.len() > 0 {
        lemma_count_ordered(s.drop_last(), v);
        lemma_count_insert(by_index(s.drop_last()), s.last(), v);
        lemma_count_push(by_index(s.drop_last()), s.last(), v);
    }
}

proof fn lemma_count_bounds(s: Seq<Segment>, v: int)
    ensures
        index_count(s, v) >= 0,
        index_count(s, v) == 0 ==> forall|i: int|
            0 <= i < s.len() ==> (#[trigger] s[i]).header.segment_index != v,
        index_count(s, v) == 1 ==> forall|i: int, j: int|
            0 <= i < j < s.len() ==> !((#[trigger] s[i]).header.segment_index == v && (
            #[trigger] s[j]).header.segment_index == v),
        (forall|i: int| 0 <= i < s.len() ==> (#[trigger] s[i]).header.segment_index != v)
            ==> index_count(s, v) == 0,
    decreases s.len(),
{
    if s.len() > 0 {
        let t = s.drop_last();
        lemma_count_bounds(t, v);
        if index_count(s, v) == 0 {
            assert forall|i: int| 0 <= i < s.len() implies (#[trigger] s[i]).header.segment_index
                != v by {
                if i < t.len() {
                    assert(t[i] == s[i]);
                }
            }
        }
        if index_count(s, v) == 1 {
            assert forall|i: int, j: int| 0 <= i < j < s.len() implies !((
            #[trigger] s[i]).header.segment_index == v && (#[trigger] s[j]).header.segment_index
                == v) by {
                assert(t[i] == s[i]);
                if j < t.len() {
                    assert(t[j] == s[j]);
                }
            }
        }
        if forall|i: int| 0 <= i < s.len() ==> (#[trigger] s[i]).header.segment_index != v {
            assert forall|i: int| 0 <= i < t.len() implies (#[trigger] t[i]).header.segment_index
                != v by {
                assert(t[i] == s[i]);
            }
            assert(s[s.len() - 1].header.segment_index != v);
        }
    }
}

proof fn lemma_ordered_member(s: Seq<Segment>, i: int)
    requires
        0 <= i < s.len(),
    ensures
        by_index(s).len() == s.len(),
        s.contains(by_index(s)[i]),
{
    broadcast use vstd::seq_lib::group_to_multiset_ensures;

    ordering_permutes(s);
    let t = by_index(s);
    assert(t.contains(t[i]));
    assert(t.to_multiset().count(t[i]) > 0);
    assert(s.to_multiset().count(t[i]) > 0);
}

/// **Segments of which every index comes once are, in order, those of index 0,
/// 1 and so on**, whatever order they came in.
pub proof fn each_once_in_order(s: Seq<Segment>, n: int)
    requires
        each_once(s, n),
        n >= 0,
    ensures
        by_index(s).len() == n,
        forall|i: int| 0 <= i < n ==> (#[trigger] by_index(s)[i]).header.segment_index == i,
        forall|i: int| 0 <= i < n ==> s.contains(#[trigger] by_index(s)[i]),
        s.len() == n,
{
    ordering_permutes(s);
    let t = by_index(s);
    assert forall|i: int| 0 <= i < t.len() implies s.contains(#[trigger] t[i]) by {
        lemma_ordered_member(s, i);
    }
    assert forall|i: int| 0 <= i < t.len() implies (#[trigger] t[i]).header.segment_index < n by {
        let j = choose|j: int| 0 <= j < s.len() && s[j] == t[i];
        assert(s[j].header.segment_index < n);
    }
    assert forall|v: int| 0 <= v < n implies #[trigger] index_count(t, v) == 1 by {
        lemma_count_ordered(s, v);
    }
    lemma_identity(t, n, n);
    if t.len() > n {
        if n == 0 {
            assert(t[0].header.segment_index < n);
        } else {
            lemma_count_bounds(t, n - 1);
            assert(t[n - 1].header.segment_index <= t[n].header.segment_index);
            assert(t[n].header.segment_index < n);
            assert(index_count(t, n - 1) == 1);
        }
    }
}

proof fn lemma_identity(t: Seq<Segment>, n: int, k: int)
    requires
        in_index_order(t),
        0 <= k <= n,
        forall|v: int| 0 <= v < n ==> #[trigger] index_count(t, v) == 1,
    ensures
        k <= t.len(),
        forall|i: int| 0 <= i < k ==> (#[trigger] t[i]).header.segment_index == i,
    decreases k,
{
    if k > 0 {
        lemma_identity(t, n, k - 1);
        let v = k - 1;
        assert(index_count(t, v) == 1);
        lemma_count_bounds(t, v);
        if v > 0 {
            assert(index_count(t, v - 1) == 1);
            lemma_count_bounds(t, v - 1);
        }
        if t.len() < k {
            assert forall|i: int| 0 <= i < t.len() implies (#[trigger] t[i]).header.segment_index
                != v by {}
        } else {
            if v > 0 {
                assert(t[v - 1].header.segment_index <= t[v].header.segment_index);
            }
            if t[v].header.segment_index > v {
                assert forall|i: int| 0 <= i < t.len() implies (
                #[trigger] t[i]).header.segment_index != v by {
                    if i > v {
                        assert(t[v].header.segment_index <= t[i].header.segment_index);
                    }
                }
            }
        }
    }
}

// ---------------------------------------------------------------------------
// Written segments and placeholders
// ---------------------------------------------------------------------------

/// A segment for each index that is kept, and no other.
pub open spec fn matches_kept(w: Written, n: int) -> bool {
    &&& w.kept.len() == n
    &&& forall|i: int|
        0 <= i < w.segments.len() ==> (#[trigger] w.segments[i]).header.segment_index < n
    &&& forall|v: int|
        0 <= v < n ==> #[trigger] index_count(w.segments, v) == (if w.kept[v] {
            1int
        } else {
            0
        })
}

pub proof fn lemma_nothing_kept(n: int)
    requires
        n >= 0,
    ensures
        matches_kept(
            Written { segments: Seq::empty(), kept: Seq::new(n as nat, |i: int| false) },
            n,
        ),
{
}

pub proof fn lemma_one_more_kept(w: Written, n: int, s: Segment)
    requires
        matches_kept(w, n),
        s.header.segment_index < n,
        !w.kept[s.header.segment_index as int],
    ensures
        matches_kept(
            Written {
                segments: w.segments.push(s),
                kept: w.kept.update(s.header.segment_index as int, true),
            },
            n,
        ),
{
    let after = w.segments.push(s);
    assert forall|v: int| 0 <= v < n implies #[trigger] index_count(after, v) == (if w.kept.update(
        s.header.segment_index as int,
        true,
    )[v] {
        1int
    } else {
        0
    }) by {
        lemma_count_push(w.segments, s, v);
        assert(index_count(w.segments, v) == (if w.kept[v] {
            1int
        } else {
            0
        }));
    }
}

/// Headers carry their own index.
pub open spec fn own_index(headers: Seq<SegmentHeader>, n: int) -> bool {
    &&& headers.len() == n
    &&& forall|i: int| 0 <= i < n ==> (#[trigger] headers[i]).segment_index == i
}

proof fn lemma_placeholder_count(kept: Seq<bool>, headers: Seq<SegmentHeader>, n: int, k: int, v: int)
    requires
        own_index(headers, n),
        kept.len() == n,
        0 <= k <= n,
        0 <= v < n,
    ensures
        index_count(placeholders(kept, headers, k), v) == (if v < k && !kept[v] {
            1int
        } else {
            0
        }),
    decreases k,
{
    if k > 0 {
        lemma_placeholder_count(kept, headers, n, k - 1, v);
        assert(headers[k - 1].segment_index == k - 1);
        if !kept[k - 1] {
            lemma_count_push(
                placeholders(kept, headers, k - 1),
                empty_segment(headers[k - 1]),
                v,
            );
        }
    }
}

pub proof fn lemma_placeholder_member(kept: Seq<bool>, headers: Seq<SegmentHeader>, k: int, i: int)
    requires
        0 <= k <= headers.len(),
        0 <= i < placeholders(kept, headers, k).len(),
    ensures
        exists|j: int|
            0 <= j < k && #[trigger] headers[j] == placeholders(kept, headers, k)[i].header
                && placeholders(kept, headers, k)[i] == empty_segment(headers[j]),
    decreases k,
{
    if k > 0 {
        let before = placeholders(kept, headers, k - 1);
        let all = placeholders(kept, headers, k);
        if i < before.len() {
            lemma_placeholder_member(kept, headers, k - 1, i);
            let j = choose|j: int|
                0 <= j < k - 1 && #[trigger] headers[j] == before[i].header && before[i]
                    == empty_segment(headers[j]);
            assert(all[i] == before[i]);
            assert(headers[j] == all[i].header);
        } else {
            assert(all[i] == empty_segment(headers[k - 1]));
            assert(headers[k - 1] == all[i].header);
        }
    }
}

/// **Written segments and the empty ones for those that were left out come to
/// every index once.**
pub proof fn written_and_left_out(w: Written, headers: Seq<SegmentHeader>, n: int)
    requires
        matches_kept(w, n),
        own_index(headers, n),
        n >= 0,
    ensures
        each_once(w.segments + placeholders(w.kept, headers, n), n),
{
    let rest = placeholders(w.kept, headers, n);
    let all = w.segments + rest;
    assert forall|i: int| 0 <= i < all.len() implies (#[trigger] all[i]).header.segment_index
        < n by {
        if i < w.segments.len() {
            assert(all[i] == w.segments[i]);
        } else {
            let k = i - w.segments.len();
            assert(all[i] == rest[k]);
            lemma_placeholder_member(w.kept, headers, n, k);
            let j = choose|j: int|
                0 <= j < n && #[trigger] headers[j] == rest[k].header && rest[k]
                    == empty_segment(headers[j]);
            assert(headers[j].segment_index == j);
        }
    }
    assert forall|v: int| 0 <= v < n implies #[trigger] index_count(all, v) == 1 by {
        lemma_count_join(w.segments, rest, v);
        lemma_placeholder_count(w.kept, headers, n, n, v);
        assert(index_count(w.segments, v) == (if w.kept[v] {
            1int
        } else {
            0
        }));
    }
}

// ---------------------------------------------------------------------------
// Samples of segments in any order
// ---------------------------------------------------------------------------

/// Number of samples of all segments.
pub open spec fn pixels_total(s: Seq<Segment>) -> int
    decreases s.len(),
{
    if s.len() == 0 {
        0
    } else {
        pixels_total(s.drop_last()) + pixels_of(s.last().header)
    }
}

pub proof fn lemma_pixels_total(s: Seq<Segment>, k: int)
    requires
        0 <= k <= s.len(),
    ensures
        pixels_until(s, k) == pixels_total(s.take(k)),
    decreases k,
{
    if k > 0 {
        lemma_pixels_total(s, k - 1);
        assert(s.take(k).drop_last() =~= s.take(k - 1));
    }
}

proof fn lemma_pixels_insert(s: Seq<Segment>, x: Segment)
    ensures
        pixels_total(insert_by_index(s, x)) == pixels_total(s) + pixels_of(x.header),
    decreases s.len(),
{
    if s.len() == 0 || s.last().header.segment_index <= x.header.segment_index {
        assert(s.push(x).drop_last() =~= s);
    } else {
        lemma_pixels_insert(s.drop_last(), x);
        let r = insert_by_index(s.drop_last(), x);
        assert(r.push(s.last()).drop_last() =~= r);
    }
}

pub proof fn lemma_pixels_ordered(s: Seq<Segment>)
    ensures
        pixels_total(by_index(s)) == pixels_total(s),
    decreases s.len(),
{
    if s.len() > 0 {
        lemma_pixels_ordered(s.drop_last());
        lemma_pixels_insert(by_index(s.drop_last()), s.last());
    }
}

} // verus!
