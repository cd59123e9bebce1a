//! Limits on the number of samples are kept.

use crate::cube_decode::cube_decoded;
use crate::decoder::{counted_all, plain_metadata, planes_metadata, rebased, stream_metadata, stream_segments, DecodeLimits, SegmentMetadata};
use crate::faithful::lemma_limits;
use crate::header::Segment;
use crate::metadata::lemma_ranges;
use crate::plane_container::{parsed, starts_container};
use crate::shuffle::pixels_in;
use vstd::prelude::*;

verus! {

/// Number of samples of the first `k` segments.
pub open spec fn samples_until(m: Seq<SegmentMetadata>, k: int) -> int
    decreases k,
{
    if k <= 0 {
        0
    } else {
        samples_until(m, k - 1) + m[k - 1].header.width * m[k - 1].header.height
    }
}

/// No segment has more samples than limits allow, and all together have not.
pub open spec fn keeps_limits(m: Seq<SegmentMetadata>, limits: DecodeLimits) -> bool {
    &&& samples_until(m, m.len() as int) <= limits.max_total_pixels
    &&& forall|i: int|
        0 <= i < m.len() ==> (#[trigger] m[i]).header.width * m[i].header.height
            <= limits.max_pixels_per_segment
}

proof fn lemma_counted_samples(m: Seq<SegmentMetadata>, total: int, limits: DecodeLimits, k: int)
    requires
        0 <= k <= m.len(),
        counted_all(m, total, limits, k) is Ok,
        0 <= total <= limits.max_total_pixels,
    ensures
        counted_all(m, total, limits, k)->Ok_0 == total + samples_until(m, k),
        counted_all(m, total, limits, k)->Ok_0 <= limits.max_total_pixels,
    decreases k,
{
    if k > 0 {
        lemma_counted_samples(m, total, limits, k - 1);
    }
}

proof fn lemma_samples_join(
    a: Seq<SegmentMetadata>,
    sub: Seq<SegmentMetadata>,
    base: int,
    k: int,
)
    requires
        0 <= k <= sub.len(),
    ensures
        samples_until(a + Seq::new(sub.len(), |i: int| rebased(sub[i], base)), a.len() + k)
            == samples_until(a, a.len() as int) + samples_until(sub, k),
    decreases k,
{
    let all = a + Seq::new(sub.len(), |i: int| rebased(sub[i], base));
    if k > 0 {
        lemma_samples_join(a, sub, base, k - 1);
        assert(all[a.len() + k - 1] == rebased(sub[k - 1], base));
    } else {
        lemma_samples_prefix(all, a, a.len() as int);
    }
}

proof fn lemma_samples_prefix(all: Seq<SegmentMetadata>, a: Seq<SegmentMetadata>, k: int)
    requires
        k <= a.len() <= all.len(),
        forall|i: int| 0 <= i < a.len() ==> all[i] == a[i],
    ensures
        samples_until(all, k) == samples_until(a, k),
    decreases k,
{
    if k > 0 {
        lemma_samples_prefix(all, a, k - 1);
        assert(all[k - 1] == a[k - 1]);
    }
}

proof fn lemma_plain_limits(bytes: Seq<u8>, limits: DecodeLimits)
    requires
        plain_metadata(bytes, limits) is Ok,
    ensures
        keeps_limits(plain_metadata(bytes, limits)->Ok_0, limits),
{
    let s = stream_segments(bytes, limits)->Ok_0;
    let m = plain_metadata(bytes, limits)->Ok_0;
    lemma_limits(bytes, 0, 0, limits);
    lemma_samples_total(s, m);
    assert forall|i: int| 0 <= i < m.len() implies (#[trigger] m[i]).header.width
        * m[i].header.height <= limits.max_pixels_per_segment by {
        assert(m[i].header == s[i].header);
    }
}

proof fn lemma_samples_total(s: Seq<Segment>, m: Seq<SegmentMetadata>)
    requires
        s.len() == m.len(),
        forall|i: int| 0 <= i < s.len() ==> (#[trigger] m[i]).header == s[i].header,
    ensures
        samples_until(m, m.len() as int) == pixels_in(s),
    decreases s.len(),
{
    if s.len() > 0 {
        let (t, r) = (s.drop_first(), m.drop_first());
        assert forall|i: int| 0 <= i < t.len() implies (#[trigger] r[i]).header == t[i].header by {
            assert(r[i] == m[i + 1]);
        }
        lemma_samples_total(t, r);
        lemma_samples_shift(m, m.len() as int);
        assert(m[0].header == s[0].header);
    }
}

proof fn lemma_samples_shift(m: Seq<SegmentMetadata>, k: int)
    requires
        1 <= k <= m.len(),
    ensures
        samples_until(m, k) == m[0].header.width * m[0].header.height + samples_until(
            m.drop_first(),
            k - 1,
        ),
    decreases k,
{
    if k > 1 {
        lemma_samples_shift(m, k - 1);
        assert(m.drop_first()[k - 2] == m[k - 1]);
    } else {
        reveal_with_fuel(samples_until, 2);
    }
}

proof fn lemma_planes_limits(
    bytes: Seq<u8>,
    ranges: Seq<(int, int)>,
    limits: DecodeLimits,
    k: int,
)
    requires
        0 <= k <= 3,
        planes_metadata(bytes, ranges, limits, k) is Ok,
    ensures
        keeps_limits(planes_metadata(bytes, ranges, limits, k)->Ok_0.0, limits),
        planes_metadata(bytes, ranges, limits, k)->Ok_0.1 == samples_until(
            planes_metadata(bytes, ranges, limits, k)->Ok_0.0,
            planes_metadata(bytes, ranges, limits, k)->Ok_0.0.len() as int,
        ),
    decreases bytes.len(), k,
{
    if k > 0 {
        lemma_planes_limits(bytes, ranges, limits, k - 1);
        let (before, total) = planes_metadata(bytes, ranges, limits, k - 1)->Ok_0;
        let (start, end) = ranges[k - 1];
        let sub = stream_metadata(bytes.subrange(start, end), limits)->Ok_0;
        metadata_keeps_limits(bytes.subrange(start, end), limits);
        lemma_samples_positive(before, before.len() as int);
        lemma_counted_samples(sub, total, limits, sub.len() as int);
        lemma_samples_join(before, sub, start, sub.len() as int);
        let all = planes_metadata(bytes, ranges, limits, k)->Ok_0.0;
        assert forall|i: int| 0 <= i < all.len() implies (#[trigger] all[i]).header.width
            * all[i].header.height <= limits.max_pixels_per_segment by {
            if i < before.len() {
                assert(all[i] == before[i]);
            } else {
                assert(all[i] == rebased(sub[i - before.len()], start));
                assert(sub[i - before.len()].header == all[i].header);
            }
        }
    }
}

proof fn lemma_samples_positive(m: Seq<SegmentMetadata>, k: int)
    ensures
        0 <= samples_until(m, k),
    decreases k,
{
    if k > 0 {
        lemma_samples_positive(m, k - 1);
        let (w, h) = (m[k - 1].header.width as int, m[k - 1].header.height as int);
        assert(0 <= w * h) by (nonlinear_arith)
            requires
                0 <= w,
                0 <= h,
        ;
    }
}

/// **Metadata is given only within limits**: of a stream or container of which
/// any segment, or all of them together, have more samples than the limits allow,
/// there is none.
pub proof fn metadata_keeps_limits(bytes: Seq<u8>, limits: DecodeLimits)
    requires
        stream_metadata(bytes, limits) is Ok,
    ensures
        keeps_limits(stream_metadata(bytes, limits)->Ok_0, limits),
    decreases bytes.len(), 4int,
{
    if !starts_container(bytes) {
        lemma_plain_limits(bytes, limits);
    } else {
        let (format, ranges) = parsed(bytes)->Ok_0;
        lemma_ranges(bytes);
        lemma_planes_limits(bytes, ranges, limits, ranges.len() as int);
    }
}

/// **Cubes are decoded only within limits**: neither a whole cube nor one of its
/// strips has more samples than the limits allow.
pub proof fn cubes_keep_limits(bytes: Seq<u8>, limits: DecodeLimits, lenient: bool)
    requires
        cube_decoded(bytes, limits, lenient) is Ok,
    ensures
        ({
            let h = cube_decoded(bytes, limits, lenient)->Ok_0.header;
            &&& h.width * h.height * h.bands <= limits.max_total_pixels
            &&& h.width * (if h.transform {
                h.height
            } else {
                h.strip
            }) * h.bands <= limits.max_pixels_per_segment
        }),
{
}

} // verus!
