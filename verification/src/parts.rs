//! Encoding of images that are segmented in the transform domain, and of
//! segments that a budget leaves out.

use crate::assemble::missing_of;
use crate::bitplane::ScanFilter;
use crate::bytes::append_bytes;
use crate::compress::{body_of_packets, choose_planes, coded_packets_of, coded_selection, emit_segment_header_and_body, encode_packets, header_planes, lowest_bit, min_visited_skip, planes_for, Settings};
use crate::emit::{packets_bytes, segment_stream, serialize_packets_msb_down, serialize_priority_packets, stream_of, Quota};
use crate::error::{fails_with, Fault, Result};
use crate::header::{Packet, Segment, SegmentHeader};
use crate::merge::{block_of, can_segment, divide_image, ll_partition, ll_size, window_at};
use crate::partition::{is_params, is_rect, segment_map};
use crate::priority::{lemma_index, min_loss_skip_map};
use crate::scan::{repeated, Grid};
use vstd::prelude::*;

verus! {

// ---------------------------------------------------------------------------
// Segments that are left out
// ---------------------------------------------------------------------------

/// A segment without packets.
pub open spec fn empty_segment(header: SegmentHeader) -> Segment {
    Segment { header, packets: Seq::empty() }
}

/// Empty segments for those of the first `k` headers whose segments were left
/// out.
pub open spec fn placeholders(kept: Seq<bool>, headers: Seq<SegmentHeader>, k: int) -> Seq<Segment>
    decreases k,
{
    if k <= 0 {
        Seq::empty()
    } else if kept[k - 1] {
        placeholders(kept, headers, k - 1)
    } else {
        placeholders(kept, headers, k - 1).push(empty_segment(headers[k - 1]))
    }
}

pub proof fn lemma_stream_join(a: Seq<Segment>, b: Seq<Segment>)
    ensures
        stream_of(a + b) == stream_of(a) + stream_of(b),
    decreases b.len(),
{
    if b.len() == 0 {
        assert(a + b =~= a);
        assert(stream_of(a) + stream_of(b) =~= stream_of(a));
    } else {
        lemma_stream_join(a, b.drop_last());
        assert((a + b).drop_last() =~= a + b.drop_last());
        assert(stream_of(a + b) =~= stream_of(a) + stream_of(b));
    }
}

pub proof fn lemma_stream_push(a: Seq<Segment>, s: Segment)
    ensures
        stream_of(a.push(s)) == stream_of(a) + segment_stream(s),
{
    assert(a.push(s).drop_last() =~= a);
}

/// Append empty segments for those that were left out.
pub(crate) fn emit_skipped_placeholders(
    out: &mut Vec<u8>,
    kept: &Vec<bool>,
    headers: &Vec<SegmentHeader>,
    Ghost(before): Ghost<Seq<Segment>>,
)
    requires
        kept@.len() == headers@.len(),
        old(out)@ == stream_of(before),
    ensures
        final(out)@ == stream_of(before + placeholders(kept@, headers@, kept@.len() as int)),
{
    let mut k: usize = 0;
    assert(before + Seq::<Segment>::empty() =~= before);
    while k < kept.len()
        invariant
            k <= kept@.len() == headers@.len(),
            out@ == stream_of(before + placeholders(kept@, headers@, k as int)),
        decreases kept@.len() - k,
    {
        if !kept[k] {
            let head = headers[k].encode();
            append_bytes(out, head.as_slice());
            proof {
                let s = empty_segment(headers@[k as int]);
                let so_far = before + placeholders(kept@, headers@, k as int);
                assert(before + placeholders(kept@, headers@, k + 1) =~= so_far.push(s));
                lemma_stream_push(so_far, s);
                assert(packets_bytes(Seq::<Packet>::empty()) =~= Seq::empty());
                assert(segment_stream(s) =~= s.header.to_bytes());
            }
        }
        k = k + 1;
    }
}

// ---------------------------------------------------------------------------
// Parts of a transform
// ---------------------------------------------------------------------------

/// Header of a part.
pub open spec fn part_header(
    set: Settings,
    width: int,
    height: int,
    q: u8,
    index: u16,
    total: u8,
    length: int,
) -> SegmentHeader {
    SegmentHeader {
        sync_prefix: set.sync_prefix,
        filter: set.filter,
        decomp_levels: set.levels,
        uncompressed: false,
        width: width as u16,
        height: height as u16,
        bit_plane_count: header_planes(q),
        interleaved_entropy: set.interleaved,
        transform_segmented: true,
        total_segments: total,
        priority_interleaved: set.priority,
        segment_length: length as u16,
        segment_index: index,
    }
}

fn make_part_header(
    set: &Settings,
    width: usize,
    height: usize,
    q: u8,
    index: u16,
    total: u8,
    length: usize,
) -> (h: SegmentHeader)
    ensures
        h == part_header(
            *set,
            width as int,
            height as int,
            q,
            index,
            total,
            length as int,
        ),
{
    let planes: u8 = if q < 1 {
        1
    } else if q > 32 {
        32
    } else {
        q
    };
    SegmentHeader {
        sync_prefix: set.sync_prefix,
        filter: set.filter,
        decomp_levels: set.levels,
        uncompressed: false,
        width: width as u16,
        height: height as u16,
        bit_plane_count: planes,
        interleaved_entropy: set.interleaved,
        transform_segmented: true,
        total_segments: total,
        priority_interleaved: set.priority,
        segment_length: length as u16,
        segment_index: index,
    }
}

/// The coefficients of a block of a buffer, row by row.
pub open spec fn block_coeffs(coeffs: Seq<i32>, width: int, window: (usize, usize, usize, usize)) -> Seq<i32> {
    let (x0, x1, y0, y1) = window;
    let w = x1 - x0;
    Seq::new(
        (w * (y1 - y0)) as nat,
        |i: int| coeffs[(y0 + i / w) * width + x0 + i % w],
    )
}

/// Part `index` of a transform as a segment, or why it cannot be one.
pub open spec fn part_segment(
    set: Settings,
    coeffs: Seq<i32>,
    width: usize,
    height: usize,
    index: u16,
    total: u8,
    budget: Option<u64>,
) -> core::result::Result<Segment, Fault> {
    let g = Grid { width, height, levels: set.levels };
    let p = ll_partition(width as int, height as int, set.levels as int, total as int);
    let map = segment_map(p, width as int, height as int, set.levels as int);
    let window = window_at(p, index as int, width as int, height as int, set.levels as int);
    let f = coded_selection(set, g, Some((map, index)), Some(window));
    let q = planes_for(set, block_coeffs(coeffs, width as int, window));
    match body_of_packets(
        set,
        coded_packets_of(set, g, coeffs, f, q),
        q,
        Quota { budget, target: set.target },
        lowest_bit(f, g.area()),
        None,
    ) {
        Err(f) => Err(f),
        Ok(packets) => Ok(
            Segment {
                header: part_header(
                    set,
                    width as int,
                    height as int,
                    q,
                    index,
                    total,
                    packets_bytes(packets).len() as int,
                ),
                packets,
            },
        ),
    }
}

fn copy_block(coeffs: &Vec<i32>, width: usize, height: usize, window: (usize, usize, usize, usize)) -> (out: Vec<
    i32,
>)
    requires
        width * height <= usize::MAX,
        coeffs@.len() == width * height,
        window.0 < window.1 <= width,
        window.2 < window.3 <= height,
    ensures
        out@ == block_coeffs(coeffs@, width as int, window),
{
    let (x0, x1, y0, y1) = window;
    let w: usize = x1 - x0;
    let ghost all = block_coeffs(coeffs@, width as int, window);
    let mut out: Vec<i32> = Vec::new();
    let mut y: usize = y0;
    assert(all.take(0) =~= Seq::empty());
    assert((y0 - y0) * w == 0);
    while y < y1
        invariant
            y0 <= y <= y1 <= height,
            x0 < x1 <= width,
            w == x1 - x0,
            width * height <= usize::MAX,
            coeffs@.len() == width * height,
            all == block_coeffs(coeffs@, width as int, (x0, x1, y0, y1)),
            out@ == all.take((y - y0) * w),
        decreases y1 - y,
    {
        let mut x: usize = x0;
        while x < x1
            invariant
                x0 <= x <= x1 <= width,
                y0 <= y < y1 <= height,
                w == x1 - x0,
                width * height <= usize::MAX,
                coeffs@.len() == width * height,
                all == block_coeffs(coeffs@, width as int, (x0, x1, y0, y1)),
                out@ == all.take((y - y0) * w + (x - x0)),
            decreases x1 - x,
        {
            proof {
                lemma_index(x as int, y as int, width as int, height as int);
                lemma_index(x - x0, y - y0, w as int, y1 - y0);
                let k = (y - y0) * w + (x - x0);
                assert(all[k] == coeffs@[y * width + x]);
                assert(all.take(k + 1) =~= all.take(k).push(coeffs@[y * width + x]));
            }
            out.push(coeffs[y * width + x]);
            x = x + 1;
        }
        assert((y + 1 - y0) * w == (y - y0) * w + w) by (nonlinear_arith);
        y = y + 1;
    }
    assert((y1 - y0) * w == w * (y1 - y0)) by (nonlinear_arith);
    assert(all.take((y1 - y0) * w) =~= all);
    out
}

/// Encode one part of a transform.
fn encode_one_transform_segment(
    set: &Settings,
    coeffs: &Vec<i32>,
    map: &Vec<u16>,
    skip: &Option<Vec<u8>>,
    window: (usize, usize, usize, usize),
    width: usize,
    height: usize,
    index: u16,
    total: u8,
    budget: Option<u64>,
) -> (r: Result<Vec<u8>>)
    requires
        set.ok(),
        width * height <= usize::MAX,
        coeffs@.len() == width * height,
        window.0 < window.1 <= width,
        window.2 < window.3 <= height,
        ({
            let g = Grid { width, height, levels: set.levels };
            let p = ll_partition(width as int, height as int, set.levels as int, total as int);
            let f = coded_selection(*set, g, Some((map@, index)), Some(window));
            &&& map@ == segment_map(p, width as int, height as int, set.levels as int)
            &&& window == window_at(
                p,
                index as int,
                width as int,
                height as int,
                set.levels as int,
            )
            &&& f.skip == (match *skip {
                Some(m) => Some(m@),
                None => None,
            })
            &&& f.fits(width * height)
        }),
    ensures
        match part_segment(*set, coeffs@, width, height, index, total, budget) {
            Err(f) => fails_with(r, f),
            Ok(s) => r is Ok && r->Ok_0@ == segment_stream(s),
        },
{
    let ghost g = Grid { width, height, levels: set.levels };
    let block = copy_block(coeffs, width, height, window);
    let q: u8 = choose_planes(set, block.as_slice());
    let filter = ScanFilter {
        segment: Some((map.as_slice(), index)),
        skip: match skip {
            Some(m) => Some(m.as_slice()),
            None => None,
        },
        window: Some(window),
    };
    assert(filter@ == coded_selection(*set, g, Some((map@, index)), Some(window)));
    let packets = encode_packets(set, coeffs, width, height, &filter, q);
    let quota = Quota { budget, target: set.target };
    let body = if set.priority {
        serialize_priority_packets(&packets, set.min_loss, quota)
    } else {
        let floor: u8 = min_visited_skip(&filter, width * height);
        serialize_packets_msb_down(&packets, q, set.min_loss, quota, floor, None)
    };
    match body {
        Err(e) => Err(e),
        Ok(bytes) => {
            let header = make_part_header(set, width, height, q, index, total, bytes.len());
            Ok(emit_segment_header_and_body(&header, &bytes))
        },
    }
}

/// What has been written: segments, and for each index whether its segment is
/// among them.
pub struct Written {
    /// The segments in the order of the stream.
    pub segments: Seq<Segment>,
    /// For each index whether its segment was written.
    pub kept: Seq<bool>,
}

/// Bytes of the empty segments that are due if segment `i` is written and all
/// others that were not are left out.
pub open spec fn reserve_of(kept: Seq<bool>, i: int) -> int {
    12 * missing_of(kept.update(i, true), kept.len() as int)
}

/// What is left of a budget.
pub open spec fn left_of(budget: int, used: int, reserve: int) -> int {
    if budget - used - reserve < 0 {
        0
    } else {
        budget - used - reserve
    }
}

/// The parts of a transform after the first `k` of an order. A part gets what
/// the budget leaves beside the empty segments of the others; one that does
/// not fit is left out.
pub open spec fn parts_written(
    set: Settings,
    coeffs: Seq<i32>,
    width: usize,
    height: usize,
    total: u8,
    order: Seq<u16>,
    budget: Option<u64>,
    k: int,
) -> core::result::Result<Written, Fault>
    decreases k,
{
    if k <= 0 {
        Ok(Written { segments: Seq::empty(), kept: Seq::new(total as nat, |i: int| false) })
    } else {
        match parts_written(set, coeffs, width, height, total, order, budget, k - 1) {
            Err(f) => Err(f),
            Ok(w) => {
                let i = order[k - 1];
                let inner = match budget {
                    Some(b) => Some(
                        left_of(
                            b as int,
                            stream_of(w.segments).len() as int,
                            reserve_of(w.kept, i as int),
                        ) as u64,
                    ),
                    None => None,
                };
                match part_segment(set, coeffs, width, height, i, total, inner) {
                    Err(f) => Err(f),
                    Ok(s) => if inner matches Some(b) && segment_stream(s).len() > b {
                        Ok(w)
                    } else {
                        Ok(
                            Written {
                                segments: w.segments.push(s),
                                kept: w.kept.update(i as int, true),
                            },
                        )
                    },
                }
            },
        }
    }
}

/// Headers of the empty segments of a transform.
pub open spec fn part_headers(set: Settings, width: int, height: int, total: u8) -> Seq<SegmentHeader> {
    Seq::new(
        total as nat,
        |i: int|
            part_header(set, width, height, set.bit_plane_count, i as u16, total, 0),
    )
}

/// The segments of an image that is segmented in the transform domain, or why
/// it cannot be encoded.
pub open spec fn parts_encoded(
    set: Settings,
    coeffs: Seq<i32>,
    width: usize,
    height: usize,
    total: u8,
    order: Seq<u16>,
    budget: Option<u64>,
) -> core::result::Result<Seq<Segment>, Fault> {
    match parts_written(set, coeffs, width, height, total, order, budget, order.len() as int) {
        Err(f) => Err(f),
        Ok(w) => Ok(
            w.segments + placeholders(
                w.kept,
                part_headers(set, width as int, height as int, total),
                total as int,
            ),
        ),
    }
}

proof fn lemma_parts_stop(
    set: Settings,
    coeffs: Seq<i32>,
    width: usize,
    height: usize,
    total: u8,
    order: Seq<u16>,
    budget: Option<u64>,
    k: int,
    n: int,
)
    requires
        1 <= k <= n,
        parts_written(set, coeffs, width, height, total, order, budget, k) is Err,
    ensures
        parts_written(set, coeffs, width, height, total, order, budget, n) == parts_written(
            set,
            coeffs,
            width,
            height,
            total,
            order,
            budget,
            k,
        ),
    decreases n,
{
    if n > k {
        lemma_parts_stop(set, coeffs, width, height, total, order, budget, k, n - 1);
    }
}

pub proof fn lemma_missing_bound(kept: Seq<bool>, k: int)
    requires
        0 <= k,
    ensures
        0 <= missing_of(kept, k) <= k,
    decreases k,
{
    if k > 0 {
        lemma_missing_bound(kept, k - 1);
    }
}

/// Number of false values beside that at `i`.
pub(crate) fn others_missing(kept: &Vec<bool>, i: usize) -> (n: usize)
    requires
        i < kept@.len(),
    ensures
        n == missing_of(kept@.update(i as int, true), kept@.len() as int),
        n <= kept@.len(),
{
    let ghost marked = kept@.update(i as int, true);
    let mut n: usize = 0;
    let mut k: usize = 0;
    while k < kept.len()
        invariant
            k <= kept@.len(),
            i < kept@.len(),
            marked == kept@.update(i as int, true),
            n <= k,
            n == missing_of(marked, k as int),
        decreases kept@.len() - k,
    {
        if !kept[k] && k != i {
            n = n + 1;
        }
        k = k + 1;
    }
    n
}

/// What is left of a budget of bytes.
pub(crate) fn bytes_left(budget: u64, used: usize, segments: usize) -> (r: u64)
    ensures
        r == left_of(budget as int, used as int, 12 * segments),
{
    let taken: u128 = used as u128 + 12 * segments as u128;
    if taken > budget as u128 {
        0
    } else {
        (budget as u128 - taken) as u64
    }
}

/// Encode an image that is segmented in the transform domain.
pub(crate) fn encode_parts(
    set: &Settings,
    coeffs: &Vec<i32>,
    width: usize,
    height: usize,
    total: u8,
    order: &Vec<u16>,
    budget: Option<u64>,
) -> (r: Result<Vec<u8>>)
    requires
        set.ok(),
        1 <= width,
        1 <= height,
        width * height <= usize::MAX,
        coeffs@.len() == width * height,
        can_segment(width as int, height as int, set.levels as int, total as int),
        forall|i: int| 0 <= i < order@.len() ==> #[trigger] order@[i] < total,
    ensures
        match parts_encoded(*set, coeffs@, width, height, total, order@, budget) {
            Err(f) => fails_with(r, f),
            Ok(segments) => r is Ok && r->Ok_0@ == stream_of(segments),
        },
{
    let levels: u8 = set.levels;
    let count: usize = total as usize;
    let (rects, map) = match divide_image(width, height, levels, count) {
        Ok(v) => v,
        Err(e) => return Err(e),
    };
    let ghost g = Grid { width, height, levels };
    let ghost p = ll_partition(width as int, height as int, levels as int, total as int);
    let skip = if set.min_loss > 0 && !set.priority {
        Some(min_loss_skip_map(width, height, levels, set.min_loss))
    } else {
        None
    };
    let mut out: Vec<u8> = Vec::new();
    let mut kept = repeated(false, count);
    let ghost mut w = Written {
        segments: Seq::empty(),
        kept: Seq::new(total as nat, |i: int| false),
    };
    assert(kept@ =~= w.kept);
    let mut k: usize = 0;
    while k < order.len()
        invariant
            k <= order@.len(),
            set.ok(),
            1 <= width,
            1 <= height,
            width * height <= usize::MAX,
            coeffs@.len() == width * height,
            levels == set.levels,
            count == total,
            g == (Grid { width, height, levels }),
            can_segment(width as int, height as int, levels as int, total as int),
            forall|i: int| 0 <= i < order@.len() ==> #[trigger] order@[i] < total,
            p == ll_partition(width as int, height as int, levels as int, total as int),
            is_params(
                ll_size(width as int, height as int, levels as int).0,
                ll_size(width as int, height as int, levels as int).1,
                total as int,
                p,
            ),
            rects@.len() == total,
            forall|j: int| 0 <= j < total ==> is_rect(p, j, #[trigger] rects@[j]),
            map@ == segment_map(p, width as int, height as int, levels as int),
            coded_selection(*set, g, Some((map@, 0)), None).skip == (match skip {
                Some(m) => Some(m@),
                None => None,
            }),
            skip matches Some(m) ==> m@.len() == width * height,
            parts_written(*set, coeffs@, width, height, total, order@, budget, k as int) == Ok::<
                Written,
                Fault,
            >(w),
            w.kept == kept@,
            kept@.len() == total,
            out@ == stream_of(w.segments),
        decreases order@.len() - k,
    {
        let index: u16 = order[k];
        assert(order@[k as int] < total);
        let window = block_of(&rects, index as usize, width, height, levels, count);
        let inner: Option<u64> = match budget {
            Some(b) => {
                let others: usize = others_missing(&kept, index as usize);
                Some(bytes_left(b, out.len(), others))
            },
            None => None,
        };
        let bytes = match encode_one_transform_segment(
            set,
            coeffs,
            &map,
            &skip,
            window,
            width,
            height,
            index,
            total,
            inner,
        ) {
            Ok(b) => b,
            Err(e) => {
                proof {
                    lemma_parts_stop(
                        *set,
                        coeffs@,
                        width,
                        height,
                        total,
                        order@,
                        budget,
                        k + 1,
                        order@.len() as int,
                    );
                }
                return Err(e);
            },
        };
        let fits: bool = match inner {
            Some(b) => bytes.len() as u64 <= b,
            None => true,
        };
        if fits {
            append_bytes(&mut out, bytes.as_slice());
            kept.set(index as usize, true);
            proof {
                let s = part_segment(
                    *set,
                    coeffs@,
                    width,
                    height,
                    index,
                    total,
                    inner,
                )->Ok_0;
                lemma_stream_push(w.segments, s);
                w = Written {
                    segments: w.segments.push(s),
                    kept: w.kept.update(index as int, true),
                };
            }
        }
        k = k + 1;
    }
    let mut headers: Vec<SegmentHeader> = Vec::new();
    let mut i: usize = 0;
    while i < count
        invariant
            i <= count == total,
            headers@.len() == i,
            forall|j: int|
                0 <= j < i ==> #[trigger] headers@[j] == part_header(
                    *set,
                    width as int,
                    height as int,
                    set.bit_plane_count,
                    j as u16,
                    total,
                    0,
                ),
        decreases count - i,
    {
        headers.push(make_part_header(set, width, height, set.bit_plane_count, i as u16, total, 0));
        i = i + 1;
    }
    assert(headers@ =~= part_headers(*set, width as int, height as int, total));
    emit_skipped_placeholders(&mut out, &kept, &headers, Ghost(w.segments));
    Ok(out)
}

} // verus!
