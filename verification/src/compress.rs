//! Encoding of one segment.

use crate::bitplane::{bitplanes_coded, coded_views, encode_bitplanes_filtered, encode_bitplanes_prioritized, planes_coded, planes_from, prioritized_coded, select_bit_plane_count, BitPlaneInput, Coded, EncodedPacket, ScanFilter};
use crate::bytes::append_bytes;
use crate::emit::{groups_body, packets_bytes, planes_body, segment_stream, serialize_packets_msb_down, serialize_priority_packets, Quota};
use crate::entropy::{coder_for, coder_of, EntropyKind};
use crate::error::{fails_with, Fault, IcerError, Result};
use crate::header::{BitPlanePass, Packet, PacketHeader, Segment, SegmentHeader, WaveletFilter};
use crate::image::IcerPlane;
use crate::priority::{lemma_index, min_loss_skip_map, skip_map};
use crate::rd::{best_plan, numbers, pick_lower_distortion_mask, promise_all, promises, select_packets_by_rd, strict_msb_prefix_mask, subband_weight_map, truncated_until, weight_map, Coding2d};
use crate::scan::{Grid, Selection};
use crate::strip::{depth_in_range, read_samples, rows_inside, sample_len, sample_size, shifted_samples};
use crate::text::with_number;
use crate::wavelet_int::{forward_2d_dyadic, forward_levels, has_integer_transform, is_integer, weights_of};
use vstd::prelude::*;

verus! {

/// How segments are encoded.
#[derive(Debug, Clone, Copy, PartialEq, Eq, Structural)]
pub struct Settings {
    /// Synchronisation prefix of the headers.
    pub sync_prefix: u16,
    /// Wavelet filter.
    pub filter: WaveletFilter,
    /// Decomposition levels, 1 to 6.
    pub levels: u8,
    /// Least number of bit planes.
    pub bit_plane_count: u8,
    /// Use the interleaved entropy coder.
    pub interleaved: bool,
    /// Order the packets by priority.
    pub priority: bool,
    /// Minimum loss.
    pub min_loss: u8,
    /// Choose packets by their promise.
    pub rd_pruning: bool,
    /// Write raw samples where they are shorter.
    pub fallback: bool,
    /// Write raw samples.
    pub uncompressed: bool,
    /// Soft limit of a segment in bytes.
    pub target: Option<u64>,
    /// Bits of a sample.
    pub bits: u8,
    /// Number of segments.
    pub segment_count: u16,
    /// Segment the image in the transform domain.
    pub transform: bool,
}

impl Settings {
    /// The fields lie in their ranges.
    pub open spec fn ok(self) -> bool {
        1 <= self.levels <= 6 && depth_in_range(self.bits)
    }

    /// Number of segments, at least 1.
    pub open spec fn count(self) -> int {
        if self.segment_count == 0 {
            1
        } else {
            self.segment_count as int
        }
    }

    /// The settings contradict each other.
    pub open spec fn conflicting(self) -> bool {
        ||| self.min_loss > 0 && (self.uncompressed || self.rd_pruning)
        ||| self.priority && self.rd_pruning
        ||| self.transform && (self.uncompressed || self.rd_pruning || self.fallback)
    }

    /// Number of segments, at least 1.
    pub(crate) fn segments(&self) -> (n: usize)
        ensures
            n == self.count(),
            1 <= n <= 0xFFFF,
    {
        if self.segment_count == 0 {
            1
        } else {
            self.segment_count as usize
        }
    }

    /// Whether the settings contradict each other.
    pub(crate) fn is_conflicting(&self) -> (r: bool)
        ensures
            r == self.conflicting(),
    {
        (self.min_loss > 0 && (self.uncompressed || self.rd_pruning)) || (self.priority
            && self.rd_pruning) || (self.transform && (self.uncompressed || self.rd_pruning
            || self.fallback))
    }
}

/// Number of bit planes of a header: 1 to 32.
pub open spec fn header_planes(q: u8) -> u8 {
    if q < 1 {
        1
    } else if q > 32 {
        32
    } else {
        q
    }
}

/// Header of a strip.
pub open spec fn strip_header(
    set: Settings,
    uncompressed: bool,
    width: int,
    height: int,
    q: u8,
    index: u16,
    length: int,
) -> SegmentHeader {
    SegmentHeader {
        sync_prefix: set.sync_prefix,
        filter: set.filter,
        decomp_levels: set.levels,
        uncompressed,
        width: width as u16,
        height: height as u16,
        bit_plane_count: header_planes(q),
        interleaved_entropy: set.interleaved && !uncompressed,
        transform_segmented: false,
        total_segments: 0,
        priority_interleaved: set.priority && !uncompressed,
        segment_length: length as u16,
        segment_index: index,
    }
}

/// Header of a strip.
pub(crate) fn make_strip_header(
    set: &Settings,
    uncompressed: bool,
    width: usize,
    height: usize,
    q: u8,
    index: u16,
    length: usize,
) -> (h: SegmentHeader)
    ensures
        h == strip_header(
            *set,
            uncompressed,
            width as int,
            height as int,
            q,
            index,
            length as int,
        ),
{
    let planes: u8 = if q < 1 {
        1
    } else if q > 32 {
        32
    } else {
        q
    };
    SegmentHeader {
        sync_prefix: set.sync_prefix,
        filter: set.filter,
        decomp_levels: set.levels,
        uncompressed,
        width: width as u16,
        height: height as u16,
        bit_plane_count: planes,
        interleaved_entropy: set.interleaved && !uncompressed,
        transform_segmented: false,
        total_segments: 0,
        priority_interleaved: set.priority && !uncompressed,
        segment_length: length as u16,
        segment_index: index,
    }
}

// ---------------------------------------------------------------------------
// Packets of a buffer of coefficients
// ---------------------------------------------------------------------------

/// The smallest number of bits that the first `n` coefficients of a selection
/// skip; 255 where there is none.
pub open spec fn least_skip(f: Selection, n: int) -> u8
    decreases n,
{
    if n <= 0 {
        255
    } else {
        let before = least_skip(f, n - 1);
        if f.in_segment(n - 1) && f.skipped(n - 1) < before {
            f.skipped(n - 1) as u8
        } else {
            before
        }
    }
}

/// The lowest bit that any of `n` coefficients lets be coded.
pub open spec fn lowest_bit(f: Selection, n: int) -> u8 {
    let m = least_skip(f, n);
    if f.skip is None || m == 255 {
        0
    } else {
        m
    }
}

/// The coefficients that a segment codes.
pub open spec fn coded_selection(
    set: Settings,
    g: Grid,
    segment: Option<(Seq<u16>, u16)>,
    window: Option<(usize, usize, usize, usize)>,
) -> Selection {
    Selection {
        segment,
        skip: if set.min_loss > 0 && !set.priority {
            Some(skip_map(g.width as int, g.height as int, g.levels, set.min_loss as int))
        } else {
            None
        },
        window,
    }
}

/// The packets of coefficients with `q` bit planes.
pub open spec fn coded_packets_of(
    set: Settings,
    g: Grid,
    coeffs: Seq<i32>,
    f: Selection,
    q: u8,
) -> Seq<Coded> {
    let kind = coder_of(set.interleaved);
    if set.priority {
        prioritized_coded(g, coeffs, f, kind, q, set.min_loss)
    } else {
        bitplanes_coded(g, coeffs, f, kind, q)
    }
}

/// The packets of a segment, or why there are none.
pub open spec fn body_of_packets(
    set: Settings,
    packets: Seq<Coded>,
    q: u8,
    quota: Quota,
    floor: u8,
    chosen: Option<Seq<bool>>,
) -> core::result::Result<Seq<Packet>, Fault> {
    if set.priority {
        groups_body(packets, set.min_loss, quota)
    } else {
        planes_body(packets, q, set.min_loss, quota, floor, chosen)
    }
}

/// The number of bit planes of coefficients: enough for all of them, and at
/// least the number that was asked for.
pub open spec fn planes_for(set: Settings, coeffs: Seq<i32>) -> u8 {
    let needed = planes_from(coeffs, 1);
    let asked = if set.bit_plane_count < 31 {
        set.bit_plane_count as int
    } else {
        31
    };
    (if needed > asked {
        needed
    } else {
        asked
    }) as u8
}

pub(crate) fn choose_planes(set: &Settings, coeffs: &[i32]) -> (q: u8)
    ensures
        q == planes_for(*set, coeffs@),
        1 <= q <= 31,
{
    let needed: u8 = select_bit_plane_count(coeffs);
    let asked: u8 = if set.bit_plane_count < 31 {
        set.bit_plane_count
    } else {
        31
    };
    if needed > asked {
        needed
    } else {
        asked
    }
}

pub(crate) fn min_visited_skip(filter: &ScanFilter, n: usize) -> (floor: u8)
    requires
        filter@.fits(n as int),
    ensures
        floor == lowest_bit(filter@, n as int),
{
    match filter.skip {
        None => 0,
        Some(skip) => {
            let mut least: u8 = 255;
            let mut i: usize = 0;
            while i < n
                invariant
                    i <= n,
                    filter@.fits(n as int),
                    filter.skip == Some(skip),
                    least == least_skip(filter@, i as int),
                decreases n - i,
            {
                let inside: bool = match filter.segment {
                    Some((map, seg)) => map[i] == seg,
                    None => true,
                };
                if inside && skip[i] < least {
                    least = skip[i];
                }
                i = i + 1;
            }
            if least == 255 {
                0
            } else {
                least
            }
        },
    }
}

/// The bytes that a budget leaves for the body of a segment.
pub open spec fn body_budget(budget: u64) -> int {
    if budget < 12 {
        0
    } else {
        budget - 12
    }
}

/// How a strip is coded.
pub open spec fn strip_coding(set: Settings, width: usize, height: usize, q: u8) -> Coding2d {
    Coding2d {
        width,
        height,
        levels: set.levels,
        filter: set.filter,
        kind: coder_of(set.interleaved),
        q,
        bits: set.bits,
    }
}

/// The packets of a strip that are taken under a budget: those of the best
/// plan, or those of plain truncation where they decode to a smaller error.
pub open spec fn packets_chosen(
    set: Settings,
    samples: Seq<i32>,
    coeffs: Seq<i32>,
    packets: Seq<Coded>,
    width: usize,
    height: usize,
    q: u8,
    budget: u64,
) -> Seq<bool> {
    let weights = weight_map(width, height, set.levels, set.filter);
    strip_coding(set, width, height, q).better_of(
        samples,
        packets,
        best_plan(
            packets,
            promises(coeffs, weights, q, packets),
            body_budget(budget),
            q as int,
        ).chosen,
        truncated_until(packets, body_budget(budget), 2 * q).0,
    )
}

/// Packets are chosen by their promise.
pub open spec fn choosing(set: Settings, budget: Option<u64>) -> bool {
    set.rd_pruning && !set.priority && budget is Some
}

/// The coefficients of samples.
pub open spec fn coefficients(set: Settings, samples: Seq<i32>, width: usize, height: usize) -> Seq<i32> {
    forward_levels(weights_of(set.filter), width, height, samples, set.levels as int)
}

/// The packets of a strip and the number of its bit planes, or why there are
/// none.
pub open spec fn strip_body(
    set: Settings,
    samples: Seq<i32>,
    width: usize,
    height: usize,
    budget: Option<u64>,
) -> core::result::Result<(u8, Seq<Packet>), Fault> {
    let g = Grid { width, height, levels: set.levels };
    let coeffs = coefficients(set, samples, width, height);
    let q = planes_for(set, coeffs);
    let f = coded_selection(set, g, None, None);
    let packets = coded_packets_of(set, g, coeffs, f, q);
    let floor = lowest_bit(f, g.area());
    let body = if choosing(set, budget) {
        body_of_packets(
            set,
            packets,
            q,
            Quota { budget, target: None },
            floor,
            Some(packets_chosen(set, samples, coeffs, packets, width, height, q, budget->0)),
        )
    } else {
        body_of_packets(set, packets, q, Quota { budget, target: set.target }, floor, None)
    };
    match body {
        Err(f) => Err(f),
        Ok(list) => Ok((q, list)),
    }
}

/// A strip cannot be compressed: a side is shorter than two samples or longer
/// than a header can say, or the filter has no integer transform.
pub open spec fn strip_refused(set: Settings, width: int, height: int) -> bool {
    width < 2 || height < 2 || width > 0xFFFF || height > 0xFFFF || !is_integer(set.filter)
}

/// A strip as a compressed segment, or why it cannot be one.
pub open spec fn strip_compressed(
    set: Settings,
    samples: Seq<i32>,
    width: usize,
    height: usize,
    index: u16,
    budget: Option<u64>,
) -> core::result::Result<Segment, Fault> {
    if strip_refused(set, width as int, height as int) {
        Err(Fault::Unsupported)
    } else {
        match strip_body(set, samples, width, height, budget) {
            Err(f) => Err(f),
            Ok((q, packets)) => Ok(
                Segment {
                    header: strip_header(
                        set,
                        false,
                        width as int,
                        height as int,
                        q,
                        index,
                        packets_bytes(packets).len() as int,
                    ),
                    packets,
                },
            ),
        }
    }
}

/// The packets of coefficients with `q` bit planes.
pub(crate) fn encode_packets(
    set: &Settings,
    coeffs: &Vec<i32>,
    width: usize,
    height: usize,
    filter: &ScanFilter,
    q: u8,
) -> (packets: Vec<EncodedPacket>)
    requires
        set.ok(),
        1 <= q <= 31,
        width * height <= usize::MAX,
        coeffs@.len() == width * height,
        filter@.fits(width * height),
    ensures
        coded_views(packets@) == coded_packets_of(
            *set,
            Grid { width, height, levels: set.levels },
            coeffs@,
            filter@,
            q,
        ),
{
    let input = BitPlaneInput { coeffs: coeffs.as_slice(), width, height, q, levels: set.levels };
    let kind = coder_for(set.interleaved);
    let r = if set.priority {
        encode_bitplanes_prioritized(&input, kind, filter, set.min_loss)
    } else {
        encode_bitplanes_filtered(&input, kind, filter)
    };
    match r {
        Ok(p) => p,
        Err(_) => Vec::new(),
    }
}

fn choose_packets(
    set: &Settings,
    samples: &Vec<i32>,
    coeffs: &Vec<i32>,
    packets: &Vec<EncodedPacket>,
    width: usize,
    height: usize,
    q: u8,
    budget: u64,
) -> (chosen: Vec<bool>)
    requires
        set.ok(),
        1 <= q <= 31,
        width <= 0xFFFF,
        height <= 0xFFFF,
        width * height <= usize::MAX,
        coeffs@.len() == samples@.len() == width * height,
        forall|i: int| 0 <= i < packets@.len() ==> (#[trigger] packets@[i]).bit_plane < q,
    ensures
        chosen@ == packets_chosen(
            *set,
            samples@,
            coeffs@,
            coded_views(packets@),
            width,
            height,
            q,
            budget,
        ),
        chosen@.len() == packets@.len(),
{
    let room: u64 = if budget < 12 {
        0
    } else {
        budget - 12
    };
    assert(width * height <= 0x1_0000_0000) by (nonlinear_arith)
        requires
            0 <= width <= 0xFFFF,
            0 <= height <= 0xFFFF,
    ;
    let weights = subband_weight_map(width, height, set.levels, set.filter);
    let promised = promise_all(coeffs.as_slice(), weights.as_slice(), q, packets);
    assert(numbers(promised@) =~= promises(coeffs@, weights@, q, coded_views(packets@)));
    let greedy = select_packets_by_rd(packets, &promised, q, room);
    let strict = strict_msb_prefix_mask(packets, q, room);
    let coding = Coding2d {
        width,
        height,
        levels: set.levels,
        filter: set.filter,
        kind: coder_for(set.interleaved),
        q,
        bits: set.bits,
    };
    pick_lower_distortion_mask(&coding, samples, packets, greedy, strict)
}

/// The header of a segment and its body.
pub(crate) fn emit_segment_header_and_body(header: &SegmentHeader, body: &Vec<u8>) -> (out: Vec<u8>)
    ensures
        out@ == header.to_bytes() + body@,
{
    let head = header.encode();
    let mut out: Vec<u8> = Vec::new();
    append_bytes(&mut out, head.as_slice());
    assert(out@ =~= header.to_bytes());
    append_bytes(&mut out, body.as_slice());
    out
}

/// Encode a strip as a compressed segment.
fn encode_strip(
    set: &Settings,
    samples: Vec<i32>,
    width: usize,
    height: usize,
    index: u16,
    budget: Option<u64>,
) -> (r: Result<Vec<u8>>)
    requires
        set.ok(),
        width * height <= usize::MAX,
        samples@.len() == width * height,
    ensures
        match strip_compressed(*set, samples@, width, height, index, budget) {
            Err(f) => fails_with(r, f),
            Ok(s) => r is Ok && r->Ok_0@ == segment_stream(s),
        },
{
    if width < 2 || height < 2 {
        return Err(
            IcerError::unsupported("compressed segment requires width >= 2 and height >= 2"),
        );
    }
    if width > 0xFFFF || height > 0xFFFF {
        return Err(IcerError::unsupported("segment larger than 65535 in a direction"));
    }
    if !has_integer_transform(set.filter) {
        return Err(IcerError::unsupported("the wavelet filter has no integer transform"));
    }
    let mut coeffs = copy_values(&samples);
    forward_2d_dyadic(&mut coeffs, width, height, set.levels, set.filter);
    let q: u8 = choose_planes(set, coeffs.as_slice());
    let ghost g = Grid { width, height, levels: set.levels };
    let skip = if set.min_loss > 0 && !set.priority {
        Some(min_loss_skip_map(width, height, set.levels, set.min_loss))
    } else {
        None
    };
    let filter = ScanFilter {
        segment: None,
        skip: match &skip {
            Some(m) => Some(m.as_slice()),
            None => None,
        },
        window: None,
    };
    assert(filter@ == coded_selection(*set, g, None, None));
    let packets = encode_packets(set, &coeffs, width, height, &filter, q);
    let ghost all = coded_views(packets@);
    let body = if set.priority {
        let quota = Quota { budget, target: set.target };
        serialize_priority_packets(&packets, set.min_loss, quota)
    } else {
        let floor: u8 = min_visited_skip(&filter, width * height);
        match (set.rd_pruning, budget) {
            (true, Some(b)) => {
                proof {
                    lemma_planes_in_range(g, coeffs@, filter@, coder_of(set.interleaved), q, q as int);
                    assert forall|i: int| 0 <= i < packets@.len() implies (
                    #[trigger] packets@[i]).bit_plane < q by {
                        assert(all[i] == packets@[i]@);
                    }
                }
                let chosen = choose_packets(set, &samples, &coeffs, &packets, width, height, q, b);
                let quota = Quota { budget, target: None };
                serialize_packets_msb_down(
                    &packets,
                    q,
                    set.min_loss,
                    quota,
                    floor,
                    Some(&chosen),
                )
            },
            _ => {
                let quota = Quota { budget, target: set.target };
                serialize_packets_msb_down(&packets, q, set.min_loss, quota, floor, None)
            },
        }
    };
    match body {
        Err(e) => Err(e),
        Ok(bytes) => {
            let header = make_strip_header(set, false, width, height, q, index, bytes.len());
            Ok(emit_segment_header_and_body(&header, &bytes))
        },
    }
}

/// The packets of a bit plane carry its number.
proof fn lemma_planes_in_range(
    g: Grid,
    coeffs: Seq<i32>,
    f: Selection,
    kind: EntropyKind,
    q: u8,
    p: int,
)
    requires
        0 <= p <= q <= 31,
    ensures
        forall|i: int|
            0 <= i < planes_coded(g, coeffs, f, kind, q, p).packets.len() ==> (
            #[trigger] planes_coded(g, coeffs, f, kind, q, p).packets[i]).bit_plane
                < p,
    decreases p,
{
    if p > 0 {
        lemma_planes_in_range(g, coeffs, f, kind, q, p - 1);
        let before = planes_coded(g, coeffs, f, kind, q, p - 1).packets;
        let after = planes_coded(g, coeffs, f, kind, q, p).packets;
        assert forall|i: int| 0 <= i < after.len() implies (#[trigger] after[i]).bit_plane < p by {
            if i < before.len() {
                assert(after[i] == before[i]);
            }
        }
    }
}

fn copy_values(v: &Vec<i32>) -> (r: Vec<i32>)
    ensures
        r@ == v@,
{
    let mut r: Vec<i32> = Vec::new();
    let mut i: usize = 0;
    assert(v@.take(0) =~= Seq::empty());
    while i < v.len()
        invariant
            i <= v@.len(),
            r@ == v@.take(i as int),
        decreases v@.len() - i,
    {
        r.push(v[i]);
        assert(v@.take(i + 1) =~= v@.take(i as int).push(v@[i as int]));
        i = i + 1;
    }
    assert(v@.take(v@.len() as int) =~= v@);
    r
}

// ---------------------------------------------------------------------------
// Raw segments
// ---------------------------------------------------------------------------

/// The bytes of rows `y0` to `y0 + rows` of a plane.
pub open spec fn rows_of(plane: IcerPlane, row_bytes: int, y0: int, rows: int) -> Seq<u8> {
    Seq::new(
        (row_bytes * rows) as nat,
        |i: int| plane.data@[(y0 + i / row_bytes) * plane.stride + i % row_bytes],
    )
}

/// A strip as raw samples, or why it cannot be shipped so.
pub open spec fn strip_raw(set: Settings, rows: Seq<u8>, width: int, height: int, index: u16) -> core::result::Result<
    Segment,
    Fault,
> {
    if 4 + rows.len() > 0xFFFF {
        Err(Fault::Unsupported)
    } else {
        Ok(
            Segment {
                header: strip_header(
                    set,
                    true,
                    width,
                    height,
                    set.bit_plane_count,
                    index,
                    4 + rows.len() as int,
                ),
                packets: seq![
                    Packet {
                        header: PacketHeader {
                            bit_plane: 0,
                            pass: BitPlanePass::Cleanup,
                            body_length: rows.len() as u16,
                            min_loss: 0,
                        },
                        body: rows,
                    },
                ],
            },
        )
    }
}

fn encode_raw_strip(
    set: &Settings,
    plane: &IcerPlane,
    width: usize,
    y0: usize,
    height: usize,
    index: u16,
) -> (r: Result<Vec<u8>>)
    requires
        set.ok(),
        y0 + height <= usize::MAX,
        width * height * sample_size(set.bits) <= usize::MAX,
        width * sample_size(set.bits) <= usize::MAX,
        rows_inside(*plane, width * sample_size(set.bits), y0 + height),
    ensures
        ({
            let rows = rows_of(
                *plane,
                width * sample_size(set.bits),
                y0 as int,
                height as int,
            );
            match strip_raw(*set, rows, width as int, height as int, index) {
                Err(f) => fails_with(r, f),
                Ok(s) => r is Ok && r->Ok_0@ == segment_stream(s),
            }
        }),
{
    let row_bytes: usize = width * sample_len(set.bits);
    let ghost all = rows_of(*plane, row_bytes as int, y0 as int, height as int);
    let ghost size = sample_size(set.bits);
    assert(width * height * size == row_bytes * height) by (nonlinear_arith)
        requires
            row_bytes == width * size,
    ;
    let n: usize = row_bytes * height;
    if n > 0xFFFF - 4 {
        return Err(
            IcerError::Unsupported(
                with_number("uncompressed segment of ", n as u64, " bytes exceeds u16 limit"),
            ),
        );
    }
    let mut body: Vec<u8> = Vec::new();
    let mut y: usize = 0;
    assert(all.take(0) =~= Seq::empty());
    assert(0 * row_bytes == 0);
    while y < height
        invariant
            y <= height,
            y0 + height <= usize::MAX,
            n == row_bytes * height,
            rows_inside(*plane, row_bytes as int, y0 + height),
            all == rows_of(*plane, row_bytes as int, y0 as int, height as int),
            body@ == all.take(y * row_bytes),
        decreases height - y,
    {
        proof {
            crate::strip::lemma_row_inside(*plane, row_bytes as int, y0 + height, y0 + y);
            assert((y0 + y) * plane.stride <= plane.data.len());
        }
        let start: usize = (y0 + y) * plane.stride;
        let row = crate::bytes::slice_of(plane.data.as_slice(), start, start + row_bytes);
        append_bytes(&mut body, row);
        proof {
            assert((y + 1) * row_bytes == y * row_bytes + row_bytes) by (nonlinear_arith);
            assert(y * row_bytes + row_bytes <= n) by (nonlinear_arith)
                requires
                    y + 1 <= height,
                    n == row_bytes * height,
                    row_bytes >= 0,
            ;
            assert(all.take((y + 1) * row_bytes) =~= all.take(y * row_bytes) + row@) by {
                assert forall|i: int| 0 <= i < row_bytes implies all[y * row_bytes + i] == row@[i] by {
                    lemma_index(i, y as int, row_bytes as int, height as int);
                }
            }
        }
        y = y + 1;
    }
    assert(height * row_bytes == row_bytes * height) by (nonlinear_arith);
    assert(all.take(height * row_bytes) =~= all);
    let head = PacketHeader {
        bit_plane: 0,
        pass: BitPlanePass::Cleanup,
        body_length: n as u16,
        min_loss: 0,
    };
    finish_segment(&head, &body, set, width, height, index)
}

/// A segment of one raw packet.
fn finish_segment(
    packet: &PacketHeader,
    body: &Vec<u8>,
    set: &Settings,
    width: usize,
    height: usize,
    index: u16,
) -> (r: Result<Vec<u8>>)
    requires
        4 + body@.len() <= 0xFFFF,
        *packet == (PacketHeader {
            bit_plane: 0,
            pass: BitPlanePass::Cleanup,
            body_length: body@.len() as u16,
            min_loss: 0,
        }),
    ensures
        r is Ok,
        strip_raw(*set, body@, width as int, height as int, index) is Ok,
        r->Ok_0@ == segment_stream(
            strip_raw(*set, body@, width as int, height as int, index)->Ok_0,
        ),
{
    let n: usize = body.len();
    let header = make_strip_header(set, true, width, height, set.bit_plane_count, index, 4 + n);
    let head = packet.encode();
    let mut all: Vec<u8> = Vec::new();
    append_bytes(&mut all, head.as_slice());
    append_bytes(&mut all, body.as_slice());
    proof {
        let s = strip_raw(*set, body@, width as int, height as int, index)->Ok_0;
        assert(s.packets.drop_last() =~= Seq::empty());
        assert(packets_bytes(Seq::<Packet>::empty()) =~= Seq::empty());
        assert(all@ =~= packets_bytes(s.packets));
    }
    Ok(emit_segment_header_and_body(&header, &all))
}

// ---------------------------------------------------------------------------
// One strip
// ---------------------------------------------------------------------------

/// A strip as a segment, or why it cannot be one. Where raw samples may stand
/// in, they do if they are shorter.
#[verifier::opaque]
pub open spec fn strip_segment(
    set: Settings,
    plane: IcerPlane,
    width: usize,
    y0: int,
    height: usize,
    index: u16,
    budget: Option<u64>,
) -> core::result::Result<Segment, Fault> {
    let raw = strip_raw(
        set,
        rows_of(plane, width * sample_size(set.bits), y0, height as int),
        width as int,
        height as int,
        index,
    );
    if set.uncompressed {
        raw
    } else {
        match strip_compressed(
            set,
            shifted_samples(plane, set.bits, width as int, y0, height as int),
            width,
            height,
            index,
            budget,
        ) {
            Err(f) => Err(f),
            Ok(c) => match raw {
                Ok(s) => if set.fallback && segment_stream(s).len() < segment_stream(c).len() {
                    Ok(s)
                } else {
                    Ok(c)
                },
                Err(_) => Ok(c),
            },
        }
    }
}

/// Encode a strip.
pub(crate) fn encode_one_segment(
    set: &Settings,
    plane: &IcerPlane,
    width: usize,
    y0: usize,
    height: usize,
    index: u16,
    budget: Option<u64>,
) -> (r: Result<Vec<u8>>)
    requires
        set.ok(),
        y0 + height <= usize::MAX,
        width * height * sample_size(set.bits) <= usize::MAX,
        width * sample_size(set.bits) <= usize::MAX,
        rows_inside(*plane, width * sample_size(set.bits), y0 + height),
    ensures
        match strip_segment(*set, *plane, width, y0 as int, height, index, budget) {
            Err(f) => fails_with(r, f),
            Ok(s) => r is Ok && r->Ok_0@ == segment_stream(s),
        },
{
    reveal(strip_segment);
    if set.uncompressed {
        return encode_raw_strip(set, plane, width, y0, height, index);
    }
    proof {
        let a = width * height;
        assert(0 <= a <= a * sample_size(set.bits)) by (nonlinear_arith)
            requires
                a == width * height,
                width >= 0,
                height >= 0,
                sample_size(set.bits) >= 1,
        ;
    }
    let samples = read_samples(plane, set.bits, width, y0, height);
    let compressed = match encode_strip(set, samples, width, height, index, budget) {
        Ok(b) => b,
        Err(e) => return Err(e),
    };
    if !set.fallback {
        return Ok(compressed);
    }
    match encode_raw_strip(set, plane, width, y0, height, index) {
        Ok(raw) => {
            if raw.len() < compressed.len() {
                Ok(raw)
            } else {
                Ok(compressed)
            }
        },
        Err(_) => Ok(compressed),
    }
}

} // verus!
