//! One segment: from samples to packets and back.
//!
//! Samples of `bits` bits are shifted so that the middle of their range is 0,
//! transformed, and coded by bit planes. A segment without packets stands for
//! coefficients that are all 0, which is a flat area in the middle of the
//! range. An uncompressed segment carries the bytes of its rows.

use crate::bitplane::{bitplanes_decoded, coded_views, decode_bitplanes_filtered, decode_bitplanes_prioritized, prioritized_decoded, Coded, EncodedPacket, ScanFilter};
use crate::bytes::{append_bytes, copy_bytes};
use crate::entropy::{coder_for, coder_of};
use crate::error::{fails_with, Fault, IcerError, Result};
use crate::header::{BitPlanePass, Packet, Segment, SegmentHeader, WalkedPacket, WalkedSegment};
use crate::image::IcerPlane;
use crate::priority::{lemma_index, min_loss_skip_map, skip_map, two_to};
use crate::scan::{repeated, Grid, Selection};
use crate::text::with_number;
use crate::wavelet_int::{has_integer_transform, inverse_2d_dyadic, inverse_levels, is_integer, weights_of};
use vstd::prelude::*;
use vstd::arithmetic::power2::pow2;

verus! {

// ---------------------------------------------------------------------------
// Samples
// ---------------------------------------------------------------------------

/// A sample has 8 to 16 bits.
pub open spec fn depth_in_range(bits: u8) -> bool {
    8 <= bits <= 16
}

/// Bytes of a sample of `bits` bits.
pub open spec fn sample_size(bits: u8) -> int {
    if bits > 8 {
        2
    } else {
        1
    }
}

/// Bytes of a sample of `bits` bits.
pub(crate) fn sample_len(bits: u8) -> (n: usize)
    ensures
        n == sample_size(bits),
{
    if bits > 8 {
        2
    } else {
        1
    }
}

/// The middle of the range of a sample.
pub open spec fn half_range(bits: u8) -> int {
    pow2((bits - 1) as nat) as int
}

/// The sample at `off`, in little-endian order.
pub open spec fn word_at(data: Seq<u8>, off: int, size: int) -> int {
    if size == 2 {
        data[off] + 256 * data[off + 1]
    } else {
        data[off] as int
    }
}

/// The samples of rows `y0` to `y0 + rows` of a plane, less the middle of
/// their range.
pub open spec fn shifted_samples(plane: IcerPlane, bits: u8, width: int, y0: int, rows: int) -> Seq<i32> {
    let size = sample_size(bits);
    Seq::new(
        (width * rows) as nat,
        |i: int|
            (word_at(
                plane.data@,
                (y0 + i / width) * plane.stride + (i % width) * size,
                size,
            ) - half_range(bits)) as i32,
    )
}

/// `v` within the range of a sample.
pub open spec fn clamped(v: int, bits: u8) -> int {
    let top = 2 * half_range(bits) - 1;
    if v < 0 {
        0
    } else if v > top {
        top
    } else {
        v
    }
}

/// The bytes of the samples that coefficients after the inverse transform
/// stand for.
pub open spec fn sample_bytes_of(values: Seq<i32>, bits: u8) -> Seq<u8> {
    let size = sample_size(bits);
    Seq::new(
        (values.len() * size) as nat,
        |j: int|
            {
                let v = clamped(values[j / size] + half_range(bits), bits);
                if j % size == 0 {
                    (v % 256) as u8
                } else {
                    (v / 256) as u8
                }
            },
    )
}

/// A vector of `n` zeros.
pub open spec fn zero_coeffs(n: int) -> Seq<i32> {
    Seq::new(n as nat, |i: int| 0i32)
}

/// The bytes of `n` samples in the middle of their range.
pub open spec fn flat_bytes(n: int, bits: u8) -> Seq<u8> {
    sample_bytes_of(zero_coeffs(n), bits)
}

pub(crate) fn half_value(bits: u8) -> (h: i64)
    requires
        depth_in_range(bits),
    ensures
        h == half_range(bits),
        128 <= h <= 32768,
        bits == 8 ==> h == 128,
{
    let h: usize = two_to(bits - 1);
    proof {
        vstd::arithmetic::power2::lemma2_to64();
        if bits > 8 {
            vstd::arithmetic::power2::lemma_pow2_strictly_increases(7, (bits - 1) as nat);
        }
        if bits < 16 {
            vstd::arithmetic::power2::lemma_pow2_strictly_increases((bits - 1) as nat, 15);
        }
    }
    h as i64
}

/// The bytes of rows `0..rows` of a plane lie inside it.
pub open spec fn rows_inside(plane: IcerPlane, row_bytes: int, rows: int) -> bool {
    rows > 0 ==> (rows - 1) * plane.stride + row_bytes <= plane.data@.len()
}

pub proof fn lemma_row_inside(plane: IcerPlane, row_bytes: int, rows: int, y: int)
    requires
        rows_inside(plane, row_bytes, rows),
        0 <= y < rows,
        row_bytes >= 0,
    ensures
        0 <= y * plane.stride,
        y * plane.stride + row_bytes <= plane.data@.len(),
{
    assert(0 <= y * plane.stride <= (rows - 1) * plane.stride) by (nonlinear_arith)
        requires
            0 <= y <= rows - 1,
            plane.stride >= 0,
    ;
}

/// The samples of rows `y0` to `y0 + rows` of a plane, less the middle of
/// their range.
pub(crate) fn read_samples(plane: &IcerPlane, bits: u8, width: usize, y0: usize, rows: usize) -> (out: Vec<
    i32,
>)
    requires
        depth_in_range(bits),
        width * sample_size(bits) <= usize::MAX,
        y0 + rows <= usize::MAX,
        rows_inside(*plane, width * sample_size(bits), y0 + rows),
    ensures
        out@ == shifted_samples(*plane, bits, width as int, y0 as int, rows as int),
{
    let size: usize = sample_len(bits);
    let half: i64 = half_value(bits);
    let ghost all = shifted_samples(*plane, bits, width as int, y0 as int, rows as int);
    let mut out: Vec<i32> = Vec::new();
    assert(all.take(0) =~= Seq::empty());
    let mut y: usize = 0;
    while y < rows
        invariant
            y <= rows,
            depth_in_range(bits),
            size == sample_size(bits),
            half == half_range(bits),
            128 <= half <= 32768,
            width * size <= usize::MAX,
            y0 + rows <= usize::MAX,
            rows_inside(*plane, width * size, y0 + rows),
            all == shifted_samples(*plane, bits, width as int, y0 as int, rows as int),
            out@ == all.take(y * width),
        decreases rows - y,
    {
        proof {
            assert(width * size >= 0) by (nonlinear_arith);
            lemma_row_inside(*plane, width * size, y0 + rows, y0 + y);
            assert((y0 + y) * plane.stride <= plane.data.len());
        }
        let start: usize = (y0 + y) * plane.stride;
        let mut x: usize = 0;
        while x < width
            invariant
                x <= width,
                y < rows,
                size == sample_size(bits),
                half == half_range(bits),
                128 <= half <= 32768,
                start == (y0 + y) * plane.stride,
                start + width * size <= plane.data@.len(),
                all == shifted_samples(*plane, bits, width as int, y0 as int, rows as int),
                out@ == all.take(y * width + x),
            decreases width - x,
        {
            proof {
                assert(0 <= x * size && x * size + size <= width * size) by (nonlinear_arith)
                    requires
                        x + 1 <= width,
                        size >= 1,
                ;
                lemma_index(x as int, y as int, width as int, rows as int);
                assert(start + x * size < plane.data.len());
            }
            let off: usize = start + x * size;
            let word: i64 = if size == 2 {
                plane.data[off] as i64 + 256 * plane.data[off + 1] as i64
            } else {
                plane.data[off] as i64
            };
            let v: i32 = (word - half) as i32;
            proof {
                assert(all[y * width + x] == v);
                assert(all.take(y * width + x + 1) =~= all.take(y * width + x).push(v));
            }
            out.push(v);
            x = x + 1;
        }
        assert((y + 1) * width == y * width + width) by (nonlinear_arith);
        y = y + 1;
    }
    assert(rows * width == width * rows) by (nonlinear_arith);
    assert(all.take(rows * width) =~= all);
    out
}

/// The bytes of the samples that values stand for.
pub(crate) fn write_samples(values: &Vec<i32>, bits: u8) -> (out: Vec<u8>)
    requires
        depth_in_range(bits),
    ensures
        out@ == sample_bytes_of(values@, bits),
        out@.len() == values@.len() * sample_size(bits),
{
    let size: usize = sample_len(bits);
    let half: i64 = half_value(bits);
    let top: i64 = 2 * half - 1;
    let ghost all = sample_bytes_of(values@, bits);
    let mut out: Vec<u8> = Vec::new();
    let mut i: usize = 0;
    while i < values.len()
        invariant
            i <= values@.len(),
            size == sample_size(bits),
            half == half_range(bits),
            128 <= half <= 32768,
            top == 2 * half - 1,
            bits > 8 || half == 128,
            all == sample_bytes_of(values@, bits),
            out@.len() == i * size,
            forall|j: int| 0 <= j < out@.len() ==> #[trigger] out@[j] == all[j],
        decreases values@.len() - i,
    {
        let v: i64 = values[i] as i64 + half;
        let c: i64 = if v < 0 {
            0
        } else if v > top {
            top
        } else {
            v
        };
        if size == 2 {
            let ghost before = out@;
            out.push((c % 256) as u8);
            out.push((c / 256) as u8);
            proof {
                assert((2 * i) / 2 == i && (2 * i) % 2 == 0 && (2 * i + 1) / 2 == i && (2 * i + 1)
                    % 2 == 1);
            }
        } else {
            out.push(c as u8);
        }
        i = i + 1;
    }
    assert(out@ =~= all);
    out
}

// ---------------------------------------------------------------------------
// Decoding
// ---------------------------------------------------------------------------

/// What a packet of a segment carries for the bit-plane decoder.
pub open spec fn coded_packets(packets: Seq<Packet>) -> Seq<Coded> {
    Seq::new(
        packets.len(),
        |i: int|
            Coded {
                bit_plane: packets[i].header.bit_plane,
                is_significance: packets[i].header.pass is Significance,
                body: packets[i].body,
            },
    )
}

/// What a segment codes: the whole of its area, or the part of it that a
/// segment map and a window select.
pub open spec fn segment_selection(
    segment: Option<(Seq<u16>, u16)>,
    window: Option<(usize, usize, usize, usize)>,
    header: SegmentHeader,
    min_loss: u8,
) -> Selection {
    Selection {
        segment,
        skip: if min_loss > 0 && !header.priority_interleaved {
            Some(
                skip_map(
                    header.width as int,
                    header.height as int,
                    header.decomp_levels,
                    min_loss as int,
                ),
            )
        } else {
            None
        },
        window,
    }
}

/// Shape of the coefficients of a segment.
pub open spec fn segment_grid(header: SegmentHeader) -> Grid {
    Grid {
        width: header.width as usize,
        height: header.height as usize,
        levels: header.decomp_levels,
    }
}

/// The coefficients of a compressed segment, or why it cannot be decoded. The
/// minimum loss is that of the first packet.
pub open spec fn segment_coeffs(
    s: Segment,
    segment: Option<(Seq<u16>, u16)>,
    window: Option<(usize, usize, usize, usize)>,
) -> core::result::Result<Seq<i32>, Fault> {
    let h = s.header;
    let g = segment_grid(h);
    let kind = coder_of(h.interleaved_entropy);
    let q = h.bit_plane_count;
    if s.packets.len() == 0 {
        Ok(zero_coeffs(g.area()))
    } else if q > 31 {
        Err(Fault::InvalidData)
    } else {
        let m = s.packets[0].header.min_loss;
        let f = segment_selection(segment, window, h, m);
        let packets = coded_packets(s.packets);
        if h.priority_interleaved {
            Ok(crate::bitplane::prioritized_decoded(g, f, kind, q, m, packets))
        } else {
            Ok(crate::bitplane::bitplanes_decoded(g, f, kind, q, packets))
        }
    }
}

/// The samples of a buffer after the inverse transform.
pub open spec fn samples_back(header: SegmentHeader, coeffs: Seq<i32>) -> Seq<i32> {
    inverse_levels(
        weights_of(header.filter),
        header.width as usize,
        header.height as usize,
        coeffs,
        header.decomp_levels as int,
    )
}

/// The bodies of packets one after the other.
pub open spec fn joined_bodies(packets: Seq<Packet>) -> Seq<u8>
    decreases packets.len(),
{
    if packets.len() == 0 {
        Seq::empty()
    } else {
        joined_bodies(packets.drop_last()) + packets.last().body
    }
}

/// Number of bytes of the samples of a segment.
pub open spec fn segment_size(header: SegmentHeader, bits: u8) -> int {
    header.width * header.height * sample_size(bits)
}

/// The bytes of the samples of a strip, or why it cannot be decoded.
pub open spec fn strip_decoded(s: Segment, bits: u8) -> core::result::Result<Seq<u8>, Fault> {
    let h = s.header;
    let size = segment_size(h, bits);
    if s.packets.len() == 0 {
        Ok(flat_bytes(h.width * h.height, bits))
    } else if h.uncompressed {
        let all = joined_bodies(s.packets);
        if all.len() < size {
            Err(Fault::Truncated)
        } else {
            Ok(all.take(size))
        }
    } else {
        match segment_coeffs(s, None, None) {
            Err(f) => Err(f),
            Ok(coeffs) => if !is_integer(h.filter) {
                Err(Fault::Unsupported)
            } else {
                Ok(sample_bytes_of(samples_back(h, coeffs), bits))
            },
        }
    }
}

fn encoded_packets(packets: &Vec<WalkedPacket>) -> (out: Vec<EncodedPacket>)
    ensures
        coded_views(out@) == coded_packets(
            Seq::new(packets@.len(), |i: int| packets@[i].packet()),
        ),
{
    let ghost all = coded_packets(Seq::new(packets@.len(), |i: int| packets@[i].packet()));
    let mut out: Vec<EncodedPacket> = Vec::new();
    let mut i: usize = 0;
    while i < packets.len()
        invariant
            i <= packets@.len(),
            all == coded_packets(Seq::new(packets@.len(), |i: int| packets@[i].packet())),
            out@.len() == i,
            forall|j: int| 0 <= j < i ==> (#[trigger] out@[j])@ == all[j],
        decreases packets@.len() - i,
    {
        let p = &packets[i];
        let body = copy_bytes(p.body);
        let is_significance: bool = match p.header.pass {
            BitPlanePass::Significance => true,
            _ => false,
        };
        out.push(EncodedPacket { bit_plane: p.header.bit_plane, is_significance, body });
        i = i + 1;
    }
    assert(coded_views(out@) =~= all);
    out
}

/// The coefficients of a compressed segment.
pub(crate) fn decode_coeffs(
    walked: &WalkedSegment,
    segment: Option<(&[u16], u16)>,
    window: Option<(usize, usize, usize, usize)>,
) -> (r: Result<Vec<i32>>)
    requires
        walked.header.valid(),
        segment matches Some((map, _)) ==> map@.len() == walked.header.width
            * walked.header.height,
        window matches Some((x0, x1, y0, y1)) ==> x0 <= x1 && y0 <= y1,
    ensures
        ({
            let seg = match segment {
                Some((map, k)) => Some((map@, k)),
                None => None,
            };
            match segment_coeffs(walked@, seg, window) {
                Err(f) => fails_with(r, f),
                Ok(coeffs) => r is Ok && r->Ok_0@ == coeffs,
            }
        }),
        r is Ok ==> r->Ok_0@.len() == walked.header.width * walked.header.height,
{
    let h = walked.header;
    let width: usize = h.width as usize;
    let height: usize = h.height as usize;
    proof {
        lemma_area(h.width, h.height);
    }
    if walked.packets.len() == 0 {
        let out = repeated(0i32, width * height);
        assert(out@ =~= zero_coeffs(width * height));
        return Ok(out);
    }
    let q: u8 = h.bit_plane_count;
    if q > 31 {
        return Err(
            IcerError::InvalidData(with_number("bit-plane count ", q as u64, " outside (0,31]")),
        );
    }
    let packets = encoded_packets(&walked.packets);
    let kind = coder_for(h.interleaved_entropy);
    let min_loss: u8 = walked.packets[0].header.min_loss;
    if h.priority_interleaved {
        let filter = ScanFilter { segment, skip: None, window };
        let r = decode_bitplanes_prioritized(
            packets.as_slice(),
            width,
            height,
            q,
            h.decomp_levels,
            kind,
            &filter,
            min_loss,
        );
        return r;
    }
    if min_loss > 0 {
        let skip = min_loss_skip_map(width, height, h.decomp_levels, min_loss);
        let filter = ScanFilter { segment, skip: Some(skip.as_slice()), window };
        decode_bitplanes_filtered(
            packets.as_slice(),
            width,
            height,
            q,
            h.decomp_levels,
            kind,
            &filter,
        )
    } else {
        let filter = ScanFilter { segment, skip: None, window };
        decode_bitplanes_filtered(
            packets.as_slice(),
            width,
            height,
            q,
            h.decomp_levels,
            kind,
            &filter,
        )
    }
}

proof fn lemma_area(w: u16, h: u16)
    ensures
        0 <= w * h <= 0xFFFE_0001,
{
    assert(0 <= w * h <= 0xFFFE_0001) by (nonlinear_arith)
        requires
            0 <= w <= 0xFFFF,
            0 <= h <= 0xFFFF,
    ;
}

proof fn lemma_joined_prefix(packets: Seq<Packet>, k: int)
    requires
        0 <= k <= packets.len(),
    ensures
        joined_bodies(packets.take(k)).len() <= joined_bodies(packets).len(),
        joined_bodies(packets).take(joined_bodies(packets.take(k)).len() as int) == joined_bodies(
            packets.take(k),
        ),
    decreases packets.len() - k,
{
    let all = joined_bodies(packets);
    if k == packets.len() {
        assert(packets.take(k) =~= packets);
        assert(all.take(all.len() as int) =~= all);
    } else {
        lemma_joined_prefix(packets, k + 1);
        assert(packets.take(k + 1).drop_last() =~= packets.take(k));
        let a = joined_bodies(packets.take(k));
        let b = joined_bodies(packets.take(k + 1));
        assert(b.take(a.len() as int) =~= a);
        assert(all.take(b.len() as int).take(a.len() as int) =~= all.take(a.len() as int));
    }
}

/// The first `size` bytes of the bodies of the packets, where there are so
/// many.
pub(crate) fn raw_bytes(walked: &WalkedSegment, size: usize) -> (r: Result<Vec<u8>>)
    ensures
        ({
            let all = joined_bodies(walked@.packets);
            &&& all.len() < size ==> fails_with(r, Fault::Truncated)
            &&& all.len() >= size ==> r is Ok && r->Ok_0@ == all.take(size as int)
        }),
{
    let ghost packets = walked@.packets;
    let mut out: Vec<u8> = Vec::new();
    let mut k: usize = 0;
    assert(packets.take(0) =~= Seq::empty());
    while k < walked.packets.len() && out.len() < size
        invariant
            k <= walked.packets@.len(),
            packets == walked@.packets,
            out@ == joined_bodies(packets.take(k as int)),
        decreases walked.packets@.len() - k,
    {
        proof {
            assert(packets.take(k + 1).drop_last() =~= packets.take(k as int));
            assert(packets.take(k + 1).last() == walked.packets@[k as int].packet());
        }
        append_bytes(&mut out, walked.packets[k].body);
        k = k + 1;
    }
    proof {
        lemma_joined_prefix(packets, k as int);
    }
    if out.len() < size {
        assert(packets.take(k as int) =~= packets);
        return Err(IcerError::Truncated);
    }
    assert(joined_bodies(packets).take(size as int) =~= out@.take(size as int));
    out.truncate(size);
    Ok(out)
}

/// The bytes of the samples of a strip.
pub(crate) fn decode_strip(walked: &WalkedSegment, bits: u8) -> (r: Result<Vec<u8>>)
    requires
        walked.header.valid(),
        depth_in_range(bits),
        segment_size(walked.header, bits) <= usize::MAX,
    ensures
        match strip_decoded(walked@, bits) {
            Err(f) => fails_with(r, f),
            Ok(data) => r is Ok && r->Ok_0@ == data,
        },
        r is Ok ==> r->Ok_0@.len() == segment_size(walked.header, bits),
{
    let h = walked.header;
    let width: usize = h.width as usize;
    let height: usize = h.height as usize;
    proof {
        lemma_area(h.width, h.height);
        let a = h.width * h.height;
        assert(a * sample_size(bits) >= a) by (nonlinear_arith)
            requires
                a >= 0,
                sample_size(bits) >= 1,
        ;
    }
    if walked.packets.len() == 0 {
        let values = repeated(0i32, width * height);
        assert(values@ =~= zero_coeffs(width * height));
        return Ok(write_samples(&values, bits));
    }
    if h.uncompressed {
        return raw_bytes(walked, width * height * sample_len(bits));
    }
    let mut coeffs = match decode_coeffs(walked, None, None) {
        Ok(c) => c,
        Err(e) => return Err(e),
    };
    if !has_integer_transform(h.filter) {
        return Err(IcerError::unsupported("the wavelet filter has no integer transform"));
    }
    inverse_2d_dyadic(&mut coeffs, width, height, h.decomp_levels, h.filter);
    Ok(write_samples(&coeffs, bits))
}

} // verus!
