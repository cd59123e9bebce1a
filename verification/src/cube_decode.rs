//! Decoding of hyperspectral cubes.

use crate::bitplane3d::{cube_heard, decode_cube_bitplanes_into, whole_layout, CubeGeometry, Layout};
use crate::cube::{lemma_sizes, lemma_strip_volume, level_shift, part_layout, rows_in_strip, strip_volume, top_sample, IcerCube};
use crate::cube_means::{add_plane_means, means_added, saturated};
use crate::cube_wire::{cube_header, read_data, read_header, read_list, read_segments, segments_read, CubeHeader, Reading, SegmentData, SegmentFields};
use crate::decoder::DecodeLimits;
use crate::entropy::{coder_for, coder_of};
use crate::error::{fails_with, Fault, IcerError, Result};
use crate::merge::{block_of, can_segment, divide_image, ll_partition};
use crate::priority::two_to;
use crate::scan::repeated;
use crate::subband3d::spatial_stage_count;
use crate::wavelet3d::{cube_inverse, inverse_3d, Volume};
use crate::wavelet_int::{has_integer_transform, is_integer};
use vstd::prelude::*;

verus! {

// ---------------------------------------------------------------------------
// What a stream stands for
// ---------------------------------------------------------------------------

impl CubeHeader {
    /// Sizes of the cube.
    pub open spec fn volume(self) -> Volume {
        Volume {
            width: self.width as usize,
            height: self.height as usize,
            bands: self.bands as usize,
        }
    }

    /// Sizes of strip `k`.
    pub open spec fn strip_size(self, k: int) -> Volume {
        strip_volume(
            self.width as int,
            self.height as int,
            self.bands as int,
            self.strip as int,
            k,
        )
    }

    /// Number of samples of the cube.
    pub open spec fn total(self) -> int {
        self.width * self.height * self.bands
    }

    /// Number of samples that a segment is taken to have.
    pub open spec fn per_segment(self) -> int {
        if self.transform {
            self.total()
        } else {
            self.width * self.strip * self.bands
        }
    }

    /// The cube is too large for the limits, or for memory.
    pub open spec fn beyond(self, limits: DecodeLimits) -> bool {
        ||| self.per_segment() > limits.max_pixels_per_segment
        ||| self.total() > limits.max_total_pixels
        ||| self.total() > usize::MAX
    }
}

/// Coefficients that are all zero.
pub open spec fn blank(n: int) -> Seq<i32> {
    Seq::new(n as nat, |i: int| 0i32)
}

/// Coefficients of a buffer after the segment with this layout: what has
/// arrived of it, with the means added.
pub open spec fn segment_heard(h: CubeHeader, lay: Layout, data: Option<SegmentData>, before: Seq<i32>) -> Seq<
    i32,
> {
    match data {
        None => before,
        Some(d) => means_added(
            lay,
            cube_heard(lay, coder_of(h.interleaved), d.q, d.packets, before),
            d.means,
        ),
    }
}

/// The shifted samples of strip `k`.
pub open spec fn strip_heard(h: CubeHeader, data: Option<SegmentData>, k: int) -> Seq<i32> {
    let v = h.strip_size(k);
    let lay = whole_layout(v, h.levels as int);
    cube_inverse(
        h.filter,
        v,
        h.levels as int,
        segment_heard(h, lay, data, blank(v.count())),
    )
}

/// The coefficients of a transform after its first `k` windows.
pub open spec fn windows_heard(h: CubeHeader, list: Seq<Option<SegmentData>>, k: int) -> Seq<i32>
    decreases k,
{
    if k <= 0 {
        blank(h.volume().count())
    } else {
        segment_heard(
            h,
            part_layout(h.volume(), h.levels as int, h.count as int, k - 1),
            list[k - 1],
            windows_heard(h, list, k - 1),
        )
    }
}

/// The sample that a shifted one stands for.
pub open spec fn sample_from(c: i32, bit_depth: u8) -> u16 {
    let v = saturated(c + level_shift(bit_depth));
    (if v < 0 {
        0
    } else if v > top_sample(bit_depth) {
        top_sample(bit_depth)
    } else {
        v
    }) as u16
}

/// The shifted sample at `j` of a cube of strips.
pub open spec fn strip_value(h: CubeHeader, list: Seq<Option<SegmentData>>, j: int) -> i32 {
    let area = h.volume().area();
    let pos = j % area;
    let k = (pos / h.width as int) / h.strip as int;
    strip_heard(h, list[k], k)[(j / area) * h.strip_size(k).area() + pos - k * h.strip * h.width]
}

/// The samples of a cube.
pub open spec fn samples_heard(h: CubeHeader, list: Seq<Option<SegmentData>>) -> Seq<u16> {
    if h.transform {
        let buf = cube_inverse(
            h.filter,
            h.volume(),
            h.levels as int,
            windows_heard(h, list, h.count as int),
        );
        Seq::new(h.total() as nat, |j: int| sample_from(buf[j], h.bit_depth))
    } else {
        Seq::new(h.total() as nat, |j: int| sample_from(strip_value(h, list, j), h.bit_depth))
    }
}

/// Number of segments among the first `k` whose fixed part is there.
pub open spec fn count_there(list: Seq<Option<SegmentData>>, k: int) -> int
    decreases k,
{
    if k <= 0 {
        0
    } else {
        count_there(list, k - 1) + (if list[k - 1] is Some {
            1int
        } else {
            0
        })
    }
}

/// A decoded cube.
pub struct DecodedCube {
    /// The header.
    pub header: CubeHeader,
    /// The samples.
    pub samples: Seq<u16>,
    /// What was read.
    pub reading: Reading,
}

/// The cube that a stream stands for, or why there is none. A strict decoder
/// wants the whole stream; a lenient one takes what is there.
pub open spec fn cube_decoded(bytes: Seq<u8>, limits: DecodeLimits, lenient: bool) -> core::result::Result<
    DecodedCube,
    Fault,
> {
    match cube_header(bytes) {
        Err(f) => Err(f),
        Ok(h) => if !is_integer(h.filter) || h.beyond(limits) {
            Err(Fault::Unsupported)
        } else if h.transform && !can_segment(
            h.width as int,
            h.height as int,
            h.volume().spatial_stages(h.levels as int),
            h.count as int,
        ) {
            Err(Fault::InvalidData)
        } else {
            let reading = segments_read(bytes, 17, h.bands as int, h.count as int);
            if reading.fault is Some && !lenient {
                Err(reading.fault->0)
            } else {
                Ok(DecodedCube { header: h, samples: samples_heard(h, reading.list), reading })
            }
        },
    }
}

// ---------------------------------------------------------------------------
// Decoding
// ---------------------------------------------------------------------------

/// What a lenient decoder made of a stream.
#[derive(Debug, Clone, PartialEq, Eq)]
pub struct LenientCubeDecode {
    /// The cube. Where packets are missing it is less precise; a segment
    /// without packets has its means, and one that is missing is flat.
    pub cube: IcerCube,
    /// Number of whole packets of each segment.
    pub packets_received: Vec<usize>,
    /// Number of leading segments whose fixed part is there.
    pub segments_received: usize,
    /// The stream ends, or cannot be read, before the last packet.
    pub truncated: bool,
}

/// The report tells of a decoded cube.
pub open spec fn tells_of(r: LenientCubeDecode, d: DecodedCube) -> bool {
    &&& holds_cube(r.cube, d)
    &&& r.packets_received@.len() == d.reading.list.len()
    &&& forall|k: int|
        0 <= k < d.reading.list.len() ==> #[trigger] r.packets_received@[k] == (
        match d.reading.list[k] {
            Some(s) => s.packets.len() as int,
            None => 0,
        })
    &&& r.segments_received == count_there(d.reading.list, d.reading.list.len() as int)
    &&& r.truncated == (d.reading.fault is Some)
}

/// The cube is a decoded one.
pub open spec fn holds_cube(c: IcerCube, d: DecodedCube) -> bool {
    &&& c.width == d.header.width
    &&& c.height == d.header.height
    &&& c.bands == d.header.bands
    &&& c.bit_depth == d.header.bit_depth
    &&& c.samples@ == d.samples
}

/// The samples of a volume that is within the limits can be addressed.
pub proof fn lemma_volume(h: CubeHeader, limits: DecodeLimits)
    requires
        h.valid(),
        !h.beyond(limits),
    ensures
        h.volume().ok(),
        h.volume().count() == h.total(),
{
    lemma_strip_volume(
        h.width as int,
        h.height as int,
        h.bands as int,
        h.height as int,
        0,
    );
    assert(h.volume().count() == h.total());
}

/// Strip `k` of a valid header.
proof fn lemma_strip(h: CubeHeader, limits: DecodeLimits, k: int)
    requires
        h.valid(),
        !h.transform,
        !h.beyond(limits),
        0 <= k < h.count,
    ensures
        k * h.strip < h.height,
        h.strip_size(k).ok(),
        h.strip_size(k).width == h.width,
        h.strip_size(k).bands == h.bands,
        h.strip_size(k).height == rows_in_strip(h.height as int, h.strip as int, k),
        h.strip_size(k).area() == h.width * rows_in_strip(h.height as int, h.strip as int, k),
{
    assert(k * h.strip <= (h.count - 1) * h.strip) by (nonlinear_arith)
        requires
            k <= h.count - 1,
            h.strip >= 0,
    ;
    lemma_strip_volume(
        h.width as int,
        h.height as int,
        h.bands as int,
        h.strip as int,
        k,
    );
}

/// Add what has arrived of a segment to a buffer.
fn hear_segment(
    h: &CubeHeader,
    geom: &CubeGeometry,
    data: &Option<SegmentFields>,
    coeffs: &mut Vec<i32>,
)
    requires
        geom.wf(),
        old(coeffs)@.len() == geom.layout().volume.count(),
        *data matches Some(f) ==> f.q <= 30 && f.means@.len() == geom.bands,
    ensures
        final(coeffs)@ == segment_heard(*h, geom.layout(), read_data(*data), old(coeffs)@),
        final(coeffs)@.len() == old(coeffs)@.len(),
{
    if let Some(f) = data {
        let kind = coder_for(h.interleaved);
        let r = decode_cube_bitplanes_into(geom, f.packets.as_slice(), f.q, kind, coeffs);
        add_plane_means(coeffs, geom, &f.means);
    }
}

/// Decode strip `k`.
fn decode_cube_strip(
    h: &CubeHeader,
    data: &Option<SegmentFields>,
    k: usize,
    Ghost(limits): Ghost<DecodeLimits>,
) -> (out: Vec<i32>)
    requires
        h.valid(),
        !h.transform,
        !h.beyond(limits),
        k < h.count,
        *data matches Some(f) ==> f.q <= 30 && f.means@.len() == h.bands,
    ensures
        out@ == strip_heard(*h, read_data(*data), k as int),
        out@.len() == h.strip_size(k as int).count(),
{
    proof {
        lemma_strip(*h, limits, k as int);
    }
    let y0: usize = k * h.strip as usize;
    let left: usize = h.height as usize - y0;
    let rows: usize = if left < h.strip as usize {
        left
    } else {
        h.strip as usize
    };
    let (w, bands): (usize, usize) = (h.width as usize, h.bands as usize);
    let geom = CubeGeometry::new(w, rows, bands, h.levels);
    assert(geom.layout().volume == h.strip_size(k as int));
    let mut coeffs: Vec<i32> = repeated(0i32, geom.volume());
    assert(coeffs@ =~= blank(h.strip_size(k as int).count()));
    hear_segment(h, &geom, data, &mut coeffs);
    inverse_3d(&mut coeffs, w, rows, bands, h.levels, h.filter);
    coeffs
}

/// The sample that a shifted one stands for.
fn make_sample(c: i32, shift: i64, top: i64, Ghost(bit_depth): Ghost<u8>) -> (s: u16)
    requires
        1 <= bit_depth <= 16,
        shift == level_shift(bit_depth),
        top == top_sample(bit_depth),
        0 <= shift <= 0x8000,
        0 <= top <= 0xFFFF,
    ensures
        s == sample_from(c, bit_depth),
{
    let v: i64 = c as i64 + shift;
    if v < 0 {
        0
    } else if v > top {
        top as u16
    } else {
        v as u16
    }
}

/// Where the sample at `j` of a cube lies in its strip.
pub proof fn lemma_place_in_strip(h: CubeHeader, limits: DecodeLimits, j: int)
    requires
        h.valid(),
        !h.transform,
        !h.beyond(limits),
        0 <= j < h.total(),
    ensures
        ({
            let area = h.volume().area();
            let pos = j % area;
            let k = (pos / h.width as int) / h.strip as int;
            let at = (j / area) * h.strip_size(k).area() + pos - k * h.strip * h.width;
            &&& 0 <= pos < area
            &&& 0 <= j / area < h.bands
            &&& 0 <= k < h.count
            &&& 0 <= pos - k * h.strip * h.width < h.strip_size(k).area()
            &&& 0 <= at < h.strip_size(k).count()
            &&& 0 <= (j / area) * h.strip_size(k).area()
            &&& 0 <= k * h.strip * h.width
        }),
{
    lemma_volume(h, limits);
    let v = h.volume();
    v.lemma_split(j);
    let area = v.area();
    let pos = j % area;
    let w = h.width as int;
    let y = pos / w;
    let s = h.strip as int;
    let k = y / s;
    let n = h.count as int;
    assert(0 <= y < h.height) by (nonlinear_arith)
        requires
            y == pos / w,
            0 <= pos < w * h.height,
            w >= 1,
    ;
    assert(0 <= k && k * s <= y && y < k * s + s) by (nonlinear_arith)
        requires
            k == y / s,
            y >= 0,
            s >= 1,
    ;
    assert(k < n) by (nonlinear_arith)
        requires
            k * s <= y,
            y < h.height,
            h.height <= (n - 1) * s + s,
            s >= 1,
    ;
    lemma_strip(h, limits, k);
    let vk = h.strip_size(k);
    let rows = vk.height as int;
    let r = pos - k * s * w;
    assert(0 <= r < w * rows) by (nonlinear_arith)
        requires
            r == pos - k * s * w,
            y == pos / w,
            w >= 1,
            pos >= 0,
            k * s <= y,
            y < k * s + rows,
    ;
    assert(0 <= k * s * w) by (nonlinear_arith)
        requires
            k >= 0,
            s >= 1,
            w >= 1,
    ;
    vk.lemma_sample(r, j / area);
}

fn join_strips(h: &CubeHeader, strips: &Vec<Vec<i32>>, Ghost(list): Ghost<Seq<Option<SegmentData>>>, Ghost(
    limits,
): Ghost<DecodeLimits>) -> (samples: Vec<u16>)
    requires
        h.valid(),
        !h.transform,
        !h.beyond(limits),
        strips@.len() == h.count,
        forall|k: int|
            0 <= k < h.count ==> (#[trigger] strips@[k])@ == strip_heard(*h, list[k], k)
                && strips@[k]@.len() == h.strip_size(k).count(),
    ensures
        samples@ == samples_heard(*h, list),
{
    proof {
        lemma_volume(*h, limits);
        h.volume().lemma_area();
        lemma_sizes(h.width as int, h.height as int, h.bands as int);
        lemma_depth(h.bit_depth);
    }
    let area: usize = h.width as usize * h.height as usize;
    let total: usize = area * h.bands as usize;
    let shift: i64 = two_to(h.bit_depth - 1) as i64;
    let top: i64 = two_to(h.bit_depth) as i64 - 1;
    let mut samples: Vec<u16> = Vec::new();
    let mut j: usize = 0;
    while j < total
        invariant
            j <= total,
            total == h.total(),
            area == h.volume().area(),
            total > 0 ==> area >= 1,
            h.valid(),
            !h.transform,
            !h.beyond(limits),
            strips@.len() == h.count,
            forall|k: int|
                0 <= k < h.count ==> (#[trigger] strips@[k])@ == strip_heard(*h, list[k], k)
                    && strips@[k]@.len() == h.strip_size(k).count(),
            shift == level_shift(h.bit_depth),
            top == top_sample(h.bit_depth),
            0 <= shift <= 0x8000,
            0 <= top <= 0xFFFF,
            samples@.len() == j,
            forall|i: int|
                0 <= i < j ==> #[trigger] samples@[i] == sample_from(
                    strip_value(*h, list, i),
                    h.bit_depth,
                ),
        decreases total - j,
    {
        proof {
            lemma_place_in_strip(*h, limits, j as int);
        }
        let w: usize = h.width as usize;
        let strip: usize = h.strip as usize;
        let pos: usize = j % area;
        let k: usize = (pos / w) / strip;
        proof {
            lemma_strip(*h, limits, k as int);
            assert(strips@[k as int]@.len() == h.strip_size(k as int).count());
            let v = h.strip_size(k as int);
            v.lemma_area();
            assert(0 <= k * strip) by (nonlinear_arith)
                requires
                    0 <= k,
                    0 <= strip,
            ;
        }
        let left: usize = h.height as usize - k * strip;
        let rows: usize = if left < strip {
            left
        } else {
            strip
        };
        let at: usize = (j / area) * (w * rows) + (pos - k * strip * w);
        let c: i32 = strips[k][at];
        let sample: u16 = make_sample(c, shift, top, Ghost(h.bit_depth));
        samples.push(sample);
        j = j + 1;
    }
    assert(samples@ =~= samples_heard(*h, list));
    samples
}

/// Half and end of the range of samples.
pub proof fn lemma_depth(bit_depth: u8)
    requires
        1 <= bit_depth <= 16,
    ensures
        1 <= level_shift(bit_depth) <= 0x8000,
        1 <= top_sample(bit_depth) <= 0xFFFF,
        top_sample(bit_depth) == 2 * level_shift(bit_depth) - 1,
{
    vstd::arithmetic::power2::lemma2_to64();
    vstd::arithmetic::power2::lemma_pow2_unfold(bit_depth as nat);
    vstd::arithmetic::power2::lemma_pow2_pos((bit_depth - 1) as nat);
    if bit_depth < 16 {
        vstd::arithmetic::power2::lemma_pow2_strictly_increases(bit_depth as nat, 16);
    }
}

/// Decode the strips of a cube.
fn decode_strips(h: &CubeHeader, list: &Vec<Option<SegmentFields>>, Ghost(limits): Ghost<DecodeLimits>) -> (samples:
    Vec<u16>)
    requires
        h.valid(),
        !h.transform,
        !h.beyond(limits),
        list@.len() == h.count,
        forall|i: int|
            0 <= i < h.count ==> ((#[trigger] list@[i]) matches Some(f) ==> f.q <= 30
                && f.means@.len() == h.bands),
    ensures
        samples@ == samples_heard(*h, read_list(list@)),
{
    let mut strips: Vec<Vec<i32>> = Vec::new();
    let mut k: usize = 0;
    while k < list.len()
        invariant
            k <= list@.len(),
            h.valid(),
            !h.transform,
            !h.beyond(limits),
            list@.len() == h.count,
            forall|i: int|
                0 <= i < h.count ==> ((#[trigger] list@[i]) matches Some(f) ==> f.q <= 30
                    && f.means@.len() == h.bands),
            strips@.len() == k,
            forall|i: int|
                0 <= i < k ==> (#[trigger] strips@[i])@ == strip_heard(
                    *h,
                    read_list(list@)[i],
                    i,
                ) && strips@[i]@.len() == h.strip_size(i).count(),
        decreases list@.len() - k,
    {
        let strip = decode_cube_strip(h, &list[k], k, Ghost(limits));
        strips.push(strip);
        k = k + 1;
    }
    join_strips(h, &strips, Ghost(read_list(list@)), Ghost(limits))
}

/// Decode the windows of a transform.
fn decode_windows(h: &CubeHeader, list: &Vec<Option<SegmentFields>>, Ghost(limits): Ghost<DecodeLimits>) -> (r:
    Result<Vec<u16>>)
    requires
        h.valid(),
        h.transform,
        !h.beyond(limits),
        list@.len() == h.count,
        forall|i: int|
            0 <= i < h.count ==> ((#[trigger] list@[i]) matches Some(f) ==> f.q <= 30
                && f.means@.len() == h.bands),
        can_segment(
            h.width as int,
            h.height as int,
            h.volume().spatial_stages(h.levels as int),
            h.count as int,
        ),
    ensures
        r is Ok,
        r->Ok_0@ == samples_heard(*h, read_list(list@)),
{
    let ghost v = h.volume();
    proof {
        lemma_volume(*h, limits);
        v.lemma_area();
        lemma_depth(h.bit_depth);
    }
    let (w, height, bands): (usize, usize, usize) = (
        h.width as usize,
        h.height as usize,
        h.bands as usize,
    );
    let count: usize = h.count as usize;
    let ts: u8 = spatial_stage_count(w, height, h.levels);
    let (rects, _map) = match divide_image(w, height, ts, count) {
        Ok(d) => d,
        Err(e) => return Err(e),
    };
    let ghost data = read_list(list@);
    let mut coeffs: Vec<i32> = repeated(0i32, w * height * bands);
    assert(coeffs@ =~= blank(v.count()));
    let mut k: usize = 0;
    while k < count
        invariant
            k <= count,
            count == h.count,
            h.valid(),
            v == h.volume(),
            v.ok(),
            v.width == w,
            v.height == height,
            v.bands == bands,
            ts == v.spatial_stages(h.levels as int),
            1 <= h.levels <= 6,
            ts <= h.levels,
            list@.len() == h.count,
            data == read_list(list@),
            forall|i: int|
                0 <= i < h.count ==> ((#[trigger] list@[i]) matches Some(f) ==> f.q <= 30
                    && f.means@.len() == h.bands),
            coeffs@.len() == v.count(),
            coeffs@ == windows_heard(*h, data, k as int),
            can_segment(w as int, height as int, ts as int, count as int),
            rects@.len() == count,
            ({
                let p = ll_partition(w as int, height as int, ts as int, count as int);
                &&& forall|j: int|
                    0 <= j < count ==> crate::partition::is_rect(p, j, #[trigger] rects@[j])
                &&& crate::partition::is_params(
                    crate::merge::ll_size(w as int, height as int, ts as int).0,
                    crate::merge::ll_size(w as int, height as int, ts as int).1,
                    count as int,
                    p,
                )
            }),
        decreases count - k,
    {
        let window = block_of(&rects, k, w, height, ts, count);
        let geom = CubeGeometry::with_window(w, height, bands, h.levels, window);
        assert(geom.layout() == part_layout(v, h.levels as int, count as int, k as int));
        hear_segment(h, &geom, &list[k], &mut coeffs);
        assert(data[k as int] == read_data(list@[k as int]));
        k = k + 1;
    }
    inverse_3d(&mut coeffs, w, height, bands, h.levels, h.filter);
    let ghost buf = coeffs@;
    let shift: i64 = two_to(h.bit_depth - 1) as i64;
    let top: i64 = two_to(h.bit_depth) as i64 - 1;
    let mut samples: Vec<u16> = Vec::new();
    let mut j: usize = 0;
    while j < coeffs.len()
        invariant
            j <= coeffs@.len(),
            coeffs@ == buf,
            buf.len() == h.total(),
            1 <= h.bit_depth <= 16,
            shift == level_shift(h.bit_depth),
            top == top_sample(h.bit_depth),
            0 <= shift <= 0x8000,
            0 <= top <= 0xFFFF,
            samples@.len() == j,
            forall|i: int|
                0 <= i < j ==> #[trigger] samples@[i] == sample_from(buf[i], h.bit_depth),
        decreases coeffs@.len() - j,
    {
        let sample: u16 = make_sample(coeffs[j], shift, top, Ghost(h.bit_depth));
        samples.push(sample);
        j = j + 1;
    }
    assert(samples@ =~= samples_heard(*h, data));
    Ok(samples)
}

/// Decode a cube: all of it, or what is there.
fn parse_cube(bytes: &[u8], limits: &DecodeLimits, lenient: bool) -> (r: Result<LenientCubeDecode>)
    ensures
        match cube_decoded(bytes@, *limits, lenient) {
            Err(f) => fails_with(r, f),
            Ok(d) => r is Ok && tells_of(r->Ok_0, d),
        },
{
    let h = match read_header(bytes) {
        Ok(h) => h,
        Err(e) => return Err(e),
    };
    if !has_integer_transform(h.filter) {
        return Err(IcerError::unsupported("cube filter without an integer transform"));
    }
    proof {
        lemma_sizes(h.width as int, h.height as int, h.bands as int);
        lemma_sizes(h.width as int, h.strip as int, h.bands as int);
    }
    let total: u64 = h.width as u64 * h.height as u64 * h.bands as u64;
    let per_segment: u64 = if h.transform {
        total
    } else {
        h.width as u64 * h.strip as u64 * h.bands as u64
    };
    if per_segment > limits.max_pixels_per_segment || total > limits.max_total_pixels || total
        > usize::MAX as u64 {
        return Err(IcerError::unsupported("cube geometry exceeds the decode limits"));
    }
    assert(!h.beyond(*limits));
    proof {
        lemma_volume(h, *limits);
        h.volume().lemma_area();
    }
    if h.transform {
        let (w, height): (usize, usize) = (h.width as usize, h.height as usize);
        let ts: u8 = spatial_stage_count(w, height, h.levels);
        match divide_image(w, height, ts, h.count as usize) {
            Ok(_) => {},
            Err(_) => {
                return Err(IcerError::invalid("cube partition"));
            },
        }
    }
    let (list, fault) = read_segments(bytes, 17, h.bands as usize, h.count as usize);
    let ghost reading = segments_read(bytes@, 17, h.bands as int, h.count as int);
    let incomplete: bool = fault.is_some();
    if !lenient {
        if let Some(e) = fault {
            return Err(e);
        }
    }
    let samples = if h.transform {
        match decode_windows(&h, &list, Ghost(*limits)) {
            Ok(s) => s,
            Err(e) => return Err(e),
        }
    } else {
        decode_strips(&h, &list, Ghost(*limits))
    };
    let mut packets_received: Vec<usize> = Vec::new();
    let mut segments_received: usize = 0;
    let mut k: usize = 0;
    while k < list.len()
        invariant
            k <= list@.len(),
            reading.list == read_list(list@),
            packets_received@.len() == k,
            forall|i: int|
                0 <= i < k ==> #[trigger] packets_received@[i] == (match reading.list[i] {
                    Some(s) => s.packets.len() as int,
                    None => 0,
                }),
            segments_received == count_there(reading.list, k as int),
            segments_received <= k,
        decreases list@.len() - k,
    {
        assert(reading.list[k as int] == read_data(list@[k as int]));
        match &list[k] {
            Some(f) => {
                packets_received.push(f.packets.len());
                segments_received = segments_received + 1;
            },
            None => {
                packets_received.push(0);
            },
        }
        k = k + 1;
    }
    let cube = IcerCube {
        width: h.width as u32,
        height: h.height as u32,
        bands: h.bands as u32,
        bit_depth: h.bit_depth,
        samples,
    };
    Ok(LenientCubeDecode { cube, packets_received, segments_received, truncated: incomplete })
}

/// Decode a cube under the usual limits.
pub fn parse_icer3d(bytes: &[u8]) -> (r: Result<IcerCube>)
    ensures
        match cube_decoded(bytes@, DecodeLimits::usual(), false) {
            Err(f) => fails_with(r, f),
            Ok(d) => r is Ok && holds_cube(r->Ok_0, d),
        },
{
    parse_icer3d_with_limits(bytes, &DecodeLimits::default())
}

/// Decode a cube.
pub fn parse_icer3d_with_limits(bytes: &[u8], limits: &DecodeLimits) -> (r: Result<IcerCube>)
    ensures
        match cube_decoded(bytes@, *limits, false) {
            Err(f) => fails_with(r, f),
            Ok(d) => r is Ok && holds_cube(r->Ok_0, d),
        },
{
    match parse_cube(bytes, limits, false) {
        Ok(d) => Ok(d.cube),
        Err(e) => Err(e),
    }
}

/// Decode what is there of a cube under the usual limits.
pub fn parse_icer3d_lenient(bytes: &[u8]) -> (r: Result<LenientCubeDecode>)
    ensures
        match cube_decoded(bytes@, DecodeLimits::usual(), true) {
            Err(f) => fails_with(r, f),
            Ok(d) => r is Ok && tells_of(r->Ok_0, d),
        },
{
    parse_cube(bytes, &DecodeLimits::default(), true)
}

/// Decode what is there of a cube.
pub fn parse_icer3d_lenient_with_limits(bytes: &[u8], limits: &DecodeLimits) -> (r: Result<
    LenientCubeDecode,
>)
    ensures
        match cube_decoded(bytes@, *limits, true) {
            Err(f) => fails_with(r, f),
            Ok(d) => r is Ok && tells_of(r->Ok_0, d),
        },
{
    parse_cube(bytes, limits, true)
}

} // verus!
