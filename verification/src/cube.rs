//! Encoding and decoding of hyperspectral cubes.
//!
//! A cube is a stack of spatial planes. It is divided into segments: strips of
//! rows that are transformed each on its own, or windows of one transform. All
//! of them extend through all bands. A segment carries the mean of the spatial
//! averages of each band, and the bit planes of what is left.

use crate::bitplane3d::{cube_coded, cube_packets, cube_planes_from, covered_planes_from, encode_cube_bitplanes, whole_layout, window_layout, CubeGeometry, Layout, TOP_PRIORITY};
use crate::cube_means::{means_of, means_subtracted, subtract_plane_means};
use crate::cube_wire::{cube_bytes, segment_list, segments_bytes, write_segment, CubeHeader, EncodedSegment, SegmentData};
use crate::entropy::{coder_for, coder_of, EntropyKind};
use crate::error::{fails_with, Fault, IcerError, Result};
use crate::header::WaveletFilter;
use crate::merge::{block_of, can_segment, divide_image, ll_partition, window_at};
use crate::partition::{ceil_div, div_up};
use crate::priority::{clamp_levels, clamped_levels, two_to};
use crate::scan::repeated;
use crate::subband3d::spatial_stage_count;
use crate::wavelet3d::{cube_forward, forward_3d, Volume};
use crate::wavelet_int::{has_integer_transform, is_integer};
use vstd::prelude::*;
use vstd::arithmetic::power2::pow2;

pub use crate::cube_decode::{parse_icer3d, parse_icer3d_lenient, parse_icer3d_lenient_with_limits, parse_icer3d_with_limits, LenientCubeDecode};
pub use crate::cube_wire::{is_cube, CUBE_MAGIC, HEADER_BODY_BYTES, PACKET_OVERHEAD};

verus! {

// ---------------------------------------------------------------------------
// Cubes
// ---------------------------------------------------------------------------

/// A hyperspectral cube: spatial planes one after the other, each in raster
/// order.
#[derive(Debug, Clone, PartialEq, Eq)]
pub struct IcerCube {
    /// Columns, 1 to 65535.
    pub width: u32,
    /// Rows, 1 to 65535.
    pub height: u32,
    /// Spectral bands, 1 to 65535.
    pub bands: u32,
    /// Bits of a sample, 1 to 16.
    pub bit_depth: u8,
    /// The samples.
    pub samples: Vec<u16>,
}

/// Largest sample with a bit depth.
pub open spec fn top_sample(bit_depth: u8) -> int {
    pow2(bit_depth as nat) - 1
}

impl IcerCube {
    /// Number of samples that the sizes ask for.
    pub open spec fn volume(self) -> int {
        self.width * self.height * self.bands
    }

    /// Why the cube cannot be encoded.
    pub open spec fn fault(self) -> Option<Fault> {
        if !(1 <= self.width <= 0xFFFF && 1 <= self.height <= 0xFFFF && 1 <= self.bands <= 0xFFFF
            && 1 <= self.bit_depth <= 16) {
            Some(Fault::Unsupported)
        } else if self.samples@.len() != self.volume() || exists|i: int|
            0 <= i < self.samples@.len() && #[trigger] self.samples@[i] > top_sample(
                self.bit_depth,
            ) {
            Some(Fault::InvalidData)
        } else {
            None
        }
    }

    /// A cube of zeros.
    pub fn zeros(width: u32, height: u32, bands: u32, bit_depth: u8) -> (c: Self)
        requires
            width * height * bands <= usize::MAX,
        ensures
            c.width == width,
            c.height == height,
            c.bands == bands,
            c.bit_depth == bit_depth,
            c.samples@ == Seq::new((width * height * bands) as nat, |i: int| 0u16),
    {
        proof {
            assert(0 <= width * height <= 0xFFFF_FFFF * 0xFFFF_FFFF) by (nonlinear_arith)
                requires
                    0 <= width <= 0xFFFF_FFFF,
                    0 <= height <= 0xFFFF_FFFF,
            ;
            let a = width * height;
            assert(0 <= a * bands <= 0xFFFF_FFFF * 0xFFFF_FFFF * 0xFFFF_FFFF) by (nonlinear_arith)
                requires
                    0 <= a <= 0xFFFF_FFFF * 0xFFFF_FFFF,
                    0 <= bands <= 0xFFFF_FFFF,
            ;
        }
        let n: u128 = width as u128 * height as u128 * bands as u128;
        let samples: Vec<u16> = repeated(0u16, n as usize);
        assert(samples@ =~= Seq::new((width * height * bands) as nat, |i: int| 0u16));
        IcerCube { width, height, bands, bit_depth, samples }
    }

    fn validate(&self) -> (r: Result<()>)
        ensures
            match self.fault() {
                Some(f) => fails_with(r, f),
                None => r is Ok,
            },
    {
        if self.width == 0 || self.width > 0xFFFF {
            return Err(IcerError::unsupported("cube width outside 1..=65535"));
        }
        if self.height == 0 || self.height > 0xFFFF {
            return Err(IcerError::unsupported("cube height outside 1..=65535"));
        }
        if self.bands == 0 || self.bands > 0xFFFF {
            return Err(IcerError::unsupported("cube bands outside 1..=65535"));
        }
        if self.bit_depth == 0 || self.bit_depth > 16 {
            return Err(IcerError::unsupported("cube bit depth outside 1..=16"));
        }
        proof {
            lemma_sizes(self.width as int, self.height as int, self.bands as int);
        }
        let n: u64 = self.width as u64 * self.height as u64 * self.bands as u64;
        if self.samples.len() as u64 != n {
            return Err(IcerError::invalid("cube sample count does not match its sizes"));
        }
        proof {
            vstd::arithmetic::power2::lemma2_to64();
            vstd::arithmetic::power2::lemma_pow2_pos(self.bit_depth as nat);
        }
        let top: usize = two_to(self.bit_depth) - 1;
        let mut i: usize = 0;
        while i < self.samples.len()
            invariant
                i <= self.samples@.len(),
                top == top_sample(self.bit_depth),
                forall|k: int| 0 <= k < i ==> #[trigger] self.samples@[k] <= top,
                self.samples@.len() == self.volume(),
                1 <= self.width <= 0xFFFF,
                1 <= self.height <= 0xFFFF,
                1 <= self.bands <= 0xFFFF,
                1 <= self.bit_depth <= 16,
            decreases self.samples@.len() - i,
        {
            if self.samples[i] as usize > top {
                assert(self.samples@[i as int] > top_sample(self.bit_depth));
                return Err(IcerError::invalid("cube sample exceeds its bit depth"));
            }
            i = i + 1;
        }
        Ok(())
    }
}

/// Sizes up to 65535 give volumes that can be counted.
pub proof fn lemma_sizes(width: int, height: int, bands: int)
    requires
        0 <= width <= 0xFFFF,
        0 <= height <= 0xFFFF,
        0 <= bands <= 0xFFFF,
    ensures
        0 <= width * height <= 0xFFFF * 0xFFFF,
        0 <= width * height * bands <= 0xFFFF * 0xFFFF * 0xFFFF,
{
    assert(0 <= width * height <= 0xFFFF * 0xFFFF) by (nonlinear_arith)
        requires
            0 <= width <= 0xFFFF,
            0 <= height <= 0xFFFF,
    ;
    let a = width * height;
    assert(0 <= a * bands <= 0xFFFF * 0xFFFF * 0xFFFF) by (nonlinear_arith)
        requires
            0 <= a <= 0xFFFF * 0xFFFF,
            0 <= bands <= 0xFFFF,
    ;
}

/// Options of the encoder of cubes.
#[derive(Debug, Clone)]
pub struct CubeEncodeOptions {
    /// Wavelet filter.
    pub filter: WaveletFilter,
    /// Decomposition levels; they are forced into the range 1 to 6.
    pub wavelet_levels: u8,
    /// Number of segments.
    pub segment_count: u8,
    /// Segments are windows of one transform instead of strips of rows.
    pub transform_domain: bool,
    /// Largest number of bytes.
    pub byte_quota: Option<u64>,
    /// Bit planes whose priority is lower are left out.
    pub min_loss: u8,
    /// Use the interleaved coder.
    pub interleaved_entropy: bool,
}

impl Default for CubeEncodeOptions {
    fn default() -> (o: Self)
        ensures
            o == (CubeEncodeOptions {
                filter: WaveletFilter::Reversible53,
                wavelet_levels: 3,
                segment_count: 1,
                transform_domain: false,
                byte_quota: None,
                min_loss: 0,
                interleaved_entropy: false,
            }),
    {
        CubeEncodeOptions {
            filter: WaveletFilter::Reversible53,
            wavelet_levels: 3,
            segment_count: 1,
            transform_domain: false,
            byte_quota: None,
            min_loss: 0,
            interleaved_entropy: false,
        }
    }
}

impl CubeEncodeOptions {
    /// Choose the wavelet filter.
    pub fn with_filter(self, filter: WaveletFilter) -> (o: Self)
        ensures
            o == (CubeEncodeOptions { filter, ..self }),
    {
        CubeEncodeOptions { filter, ..self }
    }

    /// Set the decomposition levels.
    pub fn with_levels(self, levels: u8) -> (o: Self)
        ensures
            o == (CubeEncodeOptions { wavelet_levels: levels, ..self }),
    {
        CubeEncodeOptions { wavelet_levels: levels, ..self }
    }

    /// Divide the cube into `n` segments.
    pub fn with_segment_count(self, n: u8) -> (o: Self)
        ensures
            o == (CubeEncodeOptions { segment_count: n, ..self }),
    {
        CubeEncodeOptions { segment_count: n, ..self }
    }

    /// Let segments be windows of one transform.
    pub fn with_transform_domain_segments(self) -> (o: Self)
        ensures
            o == (CubeEncodeOptions { transform_domain: true, ..self }),
    {
        CubeEncodeOptions { transform_domain: true, ..self }
    }

    /// Limit the number of bytes.
    pub fn with_byte_quota(self, quota: u64) -> (o: Self)
        ensures
            o == (CubeEncodeOptions { byte_quota: Some(quota), ..self }),
    {
        CubeEncodeOptions { byte_quota: Some(quota), ..self }
    }

    /// Leave out bit planes whose priority is below `q`.
    pub fn with_min_loss(self, q: u8) -> (o: Self)
        ensures
            o == (CubeEncodeOptions { min_loss: q, ..self }),
    {
        CubeEncodeOptions { min_loss: q, ..self }
    }

    /// Use the interleaved coder.
    pub fn with_interleaved_entropy(self) -> (o: Self)
        ensures
            o == (CubeEncodeOptions { interleaved_entropy: true, ..self }),
    {
        CubeEncodeOptions { interleaved_entropy: true, ..self }
    }
}

// ---------------------------------------------------------------------------
// Segments of a cube
// ---------------------------------------------------------------------------

/// Half of the range of samples.
pub open spec fn level_shift(bit_depth: u8) -> int {
    pow2((bit_depth - 1) as nat) as int
}

/// Rows `y0` to `y0 + rows` of all planes, shifted to be centred at zero.
pub open spec fn strip_of(cube: IcerCube, y0: int, rows: int) -> Seq<i32> {
    let (w, h) = (cube.width as int, cube.height as int);
    Seq::new(
        (w * rows * cube.bands) as nat,
        |i: int|
            (cube.samples@[(i / (w * rows)) * (w * h) + y0 * w + i % (w * rows)] - level_shift(
                cube.bit_depth,
            )) as i32,
    )
}

/// What a layout of transformed coefficients leads to, where the number of bit
/// planes is `q` after the means are subtracted.
pub open spec fn segment_of(
    lay: Layout,
    coeffs: Seq<i32>,
    kind: EntropyKind,
    q: u8,
    min_loss: u8,
) -> SegmentData {
    SegmentData {
        q,
        means: means_of(lay, coeffs),
        packets: cube_coded(lay, means_subtracted(lay, coeffs), kind, q as int, min_loss as int),
    }
}

/// Rows of strip `k`, where strips have `each` rows.
pub open spec fn rows_in_strip(height: int, each: int, k: int) -> int {
    if height - k * each < each {
        height - k * each
    } else {
        each
    }
}

/// Sizes of strip `k`.
pub open spec fn strip_volume(width: int, height: int, bands: int, each: int, k: int) -> Volume {
    Volume {
        width: width as usize,
        height: rows_in_strip(height, each, k) as usize,
        bands: bands as usize,
    }
}

/// The transform of strip `k` of a cube.
pub open spec fn strip_transform(cube: IcerCube, opts: CubeEncodeOptions, each: int, k: int) -> Seq<i32> {
    let v = strip_volume(
        cube.width as int,
        cube.height as int,
        cube.bands as int,
        each,
        k,
    );
    cube_forward(
        opts.filter,
        v,
        clamped_levels(opts.wavelet_levels) as int,
        strip_of(cube, k * each, v.height as int),
    )
}

/// Strip `k` of a cube as a segment.
pub open spec fn strip_coded(cube: IcerCube, opts: CubeEncodeOptions, each: int, k: int) -> SegmentData {
    let v = strip_volume(
        cube.width as int,
        cube.height as int,
        cube.bands as int,
        each,
        k,
    );
    let lay = whole_layout(v, clamped_levels(opts.wavelet_levels) as int);
    let coeffs = strip_transform(cube, opts, each, k);
    segment_of(
        lay,
        coeffs,
        coder_of(opts.interleaved_entropy),
        cube_planes_from(means_subtracted(lay, coeffs), 0) as u8,
        opts.min_loss,
    )
}

/// Sizes of a cube.
pub open spec fn cube_volume(cube: IcerCube) -> Volume {
    Volume {
        width: cube.width as usize,
        height: cube.height as usize,
        bands: cube.bands as usize,
    }
}

/// Layout of window `k` of `count` of a transformed cube.
pub open spec fn part_layout(v: Volume, levels: int, count: int, k: int) -> Layout {
    let ts = v.spatial_stages(levels);
    let p = ll_partition(v.width as int, v.height as int, ts, count);
    window_layout(v, levels, window_at(p, k, v.width as int, v.height as int, ts))
}

/// Window `k` of the transform of a cube as a segment.
pub open spec fn part_coded(cube: IcerCube, opts: CubeEncodeOptions, k: int) -> SegmentData {
    let v = cube_volume(cube);
    let levels = clamped_levels(opts.wavelet_levels) as int;
    let lay = part_layout(v, levels, opts.segment_count as int, k);
    let coeffs = cube_forward(opts.filter, v, levels, strip_of(cube, 0, cube.height as int));
    segment_of(
        lay,
        coeffs,
        coder_of(opts.interleaved_entropy),
        covered_planes_from(lay, means_subtracted(lay, coeffs), 0) as u8,
        opts.min_loss,
    )
}

/// Rows of a strip.
pub open spec fn strip_height(cube: IcerCube, opts: CubeEncodeOptions) -> int {
    ceil_div(cube.height as int, opts.segment_count as int)
}

/// Number of segments in the stream.
pub open spec fn stream_segments_count(cube: IcerCube, opts: CubeEncodeOptions) -> int {
    if opts.transform_domain {
        opts.segment_count as int
    } else {
        ceil_div(cube.height as int, strip_height(cube, opts))
    }
}

/// Segment `k` of a cube.
pub open spec fn segment_coded(cube: IcerCube, opts: CubeEncodeOptions, k: int) -> SegmentData {
    if opts.transform_domain {
        part_coded(cube, opts, k)
    } else {
        strip_coded(cube, opts, strip_height(cube, opts), k)
    }
}

/// All segments of a cube.
pub open spec fn segments_coded(cube: IcerCube, opts: CubeEncodeOptions) -> Seq<SegmentData> {
    Seq::new(
        stream_segments_count(cube, opts) as nat,
        |k: int| segment_coded(cube, opts, k),
    )
}

// ---------------------------------------------------------------------------
// The byte quota
// ---------------------------------------------------------------------------

/// Bytes of a segment without its packets.
pub open spec fn fixed_bytes(bands: int) -> int {
    4 + 4 * bands
}

/// Bytes of a stream without packets.
pub open spec fn framing(bands: int, count: int) -> int {
    17 + count * fixed_bytes(bands)
}

/// Packets that are kept.
pub struct Keeping {
    /// For each segment how many packets are kept.
    pub keep: Seq<int>,
    /// Bytes so far.
    pub used: int,
    /// Nothing more is kept.
    pub stopped: bool,
}

/// What is kept after one more step: the packet of segment `s` with priority
/// `p`, if there is one, is kept where it fits; else nothing more is kept.
pub open spec fn kept_one(list: Seq<SegmentData>, quota: int, st: Keeping, p: int, s: int) -> Keeping {
    let k = st.keep[s];
    if st.stopped || k >= list[s].packets.len() || list[s].packets[k].priority != p {
        st
    } else {
        let cost = 5 + list[s].packets[k].body.len();
        if st.used + cost > quota {
            Keeping { stopped: true, ..st }
        } else {
            Keeping { keep: st.keep.update(s, k + 1), used: st.used + cost, stopped: false }
        }
    }
}

/// What is kept after the packets with priority `p` of the first `s` segments.
pub open spec fn kept_row(list: Seq<SegmentData>, quota: int, st: Keeping, p: int, s: int) -> Keeping
    decreases s,
{
    if s <= 0 {
        st
    } else {
        kept_one(list, quota, kept_row(list, quota, st, p, s - 1), p, s - 1)
    }
}

/// What is kept after the packets with priority `p` and more: those of higher
/// priority come first, and among equal ones those of earlier segments.
pub open spec fn kept_from(list: Seq<SegmentData>, quota: int, floor: int, p: int) -> Keeping
    decreases TOP_PRIORITY + 1 - p,
{
    if p > TOP_PRIORITY {
        Keeping { keep: Seq::new(list.len(), |i: int| 0int), used: floor, stopped: false }
    } else {
        kept_row(list, quota, kept_from(list, quota, floor, p + 1), p, list.len() as int)
    }
}

/// The segments with the packets that a quota leaves.
pub open spec fn within_quota(list: Seq<SegmentData>, quota: Option<u64>, bands: int) -> Seq<SegmentData> {
    match quota {
        None => list,
        Some(b) => {
            let keep = kept_from(list, b as int, framing(bands, list.len() as int), 0).keep;
            Seq::new(
                list.len(),
                |i: int| SegmentData { packets: list[i].packets.take(keep[i]), ..list[i] },
            )
        },
    }
}

/// Some packet is longer than its length field can say.
pub open spec fn some_overlong(list: Seq<SegmentData>) -> bool {
    exists|i: int, j: int|
        0 <= i < list.len() && 0 <= j < list[i].packets.len() && (
        #[trigger] list[i].packets[j]).body.len() > u32::MAX
}

/// The header of the stream of a cube.
pub open spec fn stream_header(cube: IcerCube, opts: CubeEncodeOptions) -> CubeHeader {
    CubeHeader {
        width: cube.width as u16,
        height: cube.height as u16,
        bands: cube.bands as u16,
        bit_depth: cube.bit_depth,
        filter: opts.filter,
        levels: clamped_levels(opts.wavelet_levels),
        count: stream_segments_count(cube, opts) as u8,
        strip: if opts.transform_domain {
            0
        } else {
            strip_height(cube, opts) as u16
        },
        interleaved: opts.interleaved_entropy,
        transform: opts.transform_domain,
    }
}

/// A cube cannot be encoded with these options: there are to be no segments,
/// the filter has no integer transform, or the averages cannot be divided into
/// that many windows.
pub open spec fn options_refused(cube: IcerCube, opts: CubeEncodeOptions) -> bool {
    ||| opts.segment_count == 0
    ||| !is_integer(opts.filter)
    ||| opts.transform_domain && !can_segment(
        cube.width as int,
        cube.height as int,
        cube_volume(cube).spatial_stages(clamped_levels(opts.wavelet_levels) as int),
        opts.segment_count as int,
    )
}

/// The stream of a cube, or why there is none. A quota has to leave room for
/// the framing.
pub open spec fn cube_encoded(cube: IcerCube, opts: CubeEncodeOptions) -> core::result::Result<
    Seq<u8>,
    Fault,
> {
    if cube.fault() is Some {
        Err(cube.fault()->0)
    } else if options_refused(cube, opts) {
        Err(Fault::Unsupported)
    } else {
        let all = segments_coded(cube, opts);
        let list = within_quota(all, opts.byte_quota, cube.bands as int);
        if opts.byte_quota is Some && opts.byte_quota->0 < framing(
            cube.bands as int,
            all.len() as int,
        ) {
            Err(Fault::Unsupported)
        } else if some_overlong(list) {
            Err(Fault::Unsupported)
        } else {
            Ok(cube_bytes(stream_header(cube, opts), list))
        }
    }
}

// ---------------------------------------------------------------------------
// Encoding
// ---------------------------------------------------------------------------

/// Strips of a cube that can be encoded are not empty and can be addressed.
pub proof fn lemma_strip_volume(width: int, height: int, bands: int, each: int, k: int)
    requires
        1 <= width <= 0xFFFF,
        1 <= height <= 0xFFFF,
        1 <= bands <= 0xFFFF,
        width * height * bands <= usize::MAX,
        each >= 1,
        0 <= k,
        k * each < height,
    ensures
        ({
            let v = strip_volume(width, height, bands, each, k);
            &&& v.ok()
            &&& v.width == width
            &&& v.height == rows_in_strip(height, each, k)
            &&& v.bands == bands
            &&& k * each + v.height <= height
            &&& v.count() <= width * height * bands
            &&& v.area() == width * rows_in_strip(height, each, k)
        }),
{
    let rows = rows_in_strip(height, each, k);
    assert(0 <= k * each) by (nonlinear_arith)
        requires
            k >= 0,
            each >= 1,
    ;
    assert(width * rows <= width * height) by (nonlinear_arith)
        requires
            1 <= width,
            rows <= height,
    ;
    assert(1 <= width * rows) by (nonlinear_arith)
        requires
            1 <= width,
            1 <= rows,
    ;
    let (a, b) = (width * rows, width * height);
    assert(a * bands <= b * bands && a <= a * bands) by (nonlinear_arith)
        requires
            0 <= a <= b,
            bands >= 1,
    ;
}

/// Strips of equal height make up the rows.
pub proof fn lemma_strip_count(height: int, n: int)
    requires
        1 <= height,
        1 <= n,
    ensures
        ({
            let each = ceil_div(height, n);
            let count = ceil_div(height, each);
            &&& 1 <= each <= height
            &&& 1 <= count <= n
            &&& (count - 1) * each < height
            &&& height <= count * each
        }),
{
    let each = ceil_div(height, n);
    assert(1 <= each <= height && height <= each * n) by (nonlinear_arith)
        requires
            each == (height + n - 1) / n,
            height >= 1,
            n >= 1,
    ;
    let count = ceil_div(height, each);
    assert(1 <= count && (count - 1) * each < height && height <= count * each)
        by (nonlinear_arith)
        requires
            count == (height + each - 1) / each,
            height >= 1,
            each >= 1,
    ;
    assert(count <= n) by (nonlinear_arith)
        requires
            (count - 1) * each < height,
            height <= each * n,
            each >= 1,
    ;
}

/// Where a sample of a strip lies in the cube.
pub proof fn lemma_strip_sample(width: int, height: int, bands: int, y0: int, rows: int, i: int)
    requires
        width >= 1,
        rows >= 1,
        0 <= y0,
        y0 + rows <= height,
        0 <= i < width * rows * bands,
    ensures
        ({
            let n = width * rows;
            let at = (i / n) * (width * height) + y0 * width + i % n;
            &&& n >= 1
            &&& 0 <= i / n < bands
            &&& 0 <= i % n < n
            &&& 0 <= y0 * width
            &&& y0 * width + n <= width * height
            &&& 0 <= (i / n) * (width * height)
            &&& 0 <= at < width * height * bands
            &&& (i / n) * (width * height) + width * height <= width * height * bands
        }),
{
    let n = width * rows;
    let a = width * height;
    assert(n >= 1) by (nonlinear_arith)
        requires
            n == width * rows,
            width >= 1,
            rows >= 1,
    ;
    assert(0 <= i / n < bands && 0 <= i % n < n) by (nonlinear_arith)
        requires
            0 <= i < n * bands,
            n >= 1,
    ;
    assert(0 <= y0 * width && y0 * width + n <= a) by (nonlinear_arith)
        requires
            n == width * rows,
            a == width * height,
            y0 + rows <= height,
            y0 >= 0,
            width >= 1,
    ;
    let l = i / n;
    assert(0 <= l * a && l * a + a <= a * bands) by (nonlinear_arith)
        requires
            0 <= l <= bands - 1,
            a >= 0,
    ;
}

fn extract_strip(cube: &IcerCube, y0: usize, rows: usize) -> (out: Vec<i32>)
    requires
        cube.fault() is None,
        1 <= rows,
        y0 + rows <= cube.height,
    ensures
        out@ == strip_of(*cube, y0 as int, rows as int),
        out@.len() == cube.width * rows * cube.bands,
{
    let w: usize = cube.width as usize;
    let h: usize = cube.height as usize;
    proof {
        lemma_sizes(w as int, rows as int, cube.bands as int);
        let (a, b) = (w * rows, w * h);
        assert(a <= b) by (nonlinear_arith)
            requires
                a == w * rows,
                b == w * h,
                rows <= h,
        ;
        assert(a * cube.bands <= b * cube.bands) by (nonlinear_arith)
            requires
                a <= b,
        ;
        assert(b <= b * cube.bands) by (nonlinear_arith)
            requires
                b >= 0,
                cube.bands >= 1,
        ;
        assert(cube.samples.len() == cube.volume());
        vstd::arithmetic::power2::lemma2_to64();
        if cube.bit_depth < 16 {
            vstd::arithmetic::power2::lemma_pow2_strictly_increases(
                (cube.bit_depth - 1) as nat,
                15,
            );
        }
    }
    let shift: i32 = two_to(cube.bit_depth - 1) as i32;
    let n: usize = w * rows;
    let total: usize = n * cube.bands as usize;
    let mut out: Vec<i32> = Vec::new();
    let mut i: usize = 0;
    while i < total
        invariant
            i <= total,
            cube.fault() is None,
            w == cube.width,
            h == cube.height,
            n == w * rows,
            total == w * rows * cube.bands,
            1 <= rows,
            y0 + rows <= h,
            w * h <= usize::MAX,
            shift == level_shift(cube.bit_depth),
            0 <= shift <= 0x8000,
            out@.len() == i,
            forall|j: int| 0 <= j < i ==> #[trigger] out@[j] == strip_of(
                *cube,
                y0 as int,
                rows as int,
            )[j],
        decreases total - i,
    {
        proof {
            lemma_strip_sample(
                w as int,
                h as int,
                cube.bands as int,
                y0 as int,
                rows as int,
                i as int,
            );
            assert(cube.samples.len() == cube.volume());
        }
        let at: usize = (i / n) * (w * h) + y0 * w + i % n;
        out.push(cube.samples[at] as i32 - shift);
        i = i + 1;
    }
    assert(out@ =~= strip_of(*cube, y0 as int, rows as int));
    out
}

/// Encode strip `k` of a cube.
fn encode_strip(cube: &IcerCube, opts: &CubeEncodeOptions, each: usize, k: usize) -> (s: EncodedSegment)
    requires
        cube.fault() is None,
        1 <= each <= 0xFFFF,
        k * each < cube.height,
    ensures
        s.data() == strip_coded(*cube, *opts, each as int, k as int),
{
    let levels: u8 = clamp_levels(opts.wavelet_levels);
    let w: usize = cube.width as usize;
    let bands: usize = cube.bands as usize;
    let y0: usize = k * each;
    let left: usize = cube.height as usize - y0;
    let rows: usize = if left < each {
        left
    } else {
        each
    };
    proof {
        assert(cube.samples.len() == cube.volume());
        lemma_strip_volume(
            w as int,
            cube.height as int,
            bands as int,
            each as int,
            k as int,
        );
    }
    let mut coeffs = extract_strip(cube, y0, rows);
    forward_3d(&mut coeffs, w, rows, bands, levels, opts.filter);
    let geom = CubeGeometry::new(w, rows, bands, levels);
    let means = subtract_plane_means(&mut coeffs, &geom);
    let q: u8 = CubeGeometry::bit_planes_needed(coeffs.as_slice());
    let packets = encode_cube_bitplanes(
        &geom,
        coeffs.as_slice(),
        q,
        opts.min_loss,
        coder_for(opts.interleaved_entropy),
    );
    EncodedSegment { q, means, packets }
}

fn copy_coeffs(v: &Vec<i32>) -> (r: Vec<i32>)
    ensures
        r@ == v@,
{
    let mut r: Vec<i32> = Vec::new();
    let mut i: usize = 0;
    while i < v.len()
        invariant
            i <= v@.len(),
            r@.len() == i,
            forall|j: int| 0 <= j < i ==> r@[j] == v@[j],
        decreases v@.len() - i,
    {
        r.push(v[i]);
        i = i + 1;
    }
    assert(r@ =~= v@);
    r
}

/// Encode the windows of the transform of a cube.
fn encode_windows(cube: &IcerCube, opts: &CubeEncodeOptions) -> (r: Result<Vec<EncodedSegment>>)
    requires
        cube.fault() is None,
        opts.transform_domain,
        opts.segment_count >= 1,
        is_integer(opts.filter),
    ensures
        options_refused(*cube, *opts) ==> fails_with(r, Fault::Unsupported),
        !options_refused(*cube, *opts) ==> r is Ok && segment_list(r->Ok_0@) == segments_coded(
            *cube,
            *opts,
        ),
{
    let levels: u8 = clamp_levels(opts.wavelet_levels);
    let w: usize = cube.width as usize;
    let h: usize = cube.height as usize;
    let bands: usize = cube.bands as usize;
    let count: usize = opts.segment_count as usize;
    let ghost v = cube_volume(*cube);
    proof {
        assert(cube.samples.len() == cube.volume());
        lemma_strip_volume(w as int, h as int, bands as int, h as int, 0);
        v.lemma_area();
    }
    let ts: u8 = spatial_stage_count(w, h, levels);
    let (rects, _map) = match divide_image(w, h, ts, count) {
        Ok(d) => d,
        Err(e) => return Err(e),
    };
    let mut coeffs = extract_strip(cube, 0, h);
    forward_3d(&mut coeffs, w, h, bands, levels, opts.filter);
    let mut list: Vec<EncodedSegment> = Vec::new();
    let mut k: usize = 0;
    while k < count
        invariant
            k <= count,
            count == opts.segment_count,
            cube.fault() is None,
            opts.transform_domain,
            !options_refused(*cube, *opts),
            levels == clamped_levels(opts.wavelet_levels),
            v == cube_volume(*cube),
            v.ok(),
            v.width == w,
            v.height == h,
            v.bands == bands,
            ts == v.spatial_stages(levels as int),
            1 <= levels <= 6,
            ts <= levels,
            coeffs@ == cube_forward(
                opts.filter,
                v,
                levels as int,
                strip_of(*cube, 0, cube.height as int),
            ),
            coeffs@.len() == v.count(),
            can_segment(w as int, h as int, ts as int, count as int),
            rects@.len() == count,
            ({
                let p = ll_partition(w as int, h as int, ts as int, count as int);
                &&& forall|j: int|
                    0 <= j < count ==> crate::partition::is_rect(p, j, #[trigger] rects@[j])
                &&& crate::partition::is_params(
                    crate::merge::ll_size(w as int, h as int, ts as int).0,
                    crate::merge::ll_size(w as int, h as int, ts as int).1,
                    count as int,
                    p,
                )
            }),
            list@.len() == k,
            forall|j: int| 0 <= j < k ==> (#[trigger] list@[j]).data() == part_coded(
                *cube,
                *opts,
                j,
            ),
        decreases count - k,
    {
        let window = block_of(&rects, k, w, h, ts, count);
        let geom = CubeGeometry::with_window(w, h, bands, levels, window);
        let mut part = copy_coeffs(&coeffs);
        let means = subtract_plane_means(&mut part, &geom);
        let q: u8 = geom.member_bit_planes_needed(part.as_slice());
        let packets = encode_cube_bitplanes(
            &geom,
            part.as_slice(),
            q,
            opts.min_loss,
            coder_for(opts.interleaved_entropy),
        );
        list.push(EncodedSegment { q, means, packets });
        k = k + 1;
    }
    assert(segment_list(list@) =~= segments_coded(*cube, *opts));
    Ok(list)
}

/// Encode the strips of a cube.
fn encode_strips(cube: &IcerCube, opts: &CubeEncodeOptions) -> (list: Vec<EncodedSegment>)
    requires
        cube.fault() is None,
        !opts.transform_domain,
        opts.segment_count >= 1,
    ensures
        segment_list(list@) == segments_coded(*cube, *opts),
        1 <= list@.len() <= 255,
{
    let h: usize = cube.height as usize;
    proof {
        lemma_strip_count(h as int, opts.segment_count as int);
    }
    let each: usize = div_up(h, opts.segment_count as usize);
    let count: usize = div_up(h, each);
    let mut list: Vec<EncodedSegment> = Vec::new();
    let mut k: usize = 0;
    while k < count
        invariant
            k <= count,
            cube.fault() is None,
            each == strip_height(*cube, *opts),
            1 <= each <= 0xFFFF,
            (count - 1) * each < cube.height,
            list@.len() == k,
            forall|j: int| 0 <= j < k ==> (#[trigger] list@[j]).data() == strip_coded(
                *cube,
                *opts,
                each as int,
                j,
            ),
        decreases count - k,
    {
        assert(k * each <= (count - 1) * each) by (nonlinear_arith)
            requires
                0 <= k <= count - 1,
                each >= 1,
        ;
        let s = encode_strip(cube, opts, each, k);
        list.push(s);
        k = k + 1;
    }
    assert(segment_list(list@) =~= segments_coded(*cube, *opts));
    list
}

/// The number of packets of each segment that a quota leaves.
fn keep_within(list: &Vec<EncodedSegment>, quota: u64, floor: u64) -> (keep: Vec<usize>)
    requires
        floor <= quota,
    ensures
        keep@.len() == list@.len(),
        ({
            let k = kept_from(segment_list(list@), quota as int, floor as int, 0).keep;
            forall|i: int|
                0 <= i < list@.len() ==> #[trigger] keep@[i] == k[i] && keep@[i]
                    <= list@[i].packets@.len()
        }),
{
    let ghost data = segment_list(list@);
    let mut keep: Vec<usize> = repeated(0usize, list.len());
    let mut used: u64 = floor;
    let mut stopped: bool = false;
    let mut p: u8 = TOP_PRIORITY + 1;
    assert(kept_from(data, quota as int, floor as int, TOP_PRIORITY + 1).keep =~= keep@.map_values(
        |x: usize| x as int,
    ));
    while p > 0
        invariant
            p <= TOP_PRIORITY + 1,
            data == segment_list(list@),
            keep@.len() == list@.len(),
            used <= quota,
            (Keeping {
                keep: keep@.map_values(|x: usize| x as int),
                used: used as int,
                stopped,
            }) == kept_from(data, quota as int, floor as int, p as int),
            forall|i: int| 0 <= i < list@.len() ==> #[trigger] keep@[i] <= list@[i].packets@.len(),
        decreases p,
    {
        p = p - 1;
        let ghost start = kept_from(data, quota as int, floor as int, p + 1);
        let mut s: usize = 0;
        while s < list.len()
            invariant
                s <= list@.len(),
                data == segment_list(list@),
                keep@.len() == list@.len(),
                used <= quota,
                (Keeping {
                    keep: keep@.map_values(|x: usize| x as int),
                    used: used as int,
                    stopped,
                }) == kept_row(data, quota as int, start, p as int, s as int),
                forall|i: int|
                    0 <= i < list@.len() ==> #[trigger] keep@[i] <= list@[i].packets@.len(),
            decreases list@.len() - s,
        {
            let k: usize = keep[s];
            let ghost before = keep@.map_values(|x: usize| x as int);
            assert(before[s as int] == k);
            assert(data[s as int].packets.len() == list@[s as int].packets@.len());
            if !stopped && k < list[s].packets.len() && list[s].packets[k].priority == p {
                let body: usize = list[s].packets[k].body.len();
                let cost: u128 = 5 + body as u128;
                assert(data[s as int].packets[k as int].body.len() == body);
                if used as u128 + cost > quota as u128 {
                    stopped = true;
                } else {
                    used = (used as u128 + cost) as u64;
                    keep.set(s, k + 1);
                    assert(keep@.map_values(|x: usize| x as int) =~= before.update(
                        s as int,
                        k + 1,
                    ));
                }
            }
            s = s + 1;
        }
    }
    proof {
        let k = kept_from(data, quota as int, floor as int, 0).keep;
        assert forall|i: int| 0 <= i < list@.len() implies #[trigger] keep@[i] == k[i] by {
            assert(keep@.map_values(|x: usize| x as int)[i] == keep@[i] as int);
        }
    }
    keep
}

/// The segments with only those packets that are kept.
fn truncated(list: Vec<EncodedSegment>, keep: &Vec<usize>) -> (out: Vec<EncodedSegment>)
    requires
        keep@.len() == list@.len(),
        forall|i: int| 0 <= i < list@.len() ==> #[trigger] keep@[i] <= list@[i].packets@.len(),
    ensures
        segment_list(out@) == Seq::new(
            list@.len(),
            |i: int|
                SegmentData {
                    packets: segment_list(list@)[i].packets.take(keep@[i] as int),
                    ..segment_list(list@)[i]
                },
        ),
{
    let ghost data = segment_list(list@);
    let ghost goal = Seq::new(
        list@.len(),
        |i: int| SegmentData { packets: data[i].packets.take(keep@[i] as int), ..data[i] },
    );
    let mut rest = list;
    let mut out: Vec<EncodedSegment> = Vec::new();
    let ghost mut done: int = 0;
    // segments leave from the back, and are turned around at the end
    while rest.len() > 0
        invariant
            0 <= done <= data.len(),
            data.len() == keep@.len() == goal.len(),
            rest@.len() == data.len() - done,
            out@.len() == done,
            forall|i: int| 0 <= i < rest@.len() ==> (#[trigger] rest@[i]).data() == data[i],
            forall|i: int| 0 <= i < rest@.len() ==> (#[trigger] rest@[i]).packets@.len() >= keep@[i],
            goal == Seq::new(
                data.len(),
                |i: int| SegmentData { packets: data[i].packets.take(keep@[i] as int), ..data[i] },
            ),
            forall|i: int| 0 <= i < done ==> (#[trigger] out@[i]).data() == goal[data.len() - 1 - i],
        decreases rest@.len(),
    {
        let at: usize = rest.len() - 1;
        let ghost seen = rest@[at as int];
        assert(seen.data() == data[at as int]);
        assert(seen.packets@.len() >= keep@[at as int]);
        match rest.pop() {
            None => {},
            Some(s) => {
                let mut packets = s.packets;
                packets.truncate(keep[at]);
                let cut = EncodedSegment { q: s.q, means: s.means, packets };
                proof {
                    let n = keep@[at as int] as int;
                    assert(cube_packets(packets@) =~= cube_packets(seen.packets@).take(n));
                    assert(cut.data() == goal[at as int]);
                    done = done + 1;
                }
                out.push(cut);
            },
        }
    }
    let mut turned: Vec<EncodedSegment> = Vec::new();
    while out.len() > 0
        invariant
            out@.len() + turned@.len() == goal.len(),
            forall|i: int|
                0 <= i < out@.len() ==> (#[trigger] out@[i]).data() == goal[goal.len() - 1 - i],
            forall|i: int| 0 <= i < turned@.len() ==> (#[trigger] turned@[i]).data() == goal[i],
        decreases out@.len(),
    {
        let ghost at = out@.len() - 1;
        assert(out@[at].data() == goal[goal.len() - 1 - at]);
        match out.pop() {
            None => {},
            Some(s) => {
                turned.push(s);
            },
        }
    }
    assert(segment_list(turned@) =~= goal);
    turned
}

/// Whether some packet is longer than its length field can say.
fn has_overlong(list: &Vec<EncodedSegment>) -> (b: bool)
    ensures
        b == some_overlong(segment_list(list@)),
        !b ==> forall|i: int, j: int|
            0 <= i < list@.len() && 0 <= j < list@[i].packets@.len() ==> (
            #[trigger] list@[i].packets@[j]).body@.len() <= u32::MAX,
{
    let ghost data = segment_list(list@);
    let mut i: usize = 0;
    while i < list.len()
        invariant
            i <= list@.len(),
            data == segment_list(list@),
            forall|a: int, j: int|
                0 <= a < i && 0 <= j < list@[a].packets@.len() ==> (
                #[trigger] list@[a].packets@[j]).body@.len() <= u32::MAX,
        decreases list@.len() - i,
    {
        let mut j: usize = 0;
        while j < list[i as usize].packets.len()
            invariant
                i < list@.len(),
                j <= list@[i as int].packets@.len(),
                data == segment_list(list@),
                forall|b: int|
                    0 <= b < j ==> (#[trigger] list@[i as int].packets@[b]).body@.len()
                        <= u32::MAX,
            decreases list@[i as int].packets@.len() - j,
        {
            let len: usize = list[i].packets[j].body.len();
            if len as u64 > 0xFFFF_FFFF {
                proof {
                    assert(data[i as int].packets[j as int].body.len() > u32::MAX);
                }
                return true;
            }
            j = j + 1;
        }
        i = i + 1;
    }
    proof {
        if some_overlong(data) {
            let (a, b) = choose|a: int, b: int|
                0 <= a < data.len() && 0 <= b < data[a].packets.len() && (
                #[trigger] data[a].packets[b]).body.len() > u32::MAX;
            assert(list@[a].packets@[b].body@.len() <= u32::MAX);
        }
    }
    false
}

/// Priorities of the packets of a cube fall, so there are not many of them.
proof fn lemma_few_packets(
    lay: Layout,
    coeffs: Seq<i32>,
    kind: EntropyKind,
    q: int,
    floor: int,
    p: int,
)
    requires
        p >= 0,
    ensures
        crate::bitplane3d::cube_said(lay, coeffs, kind, q, floor, p).packets.len() <= (if p
            > TOP_PRIORITY {
            0
        } else {
            TOP_PRIORITY + 1 - p
        }),
    decreases TOP_PRIORITY + 1 - p,
{
    if p <= TOP_PRIORITY {
        lemma_few_packets(lay, coeffs, kind, q, floor, p + 1);
    }
}

pub proof fn lemma_packet_counts(cube: IcerCube, opts: CubeEncodeOptions, k: int)
    ensures
        segment_coded(cube, opts, k).packets.len() <= 0xFFFF,
{
    let d = segment_coded(cube, opts, k);
    let levels = clamped_levels(opts.wavelet_levels) as int;
    let kind = coder_of(opts.interleaved_entropy);
    if opts.transform_domain {
        let v = cube_volume(cube);
        let lay = part_layout(v, levels, opts.segment_count as int, k);
        let coeffs = cube_forward(opts.filter, v, levels, strip_of(cube, 0, cube.height as int));
        lemma_few_packets(
            lay,
            means_subtracted(lay, coeffs),
            kind,
            d.q as int,
            opts.min_loss as int,
            0,
        );
    } else {
        let each = strip_height(cube, opts);
        let v = strip_volume(
            cube.width as int,
            cube.height as int,
            cube.bands as int,
            each,
            k,
        );
        let lay = whole_layout(v, levels);
        lemma_few_packets(
            lay,
            means_subtracted(lay, strip_transform(cube, opts, each, k)),
            kind,
            d.q as int,
            opts.min_loss as int,
            0,
        );
    }
}

/// Packets are kept as far as there are any, and within the quota.
pub open spec fn keeps(list: Seq<SegmentData>, quota: int, st: Keeping) -> bool {
    &&& st.keep.len() == list.len()
    &&& forall|i: int| 0 <= i < list.len() ==> 0 <= #[trigger] st.keep[i] <= list[i].packets.len()
    &&& st.used <= quota
}

pub proof fn lemma_keep_row(list: Seq<SegmentData>, quota: int, st: Keeping, p: int, s: int)
    requires
        0 <= s <= list.len(),
        keeps(list, quota, st),
    ensures
        keeps(list, quota, kept_row(list, quota, st, p, s)),
    decreases s,
{
    if s > 0 {
        lemma_keep_row(list, quota, st, p, s - 1);
    }
}

pub proof fn lemma_keep_from(list: Seq<SegmentData>, quota: int, floor: int, p: int)
    requires
        floor <= quota,
    ensures
        keeps(list, quota, kept_from(list, quota, floor, p)),
    decreases TOP_PRIORITY + 1 - p,
{
    if p <= TOP_PRIORITY {
        lemma_keep_from(list, quota, floor, p + 1);
        lemma_keep_row(
            list,
            quota,
            kept_from(list, quota, floor, p + 1),
            p,
            list.len() as int,
        );
    }
}

/// Encode a cube.
pub fn encode_icer3d(cube: &IcerCube, opts: &CubeEncodeOptions) -> (r: Result<Vec<u8>>)
    ensures
        match cube_encoded(*cube, *opts) {
            Err(f) => fails_with(r, f),
            Ok(bytes) => r is Ok && r->Ok_0@ == bytes,
        },
{
    match cube.validate() {
        Ok(()) => {},
        Err(e) => return Err(e),
    }
    if opts.segment_count == 0 {
        return Err(IcerError::unsupported("segment_count must be >= 1"));
    }
    if !has_integer_transform(opts.filter) {
        return Err(IcerError::unsupported("cubes need a filter with an integer transform"));
    }
    proof {
        lemma_strip_count(cube.height as int, opts.segment_count as int);
    }
    let all = if opts.transform_domain {
        match encode_windows(cube, opts) {
            Ok(v) => v,
            Err(e) => return Err(e),
        }
    } else {
        encode_strips(cube, opts)
    };
    let ghost data = segments_coded(*cube, *opts);
    let ghost bands = cube.bands as int;
    assert(segment_list(all@) == data);
    assert(all@.len() == data.len());
    let count: usize = all.len();
    assert(1 <= count <= 255);
    assert(count * fixed_bytes(bands) <= 255 * (4 + 4 * 0xFFFF)) by (nonlinear_arith)
        requires
            1 <= count <= 255,
            0 <= fixed_bytes(bands) <= 4 + 4 * 0xFFFF,
    ;
    let floor: u64 = 17 + count as u64 * (4 + 4 * cube.bands as u64);
    let list = match opts.byte_quota {
        None => all,
        Some(quota) => {
            if floor > quota {
                return Err(IcerError::unsupported("byte quota below the framing floor"));
            }
            let keep = keep_within(&all, quota, floor);
            let list = truncated(all, &keep);
            assert(segment_list(list@) =~= within_quota(data, opts.byte_quota, bands));
            list
        },
    };
    let ghost kept = within_quota(data, opts.byte_quota, bands);
    assert(segment_list(list@) == kept);
    if has_overlong(&list) {
        return Err(IcerError::unsupported("packet longer than 4 GiB"));
    }
    let each: usize = div_up(cube.height as usize, opts.segment_count as usize);
    let header = CubeHeader {
        width: cube.width as u16,
        height: cube.height as u16,
        bands: cube.bands as u16,
        bit_depth: cube.bit_depth,
        filter: opts.filter,
        levels: clamp_levels(opts.wavelet_levels),
        count: count as u8,
        strip: if opts.transform_domain {
            0
        } else {
            each as u16
        },
        interleaved: opts.interleaved_entropy,
        transform: opts.transform_domain,
    };
    assert(header == stream_header(*cube, *opts));
    let mut out: Vec<u8> = Vec::new();
    header.write(&mut out);
    assert(out@ =~= header.to_bytes());
    assert(header.to_bytes() + segments_bytes(kept, 0) =~= header.to_bytes());
    let mut k: usize = 0;
    while k < list.len()
        invariant
            k <= list@.len(),
            list@.len() == count,
            count <= 255,
            segment_list(list@) == kept,
            kept == within_quota(data, opts.byte_quota, bands),
            data == segments_coded(*cube, *opts),
            opts.byte_quota matches Some(b) ==> framing(bands, data.len() as int) <= b,
            data.len() == count,
            forall|i: int, j: int|
                0 <= i < list@.len() && 0 <= j < list@[i].packets@.len() ==> (
                #[trigger] list@[i].packets@[j]).body@.len() <= u32::MAX,
            out@ == header.to_bytes() + segments_bytes(kept, k as int),
        decreases list@.len() - k,
    {
        proof {
            lemma_packet_counts(*cube, *opts, k as int);
            assert(kept[k as int].packets.len() == list@[k as int].packets@.len());
            assert(data[k as int] == segment_coded(*cube, *opts, k as int));
            if let Some(b) = opts.byte_quota {
                lemma_keep_from(data, b as int, framing(bands, data.len() as int), 0);
            }
            assert(kept[k as int].packets.len() <= data[k as int].packets.len());
        }
        write_segment(&mut out, k as u8, &list[k]);
        assert(out@ =~= header.to_bytes() + segments_bytes(kept, k + 1));
        k = k + 1;
    }
    Ok(out)
}

} // verus!
