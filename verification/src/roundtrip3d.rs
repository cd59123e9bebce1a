//! What a decoder makes of the streams of the encoder of cubes.

use crate::bitplane3d::{covered_fit, covered_planes_from, cube_coded, cube_heard, cube_planes_from, lemma_few_stages, whole_layout, window_layout, CodedGroup, Layout, TOP_PRIORITY};
use crate::bitplane::fits_planes;
use crate::bytes::{be16_bytes, be32, be32_bytes, lemma_be16_reads_back, lemma_be32_reads_back};
use crate::cube::{cube_encoded, cube_volume, fixed_bytes, framing, keeps, kept_from, kept_row, lemma_keep_from, lemma_keep_row, lemma_sizes, lemma_strip_count, lemma_strip_sample, lemma_strip_volume, level_shift, options_refused, part_coded, part_layout, rows_in_strip, segment_coded, segment_of, segments_coded, some_overlong, stream_header, stream_segments_count, strip_coded, strip_height, strip_of, strip_transform, strip_volume, top_sample, within_quota, CubeEncodeOptions, IcerCube, Keeping};
use crate::cube_decode::{blank, cube_decoded, lemma_depth, lemma_place_in_strip, sample_from, samples_heard, segment_heard, strip_heard, strip_value, windows_heard};
use crate::cube_means::{means_added, means_are_reversible, means_of, means_subtracted};
use crate::cube_wire::{cube_bytes, cube_header, group_bytes, groups_bytes, groups_read, header_fields, magic_bytes, means_at, means_bytes, segment_bytes, segment_read, segments_bytes, segments_read, CubeHeader, SegmentData};
use crate::decoder::DecodeLimits;
use crate::entropy::{coder_of, EntropyKind};
use crate::error::Fault;
use crate::header::filter_of;
use crate::merge::{blocks_cover, ll_partition};
use crate::partition::ceil_div;
use crate::priority::clamped_levels;
use crate::readback3d::whole_cubes_read_back;
use crate::scan::magnitude_of;
use crate::subband3d::{lemma_stages, shorter};
use crate::wavelet3d::{cube_forward, cube_grown, cube_transform_is_reversible, Volume};
use crate::wavelet_int::bounded;
use vstd::prelude::*;
use vstd::arithmetic::power2::pow2;

verus! {

// ---------------------------------------------------------------------------
// The byte stream
// ---------------------------------------------------------------------------

/// `piece` stands at `pos`.
pub open spec fn stands(bytes: Seq<u8>, pos: int, piece: Seq<u8>) -> bool {
    &&& 0 <= pos
    &&& pos + piece.len() <= bytes.len()
    &&& bytes.subrange(pos, pos + piece.len()) == piece
}

proof fn lemma_stands_split(bytes: Seq<u8>, pos: int, a: Seq<u8>, b: Seq<u8>)
    requires
        stands(bytes, pos, a + b),
    ensures
        stands(bytes, pos, a),
        stands(bytes, pos + a.len(), b),
{
    let both = bytes.subrange(pos, pos + a.len() + b.len());
    assert(both.subrange(0, a.len() as int) =~= a);
    assert(both.subrange(a.len() as int, both.len() as int) =~= b);
    assert(bytes.subrange(pos, pos + a.len()) =~= both.subrange(0, a.len() as int));
    assert(bytes.subrange(pos + a.len(), pos + a.len() + b.len()) =~= both.subrange(
        a.len() as int,
        both.len() as int,
    ));
}

proof fn lemma_byte_stands(bytes: Seq<u8>, pos: int, piece: Seq<u8>, i: int)
    requires
        stands(bytes, pos, piece),
        0 <= i < piece.len(),
    ensures
        bytes[pos + i] == piece[i],
{
    assert(bytes.subrange(pos, pos + piece.len())[i] == bytes[pos + i]);
}

/// A segment that a stream can carry.
pub open spec fn can_carry(s: SegmentData, bands: int) -> bool {
    &&& s.q <= 30
    &&& s.means.len() == bands
    &&& s.packets.len() <= 0xFFFF
    &&& forall|j: int|
        0 <= j < s.packets.len() ==> (#[trigger] s.packets[j]).body.len() <= u32::MAX
}

proof fn lemma_means_read(bytes: Seq<u8>, pos: int, means: Seq<i32>, n: int)
    requires
        0 <= n <= means.len(),
        stands(bytes, pos, means_bytes(means, n)),
    ensures
        means_bytes(means, n).len() == 4 * n,
        forall|i: int|
            0 <= i < n ==> #[trigger] means[i] == be32(bytes, pos + 4 * i) as u32 as i32,
    decreases n,
{
    if n > 0 {
        let a = means_bytes(means, n - 1);
        let m = means[n - 1];
        let v = m as u32;
        lemma_stands_split(bytes, pos, a, be32_bytes(v as int));
        lemma_means_read(bytes, pos, means, n - 1);
        lemma_be32_reads_back(bytes, pos + a.len(), v as int);
        assert((m as u32) as i32 == m) by (bit_vector);
        assert(be32(bytes, pos + 4 * (n - 1)) == v);
    }
}

proof fn lemma_groups_read(bytes: Seq<u8>, pos: int, packets: Seq<CodedGroup>, n: int)
    requires
        0 <= n <= packets.len(),
        stands(bytes, pos, groups_bytes(packets, n)),
        forall|j: int|
            0 <= j < packets.len() ==> (#[trigger] packets[j]).body.len() <= u32::MAX,
    ensures
        ({
            let r = groups_read(bytes, pos, n);
            &&& r.packets == packets.take(n)
            &&& r.end == pos + groups_bytes(packets, n).len()
            &&& !r.cut
        }),
    decreases n,
{
    if n <= 0 {
        assert(packets.take(0) =~= Seq::empty());
    } else {
        let a = groups_bytes(packets, n - 1);
        let g = packets[n - 1];
        let piece = group_bytes(g);
        lemma_stands_split(bytes, pos, a, piece);
        lemma_groups_read(bytes, pos, packets, n - 1);
        let at = pos + a.len();
        let len = be32_bytes(g.body.len() as int);
        assert(piece =~= seq![g.priority] + (len + g.body));
        lemma_stands_split(bytes, at, seq![g.priority], len + g.body);
        lemma_stands_split(bytes, at + 1, len, g.body);
        lemma_byte_stands(bytes, at, seq![g.priority], 0);
        lemma_be32_reads_back(bytes, at + 1, g.body.len() as int);
        assert(packets.take(n) =~= packets.take(n - 1).push(g));
        let body = bytes.subrange(at + 5, at + 5 + g.body.len());
        assert(body == g.body);
        assert(CodedGroup { priority: bytes[at], body } == g);
    }
}

proof fn lemma_segment_read(bytes: Seq<u8>, pos: int, index: int, s: SegmentData)
    requires
        0 <= index <= 255,
        can_carry(s, s.means.len() as int),
        stands(bytes, pos, segment_bytes(index, s)),
    ensures
        ({
            let r = segment_read(bytes, pos, index, s.means.len() as int);
            &&& r.data == Some(s)
            &&& r.end == pos + segment_bytes(index, s).len()
            &&& r.fault is None
        }),
{
    let bands = s.means.len() as int;
    let head = seq![index as u8, s.q];
    let means = means_bytes(s.means, bands);
    let count = be16_bytes(s.packets.len() as int);
    let groups = groups_bytes(s.packets, s.packets.len() as int);
    assert(segment_bytes(index, s) =~= head + (means + (count + groups)));
    lemma_stands_split(bytes, pos, head, means + (count + groups));
    lemma_stands_split(bytes, pos + 2, means, count + groups);
    lemma_means_read(bytes, pos + 2, s.means, bands);
    lemma_stands_split(bytes, pos + 2 + 4 * bands, count, groups);
    lemma_byte_stands(bytes, pos, head, 0);
    lemma_byte_stands(bytes, pos, head, 1);
    let at = pos + 2 + 4 * bands;
    lemma_be16_reads_back(bytes, at, s.packets.len() as int);
    lemma_groups_read(bytes, at + 2, s.packets, s.packets.len() as int);
    assert(s.packets.take(s.packets.len() as int) =~= s.packets);
    assert(means_at(bytes, pos + 2, bands) =~= s.means);
}

proof fn lemma_segments_read(bytes: Seq<u8>, pos: int, list: Seq<SegmentData>, bands: int, n: int)
    requires
        0 <= n <= list.len() <= 255,
        forall|k: int| 0 <= k < list.len() ==> can_carry(#[trigger] list[k], bands),
        stands(bytes, pos, segments_bytes(list, n)),
    ensures
        ({
            let r = segments_read(bytes, pos, bands, n);
            &&& r.list == Seq::new(n as nat, |k: int| Some(list[k]))
            &&& r.pos == pos + segments_bytes(list, n).len()
            &&& r.fault is None
        }),
    decreases n,
{
    let r = segments_read(bytes, pos, bands, n);
    if n <= 0 {
        assert(r.list =~= Seq::new(n as nat, |k: int| Some(list[k])));
    } else {
        let a = segments_bytes(list, n - 1);
        lemma_stands_split(bytes, pos, a, segment_bytes(n - 1, list[n - 1]));
        lemma_segments_read(bytes, pos, list, bands, n - 1);
        assert(can_carry(list[n - 1], bands));
        lemma_segment_read(bytes, pos + a.len(), n - 1, list[n - 1]);
        assert(r.list =~= Seq::new(n as nat, |k: int| Some(list[k])));
    }
}

/// **The header of a cube reads back.**
pub proof fn header_reads_back(h: CubeHeader, rest: Seq<u8>)
    requires
        h.valid(),
    ensures
        cube_header(h.to_bytes() + rest) == Ok::<CubeHeader, Fault>(h),
        h.to_bytes().len() == 17,
{
    let bytes = h.to_bytes() + rest;
    let (w, t, b) = (
        be16_bytes(h.width as int),
        be16_bytes(h.height as int),
        be16_bytes(h.bands as int),
    );
    let mid = seq![h.bit_depth, h.filter.code(), h.levels, h.count];
    let s = be16_bytes(h.strip as int);
    let f = seq![h.flags() as u8];
    assert(bytes.take(4) =~= magic_bytes());
    assert(bytes.subrange(4, 6) =~= w);
    assert(bytes.subrange(6, 8) =~= t);
    assert(bytes.subrange(8, 10) =~= b);
    assert(bytes.subrange(14, 16) =~= s);
    lemma_be16_reads_back(bytes, 4, h.width as int);
    lemma_be16_reads_back(bytes, 6, h.height as int);
    lemma_be16_reads_back(bytes, 8, h.bands as int);
    lemma_be16_reads_back(bytes, 14, h.strip as int);
    assert(bytes[10] == h.bit_depth && bytes[11] == h.filter.code() && bytes[12] == h.levels
        && bytes[13] == h.count && bytes[16] == h.flags() as u8);
    assert(filter_of(h.filter.code() as int) == h.filter);
    assert(header_fields(bytes) == h);
}

/// **A cube stream reads back**: the header, and all segments with all their
/// packets.
pub proof fn cube_streams_read_back(h: CubeHeader, list: Seq<SegmentData>)
    requires
        h.valid(),
        list.len() == h.count,
        forall|k: int| 0 <= k < list.len() ==> can_carry(#[trigger] list[k], h.bands as int),
    ensures
        ({
            let bytes = cube_bytes(h, list);
            let r = segments_read(bytes, 17, h.bands as int, h.count as int);
            &&& cube_header(bytes) == Ok::<CubeHeader, Fault>(h)
            &&& r.list == Seq::new(list.len(), |k: int| Some(list[k]))
            &&& r.pos == bytes.len()
            &&& r.fault is None
        }),
{
    let body = segments_bytes(list, list.len() as int);
    header_reads_back(h, body);
    let bytes = cube_bytes(h, list);
    assert(bytes.subrange(17, (17 + body.len()) as int) =~= body);
    lemma_segments_read(bytes, 17, list, h.bands as int, list.len() as int);
}

// ---------------------------------------------------------------------------
// Segments
// ---------------------------------------------------------------------------

/// Bound of the shifted samples of a cube.
pub open spec fn shifted_bound() -> int {
    0x8000
}

proof fn lemma_bounds()
    ensures
        cube_grown(shifted_bound()) <= 0x0200_0000,
{
}

/// Few bit planes hold small coefficients.
proof fn lemma_planes_suffice(coeffs: Seq<i32>, p: int)
    requires
        0 <= p <= 27,
        bounded(coeffs, 0x0400_0000),
    ensures
        fits_planes(coeffs, cube_planes_from(coeffs, p)),
        p <= cube_planes_from(coeffs, p) <= 27,
    decreases 27 - p,
{
    vstd::arithmetic::power2::lemma2_to64();
    if p == 27 {
        assert forall|i: int| 0 <= i < coeffs.len() implies magnitude_of(#[trigger] coeffs[i])
            < pow2(27) by {
            assert(-0x0400_0000 <= coeffs[i] <= 0x0400_0000);
        }
    } else if !fits_planes(coeffs, p) {
        lemma_planes_suffice(coeffs, p + 1);
    }
}

proof fn lemma_covered_suffice(lay: Layout, coeffs: Seq<i32>, p: int)
    requires
        0 <= p <= 27,
        bounded(coeffs, 0x0400_0000),
    ensures
        covered_fit(lay, coeffs, covered_planes_from(lay, coeffs, p)),
        p <= covered_planes_from(lay, coeffs, p) <= 27,
    decreases 27 - p,
{
    vstd::arithmetic::power2::lemma2_to64();
    if p == 27 {
        assert forall|i: int| 0 <= i < coeffs.len() && lay.covers(i) implies magnitude_of(
            #[trigger] coeffs[i],
        ) < pow2(27) by {
            assert(-0x0400_0000 <= coeffs[i] <= 0x0400_0000);
        }
    } else if !covered_fit(lay, coeffs, p) {
        lemma_covered_suffice(lay, coeffs, p + 1);
    }
}

/// A whole layout leaves out nothing.
proof fn lemma_whole_covers(v: Volume, levels: int, i: int)
    requires
        v.ok(),
        0 <= i < v.count(),
    ensures
        whole_layout(v, levels).covers(i),
{
    v.lemma_split(i);
    v.lemma_area();
    let pos = i % v.area();
    let w = v.width as int;
    assert(0 <= pos % w < w && 0 <= pos / w < v.height) by (nonlinear_arith)
        requires
            0 <= pos < w * v.height,
            w >= 1,
    ;
}

/// **The packets of a whole cube bring back its coefficients**, for both
/// entropy coders and whatever the number of levels.
pub proof fn coefficients_read_back(
    v: Volume,
    levels: u8,
    coeffs: Seq<i32>,
    kind: EntropyKind,
    q: u8,
)
    requires
        v.ok(),
        coeffs.len() == v.count(),
        q <= 31,
        forall|i: int|
            0 <= i < coeffs.len() ==> magnitude_of(#[trigger] coeffs[i]) < pow2(q as nat),
    ensures
        ({
            let lay = whole_layout(v, levels as int);
            cube_heard(
                lay,
                kind,
                q,
                cube_coded(lay, coeffs, kind, q as int, 0),
                Seq::new(v.count() as nat, |i: int| 0i32),
            )
        }) == coeffs,
{
    let lay = whole_layout(v, levels as int);
    let none = Seq::new(v.count() as nat, |i: int| 0i32);
    v.lemma_area();
    lemma_few_stages(v, levels);
    whole_cubes_read_back(lay, coeffs, kind, q, none);
    let out = cube_heard(lay, kind, q, cube_coded(lay, coeffs, kind, q as int, 0), none);
    assert forall|i: int| 0 <= i < coeffs.len() implies out[i] == coeffs[i] by {
        lemma_whole_covers(v, levels as int, i);
    }
    assert(out =~= coeffs);
}

/// Stages of a layout of a cube.
proof fn lemma_layout_ok(v: Volume, levels: int, window: (usize, usize, usize, usize))
    requires
        v.ok(),
        1 <= levels <= 6,
    ensures
        window_layout(v, levels, window).ok(),
        window_layout(v, levels, window).ts == v.spatial_stages(levels),
        window_layout(v, levels, window).tl == v.spectral_stages(levels),
        0 <= v.spatial_stages(levels) <= 6,
{
    lemma_stages(shorter(v.width as int, v.height as int), levels);
    lemma_stages(v.bands as int, levels);
}

/// A segment brings its coefficients back into a buffer: those that are coded
/// are exact, and the others stay as they were.
proof fn lemma_segment_exact(
    h: CubeHeader,
    lay: Layout,
    coeffs: Seq<i32>,
    q: u8,
    before: Seq<i32>,
)
    requires
        lay.ok(),
        coeffs.len() == before.len() == lay.volume.count(),
        bounded(coeffs, 0x0200_0000),
        q <= 30,
        covered_fit(lay, means_subtracted(lay, coeffs), q as int),
    ensures
        ({
            let data = segment_of(lay, coeffs, coder_of(h.interleaved), q, 0);
            let out = segment_heard(h, lay, Some(data), before);
            &&& out.len() == before.len()
            &&& forall|i: int|
                0 <= i < out.len() ==> #[trigger] out[i] == (if lay.covers(i) {
                    coeffs[i]
                } else {
                    before[i]
                })
        }),
{
    let less = means_subtracted(lay, coeffs);
    let kind = coder_of(h.interleaved);
    means_are_reversible(lay, coeffs, 0x0200_0000);
    whole_cubes_read_back(lay, less, kind, q, before);
    let data = segment_of(lay, coeffs, kind, q, 0);
    let heard = cube_heard(lay, kind, q, data.packets, before);
    let out = segment_heard(h, lay, Some(data), before);
    let again = means_added(lay, less, means_of(lay, coeffs));
    assert forall|i: int| 0 <= i < out.len() implies #[trigger] out[i] == (if lay.covers(i) {
        coeffs[i]
    } else {
        before[i]
    }) by {
        assert(heard[i] == (if lay.covers(i) {
            less[i]
        } else {
            before[i]
        }));
        if lay.covers(i) {
            assert(again[i] == coeffs[i]);
        }
    }
}

/// The shifted samples of a strip are small.
proof fn lemma_strip_bounded(cube: IcerCube, y0: int, rows: int)
    requires
        cube.fault() is None,
        1 <= rows,
        0 <= y0,
        y0 + rows <= cube.height,
    ensures
        bounded(strip_of(cube, y0, rows), shifted_bound()),
        strip_of(cube, y0, rows).len() == cube.width * rows * cube.bands,
{
    let s = strip_of(cube, y0, rows);
    lemma_sizes(cube.width as int, rows, cube.bands as int);
    lemma_depth(cube.bit_depth);
    assert forall|i: int| 0 <= i < s.len() implies -0x8000 <= #[trigger] s[i] <= 0x8000 by {
        lemma_strip_sample(
            cube.width as int,
            cube.height as int,
            cube.bands as int,
            y0,
            rows,
            i,
        );
    }
}

// ---------------------------------------------------------------------------
// Cubes
// ---------------------------------------------------------------------------

/// The limits of a decoder allow the cube.
pub open spec fn allows(limits: DecodeLimits, cube: IcerCube) -> bool {
    &&& cube.volume() <= limits.max_total_pixels
    &&& cube.volume() <= limits.max_pixels_per_segment
}

/// The header of a cube that can be encoded is valid.
pub proof fn lemma_stream_header(cube: IcerCube, opts: CubeEncodeOptions)
    requires
        cube.fault() is None,
        !options_refused(cube, opts),
    ensures
        ({
            let h = stream_header(cube, opts);
            &&& h.valid()
            &&& h.width == cube.width
            &&& h.height == cube.height
            &&& h.bands == cube.bands
            &&& h.count == stream_segments_count(cube, opts)
            &&& h.volume() == cube_volume(cube)
            &&& h.total() == cube.volume()
            &&& !opts.transform_domain ==> h.strip == strip_height(cube, opts)
        }),
{
    lemma_strip_count(cube.height as int, opts.segment_count as int);
    let each = strip_height(cube, opts);
    let count = ceil_div(cube.height as int, each);
    assert((count - 1) * each + each == count * each) by (nonlinear_arith);
}

/// Strip `k` of a cube comes back.
proof fn lemma_strip_comes_back(cube: IcerCube, opts: CubeEncodeOptions, k: int)
    requires
        cube.fault() is None,
        cube.volume() <= usize::MAX,
        !options_refused(cube, opts),
        !opts.transform_domain,
        opts.min_loss == 0,
        0 <= k < stream_segments_count(cube, opts),
    ensures
        ({
            let h = stream_header(cube, opts);
            let each = strip_height(cube, opts);
            &&& strip_heard(h, Some(strip_coded(cube, opts, each, k)), k) == strip_of(
                cube,
                k * each,
                rows_in_strip(cube.height as int, each, k),
            )
            &&& strip_coded(cube, opts, each, k).q <= 30
            &&& strip_coded(cube, opts, each, k).means.len() == cube.bands
        }),
{
    let h = stream_header(cube, opts);
    let each = strip_height(cube, opts);
    let levels = clamped_levels(opts.wavelet_levels) as int;
    lemma_stream_header(cube, opts);
    lemma_strip_count(cube.height as int, opts.segment_count as int);
    assert(k * each < cube.height) by (nonlinear_arith)
        requires
            k <= stream_segments_count(cube, opts) - 1,
            (stream_segments_count(cube, opts) - 1) * each < cube.height,
            each >= 1,
    ;
    assert(k * each >= 0) by (nonlinear_arith)
        requires
            k >= 0,
            each >= 1,
    ;
    let v = strip_volume(
        cube.width as int,
        cube.height as int,
        cube.bands as int,
        each,
        k,
    );
    lemma_strip_volume(
        cube.width as int,
        cube.height as int,
        cube.bands as int,
        each,
        k,
    );
    lemma_sizes(cube.width as int, cube.height as int, cube.bands as int);
    let rows = v.height as int;
    let samples = strip_of(cube, k * each, rows);
    lemma_strip_bounded(cube, k * each, rows);
    lemma_bounds();
    cube_transform_is_reversible(opts.filter, v, levels, samples, shifted_bound());
    let coeffs = strip_transform(cube, opts, each, k);
    assert(bounded(coeffs, 0x0200_0000));
    let lay = whole_layout(v, levels);
    lemma_layout_ok(v, levels, (0, v.width, 0, v.height));
    means_are_reversible(lay, coeffs, 0x0200_0000);
    let less = means_subtracted(lay, coeffs);
    lemma_planes_suffice(less, 0);
    let q = cube_planes_from(less, 0) as u8;
    assert(covered_fit(lay, less, q as int));
    lemma_segment_exact(h, lay, coeffs, q, blank(v.count()));
    let out = segment_heard(
        h,
        lay,
        Some(strip_coded(cube, opts, each, k)),
        blank(v.count()),
    );
    assert(out =~= coeffs) by {
        assert forall|i: int| 0 <= i < out.len() implies out[i] == coeffs[i] by {
            lemma_whole_covers(v, levels, i);
        }
    }
}

/// A sample comes back from its shifted value.
proof fn lemma_sample_back(s: u16, bit_depth: u8)
    requires
        1 <= bit_depth <= 16,
        s <= top_sample(bit_depth),
    ensures
        sample_from((s - level_shift(bit_depth)) as i32, bit_depth) == s,
{
    lemma_depth(bit_depth);
}

/// The samples of a cube of strips come back.
proof fn lemma_strips_come_back(
    cube: IcerCube,
    opts: CubeEncodeOptions,
    list: Seq<Option<SegmentData>>,
    limits: DecodeLimits,
)
    requires
        cube.fault() is None,
        cube.volume() <= usize::MAX,
        !options_refused(cube, opts),
        !opts.transform_domain,
        opts.min_loss == 0,
        !stream_header(cube, opts).beyond(limits),
        list == Seq::new(
            stream_segments_count(cube, opts) as nat,
            |k: int| Some(segment_coded(cube, opts, k)),
        ),
    ensures
        samples_heard(stream_header(cube, opts), list) == cube.samples@,
{
    let h = stream_header(cube, opts);
    let each = strip_height(cube, opts);
    lemma_stream_header(cube, opts);
    lemma_strip_count(cube.height as int, opts.segment_count as int);
    let out = samples_heard(h, list);
    assert(out.len() == cube.samples@.len());
    assert forall|j: int| 0 <= j < out.len() implies out[j] == cube.samples@[j] by {
        lemma_place_in_strip(h, limits, j);
        let area = h.volume().area();
        let pos = j % area;
        let w = h.width as int;
        let k = (pos / w) / each;
        let l = j / area;
        let v = h.strip_size(k);
        let r = pos - k * each * w;
        lemma_strip_comes_back(cube, opts, k);
        assert(k * each < cube.height) by (nonlinear_arith)
            requires
                k <= stream_segments_count(cube, opts) - 1,
                (stream_segments_count(cube, opts) - 1) * each < cube.height,
                each >= 1,
        ;
        lemma_strip_volume(w, cube.height as int, cube.bands as int, each, k);
        v.lemma_sample(r, l);
        let i = l * v.area() + r;
        let strip = strip_of(cube, k * each, v.height as int);
        assert(strip_value(h, list, j) == strip[i]);
        crate::cube_decode::lemma_volume(h, limits);
        h.volume().lemma_split(j);
        assert(l * (w * cube.height) + (k * each) * w + r == j);
        assert(strip[i] == (cube.samples@[j] - level_shift(cube.bit_depth)) as i32);
        assert(cube.samples@[j] <= top_sample(cube.bit_depth));
        lemma_sample_back(cube.samples@[j], cube.bit_depth);
    }
    assert(out =~= cube.samples@);
}

/// The coefficients of the windows come back.
proof fn lemma_windows_come_back(
    cube: IcerCube,
    opts: CubeEncodeOptions,
    list: Seq<Option<SegmentData>>,
    n: int,
)
    requires
        cube.fault() is None,
        cube.volume() <= usize::MAX,
        !options_refused(cube, opts),
        opts.transform_domain,
        opts.min_loss == 0,
        list == Seq::new(
            stream_segments_count(cube, opts) as nat,
            |k: int| Some(segment_coded(cube, opts, k)),
        ),
        0 <= n <= opts.segment_count,
    ensures
        ({
            let h = stream_header(cube, opts);
            let v = cube_volume(cube);
            let levels = clamped_levels(opts.wavelet_levels) as int;
            let coeffs = cube_forward(
                opts.filter,
                v,
                levels,
                strip_of(cube, 0, cube.height as int),
            );
            let out = windows_heard(h, list, n);
            &&& out.len() == v.count()
            &&& forall|i: int, k: int|
                0 <= i < out.len() && 0 <= k < n && #[trigger] part_layout(
                    v,
                    levels,
                    opts.segment_count as int,
                    k,
                ).covers(i) ==> out[i] == coeffs[i]
        }),
    decreases n,
{
    let h = stream_header(cube, opts);
    let v = cube_volume(cube);
    let levels = clamped_levels(opts.wavelet_levels) as int;
    let count = opts.segment_count as int;
    let samples = strip_of(cube, 0, cube.height as int);
    let coeffs = cube_forward(opts.filter, v, levels, samples);
    lemma_stream_header(cube, opts);
    lemma_strip_volume(
        cube.width as int,
        cube.height as int,
        cube.bands as int,
        cube.height as int,
        0,
    );
    lemma_sizes(cube.width as int, cube.height as int, cube.bands as int);
    assert(v.count() == cube.volume());
    if n > 0 {
        lemma_windows_come_back(cube, opts, list, n - 1);
        lemma_strip_bounded(cube, 0, cube.height as int);
        lemma_bounds();
        cube_transform_is_reversible(opts.filter, v, levels, samples, shifted_bound());
        let lay = part_layout(v, levels, count, n - 1);
        lemma_layout_ok(v, levels, lay.window);
        means_are_reversible(lay, coeffs, 0x0200_0000);
        let less = means_subtracted(lay, coeffs);
        lemma_covered_suffice(lay, less, 0);
        let q = covered_planes_from(lay, less, 0) as u8;
        let before = windows_heard(h, list, n - 1);
        lemma_segment_exact(h, lay, coeffs, q, before);
        assert(list[n - 1] == Some(part_coded(cube, opts, n - 1)));
        let out = windows_heard(h, list, n);
        assert forall|i: int, k: int|
            0 <= i < out.len() && 0 <= k < n && #[trigger] part_layout(
                v,
                levels,
                count,
                k,
            ).covers(i) implies out[i] == coeffs[i] by {
            if k == n - 1 {
                assert(lay.covers(i));
            } else {
                assert(before[i] == coeffs[i]);
            }
        }
    }
}

/// The samples of a cube of windows come back.
proof fn lemma_transform_comes_back(
    cube: IcerCube,
    opts: CubeEncodeOptions,
    list: Seq<Option<SegmentData>>,
)
    requires
        cube.fault() is None,
        cube.volume() <= usize::MAX,
        !options_refused(cube, opts),
        opts.transform_domain,
        opts.min_loss == 0,
        list == Seq::new(
            stream_segments_count(cube, opts) as nat,
            |k: int| Some(segment_coded(cube, opts, k)),
        ),
    ensures
        samples_heard(stream_header(cube, opts), list) == cube.samples@,
{
    let h = stream_header(cube, opts);
    let v = cube_volume(cube);
    let levels = clamped_levels(opts.wavelet_levels) as int;
    let count = opts.segment_count as int;
    let samples = strip_of(cube, 0, cube.height as int);
    let coeffs = cube_forward(opts.filter, v, levels, samples);
    lemma_stream_header(cube, opts);
    lemma_strip_volume(
        cube.width as int,
        cube.height as int,
        cube.bands as int,
        cube.height as int,
        0,
    );
    lemma_sizes(cube.width as int, cube.height as int, cube.bands as int);
    lemma_windows_come_back(cube, opts, list, count);
    lemma_strip_bounded(cube, 0, cube.height as int);
    lemma_bounds();
    cube_transform_is_reversible(opts.filter, v, levels, samples, shifted_bound());
    let buf = windows_heard(h, list, count);
    lemma_layout_ok(v, levels, (0, 0, 0, 0));
    let ts = v.spatial_stages(levels);
    let (w, t) = (v.width as int, v.height as int);
    assert(buf =~= coeffs) by {
        assert forall|i: int| 0 <= i < buf.len() implies buf[i] == coeffs[i] by {
            v.lemma_split(i);
            let pos = i % v.area();
            let (x, y) = (pos % w, pos / w);
            assert(0 <= x < w && 0 <= y < t) by (nonlinear_arith)
                requires
                    x == pos % w,
                    y == pos / w,
                    0 <= pos < w * t,
                    w >= 1,
            ;
            blocks_cover(w, t, ts, count, 0, x, y);
            let p = ll_partition(w, t, ts, count);
            let step = pow2(ts as nat) as int;
            let k = crate::partition::segment_of(p, x / step, y / step);
            blocks_cover(w, t, ts, count, k, x, y);
            assert(part_layout(v, levels, count, k).covers(i));
        }
    }
    let out = samples_heard(h, list);
    assert(out.len() == cube.samples@.len());
    assert forall|j: int| 0 <= j < out.len() implies out[j] == cube.samples@[j] by {
        v.lemma_split(j);
        assert(samples[j] == (cube.samples@[j] - level_shift(cube.bit_depth)) as i32) by {
            assert(0 * cube.width == 0);
        }
        assert(cube.samples@[j] <= top_sample(cube.bit_depth));
        lemma_sample_back(cube.samples@[j], cube.bit_depth);
    }
    assert(out =~= cube.samples@);
}

/// The segments of a cube can be carried by a stream.
pub proof fn lemma_segments_carried(cube: IcerCube, opts: CubeEncodeOptions, k: int)
    requires
        cube.fault() is None,
        cube.volume() <= usize::MAX,
        !options_refused(cube, opts),
        0 <= k < stream_segments_count(cube, opts),
    ensures
        segment_coded(cube, opts, k).q <= 30,
        segment_coded(cube, opts, k).means.len() == cube.bands,
        segment_coded(cube, opts, k).packets.len() <= 0xFFFF,
{
    crate::cube::lemma_packet_counts(cube, opts, k);
    let levels = clamped_levels(opts.wavelet_levels) as int;
    lemma_strip_count(cube.height as int, opts.segment_count as int);
    if opts.transform_domain {
        let v = cube_volume(cube);
        let lay = part_layout(v, levels, opts.segment_count as int, k);
        let coeffs = cube_forward(
            opts.filter,
            v,
            levels,
            strip_of(cube, 0, cube.height as int),
        );
        lemma_covered_range(lay, means_subtracted(lay, coeffs), 0);
    } else {
        let each = strip_height(cube, opts);
        let v = strip_volume(
            cube.width as int,
            cube.height as int,
            cube.bands as int,
            each,
            k,
        );
        let lay = whole_layout(v, levels);
        lemma_planes_range(means_subtracted(lay, strip_transform(cube, opts, each, k)), 0);
    }
}

proof fn lemma_planes_range(coeffs: Seq<i32>, p: int)
    requires
        0 <= p <= 30,
    ensures
        p <= cube_planes_from(coeffs, p) <= 30,
    decreases 30 - p,
{
    if p < 30 && !fits_planes(coeffs, p) {
        lemma_planes_range(coeffs, p + 1);
    }
}

proof fn lemma_covered_range(lay: Layout, coeffs: Seq<i32>, p: int)
    requires
        0 <= p <= 30,
    ensures
        p <= covered_planes_from(lay, coeffs, p) <= 30,
    decreases 30 - p,
{
    if p < 30 && !covered_fit(lay, coeffs, p) {
        lemma_covered_range(lay, coeffs, p + 1);
    }
}

/// What a decoder reads of the stream of a cube: the header and every segment,
/// with the packets that the quota leaves.
pub proof fn lemma_stream_read(cube: IcerCube, opts: CubeEncodeOptions)
    requires
        cube.volume() <= usize::MAX,
        cube_encoded(cube, opts) is Ok,
    ensures
        ({
            let bytes = cube_encoded(cube, opts)->Ok_0;
            let h = stream_header(cube, opts);
            let list = within_quota(segments_coded(cube, opts), opts.byte_quota, cube.bands as int);
            let r = segments_read(bytes, 17, h.bands as int, h.count as int);
            &&& cube_header(bytes) == Ok::<CubeHeader, Fault>(h)
            &&& list.len() == stream_segments_count(cube, opts)
            &&& r.list == Seq::new(list.len(), |k: int| Some(list[k]))
            &&& r.pos == bytes.len()
            &&& r.fault is None
        }),
{
    let h = stream_header(cube, opts);
    let all = segments_coded(cube, opts);
    let list = within_quota(all, opts.byte_quota, cube.bands as int);
    lemma_stream_header(cube, opts);
    assert(all.len() == stream_segments_count(cube, opts)) by {
        lemma_strip_count(cube.height as int, opts.segment_count as int);
    }
    assert forall|k: int| 0 <= k < list.len() implies can_carry(
        #[trigger] list[k],
        h.bands as int,
    ) by {
        lemma_segments_carried(cube, opts, k);
        assert(all[k] == segment_coded(cube, opts, k));
        if let Some(b) = opts.byte_quota {
            lemma_keep_from(all, b as int, framing(cube.bands as int, all.len() as int), 0);
        }
        assert forall|j: int| 0 <= j < list[k].packets.len() implies (
        #[trigger] list[k].packets[j]).body.len() <= u32::MAX by {
            assert(!some_overlong(list));
        }
    }
    cube_streams_read_back(h, list);
}

/// **The stream of a cube decodes to a cube of the same sizes.** This holds
/// whatever a quota leaves of it, and strictly.
pub proof fn cubes_keep_their_sizes(cube: IcerCube, opts: CubeEncodeOptions, limits: DecodeLimits)
    requires
        cube.volume() <= usize::MAX,
        cube_encoded(cube, opts) is Ok,
        !stream_header(cube, opts).beyond(limits),
    ensures
        ({
            let r = cube_decoded(cube_encoded(cube, opts)->Ok_0, limits, false);
            &&& r is Ok
            &&& r->Ok_0.header.width == cube.width
            &&& r->Ok_0.header.height == cube.height
            &&& r->Ok_0.header.bands == cube.bands
            &&& r->Ok_0.header.bit_depth == cube.bit_depth
            &&& r->Ok_0.samples.len() == cube.samples@.len()
        }),
{
    lemma_stream_read(cube, opts);
    lemma_stream_header(cube, opts);
}

/// **A cube without a quota and without a loss comes back sample by sample.**
pub proof fn cubes_read_back(cube: IcerCube, opts: CubeEncodeOptions, limits: DecodeLimits)
    requires
        cube.volume() <= usize::MAX,
        cube_encoded(cube, opts) is Ok,
        opts.byte_quota is None,
        opts.min_loss == 0,
        !stream_header(cube, opts).beyond(limits),
    ensures
        ({
            let r = cube_decoded(cube_encoded(cube, opts)->Ok_0, limits, false);
            &&& r is Ok
            &&& r->Ok_0.header.width == cube.width
            &&& r->Ok_0.header.height == cube.height
            &&& r->Ok_0.header.bands == cube.bands
            &&& r->Ok_0.header.bit_depth == cube.bit_depth
            &&& r->Ok_0.samples == cube.samples@
        }),
{
    lemma_stream_read(cube, opts);
    lemma_stream_header(cube, opts);
    let h = stream_header(cube, opts);
    let list = segments_read(
        cube_encoded(cube, opts)->Ok_0,
        17,
        h.bands as int,
        h.count as int,
    ).list;
    assert(list =~= Seq::new(
        stream_segments_count(cube, opts) as nat,
        |k: int| Some(segment_coded(cube, opts, k)),
    ));
    if opts.transform_domain {
        lemma_transform_comes_back(cube, opts, list);
    } else {
        lemma_strips_come_back(cube, opts, list, limits);
    }
}

// ---------------------------------------------------------------------------
// Quotas
// ---------------------------------------------------------------------------

/// Bytes of the first `k` packets.
pub open spec fn groups_len(packets: Seq<CodedGroup>, k: int) -> int
    decreases k,
{
    if k <= 0 {
        0
    } else {
        groups_len(packets, k - 1) + 5 + packets[k - 1].body.len()
    }
}

/// Bytes of the packets that the first `k` segments keep.
pub open spec fn kept_len(list: Seq<SegmentData>, keep: Seq<int>, k: int) -> int
    decreases k,
{
    if k <= 0 {
        0
    } else {
        kept_len(list, keep, k - 1) + groups_len(list[k - 1].packets, keep[k - 1])
    }
}

pub proof fn lemma_kept_update(list: Seq<SegmentData>, keep: Seq<int>, s: int, k: int)
    requires
        keep.len() == list.len(),
        0 <= s < list.len(),
        0 <= k <= list.len(),
        keep[s] >= 0,
    ensures
        kept_len(list, keep.update(s, keep[s] + 1), k) == kept_len(list, keep, k) + (if s < k {
            5 + list[s].packets[keep[s]].body.len()
        } else {
            0
        }),
    decreases k,
{
    if k > 0 {
        lemma_kept_update(list, keep, s, k - 1);
    }
}

/// What a row of packets uses is what they take.
proof fn lemma_row_counts(list: Seq<SegmentData>, quota: int, floor: int, st: Keeping, p: int, s: int)
    requires
        0 <= s <= list.len(),
        keeps(list, quota, st),
        st.used == floor + kept_len(list, st.keep, list.len() as int),
    ensures
        ({
            let r = kept_row(list, quota, st, p, s);
            r.used == floor + kept_len(list, r.keep, list.len() as int)
        }),
    decreases s,
{
    if s > 0 {
        lemma_row_counts(list, quota, floor, st, p, s - 1);
        lemma_keep_row(list, quota, st, p, s - 1);
        let b = kept_row(list, quota, st, p, s - 1);
        lemma_kept_update(list, b.keep, s - 1, list.len() as int);
    }
}

proof fn lemma_counts(list: Seq<SegmentData>, quota: int, floor: int, p: int)
    requires
        floor <= quota,
    ensures
        ({
            let r = kept_from(list, quota, floor, p);
            r.used == floor + kept_len(list, r.keep, list.len() as int)
        }),
    decreases TOP_PRIORITY + 1 - p,
{
    if p > TOP_PRIORITY {
        let r = kept_from(list, quota, floor, p);
        lemma_nothing_kept(list, r.keep, list.len() as int);
    } else {
        lemma_counts(list, quota, floor, p + 1);
        lemma_keep_from(list, quota, floor, p + 1);
        lemma_row_counts(
            list,
            quota,
            floor,
            kept_from(list, quota, floor, p + 1),
            p,
            list.len() as int,
        );
    }
}

pub proof fn lemma_nothing_kept(list: Seq<SegmentData>, keep: Seq<int>, k: int)
    requires
        0 <= k <= keep.len(),
        forall|i: int| 0 <= i < keep.len() ==> #[trigger] keep[i] == 0,
    ensures
        kept_len(list, keep, k) == 0,
    decreases k,
{
    if k > 0 {
        lemma_nothing_kept(list, keep, k - 1);
    }
}

proof fn lemma_groups_len(packets: Seq<CodedGroup>, n: int, k: int)
    requires
        0 <= k <= n <= packets.len(),
    ensures
        groups_bytes(packets.take(n), k).len() == groups_len(packets, k),
    decreases k,
{
    if k > 0 {
        lemma_groups_len(packets, n, k - 1);
        assert(packets.take(n)[k - 1] == packets[k - 1]);
    }
}

proof fn lemma_means_len(means: Seq<i32>, k: int)
    requires
        0 <= k,
    ensures
        means_bytes(means, k).len() == 4 * k,
    decreases k,
{
    if k > 0 {
        lemma_means_len(means, k - 1);
    }
}

pub proof fn lemma_segments_len(
    list: Seq<SegmentData>,
    keep: Seq<int>,
    cut: Seq<SegmentData>,
    bands: int,
    k: int,
)
    requires
        keep.len() == list.len() == cut.len(),
        0 <= k <= list.len(),
        forall|i: int|
            0 <= i < list.len() ==> 0 <= #[trigger] keep[i] <= list[i].packets.len()
                && list[i].means.len() == bands && cut[i] == (SegmentData {
                packets: list[i].packets.take(keep[i]),
                ..list[i]
            }),
    ensures
        segments_bytes(cut, k).len() == k * fixed_bytes(bands) + kept_len(list, keep, k),
    decreases k,
{
    if k <= 0 {
        assert(k * fixed_bytes(bands) == 0) by (nonlinear_arith)
            requires
                k == 0,
        ;
    } else {
        lemma_segments_len(list, keep, cut, bands, k - 1);
        assert(0 <= keep[k - 1] <= list[k - 1].packets.len());
        lemma_groups_len(list[k - 1].packets, keep[k - 1], keep[k - 1]);
        lemma_means_len(list[k - 1].means, bands);
        assert(k * fixed_bytes(bands) == (k - 1) * fixed_bytes(bands) + fixed_bytes(bands))
            by (nonlinear_arith);
    }
}

/// **The stream of a cube is never longer than its quota.**
pub proof fn quotas_are_kept(cube: IcerCube, opts: CubeEncodeOptions)
    requires
        cube.volume() <= usize::MAX,
        cube_encoded(cube, opts) is Ok,
        opts.byte_quota is Some,
    ensures
        cube_encoded(cube, opts)->Ok_0.len() <= opts.byte_quota->0,
{
    let h = stream_header(cube, opts);
    let all = segments_coded(cube, opts);
    let b = opts.byte_quota->0 as int;
    let bands = cube.bands as int;
    let n = all.len() as int;
    let floor = framing(bands, n);
    lemma_stream_header(cube, opts);
    header_reads_back(h, Seq::empty());
    lemma_keep_from(all, b, floor, 0);
    lemma_counts(all, b, floor, 0);
    let st = kept_from(all, b, floor, 0);
    let cut = within_quota(all, opts.byte_quota, bands);
    assert(all.len() == stream_segments_count(cube, opts)) by {
        lemma_strip_count(cube.height as int, opts.segment_count as int);
    }
    assert forall|i: int| 0 <= i < all.len() implies 0 <= #[trigger] st.keep[i]
        <= all[i].packets.len() && all[i].means.len() == bands && cut[i] == (SegmentData {
        packets: all[i].packets.take(st.keep[i]),
        ..all[i]
    }) by {
        lemma_segments_carried(cube, opts, i);
        assert(all[i] == segment_coded(cube, opts, i));
    }
    lemma_segments_len(all, st.keep, cut, bands, n);
}

/// **Under a quota every segment keeps a prefix of its packets**, and all else
/// as it is.
pub proof fn quotas_keep_prefixes(list: Seq<SegmentData>, quota: u64, bands: int, k: int)
    requires
        framing(bands, list.len() as int) <= quota,
        0 <= k < list.len(),
    ensures
        ({
            let cut = within_quota(list, Some(quota), bands);
            &&& cut.len() == list.len()
            &&& cut[k].q == list[k].q
            &&& cut[k].means == list[k].means
            &&& cut[k].packets.len() <= list[k].packets.len()
            &&& cut[k].packets == list[k].packets.take(cut[k].packets.len() as int)
        }),
{
    let floor = framing(bands, list.len() as int);
    lemma_keep_from(list, quota as int, floor, 0);
    let keep = kept_from(list, quota as int, floor, 0).keep;
    assert(0 <= keep[k] <= list[k].packets.len());
}

// ---------------------------------------------------------------------------
// Lenient decoding
// ---------------------------------------------------------------------------

/// **A lenient decoder makes of a whole stream what a strict one does.**
pub proof fn lenient_matches_strict(bytes: Seq<u8>, limits: DecodeLimits)
    requires
        cube_decoded(bytes, limits, false) is Ok,
    ensures
        cube_decoded(bytes, limits, true) == cube_decoded(bytes, limits, false),
        cube_decoded(bytes, limits, false)->Ok_0.reading.fault is None,
{
}

/// **Once the header is there, a lenient decoder takes any part of a stream
/// that it would take as a whole.**
pub proof fn lenient_takes_prefixes(bytes: Seq<u8>, limits: DecodeLimits, n: int)
    requires
        17 <= n <= bytes.len(),
        cube_decoded(bytes, limits, true) is Ok,
    ensures
        cube_decoded(bytes.take(n), limits, true) is Ok,
        cube_decoded(bytes.take(n), limits, true)->Ok_0.header == cube_decoded(
            bytes,
            limits,
            true,
        )->Ok_0.header,
{
    let part = bytes.take(n);
    assert(part.take(4) =~= bytes.take(4));
    assert(header_fields(part) == header_fields(bytes));
}

} // verus!
