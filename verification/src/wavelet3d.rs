//! Reversible transform of a cube of samples.
//!
//! A cube is a stack of spatial planes. The spectrum of every pixel is
//! transformed like an image of one column, and then every spatial plane.

use crate::header::WaveletFilter;
use crate::subband3d::{lemma_stages, shorter, stage_counts, stages};
use crate::wavelet_int::{bounded, forward_2d_dyadic, forward_levels, grown, inverse_2d_dyadic, inverse_levels, transform_is_reversible, weights_of, FilterWeights};
use vstd::prelude::*;
use vstd::arithmetic::div_mod::{lemma_fundamental_div_mod, lemma_fundamental_div_mod_converse};

verus! {

/// Sizes of a cube.
#[derive(Debug, Clone, Copy, PartialEq, Eq, Structural)]
pub struct Volume {
    /// Columns of a spatial plane.
    pub width: usize,
    /// Rows of a spatial plane.
    pub height: usize,
    /// Number of spatial planes.
    pub bands: usize,
}

impl Volume {
    /// Number of samples of a spatial plane.
    pub open spec fn area(self) -> int {
        self.width * self.height
    }

    /// Number of samples.
    pub open spec fn count(self) -> int {
        self.area() * self.bands
    }

    /// The samples can be addressed.
    pub open spec fn ok(self) -> bool {
        self.area() <= usize::MAX && self.count() <= usize::MAX
    }

    /// Stages in the spatial directions.
    pub open spec fn spatial_stages(self, levels: int) -> int {
        stages(shorter(self.width as int, self.height as int), levels)
    }

    /// Stages in the spectral direction.
    pub open spec fn spectral_stages(self, levels: int) -> int {
        stages(self.bands as int, levels)
    }

    pub proof fn lemma_area(self)
        requires
            self.ok(),
        ensures
            0 <= self.area() <= usize::MAX,
            0 <= self.count() <= usize::MAX,
            self.bands >= 1 ==> self.area() <= self.count(),
            self.count() >= 1 ==> 1 <= self.width && 1 <= self.height && 1 <= self.bands && 1
                <= self.area() <= self.count(),
    {
        let (w, h, b) = (self.width as int, self.height as int, self.bands as int);
        assert(0 <= w * h) by (nonlinear_arith)
            requires
                0 <= w,
                0 <= h,
        ;
        let a = self.area();
        assert(0 <= a * b && (b >= 1 ==> a <= a * b) && (a * b >= 1 ==> a >= 1 && b >= 1))
            by (nonlinear_arith)
            requires
                a >= 0,
                b >= 0,
        ;
        assert(a >= 1 ==> w >= 1 && h >= 1) by (nonlinear_arith)
            requires
                a == w * h,
                0 <= w,
                0 <= h,
        ;
    }

    /// The sample of a pixel in a plane.
    pub proof fn lemma_sample(self, pos: int, l: int)
        requires
            self.ok(),
            0 <= pos < self.area(),
            0 <= l < self.bands,
        ensures
            0 <= l * self.area() + pos < self.count(),
            0 <= l * self.area(),
            (l * self.area() + pos) % self.area() == pos,
            (l * self.area() + pos) / self.area() == l,
    {
        let a = self.area();
        assert(0 <= l * a && l * a + pos < a * self.bands) by (nonlinear_arith)
            requires
                0 <= pos < a,
                0 <= l <= self.bands - 1,
        ;
        lemma_fundamental_div_mod_converse(l * a + pos, a, l, pos);
    }

    /// Pixel and plane of a sample.
    pub proof fn lemma_split(self, i: int)
        requires
            self.ok(),
            0 <= i < self.count(),
        ensures
            0 <= i % self.area() < self.area(),
            0 <= i / self.area() < self.bands,
            i == (i / self.area()) * self.area() + i % self.area(),
    {
        self.lemma_area();
        let a = self.area();
        lemma_fundamental_div_mod(i, a);
        assert(a * (i / a) == (i / a) * a) by (nonlinear_arith);
        assert(0 <= i / a < self.bands) by (nonlinear_arith)
            requires
                0 <= i < a * self.bands,
                a >= 1,
        ;
    }
}

/// The spectrum of a pixel.
pub open spec fn spectrum(v: Volume, buf: Seq<i32>, pos: int) -> Seq<i32> {
    Seq::new(v.bands as nat, |l: int| buf[l * v.area() + pos])
}

/// A spatial plane.
pub open spec fn spatial_plane(v: Volume, buf: Seq<i32>, l: int) -> Seq<i32> {
    Seq::new(v.area() as nat, |pos: int| buf[l * v.area() + pos])
}

/// A line or a plane, transformed or brought back.
pub open spec fn image_mapped(
    w: FilterWeights,
    back: bool,
    width: usize,
    height: usize,
    buf: Seq<i32>,
    levels: int,
) -> Seq<i32> {
    if back {
        inverse_levels(w, width, height, buf, levels)
    } else {
        forward_levels(w, width, height, buf, levels)
    }
}

/// Every spectrum, transformed or brought back.
pub open spec fn spectra_mapped(w: FilterWeights, back: bool, v: Volume, tl: int, buf: Seq<i32>) -> Seq<
    i32,
> {
    Seq::new(
        buf.len(),
        |i: int|
            image_mapped(w, back, 1, v.bands, spectrum(v, buf, i % v.area()), tl)[i / v.area()],
    )
}

/// Every spatial plane, transformed or brought back.
pub open spec fn planes_mapped(w: FilterWeights, back: bool, v: Volume, ts: int, buf: Seq<i32>) -> Seq<
    i32,
> {
    Seq::new(
        buf.len(),
        |i: int|
            image_mapped(
                w,
                back,
                v.width,
                v.height,
                spatial_plane(v, buf, i / v.area()),
                ts,
            )[i % v.area()],
    )
}

/// The transform of a cube.
pub open spec fn cube_forward(filter: WaveletFilter, v: Volume, levels: int, buf: Seq<i32>) -> Seq<i32> {
    let w = weights_of(filter);
    planes_mapped(
        w,
        false,
        v,
        v.spatial_stages(levels),
        spectra_mapped(w, false, v, v.spectral_stages(levels), buf),
    )
}

/// A transformed cube brought back.
pub open spec fn cube_inverse(filter: WaveletFilter, v: Volume, levels: int, buf: Seq<i32>) -> Seq<i32> {
    let w = weights_of(filter);
    spectra_mapped(
        w,
        true,
        v,
        v.spectral_stages(levels),
        planes_mapped(w, true, v, v.spatial_stages(levels), buf),
    )
}

fn map_image(
    filter: WaveletFilter,
    back: bool,
    width: usize,
    height: usize,
    levels: u8,
    line: &mut Vec<i32>,
)
    requires
        width * height <= usize::MAX,
        old(line)@.len() == width * height,
        levels <= 31,
    ensures
        final(line)@ == image_mapped(
            weights_of(filter),
            back,
            width,
            height,
            old(line)@,
            levels as int,
        ),
        final(line)@.len() == old(line)@.len(),
{
    if back {
        inverse_2d_dyadic(line, width, height, levels, filter);
    } else {
        forward_2d_dyadic(line, width, height, levels, filter);
    }
}

fn map_spectra(buf: &mut Vec<i32>, v: &Volume, tl: u8, filter: WaveletFilter, back: bool)
    requires
        v.ok(),
        tl <= 31,
        old(buf)@.len() == v.count(),
    ensures
        final(buf)@ == spectra_mapped(weights_of(filter), back, *v, tl as int, old(buf)@),
        final(buf)@.len() == old(buf)@.len(),
{
    let ghost w = weights_of(filter);
    let ghost start = buf@;
    let ghost goal = spectra_mapped(w, back, *v, tl as int, start);
    proof {
        v.lemma_area();
    }
    let area: usize = v.width * v.height;
    let mut pos: usize = 0;
    while pos < area
        invariant
            pos <= area,
            v.ok(),
            tl <= 31,
            area == v.area(),
            w == weights_of(filter),
            goal == spectra_mapped(w, back, *v, tl as int, start),
            start.len() == v.count(),
            buf@.len() == v.count(),
            forall|i: int|
                0 <= i < v.count() ==> #[trigger] buf@[i] == (if i % v.area() < pos {
                    goal[i]
                } else {
                    start[i]
                }),
        decreases area - pos,
    {
        let mut line: Vec<i32> = Vec::new();
        let mut l: usize = 0;
        while l < v.bands
            invariant
                l <= v.bands,
                pos < area,
                v.ok(),
                area == v.area(),
                buf@.len() == v.count() == start.len(),
                forall|i: int|
                    0 <= i < v.count() ==> #[trigger] buf@[i] == (if i % v.area() < pos {
                        goal[i]
                    } else {
                        start[i]
                    }),
                line@.len() == l,
                forall|j: int| 0 <= j < l ==> #[trigger] line@[j] == spectrum(
                    *v,
                    start,
                    pos as int,
                )[j],
            decreases v.bands - l,
        {
            proof {
                v.lemma_sample(pos as int, l as int);
            }
            line.push(buf[l * area + pos]);
            l = l + 1;
        }
        assert(line@ =~= spectrum(*v, start, pos as int));
        map_image(filter, back, 1, v.bands, tl, &mut line);
        let ghost mapped = line@;
        let ghost before = buf@;
        let mut l: usize = 0;
        while l < v.bands
            invariant
                l <= v.bands,
                pos < area,
                v.ok(),
                area == v.area(),
                buf@.len() == v.count() == start.len(),
                before.len() == v.count(),
                line@ == mapped,
                mapped.len() == v.bands,
                forall|i: int|
                    0 <= i < v.count() ==> #[trigger] buf@[i] == (if i % v.area() == pos && i
                        / v.area() < l {
                        mapped[i / v.area()]
                    } else {
                        before[i]
                    }),
            decreases v.bands - l,
        {
            proof {
                v.lemma_sample(pos as int, l as int);
                assert forall|i: int|
                    0 <= i < v.count() && i % v.area() == pos && #[trigger] (i / v.area())
                        == l implies i == l * area + pos by {
                    v.lemma_split(i);
                }
            }
            buf.set(l * area + pos, line[l]);
            l = l + 1;
        }
        proof {
            assert forall|i: int| 0 <= i < v.count() implies #[trigger] buf@[i] == (if i % v.area()
                < pos + 1 {
                goal[i]
            } else {
                start[i]
            }) by {
                v.lemma_split(i);
                assert(before[i] == (if i % v.area() < pos {
                    goal[i]
                } else {
                    start[i]
                }));
            }
        }
        pos = pos + 1;
    }
    proof {
        assert forall|i: int| 0 <= i < v.count() implies buf@[i] == goal[i] by {
            v.lemma_split(i);
        }
        assert(buf@ =~= goal);
    }
}

fn map_planes(buf: &mut Vec<i32>, v: &Volume, ts: u8, filter: WaveletFilter, back: bool)
    requires
        v.ok(),
        ts <= 31,
        old(buf)@.len() == v.count(),
    ensures
        final(buf)@ == planes_mapped(weights_of(filter), back, *v, ts as int, old(buf)@),
        final(buf)@.len() == old(buf)@.len(),
{
    let ghost w = weights_of(filter);
    let ghost start = buf@;
    let ghost goal = planes_mapped(w, back, *v, ts as int, start);
    proof {
        v.lemma_area();
    }
    let area: usize = v.width * v.height;
    let mut l: usize = 0;
    while l < v.bands
        invariant
            l <= v.bands,
            v.ok(),
            ts <= 31,
            area == v.area(),
            w == weights_of(filter),
            goal == planes_mapped(w, back, *v, ts as int, start),
            start.len() == v.count(),
            buf@.len() == v.count(),
            forall|i: int|
                0 <= i < v.count() ==> #[trigger] buf@[i] == (if i / v.area() < l {
                    goal[i]
                } else {
                    start[i]
                }),
        decreases v.bands - l,
    {
        let mut plane: Vec<i32> = Vec::new();
        let mut pos: usize = 0;
        while pos < area
            invariant
                pos <= area,
                l < v.bands,
                v.ok(),
                area == v.area(),
                buf@.len() == v.count() == start.len(),
                forall|i: int|
                    0 <= i < v.count() ==> #[trigger] buf@[i] == (if i / v.area() < l {
                        goal[i]
                    } else {
                        start[i]
                    }),
                plane@.len() == pos,
                forall|j: int| 0 <= j < pos ==> #[trigger] plane@[j] == spatial_plane(
                    *v,
                    start,
                    l as int,
                )[j],
            decreases area - pos,
        {
            proof {
                v.lemma_sample(pos as int, l as int);
            }
            plane.push(buf[l * area + pos]);
            pos = pos + 1;
        }
        assert(plane@ =~= spatial_plane(*v, start, l as int));
        map_image(filter, back, v.width, v.height, ts, &mut plane);
        let ghost mapped = plane@;
        let ghost before = buf@;
        let mut pos: usize = 0;
        while pos < area
            invariant
                pos <= area,
                l < v.bands,
                v.ok(),
                area == v.area(),
                buf@.len() == v.count() == start.len(),
                before.len() == v.count(),
                plane@ == mapped,
                mapped.len() == area,
                forall|i: int|
                    0 <= i < v.count() ==> #[trigger] buf@[i] == (if i / v.area() == l && i
                        % v.area() < pos {
                        mapped[i % v.area()]
                    } else {
                        before[i]
                    }),
            decreases area - pos,
        {
            proof {
                v.lemma_sample(pos as int, l as int);
                assert forall|i: int|
                    0 <= i < v.count() && i % v.area() == pos && #[trigger] (i / v.area())
                        == l implies i == l * area + pos by {
                    v.lemma_split(i);
                }
            }
            buf.set(l * area + pos, plane[pos]);
            pos = pos + 1;
        }
        proof {
            assert forall|i: int| 0 <= i < v.count() implies #[trigger] buf@[i] == (if i / v.area()
                < l + 1 {
                goal[i]
            } else {
                start[i]
            }) by {
                v.lemma_split(i);
                assert(before[i] == (if i / v.area() < l {
                    goal[i]
                } else {
                    start[i]
                }));
            }
        }
        l = l + 1;
    }
    proof {
        assert forall|i: int| 0 <= i < v.count() implies buf@[i] == goal[i] by {
            v.lemma_split(i);
        }
        assert(buf@ =~= goal);
    }
}

/// Transform a cube in place.
pub fn forward_3d(
    buf: &mut Vec<i32>,
    width: usize,
    height: usize,
    bands: usize,
    levels: u8,
    filter: WaveletFilter,
)
    requires
        (Volume { width, height, bands }).ok(),
        old(buf)@.len() == (Volume { width, height, bands }).count(),
        levels <= 31,
    ensures
        final(buf)@ == cube_forward(
            filter,
            (Volume { width, height, bands }),
            levels as int,
            old(buf)@,
        ),
        final(buf)@.len() == old(buf)@.len(),
{
    let v = Volume { width, height, bands };
    let (ts, tl): (u8, u8) = stage_counts(width, height, bands, levels);
    map_spectra(buf, &v, tl, filter, false);
    map_planes(buf, &v, ts, filter, false);
}

/// Bring a transformed cube back in place.
pub fn inverse_3d(
    buf: &mut Vec<i32>,
    width: usize,
    height: usize,
    bands: usize,
    levels: u8,
    filter: WaveletFilter,
)
    requires
        (Volume { width, height, bands }).ok(),
        old(buf)@.len() == (Volume { width, height, bands }).count(),
        levels <= 31,
    ensures
        final(buf)@ == cube_inverse(
            filter,
            (Volume { width, height, bands }),
            levels as int,
            old(buf)@,
        ),
        final(buf)@.len() == old(buf)@.len(),
{
    let v = Volume { width, height, bands };
    let (ts, tl): (u8, u8) = stage_counts(width, height, bands, levels);
    map_planes(buf, &v, ts, filter, true);
    map_spectra(buf, &v, tl, filter, true);
}

/// The bound of a transformed cube.
pub open spec fn cube_grown(b: int) -> int {
    grown(grown(grown(grown(b))))
}

proof fn lemma_spectra_reversible(filter: WaveletFilter, v: Volume, tl: int, buf: Seq<i32>, b: int)
    requires
        v.ok(),
        buf.len() == v.count(),
        0 <= tl <= 31,
        b >= 0,
        grown(grown(b)) <= i32::MAX,
        bounded(buf, b),
    ensures
        ({
            let w = weights_of(filter);
            let out = spectra_mapped(w, false, v, tl, buf);
            &&& spectra_mapped(w, true, v, tl, out) == buf
            &&& out.len() == buf.len()
            &&& bounded(out, grown(grown(b)))
        }),
{
    let w = weights_of(filter);
    let out = spectra_mapped(w, false, v, tl, buf);
    let again = spectra_mapped(w, true, v, tl, out);
    v.lemma_area();
    assert(1 * v.bands == v.bands);
    assert forall|i: int| 0 <= i < buf.len() implies again[i] == buf[i] && -grown(grown(b))
        <= #[trigger] out[i] <= grown(grown(b)) by {
        v.lemma_split(i);
        let pos = i % v.area();
        let line = spectrum(v, buf, pos);
        assert forall|l: int| 0 <= l < line.len() implies -b <= #[trigger] line[l] <= b by {
            v.lemma_sample(pos, l);
            assert(line[l] == buf[l * v.area() + pos]);
        }
        transform_is_reversible(filter, 1, v.bands, line, tl, b);
        let mapped = forward_levels(w, 1, v.bands, line, tl);
        assert(spectrum(v, out, pos) =~= mapped) by {
            assert forall|l: int| 0 <= l < v.bands implies spectrum(v, out, pos)[l]
                == mapped[l] by {
                v.lemma_sample(pos, l);
            }
        }
        assert(out[i] == mapped[i / v.area()]);
    }
    assert forall|i: int| 0 <= i < buf.len() implies again[i] == buf[i] by {
        assert(-grown(grown(b)) <= out[i]);
    }
    assert(again =~= buf);
}

proof fn lemma_planes_reversible(filter: WaveletFilter, v: Volume, ts: int, buf: Seq<i32>, b: int)
    requires
        v.ok(),
        buf.len() == v.count(),
        0 <= ts <= 31,
        b >= 0,
        grown(grown(b)) <= i32::MAX,
        bounded(buf, b),
    ensures
        ({
            let w = weights_of(filter);
            let out = planes_mapped(w, false, v, ts, buf);
            &&& planes_mapped(w, true, v, ts, out) == buf
            &&& out.len() == buf.len()
            &&& bounded(out, grown(grown(b)))
        }),
{
    let w = weights_of(filter);
    let out = planes_mapped(w, false, v, ts, buf);
    let again = planes_mapped(w, true, v, ts, out);
    v.lemma_area();
    assert forall|i: int| 0 <= i < buf.len() implies again[i] == buf[i] && -grown(grown(b))
        <= #[trigger] out[i] <= grown(grown(b)) by {
        v.lemma_split(i);
        let l = i / v.area();
        let plane = spatial_plane(v, buf, l);
        assert forall|pos: int| 0 <= pos < plane.len() implies -b <= #[trigger] plane[pos] <= b by {
            v.lemma_sample(pos, l);
            assert(plane[pos] == buf[l * v.area() + pos]);
        }
        transform_is_reversible(filter, v.width, v.height, plane, ts, b);
        let mapped = forward_levels(w, v.width, v.height, plane, ts);
        assert(spatial_plane(v, out, l) =~= mapped) by {
            assert forall|pos: int| 0 <= pos < v.area() implies spatial_plane(v, out, l)[pos]
                == mapped[pos] by {
                v.lemma_sample(pos, l);
            }
        }
        assert(out[i] == mapped[i % v.area()]);
    }
    assert forall|i: int| 0 <= i < buf.len() implies again[i] == buf[i] by {
        assert(-grown(grown(b)) <= out[i]);
    }
    assert(again =~= buf);
}

/// **The transform of a cube is reversible**, and its coefficients stay within
/// a multiple of the samples.
pub proof fn cube_transform_is_reversible(
    filter: WaveletFilter,
    v: Volume,
    levels: int,
    buf: Seq<i32>,
    b: int,
)
    requires
        v.ok(),
        buf.len() == v.count(),
        0 <= levels <= 31,
        b >= 0,
        cube_grown(b) <= i32::MAX,
        bounded(buf, b),
    ensures
        cube_inverse(filter, v, levels, cube_forward(filter, v, levels, buf)) == buf,
        cube_forward(filter, v, levels, buf).len() == buf.len(),
        bounded(cube_forward(filter, v, levels, buf), cube_grown(b)),
{
    let w = weights_of(filter);
    lemma_stages(shorter(v.width as int, v.height as int), levels);
    lemma_stages(v.bands as int, levels);
    lemma_spectra_reversible(filter, v, v.spectral_stages(levels), buf, b);
    let mid = spectra_mapped(w, false, v, v.spectral_stages(levels), buf);
    lemma_planes_reversible(filter, v, v.spatial_stages(levels), mid, grown(grown(b)));
}

} // verus!
