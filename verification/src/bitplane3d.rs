//! Bit-plane coder of cubes.
//!
//! The bit planes of the subbands are coded in the order of their priorities,
//! and those of equal priority by falling subband number. A bit plane of a
//! subband is coded one spatial plane after the other, and each of them in
//! raster order. Right after the first one of a magnitude its sign is coded.
//! The context of a bit comes from the neighbours of its coefficient in the
//! spectral direction. All bit planes with one priority make up a packet.

use crate::arith::Decision;
use crate::bitplane::{bits_for, fits_planes, unit_patch, unit_window};
use crate::context::{flag, fresh_counts, observed, ContextModel, UNCODED_P1};
use crate::context3d::{category0_context, category1_context, category2_context, category_context, new_model, sign_prediction_and_context, sign_rule, NeighbourSign, CONTEXT_COUNT_3D};
use crate::entropy::{decoded, encoded, BitSink, BitSource, EntropyKind};
use crate::error::Result;
use crate::priority::{can_step, lemma_can_step, lemma_index, two_to};
use crate::readback::in_scope;
use crate::scan::{ask, bit_at, deadzone, decision, get_bit_at, lemma_place_inside, magnitude, magnitude_of, repeated, with_bit, Grid, Patch, ScanFilter, Selection};
use crate::subband3d::{enumerate_subbands, lemma_stages, lemma_stages_bound, lemma_stages_inside, lemma_subband_at, plane_with, plane_with_priority, shorter, stage_counts, subband_at, subband_count, Subband3d};
use crate::wavelet3d::Volume;
use vstd::prelude::*;
use vstd::arithmetic::power2::pow2;

verus! {

// ---------------------------------------------------------------------------
// Geometry
// ---------------------------------------------------------------------------

/// The coefficients of a subband: places of a spatial plane, and the planes
/// that have them.
#[derive(Debug, Clone, Copy, PartialEq, Eq, Structural)]
pub struct SubbandMembers {
    /// Places of a spatial plane.
    pub spatial: Patch,
    /// Places along a spectrum, as a patch of one row.
    pub spectral: Patch,
}

impl SubbandMembers {
    /// Number of coefficients.
    pub open spec fn size(self) -> int {
        self.spatial.size() * self.spectral.columns
    }

    /// Plane of coefficient `k`.
    pub open spec fn plane(self, k: int) -> int {
        self.spectral.x0 + (k / self.spatial.size()) * self.spectral.step
    }

    /// Place of coefficient `k` in its plane.
    pub open spec fn pixel(self, v: Volume, k: int) -> int {
        let j = k % self.spatial.size();
        self.spatial.y(j) * v.width + self.spatial.x(j)
    }

    /// Position of coefficient `k` in the buffer.
    pub open spec fn place(self, v: Volume, k: int) -> int {
        self.plane(k) * v.area() + self.pixel(v, k)
    }

    /// Position of the previous spectral neighbour of coefficient `k`.
    pub open spec fn before(self, v: Volume, k: int) -> Option<int> {
        if k / self.spatial.size() >= 1 {
            Some((self.plane(k) - self.spectral.step) * v.area() + self.pixel(v, k))
        } else {
            None
        }
    }

    /// Position of the next spectral neighbour of coefficient `k`.
    pub open spec fn after(self, v: Volume, k: int) -> Option<int> {
        if k / self.spatial.size() + 1 < self.spectral.columns {
            Some((self.plane(k) + self.spectral.step) * v.area() + self.pixel(v, k))
        } else {
            None
        }
    }

    /// Every coefficient lies in the buffer.
    pub open spec fn inside(self, v: Volume) -> bool {
        &&& v.ok()
        &&& self.spatial.inside(Grid { width: v.width, height: v.height, levels: 0 })
        &&& self.spatial.size() <= v.area()
        &&& self.spectral.step >= 1
        &&& self.spectral.columns > 0 ==> self.spectral.x0 + (self.spectral.columns - 1)
            * self.spectral.step < v.bands
    }

    pub proof fn lemma_inside(self, v: Volume, k: int)
        requires
            self.inside(v),
            0 <= k < self.size(),
        ensures
            self.spatial.size() > 0,
            0 <= k / self.spatial.size() < self.spectral.columns,
            0 <= k % self.spatial.size() < self.spatial.size(),
            0 <= self.pixel(v, k) < v.area(),
            self.spectral.x0 <= self.plane(k) < v.bands,
            0 <= self.place(v, k) < v.count(),
            self.before(v, k) matches Some(i) ==> 0 <= i < v.count() && i != self.place(v, k)
                && 0 <= self.plane(k) - self.spectral.step < v.bands,
            self.after(v, k) matches Some(i) ==> 0 <= i < v.count() && i != self.place(v, k)
                && self.plane(k) + self.spectral.step < v.bands,
    {
        let n = self.spatial.size();
        let c = self.spectral.columns as int;
        let step = self.spectral.step as int;
        assert(n > 0 && c > 0 && 0 <= k / n < c && 0 <= k % n < n) by (nonlinear_arith)
            requires
                0 <= k < n * c,
                0 <= c,
                0 <= n || n < 0,
        ;
        let l = k / n;
        let j = k % n;
        let g = Grid { width: v.width, height: v.height, levels: 0 };
        lemma_place_inside(g, self.spatial, j);
        assert(0 <= l * step <= (c - 1) * step) by (nonlinear_arith)
            requires
                0 <= l <= c - 1,
                step >= 1,
        ;
        v.lemma_sample(self.pixel(v, k), self.plane(k));
        if l >= 1 {
            assert(l * step >= step) by (nonlinear_arith)
                requires
                    l >= 1,
                    step >= 1,
            ;
            v.lemma_sample(self.pixel(v, k), self.plane(k) - step);
        }
        if l + 1 < c {
            assert((l + 1) * step <= (c - 1) * step && (l + 1) * step == l * step + step)
                by (nonlinear_arith)
                requires
                    l + 1 <= c - 1,
                    step >= 1,
            ;
            v.lemma_sample(self.pixel(v, k), self.plane(k) + step);
        }
    }

    /// Positions of coefficient `k` and of its spectral neighbours.
    fn locate(&self, v: &Volume, k: usize) -> (r: (usize, Option<usize>, Option<usize>))
        requires
            self.inside(*v),
            k < self.size(),
        ensures
            r.0 == self.place(*v, k as int),
            r.0 < v.count(),
            r.1 is Some == self.before(*v, k as int) is Some,
            r.1 matches Some(i) ==> i == self.before(*v, k as int)->0 && i < v.count(),
            r.2 is Some == self.after(*v, k as int) is Some,
            r.2 matches Some(i) ==> i == self.after(*v, k as int)->0 && i < v.count(),
    {
        proof {
            self.lemma_inside(*v, k as int);
            v.lemma_area();
        }
        let n: usize = self.spatial.columns * self.spatial.rows;
        let area: usize = v.width * v.height;
        let l: usize = k / n;
        let j: usize = k % n;
        proof {
            let g = Grid { width: v.width, height: v.height, levels: 0 };
            let p = self.spatial;
            lemma_place_inside(g, p, j as int);
            lemma_index(p.x(j as int), p.y(j as int), v.width as int, v.height as int);
            let c = p.columns as int;
            assert(c > 0 && 0 <= j as int / c && 0 <= j as int % c) by (nonlinear_arith)
                requires
                    0 <= j < c * p.rows,
            ;
            assert(0 <= (j as int / c) * p.step && 0 <= (j as int % c) * p.step)
                by (nonlinear_arith)
                requires
                    0 <= j as int / c,
                    0 <= j as int % c,
            ;
            assert(p.y(j as int) * v.width >= 0) by (nonlinear_arith)
                requires
                    p.y(j as int) >= 0,
            ;
            assert(0 <= l * self.spectral.step) by (nonlinear_arith);
            v.lemma_sample(self.pixel(*v, k as int), self.plane(k as int));
        }
        let x: usize = self.spatial.x0 + (j % self.spatial.columns) * self.spatial.step;
        let y: usize = self.spatial.y0 + (j / self.spatial.columns) * self.spatial.step;
        let pixel: usize = y * v.width + x;
        let plane: usize = self.spectral.x0 + l * self.spectral.step;
        let before = if l >= 1 {
            proof {
                v.lemma_sample(pixel as int, plane - self.spectral.step);
            }
            Some((plane - self.spectral.step) * area + pixel)
        } else {
            None
        };
        let after = if self.spectral.columns - l > 1 {
            proof {
                v.lemma_sample(pixel as int, plane + self.spectral.step);
            }
            Some((plane + self.spectral.step) * area + pixel)
        } else {
            None
        };
        (plane * area + pixel, before, after)
    }

    /// The places of a spatial plane, as column and row.
    pub fn positions(&self) -> (out: Vec<(usize, usize)>)
        requires
            self.spatial.size() <= usize::MAX,
            exists|v: Volume| #[trigger] self.inside(v),
        ensures
            out@.len() == self.spatial.size(),
            forall|j: int|
                0 <= j < out@.len() ==> (#[trigger] out@[j]).0 == self.spatial.x(j) && out@[j].1
                    == self.spatial.y(j),
    {
        let ghost v = choose|v: Volume| #[trigger] self.inside(v);
        let n: usize = self.spatial.columns * self.spatial.rows;
        let mut out: Vec<(usize, usize)> = Vec::new();
        let mut j: usize = 0;
        while j < n
            invariant
                j <= n,
                n == self.spatial.size(),
                self.inside(v),
                out@.len() == j,
                forall|i: int|
                    0 <= i < j ==> (#[trigger] out@[i]).0 == self.spatial.x(i) && out@[i].1
                        == self.spatial.y(i),
            decreases n - j,
        {
            proof {
                let p = self.spatial;
                lemma_place_inside(
                    Grid { width: v.width, height: v.height, levels: 0 },
                    p,
                    j as int,
                );
                let c = p.columns as int;
                assert(c > 0 && 0 <= j as int / c && 0 <= j as int % c) by (nonlinear_arith)
                    requires
                        0 <= j < c * p.rows,
                ;
                assert(0 <= (j as int / c) * p.step && 0 <= (j as int % c) * p.step)
                    by (nonlinear_arith)
                    requires
                        0 <= j as int / c,
                        0 <= j as int % c,
                ;
            }
            let x: usize = self.spatial.x0 + (j % self.spatial.columns) * self.spatial.step;
            let y: usize = self.spatial.y0 + (j / self.spatial.columns) * self.spatial.step;
            out.push((x, y));
            j = j + 1;
        }
        out
    }

    /// The planes that hold coefficients.
    pub fn planes(&self) -> (out: Vec<usize>)
        requires
            exists|v: Volume| #[trigger] self.inside(v),
        ensures
            out@.len() == self.spectral.columns,
            forall|l: int|
                0 <= l < out@.len() ==> #[trigger] out@[l] == self.spectral.x0 + l
                    * self.spectral.step,
    {
        let ghost v = choose|v: Volume| #[trigger] self.inside(v);
        let mut out: Vec<usize> = Vec::new();
        let mut l: usize = 0;
        while l < self.spectral.columns
            invariant
                l <= self.spectral.columns,
                self.inside(v),
                out@.len() == l,
                forall|i: int|
                    0 <= i < l ==> #[trigger] out@[i] == self.spectral.x0 + i
                        * self.spectral.step,
            decreases self.spectral.columns - l,
        {
            proof {
                let step = self.spectral.step as int;
                assert(0 <= l * step <= (self.spectral.columns - 1) * step) by (nonlinear_arith)
                    requires
                        0 <= l <= self.spectral.columns - 1,
                        step >= 1,
                ;
            }
            out.push(self.spectral.x0 + l * self.spectral.step);
            l = l + 1;
        }
        out
    }
}

/// What of a cube is coded: a window of its spatial planes, through all of
/// them.
pub struct Layout {
    /// Sizes of the coefficient buffer.
    pub volume: Volume,
    /// Stages in the spatial directions.
    pub ts: u8,
    /// Stages in the spectral direction.
    pub tl: u8,
    /// First and last column, and first and last row; the last ones do not
    /// belong to the window.
    pub window: (usize, usize, usize, usize),
}

impl Layout {
    /// A spatial plane.
    pub open spec fn grid(self) -> Grid {
        Grid { width: self.volume.width, height: self.volume.height, levels: self.ts }
    }

    /// A spectrum, as an image of one row.
    pub open spec fn line(self) -> Grid {
        Grid { width: self.volume.bands, height: 1, levels: self.tl }
    }

    /// The window.
    pub open spec fn selection(self) -> Selection {
        Selection { segment: None, skip: None, window: Some(self.window) }
    }

    /// Number of subbands.
    pub open spec fn count(self) -> int {
        subband_count(self.ts as int, self.tl as int)
    }

    /// Subband `s`.
    pub open spec fn subband(self, s: int) -> Subband3d {
        subband_at(self.ts as int, self.tl as int, s)
    }

    /// The coefficients of subband `s`.
    pub open spec fn members(self, s: int) -> SubbandMembers {
        SubbandMembers {
            spatial: unit_patch(self.grid(), self.selection(), self.subband(s).spatial),
            spectral: unit_patch(
                self.line(),
                crate::scan::everything(),
                self.subband(s).spectral,
            ),
        }
    }

    /// Priority of bit plane 0 of subband `s`.
    pub open spec fn base(self, s: int) -> int {
        self.subband(s).base(self.ts as int, self.tl as int)
    }

    /// The buffer can be addressed, and the stages are those of a cube.
    pub open spec fn ok(self) -> bool {
        self.volume.ok() && self.ts <= 31 && self.tl <= 63 && can_step(self.tl as int)
    }

    /// Coefficient `i` is coded.
    pub open spec fn covers(self, i: int) -> bool {
        in_scope(self.grid(), self.selection(), i % self.volume.area())
    }
}

pub proof fn lemma_members_inside(lay: Layout, s: int)
    requires
        lay.ok(),
        0 <= s < lay.count(),
    ensures
        lay.members(s).inside(lay.volume),
        0 <= lay.members(s).spatial.size(),
        lay.members(s).size() <= lay.volume.count(),
{
    lay.volume.lemma_area();
    lemma_subband_at(lay.ts as int, lay.tl as int, s);
    let m = lay.members(s);
    let v = lay.volume;
    crate::readback_priority::lemma_unit_patch_inside(
        lay.grid(),
        lay.selection(),
        lay.subband(s).spatial,
    );
    assert(lay.line().area() == v.bands);
    lemma_can_step(lay.subband(s).spectral.level as int, lay.tl as int);
    crate::readback_priority::lemma_unit_patch_inside(
        lay.line(),
        crate::scan::everything(),
        lay.subband(s).spectral,
    );
    lemma_one_row(lay, s);
    assert(m.spectral.columns <= v.bands) by {
        if m.spectral.columns > 0 {
            assert(m.spectral.columns * m.spectral.rows == m.spectral.columns) by (nonlinear_arith)
                requires
                    m.spectral.rows == 1,
            ;
        }
    }
    assert(m.spatial.size() * m.spectral.columns <= v.area() * v.bands) by (nonlinear_arith)
        requires
            0 <= m.spatial.size() <= v.area(),
            0 <= m.spectral.columns <= v.bands,
    ;
}

/// The places along a spectrum make up one row.
pub proof fn lemma_one_row(lay: Layout, s: int)
    requires
        lay.ok(),
        0 <= s < lay.count(),
    ensures
        lay.members(s).spectral.columns > 0 ==> lay.members(s).spectral.rows == 1,
        lay.members(s).spectral.columns > 0 ==> lay.members(s).spectral.y0 == 0,
{
    lemma_subband_at(lay.ts as int, lay.tl as int, s);
    let b = lay.subband(s).spectral;
    let step = pow2(b.level as nat) as int;
    vstd::arithmetic::power2::lemma_pow2_pos(b.level as nat);
    let y = crate::bitplane::first_from(crate::priority::first_row(b), step, 0);
    assert(y == 0) by {
        vstd::arithmetic::div_mod::lemma_small_mod(0, step as nat);
    }
    assert(crate::priority::lattice_count(0, step, 1) == 1) by {
        vstd::arithmetic::div_mod::lemma_div_by_self(step);
    }
}

/// A buffer that can be addressed has few stages.
pub proof fn lemma_few_stages(v: Volume, levels: u8)
    requires
        v.ok(),
    ensures
        0 <= v.spatial_stages(levels as int) <= 31,
        0 <= v.spectral_stages(levels as int) <= 63,
        can_step(v.spectral_stages(levels as int)),
{
    v.lemma_area();
    let n = shorter(v.width as int, v.height as int);
    assert(n <= 0xFFFF_FFFF) by (nonlinear_arith)
        requires
            n <= v.width,
            n <= v.height,
            v.width * v.height <= 0xFFFF_FFFF_FFFF_FFFF,
    ;
    vstd::arithmetic::power2::lemma2_to64();
    lemma_stages_bound(n, levels as int, 31);
    vstd::arithmetic::power2::lemma_pow2_unfold(64);
    lemma_stages_bound(v.bands as int, levels as int, 63);
    lemma_stages(n, levels as int);
    lemma_stages(v.bands as int, levels as int);
    if v.spectral_stages(levels as int) > 0 {
        lemma_stages_inside(v.bands as int, levels as int);
    }
}

/// Geometry of what is coded of a cube: its sizes, its stages, and its
/// subbands with their coefficients.
pub struct CubeGeometry {
    /// Columns of the coefficient buffer.
    pub width: usize,
    /// Rows of the coefficient buffer.
    pub height: usize,
    /// Number of spectral bands.
    pub bands: usize,
    /// Stages in the spatial directions.
    pub ts: u8,
    /// Stages in the spectral direction.
    pub tl: u8,
    /// The subbands.
    pub subbands: Vec<Subband3d>,
    /// Their coefficients.
    pub members: Vec<SubbandMembers>,
    /// The window that is coded.
    pub window: (usize, usize, usize, usize),
}

impl CubeGeometry {
    /// What the geometry stands for.
    pub open spec fn layout(self) -> Layout {
        Layout {
            volume: Volume { width: self.width, height: self.height, bands: self.bands },
            ts: self.ts,
            tl: self.tl,
            window: self.window,
        }
    }

    /// The subbands and their coefficients are those of the stages.
    pub open spec fn wf(self) -> bool {
        &&& self.layout().ok()
        &&& self.subbands@.len() == self.layout().count()
        &&& self.members@.len() == self.layout().count()
        &&& forall|s: int|
            0 <= s < self.layout().count() ==> #[trigger] self.subbands@[s]
                == self.layout().subband(s)
        &&& forall|s: int|
            0 <= s < self.layout().count() ==> #[trigger] self.members@[s]
                == self.layout().members(s)
    }

    /// Geometry of a whole cube.
    pub fn new(width: usize, height: usize, bands: usize, levels: u8) -> (g: Self)
        requires
            (Volume { width, height, bands }).ok(),
        ensures
            g.wf(),
            g.layout() == whole_layout(Volume { width, height, bands }, levels as int),
    {
        Self::with_window(width, height, bands, levels, (0, width, 0, height))
    }

    /// Geometry of a window of a cube. The stages are those of the whole cube.
    pub fn with_window(
        width: usize,
        height: usize,
        bands: usize,
        levels: u8,
        window: (usize, usize, usize, usize),
    ) -> (g: Self)
        requires
            (Volume { width, height, bands }).ok(),
        ensures
            g.wf(),
            g.layout() == window_layout(Volume { width, height, bands }, levels as int, window),
    {
        let (ts, tl): (u8, u8) = stage_counts(width, height, bands, levels);
        proof {
            lemma_few_stages(Volume { width, height, bands }, levels);
        }
        let subbands = enumerate_subbands(ts, tl);
        let v = Volume { width, height, bands };
        let ghost lay = window_layout(v, levels as int, window);
        let grid = Grid { width, height, levels: ts };
        let line = Grid { width: bands, height: 1, levels: tl };
        let filter = ScanFilter { segment: None, skip: None, window: Some(window) };
        let all = ScanFilter::all();
        assert(filter@ == lay.selection());
        let mut members: Vec<SubbandMembers> = Vec::new();
        let mut s: usize = 0;
        while s < subbands.len()
            invariant
                s <= subbands@.len(),
                subbands@.len() == lay.count(),
                forall|j: int| 0 <= j < subbands@.len() ==> #[trigger] subbands@[j]
                    == lay.subband(j),
                lay.ok(),
                grid == lay.grid(),
                line == lay.line(),
                filter@ == lay.selection(),
                all@ == crate::scan::everything(),
                members@.len() == s,
                forall|j: int| 0 <= j < s ==> #[trigger] members@[j] == lay.members(j),
            decreases subbands@.len() - s,
        {
            let b = subbands[s];
            proof {
                lemma_subband_at(lay.ts as int, lay.tl as int, s as int);
                lemma_can_step(lay.subband(s as int).spectral.level as int, lay.tl as int);
            }
            let spatial = unit_window(grid, &filter, b.spatial);
            let spectral = unit_window(line, &all, b.spectral);
            members.push(SubbandMembers { spatial, spectral });
            s = s + 1;
        }
        CubeGeometry { width, height, bands, ts, tl, subbands, members, window }
    }

    /// Number of samples in the coefficient buffer.
    pub fn volume(&self) -> (n: usize)
        requires
            self.layout().ok(),
        ensures
            n == self.layout().volume.count(),
    {
        proof {
            self.layout().volume.lemma_area();
        }
        self.width * self.height * self.bands
    }
}

/// The layout of a window of a cube.
pub open spec fn window_layout(v: Volume, levels: int, window: (usize, usize, usize, usize)) -> Layout {
    Layout {
        volume: v,
        ts: v.spatial_stages(levels) as u8,
        tl: v.spectral_stages(levels) as u8,
        window,
    }
}

/// The layout of a whole cube.
pub open spec fn whole_layout(v: Volume, levels: int) -> Layout {
    window_layout(v, levels, (0, v.width, 0, v.height))
}

// ---------------------------------------------------------------------------
// Numbers of bit planes
// ---------------------------------------------------------------------------

/// The smallest number of bit planes from `q` to 30 that holds every
/// magnitude; 30 where there is none.
pub open spec fn cube_planes_from(coeffs: Seq<i32>, q: int) -> int
    decreases 30 - q,
{
    if q >= 30 || fits_planes(coeffs, q) {
        q
    } else {
        cube_planes_from(coeffs, q + 1)
    }
}

/// Every magnitude that is coded is below `2^q`.
pub open spec fn covered_fit(lay: Layout, coeffs: Seq<i32>, q: int) -> bool {
    forall|i: int|
        0 <= i < coeffs.len() && lay.covers(i) ==> magnitude_of(#[trigger] coeffs[i]) < pow2(
            q as nat,
        )
}

/// The smallest number of bit planes from `q` to 30 that holds every magnitude
/// that is coded; 30 where there is none.
pub open spec fn covered_planes_from(lay: Layout, coeffs: Seq<i32>, q: int) -> int
    decreases 30 - q,
{
    if q >= 30 || covered_fit(lay, coeffs, q) {
        q
    } else {
        covered_planes_from(lay, coeffs, q + 1)
    }
}

/// The smallest number of bits up to 30 that holds `m`; 30 where there is
/// none.
fn bits_needed(m: u32) -> (q: u8)
    ensures
        q <= 30,
        q < 30 ==> m < pow2(q as nat),
        q > 0 ==> m >= pow2((q - 1) as nat),
{
    proof {
        vstd::arithmetic::power2::lemma2_to64();
    }
    if m == 0 {
        return 0;
    }
    let q: u8 = bits_for(m);
    if q > 30 {
        proof {
            vstd::arithmetic::power2::lemma_pow2_strictly_increases(29, 30);
        }
        30
    } else {
        q
    }
}

proof fn lemma_cube_planes(coeffs: Seq<i32>, top: u32, q: u8, p: int)
    requires
        forall|k: int| 0 <= k < coeffs.len() ==> magnitude_of(#[trigger] coeffs[k]) <= top,
        top > 0 ==> exists|k: int|
            0 <= k < coeffs.len() && magnitude_of(#[trigger] coeffs[k]) == top,
        0 <= p <= q <= 30,
        q < 30 ==> top < pow2(q as nat),
        q > 0 ==> top >= pow2((q - 1) as nat),
    ensures
        cube_planes_from(coeffs, p) == q,
    decreases q - p,
{
    if q < 30 {
        assert(fits_planes(coeffs, q as int));
    }
    if p < q {
        vstd::arithmetic::power2::lemma_pow2_pos((q - 1) as nat);
        let k = choose|k: int| 0 <= k < coeffs.len() && magnitude_of(#[trigger] coeffs[k]) == top;
        if p < q - 1 {
            vstd::arithmetic::power2::lemma_pow2_strictly_increases(p as nat, (q - 1) as nat);
        }
        assert(magnitude_of(coeffs[k]) >= pow2(p as nat));
        assert(!fits_planes(coeffs, p));
        lemma_cube_planes(coeffs, top, q, p + 1);
    }
}

proof fn lemma_covered_planes(lay: Layout, coeffs: Seq<i32>, top: u32, q: u8, p: int)
    requires
        forall|k: int|
            0 <= k < coeffs.len() && lay.covers(k) ==> magnitude_of(#[trigger] coeffs[k]) <= top,
        top > 0 ==> exists|k: int|
            0 <= k < coeffs.len() && lay.covers(k) && magnitude_of(#[trigger] coeffs[k]) == top,
        0 <= p <= q <= 30,
        q < 30 ==> top < pow2(q as nat),
        q > 0 ==> top >= pow2((q - 1) as nat),
    ensures
        covered_planes_from(lay, coeffs, p) == q,
    decreases q - p,
{
    if q < 30 {
        assert(covered_fit(lay, coeffs, q as int));
    }
    if p < q {
        vstd::arithmetic::power2::lemma_pow2_pos((q - 1) as nat);
        let k = choose|k: int|
            0 <= k < coeffs.len() && lay.covers(k) && magnitude_of(#[trigger] coeffs[k]) == top;
        if p < q - 1 {
            vstd::arithmetic::power2::lemma_pow2_strictly_increases(p as nat, (q - 1) as nat);
        }
        assert(magnitude_of(coeffs[k]) >= pow2(p as nat));
        assert(!covered_fit(lay, coeffs, p));
        lemma_covered_planes(lay, coeffs, top, q, p + 1);
    }
}

impl CubeGeometry {
    /// The smallest number of bit planes up to 30 that holds every magnitude;
    /// 30 where there is none.
    pub fn bit_planes_needed(coeffs: &[i32]) -> (q: u8)
        ensures
            q == cube_planes_from(coeffs@, 0),
            q <= 30,
    {
        let mut top: u32 = 0;
        let mut i: usize = 0;
        while i < coeffs.len()
            invariant
                i <= coeffs@.len(),
                forall|k: int| 0 <= k < i ==> magnitude_of(#[trigger] coeffs@[k]) <= top,
                top > 0 ==> exists|k: int|
                    0 <= k < i && magnitude_of(#[trigger] coeffs@[k]) == top,
            decreases coeffs@.len() - i,
        {
            let m: u32 = magnitude(coeffs[i]);
            assert(magnitude_of(coeffs@[i as int]) == m);
            if m > top {
                top = m;
            }
            i = i + 1;
        }
        let q: u8 = bits_needed(top);
        proof {
            lemma_cube_planes(coeffs@, top, q, 0);
        }
        q
    }

    /// Whether coefficient `i` is coded.
    pub(crate) fn codes(&self, i: usize) -> (b: bool)
        requires
            self.wf(),
            i < self.layout().volume.count(),
        ensures
            b == self.layout().covers(i as int),
    {
        proof {
            self.layout().volume.lemma_area();
        }
        let area: usize = self.width * self.height;
        let pos: usize = i % area;
        let x: usize = pos % self.width;
        let y: usize = pos / self.width;
        let filter = ScanFilter { segment: None, skip: None, window: Some(self.window) };
        assert(filter@ == self.layout().selection());
        let (x0, x1, y0, y1) = filter.bounds(self.width, self.height);
        x0 <= x && x < x1 && y0 <= y && y < y1
    }

    /// The smallest number of bit planes up to 30 that holds every magnitude
    /// that is coded; 30 where there is none.
    pub fn member_bit_planes_needed(&self, coeffs: &[i32]) -> (q: u8)
        requires
            self.wf(),
            coeffs@.len() == self.layout().volume.count(),
        ensures
            q == covered_planes_from(self.layout(), coeffs@, 0),
            q <= 30,
    {
        let ghost lay = self.layout();
        let mut top: u32 = 0;
        let mut i: usize = 0;
        while i < coeffs.len()
            invariant
                i <= coeffs@.len(),
                self.wf(),
                lay == self.layout(),
                coeffs@.len() == lay.volume.count(),
                forall|k: int|
                    0 <= k < i && lay.covers(k) ==> magnitude_of(#[trigger] coeffs@[k]) <= top,
                top > 0 ==> exists|k: int|
                    0 <= k < i && lay.covers(k) && magnitude_of(#[trigger] coeffs@[k]) == top,
            decreases coeffs@.len() - i,
        {
            if self.codes(i) {
                let m: u32 = magnitude(coeffs[i]);
                assert(magnitude_of(coeffs@[i as int]) == m);
                if m > top {
                    top = m;
                }
            }
            i = i + 1;
        }
        let q: u8 = bits_needed(top);
        proof {
            lemma_covered_planes(lay, coeffs@, top, q, 0);
        }
        q
    }
}

// ---------------------------------------------------------------------------
// What both sides know
// ---------------------------------------------------------------------------

/// What the encoder and the decoder know: the signs that were coded, the
/// categories, and the counts of the contexts.
pub struct Known {
    /// Signs, `true` for a negative coefficient; `false` where none was coded.
    pub neg: Seq<bool>,
    /// Categories.
    pub cat: Seq<u8>,
    /// Counts of the contexts.
    pub model: Seq<(u32, u32)>,
}

/// Nothing is known of `n` coefficients.
pub open spec fn nothing_known(n: int) -> Known {
    Known {
        neg: Seq::new(n as nat, |i: int| false),
        cat: Seq::new(n as nat, |i: int| 0u8),
        model: fresh_counts(CONTEXT_COUNT_3D as nat),
    }
}

impl Known {
    /// Category of a neighbour; 0 where there is none.
    pub open spec fn category(self, i: Option<int>) -> u8 {
        match i {
            Some(j) => self.cat[j],
            None => 0,
        }
    }

    /// Sign of a neighbour; it is known once the neighbour has a coded one.
    pub open spec fn sign(self, i: Option<int>) -> NeighbourSign {
        match i {
            Some(j) => if self.cat[j] >= 1 {
                if self.neg[j] {
                    NeighbourSign::Negative
                } else {
                    NeighbourSign::Positive
                }
            } else {
                NeighbourSign::Unknown
            },
            None => NeighbourSign::Unknown,
        }
    }

    /// Context of a magnitude bit of coefficient `i`.
    pub open spec fn magnitude_context(self, i: int, before: Option<int>, after: Option<int>) -> int {
        category_context(self.cat[i], self.category(before), self.category(after))
    }
}

/// The category of a coefficient after a magnitude bit.
pub open spec fn advanced(cat: u8, bit: u8) -> u8 {
    if cat == 0 {
        if bit == 1 {
            1
        } else {
            0
        }
    } else if cat == 1 {
        2
    } else if cat == 2 {
        3
    } else {
        cat
    }
}

/// Probability of a magnitude bit: that of its context, and one half in
/// category 3.
pub open spec fn magnitude_odds(k: Known, i: int, before: Option<int>, after: Option<int>) -> (u32, u32) {
    if k.cat[i] <= 2 {
        k.model[k.magnitude_context(i, before, after)]
    } else {
        UNCODED_P1
    }
}

/// What is known after magnitude bit `bit` of coefficient `i`.
pub open spec fn bit_noted(k: Known, i: int, before: Option<int>, after: Option<int>, bit: u8) -> Known {
    Known {
        neg: k.neg,
        cat: k.cat.update(i, advanced(k.cat[i], bit)),
        model: if k.cat[i] <= 2 {
            observed(k.model, k.magnitude_context(i, before, after), bit)
        } else {
            k.model
        },
    }
}

/// What is known after the sign of coefficient `i`, which was coded as `coded`
/// in context `ctx`.
pub open spec fn sign_noted(k: Known, i: int, ctx: usize, coded: u8, negative: bool) -> Known {
    Known {
        neg: k.neg.update(i, negative),
        cat: k.cat,
        model: observed(k.model, ctx as int, coded),
    }
}

/// Categories, signs and contexts of a running coder.
pub struct CoderState {
    neg: Vec<bool>,
    cat: Vec<u8>,
    model: ContextModel,
}

impl View for CoderState {
    type V = Known;

    closed spec fn view(&self) -> Known {
        Known { neg: self.neg@, cat: self.cat@, model: self.model@ }
    }
}

impl CoderState {
    /// There is an entry for each of `n` coefficients and for each context.
    pub closed spec fn wf(self, n: int) -> bool {
        &&& self.neg@.len() == n
        &&& self.cat@.len() == n
        &&& self.model.wf()
        &&& self.model@.len() == CONTEXT_COUNT_3D
    }

    fn new(n: usize) -> (s: Self)
        ensures
            s.wf(n as int),
            s@ == nothing_known(n as int),
    {
        let neg: Vec<bool> = repeated(false, n);
        let cat: Vec<u8> = repeated(0u8, n);
        let s = CoderState { neg, cat, model: new_model() };
        assert(s@.neg =~= nothing_known(n as int).neg);
        assert(s@.cat =~= nothing_known(n as int).cat);
        s
    }

    fn neighbour_category(&self, i: Option<usize>, Ghost(n): Ghost<int>) -> (c: u8)
        requires
            self.wf(n),
            i matches Some(j) ==> j < n,
        ensures
            c == self@.category(as_place(i)),
    {
        match i {
            Some(j) => self.cat[j],
            None => 0,
        }
    }

    fn neighbour_sign(&self, i: Option<usize>, Ghost(n): Ghost<int>) -> (s: NeighbourSign)
        requires
            self.wf(n),
            i matches Some(j) ==> j < n,
        ensures
            s == self@.sign(as_place(i)),
    {
        match i {
            Some(j) => if self.cat[j] >= 1 {
                if self.neg[j] {
                    NeighbourSign::Negative
                } else {
                    NeighbourSign::Positive
                }
            } else {
                NeighbourSign::Unknown
            },
            None => NeighbourSign::Unknown,
        }
    }

    /// Context of the next magnitude bit of coefficient `i`; none in category
    /// 3.
    fn context(&self, i: usize, before: Option<usize>, after: Option<usize>, Ghost(n): Ghost<int>) -> (r:
        Option<usize>)
        requires
            self.wf(n),
            i < n,
            before matches Some(j) ==> j < n,
            after matches Some(j) ==> j < n,
        ensures
            r is Some <==> self@.cat[i as int] <= 2,
            r matches Some(ctx) ==> ctx == self@.magnitude_context(
                i as int,
                as_place(before),
                as_place(after),
            ) && ctx < CONTEXT_COUNT_3D,
    {
        let cat: u8 = self.cat[i];
        if cat > 2 {
            return None;
        }
        let cm: u8 = self.neighbour_category(before, Ghost(n));
        let cp: u8 = self.neighbour_category(after, Ghost(n));
        if cat == 0 {
            Some(category0_context(cm, cp))
        } else if cat == 1 {
            Some(category1_context(cm, cp))
        } else {
            Some(category2_context(cm, cp))
        }
    }

    /// Probability of the next magnitude bit.
    fn odds(&self, ctx: Option<usize>, Ghost(n): Ghost<int>) -> (p: (u32, u32))
        requires
            self.wf(n),
            ctx matches Some(c) ==> c < CONTEXT_COUNT_3D,
        ensures
            p == (match ctx {
                Some(c) => self@.model[c as int],
                None => UNCODED_P1,
            }),
    {
        match ctx {
            Some(c) => self.model.probability(c),
            None => UNCODED_P1,
        }
    }

    /// Take note of a magnitude bit.
    fn note_bit(
        &mut self,
        i: usize,
        ctx: Option<usize>,
        bit: u8,
        Ghost(n): Ghost<int>,
        Ghost(before): Ghost<Option<int>>,
        Ghost(after): Ghost<Option<int>>,
    )
        requires
            old(self).wf(n),
            i < n,
            bit <= 1,
            ctx is Some <==> old(self)@.cat[i as int] <= 2,
            ctx matches Some(c) ==> c < CONTEXT_COUNT_3D && c == old(self)@.magnitude_context(
                i as int,
                before,
                after,
            ),
        ensures
            final(self).wf(n),
            final(self)@ == bit_noted(old(self)@, i as int, before, after, bit),
    {
        if let Some(c) = ctx {
            self.model.observe(c, bit);
        }
        let cat: u8 = self.cat[i];
        let next: u8 = if cat == 0 {
            if bit == 1 {
                1
            } else {
                0
            }
        } else if cat == 1 {
            2
        } else if cat == 2 {
            3
        } else {
            cat
        };
        self.cat.set(i, next);
    }
}

/// A position as a number without bounds.
pub open spec fn as_place(i: Option<usize>) -> Option<int> {
    match i {
        Some(j) => Some(j as int),
        None => None,
    }
}

// ---------------------------------------------------------------------------
// Encoding
// ---------------------------------------------------------------------------

/// The encoder on its way through a packet.
pub struct Speech {
    /// What is known.
    pub known: Known,
    /// The decisions that were coded.
    pub log: Seq<Decision>,
}

/// The encoder after bit `b` of coefficient `i`, whose value is `c`.
pub open spec fn say(c: i32, b: u8, s: Speech, i: int, before: Option<int>, after: Option<int>) -> Speech {
    let bit = bit_at(magnitude_of(c), b as u32);
    let known = bit_noted(s.known, i, before, after, bit);
    let log = s.log.push(decision(bit, magnitude_odds(s.known, i, before, after)));
    if s.known.cat[i] == 0 && bit == 1 {
        let (predicted, ctx) = sign_rule(s.known.sign(before), s.known.sign(after));
        let coded = flag(predicted != (c < 0));
        Speech {
            known: sign_noted(known, i, ctx, coded, c < 0),
            log: log.push(decision(coded, known.model[ctx as int])),
        }
    } else {
        Speech { known, log }
    }
}

/// The encoder after the first `k` coefficients of a bit plane of a subband.
pub open spec fn plane_said(
    v: Volume,
    m: SubbandMembers,
    coeffs: Seq<i32>,
    b: u8,
    s: Speech,
    k: int,
) -> Speech
    decreases k,
{
    if k <= 0 {
        s
    } else {
        let i = m.place(v, k - 1);
        say(
            coeffs[i],
            b,
            plane_said(v, m, coeffs, b, s, k - 1),
            i,
            m.before(v, k - 1),
            m.after(v, k - 1),
        )
    }
}

/// The encoder after the bit planes with priority `p` of the `j` subbands with
/// the highest numbers.
pub open spec fn group_said(lay: Layout, coeffs: Seq<i32>, q: int, p: int, s: Speech, j: int) -> Speech
    decreases j,
{
    if j <= 0 {
        s
    } else {
        let before = group_said(lay, coeffs, q, p, s, j - 1);
        let n = lay.count() - j;
        match plane_with(lay.base(n), q, p) {
            Some(b) => plane_said(
                lay.volume,
                lay.members(n),
                coeffs,
                b,
                before,
                lay.members(n).size(),
            ),
            None => before,
        }
    }
}

/// Some subband has a bit plane with priority `p`.
pub open spec fn in_use(lay: Layout, q: int, p: int) -> bool {
    exists|n: int| 0 <= n < lay.count() && (#[trigger] plane_with(lay.base(n), q, p)) is Some
}

/// A packet of a cube.
#[derive(Debug, Clone)]
pub struct CubePacket {
    /// Priority of the bit planes in the packet.
    pub priority: u8,
    /// Coded bits.
    pub body: Vec<u8>,
}

/// What a packet holds.
pub struct CodedGroup {
    /// Priority of the bit planes in the packet.
    pub priority: u8,
    /// Coded bits.
    pub body: Seq<u8>,
}

impl View for CubePacket {
    type V = CodedGroup;

    open spec fn view(&self) -> CodedGroup {
        CodedGroup { priority: self.priority, body: self.body@ }
    }
}

/// What packets hold.
pub open spec fn cube_packets(v: Seq<CubePacket>) -> Seq<CodedGroup> {
    Seq::new(v.len(), |i: int| v[i]@)
}

/// Largest priority of a bit plane.
pub const TOP_PRIORITY: u8 = 190;

/// The encoder between packets.
pub struct CubeCoding {
    /// What is known.
    pub known: Known,
    /// The packets so far.
    pub packets: Seq<CodedGroup>,
}

/// The encoder after all bit planes with priority `p` and more, where those
/// below `floor` are left out.
pub open spec fn cube_said(
    lay: Layout,
    coeffs: Seq<i32>,
    kind: EntropyKind,
    q: int,
    floor: int,
    p: int,
) -> CubeCoding
    decreases TOP_PRIORITY + 1 - p,
{
    if p > TOP_PRIORITY {
        CubeCoding { known: nothing_known(lay.volume.count()), packets: Seq::empty() }
    } else {
        let before = cube_said(lay, coeffs, kind, q, floor, p + 1);
        if p < floor || !in_use(lay, q, p) {
            before
        } else {
            let s = group_said(
                lay,
                coeffs,
                q,
                p,
                (Speech { known: before.known, log: Seq::empty() }),
                lay.count(),
            );
            CubeCoding {
                known: s.known,
                packets: before.packets.push(
                    CodedGroup { priority: p as u8, body: encoded(kind, s.log) },
                ),
            }
        }
    }
}

/// The packets of a cube.
pub open spec fn cube_coded(
    lay: Layout,
    coeffs: Seq<i32>,
    kind: EntropyKind,
    q: int,
    floor: int,
) -> Seq<CodedGroup> {
    cube_said(lay, coeffs, kind, q, floor, 0).packets
}

/// Code bit `b` of a coefficient, and its sign where it is due.
fn put_place<S: BitSink>(
    state: &mut CoderState,
    sink: &mut S,
    c: i32,
    b: u8,
    i: usize,
    before: Option<usize>,
    after: Option<usize>,
    Ghost(n): Ghost<int>,
)
    requires
        old(state).wf(n),
        old(sink).wf(),
        b < 32,
        i < n,
        before matches Some(j) ==> j < n,
        after matches Some(j) ==> j < n,
        as_place(before) != Some(i as int),
        as_place(after) != Some(i as int),
    ensures
        final(state).wf(n),
        final(sink).wf(),
        final(sink).kind() == old(sink).kind(),
        (Speech { known: final(state)@, log: final(sink).log() }) == say(
            c,
            b,
            (Speech { known: old(state)@, log: old(sink).log() }),
            i as int,
            as_place(before),
            as_place(after),
        ),
{
    let bit: u8 = get_bit_at(magnitude(c), b as u32);
    let ctx = state.context(i, before, after, Ghost(n));
    let fresh: bool = state.cat[i] == 0;
    let (num, den) = state.odds(ctx, Ghost(n));
    sink.put_bit(bit, num, den);
    let sm = state.neighbour_sign(before, Ghost(n));
    let sp = state.neighbour_sign(after, Ghost(n));
    state.note_bit(i, ctx, bit, Ghost(n), Ghost(as_place(before)), Ghost(as_place(after)));
    if fresh && bit == 1 {
        let (predicted, sctx) = sign_prediction_and_context(sm, sp);
        let negative: bool = c < 0;
        let coded: u8 = if predicted != negative {
            1
        } else {
            0
        };
        let (num, den) = state.model.probability(sctx);
        sink.put_bit(coded, num, den);
        state.model.observe(sctx, coded);
        state.neg.set(i, negative);
    }
}

/// Code a bit plane of a subband.
fn encode_subband_plane<S: BitSink>(
    v: &Volume,
    m: &SubbandMembers,
    b: u8,
    coeffs: &[i32],
    state: &mut CoderState,
    sink: &mut S,
)
    requires
        m.inside(*v),
        m.size() <= v.count(),
        b < 32,
        coeffs@.len() == v.count(),
        old(state).wf(v.count()),
        old(sink).wf(),
    ensures
        final(state).wf(v.count()),
        final(sink).wf(),
        final(sink).kind() == old(sink).kind(),
        (Speech { known: final(state)@, log: final(sink).log() }) == plane_said(
            *v,
            *m,
            coeffs@,
            b,
            (Speech { known: old(state)@, log: old(sink).log() }),
            m.size(),
        ),
{
    let ghost start = Speech { known: state@, log: sink.log() };
    let ghost kind = sink.kind();
    proof {
        v.lemma_area();
    }
    let size: usize = m.spatial.columns * m.spatial.rows * m.spectral.columns;
    let mut k: usize = 0;
    while k < size
        invariant
            k <= size,
            size == m.size(),
            m.inside(*v),
            b < 32,
            coeffs@.len() == v.count(),
            state.wf(v.count()),
            sink.wf(),
            sink.kind() == kind,
            (Speech { known: state@, log: sink.log() }) == plane_said(
                *v,
                *m,
                coeffs@,
                b,
                start,
                k as int,
            ),
        decreases size - k,
    {
        proof {
            m.lemma_inside(*v, k as int);
        }
        let (i, before, after) = m.locate(v, k);
        assert(as_place(before) == m.before(*v, k as int));
        assert(as_place(after) == m.after(*v, k as int));
        put_place(state, sink, coeffs[i], b, i, before, after, Ghost(v.count()));
        k = k + 1;
    }
}

impl CubeGeometry {
    /// Whether some subband has a bit plane with priority `p`.
    fn uses(&self, q: u8, p: u8) -> (b: bool)
        requires
            self.wf(),
        ensures
            b == in_use(self.layout(), q as int, p as int),
    {
        let ghost lay = self.layout();
        let mut n: usize = 0;
        while n < self.subbands.len()
            invariant
                n <= self.subbands@.len(),
                self.wf(),
                lay == self.layout(),
                forall|j: int|
                    0 <= j < n ==> (#[trigger] plane_with(lay.base(j), q as int, p as int)) is None,
            decreases self.subbands@.len() - n,
        {
            proof {
                lemma_subband_at(lay.ts as int, lay.tl as int, n as int);
            }
            let base: u8 = self.subbands[n].base_priority(self.ts, self.tl);
            if plane_with_priority(base, q, p).is_some() {
                assert(plane_with(lay.base(n as int), q as int, p as int) is Some);
                return true;
            }
            n = n + 1;
        }
        false
    }
}

/// Code the bit planes of a cube, those with the highest priority first. Bit
/// planes whose priority is below `min_priority` are left out.
pub fn encode_cube_bitplanes(
    geom: &CubeGeometry,
    coeffs: &[i32],
    q: u8,
    min_priority: u8,
    kind: EntropyKind,
) -> (packets: Vec<CubePacket>)
    requires
        geom.wf(),
        coeffs@.len() == geom.layout().volume.count(),
        q <= 32,
    ensures
        cube_packets(packets@) == cube_coded(
            geom.layout(),
            coeffs@,
            kind,
            q as int,
            min_priority as int,
        ),
{
    let ghost lay = geom.layout();
    let v = Volume { width: geom.width, height: geom.height, bands: geom.bands };
    let volume: usize = geom.volume();
    let mut state = CoderState::new(volume);
    let mut packets: Vec<CubePacket> = Vec::new();
    let mut p: u8 = TOP_PRIORITY + 1;
    assert(cube_packets(packets@) =~= Seq::empty());
    while p > 0
        invariant
            p <= TOP_PRIORITY + 1,
            geom.wf(),
            lay == geom.layout(),
            v == lay.volume,
            coeffs@.len() == v.count(),
            q <= 32,
            state.wf(v.count()),
            (CubeCoding { known: state@, packets: cube_packets(packets@) }) == cube_said(
                lay,
                coeffs@,
                kind,
                q as int,
                min_priority as int,
                p as int,
            ),
        decreases p,
    {
        p = p - 1;
        if p >= min_priority && geom.uses(q, p) {
            let mut sink = kind.make_sink();
            let ghost start = Speech { known: state@, log: Seq::<Decision>::empty() };
            let mut n: usize = geom.subbands.len();
            while n > 0
                invariant
                    n <= lay.count(),
                    geom.wf(),
                    lay == geom.layout(),
                    v == lay.volume,
                    coeffs@.len() == v.count(),
                    q <= 32,
                    state.wf(v.count()),
                    sink.wf(),
                    sink.kind() == kind,
                    (Speech { known: state@, log: sink.log() }) == group_said(
                        lay,
                        coeffs@,
                        q as int,
                        p as int,
                        start,
                        lay.count() - n,
                    ),
                decreases n,
            {
                n = n - 1;
                proof {
                    lemma_subband_at(lay.ts as int, lay.tl as int, n as int);
                    lemma_members_inside(lay, n as int);
                }
                let base: u8 = geom.subbands[n].base_priority(geom.ts, geom.tl);
                if let Some(b) = plane_with_priority(base, q, p) {
                    encode_subband_plane(
                        &v,
                        &geom.members[n],
                        b,
                        coeffs,
                        &mut state,
                        &mut sink,
                    );
                }
            }
            let body = sink.finish_bits();
            let packet = CubePacket { priority: p, body };
            let ghost old_packets = packets@;
            packets.push(packet);
            assert(cube_packets(packets@) =~= cube_packets(old_packets).push(packet@));
        }
    }
    packets
}

// ---------------------------------------------------------------------------
// Decoding
// ---------------------------------------------------------------------------

/// The decoder on its way through a packet.
pub struct Listening {
    /// What is known.
    pub known: Known,
    /// Magnitude bits that have arrived.
    pub mag: Seq<u32>,
    /// The lowest bit that has arrived; the number of bit planes where none
    /// has.
    pub last: Seq<u8>,
    /// The probabilities that the source was asked with.
    pub asked: Seq<(u32, u32)>,
}

/// The decoder after bit `b` of coefficient `i`.
pub open spec fn listen(
    kind: EntropyKind,
    bytes: Seq<u8>,
    b: u8,
    d: Listening,
    i: int,
    before: Option<int>,
    after: Option<int>,
) -> Listening {
    let odds = magnitude_odds(d.known, i, before, after);
    let bit = decoded(kind, bytes, d.asked, odds.0, odds.1);
    let known = bit_noted(d.known, i, before, after, bit);
    let mag = d.mag.update(i, with_bit(d.mag[i], b as u32, bit));
    let last = d.last.update(i, b);
    let asked = d.asked.push(odds);
    if d.known.cat[i] == 0 && bit == 1 {
        let (predicted, ctx) = sign_rule(d.known.sign(before), d.known.sign(after));
        let odds = known.model[ctx as int];
        let coded = decoded(kind, bytes, asked, odds.0, odds.1);
        Listening {
            known: sign_noted(known, i, ctx, coded, predicted != (coded == 1)),
            mag,
            last,
            asked: asked.push(odds),
        }
    } else {
        Listening { known, mag, last, asked }
    }
}

/// The decoder after the first `k` coefficients of a bit plane of a subband.
pub open spec fn plane_listened(
    kind: EntropyKind,
    bytes: Seq<u8>,
    v: Volume,
    m: SubbandMembers,
    b: u8,
    d: Listening,
    k: int,
) -> Listening
    decreases k,
{
    if k <= 0 {
        d
    } else {
        listen(
            kind,
            bytes,
            b,
            plane_listened(kind, bytes, v, m, b, d, k - 1),
            m.place(v, k - 1),
            m.before(v, k - 1),
            m.after(v, k - 1),
        )
    }
}

/// The decoder after the bit planes with priority `p` of the `j` subbands with
/// the highest numbers.
pub open spec fn group_listened(
    kind: EntropyKind,
    bytes: Seq<u8>,
    lay: Layout,
    q: int,
    p: int,
    d: Listening,
    j: int,
) -> Listening
    decreases j,
{
    if j <= 0 {
        d
    } else {
        let before = group_listened(kind, bytes, lay, q, p, d, j - 1);
        let n = lay.count() - j;
        match plane_with(lay.base(n), q, p) {
            Some(b) => plane_listened(
                kind,
                bytes,
                lay.volume,
                lay.members(n),
                b,
                before,
                lay.members(n).size(),
            ),
            None => before,
        }
    }
}

/// The decoder between packets.
pub struct CubeHearing {
    /// What has arrived.
    pub heard: Listening,
    /// Packets that were read.
    pub used: int,
    /// Nothing more is read.
    pub stopped: bool,
}

/// Nothing has arrived of `n` coefficients with `q` bit planes.
pub open spec fn nothing_heard(n: int, q: u8) -> Listening {
    Listening {
        known: nothing_known(n),
        mag: Seq::new(n as nat, |i: int| 0u32),
        last: Seq::new(n as nat, |i: int| q),
        asked: Seq::empty(),
    }
}

/// The decoder after all bit planes with priority `p` and more. It stops where
/// there is no packet for the next priority.
pub open spec fn cube_listened(
    lay: Layout,
    kind: EntropyKind,
    q: u8,
    packets: Seq<CodedGroup>,
    p: int,
) -> CubeHearing
    decreases TOP_PRIORITY + 1 - p,
{
    if p > TOP_PRIORITY {
        CubeHearing { heard: nothing_heard(lay.volume.count(), q), used: 0, stopped: false }
    } else {
        let before = cube_listened(lay, kind, q, packets, p + 1);
        if before.stopped || !in_use(lay, q as int, p) {
            before
        } else if before.used >= packets.len() || packets[before.used].priority != p {
            CubeHearing { stopped: true, ..before }
        } else {
            CubeHearing {
                heard: group_listened(
                    kind,
                    packets[before.used].body,
                    lay,
                    q as int,
                    p,
                    (Listening { asked: Seq::empty(), ..before.heard }),
                    lay.count(),
                ),
                used: before.used + 1,
                stopped: false,
            }
        }
    }
}

/// The coefficients of a cube after a number of packets: what has arrived
/// where they are coded, and what was there before elsewhere.
pub open spec fn cube_heard(
    lay: Layout,
    kind: EntropyKind,
    q: u8,
    packets: Seq<CodedGroup>,
    before: Seq<i32>,
) -> Seq<i32> {
    let d = cube_listened(lay, kind, q, packets, 0).heard;
    Seq::new(
        before.len(),
        |i: int|
            if lay.covers(i) {
                deadzone(d.mag[i], d.known.neg[i], d.last[i])
            } else {
                before[i]
            },
    )
}

/// What has arrived of a cube.
struct Heard {
    state: CoderState,
    mag: Vec<u32>,
    last: Vec<u8>,
}

impl Heard {
    spec fn wf(self, n: int) -> bool {
        &&& self.state.wf(n)
        &&& self.mag@.len() == n
        &&& self.last@.len() == n
        &&& forall|i: int| 0 <= i < n ==> #[trigger] self.last@[i] <= 31
    }

    spec fn with(self, asked: Seq<(u32, u32)>) -> Listening {
        Listening { known: self.state@, mag: self.mag@, last: self.last@, asked }
    }

    fn new(n: usize, q: u8) -> (h: Self)
        requires
            q <= 31,
        ensures
            h.wf(n as int),
            h.with(Seq::empty()) == nothing_heard(n as int, q),
    {
        let mag: Vec<u32> = repeated(0u32, n);
        let last: Vec<u8> = repeated(q, n);
        let h = Heard { state: CoderState::new(n), mag, last };
        assert(h.mag@ =~= nothing_heard(n as int, q).mag);
        assert(h.last@ =~= nothing_heard(n as int, q).last);
        h
    }

    /// Decode bit `b` of a coefficient, and its sign where it is due.
    fn get_place<S: BitSource>(
        &mut self,
        source: &mut S,
        b: u8,
        i: usize,
        before: Option<usize>,
        after: Option<usize>,
        Ghost(n): Ghost<int>,
    )
        requires
            old(self).wf(n),
            old(source).wf(),
            b < 31,
            i < n,
            before matches Some(j) ==> j < n,
            after matches Some(j) ==> j < n,
        ensures
            final(self).wf(n),
            final(source).wf(),
            final(source).kind() == old(source).kind(),
            final(source).channel() == old(source).channel(),
            final(self).with(final(source).asked()) == listen(
                old(source).kind(),
                old(source).channel(),
                b,
                old(self).with(old(source).asked()),
                i as int,
                as_place(before),
                as_place(after),
            ),
    {
        let ctx = self.state.context(i, before, after, Ghost(n));
        let fresh: bool = self.state.cat[i] == 0;
        let (num, den) = self.state.odds(ctx, Ghost(n));
        let bit: u8 = ask(source, num, den);
        let sm = self.state.neighbour_sign(before, Ghost(n));
        let sp = self.state.neighbour_sign(after, Ghost(n));
        self.state.note_bit(
            i,
            ctx,
            bit,
            Ghost(n),
            Ghost(as_place(before)),
            Ghost(as_place(after)),
        );
        if bit == 1 {
            let m: u32 = self.mag[i] | (1u32 << b);
            self.mag.set(i, m);
        }
        self.last.set(i, b);
        proof {
            assert(self.mag@ =~= old(self).mag@.update(
                i as int,
                with_bit(old(self).mag@[i as int], b as u32, bit),
            ));
        }
        if fresh && bit == 1 {
            let (predicted, sctx) = sign_prediction_and_context(sm, sp);
            let (num, den) = self.state.model.probability(sctx);
            let coded: u8 = ask(source, num, den);
            self.state.model.observe(sctx, coded);
            self.state.neg.set(i, predicted != (coded == 1));
        }
    }

    /// Decode a bit plane of a subband.
    fn decode_subband_plane<S: BitSource>(
        &mut self,
        source: &mut S,
        v: &Volume,
        m: &SubbandMembers,
        b: u8,
    )
        requires
            m.inside(*v),
            m.size() <= v.count(),
            b < 31,
            old(self).wf(v.count()),
            old(source).wf(),
        ensures
            final(self).wf(v.count()),
            final(source).wf(),
            final(source).kind() == old(source).kind(),
            final(source).channel() == old(source).channel(),
            final(self).with(final(source).asked()) == plane_listened(
                old(source).kind(),
                old(source).channel(),
                *v,
                *m,
                b,
                old(self).with(old(source).asked()),
                m.size(),
            ),
    {
        let ghost start = self.with(source.asked());
        let ghost kind = source.kind();
        let ghost channel = source.channel();
        proof {
            v.lemma_area();
        }
        let size: usize = m.spatial.columns * m.spatial.rows * m.spectral.columns;
        let mut k: usize = 0;
        while k < size
            invariant
                k <= size,
                size == m.size(),
                m.inside(*v),
                b < 31,
                self.wf(v.count()),
                source.wf(),
                source.kind() == kind,
                source.channel() == channel,
                self.with(source.asked()) == plane_listened(
                    kind,
                    channel,
                    *v,
                    *m,
                    b,
                    start,
                    k as int,
                ),
            decreases size - k,
        {
            let (i, before, after) = m.locate(v, k);
            assert(as_place(before) == m.before(*v, k as int));
            assert(as_place(after) == m.after(*v, k as int));
            self.get_place(source, b, i, before, after, Ghost(v.count()));
            k = k + 1;
        }
    }

    /// The value of a coefficient.
    fn value(&self, i: usize, Ghost(n): Ghost<int>) -> (c: i32)
        requires
            self.wf(n),
            i < n,
        ensures
            c == deadzone(
                self.mag@[i as int],
                self.state@.neg[i as int],
                self.last@[i as int],
            ),
    {
        let m: u32 = self.mag[i];
        let b: u8 = self.last[i];
        assert(self.last@[i as int] <= 31);
        let v: i64 = if m == 0 {
            0
        } else if b == 0 {
            m as i64
        } else {
            m as i64 + two_to(b - 1) as i64 - 1
        };
        (if self.state.neg[i] {
            -v
        } else {
            v
        }) as i32
    }
}

/// What borrowed packets hold.
pub open spec fn borrowed_packets(packets: Seq<(u8, &[u8])>) -> Seq<CodedGroup> {
    Seq::new(
        packets.len(),
        |i: int| CodedGroup { priority: packets[i].0, body: (packets[i].1)@ },
    )
}

/// Decode the packets of a whole cube, as far as they have arrived. Never
/// fails.
pub fn decode_cube_bitplanes(
    geom: &CubeGeometry,
    packets: &[(u8, &[u8])],
    q: u8,
    kind: EntropyKind,
) -> (r: Result<Vec<i32>>)
    requires
        geom.wf(),
        q <= 31,
    ensures
        r is Ok,
        r->Ok_0@ == cube_heard(
            geom.layout(),
            kind,
            q,
            borrowed_packets(packets@),
            Seq::new(geom.layout().volume.count() as nat, |i: int| 0i32),
        ),
{
    let mut coeffs: Vec<i32> = repeated(0i32, geom.volume());
    assert(coeffs@ =~= Seq::new(geom.layout().volume.count() as nat, |i: int| 0i32));
    match decode_cube_bitplanes_into(geom, packets, q, kind, &mut coeffs) {
        Ok(()) => Ok(coeffs),
        Err(e) => Err(e),
    }
}

/// Decode packets into a buffer of a whole cube. Only coefficients that the
/// geometry codes are written. Never fails.
pub fn decode_cube_bitplanes_into(
    geom: &CubeGeometry,
    packets: &[(u8, &[u8])],
    q: u8,
    kind: EntropyKind,
    coeffs: &mut Vec<i32>,
) -> (r: Result<()>)
    requires
        geom.wf(),
        q <= 31,
        old(coeffs)@.len() == geom.layout().volume.count(),
    ensures
        r is Ok,
        final(coeffs)@ == cube_heard(
            geom.layout(),
            kind,
            q,
            borrowed_packets(packets@),
            old(coeffs)@,
        ),
        final(coeffs)@.len() == old(coeffs)@.len(),
{
    let ghost lay = geom.layout();
    let ghost list = borrowed_packets(packets@);
    let v = Volume { width: geom.width, height: geom.height, bands: geom.bands };
    let mut heard = Heard::new(geom.volume(), q);
    let mut used: usize = 0;
    let mut stopped: bool = false;
    let mut p: u8 = TOP_PRIORITY + 1;
    let ghost mut asked: Seq<(u32, u32)> = Seq::empty();
    while p > 0
        invariant
            p <= TOP_PRIORITY + 1,
            geom.wf(),
            lay == geom.layout(),
            v == lay.volume,
            q <= 31,
            heard.wf(v.count()),
            list == borrowed_packets(packets@),
            used <= packets@.len(),
            (CubeHearing { heard: heard.with(asked), used: used as int, stopped })
                == cube_listened(lay, kind, q, list, p as int),
        decreases p,
    {
        p = p - 1;
        if !stopped && geom.uses(q, p) {
            if used >= packets.len() || packets[used].0 != p {
                stopped = true;
            } else {
                let body = packets[used].1;
                let made = kind.make_source(body);
                match made {
                    Err(e) => {
                        return Err(e);
                    },
                    Ok(source) => {
                        let mut source = source;
                        let ghost start = heard.with(Seq::empty());
                        let mut n: usize = geom.subbands.len();
                        while n > 0
                            invariant
                                n <= lay.count(),
                                geom.wf(),
                                lay == geom.layout(),
                                v == lay.volume,
                                q <= 31,
                                heard.wf(v.count()),
                                source.wf(),
                                source.kind() == kind,
                                source.channel() == body@,
                                heard.with(source.asked()) == group_listened(
                                    kind,
                                    body@,
                                    lay,
                                    q as int,
                                    p as int,
                                    start,
                                    lay.count() - n,
                                ),
                            decreases n,
                        {
                            n = n - 1;
                            proof {
                                lemma_subband_at(lay.ts as int, lay.tl as int, n as int);
                                lemma_members_inside(lay, n as int);
                            }
                            let base: u8 = geom.subbands[n].base_priority(geom.ts, geom.tl);
                            if let Some(b) = plane_with_priority(base, q, p) {
                                heard.decode_subband_plane(
                                    &mut source,
                                    &v,
                                    &geom.members[n],
                                    b,
                                );
                            }
                        }
                        proof {
                            asked = source.asked();
                            assert(list[used as int].body == body@);
                        }
                        used = used + 1;
                    },
                }
            }
        }
    }
    let ghost before = coeffs@;
    let ghost goal = cube_heard(lay, kind, q, list, before);
    let mut i: usize = 0;
    while i < coeffs.len()
        invariant
            i <= coeffs@.len(),
            coeffs@.len() == before.len() == lay.volume.count(),
            geom.wf(),
            lay == geom.layout(),
            heard.wf(lay.volume.count()),
            heard.with(asked) == cube_listened(lay, kind, q, list, 0).heard,
            goal == cube_heard(lay, kind, q, list, before),
            forall|j: int|
                0 <= j < coeffs@.len() ==> #[trigger] coeffs@[j] == (if j < i {
                    goal[j]
                } else {
                    before[j]
                }),
        decreases coeffs@.len() - i,
    {
        if geom.codes(i) {
            let c: i32 = heard.value(i, Ghost(lay.volume.count()));
            coeffs.set(i, c);
        }
        i = i + 1;
    }
    assert(coeffs@ =~= goal);
    Ok(())
}

} // verus!
