//! Stages and subbands of the transform of a cube.
//!
//! The spectrum of every pixel is decomposed along the bands, and then every
//! spatial plane like an image. So a subband of a cube is a subband of an image
//! together with one of a spectrum.

use crate::priority::{is_band, Subband, SubbandType};
use vstd::arithmetic::power2::{lemma_pow2_pos, lemma_pow2_unfold, pow2};
use vstd::prelude::*;

verus! {

// ---------------------------------------------------------------------------
// Stages
// ---------------------------------------------------------------------------

/// How many of `levels` stages are applied along `extent` samples: as long as
/// more than two averages are left.
pub open spec fn stages(extent: int, levels: int) -> int
    decreases levels,
{
    if levels <= 0 || extent <= 2 {
        0
    } else {
        1 + stages((extent + 1) / 2, levels - 1)
    }
}

pub proof fn lemma_stages(extent: int, levels: int)
    ensures
        0 <= stages(extent, levels),
        levels >= 0 ==> stages(extent, levels) <= levels,
    decreases levels,
{
    if levels > 0 && extent > 2 {
        lemma_stages((extent + 1) / 2, levels - 1);
    }
}

/// A stage has something to halve, so what it steps over lies within the
/// extent.
pub proof fn lemma_stages_inside(extent: int, levels: int)
    requires
        stages(extent, levels) > 0,
    ensures
        pow2(stages(extent, levels) as nat) < extent,
    decreases levels,
{
    lemma_stages(extent, levels);
    vstd::arithmetic::power2::lemma2_to64();
    let less = (extent + 1) / 2;
    lemma_stages(less, levels - 1);
    lemma_pow2_unfold(stages(extent, levels) as nat);
    if stages(less, levels - 1) > 0 {
        lemma_stages_inside(less, levels - 1);
    }
}

/// Each stage halves what is left.
pub proof fn lemma_stages_bound(extent: int, levels: int, k: nat)
    requires
        extent <= 2 * pow2(k),
    ensures
        stages(extent, levels) <= k,
    decreases levels,
{
    lemma_pow2_pos(k);
    if levels > 0 && extent > 2 {
        if k == 0 {
            vstd::arithmetic::power2::lemma2_to64();
        } else {
            lemma_pow2_unfold(k);
            lemma_stages_bound((extent + 1) / 2, levels - 1, (k - 1) as nat);
        }
    }
}

fn count_stages(extent: usize, levels: u8) -> (n: u8)
    ensures
        n == stages(extent as int, levels as int),
        n <= levels,
    decreases levels,
{
    if levels == 0 || extent <= 2 {
        0
    } else {
        1 + count_stages(extent - extent / 2, (levels - 1) as u8)
    }
}

/// The shorter side of a spatial plane.
pub open spec fn shorter(width: int, height: int) -> int {
    if width < height {
        width
    } else {
        height
    }
}

/// Number of stages in the spatial directions.
pub fn spatial_stage_count(width: usize, height: usize, levels: u8) -> (ts: u8)
    ensures
        ts == stages(shorter(width as int, height as int), levels as int),
        ts <= levels,
{
    count_stages(
        if width < height {
            width
        } else {
            height
        },
        levels,
    )
}

/// Number of stages in the spectral direction.
pub fn spectral_stage_count(bands: usize, levels: u8) -> (tl: u8)
    ensures
        tl == stages(bands as int, levels as int),
        tl <= levels,
{
    count_stages(bands, levels)
}

/// Number of stages in the spatial directions and in the spectral one.
pub fn stage_counts(width: usize, height: usize, bands: usize, levels: u8) -> (r: (u8, u8))
    ensures
        r.0 == stages(shorter(width as int, height as int), levels as int),
        r.1 == stages(bands as int, levels as int),
        r.0 <= levels,
        r.1 <= levels,
{
    (spatial_stage_count(width, height, levels), spectral_stage_count(bands, levels))
}

// ---------------------------------------------------------------------------
// Subbands
// ---------------------------------------------------------------------------

/// A subband of a cube. Along a spectrum details count as horizontal ones.
#[derive(Debug, Clone, Copy, PartialEq, Eq, Structural)]
pub struct Subband3d {
    /// Subband in the spatial directions.
    pub spatial: Subband,
    /// Subband in the spectral direction.
    pub spectral: Subband,
}

/// Spatial subband `a` of a decomposition with `ts` stages.
pub open spec fn spatial_at(ts: int, a: int) -> Subband {
    if a >= 3 * ts {
        Subband { kind: SubbandType::Ll, level: ts as u8 }
    } else {
        Subband {
            kind: if a % 3 == 0 {
                SubbandType::Hh
            } else if a % 3 == 1 {
                SubbandType::Lh
            } else {
                SubbandType::Hl
            },
            level: (a / 3 + 1) as u8,
        }
    }
}

/// Spectral subband `c` of a decomposition with `tl` stages.
pub open spec fn spectral_at(tl: int, c: int) -> Subband {
    if c >= tl {
        Subband { kind: SubbandType::Ll, level: tl as u8 }
    } else {
        Subband { kind: SubbandType::Hl, level: (c + 1) as u8 }
    }
}

/// Number of subbands.
pub open spec fn subband_count(ts: int, tl: int) -> int {
    (3 * ts + 1) * (tl + 1)
}

/// Subband `s` of a cube.
pub open spec fn subband_at(ts: int, tl: int, s: int) -> Subband3d {
    Subband3d { spatial: spatial_at(ts, s / (tl + 1)), spectral: spectral_at(tl, s % (tl + 1)) }
}

/// Number of a spatial subband.
pub open spec fn spatial_index(ts: int, s: Subband) -> int {
    match s.kind {
        SubbandType::Ll => 3 * ts,
        SubbandType::Hl => 3 * (s.level - 1) + 2,
        SubbandType::Lh => 3 * (s.level - 1) + 1,
        SubbandType::Hh => 3 * (s.level - 1),
    }
}

/// Number of a spectral subband.
pub open spec fn spectral_index(tl: int, s: Subband) -> int {
    if s.kind is Ll {
        tl
    } else {
        s.level - 1
    }
}

/// Number of a subband.
pub open spec fn subband_index(ts: int, tl: int, b: Subband3d) -> int {
    spatial_index(ts, b.spatial) * (tl + 1) + spectral_index(tl, b.spectral)
}

/// A subband of a cube with these stages.
pub open spec fn is_subband3d(ts: int, tl: int, b: Subband3d) -> bool {
    &&& is_band(b.spatial, ts)
    &&& is_band(b.spectral, tl)
    &&& b.spectral.kind is Ll || b.spectral.kind is Hl
}

pub proof fn lemma_subband_at(ts: int, tl: int, s: int)
    requires
        0 <= ts <= 31,
        0 <= tl <= 63,
        0 <= s < subband_count(ts, tl),
    ensures
        is_subband3d(ts, tl, subband_at(ts, tl, s)),
        subband_index(ts, tl, subband_at(ts, tl, s)) == s,
        0 <= s / (tl + 1) <= 3 * ts,
        0 <= s % (tl + 1) <= tl,
{
    let d = tl + 1;
    let a = s / d;
    let c = s % d;
    assert(0 <= a <= 3 * ts && 0 <= c <= tl && s == a * d + c) by (nonlinear_arith)
        requires
            a == s / d,
            c == s % d,
            d == tl + 1,
            tl >= 0,
            0 <= s < (3 * ts + 1) * d,
    ;
}

/// **The subbands of a cube are numbered without gaps and without repetition.**
pub proof fn subbands_are_numbered(ts: int, tl: int, b: Subband3d)
    requires
        0 <= ts <= 31,
        0 <= tl <= 63,
        is_subband3d(ts, tl, b),
    ensures
        0 <= subband_index(ts, tl, b) < subband_count(ts, tl),
        subband_at(ts, tl, subband_index(ts, tl, b)) == b,
{
    let d = tl + 1;
    let a = spatial_index(ts, b.spatial);
    let c = spectral_index(tl, b.spectral);
    assert(0 <= a <= 3 * ts && 0 <= c <= tl);
    vstd::arithmetic::div_mod::lemma_fundamental_div_mod_converse(a * d + c, d, a, c);
    assert(0 <= a * d && a * d + c < (3 * ts + 1) * d) by (nonlinear_arith)
        requires
            0 <= a <= 3 * ts,
            0 <= c < d,
    ;
}

fn spatial_subband(ts: u8, a: u8) -> (s: Subband)
    requires
        ts <= 31,
        a <= 3 * ts,
    ensures
        s == spatial_at(ts as int, a as int),
{
    if a == 3 * ts {
        Subband { kind: SubbandType::Ll, level: ts }
    } else {
        let kind = if a % 3 == 0 {
            SubbandType::Hh
        } else if a % 3 == 1 {
            SubbandType::Lh
        } else {
            SubbandType::Hl
        };
        Subband { kind, level: a / 3 + 1 }
    }
}

fn spectral_subband(tl: u8, c: u8) -> (s: Subband)
    requires
        tl <= 63,
        c <= tl,
    ensures
        s == spectral_at(tl as int, c as int),
{
    if c == tl {
        Subband { kind: SubbandType::Ll, level: tl }
    } else {
        Subband { kind: SubbandType::Hl, level: c + 1 }
    }
}

/// All subbands of a cube in the order of their numbers.
pub fn enumerate_subbands(ts: u8, tl: u8) -> (out: Vec<Subband3d>)
    requires
        ts <= 31,
        tl <= 63,
    ensures
        out@.len() == subband_count(ts as int, tl as int),
        forall|s: int| 0 <= s < out@.len() ==> #[trigger] out@[s] == subband_at(
            ts as int,
            tl as int,
            s,
        ),
{
    let mut out: Vec<Subband3d> = Vec::new();
    let d: u8 = tl + 1;
    let mut a: u8 = 0;
    while a < 3 * ts + 1
        invariant
            a <= 3 * ts + 1,
            ts <= 31,
            tl <= 63,
            d == tl + 1,
            out@.len() == a * d,
            forall|s: int| 0 <= s < out@.len() ==> #[trigger] out@[s] == subband_at(
                ts as int,
                tl as int,
                s,
            ),
        decreases 3 * ts + 1 - a,
    {
        let mut c: u8 = 0;
        while c < d
            invariant
                c <= d,
                a < 3 * ts + 1,
                ts <= 31,
                tl <= 63,
                d == tl + 1,
                out@.len() == a * d + c,
                forall|s: int| 0 <= s < out@.len() ==> #[trigger] out@[s] == subband_at(
                    ts as int,
                    tl as int,
                    s,
                ),
            decreases d - c,
        {
            let b = Subband3d { spatial: spatial_subband(ts, a), spectral: spectral_subband(tl, c) };
            proof {
                vstd::arithmetic::div_mod::lemma_fundamental_div_mod_converse(
                    a * d + c,
                    d as int,
                    a as int,
                    c as int,
                );
            }
            out.push(b);
            c = c + 1;
        }
        assert((a + 1) * d == a * d + d) by (nonlinear_arith);
        a = a + 1;
    }
    out
}

// ---------------------------------------------------------------------------
// Priorities
// ---------------------------------------------------------------------------

impl Subband3d {
    /// Priority of bit plane 0: twice the base-2 logarithm of how much a
    /// coefficient of the subband counts, raised so that none is negative.
    pub open spec fn base(self, ts: int, tl: int) -> int {
        2 * self.spatial.weight(ts as u8) + (if self.spectral.kind is Ll {
            tl
        } else {
            self.spectral.level - 2
        }) + 3
    }

    /// Priority of bit plane 0.
    pub fn base_priority(&self, ts: u8, tl: u8) -> (p: u8)
        requires
            ts <= 31,
            tl <= 63,
            is_subband3d(ts as int, tl as int, *self),
        ensures
            p == self.base(ts as int, tl as int),
            p <= 2 * ts + tl + 3,
    {
        let spatial: i32 = self.spatial.weight_log2(ts);
        let spectral: i32 = match self.spectral.kind {
            SubbandType::Ll => tl as i32,
            _ => self.spectral.level as i32 - 2,
        };
        (2 * spatial + spectral + 3) as u8
    }
}

/// The bit plane with priority `p` of a subband whose bit plane 0 has priority
/// `base`, where there are `q` of them. A bit plane counts two more than the
/// one below.
pub open spec fn plane_with(base: int, q: int, p: int) -> Option<u8> {
    if p >= base && (p - base) % 2 == 0 && (p - base) / 2 < q {
        Some(((p - base) / 2) as u8)
    } else {
        None
    }
}

/// The bit plane with priority `p` of a subband.
pub fn plane_with_priority(base: u8, q: u8, p: u8) -> (b: Option<u8>)
    ensures
        b == plane_with(base as int, q as int, p as int),
{
    if p >= base && (p - base) % 2 == 0 && (p - base) / 2 < q {
        Some((p - base) / 2)
    } else {
        None
    }
}

/// How many low bit planes of a subband have a priority below `p`.
pub open spec fn planes_below(base: int, q: int, p: int) -> int {
    if p <= base {
        0
    } else if (p - base + 1) / 2 < q {
        (p - base + 1) / 2
    } else {
        q
    }
}

/// **Bit planes come from the top down.** The bit plane with priority `p` is
/// the one below those with a higher priority.
pub proof fn planes_descend(base: int, q: int, p: int)
    requires
        0 <= q <= 255,
    ensures
        plane_with(base, q, p) matches Some(b) ==> planes_below(base, q, p) == b && planes_below(
            base,
            q,
            p + 1,
        ) == b + 1,
        plane_with(base, q, p) is None ==> planes_below(base, q, p) == planes_below(base, q, p + 1),
        0 <= planes_below(base, q, p) <= q,
{
}

} // verus!
