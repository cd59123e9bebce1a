//! What decodes has the size that its header says.

use crate::bitplane::{body_of, pass_heard, planes_heard, schedule_heard, schedule_params, unit_patch, units_heard, Coded};
use crate::entropy::{coder_of, EntropyKind};
use crate::header::Segment;
use crate::priority::{lemma_schedule_units, schedule, Scheduled, SubbandBitPlane};
use crate::readback::lemma_window_size;
use crate::readback_priority::lemma_unit_patch_inside;
use crate::roundtrip::lemma_area_bound;
use crate::scan::{categories_advanced, heard, lemma_place_inside, window_patch, with_fresh_model, Channel, Grid, Hearing, Patch, ScanPass, Selection};
use crate::strip::{coded_packets, depth_in_range, sample_size, segment_coeffs, segment_grid, segment_selection, segment_size, strip_decoded};
use crate::wavelet_int::{inverse_levels, level_inverse, level_lattice, weights_of, FilterWeights};
use vstd::prelude::*;

verus! {

proof fn lemma_heard_size(
    ch: Channel,
    g: Grid,
    f: Selection,
    pass: ScanPass,
    bp: u32,
    p: Patch,
    start: Hearing,
    k: int,
)
    requires
        p.inside(g),
        start.mag.len() == g.area(),
        0 <= k <= p.size(),
    ensures
        heard(ch, g, f, pass, bp, p, start, k).mag.len() == g.area(),
    decreases k,
{
    if k > 0 {
        lemma_heard_size(ch, g, f, pass, bp, p, start, k - 1);
        lemma_place_inside(g, p, k - 1);
    }
}

proof fn lemma_categories_size(g: Grid, f: Selection, bp: u32, p: Patch, start: Hearing, k: int)
    requires
        start.mag.len() == g.area(),
    ensures
        categories_advanced(g, f, bp, p, start, k).mag.len() == g.area(),
    decreases k,
{
    if k > 0 {
        lemma_categories_size(g, f, bp, p, start, k - 1);
    }
}

pub proof fn lemma_planes_size(
    g: Grid,
    f: Selection,
    kind: EntropyKind,
    q: u8,
    packets: Seq<Coded>,
    k: int,
)
    requires
        g.area() >= 0,
        k <= q,
    ensures
        planes_heard(g, f, kind, q, packets, k).s.mag.len() == g.area(),
    decreases k,
{
    if k > 0 {
        lemma_planes_size(g, f, kind, q, packets, k - 1);
        let before = planes_heard(g, f, kind, q, packets, k - 1);
        if !before.stopped {
            let p = window_patch(g, f);
            let bp = (q - k) as u32;
            lemma_window_size(g, f);
            match body_of(packets, (k - 1) as u8, true) {
                None => {},
                Some(body) => {
                    let first = Hearing { scan: with_fresh_model(before.s.scan), ..before.s };
                    lemma_heard_size(
                        Channel { kind, bytes: body },
                        g,
                        f,
                        ScanPass::Significance,
                        bp,
                        p,
                        first,
                        p.size(),
                    );
                    let s = pass_heard(g, f, kind, body, ScanPass::Significance, bp, before.s);
                    match body_of(packets, (k - 1) as u8, false) {
                        Some(more) => {
                            lemma_heard_size(
                                Channel { kind, bytes: more },
                                g,
                                f,
                                ScanPass::Refinement,
                                bp,
                                p,
                                Hearing { scan: with_fresh_model(s.scan), ..s },
                                p.size(),
                            );
                        },
                        None => {
                            lemma_categories_size(g, f, bp, p, s, p.size());
                        },
                    }
                },
            }
        }
    }
}

pub proof fn lemma_inverse_size(w: FilterWeights, width: usize, height: usize, buf: Seq<i32>, levels: int)
    ensures
        inverse_levels(w, width, height, buf, levels).len() == buf.len(),
    decreases levels,
{
    if levels > 0 {
        lemma_inverse_size(
            w,
            width,
            height,
            level_inverse(w, level_lattice(width, height, levels), buf),
            levels - 1,
        );
    }
}

proof fn lemma_units_size(
    ch: Channel,
    g: Grid,
    f: Selection,
    q: u8,
    units: Seq<SubbandBitPlane>,
    start: Hearing,
    k: int,
)
    requires
        g.ok(),
        0 <= k <= units.len(),
        forall|j: int| 0 <= j < units.len() ==> (#[trigger] units[j]).subband.level <= 31,
        start.mag.len() == g.area(),
    ensures
        units_heard(ch, g, f, q, units, start, k).mag.len() == g.area(),
    decreases k,
{
    if k > 0 {
        lemma_units_size(ch, g, f, q, units, start, k - 1);
        let u = units[k - 1];
        let p = unit_patch(g, f, u.subband);
        lemma_unit_patch_inside(g, f, u.subband);
        lemma_heard_size(
            ch,
            g,
            f,
            ScanPass::Combined,
            (q - 1 - u.bp_from_msb) as u32,
            p,
            units_heard(ch, g, f, q, units, start, k - 1),
            p.size(),
        );
    }
}

proof fn lemma_schedule_size(
    g: Grid,
    f: Selection,
    kind: EntropyKind,
    q: u8,
    plan: Seq<Scheduled>,
    packets: Seq<Coded>,
    k: int,
)
    requires
        g.ok(),
        g.area() >= 0,
        0 <= k <= plan.len(),
        forall|i: int, j: int|
            0 <= i < plan.len() && 0 <= j < plan[i].units.len() ==> (
            #[trigger] plan[i].units[j]).subband.level <= 31,
    ensures
        schedule_heard(g, f, kind, q, plan, packets, k).s.mag.len() == g.area(),
    decreases k,
{
    if k > 0 {
        lemma_schedule_size(g, f, kind, q, plan, packets, k - 1);
        if k - 1 < packets.len() {
            lemma_units_size(
                Channel { kind, bytes: packets[k - 1].body },
                g,
                f,
                q,
                plan[k - 1].units,
                schedule_heard(g, f, kind, q, plan, packets, k - 1).s,
                plan[k - 1].units.len() as int,
            );
        }
    }
}

/// **The coefficients of a segment have its size.**
pub proof fn coefficients_have_their_size(
    s: Segment,
    segment: Option<(Seq<u16>, u16)>,
    window: Option<(usize, usize, usize, usize)>,
)
    requires
        s.header.valid(),
        segment_coeffs(s, segment, window) is Ok,
    ensures
        segment_coeffs(s, segment, window)->Ok_0.len() == s.header.width * s.header.height,
{
    let h = s.header;
    let g = segment_grid(h);
    lemma_area_bound(g);
    if s.packets.len() > 0 {
        let m = s.packets[0].header.min_loss;
        let f = segment_selection(segment, window, h, m);
        let kind = coder_of(h.interleaved_entropy);
        let q = h.bit_plane_count;
        let packets = coded_packets(s.packets);
        if h.priority_interleaved {
            let par = schedule_params(g, q, m);
            lemma_schedule_units(par);
            lemma_schedule_size(g, f, kind, q, schedule(par), packets, schedule(par).len() as int);
        } else {
            lemma_planes_size(g, f, kind, q, packets, q as int);
        }
    }
}

/// **A strip decodes to as many bytes as its header says.**
pub proof fn strips_have_their_size(s: Segment, bits: u8)
    requires
        s.header.valid(),
        depth_in_range(bits),
        strip_decoded(s, bits) is Ok,
    ensures
        strip_decoded(s, bits)->Ok_0.len() == segment_size(s.header, bits),
{
    let h = s.header;
    assert(h.width * h.height * sample_size(bits) >= 0 && h.width * h.height >= 0)
        by (nonlinear_arith)
        requires
            h.width >= 0,
            h.height >= 0,
            sample_size(bits) >= 0,
    ;
    if s.packets.len() > 0 && !h.uncompressed {
        coefficients_have_their_size(s, None, None);
        lemma_inverse_size(
            weights_of(h.filter),
            h.width as usize,
            h.height as usize,
            segment_coeffs(s, None, None)->Ok_0,
            h.decomp_levels as int,
        );
    }
}

} // verus!
