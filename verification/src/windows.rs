//! Windows are bounds of a walk and no filters.

use crate::bitplane::{bitplanes_coded, pass_told, plane_coded, planes_coded};
use crate::compress::{coded_selection, Settings};
use crate::entropy::EntropyKind;
use crate::merge::{ll_partition, window_at};
use crate::partition::segment_map;
use crate::roundtrip_parts::{divisible, lemma_owner, owner};
use crate::scan::{tell, told, window_patch, Grid, Patch, ScanPass, Selection, Telling};
use vstd::prelude::*;

verus! {

/// A selection without its window.
pub open spec fn unbounded(f: Selection) -> Selection {
    Selection { window: None, ..f }
}

/// The window of a selection holds all of its segment.
pub open spec fn window_holds_segment(g: Grid, f: Selection) -> bool {
    let (x0, x1, y0, y1) = f.limits(g.width as int, g.height as int);
    forall|i: int|
        0 <= i < g.area() && #[trigger] f.in_segment(i) ==> x0 <= i % (g.width as int) < x1 && y0
            <= i / (g.width as int) < y1
}

/// How many of the first `k` places of a buffer of width `w` lie in a patch of
/// neighbouring places.
spec fn places_in(p: Patch, w: int, k: int) -> int {
    let (x, y) = (k % w, k / w);
    if y < p.y0 {
        0
    } else if y >= p.y0 + p.rows {
        p.rows * p.columns
    } else if x <= p.x0 {
        (y - p.y0) * p.columns
    } else if x >= p.x0 + p.columns {
        (y - p.y0) * p.columns + p.columns
    } else {
        (y - p.y0) * p.columns + (x - p.x0)
    }
}

/// One more place of the buffer is one more of the patch where it lies in it.
proof fn lemma_one_more_place(p: Patch, w: int, k: int)
    requires
        p.step == 1,
        k >= 0,
        w >= 1,
        p.x0 + p.columns <= w,
        p.columns >= 1,
    ensures
        ({
            let (x, y) = (k % w, k / w);
            let m = places_in(p, w, k);
            if p.x0 <= x < p.x0 + p.columns && p.y0 <= y < p.y0 + p.rows {
                &&& places_in(p, w, k + 1) == m + 1
                &&& m >= 0
                &&& p.x(m) == x
                &&& p.y(m) == y
            } else {
                places_in(p, w, k + 1) == m
            }
        }),
{
    let (x, y) = (k % w, k / w);
    let c = p.columns as int;
    vstd::arithmetic::div_mod::lemma_fundamental_div_mod(k, w);
    assert(0 <= x < w);
    assert(y >= 0) by (nonlinear_arith)
        requires
            y == k / w,
            k >= 0,
            w >= 1,
    ;
    if x + 1 < w {
        assert(w * y == y * w) by (nonlinear_arith);
        vstd::arithmetic::div_mod::lemma_fundamental_div_mod_converse(k + 1, w, y, x + 1);
    } else {
        assert(k + 1 == (y + 1) * w + 0) by (nonlinear_arith)
            requires
                k == w * y + x,
                x == w - 1,
        ;
        vstd::arithmetic::div_mod::lemma_fundamental_div_mod_converse(k + 1, w, y + 1, 0);
    }
    assert((y + 1 - p.y0) * c == (y - p.y0) * c + c) by (nonlinear_arith);
    if y + 1 == p.y0 {
        assert((y + 1 - p.y0) * c == 0) by (nonlinear_arith)
            requires
                y + 1 - p.y0 == 0,
        ;
    }
    if y + 1 == p.y0 + p.rows {
        assert((y + 1 - p.y0) * c == p.rows * c) by (nonlinear_arith)
            requires
                y + 1 - p.y0 == p.rows,
        ;
    }
    if y == p.y0 {
        assert((y - p.y0) * c == 0) by (nonlinear_arith)
            requires
                y - p.y0 == 0,
        ;
    }
    if p.x0 <= x < p.x0 + c && p.y0 <= y < p.y0 + p.rows {
        let m = (y - p.y0) * c + (x - p.x0);
        vstd::arithmetic::div_mod::lemma_fundamental_div_mod_converse(m, c, y - p.y0, x - p.x0);
        assert((y - p.y0) * c >= 0) by (nonlinear_arith)
            requires
                y >= p.y0,
                c >= 1,
        ;
    }
}

/// A patch of the whole width visits the places of the buffer in order.
proof fn lemma_raster(p: Patch, w: int, i: int)
    requires
        p.step == 1,
        p.x0 == 0,
        p.y0 == 0,
        p.columns == w,
    ensures
        p.x(i) == i % w,
        p.y(i) == i / w,
{
    assert((i % w) * p.step == i % w && (i / w) * p.step == i / w) by (nonlinear_arith)
        requires
            p.step == 1,
    ;
}

/// A pass over the buffer is one over the window.
proof fn lemma_pass_in_window(
    g: Grid,
    coeffs: Seq<i32>,
    f: Selection,
    pass: ScanPass,
    bp: u32,
    start: Telling,
    k: int,
)
    requires
        window_holds_segment(g, f),
        g.width >= 1,
        window_patch(g, f).columns >= 1,
        0 <= k <= g.area(),
    ensures
        told(g, coeffs, unbounded(f), pass, bp, window_patch(g, unbounded(f)), start, k) == told(
            g,
            coeffs,
            f,
            pass,
            bp,
            window_patch(g, f),
            start,
            places_in(window_patch(g, f), g.width as int, k),
        ),
    decreases k,
{
    let w = g.width as int;
    let p = window_patch(g, f);
    let full = window_patch(g, unbounded(f));
    if k <= 0 {
        assert(0int % w == 0 && 0int / w == 0) by (nonlinear_arith)
            requires
                w >= 1,
        ;
        assert((0 - 0) * p.columns == 0);
    } else {
        let i = k - 1;
        lemma_pass_in_window(g, coeffs, f, pass, bp, start, i);
        lemma_one_more_place(p, w, i);
        let (x, y) = (i % w, i / w);
        lemma_raster(full, w, i);
        vstd::arithmetic::div_mod::lemma_fundamental_div_mod(i, w);
        assert(g.at(x, y) == i) by (nonlinear_arith)
            requires
                g.at(x, y) == y * w + x,
                i == w * y + x,
        ;
        assert(unbounded(f).in_segment(i) == f.in_segment(i));
        let before = told(g, coeffs, unbounded(f), pass, bp, full, start, i);
        assert(tell(g, coeffs, unbounded(f), pass, bp, before, x, y) == tell(
            g,
            coeffs,
            f,
            pass,
            bp,
            before,
            x,
            y,
        ));
        if !(p.x0 <= x < p.x0 + p.columns && p.y0 <= y < p.y0 + p.rows) {
            assert(!f.in_segment(i));
        }
    }
}

/// An empty window leaves nothing of a pass.
proof fn lemma_pass_without_window(
    g: Grid,
    coeffs: Seq<i32>,
    f: Selection,
    pass: ScanPass,
    bp: u32,
    start: Telling,
    k: int,
)
    requires
        window_holds_segment(g, f),
        g.width >= 1,
        window_patch(g, f).columns == 0,
        0 <= k <= g.area(),
    ensures
        told(g, coeffs, unbounded(f), pass, bp, window_patch(g, unbounded(f)), start, k) == start,
    decreases k,
{
    if k > 0 {
        let w = g.width as int;
        let i = k - 1;
        let full = window_patch(g, unbounded(f));
        lemma_pass_without_window(g, coeffs, f, pass, bp, start, i);
        vstd::arithmetic::div_mod::lemma_fundamental_div_mod(i, w);
        let (x, y) = (i % w, i / w);
        lemma_raster(full, w, i);
        assert(g.at(x, y) == i) by (nonlinear_arith)
            requires
                g.at(x, y) == y * w + x,
                i == w * y + x,
        ;
        assert(unbounded(f).in_segment(i) == f.in_segment(i));
        assert(!f.in_segment(i));
    }
}

proof fn lemma_pass(
    g: Grid,
    coeffs: Seq<i32>,
    f: Selection,
    pass: ScanPass,
    bp: u32,
    scan: crate::scan::Scan,
)
    requires
        window_holds_segment(g, f),
    ensures
        pass_told(g, coeffs, unbounded(f), pass, bp, scan) == pass_told(g, coeffs, f, pass, bp, scan),
{
    let p = window_patch(g, f);
    let full = window_patch(g, unbounded(f));
    let start = Telling { scan: crate::scan::with_fresh_model(scan), log: Seq::empty() };
    let w = g.width as int;
    let area = g.area();
    assert(area >= 0) by (nonlinear_arith)
        requires
            area == g.width * g.height,
    ;
    if w == 0 {
        assert(full.size() == 0 && p.size() == 0) by (nonlinear_arith)
            requires
                full.size() == full.columns * full.rows,
                p.size() == p.columns * p.rows,
                full.columns == 0,
                p.columns == 0,
        ;
    } else {
        assert(full.size() == area);
        if p.columns == 0 {
            assert(p.size() == 0) by (nonlinear_arith)
                requires
                    p.size() == p.columns * p.rows,
                    p.columns == 0,
            ;
            lemma_pass_without_window(g, coeffs, f, pass, bp, start, area);
        } else {
            lemma_pass_in_window(g, coeffs, f, pass, bp, start, area);
            assert(area % w == 0 && area / w == g.height) by (nonlinear_arith)
                requires
                    area == w * g.height,
                    w >= 1,
            ;
            assert(places_in(p, w, area) == p.rows * p.columns) by {
                if p.rows == 0 {
                    assert(p.rows * p.columns == 0) by (nonlinear_arith)
                        requires
                            p.rows == 0,
                    ;
                }
            }
            assert(p.rows * p.columns == p.size()) by (nonlinear_arith)
                requires
                    p.size() == p.columns * p.rows,
            ;
        }
    }
}

proof fn lemma_planes(g: Grid, coeffs: Seq<i32>, f: Selection, kind: EntropyKind, q: u8, p: int)
    requires
        window_holds_segment(g, f),
        0 <= p <= q,
    ensures
        planes_coded(g, coeffs, unbounded(f), kind, q, p) == planes_coded(g, coeffs, f, kind, q, p),
    decreases p,
{
    if p > 0 {
        lemma_planes(g, coeffs, f, kind, q, p - 1);
        let before = planes_coded(g, coeffs, f, kind, q, p - 1);
        let bp = (q - 1 - (p - 1)) as u32;
        lemma_pass(g, coeffs, f, ScanPass::Significance, bp, before.scan);
        let sig = pass_told(g, coeffs, f, ScanPass::Significance, bp, before.scan);
        lemma_pass(g, coeffs, f, ScanPass::Refinement, bp, sig.scan);
        assert(plane_coded(g, coeffs, unbounded(f), kind, q, before, p - 1) == plane_coded(
            g,
            coeffs,
            f,
            kind,
            q,
            before,
            p - 1,
        ));
    }
}

/// **A window that holds all of a segment changes no packet**: it only spares
/// the walk over the rest of the buffer.
pub proof fn windows_change_nothing(g: Grid, coeffs: Seq<i32>, f: Selection, kind: EntropyKind, q: u8)
    requires
        window_holds_segment(g, f),
    ensures
        bitplanes_coded(g, coeffs, f, kind, q) == bitplanes_coded(
            g,
            coeffs,
            unbounded(f),
            kind,
            q,
        ),
{
    lemma_planes(g, coeffs, f, kind, q, q as int);
}

/// **The block of a part of a transform holds all of its segment**, so a part
/// is coded as a walk over the whole image would code it.
pub proof fn blocks_hold_segments(set: Settings, width: usize, height: usize, n: int, index: u16)
    requires
        divisible(set, width as int, height as int, n),
        index < n,
    ensures
        ({
            let g = Grid { width, height, levels: set.levels };
            let levels = set.levels as int;
            let p = ll_partition(width as int, height as int, levels, n);
            window_holds_segment(
                g,
                coded_selection(
                    set,
                    g,
                    Some((segment_map(p, width as int, height as int, levels), index)),
                    Some(window_at(p, index as int, width as int, height as int, levels)),
                ),
            )
        }),
{
    let g = Grid { width, height, levels: set.levels };
    let levels = set.levels as int;
    let (w, h) = (width as int, height as int);
    let p = ll_partition(w, h, levels, n);
    let f = coded_selection(
        set,
        g,
        Some((segment_map(p, w, h, levels), index)),
        Some(window_at(p, index as int, w, h, levels)),
    );
    let (x0, x1, y0, y1) = f.limits(w, h);
    assert forall|i: int| 0 <= i < g.area() && #[trigger] f.in_segment(i) implies x0 <= i % w < x1
        && y0 <= i / w < y1 by {
        lemma_owner(set, w, h, n, index as int, i);
        assert(owner(w, h, levels, n, i) == index);
    }
}

} // verus!
