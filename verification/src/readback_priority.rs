//! Decoding follows encoding in the priority order, and in one body.

use crate::arith::{arith_encoded, probabilities, Decision};
use crate::bitplane::{first_from, fits_planes, prioritized_coded, prioritized_decoded, schedule_coded, schedule_heard, schedule_params, single_heard, single_told, unit_patch, units_heard, units_told, Coded};
use crate::entropy::{encoded, EntropyKind};
use crate::priority::{all_planes_come, can_step, classified, excluded_planes, coding_order, first_column, first_row, is_band, is_subband, is_unit, kept_units, lattice_count, lattices_are_classes, lemma_can_step, lemma_classified_level, lemma_first_place, lemma_index, lemma_schedule_units, packets_carry_the_order, planes_come_in_order, planes_left, schedule, scheduled_units, Scheduled, Subband, SubbandBitPlane};
use crate::readback::{depths_after, floor_of, in_scope, in_step, knows, knows_one, lemma_exact_value, lemma_half_plane, lemma_log_grows, lemma_pass, lemma_start, lemma_values, lemma_whole_plane, lemma_whole_scope, lemma_window_reached, lemma_window_size, half_depths, place_at, plane_depths, reached, ready, scope_fits, value_to};
use crate::scan::{everything, fresh_hearing, heard, lemma_place_inside, magnitude_of, plain, silent, told, window_patch, Channel, Grid, Hearing, ScanPass, Selection, Telling};
use vstd::prelude::*;
use vstd::arithmetic::div_mod::{lemma_fundamental_div_mod, lemma_fundamental_div_mod_converse, lemma_mod_bound};
use vstd::arithmetic::power2::{lemma_pow2_pos, lemma_pow2_strictly_increases, pow2};

verus! {

// ---------------------------------------------------------------------------
// Places of a subband
// ---------------------------------------------------------------------------

/// The subband that coefficient `i` belongs to.
pub open spec fn subband_of(g: Grid, i: int) -> Subband {
    let c = classified(i % (g.width as int), i / (g.width as int), 1, g.levels as int);
    Subband { kind: c.0, level: c.1 as u8 }
}

proof fn lemma_first_from(phase: int, step: int, lo: int, x: int)
    requires
        0 <= phase < step,
    ensures
        first_from(phase, step, lo) >= lo,
        first_from(phase, step, lo) % step == phase,
        x >= lo && x % step == phase ==> {
            &&& x >= first_from(phase, step, lo)
            &&& (x - first_from(phase, step, lo)) % step == 0
        },
{
    let r = (phase - lo) % step;
    let k = (phase - lo) / step;
    lemma_mod_bound(phase - lo, step);
    lemma_fundamental_div_mod(phase - lo, step);
    assert(step * k == k * step) by (nonlinear_arith);
    assert((-k) * step == -(k * step)) by (nonlinear_arith);
    lemma_fundamental_div_mod_converse(lo + r, step, -k, phase);
    if x >= lo && x % step == phase {
        let a = x / step;
        lemma_fundamental_div_mod(x, step);
        let j = a + k;
        assert(step * a + k * step == j * step) by (nonlinear_arith)
            requires
                j == a + k,
        ;
        assert(x - lo == j * step + r);
        assert(j >= 0) by (nonlinear_arith)
            requires
                j * step + r >= 0,
                r < step,
                step > 0,
        ;
        assert(j * step >= 0) by (nonlinear_arith)
            requires
                j >= 0,
                step > 0,
        ;
        lemma_fundamental_div_mod_converse(x - (lo + r), step, j, 0);
    }
}

proof fn lemma_axis_place(first: int, step: int, limit: int, x: int)
    requires
        step >= 1,
        first < limit,
    ensures
        ({
            let n = lattice_count(first, step, limit);
            &&& n >= 1
            &&& first + (n - 1) * step < limit
            &&& first <= x < limit && (x - first) % step == 0 ==> {
                let c = (x - first) / step;
                0 <= c < n && first + c * step == x
            }
        }),
{
    let span = limit - first;
    let n = lattice_count(first, step, limit);
    assert(n == (span - 1) / step + 1 && ((span - 1) / step) * step <= span - 1 && n >= 1)
        by (nonlinear_arith)
        requires
            n == (span + step - 1) / step,
            step >= 1,
            span >= 1,
    ;
    if first <= x < limit && (x - first) % step == 0 {
        let c = (x - first) / step;
        lemma_fundamental_div_mod(x - first, step);
        assert(step * c == c * step) by (nonlinear_arith);
        assert(0 <= c < n) by (nonlinear_arith)
            requires
                c * step == x - first,
                0 <= x - first <= span - 1,
                n == (span - 1) / step + 1,
                step >= 1,
        ;
    }
}

pub proof fn lemma_unit_patch_inside(g: Grid, f: Selection, s: Subband)
    requires
        g.ok(),
        can_step(s.level as int),
    ensures
        unit_patch(g, f, s).inside(g),
        unit_patch(g, f, s).step == pow2(s.level as nat),
        0 <= unit_patch(g, f, s).size() <= g.area(),
        ({
            let (x0, x1, y0, y1) = f.limits(g.width as int, g.height as int);
            let step = pow2(s.level as nat) as int;
            let x = first_from(first_column(s), step, x0);
            let y = first_from(first_row(s), step, y0);
            x < x1 && y < y1 ==> {
                &&& unit_patch(g, f, s).columns == lattice_count(x, step, x1)
                &&& unit_patch(g, f, s).rows == lattice_count(y, step, y1)
            }
        }),
{
    let (x0, x1, y0, y1) = f.limits(g.width as int, g.height as int);
    let step = pow2(s.level as nat) as int;
    lemma_pow2_pos(s.level as nat);
    lemma_can_step(s.level as int, s.level as int);
    let p = unit_patch(g, f, s);
    let x = first_from(first_column(s), step, x0);
    let y = first_from(first_row(s), step, y0);
    lemma_mod_bound(first_column(s) - x0, step);
    lemma_mod_bound(first_row(s) - y0, step);
    if x < x1 && y < y1 {
        lemma_axis_place(x, step, x1, 0);
        lemma_axis_place(y, step, y1, 0);
        let c = lattice_count(x, step, x1);
        let r = lattice_count(y, step, y1);
        assert(c <= g.width) by (nonlinear_arith)
            requires
                x + (c - 1) * step < g.width,
                x >= 0,
                step >= 1,
                c >= 1,
        ;
        assert(r <= g.height) by (nonlinear_arith)
            requires
                y + (r - 1) * step < g.height,
                y >= 0,
                step >= 1,
                r >= 1,
        ;
        assert(0 <= c * r <= g.width * g.height) by (nonlinear_arith)
            requires
                1 <= c <= g.width,
                1 <= r <= g.height,
        ;
        assert(p.columns == c && p.rows == r);
    } else {
        assert(p.size() == 0 && g.area() >= 0) by (nonlinear_arith)
            requires
                p.size() == p.columns * p.rows,
                p.columns == 0,
                g.area() == g.width * g.height,
        ;
    }
}

pub proof fn lemma_unit_reached(g: Grid, f: Selection, s: Subband, i: int)
    requires
        g.ok(),
        can_step(g.levels as int),
        is_band(s, g.levels as int),
        0 <= i < g.area(),
    ensures
        reached(g, unit_patch(g, f, s), unit_patch(g, f, s).size(), i) && f.in_segment(i)
            <==> in_scope(g, f, i) && subband_of(g, i) == s,
{
    let p = unit_patch(g, f, s);
    let w = g.width as int;
    let (x0, x1, y0, y1) = f.limits(g.width as int, g.height as int);
    let (x, y) = (i % w, i / w);
    let step = pow2(s.level as nat) as int;
    lemma_can_step(s.level as int, g.levels as int);
    lemma_unit_patch_inside(g, f, s);
    assert(w > 0 && 0 <= x < w && 0 <= y < g.height) by (nonlinear_arith)
        requires
            0 <= i < w * g.height,
            x == i % w,
            y == i / w,
    ;
    lemma_fundamental_div_mod(i, w);
    assert(w * y == y * w) by (nonlinear_arith);
    lattices_are_classes(s, x, y, g.levels);
    lemma_first_place(s);
    let fx = first_from(first_column(s), step, x0);
    let fy = first_from(first_row(s), step, y0);
    lemma_first_from(first_column(s), step, x0, x);
    lemma_first_from(first_row(s), step, y0, y);
    lemma_classified_level(x, y, 1, g.levels as int);
    if in_scope(g, f, i) && subband_of(g, i) == s {
        lemma_axis_place(fx, step, x1, x);
        lemma_axis_place(fy, step, y1, y);
        let (col, row) = ((x - fx) / step, (y - fy) / step);
        let k = row * p.columns + col;
        lemma_index(col, row, p.columns as int, p.rows as int);
        assert(place_at(g, p, k) == i);
    }
    if reached(g, p, p.size(), i) {
        let k = choose|k: int| 0 <= k < p.size() && #[trigger] place_at(g, p, k) == i;
        lemma_place_inside(g, p, k);
        lemma_index(p.x(k), p.y(k), w, g.height as int);
        let c = p.columns as int;
        assert(c > 0) by (nonlinear_arith)
            requires
                0 <= k < c * p.rows,
        ;
        lemma_mod_bound(k, c);
        assert(0 <= k / c < p.rows) by (nonlinear_arith)
            requires
                0 <= k < c * p.rows,
                c > 0,
        ;
        assert(fx < x1 && fy < y1);
        lemma_axis_place(fx, step, x1, x);
        lemma_axis_place(fy, step, y1, y);
        lemma_on_axis(fx, step, x1, k % c);
        lemma_on_axis(fy, step, y1, k / c);
    }
}

proof fn lemma_on_axis(first: int, step: int, limit: int, c: int)
    requires
        step >= 1,
        first < limit,
        0 <= c < lattice_count(first, step, limit),
        first + (lattice_count(first, step, limit) - 1) * step < limit,
    ensures
        first <= first + c * step < limit,
        (first + c * step) % step == first % step,
{
    let n = lattice_count(first, step, limit);
    assert(0 <= c * step <= (n - 1) * step) by (nonlinear_arith)
        requires
            0 <= c <= n - 1,
            step >= 1,
    ;
    lemma_fundamental_div_mod(first, step);
    lemma_mod_bound(first, step);
    let q = first / step;
    assert((q + c) * step == step * q + c * step) by (nonlinear_arith);
    lemma_fundamental_div_mod_converse(first + c * step, step, q + c, first % step);
}

// ---------------------------------------------------------------------------
// The priority order
// ---------------------------------------------------------------------------

/// How far coefficient `i` is known after the first `u` bit planes of `order`.
pub open spec fn order_depth(
    g: Grid,
    f: Selection,
    q: u8,
    order: Seq<SubbandBitPlane>,
    i: int,
    u: int,
) -> u32 {
    let floor = floor_of(g, f, q, i);
    let left = planes_left(order, q as int, subband_of(g, i), u);
    if floor >= left {
        floor
    } else {
        left as u32
    }
}

/// How far each coefficient is known after the first `u` bit planes of
/// `order`.
pub open spec fn order_depths(
    g: Grid,
    f: Selection,
    q: u8,
    order: Seq<SubbandBitPlane>,
    n: int,
    u: int,
) -> Seq<u32> {
    Seq::new(n as nat, |i: int| order_depth(g, f, q, order, i, u))
}

/// The bit planes of a segment in the order in which they are coded.
pub open spec fn unit_order(g: Grid, q: u8, min_loss: u8) -> Seq<SubbandBitPlane> {
    let par = schedule_params(g, q, min_loss);
    kept_units(par, coding_order(par.levels, par.q))
}

proof fn lemma_units_log_grows(
    g: Grid,
    coeffs: Seq<i32>,
    f: Selection,
    q: u8,
    units: Seq<SubbandBitPlane>,
    start: Telling,
    a: int,
    b: int,
)
    requires
        g.ok(),
        0 <= a <= b <= units.len(),
        forall|j: int| 0 <= j < units.len() ==> 1 <= (#[trigger] units[j]).subband.level <= 31,
    ensures
        ({
            let la = units_told(g, coeffs, f, q, units, start, a).log;
            let lb = units_told(g, coeffs, f, q, units, start, b).log;
            la.len() <= lb.len() <= la.len() + 2 * g.area() * (b - a) && la == lb.take(
                la.len() as int,
            )
        }),
    decreases b - a,
{
    let la = units_told(g, coeffs, f, q, units, start, a).log;
    let lb = units_told(g, coeffs, f, q, units, start, b).log;
    if a == b {
        assert(la =~= lb.take(la.len() as int));
    } else {
        lemma_units_log_grows(g, coeffs, f, q, units, start, a, b - 1);
        let m = units_told(g, coeffs, f, q, units, start, b - 1);
        let u = units[b - 1];
        let p = unit_patch(g, f, u.subband);
        lemma_unit_patch_inside(g, f, u.subband);
        lemma_log_grows(
            g,
            coeffs,
            f,
            ScanPass::Combined,
            (q - 1 - u.bp_from_msb) as u32,
            p,
            m,
            0,
            p.size(),
        );
        assert(lb.take(la.len() as int) =~= m.log.take(la.len() as int));
        assert(2 * g.area() * (b - a) == 2 * g.area() * (b - 1 - a) + 2 * g.area())
            by (nonlinear_arith);
    }
}

/// Over the bit planes of a packet both sides stay in step.
proof fn lemma_units(
    ch: Channel,
    g: Grid,
    coeffs: Seq<i32>,
    f: Selection,
    q: u8,
    min_loss: u8,
    units: Seq<SubbandBitPlane>,
    base: int,
    s: Telling,
    d: Hearing,
    full: Seq<Decision>,
    j: int,
)
    requires
        g.ok(),
        1 <= g.levels <= 6,
        1 <= q <= 31,
        coeffs.len() == g.area(),
        0 <= base,
        base + units.len() <= unit_order(g, q, min_loss).len(),
        units == unit_order(g, q, min_loss).subrange(base, (base + units.len()) as int),
        forall|k: int|
            0 <= k < units.len() ==> is_unit(#[trigger] units[k], g.levels, q as int),
        in_step(s, d),
        knows(
            d,
            coeffs,
            q,
            order_depths(g, f, q, unit_order(g, q, min_loss), coeffs.len() as int, base),
        ),
        ch.bytes == encoded(ch.kind, full),
        full == units_told(g, coeffs, f, q, units, s, units.len() as int).log,
        0 <= j <= units.len(),
    ensures
        in_step(
            units_told(g, coeffs, f, q, units, s, j),
            units_heard(ch, g, f, q, units, d, j),
        ),
        knows(
            units_heard(ch, g, f, q, units, d, j),
            coeffs,
            q,
            order_depths(g, f, q, unit_order(g, q, min_loss), coeffs.len() as int, base + j),
        ),
    decreases j,
{
    if j > 0 {
        lemma_units(ch, g, coeffs, f, q, min_loss, units, base, s, d, full, j - 1);
        let order = unit_order(g, q, min_loss);
        let par = schedule_params(g, q, min_loss);
        let n = coeffs.len() as int;
        let u = units[j - 1];
        assert(u == order[base + j - 1]);
        assert(is_unit(u, g.levels, q as int));
        let bp = (q - 1 - u.bp_from_msb) as u32;
        let p = unit_patch(g, f, u.subband);
        lemma_unit_patch_inside(g, f, u.subband);
        planes_come_in_order(par, base + j - 1);
        let depths = order_depths(g, f, q, order, n, base + j - 1);
        let next = order_depths(g, f, q, order, n, base + j);
        let s0 = units_told(g, coeffs, f, q, units, s, j - 1);
        let d0 = units_heard(ch, g, f, q, units, d, j - 1);
        let s1 = units_told(g, coeffs, f, q, units, s, j);
        lemma_units_log_grows(g, coeffs, f, q, units, s, j, units.len() as int);
        assert forall|i: int|
            0 <= i < coeffs.len() && f.admits(i, bp as int) && reached(
                g,
                p,
                p.size(),
                i,
            ) implies ready(ScanPass::Combined, bp, coeffs[i], #[trigger] depths[i]) by {
            lemma_unit_reached(g, f, u.subband, i);
        }
        lemma_pass(
            ch,
            g,
            coeffs,
            f,
            ScanPass::Combined,
            bp,
            q,
            p,
            s0,
            d0,
            full,
            depths,
            p.size(),
        );
        let after = depths_after(g, coeffs, f, ScanPass::Combined, bp, p, depths, p.size());
        assert forall|i: int| 0 <= i < n implies after[i] == next[i] by {
            lemma_unit_reached(g, f, u.subband, i);
            lemma_planes_left_range(order, q as int, subband_of(g, i), base + j - 1);
        }
        assert(after =~= next);
    }
}

proof fn lemma_planes_left_range(order: Seq<SubbandBitPlane>, q: int, s: Subband, u: int)
    requires
        0 <= u <= order.len(),
    ensures
        planes_left(order, q, s, u) <= q,
    decreases u,
{
    if u > 0 {
        lemma_planes_left_range(order, q, s, u - 1);
    }
}

/// Number of bit planes in the first `k` packets of a schedule.
pub open spec fn units_before(plan: Seq<Scheduled>, k: int) -> int {
    scheduled_units(plan.take(k)).len() as int
}

proof fn lemma_units_before(plan: Seq<Scheduled>, k: int)
    requires
        0 <= k < plan.len(),
    ensures
        units_before(plan, k + 1) == units_before(plan, k) + plan[k].units.len(),
        scheduled_units(plan.take(k + 1)) == scheduled_units(plan.take(k)) + plan[k].units,
{
    assert(plan.take(k + 1).drop_last() =~= plan.take(k));
    assert(plan.take(k + 1).last() == plan[k]);
}

proof fn lemma_units_prefix(plan: Seq<Scheduled>, k: int)
    requires
        0 <= k <= plan.len(),
    ensures
        units_before(plan, k) <= scheduled_units(plan).len(),
        scheduled_units(plan.take(k)) == scheduled_units(plan).take(units_before(plan, k)),
    decreases plan.len() - k,
{
    let all = scheduled_units(plan);
    if k == plan.len() {
        assert(plan.take(k) =~= plan);
        assert(all.take(all.len() as int) =~= all);
    } else {
        lemma_units_prefix(plan, k + 1);
        lemma_units_before(plan, k);
        let a = scheduled_units(plan.take(k));
        let b = scheduled_units(plan.take(k + 1));
        assert(a =~= b.take(a.len() as int));
        assert(all.take(b.len() as int).take(a.len() as int) =~= all.take(a.len() as int));
    }
}

proof fn lemma_order_start(g: Grid, coeffs: Seq<i32>, f: Selection, q: u8, min_loss: u8)
    requires
        coeffs.len() == g.area(),
        1 <= q <= 31,
        scope_fits(g, coeffs, f, q),
    ensures
        knows(
            fresh_hearing(g.area(), q),
            coeffs,
            q,
            order_depths(g, f, q, unit_order(g, q, min_loss), coeffs.len() as int, 0),
        ),
{
    lemma_start(g, coeffs, f, q);
    assert(order_depths(g, f, q, unit_order(g, q, min_loss), coeffs.len() as int, 0)
        =~= plane_depths(g, f, q, coeffs.len() as int, 0));
}

/// While packets of the priority order arrive, the decoder knows what was
/// coded.
proof fn lemma_schedule(
    g: Grid,
    coeffs: Seq<i32>,
    f: Selection,
    kind: EntropyKind,
    q: u8,
    min_loss: u8,
    packets: Seq<Coded>,
    k: int,
)
    requires
        g.ok(),
        1 <= g.levels <= 6,
        1 <= q <= 31,
        coeffs.len() == g.area(),
        scope_fits(g, coeffs, f, q),
        0 <= k <= packets.len(),
        packets.len() <= prioritized_coded(g, coeffs, f, kind, q, min_loss).len(),
        packets == prioritized_coded(g, coeffs, f, kind, q, min_loss).take(packets.len() as int),
    ensures
        ({
            let plan = schedule(schedule_params(g, q, min_loss));
            let h = schedule_heard(g, f, kind, q, plan, packets, k);
            &&& prioritized_coded(g, coeffs, f, kind, q, min_loss).len() == plan.len()
            &&& !h.stopped
            &&& h.s.asked == Seq::<(u32, u32)>::empty()
            &&& h.s.scan == schedule_coded(g, coeffs, f, kind, q, plan, k).scan
            &&& knows(
                h.s,
                coeffs,
                q,
                order_depths(
                    g,
                    f,
                    q,
                    unit_order(g, q, min_loss),
                    coeffs.len() as int,
                    units_before(plan, k),
                ),
            )
        }),
    decreases k,
{
    let par = schedule_params(g, q, min_loss);
    let plan = schedule(par);
    let order = unit_order(g, q, min_loss);
    lemma_schedule_len(g, coeffs, f, kind, q, plan, plan.len() as int);
    if k == 0 {
        assert(plan.take(0) =~= Seq::empty());
        lemma_order_start(g, coeffs, f, q, min_loss);
    } else {
        lemma_schedule(g, coeffs, f, kind, q, min_loss, packets, k - 1);
        lemma_schedule_units(par);
        packets_carry_the_order(par);
        let sp = plan[k - 1];
        let units = sp.units;
        let base = units_before(plan, k - 1);
        lemma_units_before(plan, k - 1);
        lemma_units_prefix(plan, k);
        assert(units =~= order.subrange(base, (base + units.len()) as int)) by {
            let b = scheduled_units(plan.take(k));
            assert(b =~= order.take(b.len() as int));
            assert forall|j: int| 0 <= j < units.len() implies units[j] == order[base + j] by {
                assert(b[base + j] == units[j]);
            }
        }
        let before = schedule_coded(g, coeffs, f, kind, q, plan, k - 1);
        let h = schedule_heard(g, f, kind, q, plan, packets, k - 1);
        let s = Telling { scan: before.scan, log: Seq::empty() };
        let full = units_told(g, coeffs, f, q, units, s, units.len() as int).log;
        let ch = Channel { kind, bytes: encoded(kind, full) };
        assert forall|j: int| 0 <= j < units.len() implies is_unit(
            #[trigger] units[j],
            g.levels,
            q as int,
        ) by {
            assert(is_unit(plan[k - 1].units[j], par.levels, par.q));
        }
        lemma_units_log_grows(g, coeffs, f, q, units, s, 0, units.len() as int);
        assert(2 * g.area() * units.len() <= 48 * g.area()) by (nonlinear_arith)
            requires
                units.len() <= 24,
                g.area() >= 0,
        ;
        assert(h.s.asked =~= probabilities(s.log));
        lemma_units(
            ch,
            g,
            coeffs,
            f,
            q,
            min_loss,
            units,
            base,
            s,
            h.s,
            full,
            units.len() as int,
        );
        lemma_schedule_prefix(g, coeffs, f, kind, q, plan, k, plan.len() as int);
        lemma_schedule_len(g, coeffs, f, kind, q, plan, k);
        lemma_schedule_len(g, coeffs, f, kind, q, plan, k - 1);
        let all = prioritized_coded(g, coeffs, f, kind, q, min_loss);
        let mine = schedule_coded(g, coeffs, f, kind, q, plan, k).packets;
        assert(packets[k - 1] == all[k - 1]);
        assert(all.take(k)[k - 1] == mine[k - 1]);
        let d1 = units_heard(ch, g, f, q, units, h.s, units.len() as int);
        let depths = order_depths(g, f, q, order, coeffs.len() as int, base + units.len());
        assert(knows(silent(d1), coeffs, q, depths)) by {
            assert forall|i: int| 0 <= i < coeffs.len() implies #[trigger] knows_one(
                silent(d1),
                coeffs,
                q,
                depths,
                i,
            ) by {
                assert(knows_one(d1, coeffs, q, depths, i));
            }
        }
    }
}

proof fn lemma_schedule_len(
    g: Grid,
    coeffs: Seq<i32>,
    f: Selection,
    kind: EntropyKind,
    q: u8,
    plan: Seq<Scheduled>,
    k: int,
)
    requires
        0 <= k,
    ensures
        schedule_coded(g, coeffs, f, kind, q, plan, k).packets.len() == k,
    decreases k,
{
    if k > 0 {
        lemma_schedule_len(g, coeffs, f, kind, q, plan, k - 1);
    }
}

proof fn lemma_schedule_prefix(
    g: Grid,
    coeffs: Seq<i32>,
    f: Selection,
    kind: EntropyKind,
    q: u8,
    plan: Seq<Scheduled>,
    a: int,
    b: int,
)
    requires
        0 <= a <= b,
    ensures
        schedule_coded(g, coeffs, f, kind, q, plan, b).packets.take(a) == schedule_coded(
            g,
            coeffs,
            f,
            kind,
            q,
            plan,
            a,
        ).packets,
    decreases b - a,
{
    lemma_schedule_len(g, coeffs, f, kind, q, plan, a);
    lemma_schedule_len(g, coeffs, f, kind, q, plan, b);
    let pb = schedule_coded(g, coeffs, f, kind, q, plan, b).packets;
    if a == b {
        assert(pb.take(a) =~= pb);
    } else {
        lemma_schedule_prefix(g, coeffs, f, kind, q, plan, a, b - 1);
        lemma_schedule_len(g, coeffs, f, kind, q, plan, b - 1);
        let pm = schedule_coded(g, coeffs, f, kind, q, plan, b - 1).packets;
        assert(pb.take(a) =~= pm.take(a));
    }
}

proof fn lemma_schedule_ends(
    g: Grid,
    f: Selection,
    kind: EntropyKind,
    q: u8,
    plan: Seq<Scheduled>,
    packets: Seq<Coded>,
    k: int,
)
    requires
        packets.len() <= k,
    ensures
        schedule_heard(g, f, kind, q, plan, packets, k).s == schedule_heard(
            g,
            f,
            kind,
            q,
            plan,
            packets,
            packets.len() as int,
        ).s,
    decreases k - packets.len(),
{
    if k > packets.len() {
        lemma_schedule_ends(g, f, kind, q, plan, packets, k - 1);
    }
}

/// **A stream in the priority order that ends early decodes to what has
/// arrived**: the first `k` packets decode, coefficient by coefficient, to the
/// value that the bits which have arrived stand for.
pub proof fn prioritized_packets_read_back(
    g: Grid,
    coeffs: Seq<i32>,
    f: Selection,
    kind: EntropyKind,
    q: u8,
    min_loss: u8,
    k: int,
)
    requires
        g.ok(),
        1 <= g.levels <= 6,
        1 <= q <= 31,
        coeffs.len() == g.area(),
        scope_fits(g, coeffs, f, q),
        0 <= k <= schedule(schedule_params(g, q, min_loss)).len(),
    ensures
        prioritized_coded(g, coeffs, f, kind, q, min_loss).len() == schedule(
            schedule_params(g, q, min_loss),
        ).len(),
        prioritized_decoded(
            g,
            f,
            kind,
            q,
            min_loss,
            prioritized_coded(g, coeffs, f, kind, q, min_loss).take(k),
        ) == Seq::new(
            coeffs.len(),
            |i: int|
                value_to(
                    coeffs[i],
                    order_depth(
                        g,
                        f,
                        q,
                        unit_order(g, q, min_loss),
                        i,
                        units_before(schedule(schedule_params(g, q, min_loss)), k),
                    ),
                ),
        ),
{
    let plan = schedule(schedule_params(g, q, min_loss));
    lemma_schedule_len(g, coeffs, f, kind, q, plan, plan.len() as int);
    let packets = prioritized_coded(g, coeffs, f, kind, q, min_loss).take(k);
    lemma_schedule(g, coeffs, f, kind, q, min_loss, packets, k);
    lemma_schedule_ends(g, f, kind, q, plan, packets, plan.len() as int);
    let h = schedule_heard(g, f, kind, q, plan, packets, k);
    let order = unit_order(g, q, min_loss);
    let depths = order_depths(g, f, q, order, coeffs.len() as int, units_before(plan, k));
    lemma_values(h.s, coeffs, q, depths);
    assert(Seq::new(coeffs.len(), |i: int| value_to(coeffs[i], depths[i])) =~= Seq::new(
        coeffs.len(),
        |i: int| value_to(coeffs[i], order_depth(g, f, q, order, i, units_before(plan, k))),
    ));
}

/// How far coefficient `i` is known once the whole stream has arrived.
pub open spec fn final_depth(g: Grid, f: Selection, q: u8, min_loss: u8, i: int) -> u32 {
    let floor = floor_of(g, f, q, i);
    let excluded = excluded_planes(subband_of(g, i), g.levels, min_loss as int);
    let left = if excluded < q {
        excluded
    } else {
        q as int
    };
    if floor >= left {
        floor
    } else {
        left as u32
    }
}

pub proof fn lemma_subband_of(g: Grid, i: int)
    requires
        1 <= g.levels <= 6,
        0 <= i < g.area(),
    ensures
        is_subband(subband_of(g, i), g.levels as int),
{
    let w = g.width as int;
    lemma_classified_level(i % w, i / w, 1, g.levels as int);
}

/// **A whole stream in the priority order decodes to every bit that was not
/// left out.**
pub proof fn prioritized_reads_back(
    g: Grid,
    coeffs: Seq<i32>,
    f: Selection,
    kind: EntropyKind,
    q: u8,
    min_loss: u8,
)
    requires
        g.ok(),
        1 <= g.levels <= 6,
        1 <= q <= 31,
        coeffs.len() == g.area(),
        scope_fits(g, coeffs, f, q),
    ensures
        prioritized_decoded(
            g,
            f,
            kind,
            q,
            min_loss,
            prioritized_coded(g, coeffs, f, kind, q, min_loss),
        ) == Seq::new(
            coeffs.len(),
            |i: int| value_to(coeffs[i], final_depth(g, f, q, min_loss, i)),
        ),
        f == everything() && min_loss == 0 ==> prioritized_decoded(
            g,
            f,
            kind,
            q,
            min_loss,
            prioritized_coded(g, coeffs, f, kind, q, min_loss),
        ) == coeffs,
{
    let par = schedule_params(g, q, min_loss);
    let plan = schedule(par);
    let n = plan.len() as int;
    let all = prioritized_coded(g, coeffs, f, kind, q, min_loss);
    prioritized_packets_read_back(g, coeffs, f, kind, q, min_loss, n);
    assert(all.take(n) =~= all);
    packets_carry_the_order(par);
    assert(plan.take(n) =~= plan);
    let order = unit_order(g, q, min_loss);
    let out = prioritized_decoded(g, f, kind, q, min_loss, all);
    let expected = Seq::new(
        coeffs.len(),
        |i: int| value_to(coeffs[i], final_depth(g, f, q, min_loss, i)),
    );
    assert forall|i: int| 0 <= i < coeffs.len() implies out[i] == expected[i] by {
        lemma_subband_of(g, i);
        all_planes_come(par, subband_of(g, i));
    }
    assert(out =~= expected);
    if f == everything() && min_loss == 0 {
        assert forall|i: int| 0 <= i < coeffs.len() implies out[i] == coeffs[i] by {
            lemma_whole_scope(g, i);
            lemma_subband_of(g, i);
            assert(final_depth(g, f, q, min_loss, i) == 0);
            lemma_exact_value(coeffs[i], q);
        }
        assert(out =~= coeffs);
    }
}

// ---------------------------------------------------------------------------
// One body
// ---------------------------------------------------------------------------

/// The encoder of one body after the significance bits of bit plane `p`.
spec fn single_half(g: Grid, coeffs: Seq<i32>, q: u8, p: int) -> Telling {
    let w = window_patch(g, everything());
    told(
        g,
        coeffs,
        everything(),
        ScanPass::Significance,
        (q - 1 - p) as u32,
        w,
        single_told(g, coeffs, q, p),
        w.size(),
    )
}

proof fn lemma_single_step(g: Grid, coeffs: Seq<i32>, q: u8, p: int)
    requires
        0 <= p < q,
    ensures
        ({
            let a = single_told(g, coeffs, q, p).log;
            let h = single_half(g, coeffs, q, p).log;
            let b = single_told(g, coeffs, q, p + 1).log;
            &&& a.len() <= h.len() <= b.len() <= a.len() + 4 * g.area()
            &&& a == b.take(a.len() as int)
            &&& h == b.take(h.len() as int)
        }),
{
    let f = everything();
    let w = window_patch(g, f);
    let bp = (q - 1 - p) as u32;
    lemma_window_size(g, f);
    let s = single_told(g, coeffs, q, p);
    let h = single_half(g, coeffs, q, p);
    let b = single_told(g, coeffs, q, p + 1);
    lemma_log_grows(g, coeffs, f, ScanPass::Significance, bp, w, s, 0, w.size());
    lemma_log_grows(g, coeffs, f, ScanPass::Refinement, bp, w, h, 0, w.size());
    assert(b.log.take(s.log.len() as int) =~= h.log.take(s.log.len() as int));
}

proof fn lemma_single_grows(g: Grid, coeffs: Seq<i32>, q: u8, a: int, b: int)
    requires
        0 <= a <= b <= q,
    ensures
        ({
            let la = single_told(g, coeffs, q, a).log;
            let lb = single_told(g, coeffs, q, b).log;
            la.len() <= lb.len() <= la.len() + 4 * g.area() * (b - a) && la == lb.take(
                la.len() as int,
            )
        }),
    decreases b - a,
{
    let la = single_told(g, coeffs, q, a).log;
    let lb = single_told(g, coeffs, q, b).log;
    if a == b {
        assert(la =~= lb.take(la.len() as int));
    } else {
        lemma_single_grows(g, coeffs, q, a, b - 1);
        lemma_single_step(g, coeffs, q, b - 1);
        let m = single_told(g, coeffs, q, b - 1).log;
        assert(lb.take(la.len() as int) =~= m.take(la.len() as int));
        assert(4 * g.area() * (b - a) == 4 * g.area() * (b - 1 - a) + 4 * g.area())
            by (nonlinear_arith);
    }
}

proof fn lemma_single(
    ch: Channel,
    g: Grid,
    coeffs: Seq<i32>,
    q: u8,
    full: Seq<Decision>,
    p: int,
)
    requires
        coeffs.len() == g.area(),
        1 <= q <= 31,
        fits_planes(coeffs, q as int),
        full == single_told(g, coeffs, q, q as int).log,
        ch.bytes == encoded(ch.kind, full),
        0 <= p <= q,
    ensures
        in_step(single_told(g, coeffs, q, p), single_heard(ch, g, q, p)),
        knows(
            single_heard(ch, g, q, p),
            coeffs,
            q,
            plane_depths(g, everything(), q, coeffs.len() as int, p),
        ),
    decreases p,
{
    let f = everything();
    if p == 0 {
        lemma_start(g, coeffs, f, q);
        assert(fresh_hearing(g.area(), q).asked =~= probabilities(
            single_told(g, coeffs, q, 0).log,
        ));
    } else {
        lemma_single(ch, g, coeffs, q, full, p - 1);
        let n = coeffs.len() as int;
        let w = window_patch(g, f);
        lemma_window_size(g, f);
        let bp = (q - p) as u32;
        let s = single_told(g, coeffs, q, p - 1);
        let h = single_half(g, coeffs, q, p - 1);
        let b = single_told(g, coeffs, q, p);
        let d = single_heard(ch, g, q, p - 1);
        lemma_single_step(g, coeffs, q, p - 1);
        lemma_single_grows(g, coeffs, q, p, q as int);
        assert(h.log =~= full.take(h.log.len() as int)) by {
            assert(full.take(b.log.len() as int).take(h.log.len() as int) =~= full.take(
                h.log.len() as int,
            ));
        }
        lemma_half_plane(g, coeffs, f, q, p - 1);
        let depths = plane_depths(g, f, q, n, p - 1);
        assert forall|i: int|
            0 <= i < coeffs.len() && f.admits(i, bp as int) && reached(
                g,
                w,
                w.size(),
                i,
            ) implies ready(ScanPass::Significance, bp, coeffs[i], #[trigger] depths[i]) by {
            lemma_window_reached(g, f, i);
        }
        lemma_pass(
            ch,
            g,
            coeffs,
            f,
            ScanPass::Significance,
            bp,
            q,
            w,
            s,
            d,
            full,
            depths,
            w.size(),
        );
        let d1 = heard(ch, g, f, ScanPass::Significance, bp, w, d, w.size());
        lemma_whole_plane(g, coeffs, f, q, p - 1);
        let half = half_depths(g, coeffs, f, q, p - 1);
        assert forall|i: int|
            0 <= i < coeffs.len() && f.admits(i, bp as int) && reached(
                g,
                w,
                w.size(),
                i,
            ) implies ready(ScanPass::Refinement, bp, coeffs[i], #[trigger] half[i]) by {
            lemma_window_reached(g, f, i);
        }
        lemma_pass(
            ch,
            g,
            coeffs,
            f,
            ScanPass::Refinement,
            bp,
            q,
            w,
            h,
            d1,
            full,
            half,
            w.size(),
        );
    }
}

/// **One body is lossless**: it decodes to the coefficients that went in.
pub proof fn single_body_reads_back(g: Grid, coeffs: Seq<i32>, q: u8)
    requires
        coeffs.len() == g.area(),
        1 <= q <= 31,
        fits_planes(coeffs, q as int),
    ensures
        plain(
            single_heard(
                (Channel {
                    kind: EntropyKind::Arithmetic,
                    bytes: arith_encoded(single_told(g, coeffs, q, q as int).log),
                }),
                g,
                q,
                q as int,
            ),
        ) == coeffs,
{
    let full = single_told(g, coeffs, q, q as int).log;
    let ch = Channel { kind: EntropyKind::Arithmetic, bytes: arith_encoded(full) };
    lemma_single(ch, g, coeffs, q, full, q as int);
    let d = single_heard(ch, g, q, q as int);
    let depths = plane_depths(g, everything(), q, coeffs.len() as int, q as int);
    let out = plain(d);
    assert forall|i: int| 0 <= i < coeffs.len() implies out[i] == coeffs[i] by {
        assert(knows_one(d, coeffs, q, depths, i));
        lemma_whole_scope(g, i);
        assert(depths[i] == 0);
        let m = magnitude_of(coeffs[i]);
        assert((m >> 0u32) << 0u32 == m) by (bit_vector);
        assert(m >> 0u32 == m) by (bit_vector);
        lemma_exact_value(coeffs[i], q);
    }
    assert(out =~= coeffs);
}

} // verus!
