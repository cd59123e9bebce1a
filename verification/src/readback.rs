//! Decoding follows encoding.
//!
//! While the decoder runs over a packet, it and the encoder know the same, and
//! ask and answer with the same probabilities. So what arrives is what was
//! sent, and after any number of whole packets the decoder knows of each
//! coefficient exactly the bits that have been coded.

use crate::arith::{probabilities, Decision};
use crate::bitplane::{bitplanes_coded, bitplanes_decoded, body_of, index_from, fits_planes, pass_heard, pass_told, planes_coded, planes_heard, Coded};
use crate::context::{flag, refinement_choice};
use crate::entropy::{decoded, encoded, source_reads_back, EntropyKind};
use crate::priority::lemma_index;
use crate::scan::{answer, everything, bit_at, categories_advanced, deadzone, decision, fresh_hearing, has_axis_neighbour, hear, heard, lemma_place_inside, magnitude_of, noticed, reconstructed, refinement_probability, sign_choice_at, significance_context_at, silent, tell, told, window_patch, with_bit, with_fresh_model, Channel, Grid, Hearing, Patch, Scan, ScanPass, Selection, Telling};
use vstd::prelude::*;
use vstd::arithmetic::power2::pow2;

verus! {

// ---------------------------------------------------------------------------
// What is known of a coefficient
// ---------------------------------------------------------------------------

/// The decoder knows the bits of `c` from bit `t` on, and no others, where
/// there are `q` bit planes.
pub open spec fn known_to(c: i32, q: u8, t: u32, significant: bool, sign: bool, mag: u32, last: u8) -> bool {
    let m = magnitude_of(c);
    &&& significant == (m >> t != 0)
    &&& sign == (significant && c < 0)
    &&& mag == (m >> t) << t
    &&& last == (if significant {
        t as u8
    } else {
        q
    })
}

/// The decoder has an entry for each of `n` coefficients.
pub open spec fn shaped(d: Hearing, n: int) -> bool {
    &&& d.scan.significant.len() == n
    &&& d.scan.sign.len() == n
    &&& d.scan.cat.len() == n
    &&& d.mag.len() == n
    &&& d.last.len() == n
}

/// What the decoder knows of coefficient `i`.
pub open spec fn knows_one(d: Hearing, coeffs: Seq<i32>, q: u8, depths: Seq<u32>, i: int) -> bool {
    known_to(
        coeffs[i],
        q,
        depths[i],
        d.scan.significant[i],
        d.scan.sign[i],
        d.mag[i],
        d.last[i],
    )
}

/// The decoder knows the bits of each coefficient down to its depth.
pub open spec fn knows(d: Hearing, coeffs: Seq<i32>, q: u8, depths: Seq<u32>) -> bool {
    &&& shaped(d, coeffs.len() as int)
    &&& depths.len() == coeffs.len()
    &&& forall|i: int| 0 <= i < coeffs.len() ==> #[trigger] knows_one(d, coeffs, q, depths, i)
}

/// Encoder and decoder know the same and agree on the questions so far.
pub open spec fn in_step(s: Telling, d: Hearing) -> bool {
    s.scan == d.scan && d.asked == probabilities(s.log)
}

/// How far a coefficient has to be known before a pass over bit plane `bp`
/// that visits it.
pub open spec fn ready(pass: ScanPass, bp: u32, c: i32, t: u32) -> bool {
    if pass is Refinement && magnitude_of(c) >> ((bp + 1) as u32) == 0 {
        t == bp
    } else {
        t == bp + 1
    }
}

/// How far a coefficient is known after the visit.
pub open spec fn depth_after(pass: ScanPass, bp: u32, c: i32, t: u32) -> u32 {
    if pass is Significance && magnitude_of(c) >> ((bp + 1) as u32) != 0 {
        t
    } else {
        bp
    }
}

pub proof fn lemma_bits(m: u32, bp: u32, b1: u32)
    requires
        bp < 31,
        b1 == bp + 1,
    ensures
        bit_at(m, bp) <= 1,
        m >> b1 == 0 ==> m >> bp == bit_at(m, bp),
        m >> b1 != 0 ==> m >> bp != 0 && m >> bp != 1,
        (m >> bp) << bp == with_bit((m >> b1) << b1, bp, bit_at(m, bp)),
        m >> b1 == 0 ==> (m >> b1) << b1 == 0,
        ((m >> b1) << b1) >> bp != 1,
        ((m >> bp) << bp) >> bp == m >> bp,
{
    let bit = (m >> bp) & 1;
    assert(bit <= 1 && (m >> b1 == 0 ==> m >> bp == bit) && (m >> b1 != 0 ==> m >> bp != 0 && m
        >> bp != 1) && (bit == 1 ==> (m >> bp) << bp == ((m >> b1) << b1) | (1u32 << bp)) && (bit
        == 0 ==> (m >> bp) << bp == (m >> b1) << b1) && (m >> b1 == 0 ==> (m >> b1) << b1 == 0)
        && ((m >> b1) << b1) >> bp != 1 && ((m >> bp) << bp) >> bp == m >> bp) by (bit_vector)
        requires
            bit == (m >> bp) & 1,
            bp < 31,
            b1 == bp + 1,
    ;
}

/// A source answers with the next symbol that the sink was given.
pub proof fn lemma_reads(kind: EntropyKind, full: Seq<Decision>, log: Seq<Decision>, symbol: u8, p: (
    u32,
    u32,
))
    requires
        log.len() < full.len(),
        log.push(decision(symbol, p)) == full.take((log.len() + 1) as int),
        symbol <= 1,
    ensures
        decoded(kind, encoded(kind, full), probabilities(log), p.0, p.1) == symbol,
        probabilities(log).push(p) == probabilities(log.push(decision(symbol, p))),
{
    let k = log.len() as int;
    source_reads_back(kind, full, k);
    let more = log.push(decision(symbol, p));
    assert(more[k] == full[k]);
    assert(full.take(k) =~= log) by {
        assert forall|i: int| 0 <= i < k implies full[i] == log[i] by {
            assert(more[i] == full.take(k + 1)[i]);
        }
    }
    assert(probabilities(log).push(p) =~= probabilities(more));
}

proof fn lemma_answer(ch: Channel, full: Seq<Decision>, d: Hearing, log: Seq<Decision>, symbol: u8, p: (
    u32,
    u32,
))
    requires
        ch.bytes == encoded(ch.kind, full),
        d.asked == probabilities(log),
        log.len() < full.len(),
        log.push(decision(symbol, p)) == full.take((log.len() + 1) as int),
        symbol <= 1,
    ensures
        answer(ch, d, p) == symbol,
        d.asked.push(p) == probabilities(log.push(decision(symbol, p))),
{
    lemma_reads(ch.kind, full, log, symbol, p);
}

/// A visit keeps both sides in step, and takes the decoder one bit further.
proof fn lemma_visit(
    ch: Channel,
    g: Grid,
    coeffs: Seq<i32>,
    f: Selection,
    pass: ScanPass,
    bp: u32,
    q: u8,
    s: Telling,
    d: Hearing,
    full: Seq<Decision>,
    x: int,
    y: int,
    t: u32,
)
    requires
        coeffs.len() == g.area(),
        shaped(d, coeffs.len() as int),
        0 <= x < g.width,
        0 <= y < g.height,
        bp < 31,
        in_step(s, d),
        ch.bytes == encoded(ch.kind, full),
        ({
            let after = tell(g, coeffs, f, pass, bp, s, x, y).log;
            after.len() <= full.len() && after == full.take(after.len() as int)
        }),
        ({
            let i = g.at(x, y);
            &&& known_to(
                coeffs[i],
                q,
                t,
                d.scan.significant[i],
                d.scan.sign[i],
                d.mag[i],
                d.last[i],
            )
            &&& f.admits(i, bp as int) ==> ready(pass, bp, coeffs[i], t)
        }),
    ensures
        ({
            let i = g.at(x, y);
            let s1 = tell(g, coeffs, f, pass, bp, s, x, y);
            let d1 = hear(ch, g, f, pass, bp, d, x, y);
            let t1 = if f.admits(i, bp as int) {
                depth_after(pass, bp, coeffs[i], t)
            } else {
                t
            };
            &&& in_step(s1, d1)
            &&& shaped(d1, coeffs.len() as int)
            &&& known_to(
                coeffs[i],
                q,
                t1,
                d1.scan.significant[i],
                d1.scan.sign[i],
                d1.mag[i],
                d1.last[i],
            )
            &&& forall|j: int|
                0 <= j < coeffs.len() && j != i ==> {
                    &&& #[trigger] d1.mag[j] == d.mag[j]
                    &&& d1.last[j] == d.last[j]
                    &&& d1.scan.significant[j] == d.scan.significant[j]
                    &&& d1.scan.sign[j] == d.scan.sign[j]
                }
        }),
{
    let i = g.at(x, y);
    lemma_index(x, y, g.width as int, g.height as int);
    let c = coeffs[i];
    let m = magnitude_of(c);
    lemma_bits(m, bp, (bp + 1) as u32);
    if f.admits(i, bp as int) {
        if !s.scan.significant[i] {
            if !(pass is Refinement) {
                let bit = bit_at(m, bp);
                let ctx = significance_context_at(g, s.scan.significant, x, y);
                let p = s.scan.model[ctx as int];
                let after = tell(g, coeffs, f, pass, bp, s, x, y);
                let log1 = s.log.push(decision(bit, p));
                if bit == 1 {
                    assert(log1 =~= full.take(log1.len() as int)) by {
                        assert(after.log.take(log1.len() as int) =~= log1);
                        assert(full.take(after.log.len() as int).take(log1.len() as int)
                            =~= full.take(log1.len() as int));
                    }
                }
                lemma_answer(ch, full, d, s.log, bit, p);
                if bit == 1 {
                    let scan1 = noticed(s.scan, i, ctx, bit);
                    let (flip, sctx) = sign_choice_at(g, scan1.significant, scan1.sign, x, y);
                    let coded = flag(flip != (c < 0));
                    let d1 = Hearing {
                        scan: scan1,
                        mag: d.mag.update(i, with_bit(d.mag[i], bp, bit)),
                        last: d.last.update(i, bp as u8),
                        asked: d.asked.push(p),
                    };
                    lemma_answer(ch, full, d1, log1, coded, scan1.model[sctx as int]);
                }
            }
        } else if pass is Significance || (pass is Refinement && m >> bp == 1) {
        } else {
            let bit = bit_at(m, bp);
            let choice = refinement_choice(
                s.scan.cat[i],
                has_axis_neighbour(g, s.scan.significant, x, y),
            );
            let p = refinement_probability(s.scan.model, choice);
            lemma_answer(ch, full, d, s.log, bit, p);
        }
    }
}

// ---------------------------------------------------------------------------
// Passes
// ---------------------------------------------------------------------------

/// Where place `j` of a patch lies in the buffer.
pub open spec fn place_at(g: Grid, p: Patch, j: int) -> int {
    g.at(p.x(j), p.y(j))
}

/// One of the first `k` places of a patch lies at `i`.
pub open spec fn reached(g: Grid, p: Patch, k: int, i: int) -> bool {
    exists|j: int| 0 <= j < k && #[trigger] place_at(g, p, j) == i
}

pub proof fn lemma_places_differ(g: Grid, p: Patch, j: int, k: int)
    requires
        p.inside(g),
        0 <= j < k < p.size(),
    ensures
        place_at(g, p, j) != place_at(g, p, k),
{
    lemma_place_inside(g, p, j);
    lemma_place_inside(g, p, k);
    lemma_index(p.x(j), p.y(j), g.width as int, g.height as int);
    lemma_index(p.x(k), p.y(k), g.width as int, g.height as int);
    if place_at(g, p, j) == place_at(g, p, k) {
        let c = p.columns as int;
        let s = p.step as int;
        assert(c > 0) by (nonlinear_arith)
            requires
                0 <= k < c * p.rows,
        ;
        assert((j % c) * s == (k % c) * s && (j / c) * s == (k / c) * s);
        assert(j % c == k % c) by (nonlinear_arith)
            requires
                (j % c) * s == (k % c) * s,
                s >= 1,
        ;
        assert(j / c == k / c) by (nonlinear_arith)
            requires
                (j / c) * s == (k / c) * s,
                s >= 1,
        ;
        vstd::arithmetic::div_mod::lemma_fundamental_div_mod(j, c);
        vstd::arithmetic::div_mod::lemma_fundamental_div_mod(k, c);
    }
}

/// How far each coefficient is known after the first `k` places of a pass.
pub open spec fn depths_after(
    g: Grid,
    coeffs: Seq<i32>,
    f: Selection,
    pass: ScanPass,
    bp: u32,
    p: Patch,
    depths: Seq<u32>,
    k: int,
) -> Seq<u32> {
    Seq::new(
        depths.len(),
        |i: int|
            if f.admits(i, bp as int) && reached(g, p, k, i) {
                depth_after(pass, bp, coeffs[i], depths[i])
            } else {
                depths[i]
            },
    )
}

pub proof fn lemma_log_grows(
    g: Grid,
    coeffs: Seq<i32>,
    f: Selection,
    pass: ScanPass,
    bp: u32,
    p: Patch,
    start: Telling,
    j: int,
    k: int,
)
    requires
        0 <= j <= k,
    ensures
        ({
            let a = told(g, coeffs, f, pass, bp, p, start, j).log;
            let b = told(g, coeffs, f, pass, bp, p, start, k).log;
            a.len() <= b.len() <= a.len() + 2 * (k - j) && a == b.take(a.len() as int)
        }),
    decreases k - j,
{
    let a = told(g, coeffs, f, pass, bp, p, start, j).log;
    let b = told(g, coeffs, f, pass, bp, p, start, k).log;
    if j == k {
        assert(a =~= b.take(a.len() as int));
    } else {
        lemma_log_grows(g, coeffs, f, pass, bp, p, start, j, k - 1);
        let m = told(g, coeffs, f, pass, bp, p, start, k - 1).log;
        assert(b.take(m.len() as int) =~= m);
        assert(b.take(a.len() as int) =~= m.take(a.len() as int));
    }
}

/// A pass keeps both sides in step, and takes the decoder one bit further
/// wherever it comes.
pub proof fn lemma_pass(
    ch: Channel,
    g: Grid,
    coeffs: Seq<i32>,
    f: Selection,
    pass: ScanPass,
    bp: u32,
    q: u8,
    p: Patch,
    s: Telling,
    d: Hearing,
    full: Seq<Decision>,
    depths: Seq<u32>,
    k: int,
)
    requires
        coeffs.len() == g.area(),
        p.inside(g),
        0 <= k <= p.size(),
        bp < 31,
        in_step(s, d),
        knows(d, coeffs, q, depths),
        ch.bytes == encoded(ch.kind, full),
        ({
            let log = told(g, coeffs, f, pass, bp, p, s, p.size()).log;
            log.len() <= full.len() && log == full.take(log.len() as int)
        }),
        forall|i: int|
            0 <= i < coeffs.len() && f.admits(i, bp as int) && reached(g, p, p.size(), i)
                ==> ready(pass, bp, coeffs[i], #[trigger] depths[i]),
    ensures
        in_step(
            told(g, coeffs, f, pass, bp, p, s, k),
            heard(ch, g, f, pass, bp, p, d, k),
        ),
        knows(
            heard(ch, g, f, pass, bp, p, d, k),
            coeffs,
            q,
            depths_after(g, coeffs, f, pass, bp, p, depths, k),
        ),
    decreases k,
{
    let after = depths_after(g, coeffs, f, pass, bp, p, depths, k);
    if k == 0 {
        assert(after =~= depths);
    } else {
        lemma_pass(ch, g, coeffs, f, pass, bp, q, p, s, d, full, depths, k - 1);
        let before = depths_after(g, coeffs, f, pass, bp, p, depths, k - 1);
        let s0 = told(g, coeffs, f, pass, bp, p, s, k - 1);
        let d0 = heard(ch, g, f, pass, bp, p, d, k - 1);
        let s1 = told(g, coeffs, f, pass, bp, p, s, k);
        let d1 = heard(ch, g, f, pass, bp, p, d, k);
        let (x, y) = (p.x(k - 1), p.y(k - 1));
        let i = place_at(g, p, k - 1);
        lemma_place_inside(g, p, k - 1);
        lemma_log_grows(g, coeffs, f, pass, bp, p, s, k, p.size());
        let log = told(g, coeffs, f, pass, bp, p, s, p.size()).log;
        assert(s1.log =~= full.take(s1.log.len() as int)) by {
            assert(full.take(log.len() as int).take(s1.log.len() as int) =~= full.take(
                s1.log.len() as int,
            ));
        }
        assert(!reached(g, p, k - 1, i)) by {
            assert forall|j: int| 0 <= j < k - 1 implies #[trigger] place_at(g, p, j) != i by {
                lemma_places_differ(g, p, j, k - 1);
            }
        }
        assert(reached(g, p, p.size(), i));
        assert(reached(g, p, k, i));
        assert(before[i] == depths[i]);
        assert(knows_one(d0, coeffs, q, before, i));
        lemma_visit(ch, g, coeffs, f, pass, bp, q, s0, d0, full, x, y, depths[i]);
        assert forall|j: int| 0 <= j < coeffs.len() implies #[trigger] knows_one(
            d1,
            coeffs,
            q,
            after,
            j,
        ) by {
            assert(knows_one(d0, coeffs, q, before, j));
            if j != i {
                assert(d1.mag[j] == d0.mag[j]);
                assert(reached(g, p, k, j) == reached(g, p, k - 1, j)) by {
                    if reached(g, p, k, j) {
                        let w = choose|w: int| 0 <= w < k && #[trigger] place_at(g, p, w) == j;
                        assert(w != k - 1);
                        assert(reached(g, p, k - 1, j));
                    }
                    if reached(g, p, k - 1, j) {
                        let w = choose|w: int| 0 <= w < k - 1 && #[trigger] place_at(g, p, w) == j;
                        assert(reached(g, p, k, j));
                    }
                }
                assert(after[j] == before[j]);
            }
        }
    }
}

// ---------------------------------------------------------------------------
// The plain order
// ---------------------------------------------------------------------------

/// A filter lets coefficient `i` be coded at all.
pub open spec fn in_scope(g: Grid, f: Selection, i: int) -> bool {
    let (x0, x1, y0, y1) = f.limits(g.width as int, g.height as int);
    &&& x0 <= i % (g.width as int) < x1
    &&& y0 <= i / (g.width as int) < y1
    &&& f.in_segment(i)
}

/// Every magnitude that is coded is below `2^q`.
pub open spec fn scope_fits(g: Grid, coeffs: Seq<i32>, f: Selection, q: u8) -> bool {
    forall|i: int|
        0 <= i < coeffs.len() && in_scope(g, f, i) ==> magnitude_of(#[trigger] coeffs[i]) < pow2(
            q as nat,
        )
}

/// The lowest bit of coefficient `i` that a filter lets be coded; 32 where
/// there is none.
pub open spec fn floor_of(g: Grid, f: Selection, q: u8, i: int) -> u32 {
    if !in_scope(g, f, i) {
        32
    } else if f.skipped(i) < q {
        f.skipped(i) as u32
    } else {
        q as u32
    }
}

/// How far coefficient `i` is known after the first `p` bit planes.
pub open spec fn depth_of(g: Grid, f: Selection, q: u8, i: int, p: int) -> u32 {
    let floor = floor_of(g, f, q, i);
    if floor >= q - p {
        floor
    } else {
        (q - p) as u32
    }
}

/// How far each coefficient is known after the first `p` bit planes.
pub open spec fn plane_depths(g: Grid, f: Selection, q: u8, n: int, p: int) -> Seq<u32> {
    Seq::new(n as nat, |i: int| depth_of(g, f, q, i, p))
}

/// How far coefficient `i` is known after the first `k` packets: where the
/// last one is of significance bits, a coefficient without a one above them is
/// known one bit further.
pub open spec fn packet_depth(g: Grid, coeffs: Seq<i32>, f: Selection, q: u8, i: int, k: int) -> u32 {
    let p = k / 2;
    let t = depth_of(g, f, q, i, p);
    if k % 2 == 1 && floor_of(g, f, q, i) <= q - 1 - p && magnitude_of(coeffs[i]) >> ((q - p) as u32)
        == 0 {
        (q - 1 - p) as u32
    } else {
        t
    }
}

/// The value of a coefficient that is known from bit `t` on.
pub open spec fn value_to(c: i32, t: u32) -> i32 {
    deadzone((magnitude_of(c) >> t) << t, c < 0, t as u8)
}

pub proof fn lemma_window_size(g: Grid, f: Selection)
    ensures
        window_patch(g, f).inside(g),
        0 <= window_patch(g, f).size() <= g.area(),
        window_patch(g, f).columns <= g.width,
        window_patch(g, f).rows <= g.height,
{
    let p = window_patch(g, f);
    assert((p.columns - 1) * p.step == p.columns - 1 && (p.rows - 1) * p.step == p.rows - 1)
        by (nonlinear_arith)
        requires
            p.step == 1,
    ;
    assert(p.columns * p.rows <= g.width * g.height) by (nonlinear_arith)
        requires
            0 <= p.columns <= g.width,
            0 <= p.rows <= g.height,
    ;
    assert(0 <= p.columns * p.rows) by (nonlinear_arith)
        requires
            0 <= p.columns,
            0 <= p.rows,
    ;
}

pub proof fn lemma_window_reached(g: Grid, f: Selection, i: int)
    requires
        0 <= i < g.area(),
    ensures
        reached(g, window_patch(g, f), window_patch(g, f).size(), i) && f.in_segment(i)
            <==> in_scope(g, f, i),
{
    let p = window_patch(g, f);
    let w = g.width as int;
    let (x0, x1, y0, y1) = f.limits(g.width as int, g.height as int);
    let (x, y) = (i % w, i / w);
    lemma_window_size(g, f);
    assert(w > 0) by (nonlinear_arith)
        requires
            0 <= i < w * g.height,
    ;
    vstd::arithmetic::div_mod::lemma_fundamental_div_mod(i, w);
    assert(w * y == y * w) by (nonlinear_arith);
    if in_scope(g, f, i) {
        let (col, row) = (x - x0, y - y0);
        let k = row * p.columns + col;
        lemma_index(col, row, p.columns as int, p.rows as int);
        assert((k % p.columns as int) * 1 == col && (k / p.columns as int) * 1 == row);
        assert(place_at(g, p, k) == i);
    }
    if reached(g, p, p.size(), i) {
        let k = choose|k: int| 0 <= k < p.size() && #[trigger] place_at(g, p, k) == i;
        lemma_place_inside(g, p, k);
        lemma_index(p.x(k), p.y(k), w, g.height as int);
        let c = p.columns as int;
        assert(c > 0) by (nonlinear_arith)
            requires
                0 <= k < c * p.rows,
        ;
        vstd::arithmetic::div_mod::lemma_mod_bound(k, c);
        assert(0 <= k / c < p.rows) by (nonlinear_arith)
            requires
                0 <= k < c * p.rows,
                c > 0,
        ;
    }
}

/// The packets of the first `p` bit planes are the first `2 * p` packets.
pub proof fn lemma_packets(
    g: Grid,
    coeffs: Seq<i32>,
    f: Selection,
    kind: EntropyKind,
    q: u8,
    p: int,
)
    requires
        0 <= p <= q,
    ensures
        planes_coded(g, coeffs, f, kind, q, p).packets.len() == 2 * p,
        forall|k: int|
            0 <= k < 2 * p ==> {
                let packet = #[trigger] planes_coded(g, coeffs, f, kind, q, p).packets[k];
                packet.bit_plane == k / 2 && packet.is_significance == (k % 2 == 0)
            },
    decreases p,
{
    if p > 0 {
        lemma_packets(g, coeffs, f, kind, q, p - 1);
    }
}

proof fn lemma_packets_prefix(
    g: Grid,
    coeffs: Seq<i32>,
    f: Selection,
    kind: EntropyKind,
    q: u8,
    a: int,
    b: int,
)
    requires
        0 <= a <= b <= q,
    ensures
        planes_coded(g, coeffs, f, kind, q, b).packets.take(2 * a) == planes_coded(
            g,
            coeffs,
            f,
            kind,
            q,
            a,
        ).packets,
    decreases b - a,
{
    lemma_packets(g, coeffs, f, kind, q, a);
    lemma_packets(g, coeffs, f, kind, q, b);
    let pa = planes_coded(g, coeffs, f, kind, q, a).packets;
    let pb = planes_coded(g, coeffs, f, kind, q, b).packets;
    if a == b {
        assert(pb.take(2 * a) =~= pa);
    } else {
        lemma_packets_prefix(g, coeffs, f, kind, q, a, b - 1);
        lemma_packets(g, coeffs, f, kind, q, b - 1);
        let pm = planes_coded(g, coeffs, f, kind, q, b - 1).packets;
        assert(pb.take(2 * (b - 1)) =~= pm);
        assert(pb.take(2 * a) =~= pm.take(2 * a));
    }
}

/// Packet `k` is of bit plane `k / 2`, and every other one is of significance
/// bits.
spec fn alternating(packets: Seq<Coded>) -> bool {
    &&& packets.len() <= 62
    &&& forall|k: int|
        0 <= k < packets.len() ==> {
            (#[trigger] packets[k]).bit_plane == k / 2 && packets[k].is_significance == (k % 2
                == 0)
        }
}

proof fn lemma_body_found(packets: Seq<Coded>, plane: u8, sig: bool, k: int)
    requires
        alternating(packets),
        0 <= k,
        k <= 2 * plane + (if sig {
            0int
        } else {
            1
        }),
    ensures
        ({
            let at = 2 * plane + (if sig {
                0int
            } else {
                1
            });
            index_from(packets, plane, sig, k) == (if at < packets.len() {
                Some(at)
            } else {
                None
            })
        }),
    decreases packets.len() - k,
{
    if k < packets.len() {
        let at = 2 * plane + (if sig {
            0int
        } else {
            1
        });
        assert(packets[k].bit_plane == k / 2);
        if k != at {
            lemma_body_found(packets, plane, sig, k + 1);
        }
    }
}

proof fn lemma_pass_once(
    g: Grid,
    coeffs: Seq<i32>,
    f: Selection,
    kind: EntropyKind,
    q: u8,
    pass: ScanPass,
    bp: u32,
    scan: Scan,
    d: Hearing,
    depths: Seq<u32>,
)
    requires
        coeffs.len() == g.area(),
        bp < 31,
        scan == d.scan,
        d.asked == Seq::<(u32, u32)>::empty(),
        knows(d, coeffs, q, depths),
        forall|i: int|
            0 <= i < coeffs.len() && f.admits(i, bp as int) && in_scope(g, f, i) ==> ready(
                pass,
                bp,
                coeffs[i],
                #[trigger] depths[i],
            ),
    ensures
        ({
            let p = window_patch(g, f);
            let s1 = pass_told(g, coeffs, f, pass, bp, scan);
            let d1 = pass_heard(g, f, kind, encoded(kind, s1.log), pass, bp, d);
            &&& s1.scan == d1.scan
            &&& d1.asked == Seq::<(u32, u32)>::empty()
            &&& knows(
                d1,
                coeffs,
                q,
                depths_after(g, coeffs, f, pass, bp, p, depths, p.size()),
            )
        }),
{
    let p = window_patch(g, f);
    lemma_window_size(g, f);
    let s0 = Telling { scan: with_fresh_model(scan), log: Seq::empty() };
    let d0 = Hearing { scan: with_fresh_model(d.scan), ..d };
    let s1 = pass_told(g, coeffs, f, pass, bp, scan);
    let full = s1.log;
    let ch = Channel { kind, bytes: encoded(kind, full) };
    lemma_log_grows(g, coeffs, f, pass, bp, p, s0, 0, p.size());
    assert(full =~= full.take(full.len() as int));
    assert(d0.asked =~= probabilities(s0.log));
    assert(knows(d0, coeffs, q, depths)) by {
        assert forall|i: int| 0 <= i < coeffs.len() implies #[trigger] knows_one(
            d0,
            coeffs,
            q,
            depths,
            i,
        ) by {
            assert(knows_one(d, coeffs, q, depths, i));
        }
    }
    assert forall|i: int|
        0 <= i < coeffs.len() && f.admits(i, bp as int) && reached(g, p, p.size(), i) implies ready(
        pass,
        bp,
        coeffs[i],
        #[trigger] depths[i],
    ) by {
        lemma_window_reached(g, f, i);
    }
    lemma_pass(ch, g, coeffs, f, pass, bp, q, p, s0, d0, full, depths, p.size());
    let after = depths_after(g, coeffs, f, pass, bp, p, depths, p.size());
    let d1 = heard(ch, g, f, pass, bp, p, d0, p.size());
    assert(knows(silent(d1), coeffs, q, after)) by {
        assert forall|i: int| 0 <= i < coeffs.len() implies #[trigger] knows_one(
            silent(d1),
            coeffs,
            q,
            after,
            i,
        ) by {
            assert(knows_one(d1, coeffs, q, after, i));
        }
    }
}

/// How far each coefficient is known after the significance packet of a bit
/// plane.
pub open spec fn half_depths(g: Grid, coeffs: Seq<i32>, f: Selection, q: u8, p: int) -> Seq<u32> {
    Seq::new(coeffs.len(), |i: int| packet_depth(g, coeffs, f, q, i, 2 * p + 1))
}

pub proof fn lemma_half_plane(g: Grid, coeffs: Seq<i32>, f: Selection, q: u8, p: int)
    requires
        coeffs.len() == g.area(),
        1 <= q <= 31,
        0 <= p < q,
    ensures
        ({
            let w = window_patch(g, f);
            let bp = (q - 1 - p) as u32;
            let depths = plane_depths(g, f, q, coeffs.len() as int, p);
            &&& forall|i: int|
                0 <= i < coeffs.len() && f.admits(i, bp as int) && in_scope(g, f, i) ==> ready(
                    ScanPass::Significance,
                    bp,
                    coeffs[i],
                    #[trigger] depths[i],
                )
            &&& depths_after(g, coeffs, f, ScanPass::Significance, bp, w, depths, w.size())
                == half_depths(g, coeffs, f, q, p)
        }),
{
    let w = window_patch(g, f);
    let bp = (q - 1 - p) as u32;
    let depths = plane_depths(g, f, q, coeffs.len() as int, p);
    let after = depths_after(g, coeffs, f, ScanPass::Significance, bp, w, depths, w.size());
    let half = half_depths(g, coeffs, f, q, p);
    assert((2 * p + 1) / 2 == p && (2 * p + 1) % 2 == 1);
    assert forall|i: int| 0 <= i < coeffs.len() implies after[i] == half[i] by {
        lemma_window_reached(g, f, i);
    }
    assert(after =~= half);
}

pub proof fn lemma_whole_plane(g: Grid, coeffs: Seq<i32>, f: Selection, q: u8, p: int)
    requires
        coeffs.len() == g.area(),
        1 <= q <= 31,
        0 <= p < q,
    ensures
        ({
            let w = window_patch(g, f);
            let bp = (q - 1 - p) as u32;
            let depths = half_depths(g, coeffs, f, q, p);
            &&& forall|i: int|
                0 <= i < coeffs.len() && f.admits(i, bp as int) && in_scope(g, f, i) ==> ready(
                    ScanPass::Refinement,
                    bp,
                    coeffs[i],
                    #[trigger] depths[i],
                )
            &&& depths_after(g, coeffs, f, ScanPass::Refinement, bp, w, depths, w.size())
                == plane_depths(g, f, q, coeffs.len() as int, p + 1)
        }),
{
    let w = window_patch(g, f);
    let bp = (q - 1 - p) as u32;
    let depths = half_depths(g, coeffs, f, q, p);
    let after = depths_after(g, coeffs, f, ScanPass::Refinement, bp, w, depths, w.size());
    let next = plane_depths(g, f, q, coeffs.len() as int, p + 1);
    assert((2 * p + 1) / 2 == p && (2 * p + 1) % 2 == 1);
    assert forall|i: int| 0 <= i < coeffs.len() implies after[i] == next[i] by {
        lemma_window_reached(g, f, i);
    }
    assert(after =~= next);
}

pub proof fn lemma_start(g: Grid, coeffs: Seq<i32>, f: Selection, q: u8)
    requires
        coeffs.len() == g.area(),
        1 <= q <= 31,
        scope_fits(g, coeffs, f, q),
    ensures
        knows(
            fresh_hearing(g.area(), q),
            coeffs,
            q,
            plane_depths(g, f, q, coeffs.len() as int, 0),
        ),
{
    let d = fresh_hearing(g.area(), q);
    let depths = plane_depths(g, f, q, coeffs.len() as int, 0);
    assert forall|i: int| 0 <= i < coeffs.len() implies #[trigger] knows_one(
        d,
        coeffs,
        q,
        depths,
        i,
    ) by {
        let m = magnitude_of(coeffs[i]);
        if in_scope(g, f, i) {
            lemma_no_bits(m, q);
        } else {
            assert(m >> 32u32 == 0) by (bit_vector);
            assert(0u32 << 32u32 == 0) by (bit_vector);
        }
    }
}

/// A magnitude below `2^q` has no bit from `q` on.
pub proof fn lemma_no_bits(m: u32, q: u8)
    requires
        m < pow2(q as nat),
        q <= 31,
    ensures
        m >> (q as u32) == 0,
        (m >> (q as u32)) << (q as u32) == 0,
{
    let s = q as u32;
    vstd::bits::lemma_u32_shr_is_div(m, s);
    let d = pow2(q as nat) as int;
    assert(m as int / d == 0) by (nonlinear_arith)
        requires
            0 <= m < d,
    ;
    assert(0u32 << s == 0) by (bit_vector)
        requires
            s < 32,
    ;
}

/// While whole bit planes arrive, the decoder knows what was coded.
proof fn lemma_planes(
    g: Grid,
    coeffs: Seq<i32>,
    f: Selection,
    kind: EntropyKind,
    q: u8,
    packets: Seq<Coded>,
    p: int,
)
    requires
        coeffs.len() == g.area(),
        1 <= q <= 31,
        scope_fits(g, coeffs, f, q),
        0 <= p <= q,
        2 * p <= packets.len() <= 2 * q,
        packets == bitplanes_coded(g, coeffs, f, kind, q).take(packets.len() as int),
    ensures
        ({
            let h = planes_heard(g, f, kind, q, packets, p);
            &&& !h.stopped
            &&& h.s.asked == Seq::<(u32, u32)>::empty()
            &&& h.s.scan == planes_coded(g, coeffs, f, kind, q, p).scan
            &&& knows(h.s, coeffs, q, plane_depths(g, f, q, coeffs.len() as int, p))
        }),
    decreases p,
{
    if p == 0 {
        lemma_start(g, coeffs, f, q);
    } else {
        lemma_planes(g, coeffs, f, kind, q, packets, p - 1);
        lemma_plane_packets(g, coeffs, f, kind, q, packets, p - 1);
        let index = p - 1;
        let bp = (q - 1 - index) as u32;
        let before = planes_coded(g, coeffs, f, kind, q, index);
        let h = planes_heard(g, f, kind, q, packets, index);
        let n = coeffs.len() as int;
        lemma_half_plane(g, coeffs, f, q, index);
        lemma_pass_once(
            g,
            coeffs,
            f,
            kind,
            q,
            ScanPass::Significance,
            bp,
            before.scan,
            h.s,
            plane_depths(g, f, q, n, index),
        );
        let sig = pass_told(g, coeffs, f, ScanPass::Significance, bp, before.scan);
        let d1 = pass_heard(
            g,
            f,
            kind,
            encoded(kind, sig.log),
            ScanPass::Significance,
            bp,
            h.s,
        );
        lemma_whole_plane(g, coeffs, f, q, index);
        lemma_pass_once(
            g,
            coeffs,
            f,
            kind,
            q,
            ScanPass::Refinement,
            bp,
            sig.scan,
            d1,
            half_depths(g, coeffs, f, q, index),
        );
    }
}

/// What the decoder finds for bit plane `index`.
proof fn lemma_plane_packets(
    g: Grid,
    coeffs: Seq<i32>,
    f: Selection,
    kind: EntropyKind,
    q: u8,
    packets: Seq<Coded>,
    index: int,
)
    requires
        1 <= q <= 31,
        0 <= index < q,
        packets.len() <= 2 * q,
        packets == bitplanes_coded(g, coeffs, f, kind, q).take(packets.len() as int),
    ensures
        ({
            let bp = (q - 1 - index) as u32;
            let before = planes_coded(g, coeffs, f, kind, q, index);
            let sig = pass_told(g, coeffs, f, ScanPass::Significance, bp, before.scan);
            let refine = pass_told(g, coeffs, f, ScanPass::Refinement, bp, sig.scan);
            &&& body_of(packets, index as u8, true) == (if 2 * index < packets.len() {
                Some(encoded(kind, sig.log))
            } else {
                None
            })
            &&& body_of(packets, index as u8, false) == (if 2 * index + 1 < packets.len() {
                Some(encoded(kind, refine.log))
            } else {
                None
            })
        }),
{
    let all = bitplanes_coded(g, coeffs, f, kind, q);
    lemma_packets(g, coeffs, f, kind, q, q as int);
    assert(alternating(packets)) by {
        assert forall|k: int| 0 <= k < packets.len() implies (#[trigger] packets[k]).bit_plane == k
            / 2 && packets[k].is_significance == (k % 2 == 0) by {
            assert(packets[k] == all[k]);
        }
    }
    lemma_body_found(packets, index as u8, true, 0);
    lemma_body_found(packets, index as u8, false, 0);
    lemma_packets(g, coeffs, f, kind, q, index);
    lemma_packets_prefix(g, coeffs, f, kind, q, index + 1, q as int);
    let mine = planes_coded(g, coeffs, f, kind, q, index + 1).packets;
    lemma_packets(g, coeffs, f, kind, q, index + 1);
    assert(mine[2 * index] == all[2 * index]) by {
        assert(all.take(2 * (index + 1))[2 * index] == all[2 * index]);
    }
    assert(mine[2 * index + 1] == all[2 * index + 1]) by {
        assert(all.take(2 * (index + 1))[2 * index + 1] == all[2 * index + 1]);
    }
}

proof fn lemma_categories_keep(
    g: Grid,
    coeffs: Seq<i32>,
    f: Selection,
    q: u8,
    bp: u32,
    p: Patch,
    d: Hearing,
    depths: Seq<u32>,
    k: int,
)
    requires
        knows(d, coeffs, q, depths),
        coeffs.len() == g.area(),
        p.inside(g),
        0 <= k <= p.size(),
    ensures
        knows(categories_advanced(g, f, bp, p, d, k), coeffs, q, depths),
    decreases k,
{
    if k > 0 {
        lemma_categories_keep(g, coeffs, f, q, bp, p, d, depths, k - 1);
        lemma_place_inside(g, p, k - 1);
        let a = categories_advanced(g, f, bp, p, d, k - 1);
        let b = categories_advanced(g, f, bp, p, d, k);
        assert forall|i: int| 0 <= i < coeffs.len() implies #[trigger] knows_one(
            b,
            coeffs,
            q,
            depths,
            i,
        ) by {
            assert(knows_one(a, coeffs, q, depths, i));
        }
    }
}

proof fn lemma_stays_stopped(
    g: Grid,
    f: Selection,
    kind: EntropyKind,
    q: u8,
    packets: Seq<Coded>,
    a: int,
    b: int,
)
    requires
        1 <= a <= b,
        planes_heard(g, f, kind, q, packets, a).stopped,
    ensures
        planes_heard(g, f, kind, q, packets, b) == planes_heard(g, f, kind, q, packets, a),
    decreases b - a,
{
    if a < b {
        lemma_stays_stopped(g, f, kind, q, packets, a, b - 1);
    }
}

pub proof fn lemma_values(d: Hearing, coeffs: Seq<i32>, q: u8, depths: Seq<u32>)
    requires
        knows(d, coeffs, q, depths),
    ensures
        reconstructed(d) == Seq::new(coeffs.len(), |i: int| value_to(coeffs[i], depths[i])),
{
    let out = reconstructed(d);
    let expected = Seq::new(coeffs.len(), |i: int| value_to(coeffs[i], depths[i]));
    assert forall|i: int| 0 <= i < coeffs.len() implies out[i] == expected[i] by {
        assert(knows_one(d, coeffs, q, depths, i));
        let m = magnitude_of(coeffs[i]);
        let t = depths[i];
        if m >> t == 0 {
            assert(0u32 << t == 0) by (bit_vector);
        } else {
            let a = m >> t;
            if a << t == 0 {
                assert(a << t != 0) by (bit_vector)
                    requires
                        a == m >> t,
                        a != 0,
                ;
            }
        }
    }
    assert(out =~= expected);
}

/// **A stream that ends early decodes to what has arrived.** The first `k`
/// packets of a buffer decode, coefficient by coefficient, to the value that
/// the bits which have arrived stand for: nothing is lost of them, and nothing
/// is made up.
pub proof fn packets_read_back(
    g: Grid,
    coeffs: Seq<i32>,
    f: Selection,
    kind: EntropyKind,
    q: u8,
    k: int,
)
    requires
        coeffs.len() == g.area(),
        1 <= q <= 31,
        scope_fits(g, coeffs, f, q),
        0 <= k <= 2 * q,
    ensures
        bitplanes_coded(g, coeffs, f, kind, q).len() == 2 * q,
        bitplanes_decoded(g, f, kind, q, bitplanes_coded(g, coeffs, f, kind, q).take(k))
            == Seq::new(
            coeffs.len(),
            |i: int| value_to(coeffs[i], packet_depth(g, coeffs, f, q, i, k)),
        ),
{
    let all = bitplanes_coded(g, coeffs, f, kind, q);
    let packets = all.take(k);
    let n = coeffs.len() as int;
    lemma_packets(g, coeffs, f, kind, q, q as int);
    let p = k / 2;
    lemma_planes(g, coeffs, f, kind, q, packets, p);
    let h = planes_heard(g, f, kind, q, packets, p);
    if k % 2 == 0 {
        if p < q {
            lemma_plane_packets(g, coeffs, f, kind, q, packets, p);
            lemma_stays_stopped(g, f, kind, q, packets, p + 1, q as int);
        }
        let depths = plane_depths(g, f, q, n, p);
        lemma_values(h.s, coeffs, q, depths);
        assert(Seq::new(coeffs.len(), |i: int| value_to(coeffs[i], depths[i])) =~= Seq::new(
            coeffs.len(),
            |i: int| value_to(coeffs[i], packet_depth(g, coeffs, f, q, i, k)),
        ));
    } else {
        lemma_plane_packets(g, coeffs, f, kind, q, packets, p);
        let bp = (q - 1 - p) as u32;
        let before = planes_coded(g, coeffs, f, kind, q, p);
        lemma_half_plane(g, coeffs, f, q, p);
        lemma_pass_once(
            g,
            coeffs,
            f,
            kind,
            q,
            ScanPass::Significance,
            bp,
            before.scan,
            h.s,
            plane_depths(g, f, q, n, p),
        );
        let sig = pass_told(g, coeffs, f, ScanPass::Significance, bp, before.scan);
        let d1 = pass_heard(
            g,
            f,
            kind,
            encoded(kind, sig.log),
            ScanPass::Significance,
            bp,
            h.s,
        );
        let depths = half_depths(g, coeffs, f, q, p);
        let w = window_patch(g, f);
        lemma_window_size(g, f);
        lemma_categories_keep(g, coeffs, f, q, bp, w, d1, depths, w.size());
        let h1 = planes_heard(g, f, kind, q, packets, p + 1);
        if p + 1 < q {
            lemma_plane_packets(g, coeffs, f, kind, q, packets, p + 1);
            lemma_stays_stopped(g, f, kind, q, packets, p + 2, q as int);
        }
        lemma_values(h1.s, coeffs, q, depths);
        assert(k == 2 * p + 1);
        assert(Seq::new(coeffs.len(), |i: int| value_to(coeffs[i], depths[i])) =~= Seq::new(
            coeffs.len(),
            |i: int| value_to(coeffs[i], packet_depth(g, coeffs, f, q, i, k)),
        ));
    }
}

/// **Bit-plane coding is lossless**: all packets of a buffer decode to the
/// coefficients that went in.
pub proof fn bitplanes_read_back(g: Grid, coeffs: Seq<i32>, kind: EntropyKind, q: u8)
    requires
        coeffs.len() == g.area(),
        1 <= q <= 31,
        fits_planes(coeffs, q as int),
    ensures
        bitplanes_decoded(
            g,
            everything(),
            kind,
            q,
            bitplanes_coded(g, coeffs, everything(), kind, q),
        ) == coeffs,
{
    let f = everything();
    let all = bitplanes_coded(g, coeffs, f, kind, q);
    packets_read_back(g, coeffs, f, kind, q, 2 * q);
    assert(all.take(2 * q) =~= all);
    let out = bitplanes_decoded(g, f, kind, q, all);
    assert forall|i: int| 0 <= i < coeffs.len() implies out[i] == coeffs[i] by {
        lemma_whole_scope(g, i);
        assert(2 * q / 2 == q as int);
        assert(packet_depth(g, coeffs, f, q, i, 2 * q) == 0);
        lemma_exact_value(coeffs[i], q);
    }
    assert(out =~= coeffs);
}

pub proof fn lemma_whole_scope(g: Grid, i: int)
    requires
        0 <= i < g.area(),
    ensures
        in_scope(g, everything(), i),
{
    let w = g.width as int;
    assert(w > 0 && 0 <= i % w < w && 0 <= i / w < g.height) by (nonlinear_arith)
        requires
            0 <= i < w * g.height,
    ;
}

pub proof fn lemma_exact_value(c: i32, q: u8)
    requires
        magnitude_of(c) < pow2(q as nat),
        q <= 31,
    ensures
        value_to(c, 0) == c,
{
    let m = magnitude_of(c);
    assert((m >> 0u32) << 0u32 == m) by (bit_vector);
    vstd::arithmetic::power2::lemma2_to64();
    if q < 31 {
        vstd::arithmetic::power2::lemma_pow2_strictly_increases(q as nat, 31);
    }
}

} // verus!
