//! Decoding of a cube follows its encoding.

use crate::arith::{probabilities, Decision};
use crate::bitplane3d::{bit_noted, covered_fit, cube_coded, cube_heard, cube_listened, cube_said, group_listened, group_said, in_use, lemma_members_inside, lemma_one_row, listen, magnitude_odds, nothing_heard, plane_listened, plane_said, say, Layout, Listening, Speech, SubbandMembers, TOP_PRIORITY};
use crate::context::flag;
use crate::context3d::sign_rule;
use crate::entropy::{encoded, EntropyKind};
use crate::priority::{classified, lemma_can_step, lemma_classified_level};
use crate::readback::{in_scope, lemma_bits, lemma_exact_value, lemma_no_bits, lemma_reads, place_at, reached, value_to};
use crate::readback_priority::{lemma_unit_patch_inside, lemma_unit_reached, subband_of};
use crate::scan::{bit_at, decision, everything, magnitude_of, Grid};
use crate::subband3d::{is_subband3d, lemma_subband_at, plane_with, planes_below, planes_descend, subband_index, subbands_are_numbered, Subband3d};
use crate::wavelet3d::Volume;
use vstd::prelude::*;
use vstd::arithmetic::div_mod::{lemma_fundamental_div_mod, lemma_fundamental_div_mod_converse};
use vstd::arithmetic::power2::pow2;

verus! {

// ---------------------------------------------------------------------------
// Subbands of coefficients
// ---------------------------------------------------------------------------

/// The subband that coefficient `i` belongs to.
pub open spec fn class_of(lay: Layout, i: int) -> Subband3d {
    Subband3d {
        spatial: subband_of(lay.grid(), i % lay.volume.area()),
        spectral: subband_of(lay.line(), i / lay.volume.area()),
    }
}

/// The number of that subband.
pub open spec fn class_index(lay: Layout, i: int) -> int {
    subband_index(lay.ts as int, lay.tl as int, class_of(lay, i))
}

proof fn lemma_on_line(x: int, from: int, levels: int)
    requires
        from <= levels + 1,
    ensures
        ({
            let k = classified(x, 0, from, levels).0;
            k is Ll || k is Hl
        }),
    decreases levels + 1 - from,
{
    if from <= levels && x % 2 == 0 {
        lemma_on_line(x / 2, from + 1, levels);
    }
}

proof fn lemma_class(lay: Layout, i: int)
    requires
        lay.ok(),
        0 <= i < lay.volume.count(),
    ensures
        is_subband3d(lay.ts as int, lay.tl as int, class_of(lay, i)),
        0 <= class_index(lay, i) < lay.count(),
        lay.subband(class_index(lay, i)) == class_of(lay, i),
{
    let v = lay.volume;
    v.lemma_split(i);
    let pos = i % v.area();
    let l = i / v.area();
    let w = v.width as int;
    let b = v.bands as int;
    lemma_classified_level(pos % w, pos / w, 1, lay.ts as int);
    assert(l % b == l && l / b == 0) by {
        vstd::arithmetic::div_mod::lemma_small_mod(l as nat, b as nat);
        vstd::arithmetic::div_mod::lemma_basic_div(l, b);
    }
    lemma_classified_level(l, 0, 1, lay.tl as int);
    lemma_on_line(l, 1, lay.tl as int);
    subbands_are_numbered(lay.ts as int, lay.tl as int, class_of(lay, i));
}

/// One of the first `k` coefficients of a subband lies at `i`.
pub open spec fn visited(v: Volume, m: SubbandMembers, k: int, i: int) -> bool {
    exists|j: int| 0 <= j < k && #[trigger] m.place(v, j) == i
}

/// Pixel and plane of coefficient `k` of a subband.
proof fn lemma_place_parts(v: Volume, m: SubbandMembers, k: int)
    requires
        m.inside(v),
        0 <= k < m.size(),
    ensures
        0 <= m.place(v, k) < v.count(),
        m.place(v, k) % v.area() == m.pixel(v, k),
        m.place(v, k) / v.area() == m.plane(k),
{
    m.lemma_inside(v, k);
    v.lemma_sample(m.pixel(v, k), m.plane(k));
}

proof fn lemma_places_differ(v: Volume, m: SubbandMembers, j: int, k: int)
    requires
        m.inside(v),
        0 <= j < k < m.size(),
    ensures
        m.place(v, j) != m.place(v, k),
{
    lemma_place_parts(v, m, j);
    lemma_place_parts(v, m, k);
    m.lemma_inside(v, j);
    m.lemma_inside(v, k);
    if m.place(v, j) == m.place(v, k) {
        let n = m.spatial.size();
        let s = m.spectral.step as int;
        assert((j / n) * s == (k / n) * s);
        assert(j / n == k / n) by (nonlinear_arith)
            requires
                (j / n) * s == (k / n) * s,
                s >= 1,
        ;
        let g = Grid { width: v.width, height: v.height, levels: 0 };
        let (a, b) = (j % n, k % n);
        lemma_fundamental_div_mod(j, n);
        lemma_fundamental_div_mod(k, n);
        assert(a != b);
        if a < b {
            crate::readback::lemma_places_differ(g, m.spatial, a, b);
        } else {
            crate::readback::lemma_places_differ(g, m.spatial, b, a);
        }
    }
}

/// **Every coefficient of the window belongs to one subband**, and to no other.
pub proof fn members_are_classes(lay: Layout, s: int, i: int)
    requires
        lay.ok(),
        0 <= s < lay.count(),
        0 <= i < lay.volume.count(),
    ensures
        visited(lay.volume, lay.members(s), lay.members(s).size(), i) <==> lay.covers(i)
            && class_index(lay, i) == s,
{
    let v = lay.volume;
    let m = lay.members(s);
    let n = m.spatial.size();
    v.lemma_split(i);
    v.lemma_area();
    let pos = i % v.area();
    let l = i / v.area();
    lemma_class(lay, i);
    lemma_subband_at(lay.ts as int, lay.tl as int, s);
    lemma_members_inside(lay, s);
    lemma_one_row(lay, s);
    let sb = lay.subband(s);
    assert(lay.line().area() == v.bands);
    lemma_unit_reached(lay.grid(), lay.selection(), sb.spatial, pos);
    lemma_unit_reached(lay.line(), everything(), sb.spectral, l);
    lemma_can_step(sb.spectral.level as int, lay.tl as int);
    lemma_unit_patch_inside(lay.line(), everything(), sb.spectral);
    let b = v.bands as int;
    assert(l % b == l && l / b == 0) by {
        vstd::arithmetic::div_mod::lemma_small_mod(l as nat, b as nat);
        vstd::arithmetic::div_mod::lemma_basic_div(l, b);
    }
    assert(in_scope(lay.line(), everything(), l));
    let c = m.spectral.columns as int;
    if lay.covers(i) && class_index(lay, i) == s {
        assert(class_of(lay, i) == sb);
        assert(reached(lay.grid(), m.spatial, n, pos));
        assert(reached(lay.line(), m.spectral, m.spectral.size(), l));
        let j = choose|j: int| 0 <= j < n && #[trigger] place_at(lay.grid(), m.spatial, j) == pos;
        let e = choose|e: int|
            0 <= e < m.spectral.size() && #[trigger] place_at(lay.line(), m.spectral, e) == l;
        assert(c > 0) by (nonlinear_arith)
            requires
                0 <= e < c * m.spectral.rows,
                0 <= c,
        ;
        assert(m.spectral.size() == c) by (nonlinear_arith)
            requires
                m.spectral.size() == c * m.spectral.rows,
                m.spectral.rows == 1,
        ;
        assert(e % c == e && e / c == 0) by {
            vstd::arithmetic::div_mod::lemma_small_mod(e as nat, c as nat);
            vstd::arithmetic::div_mod::lemma_basic_div(e, c);
        }
        assert(0 * m.spectral.step == 0);
        assert(m.spectral.y(e) == 0);
        assert(0 * lay.line().width == 0);
        assert(m.spectral.x(e) == l);
        let k = e * n + j;
        lemma_fundamental_div_mod_converse(k, n, e, j);
        assert(0 <= k < n * c) by (nonlinear_arith)
            requires
                0 <= j < n,
                0 <= e <= c - 1,
                k == e * n + j,
        ;
        assert(m.place(v, k) == i);
    }
    if visited(v, m, m.size(), i) {
        let k = choose|k: int| 0 <= k < m.size() && #[trigger] m.place(v, k) == i;
        lemma_place_parts(v, m, k);
        m.lemma_inside(v, k);
        let j = k % n;
        let e = k / n;
        assert(place_at(lay.grid(), m.spatial, j) == pos);
        assert(reached(lay.grid(), m.spatial, n, pos));
        assert(m.spectral.size() == c) by (nonlinear_arith)
            requires
                m.spectral.size() == c * m.spectral.rows,
                m.spectral.rows == 1,
        ;
        assert(e % c == e && e / c == 0) by {
            vstd::arithmetic::div_mod::lemma_small_mod(e as nat, c as nat);
            vstd::arithmetic::div_mod::lemma_basic_div(e, c);
        }
        assert(0 * m.spectral.step == 0);
        assert(0 * lay.line().width == 0);
        assert(place_at(lay.line(), m.spectral, e) == l);
        assert(reached(lay.line(), m.spectral, m.spectral.size(), l));
        assert(class_of(lay, i) == sb);
    }
}

// ---------------------------------------------------------------------------
// What is known of a coefficient
// ---------------------------------------------------------------------------

/// The decoder knows the bits of coefficient `i` from bit `t` on, and no
/// others.
pub open spec fn knows_to(d: Listening, coeffs: Seq<i32>, i: int, t: u32) -> bool {
    let m = magnitude_of(coeffs[i]);
    &&& d.known.cat[i] == 0 <==> m >> t == 0
    &&& d.known.neg[i] == (m >> t != 0 && coeffs[i] < 0)
    &&& d.mag[i] == (m >> t) << t
    &&& d.last[i] == t
}

/// The decoder has an entry for each of `n` coefficients.
pub open spec fn sized(d: Listening, n: int) -> bool {
    &&& d.known.neg.len() == n
    &&& d.known.cat.len() == n
    &&& d.mag.len() == n
    &&& d.last.len() == n
}

/// Encoder and decoder know the same and agree on the questions so far.
pub open spec fn together(s: Speech, d: Listening) -> bool {
    s.known == d.known && d.asked == probabilities(s.log)
}

/// `full` starts with `log`.
pub open spec fn starts(full: Seq<Decision>, log: Seq<Decision>) -> bool {
    log.len() <= full.len() && log == full.take(log.len() as int)
}

proof fn lemma_starts(full: Seq<Decision>, mid: Seq<Decision>, log: Seq<Decision>)
    requires
        starts(full, mid),
        starts(mid, log),
    ensures
        starts(full, log),
{
    assert(full.take(mid.len() as int).take(log.len() as int) =~= full.take(log.len() as int));
}

/// A visit keeps both sides together, and takes the decoder one bit further.
proof fn lemma_said(
    kind: EntropyKind,
    coeffs: Seq<i32>,
    b: u8,
    s: Speech,
    d: Listening,
    full: Seq<Decision>,
    i: int,
    before: Option<int>,
    after: Option<int>,
)
    requires
        b < 31,
        0 <= i < coeffs.len(),
        sized(d, coeffs.len() as int),
        together(s, d),
        starts(full, say(coeffs[i], b, s, i, before, after).log),
        knows_to(d, coeffs, i, (b + 1) as u32),
    ensures
        ({
            let s1 = say(coeffs[i], b, s, i, before, after);
            let d1 = listen(kind, encoded(kind, full), b, d, i, before, after);
            &&& together(s1, d1)
            &&& sized(d1, coeffs.len() as int)
            &&& knows_to(d1, coeffs, i, b as u32)
            &&& forall|j: int, t: u32|
                0 <= j < coeffs.len() && j != i && knows_to(d, coeffs, j, t)
                    ==> #[trigger] knows_to(d1, coeffs, j, t)
        }),
{
    let c = coeffs[i];
    let m = magnitude_of(c);
    let bp = b as u32;
    lemma_bits(m, bp, (bp + 1) as u32);
    let bit = bit_at(m, bp);
    let odds = magnitude_odds(s.known, i, before, after);
    let s1 = say(c, b, s, i, before, after);
    let log1 = s.log.push(decision(bit, odds));
    assert(starts(s1.log, log1)) by {
        assert(s1.log.take(log1.len() as int) =~= log1);
    }
    lemma_starts(full, s1.log, log1);
    lemma_reads(kind, full, s.log, bit, odds);
    if s.known.cat[i] == 0 && bit == 1 {
        let known = bit_noted(s.known, i, before, after, bit);
        let (predicted, ctx) = sign_rule(s.known.sign(before), s.known.sign(after));
        let coded = flag(predicted != (c < 0));
        lemma_reads(kind, full, log1, coded, known.model[ctx as int]);
    }
}

/// The log of a bit plane only grows.
proof fn lemma_plane_grows(
    v: Volume,
    m: SubbandMembers,
    coeffs: Seq<i32>,
    b: u8,
    s: Speech,
    j: int,
    k: int,
)
    requires
        0 <= j <= k,
    ensures
        ({
            let a = plane_said(v, m, coeffs, b, s, j).log;
            let z = plane_said(v, m, coeffs, b, s, k).log;
            starts(z, a) && z.len() <= a.len() + 2 * (k - j)
        }),
    decreases k - j,
{
    let a = plane_said(v, m, coeffs, b, s, j).log;
    let z = plane_said(v, m, coeffs, b, s, k).log;
    if j == k {
        assert(z.take(a.len() as int) =~= a);
    } else {
        lemma_plane_grows(v, m, coeffs, b, s, j, k - 1);
        let y = plane_said(v, m, coeffs, b, s, k - 1).log;
        assert(z.take(y.len() as int) =~= y);
        lemma_starts(z, y, a);
    }
}

/// How far coefficient `i` is known after all bit planes with priority `p` and
/// more.
pub open spec fn depth_at(lay: Layout, q: int, i: int, p: int) -> u32 {
    planes_below(lay.base(class_index(lay, i)), q, p) as u32
}

/// How far coefficient `i` is known within the group of priority `p`, after
/// the `j` subbands with the highest numbers.
spec fn depth_within(lay: Layout, q: int, i: int, p: int, j: int) -> u32 {
    if class_index(lay, i) >= lay.count() - j {
        depth_at(lay, q, i, p)
    } else {
        depth_at(lay, q, i, p + 1)
    }
}

/// A bit plane keeps both sides together, and takes the decoder one bit
/// further wherever it comes.
proof fn lemma_plane_together(
    kind: EntropyKind,
    v: Volume,
    m: SubbandMembers,
    coeffs: Seq<i32>,
    b: u8,
    s: Speech,
    d: Listening,
    full: Seq<Decision>,
    k: int,
)
    requires
        m.inside(v),
        coeffs.len() == v.count(),
        0 <= k <= m.size(),
        b < 31,
        sized(d, coeffs.len() as int),
        together(s, d),
        starts(full, plane_said(v, m, coeffs, b, s, m.size()).log),
        forall|j: int| 0 <= j < m.size() ==> knows_to(
            d,
            coeffs,
            #[trigger] m.place(v, j),
            (b + 1) as u32,
        ),
    ensures
        ({
            let s1 = plane_said(v, m, coeffs, b, s, k);
            let d1 = plane_listened(kind, encoded(kind, full), v, m, b, d, k);
            &&& together(s1, d1)
            &&& sized(d1, coeffs.len() as int)
            &&& forall|i: int, t: u32|
                0 <= i < coeffs.len() && !visited(v, m, k, i) && knows_to(d, coeffs, i, t)
                    ==> #[trigger] knows_to(d1, coeffs, i, t)
            &&& forall|i: int|
                0 <= i < coeffs.len() && visited(v, m, k, i) ==> #[trigger] knows_to(
                    d1,
                    coeffs,
                    i,
                    b as u32,
                )
        }),
    decreases k,
{
    if k > 0 {
        lemma_plane_together(kind, v, m, coeffs, b, s, d, full, k - 1);
        let s0 = plane_said(v, m, coeffs, b, s, k - 1);
        let d0 = plane_listened(kind, encoded(kind, full), v, m, b, d, k - 1);
        let s1 = plane_said(v, m, coeffs, b, s, k);
        let d1 = plane_listened(kind, encoded(kind, full), v, m, b, d, k);
        let i = m.place(v, k - 1);
        lemma_place_parts(v, m, k - 1);
        lemma_plane_grows(v, m, coeffs, b, s, k, m.size());
        lemma_starts(full, plane_said(v, m, coeffs, b, s, m.size()).log, s1.log);
        assert(!visited(v, m, k - 1, i)) by {
            assert forall|j: int| 0 <= j < k - 1 implies #[trigger] m.place(v, j) != i by {
                lemma_places_differ(v, m, j, k - 1);
            }
        }
        assert(knows_to(d, coeffs, i, (b + 1) as u32));
        assert(knows_to(d0, coeffs, i, (b + 1) as u32));
        lemma_said(
            kind,
            coeffs,
            b,
            s0,
            d0,
            full,
            i,
            m.before(v, k - 1),
            m.after(v, k - 1),
        );
        assert forall|e: int, t: u32|
            0 <= e < coeffs.len() && !visited(v, m, k, e) && knows_to(
                d,
                coeffs,
                e,
                t,
            ) implies #[trigger] knows_to(d1, coeffs, e, t) by {
            assert(e != i);
            assert(!visited(v, m, k - 1, e)) by {
                assert forall|j: int| 0 <= j < k - 1 implies #[trigger] m.place(v, j) != e by {}
            }
            assert(knows_to(d0, coeffs, e, t));
        }
        assert forall|e: int| 0 <= e < coeffs.len() && visited(v, m, k, e) implies #[trigger] knows_to(
            d1,
            coeffs,
            e,
            b as u32,
        ) by {
            if e != i {
                let j = choose|j: int| 0 <= j < k && #[trigger] m.place(v, j) == e;
                assert(j < k - 1);
                assert(visited(v, m, k - 1, e));
                assert(knows_to(d0, coeffs, e, b as u32));
            }
        }
    }
}

/// The log of a group only grows.
proof fn lemma_group_grows(lay: Layout, coeffs: Seq<i32>, q: int, p: int, s: Speech, j: int, k: int)
    requires
        lay.ok(),
        0 <= j <= k <= lay.count(),
    ensures
        ({
            let a = group_said(lay, coeffs, q, p, s, j).log;
            let z = group_said(lay, coeffs, q, p, s, k).log;
            starts(z, a) && z.len() <= a.len() + (k - j) * (2 * lay.volume.count())
        }),
    decreases k - j,
{
    let a = group_said(lay, coeffs, q, p, s, j).log;
    let z = group_said(lay, coeffs, q, p, s, k).log;
    let two = 2 * lay.volume.count();
    lay.volume.lemma_area();
    if j == k {
        assert(z.take(a.len() as int) =~= a);
        assert((k - j) * two == 0) by (nonlinear_arith)
            requires
                k == j,
        ;
    } else {
        lemma_group_grows(lay, coeffs, q, p, s, j, k - 1);
        let before = group_said(lay, coeffs, q, p, s, k - 1);
        let n = lay.count() - k;
        lemma_members_inside(lay, n);
        assert((k - j) * two == (k - 1 - j) * two + two) by (nonlinear_arith);
        if let Some(b) = plane_with(lay.base(n), q, p) {
            let m = lay.members(n);
            assert(0 <= m.size()) by (nonlinear_arith)
                requires
                    m.size() == m.spatial.size() * m.spectral.columns,
                    m.spatial.size() >= 0,
                    m.spectral.columns >= 0,
            ;
            lemma_plane_grows(lay.volume, m, coeffs, b, before, 0, m.size());
        } else {
            assert(before.log.take(before.log.len() as int) =~= before.log);
        }
        lemma_starts(z, before.log, a);
    }
}

/// The decoder knows every coefficient of the window to its depth in the group
/// of priority `p`.
spec fn knows_within(lay: Layout, coeffs: Seq<i32>, q: int, d: Listening, p: int, j: int) -> bool {
    forall|i: int|
        0 <= i < coeffs.len() && lay.covers(i) ==> knows_to(
            d,
            coeffs,
            i,
            #[trigger] depth_within(lay, q, i, p, j),
        )
}

proof fn lemma_group_together(
    kind: EntropyKind,
    lay: Layout,
    coeffs: Seq<i32>,
    q: int,
    p: int,
    s: Speech,
    d: Listening,
    full: Seq<Decision>,
    j: int,
)
    requires
        lay.ok(),
        coeffs.len() == lay.volume.count(),
        0 <= q <= 31,
        0 <= j <= lay.count(),
        sized(d, coeffs.len() as int),
        together(s, d),
        starts(full, group_said(lay, coeffs, q, p, s, lay.count()).log),
        knows_within(lay, coeffs, q, d, p, 0),
    ensures
        ({
            let s1 = group_said(lay, coeffs, q, p, s, j);
            let d1 = group_listened(kind, encoded(kind, full), lay, q, p, d, j);
            &&& together(s1, d1)
            &&& sized(d1, coeffs.len() as int)
            &&& knows_within(lay, coeffs, q, d1, p, j)
        }),
    decreases j,
{
    if j > 0 {
        lemma_group_together(kind, lay, coeffs, q, p, s, d, full, j - 1);
        let bytes = encoded(kind, full);
        let s0 = group_said(lay, coeffs, q, p, s, j - 1);
        let d0 = group_listened(kind, bytes, lay, q, p, d, j - 1);
        let s1 = group_said(lay, coeffs, q, p, s, j);
        let d1 = group_listened(kind, bytes, lay, q, p, d, j);
        let n = lay.count() - j;
        let v = lay.volume;
        let m = lay.members(n);
        lemma_members_inside(lay, n);
        lemma_group_grows(lay, coeffs, q, p, s, j, lay.count());
        lemma_starts(full, group_said(lay, coeffs, q, p, s, lay.count()).log, s1.log);
        planes_descend(lay.base(n), q, p);
        if let Some(b) = plane_with(lay.base(n), q, p) {
            assert forall|k: int| 0 <= k < m.size() implies knows_to(
                d0,
                coeffs,
                #[trigger] m.place(v, k),
                (b + 1) as u32,
            ) by {
                let i = m.place(v, k);
                lemma_place_parts(v, m, k);
                assert(visited(v, m, m.size(), i));
                members_are_classes(lay, n, i);
                assert(depth_within(lay, q, i, p, j - 1) == (b + 1) as u32);
            }
            assert(0 <= m.size()) by (nonlinear_arith)
                requires
                    m.size() == m.spatial.size() * m.spectral.columns,
                    m.spatial.size() >= 0,
                    m.spectral.columns >= 0,
            ;
            lemma_plane_together(kind, v, m, coeffs, b, s0, d0, full, m.size());
        }
        assert forall|i: int| 0 <= i < coeffs.len() && lay.covers(i) implies knows_to(
            d1,
            coeffs,
            i,
            #[trigger] depth_within(lay, q, i, p, j),
        ) by {
            let t = depth_within(lay, q, i, p, j - 1);
            assert(knows_to(d0, coeffs, i, t));
            members_are_classes(lay, n, i);
            if let Some(b) = plane_with(lay.base(n), q, p) {
                if class_index(lay, i) == n {
                    assert(visited(v, m, m.size(), i));
                    assert(knows_to(d1, coeffs, i, b as u32));
                } else {
                    assert(knows_to(d1, coeffs, i, t));
                }
            }
        }
    }
}

// ---------------------------------------------------------------------------
// Packets
// ---------------------------------------------------------------------------

/// Number of packets with priority `p` and more.
pub open spec fn packets_until(lay: Layout, q: int, floor: int, p: int) -> int
    decreases TOP_PRIORITY + 1 - p,
{
    if p > TOP_PRIORITY {
        0
    } else {
        packets_until(lay, q, floor, p + 1) + (if p < floor || !in_use(lay, q, p) {
            0int
        } else {
            1
        })
    }
}

/// The packets that follow do not change those that were coded.
pub proof fn lemma_packets_stay(
    lay: Layout,
    coeffs: Seq<i32>,
    kind: EntropyKind,
    q: int,
    floor: int,
    p: int,
)
    requires
        0 <= p,
    ensures
        ({
            let some = cube_said(lay, coeffs, kind, q, floor, p).packets;
            let all = cube_coded(lay, coeffs, kind, q, floor);
            &&& some.len() == packets_until(lay, q, floor, p)
            &&& some.len() <= all.len()
            &&& some == all.take(some.len() as int)
        }),
    decreases p,
{
    lemma_packet_count(lay, coeffs, kind, q, floor, p);
    if p == 0 {
        let all = cube_coded(lay, coeffs, kind, q, floor);
        assert(all.take(all.len() as int) =~= all);
    } else {
        lemma_packets_stay(lay, coeffs, kind, q, floor, p - 1);
        let all = cube_coded(lay, coeffs, kind, q, floor);
        let some = cube_said(lay, coeffs, kind, q, floor, p).packets;
        let more = cube_said(lay, coeffs, kind, q, floor, p - 1).packets;
        assert(more.take(some.len() as int) =~= some);
        assert(all.take(more.len() as int).take(some.len() as int) =~= all.take(
            some.len() as int,
        ));
    }
}

proof fn lemma_packet_count(
    lay: Layout,
    coeffs: Seq<i32>,
    kind: EntropyKind,
    q: int,
    floor: int,
    p: int,
)
    ensures
        cube_said(lay, coeffs, kind, q, floor, p).packets.len() == packets_until(lay, q, floor, p),
        packets_until(lay, q, floor, p) >= 0,
    decreases TOP_PRIORITY + 1 - p,
{
    if p <= TOP_PRIORITY {
        lemma_packet_count(lay, coeffs, kind, q, floor, p + 1);
    }
}

/// The lowest priority from `p` on down to which `n` packets reach.
pub open spec fn reached_from(lay: Layout, q: int, floor: int, n: int, p: int) -> int
    decreases TOP_PRIORITY + 1 - p,
{
    if p > TOP_PRIORITY || p >= floor && packets_until(lay, q, floor, p) <= n {
        p
    } else {
        reached_from(lay, q, floor, n, p + 1)
    }
}

/// How far the first `n` packets of a cube tell of coefficient `i`.
pub open spec fn depth_told(lay: Layout, q: int, floor: int, n: int, i: int) -> u32 {
    depth_at(lay, q, i, reached_from(lay, q, floor, n, 0))
}

/// What the decoder knows after all bit planes with priority `p` and more,
/// where the first `n` packets arrive.
spec fn follows(
    lay: Layout,
    coeffs: Seq<i32>,
    kind: EntropyKind,
    q: u8,
    floor: int,
    n: int,
    p: int,
) -> bool {
    let all = cube_coded(lay, coeffs, kind, q as int, floor);
    let h = cube_listened(lay, kind, q, all.take(n), p);
    let count = packets_until(lay, q as int, floor, p);
    &&& sized(h.heard, coeffs.len() as int)
    &&& p >= floor ==> (h.stopped <==> count > n)
    &&& !h.stopped ==> h.used == count
    &&& p >= floor && !h.stopped ==> h.heard.known == cube_said(
        lay,
        coeffs,
        kind,
        q as int,
        floor,
        p,
    ).known
    &&& forall|i: int|
        0 <= i < coeffs.len() && lay.covers(i) ==> knows_to(
            h.heard,
            coeffs,
            i,
            #[trigger] depth_at(lay, q as int, i, reached_from(lay, q as int, floor, n, p)),
        )
}

proof fn lemma_start(lay: Layout, coeffs: Seq<i32>, q: u8, i: int, p: int)
    requires
        lay.ok(),
        coeffs.len() == lay.volume.count(),
        q <= 31,
        p > TOP_PRIORITY,
        covered_fit(lay, coeffs, q as int),
        0 <= i < coeffs.len(),
        lay.covers(i),
    ensures
        knows_to(
            nothing_heard(lay.volume.count(), q),
            coeffs,
            i,
            depth_at(lay, q as int, i, p),
        ),
{
    lemma_class(lay, i);
    let b = class_of(lay, i);
    let base = lay.base(class_index(lay, i));
    assert(base <= 128);
    assert(planes_below(base, q as int, p) == q);
    lemma_no_bits(magnitude_of(coeffs[i]), q);
}

/// The group of priority `p`, where its packet arrives.
proof fn lemma_group_arrives(
    lay: Layout,
    coeffs: Seq<i32>,
    kind: EntropyKind,
    q: u8,
    floor: int,
    d: Listening,
    p: int,
)
    requires
        lay.ok(),
        coeffs.len() == lay.volume.count(),
        q <= 31,
        0 <= p <= TOP_PRIORITY,
        p >= floor,
        in_use(lay, q as int, p),
        sized(d, coeffs.len() as int),
        d.known == cube_said(lay, coeffs, kind, q as int, floor, p + 1).known,
        forall|i: int|
            0 <= i < coeffs.len() && lay.covers(i) ==> knows_to(
                d,
                coeffs,
                i,
                #[trigger] depth_at(lay, q as int, i, p + 1),
            ),
    ensures
        ({
            let body = cube_said(lay, coeffs, kind, q as int, floor, p).packets.last().body;
            let d1 = group_listened(
                kind,
                body,
                lay,
                q as int,
                p,
                (Listening { asked: Seq::empty(), ..d }),
                lay.count(),
            );
            &&& sized(d1, coeffs.len() as int)
            &&& d1.known == cube_said(lay, coeffs, kind, q as int, floor, p).known
            &&& forall|i: int|
                0 <= i < coeffs.len() && lay.covers(i) ==> knows_to(
                    d1,
                    coeffs,
                    i,
                    #[trigger] depth_at(lay, q as int, i, p),
                )
        }),
{
    let before = cube_said(lay, coeffs, kind, q as int, floor, p + 1);
    let s = Speech { known: before.known, log: Seq::<Decision>::empty() };
    let d0 = Listening { asked: Seq::empty(), ..d };
    let full = group_said(lay, coeffs, q as int, p, s, lay.count()).log;
    assert(probabilities(s.log) =~= Seq::empty());
    assert(0 <= lay.count()) by (nonlinear_arith)
        requires
            lay.count() == (3 * lay.ts + 1) * (lay.tl + 1),
            0 <= lay.ts <= 31,
            0 <= lay.tl <= 63,
    ;
    lemma_group_grows(lay, coeffs, q as int, p, s, 0, lay.count());
    assert(full.take(full.len() as int) =~= full);
    assert forall|i: int| 0 <= i < coeffs.len() && lay.covers(i) implies knows_to(
        d0,
        coeffs,
        i,
        #[trigger] depth_within(lay, q as int, i, p, 0),
    ) by {
        lemma_class(lay, i);
        assert(knows_to(d, coeffs, i, depth_at(lay, q as int, i, p + 1)));
    }
    lemma_group_together(kind, lay, coeffs, q as int, p, s, d0, full, lay.count());
    let d1 = group_listened(kind, encoded(kind, full), lay, q as int, p, d0, lay.count());
    assert forall|i: int| 0 <= i < coeffs.len() && lay.covers(i) implies knows_to(
        d1,
        coeffs,
        i,
        #[trigger] depth_at(lay, q as int, i, p),
    ) by {
        lemma_class(lay, i);
        assert(knows_to(d1, coeffs, i, depth_within(lay, q as int, i, p, lay.count())));
    }
}

/// A priority without bit planes tells nothing new.
proof fn lemma_unused(lay: Layout, q: int, p: int, i: int)
    requires
        lay.ok(),
        0 <= q <= 31,
        0 <= i < lay.volume.count(),
        !in_use(lay, q, p),
    ensures
        depth_at(lay, q, i, p) == depth_at(lay, q, i, p + 1),
{
    lemma_class(lay, i);
    let n = class_index(lay, i);
    assert(plane_with(lay.base(n), q, p) is None);
    planes_descend(lay.base(n), q, p);
}

proof fn lemma_follows(
    lay: Layout,
    coeffs: Seq<i32>,
    kind: EntropyKind,
    q: u8,
    floor: int,
    n: int,
    p: int,
)
    requires
        lay.ok(),
        coeffs.len() == lay.volume.count(),
        q <= 31,
        0 <= p,
        covered_fit(lay, coeffs, q as int),
        0 <= n <= cube_coded(lay, coeffs, kind, q as int, floor).len(),
    ensures
        follows(lay, coeffs, kind, q, floor, n, p),
    decreases TOP_PRIORITY + 1 - p,
{
    let all = cube_coded(lay, coeffs, kind, q as int, floor);
    let h = cube_listened(lay, kind, q, all.take(n), p);
    let r = reached_from(lay, q as int, floor, n, p);
    if p > TOP_PRIORITY {
        assert forall|i: int| 0 <= i < coeffs.len() && lay.covers(i) implies knows_to(
            h.heard,
            coeffs,
            i,
            #[trigger] depth_at(lay, q as int, i, r),
        ) by {
            lemma_start(lay, coeffs, q, i, p);
        }
    } else {
        lemma_follows(lay, coeffs, kind, q, floor, n, p + 1);
        lemma_packet_count(lay, coeffs, kind, q as int, floor, p);
        lemma_packet_count(lay, coeffs, kind, q as int, floor, p + 1);
        lemma_packets_stay(lay, coeffs, kind, q as int, floor, p);
        lemma_packets_stay(lay, coeffs, kind, q as int, floor, p + 1);
        let before = cube_listened(lay, kind, q, all.take(n), p + 1);
        let r1 = reached_from(lay, q as int, floor, n, p + 1);
        let count = packets_until(lay, q as int, floor, p);
        let some = cube_said(lay, coeffs, kind, q as int, floor, p).packets;
        lemma_reached(lay, q as int, floor, n, p + 1);
        if p < floor {
            assert(r == r1);
            if !before.stopped && in_use(lay, q as int, p) {
                assert(before.used == count);
                lemma_all_packets(lay, coeffs, kind, q as int, floor, p);
                assert(before.used >= all.take(n).len());
            }
        } else if !in_use(lay, q as int, p) {
            assert forall|i: int| 0 <= i < coeffs.len() && lay.covers(i) implies knows_to(
                h.heard,
                coeffs,
                i,
                #[trigger] depth_at(lay, q as int, i, r),
            ) by {
                assert(knows_to(before.heard, coeffs, i, depth_at(lay, q as int, i, r1)));
                lemma_unused(lay, q as int, p, i);
            }
        } else if before.stopped {
            assert(r == r1);
        } else if count > n {
            assert(r == r1);
            assert(before.used == n);
        } else {
            assert(r == p && r1 == p + 1);
            let k = before.used;
            assert(some.len() == k + 1);
            assert(some.last() == all[k]) by {
                assert(some == all.take(k + 1));
            }
            assert(all.take(n)[k] == all[k]);
            lemma_group_arrives(lay, coeffs, kind, q, floor, before.heard, p);
        }
    }
}

/// Packets reach at most down to where they are counted.
proof fn lemma_reached(lay: Layout, q: int, floor: int, n: int, p: int)
    requires
        n >= 0,
    ensures
        reached_from(lay, q, floor, n, p) >= p,
        p >= floor && packets_until(lay, q, floor, p) <= n ==> reached_from(lay, q, floor, n, p)
            == p,
    decreases TOP_PRIORITY + 1 - p,
{
    if p <= TOP_PRIORITY {
        lemma_reached(lay, q, floor, n, p + 1);
    }
}

/// Below the floor there are no packets.
proof fn lemma_all_packets(
    lay: Layout,
    coeffs: Seq<i32>,
    kind: EntropyKind,
    q: int,
    floor: int,
    p: int,
)
    requires
        0 <= p <= TOP_PRIORITY,
        p < floor,
    ensures
        packets_until(lay, q, floor, p) == cube_coded(lay, coeffs, kind, q, floor).len(),
    decreases p,
{
    if p == 0 {
        lemma_packet_count(lay, coeffs, kind, q, floor, 0);
    } else {
        lemma_all_packets(lay, coeffs, kind, q, floor, p - 1);
    }
}

/// **After any number of packets the decoder knows exactly the bits that they
/// carry.** Each coefficient has the value that its bits from a certain one on
/// stand for.
pub proof fn cube_packets_read_back(
    lay: Layout,
    coeffs: Seq<i32>,
    kind: EntropyKind,
    q: u8,
    floor: int,
    n: int,
    before: Seq<i32>,
)
    requires
        lay.ok(),
        coeffs.len() == before.len() == lay.volume.count(),
        q <= 31,
        covered_fit(lay, coeffs, q as int),
        0 <= n <= cube_coded(lay, coeffs, kind, q as int, floor).len(),
    ensures
        ({
            let all = cube_coded(lay, coeffs, kind, q as int, floor);
            let out = cube_heard(lay, kind, q, all.take(n), before);
            &&& out.len() == before.len()
            &&& forall|i: int|
                0 <= i < out.len() ==> #[trigger] out[i] == (if lay.covers(i) {
                    value_to(coeffs[i], depth_told(lay, q as int, floor, n, i))
                } else {
                    before[i]
                })
        }),
{
    let all = cube_coded(lay, coeffs, kind, q as int, floor);
    let out = cube_heard(lay, kind, q, all.take(n), before);
    lemma_follows(lay, coeffs, kind, q, floor, n, 0);
    let d = cube_listened(lay, kind, q, all.take(n), 0).heard;
    assert forall|i: int| 0 <= i < out.len() implies #[trigger] out[i] == (if lay.covers(i) {
        value_to(coeffs[i], depth_told(lay, q as int, floor, n, i))
    } else {
        before[i]
    }) by {
        if lay.covers(i) {
            let t = depth_at(
                lay,
                q as int,
                i,
                reached_from(lay, q as int, floor, n, 0),
            );
            assert(knows_to(d, coeffs, i, t));
            let m = magnitude_of(coeffs[i]);
            if m >> t == 0 {
                lemma_class(lay, i);
                planes_descend(
                    lay.base(class_index(lay, i)),
                    q as int,
                    reached_from(lay, q as int, floor, n, 0),
                );
                assert(0u32 << t == 0) by (bit_vector)
                    requires
                        t < 32,
                ;
            }
        }
    }
}

/// **All packets bring back every coefficient.**
pub proof fn whole_cubes_read_back(
    lay: Layout,
    coeffs: Seq<i32>,
    kind: EntropyKind,
    q: u8,
    before: Seq<i32>,
)
    requires
        lay.ok(),
        coeffs.len() == before.len() == lay.volume.count(),
        q <= 31,
        covered_fit(lay, coeffs, q as int),
    ensures
        ({
            let out = cube_heard(
                lay,
                kind,
                q,
                cube_coded(lay, coeffs, kind, q as int, 0),
                before,
            );
            &&& out.len() == before.len()
            &&& forall|i: int|
                0 <= i < out.len() ==> #[trigger] out[i] == (if lay.covers(i) {
                    coeffs[i]
                } else {
                    before[i]
                })
        }),
{
    let all = cube_coded(lay, coeffs, kind, q as int, 0);
    let n = all.len() as int;
    assert(all.take(n) =~= all);
    cube_packets_read_back(lay, coeffs, kind, q, 0, n, before);
    lemma_packet_count(lay, coeffs, kind, q as int, 0, 0);
    let out = cube_heard(lay, kind, q, all, before);
    assert forall|i: int| 0 <= i < out.len() implies #[trigger] out[i] == (if lay.covers(i) {
        coeffs[i]
    } else {
        before[i]
    }) by {
        if lay.covers(i) {
            lemma_class(lay, i);
            assert(depth_told(lay, q as int, 0, n, i) == 0);
            assert(magnitude_of(coeffs[i]) < pow2(q as nat));
            lemma_exact_value(coeffs[i], q);
        }
    }
}

} // verus!
