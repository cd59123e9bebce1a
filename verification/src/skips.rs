//! Bits that a minimum loss leaves out are not coded.

use crate::bitplane::{bitplanes_coded, pass_told, plane_coded, planes_coded};
use crate::compress::{coded_packets_of, coded_selection, Settings};
use crate::entropy::EntropyKind;
use crate::priority::skip_map;
use crate::scan::{lemma_place_inside, magnitude_of, tell, told, window_patch, Grid, Patch, ScanPass, Selection, Telling};
use vstd::arithmetic::power2::{lemma_pow2_adds, lemma_pow2_pos, pow2};
use vstd::prelude::*;

verus! {

/// Two coefficients differ in nothing but their last `s` bits.
pub open spec fn alike_above(a: i32, b: i32, s: int) -> bool {
    let (x, y) = (
        magnitude_of(a) as int / (pow2(s as nat) as int),
        magnitude_of(b) as int / (pow2(s as nat) as int),
    );
    &&& x == y
    &&& x != 0 ==> (a < 0 <==> b < 0)
}

/// Coefficients that are alike above some bits have the same higher bits.
proof fn lemma_same_bits(a: i32, b: i32, s: int, bp: u32)
    requires
        0 <= s <= bp,
        bp < 32,
        alike_above(a, b, s),
    ensures
        magnitude_of(a) >> bp == magnitude_of(b) >> bp,
        magnitude_of(a) >> bp != 0 ==> (a < 0 <==> b < 0),
{
    let (m, n) = (magnitude_of(a), magnitude_of(b));
    vstd::bits::lemma_u32_shr_is_div(m, bp);
    vstd::bits::lemma_u32_shr_is_div(n, bp);
    let (low, rest) = (pow2(s as nat) as int, pow2((bp - s) as nat) as int);
    lemma_pow2_pos(s as nat);
    lemma_pow2_pos((bp - s) as nat);
    lemma_pow2_adds(s as nat, (bp - s) as nat);
    vstd::arithmetic::div_mod::lemma_div_denominator(m as int, low, rest);
    vstd::arithmetic::div_mod::lemma_div_denominator(n as int, low, rest);
    assert(m as int / pow2(bp as nat) as int == (m as int / low) / rest);
    assert(n as int / pow2(bp as nat) as int == (n as int / low) / rest);
    if m as int / low == 0 {
        vstd::arithmetic::div_mod::lemma_basic_div(0, rest);
    }
}

proof fn lemma_zero_has_no_bits(m: u32, bp: u32)
    requires
        m >> bp == 0,
    ensures
        crate::scan::bit_at(m, bp) == 0,
{
    assert((m >> bp) & 1 == 0) by (bit_vector)
        requires
            m >> bp == 0,
    ;
}

proof fn lemma_same_visit(
    g: Grid,
    a: Seq<i32>,
    b: Seq<i32>,
    f: Selection,
    pass: ScanPass,
    bp: u32,
    s: Telling,
    x: int,
    y: int,
)
    requires
        bp < 32,
        alike_above(a[g.at(x, y)], b[g.at(x, y)], f.skipped(g.at(x, y))),
        f.skipped(g.at(x, y)) >= 0,
    ensures
        tell(g, a, f, pass, bp, s, x, y) == tell(g, b, f, pass, bp, s, x, y),
{
    let i = g.at(x, y);
    if f.admits(i, bp as int) {
        lemma_same_bits(a[i], b[i], f.skipped(i), bp);
        if magnitude_of(a[i]) >> bp == 0 {
            lemma_zero_has_no_bits(magnitude_of(a[i]), bp);
        }
    }
}

proof fn lemma_same_pass(
    g: Grid,
    a: Seq<i32>,
    b: Seq<i32>,
    f: Selection,
    pass: ScanPass,
    bp: u32,
    p: Patch,
    start: Telling,
    k: int,
)
    requires
        bp < 32,
        p.inside(g),
        0 <= k <= p.size(),
        forall|i: int|
            0 <= i < g.area() ==> alike_above(#[trigger] a[i], b[i], f.skipped(i)) && f.skipped(i)
                >= 0,
    ensures
        told(g, a, f, pass, bp, p, start, k) == told(g, b, f, pass, bp, p, start, k),
    decreases k,
{
    if k > 0 {
        lemma_same_pass(g, a, b, f, pass, bp, p, start, k - 1);
        lemma_place_inside(g, p, k - 1);
        let i = g.at(p.x(k - 1), p.y(k - 1));
        assert(alike_above(a[i], b[i], f.skipped(i)));
        lemma_same_visit(
            g,
            a,
            b,
            f,
            pass,
            bp,
            told(g, a, f, pass, bp, p, start, k - 1),
            p.x(k - 1),
            p.y(k - 1),
        );
    }
}

proof fn lemma_window_inside(g: Grid, f: Selection)
    ensures
        window_patch(g, f).inside(g),
        0 <= window_patch(g, f).size(),
{
    let p = window_patch(g, f);
    assert((p.columns - 1) * p.step == p.columns - 1 && (p.rows - 1) * p.step == p.rows - 1)
        by (nonlinear_arith)
        requires
            p.step == 1,
    ;
    assert(0 <= p.columns * p.rows) by (nonlinear_arith)
        requires
            0 <= p.columns,
            0 <= p.rows,
    ;
}

proof fn lemma_same_planes(
    g: Grid,
    a: Seq<i32>,
    b: Seq<i32>,
    f: Selection,
    kind: EntropyKind,
    q: u8,
    k: int,
)
    requires
        q <= 32,
        0 <= k <= q,
        forall|i: int|
            0 <= i < g.area() ==> alike_above(#[trigger] a[i], b[i], f.skipped(i)) && f.skipped(i)
                >= 0,
    ensures
        planes_coded(g, a, f, kind, q, k) == planes_coded(g, b, f, kind, q, k),
    decreases k,
{
    if k > 0 {
        lemma_same_planes(g, a, b, f, kind, q, k - 1);
        lemma_window_inside(g, f);
        let p = window_patch(g, f);
        let before = planes_coded(g, a, f, kind, q, k - 1);
        let bp = (q - k) as u32;
        let fresh = Telling {
            scan: crate::scan::with_fresh_model(before.scan),
            log: Seq::empty(),
        };
        lemma_same_pass(g, a, b, f, ScanPass::Significance, bp, p, fresh, p.size());
        let sig = pass_told(g, a, f, ScanPass::Significance, bp, before.scan);
        let next = Telling { scan: crate::scan::with_fresh_model(sig.scan), log: Seq::empty() };
        lemma_same_pass(g, a, b, f, ScanPass::Refinement, bp, p, next, p.size());
        assert(plane_coded(g, a, f, kind, q, before, k - 1) == plane_coded(
            g,
            b,
            f,
            kind,
            q,
            before,
            k - 1,
        ));
    }
}

/// **Bits that are left out do not matter**: coefficients that differ in nothing
/// but bits that a selection leaves out have the same packets.
pub proof fn skipped_bits_do_not_matter(
    g: Grid,
    a: Seq<i32>,
    b: Seq<i32>,
    f: Selection,
    kind: EntropyKind,
    q: u8,
)
    requires
        q <= 32,
        forall|i: int|
            0 <= i < g.area() ==> alike_above(#[trigger] a[i], b[i], f.skipped(i)) && f.skipped(i)
                >= 0,
    ensures
        bitplanes_coded(g, a, f, kind, q) == bitplanes_coded(g, b, f, kind, q),
{
    lemma_same_planes(g, a, b, f, kind, q, q as int);
}

/// **With a minimum loss the bits below it are not coded**: coefficients that
/// differ in nothing but as many bits as the minimum loss leaves out in their
/// subband have the same packets.
pub proof fn minimum_loss_hides_bits(
    set: Settings,
    g: Grid,
    a: Seq<i32>,
    b: Seq<i32>,
    segment: Option<(Seq<u16>, u16)>,
    window: Option<(usize, usize, usize, usize)>,
    q: u8,
)
    requires
        q <= 32,
        set.min_loss > 0,
        !set.priority,
        forall|i: int|
            0 <= i < g.area() ==> alike_above(
                #[trigger] a[i],
                b[i],
                skip_map(g.width as int, g.height as int, g.levels, set.min_loss as int)[i] as int,
            ),
    ensures
        coded_packets_of(set, g, a, coded_selection(set, g, segment, window), q)
            == coded_packets_of(set, g, b, coded_selection(set, g, segment, window), q),
{
    skipped_bits_do_not_matter(
        g,
        a,
        b,
        coded_selection(set, g, segment, window),
        crate::entropy::coder_of(set.interleaved),
        q,
    );
}

} // verus!
