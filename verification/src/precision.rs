//! How far decoded coefficients lie from what they were.

use crate::bitplane::{bitplanes_coded, bitplanes_decoded, prioritized_coded, prioritized_decoded};
use crate::entropy::EntropyKind;
use crate::readback::{in_scope, packet_depth, packets_read_back, scope_fits, value_to};
use crate::readback_priority::{final_depth, prioritized_reads_back};
use crate::scan::{magnitude_of, Grid, Selection};
use vstd::arithmetic::power2::{lemma_pow2_adds, lemma_pow2_pos, lemma_pow2_strictly_increases, pow2};
use vstd::prelude::*;

verus! {

/// The bits of a magnitude from bit `t` on.
proof fn lemma_upper_bits(m: u32, t: u32)
    requires
        t <= 31,
    ensures
        ({
            let step = pow2(t as nat) as int;
            &&& (m >> t) << t == (m as int / step) * step
            &&& 0 <= m - (m as int / step) * step < step
            &&& (m as int / step) * step >= 0
        }),
{
    let step = pow2(t as nat) as int;
    lemma_pow2_pos(t as nat);
    vstd::arithmetic::power2::lemma2_to64();
    vstd::bits::lemma_u32_shr_is_div(m, t);
    let top = m >> t;
    vstd::arithmetic::div_mod::lemma_fundamental_div_mod(m as int, step);
    assert((m as int / step) * step == step * (m as int / step)) by (nonlinear_arith);
    assert(m as int / step >= 0) by (nonlinear_arith)
        requires
            m >= 0,
            step >= 1,
    ;
    assert((m as int / step) * step >= 0) by (nonlinear_arith)
        requires
            m as int / step >= 0,
            step >= 1,
    ;
    vstd::bits::lemma_u32_shl_is_mul(top, t);
}

/// **A coefficient that is known from bit `t` on decodes to a value that is
/// off by less than `2^t`**, with its own sign, and to 0 exactly where it lies
/// below `2^t`.
pub proof fn known_values_are_close(c: i32, t: u32)
    requires
        magnitude_of(c) < 0x8000_0000,
        t <= 31,
    ensures
        -pow2(t as nat) < value_to(c, t) - c < pow2(t as nat),
        value_to(c, t) == 0 <==> magnitude_of(c) < pow2(t as nat),
        value_to(c, t) > 0 ==> c > 0,
        value_to(c, t) < 0 ==> c < 0,
{
    let m = magnitude_of(c);
    let step = pow2(t as nat) as int;
    let k = m as int / step;
    let low = (m >> t) << t;
    lemma_upper_bits(m, t);
    lemma_pow2_pos(t as nat);
    vstd::arithmetic::power2::lemma2_to64();
    if t > 0 {
        lemma_pow2_adds(1, (t - 1) as nat);
        lemma_pow2_pos((t - 1) as nat);
    }
    assert(low + step <= 0x8000_0000) by {
        if t < 31 {
            let rest = pow2((31 - t) as nat) as int;
            lemma_pow2_adds(t as nat, (31 - t) as nat);
            assert(rest * step == step * rest) by (nonlinear_arith);
            assert(step * rest == 0x8000_0000);
            assert(k < rest) by (nonlinear_arith)
                requires
                    k * step <= m,
                    m < rest * step,
                    step >= 1,
            ;
            assert(k * step + step <= rest * step) by (nonlinear_arith)
                requires
                    k + 1 <= rest,
                    step >= 1,
            ;
        } else {
            assert(k == 0) by (nonlinear_arith)
                requires
                    k == m as int / step,
                    0 <= m < step,
            ;
            assert(k * step == 0) by (nonlinear_arith)
                requires
                    k == 0,
            ;
        }
    }
    assert(low == 0 <==> m < step) by {
        if m < step {
            assert(k == 0) by (nonlinear_arith)
                requires
                    k == m as int / step,
                    0 <= m < step,
            ;
            assert(k * step == 0) by (nonlinear_arith)
                requires
                    k == 0,
            ;
        }
    }
}

/// **Bit planes that are left out cost less than their lowest one that is
/// kept**: from all packets, a coefficient comes back up to `2^n`, where `n` of
/// its bits are left out.
pub proof fn skipped_planes_bound_the_error(
    g: Grid,
    coeffs: Seq<i32>,
    f: Selection,
    kind: EntropyKind,
    q: u8,
    i: int,
)
    requires
        coeffs.len() == g.area(),
        1 <= q <= 31,
        scope_fits(g, coeffs, f, q),
        0 <= i < coeffs.len(),
        in_scope(g, f, i),
        0 <= f.skipped(i) < q,
    ensures
        ({
            let out = bitplanes_decoded(g, f, kind, q, bitplanes_coded(g, coeffs, f, kind, q));
            let step = pow2(f.skipped(i) as nat) as int;
            &&& out.len() == coeffs.len()
            &&& -step < out[i] - coeffs[i] < step
        }),
{
    let all = bitplanes_coded(g, coeffs, f, kind, q);
    packets_read_back(g, coeffs, f, kind, q, 2 * q);
    assert(all.take(2 * q) =~= all);
    assert(2 * q / 2 == q as int);
    assert(packet_depth(g, coeffs, f, q, i, 2 * q) == f.skipped(i));
    lemma_small(coeffs[i], q);
    known_values_are_close(coeffs[i], f.skipped(i) as u32);
}

proof fn lemma_small(c: i32, q: u8)
    requires
        magnitude_of(c) < pow2(q as nat),
        q <= 31,
    ensures
        magnitude_of(c) < 0x8000_0000,
{
    vstd::arithmetic::power2::lemma2_to64();
    if q < 31 {
        lemma_pow2_strictly_increases(q as nat, 31);
    }
}

/// **A minimum loss costs less than the lowest bit plane that it keeps**, also
/// where packets come in the order of their priority.
pub proof fn minimum_loss_bounds_the_error(
    g: Grid,
    coeffs: Seq<i32>,
    f: Selection,
    kind: EntropyKind,
    q: u8,
    min_loss: u8,
    i: int,
)
    requires
        1 <= g.levels <= 6,
        g.ok(),
        coeffs.len() == g.area(),
        1 <= q <= 31,
        scope_fits(g, coeffs, f, q),
        0 <= i < coeffs.len(),
        in_scope(g, f, i),
    ensures
        ({
            let out = prioritized_decoded(
                g,
                f,
                kind,
                q,
                min_loss,
                prioritized_coded(g, coeffs, f, kind, q, min_loss),
            );
            let step = pow2(final_depth(g, f, q, min_loss, i) as nat) as int;
            &&& out.len() == coeffs.len()
            &&& -step < out[i] - coeffs[i] < step
        }),
{
    prioritized_reads_back(g, coeffs, f, kind, q, min_loss);
    lemma_small(coeffs[i], q);
    known_values_are_close(coeffs[i], final_depth(g, f, q, min_loss, i));
}

} // verus!
