//! Adaptive probability estimation and context selection for the bit-plane
//! coder.
//!
//! A context model keeps, for each context, how many of the recent bits were
//! ones. The functions below the model choose the context of a bit from the
//! significance, sign and category of its neighbours. A neighbourhood is
//! packed into a byte: NW is bit 0, N bit 1, NE bit 2, W bit 3, E bit 4, SW
//! bit 5, S bit 6, SE bit 7.

use crate::arith::bit8;
use vstd::prelude::*;

verus! {

/// Number of contexts: 0 to 8 for significance, 9 to 11 for refinement, 12 to
/// 16 for signs.
pub const CONTEXT_COUNT: usize = 17;

/// The refinement context of a coefficient in category 2.
pub const CATEGORY2_CONTEXT: usize = 11;

/// Ones counted in a fresh context.
pub const INITIAL_ONES: u32 = 2;

/// Bits counted in a fresh context.
pub const INITIAL_TOTAL: u32 = 4;

/// The counts of a context are halved when its total reaches this value.
pub const RESCALE_THRESHOLD: u32 = 500;

/// Probability estimate of a bit that is left uncoded.
pub const UNCODED_P1: (u32, u32) = (1, 2);

// ---------------------------------------------------------------------------
// Probability estimation
// ---------------------------------------------------------------------------

/// Distance of the estimate `ones / total` from one half, times `2 * total`.
pub open spec fn imbalance(ones: int, total: int) -> int {
    if 2 * ones >= total {
        2 * ones - total
    } else {
        total - 2 * ones
    }
}

/// `(ones, total)` halved. The total is rounded up; the ones are rounded in
/// the direction that brings the estimate nearer to one half, and kept
/// strictly between 0 and the total.
pub open spec fn halved(counts: (u32, u32)) -> (u32, u32) {
    let ones = counts.0 as int;
    let total = (counts.1 + 1) / 2;
    let by_ones = (ones + 1) / 2;
    let by_zeros = total - (counts.1 - ones + 1) / 2;
    let nearer = if imbalance(by_ones, total) <= imbalance(by_zeros, total) {
        by_ones
    } else {
        by_zeros
    };
    let kept = if nearer < 1 {
        1
    } else if nearer > total - 1 {
        total - 1
    } else {
        nearer
    };
    (kept as u32, total as u32)
}

/// `(ones, total)` after one more bit.
pub open spec fn counted(counts: (u32, u32), bit: u8) -> (u32, u32) {
    let c = ((counts.0 + bit) as u32, (counts.1 + 1) as u32);
    if c.1 >= RESCALE_THRESHOLD {
        halved(c)
    } else {
        c
    }
}

/// The counts of a model after one more bit in context `ctx`.
pub open spec fn observed(model: Seq<(u32, u32)>, ctx: int, bit: u8) -> Seq<(u32, u32)> {
    model.update(ctx, counted(model[ctx], bit))
}

/// The counts of a fresh model with `n` contexts.
pub open spec fn fresh_counts(n: nat) -> Seq<(u32, u32)> {
    Seq::new(n, |i: int| (INITIAL_ONES, INITIAL_TOTAL))
}

/// The counts of a context: some ones, some zeros, and room for one more bit.
pub open spec fn counts_ok(counts: (u32, u32)) -> bool {
    1 <= counts.0 < counts.1 < RESCALE_THRESHOLD
}

/// Adaptive estimator, one pair of counts for each context.
pub struct ContextModel {
    counts: Vec<(u32, u32)>,
}

impl View for ContextModel {
    type V = Seq<(u32, u32)>;

    closed spec fn view(&self) -> Seq<(u32, u32)> {
        self.counts@
    }
}

impl ContextModel {
    /// Every estimate lies strictly between 0 and 1.
    pub open spec fn wf(self) -> bool {
        forall|i: int| 0 <= i < self@.len() ==> counts_ok(#[trigger] self@[i])
    }

    /// A fresh model with the contexts of the image coder.
    pub fn new() -> (m: Self)
        ensures
            m.wf(),
            m@ == fresh_counts(CONTEXT_COUNT as nat),
    {
        ContextModel::with_contexts(CONTEXT_COUNT)
    }

    /// A fresh model with `n` contexts.
    pub fn with_contexts(n: usize) -> (m: Self)
        ensures
            m.wf(),
            m@ == fresh_counts(n as nat),
    {
        let mut counts: Vec<(u32, u32)> = Vec::new();
        let mut i: usize = 0;
        while i < n
            invariant
                i <= n,
                counts@ == fresh_counts(i as nat),
            decreases n - i,
        {
            counts.push((INITIAL_ONES, INITIAL_TOTAL));
            assert(counts@ =~= fresh_counts((i + 1) as nat));
            i = i + 1;
        }
        ContextModel { counts }
    }

    /// The probability of a one in context `ctx`, as numerator and
    /// denominator.
    pub fn probability(&self, ctx: usize) -> (p: (u32, u32))
        requires
            ctx < self@.len(),
        ensures
            p == self@[ctx as int],
    {
        self.counts[ctx]
    }

    /// Count `bit` in context `ctx`.
    pub fn observe(&mut self, ctx: usize, bit: u8)
        requires
            old(self).wf(),
            ctx < old(self)@.len(),
            bit <= 1,
        ensures
            final(self).wf(),
            final(self)@ == observed(old(self)@, ctx as int, bit),
    {
        let (ones, total) = self.counts[ctx];
        assert(counts_ok(self@[ctx as int]));
        let o: u32 = ones + bit as u32;
        let t: u32 = total + 1;
        let c: (u32, u32) = if t >= RESCALE_THRESHOLD {
            ContextModel::rescale(o, t)
        } else {
            (o, t)
        };
        self.counts.set(ctx, c);
    }

    /// Halve the counts of a context.
    fn rescale(ones: u32, total: u32) -> (c: (u32, u32))
        requires
            1 <= ones <= total <= RESCALE_THRESHOLD,
            total >= 4,
        ensures
            c == halved((ones, total)),
            counts_ok(c),
    {
        let zeros: u32 = total - ones;
        let total_h: u32 = (total + 1) / 2;
        let ones_h: u32 = (ones + 1) / 2;
        let zeros_h: u32 = (zeros + 1) / 2;
        let by_zeros: u32 = total_h - zeros_h;
        let dist_a: u32 = if 2 * ones_h >= total_h {
            2 * ones_h - total_h
        } else {
            total_h - 2 * ones_h
        };
        let dist_b: u32 = if 2 * by_zeros >= total_h {
            2 * by_zeros - total_h
        } else {
            total_h - 2 * by_zeros
        };
        let nearer: u32 = if dist_a <= dist_b {
            ones_h
        } else {
            by_zeros
        };
        let kept: u32 = if nearer < 1 {
            1
        } else if nearer > total_h - 1 {
            total_h - 1
        } else {
            nearer
        };
        (kept, total_h)
    }
}

impl Default for ContextModel {
    fn default() -> (m: Self)
        ensures
            m.wf(),
            m@ == fresh_counts(CONTEXT_COUNT as nat),
    {
        ContextModel::new()
    }
}

/// The estimate of a context never leaves the open interval between 0 and 1,
/// and its window never grows to the threshold, whatever bit is counted.
pub proof fn estimates_stay_open(counts: (u32, u32), bit: u8)
    requires
        counts_ok(counts),
        bit <= 1,
    ensures
        counts_ok(counted(counts, bit)),
{
}

// ---------------------------------------------------------------------------
// Neighbourhoods
// ---------------------------------------------------------------------------

/// 1 for a bit that is set and 0 for one that is not.
pub open spec fn flag(b: bool) -> u8 {
    if b {
        1
    } else {
        0
    }
}

fn bit_of(p: u8, k: u8) -> (b: u8)
    requires
        k < 8,
    ensures
        b == flag(bit8(p, k)),
{
    let b: u8 = (p >> k) & 1;
    assert((p >> k) & 1 == 0 || (p >> k) & 1 == 1) by (bit_vector);
    b
}

/// Number of significant horizontal neighbours (W, E).
pub open spec fn horizontal(p: u8) -> u8 {
    (flag(bit8(p, 3)) + flag(bit8(p, 4))) as u8
}

/// Number of significant vertical neighbours (N, S).
pub open spec fn vertical(p: u8) -> u8 {
    (flag(bit8(p, 1)) + flag(bit8(p, 6))) as u8
}

/// Number of significant diagonal neighbours.
pub open spec fn diagonal(p: u8) -> u8 {
    (flag(bit8(p, 0)) + flag(bit8(p, 2)) + flag(bit8(p, 5)) + flag(bit8(p, 7))) as u8
}

/// Number of horizontal, vertical and diagonal significant neighbours.
pub fn neighbour_counts(pattern: u8) -> (c: (u8, u8, u8))
    ensures
        c == (horizontal(pattern), vertical(pattern), diagonal(pattern)),
{
    let h: u8 = bit_of(pattern, 3) + bit_of(pattern, 4);
    let v: u8 = bit_of(pattern, 1) + bit_of(pattern, 6);
    let d: u8 = bit_of(pattern, 0) + bit_of(pattern, 2) + bit_of(pattern, 5) + bit_of(pattern, 7);
    (h, v, d)
}

/// Significance context where subbands are not told apart.
pub open spec fn plain_context(pattern: u8) -> usize {
    let h = horizontal(pattern);
    let v = vertical(pattern) > 0;
    if diagonal(pattern) == 0 {
        if h == 0 {
            if v {
                2
            } else {
                0
            }
        } else if h == 1 {
            if v {
                3
            } else {
                1
            }
        } else {
            if v {
                5
            } else {
                4
            }
        }
    } else if h == 0 && !v {
        6
    } else if h <= 1 && !v {
        7
    } else {
        8
    }
}

/// Significance context where subbands are not told apart.
pub fn significance_context(pattern: u8) -> (ctx: usize)
    ensures
        ctx == plain_context(pattern),
        ctx <= 8,
{
    let (h, v, d) = neighbour_counts(pattern);
    if d == 0 {
        match (h, v > 0) {
            (0, false) => 0,
            (1, false) => 1,
            (0, true) => 2,
            (1, true) => 3,
            (_, false) => 4,
            (_, true) => 5,
        }
    } else if h == 0 && v == 0 {
        6
    } else if h <= 1 && v == 0 {
        7
    } else {
        8
    }
}

/// Significance context in an LL or LH subband, and in an HL subband with `h`
/// and `v` exchanged.
pub open spec fn plain_rule(h: u8, v: u8, d: u8) -> usize {
    if h >= 2 {
        8
    } else if h == 1 {
        if v > 0 || d >= 2 {
            7
        } else if d == 1 {
            6
        } else {
            5
        }
    } else if v >= 2 {
        4
    } else if v == 1 {
        3
    } else if d >= 2 {
        2
    } else {
        d as usize
    }
}

/// Significance context in an HH subband.
pub open spec fn diagonal_rule(h: u8, v: u8, d: u8) -> usize {
    if d >= 3 {
        8
    } else if d == 2 {
        if h + v == 0 {
            6
        } else {
            7
        }
    } else if h + v >= 2 {
        (3 * d + 2) as usize
    } else {
        (3 * d + h + v) as usize
    }
}

/// Significance context in a subband.
pub open spec fn subband_context(h: u8, v: u8, d: u8, is_hh: bool, is_hl: bool) -> usize {
    if is_hh {
        diagonal_rule(h, v, d)
    } else if is_hl {
        plain_rule(v, h, d)
    } else {
        plain_rule(h, v, d)
    }
}

/// Significance context in an LL or LH subband, from the numbers of
/// horizontal, vertical and diagonal significant neighbours.
pub fn significance_context_table6(h: u8, v: u8, d: u8) -> (ctx: usize)
    ensures
        ctx == plain_rule(h, v, d),
        ctx <= 8,
{
    match (h, v) {
        (0, 0) => match d {
            0 => 0,
            1 => 1,
            _ => 2,
        },
        (0, 1) => 3,
        (0, _) => 4,
        (1, 0) => match d {
            0 => 5,
            1 => 6,
            _ => 7,
        },
        (1, _) => 7,
        _ => 8,
    }
}

/// Significance context in an HH subband, from the numbers of horizontal,
/// vertical and diagonal significant neighbours.
pub fn significance_context_table7(h: u8, v: u8, d: u8) -> (ctx: usize)
    requires
        h + v <= 255,
    ensures
        ctx == diagonal_rule(h, v, d),
        ctx <= 8,
{
    let hv: u8 = h + v;
    match d {
        0 => match hv {
            0 => 0,
            1 => 1,
            _ => 2,
        },
        1 => match hv {
            0 => 3,
            1 => 4,
            _ => 5,
        },
        2 => match hv {
            0 => 6,
            _ => 7,
        },
        _ => 8,
    }
}

/// Significance context in a subband. In an HL subband the horizontal and the
/// vertical counts change roles; in an HH subband they are added.
pub fn significance_context_subband(h: u8, v: u8, d: u8, is_hh: bool, is_hl: bool) -> (ctx: usize)
    requires
        h + v <= 255,
    ensures
        ctx == subband_context(h, v, d, is_hh, is_hl),
        ctx <= 8,
{
    if is_hh {
        significance_context_table7(h, v, d)
    } else if is_hl {
        significance_context_table6(v, h, d)
    } else {
        significance_context_table6(h, v, d)
    }
}

// ---------------------------------------------------------------------------
// Signs
// ---------------------------------------------------------------------------

/// What one neighbour adds to the sum of its axis: +1 when it is significant
/// and positive, -1 when it is significant and negative.
pub open spec fn sign_value(significant: bool, negative: bool) -> int {
    if !significant {
        0
    } else if negative {
        -1
    } else {
        1
    }
}

/// Sum of the two neighbours of an axis. Bits 0 and 1 of `pattern` say whether
/// the first is significant and negative, bits 2 and 3 the same of the second.
pub open spec fn axis_sum(pattern: u8) -> int {
    sign_value(bit8(pattern, 0), bit8(pattern, 1)) + sign_value(bit8(pattern, 2), bit8(pattern, 3))
}

/// Predicted sign (`true` is negative) and context of a sign, from the sums of
/// the horizontal and the vertical axis.
pub open spec fn sign_rule(h: int, v: int) -> (bool, usize) {
    if h < 0 {
        (true, if v < 0 {
            16
        } else if v == 0 {
            15
        } else {
            14
        })
    } else if h == 0 {
        (v > 0, if v == 0 {
            12
        } else {
            13
        })
    } else {
        (false, if v < 0 {
            14
        } else if v == 0 {
            15
        } else {
            16
        })
    }
}

/// Predicted sign and context of a sign in a subband: in an HL subband the two
/// axes change roles.
pub open spec fn sign_choice(h_pattern: u8, v_pattern: u8, is_hl: bool) -> (bool, usize) {
    if is_hl {
        sign_rule(axis_sum(v_pattern), axis_sum(h_pattern))
    } else {
        sign_rule(axis_sum(h_pattern), axis_sum(v_pattern))
    }
}

fn axis_sign_sum(pattern: u8) -> (s: i8)
    ensures
        s == axis_sum(pattern),
        -2 <= s <= 2,
{
    let mut sum: i8 = 0;
    if bit_of(pattern, 0) == 1 {
        sum = if bit_of(pattern, 1) == 1 {
            -1
        } else {
            1
        };
    }
    if bit_of(pattern, 2) == 1 {
        sum = if bit_of(pattern, 3) == 1 {
            sum - 1
        } else {
            sum + 1
        };
    }
    sum
}

fn rule_for_sign(h: i8, v: i8) -> (r: (bool, usize))
    ensures
        r == sign_rule(h as int, v as int),
        12 <= r.1 <= 16,
{
    if v < 0 {
        if h < 0 {
            (true, 16)
        } else if h == 0 {
            (false, 13)
        } else {
            (false, 14)
        }
    } else if v == 0 {
        if h < 0 {
            (true, 15)
        } else if h == 0 {
            (false, 12)
        } else {
            (false, 15)
        }
    } else {
        if h < 0 {
            (true, 14)
        } else if h == 0 {
            (true, 13)
        } else {
            (false, 16)
        }
    }
}

/// Context of a sign bit.
pub fn sign_context(h_pattern: u8, v_pattern: u8) -> (ctx: usize)
    ensures
        ctx == sign_choice(h_pattern, v_pattern, false).1,
        12 <= ctx <= 16,
{
    rule_for_sign(axis_sign_sum(h_pattern), axis_sign_sum(v_pattern)).1
}

/// Whether the predicted sign is negative. The coder then codes the complement
/// of the sign bit.
pub fn sign_prediction_flip(h_pattern: u8, v_pattern: u8) -> (flip: bool)
    ensures
        flip == sign_choice(h_pattern, v_pattern, false).0,
{
    rule_for_sign(axis_sign_sum(h_pattern), axis_sign_sum(v_pattern)).0
}

/// Context of a sign bit in a subband.
pub fn sign_context_subband(h_pattern: u8, v_pattern: u8, is_hl: bool) -> (ctx: usize)
    ensures
        ctx == sign_choice(h_pattern, v_pattern, is_hl).1,
        12 <= ctx <= 16,
{
    if is_hl {
        sign_context(v_pattern, h_pattern)
    } else {
        sign_context(h_pattern, v_pattern)
    }
}

/// Whether the predicted sign in a subband is negative.
pub fn sign_prediction_flip_subband(h_pattern: u8, v_pattern: u8, is_hl: bool) -> (flip: bool)
    ensures
        flip == sign_choice(h_pattern, v_pattern, is_hl).0,
{
    if is_hl {
        sign_prediction_flip(v_pattern, h_pattern)
    } else {
        sign_prediction_flip(h_pattern, v_pattern)
    }
}

// ---------------------------------------------------------------------------
// Refinement
// ---------------------------------------------------------------------------

/// How a refinement bit is coded.
#[derive(Debug, Clone, Copy, PartialEq, Eq, Structural)]
pub enum MagnitudeContext {
    /// Adaptively, in this context.
    Coded(usize),
    /// At a fixed probability of one half, without adaptation.
    Uncoded,
}

/// How a refinement bit of a coefficient in category `category` is coded.
pub open spec fn refinement_choice(category: u8, has_hv: bool) -> MagnitudeContext {
    if category == 1 {
        MagnitudeContext::Coded(
            if has_hv {
                10
            } else {
                9
            },
        )
    } else if category == 2 {
        MagnitudeContext::Coded(11)
    } else {
        MagnitudeContext::Uncoded
    }
}

/// How a refinement bit of a coefficient in category `category` is coded.
pub fn magnitude_context(category: u8, has_hv_significant_neighbour: bool) -> (c: MagnitudeContext)
    ensures
        c == refinement_choice(category, has_hv_significant_neighbour),
        c matches MagnitudeContext::Coded(ctx) ==> 9 <= ctx <= 11,
{
    match category {
        1 => MagnitudeContext::Coded(
            if has_hv_significant_neighbour {
                10
            } else {
                9
            },
        ),
        2 => MagnitudeContext::Coded(CATEGORY2_CONTEXT),
        _ => MagnitudeContext::Uncoded,
    }
}

/// **The sign rule is fair to both signs**: where all neighbours change their
/// signs, the prediction changes, unless there is none, and the context stays.
pub proof fn sign_rule_is_fair(h: int, v: int)
    ensures
        sign_rule(-h, -v).1 == sign_rule(h, v).1,
        h != 0 || v != 0 ==> sign_rule(-h, -v).0 == !sign_rule(h, v).0,
        sign_rule(0, 0) == (false, 12usize),
{
}

/// **More significant neighbours never mean a lower context**, in any subband:
/// context 0 is that of a coefficient without any, and the highest is that of one
/// with all of them.
pub proof fn contexts_follow_neighbours(
    h: u8,
    v: u8,
    d: u8,
    more_h: u8,
    more_v: u8,
    more_d: u8,
    is_hh: bool,
    is_hl: bool,
)
    requires
        h <= more_h <= 2,
        v <= more_v <= 2,
        d <= more_d <= 4,
    ensures
        subband_context(h, v, d, is_hh, is_hl) <= subband_context(
            more_h,
            more_v,
            more_d,
            is_hh,
            is_hl,
        ),
        subband_context(h, v, d, is_hh, is_hl) == 0 <==> h == 0 && v == 0 && d == 0,
        subband_context(2, 2, 4, is_hh, is_hl) == 8,
{
}

/// **In an HL subband the axes change roles, and in an HH subband they are
/// alike.**
pub proof fn contexts_follow_axes(h: u8, v: u8, d: u8)
    ensures
        subband_context(h, v, d, false, true) == subband_context(v, h, d, false, false),
        subband_context(h, v, d, true, false) == subband_context(v, h, d, true, false),
        subband_context(h, v, d, true, true) == subband_context(h, v, d, true, false),
{
}

/// **A bit never moves an estimate away from itself**: after a one the share of
/// ones is no smaller, and after a zero no larger, unless the counts are halved.
pub proof fn bits_move_estimates(counts: (u32, u32), bit: u8)
    requires
        counts_ok(counts),
        bit <= 1,
        counts.1 + 1 < RESCALE_THRESHOLD,
    ensures
        ({
            let after = counted(counts, bit);
            &&& after.1 == counts.1 + 1
            &&& bit == 1 ==> after.0 * counts.1 > counts.0 * after.1
            &&& bit == 0 ==> after.0 * counts.1 < counts.0 * after.1
        }),
{
    let (ones, total) = (counts.0 as int, counts.1 as int);
    assert((ones + 1) * total == ones * (total + 1) + (total - ones)) by (nonlinear_arith);
    assert(ones * total < ones * (total + 1)) by (nonlinear_arith)
        requires
            ones >= 1,
    ;
}

/// **Where counts are halved, their window is half as long, and the estimate
/// stays within it.**
pub proof fn halving_keeps_estimates(counts: (u32, u32), bit: u8)
    requires
        counts_ok(counts),
        bit <= 1,
        counts.1 + 1 >= RESCALE_THRESHOLD,
    ensures
        ({
            let (ones, total) = (counts.0 + bit, counts.1 + 1);
            let after = counted(counts, bit);
            &&& total <= 2 * after.1 <= total + 1
            &&& ones - 2 <= 2 * after.0 <= ones + 2
        }),
{
}

} // verus!
