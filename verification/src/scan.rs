//! The passes of the bit-plane coder.
//!
//! A pass visits coefficients one after the other and codes at most one
//! magnitude bit of each. A coefficient that is still insignificant gets a
//! significance bit, followed by its sign where the bit is the first one of
//! its magnitude; a significant coefficient gets a refinement bit. The context
//! of every bit comes from the neighbours of the coefficient in its own
//! subband.
//!
//! The encoder and the decoder run the same passes over the same state: what
//! is known of each coefficient, and the counts of the context model.

use crate::arith::{byte_of, Decision};
use crate::context::{diagonal, flag, fresh_counts, horizontal, magnitude_context, neighbour_counts, observed, plain_context, refinement_choice, sign_choice, sign_context_subband, sign_prediction_flip_subband, significance_context, significance_context_subband, subband_context, vertical, ContextModel, MagnitudeContext, CONTEXT_COUNT, UNCODED_P1};
use crate::entropy::{decoded, BitSink, BitSource, EntropyKind};
use crate::error::{fails_with, Fault, IcerError, Result};
use crate::priority::{classified, classify_position, lemma_index, stride_at, subband_stride, two_to, SubbandType};
use crate::text::with_numbers;
use vstd::prelude::*;
use vstd::arithmetic::power2::pow2;

verus! {

// ---------------------------------------------------------------------------
// Which bits are coded
// ---------------------------------------------------------------------------

/// Restricts a pass to some of the coefficients and of their bits.
#[derive(Debug, Clone, Copy)]
pub struct ScanFilter<'a> {
    /// Segment of each coefficient, and the only segment that is coded.
    pub segment: Option<(&'a [u16], u16)>,
    /// For each coefficient the number of its least significant bits that are
    /// left out.
    pub skip: Option<&'a [u8]>,
    /// Columns `x0..x1` and rows `y0..y1` that are visited, as
    /// `(x0, x1, y0, y1)`.
    pub window: Option<(usize, usize, usize, usize)>,
}

/// The selection of a filter as a value.
pub struct Selection {
    /// Segment of each coefficient, and the only segment that is coded.
    pub segment: Option<(Seq<u16>, u16)>,
    /// For each coefficient the number of its least significant bits that are
    /// left out.
    pub skip: Option<Seq<u8>>,
    /// Columns `x0..x1` and rows `y0..y1` that are visited.
    pub window: Option<(usize, usize, usize, usize)>,
}

/// The smaller of two numbers.
pub open spec fn lesser(a: int, b: int) -> int {
    if a <= b {
        a
    } else {
        b
    }
}

fn min_of(a: usize, b: usize) -> (m: usize)
    ensures
        m == lesser(a as int, b as int),
{
    if a <= b {
        a
    } else {
        b
    }
}

impl<'a> View for ScanFilter<'a> {
    type V = Selection;

    open spec fn view(&self) -> Selection {
        Selection {
            segment: match self.segment {
                Some((map, seg)) => Some((map@, seg)),
                None => None,
            },
            skip: match self.skip {
                Some(skip) => Some(skip@),
                None => None,
            },
            window: self.window,
        }
    }
}

/// The selection that leaves out nothing.
pub open spec fn everything() -> Selection {
    Selection { segment: None, skip: None, window: None }
}

impl Selection {
    /// The maps have an entry for each of `n` coefficients and the window is
    /// not inverted.
    pub open spec fn fits(self, n: int) -> bool {
        &&& self.segment matches Some((map, _)) ==> map.len() == n
        &&& self.skip matches Some(skip) ==> skip.len() == n
        &&& self.window matches Some((x0, x1, y0, y1)) ==> x0 <= x1 && y0 <= y1
    }

    /// The coefficient belongs to the segment that is coded.
    pub open spec fn in_segment(self, i: int) -> bool {
        self.segment matches Some((map, seg)) ==> map[i] == seg
    }

    /// Number of least significant bits of the coefficient that are left out.
    pub open spec fn skipped(self, i: int) -> int {
        match self.skip {
            Some(skip) => skip[i] as int,
            None => 0,
        }
    }

    /// Bit `bp` of coefficient `i` is coded.
    pub open spec fn admits(self, i: int, bp: int) -> bool {
        self.in_segment(i) && bp >= self.skipped(i)
    }

    /// The columns and rows that are visited, within the buffer.
    pub open spec fn limits(self, width: int, height: int) -> (int, int, int, int) {
        match self.window {
            Some((x0, x1, y0, y1)) => (
                lesser(x0 as int, width),
                lesser(x1 as int, width),
                lesser(y0 as int, height),
                lesser(y1 as int, height),
            ),
            None => (0, width, 0, height),
        }
    }
}

impl<'a> ScanFilter<'a> {
    /// The filter that leaves out nothing.
    pub fn all() -> (f: ScanFilter<'static>)
        ensures
            f@ == everything(),
    {
        ScanFilter { segment: None, skip: None, window: None }
    }

    /// The columns and rows that are visited, within the buffer.
    pub(crate) fn bounds(&self, width: usize, height: usize) -> (r: (usize, usize, usize, usize))
        ensures
            (r.0 as int, r.1 as int, r.2 as int, r.3 as int) == self@.limits(
                width as int,
                height as int,
            ),
            r.1 <= width,
            r.3 <= height,
    {
        match self.window {
            Some((x0, x1, y0, y1)) => (
                min_of(x0, width),
                min_of(x1, width),
                min_of(y0, height),
                min_of(y1, height),
            ),
            None => (0, width, 0, height),
        }
    }

    /// Whether bit `bp` of coefficient `i` is coded.
    pub(crate) fn visits(&self, i: usize, bp: u32, Ghost(n): Ghost<int>) -> (b: bool)
        requires
            self@.fits(n),
            i < n,
        ensures
            b == self@.admits(i as int, bp as int),
    {
        if let Some((map, seg)) = self.segment {
            if map[i] != seg {
                return false;
            }
        }
        if let Some(skip) = self.skip {
            if bp < skip[i] as u32 {
                return false;
            }
        }
        true
    }

    /// Check the filter against a buffer of `n` coefficients.
    pub(crate) fn validate(&self, n: usize) -> (r: Result<()>)
        ensures
            r is Ok <==> self@.fits(n as int),
            fails_with(r, Fault::InvalidData) <==> !self@.fits(n as int),
    {
        if let Some((map, _)) = self.segment {
            if map.len() != n {
                return Err(
                    IcerError::InvalidData(
                        with_numbers(
                            "segment map length ",
                            map.len() as u64,
                            " != coeff count ",
                            n as u64,
                            "",
                        ),
                    ),
                );
            }
        }
        if let Some(skip) = self.skip {
            if skip.len() != n {
                return Err(
                    IcerError::InvalidData(
                        with_numbers(
                            "skip map length ",
                            skip.len() as u64,
                            " != coeff count ",
                            n as u64,
                            "",
                        ),
                    ),
                );
            }
        }
        if let Some((x0, x1, y0, y1)) = self.window {
            if x0 > x1 || y0 > y1 {
                return Err(IcerError::invalid("inverted scan window"));
            }
        }
        Ok(())
    }
}

impl<'a> Default for ScanFilter<'a> {
    fn default() -> (f: Self)
        ensures
            f@ == everything(),
    {
        ScanFilter { segment: None, skip: None, window: None }
    }
}

// ---------------------------------------------------------------------------
// Magnitudes
// ---------------------------------------------------------------------------

/// `|c|`.
pub open spec fn magnitude_of(c: i32) -> u32 {
    (if c < 0 {
        -c
    } else {
        c as int
    }) as u32
}

/// `|c|`.
pub(crate) fn magnitude(c: i32) -> (m: u32)
    ensures
        m == magnitude_of(c),
{
    if c >= 0 {
        c as u32
    } else if c == i32::MIN {
        0x8000_0000
    } else {
        (-c) as u32
    }
}

/// Bit `bp` of a magnitude.
pub open spec fn bit_at(m: u32, bp: u32) -> u8 {
    ((m >> bp) & 1) as u8
}

pub(crate) fn get_bit_at(m: u32, bp: u32) -> (b: u8)
    requires
        bp < 32,
    ensures
        b == bit_at(m, bp),
        b <= 1,
{
    let v: u32 = (m >> bp) & 1;
    assert(v <= 1) by (bit_vector)
        requires
            v == (m >> bp) & 1,
    ;
    v as u8
}

/// Position of the most significant one of `x`, if there is one.
pub fn highest_set_bit(x: u32) -> (r: Option<u32>)
    ensures
        r is None <==> x == 0,
        r matches Some(k) ==> k < 32 && x >> k == 1,
{
    if x == 0 {
        return None;
    }
    let mut k: u32 = 0;
    let mut rest: u32 = x;
    assert(x >> 0u32 == x) by (bit_vector);
    while rest > 1
        invariant
            rest >= 1,
            k < 32,
            rest == x >> k,
            k < 31 || rest == 1,
        decreases rest,
    {
        assert((rest >> 1u32) >= 1 && (rest >> 1u32) < rest && (rest >> 1u32) == x >> ((k + 1) as u32) && (k
            + 1 < 31 || (rest >> 1u32) == 1)) by (bit_vector)
            requires
                rest > 1,
                k < 31,
                rest == x >> k,
        ;
        rest = rest >> 1;
        k = k + 1;
    }
    Some(k)
}

// ---------------------------------------------------------------------------
// Neighbours
// ---------------------------------------------------------------------------

/// Shape of a coefficient buffer. `levels` is the number of decomposition
/// levels; with 0 subbands are not told apart.
#[derive(Debug, Clone, Copy, PartialEq, Eq, Structural)]
pub struct Grid {
    /// Columns.
    pub width: usize,
    /// Rows.
    pub height: usize,
    /// Decomposition levels.
    pub levels: u8,
}

impl Grid {
    /// Number of coefficients.
    pub open spec fn area(self) -> int {
        self.width * self.height
    }

    /// The buffer can be addressed.
    pub open spec fn ok(self) -> bool {
        self.area() <= usize::MAX
    }

    /// Position of `(x, y)` in the buffer.
    pub open spec fn at(self, x: int, y: int) -> int {
        y * self.width + x
    }
}

/// The flag at `(x, y)`; `false` outside the buffer.
pub open spec fn flag_at(g: Grid, flags: Seq<bool>, x: int, y: int) -> bool {
    0 <= x < g.width && 0 <= y < g.height && flags[g.at(x, y)]
}

/// The flags of the eight neighbours at distance `d`, packed into a byte.
pub open spec fn pattern_at(g: Grid, flags: Seq<bool>, x: int, y: int, d: int) -> u8 {
    byte_of(
        flag_at(g, flags, x + d, y + d),
        flag_at(g, flags, x, y + d),
        flag_at(g, flags, x - d, y + d),
        flag_at(g, flags, x + d, y),
        flag_at(g, flags, x - d, y),
        flag_at(g, flags, x + d, y - d),
        flag_at(g, flags, x, y - d),
        flag_at(g, flags, x - d, y - d),
    )
}

/// Whether two neighbours are significant and negative: 1 and 2 for the first,
/// 4 and 8 for the second.
pub open spec fn pair_of(first: bool, first_negative: bool, second: bool, second_negative: bool) -> u8 {
    ((if first {
        1 + 2 * flag(first_negative)
    } else {
        0
    }) + (if second {
        4 + 8 * flag(second_negative)
    } else {
        0
    })) as u8
}

fn back(a: usize, d: usize) -> (r: Option<usize>)
    ensures
        r is None <==> a - d < 0,
        r matches Some(v) ==> v == a - d,
{
    if a >= d {
        Some(a - d)
    } else {
        None
    }
}

fn ahead(a: usize, d: usize, limit: usize) -> (r: Option<usize>)
    requires
        a < limit,
    ensures
        r is None <==> a + d >= limit,
        r matches Some(v) ==> v == a + d,
{
    if d < limit - a {
        Some(a + d)
    } else {
        None
    }
}

/// The flag at a position, where there is one.
fn look(g: Grid, flags: &[bool], x: Option<usize>, y: Option<usize>) -> (b: bool)
    requires
        g.ok(),
        flags@.len() == g.area(),
        x matches Some(v) ==> v < g.width,
        y matches Some(v) ==> v < g.height,
    ensures
        b == (x is Some && y is Some && flags@[g.at(x->0 as int, y->0 as int)]),
{
    match (x, y) {
        (Some(x), Some(y)) => {
            proof {
                lemma_index(x as int, y as int, g.width as int, g.height as int);
                assert(y * g.width >= 0) by (nonlinear_arith);
            }
            flags[y * g.width + x]
        },
        _ => false,
    }
}

fn gather_pattern(g: Grid, flags: &[bool], x: usize, y: usize, d: usize) -> (p: u8)
    requires
        g.ok(),
        flags@.len() == g.area(),
        x < g.width,
        y < g.height,
    ensures
        p == pattern_at(g, flags@, x as int, y as int, d as int),
{
    let w = back(x, d);
    let e = ahead(x, d, g.width);
    let n = back(y, d);
    let s = ahead(y, d, g.height);
    (if look(g, flags, e, s) {
        128u8
    } else {
        0u8
    }) | (if look(g, flags, Some(x), s) {
        64u8
    } else {
        0u8
    }) | (if look(g, flags, w, s) {
        32u8
    } else {
        0u8
    }) | (if look(g, flags, e, Some(y)) {
        16u8
    } else {
        0u8
    }) | (if look(g, flags, w, Some(y)) {
        8u8
    } else {
        0u8
    }) | (if look(g, flags, e, n) {
        4u8
    } else {
        0u8
    }) | (if look(g, flags, Some(x), n) {
        2u8
    } else {
        0u8
    }) | (if look(g, flags, w, n) {
        1u8
    } else {
        0u8
    })
}

/// Which of the eight neighbours of `(x, y)` in its subband are significant:
/// NW is bit 0, N bit 1, NE bit 2, W bit 3, E bit 4, SW bit 5, S bit 6, SE
/// bit 7.
pub fn neighbour_significance_pattern(
    significant: &[bool],
    width: usize,
    height: usize,
    x: usize,
    y: usize,
    levels: u8,
) -> (p: u8)
    requires
        width * height <= usize::MAX,
        significant@.len() == width * height,
        x < width,
        y < height,
    ensures
        p == pattern_at(
            (Grid { width, height, levels }),
            significant@,
            x as int,
            y as int,
            stride_at(x as int, y as int, levels),
        ),
{
    let g = Grid { width, height, levels };
    gather_pattern(g, significant, x, y, subband_stride(x, y, levels))
}

/// Context of the significance bit at `(x, y)`.
pub open spec fn significance_context_at(g: Grid, significant: Seq<bool>, x: int, y: int) -> usize {
    let p = pattern_at(g, significant, x, y, stride_at(x, y, g.levels));
    if g.levels == 0 {
        plain_context(p)
    } else {
        let kind = classified(x, y, 1, g.levels as int).0;
        subband_context(horizontal(p), vertical(p), diagonal(p), kind is Hh, kind is Hl)
    }
}

/// Predicted sign and context of the sign at `(x, y)`.
pub open spec fn sign_choice_at(
    g: Grid,
    significant: Seq<bool>,
    sign: Seq<bool>,
    x: int,
    y: int,
) -> (bool, usize) {
    let d = stride_at(x, y, g.levels);
    let h = pair_of(
        flag_at(g, significant, x - d, y),
        flag_at(g, sign, x - d, y),
        flag_at(g, significant, x + d, y),
        flag_at(g, sign, x + d, y),
    );
    let v = pair_of(
        flag_at(g, significant, x, y - d),
        flag_at(g, sign, x, y - d),
        flag_at(g, significant, x, y + d),
        flag_at(g, sign, x, y + d),
    );
    sign_choice(h, v, g.levels != 0 && classified(x, y, 1, g.levels as int).0 is Hl)
}

/// A neighbour to the west, north or south of `(x, y)` is significant.
pub open spec fn has_axis_neighbour(g: Grid, significant: Seq<bool>, x: int, y: int) -> bool {
    let d = stride_at(x, y, g.levels);
    flag_at(g, significant, x - d, y) || flag_at(g, significant, x, y - d) || flag_at(
        g,
        significant,
        x,
        y + d,
    )
}

fn significance_visit(g: Grid, significant: &[bool], x: usize, y: usize) -> (ctx: usize)
    requires
        g.ok(),
        significant@.len() == g.area(),
        x < g.width,
        y < g.height,
    ensures
        ctx == significance_context_at(g, significant@, x as int, y as int),
        ctx <= 8,
{
    if g.levels == 0 {
        return significance_context(gather_pattern(g, significant, x, y, 1));
    }
    let (kind, _) = classify_position(x, y, g.levels);
    let pat: u8 = gather_pattern(g, significant, x, y, subband_stride(x, y, g.levels));
    let (h, v, d) = neighbour_counts(pat);
    significance_context_subband(h, v, d, kind == SubbandType::Hh, kind == SubbandType::Hl)
}

fn pair_pattern(
    g: Grid,
    significant: &[bool],
    sign: &[bool],
    a: (Option<usize>, Option<usize>),
    b: (Option<usize>, Option<usize>),
) -> (p: u8)
    requires
        g.ok(),
        significant@.len() == g.area(),
        sign@.len() == g.area(),
        a.0 matches Some(v) ==> v < g.width,
        a.1 matches Some(v) ==> v < g.height,
        b.0 matches Some(v) ==> v < g.width,
        b.1 matches Some(v) ==> v < g.height,
    ensures
        ({
            let in_a = a.0 is Some && a.1 is Some;
            let in_b = b.0 is Some && b.1 is Some;
            let ia = g.at(a.0->0 as int, a.1->0 as int);
            let ib = g.at(b.0->0 as int, b.1->0 as int);
            p == pair_of(
                in_a && significant@[ia],
                in_a && sign@[ia],
                in_b && significant@[ib],
                in_b && sign@[ib],
            )
        }),
{
    let mut p: u8 = 0;
    if look(g, significant, a.0, a.1) {
        p = 1;
        if look(g, sign, a.0, a.1) {
            p = 3;
        }
    }
    if look(g, significant, b.0, b.1) {
        p = p + 4;
        if look(g, sign, b.0, b.1) {
            p = p + 8;
        }
    }
    p
}

fn sign_visit(g: Grid, significant: &[bool], sign: &[bool], x: usize, y: usize) -> (r: (bool, usize))
    requires
        g.ok(),
        significant@.len() == g.area(),
        sign@.len() == g.area(),
        x < g.width,
        y < g.height,
    ensures
        r == sign_choice_at(g, significant@, sign@, x as int, y as int),
        12 <= r.1 <= 16,
{
    let d: usize = subband_stride(x, y, g.levels);
    let h: u8 = pair_pattern(
        g,
        significant,
        sign,
        (back(x, d), Some(y)),
        (ahead(x, d, g.width), Some(y)),
    );
    let v: u8 = pair_pattern(
        g,
        significant,
        sign,
        (Some(x), back(y, d)),
        (Some(x), ahead(y, d, g.height)),
    );
    let is_hl: bool = if g.levels == 0 {
        false
    } else {
        let (kind, _) = classify_position(x, y, g.levels);
        kind == SubbandType::Hl
    };
    (sign_prediction_flip_subband(h, v, is_hl), sign_context_subband(h, v, is_hl))
}

fn refinement_has_hv(g: Grid, significant: &[bool], x: usize, y: usize) -> (b: bool)
    requires
        g.ok(),
        significant@.len() == g.area(),
        x < g.width,
        y < g.height,
    ensures
        b == has_axis_neighbour(g, significant@, x as int, y as int),
{
    let d: usize = subband_stride(x, y, g.levels);
    look(g, significant, back(x, d), Some(y)) || look(g, significant, Some(x), back(y, d)) || look(
        g,
        significant,
        Some(x),
        ahead(y, d, g.height),
    )
}

// ---------------------------------------------------------------------------
// State
// ---------------------------------------------------------------------------

/// What both sides know while they scan.
#[verifier::ext_equal]
pub struct Scan {
    /// The coefficient has a one among the bits that were coded.
    pub significant: Seq<bool>,
    /// The coefficient is significant and negative.
    pub sign: Seq<bool>,
    /// Category of the coefficient: 0 while it is insignificant, then 1, 2
    /// and 3 with each bit.
    pub cat: Seq<u8>,
    /// Counts of the context model.
    pub model: Seq<(u32, u32)>,
}

/// Nothing is known of `n` coefficients.
pub open spec fn fresh_scan(n: int) -> Scan {
    Scan {
        significant: Seq::new(n as nat, |i: int| false),
        sign: Seq::new(n as nat, |i: int| false),
        cat: Seq::new(n as nat, |i: int| 0u8),
        model: fresh_counts(CONTEXT_COUNT as nat),
    }
}

/// The state with a fresh context model.
pub open spec fn with_fresh_model(s: Scan) -> Scan {
    Scan { model: fresh_counts(CONTEXT_COUNT as nat), ..s }
}

/// After a significance bit in context `ctx`.
pub open spec fn noticed(s: Scan, i: int, ctx: usize, bit: u8) -> Scan {
    Scan {
        significant: if bit == 1 {
            s.significant.update(i, true)
        } else {
            s.significant
        },
        sign: s.sign,
        cat: if bit == 1 {
            s.cat.update(i, 1)
        } else {
            s.cat
        },
        model: observed(s.model, ctx as int, bit),
    }
}

/// After the bit `coded` for the sign in context `ctx`.
pub open spec fn signed(s: Scan, i: int, ctx: usize, coded: u8, negative: bool) -> Scan {
    Scan {
        sign: s.sign.update(i, negative),
        model: observed(s.model, ctx as int, coded),
        ..s
    }
}

/// The category after one more bit.
pub open spec fn next_category(cat: u8) -> u8 {
    if cat >= 3 {
        3
    } else {
        (cat + 1) as u8
    }
}

/// Probability that a refinement bit is coded with.
pub open spec fn refinement_probability(model: Seq<(u32, u32)>, choice: MagnitudeContext) -> (u32, u32) {
    match choice {
        MagnitudeContext::Coded(ctx) => model[ctx as int],
        MagnitudeContext::Uncoded => UNCODED_P1,
    }
}

/// After a refinement bit.
pub open spec fn refined(s: Scan, i: int, choice: MagnitudeContext, bit: u8) -> Scan {
    Scan {
        cat: s.cat.update(i, next_category(s.cat[i])),
        model: match choice {
            MagnitudeContext::Coded(ctx) => observed(s.model, ctx as int, bit),
            MagnitudeContext::Uncoded => s.model,
        },
        ..s
    }
}

/// What both sides know while they scan.
pub struct ScanState {
    significant: Vec<bool>,
    sign: Vec<bool>,
    cat: Vec<u8>,
    model: ContextModel,
}

impl View for ScanState {
    type V = Scan;

    closed spec fn view(&self) -> Scan {
        Scan {
            significant: self.significant@,
            sign: self.sign@,
            cat: self.cat@,
            model: self.model@,
        }
    }
}

/// A vector of `n` times `value`.
pub(crate) fn repeated<T: Copy>(value: T, n: usize) -> (v: Vec<T>)
    ensures
        v@ == Seq::new(n as nat, |i: int| value),
{
    let mut v: Vec<T> = Vec::new();
    let mut i: usize = 0;
    while i < n
        invariant
            i <= n,
            v@ == Seq::new(i as nat, |k: int| value),
        decreases n - i,
    {
        v.push(value);
        assert(v@ =~= Seq::new((i + 1) as nat, |k: int| value));
        i = i + 1;
    }
    v
}

impl ScanState {
    /// There is an entry for each of `n` coefficients, and the estimates of
    /// the model are sound.
    pub closed spec fn wf(self, n: int) -> bool {
        &&& self.significant@.len() == n
        &&& self.sign@.len() == n
        &&& self.cat@.len() == n
        &&& self.model.wf()
        &&& self.model@.len() == CONTEXT_COUNT
    }

    /// Nothing is known of `n` coefficients.
    pub(crate) fn new(n: usize) -> (s: Self)
        ensures
            s.wf(n as int),
            s@ == fresh_scan(n as int),
    {
        let s = ScanState {
            significant: repeated(false, n),
            sign: repeated(false, n),
            cat: repeated(0u8, n),
            model: ContextModel::new(),
        };
        assert(s@ =~= fresh_scan(n as int));
        s
    }

    /// Forget what the context model has learnt.
    pub(crate) fn reset_model(&mut self, Ghost(n): Ghost<int>)
        requires
            old(self).wf(n),
        ensures
            final(self).wf(n),
            final(self)@ == with_fresh_model(old(self)@),
    {
        self.model = ContextModel::new();
    }
}

// ---------------------------------------------------------------------------
// Places
// ---------------------------------------------------------------------------

/// The places that a pass visits: `rows` rows of `columns` places, `step`
/// apart in both directions, the first at `(x0, y0)`.
#[derive(Debug, Clone, Copy, PartialEq, Eq, Structural)]
pub struct Patch {
    /// First column.
    pub x0: usize,
    /// First row.
    pub y0: usize,
    /// Distance of columns and of rows.
    pub step: usize,
    /// Number of columns.
    pub columns: usize,
    /// Number of rows.
    pub rows: usize,
}

impl Patch {
    /// Number of places.
    pub open spec fn size(self) -> int {
        self.columns * self.rows
    }

    /// Column of place `k`, in raster order.
    pub open spec fn x(self, k: int) -> int {
        self.x0 + (k % self.columns as int) * self.step
    }

    /// Row of place `k`, in raster order.
    pub open spec fn y(self, k: int) -> int {
        self.y0 + (k / self.columns as int) * self.step
    }

    /// Every place lies in the buffer.
    pub open spec fn inside(self, g: Grid) -> bool {
        &&& self.step >= 1
        &&& self.columns > 0 && self.rows > 0 ==> {
            &&& self.x0 + (self.columns - 1) * self.step < g.width
            &&& self.y0 + (self.rows - 1) * self.step < g.height
        }
    }
}

/// The place in row `row` and column `col` of a patch.
pub proof fn lemma_place(g: Grid, p: Patch, row: int, col: int)
    requires
        p.inside(g),
        0 <= row < p.rows,
        0 <= col < p.columns,
    ensures
        ({
            let k = row * p.columns + col;
            &&& 0 <= k < p.size()
            &&& p.x(k) == p.x0 + col * p.step
            &&& p.y(k) == p.y0 + row * p.step
            &&& 0 <= p.x(k) < g.width
            &&& 0 <= p.y(k) < g.height
            &&& 0 <= col * p.step
            &&& 0 <= row * p.step
        }),
{
    lemma_index(col, row, p.columns as int, p.rows as int);
    assert(0 <= col * p.step <= (p.columns - 1) * p.step) by (nonlinear_arith)
        requires
            0 <= col <= p.columns - 1,
            p.step >= 1,
    ;
    assert(0 <= row * p.step <= (p.rows - 1) * p.step) by (nonlinear_arith)
        requires
            0 <= row <= p.rows - 1,
            p.step >= 1,
    ;
}

/// Place `k` of a patch lies in the buffer.
pub proof fn lemma_place_inside(g: Grid, p: Patch, k: int)
    requires
        p.inside(g),
        0 <= k < p.size(),
    ensures
        0 <= p.x(k) < g.width,
        0 <= p.y(k) < g.height,
        0 <= g.at(p.x(k), p.y(k)) < g.area(),
{
    let row = k / p.columns as int;
    let col = k % p.columns as int;
    assert(p.columns > 0) by (nonlinear_arith)
        requires
            0 <= k < p.columns * p.rows,
    ;
    assert(0 <= row < p.rows && 0 <= col < p.columns && k == row * p.columns + col)
        by (nonlinear_arith)
        requires
            row == k / p.columns as int,
            col == k % p.columns as int,
            0 <= k < p.columns * p.rows,
            p.columns > 0,
    ;
    lemma_place(g, p, row, col);
    lemma_index(p.x(k), p.y(k), g.width as int, g.height as int);
}

/// The part of the buffer that a filter lets a pass visit.
pub open spec fn window_patch(g: Grid, f: Selection) -> Patch {
    let (x0, x1, y0, y1) = f.limits(g.width as int, g.height as int);
    Patch {
        x0: x0 as usize,
        y0: y0 as usize,
        step: 1,
        columns: (if x0 < x1 {
            x1 - x0
        } else {
            0
        }) as usize,
        rows: (if y0 < y1 {
            y1 - y0
        } else {
            0
        }) as usize,
    }
}

/// The part of the buffer that a filter lets a pass visit.
pub(crate) fn window_of(g: Grid, f: &ScanFilter) -> (p: Patch)
    ensures
        p == window_patch(g, f@),
        p.inside(g),
{
    let (x0, x1, y0, y1) = f.bounds(g.width, g.height);
    let p = Patch {
        x0,
        y0,
        step: 1,
        columns: if x0 < x1 {
            x1 - x0
        } else {
            0
        },
        rows: if y0 < y1 {
            y1 - y0
        } else {
            0
        },
    };
    assert((p.columns - 1) * p.step == p.columns - 1 && (p.rows - 1) * p.step == p.rows - 1)
        by (nonlinear_arith)
        requires
            p.step == 1,
    ;
    p
}

// ---------------------------------------------------------------------------
// Encoding
// ---------------------------------------------------------------------------

/// Which bits a pass codes.
#[derive(Debug, Clone, Copy, PartialEq, Eq, Structural)]
pub enum ScanPass {
    /// Significance bits, each first one followed by the sign.
    Significance,
    /// Refinement bits of the coefficients that were significant before this
    /// bit plane.
    Refinement,
    /// Both, coefficient by coefficient.
    Combined,
}

/// The encoding side: what is known, and the decisions that were made.
#[verifier::ext_equal]
pub struct Telling {
    /// What both sides know.
    pub scan: Scan,
    /// The decisions, in order.
    pub log: Seq<Decision>,
}

/// `p` as the probability of a decision for `symbol`.
pub open spec fn decision(symbol: u8, p: (u32, u32)) -> Decision {
    Decision { symbol, p1_num: p.0, p1_den: p.1 }
}

/// The significance bit, and the sign where it is due.
pub open spec fn tell_significance(g: Grid, c: i32, bp: u32, s: Telling, x: int, y: int) -> Telling {
    let i = g.at(x, y);
    let bit = bit_at(magnitude_of(c), bp);
    let ctx = significance_context_at(g, s.scan.significant, x, y);
    let log = s.log.push(decision(bit, s.scan.model[ctx as int]));
    let scan = noticed(s.scan, i, ctx, bit);
    if bit == 1 {
        let (flip, sctx) = sign_choice_at(g, scan.significant, scan.sign, x, y);
        let coded = flag(flip != (c < 0));
        Telling {
            scan: signed(scan, i, sctx, coded, c < 0),
            log: log.push(decision(coded, scan.model[sctx as int])),
        }
    } else {
        Telling { scan, log }
    }
}

/// The refinement bit.
pub open spec fn tell_refinement(g: Grid, c: i32, bp: u32, s: Telling, x: int, y: int) -> Telling {
    let i = g.at(x, y);
    let bit = bit_at(magnitude_of(c), bp);
    let choice = refinement_choice(
        s.scan.cat[i],
        has_axis_neighbour(g, s.scan.significant, x, y),
    );
    Telling {
        scan: refined(s.scan, i, choice, bit),
        log: s.log.push(decision(bit, refinement_probability(s.scan.model, choice))),
    }
}

/// One visit of the encoder.
pub open spec fn tell(
    g: Grid,
    coeffs: Seq<i32>,
    f: Selection,
    pass: ScanPass,
    bp: u32,
    s: Telling,
    x: int,
    y: int,
) -> Telling {
    let i = g.at(x, y);
    if !f.admits(i, bp as int) {
        s
    } else if !s.scan.significant[i] {
        if pass is Refinement {
            s
        } else {
            tell_significance(g, coeffs[i], bp, s, x, y)
        }
    } else if pass is Significance || (pass is Refinement && magnitude_of(coeffs[i]) >> bp == 1) {
        s
    } else {
        tell_refinement(g, coeffs[i], bp, s, x, y)
    }
}

/// The encoder after the first `k` places of a pass.
pub open spec fn told(
    g: Grid,
    coeffs: Seq<i32>,
    f: Selection,
    pass: ScanPass,
    bp: u32,
    p: Patch,
    start: Telling,
    k: int,
) -> Telling
    decreases k,
{
    if k <= 0 {
        start
    } else {
        tell(
            g,
            coeffs,
            f,
            pass,
            bp,
            told(g, coeffs, f, pass, bp, p, start, k - 1),
            p.x(k - 1),
            p.y(k - 1),
        )
    }
}

impl ScanState {
    /// Code the significance bit of a coefficient, and its sign where it is
    /// due.
    fn put_significance<S: BitSink>(
        &mut self,
        sink: &mut S,
        g: Grid,
        c: i32,
        bp: u32,
        x: usize,
        y: usize,
    )
        requires
            old(self).wf(g.area()),
            old(sink).wf(),
            g.ok(),
            bp < 32,
            x < g.width,
            y < g.height,
        ensures
            final(self).wf(g.area()),
            final(sink).wf(),
            final(sink).kind() == old(sink).kind(),
            (Telling { scan: final(self)@, log: final(sink).log() }) == tell_significance(
                g,
                c,
                bp,
                (Telling { scan: old(self)@, log: old(sink).log() }),
                x as int,
                y as int,
            ),
    {
        proof {
            lemma_index(x as int, y as int, g.width as int, g.height as int);
            assert(y * g.width >= 0) by (nonlinear_arith);
        }
        let i: usize = y * g.width + x;
        let bit: u8 = get_bit_at(magnitude(c), bp);
        let ctx: usize = significance_visit(g, self.significant.as_slice(), x, y);
        let (num, den) = self.model.probability(ctx);
        sink.put_bit(bit, num, den);
        self.model.observe(ctx, bit);
        if bit == 1 {
            self.significant.set(i, true);
            self.cat.set(i, 1);
            let (flip, sctx) = sign_visit(
                g,
                self.significant.as_slice(),
                self.sign.as_slice(),
                x,
                y,
            );
            let negative: bool = c < 0;
            let coded: u8 = if flip != negative {
                1
            } else {
                0
            };
            let (num, den) = self.model.probability(sctx);
            sink.put_bit(coded, num, den);
            self.model.observe(sctx, coded);
            self.sign.set(i, negative);
        }
    }

    /// Code the refinement bit of a coefficient.
    fn put_refinement<S: BitSink>(
        &mut self,
        sink: &mut S,
        g: Grid,
        c: i32,
        bp: u32,
        x: usize,
        y: usize,
    )
        requires
            old(self).wf(g.area()),
            old(sink).wf(),
            g.ok(),
            bp < 32,
            x < g.width,
            y < g.height,
        ensures
            final(self).wf(g.area()),
            final(sink).wf(),
            final(sink).kind() == old(sink).kind(),
            (Telling { scan: final(self)@, log: final(sink).log() }) == tell_refinement(
                g,
                c,
                bp,
                (Telling { scan: old(self)@, log: old(sink).log() }),
                x as int,
                y as int,
            ),
    {
        proof {
            lemma_index(x as int, y as int, g.width as int, g.height as int);
            assert(y * g.width >= 0) by (nonlinear_arith);
        }
        let i: usize = y * g.width + x;
        let bit: u8 = get_bit_at(magnitude(c), bp);
        let has_hv: bool = refinement_has_hv(g, self.significant.as_slice(), x, y);
        match magnitude_context(self.cat[i], has_hv) {
            MagnitudeContext::Coded(ctx) => {
                let (num, den) = self.model.probability(ctx);
                sink.put_bit(bit, num, den);
                self.model.observe(ctx, bit);
            },
            MagnitudeContext::Uncoded => {
                let (num, den) = UNCODED_P1;
                sink.put_bit(bit, num, den);
            },
        }
        self.advance(i);
    }

    /// Move a coefficient to its next category.
    fn advance(&mut self, i: usize)
        requires
            i < old(self)@.cat.len(),
        ensures
            final(self)@ == (Scan {
                cat: old(self)@.cat.update(i as int, next_category(old(self)@.cat[i as int])),
                ..old(self)@
            }),
            forall|n: int| old(self).wf(n) ==> final(self).wf(n),
    {
        let cat: u8 = self.cat[i];
        self.cat.set(
            i,
            if cat >= 3 {
                3
            } else {
                cat + 1
            },
        );
    }

    /// Run a pass over `p`.
    pub(crate) fn encode_pass<S: BitSink>(
        &mut self,
        sink: &mut S,
        g: Grid,
        coeffs: &[i32],
        filter: &ScanFilter,
        pass: ScanPass,
        bp: u32,
        p: Patch,
    )
        requires
            old(self).wf(g.area()),
            old(sink).wf(),
            g.ok(),
            coeffs@.len() == g.area(),
            filter@.fits(g.area()),
            bp < 32,
            p.inside(g),
        ensures
            final(self).wf(g.area()),
            final(sink).wf(),
            final(sink).kind() == old(sink).kind(),
            (Telling { scan: final(self)@, log: final(sink).log() }) == told(
                g,
                coeffs@,
                filter@,
                pass,
                bp,
                p,
                (Telling { scan: old(self)@, log: old(sink).log() }),
                p.size(),
            ),
    {
        let ghost start = Telling { scan: self@, log: sink.log() };
        let ghost kind = sink.kind();
        let mut row: usize = 0;
        assert(0 * p.columns as int == 0);
        while row < p.rows
            invariant
                row <= p.rows,
                self.wf(g.area()),
                sink.wf(),
                sink.kind() == kind,
                g.ok(),
                coeffs@.len() == g.area(),
                filter@.fits(g.area()),
                bp < 32,
                p.inside(g),
                (Telling { scan: self@, log: sink.log() }) == told(
                    g,
                    coeffs@,
                    filter@,
                    pass,
                    bp,
                    p,
                    start,
                    row * p.columns,
                ),
            decreases p.rows - row,
        {
            let mut col: usize = 0;
            while col < p.columns
                invariant
                    row < p.rows,
                    col <= p.columns,
                    self.wf(g.area()),
                    sink.wf(),
                    sink.kind() == kind,
                    g.ok(),
                    coeffs@.len() == g.area(),
                    filter@.fits(g.area()),
                    bp < 32,
                    p.inside(g),
                    (Telling { scan: self@, log: sink.log() }) == told(
                        g,
                        coeffs@,
                        filter@,
                        pass,
                        bp,
                        p,
                        start,
                        row * p.columns + col,
                    ),
                decreases p.columns - col,
            {
                proof {
                    lemma_place(g, p, row as int, col as int);
                }
                let x: usize = p.x0 + col * p.step;
                let y: usize = p.y0 + row * p.step;
                proof {
                    lemma_index(x as int, y as int, g.width as int, g.height as int);
                    assert(y * g.width >= 0) by (nonlinear_arith);
                }
                let i: usize = y * g.width + x;
                if filter.visits(i, bp, Ghost(g.area())) {
                    if !self.significant[i] {
                        if pass != ScanPass::Refinement {
                            self.put_significance(sink, g, coeffs[i], bp, x, y);
                        }
                    } else if pass == ScanPass::Significance || (pass == ScanPass::Refinement
                        && magnitude(coeffs[i]) >> bp == 1) {
                    } else {
                        self.put_refinement(sink, g, coeffs[i], bp, x, y);
                    }
                }
                col = col + 1;
            }
            assert((row + 1) * p.columns == row * p.columns + p.columns) by (nonlinear_arith);
            row = row + 1;
        }
        assert(p.rows * p.columns == p.columns * p.rows) by (nonlinear_arith);
    }
}

// ---------------------------------------------------------------------------
// Decoding
// ---------------------------------------------------------------------------

/// The decoding side: what is known, and the questions that were asked.
#[verifier::ext_equal]
pub struct Hearing {
    /// What both sides know.
    pub scan: Scan,
    /// The magnitude bits that have arrived.
    pub mag: Seq<u32>,
    /// The lowest magnitude bit that has arrived.
    pub last: Seq<u8>,
    /// The probabilities that the source was asked with.
    pub asked: Seq<(u32, u32)>,
}

/// A source: its coder and its bytes.
pub struct Channel {
    /// The coder.
    pub kind: EntropyKind,
    /// The bytes.
    pub bytes: Seq<u8>,
}

/// The answer to the next question.
pub open spec fn answer(ch: Channel, s: Hearing, p: (u32, u32)) -> u8 {
    decoded(ch.kind, ch.bytes, s.asked, p.0, p.1)
}

/// `m` with bit `bp` set where `bit` is 1.
pub open spec fn with_bit(m: u32, bp: u32, bit: u8) -> u32 {
    if bit == 1 {
        m | (1u32 << bp)
    } else {
        m
    }
}

/// The significance bit, and the sign where it is due.
pub open spec fn hear_significance(ch: Channel, g: Grid, bp: u32, s: Hearing, x: int, y: int) -> Hearing {
    let i = g.at(x, y);
    let ctx = significance_context_at(g, s.scan.significant, x, y);
    let p = s.scan.model[ctx as int];
    let bit = answer(ch, s, p);
    let s1 = Hearing {
        scan: noticed(s.scan, i, ctx, bit),
        mag: if bit == 1 {
            s.mag.update(i, with_bit(s.mag[i], bp, bit))
        } else {
            s.mag
        },
        last: if bit == 1 {
            s.last.update(i, bp as u8)
        } else {
            s.last
        },
        asked: s.asked.push(p),
    };
    if bit == 1 {
        let (flip, sctx) = sign_choice_at(g, s1.scan.significant, s1.scan.sign, x, y);
        let q = s1.scan.model[sctx as int];
        let coded = answer(ch, s1, q);
        Hearing {
            scan: signed(s1.scan, i, sctx, coded, flip != (coded == 1)),
            asked: s1.asked.push(q),
            ..s1
        }
    } else {
        s1
    }
}

/// The refinement bit.
pub open spec fn hear_refinement(ch: Channel, g: Grid, bp: u32, s: Hearing, x: int, y: int) -> Hearing {
    let i = g.at(x, y);
    let choice = refinement_choice(
        s.scan.cat[i],
        has_axis_neighbour(g, s.scan.significant, x, y),
    );
    let p = refinement_probability(s.scan.model, choice);
    let bit = answer(ch, s, p);
    Hearing {
        scan: refined(s.scan, i, choice, bit),
        mag: s.mag.update(i, with_bit(s.mag[i], bp, bit)),
        last: s.last.update(i, bp as u8),
        asked: s.asked.push(p),
    }
}

/// One visit of the decoder.
pub open spec fn hear(
    ch: Channel,
    g: Grid,
    f: Selection,
    pass: ScanPass,
    bp: u32,
    s: Hearing,
    x: int,
    y: int,
) -> Hearing {
    let i = g.at(x, y);
    if !f.admits(i, bp as int) {
        s
    } else if !s.scan.significant[i] {
        if pass is Refinement {
            s
        } else {
            hear_significance(ch, g, bp, s, x, y)
        }
    } else if pass is Significance || (pass is Refinement && s.mag[i] >> bp == 1) {
        s
    } else {
        hear_refinement(ch, g, bp, s, x, y)
    }
}

/// The decoder after the first `k` places of a pass.
pub open spec fn heard(
    ch: Channel,
    g: Grid,
    f: Selection,
    pass: ScanPass,
    bp: u32,
    p: Patch,
    start: Hearing,
    k: int,
) -> Hearing
    decreases k,
{
    if k <= 0 {
        start
    } else {
        hear(ch, g, f, pass, bp, heard(ch, g, f, pass, bp, p, start, k - 1), p.x(k - 1), p.y(k - 1))
    }
}

/// What the decoder knows once its source is dropped.
pub open spec fn silent(s: Hearing) -> Hearing {
    Hearing { asked: Seq::empty(), ..s }
}

/// The categories that a refinement pass would have left, without its bits.
pub open spec fn category_visit(g: Grid, f: Selection, bp: u32, s: Hearing, x: int, y: int) -> Hearing {
    let i = g.at(x, y);
    if f.admits(i, bp as int) && s.scan.significant[i] && s.mag[i] >> bp != 1 {
        Hearing {
            scan: Scan { cat: s.scan.cat.update(i, next_category(s.scan.cat[i])), ..s.scan },
            ..s
        }
    } else {
        s
    }
}

/// The categories after the first `k` places of a refinement pass whose bits
/// are missing.
pub open spec fn categories_advanced(
    g: Grid,
    f: Selection,
    bp: u32,
    p: Patch,
    start: Hearing,
    k: int,
) -> Hearing
    decreases k,
{
    if k <= 0 {
        start
    } else {
        category_visit(
            g,
            f,
            bp,
            categories_advanced(g, f, bp, p, start, k - 1),
            p.x(k - 1),
            p.y(k - 1),
        )
    }
}

/// The value that stands for a magnitude of which the bits below `b` are not
/// known: the middle of what it can be, one step towards zero.
pub open spec fn deadzone(m: u32, negative: bool, b: u8) -> i32 {
    let v = if m == 0 {
        0
    } else if b == 0 {
        m as int
    } else {
        m + pow2((b - 1) as nat) - 1
    };
    (if negative {
        -v
    } else {
        v
    }) as i32
}

/// The values of all coefficients.
pub open spec fn reconstructed(s: Hearing) -> Seq<i32> {
    Seq::new(
        s.mag.len(),
        |i: int| deadzone(s.mag[i], s.scan.sign[i], s.last[i]),
    )
}

/// Nothing has arrived of `n` coefficients with `q` bit planes.
pub open spec fn fresh_hearing(n: int, q: u8) -> Hearing {
    Hearing {
        scan: fresh_scan(n),
        mag: Seq::new(n as nat, |i: int| 0u32),
        last: Seq::new(n as nat, |i: int| q),
        asked: Seq::empty(),
    }
}

/// What the decoder has gathered.
pub struct Gathered {
    scan: ScanState,
    mag: Vec<u32>,
    last_bit: Vec<u8>,
}

impl Gathered {
    /// There is an entry for each of `n` coefficients.
    pub closed spec fn wf(self, n: int) -> bool {
        &&& self.scan.wf(n)
        &&& self.mag@.len() == n
        &&& self.last_bit@.len() == n
        &&& forall|i: int| 0 <= i < n ==> #[trigger] self.last_bit@[i] <= 31
    }

    /// What has arrived, where the source was asked with `asked`.
    pub closed spec fn hearing(self, asked: Seq<(u32, u32)>) -> Hearing {
        Hearing { scan: self.scan@, mag: self.mag@, last: self.last_bit@, asked }
    }

    /// Nothing has arrived of `n` coefficients with `q` bit planes.
    pub(crate) fn new(n: usize, q: u8) -> (s: Self)
        requires
            q <= 31,
        ensures
            s.wf(n as int),
            s.hearing(Seq::empty()) == fresh_hearing(n as int, q),
    {
        Gathered {
            scan: ScanState::new(n),
            mag: repeated(0u32, n),
            last_bit: repeated(q, n),
        }
    }

    /// Forget what the context model has learnt.
    pub(crate) fn reset_model(&mut self, Ghost(n): Ghost<int>)
        requires
            old(self).wf(n),
        ensures
            final(self).wf(n),
            final(self).hearing(Seq::empty()) == (Hearing {
                scan: with_fresh_model(old(self).hearing(Seq::empty()).scan),
                ..old(self).hearing(Seq::empty())
            }),
    {
        self.scan.reset_model(Ghost(n));
    }

    fn take_significance<S: BitSource>(
        &mut self,
        source: &mut S,
        g: Grid,
        bp: u32,
        x: usize,
        y: usize,
    )
        requires
            old(self).wf(g.area()),
            old(source).wf(),
            g.ok(),
            bp <= 31,
            x < g.width,
            y < g.height,
        ensures
            final(self).wf(g.area()),
            final(source).wf(),
            final(source).kind() == old(source).kind(),
            final(source).channel() == old(source).channel(),
            final(self).hearing(final(source).asked()) == hear_significance(
                (Channel { kind: old(source).kind(), bytes: old(source).channel() }),
                g,
                bp,
                old(self).hearing(old(source).asked()),
                x as int,
                y as int,
            ),
    {
        proof {
            lemma_index(x as int, y as int, g.width as int, g.height as int);
            assert(y * g.width >= 0) by (nonlinear_arith);
        }
        let i: usize = y * g.width + x;
        let ctx: usize = significance_visit(g, self.scan.significant.as_slice(), x, y);
        let (num, den) = self.scan.model.probability(ctx);
        let bit: u8 = ask(source, num, den);
        self.scan.model.observe(ctx, bit);
        if bit == 1 {
            self.scan.significant.set(i, true);
            self.scan.cat.set(i, 1);
            let m: u32 = self.mag[i];
            self.mag.set(i, m | (1u32 << bp));
            self.last_bit.set(i, bp as u8);
            let (flip, sctx) = sign_visit(
                g,
                self.scan.significant.as_slice(),
                self.scan.sign.as_slice(),
                x,
                y,
            );
            let (num, den) = self.scan.model.probability(sctx);
            let coded: u8 = ask(source, num, den);
            self.scan.model.observe(sctx, coded);
            self.scan.sign.set(i, flip != (coded == 1));
        }
    }

    fn take_refinement<S: BitSource>(
        &mut self,
        source: &mut S,
        g: Grid,
        bp: u32,
        x: usize,
        y: usize,
    )
        requires
            old(self).wf(g.area()),
            old(source).wf(),
            g.ok(),
            bp <= 31,
            x < g.width,
            y < g.height,
        ensures
            final(self).wf(g.area()),
            final(source).wf(),
            final(source).kind() == old(source).kind(),
            final(source).channel() == old(source).channel(),
            final(self).hearing(final(source).asked()) == hear_refinement(
                (Channel { kind: old(source).kind(), bytes: old(source).channel() }),
                g,
                bp,
                old(self).hearing(old(source).asked()),
                x as int,
                y as int,
            ),
    {
        proof {
            lemma_index(x as int, y as int, g.width as int, g.height as int);
            assert(y * g.width >= 0) by (nonlinear_arith);
        }
        let i: usize = y * g.width + x;
        let has_hv: bool = refinement_has_hv(g, self.scan.significant.as_slice(), x, y);
        let bit: u8 = match magnitude_context(self.scan.cat[i], has_hv) {
            MagnitudeContext::Coded(ctx) => {
                let (num, den) = self.scan.model.probability(ctx);
                let bit: u8 = ask(source, num, den);
                self.scan.model.observe(ctx, bit);
                bit
            },
            MagnitudeContext::Uncoded => {
                let (num, den) = UNCODED_P1;
                ask(source, num, den)
            },
        };
        let m: u32 = self.mag[i];
        if bit == 1 {
            self.mag.set(i, m | (1u32 << bp));
        }
        self.scan.advance(i);
        self.last_bit.set(i, bp as u8);
        proof {
            if bit != 1 {
                assert(old(self).mag@.update(i as int, m) =~= self.mag@);
            }
        }
    }

    /// Run a pass over `p`.
    pub(crate) fn decode_pass<S: BitSource>(
        &mut self,
        source: &mut S,
        g: Grid,
        filter: &ScanFilter,
        pass: ScanPass,
        bp: u32,
        p: Patch,
    )
        requires
            old(self).wf(g.area()),
            old(source).wf(),
            g.ok(),
            filter@.fits(g.area()),
            bp <= 31,
            p.inside(g),
        ensures
            final(self).wf(g.area()),
            final(source).wf(),
            final(source).kind() == old(source).kind(),
            final(source).channel() == old(source).channel(),
            final(self).hearing(final(source).asked()) == heard(
                (Channel { kind: old(source).kind(), bytes: old(source).channel() }),
                g,
                filter@,
                pass,
                bp,
                p,
                old(self).hearing(old(source).asked()),
                p.size(),
            ),
            final(self).hearing(Seq::empty()) == silent(
                final(self).hearing(final(source).asked()),
            ),
    {
        let ghost start = self.hearing(source.asked());
        let ghost ch = Channel { kind: source.kind(), bytes: source.channel() };
        let mut row: usize = 0;
        assert(0 * p.columns as int == 0);
        while row < p.rows
            invariant
                row <= p.rows,
                self.wf(g.area()),
                source.wf(),
                source.kind() == ch.kind,
                source.channel() == ch.bytes,
                g.ok(),
                filter@.fits(g.area()),
                bp <= 31,
                p.inside(g),
                self.hearing(source.asked()) == heard(
                    ch,
                    g,
                    filter@,
                    pass,
                    bp,
                    p,
                    start,
                    row * p.columns,
                ),
            decreases p.rows - row,
        {
            let mut col: usize = 0;
            while col < p.columns
                invariant
                    row < p.rows,
                    col <= p.columns,
                    self.wf(g.area()),
                    source.wf(),
                    source.kind() == ch.kind,
                    source.channel() == ch.bytes,
                    g.ok(),
                    filter@.fits(g.area()),
                    bp <= 31,
                    p.inside(g),
                    self.hearing(source.asked()) == heard(
                        ch,
                        g,
                        filter@,
                        pass,
                        bp,
                        p,
                        start,
                        row * p.columns + col,
                    ),
                decreases p.columns - col,
            {
                proof {
                    lemma_place(g, p, row as int, col as int);
                }
                let x: usize = p.x0 + col * p.step;
                let y: usize = p.y0 + row * p.step;
                proof {
                    lemma_index(x as int, y as int, g.width as int, g.height as int);
                    assert(y * g.width >= 0) by (nonlinear_arith);
                }
                let i: usize = y * g.width + x;
                if filter.visits(i, bp, Ghost(g.area())) {
                    if !self.scan.significant[i] {
                        if pass != ScanPass::Refinement {
                            self.take_significance(source, g, bp, x, y);
                        }
                    } else if pass == ScanPass::Significance || (pass == ScanPass::Refinement
                        && self.mag[i] >> bp == 1) {
                    } else {
                        self.take_refinement(source, g, bp, x, y);
                    }
                }
                col = col + 1;
            }
            assert((row + 1) * p.columns == row * p.columns + p.columns) by (nonlinear_arith);
            row = row + 1;
        }
        assert(p.rows * p.columns == p.columns * p.rows) by (nonlinear_arith);
    }

    /// Advance the categories as a refinement pass whose bits are missing
    /// would have.
    pub(crate) fn advance_refinement_categories(
        &mut self,
        g: Grid,
        filter: &ScanFilter,
        bp: u32,
        p: Patch,
    )
        requires
            old(self).wf(g.area()),
            g.ok(),
            filter@.fits(g.area()),
            bp <= 31,
            p.inside(g),
        ensures
            final(self).wf(g.area()),
            final(self).hearing(Seq::empty()) == categories_advanced(
                g,
                filter@,
                bp,
                p,
                old(self).hearing(Seq::empty()),
                p.size(),
            ),
    {
        let ghost start = self.hearing(Seq::empty());
        let mut row: usize = 0;
        assert(0 * p.columns as int == 0);
        while row < p.rows
            invariant
                row <= p.rows,
                self.wf(g.area()),
                g.ok(),
                filter@.fits(g.area()),
                bp <= 31,
                p.inside(g),
                self.hearing(Seq::empty()) == categories_advanced(
                    g,
                    filter@,
                    bp,
                    p,
                    start,
                    row * p.columns,
                ),
            decreases p.rows - row,
        {
            let mut col: usize = 0;
            while col < p.columns
                invariant
                    row < p.rows,
                    col <= p.columns,
                    self.wf(g.area()),
                    g.ok(),
                    filter@.fits(g.area()),
                    bp <= 31,
                    p.inside(g),
                    self.hearing(Seq::empty()) == categories_advanced(
                        g,
                        filter@,
                        bp,
                        p,
                        start,
                        row * p.columns + col,
                    ),
                decreases p.columns - col,
            {
                proof {
                    lemma_place(g, p, row as int, col as int);
                }
                let x: usize = p.x0 + col * p.step;
                let y: usize = p.y0 + row * p.step;
                proof {
                    lemma_index(x as int, y as int, g.width as int, g.height as int);
                    assert(y * g.width >= 0) by (nonlinear_arith);
                }
                let i: usize = y * g.width + x;
                if filter.visits(i, bp, Ghost(g.area())) && self.scan.significant[i] && self.mag[i]
                    >> bp != 1 {
                    self.scan.advance(i);
                }
                col = col + 1;
            }
            assert((row + 1) * p.columns == row * p.columns + p.columns) by (nonlinear_arith);
            row = row + 1;
        }
        assert(p.rows * p.columns == p.columns * p.rows) by (nonlinear_arith);
    }

    /// The values of all coefficients: exact where every bit has arrived, and
    /// else the middle of what the coefficient can be.
    pub(crate) fn deadzone_reconstruct(&self, Ghost(n): Ghost<int>) -> (out: Vec<i32>)
        requires
            self.wf(n),
        ensures
            out@ == reconstructed(self.hearing(Seq::empty())),
            out@.len() == n,
    {
        let ghost all = reconstructed(self.hearing(Seq::empty()));
        let mut out: Vec<i32> = Vec::new();
        let mut i: usize = 0;
        assert(all.take(0) =~= Seq::empty());
        while i < self.mag.len()
            invariant
                self.wf(n),
                i <= self.mag@.len(),
                all == reconstructed(self.hearing(Seq::empty())),
                out@ == all.take(i as int),
            decreases self.mag@.len() - i,
        {
            let m: u32 = self.mag[i];
            let b: u8 = self.last_bit[i];
            assert(self.last_bit@[i as int] <= 31);
            let v: i64 = if m == 0 {
                0
            } else if b == 0 {
                m as i64
            } else {
                m as i64 + two_to(b - 1) as i64 - 1
            };
            let c: i32 = (if self.scan.sign[i] {
                -v
            } else {
                v
            }) as i32;
            proof {
                assert(all[i as int] == c);
                assert(all.take(i + 1) =~= all.take(i as int).push(c));
            }
            out.push(c);
            i = i + 1;
        }
        assert(all.take(all.len() as int) =~= all);
        out
    }

    /// The values of all coefficients, without regard to the bits that are
    /// missing.
    pub(crate) fn plain_values(&self, Ghost(n): Ghost<int>) -> (out: Vec<i32>)
        requires
            self.wf(n),
        ensures
            out@ == plain(self.hearing(Seq::empty())),
    {
        let ghost all = plain(self.hearing(Seq::empty()));
        let mut out: Vec<i32> = Vec::new();
        let mut i: usize = 0;
        assert(all.take(0) =~= Seq::empty());
        while i < self.mag.len()
            invariant
                self.wf(n),
                i <= self.mag@.len(),
                all == plain(self.hearing(Seq::empty())),
                out@ == all.take(i as int),
            decreases self.mag@.len() - i,
        {
            let v: i64 = self.mag[i] as i64;
            let c: i32 = (if self.scan.sign[i] {
                -v
            } else {
                v
            }) as i32;
            proof {
                assert(all[i as int] == c);
                assert(all.take(i + 1) =~= all.take(i as int).push(c));
            }
            out.push(c);
            i = i + 1;
        }
        assert(all.take(all.len() as int) =~= all);
        out
    }
}

/// The values of all coefficients, without regard to the bits that are
/// missing.
pub open spec fn plain(s: Hearing) -> Seq<i32> {
    Seq::new(s.mag.len(), |i: int| deadzone(s.mag[i], s.scan.sign[i], 0))
}

pub(crate) fn ask<S: BitSource>(source: &mut S, num: u32, den: u32) -> (bit: u8)
    requires
        old(source).wf(),
    ensures
        final(source).wf(),
        final(source).kind() == old(source).kind(),
        final(source).channel() == old(source).channel(),
        final(source).asked() == old(source).asked().push((num, den)),
        bit <= 1,
        bit == decoded(old(source).kind(), old(source).channel(), old(source).asked(), num, den),
{
    match source.get_bit(num, den) {
        Ok(bit) => bit,
        Err(_) => 0,
    }
}

} // verus!
