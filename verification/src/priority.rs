//! Subbands of a dyadic decomposition: where their coefficients lie, how much
//! they matter, and the order in which their bit planes are coded.
//!
//! A decomposition with `D` stages has `3 * D + 1` subbands. Level 1 is the
//! first stage, level `D` the deepest; only the deepest level has an LL
//! subband. A bit plane of a subband has the priority
//! `weight - (planes above it)`, on a base-2 logarithmic scale.

use vstd::arithmetic::power2::{lemma_pow2_pos, lemma_pow2_strictly_increases, lemma_pow2_unfold, pow2};
use vstd::prelude::*;

verus! {

/// Type of a subband: horizontal filtering first, then vertical.
#[derive(Debug, Clone, Copy, PartialEq, Eq, Structural, PartialOrd, Ord, Hash)]
pub enum SubbandType {
    /// Low-pass in both directions.
    Ll,
    /// High-pass horizontally.
    Hl,
    /// High-pass vertically.
    Lh,
    /// High-pass in both directions.
    Hh,
}

impl SubbandType {
    /// Rank among subbands of the same level and priority.
    pub open spec fn rank(self) -> int {
        match self {
            SubbandType::Ll => 0,
            SubbandType::Hl => 1,
            SubbandType::Lh => 2,
            SubbandType::Hh => 3,
        }
    }

    /// Rank among subbands of the same level and priority.
    pub fn order_rank(self) -> (r: u8)
        ensures
            r == self.rank(),
    {
        match self {
            SubbandType::Ll => 0,
            SubbandType::Hl => 1,
            SubbandType::Lh => 2,
            SubbandType::Hh => 3,
        }
    }
}

/// A subband: its type and its level.
#[derive(Debug, Clone, Copy, PartialEq, Eq, Structural)]
pub struct Subband {
    /// Type.
    pub kind: SubbandType,
    /// Level, 1 for the first stage.
    pub level: u8,
}

impl Subband {
    /// Base-2 logarithm of the subband's priority weight.
    pub open spec fn weight(self, levels: u8) -> int {
        match self.kind {
            SubbandType::Ll => levels as int,
            SubbandType::Hl | SubbandType::Lh => self.level - 1,
            SubbandType::Hh => self.level - 2,
        }
    }

    /// Base-2 logarithm of the subband's priority weight.
    pub fn weight_log2(self, decomposition_levels: u8) -> (w: i32)
        ensures
            w == self.weight(decomposition_levels),
    {
        let j: i32 = self.level as i32;
        match self.kind {
            SubbandType::Ll => decomposition_levels as i32,
            SubbandType::Hl | SubbandType::Lh => j - 1,
            SubbandType::Hh => j - 2,
        }
    }
}

/// Decomposition levels forced into the range 1 to 6.
pub open spec fn clamped_levels(levels: u8) -> u8 {
    if levels < 1 {
        1
    } else if levels > 6 {
        6
    } else {
        levels
    }
}

/// Decomposition levels forced into the range 1 to 6.
pub fn clamp_levels(levels: u8) -> (d: u8)
    ensures
        d == clamped_levels(levels),
        1 <= d <= 6,
{
    if levels < 1 {
        1
    } else if levels > 6 {
        6
    } else {
        levels
    }
}

/// The detail subbands of levels 1 to `level`.
pub open spec fn detail_subbands(level: int) -> Seq<Subband>
    decreases level,
{
    if level <= 0 {
        Seq::empty()
    } else {
        detail_subbands(level - 1) + seq![
            Subband { kind: SubbandType::Hl, level: level as u8 },
            Subband { kind: SubbandType::Lh, level: level as u8 },
            Subband { kind: SubbandType::Hh, level: level as u8 },
        ]
    }
}

/// The subbands of a decomposition: the LL subband first, then the detail
/// subbands by level.
pub open spec fn subband_list(levels: u8) -> Seq<Subband> {
    let d = clamped_levels(levels);
    seq![Subband { kind: SubbandType::Ll, level: d }] + detail_subbands(d as int)
}

/// A subband that a decomposition with `d` levels has.
pub open spec fn is_subband(s: Subband, d: int) -> bool {
    &&& 1 <= s.level <= d
    &&& s.kind is Ll ==> s.level == d
}

/// A subband of a decomposition with `d` levels; without any level all
/// coefficients belong to one subband.
pub open spec fn is_band(s: Subband, d: int) -> bool {
    is_subband(s, d) || d == 0 && s == (Subband { kind: SubbandType::Ll, level: 0 })
}

proof fn lemma_detail_subbands(level: int)
    requires
        0 <= level <= 255,
    ensures
        detail_subbands(level).len() == 3 * level,
        forall|i: int|
            0 <= i < detail_subbands(level).len() ==> is_subband(
                #[trigger] detail_subbands(level)[i],
                level,
            ) && !(detail_subbands(level)[i].kind is Ll),
    decreases level,
{
    if level > 0 {
        lemma_detail_subbands(level - 1);
        let before = detail_subbands(level - 1);
        assert forall|i: int| 0 <= i < detail_subbands(level).len() implies is_subband(
            #[trigger] detail_subbands(level)[i],
            level,
        ) && !(detail_subbands(level)[i].kind is Ll) by {
            if i < before.len() {
                assert(detail_subbands(level)[i] == before[i]);
            }
        }
    }
}

/// The subbands of a decomposition.
pub fn subbands(decomposition_levels: u8) -> (out: Vec<Subband>)
    ensures
        out@ == subband_list(decomposition_levels),
        out@.len() == 3 * clamped_levels(decomposition_levels) + 1,
{
    let d: u8 = clamp_levels(decomposition_levels);
    let mut out: Vec<Subband> = Vec::new();
    out.push(Subband { kind: SubbandType::Ll, level: d });
    let ghost first = seq![Subband { kind: SubbandType::Ll, level: d }];
    assert(out@ =~= first + detail_subbands(0));
    let mut level: u8 = 0;
    while level < d
        invariant
            level <= d <= 6,
            out@ == first + detail_subbands(level as int),
        decreases d - level,
    {
        level = level + 1;
        out.push(Subband { kind: SubbandType::Hl, level });
        out.push(Subband { kind: SubbandType::Lh, level });
        out.push(Subband { kind: SubbandType::Hh, level });
        assert(out@ =~= first + detail_subbands(level as int));
    }
    proof {
        lemma_detail_subbands(d as int);
    }
    out
}

// ---------------------------------------------------------------------------
// Coding order
// ---------------------------------------------------------------------------

/// A bit plane of a subband.
#[derive(Debug, Clone, Copy, PartialEq, Eq, Structural)]
pub struct SubbandBitPlane {
    /// Subband.
    pub subband: Subband,
    /// Number of bit planes above it.
    pub bp_from_msb: u32,
    /// Priority: the subband's weight less `bp_from_msb`.
    pub priority_log2: i32,
}

/// A bit plane that a decomposition with `q` bit planes has.
pub open spec fn is_unit(u: SubbandBitPlane, levels: u8, q: int) -> bool {
    &&& is_subband(u.subband, clamped_levels(levels) as int)
    &&& u.bp_from_msb < q
    &&& u.priority_log2 == u.subband.weight(clamped_levels(levels)) - u.bp_from_msb
}

/// `a` is coded before `b`: higher priority first, then higher level, then
/// by type.
pub open spec fn coded_before(a: SubbandBitPlane, b: SubbandBitPlane) -> bool {
    ||| a.priority_log2 > b.priority_log2
    ||| a.priority_log2 == b.priority_log2 && a.subband.level > b.subband.level
    ||| a.priority_log2 == b.priority_log2 && a.subband.level == b.subband.level
        && a.subband.kind.rank() < b.subband.kind.rank()
}

/// The bit plane of a subband that has priority `p`, if it has one.
pub open spec fn unit_with_priority(
    kind: SubbandType,
    level: int,
    levels: u8,
    q: int,
    p: int,
) -> Seq<SubbandBitPlane> {
    let s = Subband { kind, level: level as u8 };
    let bp = s.weight(clamped_levels(levels)) - p;
    if 0 <= bp < q {
        seq![SubbandBitPlane { subband: s, bp_from_msb: bp as u32, priority_log2: p as i32 }]
    } else {
        Seq::empty()
    }
}

/// The bit planes of level `level` with priority `p`, in coding order.
pub open spec fn level_units(level: int, levels: u8, q: int, p: int) -> Seq<SubbandBitPlane> {
    (if level == clamped_levels(levels) {
        unit_with_priority(SubbandType::Ll, level, levels, q, p)
    } else {
        Seq::empty()
    }) + unit_with_priority(SubbandType::Hl, level, levels, q, p) + unit_with_priority(
        SubbandType::Lh,
        level,
        levels,
        q,
        p,
    ) + unit_with_priority(SubbandType::Hh, level, levels, q, p)
}

/// The bit planes of levels 1 to `level` with priority `p`, in coding order.
pub open spec fn group_units(level: int, levels: u8, q: int, p: int) -> Seq<SubbandBitPlane>
    decreases level,
{
    if level <= 0 {
        Seq::empty()
    } else {
        level_units(level, levels, q, p) + group_units(level - 1, levels, q, p)
    }
}

/// All bit planes with priority `p`, in coding order.
pub open spec fn priority_units(levels: u8, q: int, p: int) -> Seq<SubbandBitPlane> {
    group_units(clamped_levels(levels) as int, levels, q, p)
}

/// All bit planes with priorities from `p` down to `-q`, in coding order.
pub open spec fn order_from(levels: u8, q: int, p: int) -> Seq<SubbandBitPlane>
    decreases p + q + 1,
{
    if p < -q {
        Seq::empty()
    } else {
        priority_units(levels, q, p) + order_from(levels, q, p - 1)
    }
}

/// The highest priority that a bit plane can have: that of the most
/// significant one of the LL subband.
pub open spec fn top_priority(levels: u8) -> int {
    clamped_levels(levels) as int
}

/// All bit planes of a decomposition, in coding order.
pub open spec fn coding_order(levels: u8, q: int) -> Seq<SubbandBitPlane> {
    order_from(levels, q, top_priority(levels))
}

/// A group: a priority and all bit planes that have it.
pub struct Group {
    /// Priority.
    pub priority: int,
    /// Bit planes, in coding order.
    pub units: Seq<SubbandBitPlane>,
}

/// The groups with priorities from `p` down to `-q`, without those that have
/// no bit plane.
pub open spec fn groups_from(levels: u8, q: int, p: int) -> Seq<Group>
    decreases p + q + 1,
{
    if p < -q {
        Seq::empty()
    } else {
        let units = priority_units(levels, q, p);
        (if units.len() > 0 {
            seq![Group { priority: p, units }]
        } else {
            Seq::empty()
        }) + groups_from(levels, q, p - 1)
    }
}

/// All groups of a decomposition, highest priority first.
pub open spec fn group_list(levels: u8, q: int) -> Seq<Group> {
    groups_from(levels, q, top_priority(levels))
}

/// All bit planes with the same priority.
#[derive(Debug, Clone)]
pub struct PriorityGroup {
    /// Priority.
    pub priority_log2: i32,
    /// Bit planes, in coding order.
    pub units: Vec<SubbandBitPlane>,
}

impl View for PriorityGroup {
    type V = Group;

    open spec fn view(&self) -> Group {
        Group { priority: self.priority_log2 as int, units: self.units@ }
    }
}

/// The groups that a vector holds.
pub open spec fn group_views(v: Seq<PriorityGroup>) -> Seq<Group> {
    Seq::new(v.len(), |i: int| v[i]@)
}

/// Largest number of bit planes that the schedule is built for.
pub const MAX_BIT_PLANES: u32 = 0x7FFF_0000;

fn push_unit(
    out: &mut Vec<SubbandBitPlane>,
    kind: SubbandType,
    level: u8,
    levels: u8,
    q: u32,
    p: i32,
)
    requires
        -(q as int) <= p <= 255,
        q <= MAX_BIT_PLANES,
    ensures
        final(out)@ == old(out)@ + unit_with_priority(kind, level as int, levels, q as int, p as int),
{
    let subband = Subband { kind, level };
    let bp: i32 = subband.weight_log2(clamp_levels(levels)) - p;
    if 0 <= bp && bp < q as i32 {
        out.push(SubbandBitPlane { subband, bp_from_msb: bp as u32, priority_log2: p });
        assert(out@ =~= old(out)@ + unit_with_priority(
            kind,
            level as int,
            levels,
            q as int,
            p as int,
        ));
    } else {
        assert(out@ =~= old(out)@ + unit_with_priority(
            kind,
            level as int,
            levels,
            q as int,
            p as int,
        ));
    }
}

fn units_with_priority(levels: u8, q: u32, p: i32) -> (out: Vec<SubbandBitPlane>)
    requires
        -(q as int) <= p <= 255,
        q <= MAX_BIT_PLANES,
    ensures
        out@ == priority_units(levels, q as int, p as int),
{
    let d: u8 = clamp_levels(levels);
    let mut out: Vec<SubbandBitPlane> = Vec::new();
    let mut level: u8 = d;
    let ghost all = priority_units(levels, q as int, p as int);
    assert(out@ + all =~= all);
    while level > 0
        invariant
            level <= d <= 6,
            d == clamped_levels(levels),
            -(q as int) <= p <= 255,
            q <= MAX_BIT_PLANES,
            all == priority_units(levels, q as int, p as int),
            out@ + group_units(level as int, levels, q as int, p as int) == all,
        decreases level,
    {
        let ghost before = out@;
        if level == d {
            push_unit(&mut out, SubbandType::Ll, level, levels, q, p);
        }
        push_unit(&mut out, SubbandType::Hl, level, levels, q, p);
        push_unit(&mut out, SubbandType::Lh, level, levels, q, p);
        push_unit(&mut out, SubbandType::Hh, level, levels, q, p);
        assert(out@ =~= before + level_units(level as int, levels, q as int, p as int));
        assert(out@ + group_units(level - 1, levels, q as int, p as int) =~= before + group_units(
            level as int,
            levels,
            q as int,
            p as int,
        ));
        level = level - 1;
    }
    assert(out@ + Seq::<SubbandBitPlane>::empty() =~= out@);
    out
}

/// All bit planes of a decomposition where each subband has `bit_planes` of
/// them, in coding order.
pub fn encode_order(decomposition_levels: u8, bit_planes: u32) -> (out: Vec<SubbandBitPlane>)
    requires
        bit_planes <= MAX_BIT_PLANES,
    ensures
        out@ == coding_order(decomposition_levels, bit_planes as int),
{
    let mut out: Vec<SubbandBitPlane> = Vec::new();
    let q: i32 = bit_planes as i32;
    let mut p: i32 = clamp_levels(decomposition_levels) as i32;
    let ghost all = coding_order(decomposition_levels, bit_planes as int);
    assert(out@ + all =~= all);
    while p >= -q
        invariant
            -q - 1 <= p <= 255,
            q == bit_planes,
            bit_planes <= MAX_BIT_PLANES,
            out@ + order_from(decomposition_levels, bit_planes as int, p as int) == all,
        decreases p + q + 1,
    {
        let mut units = units_with_priority(decomposition_levels, bit_planes, p);
        let ghost before = out@;
        let ghost u = units@;
        out.append(&mut units);
        assert(out@ =~= before + u);
        assert(out@ + order_from(decomposition_levels, bit_planes as int, p - 1) =~= before
            + order_from(decomposition_levels, bit_planes as int, p as int));
        p = p - 1;
    }
    assert(out@ + Seq::<SubbandBitPlane>::empty() =~= out@);
    out
}

/// The groups of a decomposition, highest priority first.
pub fn priority_groups(decomposition_levels: u8, bit_planes: u32) -> (out: Vec<PriorityGroup>)
    requires
        bit_planes <= MAX_BIT_PLANES,
    ensures
        group_views(out@) == group_list(decomposition_levels, bit_planes as int),
{
    let mut out: Vec<PriorityGroup> = Vec::new();
    let q: i32 = bit_planes as i32;
    let mut p: i32 = clamp_levels(decomposition_levels) as i32;
    let ghost all = group_list(decomposition_levels, bit_planes as int);
    assert(group_views(out@) + all =~= all);
    while p >= -q
        invariant
            -q - 1 <= p <= 255,
            q == bit_planes,
            bit_planes <= MAX_BIT_PLANES,
            group_views(out@) + groups_from(decomposition_levels, bit_planes as int, p as int)
                == all,
        decreases p + q + 1,
    {
        let units = units_with_priority(decomposition_levels, bit_planes, p);
        let ghost before = group_views(out@);
        let ghost rest = groups_from(decomposition_levels, bit_planes as int, p - 1);
        if units.len() > 0 {
            let ghost g = Group { priority: p as int, units: units@ };
            out.push(PriorityGroup { priority_log2: p, units });
            assert(group_views(out@) =~= before.push(g));
            assert(before.push(g) + rest =~= before + (seq![g] + rest));
        } else {
            assert(Seq::<Group>::empty() + rest =~= rest);
        }
        p = p - 1;
    }
    assert(group_views(out@) + Seq::<Group>::empty() =~= group_views(out@));
    out
}

/// The bit planes of the groups one after the other.
pub open spec fn flattened(groups: Seq<Group>) -> Seq<SubbandBitPlane>
    decreases groups.len(),
{
    if groups.len() == 0 {
        Seq::empty()
    } else {
        groups[0].units + flattened(groups.drop_first())
    }
}

proof fn lemma_groups_flatten_from(levels: u8, q: int, p: int)
    ensures
        flattened(groups_from(levels, q, p)) == order_from(levels, q, p),
    decreases p + q + 1,
{
    if p >= -q {
        lemma_groups_flatten_from(levels, q, p - 1);
        let units = priority_units(levels, q, p);
        let rest = groups_from(levels, q, p - 1);
        if units.len() > 0 {
            let all = seq![Group { priority: p, units }] + rest;
            assert(all.drop_first() =~= rest);
        } else {
            assert(Seq::<Group>::empty() + rest =~= rest);
            assert(units + order_from(levels, q, p - 1) =~= order_from(levels, q, p - 1));
        }
    }
}

/// **The groups partition the coding order**: one after the other they give
/// it back.
pub proof fn groups_flatten_to_order(levels: u8, q: int)
    ensures
        flattened(group_list(levels, q)) == coding_order(levels, q),
{
    lemma_groups_flatten_from(levels, q, top_priority(levels));
}

proof fn lemma_level_units(level: int, levels: u8, q: int, p: int)
    requires
        1 <= level <= clamped_levels(levels),
        0 <= q <= MAX_BIT_PLANES,
        -q <= p <= 255,
    ensures
        forall|i: int|
            0 <= i < level_units(level, levels, q, p).len() ==> is_unit(
                #[trigger] level_units(level, levels, q, p)[i],
                levels,
                q,
            ) && level_units(level, levels, q, p)[i].priority_log2 == p && level_units(
                level,
                levels,
                q,
                p,
            )[i].subband.level == level,
        forall|i: int, j: int|
            0 <= i < j < level_units(level, levels, q, p).len() ==> coded_before(
                #[trigger] level_units(level, levels, q, p)[i],
                #[trigger] level_units(level, levels, q, p)[j],
            ),
{
}

pub proof fn lemma_group_units(level: int, levels: u8, q: int, p: int)
    requires
        0 <= level <= clamped_levels(levels),
        0 <= q <= MAX_BIT_PLANES,
        -q <= p <= 255,
    ensures
        forall|i: int|
            0 <= i < group_units(level, levels, q, p).len() ==> is_unit(
                #[trigger] group_units(level, levels, q, p)[i],
                levels,
                q,
            ) && group_units(level, levels, q, p)[i].priority_log2 == p && group_units(
                level,
                levels,
                q,
                p,
            )[i].subband.level <= level,
        forall|i: int, j: int|
            0 <= i < j < group_units(level, levels, q, p).len() ==> coded_before(
                #[trigger] group_units(level, levels, q, p)[i],
                #[trigger] group_units(level, levels, q, p)[j],
            ),
    decreases level,
{
    if level > 0 {
        lemma_group_units(level - 1, levels, q, p);
        lemma_level_units(level, levels, q, p);
        let a = level_units(level, levels, q, p);
        let b = group_units(level - 1, levels, q, p);
        let s = group_units(level, levels, q, p);
        assert(s == a + b);
        assert forall|i: int| 0 <= i < s.len() implies is_unit(#[trigger] s[i], levels, q)
            && s[i].priority_log2 == p && s[i].subband.level <= level by {
            if i < a.len() {
                assert(s[i] == a[i]);
            } else {
                assert(s[i] == b[i - a.len()]);
            }
        }
        assert forall|i: int, j: int| 0 <= i < j < s.len() implies coded_before(
            #[trigger] s[i],
            #[trigger] s[j],
        ) by {
            if j < a.len() {
                assert(s[i] == a[i] && s[j] == a[j]);
            } else if i >= a.len() {
                assert(s[i] == b[i - a.len()] && s[j] == b[j - a.len()]);
            } else {
                assert(s[i] == a[i] && s[j] == b[j - a.len()]);
            }
        }
    }
}

proof fn lemma_order_from(levels: u8, q: int, p: int)
    requires
        0 <= q <= MAX_BIT_PLANES,
        -q - 1 <= p <= 255,
    ensures
        forall|i: int|
            0 <= i < order_from(levels, q, p).len() ==> is_unit(
                #[trigger] order_from(levels, q, p)[i],
                levels,
                q,
            ) && order_from(levels, q, p)[i].priority_log2 <= p,
        forall|i: int, j: int|
            0 <= i < j < order_from(levels, q, p).len() ==> coded_before(
                #[trigger] order_from(levels, q, p)[i],
                #[trigger] order_from(levels, q, p)[j],
            ),
    decreases p + q + 1,
{
    if p >= -q {
        lemma_order_from(levels, q, p - 1);
        lemma_group_units(clamped_levels(levels) as int, levels, q, p);
        let a = priority_units(levels, q, p);
        let b = order_from(levels, q, p - 1);
        let s = order_from(levels, q, p);
        assert(s == a + b);
        assert forall|i: int| 0 <= i < s.len() implies is_unit(#[trigger] s[i], levels, q)
            && s[i].priority_log2 <= p by {
            if i < a.len() {
                assert(s[i] == a[i]);
            } else {
                assert(s[i] == b[i - a.len()]);
            }
        }
        assert forall|i: int, j: int| 0 <= i < j < s.len() implies coded_before(
            #[trigger] s[i],
            #[trigger] s[j],
        ) by {
            if j < a.len() {
                assert(s[i] == a[i] && s[j] == a[j]);
            } else if i >= a.len() {
                assert(s[i] == b[i - a.len()] && s[j] == b[j - a.len()]);
            } else {
                assert(s[i] == a[i] && s[j] == b[j - a.len()]);
            }
        }
    }
}

pub proof fn lemma_unit_in_group(u: SubbandBitPlane, level: int, levels: u8, q: int)
    requires
        is_unit(u, levels, q),
        u.subband.level <= level <= clamped_levels(levels),
    ensures
        group_units(level, levels, q, u.priority_log2 as int).contains(u),
    decreases level,
{
    let p = u.priority_log2 as int;
    let s = group_units(level, levels, q, p);
    let a = level_units(level, levels, q, p);
    let b = group_units(level - 1, levels, q, p);
    if u.subband.level == level {
        let one = unit_with_priority(u.subband.kind, level, levels, q, p);
        assert(one[0] == u);
        let ll = if level == clamped_levels(levels) {
            unit_with_priority(SubbandType::Ll, level, levels, q, p)
        } else {
            Seq::empty()
        };
        let hl = unit_with_priority(SubbandType::Hl, level, levels, q, p);
        let lh = unit_with_priority(SubbandType::Lh, level, levels, q, p);
        let k: int = match u.subband.kind {
            SubbandType::Ll => 0,
            SubbandType::Hl => ll.len() as int,
            SubbandType::Lh => (ll.len() + hl.len()) as int,
            SubbandType::Hh => (ll.len() + hl.len() + lh.len()) as int,
        };
        assert(a[k] == u);
        assert(s[k] == u);
    } else {
        lemma_unit_in_group(u, level - 1, levels, q);
        let k = choose|k: int| 0 <= k < b.len() && b[k] == u;
        assert(s[a.len() + k] == u);
    }
}

proof fn lemma_unit_in_order(u: SubbandBitPlane, levels: u8, q: int, p: int)
    requires
        is_unit(u, levels, q),
        u.priority_log2 <= p,
        -q <= u.priority_log2,
    ensures
        order_from(levels, q, p).contains(u),
    decreases p + q + 1,
{
    let s = order_from(levels, q, p);
    let a = priority_units(levels, q, p);
    let b = order_from(levels, q, p - 1);
    if u.priority_log2 == p {
        lemma_unit_in_group(u, clamped_levels(levels) as int, levels, q);
        let k = choose|k: int| 0 <= k < a.len() && a[k] == u;
        assert(s[k] == u);
    } else {
        lemma_unit_in_order(u, levels, q, p - 1);
        let k = choose|k: int| 0 <= k < b.len() && b[k] == u;
        assert(s[a.len() + k] == u);
    }
}

/// **The coding order lists every bit plane once, most urgent first**: it
/// holds exactly the bit planes of the decomposition, each before those that
/// are coded after it.
pub proof fn coding_order_is_complete_and_sorted(levels: u8, q: int)
    requires
        0 <= q <= MAX_BIT_PLANES,
    ensures
        forall|u: SubbandBitPlane|
            #[trigger] coding_order(levels, q).contains(u) <==> is_unit(u, levels, q),
        forall|i: int, j: int|
            0 <= i < j < coding_order(levels, q).len() ==> coded_before(
                #[trigger] coding_order(levels, q)[i],
                #[trigger] coding_order(levels, q)[j],
            ),
{
    lemma_order_from(levels, q, top_priority(levels));
    assert forall|u: SubbandBitPlane| is_unit(u, levels, q) implies #[trigger] coding_order(
        levels,
        q,
    ).contains(u) by {
        lemma_unit_in_order(u, levels, q, top_priority(levels));
    }
}

// ---------------------------------------------------------------------------
// Geometry
// ---------------------------------------------------------------------------

/// Type and level of the coefficient at `(x, y)`, looking from `level` on:
/// an odd coordinate names a detail subband, and two even ones belong to the
/// next level.
pub open spec fn classified(x: int, y: int, level: int, levels: int) -> (SubbandType, int)
    decreases levels + 1 - level,
{
    if level > levels {
        (SubbandType::Ll, levels)
    } else if x % 2 == 0 && y % 2 == 0 {
        classified(x / 2, y / 2, level + 1, levels)
    } else if y % 2 == 0 {
        (SubbandType::Hl, level)
    } else if x % 2 == 0 {
        (SubbandType::Lh, level)
    } else {
        (SubbandType::Hh, level)
    }
}

/// Type and level of the coefficient at `(x, y)`.
pub fn classify_position(x: usize, y: usize, levels: u8) -> (r: (SubbandType, u8))
    ensures
        r.0 == classified(x as int, y as int, 1, levels as int).0,
        r.1 == classified(x as int, y as int, 1, levels as int).1,
        levels >= 1 ==> is_subband(Subband { kind: r.0, level: r.1 }, levels as int),
{
    let mut cx: usize = x;
    let mut cy: usize = y;
    let mut level: u8 = 0;
    while level < levels
        invariant
            level <= levels,
            classified(x as int, y as int, 1, levels as int) == classified(
                cx as int,
                cy as int,
                level + 1,
                levels as int,
            ),
        decreases levels - level,
    {
        level = level + 1;
        if cx % 2 == 0 && cy % 2 == 0 {
            cx = cx / 2;
            cy = cy / 2;
        } else if cy % 2 == 0 {
            return (SubbandType::Hl, level);
        } else if cx % 2 == 0 {
            return (SubbandType::Lh, level);
        } else {
            return (SubbandType::Hh, level);
        }
    }
    (SubbandType::Ll, levels)
}

/// `2^k` can be counted.
pub open spec fn can_step(k: int) -> bool {
    k <= 31 || pow2(k as nat) <= usize::MAX
}

/// What holds of a step holds of all shorter ones.
pub proof fn lemma_can_step(j: int, k: int)
    requires
        0 <= j <= k,
        can_step(k),
    ensures
        can_step(j),
        pow2(j as nat) <= usize::MAX,
        j <= 31 ==> pow2(j as nat) <= 0x8000_0000,
{
    vstd::arithmetic::power2::lemma2_to64();
    if j < 31 {
        lemma_pow2_strictly_increases(j as nat, 31);
    }
    if 31 < j < k {
        lemma_pow2_strictly_increases(j as nat, k as nat);
    }
}

/// `2^k`.
pub fn two_to(k: u8) -> (p: usize)
    requires
        can_step(k as int),
    ensures
        p == pow2(k as nat),
        1 <= p,
        k <= 31 ==> p <= 0x8000_0000,
{
    let mut p: usize = 1;
    let mut i: u8 = 0;
    proof {
        vstd::arithmetic::power2::lemma2_to64();
    }
    while i < k
        invariant
            i <= k,
            can_step(k as int),
            p == pow2(i as nat),
        decreases k - i,
    {
        proof {
            lemma_pow2_unfold((i + 1) as nat);
            lemma_can_step(i + 1, k as int);
        }
        p = p * 2;
        i = i + 1;
    }
    proof {
        lemma_pow2_pos(k as nat);
        lemma_can_step(k as int, k as int);
    }
    p
}

/// Distance between neighbours of the subband that the coefficient at
/// `(x, y)` belongs to in a decomposition with `levels` levels, forced into
/// the range 1 to 6; 1 where `levels` is 0 and subbands are not told apart.
pub open spec fn stride_at(x: int, y: int, levels: u8) -> int {
    if levels == 0 {
        1
    } else {
        pow2(classified(x, y, 1, clamped_levels(levels) as int).1 as nat) as int
    }
}

/// Distance between neighbours of the subband that the coefficient at
/// `(x, y)` belongs to in a decomposition with `levels` levels, forced into
/// the range 1 to 6; 1 where `levels` is 0 and subbands are not told apart.
pub fn subband_stride(x: usize, y: usize, levels: u8) -> (s: usize)
    ensures
        s == stride_at(x as int, y as int, levels),
        1 <= s <= 64,
{
    if levels == 0 {
        return 1;
    }
    let (_, level) = classify_position(x, y, clamp_levels(levels));
    proof {
        vstd::arithmetic::power2::lemma2_to64();
        if level < 6 {
            lemma_pow2_strictly_increases(level as nat, 6);
        }
    }
    two_to(level)
}

/// The positions of a subband: every `step`-th column from `x0` and every
/// `step`-th row from `y0`.
#[derive(Debug, Clone, Copy, PartialEq, Eq, Structural)]
pub struct SubbandLattice {
    /// First column.
    pub x0: usize,
    /// First row.
    pub y0: usize,
    /// Distance of columns and of rows.
    pub step: usize,
}

/// First column of a subband.
pub open spec fn first_column(s: Subband) -> int {
    if s.kind is Hl || s.kind is Hh {
        pow2((s.level - 1) as nat) as int
    } else {
        0
    }
}

/// First row of a subband.
pub open spec fn first_row(s: Subband) -> int {
    if s.kind is Lh || s.kind is Hh {
        pow2((s.level - 1) as nat) as int
    } else {
        0
    }
}

/// The position `(x, y)` belongs to the lattice of `s`.
pub open spec fn on_lattice(s: Subband, x: int, y: int) -> bool {
    let step = pow2(s.level as nat) as int;
    x % step == first_column(s) && y % step == first_row(s)
}

/// A subband starts within its first step.
pub proof fn lemma_first_place(s: Subband)
    requires
        s.level >= 1 || s.kind is Ll,
    ensures
        0 <= first_column(s) < pow2(s.level as nat),
        0 <= first_row(s) < pow2(s.level as nat),
{
    lemma_pow2_pos(s.level as nat);
    if s.level >= 1 {
        lemma_pow2_unfold(s.level as nat);
        lemma_pow2_pos((s.level - 1) as nat);
    }
}

/// The positions of a subband.
pub fn subband_lattice(subband: Subband) -> (l: SubbandLattice)
    requires
        can_step(subband.level as int),
        subband.level >= 1 || subband.kind is Ll,
    ensures
        l.x0 == first_column(subband),
        l.y0 == first_row(subband),
        l.step == pow2(subband.level as nat),
        l.x0 < l.step && l.y0 < l.step,
        1 <= l.step,
        subband.level <= 31 ==> l.step <= 0x8000_0000,
{
    proof {
        if subband.level >= 1 {
            lemma_can_step(subband.level - 1, subband.level as int);
        }
    }
    let step: usize = two_to(subband.level);
    let half: usize = if subband.level >= 1 {
        two_to((subband.level - 1) as u8)
    } else {
        0
    };
    proof {
        if subband.level >= 1 {
            lemma_pow2_unfold(subband.level as nat);
        }
    }
    let (x0, y0): (usize, usize) = match subband.kind {
        SubbandType::Ll => (0, 0),
        SubbandType::Hl => (half, 0),
        SubbandType::Lh => (0, half),
        SubbandType::Hh => (half, half),
    };
    SubbandLattice { x0, y0, step }
}

proof fn lemma_halving(x: int, level: nat, phase_high: bool)
    requires
        x >= 0,
        level >= 1,
    ensures
        ({
            let p = if phase_high {
                pow2(level) as int
            } else {
                0
            };
            let p1 = if phase_high {
                pow2((level - 1) as nat) as int
            } else {
                0
            };
            x % (pow2((level + 1) as nat) as int) == p <==> x % 2 == 0 && (x / 2) % (pow2(level) as int)
                == p1
        }),
{
    lemma_pow2_unfold((level + 1) as nat);
    lemma_pow2_unfold(level);
    lemma_pow2_pos(level);
    let m = pow2(level) as int;
    let h = x / 2;
    let r = x % 2;
    let a = h / m;
    let b = h % m;
    assert(h == a * m + b) by (nonlinear_arith)
        requires
            a == h / m,
            b == h % m,
            m > 0,
    ;
    assert(x == a * (2 * m) + (2 * b + r)) by (nonlinear_arith)
        requires
            x == 2 * h + r,
            h == a * m + b,
    ;
    assert(x % (2 * m) == 2 * b + r) by {
        vstd::arithmetic::div_mod::lemma_fundamental_div_mod_converse(x, 2 * m, a, 2 * b + r);
    }
}

/// **The lattices of the subbands are the classes of positions**: a position
/// lies on the lattice of a subband exactly when it is classified into it. So
/// the lattices cover every position once.
pub proof fn lattices_are_classes(s: Subband, x: int, y: int, levels: u8)
    requires
        is_band(s, levels as int),
        x >= 0,
        y >= 0,
    ensures
        on_lattice(s, x, y) <==> classified(x, y, 1, levels as int) == (s.kind, s.level as int),
{
    if levels == 0 {
        vstd::arithmetic::power2::lemma2_to64();
    } else {
        lemma_lattice_class(s.kind, s.level as int, x, y, 1, levels as int);
    }
}

spec fn kind_on_lattice(kind: SubbandType, depth: int, x: int, y: int) -> bool {
    let step = pow2(depth as nat) as int;
    let half = pow2((depth - 1) as nat) as int;
    &&& x % step == (if kind is Hl || kind is Hh {
        half
    } else {
        0
    })
    &&& y % step == (if kind is Lh || kind is Hh {
        half
    } else {
        0
    })
}

proof fn lemma_lattice_class(kind: SubbandType, level: int, x: int, y: int, from: int, levels: int)
    requires
        1 <= from <= level <= levels,
        kind is Ll ==> level == levels,
        x >= 0,
        y >= 0,
    ensures
        kind_on_lattice(kind, level - from + 1, x, y) <==> classified(x, y, from, levels) == (
            kind,
            level,
        ),
    decreases level - from,
{
    let depth = level - from + 1;
    vstd::arithmetic::power2::lemma2_to64();
    if depth == 1 {
        assert(pow2(1) == 2 && pow2(0) == 1);
        if from == levels {
            assert(classified(x / 2, y / 2, from + 1, levels) == (SubbandType::Ll, levels));
        } else {
            lemma_classified_level(x / 2, y / 2, from + 1, levels);
        }
    } else {
        lemma_halving(x, (depth - 1) as nat, kind is Hl || kind is Hh);
        lemma_halving(y, (depth - 1) as nat, kind is Lh || kind is Hh);
        lemma_lattice_class(kind, level, x / 2, y / 2, from + 1, levels);
    }
}

pub proof fn lemma_classified_level(x: int, y: int, from: int, levels: int)
    requires
        from <= levels + 1,
    ensures
        classified(x, y, from, levels).1 >= from || classified(x, y, from, levels) == (
            SubbandType::Ll,
            levels,
        ),
        classified(x, y, from, levels).1 <= levels,
        classified(x, y, from, levels).0 is Ll ==> classified(x, y, from, levels).1 == levels,
    decreases levels + 1 - from,
{
    if from <= levels && x % 2 == 0 && y % 2 == 0 {
        lemma_classified_level(x / 2, y / 2, from + 1, levels);
    }
}

/// **A step by the stride stays in the subband.**
pub proof fn stride_keeps_class(x: int, y: int, levels: u8)
    requires
        x >= 0,
        y >= 0,
        levels >= 1,
    ensures
        ({
            let d = clamped_levels(levels) as int;
            let step = stride_at(x, y, levels);
            &&& classified(x + step, y, 1, d) == classified(x, y, 1, d)
            &&& classified(x, y + step, 1, d) == classified(x, y, 1, d)
        }),
{
    let d = clamped_levels(levels);
    lemma_classified_level(x, y, 1, d as int);
    let (kind, level) = classified(x, y, 1, d as int);
    let s = Subband { kind, level: level as u8 };
    let step = stride_at(x, y, levels);
    lattices_are_classes(s, x, y, d);
    lemma_pow2_pos(level as nat);
    vstd::arithmetic::div_mod::lemma_mod_add_multiples_vanish(x, step);
    vstd::arithmetic::div_mod::lemma_mod_add_multiples_vanish(y, step);
    lattices_are_classes(s, x + step, y, d);
    lattices_are_classes(s, x, y + step, d);
}

/// How many of `first`, `first + step`, `first + 2 * step`, ... lie below
/// `limit`.
pub open spec fn lattice_count(first: int, step: int, limit: int) -> int {
    if first < limit {
        (limit - first + step - 1) / step
    } else {
        0
    }
}

/// Number of coefficients of `subband` in a buffer.
pub open spec fn coeff_count(s: Subband, width: int, height: int) -> int {
    let step = pow2(s.level as nat) as int;
    lattice_count(first_column(s), step, width) * lattice_count(first_row(s), step, height)
}

fn count_from(first: usize, step: usize, limit: usize) -> (n: usize)
    requires
        step >= 1,
    ensures
        n == lattice_count(first as int, step as int, limit as int),
        n <= limit,
{
    if first < limit {
        let span: usize = limit - first;
        let n: usize = (span - 1) / step + 1;
        proof {
            let m = step as int;
            assert((span - 1 + m) / m == (span - 1) / m + 1) by (nonlinear_arith)
                requires
                    m >= 1,
                    span >= 1,
            ;
            assert((span - 1) / m <= span - 1) by (nonlinear_arith)
                requires
                    m >= 1,
                    span >= 1,
            ;
        }
        n
    } else {
        0
    }
}

/// Number of coefficients of `subband` in a buffer of `width` by `height`.
pub fn subband_coeff_count(subband: Subband, width: usize, height: usize) -> (n: usize)
    requires
        subband.level >= 1,
        can_step(subband.level as int),
        width * height <= usize::MAX,
    ensures
        n == coeff_count(subband, width as int, height as int),
{
    let lat = subband_lattice(subband);
    let nx: usize = count_from(lat.x0, lat.step, width);
    let ny: usize = count_from(lat.y0, lat.step, height);
    assert(nx * ny <= width * height) by (nonlinear_arith)
        requires
            0 <= nx <= width,
            0 <= ny <= height,
    ;
    nx * ny
}

// ---------------------------------------------------------------------------
// Minimum loss
// ---------------------------------------------------------------------------

/// Importance of a subband relative to the HH subband of level 1.
pub open spec fn importance(s: Subband, levels: u8) -> int {
    s.weight(levels) + 1
}

/// Number of least significant bit planes of `s` that the minimum-loss
/// parameter excludes.
pub open spec fn excluded_planes(s: Subband, levels: u8, min_loss: int) -> int {
    if min_loss > importance(s, levels) {
        min_loss - importance(s, levels)
    } else {
        0
    }
}

/// Importance of a subband relative to the HH subband of level 1: a minimum
/// loss of `m` leaves out `m` less this number of its bit planes.
pub fn min_loss_offset(subband: Subband, decomposition_levels: u8) -> (n: u32)
    requires
        subband.level >= 1,
    ensures
        n == importance(subband, decomposition_levels),
{
    (subband.weight_log2(decomposition_levels) + 1) as u32
}

/// The bit plane is left out under a minimum-loss parameter.
pub open spec fn is_excluded(u: SubbandBitPlane, levels: u8, q: int, min_loss: int) -> bool {
    q - 1 - u.bp_from_msb < excluded_planes(u.subband, clamped_levels(levels), min_loss)
}

/// Whether the bit plane is left out under a minimum-loss parameter.
pub fn min_loss_excludes_unit(
    unit: &SubbandBitPlane,
    decomposition_levels: u8,
    bit_planes: u32,
    min_loss: u8,
) -> (b: bool)
    requires
        unit.subband.level >= 1,
        unit.bp_from_msb < bit_planes,
    ensures
        b == is_excluded(*unit, decomposition_levels, bit_planes as int, min_loss as int),
{
    if min_loss == 0 {
        return false;
    }
    let abs_bit: i64 = (bit_planes - 1 - unit.bp_from_msb) as i64;
    let offset: i64 = min_loss_offset(unit.subband, clamp_levels(decomposition_levels)) as i64;
    let excluded: i64 = if min_loss as i64 > offset {
        min_loss as i64 - offset
    } else {
        0
    };
    abs_bit < excluded
}

/// Number of bit planes that are left out at `(x, y)`.
pub open spec fn skip_at(x: int, y: int, levels: u8, min_loss: int) -> int {
    let d = clamped_levels(levels);
    let (kind, level) = classified(x, y, 1, d as int);
    excluded_planes(Subband { kind, level: level as u8 }, d, min_loss)
}

/// For each coefficient of a buffer the number of its least significant bit
/// planes that are left out under a minimum-loss parameter.
pub fn min_loss_skip_map(width: usize, height: usize, levels: u8, min_loss: u8) -> (out: Vec<u8>)
    requires
        width * height <= usize::MAX,
    ensures
        out@ == skip_map(width as int, height as int, levels, min_loss as int),
{
    let d: u8 = clamp_levels(levels);
    let mut out: Vec<u8> = Vec::new();
    let mut y: usize = 0;
    let ghost all = skip_map(width as int, height as int, levels, min_loss as int);
    assert(all.take(0) =~= Seq::empty());
    while y < height
        invariant
            y <= height,
            d == clamped_levels(levels),
            1 <= d <= 6,
            width * height <= usize::MAX,
            all == skip_map(width as int, height as int, levels, min_loss as int),
            out@ == all.take(y * width),
        decreases height - y,
    {
        let mut x: usize = 0;
        while x < width
            invariant
                x <= width,
                y < height,
                d == clamped_levels(levels),
                1 <= d <= 6,
                all == skip_map(width as int, height as int, levels, min_loss as int),
                out@ == all.take(y * width + x),
            decreases width - x,
        {
            let (kind, level) = classify_position(x, y, d);
            let off: u32 = min_loss_offset(Subband { kind, level }, d);
            let skip: u8 = if min_loss as u32 > off {
                (min_loss as u32 - off) as u8
            } else {
                0
            };
            proof {
                lemma_index(x as int, y as int, width as int, height as int);
                assert(all[y * width + x] == skip);
                assert(all.take(y * width + x + 1) =~= all.take(y * width + x).push(skip));
            }
            out.push(skip);
            x = x + 1;
        }
        assert((y + 1) * width == y * width + width) by (nonlinear_arith);
        y = y + 1;
    }
    assert(height * width == width * height) by (nonlinear_arith);
    assert(all.take(height * width) =~= all);
    out
}

/// For each coefficient of a buffer the number of bit planes that are left
/// out.
pub open spec fn skip_map(width: int, height: int, levels: u8, min_loss: int) -> Seq<u8> {
    Seq::new(
        (width * height) as nat,
        |i: int| skip_at(i % width, i / width, levels, min_loss) as u8,
    )
}

/// The index of `(x, y)` in a buffer, and back.
pub proof fn lemma_index(x: int, y: int, width: int, height: int)
    requires
        0 <= x < width,
        0 <= y < height,
    ensures
        0 <= y * width + x < width * height,
        (y * width + x) % width == x,
        (y * width + x) / width == y,
{
    assert(0 <= y * width + x < width * height) by (nonlinear_arith)
        requires
            0 <= x < width,
            0 <= y < height,
    ;
    vstd::arithmetic::div_mod::lemma_fundamental_div_mod_converse(y * width + x, width, y, x);
}

/// **Leaving out whole bit planes and skipping bits coefficient by coefficient
/// are the same**: a bit plane is excluded exactly when every coefficient of
/// its subband skips it.
pub proof fn exclusion_matches_skips(u: SubbandBitPlane, levels: u8, q: int, min_loss: int, x: int, y: int)
    requires
        is_subband(u.subband, clamped_levels(levels) as int),
        x >= 0,
        y >= 0,
        on_lattice(u.subband, x, y),
    ensures
        is_excluded(u, levels, q, min_loss) <==> q - 1 - u.bp_from_msb < skip_at(
            x,
            y,
            levels,
            min_loss,
        ),
{
    lattices_are_classes(u.subband, x, y, clamped_levels(levels));
}

/// **A bit plane is left out exactly where the map of a buffer skips it**, at
/// each position of its subband.
pub proof fn exclusion_matches_the_map(
    u: SubbandBitPlane,
    levels: u8,
    q: int,
    min_loss: u8,
    width: int,
    height: int,
    x: int,
    y: int,
)
    requires
        is_subband(u.subband, clamped_levels(levels) as int),
        0 <= x < width,
        0 <= y < height,
        classified(x, y, 1, clamped_levels(levels) as int) == (
            u.subband.kind,
            u.subband.level as int,
        ),
    ensures
        is_excluded(u, levels, q, min_loss as int) <==> q - 1 - u.bp_from_msb < skip_map(
            width,
            height,
            levels,
            min_loss as int,
        )[y * width + x],
{
    lattices_are_classes(u.subband, x, y, clamped_levels(levels));
    exclusion_matches_skips(u, levels, q, min_loss as int, x, y);
    lemma_index(x, y, width, height);
}

// ---------------------------------------------------------------------------
// Packets of the priority order
// ---------------------------------------------------------------------------

/// A bit plane of a subband with more coefficients than this is a packet of
/// its own.
pub const FINE_PACKET_COEFFS: usize = 256;

/// One packet of the priority order.
#[derive(Debug, Clone)]
pub struct SchedulePacket {
    /// Index of the group that the packet belongs to.
    pub group_index: usize,
    /// The bit planes that the packet carries, in coding order.
    pub units: Vec<SubbandBitPlane>,
}

/// A packet of the priority order as a value.
pub struct Scheduled {
    /// Index of the group that the packet belongs to.
    pub group_index: int,
    /// The bit planes that the packet carries, in coding order.
    pub units: Seq<SubbandBitPlane>,
}

impl View for SchedulePacket {
    type V = Scheduled;

    open spec fn view(&self) -> Scheduled {
        Scheduled { group_index: self.group_index as int, units: self.units@ }
    }
}

/// The packets that a vector holds.
pub open spec fn packet_views(v: Seq<SchedulePacket>) -> Seq<Scheduled> {
    Seq::new(v.len(), |i: int| v[i]@)
}

/// What a schedule depends on.
pub struct ScheduleParams {
    /// Decomposition levels.
    pub levels: u8,
    /// Number of bit planes.
    pub q: int,
    /// Minimum-loss parameter.
    pub min_loss: int,
    /// Width of the buffer.
    pub width: int,
    /// Height of the buffer.
    pub height: int,
}

/// The packet of `run`, if it holds anything.
pub open spec fn packet_of_run(group_index: int, run: Seq<SubbandBitPlane>) -> Seq<Scheduled> {
    if run.len() > 0 {
        seq![Scheduled { group_index, units: run }]
    } else {
        Seq::empty()
    }
}

/// The packets of the bit planes `units` of a group, where `run` has been
/// gathered and not been closed. Excluded bit planes are left out; one with
/// many coefficients closes the run and stands alone.
pub open spec fn group_packets(
    par: ScheduleParams,
    group_index: int,
    run: Seq<SubbandBitPlane>,
    units: Seq<SubbandBitPlane>,
) -> Seq<Scheduled>
    decreases units.len(),
{
    if units.len() == 0 {
        packet_of_run(group_index, run)
    } else {
        let u = units[0];
        let rest = units.drop_first();
        if is_excluded(u, par.levels, par.q, par.min_loss) {
            group_packets(par, group_index, run, rest)
        } else if coeff_count(u.subband, par.width, par.height) > FINE_PACKET_COEFFS {
            packet_of_run(group_index, run) + seq![Scheduled { group_index, units: seq![u] }]
                + group_packets(par, group_index, Seq::empty(), rest)
        } else {
            group_packets(par, group_index, run.push(u), rest)
        }
    }
}

/// The packets of the groups from `k` on.
pub open spec fn packets_from(par: ScheduleParams, groups: Seq<Group>, k: int) -> Seq<Scheduled>
    decreases groups.len() - k,
{
    if k >= groups.len() || k < 0 {
        Seq::empty()
    } else {
        group_packets(par, k, Seq::empty(), groups[k].units) + packets_from(par, groups, k + 1)
    }
}

/// The packets of a segment in the priority order.
pub open spec fn schedule(par: ScheduleParams) -> Seq<Scheduled> {
    packets_from(par, group_list(par.levels, par.q), 0)
}

proof fn lemma_group_list_units(levels: u8, q: int, p: int, k: int)
    requires
        0 <= q <= MAX_BIT_PLANES,
        -q - 1 <= p <= 255,
        0 <= k < groups_from(levels, q, p).len(),
    ensures
        forall|i: int|
            0 <= i < groups_from(levels, q, p)[k].units.len() ==> is_unit(
                #[trigger] groups_from(levels, q, p)[k].units[i],
                levels,
                q,
            ),
    decreases p + q + 1,
{
    if p >= -q {
        let units = priority_units(levels, q, p);
        lemma_group_units(clamped_levels(levels) as int, levels, q, p);
        let rest = groups_from(levels, q, p - 1);
        if units.len() > 0 {
            if k > 0 {
                lemma_group_list_units(levels, q, p - 1, k - 1);
                assert(groups_from(levels, q, p)[k] == rest[k - 1]);
            }
        } else {
            assert(groups_from(levels, q, p) =~= rest);
            lemma_group_list_units(levels, q, p - 1, k);
        }
    }
}

/// The packets of a segment in the priority order.
pub fn packet_schedule(
    decomposition_levels: u8,
    bit_planes: u32,
    min_loss: u8,
    width: usize,
    height: usize,
) -> (out: Vec<SchedulePacket>)
    requires
        bit_planes <= MAX_BIT_PLANES,
        width * height <= usize::MAX,
    ensures
        packet_views(out@) == schedule(
            (ScheduleParams {
                levels: decomposition_levels,
                q: bit_planes as int,
                min_loss: min_loss as int,
                width: width as int,
                height: height as int,
            }),
        ),
{
    let ghost par = ScheduleParams {
        levels: decomposition_levels,
        q: bit_planes as int,
        min_loss: min_loss as int,
        width: width as int,
        height: height as int,
    };
    let groups = priority_groups(decomposition_levels, bit_planes);
    let ghost list = group_list(decomposition_levels, bit_planes as int);
    let mut out: Vec<SchedulePacket> = Vec::new();
    let mut g: usize = 0;
    assert(packet_views(out@) + packets_from(par, list, 0) =~= packets_from(par, list, 0));
    while g < groups.len()
        invariant
            g <= groups@.len(),
            list == group_views(groups@),
            list == group_list(decomposition_levels, bit_planes as int),
            bit_planes <= MAX_BIT_PLANES,
            width * height <= usize::MAX,
            par == (ScheduleParams {
                levels: decomposition_levels,
                q: bit_planes as int,
                min_loss: min_loss as int,
                width: width as int,
                height: height as int,
            }),
            packet_views(out@) + packets_from(par, list, g as int) == schedule(par),
        decreases groups@.len() - g,
    {
        let ghost before = packet_views(out@);
        let ghost units = list[g as int].units;
        let ghost whole = group_packets(par, g as int, Seq::empty(), units);
        proof {
            assert(units == groups@[g as int].units@);
            lemma_group_list_units(
                decomposition_levels,
                bit_planes as int,
                top_priority(decomposition_levels),
                g as int,
            );
        }
        let mut run: Vec<SubbandBitPlane> = Vec::new();
        let mut i: usize = 0;
        assert(units.skip(0) =~= units);
        assert(run@ =~= Seq::empty());
        while i < groups[g].units.len()
            invariant
                g < groups@.len(),
                units == groups@[g as int].units@,
                i <= units.len(),
                bit_planes <= MAX_BIT_PLANES,
                width * height <= usize::MAX,
                par == (ScheduleParams {
                    levels: decomposition_levels,
                    q: bit_planes as int,
                    min_loss: min_loss as int,
                    width: width as int,
                    height: height as int,
                }),
                forall|k: int|
                    0 <= k < units.len() ==> is_unit(
                        #[trigger] units[k],
                        decomposition_levels,
                        bit_planes as int,
                    ),
                packet_views(out@) + group_packets(par, g as int, run@, units.skip(i as int))
                    == before + whole,
            decreases units.len() - i,
        {
            let unit = groups[g].units[i];
            assert(is_unit(units[i as int], decomposition_levels, bit_planes as int));
            assert(units.skip(i as int)[0] == unit);
            assert(units.skip(i as int).drop_first() =~= units.skip(i + 1));
            let ghost now = packet_views(out@);
            let ghost gathered = run@;
            if min_loss_excludes_unit(&unit, decomposition_levels, bit_planes, min_loss) {
            } else if subband_coeff_count(unit.subband, width, height) > FINE_PACKET_COEFFS {
                if run.len() > 0 {
                    out.push(SchedulePacket { group_index: g, units: run });
                    run = Vec::new();
                }
                assert(packet_views(out@) =~= now + packet_of_run(g as int, gathered));
                let ghost mid = packet_views(out@);
                let mut alone: Vec<SubbandBitPlane> = Vec::new();
                alone.push(unit);
                assert(alone@ =~= seq![unit]);
                out.push(SchedulePacket { group_index: g, units: alone });
                let ghost one = Scheduled { group_index: g as int, units: seq![unit] };
                assert(packet_views(out@) =~= mid.push(one));
                assert(run@ =~= Seq::empty());
                proof {
                    let rest = group_packets(par, g as int, Seq::empty(), units.skip(i + 1));
                    assert(now + (packet_of_run(g as int, gathered) + seq![one] + rest)
                        =~= packet_views(out@) + rest);
                }
            } else {
                run.push(unit);
            }
            i = i + 1;
        }
        assert(units.skip(units.len() as int) =~= Seq::empty());
        let ghost now = packet_views(out@);
        let ghost gathered = run@;
        if run.len() > 0 {
            out.push(SchedulePacket { group_index: g, units: run });
        }
        assert(packet_views(out@) =~= now + packet_of_run(g as int, gathered));
        assert(packet_views(out@) == before + whole);
        assert(before + (whole + packets_from(par, list, g + 1)) =~= packet_views(out@)
            + packets_from(par, list, g + 1));
        g = g + 1;
    }
    assert(packet_views(out@) + Seq::<Scheduled>::empty() =~= packet_views(out@));
    out
}

/// The bit planes of the packets one after the other.
pub open spec fn scheduled_units(packets: Seq<Scheduled>) -> Seq<SubbandBitPlane>
    decreases packets.len(),
{
    if packets.len() == 0 {
        Seq::empty()
    } else {
        scheduled_units(packets.drop_last()) + packets.last().units
    }
}

/// The bit planes of `units` that are not left out.
pub open spec fn kept_units(par: ScheduleParams, units: Seq<SubbandBitPlane>) -> Seq<SubbandBitPlane>
    decreases units.len(),
{
    if units.len() == 0 {
        Seq::empty()
    } else {
        (if is_excluded(units[0], par.levels, par.q, par.min_loss) {
            Seq::empty()
        } else {
            seq![units[0]]
        }) + kept_units(par, units.drop_first())
    }
}

proof fn lemma_scheduled_units_concat(a: Seq<Scheduled>, b: Seq<Scheduled>)
    ensures
        scheduled_units(a + b) == scheduled_units(a) + scheduled_units(b),
    decreases b.len(),
{
    if b.len() == 0 {
        assert(a + b =~= a);
        assert(scheduled_units(a) + Seq::<SubbandBitPlane>::empty() =~= scheduled_units(a));
    } else {
        lemma_scheduled_units_concat(a, b.drop_last());
        assert((a + b).drop_last() =~= a + b.drop_last());
        assert((a + b).last() == b.last());
        assert(scheduled_units(a + b) =~= scheduled_units(a) + scheduled_units(b));
    }
}

proof fn lemma_single_packet_units(g: int, run: Seq<SubbandBitPlane>)
    ensures
        scheduled_units(packet_of_run(g, run)) == run,
        scheduled_units(seq![Scheduled { group_index: g, units: run }]) == run,
{
    let s = seq![Scheduled { group_index: g, units: run }];
    assert(s.drop_last() =~= Seq::empty());
    assert(scheduled_units(s.drop_last()) =~= Seq::empty());
    assert(scheduled_units(s) =~= run);
    if run.len() == 0 {
        assert(scheduled_units(packet_of_run(g, run)) =~= run);
    }
}

proof fn lemma_group_packets_units(
    par: ScheduleParams,
    g: int,
    run: Seq<SubbandBitPlane>,
    units: Seq<SubbandBitPlane>,
)
    ensures
        scheduled_units(group_packets(par, g, run, units)) == run + kept_units(par, units),
    decreases units.len(),
{
    lemma_single_packet_units(g, run);
    if units.len() == 0 {
        assert(run + Seq::<SubbandBitPlane>::empty() =~= run);
    } else {
        let u = units[0];
        let rest = units.drop_first();
        let tail = kept_units(par, rest);
        if is_excluded(u, par.levels, par.q, par.min_loss) {
            lemma_group_packets_units(par, g, run, rest);
            assert(Seq::<SubbandBitPlane>::empty() + tail =~= tail);
        } else if coeff_count(u.subband, par.width, par.height) > FINE_PACKET_COEFFS {
            lemma_group_packets_units(par, g, Seq::empty(), rest);
            lemma_single_packet_units(g, seq![u]);
            let one = seq![Scheduled { group_index: g, units: seq![u] }];
            let after = group_packets(par, g, Seq::empty(), rest);
            lemma_scheduled_units_concat(packet_of_run(g, run), one);
            lemma_scheduled_units_concat(packet_of_run(g, run) + one, after);
            assert(run + seq![u] + (Seq::<SubbandBitPlane>::empty() + tail) =~= run + (seq![u]
                + tail));
        } else {
            lemma_group_packets_units(par, g, run.push(u), rest);
            assert(run.push(u) + tail =~= run + (seq![u] + tail));
        }
    }
}

proof fn lemma_kept_units_concat(
    par: ScheduleParams,
    a: Seq<SubbandBitPlane>,
    b: Seq<SubbandBitPlane>,
)
    ensures
        kept_units(par, a + b) == kept_units(par, a) + kept_units(par, b),
    decreases a.len(),
{
    if a.len() == 0 {
        assert(a + b =~= b);
        assert(Seq::<SubbandBitPlane>::empty() + kept_units(par, b) =~= kept_units(par, b));
    } else {
        lemma_kept_units_concat(par, a.drop_first(), b);
        assert((a + b).drop_first() =~= a.drop_first() + b);
        assert((a + b)[0] == a[0]);
        assert(kept_units(par, a + b) =~= kept_units(par, a) + kept_units(par, b));
    }
}

proof fn lemma_packets_from_units(par: ScheduleParams, groups: Seq<Group>, k: int)
    requires
        0 <= k <= groups.len(),
    ensures
        scheduled_units(packets_from(par, groups, k)) == kept_units(par, flattened(groups.skip(k))),
    decreases groups.len() - k,
{
    if k < groups.len() {
        lemma_packets_from_units(par, groups, k + 1);
        lemma_group_packets_units(par, k, Seq::empty(), groups[k].units);
        lemma_scheduled_units_concat(
            group_packets(par, k, Seq::empty(), groups[k].units),
            packets_from(par, groups, k + 1),
        );
        assert(groups.skip(k).drop_first() =~= groups.skip(k + 1));
        lemma_kept_units_concat(par, groups[k].units, flattened(groups.skip(k + 1)));
        assert(Seq::<SubbandBitPlane>::empty() + kept_units(par, groups[k].units) =~= kept_units(
            par,
            groups[k].units,
        ));
    } else {
        assert(groups.skip(k) =~= Seq::empty());
    }
}

/// **Cutting the coding order into packets moves no bit plane**: the packets
/// carry, one after the other, the coding order without the bit planes that
/// are left out.
pub proof fn packets_carry_the_order(par: ScheduleParams)
    ensures
        scheduled_units(schedule(par)) == kept_units(par, coding_order(par.levels, par.q)),
{
    let groups = group_list(par.levels, par.q);
    lemma_packets_from_units(par, groups, 0);
    assert(groups.skip(0) =~= groups);
    groups_flatten_to_order(par.levels, par.q);
}

/// Every bit plane of every packet is one of the segment, and no packet has
/// more than there are subbands.
pub open spec fn scheduled_units_ok(par: ScheduleParams, packets: Seq<Scheduled>) -> bool {
    &&& forall|k: int| 0 <= k < packets.len() ==> (#[trigger] packets[k]).units.len() <= 24
    &&& forall|k: int, i: int|
        0 <= k < packets.len() && 0 <= i < packets[k].units.len() ==> is_unit(
            #[trigger] packets[k].units[i],
            par.levels,
            par.q,
        )
}

proof fn lemma_group_packets_ok(
    par: ScheduleParams,
    g: int,
    run: Seq<SubbandBitPlane>,
    units: Seq<SubbandBitPlane>,
)
    requires
        forall|i: int| 0 <= i < run.len() ==> is_unit(#[trigger] run[i], par.levels, par.q),
        forall|i: int| 0 <= i < units.len() ==> is_unit(#[trigger] units[i], par.levels, par.q),
        run.len() + units.len() <= 24,
    ensures
        scheduled_units_ok(par, group_packets(par, g, run, units)),
    decreases units.len(),
{
    if units.len() > 0 {
        let u = units[0];
        let rest = units.drop_first();
        assert(forall|i: int|
            0 <= i < rest.len() ==> is_unit(#[trigger] rest[i], par.levels, par.q)) by {
            assert(forall|i: int| 0 <= i < rest.len() ==> rest[i] == units[i + 1]);
        }
        if is_excluded(u, par.levels, par.q, par.min_loss) {
            lemma_group_packets_ok(par, g, run, rest);
        } else if coeff_count(u.subband, par.width, par.height) > FINE_PACKET_COEFFS {
            lemma_group_packets_ok(par, g, Seq::empty(), rest);
            assert(seq![u][0] == u);
        } else {
            lemma_group_packets_ok(par, g, run.push(u), rest);
        }
    }
}

proof fn lemma_group_len(level: int, levels: u8, q: int, p: int)
    ensures
        group_units(level, levels, q, p).len() <= 4 * (if level > 0 {
            level
        } else {
            0
        }),
    decreases level,
{
    if level > 0 {
        lemma_group_len(level - 1, levels, q, p);
    }
}

proof fn lemma_group_list_len(levels: u8, q: int, p: int, k: int)
    requires
        0 <= k < groups_from(levels, q, p).len(),
    ensures
        groups_from(levels, q, p)[k].units.len() <= 24,
    decreases p + q + 1,
{
    if p >= -q {
        let units = priority_units(levels, q, p);
        lemma_group_len(clamped_levels(levels) as int, levels, q, p);
        let rest = groups_from(levels, q, p - 1);
        if units.len() > 0 {
            if k > 0 {
                lemma_group_list_len(levels, q, p - 1, k - 1);
                assert(groups_from(levels, q, p)[k] == rest[k - 1]);
            }
        } else {
            assert(groups_from(levels, q, p) =~= rest);
            lemma_group_list_len(levels, q, p - 1, k);
        }
    }
}

proof fn lemma_packets_from_ok(par: ScheduleParams, k: int)
    requires
        0 <= par.q <= MAX_BIT_PLANES,
        0 <= k <= group_list(par.levels, par.q).len(),
    ensures
        scheduled_units_ok(par, packets_from(par, group_list(par.levels, par.q), k)),
    decreases group_list(par.levels, par.q).len() - k,
{
    let groups = group_list(par.levels, par.q);
    if k < groups.len() {
        lemma_packets_from_ok(par, k + 1);
        lemma_group_list_units(par.levels, par.q, top_priority(par.levels), k);
        lemma_group_list_len(par.levels, par.q, top_priority(par.levels), k);
        lemma_group_packets_ok(par, k, Seq::empty(), groups[k].units);
    }
}

/// Every bit plane of every packet of a schedule is one of the segment.
pub proof fn lemma_schedule_units(par: ScheduleParams)
    requires
        0 <= par.q <= MAX_BIT_PLANES,
    ensures
        scheduled_units_ok(par, schedule(par)),
{
    lemma_packets_from_ok(par, 0);
}

proof fn lemma_kept_units(par: ScheduleParams, units: Seq<SubbandBitPlane>)
    ensures
        forall|u: SubbandBitPlane|
            #[trigger] kept_units(par, units).contains(u) <==> units.contains(u) && !is_excluded(
                u,
                par.levels,
                par.q,
                par.min_loss,
            ),
        (forall|i: int, j: int|
            0 <= i < j < units.len() ==> coded_before(#[trigger] units[i], #[trigger] units[j]))
            ==> (forall|i: int, j: int|
            0 <= i < j < kept_units(par, units).len() ==> coded_before(
                #[trigger] kept_units(par, units)[i],
                #[trigger] kept_units(par, units)[j],
            )),
    decreases units.len(),
{
    if units.len() > 0 {
        let rest = units.drop_first();
        let u0 = units[0];
        lemma_kept_units(par, rest);
        let tail = kept_units(par, rest);
        let kept = kept_units(par, units);
        let out = is_excluded(u0, par.levels, par.q, par.min_loss);
        assert(kept =~= if out {
            tail
        } else {
            seq![u0] + tail
        });
        assert forall|u: SubbandBitPlane| #[trigger]
            kept.contains(u) <==> units.contains(u) && !is_excluded(
                u,
                par.levels,
                par.q,
                par.min_loss,
            ) by {
            assert(units.contains(u) <==> u == u0 || rest.contains(u)) by {
                if units.contains(u) && u != u0 {
                    let k = choose|k: int| 0 <= k < units.len() && units[k] == u;
                    assert(rest[k - 1] == u);
                }
                if rest.contains(u) {
                    let k = choose|k: int| 0 <= k < rest.len() && rest[k] == u;
                    assert(units[k + 1] == u);
                }
            }
            if !out {
                assert(kept.contains(u) <==> u == u0 || tail.contains(u)) by {
                    if kept.contains(u) && u != u0 {
                        let k = choose|k: int| 0 <= k < kept.len() && kept[k] == u;
                        assert(tail[k - 1] == u);
                    }
                    if tail.contains(u) {
                        let k = choose|k: int| 0 <= k < tail.len() && tail[k] == u;
                        assert(kept[k + 1] == u);
                    }
                    assert(kept[0] == u0);
                }
            }
        }
        if forall|i: int, j: int|
            0 <= i < j < units.len() ==> coded_before(#[trigger] units[i], #[trigger] units[j]) {
            assert forall|i: int, j: int| 0 <= i < j < rest.len() implies coded_before(
                #[trigger] rest[i],
                #[trigger] rest[j],
            ) by {
                assert(rest[i] == units[i + 1] && rest[j] == units[j + 1]);
            }
            assert forall|i: int, j: int| 0 <= i < j < kept.len() implies coded_before(
                #[trigger] kept[i],
                #[trigger] kept[j],
            ) by {
                if !out {
                    assert(kept[j] == tail[j - 1]);
                    if i == 0 {
                        assert(tail.contains(tail[j - 1]));
                        let k = choose|k: int| 0 <= k < rest.len() && rest[k] == tail[j - 1];
                        assert(units[k + 1] == tail[j - 1]);
                    } else {
                        assert(kept[i] == tail[i - 1]);
                    }
                }
            }
        }
    }
}

/// How many bit planes of subband `s` are still to come after the first `u` of
/// `order`, where there are `q`.
pub open spec fn planes_left(order: Seq<SubbandBitPlane>, q: int, s: Subband, u: int) -> int
    decreases u,
{
    if u <= 0 {
        q
    } else if order[u - 1].subband == s {
        q - 1 - order[u - 1].bp_from_msb
    } else {
        planes_left(order, q, s, u - 1)
    }
}

proof fn lemma_planes_left_skips(order: Seq<SubbandBitPlane>, q: int, s: Subband, a: int, b: int)
    requires
        0 <= a <= b <= order.len(),
        forall|j: int| a <= j < b ==> (#[trigger] order[j]).subband != s,
    ensures
        planes_left(order, q, s, b) == planes_left(order, q, s, a),
    decreases b - a,
{
    if a < b {
        assert(order[b - 1].subband != s);
        lemma_planes_left_skips(order, q, s, a, b - 1);
    }
}

/// **The bit planes of a subband come one after the other**, the most
/// significant first and none left out in between: when one of them comes, the
/// ones above it have come and no other has.
pub proof fn planes_come_in_order(par: ScheduleParams, u: int)
    requires
        0 <= par.q <= MAX_BIT_PLANES,
        0 <= u < kept_units(par, coding_order(par.levels, par.q)).len(),
    ensures
        ({
            let order = kept_units(par, coding_order(par.levels, par.q));
            planes_left(order, par.q, order[u].subband, u) == par.q - order[u].bp_from_msb
        }),
{
    let all = coding_order(par.levels, par.q);
    let order = kept_units(par, all);
    coding_order_is_complete_and_sorted(par.levels, par.q);
    lemma_kept_units(par, all);
    let me = order[u];
    let s = me.subband;
    assert(order.contains(me));
    assert(all.contains(me));
    assert(is_unit(me, par.levels, par.q));
    assert forall|j: int| 0 <= j < u && (#[trigger] order[j]).subband == s implies
        order[j].bp_from_msb < me.bp_from_msb by {
        assert(order.contains(order[j]));
        assert(all.contains(order[j]));
        assert(is_unit(order[j], par.levels, par.q));
        assert(coded_before(order[j], order[u]));
    }
    if me.bp_from_msb == 0 {
        assert forall|j: int| 0 <= j < u implies (#[trigger] order[j]).subband != s by {}
        lemma_planes_left_skips(order, par.q, s, 0, u);
    } else {
        let above = SubbandBitPlane {
            subband: s,
            bp_from_msb: (me.bp_from_msb - 1) as u32,
            priority_log2: (s.weight(clamped_levels(par.levels)) - (me.bp_from_msb - 1)) as i32,
        };
        assert(above.priority_log2 == s.weight(clamped_levels(par.levels)) - above.bp_from_msb);
        assert(is_unit(above, par.levels, par.q));
        assert(all.contains(above));
        assert(order.contains(above));
        let j = choose|j: int| 0 <= j < order.len() && order[j] == above;
        assert(j < u) by {
            if j > u {
                assert(coded_before(order[u], order[j]));
            }
        }
        assert forall|i: int| j + 1 <= i < u implies (#[trigger] order[i]).subband != s by {
            if order[i].subband == s {
                assert(order.contains(order[i]));
                assert(all.contains(order[i]));
                assert(is_unit(order[i], par.levels, par.q));
                assert(coded_before(order[j], order[i]));
            }
        }
        lemma_planes_left_skips(order, par.q, s, j + 1, u);
    }
}

/// **Every bit plane that is not left out comes**: in the end those of a
/// subband that are still missing are the ones that the minimum loss excludes.
pub proof fn all_planes_come(par: ScheduleParams, s: Subband)
    requires
        0 <= par.q <= MAX_BIT_PLANES,
        is_subband(s, clamped_levels(par.levels) as int),
    ensures
        ({
            let order = kept_units(par, coding_order(par.levels, par.q));
            let excluded = excluded_planes(s, clamped_levels(par.levels), par.min_loss);
            planes_left(order, par.q, s, order.len() as int) == (if excluded < par.q {
                excluded
            } else {
                par.q
            })
        }),
{
    let all = coding_order(par.levels, par.q);
    let order = kept_units(par, all);
    let excluded = excluded_planes(s, clamped_levels(par.levels), par.min_loss);
    coding_order_is_complete_and_sorted(par.levels, par.q);
    lemma_kept_units(par, all);
    assert forall|j: int| 0 <= j < order.len() implies is_unit(
        #[trigger] order[j],
        par.levels,
        par.q,
    ) && !is_excluded(order[j], par.levels, par.q, par.min_loss) by {
        assert(order.contains(order[j]));
        assert(all.contains(order[j]));
    }
    if excluded >= par.q {
        assert forall|j: int| 0 <= j < order.len() implies (#[trigger] order[j]).subband != s by {
            assert(is_unit(order[j], par.levels, par.q));
        }
        lemma_planes_left_skips(order, par.q, s, 0, order.len() as int);
    } else {
        let bp = par.q - 1 - excluded;
        let last = SubbandBitPlane {
            subband: s,
            bp_from_msb: bp as u32,
            priority_log2: (s.weight(clamped_levels(par.levels)) - bp) as i32,
        };
        assert(is_unit(last, par.levels, par.q));
        assert(all.contains(last));
        assert(order.contains(last));
        let j = choose|j: int| 0 <= j < order.len() && order[j] == last;
        assert forall|i: int| j + 1 <= i < order.len() implies (#[trigger] order[i]).subband
            != s by {
            if order[i].subband == s {
                assert(is_unit(order[i], par.levels, par.q));
                assert(coded_before(order[j], order[i]));
            }
        }
        lemma_planes_left_skips(order, par.q, s, j + 1, order.len() as int);
    }
}

} // verus!
