//! Groups, packets and sizes of subbands: what holds of the priority order as
//! a whole.

use crate::priority::{clamped_levels, classified, coding_order, coeff_count, detail_subbands, first_column, first_row, group_list, group_packets, group_units, groups_from, is_band, is_excluded, is_subband, is_unit, lattice_count, lattices_are_classes, lemma_classified_level, lemma_first_place, lemma_index, lemma_unit_in_group, level_units, on_lattice, order_from, packet_of_run, packets_from, priority_units, schedule, subband_list, top_priority, unit_with_priority, Group, ScheduleParams, Scheduled, Subband, SubbandBitPlane, SubbandType, FINE_PACKET_COEFFS, MAX_BIT_PLANES};
use vstd::arithmetic::power2::{lemma_pow2_pos, pow2};
use vstd::prelude::*;

verus! {

// ---------------------------------------------------------------------------
// Level counts out of range
// ---------------------------------------------------------------------------

proof fn lemma_units_clamped(level: int, levels: u8, q: int, p: int)
    ensures
        group_units(level, levels, q, p) == group_units(level, clamped_levels(levels), q, p),
    decreases level,
{
    if level > 0 {
        lemma_units_clamped(level - 1, levels, q, p);
    }
}

proof fn lemma_order_clamped(levels: u8, q: int, p: int)
    ensures
        order_from(levels, q, p) == order_from(clamped_levels(levels), q, p),
        groups_from(levels, q, p) == groups_from(clamped_levels(levels), q, p),
    decreases p + q + 1,
{
    if p >= -q {
        lemma_order_clamped(levels, q, p - 1);
        lemma_units_clamped(clamped_levels(levels) as int, levels, q, p);
    }
}

/// The same schedule with the level count forced into its range.
pub open spec fn clamped_params(par: ScheduleParams) -> ScheduleParams {
    ScheduleParams { levels: clamped_levels(par.levels), ..par }
}

proof fn lemma_group_packets_clamped(
    par: ScheduleParams,
    g: int,
    run: Seq<SubbandBitPlane>,
    units: Seq<SubbandBitPlane>,
)
    ensures
        group_packets(par, g, run, units) == group_packets(clamped_params(par), g, run, units),
    decreases units.len(),
{
    if units.len() > 0 {
        let rest = units.drop_first();
        lemma_group_packets_clamped(par, g, run, rest);
        lemma_group_packets_clamped(par, g, Seq::empty(), rest);
        lemma_group_packets_clamped(par, g, run.push(units[0]), rest);
    }
}

proof fn lemma_packets_clamped(par: ScheduleParams, groups: Seq<Group>, k: int)
    ensures
        packets_from(par, groups, k) == packets_from(clamped_params(par), groups, k),
    decreases groups.len() - k,
{
    if 0 <= k < groups.len() {
        lemma_packets_clamped(par, groups, k + 1);
        lemma_group_packets_clamped(par, k, Seq::empty(), groups[k].units);
    }
}

/// **Level counts out of range stand for the nearest one in range**, in the
/// coding order, in its groups and in its packets.
pub proof fn levels_are_clamped(par: ScheduleParams)
    ensures
        coding_order(par.levels, par.q) == coding_order(clamped_levels(par.levels), par.q),
        group_list(par.levels, par.q) == group_list(clamped_levels(par.levels), par.q),
        schedule(par) == schedule(clamped_params(par)),
{
    lemma_order_clamped(par.levels, par.q, top_priority(par.levels));
    lemma_packets_clamped(par, group_list(par.levels, par.q), 0);
}

// ---------------------------------------------------------------------------
// Groups
// ---------------------------------------------------------------------------

/// Some bit plane has each priority from the highest down to the lowest.
proof fn lemma_some_unit(levels: u8, q: int, p: int)
    requires
        1 <= q <= MAX_BIT_PLANES,
        -q <= p <= clamped_levels(levels),
    ensures
        priority_units(levels, q, p).len() > 0,
{
    let d = clamped_levels(levels);
    let s = if p == d {
        Subband { kind: SubbandType::Ll, level: d }
    } else if p >= 0 {
        Subband { kind: SubbandType::Hl, level: (p + 1) as u8 }
    } else {
        Subband { kind: SubbandType::Hh, level: 1 }
    };
    let u = SubbandBitPlane {
        subband: s,
        bp_from_msb: (s.weight(d) - p) as u32,
        priority_log2: p as i32,
    };
    assert(is_unit(u, levels, q));
    lemma_unit_in_group(u, d as int, levels, q);
    let units = priority_units(levels, q, p);
    assert(units.contains(u));
}

proof fn lemma_groups_listed(levels: u8, q: int, p: int)
    requires
        1 <= q <= MAX_BIT_PLANES,
        -q - 1 <= p <= clamped_levels(levels),
    ensures
        groups_from(levels, q, p).len() == p + q + 1,
        forall|i: int|
            0 <= i <= p + q ==> #[trigger] groups_from(levels, q, p)[i] == (Group {
                priority: p - i,
                units: priority_units(levels, q, p - i),
            }),
    decreases p + q + 1,
{
    if p >= -q {
        lemma_groups_listed(levels, q, p - 1);
        lemma_some_unit(levels, q, p);
        let rest = groups_from(levels, q, p - 1);
        let all = groups_from(levels, q, p);
        assert forall|i: int| 0 <= i <= p + q implies #[trigger] all[i] == (Group {
            priority: p - i,
            units: priority_units(levels, q, p - i),
        }) by {
            if i > 0 {
                assert(all[i] == rest[i - 1]);
            }
        }
    }
}

/// No bit plane of the lower levels has a priority of their number or more.
proof fn lemma_none_above(level: int, levels: u8, q: int, p: int)
    requires
        0 <= level < clamped_levels(levels),
        p >= level,
    ensures
        group_units(level, levels, q, p).len() == 0,
    decreases level,
{
    if level > 0 {
        lemma_none_above(level - 1, levels, q, p);
    }
}

/// Only the HH subband of level 1 has a bit plane of the lowest priority.
proof fn lemma_lowest(level: int, levels: u8, q: int)
    requires
        1 <= level <= clamped_levels(levels),
        1 <= q <= MAX_BIT_PLANES,
    ensures
        group_units(level, levels, q, -q) == unit_with_priority(SubbandType::Hh, 1, levels, q, -q),
    decreases level,
{
    let one = unit_with_priority(SubbandType::Hh, 1, levels, q, -q);
    let none = Seq::<SubbandBitPlane>::empty();
    if level > 1 {
        lemma_lowest(level - 1, levels, q);
        assert(level_units(level, levels, q, -q) =~= none);
        assert(none + one =~= one);
    } else {
        assert(group_units(0, levels, q, -q) =~= none);
        assert(level_units(1, levels, q, -q) =~= one);
        assert(one + none =~= one);
    }
}

/// **The groups have consecutive priorities**, from that of the most
/// significant bit plane of LL, which alone has the highest, down to that of
/// the least significant one of the HH subband of level 1, which alone has the
/// lowest.
pub proof fn groups_are_consecutive(levels: u8, q: int)
    requires
        1 <= q <= MAX_BIT_PLANES,
    ensures
        ({
            let d = clamped_levels(levels);
            let groups = group_list(levels, q);
            &&& groups.len() == d + q + 1
            &&& forall|i: int|
                0 <= i < groups.len() ==> (#[trigger] groups[i]).priority == d - i
                    && groups[i].units.len() > 0
            &&& forall|i: int, k: int|
                0 <= i < groups.len() && 0 <= k < groups[i].units.len() ==> (
                #[trigger] groups[i].units[k]).priority_log2 == d - i
            &&& groups[0].units == seq![
                SubbandBitPlane {
                    subband: Subband { kind: SubbandType::Ll, level: d },
                    bp_from_msb: 0,
                    priority_log2: d as i32,
                },
            ]
            &&& groups[d + q].units == seq![
                SubbandBitPlane {
                    subband: Subband { kind: SubbandType::Hh, level: 1 },
                    bp_from_msb: (q - 1) as u32,
                    priority_log2: -q as i32,
                },
            ]
        }),
{
    let d = clamped_levels(levels);
    let groups = group_list(levels, q);
    lemma_groups_listed(levels, q, d as int);
    assert forall|i: int| 0 <= i < groups.len() implies (#[trigger] groups[i]).priority == d - i
        && groups[i].units.len() > 0 by {
        lemma_some_unit(levels, q, d - i);
    }
    assert forall|i: int, k: int|
        0 <= i < groups.len() && 0 <= k < groups[i].units.len() implies (
    #[trigger] groups[i].units[k]).priority_log2 == d - i by {
        assert(groups[i].units == priority_units(levels, q, d - i));
        crate::priority::lemma_group_units(d as int, levels, q, d - i);
    }
    lemma_none_above(d - 1, levels, q, d as int);
    let first = unit_with_priority(SubbandType::Ll, d as int, levels, q, d as int);
    assert(level_units(d as int, levels, q, d as int) =~= first);
    assert(priority_units(levels, q, d as int) =~= first);
    assert(groups[0].units == priority_units(levels, q, d as int));
    lemma_lowest(d as int, levels, q);
    assert(groups[d + q].units == priority_units(levels, q, -q));
}

// ---------------------------------------------------------------------------
// Packets
// ---------------------------------------------------------------------------

/// A bit plane with so many coefficients that it is a packet of its own.
pub open spec fn is_large(par: ScheduleParams, u: SubbandBitPlane) -> bool {
    coeff_count(u.subband, par.width, par.height) > FINE_PACKET_COEFFS
}

/// A packet of one large bit plane.
pub open spec fn is_lone(par: ScheduleParams, p: Scheduled) -> bool {
    p.units.len() == 1 && is_large(par, p.units[0])
}

/// No packet is empty, large bit planes stand alone, and of two neighbours of
/// one group at least one is a large bit plane.
pub open spec fn well_cut(par: ScheduleParams, packets: Seq<Scheduled>) -> bool {
    &&& forall|k: int| 0 <= k < packets.len() ==> (#[trigger] packets[k]).units.len() > 0
    &&& forall|k: int, i: int|
        0 <= k < packets.len() && 0 <= i < packets[k].units.len() && is_large(
            par,
            #[trigger] packets[k].units[i],
        ) ==> packets[k].units.len() == 1
    &&& forall|k: int|
        0 <= k < packets.len() - 1 && (#[trigger] packets[k]).group_index == packets[k
            + 1].group_index ==> is_lone(par, packets[k]) || is_lone(par, packets[k + 1])
}

/// Every bit plane of every packet is among `units`, and every packet belongs
/// to group `g`.
spec fn drawn_from(packets: Seq<Scheduled>, g: int, units: Seq<SubbandBitPlane>) -> bool {
    &&& forall|k: int| 0 <= k < packets.len() ==> (#[trigger] packets[k]).group_index == g
    &&& forall|k: int, i: int|
        0 <= k < packets.len() && 0 <= i < packets[k].units.len() ==> units.contains(
            #[trigger] packets[k].units[i],
        )
}

proof fn lemma_group_well_cut(
    par: ScheduleParams,
    g: int,
    run: Seq<SubbandBitPlane>,
    units: Seq<SubbandBitPlane>,
    all: Seq<SubbandBitPlane>,
)
    requires
        forall|i: int| 0 <= i < run.len() ==> !is_large(par, #[trigger] run[i]),
        forall|i: int| 0 <= i < run.len() ==> all.contains(#[trigger] run[i]),
        forall|i: int| 0 <= i < units.len() ==> all.contains(#[trigger] units[i]),
    ensures
        well_cut(par, group_packets(par, g, run, units)),
        drawn_from(group_packets(par, g, run, units), g, all),
    decreases units.len(),
{
    let out = group_packets(par, g, run, units);
    if units.len() > 0 {
        let u = units[0];
        let rest = units.drop_first();
        assert forall|i: int| 0 <= i < rest.len() implies all.contains(#[trigger] rest[i]) by {
            assert(rest[i] == units[i + 1]);
        }
        assert(all.contains(units[0]));
        if is_excluded(u, par.levels, par.q, par.min_loss) {
            lemma_group_well_cut(par, g, run, rest, all);
        } else if is_large(par, u) {
            lemma_group_well_cut(par, g, Seq::empty(), rest, all);
            let before = packet_of_run(g, run);
            let one = Scheduled { group_index: g, units: seq![u] };
            let after = group_packets(par, g, Seq::empty(), rest);
            let n = before.len() as int;
            assert(out == before + seq![one] + after);
            assert(is_lone(par, one));
            assert forall|k: int| 0 <= k < out.len() implies (#[trigger] out[k]).units.len() > 0
                && out[k].group_index == g by {
                if k > n {
                    assert(out[k] == after[k - n - 1]);
                }
            }
            assert forall|k: int, i: int|
                0 <= k < out.len() && 0 <= i < out[k].units.len() implies all.contains(
                #[trigger] out[k].units[i],
            ) && (is_large(par, out[k].units[i]) ==> out[k].units.len() == 1) by {
                if k > n {
                    assert(out[k] == after[k - n - 1]);
                    assert(all.contains(after[k - n - 1].units[i]));
                } else if k < n {
                    assert(out[k].units[i] == run[i]);
                }
            }
            assert forall|k: int|
                0 <= k < out.len() - 1 && (#[trigger] out[k]).group_index == out[k
                    + 1].group_index implies is_lone(par, out[k]) || is_lone(par, out[k + 1]) by {
                if k > n {
                    assert(out[k] == after[k - n - 1]);
                    assert(out[k + 1] == after[k - n]);
                } else if k == n {
                    assert(out[k] == one);
                } else {
                    assert(out[k + 1] == one);
                }
            }
        } else {
            lemma_group_well_cut(par, g, run.push(u), rest, all);
        }
    }
}

proof fn lemma_packets_well_cut(par: ScheduleParams, groups: Seq<Group>, k: int)
    requires
        0 <= k <= groups.len(),
    ensures
        ({
            let out = packets_from(par, groups, k);
            &&& well_cut(par, out)
            &&& forall|j: int|
                0 <= j < out.len() ==> k <= (#[trigger] out[j]).group_index < groups.len()
            &&& forall|j: int, i: int|
                0 <= j < out.len() && 0 <= i < out[j].units.len()
                    ==> groups[out[j].group_index].units.contains(#[trigger] out[j].units[i])
        }),
    decreases groups.len() - k,
{
    if k < groups.len() {
        lemma_packets_well_cut(par, groups, k + 1);
        let units = groups[k].units;
        lemma_group_well_cut(par, k, Seq::empty(), units, units);
        let a = group_packets(par, k, Seq::empty(), units);
        let b = packets_from(par, groups, k + 1);
        let out = packets_from(par, groups, k);
        assert(out == a + b);
        assert forall|j: int| 0 <= j < out.len() implies (#[trigger] out[j]).units.len() > 0 && k
            <= out[j].group_index < groups.len() by {
            if j < a.len() {
                assert(out[j] == a[j]);
            } else {
                assert(out[j] == b[j - a.len()]);
            }
        }
        assert forall|j: int, i: int|
            0 <= j < out.len() && 0 <= i < out[j].units.len() implies
            groups[out[j].group_index].units.contains(#[trigger] out[j].units[i]) && (is_large(
            par,
            out[j].units[i],
        ) ==> out[j].units.len() == 1) by {
            if j < a.len() {
                assert(out[j] == a[j]);
                assert(units.contains(a[j].units[i]));
            } else {
                assert(out[j] == b[j - a.len()]);
                assert(groups[b[j - a.len()].group_index].units.contains(b[j - a.len()].units[i]));
            }
        }
        assert forall|j: int|
            0 <= j < out.len() - 1 && (#[trigger] out[j]).group_index == out[j
                + 1].group_index implies is_lone(par, out[j]) || is_lone(par, out[j + 1]) by {
            if j + 1 < a.len() {
                assert(out[j] == a[j] && out[j + 1] == a[j + 1]);
            } else if j >= a.len() {
                assert(out[j] == b[j - a.len()] && out[j + 1] == b[j - a.len() + 1]);
            } else {
                assert(out[j] == a[j] && out[j + 1] == b[0]);
            }
        }
    }
}

/// **The packets are cut as the sizes of the subbands ask**: none is empty, a
/// bit plane with many coefficients stands alone, of two neighbours of one
/// group at least one does, and each packet carries bit planes of its group.
pub proof fn packets_are_well_cut(par: ScheduleParams)
    ensures
        ({
            let out = schedule(par);
            let groups = group_list(par.levels, par.q);
            &&& well_cut(par, out)
            &&& forall|j: int|
                0 <= j < out.len() ==> 0 <= (#[trigger] out[j]).group_index < groups.len()
            &&& forall|j: int, i: int|
                0 <= j < out.len() && 0 <= i < out[j].units.len()
                    ==> groups[out[j].group_index].units.contains(#[trigger] out[j].units[i])
        }),
{
    lemma_packets_well_cut(par, group_list(par.levels, par.q), 0);
}

// ---------------------------------------------------------------------------
// Sizes of subbands
// ---------------------------------------------------------------------------

/// How many of the first `k` positions of a buffer with `width` columns, row by
/// row, belong to subband `s`.
pub open spec fn class_count(s: Subband, levels: u8, width: int, k: int) -> int
    decreases k,
{
    if k <= 0 {
        0
    } else {
        class_count(s, levels, width, k - 1) + (if classified(
            (k - 1) % width,
            (k - 1) / width,
            1,
            levels as int,
        ) == (s.kind, s.level as int) {
            1int
        } else {
            0
        })
    }
}

/// One more number is counted where it lies on the lattice.
proof fn lemma_count_step(first: int, step: int, n: int)
    requires
        0 <= first < step,
        0 <= n,
    ensures
        lattice_count(first, step, n + 1) == lattice_count(first, step, n) + (if n % step == first {
            1int
        } else {
            0
        }),
        lattice_count(first, step, 0) == 0,
{
    let q = n / step;
    let r = n % step;
    assert(n == q * step + r && 0 <= r < step && q >= 0) by (nonlinear_arith)
        requires
            q == n / step,
            r == n % step,
            step > 0,
            n >= 0,
    ;
    let c = if r > first {
        q + 1
    } else {
        q
    };
    let d = if r >= first {
        q + 1
    } else {
        q
    };
    assert((q + 1) * step == q * step + step && (q - 1) * step == q * step - step)
        by (nonlinear_arith);
    lemma_count_is(first, step, n, c);
    lemma_count_is(first, step, n + 1, d);
}

proof fn lemma_count_is(first: int, step: int, limit: int, c: int)
    requires
        0 <= first < step,
        0 <= c,
        (c - 1) * step + first < limit <= c * step + first,
    ensures
        limit >= 0 ==> lattice_count(first, step, limit) == c,
{
    if first < limit {
        assert((limit - first + step - 1) / step == c) by (nonlinear_arith)
            requires
                step > 0,
                (c - 1) * step + first < limit <= c * step + first,
        ;
    } else if limit >= 0 {
        assert(c == 0) by (nonlinear_arith)
            requires
                0 <= c,
                first < step,
                limit <= first,
                0 <= limit,
                (c - 1) * step + first < limit,
        ;
    }
}

/// The positions of a subband in the first `y` rows and in the first `x`
/// columns of the next.
proof fn lemma_class_count(s: Subband, levels: u8, width: int, height: int, x: int, y: int)
    requires
        is_band(s, levels as int),
        width >= 1,
        0 <= y <= height,
        0 <= x <= width,
        y == height ==> x == 0,
    ensures
        ({
            let step = pow2(s.level as nat) as int;
            class_count(s, levels, width, y * width + x) == lattice_count(first_row(s), step, y)
                * lattice_count(first_column(s), step, width) + (if y % step == first_row(s) {
                lattice_count(first_column(s), step, x)
            } else {
                0
            })
        }),
    decreases y, x,
{
    let step = pow2(s.level as nat) as int;
    let (a, b) = (first_column(s), first_row(s));
    lemma_pow2_pos(s.level as nat);
    lemma_first_place(s);
    let across = lattice_count(a, step, width);
    if x > 0 {
        lemma_class_count(s, levels, width, height, x - 1, y);
        lemma_index(x - 1, y, width, height);
        lattices_are_classes(s, x - 1, y, levels);
        lemma_count_step(a, step, x - 1);
        assert(on_lattice(s, x - 1, y) <==> (x - 1) % step == a && y % step == b);
    } else if y > 0 {
        lemma_class_count(s, levels, width, height, width, y - 1);
        lemma_count_step(b, step, y - 1);
        lemma_count_step(a, step, 0);
        assert((y - 1) * width + width == y * width) by (nonlinear_arith);
        let rows = lattice_count(b, step, y - 1);
        assert((rows + 1) * across == rows * across + across) by (nonlinear_arith);
    } else {
        lemma_count_step(a, step, 0);
        lemma_count_step(b, step, 0);
        assert(0 * width == 0 && 0 * across == 0);
    }
}

/// **The size of a subband is the number of its positions.**
pub proof fn sizes_count_positions(s: Subband, levels: u8, width: int, height: int)
    requires
        is_band(s, levels as int),
        width >= 0,
        height >= 0,
    ensures
        coeff_count(s, width, height) == class_count(s, levels, width, width * height),
{
    let step = pow2(s.level as nat) as int;
    lemma_pow2_pos(s.level as nat);
    lemma_first_place(s);
    let (nx, ny) = (
        lattice_count(first_column(s), step, width),
        lattice_count(first_row(s), step, height),
    );
    if width == 0 {
        lemma_count_step(first_column(s), step, 0);
        assert(0 * height == 0 && 0 * ny == 0);
    } else {
        lemma_class_count(s, levels, width, height, 0, height);
        lemma_count_step(first_column(s), step, 0);
        assert(width * height == height * width && nx * ny == ny * nx) by (nonlinear_arith);
    }
}

/// Sum of the sizes of the first `n` subbands of a list.
pub open spec fn total_size(list: Seq<Subband>, width: int, height: int, n: int) -> int
    decreases n,
{
    if n <= 0 {
        0
    } else {
        total_size(list, width, height, n - 1) + coeff_count(list[n - 1], width, height)
    }
}

/// How many of the first `k` positions belong to one of the first `n` subbands.
spec fn classes_count(list: Seq<Subband>, levels: u8, width: int, k: int, n: int) -> int
    decreases n,
{
    if n <= 0 {
        0
    } else {
        classes_count(list, levels, width, k, n - 1) + class_count(list[n - 1], levels, width, k)
    }
}

/// Where a subband stands in the list of all.
spec fn list_place(s: Subband) -> int {
    if s.kind is Ll {
        0
    } else {
        3 * (s.level - 1) + s.kind.rank()
    }
}

proof fn lemma_detail_place(level: int, i: int)
    requires
        0 <= level <= 255,
        0 <= i < 3 * level,
    ensures
        detail_subbands(level).len() == 3 * level,
        list_place(detail_subbands(level)[i]) == i + 1,
        !(detail_subbands(level)[i].kind is Ll),
        1 <= detail_subbands(level)[i].level <= level,
    decreases level,
{
    let before = detail_subbands(level - 1);
    if i < 3 * (level - 1) {
        lemma_detail_place(level - 1, i);
        assert(detail_subbands(level)[i] == before[i]);
    } else {
        if level > 1 {
            lemma_detail_place(level - 1, 0);
        } else {
            assert(before.len() == 0);
        }
        assert(before.len() == 3 * (level - 1));
    }
}

/// Every subband of the list stands in its place.
proof fn lemma_list_place(levels: u8, i: int)
    requires
        1 <= levels <= 6,
        0 <= i < 3 * levels + 1,
    ensures
        subband_list(levels).len() == 3 * levels + 1,
        list_place(subband_list(levels)[i]) == i,
        is_subband(subband_list(levels)[i], levels as int),
{
    lemma_detail_place(levels as int, 0);
    if i > 0 {
        lemma_detail_place(levels as int, i - 1);
        assert(subband_list(levels)[i] == detail_subbands(levels as int)[i - 1]);
    }
}

/// Each position belongs to one subband of the list.
proof fn lemma_one_class(levels: u8, width: int, k: int, n: int)
    requires
        1 <= levels <= 6,
        1 <= k,
        0 <= n <= 3 * levels + 1,
    ensures
        ({
            let list = subband_list(levels);
            let (kind, level) = classified((k - 1) % width, (k - 1) / width, 1, levels as int);
            let here = list_place(Subband { kind, level: level as u8 });
            classes_count(list, levels, width, k, n) == classes_count(list, levels, width, k - 1, n)
                + (if here < n {
                1int
            } else {
                0
            })
        }),
    decreases n,
{
    let list = subband_list(levels);
    let (x, y) = ((k - 1) % width, (k - 1) / width);
    let (kind, level) = classified(x, y, 1, levels as int);
    lemma_classified_level(x, y, 1, levels as int);
    let s = Subband { kind, level: level as u8 };
    assert(0 <= list_place(s));
    if n > 0 {
        lemma_one_class(levels, width, k, n - 1);
        lemma_list_place(levels, n - 1);
        let t = list[n - 1];
        assert(t == s <==> list_place(s) == n - 1) by {
            if list_place(s) == n - 1 {
                lemma_same_place(s, t, levels as int);
            }
        }
        assert((kind, level) == (t.kind, t.level as int) <==> t == s);
    }
}

proof fn lemma_same_place(s: Subband, t: Subband, d: int)
    requires
        is_subband(s, d),
        is_subband(t, d),
        list_place(s) == list_place(t),
    ensures
        s == t,
{
}

proof fn lemma_all_classes(levels: u8, width: int, k: int)
    requires
        1 <= levels <= 6,
        0 <= k,
    ensures
        classes_count(subband_list(levels), levels, width, k, 3 * levels + 1) == k,
    decreases k,
{
    let list = subband_list(levels);
    if k > 0 {
        lemma_all_classes(levels, width, k - 1);
        lemma_one_class(levels, width, k, 3 * levels + 1);
        let (x, y) = ((k - 1) % width, (k - 1) / width);
        lemma_classified_level(x, y, 1, levels as int);
    } else {
        lemma_nothing_counted(list, levels, width, 3 * levels + 1);
    }
}

proof fn lemma_nothing_counted(list: Seq<Subband>, levels: u8, width: int, n: int)
    ensures
        classes_count(list, levels, width, 0, n) == 0,
    decreases n,
{
    if n > 0 {
        lemma_nothing_counted(list, levels, width, n - 1);
    }
}

proof fn lemma_total_size(levels: u8, width: int, height: int, n: int)
    requires
        1 <= levels <= 6,
        width >= 0,
        height >= 0,
        0 <= n <= 3 * levels + 1,
    ensures
        total_size(subband_list(levels), width, height, n) == classes_count(
            subband_list(levels),
            levels,
            width,
            width * height,
            n,
        ),
    decreases n,
{
    if n > 0 {
        lemma_total_size(levels, width, height, n - 1);
        lemma_list_place(levels, n - 1);
        sizes_count_positions(subband_list(levels)[n - 1], levels, width, height);
    }
}

/// **The subbands of a decomposition share out the buffer**: their sizes sum to
/// its size.
pub proof fn sizes_sum_to_the_area(levels: u8, width: int, height: int)
    requires
        1 <= levels <= 6,
        width >= 0,
        height >= 0,
    ensures
        subband_list(levels).len() == 3 * levels + 1,
        total_size(subband_list(levels), width, height, 3 * levels + 1) == width * height,
{
    assert(width * height >= 0) by (nonlinear_arith)
        requires
            width >= 0,
            height >= 0,
    ;
    lemma_list_place(levels, 0);
    lemma_total_size(levels, width, height, 3 * levels + 1);
    lemma_all_classes(levels, width, width * height);
}

} // verus!
