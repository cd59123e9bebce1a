use icer::header::WaveletFilter;
use icer::priority::{Subband, SubbandType, classify_position, encode_order, min_loss_excludes_unit, min_loss_offset, min_loss_skip_map, packet_schedule, priority_groups, subband_coeff_count, subband_lattice, subband_stride, subbands};
use icer::rd::subband_weight_map;

#[test]
fn subband_count_is_3d_plus_1() {
    for d in 1..=6u8 {
        assert_eq!(subbands(d).len(), 3 * d as usize + 1, "D={d} subband count");
    }
}

#[test]
fn ll_only_at_deepest_level() {
    let bands = subbands(3);
    let ll: Vec<_> = bands.iter().filter(|s| s.kind == SubbandType::Ll).collect();
    assert_eq!(ll.len(), 1, "exactly one LL subband");
    assert_eq!(ll[0].level, 3, "LL at deepest level");
}

#[test]
fn fig7_weights_d3() {
    let d = 3;
    let cases = [
        (SubbandType::Hh, 1u8, -1i32),
        (SubbandType::Hl, 1, 0),
        (SubbandType::Lh, 1, 0),
        (SubbandType::Hh, 2, 0),
        (SubbandType::Hl, 2, 1),
        (SubbandType::Lh, 2, 1),
        (SubbandType::Hh, 3, 1),
        (SubbandType::Hl, 3, 2),
        (SubbandType::Lh, 3, 2),
        (SubbandType::Ll, 3, 3),
    ];
    for (kind, level, expect) in cases {
        let s = Subband { kind, level };
        assert_eq!(
            s.weight_log2(d),
            expect,
            "weight log2 for {kind:?} level {level}"
        );
    }
}

#[test]
fn ll_is_16x_level1_hh() {
    let d = 3;
    let ll = Subband {
        kind: SubbandType::Ll,
        level: 3,
    };
    let hh1 = Subband {
        kind: SubbandType::Hh,
        level: 1,
    };
    assert_eq!(ll.weight_log2(d) - hh1.weight_log2(d), 4);
}

#[test]
fn ll_bitplane_offset_matches_hh1() {
    let order = encode_order(3, 12);

    let find = |kind: SubbandType, level: u8, bp: u32| {
        order
            .iter()
            .find(|p| p.subband.kind == kind && p.subband.level == level && p.bp_from_msb == bp)
            .copied()
            .unwrap()
    };

    let ll = find(SubbandType::Ll, 3, 4);
    let hh1 = find(SubbandType::Hh, 1, 0);
    assert_eq!(ll.priority_log2, hh1.priority_log2);
}

#[test]
fn order_is_priority_descending() {
    let order = encode_order(3, 8);
    for w in order.windows(2) {
        assert!(
            w[0].priority_log2 >= w[1].priority_log2,
            "priority must be non-increasing along the encode order"
        );
    }
}

#[test]
fn ll_msb_is_first() {
    for d in 1..=6u8 {
        let order = encode_order(d, 6);
        assert_eq!(order[0].subband.kind, SubbandType::Ll);
        assert_eq!(order[0].subband.level, d);
        assert_eq!(order[0].bp_from_msb, 0);
    }
}

#[test]
fn tie_breaks_level_then_type() {
    let order = encode_order(3, 1);
    let prio1: Vec<_> = order
        .iter()
        .filter(|p| p.priority_log2 == 1)
        .map(|p| (p.subband.level, p.subband.kind))
        .collect();
    assert_eq!(
        prio1,
        vec![
            (3, SubbandType::Hh),
            (2, SubbandType::Hl),
            (2, SubbandType::Lh),
        ]
    );
}

#[test]
fn total_plan_size() {
    let d = 4u8;
    let q = 7u32;
    let order = encode_order(d, q);
    assert_eq!(order.len(), (3 * d as usize + 1) * q as usize);
}

#[test]
fn order_is_a_permutation_of_all_pairs() {
    let d = 3u8;
    let q = 5u32;
    let order = encode_order(d, q);
    let mut seen = std::collections::HashSet::new();
    for p in &order {
        assert!(
            seen.insert((p.subband.kind, p.subband.level, p.bp_from_msb)),
            "duplicate (subband, bit-plane) in encode order"
        );
    }
    assert_eq!(seen.len(), (3 * d as usize + 1) * q as usize);
}

#[test]
fn levels_clamped_to_1_6() {
    assert_eq!(subbands(0).len(), subbands(1).len());
    assert_eq!(subbands(9).len(), subbands(6).len());
}

#[test]
fn priority_groups_are_contiguous_and_partition() {
    for d in 1..=6u8 {
        for q in [1u32, 3, 8, 12] {
            let groups = priority_groups(d, q);
            assert_eq!(
                groups.len(),
                d as usize + q as usize + 1,
                "D={d} q={q} group count"
            );
            assert_eq!(groups[0].priority_log2, d as i32, "top group is LL MSB");
            assert_eq!(
                groups.last().unwrap().priority_log2,
                -(q as i32),
                "bottom group is level-1 HH LSB"
            );
            for w in groups.windows(2) {
                assert_eq!(
                    w[0].priority_log2 - 1,
                    w[1].priority_log2,
                    "groups descend by exactly 1 in log2 priority"
                );
            }
            let total: usize = groups.iter().map(|g| g.units.len()).sum();
            assert_eq!(total, (3 * d as usize + 1) * q as usize);

            let flat: Vec<_> = groups.iter().flat_map(|g| g.units.iter()).collect();
            let order = encode_order(d, q);
            assert_eq!(flat.len(), order.len());
            for (a, b) in flat.iter().zip(order.iter()) {
                assert_eq!(**a, *b, "grouping must preserve the coding order");
            }
        }
    }
}

#[test]
fn priority_groups_pin_ll_hh1_offset() {
    let groups = priority_groups(3, 12);
    let g = groups
        .iter()
        .find(|g| {
            g.units.iter().any(|u| {
                u.subband.kind == SubbandType::Hh && u.subband.level == 1 && u.bp_from_msb == 0
            })
        })
        .unwrap();
    assert!(
        g.units
            .iter()
            .any(|u| u.subband.kind == SubbandType::Ll && u.bp_from_msb == 4),
        "LL bp 4 must tie level-1 HH bp 0 (D=3, 16x weight)"
    );
}

#[test]
fn min_loss_unit_exclusion_matches_skip_map() {
    let (w, h) = (32usize, 32usize);
    for d in 1..=4u8 {
        for m in [0u8, 1, 2, 4, 7] {
            let q = 8u32;
            let skip = min_loss_skip_map(w, h, d, m);
            for unit in encode_order(d, q) {
                let lat = subband_lattice(unit.subband);

                let i = lat.y0 * w + lat.x0;
                let abs_bit = q - 1 - unit.bp_from_msb;
                let expect = abs_bit < skip[i] as u32;
                assert_eq!(
                    min_loss_excludes_unit(&unit, d, q, m),
                    expect,
                    "D={d} M={m} {unit:?}"
                );
            }
        }
    }
}

#[test]
fn subband_lattice_inverts_classify_position() {
    let (w, h) = (48usize, 40usize);
    for d in 1..=5u8 {
        let mut visited = vec![0u32; w * h];
        for subband in subbands(d) {
            let lat = subband_lattice(subband);
            let mut y = lat.y0;
            while y < h {
                let mut x = lat.x0;
                while x < w {
                    assert_eq!(
                        classify_position(x, y, d),
                        (subband.kind, subband.level),
                        "D={d} ({x},{y}) lattice/classify disagree"
                    );
                    visited[y * w + x] += 1;
                    x += lat.step;
                }
                y += lat.step;
            }
        }
        assert!(
            visited.iter().all(|&v| v == 1),
            "D={d}: lattices must tile the buffer exactly once"
        );
    }
}

#[test]
fn classify_position_basic_parities() {
    let d = 3u8;

    assert_eq!(classify_position(1, 0, d), (SubbandType::Hl, 1));
    assert_eq!(classify_position(0, 1, d), (SubbandType::Lh, 1));
    assert_eq!(classify_position(1, 1, d), (SubbandType::Hh, 1));

    assert_eq!(classify_position(2, 2, d), (SubbandType::Hh, 2));

    assert_eq!(classify_position(4, 0, d), (SubbandType::Hl, 3));

    assert_eq!(classify_position(0, 0, d), (SubbandType::Ll, d));

    assert_eq!(classify_position(8, 8, d), (SubbandType::Ll, d));
}

#[test]
fn subband_stride_matches_level_and_keeps_class() {
    let levels = 3u8;

    for &(x, y) in &[
        (1usize, 0usize),
        (0, 1),
        (1, 1),
        (2, 2),
        (4, 0),
        (0, 0),
        (4, 4),
    ] {
        let (kind, level) = classify_position(x, y, levels);
        let stride = subband_stride(x, y, levels);
        assert_eq!(stride, 1usize << level, "stride is 2^level at ({x},{y})");

        let (kx, _) = classify_position(x + stride, y, levels);
        let (ky, _) = classify_position(x, y + stride, levels);
        assert_eq!(kx, kind, "+x stride keeps subband at ({x},{y})");
        assert_eq!(ky, kind, "+y stride keeps subband at ({x},{y})");
    }
}

#[test]
fn subband_stride_levels0_is_unit() {
    assert_eq!(subband_stride(3, 7, 0), 1);
    assert_eq!(subband_stride(0, 0, 0), 1);
}

#[test]
fn fig18_offsets_d3() {
    let d = 3u8;
    let cases = [
        (SubbandType::Ll, 3u8, 4u32),
        (SubbandType::Hl, 3, 3),
        (SubbandType::Lh, 3, 3),
        (SubbandType::Hh, 3, 2),
        (SubbandType::Hl, 2, 2),
        (SubbandType::Lh, 2, 2),
        (SubbandType::Hh, 2, 1),
        (SubbandType::Hl, 1, 1),
        (SubbandType::Lh, 1, 1),
        (SubbandType::Hh, 1, 0),
    ];
    for (kind, level, expect) in cases {
        assert_eq!(
            min_loss_offset(Subband { kind, level }, d),
            expect,
            "offset for {kind:?} level {level}"
        );
    }
}

#[test]
fn min_loss_skip_map_follows_fig18() {
    let (w, h, d) = (16usize, 16usize, 3u8);
    let m0 = min_loss_skip_map(w, h, d, 0);
    assert!(m0.iter().all(|&v| v == 0), "M = 0 is lossless");

    let m1 = min_loss_skip_map(w, h, d, 1);
    let m2 = min_loss_skip_map(w, h, d, 2);
    for y in 0..h {
        for x in 0..w {
            let (kind, level) = classify_position(x, y, d);
            let i = y * w + x;
            let expect1 = u8::from(kind == SubbandType::Hh && level == 1);
            assert_eq!(m1[i], expect1, "M=1 at ({x},{y}) {kind:?} L{level}");
            let expect2 = match (kind, level) {
                (SubbandType::Hh, 1) => 2,
                (SubbandType::Hl, 1) | (SubbandType::Lh, 1) | (SubbandType::Hh, 2) => 1,
                _ => 0,
            };
            assert_eq!(m2[i], expect2, "M=2 at ({x},{y}) {kind:?} L{level}");
        }
    }
}

#[test]
fn min_loss_saturates_every_subband() {
    let (w, h, d) = (16usize, 16usize, 3u8);
    let map = min_loss_skip_map(w, h, d, 12);

    assert!(map.iter().all(|&v| v >= 8));
}

#[test]
fn weight_map_is_positive_and_non_flat() {
    let w = 32usize;
    let h = 32usize;
    let map = subband_weight_map(w, h, 3, WaveletFilter::Reversible53);
    assert_eq!(map.len(), w * h);
    let map: Vec<f64> = map.iter().map(|&v| v as f64 / 4096.0).collect();
    assert!(map.iter().all(|&v| v > 0.0), "all weights positive");
    let ll = map[8 * w + 8];
    let hh1 = map[5 * w + 5];
    assert!(
        (ll - hh1).abs() > 1e-3,
        "LL ({ll:.4}) and HH1 ({hh1:.4}) weights must differ (non-unitary)"
    );
}

#[test]
fn level_counts_are_taken_as_one_to_six() {
    let order = encode_order(9, 1);
    assert_eq!(order.len(), 19);
    assert_eq!(order[0].subband, Subband { kind: SubbandType::Ll, level: 6 });
    assert_eq!(order[0].priority_log2, 6);
    assert_eq!(order, encode_order(6, 1));
    assert_eq!(encode_order(0, 3), encode_order(1, 3));
    assert_eq!(encode_order(255, 4), encode_order(6, 4));
    let groups = priority_groups(9, 2);
    assert_eq!(groups.len(), priority_groups(6, 2).len());
    assert_eq!(groups[0].priority_log2, 6);
}

#[test]
fn strides_take_levels_as_one_to_six() {
    assert_eq!(subband_stride(0, 0, 9), 64);
    assert_eq!(subband_stride(0, 0, 255), 64);
    assert_eq!(subband_stride(0, 0, 6), 64);
    assert_eq!(subband_stride(32, 64, 200), 64);
    assert_eq!(subband_stride(1, 0, 9), 2);
}

#[test]
fn groups_follow_one_another_without_a_gap() {
    for d in 1..=6u8 {
        for q in 1..=8u32 {
            let groups = priority_groups(d, q);
            assert_eq!(groups.len(), d as usize + q as usize + 1);
            for (i, g) in groups.iter().enumerate() {
                assert_eq!(g.priority_log2, d as i32 - i as i32);
                assert!(!g.units.is_empty());
            }
            let first = &groups[0].units;
            assert_eq!(first.len(), 1);
            assert_eq!(first[0].subband, Subband { kind: SubbandType::Ll, level: d });
            assert_eq!(first[0].bp_from_msb, 0);
            let last = &groups[groups.len() - 1].units;
            assert_eq!(last.len(), 1);
            assert_eq!(last[0].subband, Subband { kind: SubbandType::Hh, level: 1 });
            assert_eq!(last[0].bp_from_msb, q - 1);
        }
    }
}

#[test]
fn packets_join_small_neighbours_only() {
    let (d, q, w, h) = (3u8, 6u32, 64usize, 48usize);
    let small = |u: &icer::priority::SubbandBitPlane| subband_coeff_count(u.subband, w, h) <= 256;
    let packets = packet_schedule(d, q, 0, w, h);
    let groups = priority_groups(d, q);
    for p in &packets {
        assert!(!p.units.is_empty());
        assert!(p.units.len() == 1 || p.units.iter().all(small));
        for u in &p.units {
            assert!(groups[p.group_index].units.contains(u));
        }
    }
    for pair in packets.windows(2) {
        assert!(pair[0].group_index <= pair[1].group_index);
        if pair[0].group_index == pair[1].group_index {
            assert!(!(pair[0].units.iter().all(small) && pair[1].units.iter().all(small)));
        }
    }
    let units: Vec<_> = packets.iter().flat_map(|p| p.units.iter().copied()).collect();
    assert_eq!(units, encode_order(d, q));
}

#[test]
fn subband_sizes_count_every_position_once() {
    for (w, h) in [(1usize, 1usize), (7, 5), (16, 16), (33, 20), (64, 1)] {
        for d in 1..=6u8 {
            let mut total = 0usize;
            for band in subbands(d) {
                let mut seen = 0usize;
                for y in 0..h {
                    for x in 0..w {
                        if classify_position(x, y, d) == (band.kind, band.level) {
                            seen += 1;
                        }
                    }
                }
                assert_eq!(subband_coeff_count(band, w, h), seen);
                total += seen;
            }
            assert_eq!(total, w * h);
        }
    }
}

#[test]
fn weights_take_levels_as_one_to_six() {
    let filter = WaveletFilter::FilterA;
    assert_eq!(subband_weight_map(20, 12, 0, filter), subband_weight_map(20, 12, 1, filter));
    assert_eq!(subband_weight_map(20, 12, 99, filter), subband_weight_map(20, 12, 6, filter));
}
