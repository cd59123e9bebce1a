use icer::bitplane::{BitPlaneInput, EncodedPacket, decode_bitplanes, decode_bitplanes_filtered, decode_bitplanes_multi, decode_bitplanes_multi_with, encode_bitplanes, encode_bitplanes_filtered, encode_bitplanes_single, encode_bitplanes_with, select_bit_plane_count, unavailable_bit_planes};
use icer::entropy::EntropyKind;
use icer::scan::{ScanFilter, highest_set_bit, neighbour_significance_pattern};

fn lcg_signal(n: usize, range: i32, seed: u64) -> Vec<i32> {
    let mut s = seed.wrapping_mul(0x9E37_79B9_7F4A_7C15);
    (0..n)
        .map(|_| {
            s = s
                .wrapping_mul(6364136223846793005)
                .wrapping_add(1442695040888963407);
            let v = (s >> 33) as i32;
            v % range
        })
        .collect()
}

#[test]
fn empty_neighbours_are_zero() {
    let sig = vec![false; 4];
    assert_eq!(
        neighbour_significance_pattern(&sig, 2, 2, 0, 0, 0),
        0,
        "all-insignificant neighbourhood"
    );
}

#[test]
fn highest_set_bit_basics() {
    assert_eq!(highest_set_bit(0), None);
    assert_eq!(highest_set_bit(1), Some(0));
    assert_eq!(highest_set_bit(2), Some(1));
    assert_eq!(highest_set_bit(0x8000_0000), Some(31));
}

#[test]
fn select_bit_plane_count_basics() {
    assert_eq!(select_bit_plane_count(&[0, 0, 0]), 1);
    assert_eq!(select_bit_plane_count(&[1, 0, -1]), 1);
    assert_eq!(select_bit_plane_count(&[3, -2]), 2);
    assert_eq!(select_bit_plane_count(&[255, -255]), 8);
}

#[test]
fn bitplane_roundtrip_tiny_zero_single() {
    let coeffs = vec![0i32; 16];
    let input = BitPlaneInput {
        coeffs: &coeffs,
        width: 4,
        height: 4,
        q: 1,
        levels: 0,
    };
    let bytes = encode_bitplanes_single(&input).unwrap();
    let out = decode_bitplanes(&bytes, 4, 4, 1).unwrap();
    assert_eq!(out, coeffs);
}

#[test]
fn bitplane_roundtrip_signed_random_single() {
    let w = 8;
    let h = 8;
    let coeffs = lcg_signal(w * h, 32, 0xCAFE);
    let q = select_bit_plane_count(&coeffs);
    let input = BitPlaneInput {
        coeffs: &coeffs,
        width: w,
        height: h,
        q,
        levels: 0,
    };
    let bytes = encode_bitplanes_single(&input).unwrap();
    let out = decode_bitplanes(&bytes, w, h, q).unwrap();
    assert_eq!(out, coeffs);
}

#[test]
fn bitplane_roundtrip_large_dynamic_range_single() {
    let w = 16;
    let h = 16;
    let coeffs = lcg_signal(w * h, 4096, 0xBEEF);
    let q = select_bit_plane_count(&coeffs);
    let input = BitPlaneInput {
        coeffs: &coeffs,
        width: w,
        height: h,
        q,
        levels: 0,
    };
    let bytes = encode_bitplanes_single(&input).unwrap();
    let out = decode_bitplanes(&bytes, w, h, q).unwrap();
    assert_eq!(out, coeffs);
}

#[test]
fn bitplane_roundtrip_multi_packet() {
    let w = 8;
    let h = 8;
    let coeffs = lcg_signal(w * h, 128, 0xDEAD);
    let q = select_bit_plane_count(&coeffs);
    let input = BitPlaneInput {
        coeffs: &coeffs,
        width: w,
        height: h,
        q,
        levels: 0,
    };
    let packets = encode_bitplanes(&input).unwrap();
    assert_eq!(
        packets.len(),
        2 * q as usize,
        "should have 2 packets per bit-plane"
    );
    let out = decode_bitplanes_multi(&packets, w, h, q, 0).unwrap();
    assert_eq!(out, coeffs);
}

#[test]
fn bitplane_multi_packet_all_zero() {
    let w = 4;
    let h = 4;
    let coeffs = vec![0i32; w * h];
    let q = 1u8;
    let input = BitPlaneInput {
        coeffs: &coeffs,
        width: w,
        height: h,
        q,
        levels: 0,
    };
    let packets = encode_bitplanes(&input).unwrap();
    let out = decode_bitplanes_multi(&packets, w, h, q, 0).unwrap();
    assert_eq!(out, coeffs);
}

#[test]
fn stripe_scan_matches_for_multiples_of_stripe_height() {
    let w = 8;
    let h = 8;
    let coeffs = lcg_signal(w * h, 64, 0xF00D);
    let q = select_bit_plane_count(&coeffs);
    let input = BitPlaneInput {
        coeffs: &coeffs,
        width: w,
        height: h,
        q,
        levels: 0,
    };
    let single_body = encode_bitplanes_single(&input).unwrap();
    let single_out = decode_bitplanes(&single_body, w, h, q).unwrap();
    let packets = encode_bitplanes(&input).unwrap();
    let multi_out = decode_bitplanes_multi(&packets, w, h, q, 0).unwrap();
    assert_eq!(single_out, coeffs, "single path must round-trip");
    assert_eq!(multi_out, coeffs, "multi path must round-trip");
}

#[test]
fn subband_aware_roundtrip_bit_exact() {
    let w = 16;
    let h = 16;
    let coeffs = lcg_signal(w * h, 512, 0xABCD);
    let q = select_bit_plane_count(&coeffs);
    for levels in 1..=4u8 {
        let input = BitPlaneInput {
            coeffs: &coeffs,
            width: w,
            height: h,
            q,
            levels,
        };
        let packets = encode_bitplanes(&input).unwrap();
        let out = decode_bitplanes_multi(&packets, w, h, q, levels).unwrap();
        assert_eq!(out, coeffs, "subband-aware round-trip (levels={levels})");
    }
}

#[test]
fn subband_aware_changes_encoded_bytes() {
    let w = 16;
    let h = 16;

    let coeffs: Vec<i32> = (0..w * h)
        .map(|i| {
            let x = (i % w) as i32;
            let y = (i / w) as i32;
            ((x * 7) ^ (y * 13)) % 200 - 100
        })
        .collect();
    let q = select_bit_plane_count(&coeffs);
    let agnostic = encode_bitplanes(&BitPlaneInput {
        coeffs: &coeffs,
        width: w,
        height: h,
        q,
        levels: 0,
    })
    .unwrap();
    let aware = encode_bitplanes(&BitPlaneInput {
        coeffs: &coeffs,
        width: w,
        height: h,
        q,
        levels: 3,
    })
    .unwrap();
    let agnostic_bytes: usize = agnostic.iter().map(|p| p.body.len()).sum();
    let aware_bytes: usize = aware.iter().map(|p| p.body.len()).sum();
    assert_ne!(
        agnostic_bytes, aware_bytes,
        "subband-aware contexts must change the entropy-coded byte total"
    );

    assert_eq!(decode_bitplanes_multi(&aware, w, h, q, 3).unwrap(), coeffs);
}

#[test]
fn interleaved_backend_bitplane_roundtrip() {
    let w = 16;
    let h = 16;
    let coeffs = lcg_signal(w * h, 512, 0x51C3);
    let q = select_bit_plane_count(&coeffs);
    for levels in 0..=4u8 {
        let input = BitPlaneInput {
            coeffs: &coeffs,
            width: w,
            height: h,
            q,
            levels,
        };
        let packets = encode_bitplanes_with(&input, EntropyKind::Interleaved).unwrap();
        let out =
            decode_bitplanes_multi_with(&packets, w, h, q, levels, EntropyKind::Interleaved)
                .unwrap();
        assert_eq!(out, coeffs, "interleaved round-trip (levels={levels})");
    }
}

#[test]
fn interleaved_differs_from_arithmetic() {
    let w = 16;
    let h = 16;
    let coeffs = lcg_signal(w * h, 300, 0x9E37);
    let q = select_bit_plane_count(&coeffs);
    let input = BitPlaneInput {
        coeffs: &coeffs,
        width: w,
        height: h,
        q,
        levels: 2,
    };
    let arith = encode_bitplanes_with(&input, EntropyKind::Arithmetic).unwrap();
    let inter = encode_bitplanes_with(&input, EntropyKind::Interleaved).unwrap();
    let arith_bytes: usize = arith.iter().map(|p| p.body.len()).sum();
    let inter_bytes: usize = inter.iter().map(|p| p.body.len()).sum();
    assert_ne!(
        arith_bytes, inter_bytes,
        "the two entropy backends should not produce identical byte totals"
    );

    assert_eq!(
        decode_bitplanes_multi_with(&arith, w, h, q, 2, EntropyKind::Arithmetic).unwrap(),
        coeffs
    );
    assert_eq!(
        decode_bitplanes_multi_with(&inter, w, h, q, 2, EntropyKind::Interleaved).unwrap(),
        coeffs
    );
}

#[test]
fn neighbour_walk_is_same_subband() {
    let w = 8;
    let h = 8;
    let levels = 3u8;

    let mut sig = vec![false; w * h];
    sig[2 * w + 5] = true;
    let strided = neighbour_significance_pattern(&sig, w, h, 3, 2, levels);

    assert_ne!(strided & (1 << 4), 0, "same-subband E neighbour is seen");

    let mut sig2 = vec![false; w * h];
    sig2[2 * w + 4] = true;
    let strided2 = neighbour_significance_pattern(&sig2, w, h, 3, 2, levels);
    assert_eq!(
        strided2, 0,
        "a different-subband spatial neighbour must not pollute the context"
    );

    let unit = neighbour_significance_pattern(&sig2, w, h, 3, 2, 0);
    assert_ne!(unit & (1 << 4), 0, "the unit walk sees the spatial cell");
}

#[test]
fn unavailable_bit_planes_counts_dropped_lsb_packets() {
    let q = 8usize;

    let full: Vec<EncodedPacket> = (0..q)
        .flat_map(|bp_idx| {
            [true, false].into_iter().map(move |sig| EncodedPacket {
                bit_plane: bp_idx as u8,
                is_significance: sig,
                body: vec![0u8],
            })
        })
        .collect();
    assert_eq!(unavailable_bit_planes(&full, q), 0, "full stream: b = 0");

    for k in 0..q {
        let kept: Vec<EncodedPacket> = full
            .iter()
            .filter(|p| (p.bit_plane as usize) < q - k)
            .cloned()
            .collect();
        assert_eq!(
            unavailable_bit_planes(&kept, q),
            k as u32,
            "dropping {k} trailing planes leaves b = {k}"
        );
    }

    assert_eq!(
        unavailable_bit_planes(&[], q),
        q as u32,
        "no packets: b = q"
    );
}

#[test]
fn deadzone_reconstruction_biases_toward_mid_bin() {
    let w = 8;
    let h = 4;
    let q = 6u8;
    let mut coeffs = vec![0i32; w * h];
    coeffs[10] = 22;
    let input = BitPlaneInput {
        coeffs: &coeffs,
        width: w,
        height: h,
        q,
        levels: 0,
    };
    let packets = encode_bitplanes(&input).unwrap();

    let full = decode_bitplanes_multi(&packets, w, h, q, 0).unwrap();
    assert_eq!(full[10], 22, "untruncated decode is exact");

    let drop2: Vec<EncodedPacket> = packets
        .iter()
        .filter(|p| (p.bit_plane as usize) < (q as usize - 2))
        .cloned()
        .collect();
    let trunc = decode_bitplanes_multi(&drop2, w, h, q, 0).unwrap();
    assert_eq!(trunc[10], 21, "mid-bin biased reconstruction (step = 4)");

    assert!((22 - trunc[10]).abs() < (22 - 20));

    assert!(trunc.iter().enumerate().all(|(i, &v)| i == 10 || v == 0));
}

#[test]
fn deadzone_reconstruction_lowers_truncation_mse() {
    let w = 8;
    let h = 8;
    let coeffs = lcg_signal(w * h, 256, 0x5151);
    let q = select_bit_plane_count(&coeffs);
    let input = BitPlaneInput {
        coeffs: &coeffs,
        width: w,
        height: h,
        q,
        levels: 0,
    };
    let packets = encode_bitplanes(&input).unwrap();

    let b = 3usize.min(q as usize - 1);
    let kept: Vec<EncodedPacket> = packets
        .iter()
        .filter(|p| (p.bit_plane as usize) < (q as usize - b))
        .cloned()
        .collect();
    let recon = decode_bitplanes_multi(&kept, w, h, q, 0).unwrap();

    let delta = 1i32 << b;
    let lower_edge: Vec<i32> = recon
        .iter()
        .map(|&v| {
            let s = v.signum();
            let mag = v.unsigned_abs() as i32;

            s * (mag & !(delta - 1))
        })
        .collect();

    let mse = |a: &[i32], b: &[i32]| -> i64 {
        a.iter()
            .zip(b)
            .map(|(&x, &y)| {
                let d = (x - y) as i64;
                d * d
            })
            .sum()
    };
    let mid_mse = mse(&coeffs, &recon);
    let edge_mse = mse(&coeffs, &lower_edge);
    assert!(
        mid_mse < edge_mse,
        "mid-bin reconstruction MSE {mid_mse} must beat lower-edge MSE {edge_mse}"
    );
}

#[test]
fn per_coefficient_deadzone_when_refinement_dropped() {
    let w = 8;
    let h = 8;
    let q = 7u8;
    let mut coeffs = vec![0i32; w * h];

    coeffs[3] = 86;

    coeffs[44] = 10;
    let input = BitPlaneInput {
        coeffs: &coeffs,
        width: w,
        height: h,
        q,
        levels: 0,
    };
    let packets = encode_bitplanes(&input).unwrap();

    let full = decode_bitplanes_multi(&packets, w, h, q, 0).unwrap();
    assert_eq!(full[3], 86);
    assert_eq!(full[44], 10);

    let cut: Vec<EncodedPacket> = packets
        .iter()
        .filter(|p| {
            let idx = p.bit_plane as usize;
            idx < 3 || (idx == 3 && p.is_significance)
        })
        .cloned()
        .collect();
    let recon = decode_bitplanes_multi(&cut, w, h, q, 0).unwrap();

    assert_eq!(recon[44], 11, "newly-significant coef: b = 3 (step = 8)");

    assert_eq!(recon[3], 87, "already-significant coef: b = 4 (step = 16)");

    assert!(
        (86 - recon[3]).abs() < (86i32 - 83).abs(),
        "per-coef reconstruction must beat strip-global for the \
         refinement-dropped coefficient"
    );
}

#[test]
fn per_coefficient_deadzone_beats_strip_global_mse() {
    let w = 8;
    let h = 8;
    let coeffs = lcg_signal(w * h, 200, 0xBEEF);
    let q = select_bit_plane_count(&coeffs);
    let input = BitPlaneInput {
        coeffs: &coeffs,
        width: w,
        height: h,
        q,
        levels: 0,
    };
    let packets = encode_bitplanes(&input).unwrap();

    let cut_idx = (q as usize) / 2;
    let cut: Vec<EncodedPacket> = packets
        .iter()
        .filter(|p| {
            let idx = p.bit_plane as usize;
            idx < cut_idx || (idx == cut_idx && p.is_significance)
        })
        .cloned()
        .collect();
    let recon = decode_bitplanes_multi(&cut, w, h, q, 0).unwrap();

    let b_g = (q as usize) - 1 - cut_idx;
    let off_g: i32 = if b_g == 0 { 0 } else { (1i32 << (b_g - 1)) - 1 };
    let global: Vec<i32> = recon
        .iter()
        .map(|&v| {
            if v == 0 {
                return 0;
            }
            let s = v.signum();
            let mag = v.unsigned_abs() as i32;

            let lower = mag & !((1i32 << b_g) - 1);
            s * (lower + off_g)
        })
        .collect();

    let mse = |a: &[i32], b: &[i32]| -> i64 {
        a.iter()
            .zip(b)
            .map(|(&x, &y)| {
                let d = (x - y) as i64;
                d * d
            })
            .sum()
    };
    let per_coef_mse = mse(&coeffs, &recon);
    let global_mse = mse(&coeffs, &global);
    assert!(
        per_coef_mse <= global_mse,
        "per-coefficient deadzone MSE {per_coef_mse} must not exceed \
         strip-global MSE {global_mse}"
    );
    assert!(
        per_coef_mse < global_mse,
        "with a mid-plane cut the per-coefficient deadzone should \
         strictly beat strip-global (got {per_coef_mse} vs {global_mse})"
    );
}

#[test]
fn scan_filter_all_is_wire_identical() {
    let (w, h) = (16usize, 16usize);
    let coeffs = lcg_signal(w * h, 256, 0x51CA);
    let q = select_bit_plane_count(&coeffs);
    let input = BitPlaneInput {
        coeffs: &coeffs,
        width: w,
        height: h,
        q,
        levels: 3,
    };
    for kind in [
        EntropyKind::Arithmetic,
        EntropyKind::Interleaved,
    ] {
        let plain = encode_bitplanes_with(&input, kind).unwrap();
        let filtered = encode_bitplanes_filtered(&input, kind, &ScanFilter::all()).unwrap();
        assert_eq!(plain.len(), filtered.len());
        for (a, b) in plain.iter().zip(filtered.iter()) {
            assert_eq!(a.body, b.body, "backend {kind:?} wire form must not change");
        }
    }
}

#[test]
fn scan_filter_segment_split_roundtrips() {
    let (w, h) = (16usize, 12usize);
    let coeffs = lcg_signal(w * h, 200, 0xB0A7);
    let q = select_bit_plane_count(&coeffs);

    let map: Vec<u16> = (0..w * h).map(|i| u16::from(i % w >= w / 2)).collect();
    let mut merged = vec![0i32; w * h];
    for seg in 0..2u16 {
        let filter = ScanFilter {
            segment: Some((&map, seg)),
            skip: None,
            window: None,
        };
        let input = BitPlaneInput {
            coeffs: &coeffs,
            width: w,
            height: h,
            q,
            levels: 2,
        };
        let packets =
            encode_bitplanes_filtered(&input, EntropyKind::Arithmetic, &filter)
                .unwrap();
        let out = decode_bitplanes_filtered(
            &packets,
            w,
            h,
            q,
            2,
            EntropyKind::Arithmetic,
            &filter,
        )
        .unwrap();
        for i in 0..w * h {
            if map[i] == seg {
                merged[i] = out[i];
            } else {
                assert_eq!(out[i], 0, "out-of-segment coefficient must stay zero");
            }
        }
    }
    assert_eq!(merged, coeffs, "two-segment merge must be lossless");
}

#[test]
fn scan_filter_skip_planes_roundtrips() {
    let (w, h) = (12usize, 12usize);
    let coeffs = lcg_signal(w * h, 512, 0x0FF5);
    let q = select_bit_plane_count(&coeffs);

    let skip = vec![2u8; w * h];
    let filter = ScanFilter {
        segment: None,
        skip: Some(&skip),
        window: None,
    };
    let input = BitPlaneInput {
        coeffs: &coeffs,
        width: w,
        height: h,
        q,
        levels: 2,
    };
    let packets =
        encode_bitplanes_filtered(&input, EntropyKind::Arithmetic, &filter)
            .unwrap();
    let out = decode_bitplanes_filtered(
        &packets,
        w,
        h,
        q,
        2,
        EntropyKind::Arithmetic,
        &filter,
    )
    .unwrap();
    for (i, (&orig, &dec)) in coeffs.iter().zip(out.iter()).enumerate() {
        let mag = orig.unsigned_abs();
        if mag < 4 {
            assert_eq!(dec, 0, "coeff {i}: {orig} within deadzone");
        } else {
            let expect_mag = (mag & !3) + 1;
            let expect = if orig < 0 {
                -(expect_mag as i32)
            } else {
                expect_mag as i32
            };
            assert_eq!(dec, expect, "coeff {i}: {orig}");
        }
    }
}
