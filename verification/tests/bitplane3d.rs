use icer::bitplane3d::{CubeGeometry, decode_cube_bitplanes, decode_cube_bitplanes_into, encode_cube_bitplanes};
use icer::entropy::EntropyKind;

fn test_coeffs(geom: &CubeGeometry) -> Vec<i32> {
    (0..geom.volume())
        .map(|i| {
            let r = (i * 2654435761usize) >> 7;
            match r % 7 {
                0 => ((r % 255) as i32) - 127,
                1 => ((r % 4001) as i32) - 2000,
                2 => ((r % 31) as i32) - 15,
                _ => 0,
            }
        })
        .collect()
}

fn roundtrip(kind: EntropyKind) {
    let geom = CubeGeometry::new(16, 12, 8, 3);
    let coeffs = test_coeffs(&geom);
    let q = CubeGeometry::bit_planes_needed(&coeffs);
    let packets = encode_cube_bitplanes(&geom, &coeffs, q, 0, kind);
    assert!(!packets.is_empty());
    let borrowed: Vec<(u8, &[u8])> = packets
        .iter()
        .map(|p| (p.priority, p.body.as_slice()))
        .collect();
    let decoded = decode_cube_bitplanes(&geom, &borrowed, q, kind).unwrap();
    assert_eq!(decoded, coeffs, "{kind:?} lossless mismatch");
}

#[test]
fn lossless_roundtrip_arithmetic() {
    roundtrip(EntropyKind::Arithmetic);
}

#[test]
fn lossless_roundtrip_interleaved() {
    roundtrip(EntropyKind::Interleaved);
}

#[test]
fn packets_are_priority_descending() {
    let geom = CubeGeometry::new(16, 16, 8, 3);
    let coeffs = test_coeffs(&geom);
    let q = CubeGeometry::bit_planes_needed(&coeffs);
    let packets = encode_cube_bitplanes(&geom, &coeffs, q, 0, EntropyKind::Arithmetic);
    for w in packets.windows(2) {
        assert!(w[0].priority > w[1].priority);
    }
}

#[test]
fn truncation_error_is_monotone() {
    let geom = CubeGeometry::new(16, 16, 8, 3);
    let coeffs = test_coeffs(&geom);
    let q = CubeGeometry::bit_planes_needed(&coeffs);
    let packets = encode_cube_bitplanes(&geom, &coeffs, q, 0, EntropyKind::Arithmetic);
    let mut last = f64::INFINITY;
    for n in 0..=packets.len() {
        let borrowed: Vec<(u8, &[u8])> = packets[..n]
            .iter()
            .map(|p| (p.priority, p.body.as_slice()))
            .collect();
        let decoded =
            decode_cube_bitplanes(&geom, &borrowed, q, EntropyKind::Arithmetic).unwrap();
        let se: f64 = decoded
            .iter()
            .zip(&coeffs)
            .map(|(&d, &c)| {
                let e = (d - c) as f64;
                e * e
            })
            .sum();
        assert!(se <= last + 1e-9, "error rose at prefix {n}: {se} > {last}");
        last = se;
    }
    assert_eq!(last, 0.0, "full stream must be exact");
}

#[test]
fn deadzone_beats_lower_edge_on_truncation() {
    let geom = CubeGeometry::new(16, 16, 8, 3);
    let coeffs = test_coeffs(&geom);
    let q = CubeGeometry::bit_planes_needed(&coeffs);
    let packets = encode_cube_bitplanes(&geom, &coeffs, q, 0, EntropyKind::Arithmetic);
    let n = packets.len() / 2;
    let borrowed: Vec<(u8, &[u8])> = packets[..n]
        .iter()
        .map(|p| (p.priority, p.body.as_slice()))
        .collect();
    let decoded = decode_cube_bitplanes(&geom, &borrowed, q, EntropyKind::Arithmetic).unwrap();

    let se_mid: f64 = decoded
        .iter()
        .zip(&coeffs)
        .map(|(&d, &c)| ((d - c) as f64).powi(2))
        .sum();
    assert!(se_mid.is_finite());

    assert_ne!(decoded, coeffs);
}

#[test]
fn min_priority_stops_at_boundary() {
    let geom = CubeGeometry::new(16, 16, 8, 3);
    let coeffs = test_coeffs(&geom);
    let q = CubeGeometry::bit_planes_needed(&coeffs);
    let full = encode_cube_bitplanes(&geom, &coeffs, q, 0, EntropyKind::Arithmetic);
    let cut = encode_cube_bitplanes(&geom, &coeffs, q, 5, EntropyKind::Arithmetic);
    assert!(cut.len() < full.len());
    assert!(cut.iter().all(|p| p.priority >= 5));
    for (a, b) in cut.iter().zip(&full) {
        assert_eq!(a.priority, b.priority);
        assert_eq!(a.body, b.body, "min-loss emission must be a prefix");
    }

    let zero = encode_cube_bitplanes(&geom, &coeffs, q, 0, EntropyKind::Arithmetic);
    assert_eq!(zero.len(), full.len());
}

#[test]
fn all_zero_cube_needs_no_packets() {
    let geom = CubeGeometry::new(8, 8, 4, 2);
    let coeffs = vec![0i32; geom.volume()];
    let q = CubeGeometry::bit_planes_needed(&coeffs);
    assert_eq!(q, 0);
    let packets = encode_cube_bitplanes(&geom, &coeffs, q, 0, EntropyKind::Arithmetic);
    assert!(packets.is_empty());
    let decoded = decode_cube_bitplanes(&geom, &[], q, EntropyKind::Arithmetic).unwrap();
    assert_eq!(decoded, coeffs);
}

#[test]
fn windows_tile_the_member_set() {
    let (w, h, bands, levels) = (17usize, 13usize, 6usize, 3u8);
    let full = CubeGeometry::new(w, h, bands, levels);
    let windows = [
        (0usize, 8usize, 0usize, 8usize),
        (8, w, 0, 8),
        (0, 8, 8, h),
        (8, w, 8, h),
    ];
    let parts: Vec<CubeGeometry> = windows
        .iter()
        .map(|&win| CubeGeometry::with_window(w, h, bands, levels, win))
        .collect();
    for sb_idx in 0..full.subbands.len() {
        let mut union: Vec<(usize, usize)> = parts
            .iter()
            .flat_map(|g| g.members[sb_idx].positions())
            .collect();
        union.sort_unstable_by_key(|&(x, y)| (y, x));
        let mut expect = full.members[sb_idx].positions();
        expect.sort_unstable_by_key(|&(x, y)| (y, x));
        assert_eq!(union, expect, "subband {sb_idx} member cover");

        for p in &parts {
            assert_eq!(
                p.members[sb_idx].planes(),
                full.members[sb_idx].planes(),
                "subband {sb_idx} spectral extent"
            );
        }
    }
}

#[test]
fn windowed_segments_roundtrip_into_shared_buffer() {
    let (w, h, bands, levels) = (16usize, 12usize, 8usize, 3u8);
    let full = CubeGeometry::new(w, h, bands, levels);
    let coeffs = test_coeffs(&full);
    let windows = [(0usize, 8usize, 0usize, h), (8, w, 0, h)];
    let mut decoded = vec![i32::MIN; full.volume()];
    for &win in &windows {
        let geom = CubeGeometry::with_window(w, h, bands, levels, win);
        let q = geom.member_bit_planes_needed(&coeffs);
        let packets = encode_cube_bitplanes(&geom, &coeffs, q, 0, EntropyKind::Arithmetic);
        let borrowed: Vec<(u8, &[u8])> = packets
            .iter()
            .map(|p| (p.priority, p.body.as_slice()))
            .collect();
        decode_cube_bitplanes_into(&geom, &borrowed, q, EntropyKind::Arithmetic, &mut decoded)
            .unwrap();
    }
    assert_eq!(decoded, coeffs, "windowed shared-buffer roundtrip");
}

#[test]
fn member_bit_planes_are_window_local() {
    let (w, h, bands, levels) = (8usize, 8usize, 4usize, 2u8);
    let full = CubeGeometry::new(w, h, bands, levels);
    let mut coeffs = vec![0i32; full.volume()];
    coeffs[0] = 1 << 20;
    coeffs[6] = 3;
    let left = CubeGeometry::with_window(w, h, bands, levels, (0, 4, 0, h));
    let right = CubeGeometry::with_window(w, h, bands, levels, (4, w, 0, h));
    assert_eq!(left.member_bit_planes_needed(&coeffs), 21);
    assert_eq!(right.member_bit_planes_needed(&coeffs), 2);
    assert_eq!(CubeGeometry::bit_planes_needed(&coeffs), 21);
}

#[test]
fn single_band_and_tiny_geometry_roundtrip() {
    for (w, h, bands, levels) in [(9usize, 7usize, 1usize, 3u8), (3, 3, 3, 1), (1, 1, 5, 2)] {
        let geom = CubeGeometry::new(w, h, bands, levels);
        let coeffs = test_coeffs(&geom);
        let q = CubeGeometry::bit_planes_needed(&coeffs);
        let packets = encode_cube_bitplanes(&geom, &coeffs, q, 0, EntropyKind::Arithmetic);
        let borrowed: Vec<(u8, &[u8])> = packets
            .iter()
            .map(|p| (p.priority, p.body.as_slice()))
            .collect();
        let decoded =
            decode_cube_bitplanes(&geom, &borrowed, q, EntropyKind::Arithmetic).unwrap();
        assert_eq!(decoded, coeffs, "{w}x{h}x{bands} L{levels}");
    }
}

#[test]
fn minimum_leaves_the_first_packets_as_they_are() {
    let geom = CubeGeometry::new(9, 7, 5, 2);
    let coeffs = test_coeffs(&geom);
    let q = CubeGeometry::bit_planes_needed(&coeffs);
    for kind in [EntropyKind::Arithmetic, EntropyKind::Interleaved] {
        let all = encode_cube_bitplanes(&geom, &coeffs, q, 0, kind);
        for floor in [0u8, 2, 5, 11, 200] {
            let some = encode_cube_bitplanes(&geom, &coeffs, q, floor, kind);
            let due = all.iter().filter(|p| p.priority >= floor).count();
            assert_eq!(some.len(), due);
            for (a, b) in some.iter().zip(all.iter()) {
                assert_eq!((a.priority, &a.body), (b.priority, &b.body));
            }
        }
        assert!(encode_cube_bitplanes(&geom, &coeffs, 0, 0, kind).is_empty());
    }
}

#[test]
fn empty_cubes_have_a_geometry() {
    for (w, h, b, levels) in [(0usize, 4usize, 3usize, 2u8), (4, 0, 3, 9), (4, 3, 0, 255), (0, 0, 0, 0)] {
        let geom = CubeGeometry::new(w, h, b, levels);
        assert_eq!(geom.volume(), 0);
        let packets = encode_cube_bitplanes(&geom, &[], 0, 0, EntropyKind::Arithmetic);
        assert!(packets.is_empty());
        assert_eq!(decode_cube_bitplanes(&geom, &[], 4, EntropyKind::Arithmetic).unwrap(), Vec::<i32>::new());
    }
}

#[test]
fn every_number_of_levels_reads_back() {
    for levels in [0u8, 1, 6, 31, 32, 255] {
        let geom = CubeGeometry::new(5, 4, 40, levels);
        let coeffs = test_coeffs(&geom);
        let q = CubeGeometry::bit_planes_needed(&coeffs);
        let packets = encode_cube_bitplanes(&geom, &coeffs, q, 0, EntropyKind::Arithmetic);
        let borrowed: Vec<(u8, &[u8])> = packets
            .iter()
            .map(|p| (p.priority, p.body.as_slice()))
            .collect();
        let decoded = decode_cube_bitplanes(&geom, &borrowed, q, EntropyKind::Arithmetic).unwrap();
        assert_eq!(decoded, coeffs);
    }
}
