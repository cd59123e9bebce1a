use icer::cube::{CUBE_MAGIC, CubeEncodeOptions, HEADER_BODY_BYTES, IcerCube, PACKET_OVERHEAD, encode_icer3d, is_cube};
use icer::cube_decode::{parse_icer3d, parse_icer3d_lenient, parse_icer3d_with_limits};
use icer::decoder::DecodeLimits;
use icer::error::IcerError;
use icer::header::WaveletFilter;

fn segment_fixed_bytes(bands: usize) -> usize {
    4 + 4 * bands
}

fn hyperspectral_fixture(w: u32, h: u32, bands: u32) -> IcerCube {
    let mut cube = IcerCube::zeros(w, h, bands, 12);
    let (wu, hu) = (w as usize, h as usize);
    for b in 0..bands as usize {
        let dc = 800 + ((b * 137) % 1200) as i32;
        for y in 0..hu {
            for x in 0..wu {
                let t = ((x * 13 + y * 29 + b * 7) % 257) as i32 - 128;
                let ridge = if (x / 4 + y / 4) % 3 == 0 { 200 } else { 0 };
                cube.samples[b * wu * hu + y * wu + x] = (dc + t + ridge).clamp(0, 4095) as u16;
            }
        }
    }
    cube
}

#[test]
fn lossless_roundtrip_default_options() {
    let cube = hyperspectral_fixture(16, 16, 8);
    let bytes = encode_icer3d(&cube, &CubeEncodeOptions::default()).unwrap();
    assert!(is_cube(&bytes));
    let decoded = parse_icer3d(&bytes).unwrap();
    assert_eq!(decoded, cube);
}

#[test]
fn lossless_roundtrip_all_integer_filters() {
    let cube = hyperspectral_fixture(12, 10, 6);
    for filter in [
        WaveletFilter::FilterQ,
        WaveletFilter::FilterA,
        WaveletFilter::FilterB,
        WaveletFilter::FilterC,
        WaveletFilter::FilterD,
        WaveletFilter::FilterE,
        WaveletFilter::FilterF,
    ] {
        let opts = CubeEncodeOptions::default().with_filter(filter);
        let decoded = parse_icer3d(&encode_icer3d(&cube, &opts).unwrap()).unwrap();
        assert_eq!(decoded, cube, "{filter:?}");
    }
}

#[test]
fn lossless_roundtrip_multi_segment_and_interleaved() {
    let cube = hyperspectral_fixture(16, 22, 5);
    for segs in [1u8, 2, 3, 5] {
        let opts = CubeEncodeOptions::default()
            .with_segment_count(segs)
            .with_interleaved_entropy();
        let decoded = parse_icer3d(&encode_icer3d(&cube, &opts).unwrap()).unwrap();
        assert_eq!(decoded, cube, "{segs} segments");
    }
}

#[test]
fn mean_subtraction_is_wired() {
    let cube = hyperspectral_fixture(16, 16, 4);
    let bytes = encode_icer3d(&cube, &CubeEncodeOptions::default()).unwrap();
    let mut corrupted = bytes.clone();

    let off = CUBE_MAGIC.len() + HEADER_BODY_BYTES + 2;
    corrupted[off] ^= 0x01;
    let a = parse_icer3d(&bytes).unwrap();
    let b = parse_icer3d(&corrupted).unwrap();
    assert_ne!(a, b, "plane means must participate in reconstruction");
}

#[test]
fn min_loss_reduces_bytes_and_bounds_error() {
    let cube = hyperspectral_fixture(16, 16, 8);
    let mut last_len = usize::MAX;
    let mut last_mse = -1.0f64;
    for q in [0u8, 4, 8, 12, 16] {
        let opts = CubeEncodeOptions::default().with_min_loss(q);
        let bytes = encode_icer3d(&cube, &opts).unwrap();
        let decoded = parse_icer3d(&bytes).unwrap();
        let mse: f64 = decoded
            .samples
            .iter()
            .zip(&cube.samples)
            .map(|(&d, &o)| ((d as f64) - (o as f64)).powi(2))
            .sum::<f64>()
            / cube.samples.len() as f64;
        if q == 0 {
            assert_eq!(decoded, cube, "min loss 0 must be lossless");
        }
        assert!(bytes.len() <= last_len, "bytes rose at q = {q}");
        assert!(mse >= last_mse, "error fell at q = {q}");
        last_len = bytes.len();
        last_mse = mse;
    }
    assert!(last_mse > 0.0, "sweep never became lossy");
}

#[test]
fn byte_quota_is_honoured_and_progressive() {
    let cube = hyperspectral_fixture(16, 16, 8);
    let unbounded = encode_icer3d(&cube, &CubeEncodeOptions::default()).unwrap();
    let mut last_mse = f64::INFINITY;
    for quota in [400u64, 800, 1600, 3200, unbounded.len() as u64 + 16] {
        let opts = CubeEncodeOptions::default().with_byte_quota(quota);
        let bytes = encode_icer3d(&cube, &opts).unwrap();
        assert!(bytes.len() as u64 <= quota, "quota {quota} exceeded");
        let decoded = parse_icer3d(&bytes).unwrap();
        let mse: f64 = decoded
            .samples
            .iter()
            .zip(&cube.samples)
            .map(|(&d, &o)| ((d as f64) - (o as f64)).powi(2))
            .sum::<f64>()
            / cube.samples.len() as f64;
        assert!(
            mse <= last_mse + 1e-9,
            "quality fell as quota rose ({quota}: {mse} > {last_mse})"
        );
        last_mse = mse;
    }
    assert_eq!(last_mse, 0.0, "big-enough quota must be lossless");
}

fn walk_cube_packets(bytes: &[u8]) -> Vec<Vec<(u8, usize)>> {
    let bands = u16::from_be_bytes([bytes[8], bytes[9]]) as usize;
    let segs = bytes[13] as usize;
    let mut pos = CUBE_MAGIC.len() + HEADER_BODY_BYTES;
    let mut out = Vec::with_capacity(segs);
    for _ in 0..segs {
        pos += 2 + 4 * bands;
        let count = u16::from_be_bytes([bytes[pos], bytes[pos + 1]]) as usize;
        pos += 2;
        let mut pkts = Vec::with_capacity(count);
        for _ in 0..count {
            let prio = bytes[pos];
            let len = u32::from_be_bytes([
                bytes[pos + 1],
                bytes[pos + 2],
                bytes[pos + 3],
                bytes[pos + 4],
            ]) as usize;
            pkts.push((prio, len));
            pos += PACKET_OVERHEAD + len;
        }
        out.push(pkts);
    }
    assert_eq!(pos, bytes.len(), "wire walk must consume the stream");
    out
}

#[test]
fn quota_interleaves_across_segments() {
    let cube = hyperspectral_fixture(16, 24, 6);
    for transform_domain in [false, true] {
        let mut base = CubeEncodeOptions::default().with_segment_count(3);
        if transform_domain {
            base = base.with_transform_domain_segments();
        }
        let full = encode_icer3d(&cube, &base).unwrap();
        let full_pkts = walk_cube_packets(&full);
        let floor = CUBE_MAGIC.len()
            + HEADER_BODY_BYTES
            + full_pkts.len() * segment_fixed_bytes(cube.bands as usize);

        let seg0_total: usize = full_pkts[0]
            .iter()
            .map(|&(_, len)| PACKET_OVERHEAD + len)
            .sum();
        let quota = (floor + seg0_total) as u64;
        let cut = encode_icer3d(&cube, &base.clone().with_byte_quota(quota)).unwrap();
        assert!(cut.len() as u64 <= quota);
        let cut_pkts = walk_cube_packets(&cut);

        let mut order: Vec<(usize, usize)> = full_pkts
            .iter()
            .enumerate()
            .flat_map(|(si, pkts)| (0..pkts.len()).map(move |pi| (si, pi)))
            .collect();
        order.sort_by_key(|&(si, pi)| (core::cmp::Reverse(full_pkts[si][pi].0), si));
        let mut used = floor as u64;
        let mut expect = vec![0usize; full_pkts.len()];
        for &(si, pi) in &order {
            let cost = (PACKET_OVERHEAD + full_pkts[si][pi].1) as u64;
            if used + cost > quota {
                break;
            }
            used += cost;
            expect[si] = pi + 1;
        }
        for (si, pkts) in cut_pkts.iter().enumerate() {
            assert_eq!(
                pkts.len(),
                expect[si],
                "td={transform_domain} segment {si} kept-packet count"
            );
            assert_eq!(
                pkts.as_slice(),
                &full_pkts[si][..pkts.len()],
                "td={transform_domain} segment {si} must keep a prefix"
            );
        }

        assert!(
            cut_pkts.iter().all(|p| !p.is_empty()),
            "td={transform_domain}: a segment starved under the quota: {:?}",
            cut_pkts.iter().map(Vec::len).collect::<Vec<_>>()
        );

        let ample =
            encode_icer3d(&cube, &base.clone().with_byte_quota(full.len() as u64)).unwrap();
        assert_eq!(ample, full, "td={transform_domain} ample quota");
    }
}

#[test]
fn quota_below_floor_is_refused() {
    let cube = hyperspectral_fixture(8, 8, 4);
    let opts = CubeEncodeOptions::default().with_byte_quota(10);
    assert!(matches!(
        encode_icer3d(&cube, &opts),
        Err(IcerError::Unsupported(_))
    ));
}

#[test]
fn decode_limits_apply_to_cubes() {
    let cube = hyperspectral_fixture(16, 16, 8);
    let bytes = encode_icer3d(&cube, &CubeEncodeOptions::default()).unwrap();
    let tight = DecodeLimits {
        max_pixels_per_segment: 64,
        max_total_pixels: 64,
    };
    assert!(matches!(
        parse_icer3d_with_limits(&bytes, &tight),
        Err(IcerError::Unsupported(_))
    ));

    let ok = parse_icer3d_with_limits(&bytes, &DecodeLimits::unlimited()).unwrap();
    assert_eq!(ok, cube);
}

#[test]
fn truncated_and_corrupt_streams_error_cleanly() {
    let cube = hyperspectral_fixture(12, 12, 4);
    let bytes = encode_icer3d(&cube, &CubeEncodeOptions::default()).unwrap();

    for n in 0..bytes.len() {
        let _ = parse_icer3d(&bytes[..n]);
    }

    assert!(matches!(
        parse_icer3d(&[0x12, 0x34, 0x00, 0x00]),
        Err(IcerError::InvalidData(_))
    ));
}

#[test]
fn transform_domain_lossless_roundtrip() {
    let cube = hyperspectral_fixture(20, 18, 7);
    for segs in [1u8, 2, 3, 4, 7] {
        for interleaved in [false, true] {
            let mut opts = CubeEncodeOptions::default()
                .with_transform_domain_segments()
                .with_segment_count(segs);
            if interleaved {
                opts = opts.with_interleaved_entropy();
            }
            let bytes = encode_icer3d(&cube, &opts).unwrap();
            let decoded = parse_icer3d(&bytes).unwrap();
            assert_eq!(decoded, cube, "{segs} segments interleaved={interleaved}");
        }
    }
}

#[test]
fn transform_domain_all_filters_lossless() {
    let cube = hyperspectral_fixture(13, 11, 5);
    for filter in [
        WaveletFilter::FilterQ,
        WaveletFilter::FilterA,
        WaveletFilter::FilterB,
        WaveletFilter::FilterC,
        WaveletFilter::FilterD,
        WaveletFilter::FilterE,
        WaveletFilter::FilterF,
    ] {
        let opts = CubeEncodeOptions::default()
            .with_transform_domain_segments()
            .with_segment_count(4)
            .with_filter(filter);
        let decoded = parse_icer3d(&encode_icer3d(&cube, &opts).unwrap()).unwrap();
        assert_eq!(decoded, cube, "{filter:?}");
    }
}

#[test]
fn transform_domain_degenerate_geometries_roundtrip() {
    for (w, h, bands, levels, segs) in [
        (5u32, 40u32, 4u32, 3u8, 3u8),
        (40, 5, 4, 3, 3),
        (16, 16, 1, 5, 4),
        (7, 7, 7, 6, 2),
        (3, 3, 3, 1, 2),
    ] {
        let cube = hyperspectral_fixture(w, h, bands);
        let opts = CubeEncodeOptions::default()
            .with_transform_domain_segments()
            .with_segment_count(segs)
            .with_levels(levels);
        let decoded = parse_icer3d(&encode_icer3d(&cube, &opts).unwrap()).unwrap();
        assert_eq!(decoded, cube, "{w}x{h}x{bands} L{levels} s{segs}");
    }
}

#[test]
fn transform_domain_wire_flag_and_strip_field() {
    let cube = hyperspectral_fixture(16, 16, 4);
    let td = encode_icer3d(
        &cube,
        &CubeEncodeOptions::default()
            .with_transform_domain_segments()
            .with_segment_count(4),
    )
    .unwrap();
    let flags_off = CUBE_MAGIC.len() + HEADER_BODY_BYTES - 1;
    let strip_off = flags_off - 2;
    assert_eq!(td[flags_off] & 0b10, 0b10);
    assert_eq!(&td[strip_off..strip_off + 2], &[0, 0]);

    let rows = encode_icer3d(&cube, &CubeEncodeOptions::default()).unwrap();
    assert_eq!(rows[flags_off] & 0b10, 0);

    let mut bad = td.clone();
    bad[strip_off + 1] = 1;
    assert!(matches!(parse_icer3d(&bad), Err(IcerError::InvalidData(_))));
}

#[test]
fn transform_domain_segment_count_beyond_eq9_is_refused() {
    let cube = hyperspectral_fixture(16, 16, 4);
    let opts = CubeEncodeOptions::default()
        .with_transform_domain_segments()
        .with_segment_count(5);
    assert!(matches!(
        encode_icer3d(&cube, &opts),
        Err(IcerError::Unsupported(_))
    ));

    let opts = CubeEncodeOptions::default()
        .with_transform_domain_segments()
        .with_segment_count(4);
    assert_eq!(
        parse_icer3d(&encode_icer3d(&cube, &opts).unwrap()).unwrap(),
        cube
    );
}

#[test]
fn transform_domain_quota_and_min_loss_compose() {
    let cube = hyperspectral_fixture(16, 16, 8);
    let base = CubeEncodeOptions::default()
        .with_transform_domain_segments()
        .with_segment_count(4);

    let unbounded = encode_icer3d(&cube, &base).unwrap();
    let mut last_mse = f64::INFINITY;
    for quota in [500u64, 1000, 2000, 4000, unbounded.len() as u64 + 16] {
        let bytes = encode_icer3d(&cube, &base.clone().with_byte_quota(quota)).unwrap();
        assert!(bytes.len() as u64 <= quota);
        let decoded = parse_icer3d(&bytes).unwrap();
        let mse: f64 = decoded
            .samples
            .iter()
            .zip(&cube.samples)
            .map(|(&d, &o)| ((d as f64) - (o as f64)).powi(2))
            .sum::<f64>()
            / cube.samples.len() as f64;
        assert!(mse <= last_mse + 1e-9, "quality fell at quota {quota}");
        last_mse = mse;
    }
    assert_eq!(last_mse, 0.0);

    let mut last_len = usize::MAX;
    let mut last_err = -1.0f64;
    for q in [0u8, 4, 8, 12] {
        let bytes = encode_icer3d(&cube, &base.clone().with_min_loss(q)).unwrap();
        let decoded = parse_icer3d(&bytes).unwrap();
        let mse: f64 = decoded
            .samples
            .iter()
            .zip(&cube.samples)
            .map(|(&d, &o)| ((d as f64) - (o as f64)).powi(2))
            .sum::<f64>()
            / cube.samples.len() as f64;
        if q == 0 {
            assert_eq!(decoded, cube);
        }
        assert!(bytes.len() <= last_len, "bytes rose at q = {q}");
        assert!(mse >= last_err, "error fell at q = {q}");
        last_len = bytes.len();
        last_err = mse;
    }
    assert!(last_err > 0.0);
}

#[test]
fn transform_domain_truncation_and_corruption_never_panic() {
    let cube = hyperspectral_fixture(12, 12, 5);
    let bytes = encode_icer3d(
        &cube,
        &CubeEncodeOptions::default()
            .with_transform_domain_segments()
            .with_segment_count(3),
    )
    .unwrap();
    for n in 0..bytes.len() {
        let _ = parse_icer3d(&bytes[..n]);
    }
    for i in 0..bytes.len() {
        let mut corrupt = bytes.clone();
        corrupt[i] ^= 0x80;
        let _ = parse_icer3d(&corrupt);
    }
}

fn segment_end_offsets(bytes: &[u8]) -> Vec<usize> {
    let bands = u16::from_be_bytes([bytes[8], bytes[9]]) as usize;
    let segs = bytes[13] as usize;
    let mut pos = CUBE_MAGIC.len() + HEADER_BODY_BYTES;
    let mut out = Vec::with_capacity(segs);
    for _ in 0..segs {
        let count_off = pos + 2 + 4 * bands;
        let count = u16::from_be_bytes([bytes[count_off], bytes[count_off + 1]]) as usize;
        pos = count_off + 2;
        for _ in 0..count {
            let len = u32::from_be_bytes([
                bytes[pos + 1],
                bytes[pos + 2],
                bytes[pos + 3],
                bytes[pos + 4],
            ]) as usize;
            pos += PACKET_OVERHEAD + len;
        }
        out.push(pos);
    }
    assert_eq!(pos, bytes.len());
    out
}

fn cube_mse(a: &IcerCube, b: &IcerCube) -> f64 {
    a.samples
        .iter()
        .zip(&b.samples)
        .map(|(&x, &y)| ((x as f64) - (y as f64)).powi(2))
        .sum::<f64>()
        / a.samples.len() as f64
}

#[test]
fn lenient_matches_strict_on_intact_streams() {
    let cube = hyperspectral_fixture(16, 18, 6);
    for opts in [
        CubeEncodeOptions::default().with_segment_count(3),
        CubeEncodeOptions::default()
            .with_transform_domain_segments()
            .with_segment_count(4),
    ] {
        let bytes = encode_icer3d(&cube, &opts).unwrap();
        let strict = parse_icer3d(&bytes).unwrap();
        let lenient = parse_icer3d_lenient(&bytes).unwrap();
        assert_eq!(lenient.cube, strict);
        assert!(!lenient.truncated);
        assert_eq!(lenient.segments_received, lenient.packets_received.len());
        assert!(lenient.packets_received.iter().all(|&n| n > 0));
    }
}

#[test]
fn lenient_salvages_every_truncation_point() {
    let cube = hyperspectral_fixture(16, 16, 6);
    for opts in [
        CubeEncodeOptions::default().with_segment_count(4),
        CubeEncodeOptions::default()
            .with_transform_domain_segments()
            .with_segment_count(4),
    ] {
        let bytes = encode_icer3d(&cube, &opts).unwrap();
        let header_end = CUBE_MAGIC.len() + HEADER_BODY_BYTES;
        for n in header_end..bytes.len() {
            let l = parse_icer3d_lenient(&bytes[..n]).unwrap();
            assert!(l.truncated, "prefix {n} must report truncation");
            assert!(matches!(
                parse_icer3d(&bytes[..n]),
                Err(IcerError::Truncated)
            ));
        }

        let mut last = f64::INFINITY;
        for &end in &segment_end_offsets(&bytes) {
            let l = parse_icer3d_lenient(&bytes[..end]).unwrap();
            let e = cube_mse(&l.cube, &cube);
            assert!(e <= last + 1e-9, "quality fell at boundary {end}");
            last = e;
        }
        assert_eq!(last, 0.0, "all segments received must be exact");
    }
}

#[test]
fn lenient_reports_what_arrived() {
    let cube = hyperspectral_fixture(16, 16, 6);
    let opts = CubeEncodeOptions::default()
        .with_transform_domain_segments()
        .with_segment_count(4);
    let bytes = encode_icer3d(&cube, &opts).unwrap();
    let full = parse_icer3d_lenient(&bytes).unwrap();
    let ends = segment_end_offsets(&bytes);

    let cut = ends[1] + 3;
    let l = parse_icer3d_lenient(&bytes[..cut]).unwrap();
    assert!(l.truncated);
    assert_eq!(l.segments_received, 2);
    assert_eq!(l.packets_received[0], full.packets_received[0]);
    assert_eq!(l.packets_received[1], full.packets_received[1]);
    assert_eq!(&l.packets_received[2..], &[0, 0]);

    let cut = (CUBE_MAGIC.len() + HEADER_BODY_BYTES + ends[0]) / 2;
    let l = parse_icer3d_lenient(&bytes[..cut]).unwrap();
    assert!(l.truncated);
    assert_eq!(l.segments_received, 1);
    assert!(l.packets_received[0] > 0);
    assert!(l.packets_received[0] < full.packets_received[0]);

    let nothing = parse_icer3d_lenient(&bytes[..CUBE_MAGIC.len() + HEADER_BODY_BYTES]).unwrap();
    assert!(cube_mse(&l.cube, &cube) < cube_mse(&nothing.cube, &cube));
}

#[test]
fn lenient_survives_corrupt_bodies() {
    let cube = hyperspectral_fixture(12, 12, 4);
    let opts = CubeEncodeOptions::default()
        .with_transform_domain_segments()
        .with_segment_count(2);
    let bytes = encode_icer3d(&cube, &opts).unwrap();
    for i in 0..bytes.len() {
        let mut corrupt = bytes.clone();
        corrupt[i] ^= 0xFF;
        let _ = parse_icer3d_lenient(&corrupt);
    }
    for n in 0..bytes.len() {
        let _ = parse_icer3d_lenient(&bytes[..n]);
    }
}

#[test]
fn sixteen_bit_and_one_bit_depths_roundtrip() {
    let mut deep = IcerCube::zeros(9, 7, 5, 16);
    for (i, s) in deep.samples.iter_mut().enumerate() {
        *s = ((i * 40503) % 65536) as u16;
    }
    let decoded =
        parse_icer3d(&encode_icer3d(&deep, &CubeEncodeOptions::default()).unwrap()).unwrap();
    assert_eq!(decoded, deep);

    let mut binary = IcerCube::zeros(8, 8, 4, 1);
    for (i, s) in binary.samples.iter_mut().enumerate() {
        *s = ((i / 3) % 2) as u16;
    }
    let decoded =
        parse_icer3d(&encode_icer3d(&binary, &CubeEncodeOptions::default()).unwrap()).unwrap();
    assert_eq!(decoded, binary);
}

#[test]
fn minimum_keeps_the_first_packets_of_every_segment() {
    let cube = hyperspectral_fixture(24, 20, 6);
    for transform_domain in [false, true] {
        let mut base = CubeEncodeOptions::default().with_segment_count(3);
        if transform_domain {
            base = base.with_transform_domain_segments();
        }
        let all = walk_cube_packets(&encode_icer3d(&cube, &base).unwrap());
        for floor in [1u8, 3, 6, 9, 40, 255] {
            let opts = base.clone().with_min_loss(floor);
            let some = walk_cube_packets(&encode_icer3d(&cube, &opts).unwrap());
            assert_eq!(some.len(), all.len());
            for (s, a) in some.iter().zip(all.iter()) {
                let reach: Vec<(u8, usize)> = a.iter().copied().filter(|p| p.0 >= floor).collect();
                assert_eq!(*s, reach);
                assert_eq!(s[..], a[..s.len()]);
                assert!(s.windows(2).all(|w| w[0].0 > w[1].0));
            }
        }
    }
}

#[test]
fn quota_stops_at_the_first_packet_that_does_not_fit() {
    let cube = hyperspectral_fixture(16, 24, 5);
    let base = CubeEncodeOptions::default().with_segment_count(3);
    let full = encode_icer3d(&cube, &base).unwrap();
    let all = walk_cube_packets(&full);
    let mut line: Vec<(u8, usize, usize)> = Vec::new();
    for (s, packets) in all.iter().enumerate() {
        for p in packets {
            line.push((p.0, s, p.1));
        }
    }
    line.sort_by(|a, b| b.0.cmp(&a.0).then_with(|| a.1.cmp(&b.1)));
    let floor = CUBE_MAGIC.len() + HEADER_BODY_BYTES + all.len() * segment_fixed_bytes(5);
    let below = base.clone().with_byte_quota(floor as u64 - 1);
    assert!(matches!(encode_icer3d(&cube, &below), Err(IcerError::Unsupported(_))));
    let mut used = floor;
    for n in 0..line.len() {
        let cost = PACKET_OVERHEAD + line[n].2;
        for quota in [used, used + cost - 1] {
            let bytes = encode_icer3d(&cube, &base.clone().with_byte_quota(quota as u64)).unwrap();
            assert_eq!(bytes.len(), used);
            let kept = walk_cube_packets(&bytes);
            for (s, packets) in kept.iter().enumerate() {
                let due = line[..n].iter().filter(|p| p.1 == s).count();
                assert_eq!(packets[..], all[s][..due]);
            }
        }
        used += cost;
    }
    assert_eq!(used, full.len());
    let ample = base.clone().with_byte_quota(full.len() as u64);
    assert_eq!(encode_icer3d(&cube, &ample).unwrap(), full);
}
