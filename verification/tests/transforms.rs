use icer::arith::{ArithDecoder, ArithEncoder};
use icer::bitplane::{encode_bitplanes, select_bit_plane_count, BitPlaneInput};
use icer::error::IcerError;
use icer::header::WaveletFilter;
use icer::interleave::{IxecDecoder, IxecEncoder};
use icer::ixec::{bin_for_probability, bins, ComponentCode};
use icer::partition::{coefficient_segment_map, partition};
use icer::priority::SubbandType;
use icer::rd::{encode_bitplanes_weighted, subband_weight_map};
use icer::subband3d::{enumerate_subbands, plane_with_priority, stage_counts};
use icer::wavelet3d::{forward_3d, inverse_3d};
use icer::wavelet_int::{forward_2d_dyadic, has_integer_transform, inverse_2d_dyadic};

fn noise(n: usize, range: i32, seed: u32) -> Vec<i32> {
    let mut state = seed;
    (0..n)
        .map(|_| {
            state = state.wrapping_mul(1_664_525).wrapping_add(1_013_904_223);
            (state >> 8) as i32 % range - range / 2
        })
        .collect()
}

#[test]
fn a_line_becomes_averages_and_predicted_differences() {
    let mut line = vec![1, 5, 2, 8, 3, 9];
    forward_2d_dyadic(&mut line, 6, 1, 1, WaveletFilter::FilterQ);
    assert_eq!(line, vec![3, -3, 5, -7, 6, -5]);
    inverse_2d_dyadic(&mut line, 6, 1, 1, WaveletFilter::FilterQ);
    assert_eq!(line, vec![1, 5, 2, 8, 3, 9]);
    forward_2d_dyadic(&mut line, 6, 1, 1, WaveletFilter::FilterA);
    assert_eq!(line, vec![3, -3, 5, -5, 6, -5]);
}

#[test]
fn a_square_becomes_one_average() {
    let mut square = vec![10, 4, 2, 8];
    forward_2d_dyadic(&mut square, 2, 2, 1, WaveletFilter::FilterQ);
    assert_eq!(square, vec![6, 0, 2, 12]);
}

#[test]
fn every_integer_filter_is_reversible() {
    for filter in [
        WaveletFilter::FilterQ,
        WaveletFilter::FilterA,
        WaveletFilter::FilterB,
        WaveletFilter::FilterC,
        WaveletFilter::FilterD,
        WaveletFilter::FilterE,
        WaveletFilter::FilterF,
    ] {
        assert!(has_integer_transform(filter));
        for (w, h) in [(1usize, 1usize), (1, 9), (7, 2), (13, 11), (32, 16)] {
            let image = noise(w * h, 60_000, 7);
            let mut buf = image.clone();
            forward_2d_dyadic(&mut buf, w, h, 4, filter);
            inverse_2d_dyadic(&mut buf, w, h, 4, filter);
            assert_eq!(buf, image, "{filter:?} {w}x{h}");
            let cube = noise(w * h * 5, 60_000, 9);
            let mut buf = cube.clone();
            forward_3d(&mut buf, w, h, 5, 3, filter);
            inverse_3d(&mut buf, w, h, 5, 3, filter);
            assert_eq!(buf, cube, "{filter:?} {w}x{h}x5");
        }
    }
    assert!(!has_integer_transform(WaveletFilter::FilterG));
}

#[test]
fn stages_stop_at_two_samples() {
    assert_eq!(stage_counts(16, 12, 8, 3), (3, 2));
    assert_eq!(stage_counts(2, 12, 1, 3), (0, 0));
    assert_eq!(stage_counts(64, 64, 64, 2), (2, 2));
}

#[test]
fn subbands_of_a_cube_are_counted() {
    let all = enumerate_subbands(2, 3);
    assert_eq!(all.len(), 7 * 4);
    for (i, a) in all.iter().enumerate() {
        for b in &all[..i] {
            assert_ne!(a, b);
        }
    }
    let last = all[all.len() - 1];
    assert_eq!(last.spatial.kind, SubbandType::Ll);
    assert_eq!(last.spectral.kind, SubbandType::Ll);
    assert_eq!(last.base_priority(2, 3), 2 * 2 + 3 + 3);
    assert!(all.iter().all(|s| s.base_priority(2, 3) <= 10));
}

#[test]
fn planes_descend_by_two() {
    assert_eq!(plane_with_priority(5, 3, 4), None);
    assert_eq!(plane_with_priority(5, 3, 5), Some(0));
    assert_eq!(plane_with_priority(5, 3, 6), None);
    assert_eq!(plane_with_priority(5, 3, 9), Some(2));
    assert_eq!(plane_with_priority(5, 3, 11), None);
}

#[test]
fn arithmetic_coder_reads_back_at_every_estimate() {
    for (num, den) in [(1u32, 2u32), (1, 250), (249, 250), (3, 7)] {
        let symbols: Vec<u8> = noise(400, 64, num).iter().map(|v| (*v > 10) as u8).collect();
        let mut enc = ArithEncoder::new();
        for &s in &symbols {
            enc.encode_bit(s, num, den);
        }
        let bytes = enc.finish();
        let mut dec = ArithDecoder::new(&bytes).unwrap();
        for &s in &symbols {
            assert_eq!(dec.decode_bit(num, den).unwrap(), s);
        }
    }
}

#[test]
fn interleaved_coder_reads_back_mixed_estimates() {
    let symbols: Vec<u8> = noise(900, 64, 5).iter().map(|v| (*v > 20) as u8).collect();
    let estimate = |i: usize| [(1u32, 2u32), (1, 5), (1, 40), (7, 8), (30, 31)][i % 5];
    let mut enc = IxecEncoder::new();
    for (i, &s) in symbols.iter().enumerate() {
        let (num, den) = estimate(i);
        enc.encode_bit(s, num, den);
    }
    let bytes = enc.finish();
    let mut dec = IxecDecoder::new(&bytes);
    for (i, &s) in symbols.iter().enumerate() {
        let (num, den) = estimate(i);
        assert_eq!(dec.decode_bit(num, den), s, "symbol {i}");
    }
}

#[test]
fn bins_go_from_even_to_certain() {
    assert_eq!(bins().len(), 17);
    let mut last = 0u8;
    for k in 0..500u32 {
        let j = bin_for_probability(500 + k, 1000);
        assert!(j >= last, "estimate {k}");
        last = j;
    }
    let golomb = ComponentCode::golomb(3);
    let (word, used) = golomb.encode_one(&[false, false, false, true]).unwrap();
    assert_eq!(golomb.decode_one(&word).unwrap(), (vec![false; used], word.len()));
}

#[test]
fn weights_do_not_change_the_packets() {
    let coeffs = noise(64, 200, 11);
    let input = BitPlaneInput {
        coeffs: &coeffs,
        width: 8,
        height: 8,
        q: select_bit_plane_count(&coeffs),
        levels: 2,
    };
    let plain = encode_bitplanes(&input).unwrap();
    let map = subband_weight_map(8, 8, 2, WaveletFilter::FilterQ);
    for weights in [None, Some(map.as_slice())] {
        let (packets, promised) = encode_bitplanes_weighted(&input, weights).unwrap();
        assert_eq!(packets.len(), plain.len());
        assert_eq!(promised.len(), plain.len());
        for (a, b) in packets.iter().zip(&plain) {
            assert_eq!(a.body, b.body);
        }
    }
    assert!(matches!(
        encode_bitplanes_weighted(&input, Some(&map[..63])),
        Err(IcerError::InvalidData(_))
    ));
}

#[test]
fn flat_promises_count_squares() {
    let coeffs = vec![5, 0, -2, 1];
    let input = BitPlaneInput {
        coeffs: &coeffs,
        width: 2,
        height: 2,
        q: 3,
        levels: 0,
    };
    let (packets, promised) = encode_bitplanes_weighted(&input, None).unwrap();
    assert_eq!(packets.len(), 6);
    let unit = 4096u128;
    assert_eq!(
        promised,
        vec![
            8 * 16 * unit, // 5 shows in plane 2
            0,
            8 * 4 * unit, // -2 shows in plane 1
            4 * unit,     // a bit of 5
            8 * unit,     // 1 shows in plane 0
            2 * unit,     // bits of 5 and -2
        ]
    );
}

#[test]
fn segment_maps_follow_the_partition() {
    let map = coefficient_segment_map(16, 16, 1, 4).unwrap();
    let rects = partition(8, 8, 4).unwrap();
    for y in 0..16usize {
        for x in 0..16usize {
            let (lx, ly) = (x / 2, y / 2);
            let k = map[y * 16 + x] as usize;
            let r = &rects[k];
            assert!(r.x <= lx && lx < r.x + r.width);
            assert!(r.y <= ly && ly < r.y + r.height);
        }
    }
}
