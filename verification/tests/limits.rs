use icer::analyze::analyze;
use icer::bitplane::{decode_bitplanes_filtered, encode_bitplanes_filtered, select_bit_plane_count, BitPlaneInput};
use icer::cube::{encode_icer3d, is_cube, CubeEncodeOptions, IcerCube};
use icer::cube_decode::parse_icer3d;
use icer::decoder::parse_icer;
use icer::encoder::{encode_icer, EncodeOptions};
use icer::entropy::EntropyKind;
use icer::error::IcerError;
use icer::header::WaveletFilter;
use icer::image::{IcerImage, IcerPixelFormat};
use icer::ixec::ComponentCode;
use icer::partition::{coefficient_segment_map, partition};
use icer::plane_container::is_container;
use icer::priority::SubbandType;
use icer::scan::ScanFilter;
use icer::wavelet_int::inverse_2d_dyadic;

fn noise(n: usize, range: i32) -> Vec<i32> {
    let mut state: u32 = 0x2468_ACE1;
    (0..n)
        .map(|_| {
            state = state.wrapping_mul(1_664_525).wrapping_add(1_013_904_223);
            (state >> 8) as i32 % range - range / 2
        })
        .collect()
}

fn image() -> IcerImage {
    let mut image = IcerImage::zeros(32, 24, IcerPixelFormat::Gray8);
    for (i, v) in noise(32 * 24, 256).into_iter().enumerate() {
        image.planes[0].data[i] = (v + 128) as u8;
    }
    image
}

fn cube() -> IcerCube {
    let mut cube = IcerCube::zeros(8, 6, 4, 10);
    for (i, v) in noise(8 * 6 * 4, 1024).into_iter().enumerate() {
        cube.samples[i] = (v + 512) as u16;
    }
    cube
}

#[test]
fn windows_change_no_packet() {
    let (w, h, levels) = (24usize, 16usize, 2u8);
    let coeffs = noise(w * h, 300);
    let q = select_bit_plane_count(&coeffs);
    let map = coefficient_segment_map(w, h, levels, 4).unwrap();
    let rects = partition(6, 4, 4).unwrap();
    let input = BitPlaneInput { coeffs: &coeffs, width: w, height: h, q, levels };
    for k in 0..4u16 {
        let window = rects[k as usize].image_window(levels, w, h);
        let wide = ScanFilter { segment: Some((&map, k)), skip: None, window: None };
        let narrow = ScanFilter { segment: Some((&map, k)), skip: None, window: Some(window) };
        let a = encode_bitplanes_filtered(&input, EntropyKind::Arithmetic, &wide).unwrap();
        let b = encode_bitplanes_filtered(&input, EntropyKind::Arithmetic, &narrow).unwrap();
        assert_eq!(a.len(), b.len());
        for (x, y) in a.iter().zip(b.iter()) {
            assert_eq!(x.body, y.body, "segment {k}");
        }
    }
}

#[test]
fn skipped_bits_leave_a_small_error() {
    let (w, h) = (10usize, 9usize);
    let coeffs = noise(w * h, 500);
    let q = select_bit_plane_count(&coeffs);
    for bits in 0..5u8 {
        let skip = vec![bits; w * h];
        let filter = ScanFilter { segment: None, skip: Some(&skip), window: None };
        let input = BitPlaneInput { coeffs: &coeffs, width: w, height: h, q, levels: 1 };
        let packets = encode_bitplanes_filtered(&input, EntropyKind::Interleaved, &filter).unwrap();
        let out =
            decode_bitplanes_filtered(&packets, w, h, q, 1, EntropyKind::Interleaved, &filter)
                .unwrap();
        for (a, b) in coeffs.iter().zip(out.iter()) {
            assert!((a - b).abs() < 1 << bits, "{a} {b} {bits}");
        }
    }
}

#[test]
fn ample_budgets_leave_the_stream_as_it_is() {
    let image = image();
    let whole = encode_icer(&image, &EncodeOptions::compressed()).unwrap();
    let n = whole.len() as u64;
    for b in [n, n + 1, 10 * n] {
        let opts = EncodeOptions::compressed().with_byte_budget(b);
        assert_eq!(encode_icer(&image, &opts).unwrap(), whole);
    }
}

#[test]
fn small_budgets_cut_off_the_end() {
    let image = image();
    let whole = encode_icer(&image, &EncodeOptions::compressed()).unwrap();
    for b in [12u64, 60, 150, 400] {
        let opts = EncodeOptions::compressed().with_byte_budget(b);
        let cut = encode_icer(&image, &opts).unwrap();
        assert!(cut.len() as u64 <= b);
        assert_eq!(cut[12..], whole[12..cut.len()], "budget {b}");
    }
}

#[test]
fn ample_quotas_leave_the_cube_as_it_is() {
    let cube = cube();
    let whole = encode_icer3d(&cube, &CubeEncodeOptions::default()).unwrap();
    let opts = CubeEncodeOptions::default().with_byte_quota(whole.len() as u64);
    assert_eq!(encode_icer3d(&cube, &opts).unwrap(), whole);
}

#[test]
fn every_cut_cube_is_truncated() {
    let whole = encode_icer3d(&cube(), &CubeEncodeOptions::default()).unwrap();
    for n in 0..whole.len() {
        assert!(matches!(parse_icer3d(&whole[..n]), Err(IcerError::Truncated)), "{n}");
    }
    assert_eq!(parse_icer3d(&whole).unwrap(), cube());
}

#[test]
fn no_coefficients_give_no_samples() {
    let mut zeros = vec![0i32; 15 * 11];
    inverse_2d_dyadic(&mut zeros, 15, 11, 3, WaveletFilter::FilterC);
    assert_eq!(zeros, vec![0i32; 15 * 11]);
}

#[test]
fn cubes_containers_and_planes_are_told_apart() {
    let plane = encode_icer(&image(), &EncodeOptions::compressed()).unwrap();
    assert!(!is_container(&plane) && !is_cube(&plane));
    let deep = IcerImage::zeros(6, 5, IcerPixelFormat::GrayDeep { bits: 12 });
    let container = encode_icer(&deep, &EncodeOptions::compressed()).unwrap();
    assert!(is_container(&container) && !is_cube(&container));
    let stream = encode_icer3d(&cube(), &CubeEncodeOptions::default()).unwrap();
    assert!(is_cube(&stream));
    assert!(matches!(parse_icer(&stream), Err(IcerError::InvalidData(_))));
}

#[test]
fn filter_of_the_statistics_is_used() {
    let image = image();
    let (_, filter) = analyze(&image);
    let mut chosen = EncodeOptions::compressed();
    chosen.filter = filter;
    assert_eq!(
        encode_icer(&image, &EncodeOptions::compressed().with_auto_filter()).unwrap(),
        encode_icer(&image, &chosen).unwrap()
    );
}

#[test]
fn longest_inputs_and_ranks() {
    assert_eq!(ComponentCode::golomb(5).max_input_len(), 5);
    let ranks = [SubbandType::Ll, SubbandType::Hl, SubbandType::Lh, SubbandType::Hh]
        .map(SubbandType::order_rank);
    assert_eq!(ranks, [0, 1, 2, 3]);
}
