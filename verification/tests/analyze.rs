use icer::analyze::{ImageStats, analyze, recommend_filter, supported_for_analysis};
use icer::header::WaveletFilter;
use icer::image::{IcerImage, IcerPixelFormat};
use icer::similarity::{WindowScore, ssim};

fn flat_image(w: u32, h: u32, value: u8) -> IcerImage {
    let mut img = IcerImage::zeros(w, h, IcerPixelFormat::Gray8);
    for byte in img.planes[0].data.iter_mut() {
        *byte = value;
    }
    img
}

fn ramp_image(w: u32, h: u32) -> IcerImage {
    let mut img = IcerImage::zeros(w, h, IcerPixelFormat::Gray8);
    let stride = img.planes[0].stride;
    for y in 0..h as usize {
        for x in 0..w as usize {
            img.planes[0].data[y * stride + x] = ((x + y) & 0xFF) as u8;
        }
    }
    img
}

fn checkerboard_image(w: u32, h: u32) -> IcerImage {
    let mut img = IcerImage::zeros(w, h, IcerPixelFormat::Gray8);
    let stride = img.planes[0].stride;
    for y in 0..h as usize {
        for x in 0..w as usize {
            let v = if (x ^ y) & 1 == 0 { 0u8 } else { 255u8 };
            img.planes[0].data[y * stride + x] = v;
        }
    }
    img
}

fn mean(s: &ImageStats) -> f64 {
    s.sum as f64 / s.pixels as f64
}

fn variance(s: &ImageStats) -> f64 {
    s.sum_of_squares as f64 / s.pixels as f64 - mean(s) * mean(s)
}

fn h_gradient_energy(s: &ImageStats) -> f64 {
    s.h_gradient as f64 / s.h_pairs as f64
}

fn v_gradient_energy(s: &ImageStats) -> f64 {
    s.v_gradient as f64 / s.v_pairs as f64
}

fn edge_energy(s: &ImageStats) -> f64 {
    let h = h_gradient_energy(s);
    let v = v_gradient_energy(s);
    (h * h + v * v).sqrt()
}

#[test]
fn stats_flat_image_is_zero_variance_zero_gradient() {
    let img = flat_image(16, 16, 128);
    let s = ImageStats::from_image(&img);
    assert_eq!(mean(&s), 128.0);
    assert!(
        variance(&s).abs() < 1e-3,
        "variance should be ~0, got {}",
        variance(&s)
    );
    assert_eq!(h_gradient_energy(&s), 0.0);
    assert_eq!(v_gradient_energy(&s), 0.0);
    assert_eq!(edge_energy(&s), 0.0);
    assert_eq!(s.dynamic_range, 0);
}

#[test]
fn stats_ramp_image_has_nonzero_gradients() {
    let img = ramp_image(8, 8);
    let s = ImageStats::from_image(&img);
    assert!(variance(&s) > 0.0);

    assert!((h_gradient_energy(&s) - 1.0).abs() < 0.01);
    assert!((v_gradient_energy(&s) - 1.0).abs() < 0.01);
    assert!(s.dynamic_range > 0);
}

#[test]
fn stats_checkerboard_has_high_edge_energy() {
    let img = checkerboard_image(16, 16);
    let s = ImageStats::from_image(&img);

    assert!(h_gradient_energy(&s) > 200.0);
    assert!(v_gradient_energy(&s) > 200.0);
    assert!(edge_energy(&s) > 300.0);
    assert_eq!(s.dynamic_range, 255);
}

#[test]
fn recommend_flat_picks_q() {
    let img = flat_image(16, 16, 128);
    let s = ImageStats::from_image(&img);
    assert_eq!(recommend_filter(&s), WaveletFilter::Reversible53);
}

#[test]
fn recommend_ramp_picks_q_for_low_edge_energy() {
    let img = ramp_image(16, 16);
    let s = ImageStats::from_image(&img);
    assert_eq!(recommend_filter(&s), WaveletFilter::Reversible53);
}

#[test]
fn recommend_checkerboard_picks_filter_a() {
    let img = checkerboard_image(16, 16);
    let s = ImageStats::from_image(&img);
    assert_eq!(recommend_filter(&s), WaveletFilter::NineSevenA);
}

#[test]
fn analyze_returns_stats_and_recommendation() {
    let img = ramp_image(8, 8);
    let (s, f) = analyze(&img);

    assert!(variance(&s) > 0.0);
    assert_eq!(f, WaveletFilter::Reversible53);
}

#[test]
fn supported_for_analysis_basics() {
    let img = flat_image(4, 4, 128);
    assert!(supported_for_analysis(&img));
}

fn mean_score(scores: &[WindowScore]) -> f64 {
    if scores.is_empty() {
        return 1.0;
    }
    let sum: f64 = scores
        .iter()
        .map(|s| s.numerator as f64 / s.denominator as f64)
        .sum();
    sum / scores.len() as f64
}

#[test]
fn ssim_identical_is_one() {
    let img = ramp_image(32, 32);
    let s = mean_score(&ssim(&img, &img).unwrap());
    assert!(
        (s - 1.0).abs() < 1e-9,
        "identical ssim should be 1.0, got {s}"
    );
}

#[test]
fn ssim_flat_identical_is_one() {
    let img = flat_image(16, 16, 100);
    let s = mean_score(&ssim(&img, &img).unwrap());
    assert!((s - 1.0).abs() < 1e-9, "flat identical ssim, got {s}");
}

#[test]
fn ssim_small_image_below_window_is_one() {
    let img = ramp_image(4, 4);
    let s = mean_score(&ssim(&img, &img).unwrap());
    assert!((s - 1.0).abs() < 1e-9, "sub-window identical ssim, got {s}");
}

#[test]
fn ssim_degraded_is_below_identical() {
    let img = ramp_image(32, 32);
    let mut noisy = img.clone();
    let stride = noisy.planes[0].stride;
    let mut state: u32 = 0x1234_5678;
    for y in 0..32usize {
        for x in 0..32usize {
            state = state.wrapping_mul(1_664_525).wrapping_add(1_013_904_223);
            let noise = ((state >> 24) as i32 % 41) - 20;
            let v = img.planes[0].data[y * stride + x] as i32 + noise;
            noisy.planes[0].data[y * stride + x] = v.clamp(0, 255) as u8;
        }
    }
    let s = mean_score(&ssim(&img, &noisy).unwrap());
    assert!(s < 1.0, "noisy ssim should be < 1.0, got {s}");
    assert!(s > -1.0, "ssim should stay in range, got {s}");
}

#[test]
fn ssim_more_noise_scores_lower() {
    let img = ramp_image(48, 48);
    let stride = img.planes[0].stride;
    let make_offset = |delta: i32| {
        let mut out = img.clone();
        for y in 0..48usize {
            for x in 0..48usize {
                let sign = if (x ^ y) & 1 == 0 { 1 } else { -1 };
                let v = img.planes[0].data[y * stride + x] as i32 + sign * delta;
                out.planes[0].data[y * stride + x] = v.clamp(0, 255) as u8;
            }
        }
        out
    };
    let light = mean_score(&ssim(&img, &make_offset(5)).unwrap());
    let heavy = mean_score(&ssim(&img, &make_offset(30)).unwrap());
    assert!(
        heavy < light,
        "heavier corruption should score lower: heavy {heavy} vs light {light}"
    );
}

#[test]
fn ssim_geometry_mismatch_errs() {
    let a = ramp_image(16, 16);
    let b = ramp_image(16, 8);
    assert!(ssim(&a, &b).is_err());
}

#[test]
fn ssim_zero_pixel_image_is_one() {
    let a = IcerImage::zeros(0, 0, IcerPixelFormat::Gray8);
    assert_eq!(mean_score(&ssim(&a, &a).unwrap()), 1.0);
}

#[test]
fn scores_are_exact_fractions() {
    let one = ssim(&flat_image(1, 1, 10), &flat_image(1, 1, 20)).unwrap();
    assert_eq!(
        one,
        vec![WindowScore {
            numerator: 4_065_025 * 585_225,
            denominator: 5_065_025 * 585_225,
        }]
    );
    assert_eq!(ssim(&ramp_image(10, 9), &flat_image(10, 9, 3)).unwrap().len(), 3 * 2);
    for s in ssim(&ramp_image(20, 20), &checkerboard_image(20, 20)).unwrap() {
        assert!(-s.denominator <= s.numerator && s.numerator <= s.denominator);
    }
}
