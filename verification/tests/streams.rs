use icer::analyze::{region_mae, sum_region, DistortionReport};
use icer::decoder::{decode_uncompressed_icer, parse_icer, parse_icer_lenient, parse_icer_metadata, parse_icer_with_limits, DecodeLimits};
use icer::encoder::{encode_icer, encode_to_quality_target, pick_filter_by_rate_distortion, quality_search_bounds, EncodeOptions, DEFAULT_RD_CANDIDATES};
use icer::error::IcerError;
use icer::header::{walk_segment, BitPlanePass, PacketHeader, SegmentHeader, WaveletFilter};
use icer::image::{IcerImage, IcerPixelFormat};
use icer::plane_container::{is_container, parse_container};

/// A smooth image with some noise on it.
fn picture(width: u32, height: u32, format: IcerPixelFormat) -> IcerImage {
    let mut image = IcerImage::zeros(width, height, format);
    let top = (1u32 << format.bit_depth()) - 1;
    let mut state: u32 = 0x1357_9BDF;
    for plane in 0..format.plane_count() {
        for y in 0..height {
            for x in 0..width {
                state = state.wrapping_mul(1_664_525).wrapping_add(1_013_904_223);
                let noise = (state >> 24) % 9;
                let v = (x * 5 + y * 3 + plane as u32 * 40) * (top / 255) + noise;
                image.set_sample(plane, x, y, (v % (top + 1)) as u16);
            }
        }
    }
    image
}

fn all_filters() -> [WaveletFilter; 7] {
    [
        WaveletFilter::FilterQ,
        WaveletFilter::FilterA,
        WaveletFilter::FilterB,
        WaveletFilter::FilterC,
        WaveletFilter::FilterD,
        WaveletFilter::FilterE,
        WaveletFilter::FilterF,
    ]
}

fn assert_reads_back(image: &IcerImage, opts: &EncodeOptions, what: &str) {
    let bytes = encode_icer(image, opts).unwrap();
    let back = parse_icer(&bytes).unwrap();
    assert_eq!(&back, image, "{what}");
}

#[test]
fn raw_stream_has_these_bytes() {
    let mut image = IcerImage::zeros(2, 2, IcerPixelFormat::Gray8);
    image.planes[0].data = vec![10, 20, 30, 40];
    let bytes = encode_icer(&image, &EncodeOptions::default()).unwrap();
    assert_eq!(
        bytes,
        vec![
            0xAC, 0xED, 0x07, 0, 2, 0, 2, 0x20, 0, 8, 0, 0, // header
            0x00, 0, 4, 0, // packet
            10, 20, 30, 40,
        ]
    );
    assert_eq!(parse_icer(&bytes).unwrap(), image);
}

#[test]
fn every_filter_and_depth_of_levels_is_lossless() {
    let image = picture(37, 29, IcerPixelFormat::Gray8);
    for filter in all_filters() {
        for levels in 1..=6u8 {
            let mut opts = EncodeOptions::compressed();
            opts.filter = filter;
            opts.wavelet_levels = levels;
            assert_reads_back(&image, &opts, &format!("{filter:?} {levels}"));
        }
    }
}

#[test]
fn every_way_of_segmenting_is_lossless() {
    let image = picture(48, 40, IcerPixelFormat::Gray8);
    for segments in [1u16, 2, 3, 5, 8] {
        for way in 0..16u32 {
            let mut opts = EncodeOptions::compressed();
            opts.segment_count = segments;
            if way & 1 != 0 {
                opts = opts.with_interleaved_entropy();
            }
            if way & 2 != 0 {
                opts = opts.with_priority_interleaving();
            }
            if way & 4 != 0 {
                opts = opts.with_transform_domain_segments();
            }
            if way & 8 != 0 {
                opts = opts.with_center_roi();
            }
            assert_reads_back(&image, &opts, &format!("{segments} segments, way {way}"));
        }
    }
}

#[test]
fn padded_rows_are_left_out() {
    let mut padded = picture(10, 6, IcerPixelFormat::Gray8);
    let tight = padded.clone();
    padded.planes[0].stride = 13;
    padded.planes[0].data = (0..6 * 13)
        .map(|i| if i % 13 < 10 { tight.planes[0].data[i / 13 * 10 + i % 13] } else { 0xEE })
        .collect();
    let bytes = encode_icer(&padded, &EncodeOptions::compressed()).unwrap();
    assert_eq!(parse_icer(&bytes).unwrap(), tight);
}

#[test]
fn colour_and_deep_images_come_back() {
    for transform in [false, true] {
        let mut opts = EncodeOptions::compressed();
        opts.segment_count = 2;
        if transform {
            opts = opts.with_transform_domain_segments();
        }
        assert_reads_back(&picture(20, 18, IcerPixelFormat::Yuv444P), &opts, "colour");
        for bits in 9..=16u8 {
            let image = picture(20, 18, IcerPixelFormat::GrayDeep { bits });
            assert_reads_back(&image, &opts, &format!("{bits} bits"));
        }
    }
}

#[test]
fn deep_stream_stands_in_a_container() {
    let image = picture(8, 8, IcerPixelFormat::GrayDeep { bits: 12 });
    let bytes = encode_icer(&image, &EncodeOptions::compressed()).unwrap();
    assert!(is_container(&bytes));
    let parsed = parse_container(&bytes).unwrap();
    assert_eq!(parsed.format, IcerPixelFormat::GrayDeep { bits: 12 });
    assert_eq!(parsed.plane_ranges, vec![(9, bytes.len())]);
    let gray = encode_icer(
        &picture(8, 8, IcerPixelFormat::Gray8),
        &EncodeOptions::compressed(),
    )
    .unwrap();
    assert!(!is_container(&gray));
}

#[test]
fn time_of_an_image_is_not_carried() {
    let mut image = picture(8, 8, IcerPixelFormat::Gray8);
    image.pts = 77;
    let back = parse_icer(&encode_icer(&image, &EncodeOptions::compressed()).unwrap()).unwrap();
    assert_eq!(back.pts, 0);
    assert_eq!(back.planes, image.planes);
}

#[test]
fn images_without_samples_are_invalid() {
    let opts = EncodeOptions::compressed();
    for image in [
        IcerImage::zeros(0, 4, IcerPixelFormat::Gray8),
        IcerImage::zeros(4, 0, IcerPixelFormat::Gray8),
        IcerImage {
            planes: vec![],
            ..IcerImage::zeros(4, 4, IcerPixelFormat::Gray8)
        },
        IcerImage::zeros(4, 4, IcerPixelFormat::GrayDeep { bits: 8 }),
        IcerImage::zeros(4, 4, IcerPixelFormat::GrayDeep { bits: 17 }),
    ] {
        assert!(matches!(
            encode_icer(&image, &opts),
            Err(IcerError::InvalidData(_))
        ));
    }
}

#[test]
fn contradicting_options_are_refused() {
    let image = picture(32, 32, IcerPixelFormat::Gray8);
    let mut many = EncodeOptions::compressed();
    many.segment_count = 30;
    let mut short_ranks = EncodeOptions::compressed().with_segment_priorities(vec![0]);
    short_ranks.segment_count = 2;
    let mut double_ranks = EncodeOptions::compressed().with_segment_priorities(vec![1, 1]);
    double_ranks.segment_count = 2;
    let mut no_transform = EncodeOptions::compressed();
    no_transform.filter = WaveletFilter::FilterG;
    let mut raw_parts = EncodeOptions::default().with_transform_domain_segments();
    raw_parts.segment_count = 2;
    for opts in [
        many,
        short_ranks,
        double_ranks,
        no_transform,
        raw_parts,
        EncodeOptions::compressed().with_min_loss(1).with_rd_budget(100),
        EncodeOptions::compressed().with_quality_target(10).with_byte_budget(100),
        EncodeOptions::compressed().with_quality_target(10).with_target_bytes(100),
        EncodeOptions::compressed()
            .with_priority_interleaving()
            .with_rd_budget(100),
    ] {
        assert!(
            matches!(encode_icer(&image, &opts), Err(IcerError::Unsupported(_))),
            "{opts:?}"
        );
    }
}

#[test]
fn cut_streams_are_truncated() {
    let image = picture(16, 16, IcerPixelFormat::Gray8);
    let bytes = encode_icer(&image, &EncodeOptions::compressed()).unwrap();
    for n in [0usize, 1, 11, 12, bytes.len() - 1] {
        assert_eq!(parse_icer(&bytes[..n]), Err(IcerError::Truncated), "{n} bytes");
    }
}

#[test]
fn streams_without_a_prefix_are_invalid() {
    let image = picture(16, 16, IcerPixelFormat::Gray8);
    let mut opts = EncodeOptions::compressed();
    opts.segment_count = 2;
    let mut bytes = encode_icer(&image, &opts).unwrap();
    let second = walk_segment(&bytes).unwrap().consumed;
    bytes[second] = 0;
    bytes[second + 1] = 0;
    assert!(matches!(parse_icer(&bytes), Err(IcerError::InvalidData(_))));
}

#[test]
fn limits_refuse_large_streams() {
    let image = picture(16, 16, IcerPixelFormat::Gray8);
    let bytes = encode_icer(&image, &EncodeOptions::compressed()).unwrap();
    let just = DecodeLimits {
        max_pixels_per_segment: 256,
        max_total_pixels: 256,
    };
    assert_eq!(parse_icer_with_limits(&bytes, &just).unwrap(), image);
    for limits in [
        DecodeLimits {
            max_pixels_per_segment: 255,
            max_total_pixels: 256,
        },
        DecodeLimits {
            max_pixels_per_segment: 256,
            max_total_pixels: 255,
        },
    ] {
        assert!(matches!(
            parse_icer_with_limits(&bytes, &limits),
            Err(IcerError::Unsupported(_))
        ));
    }
    assert_eq!(
        parse_icer_with_limits(&bytes, &DecodeLimits::unlimited()).unwrap(),
        image
    );
}

#[test]
fn byte_budgets_hold_but_for_headers() {
    let image = picture(48, 48, IcerPixelFormat::Gray8);
    for segments in [1u16, 4] {
        for way in 0..3u32 {
            for budget in [0u64, 20, 48, 100, 400, 1000, 5000] {
                let mut opts = EncodeOptions::compressed().with_byte_budget(budget);
                opts.segment_count = segments;
                if way == 1 {
                    opts = opts.with_center_roi();
                }
                if way == 2 {
                    opts = opts.with_transform_domain_segments();
                }
                let bytes = encode_icer(&image, &opts).unwrap();
                let heads = 12 * segments as u64;
                assert!(bytes.len() as u64 <= budget + heads);
                if segments == 1 || way > 0 {
                    assert!(bytes.len() as u64 <= budget.max(heads), "{budget} {segments} {way}");
                }
                let back = parse_icer(&bytes).unwrap();
                assert_eq!((back.width, back.height), (48, 48));
            }
        }
    }
}

#[test]
fn raw_strips_left_out_add_their_headers() {
    let image = picture(8, 15, IcerPixelFormat::Gray8);
    let mut opts = EncodeOptions::default();
    opts.segment_count = 2;
    let whole = encode_icer(&image, &opts).unwrap();
    assert_eq!(whole.len(), 16 + 64 + 16 + 56);
    let cut = encode_icer(&image, &opts.clone().with_byte_budget(75)).unwrap();
    assert_eq!(cut.len(), 72 + 12);
    let back = parse_icer(&cut).unwrap();
    assert!(back.planes[0].data[..64].iter().all(|&v| v == 128));
    assert_eq!(back.planes[0].data[64..], image.planes[0].data[64..]);
}

#[test]
fn larger_budgets_decode_no_worse() {
    let image = picture(40, 40, IcerPixelFormat::Gray8);
    let mut last = u128::MAX;
    for budget in [40u64, 120, 300, 700, 1500, 4000] {
        let opts = EncodeOptions::compressed().with_byte_budget(budget);
        let back = parse_icer(&encode_icer(&image, &opts).unwrap()).unwrap();
        let report = DistortionReport::compare(&image, &back).unwrap();
        assert!(report.squared_error <= last, "budget {budget}");
        last = report.squared_error;
    }
    assert_eq!(last, 0);
}

#[test]
fn chosen_packets_are_never_worse_than_truncation() {
    let image = picture(40, 40, IcerPixelFormat::Gray8);
    for budget in [60u64, 150, 300, 600] {
        let error = |opts: &EncodeOptions| {
            let bytes = encode_icer(&image, opts).unwrap();
            assert!(bytes.len() as u64 <= budget);
            let back = parse_icer(&bytes).unwrap();
            DistortionReport::compare(&image, &back).unwrap().squared_error
        };
        let plain = error(&EncodeOptions::compressed().with_byte_budget(budget));
        let chosen = error(&EncodeOptions::compressed().with_rd_budget(budget));
        assert!(chosen <= plain, "{budget}: {chosen} > {plain}");
    }
}

#[test]
fn minimum_loss_shortens_the_stream() {
    let image = picture(40, 40, IcerPixelFormat::Gray8);
    let lengths: Vec<usize> = (0..6u8)
        .map(|m| {
            encode_icer(&image, &EncodeOptions::compressed().with_min_loss(m))
                .unwrap()
                .len()
        })
        .collect();
    assert!(lengths.windows(2).all(|w| w[1] <= w[0]), "{lengths:?}");
    assert!(lengths[5] < lengths[0]);
}

#[test]
fn soft_targets_end_with_a_bit_plane() {
    let image = picture(40, 40, IcerPixelFormat::Gray8);
    let whole = encode_icer(&image, &EncodeOptions::compressed()).unwrap();
    let cut = encode_icer(&image, &EncodeOptions::compressed().with_target_bytes(200)).unwrap();
    assert!(cut.len() < whole.len());
    let walked = walk_segment(&cut).unwrap();
    assert_eq!(walked.packets.len() % 2, 0);
    assert!(cut.len() >= 200);
}

#[test]
fn raw_samples_stand_in_where_they_are_shorter() {
    let mut image = IcerImage::zeros(6, 6, IcerPixelFormat::Gray8);
    let mut state: u32 = 1;
    for b in image.planes[0].data.iter_mut() {
        state = state.wrapping_mul(1_664_525).wrapping_add(1_013_904_223);
        *b = (state >> 24) as u8;
    }
    let plain = encode_icer(&image, &EncodeOptions::compressed()).unwrap();
    let opts = EncodeOptions::compressed().with_uncompressed_fallback();
    let fallback = encode_icer(&image, &opts).unwrap();
    assert_eq!(fallback.len(), plain.len().min(12 + 4 + 36));
    assert_eq!(parse_icer(&fallback).unwrap(), image);
}

#[test]
fn lost_strips_are_told() {
    let image = picture(16, 24, IcerPixelFormat::Gray8);
    let mut opts = EncodeOptions::compressed();
    opts.segment_count = 3;
    let bytes = encode_icer(&image, &opts).unwrap();
    let whole = parse_icer_lenient(&bytes).unwrap();
    assert_eq!(whole.image, image);
    assert_eq!(whole.received, vec![true, true, true]);
    assert_eq!(whole.missing_count, 0);

    let first = walk_segment(&bytes).unwrap().consumed;
    let second = walk_segment(&bytes[first..]).unwrap().consumed;
    let mut lossy = bytes[..first].to_vec();
    lossy.extend_from_slice(&bytes[first + second..]);
    assert!(parse_icer(&lossy).is_err());
    let part = parse_icer_lenient(&lossy).unwrap();
    assert_eq!(part.received, vec![true, false, true]);
    assert_eq!(part.missing_count, 1);
    assert_eq!(part.image.planes[0].data[..128], image.planes[0].data[..128]);
    assert!(part.image.planes[0].data[128..256].iter().all(|&v| v == 128));
    assert_eq!(part.image.planes[0].data[256..], image.planes[0].data[256..]);
}

#[test]
fn lost_parts_are_told() {
    let image = picture(32, 32, IcerPixelFormat::Gray8);
    let mut opts = EncodeOptions::compressed().with_transform_domain_segments();
    opts.segment_count = 4;
    let bytes = encode_icer(&image, &opts).unwrap();
    let first = walk_segment(&bytes).unwrap().consumed;
    let part = parse_icer_lenient(&bytes[first..]).unwrap();
    assert_eq!(part.received, vec![false, true, true, true]);
    assert_eq!(part.missing_count, 1);
    assert_eq!((part.image.width, part.image.height), (32, 32));
}

#[test]
fn segments_may_come_in_any_order() {
    let image = picture(16, 24, IcerPixelFormat::Gray8);
    let mut opts = EncodeOptions::compressed();
    opts.segment_count = 3;
    let bytes = encode_icer(&image, &opts).unwrap();
    let first = walk_segment(&bytes).unwrap().consumed;
    let mut turned = bytes[first..].to_vec();
    turned.extend_from_slice(&bytes[..first]);
    assert_eq!(parse_icer(&turned).unwrap(), image);
}

#[test]
fn metadata_names_every_segment() {
    let image = picture(16, 24, IcerPixelFormat::Gray8);
    let mut opts = EncodeOptions::compressed();
    opts.segment_count = 3;
    let bytes = encode_icer(&image, &opts).unwrap();
    let meta = parse_icer_metadata(&bytes).unwrap();
    assert_eq!(meta.segments.len(), 3);
    let mut offset = 0usize;
    for (i, s) in meta.segments.iter().enumerate() {
        assert_eq!(s.header.segment_index, i as u16);
        assert_eq!((s.header.width, s.header.height), (16, 8));
        assert_eq!(s.offset, offset);
        assert_eq!(s.byte_length, 12 + s.header.segment_length as usize);
        assert_eq!(s.packet_count, walk_segment(&bytes[offset..]).unwrap().packets.len());
        offset += s.byte_length;
    }
    assert_eq!(offset, bytes.len());
}

#[test]
fn middle_segments_are_ranked_first() {
    let ranks = |n: u16| {
        let mut opts = EncodeOptions::compressed();
        opts.segment_count = n;
        opts.with_center_roi().segment_priorities.unwrap()
    };
    assert_eq!(ranks(1), vec![0]);
    assert_eq!(ranks(4), vec![3, 1, 0, 2]);
    assert_eq!(ranks(5), vec![3, 1, 0, 2, 4]);
}

#[test]
fn ranked_segments_come_first_in_the_stream() {
    let image = picture(16, 32, IcerPixelFormat::Gray8);
    let mut opts = EncodeOptions::compressed().with_segment_priorities(vec![2, 0, 3, 1]);
    opts.segment_count = 4;
    let bytes = encode_icer(&image, &opts).unwrap();
    let order: Vec<u16> = parse_icer_metadata(&bytes)
        .unwrap()
        .segments
        .iter()
        .map(|s| s.header.segment_index)
        .collect();
    assert_eq!(order, vec![1, 3, 0, 2]);
}

#[test]
fn picked_filter_has_the_shortest_stream() {
    let image = picture(32, 32, IcerPixelFormat::Gray8);
    let opts = EncodeOptions::compressed();
    let lengths: Vec<usize> = all_filters()
        .iter()
        .map(|&filter| {
            let mut o = opts.clone();
            o.filter = filter;
            encode_icer(&image, &o).unwrap().len()
        })
        .collect();
    let (filter, n) = pick_filter_by_rate_distortion(&image, &opts, &all_filters()).unwrap();
    let best = lengths.iter().min().unwrap();
    assert_eq!(n, *best);
    let at = lengths.iter().position(|l| l == best).unwrap();
    assert_eq!(filter, all_filters()[at]);
    assert!(matches!(
        pick_filter_by_rate_distortion(&image, &opts, &[]),
        Err(IcerError::InvalidData(_))
    ));

    let tried = encode_icer(&image, &opts.clone().with_auto_filter_rd()).unwrap();
    let (_, two) = pick_filter_by_rate_distortion(&image, &opts, &DEFAULT_RD_CANDIDATES).unwrap();
    assert_eq!(tried.len(), two);
}

#[test]
fn quality_targets_are_met_by_shorter_streams() {
    let image = picture(40, 40, IcerPixelFormat::Gray8);
    let whole = encode_icer(&image, &EncodeOptions::compressed()).unwrap();
    let (low, high) = quality_search_bounds(&image, &EncodeOptions::compressed()).unwrap();
    assert_eq!((low, high), (12, whole.len() as u64));
    for target in [0u64, 2_000, 40_000] {
        let bytes = encode_to_quality_target(&image, &EncodeOptions::compressed(), target).unwrap();
        let back = parse_icer(&bytes).unwrap();
        let report = DistortionReport::compare(&image, &back).unwrap();
        assert!(report.squared_error <= target as u128, "target {target}");
        assert!(bytes.len() <= whole.len());
        let same = encode_icer(&image, &EncodeOptions::compressed().with_quality_target(target));
        assert_eq!(same.unwrap(), bytes);
    }
    let loose = encode_to_quality_target(&image, &EncodeOptions::compressed(), 40_000).unwrap();
    assert!(loose.len() < whole.len());
}

#[test]
fn headers_read_back() {
    let header = SegmentHeader {
        sync_prefix: 0xACED,
        filter: WaveletFilter::FilterE,
        decomp_levels: 4,
        uncompressed: false,
        width: 640,
        height: 480,
        bit_plane_count: 11,
        interleaved_entropy: true,
        transform_segmented: true,
        total_segments: 9,
        priority_interleaved: true,
        segment_length: 513,
        segment_index: 8,
    };
    let bytes = header.encode();
    assert_eq!(bytes, [0xAC, 0xED, 0xD8, 2, 128, 1, 224, 0x2F, 2, 1, 9, 8]);
    assert_eq!(SegmentHeader::parse(&bytes).unwrap(), (header, 12));
    assert_eq!(SegmentHeader::parse(&bytes[..11]), Err(IcerError::Truncated));
    let mut levels = bytes;
    levels[2] &= 0xF1;
    assert!(matches!(
        SegmentHeader::parse(&levels),
        Err(IcerError::InvalidData(_))
    ));

    let packet = PacketHeader {
        bit_plane: 5,
        pass: BitPlanePass::Refinement,
        body_length: 258,
        min_loss: 3,
    };
    assert_eq!(packet.encode(), [22, 1, 2, 3]);
    assert_eq!(PacketHeader::parse(&packet.encode()).unwrap(), (packet, 4));
    assert!(matches!(
        PacketHeader::parse(&[3, 0, 0, 0]),
        Err(IcerError::InvalidData(_))
    ));
    assert_eq!(PacketHeader::parse(&[3, 0]), Err(IcerError::Truncated));
}

#[test]
fn reports_count_differences() {
    let mut a = IcerImage::zeros(3, 2, IcerPixelFormat::Gray8);
    let mut b = a.clone();
    a.planes[0].data = vec![10, 20, 30, 40, 50, 60];
    b.planes[0].data = vec![12, 20, 27, 40, 50, 70];
    let report = DistortionReport::compare(&a, &b).unwrap();
    assert_eq!(report.pixels, 6);
    assert_eq!(report.squared_error, 4 + 9 + 100);
    assert_eq!(report.absolute_error, 15);
    assert_eq!(report.max_abs_error, 10);
    assert_eq!(region_mae(&a, &b, 1, 0, 2, 2).unwrap(), (13, 4));
    assert_eq!(region_mae(&a, &b, 3, 0, 0, 2).unwrap(), (0, 0));
    assert!(matches!(
        region_mae(&a, &b, 2, 0, 2, 1),
        Err(IcerError::Unsupported(_))
    ));
    assert!(matches!(
        DistortionReport::compare(&a, &IcerImage::zeros(2, 3, IcerPixelFormat::Gray8)),
        Err(IcerError::Unsupported(_))
    ));
    let sums = sum_region(&a.planes[0], &b.planes[0], 0, 0, 3, 1);
    assert_eq!((sums.first, sums.second), (60, 59));
    assert_eq!(sums.products, 120 + 400 + 810);
    assert_eq!(sums.first_squares, 100 + 400 + 900);
}

#[test]
fn samples_are_words_of_their_format() {
    let mut image = IcerImage::zeros(3, 2, IcerPixelFormat::GrayDeep { bits: 12 });
    image.set_sample(0, 2, 1, 0x0ABC);
    assert_eq!(image.sample(0, 2, 1), 0x0ABC);
    assert_eq!(image.planes[0].stride, 6);
    assert_eq!(image.planes[0].data[10..12], [0xBC, 0x0A]);
}

#[test]
fn errors_have_words() {
    assert_eq!(
        IcerError::invalid("a bad byte").describe(),
        "icer: invalid data: a bad byte"
    );
    assert_eq!(
        IcerError::unsupported("too many").describe(),
        "icer: unsupported: too many"
    );
    assert_eq!(IcerError::Truncated.describe(), "icer: truncated input");
}

#[test]
fn every_order_of_the_segments_shows_the_image() {
    let image = picture(24, 20, IcerPixelFormat::Gray8);
    for transform_domain in [false, true] {
        let mut opts = EncodeOptions::compressed();
        opts.segment_count = 4;
        opts.transform_segments = transform_domain;
        let bytes = encode_icer(&image, &opts).unwrap();
        let mut pieces: Vec<&[u8]> = Vec::new();
        let mut at = 0usize;
        while at < bytes.len() {
            let n = walk_segment(&bytes[at..]).unwrap().consumed;
            pieces.push(&bytes[at..at + n]);
            at += n;
        }
        assert_eq!(pieces.len(), 4);
        for order in [[3usize, 2, 1, 0], [1, 0, 3, 2], [2, 0, 3, 1], [0, 2, 1, 3]] {
            let turned: Vec<u8> = order.iter().flat_map(|i| pieces[*i].iter().copied()).collect();
            assert_eq!(parse_icer(&turned).unwrap(), image);
            let some = [pieces[order[1]], pieces[order[0]], pieces[order[3]]].concat();
            let other = [pieces[order[3]], pieces[order[1]], pieces[order[0]]].concat();
            let a = parse_icer_lenient(&some).unwrap();
            let b = parse_icer_lenient(&other).unwrap();
            assert_eq!(a.image, b.image);
            assert_eq!(a.received, b.received);
        }
    }
}

#[test]
fn uncompressed_segments_decode_alone() {
    let image = picture(9, 6, IcerPixelFormat::Gray8);
    let bytes = encode_icer(&image, &EncodeOptions::default()).unwrap();
    let walked = walk_segment(&bytes).unwrap();
    assert!(walked.header.uncompressed);
    assert_eq!(decode_uncompressed_icer(&walked).unwrap(), image);
    let coded = encode_icer(&image, &EncodeOptions::compressed()).unwrap();
    let walked = walk_segment(&coded).unwrap();
    assert!(matches!(decode_uncompressed_icer(&walked), Err(IcerError::InvalidData(_))));
}

/// An image without any order in it.
fn noise(width: u32, height: u32) -> IcerImage {
    let mut image = IcerImage::zeros(width, height, IcerPixelFormat::Gray8);
    let mut state: u32 = 0x2468_ACE1;
    for y in 0..height {
        for x in 0..width {
            state = state.wrapping_mul(1_664_525).wrapping_add(1_013_904_223);
            image.set_sample(0, x, y, (state >> 24) as u16);
        }
    }
    image
}

#[test]
fn colour_budgets_hold_for_each_plane() {
    let image = picture(32, 24, IcerPixelFormat::Yuv444P);
    for n in [1u16, 3] {
        for b in [0u64, 40, 200, 900] {
            let mut opts = EncodeOptions::compressed().with_byte_budget(b);
            opts.segment_count = n;
            let bytes = encode_icer(&image, &opts).unwrap();
            assert!(bytes.len() as u64 <= 16 + 3 * (b + 12 * n as u64));
        }
        let mut opts = EncodeOptions::compressed();
        opts.segment_count = n;
        let whole = encode_icer(&image, &opts).unwrap();
        let roomy = encode_icer(&image, &opts.clone().with_byte_budget(whole.len() as u64)).unwrap();
        assert_eq!(roomy, whole);
    }
}

#[test]
fn quality_targets_are_met_where_raw_samples_stand_in() {
    for (image, raw) in [(noise(24, 24), true), (picture(24, 24, IcerPixelFormat::Gray8), false)] {
        for n in [1u16, 3] {
            let mut opts = EncodeOptions::compressed().with_uncompressed_fallback();
            opts.segment_count = n;
            for target in [0u64, 500, 20_000] {
                let bytes = encode_icer(&image, &opts.clone().with_quality_target(target)).unwrap();
                let decoded = parse_icer(&bytes).unwrap();
                let mut error = 0u64;
                for (a, b) in image.planes[0].data.iter().zip(decoded.planes[0].data.iter()) {
                    let d = *a as i64 - *b as i64;
                    error += (d * d) as u64;
                }
                assert!(error <= target, "{error} > {target}");
                let found = encode_to_quality_target(&image, &opts, target).unwrap();
                assert_eq!(found, bytes);
                if target == 0 {
                    assert_eq!(walk_segment(&bytes).unwrap().header.uncompressed, raw);
                }
            }
        }
    }
}

#[test]
fn planes_beyond_the_format_are_not_read() {
    let image = picture(16, 12, IcerPixelFormat::Gray8);
    let mut longer = image.clone();
    let mut short = image.planes[0].clone();
    short.data.truncate(3);
    longer.planes.push(short);
    for opts in [EncodeOptions::default(), EncodeOptions::compressed()] {
        assert_eq!(encode_icer(&longer, &opts).unwrap(), encode_icer(&image, &opts).unwrap());
    }
}

#[test]
fn lenient_decoding_refuses_an_odd_strip_in_the_middle() {
    let image = picture(16, 24, IcerPixelFormat::Gray8);
    let mut opts = EncodeOptions::default();
    opts.segment_count = 3;
    let bytes = encode_icer(&image, &opts).unwrap();
    let first = walk_segment(&bytes).unwrap().consumed;
    let second = walk_segment(&bytes[first..]).unwrap().consumed;
    let mut odd = SegmentHeader::parse(&bytes[first..]).unwrap().0;
    odd.height = 7;
    let mut changed = bytes.clone();
    changed[first..first + 12].copy_from_slice(&odd.encode());
    assert!(parse_icer_lenient(&changed).is_err());
    assert!(parse_icer_lenient(&changed[..first + second]).is_ok());
}
