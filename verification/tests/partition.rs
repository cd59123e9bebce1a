use icer::error::IcerError;
use icer::partition::{PartitionParams, SegmentRect, ll_dimensions, partition, partition_params};

fn assert_valid_partition(rects: &[SegmentRect], w: usize, h: usize, s: usize) {
    assert_eq!(rects.len(), s, "{w}x{h}/{s}: wrong segment count");
    let mut cover = vec![0u8; w * h];
    for r in rects {
        assert!(r.width >= 1 && r.height >= 1, "{w}x{h}/{s}: empty {r:?}");
        for y in r.y..r.y + r.height {
            for x in r.x..r.x + r.width {
                assert!(x < w && y < h, "{w}x{h}/{s}: out of bounds {r:?}");
                cover[y * w + x] += 1;
            }
        }
    }
    assert!(
        cover.iter().all(|&c| c == 1),
        "{w}x{h}/{s}: not an exact tiling"
    );
    for (i, r) in rects.iter().enumerate() {
        assert_eq!(r.index, i);
    }
}

#[test]
fn figure_17_worked_example() {
    let p = partition_params(10, 14, 17).unwrap();
    assert_eq!(
        p,
        PartitionParams {
            r: 5,
            c: 3,
            r_t: 3,
            h_t: 7,
            x_t: 3,
            c_t0: 2,
            y_t: 2,
            r_t0: 2,
            x_b: 2,
            c_b0: 2,
            y_b: 3,
            r_b0: 1,
        }
    );

    let rects = partition(10, 14, 17).unwrap();
    assert_valid_partition(&rects, 10, 14, 17);

    assert_eq!(
        rects[0],
        SegmentRect {
            index: 0,
            x: 0,
            y: 0,
            width: 3,
            height: 2
        }
    );
    assert_eq!(
        rects[2],
        SegmentRect {
            index: 2,
            x: 6,
            y: 0,
            width: 4,
            height: 2
        }
    );
    assert_eq!(
        rects[8],
        SegmentRect {
            index: 8,
            x: 6,
            y: 4,
            width: 4,
            height: 3
        }
    );
    assert_eq!(
        rects[9],
        SegmentRect {
            index: 9,
            x: 0,
            y: 7,
            width: 2,
            height: 3
        }
    );
    assert_eq!(
        rects[16],
        SegmentRect {
            index: 16,
            x: 7,
            y: 10,
            width: 3,
            height: 4
        }
    );
}

#[test]
fn property_4_validity_sweep() {
    for &(w, h) in &[
        (1usize, 1usize),
        (1, 7),
        (7, 1),
        (2, 7),
        (10, 14),
        (16, 16),
        (13, 5),
        (5, 13),
        (32, 4),
        (3, 3),
        (64, 48),
    ] {
        let max_s = (w * h).min(40);
        for s in 1..=max_s {
            let rects = partition(w, h, s)
                .unwrap_or_else(|e| panic!("{w}x{h}/{s} unexpectedly failed: {e:?}"));
            assert_valid_partition(&rects, w, h, s);
        }
    }

    let rects = partition(4, 3, 12).unwrap();
    assert_valid_partition(&rects, 4, 3, 12);
    assert!(rects.iter().all(|r| r.width == 1 && r.height == 1));
}

#[test]
fn eq_9_violation_is_refused() {
    assert!(matches!(
        partition(4, 3, 13),
        Err(IcerError::Unsupported(_))
    ));
    assert!(matches!(partition(0, 3, 1), Err(IcerError::Unsupported(_))));
    assert!(matches!(partition(3, 3, 0), Err(IcerError::Unsupported(_))));
}

#[test]
fn single_segment_is_whole_rectangle() {
    let rects = partition(10, 14, 1).unwrap();
    assert_eq!(
        rects,
        vec![SegmentRect {
            index: 0,
            x: 0,
            y: 0,
            width: 10,
            height: 14
        }]
    );
}

#[test]
fn tall_narrow_rectangle_takes_r_equals_s() {
    let rects = partition(2, 100, 4).unwrap();
    assert_valid_partition(&rects, 2, 100, 4);
    assert!(rects.iter().all(|r| r.width == 2));
    let p = partition_params(2, 100, 4).unwrap();
    assert_eq!(p.r, 4);
    assert_eq!(p.c, 1);
}

#[test]
fn nearly_equal_areas() {
    for &(w, h, s) in &[
        (16usize, 16usize, 5usize),
        (32, 20, 7),
        (10, 14, 6),
        (40, 40, 9),
        (25, 33, 11),
    ] {
        let rects = partition(w, h, s).unwrap();
        let areas: Vec<usize> = rects.iter().map(|r| r.width * r.height).collect();
        let (min, max) = (*areas.iter().min().unwrap(), *areas.iter().max().unwrap());
        assert!(
            max <= 3 * min,
            "{w}x{h}/{s}: areas too uneven ({min}..{max})"
        );
    }
}

#[test]
fn ll_dimensions_follow_ceil_rule() {
    assert_eq!(ll_dimensions(256, 248, 3), (32, 31));
    assert_eq!(ll_dimensions(1024, 1024, 6), (16, 16));
    assert_eq!(ll_dimensions(17, 5, 2), (5, 2));
    assert_eq!(ll_dimensions(17, 5, 0), (17, 5));
}

#[test]
fn mer_style_geometry() {
    let (w, h) = ll_dimensions(1024, 1024, 6);
    let rects = partition(w, h, 8).unwrap();
    assert_valid_partition(&rects, w, h, 8);
    for r in &rects {
        let ratio = (r.width.max(r.height) as f64) / (r.width.min(r.height) as f64);
        assert!(ratio <= 2.0, "not nearly square: {r:?}");
    }
}
