use icer::context::{CATEGORY2_CONTEXT, CONTEXT_COUNT, ContextModel, INITIAL_ONES, INITIAL_TOTAL, MagnitudeContext, RESCALE_THRESHOLD, magnitude_context, neighbour_counts, sign_context, sign_context_subband, sign_prediction_flip, sign_prediction_flip_subband, significance_context, significance_context_subband, significance_context_table6, significance_context_table7};

#[test]
fn estimator_initial_counts() {
    let m = ContextModel::new();
    for ctx in 0..CONTEXT_COUNT {
        assert_eq!(m.probability(ctx), (INITIAL_ONES, INITIAL_TOTAL));
        assert_eq!(m.probability(ctx), (2, 4));
    }
}

#[test]
fn estimator_increments() {
    let mut m = ContextModel::new();
    m.observe(0, 1);
    assert_eq!(m.probability(0), (3, 5));
    m.observe(0, 0);
    assert_eq!(m.probability(0), (3, 6));
}

#[test]
fn estimator_rescales_at_threshold() {
    let mut m = ContextModel::new();

    let mut rescaled = false;
    for _ in 0..(RESCALE_THRESHOLD as usize + 50) {
        m.observe(0, 1);
        let (ones, total) = m.probability(0);
        assert!(total >= 2, "total must stay >= 2");
        assert!(ones >= 1 && ones < total, "estimate must stay in (0,1)");
        if total < RESCALE_THRESHOLD {
            if rescaled || total < INITIAL_TOTAL + 5 {
            }
        }
        if total <= RESCALE_THRESHOLD / 2 + 5 && ones > 1 {
            rescaled = true;
        }
    }
    assert!(rescaled, "rescale must have fired within the run");
}

#[test]
fn estimator_floor_on_all_zeros() {
    let mut m = ContextModel::new();
    for _ in 0..2000 {
        m.observe(5, 0);
        let (ones, total) = m.probability(5);
        assert!(ones >= 1, "ones floored at 1");
        assert!(ones < total, "P(1) strictly below 1");
    }
}

#[test]
fn significance_context_all_zero() {
    assert_eq!(significance_context(0), 0, "no neighbours -> ctx 0");
}

#[test]
fn significance_context_horizontal_only() {
    assert_eq!(significance_context(0b0000_1000), 1);

    assert_eq!(significance_context(0b0001_1000), 4);
}

#[test]
fn significance_context_vertical_only() {
    assert_eq!(significance_context(0b0000_0010), 2);
}

#[test]
fn significance_context_diagonal_only() {
    assert_eq!(significance_context(0b0000_0001), 6);
}

#[test]
fn significance_context_range() {
    for p in 0u8..=255 {
        let c = significance_context(p);
        assert!(
            c <= 8,
            "pattern {p:#010b} produced out-of-range context {c}"
        );
    }
}

#[test]
fn sign_context_range() {
    for h in 0u8..=15 {
        for v in 0u8..=15 {
            let c = sign_context(h, v);
            assert!(
                (12..=16).contains(&c),
                "h={h} v={v} produced out-of-range sign context {c}"
            );
        }
    }
}

#[test]
fn sign_table8_corners() {
    let pos = 0b0001u8;
    let neg = 0b0011u8;
    let both_pos = 0b0101u8;
    let both_neg = 0b1111u8;
    let zero = 0u8;

    assert_eq!(sign_context(both_pos, both_pos), 16);
    assert!(!sign_prediction_flip(both_pos, both_pos));
    assert_eq!(sign_context(both_neg, both_neg), 16);
    assert!(sign_prediction_flip(both_neg, both_neg));

    assert_eq!(sign_context(zero, zero), 12);
    assert!(!sign_prediction_flip(zero, zero));

    assert_eq!(sign_context(neg, zero), 15);
    assert!(sign_prediction_flip(neg, zero));
    assert_eq!(sign_context(pos, zero), 15);
    assert!(!sign_prediction_flip(pos, zero));

    assert_eq!(sign_context(zero, neg), 13);
    assert!(!sign_prediction_flip(zero, neg));
    assert_eq!(sign_context(zero, pos), 13);
    assert!(sign_prediction_flip(zero, pos));

    assert_eq!(sign_context(pos, neg), 14);
    assert!(!sign_prediction_flip(pos, neg));
    assert_eq!(sign_context(neg, pos), 14);
    assert!(sign_prediction_flip(neg, pos));
}

#[test]
fn table6_all_cells() {
    let cells: &[(u8, u8, u8, usize)] = &[

        (0, 0, 0, 0),
        (0, 0, 1, 1),
        (0, 0, 2, 2),
        (0, 0, 4, 2),

        (0, 1, 0, 3),
        (0, 1, 1, 3),
        (0, 1, 4, 3),

        (0, 2, 0, 4),
        (0, 2, 3, 4),

        (1, 0, 0, 5),
        (1, 0, 1, 6),
        (1, 0, 2, 7),
        (1, 0, 4, 7),

        (1, 1, 0, 7),
        (1, 2, 2, 7),

        (2, 0, 0, 8),
        (2, 1, 1, 8),
        (2, 2, 4, 8),
    ];
    for &(h, v, d, expect) in cells {
        assert_eq!(
            significance_context_table6(h, v, d),
            expect,
            "cell (h={h}, v={v}, d={d})"
        );
    }
}

#[test]
fn table7_all_cells() {
    let cells: &[(u8, u8, u8, usize)] = &[

        (0, 0, 0, 0),
        (1, 0, 0, 1),
        (0, 1, 0, 1),
        (2, 0, 0, 2),
        (1, 1, 0, 2),

        (0, 0, 1, 3),
        (1, 0, 1, 4),
        (2, 0, 1, 5),

        (0, 0, 2, 6),
        (1, 0, 2, 7),
        (2, 0, 2, 7),

        (0, 0, 3, 8),
        (1, 0, 4, 8),
        (2, 0, 4, 8),
    ];
    for &(h, v, d, expect) in cells {
        assert_eq!(
            significance_context_table7(h, v, d),
            expect,
            "cell (h={h}, v={v}, d={d})"
        );
    }
}

#[test]
fn hl_transpose_swaps_h_and_v() {
    let (h, v, d) = (1u8, 0u8, 0u8);
    assert_eq!(
        significance_context_subband(h, v, d, false, false),
        5,
        "LH/LL"
    );
    assert_eq!(significance_context_subband(h, v, d, false, true), 3, "HL");

    assert_eq!(
        significance_context_subband(h, v, d, true, true),
        significance_context_table7(h, v, d)
    );
    assert_eq!(
        significance_context_subband(h, v, d, true, false),
        significance_context_table7(h, v, d)
    );
}

#[test]
fn subband_contexts_in_range() {
    for h in 0..=2u8 {
        for v in 0..=2u8 {
            for d in 0..=4u8 {
                for is_hh in [false, true] {
                    for is_hl in [false, true] {
                        let c = significance_context_subband(h, v, d, is_hh, is_hl);
                        assert!(c <= 8, "ctx {c} out of range for ({h},{v},{d})");
                    }
                }
            }
        }
    }
}

#[test]
fn neighbour_counts_decode() {
    let pat = 0b1001_1011u8;
    let (h, v, d) = neighbour_counts(pat);
    assert_eq!((h, v, d), (2, 1, 2));

    assert_eq!(neighbour_counts(0xFF), (2, 2, 4));

    assert_eq!(neighbour_counts(0), (0, 0, 0));
}

#[test]
fn hl_sign_transpose() {
    let pos = 0b0001u8;
    let zero = 0u8;
    assert_eq!(sign_context_subband(pos, zero, false), 15);
    assert!(!sign_prediction_flip_subband(pos, zero, false));
    assert_eq!(sign_context_subband(pos, zero, true), 13);
    assert!(sign_prediction_flip_subband(pos, zero, true));
}

#[test]
fn magnitude_context_categories() {
    assert_eq!(magnitude_context(1, false), MagnitudeContext::Coded(9));
    assert_eq!(magnitude_context(1, true), MagnitudeContext::Coded(10));

    assert_eq!(
        magnitude_context(2, false),
        MagnitudeContext::Coded(CATEGORY2_CONTEXT)
    );
    assert_eq!(
        magnitude_context(2, true),
        MagnitudeContext::Coded(CATEGORY2_CONTEXT)
    );

    assert_eq!(magnitude_context(3, true), MagnitudeContext::Uncoded);
    assert_eq!(magnitude_context(4, false), MagnitudeContext::Uncoded);
}
