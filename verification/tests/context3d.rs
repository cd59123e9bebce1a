use icer::context3d::{CONTEXT_COUNT_3D, CTX_CAT1_BASE, CTX_CAT2_BASE, CTX_SIGN_BASE, NeighbourSign, category0_context, category1_context, category2_context, new_model, sign_prediction_and_context};
use icer::context3d::NeighbourSign::{Negative, Positive, Unknown};

#[test]
fn table2_context_budget() {
    assert_eq!(CONTEXT_COUNT_3D, 19);
    assert_eq!(CTX_CAT1_BASE, 9);
    assert_eq!(CTX_CAT2_BASE, 12);
    assert_eq!(CTX_SIGN_BASE, 14);
}

#[test]
fn table3_all_nine_cells() {
    let a = |letter: usize| letter;
    assert_eq!(category0_context(0, 0), a(0));
    assert_eq!(category0_context(1, 0), a(1));
    assert_eq!(category0_context(2, 0), a(2));
    assert_eq!(category0_context(0, 1), a(3));
    assert_eq!(category0_context(1, 1), a(4));
    assert_eq!(category0_context(2, 1), a(5));
    assert_eq!(category0_context(0, 2), a(6));
    assert_eq!(category0_context(1, 2), a(7));
    assert_eq!(category0_context(2, 2), a(8));

    assert_eq!(category0_context(3, 3), a(8));
}

#[test]
fn table4_all_cells() {
    for cp in 0..=3u8 {
        assert_eq!(category1_context(0, cp), CTX_CAT1_BASE);
        assert_eq!(category1_context(1, cp), CTX_CAT1_BASE);
    }
    assert_eq!(category1_context(2, 0), CTX_CAT1_BASE);
    assert_eq!(category1_context(2, 1), CTX_CAT1_BASE + 1);
    assert_eq!(category1_context(2, 2), CTX_CAT1_BASE + 2);
    assert_eq!(category1_context(3, 3), CTX_CAT1_BASE + 2);
}

#[test]
fn table5_all_cells() {
    assert_eq!(category2_context(0, 0), CTX_CAT2_BASE);
    assert_eq!(category2_context(1, 2), CTX_CAT2_BASE);
    assert_eq!(category2_context(2, 1), CTX_CAT2_BASE);
    assert_eq!(category2_context(2, 2), CTX_CAT2_BASE + 1);
    assert_eq!(category2_context(3, 2), CTX_CAT2_BASE + 1);
}

#[test]
fn table6_all_nine_cells() {
    let s = |letter: usize| CTX_SIGN_BASE + letter;
    assert_eq!(
        sign_prediction_and_context(Positive, Positive),
        (false, s(4))
    );
    assert_eq!(
        sign_prediction_and_context(Positive, Unknown),
        (false, s(3))
    );
    assert_eq!(
        sign_prediction_and_context(Positive, Negative),
        (false, s(1))
    );
    assert_eq!(
        sign_prediction_and_context(Unknown, Positive),
        (false, s(2))
    );
    assert_eq!(sign_prediction_and_context(Unknown, Unknown), (false, s(0)));
    assert_eq!(sign_prediction_and_context(Unknown, Negative), (true, s(2)));
    assert_eq!(
        sign_prediction_and_context(Negative, Positive),
        (true, s(1))
    );
    assert_eq!(sign_prediction_and_context(Negative, Unknown), (true, s(3)));
    assert_eq!(
        sign_prediction_and_context(Negative, Negative),
        (true, s(4))
    );
}

#[test]
fn table6_symmetry() {
    let flip = |s: NeighbourSign| match s {
        Positive => Negative,
        Negative => Positive,
        Unknown => Unknown,
    };
    for sm in [Positive, Unknown, Negative] {
        for sp in [Positive, Unknown, Negative] {
            let (neg, ctx) = sign_prediction_and_context(sm, sp);
            let (neg_f, ctx_f) = sign_prediction_and_context(flip(sm), flip(sp));
            assert_eq!(ctx, ctx_f, "context must be polarity-invariant");
            if (sm, sp) != (Unknown, Unknown) {
                assert_ne!(neg, neg_f, "prediction must flip with polarity");
            }
        }
    }
}

#[test]
fn model_is_19_contexts_with_mer_prior() {
    let m = new_model();
    for ctx in 0..CONTEXT_COUNT_3D {
        assert_eq!(m.probability(ctx), (2, 4), "ctx {ctx} prior");
    }
}

#[test]
fn context_ranges_are_disjoint() {
    for cm in 0..=3u8 {
        for cp in 0..=3u8 {
            assert!(category0_context(cm, cp) < CTX_CAT1_BASE);
            let c1 = category1_context(cm, cp);
            assert!((CTX_CAT1_BASE..CTX_CAT2_BASE).contains(&c1));
            let c2 = category2_context(cm, cp);
            assert!((CTX_CAT2_BASE..CTX_SIGN_BASE).contains(&c2));
        }
    }
    for sm in [Positive, Unknown, Negative] {
        for sp in [Positive, Unknown, Negative] {
            let (_, ctx) = sign_prediction_and_context(sm, sp);
            assert!((CTX_SIGN_BASE..CONTEXT_COUNT_3D).contains(&ctx));
        }
    }
}
