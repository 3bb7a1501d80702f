use forge_infer::model::{LogitBits, Model, StepLogits, TinyTransformer, TokenId, NEG_INFINITY};

/// The softmax probability of a token.
fn prob_of(step: &StepLogits, token: TokenId) -> f32 {
    let logits: Vec<f32> = step.logits.iter().map(|b| f32::from_bits(*b)).collect();
    let max = logits.iter().cloned().fold(f32::NEG_INFINITY, f32::max);
    let mut denom = 0.0f32;
    for &v in &logits {
        denom += (v - max).exp();
    }
    let idx = token as usize;
    if idx >= logits.len() {
        return 0.0;
    }
    (logits[idx] - max).exp() / denom
}

fn bits(values: &[f32]) -> StepLogits {
    StepLogits {
        logits: values.iter().map(|v| v.to_bits()).collect(),
    }
}

#[test]
fn forward_is_deterministic() {
    let m = TinyTransformer::new(64, 4);
    let ctx = vec![1, 2, 3, 4, 5];
    let a = m.forward(&ctx).argmax();
    let b = m.forward(&ctx).argmax();
    assert_eq!(a, b, "the same context must produce the same token");
}

#[test]
fn probabilities_sum_to_one() {
    let m = TinyTransformer::new(32, 2);
    let logits = m.forward(&[7, 8, 9]);
    let total: f32 = (0..32).map(|t| prob_of(&logits, t)).sum();
    assert!(
        (total - 1.0).abs() < 1e-4,
        "softmax must normalise, got {total}"
    );
}

#[test]
fn pinned_context_forces_token() {
    let mut m = TinyTransformer::new(64, 4);
    m.pin(vec![10, 11, 12, 13], 42);
    assert_eq!(m.forward(&[10, 11, 12, 13]).argmax(), 42);
}

#[test]
fn draft_and_target_mostly_agree() {
    let target = TinyTransformer::new(64, 4);
    let draft = TinyTransformer::draft(64, 4);
    let mut agree = 0;
    for s in 0..200u32 {
        let ctx: Vec<TokenId> = (s..s + 6).collect();
        if target.forward(&ctx).argmax() == draft.forward(&ctx).argmax() {
            agree += 1;
        }
    }
    // The draft must be a useful proposer: it should agree with the target
    // on a clear majority of contexts, which is what makes speculation pay.
    assert!(
        agree > 120,
        "draft agreed on only {agree}/200 contexts, too weak a proposer"
    );
}

#[test]
fn the_hash_is_over_the_trailing_window() {
    let m = TinyTransformer::new(64, 4);
    assert_eq!(m.hash_context(&[]), 0x2AD0_938A_4F03_6B53);
    assert_eq!(m.hash_context(&[1, 2, 3, 4, 5]), 0xBE5C_1D2B_48ED_64D9);
    let long: Vec<TokenId> = (1..=12).collect();
    assert_eq!(m.hash_context(&long), 0xE6BF_5E18_00B0_AADF);
    assert_eq!(m.hash_context(&long[4..]), 0xE6BF_5E18_00B0_AADF);
    assert_eq!(
        m.forward(&long).logits,
        m.forward(&long[4..]).logits,
        "only the last eight tokens matter"
    );
}

#[test]
fn logits_fall_off_from_the_peak() {
    let mut m = TinyTransformer::new(20, 4);
    m.pin(vec![1, 2, 3, 4], 9);
    let logits: Vec<f32> = m
        .forward(&[1, 2, 3, 4])
        .logits
        .iter()
        .map(|b| f32::from_bits(*b))
        .collect();
    let expected: Vec<f32> = (0..20)
        .map(|i: i32| 6.0 - ((i - 9).abs() as f32).min(8.0))
        .collect();
    assert_eq!(logits, expected);
    assert_eq!(logits.len(), m.vocab_size());
}

#[test]
fn a_short_context_does_not_end_the_sequence() {
    let mut m = TinyTransformer::new(64, 4).with_eos(5);
    m.pin(vec![1, 2, 3], 5);
    m.pin(vec![1, 2, 3, 4], 5);
    let short = m.forward(&[1, 2, 3]);
    assert_eq!(short.logits[5], NEG_INFINITY);
    assert_eq!(short.argmax(), 4, "the lower neighbour wins");
    assert_eq!(m.forward(&[1, 2, 3, 4]).argmax(), 5);
    assert_eq!(m.eos_token(), 5);
}

#[test]
fn a_short_context_is_not_ended_at_the_first_token() {
    let mut m = TinyTransformer::new(64, 4);
    m.pin(vec![1], 0);
    assert_eq!(m.forward(&[1]).argmax(), 1);
}

#[test]
fn a_later_pin_replaces_an_earlier_one() {
    let mut m = TinyTransformer::new(64, 4);
    let before = m.forward(&[1, 2, 3, 5]).logits;
    m.pin(vec![1, 2, 3, 4], 10);
    m.pin(vec![1, 2, 3, 4], 70);
    assert_eq!(m.forward(&[1, 2, 3, 4]).argmax(), 6, "70 modulo 64");
    assert_eq!(m.forward(&[1, 2, 3, 5]).logits, before);
}

#[test]
fn a_draft_diverges_where_the_hash_is_a_multiple_of_four() {
    let target = TinyTransformer::new(64, 4);
    let draft = TinyTransformer::draft(64, 4);
    let mut diverged = 0;
    for s in 0..200u32 {
        let ctx: Vec<TokenId> = (s..s + 6).collect();
        let t = target.forward(&ctx).argmax();
        let d = draft.forward(&ctx).argmax();
        if target.hash_context(&ctx) % 4 == 0 {
            assert_eq!(d, (t + 7) % 64);
            diverged += 1;
        } else {
            assert_eq!(d, t);
        }
    }
    assert_eq!(diverged, 61);
}

#[test]
fn the_argmax_prefers_the_lower_id() {
    assert_eq!(bits(&[1.0, 3.0, 3.0, 2.0]).argmax(), 1);
    assert_eq!(bits(&[-2.0, -1.0, -1.5]).argmax(), 1);
    assert_eq!(bits(&[-0.0, 0.0]).argmax(), 0, "the zeros are equal");
    assert_eq!(bits(&[-1.0, 0.0, 5.0e-39]).argmax(), 2);
}

#[test]
fn the_argmax_ignores_what_is_not_a_number() {
    assert_eq!(bits(&[f32::NAN, 1.0, f32::NAN]).argmax(), 1);
    assert_eq!(bits(&[f32::NAN, f32::NEG_INFINITY]).argmax(), 0);
    assert_eq!(bits(&[]).argmax(), 0);
    assert_eq!(bits(&[1.0, f32::INFINITY, 2.0]).argmax(), 1);
    let nan: LogitBits = 0xFFC0_0001;
    let step = StepLogits {
        logits: vec![nan, 2.0f32.to_bits()],
    };
    assert_eq!(step.argmax(), 1);
}

#[test]
fn the_argmax_orders_as_floats_do() {
    let values = [
        f32::NEG_INFINITY,
        f32::MIN,
        -1.0,
        -1.0e-40,
        0.0,
        1.0e-40,
        0.5,
        6.0,
        f32::MAX,
        f32::INFINITY,
    ];
    for (i, &a) in values.iter().enumerate() {
        for (j, &b) in values.iter().enumerate() {
            let best = if j > i { 1 } else { 0 };
            assert_eq!(bits(&[a, b]).argmax(), best, "{a} {b}");
        }
    }
}

#[test]
fn a_model_reports_its_shape() {
    let m = TinyTransformer::draft(320, 6);
    assert_eq!(m.vocab_size(), 320);
    assert_eq!(m.num_layers(), 6);
    assert_eq!(m.eos_token(), 0);
}
