use forge_infer::arith::Ratio;
use forge_infer::model::{Model, StepLogits, TinyTransformer, TokenId};
use forge_infer::speculative::{acceptance_draw, SpeculationResult, SpeculativeDecoder};

/// The softmax probability of a token.
fn prob_of(step: &StepLogits, token: TokenId) -> f32 {
    let logits: Vec<f32> = step.logits.iter().map(|b| f32::from_bits(*b)).collect();
    let max = logits.iter().cloned().fold(f32::NEG_INFINITY, f32::max);
    let mut denom = 0.0f32;
    for &v in &logits {
        denom += (v - max).exp();
    }
    let idx = token as usize;
    if idx >= logits.len() {
        return 0.0;
    }
    (logits[idx] - max).exp() / denom
}

/// The rejection-sampling test: accept with probability `min(1, p / q)`.
fn accept(target: &StepLogits, draft: &StepLogits, token: TokenId, numer: u64) -> bool {
    let p = prob_of(target, token);
    let q = prob_of(draft, token);
    let accept_prob = if q <= 0.0 { 1.0 } else { (p / q).min(1.0) };
    let draw = ((numer as f32) / ((1u64 << 53) as f32)).min(f32::from_bits(0x3F7F_FFFF));
    draw < accept_prob
}

fn rate(r: Ratio) -> f32 {
    r.numer as f32 / r.denom as f32
}

#[test]
fn full_acceptance_emits_bonus_token() {
    // When the draft and target are the *same* model, every proposal has
    // p == q so accept_prob is 1 and the whole run lands, plus a bonus.
    let target = TinyTransformer::new(64, 4);
    let draft = TinyTransformer::new(64, 4);
    let dec = SpeculativeDecoder::new(&draft, &target, 4, accept);

    let result = dec.step(&[1, 2, 3, 4, 5]);
    assert_eq!(
        result.accepted, result.drafted,
        "identical models accept all"
    );
    assert_eq!(
        result.tokens.len(),
        result.drafted + 1,
        "a fully accepted run emits k + 1 tokens"
    );
    assert_eq!(rate(result.acceptance_rate()), 1.0);
}

#[test]
fn speculative_output_matches_plain_target_decoding() {
    // The exactness property: with identical draft and target models,
    // speculative decoding must produce exactly what greedy target decoding
    // would, token for token.
    let target = TinyTransformer::new(64, 4);
    let draft = TinyTransformer::new(64, 4);
    let dec = SpeculativeDecoder::new(&draft, &target, 5, accept);

    let (spec_tokens, _) = dec.generate(&[1, 2, 3, 4], 12);

    // Plain greedy decoding from the target alone.
    let mut ctx = vec![1, 2, 3, 4];
    let mut plain = Vec::new();
    for _ in 0..12 {
        let tok = target.forward(&ctx).argmax();
        ctx.push(tok);
        plain.push(tok);
        if tok == target.eos_token() {
            break;
        }
    }
    assert_eq!(spec_tokens, plain, "speculation must be exact");
}

#[test]
fn rejection_falls_back_to_a_target_token() {
    // A divergent draft model will be rejected on some tokens. We assert the
    // decoder still makes progress (always at least one token) and never
    // emits a token the target would not.
    let target = TinyTransformer::new(64, 4);
    let draft = TinyTransformer::draft(64, 4);
    let dec = SpeculativeDecoder::new(&draft, &target, 4, accept);

    let result = dec.step(&[7, 8, 9, 10, 11]);
    assert!(
        !result.tokens.is_empty(),
        "must always emit at least one token"
    );
    assert!(result.accepted <= result.drafted);
}

#[test]
fn acceptance_rate_is_in_range() {
    let target = TinyTransformer::new(64, 4);
    let draft = TinyTransformer::draft(64, 4);
    let dec = SpeculativeDecoder::new(&draft, &target, 6, accept);
    let (_, r) = dec.generate(&[3, 1, 4, 1, 5], 30);
    let rate = rate(r);
    assert!((0.0..=1.0).contains(&rate), "rate {rate} out of range");
}

#[test]
fn a_good_draft_yields_a_high_acceptance_rate() {
    // The whole point of speculation: a draft that agrees with the target
    // most of the time should see a substantial fraction of its proposals
    // accepted, well above zero and not trivially one.
    let target = TinyTransformer::new(64, 4);
    let draft = TinyTransformer::draft(64, 4);
    let dec = SpeculativeDecoder::new(&draft, &target, 4, accept);

    let mut accepted = 0usize;
    let mut drafted = 0usize;
    for s in 0..50u32 {
        let prompt: Vec<TokenId> = (s..s + 8).collect();
        let (_, _) = dec.generate(&prompt, 40);
        // Re-run a single step to sample the structural acceptance rate.
        let r = dec.step(&prompt);
        accepted += r.accepted;
        drafted += r.drafted;
    }
    let rate = accepted as f32 / drafted as f32;
    assert!(rate > 0.2, "acceptance {rate} too low for a useful draft");
}

#[test]
fn deterministic_across_runs() {
    let target = TinyTransformer::new(64, 4);
    let draft = TinyTransformer::draft(64, 4);
    let dec = SpeculativeDecoder::new(&draft, &target, 4, accept);
    let a = dec.generate(&[2, 4, 6, 8], 20);
    let b = dec.generate(&[2, 4, 6, 8], 20);
    assert_eq!(a, b, "speculation must be reproducible");
}

#[test]
fn rounds_have_exact_outcomes() {
    let target = TinyTransformer::new(64, 4);
    let twin = TinyTransformer::new(64, 4);
    let dec = SpeculativeDecoder::new(&twin, &target, 4, accept);
    assert_eq!(
        dec.step(&[1, 2, 3, 4, 5]),
        SpeculationResult {
            tokens: vec![25, 43, 29, 14, 12],
            accepted: 4,
            drafted: 4,
        }
    );
    // The third token ends the sequence: no more is drafted and no bonus comes.
    assert_eq!(
        dec.step(&[1, 2, 3, 4]),
        SpeculationResult {
            tokens: vec![16, 45, 0],
            accepted: 3,
            drafted: 3,
        }
    );
    let draft = TinyTransformer::draft(64, 4);
    let dec = SpeculativeDecoder::new(&draft, &target, 6, accept);
    let (tokens, r) = dec.generate(&[3, 1, 4, 1, 5], 30);
    assert_eq!(
        tokens,
        vec![
            57, 15, 18, 7, 30, 31, 44, 1, 60, 56, 58, 51, 20, 60, 7, 35, 40, 10, 5, 47, 19, 26, 15,
            48, 2, 18, 32, 41, 23, 8
        ]
    );
    assert_eq!(
        r,
        Ratio {
            numer: 21,
            denom: 54
        }
    );
}

#[test]
fn a_limit_may_be_as_large_as_can_be() {
    let target = TinyTransformer::new(64, 4);
    let twin = TinyTransformer::new(64, 4);
    let dec = SpeculativeDecoder::new(&twin, &target, 4, accept);
    assert_eq!(
        dec.generate(&[1, 2, 3, 4], usize::MAX),
        (vec![16, 45, 0], Ratio { numer: 3, denom: 3 })
    );
}

#[test]
fn draws_have_exact_values() {
    assert_eq!(acceptance_draw(&[], 0), 2731480284385422);
    assert_eq!(acceptance_draw(&[1, 2, 3], 2), 6797636063768624);
    assert_eq!(acceptance_draw(&[7, 8, 9, 10, 11], 0), 8475404012255942);
    for i in 0..1000u32 {
        assert!(acceptance_draw(&[i, i + 1], 1) < 1 << 53);
    }
}

#[test]
fn a_test_that_rejects_everything_leaves_the_target_alone() {
    let target = TinyTransformer::new(64, 4);
    let draft = TinyTransformer::draft(64, 4);
    let never = |_: &StepLogits, _: &StepLogits, _: TokenId, _: u64| false;
    let dec = SpeculativeDecoder::new(&draft, &target, 3, never);
    let first = dec.step(&[1, 2, 3, 4]);
    assert_eq!(first.tokens, vec![16]);
    assert_eq!(first.accepted, 0);
    assert_eq!(dec.generate(&[1, 2, 3, 4], 12).0, vec![16, 45, 0]);
    assert_eq!(dec.generate(&[1, 2, 3, 4], 12).1.numer, 0);
}

#[test]
fn an_agreeing_draft_is_exact_under_any_test() {
    let target = TinyTransformer::new(64, 4);
    let twin = TinyTransformer::new(64, 4);
    let mut plain = vec![9, 8, 7, 6];
    for _ in 0..40 {
        let tok = target.forward(&plain).argmax();
        plain.push(tok);
        if tok == 0 {
            break;
        }
    }
    for lookahead in 1..6 {
        let fickle = |_: &StepLogits, _: &StepLogits, _: TokenId, numer: u64| numer % 3 != 0;
        let dec = SpeculativeDecoder::new(&twin, &target, lookahead, fickle);
        assert_eq!(dec.generate(&[9, 8, 7, 6], 40).0, &plain[4..]);
    }
}

#[test]
fn an_accepted_proposal_need_not_be_the_targets_choice() {
    let target = TinyTransformer::new(64, 4);
    let draft = TinyTransformer::draft(64, 4);
    let dec = SpeculativeDecoder::new(&draft, &target, 4, accept);
    let context = [22, 46, 0, 5];
    assert_eq!(dec.step(&context).tokens[0], 15);
    assert_eq!(target.forward(&context).argmax(), 8);
}

#[test]
fn generating_nothing_reports_a_zero_rate() {
    let target = TinyTransformer::new(64, 4);
    let draft = TinyTransformer::draft(64, 4);
    let dec = SpeculativeDecoder::new(&draft, &target, 4, accept);
    assert_eq!(
        dec.generate(&[1, 2, 3, 4], 0),
        (vec![], Ratio { numer: 0, denom: 1 })
    );
    let none = SpeculationResult {
        tokens: vec![],
        accepted: 0,
        drafted: 0,
    };
    assert_eq!(none.acceptance_rate(), Ratio { numer: 0, denom: 1 });
}
