use forge_infer::bench::{
    prompt, run_continuous, run_sequential, run_speculative, MAX_NEW, NUM_REQUESTS, PROMPT_LEN,
};
use forge_infer::model::{Model, StepLogits, TinyTransformer, TokenId};
use forge_infer::speculative::SpeculativeDecoder;
use forge_infer::tokeniser::{EOS_TOKEN, VOCAB_SIZE};
use std::sync::Arc;

fn model() -> Arc<dyn Model> {
    Arc::new(TinyTransformer::new(VOCAB_SIZE, 6).with_eos(EOS_TOKEN))
}

fn prob_of(step: &StepLogits, token: TokenId) -> f32 {
    let logits: Vec<f32> = step.logits.iter().map(|b| f32::from_bits(*b)).collect();
    let max = logits.iter().cloned().fold(f32::NEG_INFINITY, f32::max);
    let denom: f32 = logits.iter().map(|v| (v - max).exp()).sum();
    (logits[token as usize] - max).exp() / denom
}

fn accept(target: &StepLogits, draft: &StepLogits, token: TokenId, numer: u64) -> bool {
    let ratio = (prob_of(target, token) / prob_of(draft, token)).min(1.0);
    (numer as f32) / ((1u64 << 53) as f32) < ratio
}

#[test]
fn the_workload_has_fixed_prompts() {
    assert_eq!(NUM_REQUESTS, 64);
    assert_eq!(PROMPT_LEN, 16);
    assert_eq!(MAX_NEW, 64);
    assert_eq!(
        prompt(0),
        vec![1, 4, 7, 10, 13, 16, 19, 22, 25, 28, 31, 34, 37, 40, 43, 46]
    );
    assert_eq!(prompt(27)[0], 190);
    assert_eq!(prompt(27)[4], 2);
    assert_eq!(prompt(63).len(), 16);
}

#[test]
fn serving_one_at_a_time_generates_the_workload() {
    assert_eq!(run_sequential(&model()), 3690);
}

#[test]
fn continuous_batching_peaks_far_below_the_worst_case() {
    assert_eq!(run_continuous(&model()), (3690, 75));
}

#[test]
fn speculation_accepts_about_half_of_its_proposals() {
    let target = TinyTransformer::new(VOCAB_SIZE, 6).with_eos(EOS_TOKEN);
    let draft = TinyTransformer::draft(VOCAB_SIZE, 6).with_eos(EOS_TOKEN);
    let dec = SpeculativeDecoder::new(&draft, &target, 4, accept);
    let (tokens, rates) = run_speculative(&dec);
    assert_eq!(tokens, 3690);
    assert_eq!(rates.len(), 64);
    let accepted: u128 = rates.iter().map(|r| r.numer).sum();
    let drafted: u128 = rates.iter().map(|r| r.denom).sum();
    assert_eq!(accepted, 2537);
    assert_eq!(drafted, 4944);
    let mean = rates
        .iter()
        .map(|r| r.numer as f32 / r.denom as f32)
        .sum::<f32>()
        / 64.0;
    assert_eq!(format!("{:.0}%", mean * 100.0), "52%");
}
