use forge_infer::engine::{Engine, MAX_STEPS};
use forge_infer::model::{LogitBits, Model, StepLogits, TinyTransformer, TokenId};
use forge_infer::paged_cache::PagedKVCache;
use forge_infer::scheduler::SchedulerConfig;
use std::sync::Arc;

fn engine(blocks: usize, batch: usize) -> Engine<dyn Model> {
    let model: Arc<dyn Model> = Arc::new(TinyTransformer::new(64, 4));
    Engine::new(
        model,
        SchedulerConfig {
            max_batch_size: batch,
        },
        PagedKVCache::new(blocks, 8),
    )
}

#[test]
fn single_request_produces_requested_tokens() {
    let mut eng = engine(64, 4);
    eng.submit(1, vec![1, 2, 3], 5);
    let out = eng.run_to_completion();
    assert_eq!(out.len(), 1);
    assert!(out[0].tokens.len() <= 5);
    assert!(!out[0].tokens.is_empty());
}

#[test]
fn many_requests_all_complete_under_pressure() {
    // More requests than batch slots and a small cache forces the scheduler
    // to interleave, preempt and resume. Every request must still finish.
    let mut eng = engine(32, 2);
    for id in 0..10 {
        eng.submit(id, vec![1, 2, 3], 6);
    }
    let out = eng.run_to_completion();
    assert_eq!(out.len(), 10, "every request must complete");
    for o in &out {
        assert!(!o.tokens.is_empty());
    }
}

#[test]
fn output_is_deterministic() {
    let mut a = engine(64, 4);
    let mut b = engine(64, 4);
    a.submit(1, vec![5, 6, 7], 8);
    b.submit(1, vec![5, 6, 7], 8);
    assert_eq!(
        a.run_to_completion()[0].tokens,
        b.run_to_completion()[0].tokens
    );
}

/// Decode a prompt without an engine.
fn plain(model: &dyn Model, prompt: &[TokenId], limit: usize) -> Vec<TokenId> {
    let mut context = prompt.to_vec();
    let mut out = Vec::new();
    while out.len() < limit {
        let token = model.forward(&context).argmax();
        context.push(token);
        out.push(token);
        if token == model.eos_token() {
            break;
        }
    }
    out
}

#[test]
fn the_engine_emits_the_greedy_tokens() {
    let mut eng = engine(64, 4);
    eng.submit(1, vec![1, 2, 3], 5);
    assert_eq!(eng.run_one(), vec![38, 15, 19, 18, 52]);
    eng.submit(2, vec![5, 6, 7], 8);
    assert_eq!(
        eng.scheduler_mut_run(3, 8),
        vec![51, 41, 38, 30, 47, 13, 13, 19]
    );
}

#[test]
fn batching_and_preemption_are_invisible() {
    let model: Arc<dyn Model> = Arc::new(TinyTransformer::new(64, 4));
    // Each request may need 20 of the 24 blocks, so batches are torn apart.
    let mut eng = Engine::new(
        model.clone(),
        SchedulerConfig { max_batch_size: 6 },
        PagedKVCache::new(24, 1),
    );
    let mut preempted = 0;
    for id in 0..9u64 {
        eng.submit(id, vec![id as TokenId, 2, 3, 4], 16);
    }
    let mut outputs: Vec<Vec<TokenId>> = vec![Vec::new(); 9];
    while eng.scheduler_mut().has_work() {
        let before = eng.scheduler_mut().waiting_len();
        for (id, token, is_eos) in eng.step() {
            assert_eq!(is_eos, token == 0);
            outputs[id as usize].push(token);
        }
        if eng.scheduler_mut().waiting_len() > before {
            preempted += 1;
        }
    }
    assert!(preempted > 0);
    for (id, tokens) in outputs.iter().enumerate() {
        let prompt = [id as TokenId, 2, 3, 4];
        assert_eq!(tokens, &plain(&*model, &prompt, 16));
    }
    assert_eq!(eng.scheduler_mut().cache().used_blocks(), 0);
}

#[test]
fn outputs_are_sorted_by_id() {
    let mut eng = engine(64, 4);
    for id in [9, 2, 5] {
        eng.submit(id, vec![1, 2, 3], 2);
    }
    let ids: Vec<u64> = eng.run_to_completion().iter().map(|o| o.id).collect();
    assert_eq!(ids, vec![2, 5, 9]);
}

#[test]
fn an_engine_without_work_emits_nothing() {
    let mut eng = engine(64, 4);
    assert!(eng.step().is_empty());
    assert!(eng.run_to_completion().is_empty());
    assert!(eng.run_one().is_empty());
    eng.submit(1, vec![1, 2, 3], 0);
    assert!(eng.run_one().is_empty());
    assert!(!eng.scheduler_mut().has_work());
}

#[test]
fn a_request_that_never_fits_ends_the_run_at_the_guard() {
    let mut eng = engine(1, 4);
    eng.submit(1, vec![7; 9], 4);
    eng.submit(2, vec![1, 2, 3], 5);
    let out = eng.run_to_completion();
    // The request behind it is answered all the same.
    assert_eq!(out.len(), 1);
    assert_eq!(out[0].id, 2);
    assert_eq!(out[0].tokens, vec![38, 15, 19, 18, 52]);
    assert!(eng.scheduler_mut().has_work());
    assert_eq!(eng.scheduler_mut().cache().used_blocks(), 0);
    assert_eq!(MAX_STEPS, 1_000_000);
}

/// A backend of the caller's own: it repeats the last token and then ends.
struct Echo;

impl Model for Echo {
    fn vocab_size(&self) -> usize {
        4
    }

    fn num_layers(&self) -> usize {
        1
    }

    fn eos_token(&self) -> TokenId {
        3
    }

    fn forward(&self, context: &[TokenId]) -> StepLogits {
        let last = context.last().copied().unwrap_or(0);
        let next = if context.len() < 4 { last } else { 3 };
        let logits: Vec<LogitBits> = (0..4u32)
            .map(|t| if t == next { 1.0f32 } else { -1.0f32 }.to_bits())
            .collect();
        StepLogits { logits }
    }
}

#[test]
fn a_backend_can_be_swapped_in() {
    let mut eng = Engine::new(
        Arc::new(Echo),
        SchedulerConfig::default(),
        PagedKVCache::new(8, 2),
    );
    eng.submit(1, vec![1, 2], 10);
    assert_eq!(eng.step(), vec![(1, 2, false)]);
    assert_eq!(eng.step(), vec![(1, 2, false)]);
    assert_eq!(eng.step(), vec![(1, 3, true)]);
    assert!(eng.step().is_empty());
    assert!(!eng.scheduler_mut().has_work());
}

#[test]
fn a_run_fits_a_cache_of_its_peak() {
    let run = |blocks: usize| {
        let mut eng = Engine::new(
            Arc::new(TinyTransformer::new(64, 4)),
            SchedulerConfig { max_batch_size: 4 },
            PagedKVCache::new(blocks, 4),
        );
        for id in 0..12u64 {
            eng.submit(id, vec![id as TokenId, 9, 9, 9, 1], 10);
        }
        let mut emitted = Vec::new();
        while eng.scheduler_mut().has_work() {
            emitted.extend(eng.step());
        }
        (emitted, eng.scheduler_mut().cache().peak_blocks())
    };
    let (emitted, peak) = run(500);
    assert!(peak < 500);
    assert_eq!(run(peak), (emitted, peak));
}
