use forge_infer::paged_cache::PagedKVCache;
use forge_infer::scheduler::{Scheduler, SchedulerConfig, SeqState, Sequence, StepPlan};

fn cache(blocks: usize, block_size: usize) -> PagedKVCache {
    PagedKVCache::new(blocks, block_size)
}

#[test]
fn admits_up_to_batch_size() {
    let mut sched = Scheduler::new(SchedulerConfig { max_batch_size: 2 }, cache(64, 8));
    for id in 0..5 {
        sched.submit(Sequence::new(id, vec![1, 2, 3], 4));
    }
    let plan = sched.schedule();
    assert_eq!(plan.admitted.len(), 2, "batch cap limits admissions");
    assert_eq!(sched.running_len(), 2);
    assert_eq!(sched.waiting_len(), 3);
}

#[test]
fn batches_decode_across_sequences() {
    let mut sched = Scheduler::new(SchedulerConfig { max_batch_size: 4 }, cache(64, 8));
    for id in 0..3 {
        sched.submit(Sequence::new(id, vec![1, 2], 5));
    }
    let plan = sched.schedule();
    // All three admitted and all three decode together in one batch.
    assert_eq!(plan.admitted.len(), 3);
    assert_eq!(plan.decode_batch.len(), 3);
}

#[test]
fn finished_sequences_retire_and_free_blocks() {
    let mut sched = Scheduler::new(SchedulerConfig::default(), cache(64, 8));
    sched.submit(Sequence::new(1, vec![1, 2], 1));
    sched.schedule();
    let used_before = sched.cache().used_blocks();
    assert!(used_before > 0);

    // Produce the one token it was allowed, then schedule again to retire.
    sched.push_token(1, 9, false);
    let plan = sched.schedule();
    assert_eq!(plan.finished, vec![1]);
    assert_eq!(sched.cache().used_blocks(), 0, "blocks returned on retire");
}

#[test]
fn eos_retires_a_sequence_early() {
    let mut sched = Scheduler::new(SchedulerConfig::default(), cache(64, 8));
    sched.submit(Sequence::new(1, vec![1, 2], 100));
    sched.schedule();
    sched.push_token(1, 0, true); // eos
    let plan = sched.schedule();
    assert_eq!(
        plan.finished,
        vec![1],
        "eos retires before the length limit"
    );
}

#[test]
fn preempts_when_blocks_run_out() {
    // A tiny cache so the decode step cannot grow every sequence. The
    // scheduler must preempt the least progressed one rather than fail.
    // block_size 1 makes every token cost a block, so pressure is exact.
    let mut sched = Scheduler::new(SchedulerConfig { max_batch_size: 8 }, cache(6, 1));
    // Two sequences, prompt length 2 each, uses 4 of 6 blocks on admission.
    sched.submit(Sequence::new(1, vec![1, 2], 50));
    sched.submit(Sequence::new(2, vec![3, 4], 50));
    let plan = sched.schedule();
    assert_eq!(plan.admitted.len(), 2);
    // 4 used, 2 free, both decode (need 2). Fine on step one.
    assert!(plan.preempted.is_empty());

    // Give each a token so they now hold 3 blocks each (6 used, 0 free).
    sched.push_token(1, 5, false);
    sched.push_token(2, 6, false);
    // Next step both need one more block but none are free -> preempt one.
    let plan = sched.schedule();
    assert_eq!(plan.preempted.len(), 1, "exactly one sequence preempted");
    // The preempted one (least output, id 2 by tie-break) returns to wait.
    assert_eq!(plan.preempted[0], 2);
    assert_eq!(sched.waiting_len(), 1);
}

#[test]
fn preempted_sequence_resumes_later() {
    let mut sched = Scheduler::new(SchedulerConfig { max_batch_size: 8 }, cache(6, 1));
    sched.submit(Sequence::new(1, vec![1, 2], 50));
    sched.submit(Sequence::new(2, vec![3, 4], 50));
    sched.schedule();
    sched.push_token(1, 5, false);
    sched.push_token(2, 6, false);
    sched.schedule(); // preempts seq 2

    // Finish seq 1 so its blocks free up, then seq 2 should be readmitted.
    sched.push_token(1, 7, false);
    // Cap seq 1 so it retires.
    sched.running_seq_mut(1).unwrap().max_new_tokens = 2;
    sched.schedule(); // retires seq 1, frees blocks
    let plan = sched.schedule(); // readmits seq 2
    assert!(
        plan.admitted.contains(&2),
        "preempted sequence must be readmitted once blocks free, plan {plan:?}"
    );
}

#[test]
fn admission_blocks_when_prompt_does_not_fit() {
    // A prompt larger than the whole cache can never be admitted, and must
    // not crash the scheduler or starve other work indefinitely.
    let mut sched = Scheduler::new(SchedulerConfig::default(), cache(2, 1));
    sched.submit(Sequence::new(1, vec![1, 2, 3, 4, 5], 1)); // needs 5 blocks
    let plan = sched.schedule();
    assert!(plan.admitted.is_empty(), "oversized prompt is not admitted");
    assert_eq!(sched.running_len(), 0);
    assert_eq!(
        sched.cache().used_blocks(),
        0,
        "no blocks leaked on failure"
    );
}

#[test]
fn idle_when_no_work() {
    let mut sched = Scheduler::new(SchedulerConfig::default(), cache(8, 4));
    assert!(sched.schedule().is_idle());
}

#[test]
fn a_plan_lists_what_happened_in_order() {
    let mut sched = Scheduler::new(SchedulerConfig { max_batch_size: 2 }, cache(64, 8));
    for id in [7, 3, 5] {
        sched.submit(Sequence::new(id, vec![1, 2], 1));
    }
    assert_eq!(
        sched.schedule(),
        StepPlan {
            admitted: vec![7, 3],
            decode_batch: vec![7, 3],
            preempted: vec![],
            finished: vec![],
        }
    );
    sched.push_token(7, 1, false);
    sched.push_token(3, 1, false);
    // The slots of the finished sequences are taken in the next iteration.
    assert_eq!(
        sched.schedule(),
        StepPlan {
            admitted: vec![],
            decode_batch: vec![],
            preempted: vec![],
            finished: vec![7, 3],
        }
    );
    assert_eq!(
        sched.schedule(),
        StepPlan {
            admitted: vec![5],
            decode_batch: vec![5],
            preempted: vec![],
            finished: vec![],
        }
    );
}

#[test]
fn the_least_progressed_sequence_is_preempted() {
    let mut sched = Scheduler::new(SchedulerConfig { max_batch_size: 8 }, cache(8, 1));
    sched.submit(Sequence::new(9, vec![1, 2], 50));
    sched.schedule();
    sched.push_token(9, 1, false);
    sched.submit(Sequence::new(1, vec![3, 4], 50));
    let plan = sched.schedule();
    assert_eq!(plan.decode_batch, vec![9, 1]);
    sched.push_token(9, 2, false);
    sched.push_token(1, 2, false);
    // 4 and 3 blocks are held, one is free and two are needed.
    let plan = sched.schedule();
    assert_eq!(plan.preempted, vec![1]);
    assert_eq!(plan.decode_batch, vec![9]);
    assert_eq!(sched.cache().seq_len(1), 0);
    assert_eq!(sched.cache().seq_len(9), 5);
}

#[test]
fn a_preempted_sequence_keeps_its_output_and_goes_first() {
    let mut sched = Scheduler::new(SchedulerConfig { max_batch_size: 2 }, cache(6, 1));
    sched.submit(Sequence::new(1, vec![1, 2], 3));
    sched.submit(Sequence::new(2, vec![3, 4], 3));
    sched.submit(Sequence::new(3, vec![5], 3));
    sched.schedule();
    sched.push_token(1, 5, false);
    sched.push_token(2, 6, false);
    assert_eq!(sched.schedule().preempted, vec![2]);
    sched.push_token(1, 7, true);
    assert_eq!(sched.schedule().finished, vec![1]);
    let plan = sched.schedule();
    assert_eq!(plan.admitted, vec![2, 3]);
    let seq = sched.running_seq_mut(2).unwrap();
    assert_eq!(seq.output, vec![6]);
    assert_eq!(seq.state, SeqState::Running);
    // Prompt, output and the reserved slot.
    assert_eq!(sched.cache().seq_len(2), 4);
}

#[test]
fn a_request_for_nothing_finishes_at_once() {
    let mut sched = Scheduler::new(SchedulerConfig::default(), cache(4, 4));
    sched.submit(Sequence::new(1, vec![1, 2], 0));
    let plan = sched.schedule();
    assert_eq!(plan.admitted, vec![1]);
    assert!(plan.decode_batch.is_empty());
    assert_eq!(plan.finished, vec![1]);
    assert!(!sched.has_work());
    assert_eq!(sched.cache().used_blocks(), 0);
}

#[test]
fn a_token_for_a_sequence_that_does_not_run_is_dropped() {
    let mut sched = Scheduler::new(SchedulerConfig::default(), cache(4, 4));
    sched.submit(Sequence::new(1, vec![1], 2));
    sched.push_token(1, 5, false);
    sched.schedule();
    assert!(sched.running_seq_mut(1).unwrap().output.is_empty());
    assert!(sched.running_seq_mut(2).is_none());
}

#[test]
fn an_oversized_request_leaves_those_ahead_running() {
    let mut sched = Scheduler::new(SchedulerConfig::default(), cache(4, 1));
    sched.submit(Sequence::new(1, vec![1], 2));
    sched.submit(Sequence::new(2, vec![1, 2, 3, 4, 5], 1));
    let plan = sched.schedule();
    assert_eq!(plan.admitted, vec![1]);
    assert_eq!(plan.decode_batch, vec![1]);
    sched.push_token(1, 4, false);
    assert_eq!(sched.schedule().decode_batch, vec![1]);
    sched.push_token(1, 4, false);
    assert_eq!(sched.schedule().finished, vec![1]);
    assert_eq!(sched.cache().used_blocks(), 0);
    assert_eq!(sched.waiting_len(), 1);
    assert!(sched.has_work());
}

#[test]
fn an_oversized_prompt_starves_nobody_behind_it() {
    let mut sched = Scheduler::new(SchedulerConfig::default(), cache(2, 1));
    sched.submit(Sequence::new(1, vec![1, 2, 3, 4, 5], 1));
    sched.submit(Sequence::new(2, vec![1], 1));
    let plan = sched.schedule();
    assert_eq!(plan.admitted, vec![2]);
    assert_eq!(plan.decode_batch, vec![2]);
    sched.push_token(2, 7, false);
    assert_eq!(sched.schedule().finished, vec![2]);
    assert!(sched.schedule().is_idle());
    assert_eq!(sched.waiting_len(), 1);
    assert_eq!(sched.cache().used_blocks(), 0);
}

#[test]
fn oversized_prompts_keep_their_place_and_the_rest_its_order() {
    let mut sched = Scheduler::new(SchedulerConfig { max_batch_size: 2 }, cache(4, 1));
    for (id, len) in [(1, 9), (2, 1), (3, 9), (4, 1), (5, 1)] {
        sched.submit(Sequence::new(id, vec![1; len], 0));
    }
    assert_eq!(sched.schedule().admitted, vec![2, 4]);
    // One that is preempted or submitted later waits among them.
    sched.submit(Sequence::new(6, vec![1; 4], 0));
    assert_eq!(sched.schedule().admitted, vec![5]);
    assert_eq!(sched.schedule().admitted, vec![6]);
    assert_eq!(sched.waiting_len(), 2);
}

#[test]
fn a_prompt_that_must_wait_is_not_passed_over() {
    // Four blocks are needed and three are free: the request waits for its
    // turn, and the one behind it with it.
    let mut sched = Scheduler::new(SchedulerConfig::default(), cache(4, 1));
    sched.cache_mut().register(77);
    sched.cache_mut().append(77, 1).unwrap();
    sched.submit(Sequence::new(1, vec![1, 2, 3, 4], 0));
    sched.submit(Sequence::new(2, vec![1], 0));
    assert!(sched.schedule().is_idle());
    sched.cache_mut().free(77);
    assert_eq!(sched.schedule().admitted, vec![1]);
}

#[test]
fn a_sequence_that_got_eos_retires_under_pressure() {
    let mut sched = Scheduler::new(SchedulerConfig { max_batch_size: 8 }, cache(6, 1));
    sched.submit(Sequence::new(1, vec![1, 2], 50));
    sched.submit(Sequence::new(2, vec![3, 4], 50));
    sched.schedule();
    sched.push_token(1, 5, false);
    sched.push_token(2, 0, true);
    // No block is free and sequence 1 needs one, but 2 is done.
    let plan = sched.schedule();
    assert_eq!(plan.finished, vec![2]);
    assert!(!plan.preempted.contains(&2));
    assert_eq!(plan.preempted, vec![1]);
    assert_eq!(sched.cache().used_blocks(), 0);
    // The blocks of 2 are free now, so 1 resumes.
    let plan = sched.schedule();
    assert_eq!(plan.admitted, vec![1]);
    assert_eq!(plan.decode_batch, vec![1]);
    assert_eq!(sched.running_seq_mut(1).unwrap().output, vec![5]);
}

#[test]
fn a_sequence_starts_waiting_and_counts_its_tokens() {
    let mut seq = Sequence::new(4, vec![1, 2, 3], 2);
    assert_eq!(seq.state, SeqState::Waiting);
    assert_eq!(seq.total_len(), 3);
    assert!(!seq.is_complete());
    seq.output.push(9);
    seq.output.push(9);
    assert_eq!(seq.total_len(), 5);
    assert!(seq.is_complete());
    assert_eq!(SchedulerConfig::default().max_batch_size, 8);
}

#[test]
fn the_cache_is_reached_through_the_scheduler() {
    let mut sched = Scheduler::new(SchedulerConfig::default(), cache(4, 1));
    sched.cache_mut().register(77);
    sched.cache_mut().append(77, 3).unwrap();
    sched.submit(Sequence::new(1, vec![1, 2], 1));
    assert!(sched.schedule().is_idle());
    sched.cache_mut().free(77);
    assert_eq!(sched.schedule().admitted, vec![1]);
}
