//! Continuous batching with iteration-level scheduling.
//!
//! Every decode iteration makes a scheduling decision. A sequence that is
//! complete leaves the batch at once and a waiting request takes its place. The
//! scheduler decides *which* sequences run; the engine performs the forward
//! passes. What it decides is defined in [`crate::policy`].
use std::collections::VecDeque;
use vstd::prelude::*;

use crate::arith::div_ceil;
use crate::model::TokenId;
use crate::paged_cache::{PagedKVCache, SeqId};
use crate::policy::{PlanView, SchedView, SeqView};
#[allow(unused_imports)]
use crate::{paged_cache, policy};

verus! {

/// The lifecycle state of a sequence inside the engine.
#[derive(Debug, Clone, Copy, PartialEq, Eq, Structural)]
pub enum SeqState {
    /// In the queue, not yet admitted to the running batch.
    Waiting,
    /// In the running batch, advancing one token per step.
    Running,
    /// Was running, got preempted, waiting to resume.
    Preempted,
    /// Reached eos or its length limit.
    Finished,
}

/// A request the scheduler tracks from admission to completion.
#[derive(Debug, Clone)]
pub struct Sequence {
    pub id: SeqId,
    pub prompt: Vec<TokenId>,
    /// Tokens generated so far. Does not contain the prompt.
    pub output: Vec<TokenId>,
    pub max_new_tokens: usize,
    pub state: SeqState,
}

impl View for Sequence {
    type V = SeqView;

    open spec fn view(&self) -> SeqView {
        SeqView {
            id: self.id,
            prompt: self.prompt@,
            output: self.output@,
            limit: self.max_new_tokens as nat,
            state: self.state,
        }
    }
}

impl Sequence {
    pub fn new(id: SeqId, prompt: Vec<TokenId>, max_new_tokens: usize) -> (r: Self)
        ensures
            r@ == SeqView::fresh(id, prompt@, max_new_tokens as nat),
    {
        Sequence { id, prompt, output: Vec::new(), max_new_tokens, state: SeqState::Waiting }
    }

    /// Total tokens currently stored for this sequence: prompt plus output.
    pub fn total_len(&self) -> (r: usize)
        requires
            self@.total_len() <= usize::MAX,
        ensures
            r == self@.total_len(),
    {
        self.prompt.len() + self.output.len()
    }

    /// Whether the sequence has produced all the tokens it was asked for.
    pub fn is_complete(&self) -> (r: bool)
        ensures
            r == self@.complete(),
    {
        self.output.len() >= self.max_new_tokens
    }

    /// Whether the sequence takes part in the next decode step.
    fn is_growing(&self) -> (r: bool)
        ensures
            r == self@.growing(),
    {
        self.state == SeqState::Running && !self.is_complete()
    }
}

/// The decisions the scheduler made on one iteration.
#[derive(Debug, Clone, PartialEq, Eq)]
pub struct StepPlan {
    /// Sequences admitted from the waiting queue this step.
    pub admitted: Vec<SeqId>,
    /// Sequences that will decode one token this step, in batch order.
    pub decode_batch: Vec<SeqId>,
    /// Sequences preempted this step to free KV blocks.
    pub preempted: Vec<SeqId>,
    /// Sequences retired this step.
    pub finished: Vec<SeqId>,
}

impl View for StepPlan {
    type V = PlanView;

    open spec fn view(&self) -> PlanView {
        PlanView {
            admitted: self.admitted@,
            decode_batch: self.decode_batch@,
            preempted: self.preempted@,
            finished: self.finished@,
        }
    }
}

impl Default for StepPlan {
    fn default() -> (r: StepPlan)
        ensures
            r@.idle(),
    {
        StepPlan {
            admitted: Vec::new(),
            decode_batch: Vec::new(),
            preempted: Vec::new(),
            finished: Vec::new(),
        }
    }
}

impl StepPlan {
    pub fn is_idle(&self) -> (r: bool)
        ensures
            r == self@.idle(),
    {
        self.admitted.is_empty() && self.decode_batch.is_empty() && self.preempted.is_empty()
            && self.finished.is_empty()
    }
}

/// Limits that shape the scheduler's decisions.
#[derive(Debug, Clone)]
pub struct SchedulerConfig {
    /// Maximum number of sequences decoding concurrently.
    pub max_batch_size: usize,
}

impl Default for SchedulerConfig {
    fn default() -> (r: SchedulerConfig)
        ensures
            r.max_batch_size == 8,
    {
        SchedulerConfig { max_batch_size: 8 }
    }
}

/// A list of requests as mathematics.
pub open spec fn views(list: Seq<Sequence>) -> Seq<SeqView> {
    list.map_values(|q: Sequence| q@)
}

/// The continuous batching scheduler. It owns the KV-cache and the set of live
/// sequences.
pub struct Scheduler {
    config: SchedulerConfig,
    cache: PagedKVCache,
    waiting: VecDeque<Sequence>,
    running: Vec<Sequence>,
}

impl View for Scheduler {
    type V = SchedView;

    closed spec fn view(&self) -> SchedView {
        SchedView {
            max_batch: self.config.max_batch_size as nat,
            cache: self.cache@,
            waiting: views(self.waiting@),
            running: views(self.running@),
        }
    }
}

impl Scheduler {
    /// The invariant: the cache is well formed.
    pub open spec fn wf(&self) -> bool {
        self@.cache.wf()
    }

    pub fn new(config: SchedulerConfig, cache: PagedKVCache) -> (r: Self)
        ensures
            r@ == (SchedView {
                max_batch: config.max_batch_size as nat,
                cache: cache@,
                waiting: Seq::empty(),
                running: Seq::empty(),
            }),
            r.wf() == cache.wf(),
    {
        let r = Scheduler { config, cache, waiting: VecDeque::new(), running: Vec::new() };
        assert(r@.waiting =~= Seq::empty());
        assert(r@.running =~= Seq::empty());
        r
    }

    pub fn cache(&self) -> (r: &PagedKVCache)
        ensures
            r@ == self@.cache,
    {
        &self.cache
    }

    pub fn cache_mut(&mut self) -> (r: &mut PagedKVCache)
        ensures
            r@ == old(self)@.cache,
            final(self)@ == (SchedView { cache: final(r)@, ..old(self)@ }),
    {
        &mut self.cache
    }

    /// Submit a request. It joins the back of the waiting queue.
    pub fn submit(&mut self, seq: Sequence)
        ensures
            final(self)@ == old(self)@.submit(seq@),
            final(self).wf() == old(self).wf(),
    {
        self.waiting.push_back(seq);
        assert(self@.waiting =~= old(self)@.waiting.push(seq@));
    }

    pub fn waiting_len(&self) -> (r: usize)
        ensures
            r == self@.waiting.len(),
    {
        self.waiting.len()
    }

    pub fn running_len(&self) -> (r: usize)
        ensures
            r == self@.running.len(),
    {
        self.running.len()
    }

    /// Are there any sequences left to work on?
    pub fn has_work(&self) -> (r: bool)
        ensures
            r == self@.has_work(),
    {
        self.waiting.len() > 0 || self.running.len() > 0
    }

    /// The position of the first running sequence with an id.
    fn find_running(&self, id: SeqId) -> (r: Option<usize>)
        ensures
            match r {
                Some(i) => policy::has_id(self@.running, id) && i == policy::position(
                    self@.running,
                    id,
                ) && policy::is_first(self@.running, id, i as int),
                None => !policy::has_id(self@.running, id),
            },
    {
        let mut i: usize = 0;
        while i < self.running.len()
            invariant
                i <= self.running@.len(),
                self@.running == views(self.running@),
                forall|j: int| 0 <= j < i ==> (#[trigger] self@.running[j]).id != id,
            decreases self.running@.len() - i,
        {
            assert(self@.running[i as int] == self.running@[i as int]@);
            if self.running[i].id == id {
                assert(policy::is_first(self@.running, id, i as int));
                return Some(i);
            }
            i = i + 1;
        }
        None
    }

    /// Look up a running sequence by id, to read its context or change it.
    pub fn running_seq_mut(&mut self, id: SeqId) -> (r: Option<&mut Sequence>)
        ensures
            match r {
                Some(q) => {
                    &&& policy::has_id(old(self)@.running, id)
                    &&& q@ == old(self)@.running[policy::position(old(self)@.running, id)]
                    &&& final(self)@ == (SchedView {
                        running: old(self)@.running.update(
                            policy::position(old(self)@.running, id),
                            final(q)@,
                        ),
                        ..old(self)@
                    })
                },
                None => !policy::has_id(old(self)@.running, id) && final(self)@ == old(self)@,
            },
    {
        match self.find_running(id) {
            Some(i) => {
                let q = &mut self.running[i];
                Some(q)
            },
            None => None,
        }
    }

    /// Whether a request that waits needs more blocks than the cache has.
    fn is_oversized(&self, at: usize) -> (r: bool)
        requires
            self.wf(),
            at < self@.waiting.len(),
        ensures
            r == policy::oversized(self@.cache, self@.waiting[at as int]),
    {
        let ghost q = self@.waiting[at as int];
        assert(q == self.waiting@[at as int]@);
        match self.waiting[at].prompt.len().checked_add(self.waiting[at].output.len()) {
            Some(n) => div_ceil(n, self.cache.block_size()) > self.cache.total_blocks(),
            None => {
                proof {
                    lemma_too_long(self@.cache, q);
                }
                true
            },
        }
    }

    /// The first request of the queue that is not oversized, from a position on
    /// before which all are.
    fn skip_oversized(&self, from: usize) -> (r: usize)
        requires
            self.wf(),
            from <= self@.waiting.len(),
            forall|j: int|
                0 <= j < from ==> policy::oversized(self@.cache, #[trigger] self@.waiting[j]),
        ensures
            from <= r <= self@.waiting.len(),
            r < self@.waiting.len() ==> policy::is_candidate(
                self@.cache,
                self@.waiting,
                r as int,
            ),
            forall|j: int|
                0 <= j < r ==> policy::oversized(self@.cache, #[trigger] self@.waiting[j]),
    {
        let mut at: usize = from;
        while at < self.waiting.len() && self.is_oversized(at)
            invariant
                self.wf(),
                from <= at <= self@.waiting.len(),
                forall|j: int|
                    0 <= j < at ==> policy::oversized(self@.cache, #[trigger] self@.waiting[j]),
            decreases self@.waiting.len() - at,
        {
            at = at + 1;
        }
        at
    }

    /// Admission: pull waiting requests in while the batch has room and the
    /// cache can hold their tokens.
    fn admit_waiting(&mut self) -> (r: Vec<SeqId>)
        requires
            old(self).wf(),
        ensures
            final(self).wf(),
            final(self)@ == old(self)@.after_admission(),
            r@ == old(self)@.admitted(),
    {
        let mut admitted: Vec<SeqId> = Vec::new();
        let ghost start = self@;
        let mut at: usize = 0;
        loop
            invariant_except_break
                self.wf(),
                self@.after_admission() == start.after_admission(),
                admitted@ + self@.admitted() == start.admitted(),
                at <= self@.waiting.len(),
                forall|j: int|
                    0 <= j < at ==> policy::oversized(self@.cache, #[trigger] self@.waiting[j]),
            ensures
                self.wf(),
                self@ == start.after_admission(),
                admitted@ == start.admitted(),
            decreases self.waiting@.len(),
        {
            let ghost before = self@;
            at = self.skip_oversized(at);
            if self.running.len() >= self.config.max_batch_size || at >= self.waiting.len() {
                assert(admitted@ + before.admitted() =~= admitted@);
                break;
            }
            proof {
                policy::lemma_candidate_unique(before, at as int);
                assert(before.candidate() == self.waiting@[at as int]@);
            }
            let id: SeqId = self.waiting[at].id;
            let tokens: Option<usize> = self.waiting[at].prompt.len().checked_add(
                self.waiting[at].output.len(),
            );
            self.cache.register(id);
            let placed: bool = match tokens {
                Some(n) => self.cache.append(id, n).is_ok(),
                None => {
                    proof {
                        lemma_too_long(before.cache, before.candidate());
                    }
                    false
                },
            };
            if !placed {
                // The request waits; the cache forgets it again.
                self.cache.free(id);
                assert(admitted@ + before.admitted() =~= admitted@);
                assert(self@ == before.after_admission());
                break;
            }
            match self.waiting.remove(at) {
                Some(mut seq) => {
                    seq.state = SeqState::Running;
                    self.running.push(seq);
                },
                None => {},
            }
            admitted.push(id);
            proof {
                assert(self@.waiting =~= before.take_candidate().waiting);
                assert(self@.running =~= before.take_candidate().running);
                assert(self@ =~= before.take_candidate());
                assert(admitted@ + self@.admitted() =~= admitted@.drop_last() + (seq![id]
                    + self@.admitted()));
                assert(admitted@.drop_last() + before.admitted() == start.admitted());
                assert forall|j: int| 0 <= j < at implies policy::oversized(
                    self@.cache,
                    #[trigger] self@.waiting[j],
                ) by {
                    assert(self@.waiting[j] == before.waiting[j]);
                }
            }
        }
        admitted
    }

    /// The blocks that the growing sequences ask for, one token each.
    fn blocks_demanded(&self) -> (r: usize)
        requires
            self.wf(),
        ensures
            r == policy::demand(self@.cache, self@.running),
    {
        let mut needed: usize = 0;
        let mut i: usize = 0;
        assert(self@.running.take(0) =~= Seq::empty());
        while i < self.running.len()
            invariant
                self.wf(),
                i <= self.running@.len(),
                needed <= i,
                needed == policy::demand(self@.cache, self@.running.take(i as int)),
            decreases self.running@.len() - i,
        {
            proof {
                assert(self@.running.take(i + 1).drop_last() =~= self@.running.take(i as int));
                assert(self@.running.take(i + 1).last() == self.running@[i as int]@);
                lemma_one_token(self@.cache, self@.running[i as int].id);
            }
            if self.running[i].is_growing() {
                needed = needed + self.cache.blocks_needed_for(self.running[i].id, 1);
            }
            i = i + 1;
        }
        assert(self@.running.take(i as int) =~= self@.running);
        needed
    }

    /// The growing sequence to preempt: the one with the least output, where the
    /// larger id breaks a tie. A complete sequence is about to retire and stays.
    fn pick_victim(&self) -> (r: Option<usize>)
        ensures
            match r {
                Some(i) => policy::has_victim(self@.running) && i == policy::victim(self@.running)
                    && i < self@.running.len(),
                None => !policy::has_victim(self@.running),
            },
    {
        let mut best: Option<usize> = None;
        let mut i: usize = 0;
        while i < self.running.len()
            invariant
                i <= self.running@.len(),
                match best {
                    Some(b) => {
                        &&& b < i
                        &&& self@.running[b as int].growing()
                        &&& forall|j: int|
                            0 <= j < i && (#[trigger] self@.running[j]).growing()
                                ==> !self@.running[j].yields_before(self@.running[b as int])
                        &&& forall|j: int|
                            0 <= j < b && (#[trigger] self@.running[j]).growing()
                                ==> self@.running[b as int].yields_before(self@.running[j])
                    },
                    None => forall|j: int|
                        0 <= j < i ==> !(#[trigger] self@.running[j]).growing(),
                },
            decreases self.running@.len() - i,
        {
            assert(self@.running[i as int] == self.running@[i as int]@);
            if self.running[i].is_growing() {
                let better: bool = match best {
                    Some(b) => {
                        assert(self@.running[b as int] == self.running@[b as int]@);
                        let mine: usize = self.running[i].output.len();
                        let theirs: usize = self.running[b].output.len();
                        mine < theirs || (mine == theirs && self.running[i].id
                            > self.running[b].id)
                    },
                    None => true,
                };
                if better {
                    best = Some(i);
                }
            }
            i = i + 1;
        }
        proof {
            match best {
                Some(b) => {
                    assert(policy::is_victim(self@.running, b as int));
                    policy::lemma_victim_unique(self@.running, b as int);
                },
                None => {},
            }
        }
        best
    }

    /// Preemption: send the least progressed of the growing sequences back to
    /// waiting until the rest can grow.
    fn make_room(&mut self) -> (r: Vec<SeqId>)
        requires
            old(self).wf(),
        ensures
            final(self).wf(),
            final(self)@ == old(self)@.after_preemption(),
            r@ == old(self)@.preempted(),
    {
        let mut preempted: Vec<SeqId> = Vec::new();
        let ghost start = self@;
        loop
            invariant_except_break
                self.wf(),
                self@.after_preemption() == start.after_preemption(),
                preempted@ + self@.preempted() == start.preempted(),
            ensures
                self.wf(),
                self@ == start.after_preemption(),
                preempted@ == start.preempted(),
            decreases self.running@.len(),
        {
            let ghost before = self@;
            if self.blocks_demanded() <= self.cache.free_blocks() {
                assert(preempted@ + before.preempted() =~= preempted@);
                break;
            }
            match self.pick_victim() {
                Some(i) => {
                    let mut seq = self.running.remove(i);
                    assert(seq@ == before.running[i as int]);
                    self.cache.free(seq.id);
                    seq.state = SeqState::Preempted;
                    preempted.push(seq.id);
                    self.waiting.push_front(seq);
                    proof {
                        assert(self@.waiting =~= before.preempt_victim().waiting);
                        assert(self@.running =~= before.preempt_victim().running);
                        assert(self@ =~= before.preempt_victim());
                        assert(preempted@ + self@.preempted() =~= preempted@.drop_last() + (
                        seq![preempted@.last()] + self@.preempted()));
                        assert(preempted@.drop_last() + before.preempted() == start.preempted());
                    }
                },
                None => {
                    assert(preempted@ + before.preempted() =~= preempted@);
                    break;
                },
            }
        }
        preempted
    }

    /// Commitment: reserve a token for every growing sequence.
    fn reserve_decode(&mut self) -> (r: Vec<SeqId>)
        requires
            old(self).wf(),
        ensures
            final(self).wf(),
            final(self)@ == (SchedView {
                cache: policy::commit(old(self)@.cache, old(self)@.running),
                ..old(self)@
            }),
            r@ == policy::decode_batch(old(self)@.cache, old(self)@.running),
    {
        let mut batch: Vec<SeqId> = Vec::new();
        let ghost start = self@;
        let mut i: usize = 0;
        assert(start.running.take(0) =~= Seq::empty());
        while i < self.running.len()
            invariant
                self.wf(),
                i <= self.running@.len(),
                self@ == (SchedView {
                    cache: policy::commit(start.cache, start.running.take(i as int)),
                    ..start
                }),
                batch@ == policy::decode_batch(start.cache, start.running.take(i as int)),
            decreases self.running@.len() - i,
        {
            proof {
                assert(start.running.take(i + 1).drop_last() =~= start.running.take(i as int));
                assert(start.running.take(i + 1).last() == self.running@[i as int]@);
            }
            if self.running[i].is_growing() {
                let id: SeqId = self.running[i].id;
                match self.cache.append(id, 1) {
                    Ok(()) => {
                        batch.push(id);
                    },
                    Err(_) => {},
                }
            }
            i = i + 1;
        }
        assert(start.running.take(i as int) =~= start.running);
        batch
    }

    /// Retirement: remove the complete sequences and free their blocks.
    fn retire_complete(&mut self) -> (r: Vec<SeqId>)
        requires
            old(self).wf(),
        ensures
            final(self).wf(),
            final(self)@ == (SchedView {
                cache: policy::retire(old(self)@.cache, old(self)@.running),
                running: policy::survivors(old(self)@.running),
                ..old(self)@
            }),
            r@ == policy::finished(old(self)@.running),
    {
        let mut done: Vec<SeqId> = Vec::new();
        let mut still_running: Vec<Sequence> = Vec::new();
        let mut drained: Vec<Sequence> = Vec::new();
        std::mem::swap(&mut drained, &mut self.running);
        let ghost start = old(self)@;
        let ghost empty = self.running@;
        let ghost batch = views(drained@);
        assert(batch.take(0) =~= Seq::empty());
        for seq in walk: drained
            invariant
                self.wf(),
                batch == start.running,
                batch == views(walk.seq()),
                self.running@ == empty,
                empty.len() == 0,
                self@ == (SchedView {
                    cache: policy::retire(start.cache, batch.take(walk.index())),
                    running: views(empty),
                    ..start
                }),
                done@ == policy::finished(batch.take(walk.index())),
                views(still_running@) =~= policy::survivors(batch.take(walk.index())),
        {
            proof {
                let i = walk.index();
                assert(batch.take(i + 1).drop_last() =~= batch.take(i));
                assert(batch.take(i + 1).last() == seq@);
            }
            if seq.is_complete() {
                self.cache.free(seq.id);
                done.push(seq.id);
            } else {
                still_running.push(seq);
            }
        }
        assert(batch.take(batch.len() as int) =~= batch);
        self.running = still_running;
        done
    }

    /// Plan one scheduling iteration. This changes the cache and the waiting and
    /// running sets, and returns the plan that the engine should execute. It
    /// runs no forward pass.
    pub fn schedule(&mut self) -> (r: StepPlan)
        requires
            old(self).wf(),
        ensures
            final(self).wf(),
            final(self)@ == old(self)@.after_schedule(),
            r@ == old(self)@.plan(),
    {
        let admitted = self.admit_waiting();
        let preempted = self.make_room();
        let decode_batch = self.reserve_decode();
        let finished = self.retire_complete();
        StepPlan { admitted, decode_batch, preempted, finished }
    }

    /// Record a generated token for a running sequence. The end-of-sequence
    /// token forces retirement on the next iteration.
    pub fn push_token(&mut self, id: SeqId, token: TokenId, is_eos: bool)
        ensures
            final(self)@ == old(self)@.push_token(id, token, is_eos),
            final(self).wf() == old(self).wf(),
    {
        match self.find_running(id) {
            Some(i) => {
                let seq = &mut self.running[i];
                seq.output.push(token);
                if is_eos {
                    seq.max_new_tokens = seq.output.len();
                }
                assert(self@.running =~= old(self)@.push_token(id, token, is_eos).running);
            },
            None => {},
        }
    }
}

/// A token takes at most one new block.
proof fn lemma_one_token(c: paged_cache::CacheView, seq: SeqId)
    requires
        c.wf(),
    ensures
        c.needed(seq, 1) <= 1,
{
    if c.slack(seq) < 1 {
        assert(c.slack(seq) == 0);
        crate::arith::lemma_ceil_div_unique(1, c.block_size, 1);
    }
}

/// More tokens than a `usize` counts are too many for any cache.
proof fn lemma_too_long(c: paged_cache::CacheView, q: SeqView)
    requires
        c.wf(),
        q.total_len() > usize::MAX,
    ensures
        policy::oversized(c, q),
{
    let n = crate::arith::ceil_div(q.total_len(), c.block_size);
    crate::arith::lemma_ceil_div(q.total_len(), c.block_size);
    if n <= c.num_blocks {
        assert(n * c.block_size <= c.num_blocks * c.block_size) by (nonlinear_arith)
            requires
                n <= c.num_blocks,
        ;
    }
}

} // verus!
