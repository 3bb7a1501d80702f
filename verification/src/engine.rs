//! The inference engine: the loop that drives the scheduler and the model.
//!
//! Every iteration it asks the scheduler for a plan, runs one forward pass for
//! each sequence in the decode batch, and feeds the generated tokens back.
use std::sync::Arc;
use vstd::prelude::*;

use crate::model::{join_tokens, Model, TokenId};
use crate::paged_cache::{PagedKVCache, SeqId};
use crate::policy::{SchedView, SeqView};
use crate::scheduler::{Scheduler, SchedulerConfig, Sequence};
#[allow(unused_imports)]
use crate::{model, policy};

verus! {

/// A token that an iteration generated: for which request, and whether it ends
/// the sequence.
pub type Emission = (SeqId, TokenId, bool);

/// The token generated next for the running sequence with an id.
pub open spec fn token_for<M: Model + ?Sized>(model: &M, s: SchedView, id: SeqId) -> TokenId {
    model::next_token(model, s.running[policy::position(s.running, id)].context())
}

/// The scheduler after each sequence of a batch has got its next token.
pub open spec fn after_decode<M: Model + ?Sized>(
    model: &M,
    s: SchedView,
    batch: Seq<SeqId>,
) -> SchedView
    decreases batch.len(),
{
    if batch.len() == 0 {
        s
    } else {
        let before = after_decode(model, s, batch.drop_last());
        let token = token_for(model, before, batch.last());
        before.push_token(batch.last(), token, token == model.eos())
    }
}

/// The tokens that decoding a batch generates, in batch order.
pub open spec fn decoded<M: Model + ?Sized>(
    model: &M,
    s: SchedView,
    batch: Seq<SeqId>,
) -> Seq<Emission>
    decreases batch.len(),
{
    if batch.len() == 0 {
        Seq::empty()
    } else {
        let token = token_for(model, after_decode(model, s, batch.drop_last()), batch.last());
        decoded(model, s, batch.drop_last()).push((batch.last(), token, token == model.eos()))
    }
}

/// The scheduler after an iteration: schedule, then decode the batch.
pub open spec fn after_step<M: Model + ?Sized>(model: &M, s: SchedView) -> SchedView {
    after_decode(model, s.after_schedule(), s.plan().decode_batch)
}

/// The tokens that an iteration generates.
pub open spec fn step_emits<M: Model + ?Sized>(model: &M, s: SchedView) -> Seq<Emission> {
    decoded(model, s.after_schedule(), s.plan().decode_batch)
}

/// The scheduler after iterating until there is no work, `fuel` times at most.
pub open spec fn after_run<M: Model + ?Sized>(model: &M, s: SchedView, fuel: nat) -> SchedView
    decreases fuel,
{
    if fuel == 0 || !s.has_work() {
        s
    } else {
        after_run(model, after_step(model, s), (fuel - 1) as nat)
    }
}

/// The tokens that iterating until there is no work generates.
pub open spec fn run_emits<M: Model + ?Sized>(
    model: &M,
    s: SchedView,
    fuel: nat,
) -> Seq<Emission>
    decreases fuel,
{
    if fuel == 0 || !s.has_work() {
        Seq::empty()
    } else {
        step_emits(model, s) + run_emits(model, after_step(model, s), (fuel - 1) as nat)
    }
}

/// The tokens generated for one request, in order.
pub open spec fn tokens_of(emitted: Seq<Emission>, id: SeqId) -> Seq<TokenId>
    decreases emitted.len(),
{
    if emitted.len() == 0 {
        Seq::empty()
    } else if emitted.last().0 == id {
        tokens_of(emitted.drop_last(), id).push(emitted.last().1)
    } else {
        tokens_of(emitted.drop_last(), id)
    }
}

/// How many iterations [`Engine::run_to_completion`] makes at most.
pub const MAX_STEPS: usize = 1_000_000;

/// Whether the model can continue every live sequence.
pub open spec fn servable<M: Model + ?Sized>(model: &M) -> spec_fn(SeqView) -> bool {
    |q: SeqView| model::serves(model, q.context())
}

/// The result of running one request to completion.
#[derive(Debug, Clone)]
pub struct GenerationOutput {
    pub id: u64,
    pub tokens: Vec<TokenId>,
}

/// Whether outputs collect what was emitted: one for each request that anything
/// was emitted for, in the order of their ids.
pub open spec fn collects(outputs: Seq<GenerationOutput>, emitted: Seq<Emission>) -> bool {
    &&& forall|i: int, j: int|
        0 <= i < j < outputs.len() ==> (#[trigger] outputs[i]).id < (#[trigger] outputs[j]).id
    &&& forall|i: int|
        0 <= i < outputs.len() ==> (#[trigger] outputs[i]).tokens@ == tokens_of(
            emitted,
            outputs[i].id,
        ) && outputs[i].tokens@.len() > 0
    &&& forall|id: SeqId| #[trigger]
        tokens_of(emitted, id).len() > 0 ==> exists|i: int|
            0 <= i < outputs.len() && (#[trigger] outputs[i]).id == id
}

/// Add a token to the output of its request.
fn record(outputs: &mut Vec<GenerationOutput>, emission: Emission, Ghost(emitted): Ghost<
    Seq<Emission>,
>)
    requires
        collects(old(outputs)@, emitted),
    ensures
        collects(final(outputs)@, emitted.push(emission)),
{
    let (id, token, _is_eos) = emission;
    let ghost before = outputs@;
    let ghost after = emitted.push(emission);
    proof {
        assert(after.drop_last() =~= emitted);
        assert(tokens_of(after, id) == tokens_of(emitted, id).push(token));
        assert forall|o: SeqId| o != id implies #[trigger] tokens_of(after, o) == tokens_of(
            emitted,
            o,
        ) by {}
    }
    let mut i: usize = 0;
    while i < outputs.len() && outputs[i].id < id
        invariant
            outputs@ == before,
            i <= before.len(),
            forall|j: int| 0 <= j < i ==> (#[trigger] before[j]).id < id,
        decreases before.len() - i,
    {
        i = i + 1;
    }
    if i < outputs.len() && outputs[i].id == id {
        outputs[i].tokens.push(token);
        proof {
            assert(outputs@[i as int].tokens@ == before[i as int].tokens@.push(token));
            assert forall|o: SeqId| #[trigger] tokens_of(after, o).len() > 0 implies exists|k: int|
                0 <= k < outputs@.len() && (#[trigger] outputs@[k]).id == o by {
                if o == id {
                    assert(outputs@[i as int].id == o);
                } else {
                    let k = choose|k: int| 0 <= k < before.len() && (#[trigger] before[k]).id == o;
                    assert(outputs@[k].id == o);
                }
            }
        }
    } else {
        proof {
            // The request is new: nothing was emitted for it before.
            if tokens_of(emitted, id).len() > 0 {
                let k = choose|k: int| 0 <= k < before.len() && (#[trigger] before[k]).id == id;
                assert(false);
            }
            assert(tokens_of(emitted, id) =~= Seq::empty());
        }
        let mut tokens: Vec<TokenId> = Vec::new();
        tokens.push(token);
        outputs.insert(i, GenerationOutput { id, tokens });
        proof {
            assert(tokens@ =~= tokens_of(after, id));
            assert forall|o: SeqId| #[trigger] tokens_of(after, o).len() > 0 implies exists|k: int|
                0 <= k < outputs@.len() && (#[trigger] outputs@[k]).id == o by {
                if o == id {
                    assert(outputs@[i as int].id == o);
                } else {
                    let k = choose|k: int| 0 <= k < before.len() && (#[trigger] before[k]).id == o;
                    if k < i {
                        assert(outputs@[k].id == o);
                    } else {
                        assert(outputs@[k + 1].id == o);
                    }
                }
            }
        }
    }
}

pub proof fn lemma_tokens_of_concat(a: Seq<Emission>, b: Seq<Emission>, id: SeqId)
    ensures
        tokens_of(a + b, id) == tokens_of(a, id) + tokens_of(b, id),
    decreases b.len(),
{
    if b.len() == 0 {
        assert(a + b =~= a);
        assert(tokens_of(a, id) + tokens_of(b, id) =~= tokens_of(a, id));
    } else {
        assert((a + b).drop_last() =~= a + b.drop_last());
        lemma_tokens_of_concat(a, b.drop_last(), id);
        assert(tokens_of(a + b, id) =~= tokens_of(a, id) + tokens_of(b, id));
    }
}

/// A token keeps the ids of the batch and leaves every sequence servable.
proof fn lemma_push_token_keeps<M: Model + ?Sized>(
    model: &M,
    s: SchedView,
    id: SeqId,
    token: TokenId,
    is_eos: bool,
)
    requires
        s.all_live(servable(model)),
    ensures
        s.push_token(id, token, is_eos).all_live(servable(model)),
        policy::ids(s.push_token(id, token, is_eos).running) == policy::ids(s.running),
        s.push_token(id, token, is_eos).cache == s.cache,
{
    if policy::has_id(s.running, id) {
        policy::lemma_position(s.running, id);
        let i = policy::position(s.running, id);
        let q = s.running[i];
        let r = q.with_token(token, is_eos);
        assert forall|more: Seq<TokenId>| #[trigger] model.accepts(r.context() + more) by {
            assert(servable(model)(q));
            assert(q.context() + (seq![token] + more) =~= r.context() + more);
        }
        assert(servable(model)(r));
    }
    assert(policy::ids(s.push_token(id, token, is_eos).running) =~= policy::ids(s.running));
}

proof fn lemma_same_ids(a: Seq<SeqView>, b: Seq<SeqView>, id: SeqId)
    requires
        policy::ids(a) == policy::ids(b),
        policy::has_id(a, id),
    ensures
        policy::has_id(b, id),
{
    let i = choose|i: int| 0 <= i < a.len() && (#[trigger] a[i]).id == id;
    assert(policy::ids(a).len() == a.len());
    assert(policy::ids(b).len() == b.len());
    assert(policy::ids(a)[i] == a[i].id);
    assert(policy::ids(b)[i] == b[i].id);
    assert(b[i].id == id);
}

/// A single-threaded engine driving one scheduler and one model.
pub struct Engine<M: Model + ?Sized> {
    scheduler: Scheduler,
    model: Arc<M>,
}

impl<M: Model + ?Sized> View for Engine<M> {
    type V = SchedView;

    closed spec fn view(&self) -> SchedView {
        self.scheduler@
    }
}

impl<M: Model + ?Sized> Engine<M> {
    /// The model that generates the tokens.
    pub closed spec fn model(&self) -> Arc<M> {
        self.model
    }

    /// The invariant: the scheduler is well formed, and the model can continue
    /// every live sequence.
    pub open spec fn wf(&self) -> bool {
        self@.cache.wf() && self@.all_live(servable(&*self.model()))
    }

    pub fn new(model: Arc<M>, config: SchedulerConfig, cache: PagedKVCache) -> (r: Self)
        ensures
            r.model() == model,
            r@ == (SchedView {
                max_batch: config.max_batch_size as nat,
                cache: cache@,
                waiting: Seq::empty(),
                running: Seq::empty(),
            }),
            r.wf() == cache.wf(),
    {
        Engine { scheduler: Scheduler::new(config, cache), model }
    }

    pub fn scheduler_mut(&mut self) -> (r: &mut Scheduler)
        ensures
            r@ == old(self)@,
            final(self)@ == final(r)@,
            final(self).model() == old(self).model(),
    {
        &mut self.scheduler
    }

    /// Submit a prompt under an id of the caller's choice. The model must be
    /// able to continue the prompt.
    pub fn submit(&mut self, id: u64, prompt: Vec<TokenId>, max_new_tokens: usize)
        requires
            old(self).wf(),
            model::serves(&*old(self).model(), prompt@),
        ensures
            final(self).wf(),
            final(self).model() == old(self).model(),
            final(self)@ == old(self)@.submit(
                SeqView::fresh(id, prompt@, max_new_tokens as nat),
            ),
    {
        let ghost q = SeqView::fresh(id, prompt@, max_new_tokens as nat);
        self.scheduler.submit(Sequence::new(id, prompt, max_new_tokens));
        assert(q.context() =~= prompt@);
        assert(servable(&*self.model)(q));
    }

    /// Run a single engine iteration: schedule, forward, collect tokens.
    /// Returns the `(id, token, is_eos)` triples produced this step.
    pub fn step(&mut self) -> (r: Vec<(u64, TokenId, bool)>)
        requires
            old(self).wf(),
        ensures
            final(self).wf(),
            final(self).model() == old(self).model(),
            final(self)@ == after_step(&*old(self).model(), old(self)@),
            r@ == step_emits(&*old(self).model(), old(self)@),
    {
        let ghost start = self@;
        let plan = self.scheduler.schedule();
        let ghost planned = self@;
        let ghost batch = plan.decode_batch@;
        proof {
            let p = servable(&*self.model);
            assert forall|q: SeqView, state: crate::scheduler::SeqState| #[trigger]
                p(q.in_state(state)) == p(q) by {
                assert(q.in_state(state).context() == q.context());
            }
            policy::lemma_schedule_keeps(start, p);
            assert(batch.take(0) =~= Seq::empty());
        }
        let mut emitted: Vec<(u64, TokenId, bool)> = Vec::new();
        let mut i: usize = 0;
        while i < plan.decode_batch.len()
            invariant
                i <= batch.len(),
                batch == plan.decode_batch@,
                batch == policy::decode_batch(start.batched().cache, start.batched().running),
                planned.running == policy::survivors(start.batched().running),
                self.model == old(self).model,
                self.wf(),
                self@ == after_decode(&*self.model, planned, batch.take(i as int)),
                emitted@ == decoded(&*self.model, planned, batch.take(i as int)),
                policy::ids(self@.running) == policy::ids(planned.running),
            decreases batch.len() - i,
        {
            let id: u64 = plan.decode_batch[i];
            let ghost before = self@;
            proof {
                assert(batch.take(i + 1).drop_last() =~= batch.take(i as int));
                assert(batch.take(i + 1).last() == id);
                assert(batch.contains(id));
                policy::lemma_batch_survives(start.batched().cache, start.batched().running, id);
                lemma_same_ids(planned.running, before.running, id);
                policy::lemma_position(before.running, id);
            }
            let ghost at = policy::position(before.running, id);
            // The context of the sequence: prompt and output so far.
            let context: Vec<TokenId> = match self.scheduler.running_seq_mut(id) {
                Some(seq) => join_tokens(seq.prompt.as_slice(), seq.output.as_slice()),
                None => Vec::new(),
            };
            proof {
                assert(self@.running =~= before.running);
                assert(self@ =~= before);
                assert(servable(&*self.model)(before.running[at]));
                assert(context@ + Seq::<TokenId>::empty() =~= context@);
                assert(self.model.accepts(context@ + Seq::<TokenId>::empty()));
            }
            let token: TokenId = self.model.forward(context.as_slice()).argmax();
            let is_eos: bool = token == self.model.eos_token();
            proof {
                lemma_push_token_keeps(&*self.model, before, id, token, is_eos);
            }
            self.scheduler.push_token(id, token, is_eos);
            emitted.push((id, token, is_eos));
            i = i + 1;
        }
        assert(batch.take(i as int) =~= batch);
        emitted
    }

    /// Drive the engine until every submitted request finishes, or
    /// [`MAX_STEPS`] iterations have passed, collecting each request's output.
    pub fn run_to_completion(&mut self) -> (r: Vec<GenerationOutput>)
        requires
            old(self).wf(),
        ensures
            final(self).wf(),
            final(self).model() == old(self).model(),
            final(self)@ == after_run(&*old(self).model(), old(self)@, MAX_STEPS as nat),
            collects(r@, run_emits(&*old(self).model(), old(self)@, MAX_STEPS as nat)),
    {
        let ghost start = self@;
        let ghost mut emitted: Seq<Emission> = Seq::empty();
        let mut outputs: Vec<GenerationOutput> = Vec::new();
        let mut steps: usize = 0;
        assert(emitted + run_emits(&*self.model, start, MAX_STEPS as nat) =~= run_emits(
            &*self.model,
            start,
            MAX_STEPS as nat,
        ));
        while self.scheduler.has_work() && steps < MAX_STEPS
            invariant
                steps <= MAX_STEPS,
                self.model == old(self).model,
                self.wf(),
                collects(outputs@, emitted),
                after_run(&*self.model, self@, (MAX_STEPS - steps) as nat) == after_run(
                    &*self.model,
                    start,
                    MAX_STEPS as nat,
                ),
                emitted + run_emits(&*self.model, self@, (MAX_STEPS - steps) as nat) == run_emits(
                    &*self.model,
                    start,
                    MAX_STEPS as nat,
                ),
            decreases MAX_STEPS - steps,
        {
            let ghost before = self@;
            let emissions = self.step();
            let mut i: usize = 0;
            let ghost earlier = emitted;
            assert(earlier + emissions@.take(0) =~= earlier);
            while i < emissions.len()
                invariant
                    i <= emissions@.len(),
                    emitted == earlier + emissions@.take(i as int),
                    collects(outputs@, emitted),
                decreases emissions@.len() - i,
            {
                record(&mut outputs, emissions[i], Ghost(emitted));
                proof {
                    emitted = emitted.push(emissions@[i as int]);
                    assert(emitted =~= earlier + emissions@.take(i + 1));
                }
                i = i + 1;
            }
            proof {
                let rest = run_emits(&*self.model, self@, (MAX_STEPS - steps - 1) as nat);
                assert(emissions@.take(i as int) =~= emissions@);
                assert(emitted + rest =~= earlier + (emissions@ + rest));
            }
            steps = steps + 1;
        }
        proof {
            assert(emitted + run_emits(&*self.model, self@, (MAX_STEPS - steps) as nat)
                =~= emitted);
        }
        outputs
    }

    /// Run the submitted work to completion and return the output of the request
    /// with the least id, or nothing if nothing was generated.
    pub fn run_one(&mut self) -> (r: Vec<TokenId>)
        requires
            old(self).wf(),
        ensures
            final(self).wf(),
            final(self).model() == old(self).model(),
            final(self)@ == after_run(&*old(self).model(), old(self)@, MAX_STEPS as nat),
            r@ == first_output(run_emits(&*old(self).model(), old(self)@, MAX_STEPS as nat)),
    {
        let ghost emitted = run_emits(&*self.model, self@, MAX_STEPS as nat);
        let mut outputs = self.run_to_completion();
        if outputs.len() > 0 {
            proof {
                lemma_first_output(outputs@, emitted);
            }
            outputs.remove(0).tokens
        } else {
            proof {
                if exists|id: SeqId| is_least(emitted, id) {
                    let id = choose|id: SeqId| is_least(emitted, id);
                    assert(tokens_of(emitted, id).len() > 0);
                }
            }
            Vec::new()
        }
    }

    /// [`Engine::run_one`] with the prompt length and the limit spelled out at
    /// the call. Both are known from `submit` and are ignored here.
    pub fn scheduler_mut_run(&mut self, _prompt_len: usize, _max_new: usize) -> (r: Vec<TokenId>)
        requires
            old(self).wf(),
        ensures
            final(self).wf(),
            final(self).model() == old(self).model(),
            final(self)@ == after_run(&*old(self).model(), old(self)@, MAX_STEPS as nat),
            r@ == first_output(run_emits(&*old(self).model(), old(self)@, MAX_STEPS as nat)),
    {
        self.run_one()
    }
}

/// Whether a request is the one with the least id that anything was emitted for.
pub open spec fn is_least(emitted: Seq<Emission>, id: SeqId) -> bool {
    &&& tokens_of(emitted, id).len() > 0
    &&& forall|o: SeqId| #[trigger] tokens_of(emitted, o).len() > 0 ==> id <= o
}

/// The output of the request with the least id, or nothing.
pub open spec fn first_output(emitted: Seq<Emission>) -> Seq<TokenId> {
    if exists|id: SeqId| is_least(emitted, id) {
        tokens_of(emitted, choose|id: SeqId| is_least(emitted, id))
    } else {
        Seq::empty()
    }
}

proof fn lemma_first_output(outputs: Seq<GenerationOutput>, emitted: Seq<Emission>)
    requires
        collects(outputs, emitted),
        outputs.len() > 0,
    ensures
        outputs[0].tokens@ == first_output(emitted),
{
    let id = outputs[0].id;
    assert(outputs[0].tokens@ == tokens_of(emitted, id));
    assert forall|o: SeqId| #[trigger] tokens_of(emitted, o).len() > 0 implies id <= o by {
        let k = choose|k: int| 0 <= k < outputs.len() && (#[trigger] outputs[k]).id == o;
        assert(outputs[k].id == o);
    }
    assert(is_least(emitted, id));
    let least = choose|i: SeqId| is_least(emitted, i);
    assert(is_least(emitted, least));
    assert(tokens_of(emitted, least).len() > 0);
}

} // verus!
