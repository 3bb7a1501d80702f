//! The batching policy as mathematics: what one scheduling iteration decides.
//!
//! An iteration has four phases. *Admission* moves requests from the queue into
//! the batch, in order, while there is room and their tokens can be placed. A
//! request that is too large for the whole cache is passed over and keeps its
//! place. *Preemption* sends the least progressed of the growing sequences back
//! to the head of the queue until every one left can grow by a token. A complete
//! sequence is never preempted. *Commitment* reserves the token. *Retirement*
//! removes the sequences that are complete.
use vstd::prelude::*;

use crate::model::TokenId;
use crate::paged_cache::{CacheView, SeqId};
use crate::scheduler::SeqState;
#[allow(unused_imports)]
use crate::arith;

verus! {

/// A request as mathematics.
#[verifier::ext_equal]
pub struct SeqView {
    pub id: SeqId,
    pub prompt: Seq<TokenId>,
    /// Tokens generated so far.
    pub output: Seq<TokenId>,
    /// How many tokens it may generate.
    pub limit: nat,
    pub state: SeqState,
}

impl SeqView {
    /// A request that nothing has been generated for.
    pub open spec fn fresh(id: SeqId, prompt: Seq<TokenId>, limit: nat) -> SeqView {
        SeqView { id, prompt, output: Seq::empty(), limit, state: SeqState::Waiting }
    }

    pub open spec fn total_len(self) -> nat {
        self.prompt.len() + self.output.len()
    }

    /// What the model is given: the prompt and the output so far.
    pub open spec fn context(self) -> Seq<TokenId> {
        self.prompt + self.output
    }

    pub open spec fn complete(self) -> bool {
        self.output.len() >= self.limit
    }

    /// Whether the sequence takes part in the next decode step.
    pub open spec fn growing(self) -> bool {
        self.state == SeqState::Running && !self.complete()
    }

    pub open spec fn in_state(self, state: SeqState) -> SeqView {
        SeqView { state, ..self }
    }

    /// The sequence after a token. The end-of-sequence token uses up the limit.
    pub open spec fn with_token(self, token: TokenId, is_eos: bool) -> SeqView {
        SeqView {
            output: self.output.push(token),
            limit: if is_eos {
                self.output.len() + 1
            } else {
                self.limit
            },
            ..self
        }
    }

    /// Whether this sequence is preempted before another: it has generated
    /// less, or as much under a larger id.
    pub open spec fn yields_before(self, other: SeqView) -> bool {
        self.output.len() < other.output.len() || (self.output.len() == other.output.len()
            && self.id > other.id)
    }
}

/// The decisions of one iteration.
#[verifier::ext_equal]
pub struct PlanView {
    pub admitted: Seq<SeqId>,
    pub decode_batch: Seq<SeqId>,
    pub preempted: Seq<SeqId>,
    pub finished: Seq<SeqId>,
}

impl PlanView {
    pub open spec fn idle(self) -> bool {
        &&& self.admitted.len() == 0
        &&& self.decode_batch.len() == 0
        &&& self.preempted.len() == 0
        &&& self.finished.len() == 0
    }
}

/// The ids of a list of sequences.
pub open spec fn ids(list: Seq<SeqView>) -> Seq<SeqId> {
    list.map_values(|q: SeqView| q.id)
}

/// Whether `i` is the first position with an id.
pub open spec fn is_first(list: Seq<SeqView>, id: SeqId, i: int) -> bool {
    &&& 0 <= i < list.len()
    &&& list[i].id == id
    &&& forall|j: int| 0 <= j < i ==> (#[trigger] list[j]).id != id
}

pub open spec fn has_id(list: Seq<SeqView>, id: SeqId) -> bool {
    exists|i: int| 0 <= i < list.len() && (#[trigger] list[i]).id == id
}

/// The first position with an id.
pub open spec fn position(list: Seq<SeqView>, id: SeqId) -> int {
    choose|i: int| is_first(list, id, i)
}

/// The least of the positions with an id exists.
pub proof fn lemma_position(list: Seq<SeqView>, id: SeqId)
    requires
        has_id(list, id),
    ensures
        is_first(list, id, position(list, id)),
{
    let i = choose|i: int| 0 <= i < list.len() && (#[trigger] list[i]).id == id;
    lemma_first_below(list, id, i);
}

proof fn lemma_first_below(list: Seq<SeqView>, id: SeqId, i: int)
    requires
        0 <= i < list.len(),
        list[i].id == id,
    ensures
        exists|k: int| is_first(list, id, k),
    decreases i,
{
    if forall|j: int| 0 <= j < i ==> (#[trigger] list[j]).id != id {
        assert(is_first(list, id, i));
    } else {
        let j = choose|j: int| 0 <= j < i && (#[trigger] list[j]).id == id;
        lemma_first_below(list, id, j);
    }
}

/// Whether the sequence at `i` is the one to preempt: it is growing, no growing
/// sequence yields before it, and it is the first such.
pub open spec fn is_victim(running: Seq<SeqView>, i: int) -> bool {
    &&& 0 <= i < running.len()
    &&& running[i].growing()
    &&& forall|j: int|
        0 <= j < running.len() && (#[trigger] running[j]).growing()
            ==> !running[j].yields_before(running[i])
    &&& forall|j: int|
        0 <= j < i && (#[trigger] running[j]).growing() ==> running[i].yields_before(running[j])
}

pub open spec fn has_victim(running: Seq<SeqView>) -> bool {
    exists|i: int| 0 <= i < running.len() && (#[trigger] running[i]).growing()
}

pub open spec fn victim(running: Seq<SeqView>) -> int {
    choose|i: int| is_victim(running, i)
}

/// There is only one sequence to preempt.
pub proof fn lemma_victim_unique(running: Seq<SeqView>, i: int)
    requires
        is_victim(running, i),
    ensures
        i == victim(running),
        has_victim(running),
{
    let k = victim(running);
    assert(is_victim(running, k));
    assert(running[i].growing());
    assert(running[k].growing());
}

/// The blocks that the growing sequences ask for, one token each.
pub open spec fn demand(cache: CacheView, running: Seq<SeqView>) -> nat
    decreases running.len(),
{
    if running.len() == 0 {
        0
    } else {
        let q = running.last();
        demand(cache, running.drop_last()) + if q.growing() {
            cache.needed(q.id, 1)
        } else {
            0
        }
    }
}

/// Where blocks are asked for, some sequence is growing.
pub proof fn lemma_demand_has_victim(cache: CacheView, running: Seq<SeqView>)
    requires
        demand(cache, running) > 0,
    ensures
        has_victim(running),
    decreases running.len(),
{
    if running.len() > 0 {
        let front = running.drop_last();
        if running.last().growing() {
            assert(running[running.len() - 1].growing());
        } else {
            lemma_demand_has_victim(cache, front);
            let i = choose|i: int| 0 <= i < front.len() && (#[trigger] front[i]).growing();
            assert(running[i].growing());
        }
    }
}

/// The cache after every growing sequence has reserved a token, where it could.
pub open spec fn commit(cache: CacheView, running: Seq<SeqView>) -> CacheView
    decreases running.len(),
{
    if running.len() == 0 {
        cache
    } else {
        let before = commit(cache, running.drop_last());
        let q = running.last();
        if q.growing() {
            before.try_append(q.id, 1)
        } else {
            before
        }
    }
}

/// The sequences that reserved a token, in batch order.
pub open spec fn decode_batch(cache: CacheView, running: Seq<SeqView>) -> Seq<SeqId>
    decreases running.len(),
{
    if running.len() == 0 {
        Seq::empty()
    } else {
        let before = decode_batch(cache, running.drop_last());
        let q = running.last();
        if q.growing() && commit(cache, running.drop_last()).fits(q.id, 1) {
            before.push(q.id)
        } else {
            before
        }
    }
}

/// The sequences that stay in the batch.
pub open spec fn survivors(running: Seq<SeqView>) -> Seq<SeqView>
    decreases running.len(),
{
    if running.len() == 0 {
        Seq::empty()
    } else if running.last().complete() {
        survivors(running.drop_last())
    } else {
        survivors(running.drop_last()).push(running.last())
    }
}

/// The sequences that leave the batch because they are complete.
pub open spec fn finished(running: Seq<SeqView>) -> Seq<SeqId>
    decreases running.len(),
{
    if running.len() == 0 {
        Seq::empty()
    } else if running.last().complete() {
        finished(running.drop_last()).push(running.last().id)
    } else {
        finished(running.drop_last())
    }
}

/// The cache after the complete sequences have given their blocks back.
pub open spec fn retire(cache: CacheView, running: Seq<SeqView>) -> CacheView
    decreases running.len(),
{
    if running.len() == 0 {
        cache
    } else {
        let before = retire(cache, running.drop_last());
        if running.last().complete() {
            before.release(running.last().id)
        } else {
            before
        }
    }
}

/// Whether a request needs more blocks than a cache has.
pub open spec fn oversized(c: CacheView, q: SeqView) -> bool {
    arith::ceil_div(q.total_len(), c.block_size) > c.num_blocks
}

/// Whether `i` is the position of the next request to be admitted: the first
/// one that is not oversized.
pub open spec fn is_candidate(c: CacheView, waiting: Seq<SeqView>, i: int) -> bool {
    &&& 0 <= i < waiting.len()
    &&& !oversized(c, waiting[i])
    &&& forall|j: int| 0 <= j < i ==> oversized(c, #[trigger] waiting[j])
}

/// There is only one next request.
pub proof fn lemma_candidate_unique(s: SchedView, i: int)
    requires
        is_candidate(s.cache, s.waiting, i),
    ensures
        i == s.candidate_at(),
{
    let k = s.candidate_at();
    assert(is_candidate(s.cache, s.waiting, k));
    if i < k {
        assert(oversized(s.cache, s.waiting[i]));
    }
    if k < i {
        assert(oversized(s.cache, s.waiting[k]));
    }
}

/// Some request is the next one, if any is not oversized.
pub proof fn lemma_candidate_exists(c: CacheView, waiting: Seq<SeqView>, i: int)
    requires
        0 <= i < waiting.len(),
        !oversized(c, waiting[i]),
    ensures
        exists|k: int| is_candidate(c, waiting, k),
    decreases i,
{
    if forall|j: int| 0 <= j < i ==> oversized(c, #[trigger] waiting[j]) {
        assert(is_candidate(c, waiting, i));
    } else {
        let j = choose|j: int| 0 <= j < i && !oversized(c, #[trigger] waiting[j]);
        lemma_candidate_exists(c, waiting, j);
    }
}

/// A scheduler as mathematics.
#[verifier::ext_equal]
pub struct SchedView {
    pub max_batch: nat,
    pub cache: CacheView,
    /// Requests not in the batch, the next to be admitted first.
    pub waiting: Seq<SeqView>,
    /// The batch.
    pub running: Seq<SeqView>,
}

impl SchedView {
    pub open spec fn has_work(self) -> bool {
        self.waiting.len() > 0 || self.running.len() > 0
    }

    pub open spec fn submit(self, q: SeqView) -> SchedView {
        SchedView { waiting: self.waiting.push(q), ..self }
    }

    /// Whether the batch has room for a request that waits and could ever be
    /// placed.
    pub open spec fn has_candidate(self) -> bool {
        self.running.len() < self.max_batch && exists|i: int|
            is_candidate(self.cache, self.waiting, i)
    }

    /// Where the next request to be admitted stands in the queue.
    pub open spec fn candidate_at(self) -> int {
        choose|i: int| is_candidate(self.cache, self.waiting, i)
    }

    /// The next request to be admitted.
    pub open spec fn candidate(self) -> SeqView {
        self.waiting[self.candidate_at()]
    }

    /// Whether the tokens of the candidate can be placed now.
    pub open spec fn candidate_fits(self) -> bool {
        self.cache.register(self.candidate().id).fits(
            self.candidate().id,
            self.candidate().total_len(),
        )
    }

    /// The candidate joins the batch. One that was preempted re-reserves its
    /// output along with its prompt.
    pub open spec fn take_candidate(self) -> SchedView {
        let q = self.candidate();
        SchedView {
            cache: self.cache.register(q.id).append(q.id, q.total_len()),
            waiting: self.waiting.remove(self.candidate_at()),
            running: self.running.push(q.in_state(SeqState::Running)),
            ..self
        }
    }

    /// The scheduler after admission. A candidate that cannot be placed is
    /// forgotten by the cache again and ends the phase.
    pub open spec fn after_admission(self) -> SchedView
        decreases self.waiting.len(),
    {
        if !self.has_candidate() {
            self
        } else if self.candidate_fits() {
            self.take_candidate().after_admission()
        } else {
            SchedView {
                cache: self.cache.register(self.candidate().id).release(self.candidate().id),
                ..self
            }
        }
    }

    /// The requests that admission moves, in order.
    pub open spec fn admitted(self) -> Seq<SeqId>
        decreases self.waiting.len(),
    {
        if self.has_candidate() && self.candidate_fits() {
            seq![self.candidate().id] + self.take_candidate().admitted()
        } else {
            Seq::empty()
        }
    }

    /// Whether the growing sequences ask for more blocks than are free.
    pub open spec fn over_committed(self) -> bool {
        demand(self.cache, self.running) > self.cache.free.len()
    }

    /// The victim gives its blocks back and waits at the head of the queue.
    pub open spec fn preempt_victim(self) -> SchedView {
        let i = victim(self.running);
        SchedView {
            cache: self.cache.release(self.running[i].id),
            waiting: seq![self.running[i].in_state(SeqState::Preempted)] + self.waiting,
            running: self.running.remove(i),
            ..self
        }
    }

    /// The scheduler after preemption.
    pub open spec fn after_preemption(self) -> SchedView
        decreases self.running.len(),
    {
        if self.over_committed() && has_victim(self.running) {
            proof {
                lemma_victim(self.running);
            }
            self.preempt_victim().after_preemption()
        } else {
            self
        }
    }

    /// The sequences that preemption moves, in order.
    pub open spec fn preempted(self) -> Seq<SeqId>
        decreases self.running.len(),
    {
        if self.over_committed() && has_victim(self.running) {
            proof {
                lemma_victim(self.running);
            }
            seq![self.running[victim(self.running)].id] + self.preempt_victim().preempted()
        } else {
            Seq::empty()
        }
    }

    /// The batch that this iteration decodes, before anything retires.
    pub open spec fn batched(self) -> SchedView {
        self.after_admission().after_preemption()
    }

    /// The scheduler after an iteration.
    pub open spec fn after_schedule(self) -> SchedView {
        let b = self.batched();
        SchedView {
            cache: retire(commit(b.cache, b.running), b.running),
            running: survivors(b.running),
            ..b
        }
    }

    /// The decisions of an iteration.
    pub open spec fn plan(self) -> PlanView {
        let b = self.batched();
        PlanView {
            admitted: self.admitted(),
            decode_batch: decode_batch(b.cache, b.running),
            preempted: self.after_admission().preempted(),
            finished: finished(b.running),
        }
    }

    /// The scheduler after a token was recorded for a running sequence. A token
    /// for any other id is dropped.
    pub open spec fn push_token(self, id: SeqId, token: TokenId, is_eos: bool) -> SchedView {
        if has_id(self.running, id) {
            let i = position(self.running, id);
            SchedView {
                running: self.running.update(i, self.running[i].with_token(token, is_eos)),
                ..self
            }
        } else {
            self
        }
    }
}

/// Some growing sequence is the one to preempt, if any is growing.
pub proof fn lemma_victim(running: Seq<SeqView>)
    requires
        has_victim(running),
    ensures
        is_victim(running, victim(running)),
{
    let i = lemma_victim_upto(running, running.len() as int);
    assert(is_victim(running, i));
}

/// The sequence to preempt among the first `n`.
proof fn lemma_victim_upto(running: Seq<SeqView>, n: int) -> (i: int)
    requires
        0 <= n <= running.len(),
        exists|k: int| 0 <= k < n && (#[trigger] running[k]).growing(),
    ensures
        0 <= i < n,
        running[i].growing(),
        forall|j: int|
            0 <= j < n && (#[trigger] running[j]).growing() ==> !running[j].yields_before(
                running[i],
            ),
        forall|j: int|
            0 <= j < i && (#[trigger] running[j]).growing() ==> running[i].yields_before(
                running[j],
            ),
    decreases n,
{
    let m = n - 1;
    if exists|k: int| 0 <= k < m && (#[trigger] running[k]).growing() {
        let i = lemma_victim_upto(running, m);
        if running[m].growing() && running[m].yields_before(running[i]) {
            m
        } else {
            i
        }
    } else {
        m
    }
}

/// Whether a property of sequences holds whatever state they are in.
pub open spec fn ignores_state(p: spec_fn(SeqView) -> bool) -> bool {
    forall|q: SeqView, state: SeqState| #[trigger] p(q.in_state(state)) == p(q)
}

/// Whether a property holds of every sequence of a list.
pub open spec fn all(list: Seq<SeqView>, p: spec_fn(SeqView) -> bool) -> bool {
    forall|i: int| 0 <= i < list.len() ==> p(#[trigger] list[i])
}

impl SchedView {
    /// Whether a property holds of every sequence that waits or runs.
    pub open spec fn all_live(self, p: spec_fn(SeqView) -> bool) -> bool {
        all(self.waiting, p) && all(self.running, p)
    }
}

pub proof fn lemma_admission_keeps(s: SchedView, p: spec_fn(SeqView) -> bool)
    requires
        ignores_state(p),
        s.all_live(p),
    ensures
        s.after_admission().all_live(p),
    decreases s.waiting.len(),
{
    if s.has_candidate() && s.candidate_fits() {
        let t = s.take_candidate();
        let k = s.candidate_at();
        assert(p(s.waiting[k].in_state(SeqState::Running)) == p(s.waiting[k]));
        assert forall|i: int| 0 <= i < t.waiting.len() implies p(#[trigger] t.waiting[i]) by {
            assert(t.waiting[i] == s.waiting[if i < k {
                i
            } else {
                i + 1
            }]);
        }
        lemma_admission_keeps(t, p);
    }
}

proof fn lemma_preemption_keeps(s: SchedView, p: spec_fn(SeqView) -> bool)
    requires
        ignores_state(p),
        s.all_live(p),
    ensures
        s.after_preemption().all_live(p),
    decreases s.running.len(),
{
    if s.over_committed() && has_victim(s.running) {
        lemma_victim(s.running);
        let i = victim(s.running);
        let t = s.preempt_victim();
        assert(p(s.running[i].in_state(SeqState::Preempted)) == p(s.running[i]));
        assert forall|j: int| 0 <= j < t.running.len() implies p(#[trigger] t.running[j]) by {
            assert(t.running[j] == s.running[if j < i {
                j
            } else {
                j + 1
            }]);
        }
        lemma_preemption_keeps(t, p);
    }
}

proof fn lemma_survivors_keep(running: Seq<SeqView>, p: spec_fn(SeqView) -> bool)
    requires
        all(running, p),
    ensures
        all(survivors(running), p),
    decreases running.len(),
{
    if running.len() > 0 {
        lemma_survivors_keep(running.drop_last(), p);
    }
}

/// A property of sequences that does not depend on their state is kept by an
/// iteration: scheduling moves sequences and changes nothing else about them.
pub proof fn lemma_schedule_keeps(s: SchedView, p: spec_fn(SeqView) -> bool)
    requires
        ignores_state(p),
        s.all_live(p),
    ensures
        s.batched().all_live(p),
        s.after_schedule().all_live(p),
{
    lemma_admission_keeps(s, p);
    lemma_preemption_keeps(s.after_admission(), p);
    lemma_survivors_keep(s.batched().running, p);
}

/// Every sequence that reserved a token stays in the batch.
pub proof fn lemma_batch_survives(cache: CacheView, running: Seq<SeqView>, id: SeqId)
    requires
        decode_batch(cache, running).contains(id),
    ensures
        has_id(survivors(running), id),
    decreases running.len(),
{
    if running.len() > 0 {
        let front = running.drop_last();
        let q = running.last();
        let before = decode_batch(cache, front);
        let batch = decode_batch(cache, running);
        let i = batch.index_of(id);
        let kept = survivors(running);
        if i < before.len() {
            assert(before[i] == id);
            assert(before.contains(id));
            lemma_batch_survives(cache, front, id);
            let k = choose|k: int|
                0 <= k < survivors(front).len() && (#[trigger] survivors(front)[k]).id == id;
            assert(kept[k].id == id);
        } else {
            assert(kept.last().id == id);
            assert(kept[kept.len() - 1].id == id);
        }
    }
}

proof fn lemma_admission_room(s: SchedView)
    requires
        s.running.len() <= s.max_batch,
    ensures
        s.after_admission().running.len() <= s.max_batch,
        s.after_admission().max_batch == s.max_batch,
    decreases s.waiting.len(),
{
    if s.has_candidate() && s.candidate_fits() {
        lemma_admission_room(s.take_candidate());
    }
}

proof fn lemma_preemption_shrinks(s: SchedView)
    ensures
        s.after_preemption().running.len() <= s.running.len(),
        s.after_preemption().max_batch == s.max_batch,
    decreases s.running.len(),
{
    if s.over_committed() && has_victim(s.running) {
        lemma_victim(s.running);
        lemma_preemption_shrinks(s.preempt_victim());
    }
}

pub proof fn lemma_retirement_sizes(cache: CacheView, running: Seq<SeqView>)
    ensures
        decode_batch(cache, running).len() <= survivors(running).len(),
        survivors(running).len() + finished(running).len() == running.len(),
    decreases running.len(),
{
    if running.len() > 0 {
        lemma_retirement_sizes(cache, running.drop_last());
    }
}

/// The batch never outgrows its limit.
pub proof fn lemma_batch_limit(s: SchedView)
    requires
        s.running.len() <= s.max_batch,
    ensures
        s.after_schedule().running.len() <= s.max_batch,
        s.after_schedule().max_batch == s.max_batch,
        s.plan().decode_batch.len() <= s.max_batch,
{
    lemma_admission_room(s);
    lemma_preemption_shrinks(s.after_admission());
    lemma_retirement_sizes(s.batched().cache, s.batched().running);
}

} // verus!
