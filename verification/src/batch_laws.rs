//! What one scheduling iteration does, phase by phase, in terms of slots, lengths
//! and ids.
//!
//! The laws here say of each phase when it moves a sequence, which one, and what
//! is left: admission stops only where it must, preemption takes as few as it
//! can, every sequence that grows reserves a slot, and exactly the complete ones
//! retire.
use vstd::prelude::*;

use crate::model::TokenId;
use crate::paged_cache::{CacheView, SeqId};
use crate::policy::{PlanView, SchedView, SeqView};
use crate::scheduler::SeqState;
#[allow(unused_imports)]
use crate::{arith, cache_laws, paged_cache, policy, scheduler_laws};

verus! {

/// Requests whose tokens have room in a cache that holds nothing else.
pub open spec fn small_enough(c: CacheView) -> spec_fn(SeqView) -> bool {
    |q: SeqView| q.prompt.len() + q.output.len() <= c.num_blocks * c.block_size
}

/// Sequences that decode in the next step and have no slot left in their blocks.
pub open spec fn out_of_slots(c: CacheView) -> spec_fn(SeqView) -> bool {
    |q: SeqView|
        q.state == SeqState::Running && q.output.len() < q.limit && (c.tables.contains_key(q.id)
            ==> c.tables[q.id].tokens == c.tables[q.id].blocks.len() * c.block_size)
}

/// Sequences that have generated all they were asked for.
pub open spec fn done() -> spec_fn(SeqView) -> bool {
    |q: SeqView| q.output.len() >= q.limit
}

/// Sequences that have not.
pub open spec fn not_done() -> spec_fn(SeqView) -> bool {
    |q: SeqView| q.output.len() < q.limit
}

/// A request is its prompt and what was generated for it: it holds as many
/// tokens as both, the model is given both, and it is complete once it has
/// generated as much as it may. A token is appended to the output, and the end
/// of the sequence makes the output all there will be.
pub proof fn law_request_accounting(q: SeqView, token: TokenId, is_eos: bool, state: SeqState)
    ensures
        q.total_len() == q.prompt.len() + q.output.len(),
        q.context() == q.prompt + q.output,
        q.context().len() == q.total_len(),
        q.complete() <==> q.output.len() >= q.limit,
        q.growing() <==> q.state == SeqState::Running && q.output.len() < q.limit,
        q.with_token(token, is_eos).context() == q.context().push(token),
        q.with_token(token, is_eos).output == q.output.push(token),
        q.with_token(token, is_eos).prompt == q.prompt,
        q.with_token(token, is_eos).id == q.id,
        q.with_token(token, is_eos).state == q.state,
        q.with_token(token, false).limit == q.limit,
        q.with_token(token, true).limit == q.output.len() + 1,
        q.with_token(token, true).complete(),
        q.in_state(state).state == state,
        q.in_state(state).in_state(q.state) == q,
        SeqView::fresh(q.id, q.prompt, q.limit) == (SeqView {
            id: q.id,
            prompt: q.prompt,
            output: Seq::empty(),
            limit: q.limit,
            state: SeqState::Waiting,
        }),
{
    assert(q.with_token(token, is_eos).context() =~= q.context().push(token));
}

/// Less output yields first, and among equal outputs the larger id. Of two
/// sequences with different ids exactly one yields before the other.
pub proof fn law_yielding_is_a_total_order(a: SeqView, b: SeqView, c: SeqView)
    ensures
        a.output.len() < b.output.len() ==> a.yields_before(b),
        a.output.len() == b.output.len() && a.id > b.id ==> a.yields_before(b),
        a.id != b.id ==> a.yields_before(b) != b.yields_before(a),
        a.id == b.id && a.output.len() == b.output.len() ==> !a.yields_before(b),
        !(a.yields_before(b) && b.yields_before(a)),
        a.yields_before(b) && b.yields_before(c) ==> a.yields_before(c),
{
}

/// The ids of a list stand where its sequences stand, and a sequence is looked
/// up by the first place that has its id.
pub proof fn law_lookup_finds_the_first(list: Seq<SeqView>, id: SeqId, i: int)
    requires
        0 <= i < list.len(),
    ensures
        policy::ids(list).len() == list.len(),
        policy::ids(list)[i] == list[i].id,
        policy::has_id(list, list[i].id),
        policy::has_id(list, id) ==> 0 <= policy::position(list, id) < list.len()
            && list[policy::position(list, id)].id == id,
        list[i].id == id ==> policy::position(list, id) <= i,
{
    if policy::has_id(list, id) {
        policy::lemma_position(list, id);
    }
}

/// A request is passed over exactly if the whole cache has too few slots for
/// its tokens.
pub proof fn law_oversized_is_a_matter_of_slots(c: CacheView, q: SeqView)
    requires
        0 < c.block_size,
    ensures
        policy::oversized(c, q) <==> q.prompt.len() + q.output.len() > c.num_blocks
            * c.block_size,
{
    let n = arith::ceil_div(q.total_len(), c.block_size);
    arith::lemma_ceil_div(q.total_len(), c.block_size);
    if n > c.num_blocks {
        assert((c.num_blocks + 1) * c.block_size <= n * c.block_size) by (nonlinear_arith)
            requires
                c.num_blocks + 1 <= n,
        ;
        assert((c.num_blocks + 1) * c.block_size == c.num_blocks * c.block_size + c.block_size)
            by (nonlinear_arith);
    } else {
        assert(n * c.block_size <= c.num_blocks * c.block_size) by (nonlinear_arith)
            requires
                n <= c.num_blocks,
        ;
    }
}

/// Submitting puts a request at the end of the queue and touches nothing else.
/// There is work while anything waits or runs.
pub proof fn law_submit_joins_the_queue(s: SchedView, q: SeqView)
    ensures
        s.submit(q) == (SchedView {
            max_batch: s.max_batch,
            cache: s.cache,
            waiting: s.waiting.push(q),
            running: s.running,
        }),
        s.submit(q).has_work(),
        s.has_work() <==> s.waiting.len() + s.running.len() > 0,
{
}

/// A token goes to the first running sequence with its id, and to nobody if
/// there is none.
pub proof fn law_token_goes_to_its_sequence(
    s: SchedView,
    id: SeqId,
    token: TokenId,
    is_eos: bool,
)
    ensures
        ({
            let t = s.push_token(id, token, is_eos);
            &&& t.max_batch == s.max_batch
            &&& t.cache == s.cache
            &&& t.waiting == s.waiting
            &&& t.running.len() == s.running.len()
            &&& forall|i: int|
                0 <= i < s.running.len() ==> #[trigger] t.running[i] == if s.running[i].id == id
                    && (forall|j: int| 0 <= j < i ==> (#[trigger] s.running[j]).id != id) {
                    SeqView {
                        output: s.running[i].output.push(token),
                        limit: if is_eos {
                            s.running[i].output.len() + 1
                        } else {
                            s.running[i].limit
                        },
                        ..s.running[i]
                    }
                } else {
                    s.running[i]
                }
        }),
{
    if policy::has_id(s.running, id) {
        policy::lemma_position(s.running, id);
    }
}

/// A plan is idle exactly if it names nobody.
pub proof fn law_idle_plans_name_nobody(p: PlanView)
    ensures
        p.idle() <==> p.admitted.len() + p.decode_batch.len() + p.preempted.len()
            + p.finished.len() == 0,
{
}

/// Whether `i` is where the first request stands that the cache could ever hold.
pub open spec fn is_next(s: SchedView, i: int) -> bool {
    &&& 0 <= i < s.waiting.len()
    &&& s.waiting[i].prompt.len() + s.waiting[i].output.len() <= s.cache.num_blocks
        * s.cache.block_size
    &&& forall|j: int|
        0 <= j < i ==> (#[trigger] s.waiting[j]).prompt.len() + s.waiting[j].output.len()
            > s.cache.num_blocks * s.cache.block_size
}

proof fn lemma_next(s: SchedView, i: int)
    requires
        s.cache.wf(),
    ensures
        is_next(s, i) <==> policy::is_candidate(s.cache, s.waiting, i),
        is_next(s, i) ==> i == s.candidate_at(),
{
    if 0 <= i < s.waiting.len() {
        law_oversized_is_a_matter_of_slots(s.cache, s.waiting[i]);
        assert forall|j: int| 0 <= j < i implies policy::oversized(
            s.cache,
            #[trigger] s.waiting[j],
        ) == (s.waiting[j].prompt.len() + s.waiting[j].output.len() > s.cache.num_blocks
            * s.cache.block_size) by {
            law_oversized_is_a_matter_of_slots(s.cache, s.waiting[j]);
        }
        if policy::is_candidate(s.cache, s.waiting, i) {
            policy::lemma_candidate_unique(s, i);
            assert forall|j: int| 0 <= j < i implies (#[trigger] s.waiting[j]).prompt.len()
                + s.waiting[j].output.len() > s.cache.num_blocks * s.cache.block_size by {
                assert(policy::oversized(s.cache, s.waiting[j]));
            }
        }
    }
}

/// Admission goes on while the batch has room, some request could ever be held,
/// and the first such request has room now. It then joins the batch with all
/// its tokens stored, and admission goes on from there. Otherwise admission is
/// over, and nothing moves.
pub proof fn law_admission_step_by_step(s: SchedView, i: int)
    requires
        s.cache.wf(),
        is_next(s, i),
        s.running.len() < s.max_batch,
    ensures
        ({
            let q = s.waiting[i];
            let n = q.prompt.len() + q.output.len();
            let known = s.cache.register(q.id);
            let held = known.tables[q.id];
            let joined = SchedView {
                max_batch: s.max_batch,
                cache: known.try_append(q.id, n),
                waiting: s.waiting.remove(i),
                running: s.running.push(SeqView { state: SeqState::Running, ..q }),
            };
            if held.tokens + n <= (held.blocks.len() + known.free.len()) * known.block_size {
                &&& s.after_admission() == joined.after_admission()
                &&& s.admitted() == seq![q.id] + joined.admitted()
            } else {
                &&& s.after_admission() == (SchedView { cache: known.release(q.id), ..s })
                &&& s.admitted().len() == 0
            }
        }),
{
    let q = s.waiting[i];
    lemma_next(s, i);
    paged_cache::lemma_register_wf(s.cache, q.id);
    cache_laws::law_fitting_is_a_matter_of_slots(
        s.cache.register(q.id),
        q.id,
        q.prompt.len() + q.output.len(),
    );
}

/// Admission does not begin if the batch is full or no request could ever be
/// held.
pub proof fn law_admission_needs_room_and_a_request(s: SchedView)
    requires
        s.cache.wf(),
        s.running.len() >= s.max_batch || s.waiting.filter(small_enough(s.cache)).len() == 0,
    ensures
        s.after_admission() == s,
        s.admitted().len() == 0,
{
    if s.has_candidate() {
        let i = s.candidate_at();
        lemma_next(s, i);
        assert(small_enough(s.cache)(s.waiting[i]));
        s.waiting.lemma_filter_contains(small_enough(s.cache), i);
    }
}

/// Whether admission has nothing left to do: the batch is full, or every request
/// that waits is too large for the whole cache, or the first of the others has
/// more tokens than the free blocks have slots.
pub open spec fn admission_is_over(a: SchedView) -> bool {
    ||| a.running.len() == a.max_batch
    ||| forall|i: int|
        0 <= i < a.waiting.len() ==> (#[trigger] a.waiting[i]).prompt.len()
            + a.waiting[i].output.len() > a.cache.num_blocks * a.cache.block_size
    ||| exists|i: int| #[trigger]
        is_next(a, i) && a.waiting[i].prompt.len() + a.waiting[i].output.len()
            > a.cache.free.len() * a.cache.block_size
}

/// Admission is maximal: it ends only where it has nothing left to do.
pub proof fn law_admission_is_maximal(s: SchedView)
    requires
        s.coherent(),
    ensures
        admission_is_over(s.after_admission()),
        s.after_admission().max_batch == s.max_batch,
        s.after_admission().cache.num_blocks == s.cache.num_blocks,
        s.after_admission().cache.block_size == s.cache.block_size,
    decreases s.waiting.len(),
{
    scheduler_laws::lemma_admission_coherent(s);
    if s.has_candidate() {
        let i = s.candidate_at();
        lemma_next(s, i);
        if s.candidate_fits() {
            scheduler_laws::lemma_take_candidate(s);
            law_admission_is_maximal(s.take_candidate());
        } else {
            scheduler_laws::law_failed_admission_changes_nothing(s);
            let q = s.waiting[i];
            scheduler_laws::lemma_at(s.waiting, i);
            assert(!policy::has_id(s.running, q.id));
            assert(!s.cache.contains(q.id));
            paged_cache::lemma_register_wf(s.cache, q.id);
            cache_laws::law_fitting_is_a_matter_of_slots(
                s.cache.register(q.id),
                q.id,
                q.total_len(),
            );
            assert(s.cache.register(q.id).tables[q.id].blocks.len() == 0);
            assert(is_next(s, i));
        }
    } else if s.running.len() < s.max_batch {
        assert forall|i: int| 0 <= i < s.waiting.len() implies (#[trigger] s.waiting[i]).prompt.len()
            + s.waiting[i].output.len() > s.cache.num_blocks * s.cache.block_size by {
            law_oversized_is_a_matter_of_slots(s.cache, s.waiting[i]);
            if !policy::oversized(s.cache, s.waiting[i]) {
                policy::lemma_candidate_exists(s.cache, s.waiting, i);
            }
        }
    }
}

proof fn lemma_filter_first(waiting: Seq<SeqView>, p: spec_fn(SeqView) -> bool, i: int)
    requires
        0 <= i < waiting.len(),
        p(waiting[i]),
        forall|j: int| 0 <= j < i ==> !p(#[trigger] waiting[j]),
    ensures
        waiting.filter(p) == seq![waiting[i]] + waiting.remove(i).filter(p),
{
    let front = waiting.take(i);
    let back = waiting.skip(i + 1);
    let here = seq![waiting[i]];
    assert(waiting =~= front + here + back);
    assert(waiting.remove(i) =~= front + back);
    Seq::filter_distributes_over_add(front + here, back, p);
    Seq::filter_distributes_over_add(front, here, p);
    Seq::filter_distributes_over_add(front, back, p);
    if front.filter(p).len() > 0 {
        front.lemma_filter_pred(p, 0);
        lemma_filter_member(front, p, 0);
        let k = front.index_of(front.filter(p)[0]);
        assert(waiting[k] == front[k]);
    }
    assert(here.filter(p) =~= here) by {
        reveal(Seq::filter);
        assert(here.drop_last() =~= Seq::empty());
        assert(here.drop_last().filter(p) =~= Seq::empty());
    }
    assert(front.filter(p) =~= Seq::empty());
    assert(waiting.filter(p) =~= here + back.filter(p));
    assert(waiting.remove(i).filter(p) =~= back.filter(p));
}

proof fn lemma_filter_member(list: Seq<SeqView>, p: spec_fn(SeqView) -> bool, i: int)
    requires
        0 <= i < list.filter(p).len(),
    ensures
        list.contains(list.filter(p)[i]),
    decreases list.len(),
{
    reveal(Seq::filter);
    if list.len() > 0 {
        let front = list.drop_last();
        let n = list.len() - 1;
        if i < front.filter(p).len() {
            lemma_filter_member(front, p, i);
            let k = front.index_of(front.filter(p)[i]);
            assert(list[k] == list.filter(p)[i]);
        } else {
            assert(list[n] == list.filter(p)[i]);
        }
    }
}

/// The requests admitted are the first of those that the cache could ever hold,
/// in order, and they join the end of the batch as they waited but running. The
/// others of those still wait, in order.
pub proof fn law_admission_takes_the_first(s: SchedView)
    requires
        s.cache.wf(),
    ensures
        s.admitted().len() <= s.waiting.filter(small_enough(s.cache)).len(),
        s.after_admission().running.len() == s.running.len() + s.admitted().len(),
        forall|k: int|
            0 <= k < s.running.len() ==> #[trigger] s.after_admission().running[k]
                == s.running[k],
        forall|k: int|
            0 <= k < s.admitted().len() ==> #[trigger] s.admitted()[k] == s.waiting.filter(
                small_enough(s.cache),
            )[k].id,
        forall|k: int|
            s.running.len() <= k < s.after_admission().running.len()
                ==> #[trigger] s.after_admission().running[k] == (SeqView {
                state: SeqState::Running,
                ..s.waiting.filter(small_enough(s.cache))[k - s.running.len()]
            }),
        s.after_admission().waiting.filter(small_enough(s.cache)) == s.waiting.filter(
            small_enough(s.cache),
        ).skip(s.admitted().len() as int),
        s.after_admission().waiting.len() + s.admitted().len() == s.waiting.len(),
    decreases s.waiting.len(),
{
    let p = small_enough(s.cache);
    let queue = s.waiting.filter(p);
    let n = s.admitted().len() as int;
    if s.has_candidate() && s.candidate_fits() {
        let i = s.candidate_at();
        let t = s.take_candidate();
        let q = s.waiting[i];
        lemma_next(s, i);
        assert(is_next(s, i));
        assert(p(q));
        lemma_filter_first(s.waiting, p, i);
        paged_cache::lemma_register_wf(s.cache, q.id);
        paged_cache::lemma_append_wf(s.cache.register(q.id), q.id, q.total_len());
        law_admission_takes_the_first(t);
        assert(small_enough(t.cache) =~= p);
        let rest = t.waiting.filter(p);
        assert forall|k: int| 0 <= k < s.running.len() implies #[trigger] s.after_admission().running[k]
            == s.running[k] by {
            assert(t.running[k] == s.running[k]);
        }
        assert forall|k: int| 0 <= k < n implies #[trigger] s.admitted()[k] == queue[k].id by {
            if k > 0 {
                assert(t.admitted()[k - 1] == rest[k - 1].id);
                assert(queue[k] == rest[k - 1]);
            }
        }
        assert forall|k: int|
            s.running.len() <= k
                < s.after_admission().running.len() implies #[trigger] s.after_admission().running[k]
            == (SeqView { state: SeqState::Running, ..queue[k - s.running.len()] }) by {
            if k == s.running.len() {
                assert(t.running[k] == q.in_state(SeqState::Running));
            } else {
                assert(queue[k - s.running.len()] == rest[k - t.running.len()]);
            }
        }
        assert(queue.skip(n) =~= rest.skip(n - 1));
    } else {
        assert(n == 0);
        assert(queue.skip(0) =~= queue);
        assert(s.after_admission().waiting == s.waiting);
    }
}

/// A token asks for a block exactly if the sequence has no slot left.
proof fn lemma_one_more(c: CacheView, id: SeqId)
    requires
        c.wf(),
    ensures
        c.needed(id, 1) == if c.tables.contains_key(id) ==> c.tables[id].tokens
            == c.tables[id].blocks.len() * c.block_size {
            1nat
        } else {
            0
        },
{
    if c.contains(id) {
        paged_cache::lemma_table_bounds(c, id);
    }
    if c.slack(id) == 0 {
        arith::lemma_ceil_div_unique(1, c.block_size, 1);
    }
}

/// The blocks asked for are one for each sequence that decodes and has no slot
/// left in its blocks.
pub proof fn law_demand_counts_the_full(c: CacheView, running: Seq<SeqView>)
    requires
        c.wf(),
    ensures
        policy::demand(c, running) == running.filter(out_of_slots(c)).len(),
    decreases running.len(),
{
    reveal(Seq::filter);
    if running.len() > 0 {
        law_demand_counts_the_full(c, running.drop_last());
        lemma_one_more(c, running.last().id);
    }
}

/// Whether `v` is where the sequence to preempt stands: it decodes in the next
/// step, and of those that do none has generated less, nor as much under a
/// larger id.
pub open spec fn is_least(running: Seq<SeqView>, v: int) -> bool {
    &&& 0 <= v < running.len()
    &&& running[v].state == SeqState::Running
    &&& running[v].output.len() < running[v].limit
    &&& forall|j: int|
        0 <= j < running.len() && (#[trigger] running[j]).state == SeqState::Running
            && running[j].output.len() < running[j].limit ==> {
            ||| running[v].output.len() < running[j].output.len()
            ||| running[v].output.len() == running[j].output.len() && running[v].id
                > running[j].id
            ||| running[v].output.len() == running[j].output.len() && running[v].id
                == running[j].id && v <= j
        }
}

/// Preemption moves nobody if the free blocks suffice. If they do not, there is
/// a sequence to preempt; it gives its blocks back, waits at the head of the
/// queue with its output, and preemption goes on from there.
pub proof fn law_preemption_step_by_step(s: SchedView)
    requires
        s.cache.wf(),
    ensures
        ({
            let wanted = s.running.filter(out_of_slots(s.cache)).len();
            if wanted <= s.cache.free.len() {
                s.after_preemption() == s && s.preempted().len() == 0
            } else {
                exists|v: int|
                    {
                        &&& #[trigger] is_least(s.running, v)
                        &&& ({
                            let left = SchedView {
                                max_batch: s.max_batch,
                                cache: s.cache.release(s.running[v].id),
                                waiting: seq![
                                    SeqView { state: SeqState::Preempted, ..s.running[v] },
                                ] + s.waiting,
                                running: s.running.remove(v),
                            };
                            &&& s.after_preemption() == left.after_preemption()
                            &&& s.preempted() == seq![s.running[v].id] + left.preempted()
                        })
                    }
            }
        }),
{
    law_demand_counts_the_full(s.cache, s.running);
    if s.over_committed() {
        policy::lemma_demand_has_victim(s.cache, s.running);
        policy::lemma_victim(s.running);
        let v = policy::victim(s.running);
        assert(is_least(s.running, v)) by {
            assert forall|j: int|
                0 <= j < s.running.len() && (#[trigger] s.running[j]).state == SeqState::Running
                    && s.running[j].output.len() < s.running[j].limit implies {
                ||| s.running[v].output.len() < s.running[j].output.len()
                ||| s.running[v].output.len() == s.running[j].output.len() && s.running[v].id
                    > s.running[j].id
                ||| s.running[v].output.len() == s.running[j].output.len() && s.running[v].id
                    == s.running[j].id && v <= j
            } by {
                assert(s.running[j].growing());
                assert(!s.running[j].yields_before(s.running[v]));
            }
        }
    }
}

/// Preemption is enough: where it ends, the sequences that decode and have no
/// slot left are no more than the free blocks.
pub proof fn law_preemption_makes_room(s: SchedView)
    requires
        s.coherent(),
    ensures
        ({
            let p = s.after_preemption();
            p.running.filter(out_of_slots(p.cache)).len() <= p.cache.free.len()
        }),
{
    scheduler_laws::lemma_preemption_coherent(s);
    let p = s.after_preemption();
    law_demand_counts_the_full(p.cache, p.running);
}

/// Commitment goes through the batch in order. Each sequence that decodes
/// stores one token more where it fits, and is then in the decode batch.
pub proof fn law_commitment_step_by_step(c: CacheView, running: Seq<SeqView>, q: SeqView)
    ensures
        policy::commit(c, Seq::empty()) == c,
        policy::decode_batch(c, Seq::empty()).len() == 0,
        ({
            let before = policy::commit(c, running);
            if q.state == SeqState::Running && q.output.len() < q.limit {
                &&& policy::commit(c, running.push(q)) == before.try_append(q.id, 1)
                &&& policy::decode_batch(c, running.push(q)) == if before.fits(q.id, 1) {
                    policy::decode_batch(c, running).push(q.id)
                } else {
                    policy::decode_batch(c, running)
                }
            } else {
                &&& policy::commit(c, running.push(q)) == before
                &&& policy::decode_batch(c, running.push(q)) == policy::decode_batch(c, running)
            }
        }),
{
    assert(running.push(q).drop_last() =~= running);
}

/// Exactly the complete sequences retire: the others stay in order, the plan
/// names those that left in order, and they give their blocks back in order.
pub proof fn law_retirement_takes_the_complete(c: CacheView, running: Seq<SeqView>, q: SeqView)
    ensures
        policy::survivors(running) == running.filter(not_done()),
        policy::finished(running).len() == running.filter(done()).len(),
        forall|i: int|
            0 <= i < policy::finished(running).len() ==> #[trigger] policy::finished(running)[i]
                == running.filter(done())[i].id,
        policy::retire(c, Seq::empty()) == c,
        policy::retire(c, running.push(q)) == if q.output.len() >= q.limit {
            policy::retire(c, running).release(q.id)
        } else {
            policy::retire(c, running)
        },
{
    assert(running.push(q).drop_last() =~= running);
    lemma_retirement(running);
}

proof fn lemma_retirement(running: Seq<SeqView>)
    ensures
        policy::survivors(running) == running.filter(not_done()),
        policy::finished(running).len() == running.filter(done()).len(),
        forall|i: int|
            0 <= i < policy::finished(running).len() ==> #[trigger] policy::finished(running)[i]
                == running.filter(done())[i].id,
    decreases running.len(),
{
    reveal(Seq::filter);
    if running.len() > 0 {
        lemma_retirement(running.drop_last());
    } else {
        assert(policy::survivors(running) =~= running.filter(not_done()));
    }
}

/// An iteration is its four phases in order, and the plan reports each of them:
/// whom admission took, whom preemption sent back, who decodes of those left,
/// and who of them retires.
pub proof fn law_iteration_is_its_phases(s: SchedView)
    ensures
        ({
            let a = s.after_admission();
            let p = a.after_preemption();
            let t = s.after_schedule();
            &&& t.max_batch == p.max_batch
            &&& t.waiting == p.waiting
            &&& t.running == p.running.filter(not_done())
            &&& t.cache == policy::retire(policy::commit(p.cache, p.running), p.running)
            &&& s.plan().admitted == s.admitted()
            &&& s.plan().preempted == a.preempted()
            &&& s.plan().decode_batch == policy::decode_batch(p.cache, p.running)
            &&& s.plan().finished.len() == p.running.filter(done()).len()
            &&& forall|i: int|
                0 <= i < s.plan().finished.len() ==> #[trigger] s.plan().finished[i]
                    == p.running.filter(done())[i].id
        }),
{
    let p = s.after_admission().after_preemption();
    lemma_retirement(p.running);
}

/// Every sequence that an iteration leaves in the batch decodes, in batch order,
/// and has reserved the slot for it: it stores one token more than before.
pub proof fn law_every_decoder_has_its_slot(s: SchedView, i: int)
    requires
        s.coherent(),
        0 <= i < s.after_schedule().running.len(),
    ensures
        ({
            let q = s.after_schedule().running[i];
            let before = s.batched().cache;
            &&& q.output.len() < q.limit
            &&& s.plan().decode_batch.len() == s.after_schedule().running.len()
            &&& s.plan().decode_batch[i] == q.id
            &&& s.after_schedule().cache.tables.contains_key(q.id)
            &&& s.after_schedule().cache.tables[q.id].tokens == before.tables[q.id].tokens + 1
        }),
{
    scheduler_laws::law_schedule_is_coherent(s);
    scheduler_laws::law_whole_batch_decodes(s);
    let b = s.batched();
    let t = s.after_schedule();
    let q = t.running[i];
    scheduler_laws::lemma_members_cached(b);
    scheduler_laws::lemma_commit(b.cache, b.running);
    scheduler_laws::lemma_retire(policy::commit(b.cache, b.running), b.running);
    scheduler_laws::lemma_survivors(b.running);
    scheduler_laws::lemma_members_cached(t);
    assert(policy::ids(t.running).len() == t.running.len());
    assert(policy::ids(t.running)[i] == q.id);
    assert(t.cache.contains(q.id));
    let k = b.running.index_of(q);
    assert(b.running[k] == q);
    assert(b.cache.contains(b.running[k].id));
    let mid = policy::commit(b.cache, b.running);
    assert(mid.tokens(b.running[k].id) == b.cache.tokens(b.running[k].id) + 1);
    assert(t.cache.tables[q.id] == mid.tables[q.id]);
    assert(mid.contains(q.id) == b.cache.contains(q.id));
}

} // verus!
