//! What the engine promises of a run.
//!
//! Every request gets exactly the tokens that decoding it alone would give,
//! however the batch is scheduled, and every request that the cache can hold on
//! its own is answered.
use vstd::prelude::*;

use crate::engine::Emission;
use crate::model::{Model, TokenId};
use crate::paged_cache::{CacheView, SeqId};
use crate::policy::{SchedView, SeqView};
use crate::scheduler::SeqState;
#[allow(unused_imports)]
use crate::{arith, engine, model, paged_cache, policy, scheduler_laws};

verus! {

/// A request after its next token.
pub open spec fn advance<M: Model + ?Sized>(model: &M, q: SeqView) -> SeqView {
    let token = model::next_token(model, q.context());
    q.with_token(token, token == model.eos())
}

/// All the tokens that a request is owed, those it has got included.
pub open spec fn owed<M: Model + ?Sized>(model: &M, q: SeqView) -> Seq<TokenId> {
    model::greedy_from(model, q.prompt, q.output, q.limit)
}

/// A token brings a request closer to what it is owed, and changes nothing of
/// what that is.
pub proof fn law_tokens_are_owed<M: Model + ?Sized>(model: &M, q: SeqView)
    ensures
        q.complete() ==> owed(model, q) == q.output,
        !q.complete() ==> owed(model, advance(model, q)) == owed(model, q),
{
    if !q.complete() {
        let token = model::next_token(model, q.context());
        if token == model.eos() {
            assert(advance(model, q).complete());
        }
    }
}

/// What decoding the first `k` sequences of the batch does.
proof fn lemma_decode<M: Model + ?Sized>(model: &M, s: SchedView, k: int)
    requires
        s.coherent(),
        0 <= k <= s.running.len(),
    ensures
        ({
            let batch = policy::ids(s.running).take(k);
            let t = engine::after_decode(model, s, batch);
            let e = engine::decoded(model, s, batch);
            &&& t.coherent()
            &&& t.cache == s.cache
            &&& t.waiting == s.waiting
            &&& t.max_batch == s.max_batch
            &&& t.running.len() == s.running.len()
            &&& forall|i: int|
                0 <= i < s.running.len() ==> #[trigger] t.running[i] == if i < k {
                    advance(model, s.running[i])
                } else {
                    s.running[i]
                }
            &&& e.len() == k
            &&& forall|i: int|
                0 <= i < k ==> (#[trigger] e[i]).0 == s.running[i].id && e[i].1
                    == model::next_token(model, s.running[i].context())
        }),
    decreases k,
{
    let all = policy::ids(s.running);
    assert(all.len() == s.running.len());
    if k == 0 {
        assert(all.take(0) =~= Seq::empty());
    } else {
        lemma_decode(model, s, k - 1);
        let before = engine::after_decode(model, s, all.take(k - 1));
        let id = s.running[k - 1].id;
        assert(all[k - 1] == id);
        assert(all.take(k).drop_last() =~= all.take(k - 1));
        assert(all.take(k).last() == id);
        assert(before.running[k - 1] == s.running[k - 1]);
        scheduler_laws::lemma_at(before.running, k - 1);
        let token = engine::token_for(model, before, id);
        scheduler_laws::law_push_token_is_coherent(before, id, token, token == model.eos());
        let t = engine::after_decode(model, s, all.take(k));
        assert(t == before.push_token(id, token, token == model.eos()));
        assert forall|i: int| 0 <= i < s.running.len() implies #[trigger] t.running[i] == if i < k {
            advance(model, s.running[i])
        } else {
            s.running[i]
        } by {
            assert(before.running[i] == if i < k - 1 {
                advance(model, s.running[i])
            } else {
                s.running[i]
            });
        }
    }
}

/// The emissions that carry distinct ids hold one token for each.
proof fn lemma_one_emission(emitted: Seq<Emission>, list: Seq<SeqView>, k: int, id: SeqId)
    requires
        scheduler_laws::distinct(list),
        0 <= k <= list.len(),
        emitted.len() == k,
        forall|i: int| 0 <= i < k ==> (#[trigger] emitted[i]).0 == list[i].id,
    ensures
        ({
            let p = policy::position(list, id);
            if policy::has_id(list, id) && p < k {
                engine::tokens_of(emitted, id) == seq![emitted[p].1]
            } else {
                engine::tokens_of(emitted, id).len() == 0
            }
        }),
    decreases k,
{
    if policy::has_id(list, id) {
        policy::lemma_position(list, id);
    }
    if k > 0 {
        let front = emitted.drop_last();
        assert(emitted[k - 1].0 == list[k - 1].id);
        assert forall|i: int| 0 <= i < k - 1 implies (#[trigger] front[i]).0 == list[i].id by {
            assert(front[i] == emitted[i]);
        }
        lemma_one_emission(front, list, k - 1, id);
        if emitted.last().0 == id {
            scheduler_laws::lemma_at(list, k - 1);
            assert(engine::tokens_of(emitted, id) =~= seq![emitted[k - 1].1]);
        }
    }
}

/// One iteration: each sequence that the batch decodes gets its next token and
/// that token is emitted for it; every other request stays as it was.
pub proof fn law_step_advances_the_batch<M: Model + ?Sized>(model: &M, s: SchedView)
    requires
        s.coherent(),
    ensures
        engine::after_step(model, s).coherent(),
        forall|id: SeqId| #[trigger]
            engine::after_step(model, s).has(id) == (s.has(id) && !s.plan().finished.contains(id)),
        forall|id: SeqId|
            engine::after_step(model, s).has(id) ==> #[trigger] engine::after_step(
                model,
                s,
            ).request(id) == if s.plan().decode_batch.contains(id) {
                advance(model, s.request(id))
            } else {
                s.request(id)
            },
        forall|id: SeqId| #[trigger]
            engine::tokens_of(engine::step_emits(model, s), id) == if s.plan().decode_batch.contains(
                id,
            ) {
                seq![model::next_token(model, s.request(id).context())]
            } else {
                Seq::empty()
            },
        forall|id: SeqId| #[trigger]
            s.plan().decode_batch.contains(id) ==> engine::after_step(model, s).has(id)
                && !s.request(id).complete(),
{
    let p = s.after_schedule();
    let t = engine::after_step(model, s);
    let batch = s.plan().decode_batch;
    let n = p.running.len() as int;
    scheduler_laws::law_schedule_is_coherent(s);
    scheduler_laws::law_schedule_loses_nothing(s);
    scheduler_laws::law_whole_batch_decodes(s);
    scheduler_laws::lemma_survivors(s.batched().running);
    assert(policy::ids(p.running).len() == n);
    assert(policy::ids(p.running).take(n) =~= batch);
    lemma_decode(model, p, n);
    assert forall|id: SeqId| #[trigger] batch.contains(id) == policy::has_id(p.running, id) by {
        if batch.contains(id) {
            let i = batch.index_of(id);
            assert(p.running[i].id == id);
        }
        if policy::has_id(p.running, id) {
            scheduler_laws::lemma_found(p.running, id);
            assert(batch[policy::position(p.running, id)] == id);
        }
    }
    assert forall|id: SeqId| #[trigger]
        policy::has_id(t.running, id) == policy::has_id(p.running, id) by {
        if policy::has_id(p.running, id) {
            scheduler_laws::lemma_found(p.running, id);
            assert(t.running[policy::position(p.running, id)].id == id);
        }
        if policy::has_id(t.running, id) {
            scheduler_laws::lemma_found(t.running, id);
            assert(p.running[policy::position(t.running, id)].id == id);
        }
    }
    assert forall|id: SeqId| #[trigger]
        t.has(id) == (s.has(id) && !s.plan().finished.contains(id)) by {
        assert(p.has(id) == (s.has(id) && !s.plan().finished.contains(id)));
        assert(policy::has_id(t.running, id) == policy::has_id(p.running, id));
    }
    assert forall|id: SeqId| t.has(id) implies #[trigger] t.request(id) == if batch.contains(id) {
        advance(model, s.request(id))
    } else {
        s.request(id)
    } by {
        assert(policy::has_id(t.running, id) == policy::has_id(p.running, id));
        assert(p.has(id));
        assert(p.request(id) == s.request(id));
        if policy::has_id(p.running, id) {
            scheduler_laws::lemma_found(p.running, id);
            let i = policy::position(p.running, id);
            assert(t.running[i] == advance(model, p.running[i]));
            scheduler_laws::lemma_at(t.running, i);
            assert(p.running[i].context() == s.request(id).context());
        }
    }
    assert forall|id: SeqId| #[trigger]
        engine::tokens_of(engine::step_emits(model, s), id) == if batch.contains(id) {
            seq![model::next_token(model, s.request(id).context())]
        } else {
            Seq::empty()
        } by {
        let e = engine::step_emits(model, s);
        lemma_one_emission(e, p.running, n, id);
        if batch.contains(id) {
            scheduler_laws::lemma_found(p.running, id);
            let i = policy::position(p.running, id);
            assert(e[i].1 == model::next_token(model, p.running[i].context()));
            assert(p.has(id));
            assert(p.request(id) == s.request(id));
            assert(p.running[i].context() == s.request(id).context());
        } else {
            assert(engine::tokens_of(e, id) =~= Seq::empty());
        }
    }
    assert forall|id: SeqId| #[trigger] batch.contains(id) implies t.has(id) && !s.request(
        id,
    ).complete() by {
        scheduler_laws::lemma_found(p.running, id);
        let i = policy::position(p.running, id);
        assert(!p.running[i].complete());
        assert(p.has(id));
        assert(p.request(id) == s.request(id));
        assert(policy::has_id(t.running, id));
    }
}

/// Safety of a run: whatever the schedule, what a request has got before and in
/// the run is a part of what it is owed; once it has left the scheduler it is
/// all of it. A request that is not submitted gets nothing.
pub proof fn law_run_emits_what_is_owed<M: Model + ?Sized>(
    model: &M,
    s: SchedView,
    fuel: nat,
    id: SeqId,
)
    requires
        s.coherent(),
    ensures
        ({
            let f = engine::after_run(model, s, fuel);
            let got = engine::tokens_of(engine::run_emits(model, s, fuel), id);
            &&& f.coherent()
            &&& !s.has(id) ==> !f.has(id) && got.len() == 0
            &&& s.has(id) && f.has(id) ==> f.request(id).output == s.request(id).output + got
                && owed(model, f.request(id)) == owed(model, s.request(id))
            &&& s.has(id) && !f.has(id) ==> s.request(id).output + got == owed(
                model,
                s.request(id),
            )
        }),
    decreases fuel,
{
    if fuel == 0 || !s.has_work() {
        assert(s.request(id).output + Seq::<TokenId>::empty() =~= s.request(id).output);
        if !s.has_work() {
            assert(!s.has(id));
        }
    } else {
        let t = engine::after_step(model, s);
        let first = engine::step_emits(model, s);
        let rest = engine::run_emits(model, t, (fuel - 1) as nat);
        law_step_advances_the_batch(model, s);
        law_run_emits_what_is_owed(model, t, (fuel - 1) as nat, id);
        engine::lemma_tokens_of_concat(first, rest, id);
        law_tokens_are_owed(model, s.request(id));
        let a = engine::tokens_of(first, id);
        let b = engine::tokens_of(rest, id);
        assert(t.has(id) == (s.has(id) && !s.plan().finished.contains(id)));
        if s.has(id) {
            let out = s.request(id).output;
            assert(out + (a + b) =~= (out + a) + b);
            if t.has(id) {
                assert(t.request(id).output =~= out + a);
            } else {
                scheduler_laws::law_schedule_loses_nothing(s);
                assert(s.plan().finished.contains(id));
                assert(out + (a + b) =~= out);
            }
        } else {
            if s.plan().decode_batch.contains(id) {
                assert(t.has(id));
            }
        }
    }
}

/// The iterations that a request still takes: one for each token that it is
/// owed, and one to leave.
pub open spec fn remaining<M: Model + ?Sized>(model: &M, q: SeqView) -> nat {
    (owed(model, q).len() - q.output.len() + 1) as nat
}

/// What a request is owed holds what it has got, and more unless it is complete.
proof fn lemma_owed_len<M: Model + ?Sized>(model: &M, q: SeqView)
    ensures
        owed(model, q).len() >= q.output.len(),
        !q.complete() ==> owed(model, q).len() > q.output.len(),
        q.complete() ==> owed(model, q).len() == q.output.len(),
    decreases q.limit - q.output.len(),
{
    if !q.complete() {
        law_tokens_are_owed(model, q);
        let next = advance(model, q);
        if next.complete() {
            law_tokens_are_owed(model, next);
        } else {
            lemma_owed_len(model, next);
        }
    }
}

/// The iterations that the requests of a list may still take.
pub open spec fn list_work<M: Model + ?Sized>(model: &M, list: Seq<SeqView>) -> nat
    decreases list.len(),
{
    if list.len() == 0 {
        0
    } else {
        list_work(model, list.drop_last()) + remaining(model, list.last())
    }
}

/// The iterations that a scheduler may still take.
pub open spec fn work<M: Model + ?Sized>(model: &M, s: SchedView) -> nat {
    list_work(model, s.running) + list_work(model, s.waiting)
}

proof fn lemma_work_concat<M: Model + ?Sized>(model: &M, a: Seq<SeqView>, b: Seq<SeqView>)
    ensures
        list_work(model, a + b) == list_work(model, a) + list_work(model, b),
    decreases b.len(),
{
    if b.len() == 0 {
        assert(a + b =~= a);
    } else {
        assert((a + b).drop_last() =~= a + b.drop_last());
        lemma_work_concat(model, a, b.drop_last());
    }
}

proof fn lemma_work_one<M: Model + ?Sized>(model: &M, q: SeqView)
    ensures
        list_work(model, seq![q]) == remaining(model, q),
{
    assert(seq![q].drop_last() =~= Seq::empty());
    assert(list_work(model, seq![q].drop_last()) == 0);
}

proof fn lemma_work_remove<M: Model + ?Sized>(model: &M, list: Seq<SeqView>, k: int)
    requires
        0 <= k < list.len(),
    ensures
        list_work(model, list.remove(k)) + remaining(model, list[k]) == list_work(model, list),
{
    let a = list.take(k);
    let b = list.skip(k + 1);
    assert(list =~= (a + seq![list[k]]) + b);
    assert(list.remove(k) =~= a + b);
    lemma_work_concat(model, a, b);
    lemma_work_concat(model, a, seq![list[k]]);
    lemma_work_concat(model, a + seq![list[k]], b);
    lemma_work_one(model, list[k]);
}

proof fn lemma_admission_work<M: Model + ?Sized>(model: &M, s: SchedView)
    ensures
        work(model, s.after_admission()) == work(model, s),
        s.after_admission().running.len() >= s.running.len(),
        s.after_admission().max_batch == s.max_batch,
        s.after_admission().cache.num_blocks == s.cache.num_blocks,
        s.after_admission().cache.block_size == s.cache.block_size,
    decreases s.waiting.len(),
{
    if s.has_candidate() && s.candidate_fits() {
        let t = s.take_candidate();
        assert(t.running.drop_last() =~= s.running);
        lemma_work_remove(model, s.waiting, s.candidate_at());
        lemma_admission_work(model, t);
    }
}

proof fn lemma_preemption_work<M: Model + ?Sized>(model: &M, s: SchedView)
    ensures
        work(model, s.after_preemption()) == work(model, s),
        s.after_preemption().max_batch == s.max_batch,
        s.after_preemption().cache.num_blocks == s.cache.num_blocks,
        s.after_preemption().cache.block_size == s.cache.block_size,
    decreases s.running.len(),
{
    if s.over_committed() && policy::has_victim(s.running) {
        policy::lemma_victim(s.running);
        let k = policy::victim(s.running);
        let t = s.preempt_victim();
        lemma_work_remove(model, s.running, k);
        lemma_work_one(model, s.running[k].in_state(SeqState::Preempted));
        lemma_work_concat(model, seq![s.running[k].in_state(SeqState::Preempted)], s.waiting);
        lemma_preemption_work(model, t);
    }
}

proof fn lemma_survivors_work<M: Model + ?Sized>(model: &M, running: Seq<SeqView>)
    ensures
        list_work(model, policy::survivors(running)) + policy::finished(running).len()
            == list_work(model, running),
    decreases running.len(),
{
    if running.len() > 0 {
        let front = running.drop_last();
        lemma_survivors_work(model, front);
        lemma_owed_len(model, running.last());
        if !running.last().complete() {
            assert(policy::survivors(running).drop_last() =~= policy::survivors(front));
        }
    }
}

proof fn lemma_advance_work<M: Model + ?Sized>(
    model: &M,
    before: Seq<SeqView>,
    after: Seq<SeqView>,
)
    requires
        before.len() == after.len(),
        forall|i: int|
            0 <= i < before.len() ==> #[trigger] after[i] == advance(model, before[i])
                && !before[i].complete(),
    ensures
        list_work(model, after) + before.len() <= list_work(model, before),
    decreases before.len(),
{
    if before.len() > 0 {
        let n = before.len() - 1;
        assert forall|i: int| 0 <= i < n implies #[trigger] after.drop_last()[i] == advance(
            model,
            before.drop_last()[i],
        ) && !before.drop_last()[i].complete() by {
            assert(after[i] == after.drop_last()[i]);
        }
        lemma_advance_work(model, before.drop_last(), after.drop_last());
        assert(after[n] == advance(model, before[n]));
        law_tokens_are_owed(model, before[n]);
        lemma_owed_len(model, before[n]);
    }
}

/// Each sequence of the batch uses up an iteration of its own.
pub proof fn lemma_step_work<M: Model + ?Sized>(model: &M, s: SchedView)
    requires
        s.coherent(),
    ensures
        work(model, engine::after_step(model, s)) + s.batched().running.len() <= work(model, s),
        engine::after_step(model, s).max_batch == s.max_batch,
        engine::after_step(model, s).cache == s.after_schedule().cache,
        s.after_schedule().cache.num_blocks == s.cache.num_blocks,
        s.after_schedule().cache.block_size == s.cache.block_size,
{
    let b = s.batched();
    let p = s.after_schedule();
    let n = p.running.len() as int;
    scheduler_laws::law_schedule_is_coherent(s);
    scheduler_laws::law_whole_batch_decodes(s);
    scheduler_laws::lemma_members_cached(b);
    scheduler_laws::lemma_commit(b.cache, b.running);
    scheduler_laws::lemma_retire(policy::commit(b.cache, b.running), b.running);
    scheduler_laws::lemma_survivors(b.running);
    lemma_admission_work(model, s);
    lemma_preemption_work(model, s.after_admission());
    lemma_survivors_work(model, b.running);
    policy::lemma_retirement_sizes(b.cache, b.running);
    assert(policy::ids(p.running).len() == n);
    assert(policy::ids(p.running).take(n) =~= s.plan().decode_batch);
    lemma_decode(model, p, n);
    lemma_advance_work(model, p.running, engine::after_step(model, s).running);
}

/// Whether a request, with all that it is owed, fits a cache on its own.
pub open spec fn placeable<M: Model + ?Sized>(
    model: &M,
    block_size: nat,
    num_blocks: nat,
) -> spec_fn(SeqView) -> bool {
    |q: SeqView|
        arith::ceil_div(q.prompt.len() + owed(model, q).len(), block_size) <= num_blocks
}

/// Whether every sequence of the batch has its tokens stored, and no others.
pub open spec fn settled(s: SchedView) -> bool {
    forall|i: int|
        0 <= i < s.running.len() ==> s.cache.tokens((#[trigger] s.running[i]).id)
            == s.running[i].total_len()
}

/// The conditions under which an engine makes progress: batches are not empty,
/// and every request would fit the cache alone.
pub open spec fn can_progress<M: Model + ?Sized>(model: &M, s: SchedView) -> bool {
    &&& s.coherent()
    &&& settled(s)
    &&& 0 < s.max_batch
    &&& s.all_live(placeable(model, s.cache.block_size, s.cache.num_blocks))
}

proof fn lemma_placeable_ignores_state<M: Model + ?Sized>(
    model: &M,
    block_size: nat,
    num_blocks: nat,
)
    ensures
        policy::ignores_state(placeable(model, block_size, num_blocks)),
{
}

proof fn lemma_admission_settled(s: SchedView)
    requires
        s.coherent(),
        settled(s),
    ensures
        settled(s.after_admission()),
    decreases s.waiting.len(),
{
    if s.has_candidate() {
        if s.candidate_fits() {
            let t = s.take_candidate();
            let q = s.candidate();
            scheduler_laws::lemma_take_candidate(s);
            scheduler_laws::lemma_at(s.waiting, s.candidate_at());
            assert(!policy::has_id(s.running, q.id));
            assert(!s.cache.contains(q.id));
            assert forall|i: int| 0 <= i < t.running.len() implies t.cache.tokens(
                (#[trigger] t.running[i]).id,
            ) == t.running[i].total_len() by {
                if i < s.running.len() {
                    assert(t.running[i] == s.running[i]);
                    assert(s.running[i].id != q.id);
                }
            }
            lemma_admission_settled(t);
        } else {
            scheduler_laws::law_failed_admission_changes_nothing(s);
        }
    }
}

pub proof fn lemma_preempt_settled(s: SchedView)
    requires
        s.coherent(),
        settled(s),
        policy::has_victim(s.running),
    ensures
        settled(s.preempt_victim()),
{
    policy::lemma_victim(s.running);
    let k = policy::victim(s.running);
    let t = s.preempt_victim();
    assert forall|i: int| 0 <= i < t.running.len() implies t.cache.tokens(
        (#[trigger] t.running[i]).id,
    ) == t.running[i].total_len() by {
        let o = if i < k {
            i
        } else {
            i + 1
        };
        assert(t.running[i] == s.running[o]);
        if o < k {
            assert(s.running[o].id != s.running[k].id);
        } else {
            assert(s.running[k].id != s.running[o].id);
        }
    }
}

proof fn lemma_preemption_settled(s: SchedView)
    requires
        s.coherent(),
        settled(s),
    ensures
        settled(s.after_preemption()),
    decreases s.running.len(),
{
    if s.over_committed() && policy::has_victim(s.running) {
        policy::lemma_victim(s.running);
        scheduler_laws::lemma_preempt_victim(s);
        lemma_preempt_settled(s);
        lemma_preemption_settled(s.preempt_victim());
    }
}

/// An iteration stores the token that it emits for each sequence of the batch.
pub proof fn lemma_step_settled<M: Model + ?Sized>(model: &M, s: SchedView)
    requires
        s.coherent(),
        settled(s),
    ensures
        settled(s.after_admission()),
        settled(s.batched()),
        settled(engine::after_step(model, s)),
{
    let b = s.batched();
    let p = s.after_schedule();
    let t = engine::after_step(model, s);
    let n = p.running.len() as int;
    let mid = policy::commit(b.cache, b.running);
    lemma_admission_settled(s);
    scheduler_laws::lemma_admission_coherent(s);
    lemma_preemption_settled(s.after_admission());
    scheduler_laws::law_schedule_is_coherent(s);
    scheduler_laws::law_whole_batch_decodes(s);
    scheduler_laws::lemma_members_cached(b);
    scheduler_laws::lemma_members_cached(p);
    scheduler_laws::lemma_commit(b.cache, b.running);
    scheduler_laws::lemma_retire(mid, b.running);
    scheduler_laws::lemma_survivors(b.running);
    assert(policy::ids(p.running).len() == n);
    assert(policy::ids(p.running).take(n) =~= s.plan().decode_batch);
    lemma_decode(model, p, n);
    assert forall|i: int| 0 <= i < t.running.len() implies t.cache.tokens(
        (#[trigger] t.running[i]).id,
    ) == t.running[i].total_len() by {
        let q = p.running[i];
        assert(t.running[i] == advance(model, q));
        assert(!q.complete());
        let k = b.running.index_of(q);
        assert(b.running[k] == q);
        assert(mid.tokens(q.id) == b.cache.tokens(q.id) + 1);
        assert(p.cache.contains(q.id));
        assert(p.cache.tables[q.id] == mid.tables[q.id]);
    }
}

/// A sequence that has the cache to itself can always grow.
proof fn lemma_alone_fits<M: Model + ?Sized>(model: &M, s: SchedView)
    requires
        can_progress(model, s),
        s.running.len() == 1,
    ensures
        !s.over_committed(),
{
    let c = s.cache;
    let q = s.running[0];
    scheduler_laws::lemma_members_cached(s);
    assert(c.contains(q.id));
    let rest = c.tables.remove(q.id);
    assert(rest =~= Map::empty()) by {
        assert forall|id: SeqId| !rest.contains_key(id) by {
            if rest.contains_key(id) {
                assert(c.contains(id));
                assert(policy::has_id(s.running, id));
            }
        }
    }
    paged_cache::lemma_sum_remove(c.tables, paged_cache::block_count(), q.id);
    paged_cache::lemma_sum_empty(paged_cache::block_count());
    paged_cache::lemma_needed_keeps_tight(c, q.id, 1);
    assert(s.running.drop_last() =~= Seq::empty());
    assert(policy::demand(c, s.running.drop_last()) == 0);
    if q.growing() {
        lemma_owed_len(model, q);
        assert(placeable(model, c.block_size, c.num_blocks)(q));
        arith::lemma_ceil_div_monotone(
            c.tables[q.id].tokens + 1,
            q.prompt.len() + owed(model, q).len(),
            c.block_size,
        );
    }
}

proof fn lemma_preemption_progress<M: Model + ?Sized>(model: &M, s: SchedView)
    requires
        can_progress(model, s),
    ensures
        s.running.len() > 0 ==> s.after_preemption().running.len() > 0,
    decreases s.running.len(),
{
    if s.over_committed() && policy::has_victim(s.running) {
        policy::lemma_victim(s.running);
        let k = policy::victim(s.running);
        let v = s.running[k];
        let t = s.preempt_victim();
        let fits = placeable(model, s.cache.block_size, s.cache.num_blocks);
        scheduler_laws::lemma_preempt_victim(s);
        lemma_preempt_settled(s);
        if s.running.len() == 1 {
            lemma_alone_fits(model, s);
        }
        assert forall|i: int| 0 <= i < t.running.len() implies fits(#[trigger] t.running[i]) by {
            assert(t.running[i] == s.running[if i < k {
                i
            } else {
                i + 1
            }]);
        }
        assert forall|i: int| 0 <= i < t.waiting.len() implies fits(#[trigger] t.waiting[i]) by {
            if i > 0 {
                assert(t.waiting[i] == s.waiting[i - 1]);
            } else {
                assert(fits(v));
            }
        }
        lemma_preemption_progress(model, t);
    }
}

/// A scheduler with work puts a sequence in the batch.
proof fn lemma_batch_not_empty<M: Model + ?Sized>(model: &M, s: SchedView)
    requires
        can_progress(model, s),
        s.has_work(),
    ensures
        s.batched().running.len() > 0,
{
    let c = s.cache;
    let fits = placeable(model, c.block_size, c.num_blocks);
    let a = s.after_admission();
    lemma_placeable_ignores_state(model, c.block_size, c.num_blocks);
    policy::lemma_admission_keeps(s, fits);
    scheduler_laws::lemma_admission_coherent(s);
    lemma_admission_settled(s);
    lemma_admission_work(model, s);
    if s.running.len() == 0 {
        let q = s.waiting[0];
        scheduler_laws::law_idle_scheduler_holds_nothing(s);
        assert(!c.contains(q.id)) by {
            assert(!c.tables.dom().contains(q.id));
        }
        assert(fits(q));
        lemma_owed_len(model, q);
        arith::lemma_ceil_div_monotone(
            q.total_len(),
            q.prompt.len() + owed(model, q).len(),
            c.block_size,
        );
        assert(policy::is_candidate(c, s.waiting, 0));
        policy::lemma_candidate_unique(s, 0);
        assert(s.candidate_fits());
        lemma_admission_work(model, s.take_candidate());
    }
    lemma_preemption_progress(model, a);
}

/// An iteration keeps the conditions for progress.
pub proof fn law_progress_is_kept<M: Model + ?Sized>(model: &M, s: SchedView)
    requires
        can_progress(model, s),
    ensures
        can_progress(model, engine::after_step(model, s)),
{
    let p = s.after_schedule();
    let t = engine::after_step(model, s);
    let n = p.running.len() as int;
    let fits = placeable(model, s.cache.block_size, s.cache.num_blocks);
    lemma_step_work(model, s);
    lemma_step_settled(model, s);
    law_step_advances_the_batch(model, s);
    scheduler_laws::law_schedule_is_coherent(s);
    scheduler_laws::law_whole_batch_decodes(s);
    scheduler_laws::lemma_survivors(s.batched().running);
    lemma_placeable_ignores_state(model, s.cache.block_size, s.cache.num_blocks);
    policy::lemma_schedule_keeps(s, fits);
    assert(policy::ids(p.running).len() == n);
    assert(policy::ids(p.running).take(n) =~= s.plan().decode_batch);
    lemma_decode(model, p, n);
    assert forall|i: int| 0 <= i < t.running.len() implies fits(#[trigger] t.running[i]) by {
        let q = p.running[i];
        assert(t.running[i] == advance(model, q));
        assert(fits(q));
        law_tokens_are_owed(model, q);
    }
}

/// The engine never deadlocks: as long as there is work, an iteration emits a
/// token or retires a request, so work is always done in the end.
pub proof fn law_every_step_makes_progress<M: Model + ?Sized>(model: &M, s: SchedView)
    requires
        can_progress(model, s),
        s.has_work(),
    ensures
        engine::step_emits(model, s).len() > 0 || s.plan().finished.len() > 0,
        work(model, engine::after_step(model, s)) < work(model, s),
{
    lemma_batch_not_empty(model, s);
    lemma_step_work(model, s);
    let b = s.batched();
    let n = s.after_schedule().running.len() as int;
    scheduler_laws::law_schedule_is_coherent(s);
    scheduler_laws::law_whole_batch_decodes(s);
    policy::lemma_retirement_sizes(b.cache, b.running);
    assert(policy::ids(s.after_schedule().running).len() == n);
    assert(policy::ids(s.after_schedule().running).take(n) =~= s.plan().decode_batch);
    lemma_decode(model, s.after_schedule(), n);
}

/// A run that is given as many iterations as there is work ends with none left.
pub proof fn law_run_finishes<M: Model + ?Sized>(model: &M, s: SchedView, fuel: nat)
    requires
        can_progress(model, s),
        work(model, s) <= fuel,
    ensures
        !engine::after_run(model, s, fuel).has_work(),
    decreases fuel,
{
    if s.has_work() {
        law_every_step_makes_progress(model, s);
        law_progress_is_kept(model, s);
        law_run_finishes(model, engine::after_step(model, s), (fuel - 1) as nat);
    }
}

/// Every request is answered in full: a run that is long enough emits exactly
/// the tokens that decoding each request alone would give it, and leaves every
/// block of the cache free.
pub proof fn law_every_request_is_answered<M: Model + ?Sized>(model: &M, s: SchedView, fuel: nat)
    requires
        can_progress(model, s),
        work(model, s) <= fuel,
    ensures
        forall|id: SeqId|
            s.has(id) ==> s.request(id).output + #[trigger] engine::tokens_of(
                engine::run_emits(model, s, fuel),
                id,
            ) == owed(model, s.request(id)),
        forall|id: SeqId|
            !s.has(id) ==> (#[trigger] engine::tokens_of(
                engine::run_emits(model, s, fuel),
                id,
            )).len() == 0,
        engine::after_run(model, s, fuel).cache.used() == 0,
{
    let f = engine::after_run(model, s, fuel);
    law_run_finishes(model, s, fuel);
    law_run_emits_what_is_owed(model, s, fuel, 0);
    scheduler_laws::law_idle_scheduler_holds_nothing(f);
    assert forall|id: SeqId| s.has(id) implies s.request(id).output + #[trigger] engine::tokens_of(
        engine::run_emits(model, s, fuel),
        id,
    ) == owed(model, s.request(id)) by {
        law_run_emits_what_is_owed(model, s, fuel, id);
        assert(!f.has(id));
    }
    assert forall|id: SeqId| !s.has(id) implies (#[trigger] engine::tokens_of(
        engine::run_emits(model, s, fuel),
        id,
    )).len() == 0 by {
        law_run_emits_what_is_owed(model, s, fuel, id);
    }
}

/// Batching and preemption are invisible in the output: what a request gets
/// does not depend on the batch size, the cache, the other requests, or when
/// it was sent back to the queue.
pub proof fn law_scheduling_is_invisible<M: Model + ?Sized>(
    model: &M,
    s: SchedView,
    s_fuel: nat,
    t: SchedView,
    t_fuel: nat,
    id: SeqId,
)
    requires
        can_progress(model, s),
        work(model, s) <= s_fuel,
        can_progress(model, t),
        work(model, t) <= t_fuel,
        s.has(id),
        t.has(id),
        s.request(id) == t.request(id),
    ensures
        engine::tokens_of(engine::run_emits(model, s, s_fuel), id) == engine::tokens_of(
            engine::run_emits(model, t, t_fuel),
            id,
        ),
{
    law_every_request_is_answered(model, s, s_fuel);
    law_every_request_is_answered(model, t, t_fuel);
    let out = s.request(id).output;
    let a = engine::tokens_of(engine::run_emits(model, s, s_fuel), id);
    let b = engine::tokens_of(engine::run_emits(model, t, t_fuel), id);
    assert(out + a == out + b);
    assert(a =~= (out + a).skip(out.len() as int));
    assert(b =~= (out + b).skip(out.len() as int));
}

/// A completion is as long as asked for unless the end-of-sequence token ends
/// it, which is then its last token and nowhere before.
pub proof fn law_completion_shape<M: Model + ?Sized>(
    model: &M,
    prompt: Seq<TokenId>,
    limit: nat,
)
    ensures
        ({
            let c = model::completion(model, prompt, limit);
            &&& c.len() <= limit
            &&& c.len() < limit ==> c.len() > 0 && c.last() == model.eos()
            &&& forall|i: int| 0 <= i < c.len() - 1 ==> #[trigger] c[i] != model.eos()
            &&& forall|i: int|
                0 <= i < c.len() ==> #[trigger] c[i] == model::next_token(
                    model,
                    prompt + c.take(i),
                )
        }),
{
    lemma_greedy_from_shape(model, prompt, Seq::empty(), limit);
}

proof fn lemma_greedy_from_shape<M: Model + ?Sized>(
    model: &M,
    prompt: Seq<TokenId>,
    done: Seq<TokenId>,
    limit: nat,
)
    requires
        done.len() <= limit,
        forall|i: int| 0 <= i < done.len() ==> #[trigger] done[i] != model.eos(),
        forall|i: int|
            0 <= i < done.len() ==> #[trigger] done[i] == model::next_token(
                model,
                prompt + done.take(i),
            ),
    ensures
        ({
            let c = model::greedy_from(model, prompt, done, limit);
            &&& c.len() <= limit
            &&& c.len() < limit ==> c.len() > 0 && c.last() == model.eos()
            &&& forall|i: int| 0 <= i < c.len() - 1 ==> #[trigger] c[i] != model.eos()
            &&& forall|i: int|
                0 <= i < c.len() ==> #[trigger] c[i] == model::next_token(
                    model,
                    prompt + c.take(i),
                )
        }),
    decreases limit - done.len(),
{
    if done.len() < limit {
        let token = model::next_token(model, prompt + done);
        let next = done.push(token);
        assert forall|i: int| 0 <= i < next.len() implies #[trigger] next[i] == model::next_token(
            model,
            prompt + next.take(i),
        ) by {
            if i < done.len() {
                assert(next.take(i) =~= done.take(i));
                assert(done[i] == next[i]);
            } else {
                assert(next.take(i) =~= done);
            }
        }
        if token != model.eos() {
            lemma_greedy_from_shape(model, prompt, next, limit);
        }
    }
}

/// An engine without requests can progress.
pub proof fn law_fresh_can_progress<M: Model + ?Sized>(model: &M, max_batch: nat, cache: CacheView)
    requires
        0 < max_batch,
        cache.wf(),
        cache.tables.dom().is_empty(),
    ensures
        can_progress(
            model,
            SchedView { max_batch, cache, waiting: Seq::empty(), running: Seq::empty() },
        ),
        work(
            model,
            SchedView { max_batch, cache, waiting: Seq::empty(), running: Seq::empty() },
        ) == 0,
{
    scheduler_laws::law_fresh_is_coherent(max_batch, cache);
}

/// Submitting a request whose completion fits the cache, under a new id, keeps an
/// engine able to progress, and adds an iteration for each token and one more.
pub proof fn law_submit_keeps_progress<M: Model + ?Sized>(
    model: &M,
    s: SchedView,
    id: SeqId,
    prompt: Seq<TokenId>,
    limit: nat,
)
    requires
        can_progress(model, s),
        !s.has(id),
        arith::ceil_div(
            prompt.len() + model::completion(model, prompt, limit).len(),
            s.cache.block_size,
        ) <= s.cache.num_blocks,
    ensures
        can_progress(model, s.submit(SeqView::fresh(id, prompt, limit))),
        work(model, s.submit(SeqView::fresh(id, prompt, limit))) == work(model, s)
            + model::completion(model, prompt, limit).len() + 1,
        s.submit(SeqView::fresh(id, prompt, limit)).has(id),
        s.submit(SeqView::fresh(id, prompt, limit)).request(id) == SeqView::fresh(
            id,
            prompt,
            limit,
        ),
{
    let q = SeqView::fresh(id, prompt, limit);
    let t = s.submit(q);
    scheduler_laws::law_submit_is_coherent(s, q);
    assert(t.waiting.drop_last() =~= s.waiting);
    assert(placeable(model, s.cache.block_size, s.cache.num_blocks)(q));
}

/// A request that needs more blocks than the cache has is never placed: it keeps
/// waiting.
pub proof fn law_oversized_is_never_admitted(s: SchedView, k: int)
    requires
        s.coherent(),
        0 <= k < s.waiting.len(),
        policy::oversized(s.cache, s.waiting[k]),
    ensures
        !s.cache.register(s.waiting[k].id).fits(s.waiting[k].id, s.waiting[k].total_len()),
        s.after_schedule().waiting.contains(s.waiting[k]),
        !policy::has_id(s.after_schedule().running, s.waiting[k].id),
{
    let q = s.waiting[k];
    scheduler_laws::lemma_at(s.waiting, k);
    assert(!policy::has_id(s.running, q.id));
    assert(!s.cache.contains(q.id));
    arith::lemma_ceil_div(0, s.cache.block_size);
    arith::lemma_ceil_div_unique(0, s.cache.block_size, 0);
    let i = lemma_drop_admission(s, without(s, k), k);
    let a = s.after_admission();
    let j = lemma_drop_preemption(a, without(a, i), i);
    let b = s.batched();
    scheduler_laws::law_schedule_is_coherent(s);
    scheduler_laws::lemma_at(b.waiting, j);
    assert(s.after_schedule().waiting[j] == q);
    scheduler_laws::lemma_at(s.after_schedule().waiting, j);
}

/// A scheduler without one of the requests that wait.
pub open spec fn without(s: SchedView, k: int) -> SchedView {
    SchedView { waiting: s.waiting.remove(k), ..s }
}

/// Whether a scheduler is another one without an oversized request.
spec fn drops(s: SchedView, t: SchedView, k: int) -> bool {
    &&& 0 <= k < s.waiting.len()
    &&& policy::oversized(s.cache, s.waiting[k])
    &&& t == without(s, k)
}

/// An oversized request does not change which request is the next.
proof fn lemma_same_candidate(s: SchedView, t: SchedView, k: int)
    requires
        drops(s, t, k),
    ensures
        s.has_candidate() == t.has_candidate(),
        s.has_candidate() ==> s.candidate_at() != k && t.candidate_at() == if s.candidate_at() < k {
            s.candidate_at()
        } else {
            s.candidate_at() - 1
        } && t.candidate() == s.candidate(),
{
    let c = s.cache;
    assert forall|i: int| 0 <= i < t.waiting.len() implies #[trigger] t.waiting[i]
        == s.waiting[if i < k {
        i
    } else {
        i + 1
    }] by {}
    if exists|i: int| policy::is_candidate(c, s.waiting, i) {
        let i = choose|i: int| policy::is_candidate(c, s.waiting, i);
        let j = if i < k {
            i
        } else {
            i - 1
        };
        assert(t.waiting[j] == s.waiting[i]);
        assert(policy::is_candidate(c, t.waiting, j));
        policy::lemma_candidate_unique(t, j);
        policy::lemma_candidate_unique(s, i);
    }
    if exists|j: int| policy::is_candidate(c, t.waiting, j) {
        let j = choose|j: int| policy::is_candidate(c, t.waiting, j);
        let i = if j < k {
            j
        } else {
            j + 1
        };
        assert(t.waiting[j] == s.waiting[i]);
        assert forall|o: int| 0 <= o < i implies policy::oversized(c, #[trigger] s.waiting[o]) by {
            if o < k {
                assert(t.waiting[o] == s.waiting[o]);
            } else if o > k {
                assert(t.waiting[o - 1] == s.waiting[o]);
            }
        }
        assert(policy::is_candidate(c, s.waiting, i));
    }
}

proof fn lemma_drop_admission(s: SchedView, t: SchedView, k: int) -> (i: int)
    requires
        drops(s, t, k),
    ensures
        drops(s.after_admission(), t.after_admission(), i),
        s.after_admission().waiting[i] == s.waiting[k],
        s.admitted() == t.admitted(),
    decreases s.waiting.len(),
{
    lemma_same_candidate(s, t, k);
    if s.has_candidate() && s.candidate_fits() {
        let c = s.candidate_at();
        let next = if k < c {
            k
        } else {
            k - 1
        };
        let s2 = s.take_candidate();
        let t2 = t.take_candidate();
        assert(s2.waiting[next] == s.waiting[k]);
        assert(t2.waiting =~= s2.waiting.remove(next));
        lemma_drop_admission(s2, t2, next)
    } else {
        k
    }
}

proof fn lemma_drop_preemption(s: SchedView, t: SchedView, k: int) -> (i: int)
    requires
        drops(s, t, k),
    ensures
        drops(s.after_preemption(), t.after_preemption(), i),
        s.after_preemption().waiting[i] == s.waiting[k],
        s.preempted() == t.preempted(),
    decreases s.running.len(),
{
    if s.over_committed() && policy::has_victim(s.running) {
        policy::lemma_victim(s.running);
        let s2 = s.preempt_victim();
        let t2 = t.preempt_victim();
        assert(s2.waiting[k + 1] == s.waiting[k]);
        assert(t2.waiting =~= s2.waiting.remove(k + 1));
        lemma_drop_preemption(s2, t2, k + 1)
    } else {
        k
    }
}

proof fn lemma_drop_decode<M: Model + ?Sized>(
    model: &M,
    s: SchedView,
    t: SchedView,
    k: int,
    batch: Seq<SeqId>,
)
    requires
        drops(s, t, k),
    ensures
        drops(engine::after_decode(model, s, batch), engine::after_decode(model, t, batch), k),
        engine::decoded(model, s, batch) == engine::decoded(model, t, batch),
    decreases batch.len(),
{
    if batch.len() > 0 {
        lemma_drop_decode(model, s, t, k, batch.drop_last());
    }
}

proof fn lemma_drop_step<M: Model + ?Sized>(model: &M, s: SchedView, t: SchedView, k: int) -> (i:
    int)
    requires
        drops(s, t, k),
        s.coherent(),
    ensures
        drops(engine::after_step(model, s), engine::after_step(model, t), i),
        engine::step_emits(model, s) == engine::step_emits(model, t),
        engine::after_step(model, s).coherent(),
{
    let i = lemma_drop_admission(s, t, k);
    let j = lemma_drop_preemption(s.after_admission(), t.after_admission(), i);
    law_step_advances_the_batch(model, s);
    lemma_step_work(model, s);
    lemma_admission_work(model, s);
    lemma_preemption_work(model, s.after_admission());
    assert(t.after_schedule() == without(s.after_schedule(), j));
    assert(t.plan().decode_batch == s.plan().decode_batch);
    lemma_drop_decode(model, s.after_schedule(), t.after_schedule(), j, s.plan().decode_batch);
    j
}

/// A request that is too large for the cache starves nobody: the run emits the
/// same tokens as without it, those of the requests behind it included.
pub proof fn law_oversized_starves_nobody<M: Model + ?Sized>(
    model: &M,
    s: SchedView,
    k: int,
    fuel: nat,
)
    requires
        s.coherent(),
        0 <= k < s.waiting.len(),
        policy::oversized(s.cache, s.waiting[k]),
    ensures
        engine::run_emits(model, s, fuel) == engine::run_emits(
            model,
            SchedView { waiting: s.waiting.remove(k), ..s },
            fuel,
        ),
    decreases fuel,
{
    if fuel > 0 {
        let t = without(s, k);
        let next = (fuel - 1) as nat;
        let i = lemma_drop_step(model, s, t, k);
        law_oversized_starves_nobody(model, engine::after_step(model, s), i, next);
        if !t.has_work() {
            scheduler_laws::law_no_work_is_an_idle_plan(t);
            assert(engine::after_step(model, t) == t);
            assert(engine::step_emits(model, t) =~= Seq::empty());
            assert(engine::run_emits(model, t, next) =~= Seq::empty());
            assert(engine::run_emits(model, s, fuel) =~= Seq::empty());
        }
    }
}

/// A scheduler without the requests that are too large for its cache.
pub open spec fn without_oversized(s: SchedView) -> SchedView {
    SchedView { waiting: scheduler_laws::ordinary(s.cache, s.waiting), ..s }
}

proof fn lemma_run_without_oversized<M: Model + ?Sized>(model: &M, s: SchedView, fuel: nat)
    requires
        s.coherent(),
    ensures
        engine::run_emits(model, s, fuel) == engine::run_emits(
            model,
            without_oversized(s),
            fuel,
        ),
    decreases s.waiting.len(),
{
    if exists|k: int|
        0 <= k < s.waiting.len() && policy::oversized(s.cache, #[trigger] s.waiting[k]) {
        let k = choose|k: int|
            0 <= k < s.waiting.len() && policy::oversized(s.cache, #[trigger] s.waiting[k]);
        law_oversized_starves_nobody(model, s, k, fuel);
        scheduler_laws::lemma_remove_waiting(s, k);
        scheduler_laws::lemma_ordinary_remove(s.cache, s.waiting, k);
        lemma_run_without_oversized(model, without(s, k), fuel);
    } else {
        scheduler_laws::lemma_ordinary_all(s.cache, s.waiting);
    }
}

/// Every request that the cache can hold is answered in full, whatever oversized
/// requests wait before, between or behind them.
pub proof fn law_answered_despite_oversized<M: Model + ?Sized>(
    model: &M,
    s: SchedView,
    fuel: nat,
)
    requires
        s.coherent(),
        can_progress(model, without_oversized(s)),
        work(model, without_oversized(s)) <= fuel,
    ensures
        forall|id: SeqId|
            without_oversized(s).has(id) ==> without_oversized(s).request(id).output
                + #[trigger] engine::tokens_of(engine::run_emits(model, s, fuel), id) == owed(
                model,
                without_oversized(s).request(id),
            ),
{
    lemma_run_without_oversized(model, s, fuel);
    law_every_request_is_answered(model, without_oversized(s), fuel);
}

} // verus!
