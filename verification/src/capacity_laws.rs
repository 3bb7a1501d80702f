//! A run needs no more cache than its peak.
//!
//! Two schedulers with the same requests and caches of different size decide
//! alike as long as the smaller cache holds the peak of the larger one.
use vstd::prelude::*;

use crate::cache_laws::CacheOp;
use crate::model::Model;
use crate::paged_cache::{CacheView, SeqId};
use crate::policy::{SchedView, SeqView};
use crate::scheduler::SeqState;
#[allow(unused_imports)]
use crate::{arith, cache_laws, engine, engine_laws, paged_cache, policy, scheduler_laws};

verus! {

/// Whether two schedulers are alike but for the size of their caches, of which
/// the second is the smaller, and agree on which requests are oversized.
pub open spec fn alike(s: SchedView, t: SchedView) -> bool {
    &&& s.max_batch == t.max_batch
    &&& s.waiting == t.waiting
    &&& s.running == t.running
    &&& s.cache.wf()
    &&& t.cache.wf()
    &&& cache_laws::same_load(s.cache, t.cache)
    &&& t.cache.num_blocks <= s.cache.num_blocks
    &&& same_verdicts(s.cache, t.cache, s.waiting)
}

/// Whether the same requests of a queue are too large for two caches.
pub open spec fn same_verdicts(c: CacheView, d: CacheView, waiting: Seq<SeqView>) -> bool {
    forall|i: int|
        0 <= i < waiting.len() ==> policy::oversized(c, #[trigger] waiting[i])
            == policy::oversized(d, waiting[i])
}

/// Both schedulers would take the same request next.
proof fn lemma_candidate_alike(s: SchedView, t: SchedView)
    requires
        alike(s, t),
    ensures
        s.has_candidate() == t.has_candidate(),
        s.has_candidate() ==> s.candidate_at() == t.candidate_at(),
{
    if exists|i: int| policy::is_candidate(s.cache, s.waiting, i) {
        let i = choose|i: int| policy::is_candidate(s.cache, s.waiting, i);
        assert(policy::is_candidate(t.cache, t.waiting, i));
        policy::lemma_candidate_unique(s, i);
        policy::lemma_candidate_unique(t, i);
    }
    if exists|i: int| policy::is_candidate(t.cache, t.waiting, i) {
        let i = choose|i: int| policy::is_candidate(t.cache, t.waiting, i);
        assert(policy::is_candidate(s.cache, s.waiting, i));
    }
}

proof fn lemma_step_alike(c: CacheView, d: CacheView, op: CacheOp)
    requires
        c.wf(),
        d.wf(),
        cache_laws::same_load(c, d),
        d.num_blocks <= c.num_blocks,
        cache_laws::perform(c, op).peak <= d.num_blocks,
    ensures
        cache_laws::perform(c, op).wf(),
        cache_laws::perform(d, op).wf(),
        cache_laws::perform(c, op).num_blocks == c.num_blocks,
        cache_laws::perform(d, op).num_blocks == d.num_blocks,
        cache_laws::same_load(cache_laws::perform(c, op), cache_laws::perform(d, op)),
        op matches CacheOp::Append(s, n) ==> c.fits(s, n) == d.fits(s, n),
{
    cache_laws::lemma_same_load_step(c, d, op);
    cache_laws::lemma_perform_wf(c, op);
    cache_laws::lemma_perform_wf(d, op);
}

/// Placing a request, where it can be placed.
spec fn place(c: CacheView, q: SeqView) -> CacheView {
    c.register(q.id).try_append(q.id, q.total_len())
}

proof fn lemma_place(c: CacheView, q: SeqView)
    requires
        c.wf(),
    ensures
        c.register(q.id).wf(),
        place(c, q).wf(),
        c.peak <= place(c, q).peak,
        place(c, q).num_blocks == c.num_blocks,
{
    paged_cache::lemma_register_wf(c, q.id);
    cache_laws::lemma_perform_wf(c.register(q.id), CacheOp::Append(q.id, q.total_len()));
}

proof fn lemma_admission_peak(s: SchedView)
    requires
        s.cache.wf(),
    ensures
        s.after_admission().cache.wf(),
        s.cache.peak <= s.after_admission().cache.peak,
        s.after_admission().cache.num_blocks == s.cache.num_blocks,
    decreases s.waiting.len(),
{
    if s.has_candidate() {
        let q = s.candidate();
        lemma_place(s.cache, q);
        if s.candidate_fits() {
            lemma_admission_peak(s.take_candidate());
        } else {
            paged_cache::lemma_release_wf(s.cache.register(q.id), q.id);
        }
    }
}

proof fn lemma_admission_alike(s: SchedView, t: SchedView)
    requires
        alike(s, t),
        s.after_admission().cache.peak <= t.cache.num_blocks,
    ensures
        alike(s.after_admission(), t.after_admission()),
        s.admitted() == t.admitted(),
        t.after_admission().cache.num_blocks == t.cache.num_blocks,
    decreases s.waiting.len(),
{
    lemma_candidate_alike(s, t);
    if s.has_candidate() {
        let k = s.candidate_at();
        let q = s.candidate();
        let n = q.total_len();
        let c = s.cache.register(q.id);
        let d = t.cache.register(q.id);
        lemma_admission_peak(s);
        lemma_place(s.cache, q);
        lemma_step_alike(s.cache, t.cache, CacheOp::Register(q.id));
        if s.candidate_fits() {
            lemma_admission_peak(s.take_candidate());
            lemma_step_alike(c, d, CacheOp::Append(q.id, n));
            assert(t.candidate_fits());
            let w = s.take_candidate().waiting;
            assert forall|i: int| 0 <= i < w.len() implies policy::oversized(
                s.take_candidate().cache,
                #[trigger] w[i],
            ) == policy::oversized(t.take_candidate().cache, w[i]) by {
                assert(w[i] == s.waiting[if i < k {
                    i
                } else {
                    i + 1
                }]);
            }
            lemma_admission_alike(s.take_candidate(), t.take_candidate());
        } else {
            lemma_step_alike(c, d, CacheOp::Append(q.id, n));
            assert(!t.candidate_fits());
            lemma_step_alike(c, d, CacheOp::Release(q.id));
        }
    }
}

proof fn lemma_demand_alike(c: CacheView, d: CacheView, running: Seq<SeqView>)
    requires
        c.wf(),
        d.wf(),
        cache_laws::same_load(c, d),
    ensures
        policy::demand(c, running) == policy::demand(d, running),
    decreases running.len(),
{
    if running.len() > 0 {
        lemma_demand_alike(c, d, running.drop_last());
        let id = running.last().id;
        assert(c.contains(id) <==> d.contains(id));
        assert(c.slack(id) == d.slack(id));
    }
}

proof fn lemma_preemption_alike(s: SchedView, t: SchedView)
    requires
        alike(s, t),
        s.coherent(),
        engine_laws::settled(s),
        s.cache.peak <= t.cache.num_blocks,
        s.after_preemption().cache.used() + policy::demand(
            s.after_preemption().cache,
            s.after_preemption().running,
        ) <= t.cache.num_blocks,
    ensures
        alike(s.after_preemption(), t.after_preemption()),
        s.preempted() == t.preempted(),
        s.after_preemption().cache.peak == s.cache.peak,
        t.after_preemption().cache.num_blocks == t.cache.num_blocks,
    decreases s.running.len(),
{
    lemma_demand_alike(s.cache, t.cache, s.running);
    assert(s.cache.free.len() == s.cache.num_blocks - s.cache.used());
    assert(t.cache.free.len() == t.cache.num_blocks - t.cache.used());
    if s.over_committed() && policy::has_victim(s.running) {
        policy::lemma_victim(s.running);
        let v = s.running[policy::victim(s.running)];
        lemma_step_alike(s.cache, t.cache, CacheOp::Release(v.id));
        scheduler_laws::lemma_preempt_victim(s);
        scheduler_laws::lemma_members_cached(s);
        engine_laws::lemma_preempt_settled(s);
        assert(t.over_committed());
        // What the batch holds is not oversized.
        assert(s.cache.contains(v.id) <==> t.cache.contains(v.id));
        paged_cache::lemma_table_bounds(s.cache, v.id);
        paged_cache::lemma_table_bounds(t.cache, v.id);
        let w = s.preempt_victim().waiting;
        assert forall|i: int| 0 <= i < w.len() implies policy::oversized(
            s.preempt_victim().cache,
            #[trigger] w[i],
        ) == policy::oversized(t.preempt_victim().cache, w[i]) by {
            if i > 0 {
                assert(w[i] == s.waiting[i - 1]);
            } else {
                assert(w[0].total_len() == s.cache.tables[v.id].tokens);
            }
        }
        lemma_preemption_alike(s.preempt_victim(), t.preempt_victim());
    } else if s.over_committed() {
        policy::lemma_demand_has_victim(s.cache, s.running);
    }
}

proof fn lemma_commit_peak(c: CacheView, running: Seq<SeqView>)
    requires
        c.wf(),
    ensures
        policy::commit(c, running).wf(),
        c.peak <= policy::commit(c, running).peak,
        policy::commit(c, running).num_blocks == c.num_blocks,
    decreases running.len(),
{
    if running.len() > 0 {
        lemma_commit_peak(c, running.drop_last());
        let mid = policy::commit(c, running.drop_last());
        cache_laws::lemma_perform_wf(mid, CacheOp::Append(running.last().id, 1));
    }
}

proof fn lemma_commit_alike(c: CacheView, d: CacheView, running: Seq<SeqView>)
    requires
        c.wf(),
        d.wf(),
        cache_laws::same_load(c, d),
        d.num_blocks <= c.num_blocks,
        policy::commit(c, running).peak <= d.num_blocks,
    ensures
        policy::commit(d, running).wf(),
        policy::commit(d, running).num_blocks == d.num_blocks,
        cache_laws::same_load(policy::commit(c, running), policy::commit(d, running)),
        policy::decode_batch(c, running) == policy::decode_batch(d, running),
    decreases running.len(),
{
    if running.len() > 0 {
        let front = running.drop_last();
        let id = running.last().id;
        let mid = policy::commit(c, front);
        lemma_commit_peak(c, front);
        cache_laws::lemma_perform_wf(mid, CacheOp::Append(id, 1));
        lemma_commit_alike(c, d, front);
        if running.last().growing() {
            lemma_step_alike(mid, policy::commit(d, front), CacheOp::Append(id, 1));
        }
    }
}

proof fn lemma_retire_alike(c: CacheView, d: CacheView, running: Seq<SeqView>)
    requires
        c.wf(),
        d.wf(),
        cache_laws::same_load(c, d),
        d.num_blocks <= c.num_blocks,
        c.peak <= d.num_blocks,
    ensures
        policy::retire(c, running).wf(),
        policy::retire(d, running).wf(),
        policy::retire(c, running).num_blocks == c.num_blocks,
        policy::retire(d, running).num_blocks == d.num_blocks,
        policy::retire(c, running).peak == c.peak,
        cache_laws::same_load(policy::retire(c, running), policy::retire(d, running)),
    decreases running.len(),
{
    if running.len() > 0 {
        let front = running.drop_last();
        let id = running.last().id;
        lemma_retire_alike(c, d, front);
        if running.last().complete() {
            lemma_step_alike(
                policy::retire(c, front),
                policy::retire(d, front),
                CacheOp::Release(id),
            );
        }
    }
}

proof fn lemma_decode_alike<M: Model + ?Sized>(
    model: &M,
    s: SchedView,
    t: SchedView,
    batch: Seq<SeqId>,
)
    requires
        alike(s, t),
    ensures
        alike(engine::after_decode(model, s, batch), engine::after_decode(model, t, batch)),
        engine::after_decode(model, s, batch).cache == s.cache,
        engine::after_decode(model, t, batch).cache == t.cache,
        engine::decoded(model, s, batch) == engine::decoded(model, t, batch),
    decreases batch.len(),
{
    if batch.len() > 0 {
        lemma_decode_alike(model, s, t, batch.drop_last());
    }
}

proof fn lemma_iteration_alike<M: Model + ?Sized>(model: &M, s: SchedView, t: SchedView)
    requires
        alike(s, t),
        s.coherent(),
        engine_laws::settled(s),
        engine::after_step(model, s).cache.peak <= t.cache.num_blocks,
    ensures
        alike(engine::after_step(model, s), engine::after_step(model, t)),
        engine_laws::settled(engine::after_step(model, s)),
        engine::after_step(model, s).coherent(),
        engine::step_emits(model, s) == engine::step_emits(model, t),
        s.plan() == t.plan(),
        s.cache.peak <= engine::after_step(model, s).cache.peak,
        engine::after_step(model, t).cache.num_blocks == t.cache.num_blocks,
{
    let a = s.after_admission();
    let b = s.batched();
    let mid = policy::commit(b.cache, b.running);
    scheduler_laws::lemma_admission_coherent(s);
    scheduler_laws::law_schedule_is_coherent(s);
    scheduler_laws::lemma_members_cached(b);
    scheduler_laws::lemma_commit(b.cache, b.running);
    engine_laws::law_step_advances_the_batch(model, s);
    engine_laws::lemma_step_settled(model, s);
    lemma_admission_peak(s);
    lemma_preemption_peak(a);
    lemma_commit_peak(b.cache, b.running);
    lemma_retire_alike(mid, mid, b.running);
    lemma_decode_alike(model, s.after_schedule(), s.after_schedule(), s.plan().decode_batch);
    assert(mid.peak <= t.cache.num_blocks);
    assert(mid.used() == b.cache.used() + policy::demand(b.cache, b.running));
    lemma_admission_alike(s, t);
    lemma_preemption_alike(a, t.after_admission());
    lemma_commit_alike(b.cache, t.batched().cache, b.running);
    lemma_retire_alike(mid, policy::commit(t.batched().cache, b.running), b.running);
    scheduler_laws::lemma_retire(mid, b.running);
    assert forall|i: int| 0 <= i < b.waiting.len() implies policy::oversized(
        s.after_schedule().cache,
        #[trigger] b.waiting[i],
    ) == policy::oversized(t.after_schedule().cache, b.waiting[i]) by {
        assert(policy::oversized(b.cache, b.waiting[i]) == policy::oversized(
            t.batched().cache,
            b.waiting[i],
        ));
    }
    lemma_decode_alike(model, s.after_schedule(), t.after_schedule(), s.plan().decode_batch);
}

proof fn lemma_preemption_peak(s: SchedView)
    requires
        s.cache.wf(),
    ensures
        s.after_preemption().cache.peak == s.cache.peak,
    decreases s.running.len(),
{
    if s.over_committed() && policy::has_victim(s.running) {
        policy::lemma_victim(s.running);
        paged_cache::lemma_release_wf(s.cache, s.running[policy::victim(s.running)].id);
        lemma_preemption_peak(s.preempt_victim());
    }
}

proof fn lemma_run_peak<M: Model + ?Sized>(model: &M, s: SchedView, fuel: nat)
    requires
        s.coherent(),
    ensures
        s.cache.peak <= engine::after_run(model, s, fuel).cache.peak,
        engine::after_run(model, s, fuel).cache.peak <= s.cache.num_blocks,
    decreases fuel,
{
    if fuel > 0 && s.has_work() {
        let next = engine::after_step(model, s);
        engine_laws::law_step_advances_the_batch(model, s);
        lemma_step_peak(model, s);
        lemma_run_peak(model, next, (fuel - 1) as nat);
    }
}

proof fn lemma_step_peak<M: Model + ?Sized>(model: &M, s: SchedView)
    requires
        s.coherent(),
    ensures
        s.cache.peak <= engine::after_step(model, s).cache.peak,
        engine::after_step(model, s).cache.num_blocks == s.cache.num_blocks,
{
    let b = s.batched();
    let mid = policy::commit(b.cache, b.running);
    scheduler_laws::lemma_admission_coherent(s);
    scheduler_laws::law_schedule_is_coherent(s);
    lemma_admission_peak(s);
    lemma_preemption_peak(s.after_admission());
    lemma_commit_peak(b.cache, b.running);
    lemma_retire_alike(mid, mid, b.running);
    lemma_decode_alike(model, s.after_schedule(), s.after_schedule(), s.plan().decode_batch);
    engine_laws::lemma_step_work(model, s);
}

proof fn lemma_run_alike<M: Model + ?Sized>(model: &M, s: SchedView, t: SchedView, fuel: nat)
    requires
        alike(s, t),
        s.coherent(),
        engine_laws::settled(s),
        engine::after_run(model, s, fuel).cache.peak <= t.cache.num_blocks,
    ensures
        alike(engine::after_run(model, s, fuel), engine::after_run(model, t, fuel)),
        engine::run_emits(model, s, fuel) == engine::run_emits(model, t, fuel),
    decreases fuel,
{
    if fuel > 0 && s.has_work() {
        let next = engine::after_step(model, s);
        engine_laws::law_step_advances_the_batch(model, s);
        lemma_run_peak(model, next, (fuel - 1) as nat);
        lemma_iteration_alike(model, s, t);
        lemma_run_alike(model, next, engine::after_step(model, t), (fuel - 1) as nat);
    }
}

/// A run that peaked at some number of blocks runs unchanged in a cache of
/// exactly that many, if that cache can hold every prompt that the larger one
/// can: the same tokens are emitted in the same order, and the peak is the same.
pub proof fn law_run_fits_its_peak<M: Model + ?Sized>(
    model: &M,
    max_batch: nat,
    block_size: nat,
    num_blocks: nat,
    requests: Seq<SeqView>,
    fuel: nat,
    peak: nat,
)
    requires
        0 < block_size,
        num_blocks * block_size <= usize::MAX,
        scheduler_laws::distinct(requests),
        forall|i: int|
            0 <= i < requests.len() ==> (#[trigger] requests[i]).state != SeqState::Running,
        engine::after_run(
            model,
            idle_with(max_batch, num_blocks, block_size, requests),
            fuel,
        ).cache.peak == peak,
        same_verdicts(
            CacheView::fresh(num_blocks, block_size),
            CacheView::fresh(peak, block_size),
            requests,
        ),
    ensures
        engine::run_emits(model, idle_with(max_batch, peak, block_size, requests), fuel)
            == engine::run_emits(
            model,
            idle_with(max_batch, num_blocks, block_size, requests),
            fuel,
        ),
        engine::after_run(model, idle_with(max_batch, peak, block_size, requests), fuel).cache.peak
            == peak,
{
    let s = idle_with(max_batch, num_blocks, block_size, requests);
    let t = idle_with(max_batch, peak, block_size, requests);
    paged_cache::lemma_fresh_wf(num_blocks, block_size);
    assert(s.coherent());
    lemma_run_peak(model, s, fuel);
    assert(peak * block_size <= num_blocks * block_size) by (nonlinear_arith)
        requires
            peak <= num_blocks,
    ;
    paged_cache::lemma_fresh_wf(peak, block_size);
    lemma_run_alike(model, s, t, fuel);
}

/// Whatever admission takes from the queue is within the peak.
proof fn lemma_taken_within_peak(s: SchedView, q: SeqView)
    requires
        s.coherent(),
        s.waiting.contains(q),
    ensures
        s.after_admission().waiting.contains(q) || arith::ceil_div(
            q.total_len(),
            s.cache.block_size,
        ) <= s.after_admission().cache.peak,
    decreases s.waiting.len(),
{
    if s.has_candidate() && s.candidate_fits() {
        let t = s.take_candidate();
        let k = s.candidate_at();
        scheduler_laws::lemma_take_candidate(s);
        if s.candidate() == q {
            scheduler_laws::lemma_at(s.waiting, k);
            assert(!policy::has_id(s.running, q.id));
            assert(!s.cache.contains(q.id));
            assert(t.cache.contains(q.id));
            paged_cache::lemma_table_bounds(t.cache, q.id);
            assert(t.cache.tables[q.id].tokens == q.total_len());
            lemma_admission_peak(t);
        } else {
            let i = s.waiting.index_of(q);
            if i < k {
                assert(t.waiting[i] == q);
            } else {
                assert(t.waiting[i - 1] == q);
            }
            lemma_taken_within_peak(t, q);
        }
    }
}

proof fn lemma_preemption_keeps_waiting(s: SchedView, q: SeqView)
    requires
        s.waiting.contains(q),
    ensures
        s.after_preemption().waiting.contains(q),
    decreases s.running.len(),
{
    if s.over_committed() && policy::has_victim(s.running) {
        policy::lemma_victim(s.running);
        let t = s.preempt_victim();
        let i = s.waiting.index_of(q);
        assert(t.waiting[i + 1] == q);
        lemma_preemption_keeps_waiting(t, q);
    }
}

/// A request that has left the queue was within the peak.
proof fn lemma_served_within_peak<M: Model + ?Sized>(
    model: &M,
    s: SchedView,
    fuel: nat,
    q: SeqView,
)
    requires
        s.coherent(),
        s.waiting.contains(q),
    ensures
        engine::after_run(model, s, fuel).waiting.contains(q) || arith::ceil_div(
            q.total_len(),
            s.cache.block_size,
        ) <= engine::after_run(model, s, fuel).cache.peak,
    decreases fuel,
{
    if fuel > 0 && s.has_work() {
        let a = s.after_admission();
        let t = engine::after_step(model, s);
        let b = s.batched();
        let mid = policy::commit(b.cache, b.running);
        engine_laws::law_step_advances_the_batch(model, s);
        engine_laws::lemma_step_work(model, s);
        lemma_taken_within_peak(s, q);
        scheduler_laws::law_schedule_is_coherent(s);
        scheduler_laws::lemma_admission_coherent(s);
        lemma_preemption_peak(a);
        lemma_commit_peak(b.cache, b.running);
        lemma_retire_alike(mid, mid, b.running);
        lemma_decode_waiting(model, s.after_schedule(), s.plan().decode_batch);
        lemma_run_peak(model, t, (fuel - 1) as nat);
        if a.waiting.contains(q) {
            lemma_preemption_keeps_waiting(a, q);
            assert(t.waiting == b.waiting);
            lemma_served_within_peak(model, t, (fuel - 1) as nat, q);
        }
    }
}

proof fn lemma_decode_waiting<M: Model + ?Sized>(model: &M, s: SchedView, batch: Seq<SeqId>)
    ensures
        engine::after_decode(model, s, batch).waiting == s.waiting,
    decreases batch.len(),
{
    if batch.len() > 0 {
        lemma_decode_waiting(model, s, batch.drop_last());
    }
}

/// A run that served every request it could ever serve runs unchanged in a cache
/// of exactly its peak.
pub proof fn law_finished_run_fits_its_peak<M: Model + ?Sized>(
    model: &M,
    max_batch: nat,
    block_size: nat,
    num_blocks: nat,
    requests: Seq<SeqView>,
    fuel: nat,
    peak: nat,
)
    requires
        0 < block_size,
        num_blocks * block_size <= usize::MAX,
        scheduler_laws::distinct(requests),
        forall|i: int|
            0 <= i < requests.len() ==> (#[trigger] requests[i]).state != SeqState::Running,
        ({
            let f = engine::after_run(
                model,
                idle_with(max_batch, num_blocks, block_size, requests),
                fuel,
            );
            &&& f.cache.peak == peak
            &&& forall|i: int|
                0 <= i < f.waiting.len() ==> policy::oversized(f.cache, #[trigger] f.waiting[i])
        }),
    ensures
        engine::run_emits(model, idle_with(max_batch, peak, block_size, requests), fuel)
            == engine::run_emits(
            model,
            idle_with(max_batch, num_blocks, block_size, requests),
            fuel,
        ),
        engine::after_run(model, idle_with(max_batch, peak, block_size, requests), fuel).cache.peak
            == peak,
{
    let s = idle_with(max_batch, num_blocks, block_size, requests);
    let f = engine::after_run(model, s, fuel);
    paged_cache::lemma_fresh_wf(num_blocks, block_size);
    assert(s.coherent());
    lemma_run_peak(model, s, fuel);
    lemma_run_size(model, s, fuel);
    assert forall|i: int| 0 <= i < requests.len() implies policy::oversized(
        CacheView::fresh(num_blocks, block_size),
        #[trigger] requests[i],
    ) == policy::oversized(CacheView::fresh(peak, block_size), requests[i]) by {
        let q = requests[i];
        assert(s.waiting[i] == q);
        lemma_served_within_peak(model, s, fuel, q);
        if f.waiting.contains(q) {
            let j = f.waiting.index_of(q);
            assert(policy::oversized(f.cache, f.waiting[j]));
        }
    }
    law_run_fits_its_peak(model, max_batch, block_size, num_blocks, requests, fuel, peak);
}

proof fn lemma_run_size<M: Model + ?Sized>(model: &M, s: SchedView, fuel: nat)
    requires
        s.coherent(),
    ensures
        engine::after_run(model, s, fuel).cache.block_size == s.cache.block_size,
        engine::after_run(model, s, fuel).cache.num_blocks == s.cache.num_blocks,
    decreases fuel,
{
    if fuel > 0 && s.has_work() {
        engine_laws::law_step_advances_the_batch(model, s);
        engine_laws::lemma_step_work(model, s);
        lemma_run_size(model, engine::after_step(model, s), (fuel - 1) as nat);
    }
}

/// A scheduler with an empty cache and requests that wait.
pub open spec fn idle_with(
    max_batch: nat,
    num_blocks: nat,
    block_size: nat,
    requests: Seq<SeqView>,
) -> SchedView {
    SchedView {
        max_batch,
        cache: CacheView::fresh(num_blocks, block_size),
        waiting: requests,
        running: Seq::empty(),
    }
}

} // verus!
