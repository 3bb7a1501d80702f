//! What the scheduler promises across calls.
//!
//! A scheduler whose requests have distinct ids is [`SchedView::coherent`]: the
//! batch is within its limit and exactly the sequences of the batch hold cache.
//! Submitting, scheduling and recording tokens keep it so. In a coherent
//! scheduler every sequence of the batch decodes, nothing is lost, and a
//! sequence that waits holds no memory.
use vstd::prelude::*;

use crate::model::TokenId;
use crate::paged_cache::{CacheView, SeqId};
use crate::policy::{SchedView, SeqView};
use crate::scheduler::SeqState;
#[allow(unused_imports)]
use crate::{cache_laws, paged_cache, policy};

verus! {

/// Whether no two sequences of a list share an id.
pub open spec fn distinct(list: Seq<SeqView>) -> bool {
    forall|i: int, j: int|
        0 <= i < j < list.len() ==> (#[trigger] list[i]).id != (#[trigger] list[j]).id
}

/// The sequence of a list with an id.
pub open spec fn at(list: Seq<SeqView>, id: SeqId) -> SeqView {
    list[policy::position(list, id)]
}

impl SchedView {
    /// Whether a request is known to the scheduler.
    pub open spec fn has(self, id: SeqId) -> bool {
        policy::has_id(self.running, id) || policy::has_id(self.waiting, id)
    }

    /// A request, without regard to its state.
    pub open spec fn request(self, id: SeqId) -> SeqView {
        let q = if policy::has_id(self.running, id) {
            at(self.running, id)
        } else {
            at(self.waiting, id)
        };
        q.in_state(SeqState::Waiting)
    }

    /// The invariant of a scheduler whose requests have distinct ids.
    pub open spec fn coherent(self) -> bool {
        &&& self.cache.wf()
        &&& self.running.len() <= self.max_batch
        &&& distinct(self.running)
        &&& distinct(self.waiting)
        &&& forall|id: SeqId| #[trigger]
            policy::has_id(self.running, id) ==> !policy::has_id(self.waiting, id)
        &&& forall|i: int|
            0 <= i < self.running.len() ==> (#[trigger] self.running[i]).state == SeqState::Running
        &&& forall|i: int|
            0 <= i < self.waiting.len() ==> (#[trigger] self.waiting[i]).state != SeqState::Running
        &&& forall|id: SeqId| #[trigger]
            self.cache.contains(id) <==> policy::has_id(self.running, id)
    }

    /// Whether another scheduler has the same requests.
    pub open spec fn same_requests(self, other: SchedView) -> bool {
        forall|id: SeqId| #[trigger]
            other.has(id) == self.has(id) && (self.has(id) ==> other.request(id) == self.request(
                id,
            ))
    }
}

pub proof fn lemma_at(list: Seq<SeqView>, i: int)
    requires
        distinct(list),
        0 <= i < list.len(),
    ensures
        policy::has_id(list, list[i].id),
        policy::position(list, list[i].id) == i,
        at(list, list[i].id) == list[i],
{
    policy::lemma_position(list, list[i].id);
}

/// A sequence of a list is found at its position.
pub proof fn lemma_found(list: Seq<SeqView>, id: SeqId)
    requires
        policy::has_id(list, id),
    ensures
        0 <= policy::position(list, id) < list.len(),
        at(list, id).id == id,
{
    policy::lemma_position(list, id);
}

proof fn lemma_push(list: Seq<SeqView>, q: SeqView)
    requires
        distinct(list),
        !policy::has_id(list, q.id),
    ensures
        distinct(list.push(q)),
        forall|id: SeqId| #[trigger]
            policy::has_id(list.push(q), id) == (policy::has_id(list, id) || id == q.id),
        forall|id: SeqId|
            policy::has_id(list, id) ==> #[trigger] at(list.push(q), id) == at(list, id),
        at(list.push(q), q.id) == q,
{
    let after = list.push(q);
    let n = list.len() as int;
    assert forall|i: int, j: int| 0 <= i < j < after.len() implies (#[trigger] after[i]).id != (
    #[trigger] after[j]).id by {
        assert(after[i] == list[i]);
    }
    assert forall|id: SeqId| #[trigger]
        policy::has_id(after, id) == (policy::has_id(list, id) || id == q.id) by {
        if policy::has_id(list, id) {
            let i = choose|i: int| 0 <= i < list.len() && (#[trigger] list[i]).id == id;
            assert(after[i].id == id);
        }
        if id == q.id {
            assert(after[n].id == id);
        }
        if policy::has_id(after, id) {
            let i = choose|i: int| 0 <= i < after.len() && (#[trigger] after[i]).id == id;
            if i < n {
                assert(list[i].id == id);
            }
        }
    }
    assert forall|id: SeqId| policy::has_id(list, id) implies #[trigger] at(after, id) == at(
        list,
        id,
    ) by {
        lemma_found(list, id);
        let i = policy::position(list, id);
        assert(after[i] == list[i]);
        lemma_at(after, i);
    }
    lemma_at(after, n);
}

proof fn lemma_remove(list: Seq<SeqView>, k: int)
    requires
        distinct(list),
        0 <= k < list.len(),
    ensures
        distinct(list.remove(k)),
        forall|id: SeqId| #[trigger]
            policy::has_id(list.remove(k), id) == (policy::has_id(list, id) && id != list[k].id),
        forall|id: SeqId|
            policy::has_id(list, id) && id != list[k].id ==> #[trigger] at(list.remove(k), id)
                == at(list, id),
{
    let after = list.remove(k);
    assert forall|i: int| 0 <= i < after.len() implies #[trigger] after[i] == list[if i < k {
        i
    } else {
        i + 1
    }] by {}
    assert forall|i: int, j: int| 0 <= i < j < after.len() implies (#[trigger] after[i]).id != (
    #[trigger] after[j]).id by {}
    assert forall|id: SeqId| #[trigger]
        policy::has_id(after, id) == (policy::has_id(list, id) && id != list[k].id) by {
        if policy::has_id(after, id) {
            let i = choose|i: int| 0 <= i < after.len() && (#[trigger] after[i]).id == id;
            let o = if i < k {
                i
            } else {
                i + 1
            };
            assert(list[o].id == id);
            assert(list[k].id != list[o].id);
        }
        if policy::has_id(list, id) && id != list[k].id {
            let i = choose|i: int| 0 <= i < list.len() && (#[trigger] list[i]).id == id;
            if i < k {
                assert(after[i].id == id);
            } else {
                assert(after[i - 1].id == id);
            }
        }
    }
    assert forall|id: SeqId| policy::has_id(list, id) && id != list[k].id implies #[trigger] at(
        after,
        id,
    ) == at(list, id) by {
        lemma_found(list, id);
        let i = policy::position(list, id);
        if i < k {
            assert(after[i] == list[i]);
            lemma_at(after, i);
        } else {
            assert(after[i - 1] == list[i]);
            lemma_at(after, i - 1);
        }
    }
}

proof fn lemma_put_first(q: SeqView, list: Seq<SeqView>)
    requires
        distinct(list),
        !policy::has_id(list, q.id),
    ensures
        distinct(seq![q] + list),
        forall|id: SeqId| #[trigger]
            policy::has_id(seq![q] + list, id) == (policy::has_id(list, id) || id == q.id),
        forall|id: SeqId|
            policy::has_id(list, id) ==> #[trigger] at(seq![q] + list, id) == at(list, id),
        at(seq![q] + list, q.id) == q,
{
    let after = seq![q] + list;
    assert forall|i: int| 0 < i < after.len() implies #[trigger] after[i] == list[i - 1] by {}
    assert forall|i: int, j: int| 0 <= i < j < after.len() implies (#[trigger] after[i]).id != (
    #[trigger] after[j]).id by {
        assert(after[j] == list[j - 1]);
    }
    assert forall|id: SeqId| #[trigger]
        policy::has_id(after, id) == (policy::has_id(list, id) || id == q.id) by {
        if policy::has_id(list, id) {
            let i = choose|i: int| 0 <= i < list.len() && (#[trigger] list[i]).id == id;
            assert(after[i + 1].id == id);
        }
        if id == q.id {
            assert(after[0].id == id);
        }
        if policy::has_id(after, id) {
            let i = choose|i: int| 0 <= i < after.len() && (#[trigger] after[i]).id == id;
            if i > 0 {
                assert(list[i - 1].id == id);
            }
        }
    }
    assert forall|id: SeqId| policy::has_id(list, id) implies #[trigger] at(after, id) == at(
        list,
        id,
    ) by {
        lemma_found(list, id);
        let i = policy::position(list, id);
        assert(after[i + 1] == list[i]);
        lemma_at(after, i + 1);
    }
    lemma_at(after, 0);
}

/// A scheduler without requests is coherent.
pub proof fn law_fresh_is_coherent(max_batch: nat, cache: CacheView)
    requires
        cache.wf(),
        cache.tables.dom().is_empty(),
    ensures
        (SchedView { max_batch, cache, waiting: Seq::empty(), running: Seq::empty() }).coherent(),
{
}

/// Submitting a request under a new id keeps the scheduler coherent, and leaves
/// every other request and the cache as they were.
pub proof fn law_submit_is_coherent(s: SchedView, q: SeqView)
    requires
        s.coherent(),
        !s.has(q.id),
        q.state != SeqState::Running,
    ensures
        s.submit(q).coherent(),
        s.submit(q).has(q.id),
        s.submit(q).request(q.id) == q.in_state(SeqState::Waiting),
        forall|id: SeqId|
            id != q.id ==> #[trigger] s.submit(q).has(id) == s.has(id) && (s.has(id) ==> s.submit(
                q,
            ).request(id) == s.request(id)),
{
    lemma_push(s.waiting, q);
}

/// Recording a token keeps the scheduler coherent and touches no other request.
pub proof fn law_push_token_is_coherent(s: SchedView, id: SeqId, token: TokenId, is_eos: bool)
    requires
        s.coherent(),
    ensures
        s.push_token(id, token, is_eos).coherent(),
        s.push_token(id, token, is_eos).cache == s.cache,
        forall|o: SeqId| #[trigger] s.push_token(id, token, is_eos).has(o) == s.has(o),
        forall|o: SeqId|
            s.has(o) ==> #[trigger] s.push_token(id, token, is_eos).request(o) == if o == id
                && policy::has_id(s.running, id) {
                s.request(o).with_token(token, is_eos)
            } else {
                s.request(o)
            },
{
    if policy::has_id(s.running, id) {
        let t = s.push_token(id, token, is_eos);
        lemma_found(s.running, id);
        let k = policy::position(s.running, id);
        assert forall|i: int| 0 <= i < s.running.len() implies (#[trigger] t.running[i]).id
            == s.running[i].id by {}
        assert forall|o: SeqId| #[trigger]
            policy::has_id(t.running, o) == policy::has_id(s.running, o) by {
            if policy::has_id(s.running, o) {
                lemma_found(s.running, o);
                assert(t.running[policy::position(s.running, o)].id == o);
            }
            if policy::has_id(t.running, o) {
                lemma_found(t.running, o);
                assert(s.running[policy::position(t.running, o)].id == o);
            }
        }
        assert forall|o: SeqId| s.has(o) implies #[trigger] t.request(o) == if o == id {
            s.request(o).with_token(token, is_eos)
        } else {
            s.request(o)
        } by {
            if policy::has_id(s.running, o) {
                lemma_found(s.running, o);
                let i = policy::position(s.running, o);
                lemma_at(t.running, i);
            }
        }
    }
}

pub proof fn lemma_take_candidate(s: SchedView)
    requires
        s.coherent(),
        s.has_candidate(),
        s.candidate_fits(),
    ensures
        s.take_candidate().coherent(),
        s.same_requests(s.take_candidate()),
{
    let k = s.candidate_at();
    let q = s.candidate();
    let r = q.in_state(SeqState::Running);
    let t = s.take_candidate();
    lemma_at(s.waiting, k);
    assert(!policy::has_id(s.running, q.id));
    lemma_push(s.running, r);
    lemma_remove(s.waiting, k);
    paged_cache::lemma_register_wf(s.cache, q.id);
    paged_cache::lemma_append_wf(s.cache.register(q.id), q.id, q.total_len());
    assert forall|i: int| 0 <= i < t.waiting.len() implies (#[trigger] t.waiting[i]).state
        != SeqState::Running by {
        assert(t.waiting[i] == s.waiting[if i < k {
            i
        } else {
            i + 1
        }]);
    }
    assert forall|id: SeqId| #[trigger] t.cache.contains(id) <==> policy::has_id(t.running, id) by {
        assert(s.cache.contains(id) <==> policy::has_id(s.running, id));
    }
    assert forall|id: SeqId| #[trigger]
        t.has(id) == s.has(id) && (s.has(id) ==> t.request(id) == s.request(id)) by {
        if id == q.id {
            assert(t.request(id) == s.request(id));
        }
    }
}

/// A candidate that cannot be placed leaves the scheduler, its cache included,
/// as it was: nothing leaks.
pub proof fn law_failed_admission_changes_nothing(s: SchedView)
    requires
        s.coherent(),
        s.has_candidate(),
        !s.candidate_fits(),
    ensures
        s.after_admission() == s,
        s.admitted().len() == 0,
{
    lemma_at(s.waiting, s.candidate_at());
    let id = s.candidate().id;
    assert(!policy::has_id(s.running, id));
    assert(!s.cache.contains(id));
    cache_laws::law_release_undoes_register(s.cache, id);
}

pub proof fn lemma_admission_coherent(s: SchedView)
    requires
        s.coherent(),
    ensures
        s.after_admission().coherent(),
        s.same_requests(s.after_admission()),
    decreases s.waiting.len(),
{
    if s.has_candidate() {
        if s.candidate_fits() {
            let t = s.take_candidate();
            lemma_take_candidate(s);
            lemma_admission_coherent(t);
            assert forall|id: SeqId| #[trigger]
                s.after_admission().has(id) == s.has(id) && (s.has(id)
                    ==> s.after_admission().request(id) == s.request(id)) by {
                assert(t.has(id) == s.has(id));
            }
        } else {
            law_failed_admission_changes_nothing(s);
        }
    }
}

pub proof fn lemma_preempt_victim(s: SchedView)
    requires
        s.coherent(),
        policy::has_victim(s.running),
    ensures
        s.preempt_victim().coherent(),
        s.same_requests(s.preempt_victim()),
{
    policy::lemma_victim(s.running);
    let k = policy::victim(s.running);
    let q = s.running[k];
    let r = q.in_state(SeqState::Preempted);
    let t = s.preempt_victim();
    lemma_at(s.running, k);
    assert(!policy::has_id(s.waiting, q.id));
    lemma_remove(s.running, k);
    lemma_put_first(r, s.waiting);
    paged_cache::lemma_release_wf(s.cache, q.id);
    assert forall|i: int| 0 <= i < t.running.len() implies (#[trigger] t.running[i]).state
        == SeqState::Running by {
        assert(t.running[i] == s.running[if i < k {
            i
        } else {
            i + 1
        }]);
    }
    assert forall|i: int| 0 <= i < t.waiting.len() implies (#[trigger] t.waiting[i]).state
        != SeqState::Running by {
        if i > 0 {
            assert(t.waiting[i] == s.waiting[i - 1]);
        }
    }
    assert forall|id: SeqId| #[trigger] t.cache.contains(id) <==> policy::has_id(t.running, id) by {
        assert(s.cache.contains(id) <==> policy::has_id(s.running, id));
    }
    assert forall|id: SeqId| #[trigger]
        t.has(id) == s.has(id) && (s.has(id) ==> t.request(id) == s.request(id)) by {
        if id == q.id {
            assert(t.request(id) == s.request(id));
        }
    }
}

pub proof fn lemma_preemption_coherent(s: SchedView)
    requires
        s.coherent(),
    ensures
        s.after_preemption().coherent(),
        s.same_requests(s.after_preemption()),
        !s.after_preemption().over_committed(),
    decreases s.running.len(),
{
    if s.over_committed() && policy::has_victim(s.running) {
        policy::lemma_victim(s.running);
        let t = s.preempt_victim();
        lemma_preempt_victim(s);
        lemma_preemption_coherent(t);
        assert forall|id: SeqId| #[trigger]
            s.after_preemption().has(id) == s.has(id) && (s.has(id)
                ==> s.after_preemption().request(id) == s.request(id)) by {
            assert(t.has(id) == s.has(id));
        }
    } else if s.over_committed() {
        policy::lemma_demand_has_victim(s.cache, s.running);
    }
}

/// Appending to one sequence leaves what another needs as it was.
proof fn lemma_append_spares(c: CacheView, seq: SeqId, other: SeqId)
    requires
        c.wf(),
        c.fits(seq, 1),
        other != seq,
    ensures
        c.append(seq, 1).wf(),
        c.append(seq, 1).contains(other) == c.contains(other),
        c.contains(other) ==> c.append(seq, 1).tables[other] == c.tables[other],
        c.append(seq, 1).needed(other, 1) == c.needed(other, 1),
{
    paged_cache::lemma_append_wf(c, seq, 1);
}

/// What committing a batch that can be served does to the cache: every growing
/// sequence stores one token more, every other table stays as it was, and the
/// blocks asked for, no more, are taken.
pub open spec fn committed(c: CacheView, running: Seq<SeqView>, after: CacheView) -> bool {
    &&& after.wf()
    &&& after.block_size == c.block_size
    &&& after.num_blocks == c.num_blocks
    &&& after.free.len() + policy::demand(c, running) == c.free.len()
    &&& forall|id: SeqId| #[trigger] after.contains(id) == c.contains(id)
    &&& forall|id: SeqId|
        c.contains(id) && !policy::has_id(running, id) ==> #[trigger] after.tables[id]
            == c.tables[id]
    &&& forall|i: int|
        0 <= i < running.len() ==> after.tokens((#[trigger] running[i]).id) == c.tokens(
            running[i].id,
        ) + if running[i].growing() {
            1nat
        } else {
            0
        }
}

proof fn lemma_front(list: Seq<SeqView>)
    requires
        list.len() > 0,
        distinct(list),
    ensures
        distinct(list.drop_last()),
        !policy::has_id(list.drop_last(), list.last().id),
        list.drop_last().push(list.last()) == list,
{
    let front = list.drop_last();
    let n = front.len() as int;
    assert(front.push(list.last()) =~= list);
    assert forall|i: int| 0 <= i < n implies (#[trigger] front[i]).id != list.last().id by {
        assert(list[i].id != list[n].id);
    }
    assert forall|i: int, j: int| 0 <= i < j < n implies (#[trigger] front[i]).id != (
    #[trigger] front[j]).id by {
        assert(list[i].id != list[j].id);
    }
}

pub proof fn lemma_commit(c: CacheView, running: Seq<SeqView>)
    requires
        c.wf(),
        distinct(running),
        forall|i: int| 0 <= i < running.len() ==> c.contains((#[trigger] running[i]).id),
        forall|i: int|
            0 <= i < running.len() ==> (#[trigger] running[i]).state == SeqState::Running,
        policy::demand(c, running) <= c.free.len(),
    ensures
        committed(c, running, policy::commit(c, running)),
        policy::decode_batch(c, running) == policy::ids(policy::survivors(running)),
    decreases running.len(),
{
    let after = policy::commit(c, running);
    if running.len() == 0 {
        assert(policy::ids(policy::survivors(running)) =~= Seq::empty());
    } else {
        let front = running.drop_last();
        let q = running.last();
        let n = front.len() as int;
        let mid = policy::commit(c, front);
        lemma_front(running);
        assert(running[n] == q);
        assert forall|i: int| 0 <= i < front.len() implies c.contains((#[trigger] front[i]).id)
            && front[i].state == SeqState::Running by {
            assert(running[i] == front[i]);
        }
        lemma_commit(c, front);
        assert(mid.tables[q.id] == c.tables[q.id]);
        assert(mid.needed(q.id, 1) == c.needed(q.id, 1));
        if q.growing() {
            assert(mid.fits(q.id, 1));
            paged_cache::lemma_append_wf(mid, q.id, 1);
            assert(after == mid.append(q.id, 1));
            assert forall|i: int| 0 <= i < running.len() implies after.tokens(
                (#[trigger] running[i]).id,
            ) == c.tokens(running[i].id) + if running[i].growing() {
                1nat
            } else {
                0
            } by {
                if i < n {
                    assert(running[i] == front[i]);
                    lemma_append_spares(mid, q.id, front[i].id);
                }
            }
        } else {
            assert forall|i: int| 0 <= i < running.len() implies after.tokens(
                (#[trigger] running[i]).id,
            ) == c.tokens(running[i].id) + if running[i].growing() {
                1nat
            } else {
                0
            } by {
                if i < n {
                    assert(running[i] == front[i]);
                }
            }
        }
        assert forall|id: SeqId|
            c.contains(id) && !policy::has_id(running, id) implies #[trigger] after.tables[id]
            == c.tables[id] by {
            if policy::has_id(front, id) {
                let i = choose|i: int| 0 <= i < front.len() && (#[trigger] front[i]).id == id;
                assert(running[i].id == id);
            }
            if id == q.id {
                assert(running[n].id == id);
            }
        }
        assert forall|id: SeqId| #[trigger] after.contains(id) == c.contains(id) by {
            assert(mid.contains(id) == c.contains(id));
        }
        assert(policy::ids(policy::survivors(running)) =~= policy::decode_batch(c, running));
    }
}

/// What retiring a batch does to the cache: the complete sequences are gone,
/// and every other table stays as it was.
pub open spec fn retired(c: CacheView, running: Seq<SeqView>, after: CacheView) -> bool {
    &&& after.wf()
    &&& after.block_size == c.block_size
    &&& after.num_blocks == c.num_blocks
    &&& forall|id: SeqId| #[trigger]
        after.contains(id) == (c.contains(id) && !policy::finished(running).contains(id))
    &&& forall|id: SeqId|
        after.contains(id) ==> #[trigger] after.tables[id] == c.tables[id]
}

pub proof fn lemma_retire(c: CacheView, running: Seq<SeqView>)
    requires
        c.wf(),
    ensures
        retired(c, running, policy::retire(c, running)),
    decreases running.len(),
{
    if running.len() > 0 {
        let front = running.drop_last();
        let q = running.last();
        let mid = policy::retire(c, front);
        lemma_retire(c, front);
        if q.complete() {
            paged_cache::lemma_release_wf(mid, q.id);
            let done = policy::finished(front);
            assert forall|id: SeqId| #[trigger]
                done.push(q.id).contains(id) == (done.contains(id) || id == q.id) by {
                if done.contains(id) {
                    assert(done.push(q.id)[done.index_of(id)] == id);
                }
                if id == q.id {
                    assert(done.push(q.id)[done.len() as int] == id);
                }
            }
            let after = mid.release(q.id);
            assert forall|id: SeqId| #[trigger]
                after.contains(id) == (c.contains(id) && !done.push(q.id).contains(id)) by {
                assert(mid.contains(id) == (c.contains(id) && !done.contains(id)));
            }
            assert forall|id: SeqId| after.contains(id) implies #[trigger] after.tables[id]
                == c.tables[id] by {
                assert(mid.contains(id));
                assert(after.tables[id] == mid.tables[id]);
            }
        }
    }
}

/// A sequence of the batch stays unless it is complete.
pub proof fn lemma_survivors(running: Seq<SeqView>)
    requires
        distinct(running),
    ensures
        distinct(policy::survivors(running)),
        forall|id: SeqId| #[trigger]
            policy::has_id(policy::survivors(running), id) == (policy::has_id(running, id) && !at(
                running,
                id,
            ).complete()),
        forall|id: SeqId|
            policy::has_id(policy::survivors(running), id) ==> #[trigger] at(
                policy::survivors(running),
                id,
            ) == at(running, id),
        forall|id: SeqId| #[trigger]
            policy::finished(running).contains(id) == (policy::has_id(running, id) && at(
                running,
                id,
            ).complete()),
        forall|i: int|
            0 <= i < policy::survivors(running).len() ==> !(#[trigger] policy::survivors(
                running,
            )[i]).complete() && running.contains(policy::survivors(running)[i]),
    decreases running.len(),
{
    if running.len() > 0 {
        let front = running.drop_last();
        let q = running.last();
        let kept = policy::survivors(front);
        let done = policy::finished(front);
        lemma_front(running);
        lemma_survivors(front);
        lemma_push(front, q);
        assert(running[running.len() - 1] == q);
        assert forall|i: int| 0 <= i < kept.len() implies running.contains(#[trigger] kept[i]) by {
            let k = front.index_of(kept[i]);
            assert(running[k] == front[k]);
        }
        if q.complete() {
            assert forall|id: SeqId| #[trigger]
                done.push(q.id).contains(id) == (done.contains(id) || id == q.id) by {
                if done.contains(id) {
                    assert(done.push(q.id)[done.index_of(id)] == id);
                }
                if id == q.id {
                    assert(done.push(q.id)[done.len() as int] == id);
                }
            }
        } else {
            lemma_push(kept, q);
        }
    } else {
        assert(policy::survivors(running) =~= Seq::empty());
    }
}

/// Scheduling keeps the scheduler coherent.
pub proof fn law_schedule_is_coherent(s: SchedView)
    requires
        s.coherent(),
    ensures
        s.batched().coherent(),
        !s.batched().over_committed(),
        s.after_schedule().coherent(),
{
    lemma_admission_coherent(s);
    lemma_preemption_coherent(s.after_admission());
    let b = s.batched();
    let t = s.after_schedule();
    lemma_members_cached(b);
    lemma_commit(b.cache, b.running);
    lemma_retire(policy::commit(b.cache, b.running), b.running);
    lemma_survivors(b.running);
    policy::lemma_batch_limit(s);
    assert forall|id: SeqId| #[trigger] t.cache.contains(id) <==> policy::has_id(t.running, id) by {
        assert(policy::commit(b.cache, b.running).contains(id) == b.cache.contains(id));
        assert(b.cache.contains(id) <==> policy::has_id(b.running, id));
        assert(policy::finished(b.running).contains(id) == (policy::has_id(b.running, id) && at(
            b.running,
            id,
        ).complete()));
    }
    assert forall|i: int| 0 <= i < t.running.len() implies (#[trigger] t.running[i]).state
        == SeqState::Running by {
        let k = b.running.index_of(t.running[i]);
        assert(b.running[k] == t.running[i]);
    }
    assert forall|id: SeqId| #[trigger] policy::has_id(t.running, id) implies !policy::has_id(
        t.waiting,
        id,
    ) by {
        assert(policy::has_id(b.running, id));
    }
}

pub proof fn lemma_members_cached(s: SchedView)
    requires
        s.coherent(),
    ensures
        forall|i: int|
            0 <= i < s.running.len() ==> s.cache.contains((#[trigger] s.running[i]).id),
{
    assert forall|i: int| 0 <= i < s.running.len() implies s.cache.contains(
        (#[trigger] s.running[i]).id,
    ) by {
        lemma_at(s.running, i);
        assert(policy::has_id(s.running, s.running[i].id));
        assert(s.cache.contains(s.running[i].id) <==> policy::has_id(
            s.running,
            s.running[i].id,
        ));
    }
}

/// No request is lost and none appears: an iteration keeps every request as it
/// is, apart from its state, unless the plan reports it finished, and it
/// reports only requests that are complete.
pub proof fn law_schedule_loses_nothing(s: SchedView)
    requires
        s.coherent(),
    ensures
        forall|id: SeqId| #[trigger]
            s.after_schedule().has(id) == (s.has(id) && !s.plan().finished.contains(id)),
        forall|id: SeqId|
            s.after_schedule().has(id) ==> #[trigger] s.after_schedule().request(id) == s.request(
                id,
            ),
        forall|id: SeqId| #[trigger]
            s.plan().finished.contains(id) ==> s.has(id) && s.request(id).complete(),
{
    lemma_admission_coherent(s);
    lemma_preemption_coherent(s.after_admission());
    law_schedule_is_coherent(s);
    let a = s.after_admission();
    let b = s.batched();
    let t = s.after_schedule();
    lemma_survivors(b.running);
    assert forall|id: SeqId| #[trigger] b.has(id) == s.has(id) && (s.has(id) ==> b.request(id)
        == s.request(id)) by {
        assert(a.has(id) == s.has(id));
        assert(a.after_preemption().has(id) == a.has(id));
    }
    assert forall|id: SeqId| #[trigger]
        t.has(id) == (s.has(id) && !s.plan().finished.contains(id)) by {
        assert(b.has(id) == s.has(id));
        assert(policy::has_id(t.running, id) == (policy::has_id(b.running, id) && !at(
            b.running,
            id,
        ).complete()));
        assert(s.plan().finished.contains(id) == (policy::has_id(b.running, id) && at(
            b.running,
            id,
        ).complete()));
        if policy::has_id(b.running, id) {
            assert(!policy::has_id(b.waiting, id));
        }
    }
    assert forall|id: SeqId| t.has(id) implies #[trigger] t.request(id) == s.request(id) by {
        assert(t.has(id) == (s.has(id) && !s.plan().finished.contains(id)));
        assert(b.has(id) == s.has(id));
        assert(policy::has_id(t.running, id) == (policy::has_id(b.running, id) && !at(
            b.running,
            id,
        ).complete()));
        if policy::has_id(t.running, id) {
            assert(at(t.running, id) == at(b.running, id));
        }
    }
    assert forall|id: SeqId| #[trigger] s.plan().finished.contains(id) implies s.has(id)
        && s.request(id).complete() by {
        assert(policy::finished(b.running).contains(id));
        assert(b.has(id) == s.has(id));
        assert(b.request(id) == at(b.running, id).in_state(SeqState::Waiting));
    }
}

/// Every sequence left in the batch decodes in this iteration: preemption has
/// made room for all of them, so no reservation fails.
pub proof fn law_whole_batch_decodes(s: SchedView)
    requires
        s.coherent(),
    ensures
        s.plan().decode_batch == policy::ids(s.after_schedule().running),
        s.plan().decode_batch.len() <= s.max_batch,
{
    law_schedule_is_coherent(s);
    policy::lemma_batch_limit(s);
    let b = s.batched();
    lemma_members_cached(b);
    lemma_commit(b.cache, b.running);
}

/// A sequence that waits holds no cache: what it held before a preemption or a
/// failed admission has been given back.
pub proof fn law_waiting_holds_nothing(s: SchedView, id: SeqId)
    requires
        s.coherent(),
        policy::has_id(s.waiting, id),
    ensures
        !s.cache.contains(id),
{
    assert(s.cache.contains(id) <==> policy::has_id(s.running, id));
}

/// With nothing in the batch every block is free.
pub proof fn law_idle_scheduler_holds_nothing(s: SchedView)
    requires
        s.coherent(),
        s.running.len() == 0,
    ensures
        s.cache.tables.dom().is_empty(),
        s.cache.free.len() == s.cache.num_blocks,
        s.cache.used() == 0,
{
    assert(s.cache.tables.dom() =~= Set::empty()) by {
        assert forall|id: SeqId| !s.cache.tables.dom().contains(id) by {
            assert(s.cache.contains(id) <==> policy::has_id(s.running, id));
        }
    }
    assert(s.cache.tables =~= Map::empty());
    paged_cache::lemma_sum_empty(paged_cache::block_count());
}

/// Without work an iteration decides nothing and changes nothing.
pub proof fn law_no_work_is_an_idle_plan(s: SchedView)
    requires
        !s.has_work(),
    ensures
        s.plan().idle(),
        s.after_schedule() == s,
{
    assert(s.after_admission() == s);
    assert(!policy::has_victim(s.running));
    assert(s.batched() == s);
    assert(policy::survivors(s.running) =~= s.running);
}

/// A preempted sequence has generated least of those that grow: no other has
/// generated less, and among those that have generated as much it is the one
/// with the largest id. It goes to the head of the queue with its output. A
/// complete sequence is never preempted.
pub proof fn law_preemption_takes_the_least_progressed(s: SchedView)
    requires
        s.coherent(),
        policy::has_victim(s.running),
    ensures
        s.preempt_victim().waiting[0].state == SeqState::Preempted,
        !s.preempt_victim().waiting[0].complete(),
        policy::has_id(s.running, s.preempt_victim().waiting[0].id),
        s.preempt_victim().waiting[0].in_state(SeqState::Running) == at(
            s.running,
            s.preempt_victim().waiting[0].id,
        ),
        s.preempt_victim().waiting.drop_first() == s.waiting,
        !s.preempt_victim().cache.contains(s.preempt_victim().waiting[0].id),
        forall|i: int|
            0 <= i < s.running.len() && !(#[trigger] s.running[i]).complete() && s.running[i].id
                != s.preempt_victim().waiting[0].id
                ==> s.preempt_victim().waiting[0].yields_before(s.running[i]),
{
    policy::lemma_victim(s.running);
    let k = policy::victim(s.running);
    let v = s.running[k];
    lemma_at(s.running, k);
    assert(s.preempt_victim().waiting.drop_first() =~= s.waiting);
    assert forall|i: int|
        0 <= i < s.running.len() && !(#[trigger] s.running[i]).complete() && s.running[i].id
            != v.id implies v.yields_before(s.running[i]) by {
        assert(s.running[i].growing());
        assert(!s.running[i].yields_before(v));
    }
}

/// The requests of a queue that a cache could ever hold, in order.
pub open spec fn ordinary(c: CacheView, waiting: Seq<SeqView>) -> Seq<SeqView>
    decreases waiting.len(),
{
    if waiting.len() == 0 {
        Seq::empty()
    } else if policy::oversized(c, waiting[0]) {
        ordinary(c, waiting.drop_first())
    } else {
        seq![waiting[0]] + ordinary(c, waiting.drop_first())
    }
}

/// The requests of a queue that are too large for a cache, in order.
pub open spec fn too_large(c: CacheView, waiting: Seq<SeqView>) -> Seq<SeqView>
    decreases waiting.len(),
{
    if waiting.len() == 0 {
        Seq::empty()
    } else if policy::oversized(c, waiting[0]) {
        seq![waiting[0]] + too_large(c, waiting.drop_first())
    } else {
        too_large(c, waiting.drop_first())
    }
}

/// Whether two caches have the same size.
pub open spec fn same_size(c: CacheView, d: CacheView) -> bool {
    c.block_size == d.block_size && c.num_blocks == d.num_blocks
}

proof fn lemma_ordinary_size(c: CacheView, d: CacheView, waiting: Seq<SeqView>)
    requires
        same_size(c, d),
    ensures
        ordinary(c, waiting) == ordinary(d, waiting),
        too_large(c, waiting) == too_large(d, waiting),
    decreases waiting.len(),
{
    if waiting.len() > 0 {
        lemma_ordinary_size(c, d, waiting.drop_first());
    }
}

/// Leaving out an oversized request leaves the ordinary ones.
pub proof fn lemma_ordinary_remove(c: CacheView, waiting: Seq<SeqView>, k: int)
    requires
        0 <= k < waiting.len(),
        policy::oversized(c, waiting[k]),
    ensures
        ordinary(c, waiting.remove(k)) == ordinary(c, waiting),
    decreases waiting.len(),
{
    let rest = waiting.drop_first();
    if k == 0 {
        assert(waiting.remove(0) =~= rest);
    } else {
        assert(rest[k - 1] == waiting[k]);
        lemma_ordinary_remove(c, rest, k - 1);
        assert(waiting.remove(k).drop_first() =~= rest.remove(k - 1));
        assert(waiting.remove(k)[0] == waiting[0]);
    }
}

/// A queue without oversized requests is ordinary.
pub proof fn lemma_ordinary_all(c: CacheView, waiting: Seq<SeqView>)
    requires
        forall|i: int| 0 <= i < waiting.len() ==> !policy::oversized(c, #[trigger] waiting[i]),
    ensures
        ordinary(c, waiting) == waiting,
    decreases waiting.len(),
{
    if waiting.len() > 0 {
        let rest = waiting.drop_first();
        assert forall|i: int| 0 <= i < rest.len() implies !policy::oversized(
            c,
            #[trigger] rest[i],
        ) by {
            assert(rest[i] == waiting[i + 1]);
        }
        lemma_ordinary_all(c, rest);
        assert(seq![waiting[0]] + rest =~= waiting);
    } else {
        assert(ordinary(c, waiting) =~= waiting);
    }
}

/// Leaving out a request that waits keeps the scheduler coherent.
pub proof fn lemma_remove_waiting(s: SchedView, k: int)
    requires
        s.coherent(),
        0 <= k < s.waiting.len(),
    ensures
        (SchedView { waiting: s.waiting.remove(k), ..s }).coherent(),
{
    let t = SchedView { waiting: s.waiting.remove(k), ..s };
    lemma_remove(s.waiting, k);
    assert forall|i: int| 0 <= i < t.waiting.len() implies (#[trigger] t.waiting[i]).state
        != SeqState::Running by {
        assert(t.waiting[i] == s.waiting[if i < k {
            i
        } else {
            i + 1
        }]);
    }
    assert forall|id: SeqId| #[trigger] t.cache.contains(id) <==> policy::has_id(t.running, id) by {
        assert(s.cache.contains(id) <==> policy::has_id(s.running, id));
    }
}

/// Taking the candidate takes the first of the ordinary requests.
proof fn lemma_take_ordinary(c: CacheView, waiting: Seq<SeqView>, k: int)
    requires
        policy::is_candidate(c, waiting, k),
    ensures
        ordinary(c, waiting) == seq![waiting[k]] + ordinary(c, waiting.remove(k)),
        too_large(c, waiting) == too_large(c, waiting.remove(k)),
    decreases waiting.len(),
{
    let rest = waiting.drop_first();
    if k == 0 {
        assert(waiting.remove(0) =~= rest);
    } else {
        assert(policy::oversized(c, waiting[0]));
        assert forall|j: int| 0 <= j < k - 1 implies policy::oversized(c, #[trigger] rest[j]) by {
            assert(rest[j] == waiting[j + 1]);
        }
        lemma_take_ordinary(c, rest, k - 1);
        assert(waiting.remove(k).drop_first() =~= rest.remove(k - 1));
        assert(waiting.remove(k)[0] == waiting[0]);
    }
}

/// Requests are admitted in the order in which they wait. Those that are too
/// large for the cache are passed over and keep their order.
pub proof fn law_admission_is_in_order(s: SchedView)
    ensures
        s.admitted().len() <= ordinary(s.cache, s.waiting).len(),
        s.admitted() == policy::ids(ordinary(s.cache, s.waiting)).take(s.admitted().len() as int),
        ordinary(s.cache, s.after_admission().waiting) == ordinary(s.cache, s.waiting).skip(
            s.admitted().len() as int,
        ),
        too_large(s.cache, s.after_admission().waiting) == too_large(s.cache, s.waiting),
    decreases s.waiting.len(),
{
    let n = s.admitted().len() as int;
    let queue = ordinary(s.cache, s.waiting);
    assert(policy::ids(queue).len() == queue.len());
    if s.has_candidate() && s.candidate_fits() {
        let t = s.take_candidate();
        let rest = ordinary(t.cache, t.waiting);
        let w = t.after_admission().waiting;
        law_admission_is_in_order(t);
        lemma_take_ordinary(s.cache, s.waiting, s.candidate_at());
        lemma_ordinary_size(s.cache, t.cache, t.waiting);
        lemma_ordinary_size(s.cache, t.cache, w);
        assert(policy::ids(rest).len() == rest.len());
        assert forall|i: int| 0 <= i < n implies s.admitted()[i] == #[trigger] policy::ids(
            queue,
        ).take(n)[i] by {
            if i > 0 {
                assert(t.admitted()[i - 1] == policy::ids(rest).take(n - 1)[i - 1]);
                assert(rest[i - 1] == queue[i]);
            }
        }
        assert(s.admitted() =~= policy::ids(queue).take(n));
        assert(rest.skip(n - 1) =~= queue.skip(n));
    } else {
        assert(s.admitted() =~= policy::ids(queue).take(n));
        assert(queue.skip(n) =~= queue);
    }
}

proof fn lemma_admission_extends(s: SchedView)
    ensures
        s.after_admission().running.len() >= s.running.len(),
        s.after_admission().running.take(s.running.len() as int) == s.running,
    decreases s.waiting.len(),
{
    let n = s.running.len() as int;
    if s.has_candidate() && s.candidate_fits() {
        let t = s.take_candidate();
        lemma_admission_extends(t);
        let after = t.after_admission().running;
        assert(after.take(n) =~= after.take(n + 1).take(n));
        assert(t.running.take(n) =~= s.running);
    } else {
        assert(s.after_admission().running.take(n) =~= s.running);
    }
}

/// Preemption leaves every sequence that does not grow where it is.
proof fn lemma_preemption_spares(s: SchedView, id: SeqId)
    requires
        s.coherent(),
        policy::has_id(s.running, id),
        !at(s.running, id).growing(),
    ensures
        policy::has_id(s.after_preemption().running, id),
        at(s.after_preemption().running, id) == at(s.running, id),
    decreases s.running.len(),
{
    if s.over_committed() && policy::has_victim(s.running) {
        policy::lemma_victim(s.running);
        let k = policy::victim(s.running);
        lemma_at(s.running, k);
        lemma_remove(s.running, k);
        lemma_preempt_victim(s);
        lemma_preemption_spares(s.preempt_victim(), id);
    }
}

/// A complete sequence leaves the batch in the next iteration, and its blocks
/// are free after it, however many blocks the others ask for.
pub proof fn law_complete_sequences_retire(s: SchedView, id: SeqId)
    requires
        s.coherent(),
        policy::has_id(s.running, id),
        at(s.running, id).complete(),
    ensures
        s.plan().finished.contains(id),
        !s.plan().preempted.contains(id),
        !s.after_schedule().has(id),
        !s.after_schedule().cache.contains(id),
{
    let a = s.after_admission();
    let b = s.batched();
    lemma_admission_coherent(s);
    lemma_admission_extends(s);
    lemma_found(s.running, id);
    let k = policy::position(s.running, id);
    assert(a.running.take(s.running.len() as int)[k] == a.running[k]);
    lemma_at(a.running, k);
    lemma_preemption_spares(a, id);
    lemma_preempted_grow(a, id);
    lemma_preemption_coherent(a);
    lemma_survivors(b.running);
    assert(policy::finished(b.running).contains(id));
    law_schedule_loses_nothing(s);
    law_schedule_is_coherent(s);
    assert(s.after_schedule().has(id) == (s.has(id) && !s.plan().finished.contains(id)));
    assert(s.after_schedule().cache.contains(id) <==> policy::has_id(
        s.after_schedule().running,
        id,
    ));
}

/// Only sequences that grow are preempted.
proof fn lemma_preempted_grow(s: SchedView, id: SeqId)
    requires
        s.coherent(),
        policy::has_id(s.running, id),
        !at(s.running, id).growing(),
    ensures
        !s.preempted().contains(id),
    decreases s.running.len(),
{
    if s.over_committed() && policy::has_victim(s.running) {
        policy::lemma_victim(s.running);
        let k = policy::victim(s.running);
        let first = s.running[k].id;
        let rest = s.preempt_victim().preempted();
        lemma_at(s.running, k);
        lemma_remove(s.running, k);
        lemma_preempt_victim(s);
        lemma_preempted_grow(s.preempt_victim(), id);
        if s.preempted().contains(id) {
            let i = s.preempted().index_of(id);
            if i > 0 {
                assert(rest[i - 1] == id);
            }
        }
    }
}

} // verus!
