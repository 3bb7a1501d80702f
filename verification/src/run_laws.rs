//! What the engine emits, in which order, and how runs add up.
use vstd::prelude::*;

use crate::engine::{Emission, GenerationOutput};
use crate::model::{Model, TokenId};
use crate::paged_cache::SeqId;
use crate::policy::SchedView;
#[allow(unused_imports)]
use crate::{engine, engine_laws, model, policy, scheduler_laws};

verus! {

/// Emissions under an id.
pub open spec fn under(id: SeqId) -> spec_fn(Emission) -> bool {
    |e: Emission| e.0 == id
}

/// The token of an emission.
pub open spec fn token_in() -> spec_fn(Emission) -> TokenId {
    |e: Emission| e.1
}

/// Whether some output is that of an id.
pub open spec fn has_output(outputs: Seq<GenerationOutput>, id: SeqId) -> bool {
    exists|i: int| 0 <= i < outputs.len() && (#[trigger] outputs[i]).id == id
}

/// Decoding goes through the batch in order. Each sequence gets the token that
/// follows its prompt and its output, the end of the sequence is told apart, and
/// the token is recorded and emitted before the next sequence is looked at.
pub proof fn law_batch_decodes_in_order<M: Model + ?Sized>(
    model: &M,
    s: SchedView,
    batch: Seq<SeqId>,
    id: SeqId,
)
    ensures
        engine::after_decode(model, s, Seq::empty()) == s,
        engine::decoded(model, s, Seq::empty()).len() == 0,
        ({
            let before = engine::after_decode(model, s, batch);
            let q = before.running[policy::position(before.running, id)];
            let token = model::next_token(model, q.prompt + q.output);
            &&& engine::after_decode(model, s, batch.push(id)) == before.push_token(
                id,
                token,
                token == model.eos(),
            )
            &&& engine::decoded(model, s, batch.push(id)) == engine::decoded(
                model,
                s,
                batch,
            ).push((id, token, token == model.eos()))
        }),
{
    assert(batch.push(id).drop_last() =~= batch);
}

/// An iteration schedules and then decodes the batch of the plan.
pub proof fn law_step_schedules_and_decodes<M: Model + ?Sized>(model: &M, s: SchedView)
    ensures
        engine::after_step(model, s) == engine::after_decode(
            model,
            s.after_schedule(),
            s.plan().decode_batch,
        ),
        engine::step_emits(model, s) == engine::decoded(
            model,
            s.after_schedule(),
            s.plan().decode_batch,
        ),
{
}

proof fn lemma_decode_emits<M: Model + ?Sized>(model: &M, s: SchedView, k: int)
    requires
        s.coherent(),
        0 <= k <= s.running.len(),
    ensures
        ({
            let batch = policy::ids(s.running).take(k);
            let t = engine::after_decode(model, s, batch);
            let e = engine::decoded(model, s, batch);
            &&& t.coherent()
            &&& t.running.len() == s.running.len()
            &&& forall|i: int|
                0 <= i < s.running.len() ==> (#[trigger] t.running[i]).id == s.running[i].id
            &&& forall|i: int| k <= i < s.running.len() ==> #[trigger] t.running[i] == s.running[i]
            &&& e.len() == k
            &&& forall|i: int|
                0 <= i < k ==> {
                    &&& (#[trigger] e[i]).0 == s.running[i].id
                    &&& e[i].1 == model::next_token(
                        model,
                        s.running[i].prompt + s.running[i].output,
                    )
                    &&& e[i].2 == (e[i].1 == model.eos())
                }
        }),
    decreases k,
{
    let all = policy::ids(s.running);
    assert(all.len() == s.running.len());
    if k == 0 {
        assert(all.take(0) =~= Seq::empty());
    } else {
        lemma_decode_emits(model, s, k - 1);
        let before = engine::after_decode(model, s, all.take(k - 1));
        let id = s.running[k - 1].id;
        assert(all[k - 1] == id);
        assert(all.take(k) =~= all.take(k - 1).push(id));
        assert(before.running[k - 1] == s.running[k - 1]);
        scheduler_laws::lemma_at(before.running, k - 1);
        law_batch_decodes_in_order(model, s, all.take(k - 1), id);
        let token = model::next_token(model, s.running[k - 1].prompt + s.running[k - 1].output);
        scheduler_laws::law_push_token_is_coherent(before, id, token, token == model.eos());
    }
}

/// An iteration emits one token for each sequence of the plan's batch, in batch
/// order: the one that follows the prompt and the output of the request. The
/// emission says whether it is the end of the sequence.
pub proof fn law_step_emits_the_batch<M: Model + ?Sized>(model: &M, s: SchedView)
    requires
        s.coherent(),
    ensures
        engine::step_emits(model, s).len() == s.plan().decode_batch.len(),
        forall|i: int|
            0 <= i < engine::step_emits(model, s).len() ==> {
                let e = #[trigger] engine::step_emits(model, s)[i];
                let q = s.after_schedule().running[i];
                &&& e.0 == s.plan().decode_batch[i]
                &&& e.0 == q.id
                &&& e.1 == model::next_token(model, q.prompt + q.output)
                &&& e.2 == (e.1 == model.eos())
            },
{
    let p = s.after_schedule();
    let n = p.running.len() as int;
    scheduler_laws::law_schedule_is_coherent(s);
    scheduler_laws::law_whole_batch_decodes(s);
    assert(policy::ids(p.running).len() == n);
    assert(policy::ids(p.running).take(n) =~= s.plan().decode_batch);
    lemma_decode_emits(model, p, n);
}

/// Whether the cache holds the batch: a table for each of its sequences, with
/// the tokens of its prompt and its output, and no other.
pub open spec fn holds_the_batch(s: SchedView) -> bool {
    &&& forall|i: int|
        0 <= i < s.running.len() ==> {
            &&& s.cache.tables.contains_key((#[trigger] s.running[i]).id)
            &&& s.cache.tables[s.running[i].id].tokens == s.running[i].prompt.len()
                + s.running[i].output.len()
        }
    &&& forall|id: SeqId| #[trigger]
        s.cache.tables.contains_key(id) ==> policy::has_id(s.running, id)
}

/// An iteration keeps the cache and the batch in step: what was admitted,
/// decoded, preempted and retired shows in the tables, token by token.
pub proof fn law_cache_holds_the_batch<M: Model + ?Sized>(model: &M, s: SchedView)
    requires
        s.coherent(),
        holds_the_batch(s),
    ensures
        holds_the_batch(engine::after_step(model, s)),
{
    let t = engine::after_step(model, s);
    assert forall|i: int| 0 <= i < s.running.len() implies s.cache.tokens(
        (#[trigger] s.running[i]).id,
    ) == s.running[i].total_len() by {}
    assert(engine_laws::settled(s));
    engine_laws::lemma_step_settled(model, s);
    engine_laws::law_step_advances_the_batch(model, s);
    scheduler_laws::lemma_members_cached(t);
    assert forall|id: SeqId| #[trigger] t.cache.tables.contains_key(id) implies policy::has_id(
        t.running,
        id,
    ) by {
        assert(t.cache.contains(id));
    }
    assert forall|i: int| 0 <= i < t.running.len() implies {
        &&& t.cache.tables.contains_key((#[trigger] t.running[i]).id)
        &&& t.cache.tables[t.running[i].id].tokens == t.running[i].prompt.len()
            + t.running[i].output.len()
    } by {
        assert(t.cache.contains(t.running[i].id));
        assert(t.cache.tokens(t.running[i].id) == t.running[i].total_len());
    }
}

/// Runs add up: running on from where a run stopped is one longer run. A run of
/// no iterations changes nothing, and a run of one is an iteration, if there is
/// work.
pub proof fn law_runs_add_up<M: Model + ?Sized>(model: &M, s: SchedView, a: nat, b: nat)
    ensures
        engine::after_run(model, s, 0) == s,
        engine::run_emits(model, s, 0).len() == 0,
        s.waiting.len() + s.running.len() > 0 ==> engine::after_run(model, s, 1)
            == engine::after_step(model, s),
        s.waiting.len() + s.running.len() > 0 ==> engine::run_emits(model, s, 1)
            == engine::step_emits(model, s),
        s.waiting.len() + s.running.len() == 0 ==> engine::after_run(model, s, a) == s,
        s.waiting.len() + s.running.len() == 0 ==> engine::run_emits(model, s, a).len() == 0,
        engine::after_run(model, s, a + b) == engine::after_run(
            model,
            engine::after_run(model, s, a),
            b,
        ),
        engine::run_emits(model, s, a + b) == engine::run_emits(model, s, a) + engine::run_emits(
            model,
            engine::after_run(model, s, a),
            b,
        ),
    decreases a,
{
    reveal_with_fuel(engine::after_run, 2);
    reveal_with_fuel(engine::run_emits, 2);
    let t = engine::after_step(model, s);
    if s.has_work() {
        assert(engine::step_emits(model, s) + engine::run_emits(model, t, 0)
            =~= engine::step_emits(model, s));
    }
    let more = engine::run_emits(model, engine::after_run(model, s, a), b);
    if a == 0 || !s.has_work() {
        assert(engine::run_emits(model, s, a) + more =~= more);
    } else {
        let first = engine::step_emits(model, s);
        let rest = engine::run_emits(model, t, (a - 1) as nat);
        law_runs_add_up(model, t, (a - 1) as nat, b);
        assert((a + b - 1) as nat == ((a - 1) as nat) + b);
        assert(first + (rest + more) =~= (first + rest) + more);
    }
}

/// The tokens of a request are the emissions under its id, in order.
pub proof fn law_tokens_are_sorted_by_request(emitted: Seq<Emission>, id: SeqId)
    ensures
        engine::tokens_of(emitted, id) == emitted.filter(under(id)).map_values(token_in()),
    decreases emitted.len(),
{
    reveal(Seq::filter);
    if emitted.len() > 0 {
        law_tokens_are_sorted_by_request(emitted.drop_last(), id);
    }
    assert(engine::tokens_of(emitted, id) =~= emitted.filter(under(id)).map_values(token_in()));
}

proof fn lemma_emitted_is_collected(emitted: Seq<Emission>, k: int)
    requires
        0 <= k < emitted.len(),
    ensures
        engine::tokens_of(emitted, emitted[k].0).len() > 0,
    decreases emitted.len(),
{
    if k < emitted.len() - 1 {
        lemma_emitted_is_collected(emitted.drop_last(), k);
    }
}

proof fn lemma_tokens_were_emitted(emitted: Seq<Emission>, id: SeqId)
    requires
        engine::tokens_of(emitted, id).len() > 0,
    ensures
        exists|k: int| 0 <= k < emitted.len() && (#[trigger] emitted[k]).0 == id,
    decreases emitted.len(),
{
    let n = emitted.len() - 1;
    if emitted.last().0 == id {
        assert(emitted[n].0 == id);
    } else {
        let front = emitted.drop_last();
        lemma_tokens_were_emitted(front, id);
        let k = choose|k: int| 0 <= k < front.len() && (#[trigger] front[k]).0 == id;
        assert(emitted[k].0 == id);
    }
}

/// The outputs of a run hold what was emitted and nothing else: one for each
/// request that anything was emitted for, by increasing id, with its tokens.
pub proof fn law_outputs_hold_the_emissions(
    outputs: Seq<GenerationOutput>,
    emitted: Seq<Emission>,
)
    requires
        engine::collects(outputs, emitted),
    ensures
        forall|i: int, j: int|
            0 <= i < j < outputs.len() ==> (#[trigger] outputs[i]).id < (#[trigger] outputs[j]).id,
        forall|i: int|
            0 <= i < outputs.len() ==> (#[trigger] outputs[i]).tokens@ == emitted.filter(
                under(outputs[i].id),
            ).map_values(token_in()),
        forall|i: int|
            0 <= i < outputs.len() ==> emitted.filter(under((#[trigger] outputs[i]).id)).len() > 0,
        forall|k: int|
            0 <= k < emitted.len() ==> has_output(outputs, (#[trigger] emitted[k]).0),
{
    assert forall|i: int| 0 <= i < outputs.len() implies (#[trigger] outputs[i]).tokens@
        == emitted.filter(under(outputs[i].id)).map_values(token_in()) && emitted.filter(
        under(outputs[i].id),
    ).len() > 0 by {
        law_tokens_are_sorted_by_request(emitted, outputs[i].id);
    }
    assert forall|k: int| 0 <= k < emitted.len() implies has_output(
        outputs,
        (#[trigger] emitted[k]).0,
    ) by {
        lemma_emitted_is_collected(emitted, k);
    }
}

/// The first output is that of the least id that anything was emitted for, and
/// empty if nothing was.
pub proof fn law_first_output_is_of_the_least_id(emitted: Seq<Emission>, k: int)
    ensures
        emitted.len() == 0 ==> engine::first_output(emitted).len() == 0,
        0 <= k < emitted.len() && (forall|j: int|
            0 <= j < emitted.len() ==> emitted[k].0 <= (#[trigger] emitted[j]).0)
            ==> engine::first_output(emitted) == emitted.filter(under(emitted[k].0)).map_values(
            token_in(),
        ),
{
    if emitted.len() == 0 {
        if exists|id: SeqId| engine::is_least(emitted, id) {
            let id = choose|id: SeqId| engine::is_least(emitted, id);
            lemma_tokens_were_emitted(emitted, id);
        }
    }
    if 0 <= k < emitted.len() && (forall|j: int|
        0 <= j < emitted.len() ==> emitted[k].0 <= (#[trigger] emitted[j]).0) {
        let id = emitted[k].0;
        lemma_emitted_is_collected(emitted, k);
        assert forall|o: SeqId| #[trigger]
            engine::tokens_of(emitted, o).len() > 0 implies id <= o by {
            lemma_tokens_were_emitted(emitted, o);
        }
        assert(engine::is_least(emitted, id));
        let least = choose|o: SeqId| engine::is_least(emitted, o);
        assert(engine::is_least(emitted, least));
        assert(engine::tokens_of(emitted, least).len() > 0);
        assert(least == id);
        law_tokens_are_sorted_by_request(emitted, id);
    }
}

} // verus!
