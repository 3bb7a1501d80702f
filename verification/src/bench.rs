//! The benchmark workload: the same requests served one at a time, by
//! continuous batching, and speculatively.
use std::sync::Arc;
use vstd::prelude::*;

use crate::arith::Ratio;
use crate::engine::{Emission, Engine, GenerationOutput, MAX_STEPS};
use crate::model::{Model, StepLogits, TokenId};
use crate::paged_cache::{CacheView, PagedKVCache, SeqId};
use crate::policy::{SchedView, SeqView};
use crate::scheduler::SchedulerConfig;
#[allow(unused_imports)]
use crate::scheduler::SeqState;
use crate::server::share;
use crate::speculative::SpeculativeDecoder;
#[allow(unused_imports)]
use crate::{arith, engine, engine_laws, model, paged_cache, policy, round_laws, scheduler_laws};

verus! {

pub const NUM_REQUESTS: usize = 64;

pub const PROMPT_LEN: usize = 16;

pub const MAX_NEW: usize = 64;

/// The prompt of a request.
pub open spec fn prompt_of(i: nat) -> Seq<TokenId> {
    Seq::new(PROMPT_LEN as nat, |j: int| ((i * 7 + j * 3) % 200 + 1) as TokenId)
}

/// The prompt of a request.
pub fn prompt(i: usize) -> (r: Vec<TokenId>)
    requires
        i * 7 + PROMPT_LEN * 3 <= usize::MAX,
    ensures
        r@ == prompt_of(i as nat),
{
    let mut tokens: Vec<TokenId> = Vec::new();
    let mut j: usize = 0;
    while j < PROMPT_LEN
        invariant
            i * 7 + PROMPT_LEN * 3 <= usize::MAX,
            j <= PROMPT_LEN,
            tokens@.len() == j,
            forall|k: int|
                0 <= k < j ==> #[trigger] tokens@[k] == ((i * 7 + k * 3) % 200 + 1) as TokenId,
        decreases PROMPT_LEN - j,
    {
        tokens.push(((i * 7 + j * 3) % 200 + 1) as TokenId);
        j = j + 1;
    }
    assert(tokens@ =~= prompt_of(i as nat));
    tokens
}

/// The scheduler of a fresh engine.
pub open spec fn idle(blocks: nat, max_batch: nat) -> SchedView {
    SchedView {
        max_batch,
        cache: CacheView::fresh(blocks, 16),
        waiting: Seq::empty(),
        running: Seq::empty(),
    }
}

/// A request of the workload.
pub open spec fn request(i: nat) -> SeqView {
    SeqView::fresh(i as SeqId, prompt_of(i), MAX_NEW as nat)
}

/// The scheduler with the first `n` requests of the workload submitted.
pub open spec fn loaded(s: SchedView, n: nat) -> SchedView
    decreases n,
{
    if n == 0 {
        s
    } else {
        loaded(s, (n - 1) as nat).submit(request((n - 1) as nat))
    }
}

/// The tokens generated for the first `n` requests, one engine each.
pub open spec fn sequential_total<M: Model + ?Sized>(model: &M, n: nat) -> nat
    decreases n,
{
    if n == 0 {
        0
    } else {
        sequential_total(model, (n - 1) as nat) + engine::run_emits(
            model,
            idle(256, 1).submit(request((n - 1) as nat)),
            MAX_STEPS as nat,
        ).len()
    }
}

/// The lengths of some outputs together.
pub open spec fn total_len(outputs: Seq<GenerationOutput>) -> nat
    decreases outputs.len(),
{
    if outputs.len() == 0 {
        0
    } else {
        total_len(outputs.drop_last()) + outputs.last().tokens@.len()
    }
}

/// How many of some emissions go to requests of a list.
spec fn count_for(emitted: Seq<Emission>, ids: Seq<SeqId>) -> nat
    decreases ids.len(),
{
    if ids.len() == 0 {
        0
    } else {
        count_for(emitted, ids.drop_last()) + engine::tokens_of(emitted, ids.last()).len()
    }
}

proof fn lemma_count_last(emitted: Seq<Emission>, ids: Seq<SeqId>)
    requires
        emitted.len() > 0,
        ids.no_duplicates(),
    ensures
        count_for(emitted, ids) == count_for(emitted.drop_last(), ids) + if ids.contains(
            emitted.last().0,
        ) {
            1nat
        } else {
            0
        },
    decreases ids.len(),
{
    if ids.len() > 0 {
        let front = ids.drop_last();
        let n = front.len() as int;
        let id = emitted.last().0;
        lemma_count_last(emitted, front);
        if front.contains(id) {
            let i = front.index_of(id);
            assert(ids[i] == id);
            assert(ids[i] != ids[n]);
        } else if ids.last() == id {
            assert(ids[n] == id);
        } else if ids.contains(id) {
            let i = ids.index_of(id);
            assert(front[i] == id);
        }
    }
}

proof fn lemma_count_none(ids: Seq<SeqId>)
    ensures
        count_for(Seq::empty(), ids) == 0,
    decreases ids.len(),
{
    if ids.len() > 0 {
        lemma_count_none(ids.drop_last());
    }
}

/// A list of all requests that anything was emitted for counts every emission.
proof fn lemma_count_all(emitted: Seq<Emission>, ids: Seq<SeqId>)
    requires
        ids.no_duplicates(),
        forall|k: int| 0 <= k < emitted.len() ==> ids.contains((#[trigger] emitted[k]).0),
    ensures
        count_for(emitted, ids) == emitted.len(),
    decreases emitted.len(),
{
    if emitted.len() == 0 {
        lemma_count_none(ids);
        assert(emitted =~= Seq::empty());
    } else {
        let front = emitted.drop_last();
        assert forall|k: int| 0 <= k < front.len() implies ids.contains(
            (#[trigger] front[k]).0,
        ) by {
            assert(front[k] == emitted[k]);
        }
        lemma_count_all(front, ids);
        lemma_count_last(emitted, ids);
        let last = emitted.len() - 1;
        assert(emitted[last] == emitted.last());
    }
}

proof fn lemma_emitted_has_tokens(emitted: Seq<Emission>, k: int)
    requires
        0 <= k < emitted.len(),
    ensures
        engine::tokens_of(emitted, emitted[k].0).len() > 0,
    decreases emitted.len(),
{
    if k < emitted.len() - 1 {
        lemma_emitted_has_tokens(emitted.drop_last(), k);
    }
}

proof fn lemma_total_is_count(
    outputs: Seq<GenerationOutput>,
    emitted: Seq<Emission>,
    ids: Seq<SeqId>,
    n: int,
)
    requires
        engine::collects(outputs, emitted),
        0 <= n <= outputs.len(),
        ids.len() == outputs.len(),
        forall|i: int| 0 <= i < ids.len() ==> #[trigger] ids[i] == outputs[i].id,
    ensures
        total_len(outputs.take(n)) == count_for(emitted, ids.take(n)),
    decreases n,
{
    if n > 0 {
        assert(outputs.take(n).drop_last() =~= outputs.take(n - 1));
        assert(outputs.take(n).last() == outputs[n - 1]);
        assert(ids.take(n).drop_last() =~= ids.take(n - 1));
        assert(ids.take(n).last() == ids[n - 1]);
        lemma_total_is_count(outputs, emitted, ids, n - 1);
    }
}

/// The outputs of a run hold every token that it emitted.
proof fn lemma_outputs_hold_everything(outputs: Seq<GenerationOutput>, emitted: Seq<Emission>)
    requires
        engine::collects(outputs, emitted),
    ensures
        total_len(outputs) == emitted.len(),
{
    let n = outputs.len() as int;
    let ids = Seq::new(outputs.len(), |i: int| outputs[i].id);
    assert(outputs.take(n) =~= outputs);
    assert(ids.take(n) =~= ids);
    lemma_total_is_count(outputs, emitted, ids, n);
    assert forall|k: int| 0 <= k < emitted.len() implies ids.contains(
        (#[trigger] emitted[k]).0,
    ) by {
        lemma_emitted_has_tokens(emitted, k);
        let i = choose|i: int|
            0 <= i < outputs.len() && (#[trigger] outputs[i]).id == emitted[k].0;
        assert(ids[i] == emitted[k].0);
    }
    assert forall|i: int, j: int|
        0 <= i < ids.len() && 0 <= j < ids.len() && i != j implies ids[i] != ids[j] by {
        if i < j {
            assert(outputs[i].id < outputs[j].id);
        } else {
            assert(outputs[j].id < outputs[i].id);
        }
    }
    lemma_count_all(emitted, ids);
}

proof fn lemma_total_len_prefix(outputs: Seq<GenerationOutput>, n: int)
    requires
        0 <= n <= outputs.len(),
    ensures
        total_len(outputs.take(n)) <= total_len(outputs),
    decreases outputs.len(),
{
    if n < outputs.len() {
        lemma_total_len_prefix(outputs.drop_last(), n);
        assert(outputs.drop_last().take(n) =~= outputs.take(n));
    } else {
        assert(outputs.take(n) =~= outputs);
    }
}

proof fn lemma_decode_sizes<M: Model + ?Sized>(model: &M, s: SchedView, batch: Seq<SeqId>)
    ensures
        engine::decoded(model, s, batch).len() == batch.len(),
        engine::after_decode(model, s, batch).running.len() == s.running.len(),
        engine::after_decode(model, s, batch).max_batch == s.max_batch,
    decreases batch.len(),
{
    if batch.len() > 0 {
        lemma_decode_sizes(model, s, batch.drop_last());
        let before = engine::after_decode(model, s, batch.drop_last());
        if policy::has_id(before.running, batch.last()) {
            policy::lemma_position(before.running, batch.last());
        }
    }
}

/// An iteration emits at most one token per slot of the batch.
proof fn lemma_run_emits_bound<M: Model + ?Sized>(model: &M, s: SchedView, fuel: nat)
    requires
        s.running.len() <= s.max_batch,
    ensures
        engine::run_emits(model, s, fuel).len() <= fuel * s.max_batch,
    decreases fuel,
{
    if fuel > 0 && s.has_work() {
        policy::lemma_batch_limit(s);
        lemma_decode_sizes(model, s.after_schedule(), s.plan().decode_batch);
        lemma_run_emits_bound(model, engine::after_step(model, s), (fuel - 1) as nat);
        let b = s.max_batch;
        assert(fuel * b == (fuel - 1) * b + b) by (nonlinear_arith)
            requires
                fuel > 0,
        ;
    } else {
        assert(0 <= fuel * s.max_batch) by (nonlinear_arith);
    }
}

/// The number of tokens in some outputs.
fn count_tokens(outputs: &Vec<GenerationOutput>) -> (r: usize)
    requires
        total_len(outputs@) <= usize::MAX,
    ensures
        r == total_len(outputs@),
{
    let mut total: usize = 0;
    let mut i: usize = 0;
    assert(outputs@.take(0) =~= Seq::empty());
    while i < outputs.len()
        invariant
            i <= outputs@.len(),
            total_len(outputs@) <= usize::MAX,
            total == total_len(outputs@.take(i as int)),
        decreases outputs@.len() - i,
    {
        proof {
            assert(outputs@.take(i + 1).drop_last() =~= outputs@.take(i as int));
            lemma_total_len_prefix(outputs@, i + 1);
        }
        total = total + outputs[i].tokens.len();
        i = i + 1;
    }
    assert(outputs@.take(i as int) =~= outputs@);
    total
}

/// Serve the workload sequentially: a fresh engine per request, batch size 1.
/// Returns the number of tokens generated.
pub fn run_sequential<M: Model + ?Sized>(model: &Arc<M>) -> (r: usize)
    requires
        forall|i: nat| i < NUM_REQUESTS ==> model::serves(&**model, #[trigger] prompt_of(i)),
    ensures
        r == sequential_total(&**model, NUM_REQUESTS as nat),
{
    let mut total: usize = 0;
    let mut i: usize = 0;
    while i < NUM_REQUESTS
        invariant
            forall|k: nat| k < NUM_REQUESTS ==> model::serves(&**model, #[trigger] prompt_of(k)),
            i <= NUM_REQUESTS,
            total == sequential_total(&**model, i as nat),
            total <= i * MAX_STEPS,
        decreases NUM_REQUESTS - i,
    {
        let mut eng = Engine::new(
            share(model),
            SchedulerConfig { max_batch_size: 1 },
            PagedKVCache::new(256, 16),
        );
        assert(model::serves(&**model, prompt_of(i as nat)));
        eng.submit(i as u64, prompt(i), MAX_NEW);
        let ghost start = eng@;
        assert(start == idle(256, 1).submit(request(i as nat)));
        let outputs = eng.run_to_completion();
        proof {
            let emitted = engine::run_emits(&**model, start, MAX_STEPS as nat);
            lemma_outputs_hold_everything(outputs@, emitted);
            lemma_run_emits_bound(&**model, start, MAX_STEPS as nat);
        }
        total = total + count_tokens(&outputs);
        i = i + 1;
    }
    total
}

/// Serve the workload by continuous batching: one engine, all requests submitted
/// up front, batch size 16. Returns the number of tokens generated and the
/// largest number of cache blocks ever in use at once.
pub fn run_continuous<M: Model + ?Sized>(model: &Arc<M>) -> (r: (usize, usize))
    requires
        forall|i: nat| i < NUM_REQUESTS ==> model::serves(&**model, #[trigger] prompt_of(i)),
    ensures
        r.0 == engine::run_emits(
            &**model,
            loaded(idle(2048, 16), NUM_REQUESTS as nat),
            MAX_STEPS as nat,
        ).len(),
        r.1 == engine::after_run(
            &**model,
            loaded(idle(2048, 16), NUM_REQUESTS as nat),
            MAX_STEPS as nat,
        ).cache.peak,
{
    let mut eng = Engine::new(
        share(model),
        SchedulerConfig { max_batch_size: 16 },
        PagedKVCache::new(2048, 16),
    );
    let mut i: usize = 0;
    while i < NUM_REQUESTS
        invariant
            forall|k: nat| k < NUM_REQUESTS ==> model::serves(&**model, #[trigger] prompt_of(k)),
            i <= NUM_REQUESTS,
            eng.wf(),
            eng.model() == *model,
            eng@ == loaded(idle(2048, 16), i as nat),
            eng@.running.len() == 0,
            eng@.max_batch == 16,
        decreases NUM_REQUESTS - i,
    {
        assert(model::serves(&**model, prompt_of(i as nat)));
        eng.submit(i as u64, prompt(i), MAX_NEW);
        i = i + 1;
    }
    let ghost start = eng@;
    let outputs = eng.run_to_completion();
    proof {
        let emitted = engine::run_emits(&**model, start, MAX_STEPS as nat);
        lemma_outputs_hold_everything(outputs@, emitted);
        lemma_run_emits_bound(&**model, start, MAX_STEPS as nat);
    }
    let total: usize = count_tokens(&outputs);
    let peak: usize = eng.scheduler_mut().cache().peak_blocks();
    (total, peak)
}

/// The lengths of some token lists together.
pub open spec fn lengths(outputs: Seq<Seq<TokenId>>) -> nat
    decreases outputs.len(),
{
    if outputs.len() == 0 {
        0
    } else {
        lengths(outputs.drop_last()) + outputs.last().len()
    }
}

/// Whether serving the workload speculatively may give outputs at acceptance
/// rates.
pub open spec fn may_speculate<
    'a,
    D: Model + ?Sized,
    T: Model + ?Sized,
    A: Fn(&StepLogits, &StepLogits, TokenId, u64) -> bool,
>(
    dec: &SpeculativeDecoder<'a, D, T, A>,
    outputs: Seq<Seq<TokenId>>,
    rates: Seq<Ratio>,
) -> bool {
    &&& outputs.len() == rates.len()
    &&& forall|i: int|
        0 <= i < outputs.len() ==> dec.may_generate(
            prompt_of(i as nat),
            MAX_NEW as nat,
            #[trigger] outputs[i],
            rates[i],
        )
}

/// Serve the workload speculatively, one request at a time. Returns the number
/// of tokens generated and the acceptance rate of each request.
pub fn run_speculative<
    'a,
    D: Model + ?Sized,
    T: Model + ?Sized,
    A: Fn(&StepLogits, &StepLogits, TokenId, u64) -> bool,
>(dec: &SpeculativeDecoder<'a, D, T, A>) -> (r: (usize, Vec<Ratio>))
    requires
        dec.wf(),
        forall|i: nat| i < NUM_REQUESTS ==> dec.serves(#[trigger] prompt_of(i)),
    ensures
        r.1@.len() == NUM_REQUESTS,
        exists|outputs: Seq<Seq<TokenId>>| #[trigger]
            may_speculate(dec, outputs, r.1@) && r.0 == lengths(outputs),
{
    let mut total: usize = 0;
    let mut rates: Vec<Ratio> = Vec::new();
    let ghost mut outputs: Seq<Seq<TokenId>> = Seq::empty();
    let mut i: usize = 0;
    while i < NUM_REQUESTS
        invariant
            dec.wf(),
                forall|k: nat| k < NUM_REQUESTS ==> dec.serves(#[trigger] prompt_of(k)),
            i <= NUM_REQUESTS,
            rates@.len() == i,
            outputs.len() == i,
            may_speculate(dec, outputs, rates@),
            total == lengths(outputs),
            total <= i * MAX_NEW,
        decreases NUM_REQUESTS - i,
    {
        assert(dec.serves(prompt_of(i as nat)));
        let (tokens, rate) = dec.generate(prompt(i).as_slice(), MAX_NEW);
        let ghost before = outputs;
        proof {
            outputs = outputs.push(tokens@);
            assert(outputs.drop_last() =~= before);
            assert(forall|k: int| 0 <= k < before.len() ==> before[k] == #[trigger] outputs[k]);
        }
        total = total + tokens.len();
        rates.push(rate);
        i = i + 1;
    }
    proof {
        assert(exists|o: Seq<Seq<TokenId>>| #[trigger]
            may_speculate(dec, o, rates@) && total == lengths(o));
    }
    (total, rates)
}

/// The tokens that the first `n` requests are owed, together.
pub open spec fn owed_total<M: Model + ?Sized>(model: &M, n: nat) -> nat
    decreases n,
{
    if n == 0 {
        0
    } else {
        owed_total(model, (n - 1) as nat) + model::completion(
            model,
            prompt_of((n - 1) as nat),
            MAX_NEW as nat,
        ).len()
    }
}

proof fn lemma_idle_progress<M: Model + ?Sized>(model: &M, blocks: nat, max_batch: nat)
    requires
        0 < max_batch,
        5 <= blocks,
        blocks * 16 <= usize::MAX,
    ensures
        engine_laws::can_progress(model, idle(blocks, max_batch)),
        engine_laws::work(model, idle(blocks, max_batch)) == 0,
        forall|id: SeqId| !(#[trigger] idle(blocks, max_batch).has(id)),
{
    paged_cache::lemma_fresh_wf(blocks, 16);
    engine_laws::law_fresh_can_progress(model, max_batch, CacheView::fresh(blocks, 16));
}

/// A request of the workload, with its completion, takes five blocks at most.
proof fn lemma_request_fits<M: Model + ?Sized>(model: &M, i: nat)
    ensures
        arith::ceil_div(
            prompt_of(i).len() + model::completion(model, prompt_of(i), MAX_NEW as nat).len(),
            16,
        ) <= 5,
        model::completion(model, prompt_of(i), MAX_NEW as nat).len() <= MAX_NEW,
{
    let c = model::completion(model, prompt_of(i), MAX_NEW as nat);
    engine_laws::law_completion_shape(model, prompt_of(i), MAX_NEW as nat);
    arith::lemma_ceil_div_unique(80, 16, 5);
    arith::lemma_ceil_div_monotone(prompt_of(i).len() + c.len(), 80, 16);
}

proof fn lemma_sequential_total<M: Model + ?Sized>(model: &M, n: nat)
    requires
        n <= NUM_REQUESTS,
    ensures
        sequential_total(model, n) == owed_total(model, n),
    decreases n,
{
    if n > 0 {
        let i = (n - 1) as nat;
        let id = i as SeqId;
        let s = idle(256, 1).submit(request(i));
        let emitted = engine::run_emits(model, s, MAX_STEPS as nat);
        let ids = seq![id];
        lemma_sequential_total(model, i);
        lemma_idle_progress(model, 256, 1);
        lemma_request_fits(model, i);
        engine_laws::law_submit_keeps_progress(
            model,
            idle(256, 1),
            id,
            prompt_of(i),
            MAX_NEW as nat,
        );
        engine_laws::law_every_request_is_answered(model, s, MAX_STEPS as nat);
        assert(s.request(id).output + engine::tokens_of(emitted, id) =~= engine::tokens_of(
            emitted,
            id,
        ));
        assert forall|k: int| 0 <= k < emitted.len() implies ids.contains(
            (#[trigger] emitted[k]).0,
        ) by {
            lemma_emitted_has_tokens(emitted, k);
            assert(ids[0] == id);
            let other = emitted[k].0;
            if other != id {
                scheduler_laws::law_submit_is_coherent(idle(256, 1), request(i));
                assert(s.has(other) == idle(256, 1).has(other));
            }
        }
        lemma_count_all(emitted, ids);
        assert(ids.drop_last() =~= Seq::empty());
        assert(count_for(emitted, ids.drop_last()) == 0);
    }
}

/// The scheduler with the first requests loaded: it can progress, and knows
/// these requests and no others.
proof fn lemma_loaded<M: Model + ?Sized>(model: &M, n: nat)
    requires
        n <= NUM_REQUESTS,
    ensures
        engine_laws::can_progress(model, loaded(idle(2048, 16), n)),
        engine_laws::work(model, loaded(idle(2048, 16), n)) <= n * (MAX_NEW + 1),
        loaded(idle(2048, 16), n).cache == idle(2048, 16).cache,
        forall|id: SeqId| #[trigger] loaded(idle(2048, 16), n).has(id) == (id < n),
        forall|id: SeqId|
            id < n ==> #[trigger] loaded(idle(2048, 16), n).request(id) == request(id as nat),
    decreases n,
{
    lemma_idle_progress(model, 2048, 16);
    if n > 0 {
        let i = (n - 1) as nat;
        let before = loaded(idle(2048, 16), i);
        let s = loaded(idle(2048, 16), n);
        lemma_loaded(model, i);
        lemma_request_fits(model, i);
        engine_laws::law_submit_keeps_progress(
            model,
            before,
            i as SeqId,
            prompt_of(i),
            MAX_NEW as nat,
        );
        scheduler_laws::law_submit_is_coherent(before, request(i));
        assert forall|id: SeqId| #[trigger] s.has(id) == (id < n) by {
            if id != i {
                assert(s.has(id) == before.has(id));
            }
        }
        assert forall|id: SeqId| id < n implies #[trigger] s.request(id) == request(id as nat) by {
            if id != i {
                assert(s.has(id) == before.has(id));
                assert(before.request(id) == request(id as nat));
            }
        }
    }
}

/// The workload: 64 prompts of sixteen tokens that step by three and start seven
/// further from one request to the next, around 200 tokens of which none is the
/// end of the sequence. A request asks for 64 tokens under its number.
pub proof fn law_workload_is_fixed(i: nat, j: int)
    requires
        i <= u64::MAX,
        0 <= j < 16,
    ensures
        NUM_REQUESTS == 64,
        prompt_of(i).len() == 16,
        prompt_of(i)[j] == (7 * i + 3 * j) % 200 + 1,
        1 <= prompt_of(i)[j] <= 200,
        request(i).id == i,
        request(i).prompt == prompt_of(i),
        request(i).output.len() == 0,
        request(i).limit == 64,
        request(i).state == SeqState::Waiting,
{
}

/// Loading submits the requests in order and touches nothing else.
pub proof fn law_loading_submits_in_order(s: SchedView, n: nat)
    ensures
        loaded(s, n).max_batch == s.max_batch,
        loaded(s, n).cache == s.cache,
        loaded(s, n).running == s.running,
        loaded(s, n).waiting == s.waiting + Seq::new(n, |i: int| request(i as nat)),
    decreases n,
{
    if n > 0 {
        law_loading_submits_in_order(s, (n - 1) as nat);
    }
    assert(loaded(s, n).waiting =~= s.waiting + Seq::new(n, |i: int| request(i as nat)));
}

/// A fresh engine of the benchmark: blocks of sixteen slots, all of them free.
pub proof fn law_bench_engine_is_empty(blocks: nat, max_batch: nat)
    ensures
        idle(blocks, max_batch).max_batch == max_batch,
        idle(blocks, max_batch).cache.num_blocks == blocks,
        idle(blocks, max_batch).cache.block_size == 16,
        idle(blocks, max_batch).cache.free.len() == blocks,
        idle(blocks, max_batch).cache.peak == 0,
        forall|s: SeqId| !(#[trigger] idle(blocks, max_batch).cache.tables.contains_key(s)),
        idle(blocks, max_batch).waiting.len() == 0,
        idle(blocks, max_batch).running.len() == 0,
{
}

/// The totals count every token: lengths add up list by list, and serving one
/// request more adds what its own engine emits.
pub proof fn law_totals_add_up<M: Model + ?Sized>(
    model: &M,
    n: nat,
    outputs: Seq<GenerationOutput>,
    output: GenerationOutput,
    lists: Seq<Seq<TokenId>>,
    list: Seq<TokenId>,
)
    ensures
        total_len(Seq::empty()) == 0,
        total_len(outputs.push(output)) == total_len(outputs) + output.tokens@.len(),
        lengths(Seq::empty()) == 0,
        lengths(lists.push(list)) == lengths(lists) + list.len(),
        lengths(lists) == lists.flatten().len(),
        sequential_total(model, 0) == 0,
        sequential_total(model, n + 1) == sequential_total(model, n) + engine::run_emits(
            model,
            idle(256, 1).submit(request(n)),
            1_000_000,
        ).len(),
{
    assert(outputs.push(output).drop_last() =~= outputs);
    assert(lists.push(list).drop_last() =~= lists);
    lemma_lengths(lists);
}

proof fn lemma_lengths(lists: Seq<Seq<TokenId>>)
    ensures
        lengths(lists) == lists.flatten().len(),
    decreases lists.len(),
{
    lists.lemma_flatten_and_flatten_alt_are_equivalent();
    if lists.len() > 0 {
        lemma_lengths(lists.drop_last());
        lists.drop_last().lemma_flatten_and_flatten_alt_are_equivalent();
    }
}

/// Speculation serves each prompt of the workload in turn, 64 tokens at most: no
/// output is longer, and a shorter one ends with the end of the sequence.
pub proof fn law_speculation_serves_each_prompt<
    'a,
    D: Model + ?Sized,
    T: Model + ?Sized,
    A: Fn(&StepLogits, &StepLogits, TokenId, u64) -> bool,
>(
    dec: &SpeculativeDecoder<'a, D, T, A>,
    outputs: Seq<Seq<TokenId>>,
    rates: Seq<Ratio>,
    i: int,
)
    requires
        may_speculate(dec, outputs, rates),
        0 <= i < outputs.len(),
    ensures
        outputs.len() == rates.len(),
        dec.may_generate(prompt_of(i as nat), 64, outputs[i], rates[i]),
        outputs[i].len() <= 64,
        outputs[i].len() < 64 ==> outputs[i].len() > 0 && outputs[i].last() == dec.target().eos(),
{
    round_laws::law_generation_is_rounds(dec, prompt_of(i as nat), 64, outputs[i], rates[i]);
}

/// Both schedules generate what the requests are owed: serving one request at a
/// time and batching them give the same number of tokens.
pub proof fn law_both_schedules_serve_the_workload<M: Model + ?Sized>(model: &M)
    ensures
        sequential_total(model, NUM_REQUESTS as nat) == owed_total(model, NUM_REQUESTS as nat),
        engine::run_emits(
            model,
            loaded(idle(2048, 16), NUM_REQUESTS as nat),
            MAX_STEPS as nat,
        ).len() == owed_total(model, NUM_REQUESTS as nat),
{
    let count = NUM_REQUESTS as nat;
    let s = loaded(idle(2048, 16), count);
    let emitted = engine::run_emits(model, s, MAX_STEPS as nat);
    let ids = Seq::new(count, |i: int| i as SeqId);
    lemma_sequential_total(model, count);
    lemma_loaded(model, count);
    engine_laws::law_every_request_is_answered(model, s, MAX_STEPS as nat);
    assert forall|k: int| 0 <= k < emitted.len() implies ids.contains(
        (#[trigger] emitted[k]).0,
    ) by {
        lemma_emitted_has_tokens(emitted, k);
        let id = emitted[k].0;
        assert(s.has(id) == (id < count));
        assert(ids[id as int] == id);
    }
    lemma_count_all(emitted, ids);
    lemma_count_owed(model, s, emitted, ids, count);
    assert(ids.take(count as int) =~= ids);
}

proof fn lemma_count_owed<M: Model + ?Sized>(
    model: &M,
    s: SchedView,
    emitted: Seq<Emission>,
    ids: Seq<SeqId>,
    n: nat,
)
    requires
        n <= ids.len() <= NUM_REQUESTS,
        ids == Seq::new(ids.len(), |i: int| i as SeqId),
        forall|id: SeqId| id < ids.len() ==> #[trigger] s.request(id) == request(id as nat),
        forall|id: SeqId|
            id < ids.len() ==> s.request(id).output + #[trigger] engine::tokens_of(emitted, id)
                == engine_laws::owed(model, s.request(id)),
    ensures
        count_for(emitted, ids.take(n as int)) == owed_total(model, n),
    decreases n,
{
    if n > 0 {
        let i = (n - 1) as nat;
        let id = i as SeqId;
        lemma_count_owed(model, s, emitted, ids, i);
        assert(ids.take(n as int).drop_last() =~= ids.take(i as int));
        assert(ids[i as int] == id);
        assert(s.request(id) == request(i));
        assert(s.request(id).output + engine::tokens_of(emitted, id) =~= engine::tokens_of(
            emitted,
            id,
        ));
    }
}

} // verus!
