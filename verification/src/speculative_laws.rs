//! What speculative decoding promises.
use vstd::prelude::*;

use crate::arith::Ratio;
use crate::model::{Model, StepLogits, TokenId};
use crate::speculative::{SpeculationView, SpeculativeDecoder};
#[allow(unused_imports)]
use crate::{model, speculative};

verus! {

/// The shape of a round. At least one token is emitted and no more is accepted
/// than was drafted. The accepted proposals come first; the target's own token
/// follows them, unless they end the sequence. So a run of `k` proposals that is
/// accepted in full and goes on emits `k + 1` tokens.
pub proof fn law_round_shape<
    'a,
    D: Model + ?Sized,
    T: Model + ?Sized,
    A: Fn(&StepLogits, &StepLogits, TokenId, u64) -> bool,
>(dec: &SpeculativeDecoder<'a, D, T, A>, context: Seq<TokenId>, outcome: SpeculationView)
    requires
        dec.wf(),
        dec.may_step(context, outcome),
    ensures
        outcome.tokens.len() >= 1,
        outcome.accepted <= outcome.drafted,
        1 <= outcome.drafted <= dec.lookahead(),
        outcome.drafted == dec.run(context).len(),
        outcome.tokens.take(outcome.accepted as int) == dec.run(context).take(
            outcome.accepted as int,
        ),
        outcome.tokens.len() == outcome.accepted + 1 ==> outcome.tokens.last()
            == model::next_token(
            dec.target(),
            context + outcome.tokens.take(outcome.accepted as int),
        ),
        outcome.tokens.len() != outcome.accepted + 1 ==> outcome.tokens.len() == outcome.accepted
            && outcome.tokens.last() == dec.target().eos(),
{
    speculative::lemma_step_bounds(dec, context, outcome);
    let verdicts = choose|verdicts: Seq<bool>| #[trigger]
        dec.may_try(context, verdicts) && outcome == speculative::judged_run(
            dec.target(),
            context,
            dec.run(context),
            verdicts,
        );
    let n = speculative::accepted_by(verdicts) as int;
    let kept = dec.run(context).take(n);
    assert(outcome.tokens.take(n) =~= kept);
}

/// Whether every token is the target's greedy choice after those before it.
pub open spec fn is_greedy<T: Model + ?Sized>(
    target: &T,
    prompt: Seq<TokenId>,
    tokens: Seq<TokenId>,
) -> bool {
    forall|i: int|
        0 <= i < tokens.len() ==> #[trigger] tokens[i] == model::next_token(
            target,
            prompt + tokens.take(i),
        )
}

pub proof fn lemma_greedy_concat<T: Model + ?Sized>(
    target: &T,
    prompt: Seq<TokenId>,
    a: Seq<TokenId>,
    b: Seq<TokenId>,
)
    requires
        is_greedy(target, prompt, a),
        is_greedy(target, prompt + a, b),
    ensures
        is_greedy(target, prompt, a + b),
{
    let ab = a + b;
    assert forall|i: int| 0 <= i < ab.len() implies #[trigger] ab[i] == model::next_token(
        target,
        prompt + ab.take(i),
    ) by {
        if i < a.len() {
            assert(ab.take(i) =~= a.take(i));
            assert(a[i] == ab[i]);
        } else {
            let j = i - a.len();
            assert(b[j] == ab[i]);
            assert(prompt + ab.take(i) =~= (prompt + a) + b.take(j));
        }
    }
}

/// Whether, along the target's own continuation of a prompt, the acceptance test
/// accepts no proposal but the target's own token. Elsewhere it may answer as it
/// likes.
pub open spec fn accepts_only_target_tokens<
    'a,
    D: Model + ?Sized,
    T: Model + ?Sized,
    A: Fn(&StepLogits, &StepLogits, TokenId, u64) -> bool,
>(dec: &SpeculativeDecoder<'a, D, T, A>, prompt: Seq<TokenId>, max_new: nat) -> bool {
    forall|done: Seq<TokenId>, position: int|
        {
            &&& is_greedy(dec.target(), prompt, done)
            &&& done.len() < max_new
            &&& !done.contains(dec.target().eos())
            &&& 0 <= position < dec.run(prompt + done).len()
            &&& is_greedy(dec.target(), prompt + done, dec.run(prompt + done).take(position))
            &&& #[trigger] dec.may_answer(prompt + done, position, true)
        } ==> dec.run(prompt + done)[position] == model::next_token(
            dec.target(),
            prompt + done + dec.run(prompt + done).take(position),
        )
}

/// Under such a test, the proposals accepted after the target's own tokens are
/// the target's own.
proof fn lemma_accepted_are_greedy<
    'a,
    D: Model + ?Sized,
    T: Model + ?Sized,
    A: Fn(&StepLogits, &StepLogits, TokenId, u64) -> bool,
>(
    dec: &SpeculativeDecoder<'a, D, T, A>,
    prompt: Seq<TokenId>,
    max_new: nat,
    done: Seq<TokenId>,
    verdicts: Seq<bool>,
    n: int,
)
    requires
        accepts_only_target_tokens(dec, prompt, max_new),
        is_greedy(dec.target(), prompt, done),
        done.len() < max_new,
        !done.contains(dec.target().eos()),
        dec.may_try(prompt + done, verdicts),
        0 <= n <= speculative::accepted_by(verdicts),
    ensures
        is_greedy(dec.target(), prompt + done, dec.run(prompt + done).take(n)),
    decreases n,
{
    let run = dec.run(prompt + done);
    let kept = run.take(n);
    if n > 0 {
        lemma_accepted_are_greedy(dec, prompt, max_new, done, verdicts, n - 1);
        assert(verdicts[n - 1]);
        assert(dec.may_answer(prompt + done, n - 1, verdicts[n - 1]));
        assert forall|i: int| 0 <= i < kept.len() implies #[trigger] kept[i] == model::next_token(
            dec.target(),
            prompt + done + kept.take(i),
        ) by {
            assert(kept.take(i) =~= run.take(n - 1).take(i));
            if i < n - 1 {
                assert(run.take(n - 1)[i] == kept[i]);
            } else {
                assert(kept.take(i) =~= run.take(n - 1));
            }
        }
    }
}

proof fn lemma_round_is_greedy<
    'a,
    D: Model + ?Sized,
    T: Model + ?Sized,
    A: Fn(&StepLogits, &StepLogits, TokenId, u64) -> bool,
>(
    dec: &SpeculativeDecoder<'a, D, T, A>,
    prompt: Seq<TokenId>,
    max_new: nat,
    done: Seq<TokenId>,
    outcome: SpeculationView,
)
    requires
        accepts_only_target_tokens(dec, prompt, max_new),
        is_greedy(dec.target(), prompt, done),
        done.len() < max_new,
        !done.contains(dec.target().eos()),
        dec.may_step(prompt + done, outcome),
    ensures
        is_greedy(dec.target(), prompt + done, outcome.tokens),
{
    let context = prompt + done;
    let run = dec.run(context);
    let verdicts = choose|verdicts: Seq<bool>| #[trigger]
        dec.may_try(context, verdicts) && outcome == speculative::judged_run(
            dec.target(),
            context,
            run,
            verdicts,
        );
    let n = speculative::accepted_by(verdicts) as int;
    let kept = run.take(n);
    lemma_accepted_are_greedy(dec, prompt, max_new, done, verdicts, n);
    assert forall|i: int| 0 <= i < outcome.tokens.len() implies #[trigger] outcome.tokens[i]
        == model::next_token(dec.target(), context + outcome.tokens.take(i)) by {
        if i < n {
            assert(outcome.tokens.take(i) =~= kept.take(i));
            assert(kept[i] == outcome.tokens[i]);
        } else {
            assert(outcome.tokens.take(i) =~= kept);
        }
    }
}

proof fn lemma_rounds_are_greedy<
    'a,
    D: Model + ?Sized,
    T: Model + ?Sized,
    A: Fn(&StepLogits, &StepLogits, TokenId, u64) -> bool,
>(
    dec: &SpeculativeDecoder<'a, D, T, A>,
    prompt: Seq<TokenId>,
    max_new: nat,
    rounds: Seq<SpeculationView>,
    n: int,
)
    requires
        accepts_only_target_tokens(dec, prompt, max_new),
        dec.may_run(prompt, max_new, rounds),
        0 <= n <= rounds.len(),
    ensures
        is_greedy(dec.target(), prompt, speculative::text(rounds.take(n))),
    decreases n,
{
    reveal(SpeculativeDecoder::may_run);
    if n > 0 {
        lemma_rounds_are_greedy(dec, prompt, max_new, rounds, n - 1);
        let before = speculative::text(rounds.take(n - 1));
        assert(rounds.take(n).drop_last() =~= rounds.take(n - 1));
        assert(rounds.take(n).last() == rounds[n - 1]);
        lemma_round_is_greedy(dec, prompt, max_new, before, rounds[n - 1]);
        lemma_greedy_concat(dec.target(), prompt, before, rounds[n - 1].tokens);
    }
}

/// Greedy tokens that stop at the limit or at the end of the sequence are the
/// completion.
proof fn lemma_greedy_is_completion<T: Model + ?Sized>(
    target: &T,
    prompt: Seq<TokenId>,
    tokens: Seq<TokenId>,
    limit: nat,
    k: int,
)
    requires
        is_greedy(target, prompt, tokens),
        tokens.len() <= limit,
        forall|i: int| 0 <= i < tokens.len() - 1 ==> #[trigger] tokens[i] != target.eos(),
        tokens.len() == limit || (tokens.len() > 0 && tokens.last() == target.eos()),
        0 <= k <= tokens.len(),
        k < tokens.len() || tokens.len() == limit,
    ensures
        model::greedy_from(target, prompt, tokens.take(k), limit) == tokens,
    decreases tokens.len() - k,
{
    if k == tokens.len() {
        assert(tokens.take(k) =~= tokens);
    } else {
        assert(tokens[k] == model::next_token(target, prompt + tokens.take(k)));
        assert(tokens.take(k).push(tokens[k]) =~= tokens.take(k + 1));
        if tokens[k] == target.eos() {
            assert(k == tokens.len() - 1);
            assert(tokens.take(k + 1) =~= tokens);
        } else {
            lemma_greedy_is_completion(target, prompt, tokens, limit, k + 1);
        }
    }
}

/// Speculation is exact where only the target's own tokens are accepted along its
/// continuation of the prompt: the output is that of decoding the target alone,
/// token for token.
pub proof fn law_speculation_is_exact<
    'a,
    D: Model + ?Sized,
    T: Model + ?Sized,
    A: Fn(&StepLogits, &StepLogits, TokenId, u64) -> bool,
>(
    dec: &SpeculativeDecoder<'a, D, T, A>,
    prompt: Seq<TokenId>,
    max_new: nat,
    tokens: Seq<TokenId>,
    rate: Ratio,
)
    requires
        accepts_only_target_tokens(dec, prompt, max_new),
        dec.may_generate(prompt, max_new, tokens, rate),
    ensures
        tokens == model::completion(dec.target(), prompt, max_new),
{
    let rounds = choose|rounds: Seq<SpeculationView>|
        {
            &&& #[trigger] dec.may_run(prompt, max_new, rounds)
            &&& dec.is_output(rounds, max_new, tokens)
            &&& speculative::total_accepted(rounds) <= speculative::total_drafted(rounds)
                <= u128::MAX
            &&& rate == Ratio::spec_of(
                speculative::total_accepted(rounds) as u128,
                speculative::total_drafted(rounds) as u128,
            )
        };
    let whole = speculative::text(rounds);
    lemma_rounds_are_greedy(dec, prompt, max_new, rounds, rounds.len() as int);
    assert(rounds.take(rounds.len() as int) =~= rounds);
    assert forall|i: int| 0 <= i < tokens.len() implies #[trigger] tokens[i] == model::next_token(
        dec.target(),
        prompt + tokens.take(i),
    ) by {
        assert(tokens.take(i) =~= whole.take(i));
        assert(whole[i] == tokens[i]);
    }
    assert(tokens.take(0) =~= Seq::empty());
    lemma_greedy_is_completion(dec.target(), prompt, tokens, max_new, 0);
}

proof fn lemma_proposals_are_greedy<D: Model + ?Sized>(
    draft: &D,
    context: Seq<TokenId>,
    n: nat,
)
    ensures
        is_greedy(draft, context, speculative::proposals(draft, context, n)),
    decreases n,
{
    if n > 0 {
        let token = model::next_token(draft, context);
        let run = speculative::proposals(draft, context, n);
        let rest = speculative::proposals(draft, context.push(token), (n - 1) as nat);
        lemma_proposals_are_greedy(draft, context.push(token), (n - 1) as nat);
        assert forall|i: int| 0 <= i < run.len() implies #[trigger] run[i] == model::next_token(
            draft,
            context + run.take(i),
        ) by {
            if i == 0 {
                assert(context + run.take(0) =~= context);
            } else {
                assert(run[i] == rest[i - 1]);
                assert(context + run.take(i) =~= context.push(token) + rest.take(i - 1));
            }
        }
    }
}

/// With a draft that agrees with the target after the prompt, speculation is
/// exact whatever the acceptance test answers.
pub proof fn law_agreeing_draft_is_exact<
    'a,
    D: Model + ?Sized,
    T: Model + ?Sized,
    A: Fn(&StepLogits, &StepLogits, TokenId, u64) -> bool,
>(
    dec: &SpeculativeDecoder<'a, D, T, A>,
    prompt: Seq<TokenId>,
    max_new: nat,
    tokens: Seq<TokenId>,
    rate: Ratio,
)
    requires
        forall|more: Seq<TokenId>| #[trigger]
            model::next_token(dec.draft(), prompt + more) == model::next_token(
                dec.target(),
                prompt + more,
            ),
        dec.may_generate(prompt, max_new, tokens, rate),
    ensures
        tokens == model::completion(dec.target(), prompt, max_new),
{
    assert forall|done: Seq<TokenId>, position: int|
        {
            &&& is_greedy(dec.target(), prompt, done)
            &&& done.len() < max_new
            &&& !done.contains(dec.target().eos())
            &&& 0 <= position < dec.run(prompt + done).len()
            &&& is_greedy(dec.target(), prompt + done, dec.run(prompt + done).take(position))
            &&& #[trigger] dec.may_answer(prompt + done, position, true)
        } implies dec.run(prompt + done)[position] == model::next_token(
        dec.target(),
        prompt + done + dec.run(prompt + done).take(position),
    ) by {
        let run = dec.run(prompt + done);
        let more = done + run.take(position);
        lemma_proposals_are_greedy(dec.draft(), prompt + done, dec.lookahead());
        assert(prompt + done + run.take(position) =~= prompt + more);
        assert(run[position] == model::next_token(dec.draft(), prompt + more));
    }
    law_speculation_is_exact(dec, prompt, max_new, tokens, rate);
}

/// A context has one outcome.
proof fn lemma_round_is_repeatable<
    'a,
    D: Model + ?Sized,
    T: Model + ?Sized,
    A: Fn(&StepLogits, &StepLogits, TokenId, u64) -> bool,
>(
    dec: &SpeculativeDecoder<'a, D, T, A>,
    context: Seq<TokenId>,
    a: SpeculationView,
    b: SpeculationView,
)
    requires
        dec.wf(),
        dec.may_step(context, a),
        dec.may_step(context, b),
    ensures
        a == b,
{
    let run = dec.run(context);
    let v = choose|v: Seq<bool>| #[trigger]
        dec.may_try(context, v) && a == speculative::judged_run(dec.target(), context, run, v);
    let w = choose|w: Seq<bool>| #[trigger]
        dec.may_try(context, w) && b == speculative::judged_run(dec.target(), context, run, w);
    assert forall|i: int| 0 <= i < v.len() && i < w.len() implies #[trigger] v[i] == w[i] by {
        assert(dec.may_answer(context, i, v[i]));
        assert(dec.may_answer(context, i, w[i]));
    }
    if v.len() < w.len() {
        let last = v.len() - 1;
        assert(v[last] == w[last]);
    } else if w.len() < v.len() {
        let last = w.len() - 1;
        assert(v[last] == w[last]);
    }
    assert(v =~= w);
}

proof fn lemma_rounds_are_repeatable<
    'a,
    D: Model + ?Sized,
    T: Model + ?Sized,
    A: Fn(&StepLogits, &StepLogits, TokenId, u64) -> bool,
>(
    dec: &SpeculativeDecoder<'a, D, T, A>,
    prompt: Seq<TokenId>,
    max_new: nat,
    a: Seq<SpeculationView>,
    b: Seq<SpeculationView>,
    n: int,
)
    requires
        dec.wf(),
        dec.may_run(prompt, max_new, a),
        dec.may_run(prompt, max_new, b),
        0 <= n <= a.len(),
        n <= b.len(),
    ensures
        a.take(n) == b.take(n),
    decreases n,
{
    reveal(SpeculativeDecoder::may_run);
    if n > 0 {
        lemma_rounds_are_repeatable(dec, prompt, max_new, a, b, n - 1);
        let before = speculative::text(a.take(n - 1));
        assert(dec.may_step(prompt + before, a[n - 1]));
        assert(dec.may_step(prompt + before, b[n - 1]));
        lemma_round_is_repeatable(dec, prompt + before, a[n - 1], b[n - 1]);
        assert(a.take(n) =~= a.take(n - 1).push(a[n - 1]));
        assert(b.take(n) =~= b.take(n - 1).push(b[n - 1]));
    } else {
        assert(a.take(n) =~= b.take(n));
    }
}

/// A run that has produced its output does not go on.
proof fn lemma_output_ends_the_run<
    'a,
    D: Model + ?Sized,
    T: Model + ?Sized,
    A: Fn(&StepLogits, &StepLogits, TokenId, u64) -> bool,
>(
    dec: &SpeculativeDecoder<'a, D, T, A>,
    prompt: Seq<TokenId>,
    max_new: nat,
    rounds: Seq<SpeculationView>,
    tokens: Seq<TokenId>,
    longer: Seq<SpeculationView>,
)
    requires
        dec.is_output(rounds, max_new, tokens),
        dec.may_run(prompt, max_new, longer),
        rounds.len() <= longer.len(),
        longer.take(rounds.len() as int) == rounds,
    ensures
        longer.len() == rounds.len(),
{
    reveal(SpeculativeDecoder::may_run);
    let n = rounds.len() as int;
    let whole = speculative::text(rounds);
    if n < longer.len() {
        assert(dec.may_step(prompt + speculative::text(longer.take(n)), longer[n]));
        if tokens.len() < max_new {
            let last = tokens.len() - 1;
            assert(tokens[last] == dec.target().eos());
            assert(whole[last] == tokens[last]);
            assert(whole.contains(dec.target().eos()));
        }
    }
}

/// Speculation is reproducible: a prompt has one output and one acceptance rate.
pub proof fn law_speculation_is_repeatable<
    'a,
    D: Model + ?Sized,
    T: Model + ?Sized,
    A: Fn(&StepLogits, &StepLogits, TokenId, u64) -> bool,
>(
    dec: &SpeculativeDecoder<'a, D, T, A>,
    prompt: Seq<TokenId>,
    max_new: nat,
    tokens_a: Seq<TokenId>,
    rate_a: Ratio,
    tokens_b: Seq<TokenId>,
    rate_b: Ratio,
)
    requires
        dec.wf(),
        dec.may_generate(prompt, max_new, tokens_a, rate_a),
        dec.may_generate(prompt, max_new, tokens_b, rate_b),
    ensures
        tokens_a == tokens_b,
        rate_a == rate_b,
{
    let a = choose|rounds: Seq<SpeculationView>|
        {
            &&& #[trigger] dec.may_run(prompt, max_new, rounds)
            &&& dec.is_output(rounds, max_new, tokens_a)
            &&& speculative::total_accepted(rounds) <= speculative::total_drafted(rounds)
                <= u128::MAX
            &&& rate_a == Ratio::spec_of(
                speculative::total_accepted(rounds) as u128,
                speculative::total_drafted(rounds) as u128,
            )
        };
    let b = choose|rounds: Seq<SpeculationView>|
        {
            &&& #[trigger] dec.may_run(prompt, max_new, rounds)
            &&& dec.is_output(rounds, max_new, tokens_b)
            &&& speculative::total_accepted(rounds) <= speculative::total_drafted(rounds)
                <= u128::MAX
            &&& rate_b == Ratio::spec_of(
                speculative::total_accepted(rounds) as u128,
                speculative::total_drafted(rounds) as u128,
            )
        };
    let n = if a.len() < b.len() {
        a.len() as int
    } else {
        b.len() as int
    };
    lemma_rounds_are_repeatable(dec, prompt, max_new, a, b, n);
    if a.len() < b.len() {
        assert(a.take(n) =~= a);
        lemma_output_ends_the_run(dec, prompt, max_new, a, tokens_a, b);
    }
    if b.len() < a.len() {
        assert(b.take(n) =~= b);
        lemma_output_ends_the_run(dec, prompt, max_new, b, tokens_b, a);
    }
    assert(a.take(n) =~= a);
    assert(b.take(n) =~= b);
    let whole = speculative::text(a);
    if tokens_a.len() < tokens_b.len() {
        let last = tokens_a.len() - 1;
        assert(tokens_b[last] == whole[last]);
        assert(tokens_a[last] == whole[last]);
    }
    if tokens_b.len() < tokens_a.len() {
        let last = tokens_b.len() - 1;
        assert(tokens_b[last] == whole[last]);
        assert(tokens_a[last] == whole[last]);
    }
}

} // verus!
