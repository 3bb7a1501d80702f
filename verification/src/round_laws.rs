//! What the rounds of speculative decoding are made of, and what a generation
//! makes of the rounds.
use vstd::prelude::*;

use crate::arith::Ratio;
use crate::model::{Model, StepLogits, TokenId};
use crate::speculative::{SpeculationView, SpeculativeDecoder};
#[allow(unused_imports)]
use crate::{arith, model, speculative, speculative_laws};

verus! {

/// The draft proposes its own greedy continuation: each proposal is its next
/// token after the context and the proposals before. It stops early only after
/// its end of sequence, and proposes nothing behind that.
pub proof fn law_proposals_are_the_drafts_own<D: Model + ?Sized>(
    draft: &D,
    context: Seq<TokenId>,
    n: nat,
)
    ensures
        ({
            let run = speculative::proposals(draft, context, n);
            &&& run.len() <= n
            &&& run.len() < n ==> run.len() > 0 && run.last() == draft.eos()
            &&& forall|i: int| 0 <= i < run.len() - 1 ==> #[trigger] run[i] != draft.eos()
            &&& speculative_laws::is_greedy(draft, context, run)
        }),
    decreases n,
{
    let run = speculative::proposals(draft, context, n);
    if n > 0 {
        let token = model::next_token(draft, context);
        let one = seq![token];
        assert(context + one.take(0) =~= context);
        assert(speculative_laws::is_greedy(draft, context, one));
        if token != draft.eos() {
            let rest = speculative::proposals(draft, context.push(token), (n - 1) as nat);
            law_proposals_are_the_drafts_own(draft, context.push(token), (n - 1) as nat);
            assert(context + one =~= context.push(token));
            speculative_laws::lemma_greedy_concat(draft, context, one, rest);
            assert forall|i: int| 0 <= i < run.len() - 1 implies #[trigger] run[i]
                != draft.eos() by {
                if i > 0 {
                    assert(run[i] == rest[i - 1]);
                }
            }
            assert(rest.len() > 0 ==> run.last() == rest.last());
        }
    }
}

/// Whether the acceptance test may give a verdict on a proposal after a context,
/// at a position of its run: it is shown the logits of both models there, the
/// proposal, and the draw.
pub open spec fn may_rule<
    'a,
    D: Model + ?Sized,
    T: Model + ?Sized,
    A: Fn(&StepLogits, &StepLogits, TokenId, u64) -> bool,
>(
    dec: &SpeculativeDecoder<'a, D, T, A>,
    at: Seq<TokenId>,
    proposal: TokenId,
    position: nat,
    verdict: bool,
) -> bool {
    exists|tl: StepLogits, dl: StepLogits|
        {
            &&& tl.logits@ == dec.target().next_logits(at)
            &&& dl.logits@ == dec.draft().next_logits(at)
            &&& #[trigger] call_ensures(
                dec.accept(),
                (&tl, &dl, proposal, speculative::draw(at, position)),
                verdict,
            )
        }
}

/// A round is what the acceptance test made of the draft's proposals. The
/// proposals accepted are the first ones, the test accepted each of them, and
/// none but the last ended the sequence. The next one, if any, was rejected,
/// unless the sequence had ended. The target's own token follows exactly if the
/// sequence had not ended.
pub proof fn law_round_follows_the_test<
    'a,
    D: Model + ?Sized,
    T: Model + ?Sized,
    A: Fn(&StepLogits, &StepLogits, TokenId, u64) -> bool,
>(dec: &SpeculativeDecoder<'a, D, T, A>, context: Seq<TokenId>, outcome: SpeculationView)
    requires
        dec.wf(),
        dec.may_step(context, outcome),
    ensures
        ({
            let run = speculative::proposals(dec.draft(), context, dec.lookahead());
            let n = outcome.accepted as int;
            let eos = dec.target().eos();
            let ended = n > 0 && run[n - 1] == eos;
            &&& outcome.drafted == run.len()
            &&& 0 <= n <= run.len()
            &&& forall|i: int|
                0 <= i < n ==> may_rule(
                    dec,
                    context + run.take(i),
                    #[trigger] run[i],
                    i as nat,
                    true,
                )
            &&& forall|i: int| 0 <= i < n - 1 ==> #[trigger] run[i] != eos
            &&& n < run.len() && !ended ==> may_rule(
                dec,
                context + run.take(n),
                run[n],
                n as nat,
                false,
            )
            &&& outcome.tokens == if ended {
                run.take(n)
            } else {
                run.take(n).push(model::next_token(dec.target(), context + run.take(n)))
            }
        }),
{
    let run = speculative::proposals(dec.draft(), context, dec.lookahead());
    assert(run == dec.run(context));
    let verdicts = choose|verdicts: Seq<bool>| #[trigger]
        dec.may_try(context, verdicts) && outcome == speculative::judged_run(
            dec.target(),
            context,
            dec.run(context),
            verdicts,
        );
    let n = outcome.accepted as int;
    let m = verdicts.len() - 1;
    if verdicts.last() {
        assert(verdicts[m]);
    }
    assert forall|i: int| 0 <= i < n implies may_rule(
        dec,
        context + run.take(i),
        #[trigger] run[i],
        i as nat,
        true,
    ) by {
        assert(verdicts[i]);
        assert(dec.may_answer(context, i, verdicts[i]));
    }
    assert forall|i: int| 0 <= i < n - 1 implies #[trigger] run[i] != dec.target().eos() by {
        assert(verdicts[i]);
    }
    if n > 0 {
        assert(run.take(n).last() == run[n - 1]);
    }
    if !verdicts.last() {
        assert(dec.may_answer(context, m, verdicts[m]));
        if n > 0 {
            assert(verdicts[n - 1]);
        }
    }
}

/// The tokens of several rounds, one after the other.
#[verifier::opaque]
pub open spec fn joined(rounds: Seq<SpeculationView>) -> Seq<TokenId> {
    rounds.map_values(|r: SpeculationView| r.tokens).flatten()
}

/// How many proposals several rounds accepted.
pub open spec fn all_accepted(rounds: Seq<SpeculationView>) -> int {
    rounds.fold_left(0, |n: int, r: SpeculationView| n + r.accepted)
}

/// How many proposals several rounds made.
pub open spec fn all_drafted(rounds: Seq<SpeculationView>) -> int {
    rounds.fold_left(0, |n: int, r: SpeculationView| n + r.drafted)
}

proof fn lemma_joined(rounds: Seq<SpeculationView>)
    ensures
        speculative::text(rounds) == joined(rounds),
        speculative::total_accepted(rounds) == all_accepted(rounds),
        speculative::total_drafted(rounds) == all_drafted(rounds),
    decreases rounds.len(),
{
    reveal(joined);
    let f = |r: SpeculationView| r.tokens;
    let lists = rounds.map_values(f);
    lists.lemma_flatten_and_flatten_alt_are_equivalent();
    if rounds.len() > 0 {
        let front = rounds.drop_last();
        lemma_joined(front);
        front.map_values(f).lemma_flatten_and_flatten_alt_are_equivalent();
        assert(lists.drop_last() =~= front.map_values(f));
    } else {
        assert(speculative::text(rounds) =~= joined(rounds));
    }
}

/// Whether rounds make up a generation: each starts after the prompt and the
/// tokens of the rounds before, which were fewer than asked for and did not end
/// the sequence.
#[verifier::opaque]
pub open spec fn follow_one_another<
    'a,
    D: Model + ?Sized,
    T: Model + ?Sized,
    A: Fn(&StepLogits, &StepLogits, TokenId, u64) -> bool,
>(
    dec: &SpeculativeDecoder<'a, D, T, A>,
    prompt: Seq<TokenId>,
    max_new: nat,
    rounds: Seq<SpeculationView>,
) -> bool {
    forall|i: int|
        #![trigger rounds[i]]
        0 <= i < rounds.len() ==> {
            &&& dec.may_step(prompt + joined(rounds.take(i)), rounds[i])
            &&& joined(rounds.take(i)).len() < max_new
            &&& !joined(rounds.take(i)).contains(dec.target().eos())
        }
}

/// A generation is rounds that follow one another until enough tokens have come
/// or the sequence has ended. What is returned is their tokens, cut after as
/// many as were asked for or after the end of the sequence, and the proposals
/// accepted in them over the proposals made.
pub proof fn law_generation_is_rounds<
    'a,
    D: Model + ?Sized,
    T: Model + ?Sized,
    A: Fn(&StepLogits, &StepLogits, TokenId, u64) -> bool,
>(
    dec: &SpeculativeDecoder<'a, D, T, A>,
    prompt: Seq<TokenId>,
    max_new: nat,
    tokens: Seq<TokenId>,
    rate: Ratio,
)
    requires
        dec.may_generate(prompt, max_new, tokens, rate),
    ensures
        exists|rounds: Seq<SpeculationView>|
            {
                &&& #[trigger] follow_one_another(dec, prompt, max_new, rounds)
                &&& tokens.len() <= joined(rounds).len()
                &&& tokens == joined(rounds).take(tokens.len() as int)
                &&& rate.denom > 0
                &&& all_drafted(rounds) > 0 ==> rate.numer * all_drafted(rounds)
                    == all_accepted(rounds) * rate.denom
                &&& all_drafted(rounds) == 0 ==> rate.numer == 0
            },
        tokens.len() <= max_new,
        forall|i: int|
            0 <= i < tokens.len() - 1 ==> #[trigger] tokens[i] != dec.target().eos(),
        tokens.len() == max_new || (tokens.len() > 0 && tokens.last() == dec.target().eos()),
{
    let rounds = choose|rounds: Seq<SpeculationView>|
        {
            &&& #[trigger] dec.may_run(prompt, max_new, rounds)
            &&& dec.is_output(rounds, max_new, tokens)
            &&& speculative::total_accepted(rounds) <= speculative::total_drafted(rounds)
                <= u128::MAX
            &&& rate == Ratio::spec_of(
                speculative::total_accepted(rounds) as u128,
                speculative::total_drafted(rounds) as u128,
            )
        };
    lemma_joined(rounds);
    lemma_follow(dec, prompt, max_new, rounds);
    arith::law_ratio_is_the_quotient(
        speculative::total_accepted(rounds) as u128,
        speculative::total_drafted(rounds) as u128,
    );
}

proof fn lemma_follow<
    'a,
    D: Model + ?Sized,
    T: Model + ?Sized,
    A: Fn(&StepLogits, &StepLogits, TokenId, u64) -> bool,
>(
    dec: &SpeculativeDecoder<'a, D, T, A>,
    prompt: Seq<TokenId>,
    max_new: nat,
    rounds: Seq<SpeculationView>,
)
    requires
        dec.may_run(prompt, max_new, rounds),
    ensures
        follow_one_another(dec, prompt, max_new, rounds),
{
    reveal(SpeculativeDecoder::may_run);
    reveal(follow_one_another);
    assert forall|i: int|
        #![trigger rounds[i]]
        0 <= i < rounds.len() implies {
        &&& dec.may_step(prompt + joined(rounds.take(i)), rounds[i])
        &&& joined(rounds.take(i)).len() < max_new
        &&& !joined(rounds.take(i)).contains(dec.target().eos())
    } by {
        let so_far = rounds.take(i);
        lemma_joined(so_far);
        assert(dec.may_step(prompt + speculative::text(so_far), rounds[i]));
    }
}

} // verus!
