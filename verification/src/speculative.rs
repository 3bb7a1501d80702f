//! Speculative decoding: a draft-then-verify loop.
//!
//! A cheap *draft* model proposes a run of tokens. The *target* model verifies
//! the run: each proposal is put to an acceptance test, and the first one that
//! fails is replaced by the target's own token and ends the run. A run that is
//! accepted in full earns a bonus token.
//!
//! The test compares a draw in `[0, 1)` with `min(1, p / q)`, the ratio of the
//! probabilities that target and draft give the proposal. Probabilities are
//! floating point, so the caller supplies the test. The draw is not random: it
//! is derived from the context, which makes speculation repeatable.
use vstd::prelude::*;

use crate::arith::Ratio;
use crate::model::{LogitBits, Model, StepLogits, TokenId};
#[allow(unused_imports)]
use crate::model;

verus! {

/// The outcome of verifying one drafted run.
#[derive(Debug, Clone, PartialEq, Eq)]
pub struct SpeculationResult {
    /// The tokens that were emitted, in order.
    pub tokens: Vec<TokenId>,
    /// How many of the draft proposals were accepted before the first rejection.
    pub accepted: usize,
    /// How many tokens were drafted.
    pub drafted: usize,
}

/// The outcome of a run as mathematics.
#[verifier::ext_equal]
pub struct SpeculationView {
    pub tokens: Seq<TokenId>,
    pub accepted: nat,
    pub drafted: nat,
}

impl View for SpeculationResult {
    type V = SpeculationView;

    open spec fn view(&self) -> SpeculationView {
        SpeculationView {
            tokens: self.tokens@,
            accepted: self.accepted as nat,
            drafted: self.drafted as nat,
        }
    }
}

impl SpeculationResult {
    /// The fraction of the draft's work that the target reused, zero if nothing
    /// was drafted.
    pub fn acceptance_rate(&self) -> (r: Ratio)
        ensures
            r == Ratio::spec_of(self.accepted as u128, self.drafted as u128),
            self.accepted <= self.drafted ==> r.in_unit_interval(),
    {
        Ratio::of(self.accepted as u128, self.drafted as u128)
    }
}

/// The draft's proposals after a context: greedy tokens, up to `n` of them or
/// the draft's end of sequence.
pub open spec fn proposals<D: Model + ?Sized>(
    draft: &D,
    context: Seq<TokenId>,
    n: nat,
) -> Seq<TokenId>
    decreases n,
{
    if n == 0 {
        Seq::empty()
    } else {
        let token = model::next_token(draft, context);
        if token == draft.eos() {
            seq![token]
        } else {
            seq![token] + proposals(draft, context.push(token), (n - 1) as nat)
        }
    }
}

/// A context mixed into the draw's hash, first token to last.
pub open spec fn draw_mix(context: Seq<TokenId>) -> u64
    decreases context.len(),
{
    if context.len() == 0 {
        0xD1B5_4A32_D192_ED03
    } else {
        (draw_mix(context.drop_last()) ^ (context.last() as u64)).wrapping_mul(0x100_0000_01B3)
    }
}

/// The numerator of the draw at a position after a context. The draw is this
/// number over `2^53`.
pub open spec fn draw(context: Seq<TokenId>, position: nat) -> u64 {
    (draw_mix(context) ^ (position as u64)).wrapping_mul(0x2545_F491_4F6C_DD1D) >> 11
}

/// The pseudo-random draw at a position after a context, as a numerator over
/// `2^53`.
pub fn acceptance_draw(context: &[TokenId], position: usize) -> (r: u64)
    ensures
        r == draw(context@, position as nat),
        r < 0x20_0000_0000_0000,
{
    let mut h: u64 = 0xD1B5_4A32_D192_ED03;
    let mut i: usize = 0;
    assert(context@.take(0) =~= Seq::empty());
    while i < context.len()
        invariant
            i <= context@.len(),
            h == draw_mix(context@.take(i as int)),
        decreases context@.len() - i,
    {
        assert(context@.take(i + 1).drop_last() =~= context@.take(i as int));
        let t: TokenId = context[i];
        h = (h ^ (t as u64)).wrapping_mul(0x100_0000_01B3);
        i = i + 1;
    }
    assert(context@.take(i as int) =~= context@);
    h = (h ^ (position as u64)).wrapping_mul(0x2545_F491_4F6C_DD1D);
    assert(h >> 11 < 0x20_0000_0000_0000) by (bit_vector);
    h >> 11
}

/// Whether verdicts are those of one run: every proposal before the last verdict
/// was accepted and went on, and the last verdict ended the run.
pub open spec fn is_trial(run: Seq<TokenId>, verdicts: Seq<bool>, eos: TokenId) -> bool {
    &&& 1 <= verdicts.len() <= run.len()
    &&& forall|i: int| 0 <= i < verdicts.len() - 1 ==> #[trigger] verdicts[i] && run[i] != eos
    &&& verdicts.len() < run.len() ==> !verdicts.last() || run[verdicts.len() - 1] == eos
}

/// How many proposals verdicts accept.
pub open spec fn accepted_by(verdicts: Seq<bool>) -> nat {
    if verdicts.last() {
        verdicts.len()
    } else {
        (verdicts.len() - 1) as nat
    }
}

/// The outcome of a run under given verdicts: the accepted proposals and,
/// unless they end the sequence, the target's own token after them.
pub open spec fn judged_run<T: Model + ?Sized>(
    target: &T,
    context: Seq<TokenId>,
    run: Seq<TokenId>,
    verdicts: Seq<bool>,
) -> SpeculationView {
    let n = accepted_by(verdicts);
    let kept = run.take(n as int);
    SpeculationView {
        tokens: if n > 0 && kept.last() == target.eos() {
            kept
        } else {
            kept.push(model::next_token(target, context + kept))
        },
        accepted: n,
        drafted: run.len(),
    }
}

/// The tokens of several rounds, one after the other.
pub open spec fn text(rounds: Seq<SpeculationView>) -> Seq<TokenId>
    decreases rounds.len(),
{
    if rounds.len() == 0 {
        Seq::empty()
    } else {
        text(rounds.drop_last()) + rounds.last().tokens
    }
}

pub open spec fn total_accepted(rounds: Seq<SpeculationView>) -> nat
    decreases rounds.len(),
{
    if rounds.len() == 0 {
        0
    } else {
        total_accepted(rounds.drop_last()) + rounds.last().accepted
    }
}

pub open spec fn total_drafted(rounds: Seq<SpeculationView>) -> nat
    decreases rounds.len(),
{
    if rounds.len() == 0 {
        0
    } else {
        total_drafted(rounds.drop_last()) + rounds.last().drafted
    }
}

/// Whether an acceptance test can be put to every proposal.
pub open spec fn is_total<A: Fn(&StepLogits, &StepLogits, TokenId, u64) -> bool>(
    accept: A,
) -> bool {
    forall|p: StepLogits, q: StepLogits, token: TokenId, numer: u64| #[trigger]
        call_requires(accept, (&p, &q, token, numer))
}

/// Whether an acceptance test gives one answer to one question.
pub open spec fn is_repeatable<A: Fn(&StepLogits, &StepLogits, TokenId, u64) -> bool>(
    accept: A,
) -> bool {
    forall|
        p: StepLogits,
        q: StepLogits,
        p2: StepLogits,
        q2: StepLogits,
        token: TokenId,
        numer: u64,
    |
        p.logits@ == p2.logits@ && q.logits@ == q2.logits@ ==> !(#[trigger] call_ensures(
            accept,
            (&p, &q, token, numer),
            true,
        ) && #[trigger] call_ensures(accept, (&p2, &q2, token, numer), false))
}

/// Pairs a cheap draft model with an expensive target model and the acceptance
/// test. The test is given the target's logits, the draft's logits, the
/// proposal and the numerator of the draw. Its answer depends on these alone.
pub struct SpeculativeDecoder<'a, D: Model + ?Sized, T: Model + ?Sized, A> {
    draft: &'a D,
    target: &'a T,
    /// How many tokens to draft per verification round.
    lookahead: usize,
    accept: A,
}

impl<
    'a,
    D: Model + ?Sized,
    T: Model + ?Sized,
    A: Fn(&StepLogits, &StepLogits, TokenId, u64) -> bool,
> SpeculativeDecoder<'a, D, T, A> {
    pub closed spec fn draft(&self) -> &'a D {
        self.draft
    }

    pub closed spec fn target(&self) -> &'a T {
        self.target
    }

    pub closed spec fn lookahead(&self) -> nat {
        self.lookahead as nat
    }

    pub closed spec fn accept(&self) -> A {
        self.accept
    }

    /// The invariant: something is drafted, the models share a vocabulary, and
    /// the acceptance test answers every question, always alike.
    pub open spec fn wf(&self) -> bool {
        &&& 1 <= self.lookahead() <= usize::MAX
        &&& self.draft().vocab() == self.target().vocab()
        &&& is_total(self.accept())
        &&& is_repeatable(self.accept())
    }

    /// Whether both models can continue a context.
    pub open spec fn serves(&self, context: Seq<TokenId>) -> bool {
        model::serves(self.draft(), context) && model::serves(self.target(), context)
    }

    /// The run drafted after a context.
    pub open spec fn run(&self, context: Seq<TokenId>) -> Seq<TokenId> {
        proposals(self.draft(), context, self.lookahead())
    }

    /// Whether the acceptance test may answer `verdict` on given logits.
    pub open spec fn may_judge(
        &self,
        p: Seq<LogitBits>,
        q: Seq<LogitBits>,
        token: TokenId,
        numer: u64,
        verdict: bool,
    ) -> bool {
        exists|tl: StepLogits, dl: StepLogits|
            tl.logits@ == p && dl.logits@ == q && #[trigger] call_ensures(
                self.accept(),
                (&tl, &dl, token, numer),
                verdict,
            )
    }

    /// Whether the acceptance test may give a verdict on the proposal at a
    /// position of the run drafted after a context.
    pub open spec fn may_answer(
        &self,
        context: Seq<TokenId>,
        position: int,
        verdict: bool,
    ) -> bool {
        let at = context + self.run(context).take(position);
        self.may_judge(
            self.target().next_logits(at),
            self.draft().next_logits(at),
            self.run(context)[position],
            draw(at, position as nat),
            verdict,
        )
    }

    /// Whether verdicts may be those of the run drafted after a context.
    pub open spec fn may_try(&self, context: Seq<TokenId>, verdicts: Seq<bool>) -> bool {
        &&& is_trial(self.run(context), verdicts, self.target().eos())
        &&& forall|i: int|
            0 <= i < verdicts.len() ==> self.may_answer(context, i, #[trigger] verdicts[i])
    }

    /// Whether a round after a context may have an outcome.
    pub open spec fn may_step(&self, context: Seq<TokenId>, outcome: SpeculationView) -> bool {
        exists|verdicts: Seq<bool>| #[trigger]
            self.may_try(context, verdicts) && outcome == judged_run(
                self.target(),
                context,
                self.run(context),
                verdicts,
            )
    }

    /// Whether rounds may follow one another from a prompt: each starts where
    /// the last one ended, and only while fewer than `max_new` tokens have come
    /// and none of them ended the sequence.
    #[verifier::opaque]
    pub open spec fn may_run(
        &self,
        prompt: Seq<TokenId>,
        max_new: nat,
        rounds: Seq<SpeculationView>,
    ) -> bool {
        forall|i: int|
            #![trigger rounds[i]]
            0 <= i < rounds.len() ==> {
                &&& self.may_step(prompt + text(rounds.take(i)), rounds[i])
                &&& text(rounds.take(i)).len() < max_new
                &&& !text(rounds.take(i)).contains(self.target().eos())
            }
    }

    /// Whether tokens are what rounds produced: their text, cut after `max_new`
    /// tokens or the first end of sequence, one of which was reached.
    pub open spec fn is_output(
        &self,
        rounds: Seq<SpeculationView>,
        max_new: nat,
        tokens: Seq<TokenId>,
    ) -> bool {
        &&& tokens.len() <= text(rounds).len()
        &&& tokens == text(rounds).take(tokens.len() as int)
        &&& tokens.len() <= max_new
        &&& forall|i: int|
            0 <= i < tokens.len() - 1 ==> #[trigger] tokens[i] != self.target().eos()
        &&& tokens.len() == max_new || (tokens.len() > 0 && tokens.last() == self.target().eos())
    }

    /// Whether generating from a prompt may give tokens at an acceptance rate:
    /// the output of some rounds, and the proposals accepted in them over the
    /// proposals made.
    pub open spec fn may_generate(
        &self,
        prompt: Seq<TokenId>,
        max_new: nat,
        tokens: Seq<TokenId>,
        rate: Ratio,
    ) -> bool {
        exists|rounds: Seq<SpeculationView>|
            {
                &&& #[trigger] self.may_run(prompt, max_new, rounds)
                &&& self.is_output(rounds, max_new, tokens)
                &&& total_accepted(rounds) <= total_drafted(rounds) <= u128::MAX
                &&& rate == Ratio::spec_of(
                    total_accepted(rounds) as u128,
                    total_drafted(rounds) as u128,
                )
            }
    }

    pub fn new(draft: &'a D, target: &'a T, lookahead: usize, accept: A) -> (r: Self)
        requires
            lookahead >= 1,
            draft.vocab() == target.vocab(),
            is_total(accept),
            is_repeatable(accept),
        ensures
            r.wf(),
            r.draft() == draft,
            r.target() == target,
            r.lookahead() == lookahead,
            r.accept() == accept,
    {
        SpeculativeDecoder { draft, target, lookahead, accept }
    }

    /// Draft up to `lookahead` tokens greedily, returning each proposal together
    /// with the draft logits at its position.
    fn draft_run(&self, context: &[TokenId]) -> (r: Vec<(TokenId, StepLogits)>)
        requires
            self.wf(),
            model::serves(self.draft(), context@),
        ensures
            r@.len() == self.run(context@).len(),
            r@.len() >= 1,
            forall|i: int|
                0 <= i < r@.len() ==> (#[trigger] r@[i]).0 == self.run(context@)[i]
                    && r@[i].1.logits@ == self.draft().next_logits(
                    context@ + self.run(context@).take(i),
                ),
    {
        let mut ctx: Vec<TokenId> = Vec::new();
        ctx.extend_from_slice(context);
        let mut run: Vec<(TokenId, StepLogits)> = Vec::new();
        let ghost mut tokens: Seq<TokenId> = Seq::empty();
        let ghost whole = self.run(context@);
        let mut left: usize = self.lookahead;
        proof {
            assert(ctx@ =~= context@);
            assert(context@ + tokens =~= context@);
            assert(tokens + whole =~= whole);
        }
        while left > 0
            invariant_except_break
                tokens + proposals(self.draft, context@ + tokens, left as nat) == whole,
                left < self.lookahead ==> tokens.len() > 0,
            invariant
                self.wf(),
                model::serves(self.draft(), context@),
                ctx@ == context@ + tokens,
                run@.len() == tokens.len(),
                whole == self.run(context@),
                left <= self.lookahead,
                forall|i: int|
                    0 <= i < run@.len() ==> (#[trigger] run@[i]).0 == tokens[i]
                        && run@[i].1.logits@ == self.draft.next_logits(context@ + tokens.take(i)),
            ensures
                tokens == whole,
                tokens.len() > 0,
            decreases left,
        {
            let ghost before = tokens;
            assert(self.draft.accepts(context@ + tokens));
            let logits = self.draft.forward(ctx.as_slice());
            let tok: TokenId = logits.argmax();
            proof {
                tokens = tokens.push(tok);
                assert(tokens.take(before.len() as int) =~= before);
                assert forall|i: int| 0 <= i < before.len() implies #[trigger] tokens.take(i)
                    == before.take(i) by {
                    assert(tokens.take(i) =~= before.take(i));
                }
                assert((context@ + before).push(tok) =~= context@ + tokens);
            }
            run.push((tok, logits));
            ctx.push(tok);
            if tok == self.draft.eos_token() {
                assert(before + seq![tok] =~= tokens);
                break;
            }
            left = left - 1;
            proof {
                let rest = proposals(self.draft, context@ + tokens, left as nat);
                assert(before + (seq![tok] + rest) =~= tokens + rest);
                if left == 0 {
                    assert(tokens + rest =~= tokens);
                }
            }
        }
        run
    }

    /// Verify a single drafted run against the target model. Returns the
    /// accepted tokens plus one resampled or bonus target token, unless the
    /// accepted tokens end the sequence.
    ///
    /// The returned tokens should be appended to the context before the next
    /// round.
    pub fn step(&self, context: &[TokenId]) -> (r: SpeculationResult)
        requires
            self.wf(),
            self.serves(context@),
        ensures
            self.may_step(context@, r@),
    {
        let run = self.draft_run(context);
        let drafted: usize = run.len();
        let ghost tokens = self.run(context@);
        let ghost eos = self.target.eos();
        let ghost mut verdicts: Seq<bool> = Seq::empty();
        let mut out: Vec<TokenId> = Vec::new();
        let mut ctx: Vec<TokenId> = Vec::new();
        ctx.extend_from_slice(context);
        let mut pos: usize = 0;
        proof {
            assert(ctx@ =~= context@ + tokens.take(0));
            assert(out@ =~= tokens.take(0));
        }
        while pos < drafted
            invariant
                self.wf(),
                self.serves(context@),
                tokens == self.run(context@),
                eos == self.target.eos(),
                drafted == run@.len(),
                run@.len() == tokens.len(),
                forall|i: int|
                    0 <= i < run@.len() ==> (#[trigger] run@[i]).0 == tokens[i]
                        && run@[i].1.logits@ == self.draft.next_logits(context@ + tokens.take(i)),
                pos <= drafted,
                out@ == tokens.take(pos as int),
                ctx@ == context@ + tokens.take(pos as int),
                verdicts.len() == pos,
                forall|i: int| 0 <= i < pos ==> #[trigger] verdicts[i] && tokens[i] != eos,
                forall|i: int|
                    0 <= i < pos ==> self.may_answer(context@, i, #[trigger] verdicts[i]),
            decreases drafted - pos,
        {
            let tok: TokenId = run[pos].0;
            assert(self.target.accepts(context@ + tokens.take(pos as int)));
            let target_logits = self.target.forward(ctx.as_slice());
            let numer: u64 = acceptance_draw(ctx.as_slice(), pos);
            let draft_logits: &StepLogits = &run[pos].1;
            let accept = &self.accept;
            assert(call_requires(self.accept(), (&target_logits, draft_logits, tok, numer)));
            let accepted: bool = accept(&target_logits, draft_logits, tok, numer);
            let ghost before = verdicts;
            proof {
                verdicts = verdicts.push(accepted);
                assert(run@[pos as int].0 == tokens[pos as int]);
                assert(self.may_answer(context@, pos as int, accepted));
                assert(forall|i: int| 0 <= i < pos ==> before[i] == #[trigger] verdicts[i]);
            }
            if accepted {
                out.push(tok);
                ctx.push(tok);
                pos = pos + 1;
                proof {
                    assert(tokens.take(pos as int) =~= tokens.take(pos - 1).push(tok));
                    assert(context@ + tokens.take(pos as int) =~= (context@ + tokens.take(
                        pos - 1,
                    )).push(tok));
                }
                assert(verdicts[pos - 1] == accepted);
                if tok == self.target.eos_token() {
                    proof {
                        assert(self.may_try(context@, verdicts));
                        assert(accepted_by(verdicts) == pos);
                        assert(tokens.take(pos as int).last() == eos);
                    }
                    return SpeculationResult { tokens: out, accepted: pos, drafted };
                }
            } else {
                let resampled: TokenId = target_logits.argmax();
                proof {
                    assert(self.may_try(context@, verdicts));
                    assert(accepted_by(verdicts) == pos);
                    if pos > 0 {
                        assert(tokens.take(pos as int).last() == tokens[pos - 1]);
                        assert(verdicts[pos - 1]);
                    }
                }
                out.push(resampled);
                return SpeculationResult { tokens: out, accepted: pos, drafted };
            }
        }
        // Every drafted token was accepted: the target adds one of its own.
        assert(self.target.accepts(context@ + tokens.take(pos as int)));
        let bonus: TokenId = self.target.forward(ctx.as_slice()).argmax();
        out.push(bonus);
        proof {
            assert(self.may_try(context@, verdicts));
            assert(verdicts[pos - 1]);
            assert(accepted_by(verdicts) == pos);
            assert(tokens.take(pos as int).last() == tokens[pos - 1]);
        }
        SpeculationResult { tokens: out, accepted: pos, drafted }
    }

    /// Generate up to `max_new` tokens with speculative decoding, stopping on
    /// eos. Returns the generated tokens and the aggregate acceptance rate.
    pub fn generate(&self, prompt: &[TokenId], max_new: usize) -> (r: (Vec<TokenId>, Ratio))
        requires
            self.wf(),
            self.serves(prompt@),
        ensures
            self.may_generate(prompt@, max_new as nat, r.0@, r.1),
            r.1.in_unit_interval(),
    {
        let mut ctx: Vec<TokenId> = Vec::new();
        ctx.extend_from_slice(prompt);
        let mut generated: Vec<TokenId> = Vec::new();
        let mut accepted: u128 = 0;
        let mut drafted: u128 = 0;
        let eos: TokenId = self.target.eos_token();
        let ghost mut rounds: Seq<SpeculationView> = Seq::empty();
        let mut ended: bool = false;
        proof {
            assert(ctx@ =~= prompt@ + generated@);
            assert(generated@ =~= text(rounds));
            assert(self.lookahead * 0 == 0);
            reveal(SpeculativeDecoder::may_run);
        }
        while !ended && generated.len() < max_new
            invariant
                self.wf(),
                self.serves(prompt@),
                eos == self.target.eos(),
                generated@.len() <= max_new,
                ctx@ == prompt@ + generated@,
                !ended && generated@.len() < max_new ==> generated@ == text(rounds),
                generated@ == text(rounds).take(generated@.len() as int),
                generated@.len() <= text(rounds).len(),
                !ended ==> forall|k: int|
                    0 <= k < generated@.len() ==> #[trigger] generated@[k] != eos,
                forall|k: int| 0 <= k < generated@.len() - 1 ==> #[trigger] generated@[k] != eos,
                ended ==> generated@.len() > 0 && generated@.last() == eos,
                self.may_run(prompt@, max_new as nat, rounds),
                rounds.len() <= generated@.len(),
                accepted == total_accepted(rounds),
                drafted == total_drafted(rounds),
                accepted <= drafted,
                drafted <= self.lookahead * rounds.len(),
            decreases max_new - generated@.len(),
        {
            proof {
                lemma_serves_more(self.draft, prompt@, generated@);
                lemma_serves_more(self.target, prompt@, generated@);
            }
            let result = self.step(ctx.as_slice());
            let ghost before = rounds;
            let ghost so_far = generated@;
            proof {
                rounds = rounds.push(result@);
                lemma_step_bounds(self, prompt@ + so_far, result@);
                assert(rounds.drop_last() =~= before);
                assert(!so_far.contains(eos));
                lemma_may_run_push(self, prompt@, max_new as nat, before, result@);
                let l = self.lookahead as int;
                let n = rounds.len() as int;
                assert(l * n == l * (n - 1) + l) by (nonlinear_arith);
                // A product of two words fits a double word.
                assert(l * n <= 0xFFFF_FFFF_FFFF_FFFF * 0xFFFF_FFFF_FFFF_FFFF) by (nonlinear_arith)
                    requires
                        0 <= n <= 0xFFFF_FFFF_FFFF_FFFF,
                        0 <= l <= 0xFFFF_FFFF_FFFF_FFFF,
                ;
            }
            accepted = accepted + result.accepted as u128;
            drafted = drafted + result.drafted as u128;
            ended = extend_output(&mut generated, &mut ctx, result.tokens.as_slice(), max_new, eos);
            proof {
                let n = generated@.len() - so_far.len();
                assert(generated@ =~= text(rounds).take(generated@.len() as int));
                assert(ctx@ =~= prompt@ + generated@);
                if n == result.tokens@.len() {
                    assert(result.tokens@.take(n) =~= result.tokens@);
                }
            }
        }
        assert(self.is_output(rounds, max_new as nat, generated@));
        (generated, Ratio::of(accepted, drafted))
    }
}

/// Append tokens to an output and its context until the output holds `max_new`
/// tokens or an end of sequence was appended. Returns whether it was.
fn extend_output(
    generated: &mut Vec<TokenId>,
    ctx: &mut Vec<TokenId>,
    tokens: &[TokenId],
    max_new: usize,
    eos: TokenId,
) -> (ended: bool)
    requires
        old(generated)@.len() < max_new,
        tokens@.len() > 0,
    ensures
        old(generated)@.len() < final(generated)@.len() <= max_new,
        final(generated)@.len() - old(generated)@.len() <= tokens@.len(),
        final(generated)@ == old(generated)@ + tokens@.take(
            final(generated)@.len() - old(generated)@.len(),
        ),
        final(ctx)@ == old(ctx)@ + tokens@.take(final(generated)@.len() - old(generated)@.len()),
        forall|k: int|
            old(generated)@.len() <= k < final(generated)@.len() - 1
                ==> #[trigger] final(generated)@[k] != eos,
        ended == (final(generated)@.last() == eos),
        !ended ==> final(generated)@.len() == max_new || final(generated)@.len()
            - old(generated)@.len() == tokens@.len(),
{
    let ghost so_far = generated@;
    let ghost start = ctx@;
    let mut i: usize = 0;
    assert(so_far + tokens@.take(0) =~= so_far);
    assert(start + tokens@.take(0) =~= start);
    while i < tokens.len() && generated.len() < max_new
        invariant
            so_far == old(generated)@,
            start == old(ctx)@,
            i <= tokens@.len(),
            generated@ == so_far + tokens@.take(i as int),
            ctx@ == start + tokens@.take(i as int),
            generated@.len() <= max_new,
            forall|k: int|
                so_far.len() <= k < generated@.len() ==> #[trigger] generated@[k] != eos,
        decreases tokens@.len() - i,
    {
        let tok: TokenId = tokens[i];
        let ghost earlier = generated@;
        ctx.push(tok);
        generated.push(tok);
        i = i + 1;
        proof {
            assert(tokens@.take(i as int) =~= tokens@.take(i - 1).push(tok));
            assert(generated@ =~= so_far + tokens@.take(i as int));
            assert(ctx@ =~= start + tokens@.take(i as int));
            assert(forall|k: int|
                so_far.len() <= k < earlier.len() ==> earlier[k] == #[trigger] generated@[k]);
        }
        if tok == eos {
            return true;
        }
    }
    false
}

/// A further round that starts where the others ended.
proof fn lemma_may_run_push<
    'a,
    D: Model + ?Sized,
    T: Model + ?Sized,
    A: Fn(&StepLogits, &StepLogits, TokenId, u64) -> bool,
>(
    dec: &SpeculativeDecoder<'a, D, T, A>,
    prompt: Seq<TokenId>,
    max_new: nat,
    rounds: Seq<SpeculationView>,
    outcome: SpeculationView,
)
    requires
        dec.may_run(prompt, max_new, rounds),
        dec.may_step(prompt + text(rounds), outcome),
        text(rounds).len() < max_new,
        !text(rounds).contains(dec.target().eos()),
    ensures
        dec.may_run(prompt, max_new, rounds.push(outcome)),
{
    reveal(SpeculativeDecoder::may_run);
    let more = rounds.push(outcome);
    assert forall|i: int|
        #![trigger more[i]]
        0 <= i < more.len() implies {
        &&& dec.may_step(prompt + text(more.take(i)), more[i])
        &&& text(more.take(i)).len() < max_new
        &&& !text(more.take(i)).contains(dec.target().eos())
    } by {
        if i < rounds.len() {
            assert(rounds[i] == more[i]);
            assert(more.take(i) =~= rounds.take(i));
        } else {
            assert(more.take(i) =~= rounds);
        }
    }
}

/// A model that can continue a context can continue a longer one.
pub proof fn lemma_serves_more<M: Model + ?Sized>(
    model: &M,
    context: Seq<TokenId>,
    more: Seq<TokenId>,
)
    requires
        model::serves(model, context),
    ensures
        model::serves(model, context + more),
{
    assert forall|rest: Seq<TokenId>| #[trigger] model.accepts(context + more + rest) by {
        assert(context + (more + rest) =~= context + more + rest);
    }
}

proof fn lemma_proposals_len<D: Model + ?Sized>(draft: &D, context: Seq<TokenId>, n: nat)
    ensures
        proposals(draft, context, n).len() <= n,
        n > 0 ==> proposals(draft, context, n).len() > 0,
    decreases n,
{
    if n > 0 {
        lemma_proposals_len(
            draft,
            context.push(model::next_token(draft, context)),
            (n - 1) as nat,
        );
    }
}

/// A round emits at least one token, accepts at most what was drafted, and
/// drafts at most the lookahead.
pub proof fn lemma_step_bounds<
    'a,
    D: Model + ?Sized,
    T: Model + ?Sized,
    A: Fn(&StepLogits, &StepLogits, TokenId, u64) -> bool,
>(dec: &SpeculativeDecoder<'a, D, T, A>, context: Seq<TokenId>, outcome: SpeculationView)
    requires
        dec.wf(),
        dec.may_step(context, outcome),
    ensures
        outcome.tokens.len() >= 1,
        outcome.accepted <= outcome.drafted <= dec.lookahead(),
        outcome.tokens.len() <= outcome.accepted + 1,
{
    lemma_proposals_len(dec.draft(), context, dec.lookahead());
}

} // verus!
