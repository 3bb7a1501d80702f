//! What the deterministic model promises.
use vstd::prelude::*;

use crate::model::{TinyTransformer, TinyView, TokenId, NEG_INFINITY};
#[allow(unused_imports)]
use crate::model;

verus! {

/// The logits fall off with the distance from the peak, down to a floor.
proof fn lemma_levels(d: nat)
    ensures
        !model::is_nan(model::level(d)),
        model::exceeds(model::level(d), NEG_INFINITY),
        d > 0 ==> model::exceeds(model::level(0), model::level(d)),
        d > 1 ==> model::exceeds(model::level(1), model::level(d)),
        model::is_nan(NEG_INFINITY) == false,
{
}

/// The greatest logit is at the peak, unless the peak is ruled out.
proof fn lemma_peak_wins(vocab: nat, peak: int, ruled_out: Option<TokenId>)
    requires
        0 <= peak < vocab,
        ruled_out != Some(peak as TokenId) || peak >= 0x1_0000_0000,
    ensures
        model::is_argmax(model::peaked(vocab, peak, ruled_out), peak),
{
    let logits = model::peaked(vocab, peak, ruled_out);
    lemma_levels(0);
    assert(logits[peak] == model::level(0));
    assert(model::has_candidate(logits));
    assert forall|j: int| 0 <= j < logits.len() && j != peak implies model::exceeds(
        logits[peak],
        #[trigger] logits[j],
    ) by {
        lemma_levels(model::distance(j, peak));
    }
    assert forall|j: int| 0 <= j < logits.len() implies !model::exceeds(
        #[trigger] logits[j],
        logits[peak],
    ) by {
        if j != peak {
            assert(model::exceeds(logits[peak], logits[j]));
        }
    }
}

impl TinyView {
    /// The token that greedy decoding emits after a context.
    pub open spec fn next_token(self, context: Seq<TokenId>) -> TokenId {
        model::argmax(self.next_logits(context))
    }
}

/// The model of a view is asked for its next token through the view.
pub proof fn law_next_token_is_of_the_view(m: &TinyTransformer, context: Seq<TokenId>)
    ensures
        model::next_token(m, context) == m@.next_token(context),
{
}

/// Greedy decoding follows the peak, where the end of the sequence is not ruled
/// out there.
pub proof fn law_argmax_is_the_peak(m: TinyView, context: Seq<TokenId>)
    requires
        0 < m.vocab <= 0x1_0000_0000,
        context.len() >= 4 || m.peak(context) != m.eos,
    ensures
        m.next_token(context) == m.peak(context),
        0 <= m.peak(context) < m.vocab,
{
    lemma_peak_range(m, context);
    let logits = m.next_logits(context);
    lemma_peak_wins(m.vocab, m.peak(context), m.ruled_out(context));
    model::lemma_argmax_unique(logits, m.peak(context));
}

proof fn lemma_peak_range(m: TinyView, context: Seq<TokenId>)
    requires
        0 < m.vocab,
    ensures
        0 <= m.peak(context) < m.vocab,
{
    let v = m.vocab as int;
    let base = (model::hash_of(m.seed, context) as int) % v;
    vstd::arithmetic::div_mod::lemma_mod_bound(model::hash_of(m.seed, context) as int, v);
    vstd::arithmetic::div_mod::lemma_mod_bound(base + 7, v);
    if m.pins.contains_key(context) {
        vstd::arithmetic::div_mod::lemma_mod_bound(m.pins[context] as int, v);
    }
}

/// A short prompt always produces visible output: after fewer than four tokens
/// the model does not end the sequence.
pub proof fn law_short_context_is_not_ended(m: TinyView, context: Seq<TokenId>)
    requires
        2 <= m.vocab <= 0x1_0000_0000,
        m.eos < m.vocab,
        context.len() < 4,
    ensures
        m.next_token(context) != m.eos,
{
    let logits = m.next_logits(context);
    let peak = m.peak(context);
    lemma_peak_range(m, context);
    if peak != m.eos {
        law_argmax_is_the_peak(m, context);
    } else {
        // The nearest neighbour wins, the lower one if there are two.
        let best = if peak > 0 {
            peak - 1
        } else {
            1
        };
        lemma_levels(1);
        assert(logits[best] == model::level(1));
        assert(model::has_candidate(logits));
        assert forall|j: int| 0 <= j < logits.len() implies !model::exceeds(
            #[trigger] logits[j],
            logits[best],
        ) by {
            if j != peak {
                lemma_levels(model::distance(j, peak));
            }
        }
        assert forall|j: int| 0 <= j < best && !model::is_nan(#[trigger] logits[j]) implies
            model::exceeds(logits[best], logits[j]) by {
            if j != peak {
                lemma_levels(model::distance(j, peak));
            }
        }
        assert(model::is_argmax(logits, best));
        model::lemma_argmax_unique(logits, best);
    }
}

/// A pinned context forces its token.
pub proof fn law_pin_forces_the_token(m: TinyView, context: Seq<TokenId>, token: TokenId)
    requires
        token < m.vocab <= 0x1_0000_0000,
        context.len() >= 4 || token != m.eos,
    ensures
        (TinyView { pins: m.pins.insert(context, token), ..m }).next_token(context) == token,
{
    let n = TinyView { pins: m.pins.insert(context, token), ..m };
    assert(n.pins.contains_key(context));
    vstd::arithmetic::div_mod::lemma_small_mod(token as nat, m.vocab);
    law_argmax_is_the_peak(n, context);
}

/// A pin changes no other context.
pub proof fn law_pin_spares_other_contexts(
    m: TinyView,
    context: Seq<TokenId>,
    token: TokenId,
    other: Seq<TokenId>,
)
    requires
        other != context,
    ensures
        (TinyView { pins: m.pins.insert(context, token), ..m }).next_logits(other)
            == m.next_logits(other),
{
}

/// A draft agrees with its target on every context whose hash is not a multiple
/// of its period, and peaks seven tokens further on the others.
pub proof fn law_draft_agrees_with_its_target(
    target: TinyView,
    draft: TinyView,
    context: Seq<TokenId>,
)
    requires
        target.divergence is None,
        draft == (TinyView { divergence: Some(4), ..target }),
        !target.pins.contains_key(context),
    ensures
        model::hash_of(target.seed, context) % 4 != 0 ==> draft.next_logits(context)
            == target.next_logits(context),
        model::hash_of(target.seed, context) % 4 == 0 ==> draft.peak(context) == (target.peak(
            context,
        ) + 7) % (target.vocab as int),
{
}

/// Only the last eight tokens of a context matter, as long as neither context
/// is pinned.
pub proof fn law_only_the_window_matters(m: TinyView, a: Seq<TokenId>, b: Seq<TokenId>)
    requires
        a.len() >= 8,
        b.len() >= 8,
        a.skip(a.len() - 8) == b.skip(b.len() - 8),
        !m.pins.contains_key(a),
        !m.pins.contains_key(b),
    ensures
        m.next_logits(a) == m.next_logits(b),
{
    assert(model::window_of(a) =~= a.skip(a.len() - 8));
    assert(model::window_of(b) =~= b.skip(b.len() - 8));
}

/// There is a logit for every token of the vocabulary.
pub proof fn law_logits_span_the_vocabulary(m: TinyView, context: Seq<TokenId>)
    ensures
        m.next_logits(context).len() == m.vocab,
{
}

} // verus!
