//! Laws of logits: bit patterns are ordered as the numbers they stand for, greedy
//! decoding takes the first of the greatest, and the deterministic model's logits
//! are six less the distance from their peak.
use vstd::prelude::*;

use crate::model::{LogitBits, Model, TinyView, TokenId};
#[allow(unused_imports)]
use crate::model;

verus! {

/// Whether a pattern stands for a number: neither infinite nor not a number.
pub open spec fn is_finite(b: LogitBits) -> bool {
    b % 0x8000_0000 < 0x7F80_0000
}

/// The number that a pattern without its sign stands for, in units of `2^-149`,
/// the least positive number: an exponent of eight bits above a fraction of 23,
/// with a leading one unless the exponent is zero.
pub open spec fn magnitude(m: int) -> int {
    if m < 0x80_0000 {
        m
    } else {
        (0x80_0000 + m % 0x80_0000) * vstd::arithmetic::power2::pow2((m / 0x80_0000 - 1) as nat)
    }
}

/// The number that a finite pattern stands for, in units of `2^-149`.
pub open spec fn number(b: LogitBits) -> int {
    if b < 0x8000_0000 {
        magnitude(b as int)
    } else {
        -magnitude(b - 0x8000_0000)
    }
}

proof fn lemma_magnitude_grows(p: int, q: int)
    requires
        0 <= p < q,
    ensures
        0 <= magnitude(p) < magnitude(q),
{
    let (e, f) = (p / 0x80_0000, p % 0x80_0000);
    let (g, h) = (q / 0x80_0000, q % 0x80_0000);
    if p >= 0x80_0000 {
        let a = vstd::arithmetic::power2::pow2((e - 1) as nat) as int;
        vstd::arithmetic::power2::lemma_pow2_pos((e - 1) as nat);
        assert(0 < (0x80_0000 + f) * a) by (nonlinear_arith)
            requires
                f >= 0,
                a > 0,
        ;
        if e == g {
            assert((0x80_0000 + f) * a < (0x80_0000 + h) * a) by (nonlinear_arith)
                requires
                    f < h,
                    a > 0,
            ;
        } else {
            let b = vstd::arithmetic::power2::pow2((g - 1) as nat) as int;
            vstd::arithmetic::power2::lemma_pow2_unfold(e as nat);
            assert(vstd::arithmetic::power2::pow2(e as nat) == 2 * a);
            if e < g - 1 {
                vstd::arithmetic::power2::lemma_pow2_strictly_increases(e as nat, (g - 1) as nat);
            }
            assert(b >= 2 * a);
            assert((0x80_0000 + f) * a < (0x80_0000 + h) * b) by (nonlinear_arith)
                requires
                    0 <= f < 0x80_0000,
                    h >= 0,
                    a > 0,
                    b >= 2 * a,
            ;
        }
    } else if q >= 0x80_0000 {
        let b = vstd::arithmetic::power2::pow2((g - 1) as nat) as int;
        vstd::arithmetic::power2::lemma_pow2_pos((g - 1) as nat);
        assert(0x80_0000 <= (0x80_0000 + h) * b) by (nonlinear_arith)
            requires
                h >= 0,
                b >= 1,
        ;
    }
}

/// Finite logits are ordered as the numbers they stand for. The two zeros are
/// one number.
pub proof fn law_order_is_that_of_the_numbers(a: LogitBits, b: LogitBits)
    requires
        is_finite(a),
        is_finite(b),
    ensures
        model::exceeds(a, b) <==> number(a) > number(b),
{
    let (p, q) = (a as int % 0x8000_0000, b as int % 0x8000_0000);
    if p < q {
        lemma_magnitude_grows(p, q);
    } else if q < p {
        lemma_magnitude_grows(q, p);
    }
    if p > 0 {
        lemma_magnitude_grows(0, p);
    }
    if q > 0 {
        lemma_magnitude_grows(0, q);
    }
}

/// The infinities stand beyond every number, and a pattern that is not a number
/// neither exceeds nor is exceeded.
pub proof fn law_infinities_bound_the_numbers(a: LogitBits, b: LogitBits)
    ensures
        is_finite(a) ==> model::exceeds(0x7F80_0000, a) && !model::exceeds(a, 0x7F80_0000),
        is_finite(a) ==> model::exceeds(a, 0xFF80_0000) && !model::exceeds(0xFF80_0000, a),
        model::exceeds(0x7F80_0000, 0xFF80_0000),
        !model::exceeds(0xFF80_0000, 0x7F80_0000),
        !model::exceeds(a, a),
        a % 0x8000_0000 > 0x7F80_0000 ==> !model::exceeds(a, b) && !model::exceeds(b, a),
        model::is_nan(a) <==> a % 0x8000_0000 > 0x7F80_0000,
        model::NEG_INFINITY == 0xFF80_0000,
{
}

/// Greedy decoding takes the first of the greatest logits: none exceeds it, and
/// it exceeds all before it that are numbers or infinite. If no logit exceeds
/// negative infinity, it takes the first position.
pub proof fn law_greedy_takes_the_first_greatest(logits: Seq<LogitBits>)
    ensures
        ({
            let i = model::argmax_index(logits);
            &&& model::argmax(logits) == i % 0x1_0000_0000
            &&& if exists|k: int|
                0 <= k < logits.len() && model::exceeds(#[trigger] logits[k], 0xFF80_0000) {
                &&& 0 <= i < logits.len()
                &&& model::exceeds(logits[i], 0xFF80_0000)
                &&& forall|j: int|
                    0 <= j < logits.len() ==> !model::exceeds(#[trigger] logits[j], logits[i])
                &&& forall|j: int|
                    0 <= j < i ==> model::exceeds(logits[i], #[trigger] logits[j]) || logits[j]
                        % 0x8000_0000 > 0x7F80_0000
            } else {
                i == 0
            }
        }),
{
    model::law_greatest_logit_exists(logits);
}

/// The token that follows a context is the first of the model's greatest logits,
/// if the vocabulary has no more tokens than ids.
pub proof fn law_next_token_is_the_greatest<M: Model + ?Sized>(model: &M, context: Seq<TokenId>)
    requires
        0 < model.next_logits(context).len() <= 0x1_0000_0000,
    ensures
        ({
            let logits = model.next_logits(context);
            let t = model::next_token(model, context) as int;
            &&& 0 <= t < logits.len()
            &&& forall|j: int|
                0 <= j < logits.len() && model::exceeds(#[trigger] logits[j], 0xFF80_0000)
                    ==> !model::exceeds(logits[j], logits[t])
            &&& forall|j: int|
                0 <= j < t ==> model::exceeds(logits[t], #[trigger] logits[j]) || logits[j]
                    % 0x8000_0000 > 0x7F80_0000
        }),
{
    let logits = model.next_logits(context);
    law_greedy_takes_the_first_greatest(logits);
    model::law_greatest_logit_exists(logits);
    let i = model::argmax_index(logits);
    if !model::has_candidate(logits) {
        assert(i == 0);
    }
}

proof fn lemma_scale(k: int, c: int, x: int)
    requires
        k == c,
    ensures
        k * x == c * x,
{
}

proof fn lemma_magnitude(e: int, f: int, m: int, x: int)
    requires
        1 <= e,
        0 <= f < 0x80_0000,
        m == e * 0x80_0000 + f,
        x == vstd::arithmetic::power2::pow2((e - 1) as nat),
    ensures
        magnitude(m) == (0x80_0000 + f) * x,
{
    assert(m / 0x80_0000 == e);
    assert(m % 0x80_0000 == f);
}

/// The powers of two that the logits of the deterministic model are made of.
proof fn lemma_powers()
    ensures
        vstd::arithmetic::power2::pow2(149) == 0x80_0000 * vstd::arithmetic::power2::pow2(126),
        vstd::arithmetic::power2::pow2(128) == 4 * vstd::arithmetic::power2::pow2(126),
        vstd::arithmetic::power2::pow2(127) == 2 * vstd::arithmetic::power2::pow2(126),
{
    vstd::arithmetic::power2::lemma2_to64();
    vstd::arithmetic::power2::lemma_pow2_adds(23, 126);
    vstd::arithmetic::power2::lemma_pow2_unfold(128);
    vstd::arithmetic::power2::lemma_pow2_unfold(127);
}

/// The logit at a distance of up to eight from the peak is six less the
/// distance, and the floor beyond is minus two.
pub proof fn law_levels_fall_by_one(d: nat)
    ensures
        is_finite(model::level(d)),
        number(model::level(d)) == (6 - if d < 8 {
            d as int
        } else {
            8
        }) * vstd::arithmetic::power2::pow2(149),
{
    let top = vstd::arithmetic::power2::pow2(149) as int;
    let k = 6 - if d < 8 {
        d as int
    } else {
        8
    };
    let u = vstd::arithmetic::power2::pow2(126) as int;
    lemma_powers();
    if d == 0 {
        lemma_scale(k, 6, top);
        lemma_magnitude(129, 0x40_0000, 0x40C0_0000, 4 * u);
        assert(number(0x40C0_0000) == 6 * top);
    } else if d == 1 {
        lemma_scale(k, 5, top);
        lemma_magnitude(129, 0x20_0000, 0x40A0_0000, 4 * u);
        assert(number(0x40A0_0000) == 5 * top);
    } else if d == 2 {
        lemma_scale(k, 4, top);
        lemma_magnitude(129, 0, 0x4080_0000, 4 * u);
        assert(number(0x4080_0000) == 4 * top);
    } else if d == 3 {
        lemma_scale(k, 3, top);
        lemma_magnitude(128, 0x40_0000, 0x4040_0000, 2 * u);
        assert(number(0x4040_0000) == 3 * top);
    } else if d == 4 {
        lemma_scale(k, 2, top);
        lemma_magnitude(128, 0, 0x4000_0000, 2 * u);
        assert(number(0x4000_0000) == 2 * top);
    } else if d == 5 {
        lemma_scale(k, 1, top);
        lemma_magnitude(127, 0, 0x3F80_0000, u);
        assert(number(0x3F80_0000) == 1 * top);
    } else if d == 6 {
        lemma_scale(k, 0, top);
        assert(number(0x0000_0000) == 0 * top);
    } else if d == 7 {
        lemma_scale(k, -1, top);
        lemma_magnitude(127, 0, 0x3F80_0000, u);
        assert(number(0xBF80_0000) == -1 * top);
    } else {
        lemma_scale(k, -2, top);
        lemma_magnitude(128, 0, 0x4000_0000, 2 * u);
        assert(number(0xC000_0000) == -2 * top);
    }
}

/// The logits of the deterministic model: six less the distance from the peak,
/// down to minus two, one for each token of the vocabulary. Only the end of the
/// sequence after fewer than four tokens is negative infinity.
pub proof fn law_logits_fall_off_from_the_peak(m: TinyView, context: Seq<TokenId>, i: int)
    requires
        0 <= i < m.vocab,
    ensures
        m.next_logits(context).len() == m.vocab,
        context.len() < 4 && i == m.eos ==> m.next_logits(context)[i] == 0xFF80_0000,
        !(context.len() < 4 && i == m.eos) ==> is_finite(m.next_logits(context)[i]) && number(
            m.next_logits(context)[i],
        ) == (6 - ({
            let d = if i < m.peak(context) {
                m.peak(context) - i
            } else {
                i - m.peak(context)
            };
            if d < 8 {
                d
            } else {
                8
            }
        })) * vstd::arithmetic::power2::pow2(149),
{
    law_levels_fall_by_one(model::distance(i, m.peak(context)));
}

/// Where the logits peak: at the pinned token if the context is pinned, and
/// otherwise at the hash of the context, both modulo the vocabulary. A draft
/// that diverges on the hash peaks seven tokens further.
pub proof fn law_peak_is_pinned_or_hashed(m: TinyView, context: Seq<TokenId>)
    requires
        0 < m.vocab,
    ensures
        ({
            let h = model::hash_of(m.seed, context) as int;
            let v = m.vocab as int;
            &&& m.pins.contains_key(context) ==> m.peak(context) == m.pins[context] as int % v
            &&& !m.pins.contains_key(context) && m.divergence is None ==> m.peak(context) == h % v
            &&& forall|period: u8|
                !m.pins.contains_key(context) && m.divergence == Some(period) && period > 0
                    ==> m.peak(context) == if h % (period as int) == 0 {
                    (h + 7) % v
                } else {
                    h % v
                }
            &&& !m.pins.contains_key(context) && m.divergence == Some(0u8) ==> m.peak(context)
                == if h == 0 {
                7int % v
            } else {
                h % v
            }
            &&& m.accepts(context) <==> context.len() >= 4 || m.eos < m.vocab
        }),
{
    let h = model::hash_of(m.seed, context) as int;
    let v = m.vocab as int;
    vstd::arithmetic::div_mod::lemma_add_mod_noop_right(7, h, v);
    if h == 0 {
        vstd::arithmetic::div_mod::lemma_small_mod(0, m.vocab);
    }
}

/// A target follows the hash, and a draft of the same seed and vocabulary
/// follows it too, except on hashes that are multiples of four.
pub proof fn law_draft_and_target_share_the_hash(
    target: TinyView,
    draft: TinyView,
    context: Seq<TokenId>,
)
    requires
        0 < target.vocab == draft.vocab,
        target.seed == draft.seed,
        target.divergence is None,
        draft.divergence == Some(4u8),
        !target.pins.contains_key(context),
        !draft.pins.contains_key(context),
    ensures
        draft.peak(context) == if model::hash_of(target.seed, context) % 4 == 0 {
            (target.peak(context) + 7) % (target.vocab as int)
        } else {
            target.peak(context)
        },
{
}

} // verus!
