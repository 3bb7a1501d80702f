//! Laws of the two hashes: the model's hash of a context and the hash behind the
//! acceptance draw.
//!
//! Both mix a context token by token, and every step can be undone: it is an
//! exclusive or, a product with an odd number, or a shift folded back in. So no
//! step forgets anything, which is what the laws rest on.
use vstd::prelude::*;

use crate::model::TokenId;
#[allow(unused_imports)]
use crate::{model, speculative};

verus! {

/// A product with a unit is undone by a product with its inverse.
proof fn lemma_unit(x: u64, k: u64, inverse: u64)
    requires
        (k as nat * inverse as nat) % 0x1_0000_0000_0000_0000 == 1,
    ensures
        x.wrapping_mul(k).wrapping_mul(inverse) == x,
{
    let m: int = 0x1_0000_0000_0000_0000;
    let (a, b, c) = (x as int, k as int, inverse as int);
    vstd::arithmetic::div_mod::lemma_mul_mod_noop_left(a * b, c, m);
    vstd::arithmetic::mul::lemma_mul_is_associative(a, b, c);
    vstd::arithmetic::div_mod::lemma_mul_mod_noop_right(a, b * c, m);
    assert(a * 1 == a);
    vstd::arithmetic::div_mod::lemma_small_mod(x as nat, m as nat);
}

/// The inverses of the four multipliers.
proof fn lemma_units()
    ensures
        (0xBF58_476D_1CE4_E5B9nat * 0x96DE_1B17_3F11_9089nat) % 0x1_0000_0000_0000_0000 == 1,
        (0x94D0_49BB_1331_11EBnat * 0x3196_42B2_D24D_8EC3nat) % 0x1_0000_0000_0000_0000 == 1,
        (0x100_0000_01B3nat * 0xCE96_5057_AFF6_957Bnat) % 0x1_0000_0000_0000_0000 == 1,
        (0x2545_F491_4F6C_DD1Dnat * 0x5907_1D96_D81E_CD35nat) % 0x1_0000_0000_0000_0000 == 1,
{
}

/// Distinct words stay distinct under an exclusive or with one word.
proof fn lemma_xor_keeps(a: u64, b: u64, c: u64)
    ensures
        a != b ==> a ^ c != b ^ c,
        a != b ==> c ^ a != c ^ b,
        (a ^ b) ^ b == a,
        a ^ (a ^ b) == b,
{
    assert(a != b ==> a ^ c != b ^ c) by (bit_vector);
    assert(a != b ==> c ^ a != c ^ b) by (bit_vector);
    assert((a ^ b) ^ b == a) by (bit_vector);
    assert(a ^ (a ^ b) == b) by (bit_vector);
}

/// Distinct words stay distinct when their upper bits are folded in.
proof fn lemma_fold_keeps(a: u64, b: u64)
    ensures
        a != b ==> a ^ (a >> 27) != b ^ (b >> 27),
        a != b ==> a ^ (a >> 31) != b ^ (b >> 31),
{
    assert(a != b ==> a ^ (a >> 27) != b ^ (b >> 27)) by (bit_vector);
    assert(a != b ==> a ^ (a >> 31) != b ^ (b >> 31)) by (bit_vector);
}

/// One mixing step tells hashes apart, and tokens.
proof fn lemma_mix_keeps(h1: u64, h2: u64, pos: nat, t1: TokenId, t2: TokenId)
    requires
        h1 == h2 <==> t1 != t2,
    ensures
        model::mix(h1, pos, t1) != model::mix(h2, pos, t2),
{
    let shift = ((0x9E37_79B9 + pos) as u64) << 6;
    let (x1, x2) = ((t1 as u64).wrapping_add(shift), (t2 as u64).wrapping_add(shift));
    if t1 != t2 {
        assert(x1 != x2);
        lemma_xor_keeps(x1, x2, h1);
    } else {
        lemma_xor_keeps(h1, h2, x1);
    }
    let (a1, a2) = (h1 ^ x1, h2 ^ x2);
    lemma_units();
    lemma_unit(a1, 0xBF58_476D_1CE4_E5B9, 0x96DE_1B17_3F11_9089);
    lemma_unit(a2, 0xBF58_476D_1CE4_E5B9, 0x96DE_1B17_3F11_9089);
    lemma_fold_keeps(
        a1.wrapping_mul(0xBF58_476D_1CE4_E5B9),
        a2.wrapping_mul(0xBF58_476D_1CE4_E5B9),
    );
}

/// A window tells seeds apart, and windows that differ in one token.
proof fn lemma_window_keeps(h1: u64, h2: u64, w1: Seq<TokenId>, w2: Seq<TokenId>, i: int)
    requires
        w1.len() == w2.len(),
        h1 == h2 ==> 0 <= i < w1.len() && w1[i] != w2[i],
        h1 == h2 ==> forall|j: int| 0 <= j < w1.len() && j != i ==> w1[j] == w2[j],
        h1 != h2 ==> w1 == w2,
    ensures
        model::mix_window(h1, w1) != model::mix_window(h2, w2),
    decreases w1.len(),
{
    if w1.len() > 0 {
        let (f1, f2) = (w1.drop_last(), w2.drop_last());
        let n = w1.len() - 1;
        if h1 == h2 && i == n {
            assert(f1 =~= f2);
        } else {
            lemma_window_keeps(h1, h2, f1, f2, i);
            assert(w1[n] == w2[n]);
        }
        lemma_mix_keeps(
            model::mix_window(h1, f1),
            model::mix_window(h2, f2),
            n as nat,
            w1.last(),
            w2.last(),
        );
    }
}

/// The finishing step of the model's hash tells words apart.
proof fn lemma_finish_keeps(a: u64, b: u64)
    requires
        a != b,
    ensures
        ({
            let x = a.wrapping_mul(0x94D0_49BB_1331_11EB);
            let y = b.wrapping_mul(0x94D0_49BB_1331_11EB);
            x ^ (x >> 31) != y ^ (y >> 31)
        }),
{
    lemma_units();
    lemma_unit(a, 0x94D0_49BB_1331_11EB, 0x3196_42B2_D24D_8EC3);
    lemma_unit(b, 0x94D0_49BB_1331_11EB, 0x3196_42B2_D24D_8EC3);
    lemma_fold_keeps(
        a.wrapping_mul(0x94D0_49BB_1331_11EB),
        b.wrapping_mul(0x94D0_49BB_1331_11EB),
    );
}

/// The model's hash reads every one of the last eight tokens of a context, and
/// every token of a shorter one: changing one of them changes the hash.
pub proof fn law_hash_reads_every_recent_token(
    seed: u64,
    a: Seq<TokenId>,
    b: Seq<TokenId>,
    i: int,
)
    requires
        a.len() == b.len(),
        0 <= i < a.len(),
        a.len() - i <= 8,
        a[i] != b[i],
        forall|j: int| 0 <= j < a.len() && j != i ==> a[j] == b[j],
    ensures
        model::hash_of(seed, a) != model::hash_of(seed, b),
{
    let skipped = a.len() - model::window_of(a).len();
    lemma_window_keeps(seed, seed, model::window_of(a), model::window_of(b), i - skipped);
    lemma_finish_keeps(
        model::mix_window(seed, model::window_of(a)),
        model::mix_window(seed, model::window_of(b)),
    );
}

/// Models of different seeds hash every context differently.
pub proof fn law_hash_reads_the_seed(seed1: u64, seed2: u64, context: Seq<TokenId>)
    requires
        seed1 != seed2,
    ensures
        model::hash_of(seed1, context) != model::hash_of(seed2, context),
{
    let w = model::window_of(context);
    lemma_window_keeps(seed1, seed2, w, w, 0);
    lemma_finish_keeps(model::mix_window(seed1, w), model::mix_window(seed2, w));
}

/// The model's hash grows with a context of fewer than eight tokens: from the
/// seed, each further token is one mixing step at its position, and the hash is
/// the finished word.
pub proof fn law_hash_grows_token_by_token(seed: u64, context: Seq<TokenId>, token: TokenId)
    requires
        context.len() < 8,
    ensures
        model::mix_window(seed, Seq::empty()) == seed,
        model::mix_window(seed, context.push(token)) == ({
            let word = (token as u64).wrapping_add(((0x9E37_79B9 + context.len()) as u64) << 6);
            let a = (model::mix_window(seed, context) ^ word).wrapping_mul(0xBF58_476D_1CE4_E5B9);
            a ^ (a >> 27)
        }),
        model::hash_of(seed, context) == ({
            let a = model::mix_window(seed, context).wrapping_mul(0x94D0_49BB_1331_11EB);
            a ^ (a >> 31)
        }),
        model::hash_of(seed, context.push(token)) == ({
            let a = model::mix_window(seed, context.push(token)).wrapping_mul(
                0x94D0_49BB_1331_11EB,
            );
            a ^ (a >> 31)
        }),
{
    assert(context.push(token).drop_last() =~= context);
    assert(model::window_of(context) =~= context);
    assert(model::window_of(context.push(token)) =~= context.push(token));
}

/// The model's hash of a long context is that of its last eight tokens.
pub proof fn law_hash_of_a_long_context(seed: u64, earlier: Seq<TokenId>, recent: Seq<TokenId>)
    requires
        recent.len() == 8,
    ensures
        model::hash_of(seed, earlier + recent) == model::hash_of(seed, recent),
{
    assert(model::window_of(earlier + recent) =~= recent);
    assert(model::window_of(recent) =~= recent);
}

/// Contexts of one length that differ in one token are told apart by the draw's
/// hash.
proof fn lemma_draw_mix_keeps(a: Seq<TokenId>, b: Seq<TokenId>, i: int)
    requires
        a.len() == b.len(),
        0 <= i < a.len(),
        a[i] != b[i],
        forall|j: int| 0 <= j < a.len() && j != i ==> a[j] == b[j],
    ensures
        speculative::draw_mix(a) != speculative::draw_mix(b),
    decreases a.len(),
{
    let (fa, fb) = (a.drop_last(), b.drop_last());
    let (ha, hb) = (speculative::draw_mix(fa), speculative::draw_mix(fb));
    let n = a.len() - 1;
    if i == n {
        assert(fa =~= fb);
        lemma_xor_keeps(a[n] as u64, b[n] as u64, ha);
    } else {
        lemma_draw_mix_keeps(fa, fb, i);
        lemma_xor_keeps(ha, hb, a[n] as u64);
    }
    lemma_units();
    lemma_unit(ha ^ (a[n] as u64), 0x100_0000_01B3, 0xCE96_5057_AFF6_957B);
    lemma_unit(hb ^ (b[n] as u64), 0x100_0000_01B3, 0xCE96_5057_AFF6_957B);
}

/// The draw grows with the context, however long it is: from a fixed word, each
/// further token is an exclusive or and a product, and the draw at a position is
/// the upper 53 bits of one more such step with the position.
pub proof fn law_draw_grows_token_by_token(context: Seq<TokenId>, token: TokenId, position: u64)
    ensures
        speculative::draw_mix(Seq::empty()) == 0xD1B5_4A32_D192_ED03,
        speculative::draw_mix(context.push(token)) == (speculative::draw_mix(context) ^ (
        token as u64)).wrapping_mul(0x100_0000_01B3),
        speculative::draw(context, position as nat) == (speculative::draw_mix(context)
            ^ position).wrapping_mul(0x2545_F491_4F6C_DD1D) / 0x800,
{
    assert(context.push(token).drop_last() =~= context);
    let h = (speculative::draw_mix(context) ^ position).wrapping_mul(0x2545_F491_4F6C_DD1D);
    assert(h >> 11 == h / 0x800) by (bit_vector);
}

/// The draw's hash reads every token of a context of any length: changing one
/// changes the hash.
pub proof fn law_draw_reads_every_token(a: Seq<TokenId>, b: Seq<TokenId>, i: int)
    requires
        a.len() == b.len(),
        0 <= i < a.len(),
        a[i] != b[i],
        forall|j: int| 0 <= j < a.len() && j != i ==> a[j] == b[j],
    ensures
        speculative::draw_mix(a) != speculative::draw_mix(b),
        // The draws of the one are those of the other in another order.
        forall|p: u64| #[trigger]
            speculative::draw(a, p as nat) == speculative::draw(
                b,
                (p ^ speculative::draw_mix(a) ^ speculative::draw_mix(b)) as nat,
            ),
{
    lemma_draw_mix_keeps(a, b, i);
    let (x, y) = (speculative::draw_mix(a), speculative::draw_mix(b));
    assert forall|p: u64| #[trigger]
        speculative::draw(a, p as nat) == speculative::draw(b, (p ^ x ^ y) as nat) by {
        assert(y ^ (p ^ x ^ y) == x ^ p) by (bit_vector);
    }
}

/// After every context, every draw comes up: each of the `2^53` numerators is
/// the draw at some position.
pub proof fn law_every_draw_comes_up(context: Seq<TokenId>, numer: u64)
    requires
        numer < 0x20_0000_0000_0000,
    ensures
        exists|p: u64| #[trigger] speculative::draw(context, p as nat) == numer,
{
    let x = speculative::draw_mix(context);
    let word = numer << 11;
    let before = word.wrapping_mul(0x5907_1D96_D81E_CD35);
    let p = x ^ before;
    lemma_units();
    lemma_unit(word, 0x5907_1D96_D81E_CD35, 0x2545_F491_4F6C_DD1D);
    lemma_xor_keeps(x, before, 0);
    assert((numer << 11) >> 11 == numer) by (bit_vector)
        requires
            numer < 0x20_0000_0000_0000u64,
    ;
    assert(speculative::draw(context, p as nat) == numer);
}

/// After every context, no draw is favoured: two positions have the same draw
/// only if their words share the upper 53 bits, and the words of two positions
/// are never the same.
pub proof fn law_positions_are_told_apart(context: Seq<TokenId>, p: u64, q: u64)
    requires
        p != q,
    ensures
        ({
            let x = (speculative::draw_mix(context) ^ p).wrapping_mul(0x2545_F491_4F6C_DD1D);
            let y = (speculative::draw_mix(context) ^ q).wrapping_mul(0x2545_F491_4F6C_DD1D);
            &&& x != y
            &&& speculative::draw(context, p as nat) == x / 0x800
            &&& speculative::draw(context, q as nat) == y / 0x800
        }),
{
    let h = speculative::draw_mix(context);
    lemma_xor_keeps(p, q, h);
    lemma_units();
    lemma_unit(h ^ p, 0x2545_F491_4F6C_DD1D, 0x5907_1D96_D81E_CD35);
    lemma_unit(h ^ q, 0x2545_F491_4F6C_DD1D, 0x5907_1D96_D81E_CD35);
    law_draw_grows_token_by_token(context, 0, p);
    law_draw_grows_token_by_token(context, 0, q);
}

} // verus!
