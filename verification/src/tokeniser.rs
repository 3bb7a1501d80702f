//! A reversible byte-level tokeniser: each input byte maps to one token id, and
//! decoding maps byte tokens back to bytes.
use vstd::prelude::*;

use crate::model::TokenId;

verus! {

/// The vocabulary size: 256 byte values, the end-of-sequence token, and a small
/// reserved range.
pub const VOCAB_SIZE: usize = 320;

/// The end-of-sequence token.
pub const EOS_TOKEN: TokenId = 0;

/// Whether a token stands for a byte.
pub open spec fn is_byte(token: TokenId) -> bool {
    1 <= token <= 256
}

/// The byte that a token stands for.
pub open spec fn byte_of(token: TokenId) -> u8 {
    (token - 1) as u8
}

/// The token of each byte of a text.
pub open spec fn encoded(text: Seq<char>) -> Seq<TokenId> {
    vstd::utf8::encode_utf8(text).map_values(|b: u8| (b + 1) as TokenId)
}

/// The bytes that tokens stand for. Other tokens are skipped.
pub open spec fn bytes_of(tokens: Seq<TokenId>) -> Seq<u8>
    decreases tokens.len(),
{
    if tokens.len() == 0 {
        Seq::empty()
    } else if is_byte(tokens.last()) {
        bytes_of(tokens.drop_last()).push(byte_of(tokens.last()))
    } else {
        bytes_of(tokens.drop_last())
    }
}

/// Whether bytes are the beginning of the encoding of some character, and not
/// all of it.
pub open spec fn is_cut_short(bytes: Seq<u8>) -> bool {
    exists|c: char| #[trigger]
        vstd::utf8::encode_scalar(c as u32).len() > bytes.len() && vstd::utf8::encode_scalar(
            c as u32,
        ).take(bytes.len() as int) == bytes
}

/// How many bytes the invalid sequence at the front of some bytes has: those
/// that begin the encoding of a character, as many as there are, or else one.
pub open spec fn invalid_len(bytes: Seq<u8>) -> int {
    if bytes.len() >= 3 && is_cut_short(bytes.take(3)) {
        3
    } else if bytes.len() >= 2 && is_cut_short(bytes.take(2)) {
        2
    } else {
        1
    }
}

/// The text of bytes that may not be valid UTF-8: the characters encoded in
/// them, with one replacement character for each invalid sequence.
pub open spec fn repaired_text(bytes: Seq<u8>) -> Seq<char>
    decreases bytes.len(),
{
    if bytes.len() == 0 {
        Seq::empty()
    } else if vstd::utf8::valid_first_scalar(bytes) {
        seq![vstd::utf8::decode_first_scalar(bytes) as char] + repaired_text(
            vstd::utf8::pop_first_scalar(bytes),
        )
    } else {
        seq!['\u{FFFD}'] + repaired_text(bytes.skip(invalid_len(bytes)))
    }
}

/// Bytes as text. Valid UTF-8 is decoded, a single stray byte becomes the
/// replacement character, and anything else is repaired.
pub open spec fn lossy_text(bytes: Seq<u8>) -> Seq<char> {
    if vstd::utf8::valid_utf8(bytes) {
        vstd::utf8::decode_utf8(bytes)
    } else if bytes.len() == 1 {
        seq!['\u{FFFD}']
    } else {
        repaired_text(bytes)
    }
}

/// The text of a list of tokens.
pub open spec fn decoded(tokens: Seq<TokenId>) -> Seq<char> {
    lossy_text(bytes_of(tokens))
}

/// The text of a single token. A token that stands for no byte has none.
pub open spec fn fragment(token: TokenId) -> Seq<char> {
    if is_byte(token) {
        lossy_text(seq![byte_of(token)])
    } else {
        Seq::empty()
    }
}

/// The texts of single tokens, one after the other.
pub open spec fn fragments(tokens: Seq<TokenId>) -> Seq<char>
    decreases tokens.len(),
{
    if tokens.len() == 0 {
        Seq::empty()
    } else {
        fragments(tokens.drop_last()) + fragment(tokens.last())
    }
}

/// Calls `String::from_utf8_lossy`. Trusted: valid UTF-8 comes back as the text
/// it encodes, and a single byte that is not valid UTF-8 comes back as the
/// replacement character U+FFFD. Of other bytes the valid parts come back as the
/// text they encode, and each invalid sequence comes back as one replacement
/// character. An invalid sequence is one to three bytes that begin a character
/// which the next byte does not continue, or a single byte that begins none.
#[verifier::external_body]
fn lossy_string(bytes: &[u8]) -> (r: String)
    ensures
        r@ == lossy_text(bytes@),
        !vstd::utf8::valid_utf8(bytes@) && bytes@.len() > 1 ==> r@ == repaired_text(bytes@),
{
    String::from_utf8_lossy(bytes).into_owned()
}

/// Encode text into token ids. Each byte becomes one token, offset by one so
/// that token 0 stays reserved for eos.
pub fn encode(text: &str) -> (r: Vec<TokenId>)
    ensures
        r@ == encoded(text@),
{
    let bytes = text.as_bytes();
    let mut tokens: Vec<TokenId> = Vec::new();
    let mut i: usize = 0;
    while i < bytes.len()
        invariant
            i <= bytes@.len(),
            tokens@.len() == i,
            forall|j: int| 0 <= j < i ==> #[trigger] tokens@[j] == bytes@[j] + 1,
        decreases bytes@.len() - i,
    {
        let b: u8 = bytes[i];
        tokens.push(b as TokenId + 1);
        i = i + 1;
    }
    assert(tokens@ =~= encoded(text@));
    tokens
}

/// Decode token ids back into a string. Tokens that stand for no byte are
/// skipped, and the output is always valid UTF-8. It is empty only if no token
/// stands for a byte.
pub fn decode(tokens: &[TokenId]) -> (r: String)
    ensures
        r@ == decoded(tokens@),
        r@.len() > 0 <==> exists|i: int| 0 <= i < tokens@.len() && 1 <= #[trigger] tokens@[i] <= 256,
{
    let mut bytes: Vec<u8> = Vec::new();
    let mut i: usize = 0;
    assert(tokens@.take(0) =~= Seq::empty());
    while i < tokens.len()
        invariant
            i <= tokens@.len(),
            bytes@ == bytes_of(tokens@.take(i as int)),
        decreases tokens@.len() - i,
    {
        let t: TokenId = tokens[i];
        assert(tokens@.take(i + 1).drop_last() =~= tokens@.take(i as int));
        if 1 <= t && t <= 256 {
            bytes.push((t - 1) as u8);
        }
        i = i + 1;
    }
    assert(tokens@.take(i as int) =~= tokens@);
    proof {
        law_bytes_are_never_silent(tokens@);
    }
    lossy_string(bytes.as_slice())
}

/// Decode a single token to a string fragment, for streaming where tokens arrive
/// one at a time. Tokens that stand for no byte render as the empty string.
pub fn decode_one(token: TokenId) -> (r: String)
    ensures
        r@ == fragment(token),
{
    if 1 <= token && token <= 256 {
        let mut bytes: Vec<u8> = Vec::new();
        bytes.push((token - 1) as u8);
        assert(bytes@ =~= seq![byte_of(token)]);
        lossy_string(bytes.as_slice())
    } else {
        String::new()
    }
}

/// Encoding uses byte tokens only: never the end of sequence, and always within
/// the vocabulary.
pub proof fn law_encoding_reserves_eos(text: Seq<char>, i: int)
    requires
        0 <= i < encoded(text).len(),
    ensures
        is_byte(encoded(text)[i]),
        encoded(text)[i] != EOS_TOKEN,
        encoded(text)[i] < VOCAB_SIZE,
{
}

proof fn lemma_bytes_of_encoded(bytes: Seq<u8>)
    ensures
        bytes_of(bytes.map_values(|b: u8| (b + 1) as TokenId)) == bytes,
    decreases bytes.len(),
{
    let tokens = bytes.map_values(|b: u8| (b + 1) as TokenId);
    if bytes.len() > 0 {
        lemma_bytes_of_encoded(bytes.drop_last());
        assert(tokens.drop_last() =~= bytes.drop_last().map_values(|b: u8| (b + 1) as TokenId));
        assert(bytes_of(tokens) =~= bytes);
    } else {
        assert(bytes_of(tokens) =~= bytes);
    }
}

/// Decoding inverts encoding, for every text.
pub proof fn law_decode_inverts_encode(text: Seq<char>)
    ensures
        decoded(encoded(text)) == text,
{
    lemma_bytes_of_encoded(vstd::utf8::encode_utf8(text));
    vstd::utf8::encode_utf8_valid_utf8(text);
    vstd::utf8::encode_utf8_decode_utf8(text);
}

/// Tokens that stand for no byte, the end of sequence among them, leave no trace
/// in the text.
pub proof fn law_other_tokens_are_skipped(
    before: Seq<TokenId>,
    token: TokenId,
    after: Seq<TokenId>,
)
    requires
        !is_byte(token),
    ensures
        decoded(before.push(token) + after) == decoded(before + after),
{
    lemma_skip(before, token, after);
}

proof fn lemma_skip(before: Seq<TokenId>, token: TokenId, after: Seq<TokenId>)
    requires
        !is_byte(token),
    ensures
        bytes_of(before.push(token) + after) == bytes_of(before + after),
    decreases after.len(),
{
    if after.len() == 0 {
        assert(before.push(token) + after =~= before.push(token));
        assert(before.push(token).drop_last() =~= before);
        assert(before + after =~= before);
    } else {
        lemma_skip(before, token, after.drop_last());
        assert((before.push(token) + after).drop_last() =~= before.push(token)
            + after.drop_last());
        assert((before + after).drop_last() =~= before + after.drop_last());
    }
}

proof fn lemma_bytes_of_is_filter(tokens: Seq<TokenId>)
    ensures
        bytes_of(tokens) == tokens.filter(|t: TokenId| 1 <= t <= 256).map_values(
            |t: TokenId| (t - 1) as u8,
        ),
    decreases tokens.len(),
{
    reveal(Seq::filter);
    let p = |t: TokenId| 1 <= t <= 256;
    let f = |t: TokenId| (t - 1) as u8;
    if tokens.len() > 0 {
        let front = tokens.drop_last();
        lemma_bytes_of_is_filter(front);
        assert(bytes_of(tokens) =~= tokens.filter(p).map_values(f));
    } else {
        assert(bytes_of(tokens) =~= tokens.filter(p).map_values(f));
    }
}

/// The text of any tokens is the text of the bytes that tokens 1 to 256 stand
/// for, one less than the token each, in order. Nothing else about the tokens
/// matters.
pub proof fn law_decoding_reads_the_bytes(tokens: Seq<TokenId>)
    ensures
        decoded(tokens) == lossy_text(
            tokens.filter(|t: TokenId| 1 <= t <= 256).map_values(|t: TokenId| (t - 1) as u8),
        ),
{
    lemma_bytes_of_is_filter(tokens);
}

/// Each byte of a text is one token, one more than the byte, in order.
pub proof fn law_encoding_is_byte_by_byte(text: Seq<char>, i: int)
    ensures
        encoded(text).len() == vstd::utf8::encode_utf8(text).len(),
        0 <= i < encoded(text).len() ==> encoded(text)[i] == vstd::utf8::encode_utf8(text)[i] + 1,
{
}

proof fn lemma_bytes_of_add(a: Seq<TokenId>, b: Seq<TokenId>)
    ensures
        bytes_of(a + b) == bytes_of(a) + bytes_of(b),
    decreases b.len(),
{
    if b.len() > 0 {
        lemma_bytes_of_add(a, b.drop_last());
        assert((a + b).drop_last() =~= a + b.drop_last());
        assert(bytes_of(a + b) =~= bytes_of(a) + bytes_of(b));
    } else {
        assert(a + b =~= a);
        assert(bytes_of(a + b) =~= bytes_of(a) + bytes_of(b));
    }
}

/// A character at the front of bytes stays there whatever follows.
proof fn lemma_first_scalar_stays(bytes: Seq<u8>, more: Seq<u8>)
    requires
        vstd::utf8::valid_first_scalar(bytes),
    ensures
        vstd::utf8::valid_first_scalar(bytes + more),
        vstd::utf8::decode_first_scalar(bytes + more) == vstd::utf8::decode_first_scalar(bytes),
        vstd::utf8::pop_first_scalar(bytes + more) == vstd::utf8::pop_first_scalar(bytes) + more,
        vstd::utf8::pop_first_scalar(bytes).len() < bytes.len(),
{
    let all = bytes + more;
    assert(all[0] == bytes[0]);
    if bytes.len() >= 2 {
        assert(all[1] == bytes[1]);
    }
    if bytes.len() >= 3 {
        assert(all[2] == bytes[2]);
    }
    if bytes.len() >= 4 {
        assert(all[3] == bytes[3]);
    }
    assert(vstd::utf8::pop_first_scalar(all) =~= vstd::utf8::pop_first_scalar(bytes) + more);
}

/// Valid bytes need no repair.
proof fn lemma_repair_of_valid(bytes: Seq<u8>)
    requires
        vstd::utf8::valid_utf8(bytes),
    ensures
        repaired_text(bytes) == vstd::utf8::decode_utf8(bytes),
    decreases bytes.len(),
{
    if bytes.len() > 0 {
        lemma_first_scalar_stays(bytes, Seq::empty());
        lemma_repair_of_valid(vstd::utf8::pop_first_scalar(bytes));
    } else {
        assert(repaired_text(bytes) =~= vstd::utf8::decode_utf8(bytes));
    }
}

/// The text of bytes is their repair, valid or not.
proof fn lemma_lossy_is_repair(bytes: Seq<u8>)
    ensures
        lossy_text(bytes) == repaired_text(bytes),
{
    if vstd::utf8::valid_utf8(bytes) {
        lemma_repair_of_valid(bytes);
    } else if bytes.len() == 1 {
        assert(!vstd::utf8::valid_first_scalar(bytes)) by {
            if vstd::utf8::valid_first_scalar(bytes) {
                lemma_first_scalar_stays(bytes, Seq::empty());
                assert(vstd::utf8::valid_utf8(vstd::utf8::pop_first_scalar(bytes)));
            }
        }
        assert(bytes.skip(1) =~= Seq::empty());
        assert(repaired_text(bytes.skip(1)) =~= Seq::empty());
        assert(repaired_text(bytes) =~= lossy_text(bytes));
    }
}

proof fn lemma_repair_after_text(text: Seq<char>, bytes: Seq<u8>)
    ensures
        repaired_text(vstd::utf8::encode_utf8(text) + bytes) == text + repaired_text(bytes),
    decreases text.len(),
{
    let front = vstd::utf8::encode_utf8(text);
    if text.len() == 0 {
        assert(front + bytes =~= bytes);
        assert(text + repaired_text(bytes) =~= repaired_text(bytes));
    } else {
        let rest = text.drop_first();
        vstd::utf8::encode_utf8_first_scalar(text);
        vstd::utf8::char_u32_cast(text[0], vstd::utf8::decode_first_scalar(front));
        assert(vstd::utf8::pop_first_scalar(front) =~= vstd::utf8::encode_utf8(rest));
        lemma_first_scalar_stays(front, bytes);
        lemma_repair_after_text(rest, bytes);
        assert(seq![text[0]] + (rest + repaired_text(bytes)) =~= text + repaired_text(bytes));
    }
}

/// Valid text comes back as it is, whatever tokens follow it.
pub proof fn law_valid_text_is_kept(text: Seq<char>, rest: Seq<TokenId>)
    ensures
        decoded(encoded(text) + rest) == text + decoded(rest),
{
    lemma_bytes_of_encoded(vstd::utf8::encode_utf8(text));
    lemma_bytes_of_add(encoded(text), rest);
    lemma_repair_after_text(text, bytes_of(rest));
    lemma_lossy_is_repair(bytes_of(rest));
    lemma_lossy_is_repair(bytes_of(encoded(text) + rest));
}

/// The first byte of a character of several bytes.
proof fn lemma_leading_byte(c: char)
    ensures
        vstd::utf8::encode_scalar(c as u32).len() > 1 ==> 0xC2 <= vstd::utf8::encode_scalar(
            c as u32,
        )[0] <= 0xF4,
        vstd::utf8::encode_scalar(c as u32).len() <= 4,
{
    let s = c as u32;
    vstd::utf8::char_is_scalar(c);
    if vstd::utf8::has_width_2_encoding(s) {
        assert(0xC2 <= 0xC0u8 | ((s >> 6) & 0x1F) as u8 <= 0xDF) by (bit_vector)
            requires
                0x80 <= s <= 0x7FF,
        ;
    } else if vstd::utf8::has_width_3_encoding(s) {
        assert(0xE0 <= 0xE0u8 | ((s >> 12) & 0x0F) as u8 <= 0xEF) by (bit_vector);
    } else if vstd::utf8::has_width_4_encoding(s) {
        assert(0xF0 <= 0xF0u8 | ((s >> 18) & 0x7) as u8 <= 0xF4) by (bit_vector)
            requires
                0x10000 <= s <= 0x10FFFF,
        ;
    }
}

/// A byte that begins no character is invalid on its own.
proof fn lemma_stray_byte(bytes: Seq<u8>)
    requires
        bytes.len() > 0,
        0x80 <= bytes[0] <= 0xC1 || 0xF5 <= bytes[0],
    ensures
        !vstd::utf8::valid_first_scalar(bytes),
        invalid_len(bytes) == 1,
{
    assert forall|n: int| 2 <= n <= 3 && n <= bytes.len() implies !is_cut_short(
        #[trigger] bytes.take(n),
    ) by {
        if is_cut_short(bytes.take(n)) {
            let c = choose|c: char| #[trigger]
                vstd::utf8::encode_scalar(c as u32).len() > bytes.take(n).len()
                    && vstd::utf8::encode_scalar(c as u32).take(bytes.take(n).len() as int)
                    == bytes.take(n);
            lemma_leading_byte(c);
            assert(bytes.take(n)[0] == bytes[0]);
            assert(vstd::utf8::encode_scalar(c as u32).take(n)[0] == vstd::utf8::encode_scalar(
                c as u32,
            )[0]);
        }
    }
    if vstd::utf8::valid_first_scalar(bytes) {
        let (b1, b2) = (bytes[0], bytes[1]);
        if b1 <= 0xC1 {
            assert((((b1 & 0x1F) as u32) << 6) | ((b2 & 0x3F) as u32) < 0x80u32) by (bit_vector)
                requires
                    0xC0 <= b1 <= 0xC1,
            ;
        } else {
            let (b3, b4) = (bytes[2], bytes[3]);
            assert((((b1 & 0x07) as u32) << 18) | (((b2 & 0x3F) as u32) << 12) | (((b3
                & 0x3F) as u32) << 6) | ((b4 & 0x3F) as u32) > 0x10FFFFu32) by (bit_vector)
                requires
                    0xF5 <= b1 <= 0xF7,
            ;
        }
    }
}

/// A token of a byte that begins no character becomes one replacement
/// character, and the tokens after it decode as if it were not there.
pub proof fn law_stray_bytes_are_replaced(token: TokenId, rest: Seq<TokenId>)
    requires
        0x81 <= token <= 0xC2 || 0xF6 <= token <= 0x100,
    ensures
        decoded(seq![token] + rest) == seq!['\u{FFFD}'] + decoded(rest),
{
    let bytes = bytes_of(seq![token] + rest);
    let one = seq![token];
    lemma_bytes_of_add(one, rest);
    assert(one.drop_last() =~= Seq::empty());
    assert(bytes_of(one.drop_last()) =~= Seq::empty());
    assert(bytes_of(one) =~= seq![byte_of(token)]);
    assert(bytes =~= seq![byte_of(token)] + bytes_of(rest));
    lemma_stray_byte(bytes);
    assert(bytes.skip(1) =~= bytes_of(rest));
    lemma_lossy_is_repair(bytes);
    lemma_lossy_is_repair(bytes_of(rest));
}

/// The replacement of an invalid sequence: the longest one that begins a
/// character without completing it, or a single byte, becomes one replacement
/// character, and what follows decodes on its own.
pub proof fn law_invalid_sequences_are_replaced_once(bytes: Seq<u8>)
    requires
        bytes.len() > 0,
        !vstd::utf8::valid_first_scalar(bytes),
    ensures
        exists|n: int|
            {
                &&& 1 <= n <= 3
                &&& n <= bytes.len()
                &&& n > 1 ==> is_cut_short(bytes.take(n))
                &&& forall|m: int|
                    n < m <= 3 && m <= bytes.len() ==> !is_cut_short(#[trigger] bytes.take(m))
                &&& lossy_text(bytes) == seq!['\u{FFFD}'] + lossy_text(#[trigger] bytes.skip(n))
            },
{
    let n = invalid_len(bytes);
    lemma_lossy_is_repair(bytes);
    lemma_lossy_is_repair(bytes.skip(n));
    assert(lossy_text(bytes) == seq!['\u{FFFD}'] + lossy_text(bytes.skip(n)));
    assert forall|m: int| n < m <= 3 && m <= bytes.len() implies !is_cut_short(
        #[trigger] bytes.take(m),
    ) by {
        assert(m == 2 || m == 3);
    }
}

proof fn lemma_repair_len(bytes: Seq<u8>)
    ensures
        repaired_text(bytes).len() <= bytes.len(),
        bytes.len() > 0 ==> repaired_text(bytes).len() > 0,
    decreases bytes.len(),
{
    if bytes.len() > 0 {
        if vstd::utf8::valid_first_scalar(bytes) {
            lemma_first_scalar_stays(bytes, Seq::empty());
            lemma_repair_len(vstd::utf8::pop_first_scalar(bytes));
        } else {
            lemma_repair_len(bytes.skip(invalid_len(bytes)));
        }
    }
}

/// Tokens have text exactly if one of them stands for a byte, and no more
/// characters than they have bytes.
pub proof fn law_bytes_are_never_silent(tokens: Seq<TokenId>)
    ensures
        decoded(tokens).len() > 0 <==> exists|i: int|
            0 <= i < tokens.len() && 1 <= #[trigger] tokens[i] <= 256,
        decoded(tokens).len() <= tokens.len(),
{
    lemma_lossy_is_repair(bytes_of(tokens));
    lemma_repair_len(bytes_of(tokens));
    lemma_some_byte(tokens);
}

proof fn lemma_some_byte(tokens: Seq<TokenId>)
    ensures
        bytes_of(tokens).len() > 0 <==> exists|i: int|
            0 <= i < tokens.len() && 1 <= #[trigger] tokens[i] <= 256,
        bytes_of(tokens).len() <= tokens.len(),
    decreases tokens.len(),
{
    if tokens.len() > 0 {
        let front = tokens.drop_last();
        let n = tokens.len() - 1;
        lemma_some_byte(front);
        if is_byte(tokens.last()) {
            assert(1 <= tokens[n] <= 256);
        } else {
            if exists|i: int| 0 <= i < front.len() && 1 <= #[trigger] front[i] <= 256 {
                let i = choose|i: int| 0 <= i < front.len() && 1 <= #[trigger] front[i] <= 256;
                assert(1 <= tokens[i] <= 256);
            }
            if exists|i: int| 0 <= i < tokens.len() && 1 <= #[trigger] tokens[i] <= 256 {
                let i = choose|i: int| 0 <= i < tokens.len() && 1 <= #[trigger] tokens[i] <= 256;
                assert(1 <= front[i] <= 256);
            }
        }
    }
}

/// A token on its own has the text of a list of that token alone, and streaming
/// puts these texts one after the other.
pub proof fn law_fragment_is_the_text_of_one_token(tokens: Seq<TokenId>, token: TokenId)
    ensures
        fragment(token) == decoded(seq![token]),
        fragments(Seq::empty()).len() == 0,
        fragments(tokens.push(token)) == fragments(tokens) + decoded(seq![token]),
{
    let one = seq![token];
    assert(one.drop_last() =~= Seq::empty());
    assert(bytes_of(one.drop_last()) =~= Seq::empty());
    assert(tokens.push(token).drop_last() =~= tokens);
    if is_byte(token) {
        assert(bytes_of(one) =~= seq![byte_of(token)]);
    } else {
        assert(bytes_of(one) =~= Seq::empty());
        lemma_lossy_is_repair(bytes_of(one));
        assert(decoded(one) =~= Seq::empty());
    }
}

/// Whether the tokens that stand for bytes stand for ASCII characters.
pub open spec fn is_ascii_tokens(tokens: Seq<TokenId>) -> bool {
    forall|i: int| 0 <= i < tokens.len() && is_byte(#[trigger] tokens[i]) ==> tokens[i] <= 128
}

/// ASCII bytes are valid UTF-8 and decode byte by byte.
proof fn lemma_ascii_bytes(bytes: Seq<u8>)
    requires
        forall|i: int| 0 <= i < bytes.len() ==> #[trigger] bytes[i] < 128,
    ensures
        vstd::utf8::valid_utf8(bytes),
        vstd::utf8::decode_utf8(bytes) == bytes.map_values(|b: u8| b as char),
{
    let chars = bytes.map_values(|b: u8| b as char);
    assert(vstd::utf8::is_ascii_chars(chars));
    vstd::utf8::is_ascii_chars_encode_utf8(chars);
    assert(vstd::utf8::encode_utf8(chars) =~= bytes) by {
        assert forall|i: int| 0 <= i < bytes.len() implies vstd::utf8::encode_utf8(chars)[i]
            == bytes[i] by {
            assert(chars[i] as u8 == vstd::utf8::encode_utf8(chars)[i]);
        }
    }
    vstd::utf8::encode_utf8_valid_utf8(chars);
    vstd::utf8::encode_utf8_decode_utf8(chars);
}

proof fn lemma_fragments_ascii(tokens: Seq<TokenId>)
    requires
        is_ascii_tokens(tokens),
    ensures
        fragments(tokens) == bytes_of(tokens).map_values(|b: u8| b as char),
        forall|i: int| 0 <= i < bytes_of(tokens).len() ==> #[trigger] bytes_of(tokens)[i] < 128,
    decreases tokens.len(),
{
    if tokens.len() > 0 {
        let front = tokens.drop_last();
        lemma_fragments_ascii(front);
        let t = tokens.last();
        if is_byte(t) {
            assert(tokens[tokens.len() - 1] <= 128);
            lemma_ascii_bytes(seq![byte_of(t)]);
            assert(fragment(t) =~= seq![byte_of(t) as char]);
        }
        assert(fragments(tokens) =~= bytes_of(tokens).map_values(|b: u8| b as char));
    } else {
        assert(fragments(tokens) =~= bytes_of(tokens).map_values(|b: u8| b as char));
    }
}

proof fn lemma_fragments_short(tokens: Seq<TokenId>)
    requires
        bytes_of(tokens).len() <= 1,
    ensures
        bytes_of(tokens).len() == 0 ==> fragments(tokens).len() == 0,
        bytes_of(tokens).len() == 1 ==> fragments(tokens) == lossy_text(bytes_of(tokens)),
    decreases tokens.len(),
{
    if tokens.len() > 0 {
        let front = tokens.drop_last();
        let t = tokens.last();
        lemma_fragments_short(front);
        if is_byte(t) {
            assert(bytes_of(tokens) =~= seq![byte_of(t)]);
            assert(fragments(tokens) =~= fragment(t));
        } else {
            assert(fragments(tokens) =~= fragments(front));
        }
    }
}

/// Streaming tokens one at a time reassembles to the text of the whole list, if
/// the tokens stand for ASCII characters or for a single byte. A character of
/// several bytes is torn apart by streaming.
pub proof fn law_streaming_matches_decoding(tokens: Seq<TokenId>)
    requires
        is_ascii_tokens(tokens) || bytes_of(tokens).len() <= 1,
    ensures
        fragments(tokens) == decoded(tokens),
{
    if is_ascii_tokens(tokens) {
        lemma_fragments_ascii(tokens);
        lemma_ascii_bytes(bytes_of(tokens));
    } else {
        lemma_fragments_short(tokens);
        if bytes_of(tokens).len() == 0 {
            lemma_ascii_bytes(bytes_of(tokens));
            assert(fragments(tokens) =~= decoded(tokens));
        }
    }
}

} // verus!
