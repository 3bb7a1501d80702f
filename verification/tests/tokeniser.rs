use forge_infer::model::TokenId;
use forge_infer::tokeniser::{decode, decode_one, encode, EOS_TOKEN, VOCAB_SIZE};

#[test]
fn round_trips_ascii() {
    let text = "hello forge";
    assert_eq!(decode(&encode(text)), text);
}

#[test]
fn eos_is_reserved_and_skipped() {
    assert_eq!(encode("a")[0], b'a' as TokenId + 1);
    assert_eq!(decode(&[EOS_TOKEN, b'x' as TokenId + 1]), "x");
}

#[test]
fn decode_one_matches_decode() {
    let toks = encode("hi");
    let joined: String = toks.iter().map(|t| decode_one(*t)).collect();
    assert_eq!(joined, "hi");
}

#[test]
fn round_trips_any_text() {
    for text in ["", "naïve", "日本語", "🦀 crab", "\u{0}\u{7f}"] {
        assert_eq!(decode(&encode(text)), text);
        assert_eq!(encode(text).len(), text.len());
        assert!(encode(text).iter().all(|t| *t != EOS_TOKEN && *t <= 256));
    }
}

#[test]
fn bytes_that_are_no_text_are_replaced() {
    // 0xFF is no text on its own, nor is half of a character.
    assert_eq!(decode(&[256, 'a' as TokenId + 1]), "\u{FFFD}a");
    assert_eq!(decode_one(256), "\u{FFFD}");
    assert_eq!(decode_one(0xC3 + 1), "\u{FFFD}");
    assert_eq!(decode(&[0xC3 + 1, 0xA9 + 1]), "é");
}

#[test]
fn reserved_tokens_are_no_text() {
    assert_eq!(decode(&[257, 'a' as TokenId + 1, 319, 5000]), "a");
    assert_eq!(decode_one(EOS_TOKEN), "");
    assert_eq!(decode_one(257), "");
    assert_eq!(decode_one(VOCAB_SIZE as TokenId - 1), "");
    assert_eq!(VOCAB_SIZE, 320);
}
