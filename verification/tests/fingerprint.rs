use pack_match::fingerprint::{fingerprint, FINGERPRINT_FACTOR, FINGERPRINT_START};

fn by_hand(text: &str) -> u64 {
    let mut result = FINGERPRINT_START;
    for byte in text.bytes() {
        result = (result ^ byte as u64).wrapping_mul(FINGERPRINT_FACTOR);
    }
    result
}

#[test]
fn fingerprint_of_the_empty_text_is_the_start_value() {
    assert_eq!(fingerprint(&String::new()), 0xcbf2_9ce4_8422_2325);
}

#[test]
fn fingerprint_of_known_texts() {
    assert_eq!(fingerprint(&"a".to_string()), 0xaf63_dc4c_8601_ec8c);
    assert_eq!(fingerprint(&"foobar".to_string()), 0x8594_4171_f739_67e8);
}

#[test]
fn fingerprint_mixes_every_byte_of_the_encoding() {
    for text in ["", "a", "ab", "ba", "did:plc:abc", "at://did:plc:abc/app.bsky.graph.list/1", "é", "日本語"] {
        assert_eq!(fingerprint(&text.to_string()), by_hand(text));
    }
    assert_ne!(fingerprint(&"ab".to_string()), fingerprint(&"ba".to_string()));
}
