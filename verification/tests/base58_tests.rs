use identity_adapter::base58::{decode32, encode32, Base58Error};

fn chars_of(s: &str) -> Vec<char> {
    s.chars().collect()
}

#[test]
fn all_ones_decodes_to_zero_bytes() {
    let b = decode32("11111111111111111111111111111111").unwrap();
    assert_eq!(b, vec![0u8; 32]);
}

#[test]
fn zero_bytes_encode_to_all_ones() {
    let b = vec![0u8; 32];
    let s = encode32(&b);
    assert_eq!(s, chars_of("11111111111111111111111111111111"));
}

#[test]
fn last_byte_one_round_trip() {
    let mut b = vec![0u8; 32];
    b[31] = 1;
    let s = encode32(&b);
    let expected = format!("{}2", "1".repeat(31));
    assert_eq!(s, chars_of(&expected));
    let text: String = s.into_iter().collect();
    assert_eq!(decode32(&text).unwrap(), b);
}

#[test]
fn value_256_encodes_as_5r() {
    let mut b = vec![0u8; 32];
    b[30] = 1;
    let s = encode32(&b);
    assert_eq!(s, chars_of("1111111111111111111111111111115R"));
    assert_eq!(decode32("1111111111111111111111111111115R").unwrap(), b);
}

#[test]
fn invalid_character_is_reported_at_first_position() {
    // '0' is not in the alphabet.
    let r = decode32("1111111111111111111111111111110l");
    assert_eq!(r.unwrap_err(), Base58Error::InvalidCharacter { position: 30 });
}

#[test]
fn wrong_length_is_rejected() {
    assert_eq!(decode32("111").unwrap_err(), Base58Error::InvalidLength);
    assert_eq!(decode32("").unwrap_err(), Base58Error::InvalidLength);
    // 33 ones denote 33 zero bytes, one too many.
    assert_eq!(
        decode32("111111111111111111111111111111111").unwrap_err(),
        Base58Error::InvalidLength
    );
}

#[test]
fn non_canonical_leading_ones_are_rejected() {
    // 32 ones followed by a digit denote 33 bytes.
    assert_eq!(
        decode32("111111111111111111111111111111112").unwrap_err(),
        Base58Error::InvalidLength
    );
}

#[test]
fn big_value_round_trip() {
    let b: Vec<u8> = (0u8..32u8).collect();
    let s = encode32(&b);
    let text: String = s.into_iter().collect();
    assert_eq!(decode32(&text).unwrap(), b);
}

#[test]
fn max_value_round_trip() {
    let b = vec![0xffu8; 32];
    let s = encode32(&b);
    let text: String = s.iter().collect();
    assert_eq!(text.len(), 44);
    assert_eq!(decode32(&text).unwrap(), b);
}
