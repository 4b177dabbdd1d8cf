use identity_adapter::base58::Base58Error;
use identity_adapter::identifier::Identifier;

#[test]
fn from_bytes_needs_exactly_32() {
    assert_eq!(
        Identifier::from_bytes(vec![1, 2, 3]).unwrap_err(),
        Base58Error::InvalidLength
    );
    let id = Identifier::from_bytes(vec![7u8; 32]).unwrap();
    assert_eq!(id.bytes(), &vec![7u8; 32]);
}

#[test]
fn text_round_trip() {
    let id = Identifier::from_bytes((0u8..32u8).collect()).unwrap();
    let text = id.to_base58();
    let back = Identifier::from_string(&text).unwrap();
    assert_eq!(back.bytes(), id.bytes());
}

#[test]
fn all_zero_identifier_text() {
    let id = Identifier::from_bytes(vec![0u8; 32]).unwrap();
    assert_eq!(id.to_base58(), "11111111111111111111111111111111");
}

#[test]
fn rejects_the_excluded_letters() {
    // 'I', 'O', 'l' and '0' are not in the alphabet.
    for (text, position) in [("I", 0), ("O", 0), ("l", 0), ("0", 0), ("1O1", 1)] {
        match Identifier::from_string(text).unwrap_err() {
            Base58Error::InvalidCharacter { position: p } => assert_eq!(p, position),
            e => panic!("unexpected error {:?}", e),
        }
    }
}
