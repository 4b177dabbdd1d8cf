use identity_adapter::adapter::{proof_from_dyn, IdentityError, IdentityWasm};
use identity_adapter::base58::Base58Error;
use identity_adapter::dynamic::DynValue;
use identity_adapter::identity::{AssetLockProof, Metadata};
use identity_adapter::json::JsonError;

const ZERO_ID: &str = "11111111111111111111111111111111";

fn field(name: &str, v: DynValue) -> (String, DynValue) {
    (name.to_string(), v)
}

fn key_record(id: u64, data: Vec<u64>) -> DynValue {
    DynValue::Record(vec![
        field("id", DynValue::UInt(id)),
        field("purpose", DynValue::UInt(0)),
        field("securityLevel", DynValue::UInt(1)),
        field("type", DynValue::UInt(0)),
        field("readOnly", DynValue::Bool(false)),
        field("data", DynValue::List(data.into_iter().map(DynValue::UInt).collect())),
    ])
}

fn identity_record(id: &str, balance: u64, revision: u64, keys: Vec<DynValue>) -> DynValue {
    DynValue::Record(vec![
        field("protocolVersion", DynValue::UInt(1)),
        field("id", DynValue::Text(id.to_string())),
        field("publicKeys", DynValue::List(keys)),
        field("balance", DynValue::UInt(balance)),
        field("revision", DynValue::UInt(revision)),
    ])
}

#[test]
fn construct_reads_the_example_fields() {
    let raw = identity_record(ZERO_ID, 100, 0, vec![]);
    let w = IdentityWasm::new(&raw).unwrap();
    assert_eq!(w.get_balance(), 100);
    assert_eq!(w.get_revision(), 0);
    assert_eq!(w.get_protocol_version(), 1);
    let w = w.increase_balance(50);
    assert_eq!(w.get_balance(), 150);
}

#[test]
fn balance_round_trip_restores_the_balance() {
    let raw = identity_record(ZERO_ID, 700, 3, vec![]);
    let w = IdentityWasm::new(&raw).unwrap();
    let w = w.increase_balance(12345).reduce_balance(12345);
    assert_eq!(w.get_balance(), 700);
}

#[test]
fn object_round_trip_preserves_fields_and_key_order() {
    let raw = identity_record(
        ZERO_ID,
        42,
        7,
        vec![key_record(2, vec![1, 2, 3]), key_record(9, vec![])],
    );
    let w = IdentityWasm::new(&raw).unwrap();
    let again = IdentityWasm::new(&w.to_object()).unwrap();
    assert_eq!(again.get_protocol_version(), 1);
    assert_eq!(again.get_balance(), 42);
    assert_eq!(again.get_revision(), 7);
    assert_eq!(again.get_id().bytes(), &vec![0u8; 32]);
    let keys = again.get_public_keys();
    assert_eq!(keys.len(), 2);
    let first = again.get_public_key_by_id(2).unwrap();
    assert_eq!(first.data, vec![1, 2, 3]);
    let second = again.get_public_key_by_id(9).unwrap();
    assert_eq!(second.data, Vec::<u8>::new());
}

#[test]
fn text_round_trip_is_field_for_field() {
    let raw = identity_record(ZERO_ID, 42, 7, vec![key_record(2, vec![1, 2, 3])]);
    let w = IdentityWasm::new(&raw).unwrap();
    let w = w
        .set_asset_lock_proof(AssetLockProof { proof_type: 1, payload: vec![9, 8] })
        .set_metadata(Metadata { block_height: 10, core_chain_locked_height: 4 });
    let text = w.to_string();
    let again = IdentityWasm::from(&text).unwrap();
    assert_eq!(again.get_protocol_version(), w.get_protocol_version());
    assert_eq!(again.get_balance(), w.get_balance());
    assert_eq!(again.get_revision(), w.get_revision());
    assert_eq!(again.get_id().bytes(), w.get_id().bytes());
    let k = again.get_public_key_by_id(2).unwrap();
    assert_eq!(k.data, vec![1, 2, 3]);
    assert_eq!(k.security_level, 1);
    let p = again.get_asset_lock_proof().unwrap();
    assert_eq!(p.0.proof_type, 1);
    assert_eq!(p.0.payload, vec![9, 8]);
    assert_eq!(again.get_metadata(), Some(Metadata { block_height: 10, core_chain_locked_height: 4 }));
    assert_eq!(again.to_string(), text);
}

#[test]
fn to_string_is_the_exact_canonical_text() {
    let raw = identity_record(ZERO_ID, 100, 0, vec![]);
    let w = IdentityWasm::new(&raw).unwrap();
    let expected = format!(
        "{{\"protocolVersion\":1,\"id\":\"{}\",\"publicKeys\":[],\"balance\":100,\"revision\":0,\"assetLockProof\":null,\"metadata\":null}}",
        ZERO_ID
    );
    assert_eq!(w.to_string(), expected);
}

#[test]
fn invalid_base58_id_gives_a_typed_error() {
    // '0' is outside the alphabet, at position 0.
    let raw = identity_record("0abc", 1, 0, vec![]);
    let e = IdentityWasm::new(&raw).unwrap_err();
    assert_eq!(
        e,
        IdentityError::InvalidId(Base58Error::InvalidCharacter { position: 0 })
    );
}

#[test]
fn short_id_gives_a_length_error() {
    let raw = identity_record("111", 1, 0, vec![]);
    let e = IdentityWasm::new(&raw).unwrap_err();
    assert_eq!(e, IdentityError::InvalidId(Base58Error::InvalidLength));
}

#[test]
fn each_malformed_field_is_named() {
    assert_eq!(
        IdentityWasm::new(&DynValue::UInt(3)).unwrap_err(),
        IdentityError::NotARecord
    );
    let no_pv = DynValue::Record(vec![field("id", DynValue::Text(ZERO_ID.to_string()))]);
    assert_eq!(IdentityWasm::new(&no_pv).unwrap_err(), IdentityError::InvalidProtocolVersion);
    let pv_too_wide = DynValue::Record(vec![field("protocolVersion", DynValue::UInt(1 << 40))]);
    assert_eq!(IdentityWasm::new(&pv_too_wide).unwrap_err(), IdentityError::InvalidProtocolVersion);
    let id_not_text = DynValue::Record(vec![
        field("protocolVersion", DynValue::UInt(1)),
        field("id", DynValue::UInt(5)),
    ]);
    assert_eq!(IdentityWasm::new(&id_not_text).unwrap_err(), IdentityError::IdNotText);
    let bad_key = DynValue::Record(vec![
        field("protocolVersion", DynValue::UInt(1)),
        field("id", DynValue::Text(ZERO_ID.to_string())),
        field("publicKeys", DynValue::List(vec![DynValue::Null])),
    ]);
    assert_eq!(IdentityWasm::new(&bad_key).unwrap_err(), IdentityError::InvalidPublicKeys);
    let no_balance = DynValue::Record(vec![
        field("protocolVersion", DynValue::UInt(1)),
        field("id", DynValue::Text(ZERO_ID.to_string())),
        field("publicKeys", DynValue::List(vec![])),
    ]);
    assert_eq!(IdentityWasm::new(&no_balance).unwrap_err(), IdentityError::InvalidBalance);
    let no_revision = DynValue::Record(vec![
        field("protocolVersion", DynValue::UInt(1)),
        field("id", DynValue::Text(ZERO_ID.to_string())),
        field("publicKeys", DynValue::List(vec![])),
        field("balance", DynValue::UInt(0)),
    ]);
    assert_eq!(IdentityWasm::new(&no_revision).unwrap_err(), IdentityError::InvalidRevision);
}

#[test]
fn missing_key_gives_empty_never_a_failure() {
    let raw = identity_record(ZERO_ID, 1, 0, vec![key_record(7, vec![])]);
    let w = IdentityWasm::new(&raw).unwrap();
    assert!(w.get_public_key_by_id(7).is_some());
    assert!(w.get_public_key_by_id(8).is_none());
}

#[test]
fn set_public_keys_replaces_in_order() {
    let raw = identity_record(ZERO_ID, 1, 0, vec![]);
    let w = IdentityWasm::new(&raw).unwrap();
    let w = w
        .set_public_keys(&vec![key_record(5, vec![1]), key_record(6, vec![2])])
        .unwrap();
    let keys = w.get_public_keys();
    assert_eq!(keys.len(), 2);
    assert_eq!(w.get_public_key_by_id(5).unwrap().data, vec![1]);
    assert_eq!(w.get_public_key_by_id(6).unwrap().data, vec![2]);
    let bad = w.set_public_keys(&vec![DynValue::Bool(true)]);
    assert_eq!(bad.unwrap_err(), IdentityError::InvalidPublicKeys);
}

#[test]
fn setters_return_updated_copies() {
    let raw = identity_record(ZERO_ID, 1, 0, vec![]);
    let w = IdentityWasm::new(&raw).unwrap();
    let w = w.set_balance(9).set_revision(3);
    assert_eq!(w.get_balance(), 9);
    assert_eq!(w.get_revision(), 3);
    assert!(w.get_asset_lock_proof().is_none());
    assert!(w.get_metadata().is_none());
    let w = w.set_asset_lock_proof(AssetLockProof { proof_type: 2, payload: vec![1] });
    let p = w.get_asset_lock_proof().unwrap();
    assert_eq!(p.0.proof_type, 2);
    let w = w.set_metadata(Metadata { block_height: 5, core_chain_locked_height: 2 });
    assert_eq!(w.get_metadata().unwrap().block_height, 5);
}

#[test]
fn to_buffer_serializes_the_example() {
    let raw = identity_record(ZERO_ID, 100, 0, vec![]);
    let w = IdentityWasm::new(&raw).unwrap();
    let mut expected: Vec<u8> = vec![0, 0, 0, 1];
    expected.extend(vec![0u8; 32]);
    expected.extend(vec![0, 0, 0, 0, 0, 0, 0, 100]);
    expected.extend(vec![0u8; 8]);
    expected.extend(vec![0u8; 8]);
    expected.push(0);
    expected.push(0);
    assert_eq!(w.to_buffer(), expected);
}

#[test]
fn do_stuff_renders_json_text() {
    let v = DynValue::Record(vec![field("a", DynValue::UInt(1))]);
    assert_eq!(IdentityWasm::do_stuff(&v).unwrap(), "{\"a\":1}");
    let bad = DynValue::Text("a\"b".to_string());
    assert_eq!(IdentityWasm::do_stuff(&bad).unwrap_err(), JsonError::Unrepresentable);
}

#[test]
fn proof_from_dyn_reads_the_record_shape() {
    let good = DynValue::Record(vec![
        field("type", DynValue::UInt(1)),
        field("payload", DynValue::List(vec![DynValue::UInt(9), DynValue::UInt(8)])),
    ]);
    let p = proof_from_dyn(&good).unwrap();
    assert_eq!(p.proof_type, 1);
    assert_eq!(p.payload, vec![9, 8]);
}

#[test]
fn proof_from_dyn_rejects_malformed_records() {
    // Not a record at all.
    assert_eq!(
        proof_from_dyn(&DynValue::UInt(1)).unwrap_err(),
        IdentityError::InvalidAssetLockProof
    );
    // The type tag is missing: never defaulted.
    let no_type = DynValue::Record(vec![
        field("payload", DynValue::List(vec![])),
    ]);
    assert_eq!(proof_from_dyn(&no_type).unwrap_err(), IdentityError::InvalidAssetLockProof);
    // The type tag is too wide: never truncated.
    let wide_type = DynValue::Record(vec![
        field("type", DynValue::UInt(300)),
        field("payload", DynValue::List(vec![])),
    ]);
    assert_eq!(proof_from_dyn(&wide_type).unwrap_err(), IdentityError::InvalidAssetLockProof);
    // A payload byte out of range: never truncated.
    let wide_byte = DynValue::Record(vec![
        field("type", DynValue::UInt(1)),
        field("payload", DynValue::List(vec![DynValue::UInt(256)])),
    ]);
    assert_eq!(proof_from_dyn(&wide_byte).unwrap_err(), IdentityError::InvalidAssetLockProof);
}

#[test]
fn from_accepts_only_the_canonical_text() {
    let raw = identity_record(ZERO_ID, 5, 1, vec![]);
    let w = IdentityWasm::new(&raw).unwrap();
    let text = w.to_string();
    assert!(IdentityWasm::from(&text).is_ok());
    // The same JSON with a space added is not the canonical text.
    let spaced = text.replace(":", ": ");
    assert_eq!(IdentityWasm::from(&spaced).unwrap_err(), JsonError::Malformed);
}

#[test]
fn from_rejects_malformed_text() {
    assert_eq!(IdentityWasm::from("not json").unwrap_err(), JsonError::Malformed);
    assert_eq!(IdentityWasm::from("").unwrap_err(), JsonError::Malformed);
    let truncated = "{\"protocolVersion\":1,\"id\":\"";
    assert_eq!(IdentityWasm::from(truncated).unwrap_err(), JsonError::Malformed);
}
