//! The boundary adapter: builds an identity from a dynamic value and
//! renders it back.

use vstd::prelude::*;
use crate::base58::{all_b58, is_b58_encoding, is_b58_char, Base58Error};
use crate::dynamic::{DynValue, SpecValue, record_lookup, spec_fields_of, dyn_views, field_views,
    lookup_field, lemma_dyn_views_index, lemma_field_views_index, dyn_view};
use crate::identifier::Identifier;
use crate::identity::{Identity, IdentityPublicKey, IdentityView, KeyView, keys_view,
    AssetLockProof, ProofView, Metadata};

verus! {

/// Why a dynamic value was rejected.  Every failure names the field that
/// broke and what was expected of it.
#[derive(Clone, Copy, Debug, PartialEq, Eq, Structural)]
pub enum IdentityError {
    /// The value as a whole is not a record.
    NotARecord,
    /// `protocolVersion` is missing, not an unsigned number, or too wide.
    InvalidProtocolVersion,
    /// `id` is missing or not text.
    IdNotText,
    /// `id` is text but not the base-58 form of 32 bytes.
    InvalidId(Base58Error),
    /// `publicKeys` is missing, not a list, or a record in it is malformed.
    InvalidPublicKeys,
    /// `balance` is missing or not an unsigned number.
    InvalidBalance,
    /// `revision` is missing or not an unsigned number.
    InvalidRevision,
    /// An asset-lock proof value is not a record of `type` and `payload`.
    InvalidAssetLockProof,
}

/// Index of the first character outside the base-58 alphabet.
pub open spec fn first_non_b58(s: Seq<char>) -> int
    decreases s.len(),
{
    if s.len() == 0 {
        0
    } else if !is_b58_char(s[0]) {
        0
    } else {
        1 + first_non_b58(s.subrange(1, s.len() as int))
    }
}

/// The error `decode32` reports for a text that denotes no identifier.
pub open spec fn spec_b58_error(s: Seq<char>) -> Base58Error {
    if !all_b58(s) {
        Base58Error::InvalidCharacter { position: first_non_b58(s) as usize }
    } else {
        Base58Error::InvalidLength
    }
}

/// A valid run up to `p` and a bad character at `p` pin `first_non_b58`
/// down to `p`.
pub proof fn lemma_first_non_b58(s: Seq<char>, p: int)
    requires
        0 <= p < s.len(),
        !is_b58_char(s[p]),
        forall|j: int| 0 <= j < p ==> is_b58_char(#[trigger] s[j]),
    ensures
        first_non_b58(s) == p,
    decreases p,
{
    if p > 0 {
        let rest = s.subrange(1, s.len() as int);
        assert(forall|j: int| 0 <= j < p - 1 ==> rest[j] == s[j + 1]);
        assert(rest[p - 1] == s[p]);
        lemma_first_non_b58(rest, p - 1);
    }
}

/// An unsigned field that must fit 32 bits.
pub open spec fn spec_u32_field(fields: Seq<(Seq<char>, SpecValue)>, key: Seq<char>) -> Option<u32> {
    match record_lookup(fields, key) {
        Some(SpecValue::UInt(n)) => if n <= u32::MAX { Some(n as u32) } else { None },
        _ => None,
    }
}

/// An unsigned 64-bit field.
pub open spec fn spec_u64_field(fields: Seq<(Seq<char>, SpecValue)>, key: Seq<char>) -> Option<u64> {
    match record_lookup(fields, key) {
        Some(SpecValue::UInt(n)) => Some(n),
        _ => None,
    }
}

/// An unsigned field that must fit 8 bits.
pub open spec fn spec_u8_field(fields: Seq<(Seq<char>, SpecValue)>, key: Seq<char>) -> Option<u8> {
    match record_lookup(fields, key) {
        Some(SpecValue::UInt(n)) => if n <= u8::MAX { Some(n as u8) } else { None },
        _ => None,
    }
}

/// A boolean field.
pub open spec fn spec_bool_field(fields: Seq<(Seq<char>, SpecValue)>, key: Seq<char>) -> Option<bool> {
    match record_lookup(fields, key) {
        Some(SpecValue::Bool(b)) => Some(b),
        _ => None,
    }
}

/// The bytes of the first `n` items of a list, each an unsigned number
/// below 256.
pub open spec fn spec_bytes_of(items: Seq<SpecValue>, n: int) -> Option<Seq<u8>>
    decreases n,
{
    if n <= 0 {
        Some(Seq::empty())
    } else {
        match (spec_bytes_of(items, n - 1), items[n - 1]) {
            (Some(bs), SpecValue::UInt(b)) => if b <= u8::MAX {
                Some(bs.push(b as u8))
            } else {
                None
            },
            _ => None,
        }
    }
}

/// The public-key record a dynamic value denotes, if it has the expected
/// shape.
pub open spec fn spec_key_of(v: SpecValue) -> Option<KeyView> {
    match v {
        SpecValue::Record(fields) => {
            match (
                spec_u32_field(fields, "id"@),
                spec_u8_field(fields, "purpose"@),
                spec_u8_field(fields, "securityLevel"@),
                spec_u8_field(fields, "type"@),
                spec_bool_field(fields, "readOnly"@),
                record_lookup(fields, "data"@),
            ) {
                (Some(id), Some(purpose), Some(security_level), Some(key_type), Some(read_only),
                    Some(SpecValue::List(items))) => {
                    match spec_bytes_of(items, items.len() as int) {
                        Some(data) => Some(KeyView {
                            id,
                            purpose,
                            security_level,
                            key_type,
                            read_only,
                            data,
                        }),
                        None => None,
                    }
                },
                _ => None,
            }
        },
        _ => None,
    }
}

/// The key records of the first `n` items of a list.
pub open spec fn spec_keys_of(items: Seq<SpecValue>, n: int) -> Option<Seq<KeyView>>
    decreases n,
{
    if n <= 0 {
        Some(Seq::empty())
    } else {
        match (spec_keys_of(items, n - 1), spec_key_of(items[n - 1])) {
            (Some(ks), Some(k)) => Some(ks.push(k)),
            _ => None,
        }
    }
}

/// Once a prefix fails, every longer prefix fails.
pub proof fn lemma_spec_keys_none(items: Seq<SpecValue>, m: int, n: int)
    requires
        0 <= m <= n,
        spec_keys_of(items, m) is None,
    ensures
        spec_keys_of(items, n) is None,
    decreases n - m,
{
    if m < n {
        lemma_spec_keys_none(items, m, n - 1);
    }
}

/// Once a prefix fails, every longer prefix fails.
pub proof fn lemma_spec_bytes_none(items: Seq<SpecValue>, m: int, n: int)
    requires
        0 <= m <= n,
        spec_bytes_of(items, m) is None,
    ensures
        spec_bytes_of(items, n) is None,
    decreases n - m,
{
    if m < n {
        lemma_spec_bytes_none(items, m, n - 1);
    }
}

/// The identity a dynamic value denotes, or the first failure in field
/// order: protocol version, id, public keys, balance, revision.  Unknown
/// fields are ignored; the asset-lock proof and the metadata are never
/// populated on this path.
pub open spec fn spec_construct(v: SpecValue) -> Result<IdentityView, IdentityError> {
    match v {
        SpecValue::Record(fields) => spec_construct_fields(fields),
        _ => Err(IdentityError::NotARecord),
    }
}

/// `spec_construct` on the fields of a record.
pub open spec fn spec_construct_fields(fields: Seq<(Seq<char>, SpecValue)>) -> Result<IdentityView, IdentityError> {
    match spec_u32_field(fields, "protocolVersion"@) {
        None => Err(IdentityError::InvalidProtocolVersion),
        Some(protocol_version) => match record_lookup(fields, "id"@) {
            Some(SpecValue::Text(s)) => {
                if exists|b: Seq<u8>| is_b58_encoding(s, b) {
                    let id = choose|b: Seq<u8>| is_b58_encoding(s, b);
                    match record_lookup(fields, "publicKeys"@) {
                        Some(SpecValue::List(items)) => {
                            match spec_keys_of(items, items.len() as int) {
                                Some(public_keys) => {
                                    match spec_u64_field(fields, "balance"@) {
                                        None => Err(IdentityError::InvalidBalance),
                                        Some(balance) => match spec_u64_field(fields, "revision"@) {
                                            None => Err(IdentityError::InvalidRevision),
                                            Some(revision) => Ok(IdentityView {
                                                protocol_version,
                                                id,
                                                public_keys,
                                                balance,
                                                revision,
                                                asset_lock_proof: None,
                                                metadata: None,
                                            }),
                                        },
                                    }
                                },
                                None => Err(IdentityError::InvalidPublicKeys),
                            }
                        },
                        _ => Err(IdentityError::InvalidPublicKeys),
                    }
                } else {
                    Err(IdentityError::InvalidId(spec_b58_error(s)))
                }
            },
            _ => Err(IdentityError::IdNotText),
        },
    }
}

/// Reads a list of numbers below 256 as bytes.
fn bytes_from_list(items: &Vec<DynValue>) -> (r: Option<Vec<u8>>)
    ensures
        match r {
            Some(bs) => spec_bytes_of(dyn_views(*items, items@.len() as int), items@.len() as int)
                == Some(bs@),
            None => spec_bytes_of(dyn_views(*items, items@.len() as int), items@.len() as int)
                is None,
        },
{
    let n = items.len();
    let ghost views = dyn_views(*items, n as int);
    proof {
        lemma_dyn_views_index(*items, n as int);
    }
    let mut out: Vec<u8> = Vec::new();
    let mut i: usize = 0;
    while i < n
        invariant
            n == items@.len(),
            i <= n,
            views == dyn_views(*items, n as int),
            views.len() == n,
            forall|j: int| 0 <= j < n ==> #[trigger] views[j] == dyn_view(items@[j]),
            spec_bytes_of(views, i as int) == Some(out@),
        decreases n - i,
    {
        match &items[i] {
            DynValue::UInt(b) => {
                if *b <= 255 {
                    out.push(*b as u8);
                } else {
                    proof {
                        lemma_spec_bytes_none(views, i + 1, n as int);
                    }
                    return None;
                }
            },
            _ => {
                proof {
                    lemma_spec_bytes_none(views, i + 1, n as int);
                }
                return None;
            },
        }
        i += 1;
    }
    Some(out)
}

/// Reads one public-key record out of a dynamic value.
fn key_from_dyn(v: &DynValue) -> (r: Option<IdentityPublicKey>)
    ensures
        match r {
            Some(k) => spec_key_of(v@) == Some(k@),
            None => spec_key_of(v@) is None,
        },
{
    let fields = match v {
        DynValue::Record(fields) => fields,
        _ => {
            return None;
        },
    };
    proof {
        lemma_field_views_index(*fields, fields@.len() as int);
        assert(v@ == SpecValue::Record(spec_fields_of(*fields)));
    }
    let ghost sf = spec_fields_of(*fields);
    let id: u32 = match lookup_field(fields, "id") {
        Some(DynValue::UInt(n)) => {
            if *n <= u32::MAX as u64 {
                *n as u32
            } else {
                proof { assert(spec_u32_field(sf, "id"@) is None); }
                return None;
            }
        },
        _ => {
            proof { assert(spec_u32_field(sf, "id"@) is None); }
            return None;
        },
    };
    proof { assert(spec_u32_field(sf, "id"@) == Some(id)); }
    let purpose: u8 = match lookup_field(fields, "purpose") {
        Some(DynValue::UInt(n)) => {
            if *n <= u8::MAX as u64 {
                *n as u8
            } else {
                proof { assert(spec_u8_field(sf, "purpose"@) is None); }
                return None;
            }
        },
        _ => {
            proof { assert(spec_u8_field(sf, "purpose"@) is None); }
            return None;
        },
    };
    proof { assert(spec_u8_field(sf, "purpose"@) == Some(purpose)); }
    let security_level: u8 = match lookup_field(fields, "securityLevel") {
        Some(DynValue::UInt(n)) => {
            if *n <= u8::MAX as u64 {
                *n as u8
            } else {
                proof { assert(spec_u8_field(sf, "securityLevel"@) is None); }
                return None;
            }
        },
        _ => {
            proof { assert(spec_u8_field(sf, "securityLevel"@) is None); }
            return None;
        },
    };
    proof { assert(spec_u8_field(sf, "securityLevel"@) == Some(security_level)); }
    let key_type: u8 = match lookup_field(fields, "type") {
        Some(DynValue::UInt(n)) => {
            if *n <= u8::MAX as u64 {
                *n as u8
            } else {
                proof { assert(spec_u8_field(sf, "type"@) is None); }
                return None;
            }
        },
        _ => {
            proof { assert(spec_u8_field(sf, "type"@) is None); }
            return None;
        },
    };
    proof { assert(spec_u8_field(sf, "type"@) == Some(key_type)); }
    let read_only: bool = match lookup_field(fields, "readOnly") {
        Some(DynValue::Bool(b)) => *b,
        _ => {
            proof { assert(spec_bool_field(sf, "readOnly"@) is None); }
            return None;
        },
    };
    proof { assert(spec_bool_field(sf, "readOnly"@) == Some(read_only)); }
    let data: Vec<u8> = match lookup_field(fields, "data") {
        Some(DynValue::List(items)) => {
            proof {
                assert(record_lookup(sf, "data"@) == Some(dyn_view(DynValue::List(*items))));
                lemma_dyn_views_index(*items, items@.len() as int);
            }
            match bytes_from_list(items) {
                Some(bs) => bs,
                None => {
                    return None;
                },
            }
        },
        _ => {
            return None;
        },
    };
    let r = IdentityPublicKey { id, purpose, security_level, key_type, read_only, data };
    proof {
        assert(spec_key_of(v@) == Some(r@));
    }
    Some(r)
}

/// The dynamic record of one public key.
pub open spec fn spec_key_object(k: KeyView) -> SpecValue {
    SpecValue::Record(seq![
        ("id"@, SpecValue::UInt(k.id as u64)),
        ("purpose"@, SpecValue::UInt(k.purpose as u64)),
        ("securityLevel"@, SpecValue::UInt(k.security_level as u64)),
        ("type"@, SpecValue::UInt(k.key_type as u64)),
        ("readOnly"@, SpecValue::Bool(k.read_only)),
        ("data"@, SpecValue::List(k.data.map(|i: int, b: u8| SpecValue::UInt(b as u64)))),
    ])
}

/// The dynamic form of an optional asset-lock proof.
pub open spec fn spec_proof_object(p: Option<ProofView>) -> SpecValue {
    match p {
        None => SpecValue::Null,
        Some(p) => SpecValue::Record(seq![
            ("type"@, SpecValue::UInt(p.proof_type as u64)),
            ("payload"@, SpecValue::List(p.payload.map(|i: int, b: u8| SpecValue::UInt(b as u64)))),
        ]),
    }
}

/// The dynamic form of optional metadata.
pub open spec fn spec_metadata_object(m: Option<Metadata>) -> SpecValue {
    match m {
        None => SpecValue::Null,
        Some(m) => SpecValue::Record(seq![
            ("blockHeight"@, SpecValue::UInt(m.block_height)),
            ("coreChainLockedHeight"@, SpecValue::UInt(m.core_chain_locked_height)),
        ]),
    }
}

/// The dynamic record of a whole identity, with `id_text` standing in for
/// the identifier's base-58 text.
pub open spec fn spec_object_of(v: IdentityView, id_text: Seq<char>) -> SpecValue {
    SpecValue::Record(seq![
        ("protocolVersion"@, SpecValue::UInt(v.protocol_version as u64)),
        ("id"@, SpecValue::Text(id_text)),
        ("publicKeys"@, SpecValue::List(v.public_keys.map(|i: int, k: KeyView| spec_key_object(k)))),
        ("balance"@, SpecValue::UInt(v.balance)),
        ("revision"@, SpecValue::UInt(v.revision)),
        ("assetLockProof"@, spec_proof_object(v.asset_lock_proof)),
        ("metadata"@, spec_metadata_object(v.metadata)),
    ])
}

/// Renders bytes as a list of numbers.
fn bytes_to_list(data: &Vec<u8>) -> (r: Vec<DynValue>)
    ensures
        dyn_views(r, r@.len() as int) == data@.map(|i: int, b: u8| SpecValue::UInt(b as u64)),
        r@.len() == data@.len(),
{
    let n = data.len();
    let mut out: Vec<DynValue> = Vec::new();
    let mut i: usize = 0;
    while i < n
        invariant
            n == data@.len(),
            i <= n,
            out@.len() == i,
            forall|j: int| 0 <= j < i ==> out@[j] == DynValue::UInt(data@[j] as u64),
        decreases n - i,
    {
        out.push(DynValue::UInt(data[i] as u64));
        i += 1;
    }
    proof {
        lemma_dyn_views_index(out, n as int);
        assert(dyn_views(out, n as int) =~= data@.map(|j: int, b: u8| SpecValue::UInt(b as u64)));
    }
    out
}

/// Renders one public key as a dynamic record.
fn key_to_dyn(k: &IdentityPublicKey) -> (r: DynValue)
    ensures
        r@ == spec_key_object(k@),
{
    let data_items = bytes_to_list(&k.data);
    let mut fields: Vec<(String, DynValue)> = Vec::new();
    fields.push((String::from_str("id"), DynValue::UInt(k.id as u64)));
    fields.push((String::from_str("purpose"), DynValue::UInt(k.purpose as u64)));
    fields.push((String::from_str("securityLevel"), DynValue::UInt(k.security_level as u64)));
    fields.push((String::from_str("type"), DynValue::UInt(k.key_type as u64)));
    fields.push((String::from_str("readOnly"), DynValue::Bool(k.read_only)));
    fields.push((String::from_str("data"), DynValue::List(data_items)));
    let r = DynValue::Record(fields);
    proof {
        lemma_field_views_index(fields, 6);
        assert(field_views(fields, 6) =~= spec_key_object(k@)->Record_0);
    }
    r
}

/// The asset-lock proof a dynamic value denotes, if it is a record of a
/// small `type` tag and a `payload` byte list.
pub open spec fn spec_proof_of(v: SpecValue) -> Option<ProofView> {
    match v {
        SpecValue::Record(fields) => {
            match (spec_u8_field(fields, "type"@), record_lookup(fields, "payload"@)) {
                (Some(proof_type), Some(SpecValue::List(items))) => {
                    match spec_bytes_of(items, items.len() as int) {
                        Some(payload) => Some(ProofView { proof_type, payload }),
                        None => None,
                    }
                },
                _ => None,
            }
        },
        _ => None,
    }
}

/// Reads an asset-lock proof out of a dynamic value; a value of any other
/// shape is rejected with a typed error, never defaulted.
pub fn proof_from_dyn(v: &DynValue) -> (r: Result<AssetLockProof, IdentityError>)
    ensures
        match r {
            Ok(p) => spec_proof_of(v@) == Some(p@),
            Err(e) => e == IdentityError::InvalidAssetLockProof && spec_proof_of(v@) is None,
        },
{
    let fields = match v {
        DynValue::Record(fields) => fields,
        _ => {
            return Err(IdentityError::InvalidAssetLockProof);
        },
    };
    proof {
        lemma_field_views_index(*fields, fields@.len() as int);
        assert(v@ == SpecValue::Record(spec_fields_of(*fields)));
    }
    let ghost sf = spec_fields_of(*fields);
    let proof_type: u8 = match lookup_field(fields, "type") {
        Some(DynValue::UInt(n)) => {
            if *n <= u8::MAX as u64 {
                *n as u8
            } else {
                proof { assert(spec_u8_field(sf, "type"@) is None); }
                return Err(IdentityError::InvalidAssetLockProof);
            }
        },
        _ => {
            proof { assert(spec_u8_field(sf, "type"@) is None); }
            return Err(IdentityError::InvalidAssetLockProof);
        },
    };
    proof { assert(spec_u8_field(sf, "type"@) == Some(proof_type)); }
    let payload: Vec<u8> = match lookup_field(fields, "payload") {
        Some(DynValue::List(items)) => {
            proof {
                assert(record_lookup(sf, "payload"@) == Some(dyn_view(DynValue::List(*items))));
                lemma_dyn_views_index(*items, items@.len() as int);
            }
            match bytes_from_list(items) {
                Some(bs) => bs,
                None => {
                    return Err(IdentityError::InvalidAssetLockProof);
                },
            }
        },
        _ => {
            return Err(IdentityError::InvalidAssetLockProof);
        },
    };
    let r = AssetLockProof { proof_type, payload };
    proof {
        assert(spec_proof_of(v@) == Some(r@));
    }
    Ok(r)
}

/// A proof rendered as a dynamic record reads back as the same proof:
/// `proof_from_dyn` inverts the `assetLockProof` form that `to_object`
/// renders.
pub proof fn lemma_proof_object_round_trip(p: ProofView)
    ensures
        spec_proof_of(spec_proof_object(Some(p))) == Some(p),
{
    reveal_strlit("type");
    reveal_strlit("payload");
    let fields = spec_proof_object(Some(p))->Record_0;
    assert(fields.len() == 2);
    assert(fields[0].0 == "type"@);
    assert(fields[1].0 == "payload"@);
    crate::dynamic::lemma_record_lookup_at(fields, "type"@, 0);
    assert forall|j: int| 0 <= j < 1 implies (#[trigger] fields[j]).0 != "payload"@ by {}
    crate::dynamic::lemma_record_lookup_at(fields, "payload"@, 1);
    lemma_bytes_object_round_trip(p.payload, p.payload.len() as int);
    assert(p.payload.subrange(0, p.payload.len() as int) =~= p.payload);
}

/// Reads a whole list of public-key records.
fn keys_from_list(items: &Vec<DynValue>) -> (r: Option<Vec<IdentityPublicKey>>)
    ensures
        match r {
            Some(ks) => spec_keys_of(dyn_views(*items, items@.len() as int), items@.len() as int)
                == Some(keys_view(ks@)),
            None => spec_keys_of(dyn_views(*items, items@.len() as int), items@.len() as int)
                is None,
        },
{
    let ghost key_views = dyn_views(*items, items@.len() as int);
    proof {
        lemma_dyn_views_index(*items, items@.len() as int);
    }
    let n = items.len();
    let mut keys: Vec<IdentityPublicKey> = Vec::new();
    let mut i: usize = 0;
    while i < n
        invariant
            n == items@.len(),
            i <= n,
            key_views == dyn_views(*items, n as int),
            key_views.len() == n,
            forall|j: int| 0 <= j < n ==> #[trigger] key_views[j] == dyn_view(items@[j]),
            spec_keys_of(key_views, i as int) == Some(keys_view(keys@)),
        decreases n - i,
    {
        match key_from_dyn(&items[i]) {
            Some(k) => {
                let ghost prev = keys_view(keys@);
                keys.push(k);
                proof {
                    assert(keys_view(keys@) =~= prev.push(k@));
                }
            },
            None => {
                proof {
                    lemma_spec_keys_none(key_views, i + 1, n as int);
                }
                return None;
            },
        }
        i += 1;
    }
    Some(keys)
}

/// The host-facing identity adapter.  Every mutation consumes the adapter
/// and returns a new one; nothing is shared.
#[derive(Clone, Debug)]
pub struct IdentityWasm(pub Identity);

impl View for IdentityWasm {
    type V = IdentityView;

    open spec fn view(&self) -> IdentityView {
        self.0@
    }
}

/// The host-facing asset-lock-proof wrapper.
#[derive(Clone, Debug)]
pub struct AssetLockProofWasm(pub AssetLockProof);

impl View for AssetLockProofWasm {
    type V = ProofView;

    open spec fn view(&self) -> ProofView {
        self.0@
    }
}

impl From<AssetLockProof> for AssetLockProofWasm {
    fn from(v: AssetLockProof) -> (r: Self) {
        AssetLockProofWasm(v)
    }
}

impl vstd::std_specs::convert::FromSpecImpl<AssetLockProof> for AssetLockProofWasm {
    open spec fn obeys_from_spec() -> bool {
        true
    }

    open spec fn from_spec(v: AssetLockProof) -> Self {
        AssetLockProofWasm(v)
    }
}

impl IdentityWasm {
    /// The held identity is well-formed.
    pub open spec fn wf(&self) -> bool {
        self.0.wf()
    }

    /// Builds an identity from a dynamic record, field by field; the
    /// result, success or the exact failure, is what `spec_construct`
    /// says of the value's shape.
    pub fn new(raw_identity: &DynValue) -> (r: Result<IdentityWasm, IdentityError>)
        ensures
            match (r, spec_construct(raw_identity@)) {
                (Ok(w), Ok(v)) => w@ == v && w.wf(),
                (Err(a), Err(b)) => a == b,
                _ => false,
            },
    {
        let fields = match raw_identity {
            DynValue::Record(fields) => fields,
            _ => {
                return Err(IdentityError::NotARecord);
            },
        };
        proof {
            assert(raw_identity@ == SpecValue::Record(spec_fields_of(*fields)));
        }
        let ghost sf = spec_fields_of(*fields);
        let protocol_version: u32 = match lookup_field(fields, "protocolVersion") {
            Some(DynValue::UInt(n)) => {
                if *n <= u32::MAX as u64 {
                    *n as u32
                } else {
                    proof { assert(spec_u32_field(sf, "protocolVersion"@) is None); }
                    return Err(IdentityError::InvalidProtocolVersion);
                }
            },
            _ => {
                proof { assert(spec_u32_field(sf, "protocolVersion"@) is None); }
                return Err(IdentityError::InvalidProtocolVersion);
            },
        };
        proof { assert(spec_u32_field(sf, "protocolVersion"@) == Some(protocol_version)); }
        let id: Identifier = match lookup_field(fields, "id") {
            Some(DynValue::Text(s)) => {
                match Identifier::from_string(s.as_str()) {
                    Ok(id) => {
                        proof {
                            assert(is_b58_encoding(s@, id@));
                            assert(exists|b: Seq<u8>| is_b58_encoding(s@, b));
                            let chosen = choose|b: Seq<u8>| is_b58_encoding(s@, b);
                            assert(is_b58_encoding(s@, chosen));
                            crate::base58::lemma_b58_bytes_unique(s@, id@, chosen);
                            assert(chosen == id@);
                        }
                        id
                    },
                    Err(e) => {
                        proof {
                            match e {
                                Base58Error::InvalidCharacter { position } => {
                                    lemma_first_non_b58(s@, position as int);
                                    assert(!all_b58(s@));
                                    assert forall|b: Seq<u8>| !is_b58_encoding(s@, b) by {}
                                },
                                Base58Error::InvalidLength => {},
                            }
                            assert(e == spec_b58_error(s@));
                            assert(!(exists|b: Seq<u8>| is_b58_encoding(s@, b)));
                        }
                        return Err(IdentityError::InvalidId(e));
                    },
                }
            },
            _ => {
                return Err(IdentityError::IdNotText);
            },
        };
        let key_items = match lookup_field(fields, "publicKeys") {
            Some(DynValue::List(items)) => items,
            _ => {
                return Err(IdentityError::InvalidPublicKeys);
            },
        };
        proof {
            assert(record_lookup(sf, "publicKeys"@) == Some(dyn_view(DynValue::List(*key_items))));
        }
        let ghost key_views = dyn_views(*key_items, key_items@.len() as int);
        proof {
            lemma_dyn_views_index(*key_items, key_items@.len() as int);
        }
        let n = key_items.len();
        let public_keys: Vec<IdentityPublicKey> = match keys_from_list(key_items) {
            Some(ks) => ks,
            None => {
                return Err(IdentityError::InvalidPublicKeys);
            },
        };
        let balance: u64 = match lookup_field(fields, "balance") {
            Some(DynValue::UInt(n)) => *n,
            _ => {
                return Err(IdentityError::InvalidBalance);
            },
        };
        let revision: u64 = match lookup_field(fields, "revision") {
            Some(DynValue::UInt(n)) => *n,
            _ => {
                return Err(IdentityError::InvalidRevision);
            },
        };
        let identity = Identity {
            protocol_version,
            id,
            public_keys,
            balance,
            revision,
            asset_lock_proof: None,
            metadata: None,
        };
        proof {
            assert(spec_u64_field(sf, "balance"@) == Some(balance));
            assert(spec_u64_field(sf, "revision"@) == Some(revision));
            assert(spec_keys_of(key_views, n as int) == Some(keys_view(identity.public_keys@)));
        }
        Ok(IdentityWasm(identity))
    }

    pub fn get_protocol_version(&self) -> (r: u32)
        ensures
            r == self@.protocol_version,
    {
        self.0.get_protocol_version()
    }

    pub fn get_id(&self) -> (r: Identifier)
        ensures
            r@ == self@.id,
    {
        self.0.get_id().duplicate()
    }

    /// Replaces the key collection with records decoded from dynamic
    /// values, order kept; any malformed record rejects the whole list
    /// and leaves the adapter unchanged.
    pub fn set_public_keys(self, pub_keys: &Vec<DynValue>) -> (r: Result<Self, IdentityError>)
        ensures
            match (r, spec_keys_of(dyn_views(*pub_keys, pub_keys@.len() as int), pub_keys@.len() as int)) {
                (Ok(w), Some(ks)) => w@ == (IdentityView { public_keys: ks, ..self@ }),
                (Err(e), None) => e == IdentityError::InvalidPublicKeys && r is Err,
                _ => false,
            },
    {
        let keys: Vec<IdentityPublicKey> = match keys_from_list(pub_keys) {
            Some(ks) => ks,
            None => {
                return Err(IdentityError::InvalidPublicKeys);
            },
        };
        Ok(IdentityWasm(self.0.set_public_keys(keys)))
    }

    /// Renders the key collection as dynamic records, order kept.
    pub fn get_public_keys(&self) -> (r: Vec<DynValue>)
        ensures
            dyn_views(r, r@.len() as int)
                == self@.public_keys.map(|i: int, k: KeyView| spec_key_object(k)),
            r@.len() == self@.public_keys.len(),
    {
        let keys = self.0.get_public_keys();
        let n = keys.len();
        let mut out: Vec<DynValue> = Vec::new();
        let mut i: usize = 0;
        while i < n
            invariant
                n == keys@.len(),
                keys_view(keys@) == self@.public_keys,
                i <= n,
                out@.len() == i,
                forall|j: int| 0 <= j < i ==> dyn_view(#[trigger] out@[j]) == spec_key_object(keys@[j]@),
            decreases n - i,
        {
            out.push(key_to_dyn(&keys[i]));
            i += 1;
        }
        proof {
            lemma_dyn_views_index(out, n as int);
            assert(dyn_views(out, n as int)
                =~= self@.public_keys.map(|i: int, k: KeyView| spec_key_object(k)));
        }
        out
    }

    /// Finds the key carrying `key_id`; absent ids give an empty result,
    /// never a failure.
    pub fn get_public_key_by_id(&self, key_id: u32) -> (r: Option<IdentityPublicKey>)
        ensures
            match r {
                Some(k) => crate::identity::key_lookup(self@.public_keys, key_id) == Some(k@),
                None => crate::identity::key_lookup(self@.public_keys, key_id) is None,
            },
    {
        match self.0.get_public_key_by_id(key_id) {
            Some(k) => Some(k.duplicate()),
            None => None,
        }
    }

    pub fn get_balance(&self) -> (r: u64)
        ensures
            r == self@.balance,
    {
        self.0.get_balance()
    }

    pub fn set_balance(self, balance: u64) -> (r: Self)
        ensures
            r@ == crate::identity::spec_with_balance(self@, balance),
    {
        IdentityWasm(self.0.set_balance(balance))
    }

    /// Raises the balance; the caller keeps the sum within range.
    pub fn increase_balance(self, amount: u64) -> (r: Self)
        requires
            self@.balance + amount <= u64::MAX,
        ensures
            r@ == crate::identity::spec_with_balance(self@, (self@.balance + amount) as u64),
    {
        IdentityWasm(self.0.increase_balance(amount))
    }

    /// Lowers the balance; the caller keeps the amount within the balance.
    pub fn reduce_balance(self, amount: u64) -> (r: Self)
        requires
            amount <= self@.balance,
        ensures
            r@ == crate::identity::spec_with_balance(self@, (self@.balance - amount) as u64),
    {
        IdentityWasm(self.0.reduce_balance(amount))
    }

    pub fn set_asset_lock_proof(self, lock: AssetLockProof) -> (r: Self)
        ensures
            r@ == (IdentityView { asset_lock_proof: Some(lock@), ..self@ }),
    {
        IdentityWasm(self.0.set_asset_lock_proof(lock))
    }

    pub fn get_asset_lock_proof(&self) -> (r: Option<AssetLockProofWasm>)
        ensures
            match r {
                Some(p) => self@.asset_lock_proof == Some(p@),
                None => self@.asset_lock_proof is None,
            },
    {
        match self.0.get_asset_lock_proof() {
            Some(p) => Some(AssetLockProofWasm(p.duplicate())),
            None => None,
        }
    }

    pub fn set_revision(self, revision: u64) -> (r: Self)
        ensures
            r@ == (IdentityView { revision, ..self@ }),
    {
        IdentityWasm(self.0.set_revision(revision))
    }

    pub fn get_revision(&self) -> (r: u64)
        ensures
            r == self@.revision,
    {
        self.0.get_revision()
    }

    pub fn get_metadata(&self) -> (r: Option<Metadata>)
        ensures
            r == self@.metadata,
    {
        self.0.get_metadata()
    }

    pub fn set_metadata(self, metadata: Metadata) -> (r: Self)
        ensures
            r@ == (IdentityView { metadata: Some(metadata), ..self@ }),
    {
        IdentityWasm(self.0.set_metadata(metadata))
    }

    /// Renders the whole identity as a dynamic record.
    pub fn to_object(&self) -> (r: DynValue)
        requires
            self.wf(),
        ensures
            exists|t: Seq<char>|
                is_b58_encoding(t, self@.id) && r@ == spec_object_of(self@, t),
    {
        let id_text = self.0.get_id().to_base58();
        let ghost t = id_text@;
        let key_list = self.get_public_keys();
        let proof_value: DynValue = match self.0.get_asset_lock_proof() {
            None => DynValue::Null,
            Some(p) => {
                let payload = bytes_to_list(&p.payload);
                let mut pf: Vec<(String, DynValue)> = Vec::new();
                pf.push((String::from_str("type"), DynValue::UInt(p.proof_type as u64)));
                pf.push((String::from_str("payload"), DynValue::List(payload)));
                let r = DynValue::Record(pf);
                proof {
                    lemma_field_views_index(pf, 2);
                    assert(field_views(pf, 2) =~= spec_proof_object(self@.asset_lock_proof)->Record_0);
                }
                r
            },
        };
        let metadata_value: DynValue = match self.0.get_metadata() {
            None => DynValue::Null,
            Some(m) => {
                let mut mf: Vec<(String, DynValue)> = Vec::new();
                mf.push((String::from_str("blockHeight"), DynValue::UInt(m.block_height)));
                mf.push((String::from_str("coreChainLockedHeight"), DynValue::UInt(m.core_chain_locked_height)));
                let r = DynValue::Record(mf);
                proof {
                    lemma_field_views_index(mf, 2);
                    assert(field_views(mf, 2) =~= spec_metadata_object(self@.metadata)->Record_0);
                }
                r
            },
        };
        let mut fields: Vec<(String, DynValue)> = Vec::new();
        fields.push((String::from_str("protocolVersion"), DynValue::UInt(self.0.get_protocol_version() as u64)));
        fields.push((String::from_str("id"), DynValue::Text(id_text)));
        fields.push((String::from_str("publicKeys"), DynValue::List(key_list)));
        fields.push((String::from_str("balance"), DynValue::UInt(self.0.get_balance())));
        fields.push((String::from_str("revision"), DynValue::UInt(self.0.get_revision())));
        fields.push((String::from_str("assetLockProof"), proof_value));
        fields.push((String::from_str("metadata"), metadata_value));
        let r = DynValue::Record(fields);
        proof {
            lemma_field_views_index(fields, 7);
            assert(field_views(fields, 7) =~= spec_object_of(self@, t)->Record_0);
            assert(r@ == spec_object_of(self@, t));
        }
        r
    }

    /// The dynamic form used by `to_object`, under the conventional name.
    pub fn to_json(&self) -> (r: DynValue)
        requires
            self.wf(),
        ensures
            exists|t: Seq<char>|
                is_b58_encoding(t, self@.id) && r@ == spec_object_of(self@, t),
    {
        self.to_object()
    }

    /// The JSON text of the identity: exactly the text of its dynamic
    /// record.  A well-formed identity always has one.
    pub fn to_string(&self) -> (r: String)
        requires
            self.wf(),
        ensures
            exists|t: Seq<char>| {
                &&& is_b58_encoding(t, self@.id)
                &&& r@ == crate::json::json_of(spec_object_of(self@, t))
            },
    {
        let obj = self.to_object();
        let mut out: Vec<char> = Vec::new();
        let ok = crate::json::write_json(&obj, &mut out);
        proof {
            let t = choose|t: Seq<char>|
                is_b58_encoding(t, self@.id) && obj@ == spec_object_of(self@, t);
            lemma_object_emittable(self@, t);
            assert(ok);
        }
        crate::json::chars_to_string(out)
    }

    /// Renders any dynamic value as JSON text.
    pub fn do_stuff(raw_identity: &DynValue) -> (r: Result<String, crate::json::JsonError>)
        ensures
            match r {
                Ok(s) => crate::json::emittable(raw_identity@)
                    && s@ == crate::json::json_of(raw_identity@),
                Err(e) => e == crate::json::JsonError::Unrepresentable
                    && !crate::json::emittable(raw_identity@),
            },
    {
        let mut out: Vec<char> = Vec::new();
        let ok = crate::json::write_json(raw_identity, &mut out);
        if ok {
            Ok(crate::json::chars_to_string(out))
        } else {
            Err(crate::json::JsonError::Unrepresentable)
        }
    }

    /// The serialized form of the identity.
    pub fn to_buffer(&self) -> (r: Vec<u8>)
        requires
            self.wf(),
        ensures
            r@ == spec_buffer_of(self@),
    {
        let mut out: Vec<u8> = Vec::new();
        push_be32(self.0.protocol_version, &mut out);
        push_bytes(self.0.id.bytes(), &mut out);
        push_be64(self.0.balance, &mut out);
        push_be64(self.0.revision, &mut out);
        push_be64(self.0.public_keys.len() as u64, &mut out);
        let n = self.0.public_keys.len();
        let ghost pre = out@;
        let mut i: usize = 0;
        while i < n
            invariant
                n == self.0.public_keys@.len(),
                self@.public_keys.len() == n,
                forall|j: int| 0 <= j < n ==> #[trigger] self@.public_keys[j] == self.0.public_keys@[j]@,
                i <= n,
                out@ == pre + spec_keys_buffer(self@.public_keys, i as int),
            decreases n - i,
        {
            let ghost before = out@;
            let k = &self.0.public_keys[i];
            push_be32(k.id, &mut out);
            out.push(k.purpose);
            out.push(k.security_level);
            out.push(k.key_type);
            out.push(if k.read_only { 1 } else { 0 });
            push_be64(k.data.len() as u64, &mut out);
            push_bytes(&k.data, &mut out);
            proof {
                assert(out@ =~= before + spec_key_buffer(self@.public_keys[i as int]));
                assert(out@ =~= pre + (spec_keys_buffer(self@.public_keys, i as int)
                    + spec_key_buffer(self@.public_keys[i as int])));
            }
            i += 1;
        }
        match &self.0.asset_lock_proof {
            None => {
                out.push(0);
            },
            Some(p) => {
                let ghost before = out@;
                out.push(1);
                out.push(p.proof_type);
                push_be64(p.payload.len() as u64, &mut out);
                push_bytes(&p.payload, &mut out);
                proof {
                    assert(out@ =~= before + spec_proof_buffer(self@.asset_lock_proof));
                }
            },
        }
        match &self.0.metadata {
            None => {
                out.push(0);
            },
            Some(m) => {
                let ghost before = out@;
                out.push(1);
                push_be64(m.block_height, &mut out);
                push_be64(m.core_chain_locked_height, &mut out);
                proof {
                    assert(out@ =~= before + spec_metadata_buffer(self@.metadata));
                }
            },
        }
        proof {
            assert(out@ =~= spec_buffer_of(self@));
        }
        out
    }

    /// Parses the canonical JSON text form back into an adapter.  Only
    /// the exact text `to_string` produces is accepted: on success the
    /// input is exactly the returned identity's canonical text, and
    /// anything else is reported as malformed.
    pub fn from(text: &str) -> (r: Result<IdentityWasm, crate::json::JsonError>)
        ensures
            match r {
                Ok(w) => {
                    &&& w.wf()
                    &&& exists|t: Seq<char>| is_b58_encoding(t, w@.id)
                        && text@ == crate::json::json_of(spec_object_of(w@, t))
                },
                Err(e) => e == crate::json::JsonError::Malformed,
            },
    {
        let chars = str_to_chars(text);
        let mut pos: usize = 0;
        pos = match eat_lit(&chars, pos, "{\"protocolVersion\":") {
            Some(j) => j,
            None => { return Err(crate::json::JsonError::Malformed); },
        };
        let protocol_version: u32 = match parse_u64_at(&chars, pos) {
            Some((n, j)) if n <= u32::MAX as u64 => { pos = j; n as u32 },
            _ => { return Err(crate::json::JsonError::Malformed); },
        };
        pos = match eat_lit(&chars, pos, ",\"id\":\"") {
            Some(j) => j,
            None => { return Err(crate::json::JsonError::Malformed); },
        };
        let id_text: String = match scan_until_quote(&chars, pos) {
            Some((s, j)) => { pos = j; s },
            None => { return Err(crate::json::JsonError::Malformed); },
        };
        let id: Identifier = match Identifier::from_string(id_text.as_str()) {
            Ok(id) => id,
            Err(_) => { return Err(crate::json::JsonError::Malformed); },
        };
        pos = match eat_lit(&chars, pos, ",\"publicKeys\":[") {
            Some(j) => j,
            None => { return Err(crate::json::JsonError::Malformed); },
        };
        let mut public_keys: Vec<IdentityPublicKey> = Vec::new();
        if pos < chars.len() && chars[pos] == ']' {
            pos += 1;
        } else {
            loop
                invariant
                    pos <= chars@.len(),
                decreases chars@.len() - pos,
            {
                let (k, j) = match parse_key_at(&chars, pos) {
                    Some(kj) => kj,
                    None => { return Err(crate::json::JsonError::Malformed); },
                };
                public_keys.push(k);
                pos = j;
                if pos < chars.len() && chars[pos] == ',' {
                    pos += 1;
                } else if pos < chars.len() && chars[pos] == ']' {
                    pos += 1;
                    break;
                } else {
                    return Err(crate::json::JsonError::Malformed);
                }
            }
        }
        pos = match eat_lit(&chars, pos, ",\"balance\":") {
            Some(j) => j,
            None => { return Err(crate::json::JsonError::Malformed); },
        };
        let balance: u64 = match parse_u64_at(&chars, pos) {
            Some((n, j)) => { pos = j; n },
            None => { return Err(crate::json::JsonError::Malformed); },
        };
        pos = match eat_lit(&chars, pos, ",\"revision\":") {
            Some(j) => j,
            None => { return Err(crate::json::JsonError::Malformed); },
        };
        let revision: u64 = match parse_u64_at(&chars, pos) {
            Some((n, j)) => { pos = j; n },
            None => { return Err(crate::json::JsonError::Malformed); },
        };
        pos = match eat_lit(&chars, pos, ",\"assetLockProof\":") {
            Some(j) => j,
            None => { return Err(crate::json::JsonError::Malformed); },
        };
        let asset_lock_proof: Option<AssetLockProof> = match eat_lit(&chars, pos, "null") {
            Some(j) => { pos = j; None },
            None => {
                pos = match eat_lit(&chars, pos, "{\"type\":") {
                    Some(j) => j,
                    None => { return Err(crate::json::JsonError::Malformed); },
                };
                let proof_type: u8 = match parse_u64_at(&chars, pos) {
                    Some((n, j)) if n <= u8::MAX as u64 => { pos = j; n as u8 },
                    _ => { return Err(crate::json::JsonError::Malformed); },
                };
                pos = match eat_lit(&chars, pos, ",\"payload\":") {
                    Some(j) => j,
                    None => { return Err(crate::json::JsonError::Malformed); },
                };
                let payload: Vec<u8> = match parse_byte_list_at(&chars, pos) {
                    Some((bs, j)) => { pos = j; bs },
                    None => { return Err(crate::json::JsonError::Malformed); },
                };
                pos = match eat_lit(&chars, pos, "}") {
                    Some(j) => j,
                    None => { return Err(crate::json::JsonError::Malformed); },
                };
                Some(AssetLockProof { proof_type, payload })
            },
        };
        pos = match eat_lit(&chars, pos, ",\"metadata\":") {
            Some(j) => j,
            None => { return Err(crate::json::JsonError::Malformed); },
        };
        let metadata: Option<Metadata> = match eat_lit(&chars, pos, "null") {
            Some(j) => { pos = j; None },
            None => {
                pos = match eat_lit(&chars, pos, "{\"blockHeight\":") {
                    Some(j) => j,
                    None => { return Err(crate::json::JsonError::Malformed); },
                };
                let block_height: u64 = match parse_u64_at(&chars, pos) {
                    Some((n, j)) => { pos = j; n },
                    None => { return Err(crate::json::JsonError::Malformed); },
                };
                pos = match eat_lit(&chars, pos, ",\"coreChainLockedHeight\":") {
                    Some(j) => j,
                    None => { return Err(crate::json::JsonError::Malformed); },
                };
                let core_chain_locked_height: u64 = match parse_u64_at(&chars, pos) {
                    Some((n, j)) => { pos = j; n },
                    None => { return Err(crate::json::JsonError::Malformed); },
                };
                pos = match eat_lit(&chars, pos, "}") {
                    Some(j) => j,
                    None => { return Err(crate::json::JsonError::Malformed); },
                };
                Some(Metadata { block_height, core_chain_locked_height })
            },
        };
        pos = match eat_lit(&chars, pos, "}") {
            Some(j) => j,
            None => { return Err(crate::json::JsonError::Malformed); },
        };
        if pos != chars.len() {
            return Err(crate::json::JsonError::Malformed);
        }
        let w = IdentityWasm(Identity {
            protocol_version,
            id,
            public_keys,
            balance,
            revision,
            asset_lock_proof,
            metadata,
        });
        proof {
            assert(is_b58_encoding(id_text@, w@.id));
            assert(w.wf());
        }
        // Render the parsed identity back: only its own canonical text is
        // accepted, which ties the success to the input exactly.
        let rendered = w.to_string();
        if crate::dynamic::str_eq(rendered.as_str(), text) {
            proof {
                let t = choose|t: Seq<char>| is_b58_encoding(t, w@.id)
                    && rendered@ == crate::json::json_of(spec_object_of(w@, t));
                assert(is_b58_encoding(t, w@.id)
                    && text@ == crate::json::json_of(spec_object_of(w@, t)));
            }
            Ok(w)
        } else {
            Err(crate::json::JsonError::Malformed)
        }
    }
}

/// The characters of a text.
fn str_to_chars(s: &str) -> (r: Vec<char>)
    ensures
        r@ == s@,
{
    let n = s.unicode_len();
    let mut out: Vec<char> = Vec::new();
    let mut i: usize = 0;
    while i < n
        invariant
            n == s@.len(),
            i <= n,
            out@ =~= s@.subrange(0, i as int),
        decreases n - i,
    {
        out.push(s.get_char(i));
        proof {
            assert(out@ =~= s@.subrange(0, i + 1));
        }
        i += 1;
    }
    proof {
        assert(out@ =~= s@);
    }
    out
}

/// Consumes `lit` at `pos` exactly when it stands there.
fn eat_lit(s: &Vec<char>, pos: usize, lit: &str) -> (r: Option<usize>)
    requires
        pos <= s@.len(),
    ensures
        match r {
            Some(j) => {
                &&& j == pos + lit@.len() <= s@.len()
                &&& s@.subrange(pos as int, j as int) == lit@
            },
            None => pos + lit@.len() > s@.len()
                || s@.subrange(pos as int, pos + lit@.len() as int) != lit@,
        },
{
    let m = lit.unicode_len();
    if m > s.len() - pos {
        return None;
    }
    let slen = s.len();
    let ghost piece = s@.subrange(pos as int, pos + m as int);
    let mut i: usize = 0;
    while i < m
        invariant
            m == lit@.len(),
            slen == s@.len(),
            pos + m <= slen,
            piece == s@.subrange(pos as int, pos + m as int),
            i <= m,
            forall|k: int| 0 <= k < i ==> #[trigger] piece[k] == lit@[k],
        decreases m - i,
    {
        if s[pos + i] != lit.get_char(i) {
            proof {
                assert(piece[i as int] == s@[pos + i]);
                assert(piece != lit@);
            }
            return None;
        }
        proof {
            assert(piece[i as int] == s@[pos + i]);
        }
        i += 1;
    }
    proof {
        assert(piece =~= lit@);
    }
    Some(pos + m)
}

/// Reads a decimal number without leading zeros; a success consumes
/// exactly the canonical text of the returned value.
fn parse_u64_at(s: &Vec<char>, pos: usize) -> (r: Option<(u64, usize)>)
    requires
        pos <= s@.len(),
    ensures
        match r {
            Some((n, j)) => {
                &&& pos < j <= s@.len()
                &&& s@.subrange(pos as int, j as int) == crate::json::dec_of(n as int)
                &&& (n > 0 ==> j == s@.len() || !crate::json::is_dec_digit(s@[j as int]))
                &&& (n == 0 ==> j == pos + 1)
            },
            None => true,
        },
{
    if pos >= s.len() {
        return None;
    }
    let c0 = s[pos];
    let d0 = c0 as u32;
    if !(48 <= d0 && d0 <= 57) {
        return None;
    }
    if d0 == 48 {
        // A lone zero: the canonical text never pads with zeros.
        proof {
            assert(crate::json::digit_char(0) as u32 == 48);
            crate::json::lemma_char_by_code(c0, crate::json::digit_char(0));
            assert(s@.subrange(pos as int, pos + 1) =~= crate::json::dec_of(0));
        }
        return Some((0, pos + 1));
    }
    let mut value: u64 = (d0 - 48) as u64;
    let mut j: usize = pos + 1;
    proof {
        assert(crate::json::digit_char(value as int) as u32 == 48 + value);
        crate::json::lemma_char_by_code(c0, crate::json::digit_char(value as int));
        assert(s@.subrange(pos as int, pos + 1) =~= crate::json::dec_of(value as int));
    }
    let mut stopped = false;
    while j < s.len() && !stopped
        invariant
            pos < j <= s@.len(),
            s@.len() == s.len(),
            value >= 1,
            s@.subrange(pos as int, j as int) == crate::json::dec_of(value as int),
            stopped ==> j < s@.len() && !crate::json::is_dec_digit(s@[j as int]),
        decreases s@.len() - j, (if stopped { 0int } else { 1int }),
    {
        let u = s[j] as u32;
        if !(48 <= u && u <= 57) {
            stopped = true;
        } else {
            let d = (u - 48) as u64;
            if value > (u64::MAX - d) / 10 {
                return None;
            }
            let ghost piece = s@.subrange(pos as int, j as int);
            value = value * 10 + d;
            j += 1;
            proof {
                assert(crate::json::digit_char(d as int) as u32 == 48 + d);
                crate::json::lemma_char_by_code(s@[j - 1], crate::json::digit_char(d as int));
                assert(crate::json::dec_of(value as int)
                    == crate::json::dec_of((value as int) / 10).push(crate::json::digit_char((value as int) % 10)));
                assert((value as int) / 10 == (value as int - d) / 10);
                assert(s@.subrange(pos as int, j as int) =~= piece.push(s@[j - 1]));
            }
        }
    }
    Some((value, j))
}

/// Reads the characters up to the next quote, and the position after it:
/// a success returns exactly the quote-free run before the first quote.
fn scan_until_quote(s: &Vec<char>, pos: usize) -> (r: Option<(String, usize)>)
    requires
        pos <= s@.len(),
    ensures
        match r {
            Some((t, j)) => {
                &&& pos < j <= s@.len()
                &&& t@ == s@.subrange(pos as int, j - 1)
                &&& s@[j - 1] == '"'
                &&& forall|k: int| pos <= k < j - 1 ==> s@[k] != '"'
            },
            None => forall|k: int| pos <= k < s@.len() ==> s@[k] != '"',
        },
{
    let mut inner: Vec<char> = Vec::new();
    let mut j: usize = pos;
    while j < s.len()
        invariant
            pos <= j <= s@.len(),
            s@.len() == s.len(),
            inner@ == s@.subrange(pos as int, j as int),
            forall|k: int| pos <= k < j ==> s@[k] != '"',
        decreases s@.len() - j,
    {
        let c = s[j];
        if c == '"' {
            return Some((crate::json::chars_to_string(inner), j + 1));
        }
        inner.push(c);
        proof {
            assert(inner@ =~= s@.subrange(pos as int, j + 1));
        }
        j += 1;
    }
    None
}

/// Reads `[b,b,...]` of numbers below 256.
fn parse_byte_list_at(s: &Vec<char>, pos: usize) -> (r: Option<(Vec<u8>, usize)>)
    requires
        pos <= s@.len(),
    ensures
        match r {
            Some((bs, j)) => pos < j <= s@.len(),
            None => true,
        },
{
    let mut p = pos;
    if p < s.len() && s[p] == '[' {
        p += 1;
    } else {
        return None;
    }
    let mut out: Vec<u8> = Vec::new();
    if p < s.len() && s[p] == ']' {
        return Some((out, p + 1));
    }
    loop
        invariant
            pos < p <= s@.len(),
            s@.len() == s.len(),
        decreases s@.len() - p,
    {
        let b: u8 = match parse_u64_at(s, p) {
            Some((n, j)) if n <= u8::MAX as u64 => { p = j; n as u8 },
            _ => { return None; },
        };
        out.push(b);
        if p < s.len() && s[p] == ',' {
            p += 1;
        } else if p < s.len() && s[p] == ']' {
            return Some((out, p + 1));
        } else {
            return None;
        }
    }
}

/// Reads one key record in its canonical field order.
fn parse_key_at(s: &Vec<char>, pos: usize) -> (r: Option<(IdentityPublicKey, usize)>)
    requires
        pos <= s@.len(),
    ensures
        match r {
            Some((k, j)) => pos < j <= s@.len(),
            None => true,
        },
{
    let mut pos = pos;
    pos = match eat_lit(s, pos, "{\"id\":") {
        Some(j) => j,
        None => { return None; },
    };
    let id: u32 = match parse_u64_at(s, pos) {
        Some((n, j)) if n <= u32::MAX as u64 => { pos = j; n as u32 },
        _ => { return None; },
    };
    pos = match eat_lit(s, pos, ",\"purpose\":") {
        Some(j) => j,
        None => { return None; },
    };
    let purpose: u8 = match parse_u64_at(s, pos) {
        Some((n, j)) if n <= u8::MAX as u64 => { pos = j; n as u8 },
        _ => { return None; },
    };
    pos = match eat_lit(s, pos, ",\"securityLevel\":") {
        Some(j) => j,
        None => { return None; },
    };
    let security_level: u8 = match parse_u64_at(s, pos) {
        Some((n, j)) if n <= u8::MAX as u64 => { pos = j; n as u8 },
        _ => { return None; },
    };
    pos = match eat_lit(s, pos, ",\"type\":") {
        Some(j) => j,
        None => { return None; },
    };
    let key_type: u8 = match parse_u64_at(s, pos) {
        Some((n, j)) if n <= u8::MAX as u64 => { pos = j; n as u8 },
        _ => { return None; },
    };
    pos = match eat_lit(s, pos, ",\"readOnly\":") {
        Some(j) => j,
        None => { return None; },
    };
    let read_only: bool = match eat_lit(s, pos, "true") {
        Some(j) => { pos = j; true },
        None => match eat_lit(s, pos, "false") {
            Some(j) => { pos = j; false },
            None => { return None; },
        },
    };
    pos = match eat_lit(s, pos, ",\"data\":") {
        Some(j) => j,
        None => { return None; },
    };
    let data: Vec<u8> = match parse_byte_list_at(s, pos) {
        Some((bs, j)) => { pos = j; bs },
        None => { return None; },
    };
    pos = match eat_lit(s, pos, "}") {
        Some(j) => j,
        None => { return None; },
    };
    Some((IdentityPublicKey { id, purpose, security_level, key_type, read_only, data }, pos))
}

/// Big-endian bytes of a 32-bit number.
pub open spec fn be32(n: u32) -> Seq<u8> {
    seq![(n >> 24) as u8, (n >> 16) as u8, (n >> 8) as u8, n as u8]
}

/// Big-endian bytes of a 64-bit number.
pub open spec fn be64(n: u64) -> Seq<u8> {
    seq![
        (n >> 56) as u8, (n >> 48) as u8, (n >> 40) as u8, (n >> 32) as u8,
        (n >> 24) as u8, (n >> 16) as u8, (n >> 8) as u8, n as u8,
    ]
}

/// The buffer form of one key: id, three tags, the read-only flag, then
/// the length-prefixed key bytes.
pub open spec fn spec_key_buffer(k: KeyView) -> Seq<u8> {
    be32(k.id) + seq![k.purpose, k.security_level, k.key_type, if k.read_only { 1u8 } else { 0u8 }]
        + be64(k.data.len() as u64) + k.data
}

/// The buffer form of the first `n` keys, in order.
pub open spec fn spec_keys_buffer(ks: Seq<KeyView>, n: int) -> Seq<u8>
    decreases n,
{
    if n <= 0 || n > ks.len() {
        Seq::empty()
    } else {
        spec_keys_buffer(ks, n - 1) + spec_key_buffer(ks[n - 1])
    }
}

/// The buffer form of the optional asset-lock proof: a presence flag,
/// then the tag and the length-prefixed payload.
pub open spec fn spec_proof_buffer(p: Option<ProofView>) -> Seq<u8> {
    match p {
        None => seq![0u8],
        Some(p) => seq![1u8, p.proof_type] + be64(p.payload.len() as u64) + p.payload,
    }
}

/// The buffer form of the optional metadata: a presence flag, then the
/// two heights.
pub open spec fn spec_metadata_buffer(m: Option<Metadata>) -> Seq<u8> {
    match m {
        None => seq![0u8],
        Some(m) => seq![1u8] + be64(m.block_height) + be64(m.core_chain_locked_height),
    }
}

/// The serialized identity: protocol version, the 32 identifier bytes,
/// balance, revision, then the length-prefixed key list and the two
/// optional records.
pub open spec fn spec_buffer_of(v: IdentityView) -> Seq<u8> {
    be32(v.protocol_version) + v.id + be64(v.balance) + be64(v.revision)
        + be64(v.public_keys.len() as u64)
        + spec_keys_buffer(v.public_keys, v.public_keys.len() as int)
        + spec_proof_buffer(v.asset_lock_proof)
        + spec_metadata_buffer(v.metadata)
}

/// Appends the big-endian bytes of a 32-bit number.
fn push_be32(n: u32, out: &mut Vec<u8>)
    ensures
        final(out)@ == old(out)@ + be32(n),
{
    let ghost start = out@;
    out.push((n >> 24) as u8);
    out.push((n >> 16) as u8);
    out.push((n >> 8) as u8);
    out.push(n as u8);
    proof {
        assert(out@ =~= start + be32(n));
    }
}

/// Appends the big-endian bytes of a 64-bit number.
fn push_be64(n: u64, out: &mut Vec<u8>)
    ensures
        final(out)@ == old(out)@ + be64(n),
{
    let ghost start = out@;
    out.push((n >> 56) as u8);
    out.push((n >> 48) as u8);
    out.push((n >> 40) as u8);
    out.push((n >> 32) as u8);
    out.push((n >> 24) as u8);
    out.push((n >> 16) as u8);
    out.push((n >> 8) as u8);
    out.push(n as u8);
    proof {
        assert(out@ =~= start + be64(n));
    }
}

/// Appends the bytes of `data`.
fn push_bytes(data: &Vec<u8>, out: &mut Vec<u8>)
    ensures
        final(out)@ == old(out)@ + data@,
{
    let ghost start = out@;
    let n = data.len();
    let mut i: usize = 0;
    while i < n
        invariant
            n == data@.len(),
            i <= n,
            out@ == start + data@.subrange(0, i as int),
        decreases n - i,
    {
        out.push(data[i]);
        proof {
            assert(out@ =~= start + data@.subrange(0, i + 1));
        }
        i += 1;
    }
    proof {
        assert(data@.subrange(0, n as int) =~= data@);
    }
}

/// Base-58 text never needs escaping: the alphabet is plain printable
/// letters and digits.
pub proof fn lemma_b58_text_safe(t: Seq<char>)
    requires
        all_b58(t),
    ensures
        crate::json::safe_text(t),
{
    assert forall|i: int| 0 <= i < t.len() implies crate::json::safe_char(#[trigger] t[i]) by {
        assert(is_b58_char(t[i]));
    }
}

/// Numbers rendered from bytes are always renderable.
proof fn lemma_uint_list_emittable(data: Seq<u8>, n: int)
    requires
        0 <= n <= data.len(),
    ensures
        crate::json::emittable_items(data.map(|i: int, b: u8| SpecValue::UInt(b as u64)), n),
    decreases n,
{
    let items = data.map(|i: int, b: u8| SpecValue::UInt(b as u64));
    assert(items.len() == data.len());
    assert(crate::json::emittable_items(items, 0));
    if n > 0 {
        lemma_uint_list_emittable(data, n - 1);
        assert(items[n - 1] == SpecValue::UInt(data[n - 1] as u64));
        assert(crate::json::emittable(items[n - 1]));
    }
}

/// A key's dynamic record is always renderable.
proof fn lemma_key_object_emittable(k: KeyView)
    ensures
        crate::json::emittable(spec_key_object(k)),
{
    reveal_strlit("id");
    reveal_strlit("purpose");
    reveal_strlit("securityLevel");
    reveal_strlit("type");
    reveal_strlit("readOnly");
    reveal_strlit("data");
    assert forall|i: int| 0 <= i < "id"@.len() implies crate::json::safe_char(#[trigger] "id"@[i]) by {}
    assert(crate::json::safe_text("id"@));
    assert forall|i: int| 0 <= i < "purpose"@.len() implies crate::json::safe_char(#[trigger] "purpose"@[i]) by {}
    assert(crate::json::safe_text("purpose"@));
    assert forall|i: int| 0 <= i < "securityLevel"@.len() implies crate::json::safe_char(#[trigger] "securityLevel"@[i]) by {}
    assert(crate::json::safe_text("securityLevel"@));
    assert forall|i: int| 0 <= i < "type"@.len() implies crate::json::safe_char(#[trigger] "type"@[i]) by {}
    assert(crate::json::safe_text("type"@));
    assert forall|i: int| 0 <= i < "readOnly"@.len() implies crate::json::safe_char(#[trigger] "readOnly"@[i]) by {}
    assert(crate::json::safe_text("readOnly"@));
    assert forall|i: int| 0 <= i < "data"@.len() implies crate::json::safe_char(#[trigger] "data"@[i]) by {}
    assert(crate::json::safe_text("data"@));
    let fields = spec_key_object(k)->Record_0;
    assert(fields.len() == 6);
    lemma_uint_list_emittable(k.data, k.data.len() as int);
    assert(crate::json::emittable_field(fields[0]));
    assert(crate::json::emittable_field(fields[1]));
    assert(crate::json::emittable_field(fields[2]));
    assert(crate::json::emittable_field(fields[3]));
    assert(crate::json::emittable_field(fields[4]));
    assert(crate::json::emittable_field(fields[5]));
    assert(crate::json::emittable_fields(fields, 0));
    assert(crate::json::emittable_fields(fields, 1));
    assert(crate::json::emittable_fields(fields, 2));
    assert(crate::json::emittable_fields(fields, 3));
    assert(crate::json::emittable_fields(fields, 4));
    assert(crate::json::emittable_fields(fields, 5));
    assert(crate::json::emittable_fields(fields, 6));
}

/// A key list's dynamic records are always renderable.
proof fn lemma_keys_emittable(ks: Seq<KeyView>, n: int)
    requires
        0 <= n <= ks.len(),
    ensures
        crate::json::emittable_items(ks.map(|i: int, k: KeyView| spec_key_object(k)), n),
    decreases n,
{
    let items = ks.map(|i: int, k: KeyView| spec_key_object(k));
    if n > 0 {
        lemma_keys_emittable(ks, n - 1);
        lemma_key_object_emittable(ks[n - 1]);
        assert(items[n - 1] == spec_key_object(ks[n - 1]));
    }
}

/// The dynamic record of an identity whose id text is base-58 is always
/// renderable: `to_string` owes a text for every well-formed identity.
pub proof fn lemma_object_emittable(v: IdentityView, id_text: Seq<char>)
    requires
        all_b58(id_text),
    ensures
        crate::json::emittable(spec_object_of(v, id_text)),
{
    reveal_strlit("protocolVersion");
    reveal_strlit("id");
    reveal_strlit("publicKeys");
    reveal_strlit("balance");
    reveal_strlit("revision");
    reveal_strlit("assetLockProof");
    reveal_strlit("metadata");
    reveal_strlit("type");
    reveal_strlit("payload");
    reveal_strlit("blockHeight");
    reveal_strlit("coreChainLockedHeight");
    assert forall|i: int| 0 <= i < "protocolVersion"@.len() implies crate::json::safe_char(#[trigger] "protocolVersion"@[i]) by {}
    assert(crate::json::safe_text("protocolVersion"@));
    assert forall|i: int| 0 <= i < "id"@.len() implies crate::json::safe_char(#[trigger] "id"@[i]) by {}
    assert(crate::json::safe_text("id"@));
    assert forall|i: int| 0 <= i < "publicKeys"@.len() implies crate::json::safe_char(#[trigger] "publicKeys"@[i]) by {}
    assert(crate::json::safe_text("publicKeys"@));
    assert forall|i: int| 0 <= i < "balance"@.len() implies crate::json::safe_char(#[trigger] "balance"@[i]) by {}
    assert(crate::json::safe_text("balance"@));
    assert forall|i: int| 0 <= i < "revision"@.len() implies crate::json::safe_char(#[trigger] "revision"@[i]) by {}
    assert(crate::json::safe_text("revision"@));
    assert forall|i: int| 0 <= i < "assetLockProof"@.len() implies crate::json::safe_char(#[trigger] "assetLockProof"@[i]) by {}
    assert(crate::json::safe_text("assetLockProof"@));
    assert forall|i: int| 0 <= i < "metadata"@.len() implies crate::json::safe_char(#[trigger] "metadata"@[i]) by {}
    assert(crate::json::safe_text("metadata"@));
    assert forall|i: int| 0 <= i < "type"@.len() implies crate::json::safe_char(#[trigger] "type"@[i]) by {}
    assert(crate::json::safe_text("type"@));
    assert forall|i: int| 0 <= i < "payload"@.len() implies crate::json::safe_char(#[trigger] "payload"@[i]) by {}
    assert(crate::json::safe_text("payload"@));
    assert forall|i: int| 0 <= i < "blockHeight"@.len() implies crate::json::safe_char(#[trigger] "blockHeight"@[i]) by {}
    assert(crate::json::safe_text("blockHeight"@));
    assert forall|i: int| 0 <= i < "coreChainLockedHeight"@.len() implies crate::json::safe_char(#[trigger] "coreChainLockedHeight"@[i]) by {}
    assert(crate::json::safe_text("coreChainLockedHeight"@));
    let fields = spec_object_of(v, id_text)->Record_0;
    assert(fields.len() == 7);
    lemma_b58_text_safe(id_text);
    lemma_keys_emittable(v.public_keys, v.public_keys.len() as int);
    match v.asset_lock_proof {
        None => {},
        Some(p) => {
            let pf = spec_proof_object(v.asset_lock_proof)->Record_0;
            lemma_uint_list_emittable(p.payload, p.payload.len() as int);
            assert(crate::json::emittable_fields(pf, 0));
            assert(crate::json::emittable_field(pf[0]));
            assert(crate::json::emittable_field(pf[1]));
            assert(crate::json::emittable_fields(pf, 1));
            assert(crate::json::emittable_fields(pf, 2));
        },
    }
    match v.metadata {
        None => {},
        Some(_) => {
            let mf = spec_metadata_object(v.metadata)->Record_0;
            assert(crate::json::emittable_fields(mf, 0));
            assert(crate::json::emittable_field(mf[0]));
            assert(crate::json::emittable_field(mf[1]));
            assert(crate::json::emittable_fields(mf, 1));
            assert(crate::json::emittable_fields(mf, 2));
        },
    }
    assert(crate::json::emittable_field(fields[0]));
    assert(crate::json::emittable_field(fields[1]));
    assert(crate::json::emittable_field(fields[2]));
    assert(crate::json::emittable_field(fields[3]));
    assert(crate::json::emittable_field(fields[4]));
    assert(crate::json::emittable_field(fields[5]));
    assert(crate::json::emittable_field(fields[6]));
    assert(crate::json::emittable_fields(fields, 0));
    assert(crate::json::emittable_fields(fields, 1));
    assert(crate::json::emittable_fields(fields, 2));
    assert(crate::json::emittable_fields(fields, 3));
    assert(crate::json::emittable_fields(fields, 4));
    assert(crate::json::emittable_fields(fields, 5));
    assert(crate::json::emittable_fields(fields, 6));
    assert(crate::json::emittable_fields(fields, 7));
}

/// Bytes rendered as numbers read back as the same bytes.
proof fn lemma_bytes_object_round_trip(data: Seq<u8>, n: int)
    requires
        0 <= n <= data.len(),
    ensures
        spec_bytes_of(data.map(|i: int, b: u8| SpecValue::UInt(b as u64)), n)
            == Some(data.subrange(0, n)),
    decreases n,
{
    let items = data.map(|i: int, b: u8| SpecValue::UInt(b as u64));
    if n == 0 {
        assert(data.subrange(0, 0) =~= Seq::<u8>::empty());
    } else {
        lemma_bytes_object_round_trip(data, n - 1);
        assert(items[n - 1] == SpecValue::UInt(data[n - 1] as u64));
        assert(data.subrange(0, n - 1).push(data[n - 1]) =~= data.subrange(0, n));
    }
}

/// A key rendered as a dynamic record reads back as the same key.
proof fn lemma_key_object_round_trip(k: KeyView)
    ensures
        spec_key_of(spec_key_object(k)) == Some(k),
{
    reveal_strlit("id");
    reveal_strlit("purpose");
    reveal_strlit("securityLevel");
    reveal_strlit("type");
    reveal_strlit("readOnly");
    reveal_strlit("data");
    let fields = spec_key_object(k)->Record_0;
    assert(fields.len() == 6);
    assert(fields[0].0 == "id"@);
    assert(fields[1].0 == "purpose"@);
    assert(fields[2].0 == "securityLevel"@);
    assert(fields[3].0 == "type"@);
    assert(fields[4].0 == "readOnly"@);
    assert(fields[5].0 == "data"@);
    crate::dynamic::lemma_record_lookup_at(fields, "id"@, 0);
    assert forall|j: int| 0 <= j < 1 implies (#[trigger] fields[j]).0 != "purpose"@ by {}
    crate::dynamic::lemma_record_lookup_at(fields, "purpose"@, 1);
    assert forall|j: int| 0 <= j < 2 implies (#[trigger] fields[j]).0 != "securityLevel"@ by {}
    crate::dynamic::lemma_record_lookup_at(fields, "securityLevel"@, 2);
    assert forall|j: int| 0 <= j < 3 implies (#[trigger] fields[j]).0 != "type"@ by {}
    crate::dynamic::lemma_record_lookup_at(fields, "type"@, 3);
    assert forall|j: int| 0 <= j < 4 implies (#[trigger] fields[j]).0 != "readOnly"@ by {}
    crate::dynamic::lemma_record_lookup_at(fields, "readOnly"@, 4);
    assert("type"@ != "data"@) by {
        assert("type"@[0] == 't');
        assert("data"@[0] == 'd');
    }
    assert forall|j: int| 0 <= j < 5 implies (#[trigger] fields[j]).0 != "data"@ by {}
    crate::dynamic::lemma_record_lookup_at(fields, "data"@, 5);
    let items = k.data.map(|i: int, b: u8| SpecValue::UInt(b as u64));
    assert(record_lookup(fields, "data"@) == Some(SpecValue::List(items)));
    lemma_bytes_object_round_trip(k.data, k.data.len() as int);
    assert(k.data.subrange(0, k.data.len() as int) =~= k.data);
}

/// A key list rendered as dynamic records reads back as the same list.
proof fn lemma_keys_object_round_trip(ks: Seq<KeyView>, n: int)
    requires
        0 <= n <= ks.len(),
    ensures
        spec_keys_of(ks.map(|i: int, k: KeyView| spec_key_object(k)), n)
            == Some(ks.subrange(0, n)),
    decreases n,
{
    let items = ks.map(|i: int, k: KeyView| spec_key_object(k));
    if n == 0 {
        assert(ks.subrange(0, 0) =~= Seq::<KeyView>::empty());
    } else {
        lemma_keys_object_round_trip(ks, n - 1);
        assert(items[n - 1] == spec_key_object(ks[n - 1]));
        lemma_key_object_round_trip(ks[n - 1]);
        assert(ks.subrange(0, n - 1).push(ks[n - 1]) =~= ks.subrange(0, n));
    }
}

/// Building an identity from its own dynamic record succeeds and gives
/// the identity back, with only the asset-lock proof and the metadata —
/// which the construction path never populates — cleared.
pub proof fn lemma_construct_round_trip(v: IdentityView, id_text: Seq<char>)
    requires
        is_b58_encoding(id_text, v.id),
    ensures
        spec_construct(spec_object_of(v, id_text))
            == Ok::<IdentityView, IdentityError>(IdentityView {
                asset_lock_proof: None,
                metadata: None,
                ..v
            }),
{
    reveal_strlit("protocolVersion");
    reveal_strlit("id");
    reveal_strlit("publicKeys");
    reveal_strlit("balance");
    reveal_strlit("revision");
    reveal_strlit("assetLockProof");
    reveal_strlit("metadata");
    let fields = spec_object_of(v, id_text)->Record_0;
    assert(fields.len() == 7);
    assert(fields[0].0 == "protocolVersion"@);
    assert(fields[1].0 == "id"@);
    assert(fields[2].0 == "publicKeys"@);
    assert(fields[3].0 == "balance"@);
    assert(fields[4].0 == "revision"@);
    crate::dynamic::lemma_record_lookup_at(fields, "protocolVersion"@, 0);
    assert forall|j: int| 0 <= j < 1 implies (#[trigger] fields[j]).0 != "id"@ by {}
    crate::dynamic::lemma_record_lookup_at(fields, "id"@, 1);
    assert forall|j: int| 0 <= j < 2 implies (#[trigger] fields[j]).0 != "publicKeys"@ by {}
    crate::dynamic::lemma_record_lookup_at(fields, "publicKeys"@, 2);
    assert forall|j: int| 0 <= j < 3 implies (#[trigger] fields[j]).0 != "balance"@ by {}
    crate::dynamic::lemma_record_lookup_at(fields, "balance"@, 3);
    assert forall|j: int| 0 <= j < 4 implies (#[trigger] fields[j]).0 != "revision"@ by {}
    crate::dynamic::lemma_record_lookup_at(fields, "revision"@, 4);
    assert(record_lookup(fields, "protocolVersion"@) == Some(SpecValue::UInt(v.protocol_version as u64)));
    assert(record_lookup(fields, "id"@) == Some(SpecValue::Text(id_text)));
    let key_items = v.public_keys.map(|i: int, k: KeyView| spec_key_object(k));
    assert(record_lookup(fields, "publicKeys"@) == Some(SpecValue::List(key_items)));
    assert(record_lookup(fields, "balance"@) == Some(SpecValue::UInt(v.balance)));
    assert(record_lookup(fields, "revision"@) == Some(SpecValue::UInt(v.revision)));
    assert(exists|b: Seq<u8>| is_b58_encoding(id_text, b));
    let chosen = choose|b: Seq<u8>| is_b58_encoding(id_text, b);
    crate::base58::lemma_b58_bytes_unique(id_text, chosen, v.id);
    assert(chosen == v.id);
    lemma_keys_object_round_trip(v.public_keys, v.public_keys.len() as int);
    assert(v.public_keys.subrange(0, v.public_keys.len() as int) =~= v.public_keys);
}

} // verus!
