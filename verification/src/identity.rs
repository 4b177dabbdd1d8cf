//! The identity entity: protocol version, identifier, public keys,
//! balance, revision, and the optional asset-lock proof and metadata.

use vstd::prelude::*;
use crate::identifier::Identifier;

verus! {

/// One public-key record.  Beyond its `id`, through which lookups go, the
/// record is carried as plain data.
#[derive(Clone, Debug)]
pub struct IdentityPublicKey {
    pub id: u32,
    pub purpose: u8,
    pub security_level: u8,
    pub key_type: u8,
    pub read_only: bool,
    pub data: Vec<u8>,
}

/// The shape of a public-key record.
pub struct KeyView {
    pub id: u32,
    pub purpose: u8,
    pub security_level: u8,
    pub key_type: u8,
    pub read_only: bool,
    pub data: Seq<u8>,
}

impl IdentityPublicKey {
    /// An owned copy with the same fields.
    pub fn duplicate(&self) -> (r: Self)
        ensures
            r@ == self@,
    {
        IdentityPublicKey {
            id: self.id,
            purpose: self.purpose,
            security_level: self.security_level,
            key_type: self.key_type,
            read_only: self.read_only,
            data: crate::base58::copy_bytes(&self.data),
        }
    }
}

impl View for IdentityPublicKey {
    type V = KeyView;

    open spec fn view(&self) -> KeyView {
        KeyView {
            id: self.id,
            purpose: self.purpose,
            security_level: self.security_level,
            key_type: self.key_type,
            read_only: self.read_only,
            data: self.data@,
        }
    }
}

/// Chain metadata attached to an identity; carried, never interpreted.
#[derive(Clone, Copy, Debug, PartialEq, Eq, Structural)]
pub struct Metadata {
    pub block_height: u64,
    pub core_chain_locked_height: u64,
}

/// An asset-lock proof: a funding proof the adapter carries through
/// without validating it.
#[derive(Clone, Debug)]
pub struct AssetLockProof {
    pub proof_type: u8,
    pub payload: Vec<u8>,
}

/// The shape of an asset-lock proof.
pub struct ProofView {
    pub proof_type: u8,
    pub payload: Seq<u8>,
}

impl AssetLockProof {
    /// An owned copy with the same fields.
    pub fn duplicate(&self) -> (r: Self)
        ensures
            r@ == self@,
    {
        AssetLockProof {
            proof_type: self.proof_type,
            payload: crate::base58::copy_bytes(&self.payload),
        }
    }
}

impl View for AssetLockProof {
    type V = ProofView;

    open spec fn view(&self) -> ProofView {
        ProofView { proof_type: self.proof_type, payload: self.payload@ }
    }
}

/// The identity entity.
#[derive(Clone, Debug)]
pub struct Identity {
    pub protocol_version: u32,
    pub id: Identifier,
    pub public_keys: Vec<IdentityPublicKey>,
    pub balance: u64,
    pub revision: u64,
    pub asset_lock_proof: Option<AssetLockProof>,
    pub metadata: Option<Metadata>,
}

/// The shape of an identity.
pub struct IdentityView {
    pub protocol_version: u32,
    pub id: Seq<u8>,
    pub public_keys: Seq<KeyView>,
    pub balance: u64,
    pub revision: u64,
    pub asset_lock_proof: Option<ProofView>,
    pub metadata: Option<Metadata>,
}

/// The key shapes of a key list, in order.
pub open spec fn keys_view(keys: Seq<IdentityPublicKey>) -> Seq<KeyView> {
    keys.map(|i: int, k: IdentityPublicKey| k@)
}

impl View for Identity {
    type V = IdentityView;

    open spec fn view(&self) -> IdentityView {
        IdentityView {
            protocol_version: self.protocol_version,
            id: self.id@,
            public_keys: keys_view(self.public_keys@),
            balance: self.balance,
            revision: self.revision,
            asset_lock_proof: match self.asset_lock_proof {
                Some(p) => Some(p@),
                None => None,
            },
            metadata: self.metadata,
        }
    }
}

/// The first key carrying `id`, if any.
pub open spec fn key_lookup(keys: Seq<KeyView>, id: u32) -> Option<KeyView>
    decreases keys.len(),
{
    if keys.len() == 0 {
        None
    } else if keys[0].id == id {
        Some(keys[0])
    } else {
        key_lookup(keys.subrange(1, keys.len() as int), id)
    }
}

/// A lookup misses exactly when no key carries the id, and where the ids
/// are unique it returns the one key that carries it.
pub proof fn lemma_key_lookup(keys: Seq<KeyView>, id: u32)
    ensures
        key_lookup(keys, id) is None <==> (forall|i: int| 0 <= i < keys.len() ==> (#[trigger] keys[i]).id != id),
        forall|i: int|
            (0 <= i < keys.len() && (#[trigger] keys[i]).id == id
                && (forall|j: int| 0 <= j < keys.len() && #[trigger] keys[j].id == id ==> j == i))
            ==> key_lookup(keys, id) == Some(keys[i]),
    decreases keys.len(),
{
    if keys.len() > 0 {
        let rest = keys.subrange(1, keys.len() as int);
        lemma_key_lookup(rest, id);
        assert(forall|i: int| 0 <= i < rest.len() ==> rest[i] == keys[i + 1]);
        if key_lookup(keys, id) is None {
            assert forall|i: int| 0 <= i < keys.len() implies (#[trigger] keys[i]).id != id by {
                if i > 0 {
                    assert(rest[i - 1] == keys[i]);
                }
            }
        }
        if keys[0].id != id {
            assert forall|i: int|
                (0 <= i < keys.len() && (#[trigger] keys[i]).id == id
                    && (forall|j: int| 0 <= j < keys.len() && #[trigger] keys[j].id == id ==> j == i))
                implies key_lookup(keys, id) == Some(keys[i]) by {
                assert(i >= 1);
                assert(rest[i - 1].id == id);
                assert(forall|j: int| 0 <= j < rest.len() && #[trigger] rest[j].id == id ==> j == i - 1);
            }
        }
    }
}

/// The same identity with another balance.
pub open spec fn spec_with_balance(v: IdentityView, balance: u64) -> IdentityView {
    IdentityView { balance, ..v }
}

/// Raising the balance by an amount and then lowering it by the same
/// amount restores the identity, for any amount that neither overflows on
/// the way up nor underflows on the way down.
pub proof fn lemma_balance_round_trip(v: IdentityView, delta: u64)
    requires
        v.balance + delta <= u64::MAX,
    ensures
        spec_with_balance(
            spec_with_balance(v, (v.balance + delta) as u64),
            ((v.balance + delta) as u64 - delta) as u64,
        ) == v,
{
}

impl Identity {
    /// The identifier is always well-formed.
    pub open spec fn wf(&self) -> bool {
        self.id.wf()
    }

    pub fn get_protocol_version(&self) -> (r: u32)
        ensures
            r == self@.protocol_version,
    {
        self.protocol_version
    }

    pub fn get_id(&self) -> (r: &Identifier)
        ensures
            r@ == self@.id,
    {
        &self.id
    }

    /// Replaces the key collection, order kept.
    pub fn set_public_keys(self, keys: Vec<IdentityPublicKey>) -> (r: Self)
        ensures
            r@ == (IdentityView { public_keys: keys_view(keys@), ..self@ }),
    {
        Identity { public_keys: keys, ..self }
    }

    pub fn get_public_keys(&self) -> (r: &Vec<IdentityPublicKey>)
        ensures
            keys_view(r@) == self@.public_keys,
    {
        &self.public_keys
    }

    /// Finds the first key carrying `key_id`; misses exactly when no key
    /// carries it.
    pub fn get_public_key_by_id(&self, key_id: u32) -> (r: Option<&IdentityPublicKey>)
        ensures
            match r {
                Some(k) => key_lookup(self@.public_keys, key_id) == Some(k@),
                None => key_lookup(self@.public_keys, key_id) is None,
            },
    {
        let n = self.public_keys.len();
        let mut i: usize = 0;
        proof {
            assert(self@.public_keys.subrange(0, n as int) =~= self@.public_keys);
        }
        while i < n
            invariant
                n == self.public_keys@.len(),
                i <= n,
                self@.public_keys.len() == n,
                forall|j: int| 0 <= j < n ==> #[trigger] self@.public_keys[j] == self.public_keys@[j]@,
                key_lookup(self@.public_keys, key_id)
                    == key_lookup(self@.public_keys.subrange(i as int, n as int), key_id),
            decreases n - i,
        {
            let ghost pre = self@.public_keys.subrange(i as int, n as int);
            if self.public_keys[i].id == key_id {
                proof {
                    assert(pre[0] == self@.public_keys[i as int]);
                }
                return Some(&self.public_keys[i]);
            }
            proof {
                assert(pre[0] == self@.public_keys[i as int]);
                assert(pre.subrange(1, pre.len() as int)
                    =~= self@.public_keys.subrange(i + 1, n as int));
            }
            i += 1;
        }
        proof {
            assert(self@.public_keys.subrange(n as int, n as int) =~= Seq::<KeyView>::empty());
        }
        None
    }

    pub fn get_balance(&self) -> (r: u64)
        ensures
            r == self@.balance,
    {
        self.balance
    }

    pub fn set_balance(self, balance: u64) -> (r: Self)
        ensures
            r@ == spec_with_balance(self@, balance),
    {
        Identity { balance, ..self }
    }

    /// Raises the balance; the caller keeps the sum within the unsigned
    /// 64-bit range.
    pub fn increase_balance(self, amount: u64) -> (r: Self)
        requires
            self.balance + amount <= u64::MAX,
        ensures
            r@ == spec_with_balance(self@, (self@.balance + amount) as u64),
    {
        let balance = self.balance + amount;
        Identity { balance, ..self }
    }

    /// Lowers the balance; the caller keeps the amount within the balance.
    pub fn reduce_balance(self, amount: u64) -> (r: Self)
        requires
            amount <= self.balance,
        ensures
            r@ == spec_with_balance(self@, (self@.balance - amount) as u64),
    {
        let balance = self.balance - amount;
        Identity { balance, ..self }
    }

    pub fn set_asset_lock_proof(self, proof_value: AssetLockProof) -> (r: Self)
        ensures
            r@ == (IdentityView { asset_lock_proof: Some(proof_value@), ..self@ }),
    {
        Identity { asset_lock_proof: Some(proof_value), ..self }
    }

    pub fn get_asset_lock_proof(&self) -> (r: Option<&AssetLockProof>)
        ensures
            match r {
                Some(p) => self@.asset_lock_proof == Some(p@),
                None => self@.asset_lock_proof is None,
            },
    {
        match &self.asset_lock_proof {
            Some(p) => Some(p),
            None => None,
        }
    }

    pub fn set_revision(self, revision: u64) -> (r: Self)
        ensures
            r@ == (IdentityView { revision, ..self@ }),
    {
        Identity { revision, ..self }
    }

    pub fn get_revision(&self) -> (r: u64)
        ensures
            r == self@.revision,
    {
        self.revision
    }

    pub fn set_metadata(self, metadata: Metadata) -> (r: Self)
        ensures
            r@ == (IdentityView { metadata: Some(metadata), ..self@ }),
    {
        Identity { metadata: Some(metadata), ..self }
    }

    pub fn get_metadata(&self) -> (r: Option<Metadata>)
        ensures
            r == self@.metadata,
    {
        self.metadata
    }
}

} // verus!
