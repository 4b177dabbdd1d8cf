//! The fixed-width content identifier and its base-58 text form.

use vstd::prelude::*;
use crate::base58::{
    decode32, encode32, is_b58_encoding, Base58Error, lemma_b58_text_unique,
};

verus! {

/// A 32-byte content identifier, externally shown as base-58 text.
#[derive(Clone, Debug)]
pub struct Identifier {
    bytes: Vec<u8>,
}

impl View for Identifier {
    type V = Seq<u8>;

    closed spec fn view(&self) -> Seq<u8> {
        self.bytes@
    }
}

impl Identifier {
    /// The identifier always holds exactly 32 bytes.
    pub open spec fn wf(&self) -> bool {
        self@.len() == 32
    }

    /// Takes raw bytes; anything but 32 of them is rejected, never padded
    /// or truncated.
    pub fn from_bytes(bytes: Vec<u8>) -> (r: Result<Identifier, Base58Error>)
        ensures
            match r {
                Ok(id) => id.wf() && id@ == bytes@ && bytes@.len() == 32,
                Err(e) => e == (Base58Error::InvalidLength {}) && bytes@.len() != 32,
            },
    {
        if bytes.len() == 32 {
            Ok(Identifier { bytes })
        } else {
            Err(Base58Error::InvalidLength)
        }
    }

    /// Decodes a base-58 text; rejects anything that does not denote
    /// exactly 32 bytes, with the error saying why.
    pub fn from_string(s: &str) -> (r: Result<Identifier, Base58Error>)
        ensures
            match r {
                Ok(id) => id.wf() && is_b58_encoding(s@, id@),
                Err(Base58Error::InvalidCharacter { position }) => {
                    &&& position < s@.len()
                    &&& !crate::base58::is_b58_char(s@[position as int])
                    &&& forall|j: int| 0 <= j < position ==> crate::base58::is_b58_char(#[trigger] s@[j])
                },
                Err(Base58Error::InvalidLength) => {
                    &&& crate::base58::all_b58(s@)
                    &&& forall|b: Seq<u8>| !is_b58_encoding(s@, b)
                },
            },
    {
        match decode32(s) {
            Ok(bytes) => Ok(Identifier { bytes }),
            Err(e) => Err(e),
        }
    }

    /// The base-58 text of this identifier: the unique string in the codec
    /// relation with its bytes.
    pub fn to_base58(&self) -> (r: String)
        requires
            self.wf(),
        ensures
            is_b58_encoding(r@, self@),
    {
        let chars = encode32(&self.bytes);
        crate::json::chars_to_string(chars)
    }

    /// The raw bytes.
    pub fn bytes(&self) -> (r: &Vec<u8>)
        ensures
            r@ == self@,
    {
        &self.bytes
    }

    /// An owned copy with the same bytes.
    pub fn duplicate(&self) -> (r: Identifier)
        ensures
            r@ == self@,
    {
        Identifier { bytes: crate::base58::copy_bytes(&self.bytes) }
    }
}

/// Decoding the text of an identifier gives that identifier back, and two
/// identifiers with the same text are the same: the codec relation is
/// one-to-one both ways.
pub proof fn lemma_identifier_text_round_trip(s1: Seq<char>, s2: Seq<char>, b1: Seq<u8>, b2: Seq<u8>)
    requires
        is_b58_encoding(s1, b1),
        is_b58_encoding(s2, b2),
    ensures
        b1 == b2 ==> s1 == s2,
        s1 == s2 ==> b1 == b2,
{
    if b1 == b2 {
        lemma_b58_text_unique(s1, s2, b1);
        assert(s1 =~= s2);
    }
    if s1 == s2 {
        crate::base58::lemma_b58_bytes_unique(s1, b1, b2);
        assert(b1 =~= b2);
    }
}

} // verus!
