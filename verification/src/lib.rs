//! A typed boundary adapter for an identity entity.
//!
//! The crate models an `Identity` (protocol version, base-58 identifier,
//! public keys, balance, revision, optional asset-lock proof and metadata)
//! and converts it to and from the representations a dynamically-typed host
//! exchanges: a JSON-like value, a JSON text form, and a binary buffer.

pub mod adapter;
pub mod base58;
pub mod dynamic;
pub mod identifier;
pub mod identity;
pub mod json;
