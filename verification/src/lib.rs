//! A certified key-value store: application data lives in a Merkle-style
//! authenticated tree whose root digest is anchored by an external
//! certification authority, and a client-side verifier checks, from a value,
//! a certificate blob and a pruned witness, that the value is exactly what
//! the trust anchor vouched for.

pub mod bytes;
pub mod codec;
pub mod hash;
pub mod service;
pub mod store;
pub mod tree;
pub mod verify;
pub mod witness;
