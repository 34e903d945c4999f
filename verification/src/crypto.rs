//! Signature algorithms and the interfaces of signature back ends.

pub mod signature_verifier;
