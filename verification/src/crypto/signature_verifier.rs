//! Base traits, error types, and algorithm registry for signature verification.

use vstd::prelude::*;
use vstd::string::*;

use crate::text::{self, push_decimal, str_eq};

verus! {

/// Why a signature could not be made or checked.
#[derive(Debug)]
pub enum VerifierError {
    UnsupportedAlgorithm(String),
    InvalidKeyLength(usize),
    VerificationFailed(String),
}

/// The text of an error.
pub open spec fn error_text(error: VerifierError) -> Seq<char> {
    match error {
        VerifierError::UnsupportedAlgorithm(name) => "unsupported algorithm: "@ + name@,
        VerifierError::InvalidKeyLength(len) => "invalid key length: "@ + text::decimal_text(
            len as nat,
        ) + " bytes"@,
        VerifierError::VerificationFailed(reason) => "verification failed: "@ + reason@,
    }
}

impl VerifierError {
    /// The error as a sentence.
    pub fn to_string(&self) -> (message: String)
        ensures
            message@ == error_text(*self),
    {
        match self {
            VerifierError::UnsupportedAlgorithm(name) => {
                let mut message = "unsupported algorithm: ".to_owned();
                message.append(name.as_str());
                message
            },
            VerifierError::InvalidKeyLength(len) => {
                let mut message = "invalid key length: ".to_owned();
                push_decimal(&mut message, *len as u64);
                message.append(" bytes");
                message
            },
            VerifierError::VerificationFailed(reason) => {
                let mut message = "verification failed: ".to_owned();
                message.append(reason.as_str());
                message
            },
        }
    }
}

/// Stateless signature verifier.
pub trait SignatureVerifier: Send + Sync {
    /// Return `true` if `signature` over `message` is valid for `public_key`.
    fn verify(&self, public_key: &[u8], signature: &[u8], message: &[u8]) -> Result<
        bool,
        VerifierError,
    >;
}

pub trait Signer: Send + Sync {
    /// Sign `message` with `private_key` and return the raw signature bytes.
    fn sign(&self, private_key: &[u8], message: &[u8]) -> Result<Vec<u8>, VerifierError>;
}

/// The base algorithm and the signature length of a canonical algorithm name.
pub open spec fn algorithm(name: Seq<char>) -> Option<(Seq<char>, usize)> {
    if name == "RSA"@ {
        Some(("RSA"@, 256))
    } else if name == "Ed25519"@ {
        Some(("Ed25519"@, 64))
    } else if name == "Dilithium-2"@ {
        Some(("Dilithium"@, 2420))
    } else if name == "Dilithium-3"@ {
        Some(("Dilithium"@, 3293))
    } else if name == "Dilithium-5"@ {
        Some(("Dilithium"@, 4595))
    } else {
        None
    }
}

/// Names have no aliases: no two names resolve to the same algorithm, nor to signatures of
/// the same length.
pub proof fn law_names_have_no_aliases(a: Seq<char>, b: Seq<char>)
    requires
        algorithm(a) is Some,
        algorithm(b) is Some,
    ensures
        a != b ==> (algorithm(a)->0).1 != (algorithm(b)->0).1,
        a == "RSA"@ || a == "Ed25519"@ || a == "Dilithium-2"@ || a == "Dilithium-3"@ || a
            == "Dilithium-5"@,
{
}

/// Resolve a canonical algorithm string (e.g. `"Dilithium-3"`) into
/// `(base_algorithm_name, signature_byte_length)`.
///
/// Record headers must use one of these exact spellings. Accepting whitespace,
/// zero-padded levels, or other aliases would make distinct byte strings
/// authenticate as the same logical record.
pub fn resolve_alg_and_length(algorithm_str: &str) -> (resolved: Result<
    (String, usize),
    VerifierError,
>)
    ensures
        match resolved {
            Ok((base, len)) => algorithm(algorithm_str@) == Some((base@, len)),
            Err(VerifierError::UnsupportedAlgorithm(name)) => algorithm(algorithm_str@) is None
                && name@ == algorithm_str@,
            Err(_) => false,
        },
{
    if str_eq(algorithm_str, "RSA") {
        Ok(("RSA".to_owned(), 256))
    } else if str_eq(algorithm_str, "Ed25519") {
        Ok(("Ed25519".to_owned(), 64))
    } else if str_eq(algorithm_str, "Dilithium-2") {
        Ok(("Dilithium".to_owned(), 2420))
    } else if str_eq(algorithm_str, "Dilithium-3") {
        Ok(("Dilithium".to_owned(), 3293))
    } else if str_eq(algorithm_str, "Dilithium-5") {
        Ok(("Dilithium".to_owned(), 4595))
    } else {
        Err(VerifierError::UnsupportedAlgorithm(algorithm_str.to_owned()))
    }
}

/// The security level of a public key of `len` bytes.
pub open spec fn level_of_pubkey(len: usize) -> Option<u8> {
    if len == 1312 {
        Some(2u8)
    } else if len == 1952 {
        Some(3u8)
    } else if len == 2592 {
        Some(5u8)
    } else {
        None
    }
}

/// The security level of a private key of `len` bytes.
pub open spec fn level_of_privkey(len: usize) -> Option<u8> {
    if len == 2560 {
        Some(2u8)
    } else if len == 4032 {
        Some(3u8)
    } else if len == 4896 {
        Some(5u8)
    } else {
        None
    }
}

/// The length of a key tells its level and its kind: each level has one length for public
/// keys and one for private keys, larger levels have longer keys, and no length stands for
/// both kinds.
pub proof fn law_length_tells_level_and_kind(a: usize, b: usize)
    ensures
        level_of_pubkey(a) is Some && level_of_pubkey(b) is Some ==> (level_of_pubkey(a)->0
            < level_of_pubkey(b)->0 <==> a < b),
        level_of_privkey(a) is Some && level_of_privkey(b) is Some ==> (level_of_privkey(a)->0
            < level_of_privkey(b)->0 <==> a < b),
        level_of_pubkey(a) is None || level_of_privkey(a) is None,
        level_of_pubkey(a) matches Some(x) ==> x == 2 || x == 3 || x == 5,
        level_of_privkey(a) matches Some(x) ==> x == 2 || x == 3 || x == 5,
{
}

/// Infer the Dilithium security level from the public key length.
pub fn dilithium_level_from_pubkey_len(len: usize) -> (level: Option<u8>)
    ensures
        level == level_of_pubkey(len),
{
    match len {
        1312 => Some(2),
        1952 => Some(3),
        2592 => Some(5),
        _ => None,
    }
}

/// Infer the Dilithium security level from the private key length.
pub fn dilithium_level_from_privkey_len(len: usize) -> (level: Option<u8>)
    ensures
        level == level_of_privkey(len),
{
    match len {
        2560 => Some(2),
        4032 => Some(3),
        4896 => Some(5),
        _ => None,
    }
}

} // verus!
