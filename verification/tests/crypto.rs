use auth_kademlia_rs::crypto::signature_verifier::{
    dilithium_level_from_privkey_len, dilithium_level_from_pubkey_len, resolve_alg_and_length,
    VerifierError,
};

#[test]
fn resolve_rsa() {
    let (alg, len) = resolve_alg_and_length("RSA").unwrap();
    assert_eq!(alg, "RSA");
    assert_eq!(len, 256);
}

#[test]
fn resolve_ed25519() {
    let (alg, len) = resolve_alg_and_length("Ed25519").unwrap();
    assert_eq!(alg, "Ed25519");
    assert_eq!(len, 64);
}

#[test]
fn resolve_dilithium_levels() {
    assert_eq!(
        resolve_alg_and_length("Dilithium-2").unwrap(),
        ("Dilithium".into(), 2420)
    );
    assert_eq!(
        resolve_alg_and_length("Dilithium-3").unwrap(),
        ("Dilithium".into(), 3293)
    );
    assert_eq!(
        resolve_alg_and_length("Dilithium-5").unwrap(),
        ("Dilithium".into(), 4595)
    );
}

#[test]
fn resolve_dilithium_no_level_errors() {
    assert!(resolve_alg_and_length("Dilithium").is_err());
}

#[test]
fn resolve_unknown_errors() {
    assert!(resolve_alg_and_length("ECDSA").is_err());
}

#[test]
fn resolve_noncanonical_aliases_errors() {
    for alias in ["RSA ", " RSA", "Ed25519\n", "Dilithium-02", "Dilithium-2\0"] {
        assert!(
            resolve_alg_and_length(alias).is_err(),
            "non-canonical alias {alias:?} must be rejected"
        );
    }
}

#[test]
fn pubkey_level_inference() {
    assert_eq!(dilithium_level_from_pubkey_len(1312), Some(2));
    assert_eq!(dilithium_level_from_pubkey_len(1952), Some(3));
    assert_eq!(dilithium_level_from_pubkey_len(2592), Some(5));
    assert_eq!(dilithium_level_from_pubkey_len(999), None);
}

#[test]
fn privkey_level_inference() {
    assert_eq!(dilithium_level_from_privkey_len(2560), Some(2));
    assert_eq!(dilithium_level_from_privkey_len(4032), Some(3));
    assert_eq!(dilithium_level_from_privkey_len(4896), Some(5));
    assert_eq!(dilithium_level_from_privkey_len(1312), None);
}

#[test]
fn an_unknown_algorithm_is_named_in_the_error() {
    match resolve_alg_and_length("ECDSA") {
        Err(VerifierError::UnsupportedAlgorithm(name)) => assert_eq!(name, "ECDSA"),
        other => panic!("unexpected {other:?}"),
    }
}

#[test]
fn errors_are_sentences() {
    assert_eq!(
        VerifierError::UnsupportedAlgorithm("ECDSA".to_string()).to_string(),
        "unsupported algorithm: ECDSA"
    );
    assert_eq!(
        VerifierError::InvalidKeyLength(1024).to_string(),
        "invalid key length: 1024 bytes"
    );
    assert_eq!(
        VerifierError::VerificationFailed("bad key".to_string()).to_string(),
        "verification failed: bad key"
    );
}
