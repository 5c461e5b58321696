use sigyn::crypto::{decrypt_value, encrypt_value, seal_value};
use sigyn::session::SessionCache;
use sigyn::error::AppError;

fn key() -> Vec<u8> {
    (0u8..32).collect()
}

fn crypto_message<T>(r: Result<T, AppError>) -> String {
    match r {
        Err(AppError::Crypto(m)) => m,
        _ => panic!("expected a crypto error"),
    }
}

#[test]
fn encrypted_value_decrypts_back() {
    let k = key();
    let text = encrypt_value(&k, "s3cret value \u{1F511}").ok().unwrap();
    assert_eq!(decrypt_value(&k, &text).ok(), Some("s3cret value \u{1F511}".to_string()));
}

#[test]
fn empty_value_round_trips() {
    let k = key();
    let text = encrypt_value(&k, "").ok().unwrap();
    assert_eq!(decrypt_value(&k, &text).ok(), Some(String::new()));
}

#[test]
fn each_encryption_uses_a_fresh_nonce() {
    let k = key();
    let a = encrypt_value(&k, "same").ok().unwrap();
    let b = encrypt_value(&k, "same").ok().unwrap();
    assert_ne!(a, b);
}

#[test]
fn stored_form_is_base64_of_nonce_and_sealed_text() {
    let k = key();
    let text = encrypt_value(&k, "abcd").ok().unwrap();
    // 12 nonce bytes + 4 plaintext bytes + 16 tag bytes = 32 bytes, 44 base64 characters.
    assert_eq!(text.len(), 44);
    assert_ne!(text, "abcd");
}

#[test]
fn short_key_is_refused() {
    assert_eq!(crypto_message(encrypt_value(&[1u8; 16], "x")), "failed to initialize cipher: Invalid Length");
    let text = encrypt_value(&key(), "x").ok().unwrap();
    assert_eq!(crypto_message(decrypt_value(&[1u8; 16], &text)), "failed to initialize cipher: Invalid Length");
}

#[test]
fn wrong_key_fails_to_decrypt() {
    let text = encrypt_value(&key(), "x").ok().unwrap();
    assert_eq!(crypto_message(decrypt_value(&[7u8; 32], &text)), "failed to decrypt value: aead::Error");
}

#[test]
fn invalid_base64_is_refused() {
    let m = crypto_message(decrypt_value(&key(), "***"));
    assert!(m.starts_with("failed to decode encrypted value: "));
}

#[test]
fn too_short_payload_is_refused() {
    // "AAAA" decodes to three bytes.
    assert_eq!(crypto_message(decrypt_value(&key(), "AAAA")), "encrypted value payload is too short");
}

#[test]
fn clearing_a_session_forgets_the_key() {
    let mut s = SessionCache::new();
    s.store_key(key(), 0);
    s.clear_locked();
    assert_eq!(s.cloned_key(1), None);
}

#[test]
fn sealing_with_a_given_nonce_is_deterministic() {
    let k = key();
    let a = seal_value(&k, &[0u8; 12], "abcd").ok().unwrap();
    let b = seal_value(&k, &[0u8; 12], "abcd").ok().unwrap();
    let c = seal_value(&k, &[1u8; 12], "abcd").ok().unwrap();
    assert_eq!(a, b);
    assert_ne!(a, c);
    // The twelve nonce bytes come first: sixteen base64 characters.
    assert!(a.starts_with("AAAAAAAAAAAAAAAA"));
    assert_eq!(decrypt_value(&k, &a).ok(), Some("abcd".to_string()));
    assert_eq!(crypto_message(seal_value(&[0u8; 31], &[0u8; 12], "x")), "failed to initialize cipher: Invalid Length");
}
