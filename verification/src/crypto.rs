//! How a secret value is stored: UTF-8 bytes sealed with AES-256-GCM-SIV
//! under the master key and a fresh 12-byte nonce, the nonce put in front of
//! the ciphertext, and the whole written in standard base64.

use vstd::prelude::*;
use vstd::utf8::{decode_utf8, encode_utf8, encode_utf8_decode_utf8, encode_utf8_valid_utf8, valid_utf8};
use vstd::slice::slice_subrange;
use aes_gcm_siv::aead::{Aead, KeyInit};
use aes_gcm_siv::{Aes256GcmSiv, Nonce};
use base64::Engine;
use base64::engine::general_purpose::STANDARD;
use zeroize::Zeroize;
use crate::error::{AppError, is_crypto};

verus! {

/// The longest plaintext AES-GCM-SIV seals, in bytes (RFC 8452, 2^36).
pub open spec fn max_plaintext_len() -> nat {
    0x10_0000_0000
}

/// What AES-256-GCM-SIV seals `plaintext` into under `key` and `nonce`:
/// the ciphertext followed by the 16-byte tag.
pub uninterp spec fn aes_gcm_siv_seal(key: Seq<u8>, nonce: Seq<u8>, plaintext: Seq<u8>) -> Seq<u8>;

/// What AES-256-GCM-SIV opens `ciphertext` into under `key` and `nonce`, or
/// `None` when authentication fails.
pub uninterp spec fn aes_gcm_siv_open(key: Seq<u8>, nonce: Seq<u8>, ciphertext: Seq<u8>) -> Option<Seq<u8>>;

/// Standard base64 (with padding) of some bytes.
pub uninterp spec fn base64_encode_of(bytes: Seq<u8>) -> Seq<char>;

/// The bytes that standard base64 text decodes to, or `None` when it is not
/// valid base64.
pub uninterp spec fn base64_decode_of(text: Seq<char>) -> Option<Seq<u8>>;

/// `Aes256GcmSiv::new_from_slice`: accepts exactly 32-byte keys; its error
/// `InvalidLength` displays as "Invalid Length". The cipher is dropped; only
/// whether the key is accepted is returned.
#[verifier::external_body]
fn check_cipher_key(key: &[u8]) -> (res: Result<(), String>)
    ensures
        res is Ok <==> key@.len() == 32,
        res matches Err(m) ==> m@ == "Invalid Length"@,
{
    match Aes256GcmSiv::new_from_slice(key) {
        Ok(_) => Ok(()),
        Err(e) => Err(e.to_string()),
    }
}

/// `Aead::encrypt` of `Aes256GcmSiv` with no associated data. It fails only
/// on plaintexts longer than 2^36 bytes, with `aead::Error`; otherwise the
/// result is the sealed plaintext, 16 bytes longer than it, which
/// decryption under the same key and nonce opens back to the plaintext.
#[verifier::external_body]
fn aes_encrypt(key: &[u8], nonce: &[u8], plaintext: &[u8]) -> (res: Result<Vec<u8>, String>)
    requires
        key@.len() == 32,
        nonce@.len() == 12,
    ensures
        res is Ok <==> plaintext@.len() <= max_plaintext_len(),
        res matches Ok(c) ==> c@ == aes_gcm_siv_seal(key@, nonce@, plaintext@),
        res matches Ok(c) ==> c@.len() == plaintext@.len() + 16,
        res matches Ok(c) ==> aes_gcm_siv_open(key@, nonce@, c@) == Some(plaintext@),
        res matches Err(m) ==> m@ == "aead::Error"@,
{
    let cipher = Aes256GcmSiv::new(aes_gcm_siv::Key::<Aes256GcmSiv>::from_slice(key));
    cipher.encrypt(Nonce::from_slice(nonce), plaintext).map_err(|e| e.to_string())
}

/// `Aead::decrypt` of `Aes256GcmSiv` with no associated data: it gives back
/// what was sealed under the same key and nonce; a failure is `aead::Error`.
#[verifier::external_body]
fn aes_decrypt(key: &[u8], nonce: &[u8], ciphertext: &[u8]) -> (res: Result<Vec<u8>, String>)
    requires
        key@.len() == 32,
        nonce@.len() == 12,
    ensures
        match res {
            Ok(p) => aes_gcm_siv_open(key@, nonce@, ciphertext@) == Some(p@),
            Err(m) => aes_gcm_siv_open(key@, nonce@, ciphertext@) is None && m@ == "aead::Error"@,
        },
        match res {
            Ok(q) => forall|p: Seq<u8>|
                p.len() <= max_plaintext_len() && ciphertext@ == #[trigger] aes_gcm_siv_seal(key@, nonce@, p) ==> q@ == p,
            Err(_) => forall|p: Seq<u8>|
                p.len() <= max_plaintext_len() ==> ciphertext@ != #[trigger] aes_gcm_siv_seal(key@, nonce@, p),
        },
{
    let cipher = Aes256GcmSiv::new(aes_gcm_siv::Key::<Aes256GcmSiv>::from_slice(key));
    cipher.decrypt(Nonce::from_slice(nonce), ciphertext).map_err(|e| e.to_string())
}

/// `STANDARD.encode` of the base64 crate; `STANDARD.decode` gives the bytes
/// back from what it writes.
#[verifier::external_body]
fn base64_encode(bytes: &[u8]) -> (res: String)
    ensures
        res@ == base64_encode_of(bytes@),
        base64_decode_of(res@) == Some(bytes@),
{
    STANDARD.encode(bytes)
}

/// `STANDARD.decode` of the base64 crate; it decodes what `encode` wrote
/// back to the same bytes. A failure carries the `DecodeError`'s text.
#[verifier::external_body]
fn base64_decode(text: &str) -> (res: Result<Vec<u8>, String>)
    ensures
        match res {
            Ok(v) => base64_decode_of(text@) == Some(v@),
            Err(_) => base64_decode_of(text@) is None,
        },
        match res {
            Ok(v) => forall|b: Seq<u8>| text@ == #[trigger] base64_encode_of(b) ==> v@ == b,
            Err(_) => forall|b: Seq<u8>| text@ != #[trigger] base64_encode_of(b),
        },
{
    STANDARD.decode(text).map_err(|e| e.to_string())
}

/// `String::from_utf8`: succeeds exactly on valid UTF-8; a failure carries
/// the `FromUtf8Error`'s text.
#[verifier::external_body]
fn string_from_utf8(bytes: Vec<u8>) -> (res: Result<String, String>)
    ensures
        res is Ok <==> valid_utf8(bytes@),
        res matches Ok(s) ==> s@ == decode_utf8(bytes@),
{
    String::from_utf8(bytes).map_err(|e| e.to_string())
}

/// `rand::random` for a 12-byte nonce; nothing is known of the bytes.
#[verifier::external_body]
fn random_nonce() -> (res: [u8; 12]) {
    rand::random()
}

/// `Zeroize` for `Vec<u8>`: overwrites the bytes with zeros and empties it.
#[verifier::external_body]
pub(crate) fn zeroize_bytes(bytes: &mut Vec<u8>)
    ensures
        final(bytes)@.len() == 0,
{
    bytes.zeroize();
}

/// The stored text of `plaintext` sealed under `key` with `nonce`.
pub open spec fn sealed_text(key: Seq<u8>, nonce: Seq<u8>, plaintext: Seq<char>) -> Seq<char> {
    base64_encode_of(nonce + aes_gcm_siv_seal(key, nonce, encode_utf8(plaintext)))
}

/// `text` is what encrypting `plaintext` under `key` stores, for some nonce.
pub open spec fn is_stored_form(key: Seq<u8>, text: Seq<char>, plaintext: Seq<char>) -> bool {
    exists|nonce: Seq<u8>| {
        &&& nonce.len() == 12
        &&& key.len() == 32
        &&& encode_utf8(plaintext).len() <= max_plaintext_len()
        &&& aes_gcm_siv_seal(key, nonce, encode_utf8(plaintext)).len() == encode_utf8(plaintext).len() + 16
        &&& aes_gcm_siv_open(key, nonce, aes_gcm_siv_seal(key, nonce, encode_utf8(plaintext))) == Some(encode_utf8(plaintext))
        &&& base64_decode_of(text) == Some(nonce + aes_gcm_siv_seal(key, nonce, encode_utf8(plaintext)))
        &&& text == #[trigger] sealed_text(key, nonce, plaintext)
    }
}

pub open spec fn bad_key_message() -> Seq<char> {
    "failed to initialize cipher: Invalid Length"@
}

/// Encrypts a value for storage under the master key with the given
/// 12-byte nonce: the nonce followed by the sealed value, in base64.
pub fn seal_value(key: &[u8], nonce: &[u8], plaintext: &str) -> (res: Result<String, AppError>)
    requires
        nonce@.len() == 12,
    ensures
        match res {
            Ok(text) => text@ == sealed_text(key@, nonce@, plaintext@) && is_stored_form(key@, text@, plaintext@)
                && encrypt_fault(key@, plaintext@) is None,
            Err(e) => encrypt_fault(key@, plaintext@) matches Some(m) && is_crypto(e, m),
        },
{
    proof {
        reveal_strlit("failed to initialize cipher: ");
        reveal_strlit("Invalid Length");
        reveal_strlit("failed to initialize cipher: Invalid Length");
        reveal_strlit("failed to encrypt value: ");
        reveal_strlit("aead::Error");
        reveal_strlit("failed to encrypt value: aead::Error");
    }
    match check_cipher_key(key) {
        Ok(()) => {},
        Err(m) => {
            let msg = String::from_str("failed to initialize cipher: ").concat(m.as_str());
            assert(msg@ =~= bad_key_message());
            return Err(AppError::Crypto(msg));
        },
    }
    let bytes = plaintext.as_bytes();
    let mut sealed = match aes_encrypt(key, nonce, bytes) {
        Ok(c) => c,
        Err(m) => {
            let msg = String::from_str("failed to encrypt value: ").concat(m.as_str());
            assert(msg@ =~= "failed to encrypt value: aead::Error"@);
            return Err(AppError::Crypto(msg));
        },
    };
    let ghost c = sealed@;
    let mut payload: Vec<u8> = Vec::new();
    let mut i: usize = 0;
    while i < 12
        invariant
            i <= 12,
            nonce@.len() == 12,
            payload@ == nonce@.take(i as int),
        decreases 12 - i,
    {
        payload.push(nonce[i]);
        assert(nonce@.take(i + 1) =~= nonce@.take(i as int).push(nonce@[i as int]));
        i = i + 1;
    }
    assert(nonce@.take(12) =~= nonce@);
    payload.append(&mut sealed);
    assert(payload@ == nonce@ + c);
    let text = base64_encode(payload.as_slice());
    assert(text@ == sealed_text(key@, nonce@, plaintext@));
    Ok(text)
}

/// Encrypts a value for storage under the master key with a fresh random
/// nonce.
pub fn encrypt_value(key: &[u8], plaintext: &str) -> (res: Result<String, AppError>)
    ensures
        match res {
            Ok(text) => is_stored_form(key@, text@, plaintext@) && encrypt_fault(key@, plaintext@) is None,
            Err(e) => encrypt_fault(key@, plaintext@) matches Some(m) && is_crypto(e, m),
        },
{
    let nonce_array = random_nonce();
    let mut nonce: Vec<u8> = Vec::new();
    let mut i: usize = 0;
    while i < 12
        invariant
            i <= 12,
            nonce@.len() == i,
        decreases 12 - i,
    {
        nonce.push(nonce_array[i]);
        i = i + 1;
    }
    seal_value(key, nonce.as_slice(), plaintext)
}

pub open spec fn too_short_message() -> Seq<char> {
    "encrypted value payload is too short"@
}

/// The outcome of opening stored text under `key`, when base64 decoding
/// succeeded with `payload`: `Ok` with the plaintext bytes, or the error
/// message.
pub open spec fn open_payload(key: Seq<u8>, payload: Seq<u8>) -> Result<Seq<u8>, Seq<char>> {
    if payload.len() < 13 {
        Err(too_short_message())
    } else if key.len() != 32 {
        Err(bad_key_message())
    } else {
        match aes_gcm_siv_open(key, payload.take(12), payload.skip(12)) {
            Some(p) => Ok(p),
            None => Err("failed to decrypt value: aead::Error"@),
        }
    }
}

/// `m` begins with `prefix`.
pub open spec fn starts_with_text(m: Seq<char>, prefix: Seq<char>) -> bool {
    prefix.len() <= m.len() && m.take(prefix.len() as int) == prefix
}

/// What stored text decrypts to under `key`, if it decrypts.
pub open spec fn decrypted_text(key: Seq<u8>, text: Seq<char>) -> Option<Seq<char>> {
    match base64_decode_of(text) {
        None => None,
        Some(payload) => match open_payload(key, payload) {
            Err(_) => None,
            Ok(bytes) => if valid_utf8(bytes) { Some(decode_utf8(bytes)) } else { None },
        },
    }
}

/// `e` is the error of decrypting stored text that does not decrypt under
/// `key`: a base64 failure or invalid UTF-8 is a crypto error with its
/// prefix, any other failure the crypto error of [`open_payload`].
pub open spec fn decrypt_error(key: Seq<u8>, text: Seq<char>, e: AppError) -> bool {
    match base64_decode_of(text) {
        None => e matches AppError::Crypto(m) && starts_with_text(m@, "failed to decode encrypted value: "@),
        Some(payload) => match open_payload(key, payload) {
            Err(msg) => is_crypto(e, msg),
            Ok(_) => e matches AppError::Crypto(m) && starts_with_text(m@, "decrypted value was not valid utf-8: "@),
        },
    }
}

/// Why encrypting `plaintext` under `key` fails, if it does.
pub open spec fn encrypt_fault(key: Seq<u8>, plaintext: Seq<char>) -> Option<Seq<char>> {
    if key.len() != 32 {
        Some(bad_key_message())
    } else if encode_utf8(plaintext).len() > max_plaintext_len() {
        Some("failed to encrypt value: aead::Error"@)
    } else {
        None
    }
}

/// Decrypts a stored value.
pub fn decrypt_value(key: &[u8], encoded: &str) -> (res: Result<String, AppError>)
    ensures
        match base64_decode_of(encoded@) {
            None => res matches Err(AppError::Crypto(m))
                && starts_with_text(m@, "failed to decode encrypted value: "@),
            Some(payload) => match open_payload(key@, payload) {
                Err(msg) => res matches Err(e) && is_crypto(e, msg),
                Ok(bytes) => if valid_utf8(bytes) {
                    res matches Ok(s) && s@ == decode_utf8(bytes)
                } else {
                    res matches Err(AppError::Crypto(m))
                        && starts_with_text(m@, "decrypted value was not valid utf-8: "@)
                },
            },
        },
        forall|p: Seq<char>| is_stored_form(key@, encoded@, p) ==> (res matches Ok(s) && s@ == p),
        match decrypted_text(key@, encoded@) {
            Some(p) => res matches Ok(s) && s@ == p,
            None => res matches Err(e) && decrypt_error(key@, encoded@, e),
        },
{
    proof {
        reveal_strlit("failed to initialize cipher: ");
        reveal_strlit("Invalid Length");
        reveal_strlit("failed to initialize cipher: Invalid Length");
        reveal_strlit("failed to decrypt value: ");
        reveal_strlit("aead::Error");
        reveal_strlit("failed to decrypt value: aead::Error");
        reveal_strlit("failed to decode encrypted value: ");
        reveal_strlit("decrypted value was not valid utf-8: ");
    }
    let payload = match base64_decode(encoded) {
        Ok(p) => p,
        Err(m) => {
            let prefix = String::from_str("failed to decode encrypted value: ");
            let msg = prefix.concat(m.as_str());
            assert(msg@.take(34) =~= "failed to decode encrypted value: "@);
            return Err(AppError::Crypto(msg));
        },
    };
    proof {
        assert forall|p: Seq<char>| is_stored_form(key@, encoded@, p) implies stored_payload(key@, payload@, p) by {
            lemma_stored_payload(key@, encoded@, p, payload@);
        }
    }
    if payload.len() < 13 {
        return Err(AppError::Crypto(String::from_str("encrypted value payload is too short")));
    }
    match check_cipher_key(key) {
        Ok(()) => {},
        Err(m) => {
            let msg = String::from_str("failed to initialize cipher: ").concat(m.as_str());
            assert(msg@ =~= bad_key_message());
            return Err(AppError::Crypto(msg));
        },
    }
    let nonce = slice_subrange(payload.as_slice(), 0, 12);
    let ciphertext = slice_subrange(payload.as_slice(), 12, payload.len());
    assert(nonce@ =~= payload@.take(12));
    assert(ciphertext@ =~= payload@.skip(12));
    let plain = match aes_decrypt(key, nonce, ciphertext) {
        Ok(p) => p,
        Err(m) => {
            let msg = String::from_str("failed to decrypt value: ").concat(m.as_str());
            assert(msg@ =~= "failed to decrypt value: aead::Error"@);
            return Err(AppError::Crypto(msg));
        },
    };
    let ghost plain_view = plain@;
    proof {
        assert forall|p: Seq<char>| is_stored_form(key@, encoded@, p) implies plain_view == encode_utf8(p) by {
            assert(stored_payload(key@, payload@, p));
        }
    }
    match string_from_utf8(plain) {
        Ok(s) => {
            proof {
                assert forall|p: Seq<char>| is_stored_form(key@, encoded@, p) implies s@ == p by {
                    encode_utf8_decode_utf8(p);
                }
            }
            Ok(s)
        },
        Err(m) => {
            let prefix = String::from_str("decrypted value was not valid utf-8: ");
            let msg = prefix.concat(m.as_str());
            assert(msg@.take(37) =~= "decrypted value was not valid utf-8: "@);
            proof {
                assert forall|p: Seq<char>| is_stored_form(key@, encoded@, p) implies false by {
                    encode_utf8_valid_utf8(p);
                }
            }
            Err(AppError::Crypto(msg))
        },
    }
}

/// What the decoded bytes of a stored value hold.
pub open spec fn stored_payload(key: Seq<u8>, payload: Seq<u8>, plaintext: Seq<char>) -> bool {
    &&& key.len() == 32
    &&& payload.len() >= 28
    &&& encode_utf8(plaintext).len() <= max_plaintext_len()
    &&& payload.skip(12) == aes_gcm_siv_seal(key, payload.take(12), encode_utf8(plaintext))
}

proof fn lemma_stored_payload(key: Seq<u8>, text: Seq<char>, plaintext: Seq<char>, payload: Seq<u8>)
    requires
        is_stored_form(key, text, plaintext),
        forall|b: Seq<u8>| text == #[trigger] base64_encode_of(b) ==> payload == b,
    ensures
        stored_payload(key, payload, plaintext),
{
    let nonce = choose|nonce: Seq<u8>| {
        &&& nonce.len() == 12
        &&& key.len() == 32
        &&& encode_utf8(plaintext).len() <= max_plaintext_len()
        &&& aes_gcm_siv_seal(key, nonce, encode_utf8(plaintext)).len() == encode_utf8(plaintext).len() + 16
        &&& aes_gcm_siv_open(key, nonce, aes_gcm_siv_seal(key, nonce, encode_utf8(plaintext))) == Some(encode_utf8(plaintext))
        &&& base64_decode_of(text) == Some(nonce + aes_gcm_siv_seal(key, nonce, encode_utf8(plaintext)))
        &&& text == #[trigger] sealed_text(key, nonce, plaintext)
    };
    let c = aes_gcm_siv_seal(key, nonce, encode_utf8(plaintext));
    assert(text == base64_encode_of(nonce + c));
    assert(payload == nonce + c);
    assert(payload.take(12) =~= nonce);
    assert(payload.skip(12) =~= c);
}

/// Stored text opens back, under the key it was sealed with, to the value
/// that was sealed.
pub proof fn lemma_stored_form_decrypts(key: Seq<u8>, text: Seq<char>, plaintext: Seq<char>)
    requires
        is_stored_form(key, text, plaintext),
    ensures
        decrypted_text(key, text) == Some(plaintext),
{
    let nonce = choose|nonce: Seq<u8>| {
        &&& nonce.len() == 12
        &&& key.len() == 32
        &&& encode_utf8(plaintext).len() <= max_plaintext_len()
        &&& aes_gcm_siv_seal(key, nonce, encode_utf8(plaintext)).len() == encode_utf8(plaintext).len() + 16
        &&& aes_gcm_siv_open(key, nonce, aes_gcm_siv_seal(key, nonce, encode_utf8(plaintext))) == Some(encode_utf8(plaintext))
        &&& base64_decode_of(text) == Some(nonce + aes_gcm_siv_seal(key, nonce, encode_utf8(plaintext)))
        &&& text == #[trigger] sealed_text(key, nonce, plaintext)
    };
    let c = aes_gcm_siv_seal(key, nonce, encode_utf8(plaintext));
    let payload = nonce + c;
    assert(payload.take(12) =~= nonce);
    assert(payload.skip(12) =~= c);
    encode_utf8_valid_utf8(plaintext);
    encode_utf8_decode_utf8(plaintext);
}

} // verus!
