//! What the device's answers mean: the status codes of the keychain calls
//! that read and write the master key, and the errors of local
//! authentication, turned into the library's errors.

use vstd::prelude::*;
use crate::error::AppError;
use crate::format::{signed_decimal, signed_digits};
use crate::text::{push_chars, string_from_chars};

verus! {

/// Keychain status of success.
pub const STATUS_OK: i32 = 0;

/// Keychain status `errSecItemNotFound`: no item matched the query.
pub const STATUS_ITEM_NOT_FOUND: i32 = -25300;

/// The size of the master key, in bytes.
pub const MASTER_KEY_SIZE: usize = 32;

/// The message of a failed keychain call with the given status.
pub open spec fn keychain_message(status: i32) -> Seq<char> {
    if status == -128 {
        "unlock canceled"@
    } else if status == -34018 {
        "keychain access is missing the entitlements required for the data protection keychain"@
    } else if status == -25293 {
        "authentication failed"@
    } else {
        "keychain operation failed (OSStatus "@ + signed_digits(status as int) + ")"@
    }
}

/// The error of a failed keychain call.
pub fn keychain_error(status: i32) -> (e: AppError)
    ensures
        e matches AppError::Auth(m) && m@ == keychain_message(status),
{
    if status == -128 {
        AppError::Auth(String::from_str("unlock canceled"))
    } else if status == -34018 {
        AppError::Auth(String::from_str("keychain access is missing the entitlements required for the data protection keychain"))
    } else if status == -25293 {
        AppError::Auth(String::from_str("authentication failed"))
    } else {
        let mut out: Vec<char> = Vec::new();
        push_chars(&mut out, "keychain operation failed (OSStatus ");
        let digits = signed_decimal(status);
        let mut k: usize = 0;
        let ghost before = out@;
        while k < digits.len()
            invariant
                k <= digits@.len(),
                out@ == before + digits@.take(k as int),
            decreases digits@.len() - k,
        {
            out.push(digits[k]);
            assert(digits@.take(k + 1) =~= digits@.take(k as int).push(digits@[k as int]));
            k = k + 1;
        }
        assert(digits@.take(digits@.len() as int) =~= digits@);
        push_chars(&mut out, ")");
        proof {
            reveal_strlit("keychain operation failed (OSStatus ");
            reveal_strlit(")");
        }
        assert(out@ =~= keychain_message(status));
        AppError::Auth(string_from_chars(out.as_slice()))
    }
}

/// What reading the master key found: the stored bytes on success, nothing
/// when no item matched, else the keychain's error.
pub fn keychain_read_outcome(status: i32, data: Vec<u8>) -> (res: Result<Option<Vec<u8>>, AppError>)
    ensures
        status == STATUS_OK ==> (res matches Ok(Some(d)) && d@ == data@),
        status == STATUS_ITEM_NOT_FOUND ==> res matches Ok(None),
        status != STATUS_OK && status != STATUS_ITEM_NOT_FOUND ==> (res matches Err(AppError::Auth(m)) && m@ == keychain_message(status)),
{
    if status == STATUS_OK {
        Ok(Some(data))
    } else if status == STATUS_ITEM_NOT_FOUND {
        Ok(None)
    } else {
        Err(keychain_error(status))
    }
}

/// Whether writing the master key succeeded.
pub fn keychain_write_outcome(status: i32) -> (res: Result<(), AppError>)
    ensures
        status == STATUS_OK ==> res is Ok,
        status != STATUS_OK ==> (res matches Err(AppError::Auth(m)) && m@ == keychain_message(status)),
{
    if status == STATUS_OK {
        Ok(())
    } else {
        Err(keychain_error(status))
    }
}

/// `rand::random` for a 32-byte key; nothing is known of the bytes.
#[verifier::external_body]
fn random_key_bytes() -> (res: [u8; 32]) {
    rand::random()
}

/// A fresh random master key.
pub fn generate_master_key() -> (key: Vec<u8>)
    ensures
        key@.len() == MASTER_KEY_SIZE,
{
    let bytes = random_key_bytes();
    let mut key: Vec<u8> = Vec::new();
    let mut i: usize = 0;
    while i < 32
        invariant
            i <= 32,
            key@.len() == i,
        decreases 32 - i,
    {
        key.push(bytes[i]);
        i = i + 1;
    }
    key
}

/// Local authentication's error codes (`LAError`).
pub const LA_USER_CANCEL: isize = -2;
pub const LA_SYSTEM_CANCEL: isize = -4;
pub const LA_PASSCODE_NOT_SET: isize = -5;
pub const LA_BIOMETRY_NOT_ENROLLED: isize = -7;
pub const LA_APP_CANCEL: isize = -9;

/// The message of a local authentication error with the given code and
/// description.
pub open spec fn auth_message(code: isize, description: Seq<char>) -> Seq<char> {
    if code == LA_USER_CANCEL {
        "unlock canceled"@
    } else if code == LA_SYSTEM_CANCEL {
        "unlock was interrupted by macOS"@
    } else if code == LA_APP_CANCEL {
        "unlock was canceled by the app"@
    } else if code == LA_BIOMETRY_NOT_ENROLLED {
        "Touch ID is not set up on this Mac"@
    } else if code == LA_PASSCODE_NOT_SET {
        "password authentication is unavailable because no device password is set"@
    } else {
        description
    }
}

/// The message for a local authentication error: known codes get their own
/// words, others the error's description.
pub fn auth_error_message(code: isize, description: String) -> (res: String)
    ensures
        res@ == auth_message(code, description@),
{
    if code == LA_USER_CANCEL {
        String::from_str("unlock canceled")
    } else if code == LA_SYSTEM_CANCEL {
        String::from_str("unlock was interrupted by macOS")
    } else if code == LA_APP_CANCEL {
        String::from_str("unlock was canceled by the app")
    } else if code == LA_BIOMETRY_NOT_ENROLLED {
        String::from_str("Touch ID is not set up on this Mac")
    } else if code == LA_PASSCODE_NOT_SET {
        String::from_str("password authentication is unavailable because no device password is set")
    } else {
        description
    }
}

/// The message for a failed authentication reply, which may carry no error.
pub fn reply_error_message(error: Option<(isize, String)>) -> (res: String)
    ensures
        match error {
            Some((code, description)) => res@ == auth_message(code, description@),
            None => res@ == "authentication failed"@,
        },
{
    match error {
        Some((code, description)) => auth_error_message(code, description),
        None => String::from_str("authentication failed"),
    }
}

/// The outcome of an authentication reply: success, or an authentication
/// error with the reply's message.
pub fn authentication_outcome(success: bool, error: Option<(isize, String)>) -> (res: Result<(), AppError>)
    ensures
        success ==> res is Ok,
        !success ==> (res matches Err(AppError::Auth(m)) && m@ == match error {
            Some((code, description)) => auth_message(code, description@),
            None => "authentication failed"@,
        }),
{
    if success {
        Ok(())
    } else {
        Err(AppError::Auth(reply_error_message(error)))
    }
}

} // verus!
