//! Whether to use, create or refuse a master key, given what the keychain
//! holds and whether the store already holds encrypted values.

use vstd::prelude::*;
use crate::error::AppError;
use crate::store::Store;

verus! {

/// What to do about the master key.
pub enum MasterKeyDecision {
    /// Use the key the keychain holds.
    Use(Vec<u8>),
    /// Create a new key and keep it in the keychain.
    Create,
    /// Refuse: encrypted data exists but its key is gone.
    Refuse(AppError),
}

pub open spec fn missing_key_message() -> Seq<char> {
    "no master key was found for existing encrypted data \u{2014} restore the previous keychain item or clear the local test data"@
}

/// A key found in the keychain is used; without one, a new key is created
/// only when the store holds no encrypted value (which would be lost).
pub fn load_or_create_master_key(loaded: Option<Vec<u8>>, store: &Store) -> (res: MasterKeyDecision)
    ensures
        match loaded {
            Some(k) => res matches MasterKeyDecision::Use(r) && r@ == k@,
            None => if store@.values.len() > 0 {
                res matches MasterKeyDecision::Refuse(AppError::Auth(m)) && m@ == missing_key_message()
            } else {
                res is Create
            },
        },
{
    match loaded {
        Some(key) => MasterKeyDecision::Use(key),
        None => {
            if store.has_encrypted_entries() {
                MasterKeyDecision::Refuse(AppError::Auth(String::from_str(
                    "no master key was found for existing encrypted data \u{2014} restore the previous keychain item or clear the local test data",
                )))
            } else {
                MasterKeyDecision::Create
            }
        },
    }
}

} // verus!
