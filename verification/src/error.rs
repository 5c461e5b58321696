//! The library's error type.

use vstd::prelude::*;

verus! {

/// What can go wrong in a store, session or crypto operation. The variants
/// that wrapped an outside error carry its message.
#[derive(Debug)]
pub enum AppError {
    Locked,
    Auth(String),
    Validation(String),
    NotFound(String),
    Io(String),
    Sql(String),
    Serde(String),
    Crypto(String),
}

/// `e` is a validation error with the message `msg`.
pub open spec fn is_validation(e: AppError, msg: Seq<char>) -> bool {
    e matches AppError::Validation(m) && m@ == msg
}

/// `e` is a not-found error with the message `msg`.
pub open spec fn is_not_found(e: AppError, msg: Seq<char>) -> bool {
    e matches AppError::NotFound(m) && m@ == msg
}

/// `e` is a crypto error with the message `msg`.
pub open spec fn is_crypto(e: AppError, msg: Seq<char>) -> bool {
    e matches AppError::Crypto(m) && m@ == msg
}

/// `e` is a database error with the message `msg`.
pub open spec fn is_sql(e: AppError, msg: Seq<char>) -> bool {
    e matches AppError::Sql(m) && m@ == msg
}

/// The text shown for an error.
pub open spec fn error_text(e: AppError) -> Seq<char> {
    match e {
        AppError::Locked => "the app is locked"@,
        AppError::Auth(m) => m@,
        AppError::Validation(m) => m@,
        AppError::NotFound(m) => m@,
        AppError::Io(m) => "failed to access the local store: "@ + m@,
        AppError::Sql(m) => "database error: "@ + m@,
        AppError::Serde(m) => "serialization error: "@ + m@,
        AppError::Crypto(m) => m@,
    }
}

impl AppError {
    /// The text shown for this error.
    pub fn message(&self) -> (res: String)
        ensures
            res@ == error_text(*self),
    {
        match self {
            AppError::Locked => String::from_str("the app is locked"),
            AppError::Auth(m) => m.clone(),
            AppError::Validation(m) => m.clone(),
            AppError::NotFound(m) => m.clone(),
            AppError::Io(m) => String::from_str("failed to access the local store: ").concat(m.as_str()),
            AppError::Sql(m) => String::from_str("database error: ").concat(m.as_str()),
            AppError::Serde(m) => String::from_str("serialization error: ").concat(m.as_str()),
            AppError::Crypto(m) => m.clone(),
        }
    }
}

} // verus!
