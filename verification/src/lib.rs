//! Verified core of sigyn: a local store of per-project environment
//! variables, with the normalisation rules, preview resolution, value
//! encryption framing and session bookkeeping that the app and CLI rely on.

pub mod cli;
pub mod consistent;
pub mod crypto;
pub mod entries;
pub mod error;
pub mod format;
pub mod import;
pub mod ipc;
pub mod keychain;
pub mod laws;
pub mod master_key;
pub mod model;
pub mod normalize;
pub mod operations;
pub mod order;
pub mod preview;
pub mod seqs;
pub mod session;
pub mod sort;
pub mod store;
pub mod text;
pub mod tray;
