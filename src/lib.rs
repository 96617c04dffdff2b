//! An encrypted, transactional store for the secret state of an end-to-end
//! encryption engine.
//!
//! Every secret is kept sealed under an envelope key in partitions of a
//! backing engine; a change set is applied in one atomic transaction; the
//! sessions of a sender key are loaded once and cached; tracked users and
//! outstanding requests for secrets are kept in indexes of their own.

pub mod error;
pub mod keys;
pub mod types;
pub mod engine;
pub mod crypto;
pub mod ids;
pub mod plan;
pub mod store;
pub mod laws;
pub mod utd_cause;
