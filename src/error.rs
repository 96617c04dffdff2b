//! The errors of the store.
use vstd::prelude::*;

verus! {

/// What can go wrong in a store operation.
#[derive(Clone, Copy, Debug, PartialEq, Eq, Structural)]
pub enum CryptoStoreError {
    /// A transaction could not be opened or committed by the backing engine.
    StorageEngineError,
    /// A stored payload does not have the expected shape, or a payload could
    /// not be encrypted for storage.
    SerializationError,
    /// Authenticated decryption failed: wrong key, wrong passphrase or
    /// corrupted ciphertext.
    UnpicklingError,
    /// An operation that needs a loaded account ran before one was loaded.
    AccountUnset,
    /// The bounds of a key range could not be built.
    KeyRangeError,
    /// The system's source of randomness failed.
    RandomnessUnavailable,
}

} // verus!
