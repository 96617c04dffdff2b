//! Authenticated encryption of stored secrets, and the envelope key that all
//! of a store's secrets are encrypted under.
use vstd::prelude::*;

use aes_gcm::aead::{Aead, KeyInit};

use crate::engine::{SealedRecord, StoredValue};
use crate::error::CryptoStoreError;

verus! {

/// The ciphertext that AES-256-GCM makes of `plain` under `key` and `nonce`.
pub uninterp spec fn sealed_of(key: Seq<u8>, nonce: Seq<u8>, plain: Seq<u8>) -> Seq<u8>;

/// What AES-256-GCM recovers from `ct` under `key` and `nonce`: `None` when
/// authentication fails.
pub uninterp spec fn opened_of(key: Seq<u8>, nonce: Seq<u8>, ct: Seq<u8>) -> Option<Seq<u8>>;

/// The key that PBKDF2-HMAC-SHA256 derives from a passphrase.
pub uninterp spec fn kdf_of(pass: Seq<char>, salt: Seq<u8>, rounds: u32, len: usize) -> Seq<u8>;

/// The largest plaintext AES-GCM accepts, in bytes.
pub open spec fn max_plaintext() -> nat {
    0x10_0000_0000
}

/// Relies on aes_gcm's `Aes256Gcm::encrypt` (with no associated data): it
/// fails only on a plaintext longer than 2^36 bytes, and what it makes
/// decrypts to the plaintext under the same key and nonce.
#[verifier::external_body]
fn aead_seal(key: &Vec<u8>, nonce: &Vec<u8>, plain: &Vec<u8>) -> (r: Option<Vec<u8>>)
    requires
        key@.len() == 32,
        nonce@.len() == 12,
    ensures
        r is Some <==> plain@.len() <= max_plaintext(),
        r matches Some(c) ==> c@ == sealed_of(key@, nonce@, plain@),
        r matches Some(c) ==> opened_of(key@, nonce@, c@) == Some(plain@),
{
    let cipher = aes_gcm::Aes256Gcm::new(aes_gcm::Key::<aes_gcm::Aes256Gcm>::from_slice(key));
    cipher.encrypt(aes_gcm::Nonce::from_slice(nonce), plain.as_slice()).ok()
}

/// Relies on aes_gcm's `Aes256Gcm::decrypt` (with no associated data).
#[verifier::external_body]
fn aead_open(key: &Vec<u8>, nonce: &Vec<u8>, ct: &Vec<u8>) -> (r: Option<Vec<u8>>)
    requires
        key@.len() == 32,
        nonce@.len() == 12,
    ensures
        r matches Some(p) ==> opened_of(key@, nonce@, ct@) == Some(p@),
        r is None ==> opened_of(key@, nonce@, ct@) is None,
{
    let cipher = aes_gcm::Aes256Gcm::new(aes_gcm::Key::<aes_gcm::Aes256Gcm>::from_slice(key));
    cipher.decrypt(aes_gcm::Nonce::from_slice(nonce), ct.as_slice()).ok()
}

/// Relies on pbkdf2's `pbkdf2_hmac::<Sha256>`: it fills a buffer of `len`
/// bytes with a key that depends on its arguments alone.
#[verifier::external_body]
fn derive_key(pass: &str, salt: &Vec<u8>, rounds: u32, len: usize) -> (r: Vec<u8>)
    ensures
        r@ == kdf_of(pass@, salt@, rounds, len),
        r@.len() == len,
{
    let mut out = vec![0u8; len];
    pbkdf2::pbkdf2_hmac::<sha2::Sha256>(pass.as_bytes(), salt, rounds, &mut out);
    out
}

/// Relies on getrandom's `getrandom`: it fills the buffer with random bytes,
/// or fails.
#[verifier::external_body]
fn random_bytes(n: usize) -> (r: Option<Vec<u8>>)
    ensures
        r matches Some(v) ==> v@.len() == n,
{
    let mut buf = vec![0u8; n];
    match getrandom::getrandom(&mut buf) {
        Ok(()) => Some(buf),
        Err(_) => None,
    }
}

/// The length of an envelope key, in bytes.
pub const KEY_LEN: usize = 32;

/// The length of an AES-GCM nonce, in bytes.
pub const NONCE_LEN: usize = 12;

/// The length of the salt of a passphrase-derived key, in bytes.
pub const SALT_LEN: usize = 32;

/// The PBKDF2 rounds of a passphrase-derived key.
pub const KDF_ROUNDS: u32 = 10000;

/// The symmetric key that every persisted secret of a store is encrypted
/// under.
pub struct PickleKey {
    pub key: Vec<u8>,
}

impl PickleKey {
    pub open spec fn wf(&self) -> bool {
        self.key@.len() == KEY_LEN
    }

    /// The fixed key of stores that are not protected by a passphrase.
    pub fn default_key() -> (r: Self)
        ensures
            r.wf(),
            r.key@ == default_key_bytes(),
    {
        let key: Vec<u8> = vec![
            68, 69, 70, 65, 85, 76, 84, 95, 80, 73, 67, 75, 76, 69, 95, 80,
            65, 83, 83, 80, 72, 82, 65, 83, 69, 95, 49, 50, 51, 52, 53, 54,
        ];
        PickleKey { key }
    }
}

/// The bytes of the text `DEFAULT_PICKLE_PASSPHRASE_123456`.
pub open spec fn default_key_bytes() -> Seq<u8> {
    seq![
        68u8, 69, 70, 65, 85, 76, 84, 95, 80, 73, 67, 75, 76, 69, 95, 80,
        65, 83, 83, 80, 72, 82, 65, 83, 69, 95, 49, 50, 51, 52, 53, 54,
    ]
}

/// An envelope key, encrypted under a key derived from a passphrase.
#[derive(Debug)]
pub struct EncryptedPickleKey {
    pub salt: Vec<u8>,
    pub nonce: Vec<u8>,
    pub ciphertext: Vec<u8>,
}

/// The envelope key that `passphrase` unlocks from `ek`, if any.
pub open spec fn unlocked_key(ek: EncryptedPickleKey, passphrase: Seq<char>) -> Option<Seq<u8>> {
    if ek.nonce@.len() != NONCE_LEN {
        None
    } else {
        match opened_of(kdf_of(passphrase, ek.salt@, KDF_ROUNDS, KEY_LEN), ek.nonce@, ek.ciphertext@) {
            Some(k) => if k.len() == KEY_LEN { Some(k) } else { None },
            None => None,
        }
    }
}

/// Decrypts the envelope key with `passphrase`. A wrong passphrase or a
/// corrupted record is an `UnpicklingError`.
pub fn unlock_pickle_key(ek: &EncryptedPickleKey, passphrase: &str) -> (r: Result<PickleKey, CryptoStoreError>)
    ensures
        r matches Ok(k) ==> k.wf() && unlocked_key(*ek, passphrase@) == Some(k.key@),
        r is Err ==> r == Err::<PickleKey, CryptoStoreError>(CryptoStoreError::UnpicklingError)
            && unlocked_key(*ek, passphrase@) is None,
{
    if ek.nonce.len() != NONCE_LEN {
        return Err(CryptoStoreError::UnpicklingError);
    }
    let derived = derive_key(passphrase, &ek.salt, KDF_ROUNDS, KEY_LEN);
    match aead_open(&derived, &ek.nonce, &ek.ciphertext) {
        Some(key) => {
            if key.len() != KEY_LEN {
                return Err(CryptoStoreError::UnpicklingError);
            }
            Ok(PickleKey { key })
        },
        None => Err(CryptoStoreError::UnpicklingError),
    }
}

/// Makes a fresh random envelope key and encrypts it under a key derived
/// from `passphrase` and a fresh salt. Fails only when the system's source
/// of randomness does.
pub fn new_pickle_key(passphrase: &str) -> (r: Result<(PickleKey, EncryptedPickleKey), CryptoStoreError>)
    ensures
        r matches Ok((k, ek)) ==> k.wf() && unlocked_key(ek, passphrase@) == Some(k.key@),
        r is Err ==> r == Err::<(PickleKey, EncryptedPickleKey), CryptoStoreError>(CryptoStoreError::RandomnessUnavailable),
{
    let key = match random_bytes(KEY_LEN) {
        Some(k) => k,
        None => return Err(CryptoStoreError::RandomnessUnavailable),
    };
    let salt = match random_bytes(SALT_LEN) {
        Some(s) => s,
        None => return Err(CryptoStoreError::RandomnessUnavailable),
    };
    let nonce = match random_bytes(NONCE_LEN) {
        Some(n) => n,
        None => return Err(CryptoStoreError::RandomnessUnavailable),
    };
    let derived = derive_key(passphrase, &salt, KDF_ROUNDS, KEY_LEN);
    let ciphertext = match aead_seal(&derived, &nonce, &key) {
        Some(c) => c,
        None => return Err(CryptoStoreError::RandomnessUnavailable),
    };
    Ok((PickleKey { key }, EncryptedPickleKey { salt, nonce, ciphertext }))
}

/// What a sealed value holds under `key`: its clear identifiers and its
/// decrypted secret state.
pub open spec fn unsealed(v: StoredValue, key: Seq<u8>) -> Option<(Seq<String>, Seq<u8>)> {
    match v {
        StoredValue::Sealed(rec) => if rec.nonce@.len() != NONCE_LEN {
            None
        } else {
            match opened_of(key, rec.nonce@, rec.ciphertext@) {
                Some(state) => Some((rec.ids@, state)),
                None => None,
            }
        },
        _ => None,
    }
}

/// Encrypts `state` under the envelope key, with `ids` kept in the clear.
/// Fails when no random nonce can be had, or when the state is too long to
/// encrypt.
pub fn seal(key: &PickleKey, ids: Vec<String>, state: &Vec<u8>) -> (r: Result<StoredValue, CryptoStoreError>)
    requires
        key.wf(),
    ensures
        r matches Ok(v) ==> unsealed(v, key.key@) == Some((ids@, state@)),
        r matches Err(e) ==> (e == CryptoStoreError::RandomnessUnavailable
            || (e == CryptoStoreError::SerializationError && state@.len() > max_plaintext())),
        state@.len() > max_plaintext() ==> r is Err,
{
    let nonce = match random_bytes(NONCE_LEN) {
        Some(n) => n,
        None => return Err(CryptoStoreError::RandomnessUnavailable),
    };
    match aead_seal(&key.key, &nonce, state) {
        Some(ciphertext) => Ok(StoredValue::Sealed(SealedRecord { ids, nonce, ciphertext })),
        None => Err(CryptoStoreError::SerializationError),
    }
}

/// Decrypts a sealed value. A value of another shape is a
/// `SerializationError`; a failed decryption is an `UnpicklingError`.
pub fn unseal<'a>(v: &'a StoredValue, key: &PickleKey) -> (r: Result<(&'a Vec<String>, Vec<u8>), CryptoStoreError>)
    requires
        key.wf(),
    ensures
        r matches Ok((ids, state)) ==> unsealed(*v, key.key@) == Some((ids@, state@)),
        r is Err <==> unsealed(*v, key.key@) is None,
        r matches Err(e) ==> (if v is Sealed { e == CryptoStoreError::UnpicklingError } else {
            e == CryptoStoreError::SerializationError
        }),
{
    match v {
        StoredValue::Sealed(rec) => {
            if rec.nonce.len() != NONCE_LEN {
                return Err(CryptoStoreError::UnpicklingError);
            }
            match aead_open(&key.key, &rec.nonce, &rec.ciphertext) {
                Some(state) => Ok((&rec.ids, state)),
                None => Err(CryptoStoreError::UnpicklingError),
            }
        },
        _ => Err(CryptoStoreError::SerializationError),
    }
}

} // verus!
