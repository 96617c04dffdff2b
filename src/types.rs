//! The records that the store persists.
//!
//! The secret state of accounts, sessions and identities comes from the
//! encryption engine as opaque bytes; the store only keeps it encrypted.
use vstd::prelude::*;

verus! {

/// The identifiers of the loaded account that every reconstructed session
/// needs.
#[derive(Clone, Debug)]
pub struct AccountInfo {
    pub user_id: String,
    pub device_id: String,
    pub identity_keys: String,
}

impl AccountInfo {
    /// A field-by-field copy.
    pub fn copy(&self) -> (r: Self)
        ensures
            r == *self,
    {
        AccountInfo {
            user_id: self.user_id.clone(),
            device_id: self.device_id.clone(),
            identity_keys: self.identity_keys.clone(),
        }
    }
}

/// This device's account: its identifiers and its secret state.
#[derive(Debug)]
pub struct Account {
    pub user_id: String,
    pub device_id: String,
    pub identity_keys: String,
    pub state: Vec<u8>,
}

/// A pairwise encryption session with the device that owns `sender_key`.
/// `our_identity_keys` is the account's own key set, which is not stored with
/// the session but taken from the loaded account.
#[derive(Debug)]
pub struct Session {
    pub sender_key: String,
    pub session_id: String,
    pub our_identity_keys: String,
    pub state: Vec<u8>,
}

/// The key material to decrypt the messages of one sender in a room.
#[derive(Debug)]
pub struct InboundGroupSession {
    pub room_id: String,
    pub sender_key: String,
    pub session_id: String,
    pub state: Vec<u8>,
}

/// The key material this device encrypts its messages in a room with.
#[derive(Debug)]
pub struct OutboundGroupSession {
    pub room_id: String,
    pub state: Vec<u8>,
}

/// The account's private cross-signing keys.
#[derive(Debug)]
pub struct PrivateCrossSigningIdentity {
    pub user_id: String,
    pub state: Vec<u8>,
}

/// What is known of one device of a user.
#[derive(Clone, Debug, PartialEq, Eq)]
pub struct Device {
    pub user_id: String,
    pub device_id: String,
    pub keys: String,
}

impl Device {
    /// A field-by-field copy.
    pub fn copy(&self) -> (r: Self)
        ensures
            r == *self,
    {
        Device { user_id: self.user_id.clone(), device_id: self.device_id.clone(), keys: self.keys.clone() }
    }
}

/// The public cross-signing identity of a user.
#[derive(Clone, Debug, PartialEq, Eq)]
pub struct UserIdentity {
    pub user_id: String,
    pub master_key: String,
    pub verified: bool,
}

impl UserIdentity {
    /// A field-by-field copy.
    pub fn copy(&self) -> (r: Self)
        ensures
            r == *self,
    {
        UserIdentity { user_id: self.user_id.clone(), master_key: self.master_key.clone(), verified: self.verified }
    }
}

/// A message seen from `sender_key`, by the hash of its ciphertext.
#[derive(Clone, Debug, PartialEq, Eq)]
pub struct MessageHash {
    pub sender_key: String,
    pub hash: String,
}

/// Which secret a gossip request asks for.
#[derive(Clone, Debug, PartialEq, Eq)]
pub enum SecretInfo {
    /// A room key.
    KeyRequest { algorithm: String, room_id: String, sender_key: String, session_id: String },
    /// A named secret, such as a cross-signing key.
    SecretRequest(String),
}

impl SecretInfo {
    /// A field-by-field copy.
    pub fn copy(&self) -> (r: Self)
        ensures
            r == *self,
    {
        match self {
            SecretInfo::KeyRequest { algorithm, room_id, sender_key, session_id } => SecretInfo::KeyRequest {
                algorithm: algorithm.clone(),
                room_id: room_id.clone(),
                sender_key: sender_key.clone(),
                session_id: session_id.clone(),
            },
            SecretInfo::SecretRequest(name) => SecretInfo::SecretRequest(name.clone()),
        }
    }
}

/// A request to other devices for a secret this device is missing.
#[derive(Clone, Debug, PartialEq, Eq)]
pub struct GossipRequest {
    pub request_recipient: String,
    pub request_id: u128,
    pub info: SecretInfo,
    pub sent_out: bool,
}

impl GossipRequest {
    /// A field-by-field copy.
    pub fn copy(&self) -> (r: Self)
        ensures
            r == *self,
    {
        GossipRequest {
            request_recipient: self.request_recipient.clone(),
            request_id: self.request_id,
            info: self.info.copy(),
            sent_out: self.sent_out,
        }
    }
}

/// Devices that appeared, changed or were deleted.
#[derive(Debug)]
pub struct DeviceChanges {
    pub new: Vec<Device>,
    pub changed: Vec<Device>,
    pub deleted: Vec<Device>,
}

/// User identities that appeared or changed.
#[derive(Debug)]
pub struct IdentityChanges {
    pub new: Vec<UserIdentity>,
    pub changed: Vec<UserIdentity>,
}

/// Everything that changed since the last save, to be stored at once.
#[derive(Debug)]
pub struct Changes {
    pub account: Option<Account>,
    pub private_identity: Option<PrivateCrossSigningIdentity>,
    pub sessions: Vec<Session>,
    pub inbound_group_sessions: Vec<InboundGroupSession>,
    pub outbound_group_sessions: Vec<OutboundGroupSession>,
    pub devices: DeviceChanges,
    pub identities: IdentityChanges,
    pub message_hashes: Vec<MessageHash>,
    pub key_requests: Vec<GossipRequest>,
}

impl Changes {
    /// A change set with nothing in it.
    pub fn empty() -> (r: Self)
        ensures
            r.is_empty_spec(),
    {
        Changes {
            account: None,
            private_identity: None,
            sessions: Vec::new(),
            inbound_group_sessions: Vec::new(),
            outbound_group_sessions: Vec::new(),
            devices: DeviceChanges { new: Vec::new(), changed: Vec::new(), deleted: Vec::new() },
            identities: IdentityChanges { new: Vec::new(), changed: Vec::new() },
            message_hashes: Vec::new(),
            key_requests: Vec::new(),
        }
    }

    /// Whether nothing is set.
    pub open spec fn is_empty_spec(&self) -> bool {
        &&& self.account is None
        &&& self.private_identity is None
        &&& self.sessions@.len() == 0
        &&& self.inbound_group_sessions@.len() == 0
        &&& self.outbound_group_sessions@.len() == 0
        &&& self.devices.new@.len() == 0
        &&& self.devices.changed@.len() == 0
        &&& self.devices.deleted@.len() == 0
        &&& self.identities.new@.len() == 0
        &&& self.identities.changed@.len() == 0
        &&& self.message_hashes@.len() == 0
        &&& self.key_requests@.len() == 0
    }
}

} // verus!
