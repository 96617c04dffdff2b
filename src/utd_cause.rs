//! Our best guess at why an event could not be decrypted.
use vstd::prelude::*;

verus! {

/// Our best guess at the reason why an event can't be decrypted.
#[derive(Clone, Copy, Debug, Hash, PartialEq, Eq, Structural)]
pub enum UtdCause {
    /// We don't have an explanation for why this UTD happened - it is
    /// probably a bug, or a network split between the two homeservers.
    Unknown,
    /// We are missing the keys for this event, and the event was sent when
    /// we were not a member of the room (or invited).
    SentBeforeWeJoined,
    /// The message was sent by a user identity we have not verified, but the
    /// user was previously verified.
    VerificationViolation,
    /// The trust requirement asks that the sending device be signed by its
    /// owner, and it was not.
    UnsignedDevice,
    /// The trust requirement asks that the sending device be signed by its
    /// owner, and we were unable to securely find the device.
    UnknownDevice,
}

impl Default for UtdCause {
    fn default() -> (r: Self)
        ensures
            r == UtdCause::Unknown,
    {
        UtdCause::Unknown
    }
}

/// Why a device could not be linked to its owner.
#[derive(Clone, Copy, Debug, PartialEq, Eq, Structural)]
pub enum DeviceLinkProblem {
    MissingDevice,
    InsecureSource,
}

/// How far the sender of an event is trusted.
#[derive(Clone, Copy, Debug, PartialEq, Eq, Structural)]
pub enum VerificationLevel {
    UnverifiedIdentity,
    VerificationViolation,
    UnsignedDevice,
    Unlinked(DeviceLinkProblem),
}

/// Why an event could not be decrypted.
#[derive(Clone, Copy, Debug, PartialEq, Eq, Structural)]
pub enum UnableToDecryptReason {
    Unknown,
    MalformedEncryptedEvent,
    MissingMegolmSession,
    UnknownMegolmMessageIndex,
    MegolmDecryptionFailure,
    PayloadDeserializationFailure,
    MismatchedIdentityKeys,
    SenderIdentityNotTrusted(VerificationLevel),
}

/// What is known of an event that could not be decrypted.
#[derive(Clone, Debug)]
pub struct UnableToDecryptInfo {
    pub session_id: Option<String>,
    pub reason: UnableToDecryptReason,
}

/// Our membership of the room when the event was sent, as the server put it
/// in the event's unsigned data.
#[derive(Clone, Copy, Debug, PartialEq, Eq, Structural)]
pub enum Membership {
    Leave,
    Invite,
    Join,
}

/// The cause of a decryption failure, from its reason and from our
/// membership when the event was sent, if the event says.
pub open spec fn cause_of(membership: Option<Membership>, reason: UnableToDecryptReason) -> UtdCause {
    match reason {
        UnableToDecryptReason::MissingMegolmSession | UnableToDecryptReason::UnknownMegolmMessageIndex => {
            if membership == Some(Membership::Leave) {
                UtdCause::SentBeforeWeJoined
            } else {
                UtdCause::Unknown
            }
        },
        UnableToDecryptReason::SenderIdentityNotTrusted(VerificationLevel::VerificationViolation) => UtdCause::VerificationViolation,
        UnableToDecryptReason::SenderIdentityNotTrusted(VerificationLevel::UnsignedDevice) => UtdCause::UnsignedDevice,
        UnableToDecryptReason::SenderIdentityNotTrusted(VerificationLevel::Unlinked(_)) => UtdCause::UnknownDevice,
        _ => UtdCause::Unknown,
    }
}

impl UtdCause {
    /// Decides the cause of this UTD from the evidence we have:
    /// `unsigned_membership` is the membership found in the event's unsigned
    /// data, `None` when there is no event, no such field, or one that does
    /// not parse.
    pub fn determine(unsigned_membership: Option<Membership>, unable_to_decrypt_info: &UnableToDecryptInfo) -> (r: Self)
        ensures
            r == cause_of(unsigned_membership, unable_to_decrypt_info.reason),
    {
        match unable_to_decrypt_info.reason {
            UnableToDecryptReason::MissingMegolmSession | UnableToDecryptReason::UnknownMegolmMessageIndex => {
                if let Some(Membership::Leave) = unsigned_membership {
                    return UtdCause::SentBeforeWeJoined;
                }
                UtdCause::Unknown
            },
            UnableToDecryptReason::SenderIdentityNotTrusted(VerificationLevel::VerificationViolation) => UtdCause::VerificationViolation,
            UnableToDecryptReason::SenderIdentityNotTrusted(VerificationLevel::UnsignedDevice) => UtdCause::UnsignedDevice,
            UnableToDecryptReason::SenderIdentityNotTrusted(VerificationLevel::Unlinked(_)) => UtdCause::UnknownDevice,
            _ => UtdCause::Unknown,
        }
    }
}

} // verus!
