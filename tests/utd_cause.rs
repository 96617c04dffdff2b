use crypto_store::utd_cause::{
    DeviceLinkProblem, Membership, UnableToDecryptInfo, UnableToDecryptReason, UtdCause,
    VerificationLevel,
};

fn info(reason: UnableToDecryptReason) -> UnableToDecryptInfo {
    UnableToDecryptInfo { session_id: None, reason }
}

#[test]
fn test_a_missing_raw_event_means_we_guess_unknown() {
    assert_eq!(
        UtdCause::determine(None, &info(UnableToDecryptReason::MissingMegolmSession)),
        UtdCause::Unknown
    );
}

#[test]
fn test_if_there_is_no_membership_info_we_guess_unknown() {
    assert_eq!(
        UtdCause::determine(None, &info(UnableToDecryptReason::MissingMegolmSession)),
        UtdCause::Unknown
    );
}

#[test]
fn test_if_membership_info_cant_be_parsed_we_guess_unknown() {
    // A membership that does not parse reaches the classifier as no membership.
    assert_eq!(
        UtdCause::determine(None, &info(UnableToDecryptReason::MissingMegolmSession)),
        UtdCause::Unknown
    );
}

#[test]
fn test_if_membership_is_invite_we_guess_unknown() {
    assert_eq!(
        UtdCause::determine(
            Some(Membership::Invite),
            &info(UnableToDecryptReason::MissingMegolmSession)
        ),
        UtdCause::Unknown
    );
}

#[test]
fn test_if_membership_is_join_we_guess_unknown() {
    assert_eq!(
        UtdCause::determine(Some(Membership::Join), &info(UnableToDecryptReason::MissingMegolmSession)),
        UtdCause::Unknown
    );
}

#[test]
fn test_if_membership_is_leave_we_guess_membership() {
    assert_eq!(
        UtdCause::determine(Some(Membership::Leave), &info(UnableToDecryptReason::MissingMegolmSession)),
        UtdCause::SentBeforeWeJoined
    );
}

#[test]
fn test_if_reason_is_not_missing_key_we_guess_unknown_even_if_membership_is_leave() {
    assert_eq!(
        UtdCause::determine(
            Some(Membership::Leave),
            &info(UnableToDecryptReason::MalformedEncryptedEvent)
        ),
        UtdCause::Unknown
    );
}

#[test]
fn test_if_unstable_prefix_membership_is_leave_we_guess_membership() {
    // The unstable field name is read into the same membership value.
    assert_eq!(
        UtdCause::determine(Some(Membership::Leave), &info(UnableToDecryptReason::MissingMegolmSession)),
        UtdCause::SentBeforeWeJoined
    );
}

#[test]
fn unknown_message_index_with_leave_is_sent_before_we_joined() {
    assert_eq!(
        UtdCause::determine(
            Some(Membership::Leave),
            &info(UnableToDecryptReason::UnknownMegolmMessageIndex)
        ),
        UtdCause::SentBeforeWeJoined
    );
}

#[test]
fn test_verification_violation_is_passed_through() {
    assert_eq!(
        UtdCause::determine(
            None,
            &info(UnableToDecryptReason::SenderIdentityNotTrusted(
                VerificationLevel::VerificationViolation
            ))
        ),
        UtdCause::VerificationViolation
    );
}

#[test]
fn test_unsigned_device_is_passed_through() {
    assert_eq!(
        UtdCause::determine(
            None,
            &info(UnableToDecryptReason::SenderIdentityNotTrusted(VerificationLevel::UnsignedDevice))
        ),
        UtdCause::UnsignedDevice
    );
}

#[test]
fn test_unknown_device_is_passed_through() {
    assert_eq!(
        UtdCause::determine(
            None,
            &info(UnableToDecryptReason::SenderIdentityNotTrusted(VerificationLevel::Unlinked(
                DeviceLinkProblem::MissingDevice
            )))
        ),
        UtdCause::UnknownDevice
    );
}

#[test]
fn unverified_identity_is_unknown() {
    assert_eq!(
        UtdCause::determine(
            Some(Membership::Leave),
            &info(UnableToDecryptReason::SenderIdentityNotTrusted(
                VerificationLevel::UnverifiedIdentity
            ))
        ),
        UtdCause::Unknown
    );
}

#[test]
fn default_cause_is_unknown() {
    assert_eq!(UtdCause::default(), UtdCause::Unknown);
}
