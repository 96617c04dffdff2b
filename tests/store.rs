use crypto_store::crypto::{seal, PickleKey};
use crypto_store::engine::{Engine, StoredValue};
use crypto_store::error::CryptoStoreError;
use crypto_store::store::IndexeddbStore;
use crypto_store::types::{
    Account, Changes, Device, GossipRequest, InboundGroupSession, MessageHash,
    OutboundGroupSession, PrivateCrossSigningIdentity, SecretInfo, Session, UserIdentity,
};

fn account() -> Account {
    Account {
        user_id: "@alice:example.org".to_string(),
        device_id: "ALICEDEVICE".to_string(),
        identity_keys: "curve_alice|ed_alice".to_string(),
        state: vec![1, 2, 3, 4],
    }
}

fn session(sender_key: &str, id: &str) -> Session {
    Session {
        sender_key: sender_key.to_string(),
        session_id: id.to_string(),
        our_identity_keys: "curve_alice|ed_alice".to_string(),
        state: vec![9, 8, 7],
    }
}

fn device() -> Device {
    Device {
        user_id: "@bob:example.org".to_string(),
        device_id: "BOBDEVICE".to_string(),
        keys: "curve_bob|ed_bob".to_string(),
    }
}

fn key_info() -> SecretInfo {
    SecretInfo::KeyRequest {
        algorithm: "m.megolm.v1.aes-sha2".to_string(),
        room_id: "!test:localhost".to_string(),
        sender_key: "test_sender_key".to_string(),
        session_id: "test_session_id".to_string(),
    }
}

fn loaded_store(engine: &mut Engine, name: &str) -> IndexeddbStore {
    let mut store = IndexeddbStore::open_with_name(engine, name).unwrap();
    store.save_account(account()).unwrap();
    store
}

#[test]
fn save_account() {
    let mut engine = Engine::new();
    let mut store = IndexeddbStore::open_with_name(&mut engine, "save_account").unwrap();
    assert!(store.load_account().unwrap().is_none());
    store.save_account(account()).unwrap();
}

#[test]
fn load_account() {
    let mut engine = Engine::new();
    let mut store = loaded_store(&mut engine, "load_account");
    let loaded = store.load_account().unwrap().unwrap();
    let a = account();
    assert_eq!(loaded.user_id, a.user_id);
    assert_eq!(loaded.device_id, a.device_id);
    assert_eq!(loaded.identity_keys, a.identity_keys);
    assert_eq!(loaded.state, a.state);
}

#[test]
fn load_account_with_passphrase() {
    let mut engine = Engine::new();
    let mut store =
        IndexeddbStore::open_with_passphrase(&mut engine, "load_account_with_passphrase", "secret_passphrase")
            .unwrap();
    store.save_account(account()).unwrap();
    let loaded = store.load_account().unwrap().unwrap();
    assert_eq!(loaded.state, account().state);
}

#[test]
fn sessions_need_an_account() {
    let mut engine = Engine::new();
    let mut store = IndexeddbStore::open_with_name(&mut engine, "no_account").unwrap();
    assert_eq!(store.get_sessions("curve1").err(), Some(CryptoStoreError::AccountUnset));
}

#[test]
fn load_sessions() {
    let mut engine = Engine::new();
    let mut store = loaded_store(&mut engine, "load_sessions");
    let mut changes = Changes::empty();
    changes.sessions.push(session("curve1", "s1"));
    store.save_changes(changes).unwrap();
    let sessions = store.get_sessions("curve1").unwrap().unwrap();
    assert_eq!(sessions.len(), 1);
    assert_eq!(sessions[0].session_id, "s1");
    assert_eq!(sessions[0].state, vec![9, 8, 7]);
}

#[test]
fn add_and_save_session() {
    let mut engine = Engine::new();
    let mut store = loaded_store(&mut engine, "add_and_save_session");
    let mut changes = Changes::empty();
    changes.sessions.push(session("curve1", "s1"));
    store.save_changes(changes).unwrap();
    assert_eq!(store.get_sessions("curve1").unwrap().unwrap()[0].session_id, "s1");
    store.close(&mut engine);

    let mut store = IndexeddbStore::open_with_name(&mut engine, "add_and_save_session").unwrap();
    let loaded = store.load_account().unwrap().unwrap();
    assert_eq!(loaded.user_id, account().user_id);
    let sessions = store.get_sessions("curve1").unwrap().unwrap();
    assert_eq!(sessions.len(), 1);
    let s = &sessions[0];
    assert_eq!(s.sender_key, "curve1");
    assert_eq!(s.session_id, "s1");
    assert_eq!(s.our_identity_keys, account().identity_keys);
    assert_eq!(s.state, vec![9, 8, 7]);
}

#[test]
fn session_scan_skips_extended_sender_keys() {
    let mut engine = Engine::new();
    let mut store = loaded_store(&mut engine, "scan_prefix");
    let mut changes = Changes::empty();
    changes.sessions.push(session("abc", "s1"));
    changes.sessions.push(session("abcd", "s2"));
    changes.sessions.push(session("ab", "s3"));
    store.save_changes(changes).unwrap();
    store.close(&mut engine);
    let mut store = IndexeddbStore::open_with_name(&mut engine, "scan_prefix").unwrap();
    store.load_account().unwrap();
    let sessions = store.get_sessions("abc").unwrap().unwrap();
    assert_eq!(sessions.len(), 1);
    assert_eq!(sessions[0].session_id, "s1");
}

#[test]
fn saved_sessions_merge_into_cached_list() {
    let mut engine = Engine::new();
    let mut store = loaded_store(&mut engine, "merge_cache");
    let mut changes = Changes::empty();
    changes.sessions.push(session("curve1", "s1"));
    store.save_changes(changes).unwrap();
    assert_eq!(store.get_sessions("curve1").unwrap().unwrap().len(), 1);
    let mut changes = Changes::empty();
    let mut updated = session("curve1", "s1");
    updated.state = vec![5];
    changes.sessions.push(updated);
    changes.sessions.push(session("curve1", "s2"));
    store.save_changes(changes).unwrap();
    let sessions = store.get_sessions("curve1").unwrap().unwrap();
    assert_eq!(sessions.len(), 2);
    assert_eq!(sessions[0].session_id, "s1");
    assert_eq!(sessions[0].state, vec![5]);
    assert_eq!(sessions[1].session_id, "s2");
}

#[test]
fn empty_changes_touch_nothing() {
    let mut engine = Engine::new();
    let mut store = loaded_store(&mut engine, "empty_changes");
    assert!(store.save_changes(Changes::empty()).is_ok());
    assert!(store.get_device("@bob:example.org", "BOBDEVICE").unwrap().is_none());
}

#[test]
fn save_and_load_inbound_group_session() {
    let mut engine = Engine::new();
    let mut store = loaded_store(&mut engine, "load_inbound_group_session");
    let mut changes = Changes::empty();
    changes.inbound_group_sessions.push(InboundGroupSession {
        room_id: "!test:localhost".to_string(),
        sender_key: "curve_alice".to_string(),
        session_id: "gs1".to_string(),
        state: vec![42; 10],
    });
    store.save_changes(changes).unwrap();
    store.close(&mut engine);
    let store = IndexeddbStore::open_with_name(&mut engine, "load_inbound_group_session").unwrap();
    let loaded = store.get_inbound_group_session("!test:localhost", "curve_alice", "gs1").unwrap().unwrap();
    assert_eq!(loaded.room_id, "!test:localhost");
    assert_eq!(loaded.session_id, "gs1");
    assert_eq!(loaded.state, vec![42; 10]);
    assert!(store.get_inbound_group_session("!test:localhost", "curve_alice", "gs2").unwrap().is_none());
}

#[test]
fn outbound_group_session_needs_account() {
    let mut engine = Engine::new();
    let mut store = loaded_store(&mut engine, "outbound");
    let mut changes = Changes::empty();
    changes.outbound_group_sessions.push(OutboundGroupSession { room_id: "!r:x".to_string(), state: vec![3] });
    store.save_changes(changes).unwrap();
    let loaded = store.get_outbound_group_sessions("!r:x").unwrap().unwrap();
    assert_eq!(loaded.state, vec![3]);
    store.close(&mut engine);
    let store = IndexeddbStore::open_with_name(&mut engine, "outbound").unwrap();
    assert_eq!(store.get_outbound_group_sessions("!r:x").err(), Some(CryptoStoreError::AccountUnset));
}

#[test]
fn test_tracked_users() {
    let mut engine = Engine::new();
    let mut store = loaded_store(&mut engine, "test_tracked_users");
    let user = "@bob:example.org";
    assert_eq!(store.update_tracked_user(user, false), Ok(false));
    assert_eq!(store.update_tracked_user(user, false), Ok(true));
    assert!(store.is_user_tracked(user));
    assert!(!store.users_for_key_query().contains(&user.to_string()));
    assert_eq!(store.update_tracked_user(user, true), Ok(true));
    assert!(store.users_for_key_query().contains(&user.to_string()));
    assert!(store.has_users_for_key_query());
    store.close(&mut engine);

    let mut store = IndexeddbStore::open_with_name(&mut engine, "test_tracked_users").unwrap();
    store.load_account().unwrap();
    assert!(store.is_user_tracked(user));
    assert!(store.users_for_key_query().contains(&user.to_string()));
    store.update_tracked_user(user, false).unwrap();
    assert!(!store.users_for_key_query().contains(&user.to_string()));
    store.close(&mut engine);

    let mut store = IndexeddbStore::open_with_name(&mut engine, "test_tracked_users").unwrap();
    store.load_account().unwrap();
    assert!(!store.users_for_key_query().contains(&user.to_string()));
    assert!(store.tracked_users().contains(&user.to_string()));
}

#[test]
fn invalid_user_ids_are_not_reloaded() {
    let mut engine = Engine::new();
    let mut store = loaded_store(&mut engine, "invalid_user");
    assert_eq!(store.update_tracked_user("not a user id", true), Err(CryptoStoreError::SerializationError));
    assert!(!store.is_user_tracked("not a user id"));
    store.update_tracked_user("@carol:example.org", true).unwrap();
    store.close(&mut engine);
    let mut store = IndexeddbStore::open_with_name(&mut engine, "invalid_user").unwrap();
    store.load_account().unwrap();
    assert!(!store.is_user_tracked("not a user id"));
    assert!(store.is_user_tracked("@carol:example.org"));
}

#[test]
fn device_saving() {
    let mut engine = Engine::new();
    let mut store = loaded_store(&mut engine, "device_saving");
    let mut changes = Changes::empty();
    changes.devices.changed.push(device());
    store.save_changes(changes).unwrap();
    store.close(&mut engine);
    let mut store = IndexeddbStore::open_with_name(&mut engine, "device_saving").unwrap();
    store.load_account().unwrap();
    let loaded = store.get_device("@bob:example.org", "BOBDEVICE").unwrap().unwrap();
    assert_eq!(loaded, device());
    let devices = store.get_user_devices("@bob:example.org").unwrap();
    assert_eq!(devices, vec![device()]);
    assert!(store.get_user_devices("@bo").unwrap().is_empty());
}

#[test]
fn device_deleting() {
    let mut engine = Engine::new();
    let mut store = loaded_store(&mut engine, "device_deleting");
    let mut changes = Changes::empty();
    changes.devices.changed.push(device());
    store.save_changes(changes).unwrap();
    let mut changes = Changes::empty();
    changes.devices.deleted.push(device());
    store.save_changes(changes).unwrap();
    store.close(&mut engine);
    let mut store = IndexeddbStore::open_with_name(&mut engine, "device_deleting").unwrap();
    store.load_account().unwrap();
    assert!(store.get_device("@bob:example.org", "BOBDEVICE").unwrap().is_none());
}

#[test]
fn user_saving() {
    let mut engine = Engine::new();
    let mut store = loaded_store(&mut engine, "user_saving");
    let own = UserIdentity { user_id: "@alice:example.org".to_string(), master_key: "mk".to_string(), verified: false };
    let mut changes = Changes::empty();
    changes.identities.changed.push(own.clone());
    store.save_changes(changes).unwrap();
    store.close(&mut engine);
    let mut store = IndexeddbStore::open_with_name(&mut engine, "user_saving").unwrap();
    store.load_account().unwrap();
    assert_eq!(store.get_user_identity("@alice:example.org").unwrap(), Some(own.clone()));
    let mut verified = own.clone();
    verified.verified = true;
    let mut changes = Changes::empty();
    changes.identities.changed.push(verified);
    store.save_changes(changes).unwrap();
    assert!(store.get_user_identity("@alice:example.org").unwrap().unwrap().verified);
}

#[test]
fn private_identity_saving() {
    let mut engine = Engine::new();
    let mut store = loaded_store(&mut engine, "private_identity_saving");
    assert!(store.load_identity().unwrap().is_none());
    let mut changes = Changes::empty();
    changes.private_identity =
        Some(PrivateCrossSigningIdentity { user_id: "@alice:example.org".to_string(), state: vec![7; 5] });
    store.save_changes(changes).unwrap();
    let loaded = store.load_identity().unwrap().unwrap();
    assert_eq!(loaded.user_id, "@alice:example.org");
    assert_eq!(loaded.state, vec![7; 5]);
}

#[test]
fn olm_hash_saving() {
    let mut engine = Engine::new();
    let mut store = loaded_store(&mut engine, "olm_hash_saving");
    let hash = MessageHash { sender_key: "test_sender".to_string(), hash: "test_hash".to_string() };
    let mut changes = Changes::empty();
    changes.message_hashes.push(hash.clone());
    assert!(!store.is_message_known(&hash).unwrap());
    store.save_changes(changes).unwrap();
    assert!(store.is_message_known(&hash).unwrap());
}

#[test]
fn key_request_saving() {
    let mut engine = Engine::new();
    let mut store = loaded_store(&mut engine, "key_request_saving");
    let id: u128 = 0x1234_5678_9abc_def0_1122_3344_5566_7788;
    let info = key_info();
    let request = GossipRequest {
        request_recipient: "@alice:example.org".to_string(),
        request_id: id,
        info: info.clone(),
        sent_out: false,
    };
    assert!(store.get_outgoing_secret_requests(id).unwrap().is_none());
    let mut changes = Changes::empty();
    changes.key_requests.push(request.clone());
    store.save_changes(changes).unwrap();
    assert_eq!(store.get_outgoing_secret_requests(id).unwrap(), Some(request.clone()));
    assert_eq!(store.get_secret_request_by_info(&info).unwrap(), Some(request.clone()));
    assert_eq!(store.get_unsent_secret_requests().unwrap(), vec![request.clone()]);

    let sent = GossipRequest { sent_out: true, ..request.clone() };
    let mut changes = Changes::empty();
    changes.key_requests.push(sent.clone());
    store.save_changes(changes).unwrap();
    assert!(store.get_unsent_secret_requests().unwrap().is_empty());
    assert_eq!(store.get_outgoing_secret_requests(id).unwrap(), Some(sent.clone()));
    assert_eq!(store.get_secret_request_by_info(&info).unwrap(), Some(sent));

    store.delete_outgoing_secret_requests(id).unwrap();
    assert_eq!(store.get_outgoing_secret_requests(id).unwrap(), None);
    assert_eq!(store.get_secret_request_by_info(&info).unwrap(), None);
    assert!(store.get_unsent_secret_requests().unwrap().is_empty());
    assert!(store.delete_outgoing_secret_requests(id).is_ok());
}

#[test]
fn request_ids_are_filed_under_their_uuid_text() {
    let mut engine = Engine::new();
    let mut store = loaded_store(&mut engine, "uuid_text");
    let id: u128 = 0x0102_0304_0506_0708_090a_0b0c_0d0e_0f10;
    let info = SecretInfo::SecretRequest("m.cross_signing.master".to_string());
    let request = GossipRequest { request_recipient: "@a:b".to_string(), request_id: id, info: info.clone(), sent_out: false };
    let mut changes = Changes::empty();
    changes.key_requests.push(request);
    store.save_changes(changes).unwrap();
    store.close(&mut engine);
    let db = engine.take_database(&"uuid_text::matrix-sdk-crypto".to_string());
    let expected = uuid::Uuid::from_u128(id).to_string();
    assert_eq!(expected, "01020304-0506-0708-090a-0b0c0d0e0f10");
    match db.secret_requests_by_info.get(&info.as_key()) {
        Some(StoredValue::Text(t)) => assert_eq!(t, &expected),
        other => panic!("unexpected descriptor entry: {:?}", other),
    }
    assert!(db.unsent_secret_requests.get(&expected).is_some());
}

#[test]
fn descriptors_of_secrets() {
    assert_eq!(SecretInfo::SecretRequest("m.megolm_backup.v1".to_string()).as_key(), "secretName:m.megolm_backup.v1");
    assert_eq!(key_info().as_key(), "keyRequest:!test:localhost:test_sender_key:m.megolm.v1.aes-sha2:test_session_id");
}

#[test]
fn passphrase_failures_do_not_consume_the_key() {
    let mut engine = Engine::new();
    let mut store = IndexeddbStore::open_with_passphrase(&mut engine, "pass", "right").unwrap();
    store.save_account(account()).unwrap();
    store.close(&mut engine);
    let first = IndexeddbStore::open_with_passphrase(&mut engine, "pass", "wrong");
    assert_eq!(first.err(), Some(CryptoStoreError::UnpicklingError));
    let second = IndexeddbStore::open_with_passphrase(&mut engine, "pass", "wrong");
    assert_eq!(second.err(), Some(CryptoStoreError::UnpicklingError));
    let mut store = IndexeddbStore::open_with_passphrase(&mut engine, "pass", "right").unwrap();
    let loaded = store.load_account().unwrap().unwrap();
    assert_eq!(loaded.state, account().state);
}

#[test]
fn records_sealed_under_another_key_do_not_open() {
    let mut engine = Engine::new();
    let mut store = IndexeddbStore::open_with_passphrase(&mut engine, "keys", "one").unwrap();
    store.save_account(account()).unwrap();
    store.close(&mut engine);
    let mut store = IndexeddbStore::open_with_name(&mut engine, "keys").unwrap();
    assert_eq!(store.load_account().err(), Some(CryptoStoreError::UnpicklingError));
}

#[test]
fn sealed_state_is_encrypted() {
    let key = PickleKey::default_key();
    let state = vec![1u8, 2, 3, 4, 5, 6, 7, 8];
    match seal(&key, vec!["id".to_string()], &state).unwrap() {
        StoredValue::Sealed(rec) => {
            assert_eq!(rec.nonce.len(), 12);
            assert_eq!(rec.ciphertext.len(), state.len() + 16);
            assert_ne!(&rec.ciphertext[..state.len()], &state[..]);
            assert_eq!(rec.ids, vec!["id".to_string()]);
        }
        other => panic!("unexpected value: {:?}", other),
    }
    assert_eq!(key.key, b"DEFAULT_PICKLE_PASSPHRASE_123456".to_vec());
}

#[test]
fn default_store_is_named_crypto() {
    let mut engine = Engine::new();
    let mut store = IndexeddbStore::open(&mut engine).unwrap();
    store.save_account(account()).unwrap();
    store.close(&mut engine);
    let mut store = IndexeddbStore::open_with_name(&mut engine, "crypto").unwrap();
    assert!(store.load_account().unwrap().is_some());
}

#[test]
fn inbound_group_sessions_are_listed() {
    let mut engine = Engine::new();
    let mut store = loaded_store(&mut engine, "inbound_listing");
    assert!(store.get_inbound_group_sessions().unwrap().is_empty());
    let mut changes = Changes::empty();
    for (room, id) in [("!a:x", "g1"), ("!b:x", "g2")] {
        changes.inbound_group_sessions.push(InboundGroupSession {
            room_id: room.to_string(),
            sender_key: "curve".to_string(),
            session_id: id.to_string(),
            state: vec![1],
        });
    }
    store.save_changes(changes).unwrap();
    let mut ids: Vec<String> =
        store.get_inbound_group_sessions().unwrap().into_iter().map(|g| g.session_id).collect();
    ids.sort();
    assert_eq!(ids, vec!["g1".to_string(), "g2".to_string()]);
}

#[test]
fn account_info_follows_saved_account() {
    let mut engine = Engine::new();
    let mut store = IndexeddbStore::open_with_name(&mut engine, "account_info").unwrap();
    assert!(store.get_account_info().is_none());
    store.save_account(account()).unwrap();
    let info = store.get_account_info().unwrap();
    assert_eq!(info.user_id, "@alice:example.org");
    assert_eq!(info.device_id, "ALICEDEVICE");
}

#[test]
fn records_of_another_sender_key_are_not_returned() {
    let mut engine = Engine::new();
    let mut store = loaded_store(&mut engine, "foreign_record");
    let mut changes = Changes::empty();
    changes.sessions.push(session("abc", "s1"));
    store.save_changes(changes).unwrap();
    store.close(&mut engine);
    let name = "foreign_record::matrix-sdk-crypto".to_string();
    let mut db = engine.take_database(&name);
    let planted = seal(
        &PickleKey::default_key(),
        vec!["abcd".to_string(), "s9".to_string()],
        &vec![1, 1],
    )
    .unwrap();
    db.session.put("abc:s9".to_string(), planted);
    engine.return_database(name, db);
    let mut store = IndexeddbStore::open_with_name(&mut engine, "foreign_record").unwrap();
    store.load_account().unwrap();
    let sessions = store.get_sessions("abc").unwrap().unwrap();
    assert_eq!(sessions.len(), 1);
    assert_eq!(sessions[0].session_id, "s1");
    assert!(sessions.iter().all(|s| s.sender_key == "abc"));
}
