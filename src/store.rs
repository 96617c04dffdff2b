//! The encrypted store: envelope key, transactional change application,
//! session cache, tracked users and the gossip-request indexes.
use vstd::prelude::*;

use crate::crypto::{
    new_pickle_key, unlock_pickle_key, unlocked_key, unseal, unsealed, PickleKey,
};
use crate::engine::{
    apply_writes, in_scope, empty_db, Database, DbView, Engine, PartitionId, PartitionView, StoredValue,
    Table, Write,
};
use crate::error::CryptoStoreError;
use crate::ids::{is_valid_user_id, request_key, user_id_valid, uuid_text};
use crate::keys::{join_key, join_key3, joined, joined3, make_range, range_lower, range_upper};
use crate::plan::{
    merged_into, without_id,
    account_write, cache_view, descriptor, device_writes, hash_key, hash_writes, identity_writes, implicated, lemma_partition_ranges, lemma_scope_all_to, lemma_scope_concat, lemma_written, literal, merge_all, merge_session, request_writes_for, seal_account, seal_error, seal_identity, seal_inbound, seal_outbound, seal_sessions, stores_for, too_long, written,
};
use crate::types::{
    Account, AccountInfo, Changes, Device, GossipRequest, InboundGroupSession, MessageHash,
    OutboundGroupSession, PrivateCrossSigningIdentity, SecretInfo, Session, UserIdentity,
};

verus! {

/// The name of the database of the store opened under `prefix`.
pub open spec fn store_name(prefix: Seq<char>) -> Seq<char> {
    prefix + "::matrix-sdk-crypto"@
}

/// The name of the database that holds the encrypted envelope key of the
/// store opened under `prefix`.
pub open spec fn meta_name(prefix: Seq<char>) -> Seq<char> {
    prefix + "::matrix-sdk-crypto-meta"@
}

/// The key of the account record in the core partition.
pub open spec fn account_key() -> Seq<char> {
    "account"@
}

/// The key of the private identity record in the core partition.
pub open spec fn identity_key() -> Seq<char> {
    "private_identity"@
}

/// The key of the encrypted envelope key in the core partition of the
/// auxiliary database.
pub open spec fn envelope_key() -> Seq<char> {
    "pickle_key"@
}

/// The envelope key that `passphrase` unlocks from the auxiliary database
/// `meta`, if it holds an encrypted one.
pub open spec fn stored_unlock(meta: DbView, passphrase: Seq<char>) -> Option<Seq<u8>> {
    match meta[PartitionId::Core][envelope_key()] {
        StoredValue::EncryptedKey(ek) => unlocked_key(ek, passphrase),
        _ => None,
    }
}

/// Whether the auxiliary database `meta` holds an encrypted envelope key.
pub open spec fn holds_envelope(meta: DbView) -> bool {
    &&& meta[PartitionId::Core].contains_key(envelope_key())
    &&& meta[PartitionId::Core][envelope_key()] is EncryptedKey
}

/// An attempt to open the store `prefix` with `passphrase` took the engine
/// from `before` to `after` and succeeded when `ok`: where an encrypted
/// envelope key is stored, it succeeds exactly when the passphrase unlocks
/// that key, and a failure leaves the engine as it was.
pub open spec fn unlock_attempted(
    before: Map<Seq<char>, DbView>,
    after: Map<Seq<char>, DbView>,
    prefix: Seq<char>,
    passphrase: Seq<char>,
    ok: bool,
) -> bool {
    let m = meta_name(prefix);
    before.contains_key(m) && holds_envelope(before[m]) ==> {
        &&& ok == (stored_unlock(before[m], passphrase) is Some)
        &&& !ok ==> after == before
    }
}

/// The strings of `v`, as a set.
pub open spec fn set_of(v: Seq<String>) -> Set<Seq<char>> {
    Set::new(|k: Seq<char>| exists|i: int| 0 <= i < v.len() && v[i]@ == k)
}

fn contains_str(v: &Vec<String>, s: &str) -> (r: bool)
    ensures
        r == set_of(v@).contains(s@),
{
    let t = s.to_owned();
    let mut i: usize = 0;
    while i < v.len()
        invariant
            i <= v@.len(),
            t@ == s@,
            forall|j: int| 0 <= j < i ==> v@[j]@ != s@,
        decreases v.len() - i,
    {
        if v[i] == t {
            return true;
        }
        i = i + 1;
    }
    false
}

fn insert_str(v: &mut Vec<String>, s: &str) -> (r: bool)
    ensures
        r == !set_of(old(v)@).contains(s@),
        set_of(final(v)@) == set_of(old(v)@).insert(s@),
{
    if contains_str(v, s) {
        assert(set_of(v@) =~= set_of(v@).insert(s@));
        false
    } else {
        let ghost before = v@;
        v.push(s.to_owned());
        assert forall|k: Seq<char>| set_of(v@).contains(k) == set_of(before).insert(s@).contains(k) by {
            if set_of(before).contains(k) {
                let j = choose|j: int| 0 <= j < before.len() && before[j]@ == k;
                assert(v@[j]@ == k);
            }
            if k == s@ {
                assert(v@[before.len() as int]@ == k);
            }
            if set_of(v@).contains(k) && k != s@ {
                let j = choose|j: int| 0 <= j < v@.len() && v@[j]@ == k;
                assert(before[j]@ == k);
            }
        }
        assert(set_of(v@) =~= set_of(before).insert(s@));
        true
    }
}

fn remove_str(v: &mut Vec<String>, s: &str)
    ensures
        set_of(final(v)@) == set_of(old(v)@).remove(s@),
{
    let ghost before = v@;
    let t = s.to_owned();
    let mut out: Vec<String> = Vec::new();
    let mut i: usize = 0;
    while i < v.len()
        invariant
            i <= v@.len(),
            t@ == s@,
            v@ == before,
            forall|k: Seq<char>| set_of(out@).contains(k) <==>
                (k != s@ && exists|j: int| 0 <= j < i && before[j]@ == k),
        decreases v.len() - i,
    {
        let ghost prev = out@;
        if !(v[i] == t) {
            out.push(v[i].clone());
        }
        proof {
            assert forall|k: Seq<char>| set_of(out@).contains(k) <==>
                (k != s@ && exists|j: int| 0 <= j < i + 1 && before[j]@ == k) by {
                if set_of(out@).contains(k) {
                    let j = choose|j: int| 0 <= j < out@.len() && out@[j]@ == k;
                    if j < prev.len() {
                        assert(set_of(prev).contains(k));
                        let jj = choose|jj: int| 0 <= jj < i && before[jj]@ == k;
                    } else {
                        assert(before[i as int]@ == k);
                    }
                }
                if k != s@ && exists|j: int| 0 <= j < i + 1 && before[j]@ == k {
                    let j = choose|j: int| 0 <= j < i + 1 && before[j]@ == k;
                    if j < i {
                        assert(set_of(prev).contains(k));
                        let jj = choose|jj: int| 0 <= jj < prev.len() && prev[jj]@ == k;
                        assert(out@[jj]@ == k);
                    } else {
                        assert(out@[prev.len() as int]@ == k);
                    }
                }
            }
        }
        i = i + 1;
    }
    *v = out;
    assert(set_of(v@) =~= set_of(before).remove(s@));
}

/// What a stored record with `n` clear identifiers holds under `key`, or
/// why it cannot be read: a value of another shape is a
/// `SerializationError`, a failed decryption an `UnpicklingError`.
pub open spec fn record_of(v: StoredValue, key: Seq<u8>, n: nat) -> Result<(Seq<String>, Seq<u8>), CryptoStoreError> {
    match v {
        StoredValue::Sealed(rec) => match unsealed(v, key) {
            Some((ids, st)) => if ids.len() == n {
                Ok((ids, st))
            } else {
                Err(CryptoStoreError::SerializationError)
            },
            None => Err(CryptoStoreError::UnpicklingError),
        },
        _ => Err(CryptoStoreError::SerializationError),
    }
}

fn open_record<'a>(v: &'a StoredValue, key: &PickleKey, n: usize) -> (r: Result<(&'a Vec<String>, Vec<u8>), CryptoStoreError>)
    requires
        key.wf(),
    ensures
        match r {
            Ok((ids, st)) => record_of(*v, key.key@, n as nat) == Ok::<(Seq<String>, Seq<u8>), CryptoStoreError>((ids@, st@)),
            Err(e) => record_of(*v, key.key@, n as nat) == Err::<(Seq<String>, Seq<u8>), CryptoStoreError>(e),
        },
{
    let (ids, st) = unseal(v, key)?;
    if ids.len() != n {
        return Err(CryptoStoreError::SerializationError);
    }
    Ok((ids, st))
}

/// `a` is the account that the record `v` holds under `key`.
pub open spec fn account_from(v: StoredValue, key: Seq<u8>, a: Account) -> bool {
    record_of(v, key, 3) matches Ok((ids, st)) && a.user_id == ids[0] && a.device_id == ids[1]
        && a.identity_keys == ids[2] && a.state@ == st
}

/// `s` is the session that the record `v` holds under `key`, completed
/// with the identity keys of the loaded account.
pub open spec fn session_from(v: StoredValue, key: Seq<u8>, info: AccountInfo, s: Session) -> bool {
    record_of(v, key, 2) matches Ok((ids, st)) && s.sender_key == ids[0] && s.session_id == ids[1]
        && s.our_identity_keys == info.identity_keys && s.state@ == st
}

/// `g` is the inbound group session that the record `v` holds under `key`.
pub open spec fn inbound_from(v: StoredValue, key: Seq<u8>, g: InboundGroupSession) -> bool {
    record_of(v, key, 3) matches Ok((ids, st)) && g.room_id == ids[0] && g.sender_key == ids[1]
        && g.session_id == ids[2] && g.state@ == st
}

/// `o` is the outbound group session that the record `v` holds under `key`.
pub open spec fn outbound_from(v: StoredValue, key: Seq<u8>, o: OutboundGroupSession) -> bool {
    record_of(v, key, 1) matches Ok((ids, st)) && o.room_id == ids[0] && o.state@ == st
}

/// `i` is the private identity that the record `v` holds under `key`.
pub open spec fn identity_from(v: StoredValue, key: Seq<u8>, i: PrivateCrossSigningIdentity) -> bool {
    record_of(v, key, 1) matches Ok((ids, st)) && i.user_id == ids[0] && i.state@ == st
}

/// The record `v` under key `k` is a readable session of `sender_key`: its
/// stored sender key is `sender_key` and `k` is its sender key and id
/// joined.
pub open spec fn session_record_of(k: Seq<char>, v: StoredValue, key: Seq<u8>, sender_key: Seq<char>) -> bool {
    record_of(v, key, 2) matches Ok((ids, st)) && ids[0]@ == sender_key && k == joined(ids[0]@, ids[1]@)
}

/// Every cached list holds only sessions of the sender key it is cached
/// under.
pub open spec fn cache_keyed(c: Map<Seq<char>, Seq<Session>>) -> bool {
    forall|k: Seq<char>, i: int| c.contains_key(k) && 0 <= i < c[k].len() ==> (#[trigger] c[k][i]).sender_key@ == k
}

/// `ss` are the sessions of the records of `part` under `sender_key`, each
/// record once, leaving out the records that cannot be read or that belong
/// to another sender key.
pub open spec fn sessions_loaded(
    ss: Seq<Session>,
    part: PartitionView,
    sender_key: Seq<char>,
    key: Seq<u8>,
    info: AccountInfo,
) -> bool {
    exists|keys: Seq<Seq<char>>| {
        &&& keys.len() == ss.len()
        &&& forall|i: int, j: int| 0 <= i < j < keys.len() ==> keys[i] != keys[j]
        &&& forall|i: int| 0 <= i < keys.len() ==> {
            &&& crate::keys::in_range(#[trigger] keys[i], range_lower(sender_key), range_upper(sender_key))
            &&& part.contains_key(keys[i])
            &&& session_from(part[keys[i]], key, info, ss[i])
            &&& session_record_of(keys[i], part[keys[i]], key, sender_key)
        }
        &&& forall|k: Seq<char>| part.contains_key(k)
            && crate::keys::in_range(k, range_lower(sender_key), range_upper(sender_key))
            && session_record_of(k, part[k], key, sender_key) ==> keys.contains(k)
    }
}

/// The gossip request stored under `id` in the index `part`.
pub open spec fn request_at(part: PartitionView, id: Seq<char>) -> Result<Option<GossipRequest>, CryptoStoreError> {
    if part.contains_key(id) {
        match part[id] {
            StoredValue::Request(r) => Ok(Some(r)),
            _ => Err(CryptoStoreError::SerializationError),
        }
    } else {
        Ok(None)
    }
}

/// The gossip request with id `id`: the sent index first, then the unsent
/// one.
pub open spec fn lookup_by_id(db: DbView, id: Seq<char>) -> Result<Option<GossipRequest>, CryptoStoreError> {
    match request_at(db[PartitionId::OutgoingSecretRequests], id) {
        Ok(None) => request_at(db[PartitionId::UnsentSecretRequests], id),
        other => other,
    }
}

/// The gossip request that the descriptor index holds for `info`.
pub open spec fn lookup_by_descriptor(db: DbView, info: SecretInfo) -> Result<Option<GossipRequest>, CryptoStoreError> {
    let by_info = db[PartitionId::SecretRequestsByInfo];
    if by_info.contains_key(descriptor(info)) {
        match by_info[descriptor(info)] {
            StoredValue::Text(t) => lookup_by_id(db, t@),
            _ => Ok(None),
        }
    } else {
        Ok(None)
    }
}

/// The database after the request with id `id`, found as `found`, was
/// deleted from all three indexes.
pub open spec fn request_deleted(db: DbView, id: Seq<char>, found: Option<GossipRequest>) -> DbView {
    let d = db.insert(PartitionId::UnsentSecretRequests, db[PartitionId::UnsentSecretRequests].remove(id))
        .insert(PartitionId::OutgoingSecretRequests, db[PartitionId::OutgoingSecretRequests].remove(id));
    match found {
        Some(r) => d.insert(
            PartitionId::SecretRequestsByInfo,
            db[PartitionId::SecretRequestsByInfo].remove(descriptor(r.info)),
        ),
        None => d,
    }
}

fn request_in(part: &crate::engine::Partition, id: &String) -> (r: Result<Option<GossipRequest>, CryptoStoreError>)
    requires
        part.wf(),
    ensures
        r == request_at(part@, id@),
{
    match part.get(id) {
        Some(StoredValue::Request(req)) => Ok(Some(req.copy())),
        Some(_) => Err(CryptoStoreError::SerializationError),
        None => Ok(None),
    }
}

/// `d` is the value of a device record of `part` under `user_id`.
pub open spec fn device_under(part: PartitionView, user_id: Seq<char>, d: Device) -> bool {
    exists|k: Seq<char>|
        crate::keys::in_range(k, range_lower(user_id), range_upper(user_id)) && part.contains_key(k)
            && part[k] == StoredValue::Device(d)
}

/// Some session of `gs` is what the record `v` holds under `key`.
pub open spec fn lists_inbound(gs: Seq<InboundGroupSession>, v: StoredValue, key: Seq<u8>) -> bool {
    exists|i: int| 0 <= i < gs.len() && inbound_from(v, key, gs[i])
}

/// `g` is what a readable inbound group session record of `part` holds.
pub open spec fn inbound_in(part: PartitionView, key: Seq<u8>, g: InboundGroupSession) -> bool {
    exists|k: Seq<char>| part.contains_key(k) && inbound_from(part[k], key, g)
}

/// `after` is `before` with `user` tracked and marked for a key query
/// exactly when `dirty`; `was` tells whether `user` was tracked before.
pub open spec fn tracking_updated(before: IndexeddbStore, after: IndexeddbStore, user: Seq<char>, dirty: bool, was: bool) -> bool {
    &&& was == before.tracked_set().contains(user)
    &&& after.tracked_set() == before.tracked_set().insert(user)
    &&& after.key_query() == (if dirty {
        before.key_query().insert(user)
    } else {
        before.key_query().remove(user)
    })
}

/// A store of the secret state of one account, kept encrypted in a database
/// of the engine while it is open.
pub struct IndexeddbStore {
    account_info: Option<AccountInfo>,
    name: String,
    db: Database,
    pickle_key: PickleKey,
    session_cache: Table<Vec<Session>>,
    tracked_users_cache: Vec<String>,
    users_for_key_query_cache: Vec<String>,
}

impl IndexeddbStore {
    /// The store's invariant: the database and the cache are well formed,
    /// the envelope key has its length, and every user waiting for a key
    /// query is tracked.
    pub closed spec fn wf(&self) -> bool {
        &&& self.db.wf()
        &&& self.pickle_key.wf()
        &&& self.session_cache.wf()
        &&& cache_keyed(cache_view(self.session_cache@))
        &&& self.key_query().subset_of(self.tracked_set())
    }

    /// The name of the store's database.
    pub closed spec fn name_view(&self) -> Seq<char> {
        self.name@
    }

    /// The contents of the store's database.
    pub closed spec fn db_view(&self) -> DbView {
        self.db@
    }

    /// The envelope key.
    pub closed spec fn key(&self) -> Seq<u8> {
        self.pickle_key.key@
    }

    /// The identifiers of the loaded account, if one was loaded or saved.
    pub closed spec fn account(&self) -> Option<AccountInfo> {
        self.account_info
    }

    /// The cached sessions, by sender key.
    pub closed spec fn cache(&self) -> Map<Seq<char>, Vec<Session>> {
        self.session_cache@
    }

    /// The tracked users.
    pub closed spec fn tracked_set(&self) -> Set<Seq<char>> {
        set_of(self.tracked_users_cache@)
    }

    /// The tracked users whose devices need a fresh key query.
    pub closed spec fn key_query(&self) -> Set<Seq<char>> {
        set_of(self.users_for_key_query_cache@)
    }

    /// Opens the database `prefix::matrix-sdk-crypto` of the engine with the
    /// given envelope key, creating it with empty partitions on first use.
    /// The database stays out of the engine until the store is closed.
    fn open_helper(engine: &mut Engine, prefix: &str, pickle_key: PickleKey) -> (r: Result<Self, CryptoStoreError>)
        requires
            old(engine).wf(),
            pickle_key.wf(),
        ensures
            final(engine).wf(),
            r matches Ok(s) && s.wf() && s.name_view() == store_name(prefix@)
                && s.db_view() == (if old(engine)@.contains_key(store_name(prefix@)) {
                    old(engine)@[store_name(prefix@)]
                } else {
                    empty_db()
                })
                && final(engine)@ == old(engine)@.remove(store_name(prefix@))
                && s.key() == pickle_key.key@
                && s.account() is None
                && s.cache() == Map::<Seq<char>, Vec<Session>>::empty()
                && s.tracked_set() == Set::<Seq<char>>::empty()
                && s.key_query() == Set::<Seq<char>>::empty(),
    {
        let mut name = prefix.to_owned();
        name.append("::matrix-sdk-crypto");
        let db = engine.take_database(&name);
        let s = IndexeddbStore {
            account_info: None,
            name,
            db,
            pickle_key,
            session_cache: Table::new(),
            tracked_users_cache: Vec::new(),
            users_for_key_query_cache: Vec::new(),
        };
        assert(s.tracked_set() =~= Set::<Seq<char>>::empty());
        assert(s.key_query() =~= Set::<Seq<char>>::empty());
        Ok(s)
    }

    /// Opens the store `crypto` with the fixed default key.
    pub fn open(engine: &mut Engine) -> (r: Result<Self, CryptoStoreError>)
        requires
            old(engine).wf(),
        ensures
            final(engine).wf(),
            r matches Ok(s) && s.wf() && s.name_view() == store_name("crypto"@)
                && s.key() == crate::crypto::default_key_bytes()
                && s.db_view() == (if old(engine)@.contains_key(store_name("crypto"@)) {
                    old(engine)@[store_name("crypto"@)]
                } else {
                    empty_db()
                })
                && s.account() is None
                && s.cache() == Map::<Seq<char>, Vec<Session>>::empty()
                && s.tracked_set() == Set::<Seq<char>>::empty()
                && s.key_query() == Set::<Seq<char>>::empty()
                && final(engine)@ == old(engine)@.remove(store_name("crypto"@)),
    {
        IndexeddbStore::open_helper(engine, "crypto", PickleKey::default_key())
    }

    /// Opens the store `name` with the fixed default key.
    pub fn open_with_name(engine: &mut Engine, name: &str) -> (r: Result<Self, CryptoStoreError>)
        requires
            old(engine).wf(),
        ensures
            final(engine).wf(),
            r matches Ok(s) && s.wf() && s.name_view() == store_name(name@)
                && s.key() == crate::crypto::default_key_bytes()
                && s.db_view() == (if old(engine)@.contains_key(store_name(name@)) {
                    old(engine)@[store_name(name@)]
                } else {
                    empty_db()
                })
                && s.account() is None
                && s.cache() == Map::<Seq<char>, Vec<Session>>::empty()
                && s.tracked_set() == Set::<Seq<char>>::empty()
                && s.key_query() == Set::<Seq<char>>::empty()
                && final(engine)@ == old(engine)@.remove(store_name(name@)),
    {
        IndexeddbStore::open_helper(engine, name, PickleKey::default_key())
    }

    /// Opens the store `prefix` with an envelope key protected by
    /// `passphrase`. The encrypted key lives in the auxiliary database
    /// `prefix::matrix-sdk-crypto-meta`; on first open a random key is made
    /// and stored there. A passphrase that does not unlock the stored key is
    /// an `UnpicklingError`, and then the engine is left as it was.
    pub fn open_with_passphrase(engine: &mut Engine, prefix: &str, passphrase: &str) -> (r: Result<Self, CryptoStoreError>)
        requires
            old(engine).wf(),
        ensures
            final(engine).wf(),
            unlock_attempted(old(engine)@, final(engine)@, prefix@, passphrase@, r is Ok),
            r matches Ok(s) ==> s.wf() && s.name_view() == store_name(prefix@)
                && s.db_view() == (if old(engine)@.contains_key(store_name(prefix@)) {
                    old(engine)@[store_name(prefix@)]
                } else {
                    empty_db()
                })
                && s.account() is None
                && s.cache() == Map::<Seq<char>, Vec<Session>>::empty()
                && s.tracked_set() == Set::<Seq<char>>::empty()
                && s.key_query() == Set::<Seq<char>>::empty(),
            ({
                let m = meta_name(prefix@);
                let had = old(engine)@.contains_key(m);
                if had && holds_envelope(old(engine)@[m]) {
                    let unlocked = stored_unlock(old(engine)@[m], passphrase@);
                    &&& r is Ok <==> unlocked is Some
                    &&& r matches Ok(s) ==> s.wf() && Some(s.key()) == unlocked
                        && s.name_view() == store_name(prefix@)
                        && final(engine)@ == old(engine)@.remove(store_name(prefix@))
                    &&& r is Err ==> r == Err::<Self, CryptoStoreError>(CryptoStoreError::UnpicklingError)
                        && final(engine)@ == old(engine)@
                } else if had && old(engine)@[m][PartitionId::Core].contains_key(envelope_key()) {
                    r == Err::<Self, CryptoStoreError>(CryptoStoreError::SerializationError)
                        && final(engine)@ == old(engine)@
                } else {
                    &&& r matches Ok(s) ==> s.wf() && s.name_view() == store_name(prefix@)
                        && final(engine)@.contains_key(m) && holds_envelope(final(engine)@[m])
                        && stored_unlock(final(engine)@[m], passphrase@) == Some(s.key())
                    &&& r is Err ==> r == Err::<Self, CryptoStoreError>(CryptoStoreError::RandomnessUnavailable)
                }
            }),
    {
        let mut mname = prefix.to_owned();
        mname.append("::matrix-sdk-crypto-meta");
        let ghost m = mname@;
        let ghost before = engine@;
        let mut meta = engine.take_database(&mname);
        let pk = literal("pickle_key");
        let outcome: Option<Result<PickleKey, CryptoStoreError>> = match meta.core.get(&pk) {
            Some(StoredValue::EncryptedKey(ek)) => Some(unlock_pickle_key(ek, passphrase)),
            Some(_) => Some(Err(CryptoStoreError::SerializationError)),
            None => None,
        };
        proof {
            lemma_names_differ(prefix@);
            assert(meta@[PartitionId::Core] == meta.core@);
            if outcome is Some {
                assert(meta.core@.contains_key(pk@));
                assert(!empty_db()[PartitionId::Core].contains_key(pk@));
                assert(before.contains_key(m));
            }
        }
        match outcome {
            Some(Ok(key)) => {
                engine.return_database(mname, meta);
                proof {
                    assert(engine@ =~= before);
                }
                IndexeddbStore::open_helper(engine, prefix, key)
            },
            Some(Err(e)) => {
                engine.return_database(mname, meta);
                proof {
                    assert(engine@ =~= before);
                }
                Err(e)
            },
            None => {
                match new_pickle_key(passphrase) {
                    Ok((key, ek)) => {
                        let mut scope: Vec<PartitionId> = Vec::new();
                        scope.push(PartitionId::Core);
                        let mut writes: Vec<Write> = Vec::new();
                        writes.push(Write::Put(PartitionId::Core, pk, StoredValue::EncryptedKey(ek)));
                        proof {
                            assert(writes@.drop_last() =~= Seq::<Write>::empty());
                            assert(scope@[0] == PartitionId::Core);
                        }
                        let _ = meta.commit(&scope, writes);
                        engine.return_database(mname, meta);
                        let r = IndexeddbStore::open_helper(engine, prefix, key);
                        r
                    },
                    Err(e) => {
                        engine.return_database(mname, meta);
                        Err(e)
                    },
                }
            },
        }
    }

    /// Hands the store's database back to the engine, where a later open by
    /// the same name finds it.
    pub fn close(self, engine: &mut Engine)
        requires
            old(engine).wf(),
            self.wf(),
        ensures
            final(engine).wf(),
            final(engine)@ == old(engine)@.insert(self.name_view(), self.db_view()),
    {
        engine.return_database(self.name, self.db);
    }

    /// Whether `user` is tracked.
    pub fn is_user_tracked(&self, user: &str) -> (r: bool)
        ensures
            r == self.tracked_set().contains(user@),
    {
        contains_str(&self.tracked_users_cache, user)
    }

    /// Whether some tracked user needs a key query.
    pub fn has_users_for_key_query(&self) -> (r: bool)
        ensures
            r == (self.key_query() != Set::<Seq<char>>::empty()),
    {
        if self.users_for_key_query_cache.len() == 0 {
            assert(self.key_query() =~= Set::<Seq<char>>::empty());
            false
        } else {
            assert(self.key_query().contains(self.users_for_key_query_cache@[0]@));
            true
        }
    }

    /// The tracked users.
    pub fn tracked_users(&self) -> (r: Vec<String>)
        ensures
            set_of(r@) == self.tracked_set(),
    {
        let mut r: Vec<String> = Vec::new();
        let mut i: usize = 0;
        while i < self.tracked_users_cache.len()
            invariant
                i <= self.tracked_users_cache@.len(),
                r@ == self.tracked_users_cache@.subrange(0, i as int),
            decreases self.tracked_users_cache.len() - i,
        {
            r.push(self.tracked_users_cache[i].clone());
            i = i + 1;
            assert(r@ =~= self.tracked_users_cache@.subrange(0, i as int));
        }
        assert(r@ =~= self.tracked_users_cache@);
        r
    }

    /// The tracked users whose devices need a fresh key query.
    pub fn users_for_key_query(&self) -> (r: Vec<String>)
        ensures
            set_of(r@) == self.key_query(),
    {
        let mut r: Vec<String> = Vec::new();
        let mut i: usize = 0;
        while i < self.users_for_key_query_cache.len()
            invariant
                i <= self.users_for_key_query_cache@.len(),
                r@ == self.users_for_key_query_cache@.subrange(0, i as int),
            decreases self.users_for_key_query_cache.len() - i,
        {
            r.push(self.users_for_key_query_cache[i].clone());
            i = i + 1;
            assert(r@ =~= self.users_for_key_query_cache@.subrange(0, i as int));
        }
        assert(r@ =~= self.users_for_key_query_cache@);
        r
    }

    /// Tracks `user`, marks whether its devices need a key query, and
    /// persists that flag in its own transaction. Returns whether the user
    /// was already tracked. A string that is not a valid user ID is a
    /// `SerializationError`, and then nothing changes.
    pub fn update_tracked_user(&mut self, user: &str, dirty: bool) -> (r: Result<bool, CryptoStoreError>)
        requires
            old(self).wf(),
        ensures
            final(self).wf(),
            !user_id_valid(user@) ==> r == Err::<bool, CryptoStoreError>(CryptoStoreError::SerializationError)
                && *final(self) == *old(self),
            user_id_valid(user@) ==> (r matches Ok(was) && tracking_updated(*old(self), *final(self), user@, dirty, was)),
            user_id_valid(user@) ==> final(self).db_view() == old(self).db_view().insert(
                PartitionId::TrackedUsers,
                old(self).db_view()[PartitionId::TrackedUsers].insert(user@, StoredValue::Flag(dirty)),
            ),
            final(self).key() == old(self).key(),
            final(self).account() == old(self).account(),
            final(self).cache() == old(self).cache(),
            final(self).name_view() == old(self).name_view(),
    {
        if !is_valid_user_id(user) {
            return Err(CryptoStoreError::SerializationError);
        }
        let added = insert_str(&mut self.tracked_users_cache, user);
        if dirty {
            insert_str(&mut self.users_for_key_query_cache, user);
        } else {
            remove_str(&mut self.users_for_key_query_cache, user);
        }
        let mut scope: Vec<PartitionId> = Vec::new();
        scope.push(PartitionId::TrackedUsers);
        let mut writes: Vec<Write> = Vec::new();
        writes.push(Write::Put(PartitionId::TrackedUsers, user.to_owned(), StoredValue::Flag(dirty)));
        let ghost ws = writes@;
        proof {
            lemma_single_write(self.db@, ws);
            assert(scope@[0] == PartitionId::TrackedUsers);
            assert(in_scope(scope@, ws));
        }
        let res = self.db.commit(&scope, writes);
        match res {
            Ok(()) => Ok(!added),
            Err(e) => Err(e),
        }
    }

    /// Applies every change of `changes` in one atomic transaction over the
    /// partitions they touch. Every secret is encrypted before the
    /// transaction opens; any failure there aborts the whole call with
    /// nothing written. After the commit, saved sessions are merged into the
    /// cached lists of their sender keys. A change set with nothing in it
    /// opens no transaction and changes nothing.
    pub fn save_changes(&mut self, changes: Changes) -> (r: Result<(), CryptoStoreError>)
        requires
            old(self).wf(),
            changes.key_requests@.len() * 3 <= usize::MAX,
        ensures
            final(self).wf(),
            final(self).key() == old(self).key(),
            final(self).account() == old(self).account(),
            final(self).name_view() == old(self).name_view(),
            final(self).tracked_set() == old(self).tracked_set(),
            final(self).key_query() == old(self).key_query(),
            changes.is_empty_spec() ==> r is Ok && *final(self) == *old(self),
            r is Ok ==> exists|ws: Seq<Write>| written(ws, changes, old(self).key())
                && #[trigger] apply_writes(old(self).db_view(), ws) == final(self).db_view(),
            r is Ok ==> cache_view(final(self).cache()) == merge_all(cache_view(old(self).cache()), changes.sessions@),
            r matches Err(e) ==> seal_error(e, too_long(changes)),
            too_long(changes) ==> r is Err,
            changes.account is None && changes.private_identity is None && changes.sessions@.len() == 0
                && changes.inbound_group_sessions@.len() == 0 && changes.outbound_group_sessions@.len() == 0
                ==> r is Ok,
            r is Err ==> final(self).db_view() == old(self).db_view() && final(self).cache() == old(self).cache(),
    {
        let scope = stores_for(&changes);
        if scope.len() == 0 {
            proof {
                assert(!implicated(changes, PartitionId::Core));
                assert(!implicated(changes, PartitionId::Session));
                assert(!implicated(changes, PartitionId::Devices));
                assert(!implicated(changes, PartitionId::Identities));
                assert(!implicated(changes, PartitionId::InboundGroupSessions));
                assert(!implicated(changes, PartitionId::OutboundGroupSessions));
                assert(!implicated(changes, PartitionId::OlmHashes));
                assert(!implicated(changes, PartitionId::SecretRequestsByInfo));
                let ws = Seq::<Write>::empty();
                assert(written(ws, changes, self.key()));
                assert(apply_writes(self.db_view(), ws) == self.db_view());
                assert(merge_all(cache_view(self.cache()), changes.sessions@) == cache_view(self.cache()));
            }
            return Ok(());
        }
        proof {
            if changes.is_empty_spec() {
                assert(scope@.contains(scope@[0]));
                assert(!implicated(changes, scope@[0]));
            }
        }
        let key = &self.pickle_key;
        let mut ws = seal_account(key, &changes.account)?;
        let mut w1 = seal_identity(key, &changes.private_identity)?;
        let mut w2 = seal_sessions(key, &changes.sessions)?;
        let mut w3 = seal_inbound(key, &changes.inbound_group_sessions)?;
        let mut w4 = seal_outbound(key, &changes.outbound_group_sessions)?;
        let mut w5 = device_writes(&changes.devices.new, false);
        let mut w5b = device_writes(&changes.devices.changed, false);
        let mut w6 = device_writes(&changes.devices.deleted, true);
        let mut w7 = identity_writes(&changes.identities.changed);
        let mut w7b = identity_writes(&changes.identities.new);
        let mut w8 = hash_writes(&changes.message_hashes);
        let mut w9 = request_writes_for(&changes.key_requests);
        let ghost (a0, a1, a2, a3, a4, a5, a5b, a6, a7, a7b, a8, a9) = (ws@, w1@, w2@, w3@, w4@, w5@, w5b@, w6@, w7@, w7b@, w8@, w9@);
        proof {
            let sc = scope@;
            lemma_scope_all_to(sc, a0 + a1, PartitionId::Core);
            lemma_scope_all_to(sc, a2, PartitionId::Session);
            lemma_scope_all_to(sc, a3, PartitionId::InboundGroupSessions);
            lemma_scope_all_to(sc, a4, PartitionId::OutboundGroupSessions);
            lemma_scope_all_to(sc, a5 + a5b + a6, PartitionId::Devices);
            lemma_scope_all_to(sc, a7 + a7b, PartitionId::Identities);
            lemma_scope_all_to(sc, a8, PartitionId::OlmHashes);
            assert(in_scope(sc, a9)) by {
                assert forall|j: int| 0 <= j < a9.len() implies sc.contains(#[trigger] a9[j].partition()) by {
                    let p = a9[j].partition();
                    assert(implicated(changes, p));
                }
            }
            lemma_scope_concat(sc, a0 + a1, a2);
            lemma_scope_concat(sc, a0 + a1 + a2, a3);
            lemma_scope_concat(sc, a0 + a1 + a2 + a3, a4);
            lemma_scope_concat(sc, a0 + a1 + a2 + a3 + a4, a5 + a5b + a6);
            assert(a0 + a1 + a2 + a3 + a4 + (a5 + a5b + a6) =~= a0 + a1 + a2 + a3 + a4 + a5 + a5b + a6);
            lemma_scope_concat(sc, a0 + a1 + a2 + a3 + a4 + a5 + a5b + a6, a7 + a7b);
            assert(a0 + a1 + a2 + a3 + a4 + a5 + a5b + a6 + (a7 + a7b) =~= a0 + a1 + a2 + a3 + a4 + a5 + a5b + a6 + a7 + a7b);
            lemma_scope_concat(sc, a0 + a1 + a2 + a3 + a4 + a5 + a5b + a6 + a7 + a7b, a8);
            lemma_scope_concat(sc, a0 + a1 + a2 + a3 + a4 + a5 + a5b + a6 + a7 + a7b + a8, a9);
        }
        ws.append(&mut w1);
        ws.append(&mut w2);
        ws.append(&mut w3);
        ws.append(&mut w4);
        ws.append(&mut w5);
        ws.append(&mut w5b);
        ws.append(&mut w6);
        ws.append(&mut w7);
        ws.append(&mut w7b);
        ws.append(&mut w8);
        ws.append(&mut w9);
        let ghost all = ws@;
        proof {
            assert(all == a0 + a1 + a2 + a3 + a4 + a5 + a5b + a6 + a7 + a7b + a8 + a9);
            lemma_partition_ranges(a0, a1, a2, a3, a4, a5, a5b, a6, a7, a7b, a8, a9);
            lemma_written(all, changes, self.key(), a0, a1, a2, a3, a4, a5, a5b, a6, a7, a7b, a8, a9);
        }
        let ghost old_cache = cache_view(self.session_cache@);
        let ghost old_db = self.db@;
        let res = self.db.commit(&scope, ws);
        match res {
            Ok(()) => {},
            Err(e) => {
                return Err(e);
            },
        }
        let ghost ss = changes.sessions@;
        let ghost mid = *self;
        assert(ss.len() == changes.sessions.len());
        let mut rest = changes.sessions;
        let mut n: usize = 0;
        assert(ss.take(0) =~= Seq::<Session>::empty());
        assert(ss.skip(0) =~= ss);
        while rest.len() > 0
            invariant
                self.session_cache.wf(),
                self.db == mid.db,
                self.pickle_key == mid.pickle_key,
                self.account_info == mid.account_info,
                self.name == mid.name,
                self.tracked_users_cache == mid.tracked_users_cache,
                self.users_for_key_query_cache == mid.users_for_key_query_cache,
                mid.db.wf(),
                mid.pickle_key.wf(),
                mid.key_query().subset_of(mid.tracked_set()),
                n <= ss.len(),
                ss.len() <= usize::MAX,
                rest@ == ss.skip(n as int),
                cache_view(self.session_cache@) == merge_all(old_cache, ss.take(n as int)),
            decreases rest.len(),
        {
            let x = rest.remove(0);
            proof {
                assert(x == ss[n as int]);
                assert(ss.take(n + 1).drop_last() =~= ss.take(n as int));
                assert(rest@ =~= ss.skip(n + 1));
            }
            merge_session(&mut self.session_cache, x);
            n = n + 1;
        }
        assert(ss.take(n as int) =~= ss);
        proof {
            lemma_merge_keyed(old_cache, ss);
            assert(written(all, changes, old(self).key()));
            assert(apply_writes(old(self).db_view(), all) == self.db_view());
        }
        Ok(())
    }

    /// Loads the account, if one was saved, and with it the tracked-user
    /// sets; remembers the account's identifiers for reading sessions.
    pub fn load_account(&mut self) -> (r: Result<Option<Account>, CryptoStoreError>)
        requires
            old(self).wf(),
        ensures
            final(self).wf(),
            final(self).db_view() == old(self).db_view(),
            final(self).key() == old(self).key(),
            final(self).cache() == old(self).cache(),
            final(self).name_view() == old(self).name_view(),
            ({
                let core = old(self).db_view()[PartitionId::Core];
                if !core.contains_key(account_key()) {
                    r == Ok::<Option<Account>, CryptoStoreError>(None) && *final(self) == *old(self)
                } else {
                    let rec = record_of(core[account_key()], old(self).key(), 3);
                    &&& rec is Err ==> r == Err::<Option<Account>, CryptoStoreError>(rec->Err_0)
                        && final(self).account() == old(self).account()
                    &&& rec is Ok ==> (r matches Ok(Some(a)) && account_from(core[account_key()], old(self).key(), a)
                        && final(self).account() == Some(AccountInfo {
                            user_id: a.user_id,
                            device_id: a.device_id,
                            identity_keys: a.identity_keys,
                        }))
                    &&& forall|u: Seq<char>| #[trigger] final(self).tracked_set().contains(u) <==>
                        old(self).tracked_set().contains(u) || (user_id_valid(u)
                            && old(self).db_view()[PartitionId::TrackedUsers].contains_key(u))
                    &&& forall|u: Seq<char>| #[trigger] final(self).key_query().contains(u) <==>
                        old(self).key_query().contains(u) || (user_id_valid(u)
                            && old(self).db_view()[PartitionId::TrackedUsers].contains_key(u)
                            && old(self).db_view()[PartitionId::TrackedUsers][u] != StoredValue::Flag(false))
                }
            }),
    {
        let k = literal("account");
        assert(self.db@[PartitionId::Core] == self.db.core@);
        if self.db.core.get(&k).is_none() {
            return Ok(None);
        }
        self.load_tracked_users();
        assert(self.db@[PartitionId::Core] == self.db.core@);
        let v = match self.db.core.get(&k) {
            Some(v) => v,
            None => {
                return Ok(None);
            },
        };
        let (ids, state) = open_record(v, &self.pickle_key, 3)?;
        let account = Account {
            user_id: ids[0].clone(),
            device_id: ids[1].clone(),
            identity_keys: ids[2].clone(),
            state,
        };
        self.account_info = Some(AccountInfo {
            user_id: ids[0].clone(),
            device_id: ids[1].clone(),
            identity_keys: ids[2].clone(),
        });
        Ok(Some(account))
    }

    /// Remembers the account's identifiers and saves the account.
    pub fn save_account(&mut self, account: Account) -> (r: Result<(), CryptoStoreError>)
        requires
            old(self).wf(),
        ensures
            final(self).wf(),
            final(self).key() == old(self).key(),
            r is Ok ==> final(self).account() == Some(AccountInfo {
                user_id: account.user_id,
                device_id: account.device_id,
                identity_keys: account.identity_keys,
            }),
            r is Err ==> final(self).account() == old(self).account(),
            r is Ok ==> final(self).db_view()[PartitionId::Core].contains_key(account_key())
                && account_from(final(self).db_view()[PartitionId::Core][account_key()], old(self).key(), account),
            r is Ok ==> forall|p: PartitionId| p != PartitionId::Core ==> #[trigger] final(self).db_view()[p] == old(self).db_view()[p],
            r matches Err(e) ==> seal_error(e, account.state@.len() > crate::crypto::max_plaintext())
                && final(self).db_view() == old(self).db_view(),
    {
        let info = AccountInfo {
            user_id: account.user_id.clone(),
            device_id: account.device_id.clone(),
            identity_keys: account.identity_keys.clone(),
        };
        let ghost acc = account;
        let mut changes = Changes::empty();
        changes.account = Some(account);
        let ghost before = self.db@;
        let r = self.save_changes(changes);
        proof {
            if r is Ok {
                let ws = choose|ws: Seq<Write>| written(ws, changes, self.key())
                    && #[trigger] apply_writes(before, ws) == self.db_view();
                lemma_account_saved(before, ws, changes, self.key(), acc);
            }
            if r is Err {
                assert(!too_long(changes) ==> !(acc.state@.len() > crate::crypto::max_plaintext()));
            }
        }
        if r.is_ok() {
            self.account_info = Some(info);
        }
        r
    }

    /// Loads the private cross-signing identity, if one was saved.
    pub fn load_identity(&self) -> (r: Result<Option<PrivateCrossSigningIdentity>, CryptoStoreError>)
        requires
            self.wf(),
        ensures
            ({
                let core = self.db_view()[PartitionId::Core];
                if !core.contains_key(identity_key()) {
                    r == Ok::<Option<PrivateCrossSigningIdentity>, CryptoStoreError>(None)
                } else {
                    let rec = record_of(core[identity_key()], self.key(), 1);
                    &&& rec is Err ==> r == Err::<Option<PrivateCrossSigningIdentity>, CryptoStoreError>(rec->Err_0)
                    &&& rec is Ok ==> (r matches Ok(Some(i)) && identity_from(core[identity_key()], self.key(), i))
                }
            }),
    {
        let k = literal("private_identity");
        assert(self.db@[PartitionId::Core] == self.db.core@);
        match self.db.core.get(&k) {
            None => Ok(None),
            Some(v) => match open_record(v, &self.pickle_key, 1) {
                Ok((ids, state)) => Ok(Some(PrivateCrossSigningIdentity { user_id: ids[0].clone(), state })),
                Err(e) => Err(e),
            },
        }
    }

    /// The sessions with the device that owns `sender_key`. If they are not
    /// cached, every record under `sender_key` is read and decrypted, the
    /// unreadable ones are left out, and the result is cached whole. Needs
    /// a loaded account.
    pub fn get_sessions(&mut self, sender_key: &str) -> (r: Result<Option<&Vec<Session>>, CryptoStoreError>)
        requires
            old(self).wf(),
        ensures
            final(self).wf(),
            final(self).db_view() == old(self).db_view(),
            final(self).key() == old(self).key(),
            final(self).account() == old(self).account(),
            final(self).tracked_set() == old(self).tracked_set(),
            final(self).key_query() == old(self).key_query(),
            old(self).account() is None ==> r is Err && r == Err::<Option<&Vec<Session>>, CryptoStoreError>(CryptoStoreError::AccountUnset)
                && *final(self) == *old(self),
            old(self).account() matches Some(info) ==> (r matches Ok(Some(v)) && (if old(self).cache().contains_key(sender_key@) {
                *v == old(self).cache()[sender_key@] && final(self).cache() == old(self).cache()
            } else {
                final(self).cache() == old(self).cache().insert(sender_key@, *v)
                    && sessions_loaded(v@, old(self).db_view()[PartitionId::Session], sender_key@, old(self).key(), info)
            })),
            r matches Ok(Some(v)) ==> forall|i: int| 0 <= i < v@.len() ==> (#[trigger] v@[i]).sender_key@ == sender_key@,
    {
        let info = match &self.account_info {
            Some(i) => i,
            None => return Err(CryptoStoreError::AccountUnset),
        };
        let k = sender_key.to_owned();
        if self.session_cache.get(&k).is_none() {
            let range = match make_range(sender_key) {
                Ok(kr) => kr,
                Err(e) => return Err(e),
            };
            let part = &self.db.session;
            let ghost pv = part@;
            assert(self.db@[PartitionId::Session] == pv);
            let entries = part.scan(Some(&range));
            let mut sessions: Vec<Session> = Vec::new();
            let ghost mut keys: Seq<Seq<char>> = Seq::empty();
            let mut i: usize = 0;
            while i < entries.len()
                invariant
                    self.pickle_key.wf(),
                    i <= entries@.len(),
                    keys.len() == sessions@.len(),
                    forall|a: int| 0 <= a < entries@.len() ==> {
                        &&& crate::engine::selected(#[trigger] entries@[a].0@, Some(&range))
                        &&& pv.contains_key(entries@[a].0@)
                        &&& pv[entries@[a].0@] == *entries@[a].1
                    },
                    forall|a: int, b: int| 0 <= a < b < entries@.len() ==> entries@[a].0@ != entries@[b].0@,
                    forall|a: int| 0 <= a < keys.len() ==> exists|b: int| 0 <= b < i && entries@[b].0@ == #[trigger] keys[a],
                    forall|a: int, b: int| 0 <= a < b < keys.len() ==> keys[a] != keys[b],
                    forall|a: int| 0 <= a < keys.len() ==> {
                        &&& crate::keys::in_range(#[trigger] keys[a], range_lower(sender_key@), range_upper(sender_key@))
                        &&& pv.contains_key(keys[a])
                        &&& session_from(pv[keys[a]], self.pickle_key.key@, *info, sessions@[a])
                        &&& session_record_of(keys[a], pv[keys[a]], self.pickle_key.key@, sender_key@)
                        &&& sessions@[a].sender_key@ == sender_key@
                    },
                    forall|b: int| 0 <= b < i && session_record_of(entries@[b].0@, *entries@[b].1, self.pickle_key.key@, sender_key@) ==>
                        keys.contains(#[trigger] entries@[b].0@),
                    k@ == sender_key@,
                    range.lower@ == range_lower(sender_key@),
                    range.upper@ == range_upper(sender_key@),
                decreases entries.len() - i,
            {
                let (ek, v) = entries[i];
                let decoded = match open_record(v, &self.pickle_key, 2) {
                    Ok((ids, state)) => {
                        let kk = join_key(ids[0].as_str(), ids[1].as_str());
                        if ids[0] == k && *ek == kk {
                            Some((ids, state))
                        } else {
                            None
                        }
                    },
                    Err(_) => None,
                };
                match decoded {
                    Some((ids, state)) => {
                        proof {
                            assert forall|a: int| 0 <= a < keys.len() implies keys[a] != ek@ by {
                                let b = choose|b: int| 0 <= b < i && entries@[b].0@ == keys[a];
                            }
                            let kk = keys.push(ek@);
                            assert forall|b: int| 0 <= b < i + 1 && session_record_of(entries@[b].0@, *entries@[b].1, self.pickle_key.key@, sender_key@) implies
                                kk.contains(#[trigger] entries@[b].0@) by {
                                if b < i {
                                    let a = choose|a: int| 0 <= a < keys.len() && keys[a] == entries@[b].0@;
                                    assert(kk[a] == keys[a]);
                                } else {
                                    assert(kk[keys.len() as int] == ek@);
                                }
                            }
                            keys = kk;
                        }
                        sessions.push(Session {
                            sender_key: ids[0].clone(),
                            session_id: ids[1].clone(),
                            our_identity_keys: info.identity_keys.clone(),
                            state,
                        });
                    },
                    None => {},
                }
                i = i + 1;
            }
            proof {
                assert forall|kx: Seq<char>| pv.contains_key(kx)
                    && crate::keys::in_range(kx, range_lower(sender_key@), range_upper(sender_key@))
                    && session_record_of(kx, pv[kx], self.pickle_key.key@, sender_key@) implies keys.contains(kx) by {
                    assert(crate::engine::selected(kx, Some(&range)));
                    let b = choose|b: int| 0 <= b < entries@.len() && entries@[b].0@ == kx;
                }
                assert(sessions_loaded(sessions@, pv, sender_key@, self.pickle_key.key@, *info));
            }
            let ghost before_cache = cache_view(self.session_cache@);
            let ghost loaded = sessions@;
            proof {
                assert forall|j: int| 0 <= j < loaded.len() implies (#[trigger] loaded[j]).sender_key@ == sender_key@ by {
                    assert(crate::keys::in_range(keys[j], range_lower(sender_key@), range_upper(sender_key@)));
                }
            }
            self.session_cache.put(k, sessions);
            proof {
                let c1 = cache_view(self.session_cache@);
                assert(c1 =~= before_cache.insert(sender_key@, loaded));
                assert forall|k3: Seq<char>, j: int| c1.contains_key(k3) && 0 <= j < c1[k3].len() implies
                    (#[trigger] c1[k3][j]).sender_key@ == k3 by {
                    if k3 != sender_key@ {
                        assert(c1[k3] == before_cache[k3]);
                    } else {
                        assert(c1[k3] == loaded);
                    }
                }
            }
            let k2 = sender_key.to_owned();
            return Ok(self.session_cache.get(&k2));
        }
        proof {
            let c0 = cache_view(self.session_cache@);
            assert(c0.contains_key(sender_key@));
            assert forall|j: int| 0 <= j < self.session_cache@[sender_key@]@.len() implies
                (#[trigger] self.session_cache@[sender_key@]@[j]).sender_key@ == sender_key@ by {
                assert(c0[sender_key@][j] == self.session_cache@[sender_key@]@[j]);
            }
        }
        Ok(self.session_cache.get(&k))
    }

    /// The inbound group session of `room_id` from `sender_key` with id
    /// `session_id`. A record that cannot be read is an error.
    pub fn get_inbound_group_session(&self, room_id: &str, sender_key: &str, session_id: &str) -> (r: Result<Option<InboundGroupSession>, CryptoStoreError>)
        requires
            self.wf(),
        ensures
            ({
                let part = self.db_view()[PartitionId::InboundGroupSessions];
                let k = joined3(room_id@, sender_key@, session_id@);
                if !part.contains_key(k) {
                    r == Ok::<Option<InboundGroupSession>, CryptoStoreError>(None)
                } else {
                    let rec = record_of(part[k], self.key(), 3);
                    &&& rec is Err ==> r == Err::<Option<InboundGroupSession>, CryptoStoreError>(rec->Err_0)
                    &&& rec is Ok ==> (r matches Ok(Some(g)) && inbound_from(part[k], self.key(), g))
                }
            }),
    {
        let k = join_key3(room_id, sender_key, session_id);
        assert(self.db@[PartitionId::InboundGroupSessions] == self.db.inbound_group_sessions@);
        match self.db.inbound_group_sessions.get(&k) {
            None => Ok(None),
            Some(v) => {
                let (ids, state) = open_record(v, &self.pickle_key, 3)?;
                Ok(Some(InboundGroupSession {
                    room_id: ids[0].clone(),
                    sender_key: ids[1].clone(),
                    session_id: ids[2].clone(),
                    state,
                }))
            },
        }
    }

    /// Every inbound group session whose record can be read; the others are
    /// left out.
    pub fn get_inbound_group_sessions(&self) -> (r: Result<Vec<InboundGroupSession>, CryptoStoreError>)
        requires
            self.wf(),
        ensures
            r matches Ok(gs) && ({
                let part = self.db_view()[PartitionId::InboundGroupSessions];
                &&& forall|i: int| 0 <= i < gs@.len() ==> inbound_in(part, self.key(), #[trigger] gs@[i])
                &&& forall|k: Seq<char>| part.contains_key(k) && record_of(part[k], self.key(), 3) is Ok ==>
                    lists_inbound(gs@, #[trigger] part[k], self.key())
            }),
    {
        let part = &self.db.inbound_group_sessions;
        let ghost pv = part@;
        let ghost key = self.pickle_key.key@;
        assert(self.db@[PartitionId::InboundGroupSessions] == pv);
        let entries = part.scan(None);
        let mut gs: Vec<InboundGroupSession> = Vec::new();
        let mut i: usize = 0;
        while i < entries.len()
            invariant
                self.pickle_key.wf(),
                key == self.pickle_key.key@,
                i <= entries@.len(),
                forall|a: int| 0 <= a < entries@.len() ==> {
                    &&& pv.contains_key(#[trigger] entries@[a].0@)
                    &&& pv[entries@[a].0@] == *entries@[a].1
                },
                forall|a: int| 0 <= a < gs@.len() ==> inbound_in(pv, key, #[trigger] gs@[a]),
                forall|b: int| 0 <= b < i && record_of(*entries@[b].1, key, 3) is Ok ==>
                    lists_inbound(gs@, #[trigger] *entries@[b].1, key),
            decreases entries.len() - i,
        {
            let (ek, v) = entries[i];
            let ghost prev = gs@;
            match open_record(v, &self.pickle_key, 3) {
                Ok((ids, state)) => {
                    gs.push(InboundGroupSession {
                        room_id: ids[0].clone(),
                        sender_key: ids[1].clone(),
                        session_id: ids[2].clone(),
                        state,
                    });
                    proof {
                        let n = prev.len() as int;
                        assert(inbound_from(pv[ek@], key, gs@[n]));
                        assert forall|a: int| 0 <= a < gs@.len() implies inbound_in(pv, key, #[trigger] gs@[a]) by {
                            if a < n {
                                assert(gs@[a] == prev[a]);
                            }
                        }
                        assert forall|b: int| 0 <= b < i + 1 && record_of(*entries@[b].1, key, 3) is Ok implies
                            lists_inbound(gs@, #[trigger] *entries@[b].1, key) by {
                            if b < i {
                                let a = choose|a: int| 0 <= a < prev.len() && inbound_from(*entries@[b].1, key, prev[a]);
                                assert(gs@[a] == prev[a]);
                            } else {
                                assert(inbound_from(*entries@[b].1, key, gs@[n]));
                                assert(0 <= n < gs@.len());
                            }
                        }
                    }
                },
                Err(_) => {},
            }
            i = i + 1;
        }
        proof {
            assert forall|k: Seq<char>| pv.contains_key(k) && record_of(pv[k], key, 3) is Ok implies
                lists_inbound(gs@, #[trigger] pv[k], key) by {
                assert(crate::engine::selected(k, None));
                let b = choose|b: int| 0 <= b < entries@.len() && entries@[b].0@ == k;
                assert(pv[k] == *entries@[b].1);
            }
        }
        Ok(gs)
    }

    /// The identifiers of the loaded account, if any.
    pub fn get_account_info(&self) -> (r: Option<AccountInfo>)
        ensures
            r == self.account(),
    {
        match &self.account_info {
            Some(info) => Some(info.copy()),
            None => None,
        }
    }

    /// The outbound group session of `room_id`. Needs a loaded account.
    pub fn get_outbound_group_sessions(&self, room_id: &str) -> (r: Result<Option<OutboundGroupSession>, CryptoStoreError>)
        requires
            self.wf(),
        ensures
            self.account() is None ==> r == Err::<Option<OutboundGroupSession>, CryptoStoreError>(CryptoStoreError::AccountUnset),
            self.account() is Some ==> ({
                let part = self.db_view()[PartitionId::OutboundGroupSessions];
                if !part.contains_key(room_id@) {
                    r == Ok::<Option<OutboundGroupSession>, CryptoStoreError>(None)
                } else {
                    let rec = record_of(part[room_id@], self.key(), 1);
                    &&& rec is Err ==> r == Err::<Option<OutboundGroupSession>, CryptoStoreError>(rec->Err_0)
                    &&& rec is Ok ==> (r matches Ok(Some(o)) && outbound_from(part[room_id@], self.key(), o))
                }
            }),
    {
        if self.account_info.is_none() {
            return Err(CryptoStoreError::AccountUnset);
        }
        let k = room_id.to_owned();
        assert(self.db@[PartitionId::OutboundGroupSessions] == self.db.outbound_group_sessions@);
        match self.db.outbound_group_sessions.get(&k) {
            None => Ok(None),
            Some(v) => {
                let (ids, state) = open_record(v, &self.pickle_key, 1)?;
                Ok(Some(OutboundGroupSession { room_id: ids[0].clone(), state }))
            },
        }
    }

    /// The device `device_id` of `user_id`. A record of another shape is a
    /// `SerializationError`.
    pub fn get_device(&self, user_id: &str, device_id: &str) -> (r: Result<Option<Device>, CryptoStoreError>)
        requires
            self.wf(),
        ensures
            ({
                let part = self.db_view()[PartitionId::Devices];
                let k = joined(user_id@, device_id@);
                if !part.contains_key(k) {
                    r == Ok::<Option<Device>, CryptoStoreError>(None)
                } else {
                    match part[k] {
                        StoredValue::Device(d) => r == Ok::<Option<Device>, CryptoStoreError>(Some(d)),
                        _ => r == Err::<Option<Device>, CryptoStoreError>(CryptoStoreError::SerializationError),
                    }
                }
            }),
    {
        let k = join_key(user_id, device_id);
        assert(self.db@[PartitionId::Devices] == self.db.devices@);
        match self.db.devices.get(&k) {
            None => Ok(None),
            Some(StoredValue::Device(d)) => Ok(Some(d.copy())),
            Some(_) => Err(CryptoStoreError::SerializationError),
        }
    }

    /// Every device of `user_id` whose record can be read.
    pub fn get_user_devices(&self, user_id: &str) -> (r: Result<Vec<Device>, CryptoStoreError>)
        requires
            self.wf(),
        ensures
            r matches Ok(ds) && ({
                let part = self.db_view()[PartitionId::Devices];
                let lo = range_lower(user_id@);
                let hi = range_upper(user_id@);
                &&& forall|i: int| 0 <= i < ds@.len() ==> device_under(part, user_id@, #[trigger] ds@[i])
                &&& forall|k: Seq<char>| part.contains_key(k) && crate::keys::in_range(k, lo, hi)
                    && part[k] is Device ==> ds@.contains(part[k]->Device_0)
            }),
    {
        let range = match make_range(user_id) {
            Ok(kr) => kr,
            Err(e) => return Err(e),
        };
        let part = &self.db.devices;
        let ghost pv = part@;
        assert(self.db@[PartitionId::Devices] == pv);
        let entries = part.scan(Some(&range));
        let mut ds: Vec<Device> = Vec::new();
        let mut i: usize = 0;
        while i < entries.len()
            invariant
                i <= entries@.len(),
                range.lower@ == range_lower(user_id@),
                range.upper@ == range_upper(user_id@),
                forall|a: int| 0 <= a < entries@.len() ==> {
                    &&& crate::engine::selected(#[trigger] entries@[a].0@, Some(&range))
                    &&& pv.contains_key(entries@[a].0@)
                    &&& pv[entries@[a].0@] == *entries@[a].1
                },
                forall|a: int| 0 <= a < ds@.len() ==> device_under(pv, user_id@, #[trigger] ds@[a]),
                forall|b: int| 0 <= b < i && *entries@[b].1 is Device ==>
                    ds@.contains(#[trigger] entries@[b].1->Device_0),
            decreases entries.len() - i,
        {
            let (ek, v) = entries[i];
            if let StoredValue::Device(d) = v {
                let ghost prev = ds@;
                ds.push(d.copy());
                proof {
                    assert(crate::engine::selected(entries@[i as int].0@, Some(&range)));
                    assert forall|b: int| 0 <= b < i + 1 && *entries@[b].1 is Device implies
                        ds@.contains(#[trigger] entries@[b].1->Device_0) by {
                        if b < i {
                            let a = choose|a: int| 0 <= a < prev.len() && prev[a] == entries@[b].1->Device_0;
                            assert(ds@[a] == prev[a]);
                        } else {
                            assert(ds@[prev.len() as int] == *d);
                        }
                    }
                    assert forall|a: int| 0 <= a < ds@.len() implies device_under(pv, user_id@, #[trigger] ds@[a]) by {
                        if a < prev.len() {
                            assert(ds@[a] == prev[a]);
                        } else {
                            assert(pv[ek@] == StoredValue::Device(ds@[a]));
                            assert(crate::keys::in_range(ek@, range_lower(user_id@), range_upper(user_id@)));
                        }
                    }
                }
            }
            i = i + 1;
        }
        proof {
            assert forall|k: Seq<char>| pv.contains_key(k) && crate::keys::in_range(k, range_lower(user_id@), range_upper(user_id@))
                && pv[k] is Device implies ds@.contains(pv[k]->Device_0) by {
                assert(crate::engine::selected(k, Some(&range)));
                let b = choose|b: int| 0 <= b < entries@.len() && entries@[b].0@ == k;
                assert(crate::engine::selected(entries@[b].0@, Some(&range)));
                assert(pv[k] == *entries@[b].1);
                assert(ds@.contains(entries@[b].1->Device_0));
            }
        }
        Ok(ds)
    }

    /// The cross-signing identity of `user_id`. A record of another shape is
    /// a `SerializationError`.
    pub fn get_user_identity(&self, user_id: &str) -> (r: Result<Option<UserIdentity>, CryptoStoreError>)
        requires
            self.wf(),
        ensures
            ({
                let part = self.db_view()[PartitionId::Identities];
                if !part.contains_key(user_id@) {
                    r == Ok::<Option<UserIdentity>, CryptoStoreError>(None)
                } else {
                    match part[user_id@] {
                        StoredValue::Identity(u) => r == Ok::<Option<UserIdentity>, CryptoStoreError>(Some(u)),
                        _ => r == Err::<Option<UserIdentity>, CryptoStoreError>(CryptoStoreError::SerializationError),
                    }
                }
            }),
    {
        let k = user_id.to_owned();
        assert(self.db@[PartitionId::Identities] == self.db.identities@);
        match self.db.identities.get(&k) {
            None => Ok(None),
            Some(StoredValue::Identity(u)) => Ok(Some(u.copy())),
            Some(_) => Err(CryptoStoreError::SerializationError),
        }
    }

    /// Whether the message with this hash from this sender was seen.
    pub fn is_message_known(&self, hash: &MessageHash) -> (r: Result<bool, CryptoStoreError>)
        requires
            self.wf(),
        ensures
            r == Ok::<bool, CryptoStoreError>(self.db_view()[PartitionId::OlmHashes].contains_key(hash_key(*hash))),
    {
        let k = join_key(hash.sender_key.as_str(), hash.hash.as_str());
        assert(self.db@[PartitionId::OlmHashes] == self.db.olm_hashes@);
        Ok(self.db.olm_hashes.get(&k).is_some())
    }

    fn get_outgoing_key_request_helper(&self, id: &String) -> (r: Result<Option<GossipRequest>, CryptoStoreError>)
        requires
            self.wf(),
        ensures
            r == lookup_by_id(self.db_view(), id@),
    {
        assert(self.db@[PartitionId::OutgoingSecretRequests] == self.db.outgoing_secret_requests@);
        assert(self.db@[PartitionId::UnsentSecretRequests] == self.db.unsent_secret_requests@);
        match request_in(&self.db.outgoing_secret_requests, id) {
            Ok(None) => request_in(&self.db.unsent_secret_requests, id),
            other => other,
        }
    }

    /// The gossip request with id `request_id`, sent or not.
    pub fn get_outgoing_secret_requests(&self, request_id: u128) -> (r: Result<Option<GossipRequest>, CryptoStoreError>)
        requires
            self.wf(),
        ensures
            r == lookup_by_id(self.db_view(), uuid_text(request_id)),
    {
        let id = request_key(request_id);
        self.get_outgoing_key_request_helper(&id)
    }

    /// The gossip request for the secret `key_info`, sent or not.
    pub fn get_secret_request_by_info(&self, key_info: &SecretInfo) -> (r: Result<Option<GossipRequest>, CryptoStoreError>)
        requires
            self.wf(),
        ensures
            r == lookup_by_descriptor(self.db_view(), *key_info),
    {
        let k = key_info.as_key();
        assert(self.db@[PartitionId::SecretRequestsByInfo] == self.db.secret_requests_by_info@);
        match self.db.secret_requests_by_info.get(&k) {
            Some(StoredValue::Text(id)) => self.get_outgoing_key_request_helper(id),
            _ => Ok(None),
        }
    }

    /// Every gossip request that was not sent out yet and can be read.
    pub fn get_unsent_secret_requests(&self) -> (r: Result<Vec<GossipRequest>, CryptoStoreError>)
        requires
            self.wf(),
        ensures
            r matches Ok(rs) && ({
                let part = self.db_view()[PartitionId::UnsentSecretRequests];
                &&& forall|i: int| 0 <= i < rs@.len() ==> exists|k: Seq<char>|
                    part.contains_key(k) && part[k] == StoredValue::Request(#[trigger] rs@[i])
                &&& forall|k: Seq<char>| part.contains_key(k) && part[k] is Request ==>
                    rs@.contains(part[k]->Request_0)
            }),
    {
        let part = &self.db.unsent_secret_requests;
        let ghost pv = part@;
        assert(self.db@[PartitionId::UnsentSecretRequests] == pv);
        let entries = part.scan(None);
        let mut rs: Vec<GossipRequest> = Vec::new();
        let mut i: usize = 0;
        while i < entries.len()
            invariant
                i <= entries@.len(),
                forall|a: int| 0 <= a < entries@.len() ==> {
                    &&& pv.contains_key(#[trigger] entries@[a].0@)
                    &&& pv[entries@[a].0@] == *entries@[a].1
                },
                forall|a: int| 0 <= a < rs@.len() ==> exists|k: Seq<char>|
                    pv.contains_key(k) && pv[k] == StoredValue::Request(#[trigger] rs@[a]),
                forall|b: int| 0 <= b < i && *entries@[b].1 is Request ==>
                    rs@.contains(#[trigger] entries@[b].1->Request_0),
            decreases entries.len() - i,
        {
            let (ek, v) = entries[i];
            if let StoredValue::Request(q) = v {
                let ghost prev = rs@;
                rs.push(q.copy());
                proof {
                    assert forall|b: int| 0 <= b < i + 1 && *entries@[b].1 is Request implies
                        rs@.contains(#[trigger] entries@[b].1->Request_0) by {
                        if b < i {
                            let a = choose|a: int| 0 <= a < prev.len() && prev[a] == entries@[b].1->Request_0;
                            assert(rs@[a] == prev[a]);
                        } else {
                            assert(rs@[prev.len() as int] == *q);
                        }
                    }
                    assert forall|a: int| 0 <= a < rs@.len() implies exists|k: Seq<char>|
                        pv.contains_key(k) && pv[k] == StoredValue::Request(#[trigger] rs@[a]) by {
                        if a < prev.len() {
                            assert(rs@[a] == prev[a]);
                        } else {
                            assert(pv[ek@] == StoredValue::Request(rs@[a]));
                        }
                    }
                }
            }
            i = i + 1;
        }
        proof {
            assert forall|k: Seq<char>| pv.contains_key(k) && pv[k] is Request implies rs@.contains(pv[k]->Request_0) by {
                assert(crate::engine::selected(k, None));
                let b = choose|b: int| 0 <= b < entries@.len() && entries@[b].0@ == k;
            }
        }
        Ok(rs)
    }

    /// Deletes the gossip request with id `request_id` from all three
    /// indexes in one transaction. Deleting a request that is not there is
    /// no error.
    pub fn delete_outgoing_secret_requests(&mut self, request_id: u128) -> (r: Result<(), CryptoStoreError>)
        requires
            old(self).wf(),
        ensures
            final(self).wf(),
            final(self).key() == old(self).key(),
            final(self).account() == old(self).account(),
            final(self).cache() == old(self).cache(),
            final(self).name_view() == old(self).name_view(),
            final(self).tracked_set() == old(self).tracked_set(),
            final(self).key_query() == old(self).key_query(),
            ({
                let id = uuid_text(request_id);
                let found = lookup_by_id(old(self).db_view(), id);
                match found {
                    Err(e) => r == Err::<(), CryptoStoreError>(e) && final(self).db_view() == old(self).db_view(),
                    Ok(f) => r is Ok && final(self).db_view() == request_deleted(old(self).db_view(), id, f),
                }
            }),
    {
        let id = request_key(request_id);
        let found = self.get_outgoing_key_request_helper(&id)?;
        let mut scope: Vec<PartitionId> = Vec::new();
        scope.push(PartitionId::OutgoingSecretRequests);
        scope.push(PartitionId::UnsentSecretRequests);
        scope.push(PartitionId::SecretRequestsByInfo);
        let mut writes: Vec<Write> = Vec::new();
        if let Some(req) = &found {
            writes.push(Write::Delete(PartitionId::SecretRequestsByInfo, req.info.as_key()));
        }
        writes.push(Write::Delete(PartitionId::UnsentSecretRequests, id.clone()));
        writes.push(Write::Delete(PartitionId::OutgoingSecretRequests, id));
        let ghost ws = writes@;
        let ghost before = self.db@;
        proof {
            assert(scope@[0] == PartitionId::OutgoingSecretRequests);
            assert(scope@[1] == PartitionId::UnsentSecretRequests);
            assert(scope@[2] == PartitionId::SecretRequestsByInfo);
            assert(in_scope(scope@, ws));
            lemma_delete_writes(before, ws, uuid_text(request_id), found);
        }
        self.db.commit(&scope, writes)
    }

    /// Rebuilds both tracked-user sets from the tracked-user partition. A
    /// stored flag that is not literally `false` counts as dirty; a key that
    /// is not a valid user ID is skipped.
    fn load_tracked_users(&mut self)
        requires
            old(self).wf(),
        ensures
            final(self).wf(),
            final(self).db_view() == old(self).db_view(),
            final(self).key() == old(self).key(),
            final(self).account() == old(self).account(),
            final(self).cache() == old(self).cache(),
            final(self).name_view() == old(self).name_view(),
            forall|u: Seq<char>| #[trigger] final(self).tracked_set().contains(u) <==>
                old(self).tracked_set().contains(u)
                || (user_id_valid(u) && old(self).db_view()[PartitionId::TrackedUsers].contains_key(u)),
            forall|u: Seq<char>| #[trigger] final(self).key_query().contains(u) <==>
                old(self).key_query().contains(u)
                || (user_id_valid(u) && old(self).db_view()[PartitionId::TrackedUsers].contains_key(u)
                    && old(self).db_view()[PartitionId::TrackedUsers][u] != StoredValue::Flag(false)),
    {
        let ghost t0 = self.tracked_set();
        let ghost q0 = self.key_query();
        let entries = self.db.tracked_users.scan(None);
        let mut tracked_now = self.tracked_users_cache.clone();
        let mut query = self.users_for_key_query_cache.clone();
        proof {
            assert(set_of(tracked_now@) =~= t0);
            assert(set_of(query@) =~= q0);
        }
        let ghost part = self.db@[PartitionId::TrackedUsers];
        assert(part == self.db.tracked_users@);
        assert forall|k: Seq<char>| part.contains_key(k) implies
            exists|j: int| 0 <= j < entries@.len() && entries@[j].0@ == k by {
            assert(crate::engine::selected(k, None));
        }
        let mut i: usize = 0;
        while i < entries.len()
            invariant
                i <= entries@.len(),
                part == self.db@[PartitionId::TrackedUsers],
                forall|j: int| 0 <= j < entries@.len() ==> {
                    &&& part.contains_key(entries@[j].0@)
                    &&& part[entries@[j].0@] == *entries@[j].1
                },
                forall|k: Seq<char>| part.contains_key(k) ==>
                    exists|j: int| 0 <= j < entries@.len() && entries@[j].0@ == k,
                set_of(query@).subset_of(set_of(tracked_now@)),
                q0.subset_of(t0),
                forall|u: Seq<char>| #[trigger] set_of(tracked_now@).contains(u) <==>
                    t0.contains(u) || exists|j: int| 0 <= j < i && entries@[j].0@ == u && user_id_valid(u),
                forall|u: Seq<char>| #[trigger] set_of(query@).contains(u) <==>
                    q0.contains(u) || exists|j: int| 0 <= j < i && entries@[j].0@ == u && user_id_valid(u)
                        && *entries@[j].1 != StoredValue::Flag(false),
            decreases entries.len() - i,
        {
            let (k, v) = entries[i];
            let dirty = match v {
                StoredValue::Flag(false) => false,
                _ => true,
            };
            if is_valid_user_id(k.as_str()) {
                insert_str(&mut tracked_now, k.as_str());
                if dirty {
                    insert_str(&mut query, k.as_str());
                }
            }
            i = i + 1;
        }
        proof {
            assert forall|u: Seq<char>| #[trigger] set_of(tracked_now@).contains(u) <==>
                t0.contains(u) || (user_id_valid(u) && part.contains_key(u)) by {
                if part.contains_key(u) && user_id_valid(u) {
                    let j = choose|j: int| 0 <= j < entries@.len() && entries@[j].0@ == u;
                }
            }
            assert forall|u: Seq<char>| #[trigger] set_of(query@).contains(u) <==>
                q0.contains(u) || (user_id_valid(u) && part.contains_key(u) && part[u] != StoredValue::Flag(false)) by {
                if part.contains_key(u) && user_id_valid(u) && part[u] != StoredValue::Flag(false) {
                    let j = choose|j: int| 0 <= j < entries@.len() && entries@[j].0@ == u;
                }
            }
        }
        self.tracked_users_cache = tracked_now;
        self.users_for_key_query_cache = query;
    }
}

proof fn lemma_account_saved(db: DbView, ws: Seq<Write>, c: Changes, key: Seq<u8>, a: Account)
    requires
        written(ws, c, key),
        c.account == Some(a),
        c.private_identity is None,
        c.sessions@.len() == 0,
        c.inbound_group_sessions@.len() == 0,
        c.outbound_group_sessions@.len() == 0,
        c.devices.new@.len() == 0,
        c.devices.changed@.len() == 0,
        c.devices.deleted@.len() == 0,
        c.identities.new@.len() == 0,
        c.identities.changed@.len() == 0,
        c.message_hashes@.len() == 0,
        c.key_requests@.len() == 0,
    ensures
        apply_writes(db, ws)[PartitionId::Core].contains_key(account_key()),
        account_from(apply_writes(db, ws)[PartitionId::Core][account_key()], key, a),
        forall|p: PartitionId| p != PartitionId::Core ==> #[trigger] apply_writes(db, ws)[p] == db[p],
{
    assert(ws.len() == 1);
    lemma_single_write(db, ws);
    assert(account_write(ws[0], a, key));
}

proof fn lemma_delete_writes(db: DbView, ws: Seq<Write>, id: Seq<char>, found: Option<GossipRequest>)
    requires
        found matches Some(r) ==> ws.len() == 3 && (ws[0] matches Write::Delete(p, k) && p == PartitionId::SecretRequestsByInfo && k@ == descriptor(r.info)),
        found is None ==> ws.len() == 2,
        ws[ws.len() - 2] matches Write::Delete(p, k) && p == PartitionId::UnsentSecretRequests && k@ == id,
        ws[ws.len() - 1] matches Write::Delete(p, k) && p == PartitionId::OutgoingSecretRequests && k@ == id,
    ensures
        apply_writes(db, ws) == request_deleted(db, id, found),
{
    let n = ws.len();
    assert(ws.drop_last().drop_last().len() == n - 2);
    let d0 = apply_writes(db, ws.drop_last().drop_last());
    assert(apply_writes(db, ws.drop_last()) == crate::engine::apply_write(d0, ws[n - 2]));
    assert(apply_writes(db, ws) == crate::engine::apply_write(apply_writes(db, ws.drop_last()), ws[n - 1]));
    if n == 3 {
        assert(ws.drop_last().drop_last().drop_last() =~= Seq::<Write>::empty());
        assert(apply_writes(db, ws.drop_last().drop_last().drop_last()) == db);
        assert(ws.drop_last().drop_last().last() == ws[0]);
        assert(d0 == crate::engine::apply_write(db, ws[0]));
    } else {
        assert(ws.drop_last().drop_last() =~= Seq::<Write>::empty());
        assert(apply_writes(db, ws.drop_last().drop_last()) == db);
    }
    assert(ws.drop_last().last() == ws[n - 2]);
    assert(apply_writes(db, ws) =~= request_deleted(db, id, found));
}

proof fn lemma_without_id_from(v: Seq<Session>, id: Seq<char>, i: int)
    requires
        0 <= i < without_id(v, id).len(),
    ensures
        exists|j: int| 0 <= j < v.len() && v[j] == without_id(v, id)[i],
    decreases v.len(),
{
    let r = without_id(v.drop_last(), id);
    if v.last().session_id@ != id && i == r.len() {
        assert(v[v.len() - 1] == without_id(v, id)[i]);
    } else {
        lemma_without_id_from(v.drop_last(), id, i);
        let j = choose|j: int| 0 <= j < v.drop_last().len() && v.drop_last()[j] == r[i];
        assert(v[j] == v.drop_last()[j]);
    }
}

/// Merging saved sessions keeps every cached list to its own sender key.
proof fn lemma_merge_keyed(c: Map<Seq<char>, Seq<Session>>, ss: Seq<Session>)
    requires
        cache_keyed(c),
    ensures
        cache_keyed(merge_all(c, ss)),
    decreases ss.len(),
{
    if ss.len() > 0 {
        lemma_merge_keyed(c, ss.drop_last());
        let c0 = merge_all(c, ss.drop_last());
        let s = ss.last();
        if c0.contains_key(s.sender_key@) {
            let k = s.sender_key@;
            let m = merged_into(c0[k], s);
            assert forall|i: int| 0 <= i < m.len() implies (#[trigger] m[i]).sender_key@ == k by {
                if i < m.len() - 1 {
                    lemma_without_id_from(c0[k], s.session_id@, i);
                    let j = choose|j: int| 0 <= j < c0[k].len() && c0[k][j] == without_id(c0[k], s.session_id@)[i];
                    assert(c0[k][j].sender_key@ == k);
                }
            }
            let c1 = c0.insert(k, m);
            assert forall|k2: Seq<char>, i: int| c1.contains_key(k2) && 0 <= i < c1[k2].len() implies
                (#[trigger] c1[k2][i]).sender_key@ == k2 by {
                if k2 != k {
                    assert(c1[k2] == c0[k2]);
                }
            }
        }
    }
}

/// One write applied alone.
pub proof fn lemma_single_write(db: DbView, ws: Seq<Write>)
    requires
        ws.len() == 1,
    ensures
        apply_writes(db, ws) == crate::engine::apply_write(db, ws[0]),
{
    assert(ws.drop_last() =~= Seq::<Write>::empty());
    assert(apply_writes(db, ws.drop_last()) == db);
}

proof fn lemma_names_differ(prefix: Seq<char>)
    ensures
        store_name(prefix) != meta_name(prefix),
{
    reveal_strlit("::matrix-sdk-crypto");
    reveal_strlit("::matrix-sdk-crypto-meta");
    assert(store_name(prefix).len() != meta_name(prefix).len());
}

} // verus!
