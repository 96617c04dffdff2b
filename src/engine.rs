//! An in-memory backing engine: named databases of ordered key-value
//! partitions, written through atomic multi-partition transactions.
use vstd::prelude::*;

use crate::crypto::EncryptedPickleKey;
use crate::error::CryptoStoreError;
use crate::keys::{in_range, key_in_range, KeyRange};
use crate::types::{Device, GossipRequest, UserIdentity};

verus! {

/// An authenticated-encrypted payload, with the identifiers that are stored
/// beside it in the clear.
#[derive(Debug)]
pub struct SealedRecord {
    pub ids: Vec<String>,
    pub nonce: Vec<u8>,
    pub ciphertext: Vec<u8>,
}

/// A value held in a partition.
#[derive(Debug)]
pub enum StoredValue {
    Flag(bool),
    Text(String),
    Sealed(SealedRecord),
    Device(Device),
    Identity(UserIdentity),
    Request(GossipRequest),
    EncryptedKey(EncryptedPickleKey),
}

/// The partitions of a store's database.
#[derive(Clone, Copy, Debug, PartialEq, Eq, Structural)]
pub enum PartitionId {
    Core,
    Session,
    InboundGroupSessions,
    OutboundGroupSessions,
    TrackedUsers,
    OlmHashes,
    Devices,
    Identities,
    OutgoingSecretRequests,
    UnsentSecretRequests,
    SecretRequestsByInfo,
}

/// A map from string keys to values, each key once, in insertion order.
#[derive(Debug)]
pub struct Table<V> {
    entries: Vec<(String, V)>,
}

/// One partition of a database.
pub type Partition = Table<StoredValue>;

/// The contents of a partition, by key.
pub type PartitionView = Map<Seq<char>, StoredValue>;

impl<V> Table<V> {
    pub closed spec fn wf(&self) -> bool {
        forall|i: int, j: int|
            0 <= i < j < self.entries@.len() ==> self.entries@[i].0@ != self.entries@[j].0@
    }

    pub closed spec fn has_key(&self, k: Seq<char>) -> bool {
        exists|i: int| 0 <= i < self.entries@.len() && self.entries@[i].0@ == k
    }

    pub closed spec fn view(&self) -> Map<Seq<char>, V> {
        Map::new(
            |k: Seq<char>| self.has_key(k),
            |k: Seq<char>|
                self.entries@[choose|i: int| 0 <= i < self.entries@.len() && self.entries@[i].0@ == k].1,
        )
    }

    proof fn lemma_entry(&self, i: int)
        requires
            self.wf(),
            0 <= i < self.entries@.len(),
        ensures
            self@.contains_key(self.entries@[i].0@),
            self@[self.entries@[i].0@] == self.entries@[i].1,
    {
        let k = self.entries@[i].0@;
        assert(self.has_key(k));
        let j = choose|j: int| 0 <= j < self.entries@.len() && self.entries@[j].0@ == k;
        assert(j == i);
    }

    /// An empty table.
    pub fn new() -> (r: Self)
        ensures
            r.wf(),
            r@ == Map::<Seq<char>, V>::empty(),
    {
        let r = Table { entries: Vec::new() };
        assert(r@ =~= Map::<Seq<char>, V>::empty());
        r
    }

    fn find(&self, k: &String) -> (r: Option<usize>)
        requires
            self.wf(),
        ensures
            r matches Some(i) ==> i < self.entries@.len() && self.entries@[i as int].0@ == k@,
            r is None ==> !self@.contains_key(k@),
    {
        let mut i: usize = 0;
        while i < self.entries.len()
            invariant
                i <= self.entries@.len(),
                forall|j: int| 0 <= j < i ==> self.entries@[j].0@ != k@,
            decreases self.entries.len() - i,
        {
            if self.entries[i].0 == *k {
                return Some(i);
            }
            i = i + 1;
        }
        None
    }

    /// The value under `k`.
    pub fn get(&self, k: &String) -> (r: Option<&V>)
        requires
            self.wf(),
        ensures
            r matches Some(v) ==> self@.contains_key(k@) && self@[k@] == *v,
            r is None ==> !self@.contains_key(k@),
    {
        match self.find(k) {
            Some(i) => {
                proof {
                    self.lemma_entry(i as int);
                }
                Some(&self.entries[i].1)
            },
            None => None,
        }
    }

    /// Stores `v` under `k`, replacing what was there.
    pub fn put(&mut self, k: String, v: V)
        requires
            old(self).wf(),
        ensures
            final(self).wf(),
            final(self)@ == old(self)@.insert(k@, v),
    {
        let ghost old_self = *self;
        let ghost kv = k@;
        match self.find(&k) {
            Some(i) => {
                self.entries.set(i, (k, v));
                proof {
                    assert forall|key: Seq<char>| #[trigger] self@.contains_key(key) == old_self@.insert(kv, v).contains_key(key) by {
                        if self.has_key(key) {
                            let j = choose|j: int| 0 <= j < self.entries@.len() && self.entries@[j].0@ == key;
                            if j != i {
                                assert(old_self.entries@[j].0@ == key);
                            }
                        }
                        if old_self.has_key(key) {
                            let j = choose|j: int| 0 <= j < old_self.entries@.len() && old_self.entries@[j].0@ == key;
                            assert(self.entries@[j].0@ == key);
                        }
                    }
                    assert forall|key: Seq<char>| #[trigger] self@.contains_key(key) implies self@[key] == old_self@.insert(kv, v)[key] by {
                        let j = choose|j: int| 0 <= j < self.entries@.len() && self.entries@[j].0@ == key;
                        self.lemma_entry(j);
                        if j != i {
                            old_self.lemma_entry(j);
                        }
                    }
                    assert(self@ =~= old_self@.insert(kv, v));
                }
            },
            None => {
                self.entries.push((k, v));
                proof {
                    let n = old_self.entries@.len() as int;
                    assert forall|key: Seq<char>| #[trigger] self@.contains_key(key) == old_self@.insert(kv, v).contains_key(key) by {
                        if self.has_key(key) {
                            let j = choose|j: int| 0 <= j < self.entries@.len() && self.entries@[j].0@ == key;
                            if j != n {
                                assert(old_self.entries@[j].0@ == key);
                            }
                        }
                        if old_self.has_key(key) {
                            let j = choose|j: int| 0 <= j < old_self.entries@.len() && old_self.entries@[j].0@ == key;
                            assert(self.entries@[j].0@ == key);
                        }
                        if key == kv {
                            assert(self.entries@[n].0@ == key);
                        }
                    }
                    assert forall|key: Seq<char>| #[trigger] self@.contains_key(key) implies self@[key] == old_self@.insert(kv, v)[key] by {
                        let j = choose|j: int| 0 <= j < self.entries@.len() && self.entries@[j].0@ == key;
                        self.lemma_entry(j);
                        if j != n {
                            old_self.lemma_entry(j);
                        }
                    }
                    assert(self@ =~= old_self@.insert(kv, v));
                }
            },
        }
    }

    /// Removes what is stored under `k`; nothing happens if there is nothing.
    pub fn delete(&mut self, k: &String)
        requires
            old(self).wf(),
        ensures
            final(self).wf(),
            final(self)@ == old(self)@.remove(k@),
    {
        let _ = self.take(k);
    }

    /// Removes and returns what is stored under `k`.
    pub fn take(&mut self, k: &String) -> (r: Option<V>)
        requires
            old(self).wf(),
        ensures
            final(self).wf(),
            final(self)@ == old(self)@.remove(k@),
            r matches Some(v) ==> old(self)@.contains_key(k@) && old(self)@[k@] == v,
            r is None ==> !old(self)@.contains_key(k@),
    {
        let ghost old_self = *self;
        match self.find(k) {
            Some(i) => {
                proof {
                    old_self.lemma_entry(i as int);
                }
                let e = self.entries.remove(i);
                proof {
                    let ii = i as int;
                    assert forall|key: Seq<char>| #[trigger] self@.contains_key(key) == old_self@.remove(k@).contains_key(key) by {
                        if self.has_key(key) {
                            let j = choose|j: int| 0 <= j < self.entries@.len() && self.entries@[j].0@ == key;
                            if j < ii {
                                assert(old_self.entries@[j].0@ == key);
                            } else {
                                assert(old_self.entries@[j + 1].0@ == key);
                            }
                        }
                        if old_self.has_key(key) && key != k@ {
                            let j = choose|j: int| 0 <= j < old_self.entries@.len() && old_self.entries@[j].0@ == key;
                            if j < ii {
                                assert(self.entries@[j].0@ == key);
                            } else {
                                assert(self.entries@[j - 1].0@ == key);
                            }
                        }
                    }
                    assert forall|key: Seq<char>| #[trigger] self@.contains_key(key) implies self@[key] == old_self@.remove(k@)[key] by {
                        let j = choose|j: int| 0 <= j < self.entries@.len() && self.entries@[j].0@ == key;
                        self.lemma_entry(j);
                        if j < ii {
                            old_self.lemma_entry(j);
                        } else {
                            old_self.lemma_entry(j + 1);
                        }
                    }
                    assert(self@ =~= old_self@.remove(k@));
                }
                Some(e.1)
            },
            None => {
                assert(self@ =~= old_self@.remove(k@));
                None
            },
        }
    }

    /// Every entry whose key lies in `range`, or every entry if `range` is
    /// `None`; each key once.
    pub fn scan(&self, range: Option<&KeyRange>) -> (r: Vec<(&String, &V)>)
        requires
            self.wf(),
        ensures
            forall|i: int| 0 <= i < r@.len() ==> {
                &&& selected(r@[i].0@, range)
                &&& self@.contains_key(r@[i].0@)
                &&& self@[r@[i].0@] == *r@[i].1
            },
            forall|k: Seq<char>| self@.contains_key(k) && selected(k, range) ==>
                exists|i: int| 0 <= i < r@.len() && r@[i].0@ == k,
            forall|i: int, j: int| 0 <= i < j < r@.len() ==> r@[i].0@ != r@[j].0@,
    {
        let mut r: Vec<(&String, &V)> = Vec::new();
        let mut n: usize = 0;
        while n < self.entries.len()
            invariant
                self.wf(),
                n <= self.entries@.len(),
                forall|i: int| 0 <= i < r@.len() ==> {
                    &&& selected(r@[i].0@, range)
                    &&& self@.contains_key(r@[i].0@)
                    &&& self@[r@[i].0@] == *r@[i].1
                    &&& exists|j: int| 0 <= j < n && self.entries@[j].0@ == r@[i].0@
                },
                forall|j: int| 0 <= j < n && selected(self.entries@[j].0@, range) ==>
                    exists|i: int| 0 <= i < r@.len() && r@[i].0@ == self.entries@[j].0@,
                forall|i: int, j: int| 0 <= i < j < r@.len() ==> r@[i].0@ != r@[j].0@,
            decreases self.entries.len() - n,
        {
            let e = &self.entries[n];
            let take = match range {
                Some(kr) => key_in_range(e.0.as_str(), kr),
                None => true,
            };
            let ghost old_r = r@;
            if take {
                proof {
                    self.lemma_entry(n as int);
                    assert forall|i: int| 0 <= i < old_r.len() implies old_r[i].0@ != e.0@ by {
                        let j = choose|j: int| 0 <= j < n && self.entries@[j].0@ == old_r[i].0@;
                    }
                }
                r.push((&e.0, &e.1));
                proof {
                    assert(r@[old_r.len() as int].0@ == self.entries@[n as int].0@);
                }
            }
            proof {
                assert forall|j: int| 0 <= j < n + 1 && selected(self.entries@[j].0@, range) implies
                    exists|i: int| 0 <= i < r@.len() && r@[i].0@ == self.entries@[j].0@ by {
                    if j == n {
                        assert(r@[old_r.len() as int].0@ == self.entries@[j].0@);
                    } else {
                        let i = choose|i: int| 0 <= i < old_r.len() && old_r[i].0@ == self.entries@[j].0@;
                        assert(r@[i] == old_r[i]);
                    }
                }
            }
            n = n + 1;
        }
        proof {
            assert forall|k: Seq<char>| self@.contains_key(k) && selected(k, range) implies
                exists|i: int| 0 <= i < r@.len() && r@[i].0@ == k by {
                let j = choose|j: int| 0 <= j < self.entries@.len() && self.entries@[j].0@ == k;
            }
        }
        r
    }
}

/// Whether a scan over `range` selects `k`.
pub open spec fn selected(k: Seq<char>, range: Option<&KeyRange>) -> bool {
    match range {
        Some(kr) => in_range(k, kr.lower@, kr.upper@),
        None => true,
    }
}

/// The contents of a database, by partition.
pub type DbView = Map<PartitionId, PartitionView>;

/// A store's database: one partition for each kind of record.
#[derive(Debug)]
pub struct Database {
    pub core: Partition,
    pub session: Partition,
    pub inbound_group_sessions: Partition,
    pub outbound_group_sessions: Partition,
    pub tracked_users: Partition,
    pub olm_hashes: Partition,
    pub devices: Partition,
    pub identities: Partition,
    pub outgoing_secret_requests: Partition,
    pub unsent_secret_requests: Partition,
    pub secret_requests_by_info: Partition,
}

/// One write of a transaction.
#[derive(Debug)]
pub enum Write {
    Put(PartitionId, String, StoredValue),
    Delete(PartitionId, String),
}

impl Write {
    pub open spec fn partition(&self) -> PartitionId {
        match self {
            Write::Put(p, _, _) => *p,
            Write::Delete(p, _) => *p,
        }
    }
}

/// The database after one write.
pub open spec fn apply_write(db: DbView, w: Write) -> DbView {
    match w {
        Write::Put(p, k, v) => db.insert(p, db[p].insert(k@, v)),
        Write::Delete(p, k) => db.insert(p, db[p].remove(k@)),
    }
}

/// The database after a sequence of writes, in order.
pub open spec fn apply_writes(db: DbView, ws: Seq<Write>) -> DbView
    decreases ws.len(),
{
    if ws.len() == 0 {
        db
    } else {
        apply_write(apply_writes(db, ws.drop_last()), ws.last())
    }
}

/// A database with every partition empty.
pub open spec fn empty_db() -> DbView {
    Map::new(|p: PartitionId| true, |p: PartitionId| PartitionView::empty())
}

impl Database {
    pub open spec fn part(&self, p: PartitionId) -> &Partition {
        match p {
            PartitionId::Core => &self.core,
            PartitionId::Session => &self.session,
            PartitionId::InboundGroupSessions => &self.inbound_group_sessions,
            PartitionId::OutboundGroupSessions => &self.outbound_group_sessions,
            PartitionId::TrackedUsers => &self.tracked_users,
            PartitionId::OlmHashes => &self.olm_hashes,
            PartitionId::Devices => &self.devices,
            PartitionId::Identities => &self.identities,
            PartitionId::OutgoingSecretRequests => &self.outgoing_secret_requests,
            PartitionId::UnsentSecretRequests => &self.unsent_secret_requests,
            PartitionId::SecretRequestsByInfo => &self.secret_requests_by_info,
        }
    }

    pub open spec fn wf(&self) -> bool {
        &&& self.core.wf()
        &&& self.session.wf()
        &&& self.inbound_group_sessions.wf()
        &&& self.outbound_group_sessions.wf()
        &&& self.tracked_users.wf()
        &&& self.olm_hashes.wf()
        &&& self.devices.wf()
        &&& self.identities.wf()
        &&& self.outgoing_secret_requests.wf()
        &&& self.unsent_secret_requests.wf()
        &&& self.secret_requests_by_info.wf()
    }

    pub open spec fn view(&self) -> DbView {
        Map::new(|p: PartitionId| true, |p: PartitionId| self.part(p)@)
    }

    /// A database with every partition empty, as created on first open.
    pub fn new() -> (r: Self)
        ensures
            r.wf(),
            r@ == empty_db(),
    {
        let r = Database {
            core: Table::new(),
            session: Table::new(),
            inbound_group_sessions: Table::new(),
            outbound_group_sessions: Table::new(),
            tracked_users: Table::new(),
            olm_hashes: Table::new(),
            devices: Table::new(),
            identities: Table::new(),
            outgoing_secret_requests: Table::new(),
            unsent_secret_requests: Table::new(),
            secret_requests_by_info: Table::new(),
        };
        assert(r@ =~= empty_db());
        r
    }

    /// The partition `p`.
    pub fn partition(&self, p: PartitionId) -> (r: &Partition)
        ensures
            r == self.part(p),
    {
        match p {
            PartitionId::Core => &self.core,
            PartitionId::Session => &self.session,
            PartitionId::InboundGroupSessions => &self.inbound_group_sessions,
            PartitionId::OutboundGroupSessions => &self.outbound_group_sessions,
            PartitionId::TrackedUsers => &self.tracked_users,
            PartitionId::OlmHashes => &self.olm_hashes,
            PartitionId::Devices => &self.devices,
            PartitionId::Identities => &self.identities,
            PartitionId::OutgoingSecretRequests => &self.outgoing_secret_requests,
            PartitionId::UnsentSecretRequests => &self.unsent_secret_requests,
            PartitionId::SecretRequestsByInfo => &self.secret_requests_by_info,
        }
    }

    fn apply(&mut self, w: Write)
        requires
            old(self).wf(),
        ensures
            final(self).wf(),
            final(self)@ == apply_write(old(self)@, w),
    {
        let ghost w0 = w;
        let ghost before = self@;
        let ghost p = w.partition();
        match w {
            Write::Put(p, k, v) => match p {
                PartitionId::Core => self.core.put(k, v),
                PartitionId::Session => self.session.put(k, v),
                PartitionId::InboundGroupSessions => self.inbound_group_sessions.put(k, v),
                PartitionId::OutboundGroupSessions => self.outbound_group_sessions.put(k, v),
                PartitionId::TrackedUsers => self.tracked_users.put(k, v),
                PartitionId::OlmHashes => self.olm_hashes.put(k, v),
                PartitionId::Devices => self.devices.put(k, v),
                PartitionId::Identities => self.identities.put(k, v),
                PartitionId::OutgoingSecretRequests => self.outgoing_secret_requests.put(k, v),
                PartitionId::UnsentSecretRequests => self.unsent_secret_requests.put(k, v),
                PartitionId::SecretRequestsByInfo => self.secret_requests_by_info.put(k, v),
            },
            Write::Delete(p, k) => match p {
                PartitionId::Core => self.core.delete(&k),
                PartitionId::Session => self.session.delete(&k),
                PartitionId::InboundGroupSessions => self.inbound_group_sessions.delete(&k),
                PartitionId::OutboundGroupSessions => self.outbound_group_sessions.delete(&k),
                PartitionId::TrackedUsers => self.tracked_users.delete(&k),
                PartitionId::OlmHashes => self.olm_hashes.delete(&k),
                PartitionId::Devices => self.devices.delete(&k),
                PartitionId::Identities => self.identities.delete(&k),
                PartitionId::OutgoingSecretRequests => self.outgoing_secret_requests.delete(&k),
                PartitionId::UnsentSecretRequests => self.unsent_secret_requests.delete(&k),
                PartitionId::SecretRequestsByInfo => self.secret_requests_by_info.delete(&k),
            },
        }
        proof {
            assert(self@ =~= apply_write(before, w0));
        }
    }

    /// Commits `writes` in one atomic transaction over the partitions in
    /// `scope`. A write outside the scope aborts the transaction: nothing is
    /// written and the error is a `StorageEngineError`.
    pub fn commit(&mut self, scope: &Vec<PartitionId>, writes: Vec<Write>) -> (r: Result<(), CryptoStoreError>)
        requires
            old(self).wf(),
        ensures
            final(self).wf(),
            r is Ok <==> in_scope(scope@, writes@),
            r is Ok ==> final(self)@ == apply_writes(old(self)@, writes@),
            r is Err ==> r == Err::<(), CryptoStoreError>(CryptoStoreError::StorageEngineError) && *final(self) == *old(self),
    {
        let mut i: usize = 0;
        while i < writes.len()
            invariant
                self.wf(),
                *self == *old(self),
                i <= writes@.len(),
                forall|j: int| 0 <= j < i ==> scope@.contains(#[trigger] writes@[j].partition()),
            decreases writes.len() - i,
        {
            let p = match &writes[i] {
                Write::Put(p, _, _) => *p,
                Write::Delete(p, _) => *p,
            };
            if !contains_partition(scope, p) {
                assert(!scope@.contains(writes@[i as int].partition()));
                return Err(CryptoStoreError::StorageEngineError);
            }
            i = i + 1;
        }
        let ghost all = writes@;
        let ghost before = self@;
        let mut rest = writes;
        let mut n: usize = 0;
        while rest.len() > 0
            invariant
                self.wf(),
                n <= all.len(),
                all.len() <= usize::MAX,
                rest@ == all.skip(n as int),
                self@ == apply_writes(before, all.take(n as int)),
            decreases rest.len(),
        {
            let w = rest.remove(0);
            proof {
                assert(all.take(n + 1).drop_last() =~= all.take(n as int));
                assert(w == all[n as int]);
                assert(rest@ =~= all.skip(n + 1));
            }
            self.apply(w);
            n = n + 1;
        }
        proof {
            assert(all.take(n as int) =~= all);
        }
        Ok(())
    }
}

/// Whether every write falls in a partition of `scope`.
pub open spec fn in_scope(scope: Seq<PartitionId>, ws: Seq<Write>) -> bool {
    forall|j: int| 0 <= j < ws.len() ==> scope.contains(#[trigger] ws[j].partition())
}

fn contains_partition(scope: &Vec<PartitionId>, p: PartitionId) -> (r: bool)
    ensures
        r == scope@.contains(p),
{
    let mut i: usize = 0;
    while i < scope.len()
        invariant
            i <= scope@.len(),
            forall|j: int| 0 <= j < i ==> scope@[j] != p,
        decreases scope.len() - i,
    {
        if scope[i] == p {
            return true;
        }
        i = i + 1;
    }
    false
}

/// Named databases that outlive the stores opened on them.
#[derive(Debug)]
pub struct Engine {
    databases: Table<Database>,
}

impl Engine {
    pub closed spec fn wf(&self) -> bool {
        &&& self.databases.wf()
        &&& forall|k: Seq<char>| #[trigger] self.databases@.contains_key(k) ==> self.databases@[k].wf()
    }

    /// The contents of each database, by name.
    pub closed spec fn view(&self) -> Map<Seq<char>, DbView> {
        self.databases@.map_values(|d: Database| d@)
    }

    /// An engine with no database.
    pub fn new() -> (r: Self)
        ensures
            r.wf(),
            r@ == Map::<Seq<char>, DbView>::empty(),
    {
        let r = Engine { databases: Table::new() };
        assert(r@ =~= Map::<Seq<char>, DbView>::empty());
        r
    }

    /// Takes the database `name` out of the engine for use, creating it with
    /// every partition empty if there is none.
    pub fn take_database(&mut self, name: &String) -> (r: Database)
        requires
            old(self).wf(),
        ensures
            final(self).wf(),
            r.wf(),
            r@ == (if old(self)@.contains_key(name@) { old(self)@[name@] } else { empty_db() }),
            final(self)@ == old(self)@.remove(name@),
    {
        let ghost before = self.databases@;
        let r = match self.databases.take(name) {
            Some(db) => db,
            None => Database::new(),
        };
        assert(self@ =~= old(self)@.remove(name@));
        r
    }

    /// Hands the database `name` back to the engine.
    pub fn return_database(&mut self, name: String, db: Database)
        requires
            old(self).wf(),
            db.wf(),
        ensures
            final(self).wf(),
            final(self)@ == old(self)@.insert(name@, db@),
    {
        let ghost nv = name@;
        let ghost dv = db@;
        self.databases.put(name, db);
        assert(self@ =~= old(self)@.insert(nv, dv));
    }
}

} // verus!
