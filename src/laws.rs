//! Properties that relate several operations of the store.
use vstd::prelude::*;

use crate::engine::{apply_write, apply_writes, DbView, PartitionId, StoredValue, Write};
use crate::ids::uuid_text;
use crate::plan::{account_write, descriptor, device_delete, device_key, device_write, hash_key, hash_write, identity_write, inbound_key, inbound_write, is_request_partition, offsets, outbound_write, request_writes, session_key, session_write, user_identity_write, written};
use crate::store::{holds_envelope, lookup_by_descriptor, lookup_by_id, record_of, request_at, request_deleted, stored_unlock};
use crate::store::{meta_name, tracking_updated, unlock_attempted, IndexeddbStore};
use crate::types::{Changes, GossipRequest};

verus! {

/// Whether `c` holds the gossip request `r` and nothing else.
pub open spec fn only_request(c: Changes, r: GossipRequest) -> bool {
    &&& c.account is None
    &&& c.private_identity is None
    &&& c.sessions@.len() == 0
    &&& c.inbound_group_sessions@.len() == 0
    &&& c.outbound_group_sessions@.len() == 0
    &&& c.devices.new@.len() == 0
    &&& c.devices.changed@.len() == 0
    &&& c.devices.deleted@.len() == 0
    &&& c.identities.new@.len() == 0
    &&& c.identities.changed@.len() == 0
    &&& c.message_hashes@.len() == 0
    &&& c.key_requests@ == seq![r]
}

proof fn lemma_three_writes(db: DbView, ws: Seq<Write>)
    requires
        ws.len() == 3,
    ensures
        apply_writes(db, ws) == apply_write(apply_write(apply_write(db, ws[0]), ws[1]), ws[2]),
{
    let w2 = ws.drop_last();
    let w1 = w2.drop_last();
    let w0 = w1.drop_last();
    assert(w0 =~= Seq::<Write>::empty());
    assert(apply_writes(db, w0) == db);
    assert(w1.last() == ws[0]);
    assert(w2.last() == ws[1]);
    assert(apply_writes(db, w1) == apply_write(db, ws[0]));
    assert(apply_writes(db, w2) == apply_write(apply_write(db, ws[0]), ws[1]));
}

/// After a change set that holds only the gossip request `r` was saved,
/// `r` is found both by its id and by its descriptor, and it sits in
/// exactly one of the two indexes: the sent one if it was sent out, the
/// unsent one otherwise.
pub proof fn lemma_request_filed(db: DbView, c: Changes, key: Seq<u8>, ws: Seq<Write>, r: GossipRequest)
    requires
        only_request(c, r),
        written(ws, c, key),
    ensures
        ({
            let after = apply_writes(db, ws);
            let id = uuid_text(r.request_id);
            &&& lookup_by_id(after, id) == Ok::<Option<GossipRequest>, crate::error::CryptoStoreError>(Some(r))
            &&& lookup_by_descriptor(after, r.info) == Ok::<Option<GossipRequest>, crate::error::CryptoStoreError>(Some(r))
            &&& r.sent_out ==> after[PartitionId::OutgoingSecretRequests].contains_key(id)
                && !after[PartitionId::UnsentSecretRequests].contains_key(id)
            &&& !r.sent_out ==> after[PartitionId::UnsentSecretRequests].contains_key(id)
                && !after[PartitionId::OutgoingSecretRequests].contains_key(id)
        }),
{
    assert(c.key_requests@[0] == r);
    assert(ws.len() == 3);
    assert(request_writes(ws[0], ws[1], ws[2], r));
    lemma_three_writes(db, ws);
    let id = uuid_text(r.request_id);
    let after = apply_writes(db, ws);
    assert(after[PartitionId::SecretRequestsByInfo].contains_key(descriptor(r.info)));
    if r.sent_out {
        assert(after[PartitionId::OutgoingSecretRequests][id] == StoredValue::Request(r));
        assert(request_at(after[PartitionId::OutgoingSecretRequests], id) == Ok::<Option<GossipRequest>, crate::error::CryptoStoreError>(Some(r)));
    } else {
        assert(!after[PartitionId::OutgoingSecretRequests].contains_key(id));
        assert(after[PartitionId::UnsentSecretRequests][id] == StoredValue::Request(r));
    }
}

/// Deleting a request that was found by its id leaves it found neither by
/// its id nor by its descriptor, and a second deletion finds nothing, which
/// is no error, and changes nothing.
pub proof fn lemma_request_gone(db: DbView, id: Seq<char>, r: GossipRequest)
    requires
        lookup_by_id(db, id) == Ok::<Option<GossipRequest>, crate::error::CryptoStoreError>(Some(r)),
    ensures
        ({
            let after = request_deleted(db, id, Some(r));
            &&& lookup_by_id(after, id) == Ok::<Option<GossipRequest>, crate::error::CryptoStoreError>(None)
            &&& lookup_by_descriptor(after, r.info) == Ok::<Option<GossipRequest>, crate::error::CryptoStoreError>(None)
            &&& request_deleted(after, id, None) == after
        }),
{
    let after = request_deleted(db, id, Some(r));
    assert(!after[PartitionId::OutgoingSecretRequests].contains_key(id));
    assert(!after[PartitionId::UnsentSecretRequests].contains_key(id));
    assert(!after[PartitionId::SecretRequestsByInfo].contains_key(descriptor(r.info)));
    let again = request_deleted(after, id, None);
    assert(again[PartitionId::UnsentSecretRequests] =~= after[PartitionId::UnsentSecretRequests]);
    assert(again[PartitionId::OutgoingSecretRequests] =~= after[PartitionId::OutgoingSecretRequests]);
    assert(again =~= after);
}

/// Two updates of a user that was not tracked: the first reports the user
/// as not tracked before, the second as tracked. After each, the user is
/// tracked, and waits for a key query exactly when the update was dirty.
pub proof fn lemma_tracking(
    s0: IndexeddbStore,
    s1: IndexeddbStore,
    s2: IndexeddbStore,
    u: Seq<char>,
    dirty1: bool,
    dirty2: bool,
    was1: bool,
    was2: bool,
)
    requires
        !s0.tracked_set().contains(u),
        tracking_updated(s0, s1, u, dirty1, was1),
        tracking_updated(s1, s2, u, dirty2, was2),
    ensures
        !was1,
        was2,
        s1.tracked_set().contains(u),
        s2.tracked_set().contains(u),
        s1.key_query().contains(u) == dirty1,
        s2.key_query().contains(u) == dirty2,
{
}

/// Two attempts with a passphrase that does not unlock the stored envelope
/// key both fail, and the right passphrase still opens the store after
/// them: a failed attempt neither corrupts nor consumes the stored key.
pub proof fn lemma_wrong_passphrase_is_harmless(
    e0: Map<Seq<char>, DbView>,
    e1: Map<Seq<char>, DbView>,
    e2: Map<Seq<char>, DbView>,
    e3: Map<Seq<char>, DbView>,
    prefix: Seq<char>,
    right: Seq<char>,
    wrong: Seq<char>,
    ok1: bool,
    ok2: bool,
    ok3: bool,
)
    requires
        e0.contains_key(meta_name(prefix)),
        holds_envelope(e0[meta_name(prefix)]),
        stored_unlock(e0[meta_name(prefix)], right) is Some,
        stored_unlock(e0[meta_name(prefix)], wrong) is None,
        unlock_attempted(e0, e1, prefix, wrong, ok1),
        unlock_attempted(e1, e2, prefix, wrong, ok2),
        unlock_attempted(e2, e3, prefix, right, ok3),
    ensures
        !ok1,
        !ok2,
        ok3,
{
}

/// Whether `w` writes or deletes the key `k` of partition `p`.
pub open spec fn writes_to(w: Write, p: PartitionId, k: Seq<char>) -> bool {
    match w {
        Write::Put(q, kk, _) => q == p && kk@ == k,
        Write::Delete(q, kk) => q == p && kk@ == k,
    }
}

/// What the last write to a key puts there is what the key holds after all
/// the writes.
pub proof fn lemma_last_write(db: DbView, ws: Seq<Write>, j: int, p: PartitionId, k: Seq<char>)
    requires
        0 <= j < ws.len(),
        ws[j] is Put,
        ws[j]->Put_0 == p,
        ws[j]->Put_1@ == k,
        forall|m: int| j < m < ws.len() ==> !writes_to(#[trigger] ws[m], p, k),
    ensures
        apply_writes(db, ws)[p].contains_key(k),
        apply_writes(db, ws)[p][k] == ws[j]->Put_2,
    decreases ws.len(),
{
    let prev = apply_writes(db, ws.drop_last());
    if j == ws.len() - 1 {
        assert(ws.last() == ws[j]);
    } else {
        assert forall|m: int| j < m < ws.drop_last().len() implies !writes_to(#[trigger] ws.drop_last()[m], p, k) by {
            assert(ws.drop_last()[m] == ws[m]);
        }
        lemma_last_write(db, ws.drop_last(), j, p, k);
        assert(!writes_to(ws[ws.len() - 1], p, k));
        assert(ws.last() == ws[ws.len() - 1]);
    }
}

/// A saved session that is the last one of its change set under its key
/// reads back from the session partition: the record under its key holds
/// its sender key, its id and its state.
pub proof fn lemma_session_round_trip(db: DbView, c: Changes, key: Seq<u8>, ws: Seq<Write>, i: int)
    requires
        written(ws, c, key),
        0 <= i < c.sessions@.len(),
        forall|j: int| i < j < c.sessions@.len() ==> session_key(#[trigger] c.sessions@[j]) != session_key(c.sessions@[i]),
    ensures
        ({
            let part = apply_writes(db, ws)[PartitionId::Session];
            let s = c.sessions@[i];
            &&& part.contains_key(session_key(s))
            &&& record_of(part[session_key(s)], key, 2) == Ok::<(Seq<String>, Seq<u8>), crate::error::CryptoStoreError>((seq![s.sender_key, s.session_id], s.state@))
        }),
{
    let o = offsets(c);
    let s = c.sessions@[i];
    let j = o[2] + i;
    assert(session_write(ws[j], s, key));
    assert forall|m: int| j < m < ws.len() implies !writes_to(#[trigger] ws[m], PartitionId::Session, session_key(s)) by {
        if ws[m].partition() == PartitionId::Session {
            let i2 = m - o[2];
            assert(session_write(ws[o[2] + i2], c.sessions@[i2], key));
        }
    }
    lemma_last_write(db, ws, j, PartitionId::Session, session_key(s));
}

/// A saved changed device that is the last of its change set under its key,
/// and that the change set does not also delete, reads back exactly.
pub proof fn lemma_device_round_trip(db: DbView, c: Changes, key: Seq<u8>, ws: Seq<Write>, i: int)
    requires
        written(ws, c, key),
        0 <= i < c.devices.changed@.len(),
        forall|j: int| i < j < c.devices.changed@.len() ==>
            device_key(#[trigger] c.devices.changed@[j]) != device_key(c.devices.changed@[i]),
        forall|j: int| 0 <= j < c.devices.deleted@.len() ==>
            device_key(#[trigger] c.devices.deleted@[j]) != device_key(c.devices.changed@[i]),
    ensures
        ({
            let part = apply_writes(db, ws)[PartitionId::Devices];
            let d = c.devices.changed@[i];
            &&& part.contains_key(device_key(d))
            &&& part[device_key(d)] == StoredValue::Device(d)
        }),
{
    let o = offsets(c);
    let d = c.devices.changed@[i];
    let n = c.devices.new@.len();
    let j = o[5] + n + i;
    assert(device_write(ws[j], d));
    assert forall|m: int| j < m < ws.len() implies !writes_to(#[trigger] ws[m], PartitionId::Devices, device_key(d)) by {
        if ws[m].partition() == PartitionId::Devices {
            if m < o[6] {
                let i2 = m - o[5] - n;
                assert(device_write(ws[o[5] + n + i2], c.devices.changed@[i2]));
            } else {
                let i2 = m - o[6];
                assert(device_delete(ws[o[6] + i2], c.devices.deleted@[i2]));
            }
        }
    }
    lemma_last_write(db, ws, j, PartitionId::Devices, device_key(d));
}

/// The partition that each write of a planned change set goes to, by the
/// kind of change it stands among.
pub proof fn lemma_partition_at(ws: Seq<Write>, c: Changes, key: Seq<u8>, m: int)
    requires
        written(ws, c, key),
        0 <= m < ws.len(),
    ensures
        ({
            let o = offsets(c);
            let p = ws[m].partition();
            &&& m < o[2] ==> p == PartitionId::Core
            &&& o[2] <= m < o[3] ==> p == PartitionId::Session
            &&& o[3] <= m < o[4] ==> p == PartitionId::InboundGroupSessions
            &&& o[4] <= m < o[5] ==> p == PartitionId::OutboundGroupSessions
            &&& o[5] <= m < o[7] ==> p == PartitionId::Devices
            &&& o[7] <= m < o[8] ==> p == PartitionId::Identities
            &&& o[8] <= m < o[9] ==> p == PartitionId::OlmHashes
            &&& o[9] <= m ==> is_request_partition(p)
        }),
{
    let o = offsets(c);
    if m < o[1] {
        assert(account_write(ws[0], c.account->Some_0, key));
    } else if m < o[2] {
        assert(identity_write(ws[o[1]], c.private_identity->Some_0, key));
    } else if m < o[3] {
        assert(session_write(ws[o[2] + (m - o[2])], c.sessions@[m - o[2]], key));
    } else if m < o[4] {
        assert(inbound_write(ws[o[3] + (m - o[3])], c.inbound_group_sessions@[m - o[3]], key));
    } else if m < o[5] {
        assert(outbound_write(ws[o[4] + (m - o[4])], c.outbound_group_sessions@[m - o[4]], key));
    } else if m < o[5] + c.devices.new@.len() {
        assert(device_write(ws[o[5] + (m - o[5])], c.devices.new@[m - o[5]]));
    } else if m < o[6] {
        let i = m - o[5] - c.devices.new@.len();
        assert(device_write(ws[o[5] + c.devices.new@.len() + i], c.devices.changed@[i]));
    } else if m < o[7] {
        assert(device_delete(ws[o[6] + (m - o[6])], c.devices.deleted@[m - o[6]]));
    } else if m < o[7] + c.identities.changed@.len() {
        assert(user_identity_write(ws[o[7] + (m - o[7])], c.identities.changed@[m - o[7]]));
    } else if m < o[8] {
        let i = m - o[7] - c.identities.changed@.len();
        assert(user_identity_write(ws[o[7] + c.identities.changed@.len() + i], c.identities.new@[i]));
    } else if m < o[9] {
        assert(hash_write(ws[o[8] + (m - o[8])], c.message_hashes@[m - o[8]]));
    }
}

/// A saved inbound group session that is the last one of its change set
/// under its key reads back: the record under its key holds its room, its
/// sender key, its id and its state.
pub proof fn lemma_inbound_round_trip(db: DbView, c: Changes, key: Seq<u8>, ws: Seq<Write>, i: int)
    requires
        written(ws, c, key),
        0 <= i < c.inbound_group_sessions@.len(),
        forall|j: int| i < j < c.inbound_group_sessions@.len() ==>
            inbound_key(#[trigger] c.inbound_group_sessions@[j]) != inbound_key(c.inbound_group_sessions@[i]),
    ensures
        ({
            let part = apply_writes(db, ws)[PartitionId::InboundGroupSessions];
            let g = c.inbound_group_sessions@[i];
            &&& part.contains_key(inbound_key(g))
            &&& record_of(part[inbound_key(g)], key, 3) == Ok::<(Seq<String>, Seq<u8>), crate::error::CryptoStoreError>((seq![g.room_id, g.sender_key, g.session_id], g.state@))
        }),
{
    let o = offsets(c);
    let g = c.inbound_group_sessions@[i];
    let j = o[3] + i;
    let p = PartitionId::InboundGroupSessions;
    assert(inbound_write(ws[j], g, key));
    assert forall|m: int| j < m < ws.len() implies !writes_to(#[trigger] ws[m], p, inbound_key(g)) by {
        lemma_partition_at(ws, c, key, m);
        if ws[m].partition() == p {
            let i2 = m - o[3];
            assert(inbound_write(ws[o[3] + i2], c.inbound_group_sessions@[i2], key));
        }
    }
    lemma_last_write(db, ws, j, p, inbound_key(g));
}

/// A saved outbound group session that is the last one of its change set
/// for its room reads back: the record under its room holds the room and
/// its state.
pub proof fn lemma_outbound_round_trip(db: DbView, c: Changes, key: Seq<u8>, ws: Seq<Write>, i: int)
    requires
        written(ws, c, key),
        0 <= i < c.outbound_group_sessions@.len(),
        forall|j: int| i < j < c.outbound_group_sessions@.len() ==>
            (#[trigger] c.outbound_group_sessions@[j]).room_id@ != c.outbound_group_sessions@[i].room_id@,
    ensures
        ({
            let part = apply_writes(db, ws)[PartitionId::OutboundGroupSessions];
            let g = c.outbound_group_sessions@[i];
            &&& part.contains_key(g.room_id@)
            &&& record_of(part[g.room_id@], key, 1) == Ok::<(Seq<String>, Seq<u8>), crate::error::CryptoStoreError>((seq![g.room_id], g.state@))
        }),
{
    let o = offsets(c);
    let g = c.outbound_group_sessions@[i];
    let j = o[4] + i;
    let p = PartitionId::OutboundGroupSessions;
    assert(outbound_write(ws[j], g, key));
    assert forall|m: int| j < m < ws.len() implies !writes_to(#[trigger] ws[m], p, g.room_id@) by {
        lemma_partition_at(ws, c, key, m);
        if ws[m].partition() == p {
            let i2 = m - o[4];
            assert(outbound_write(ws[o[4] + i2], c.outbound_group_sessions@[i2], key));
        }
    }
    lemma_last_write(db, ws, j, p, g.room_id@);
}

/// A saved new user identity that is the last of its change set for its
/// user reads back exactly. (Changed identities are written before new
/// ones.)
pub proof fn lemma_new_identity_round_trip(db: DbView, c: Changes, key: Seq<u8>, ws: Seq<Write>, i: int)
    requires
        written(ws, c, key),
        0 <= i < c.identities.new@.len(),
        forall|j: int| i < j < c.identities.new@.len() ==>
            (#[trigger] c.identities.new@[j]).user_id@ != c.identities.new@[i].user_id@,
    ensures
        ({
            let part = apply_writes(db, ws)[PartitionId::Identities];
            let u = c.identities.new@[i];
            &&& part.contains_key(u.user_id@)
            &&& part[u.user_id@] == StoredValue::Identity(u)
        }),
{
    let o = offsets(c);
    let u = c.identities.new@[i];
    let n = c.identities.changed@.len();
    let j = o[7] + n + i;
    let p = PartitionId::Identities;
    assert(user_identity_write(ws[j], u));
    assert forall|m: int| j < m < ws.len() implies !writes_to(#[trigger] ws[m], p, u.user_id@) by {
        lemma_partition_at(ws, c, key, m);
        if ws[m].partition() == p {
            let i2 = m - o[7] - n;
            assert(user_identity_write(ws[o[7] + n + i2], c.identities.new@[i2]));
        }
    }
    lemma_last_write(db, ws, j, p, u.user_id@);
}

/// A saved changed user identity that is the last of its change set for
/// its user, and that no new identity of the change set replaces, reads
/// back exactly.
pub proof fn lemma_changed_identity_round_trip(db: DbView, c: Changes, key: Seq<u8>, ws: Seq<Write>, i: int)
    requires
        written(ws, c, key),
        0 <= i < c.identities.changed@.len(),
        forall|j: int| i < j < c.identities.changed@.len() ==>
            (#[trigger] c.identities.changed@[j]).user_id@ != c.identities.changed@[i].user_id@,
        forall|j: int| 0 <= j < c.identities.new@.len() ==>
            (#[trigger] c.identities.new@[j]).user_id@ != c.identities.changed@[i].user_id@,
    ensures
        ({
            let part = apply_writes(db, ws)[PartitionId::Identities];
            let u = c.identities.changed@[i];
            &&& part.contains_key(u.user_id@)
            &&& part[u.user_id@] == StoredValue::Identity(u)
        }),
{
    let o = offsets(c);
    let u = c.identities.changed@[i];
    let n = c.identities.changed@.len();
    let j = o[7] + i;
    let p = PartitionId::Identities;
    assert(user_identity_write(ws[j], u));
    assert forall|m: int| j < m < ws.len() implies !writes_to(#[trigger] ws[m], p, u.user_id@) by {
        lemma_partition_at(ws, c, key, m);
        if ws[m].partition() == p {
            if m < o[7] + n {
                let i2 = m - o[7];
                assert(user_identity_write(ws[o[7] + i2], c.identities.changed@[i2]));
            } else {
                let i2 = m - o[7] - n;
                assert(user_identity_write(ws[o[7] + n + i2], c.identities.new@[i2]));
            }
        }
    }
    lemma_last_write(db, ws, j, p, u.user_id@);
}

/// A key that some write puts, and that no later write deletes, is present
/// after all the writes.
pub proof fn lemma_put_stays(db: DbView, ws: Seq<Write>, j: int, p: PartitionId, k: Seq<char>)
    requires
        0 <= j < ws.len(),
        ws[j] is Put,
        writes_to(ws[j], p, k),
        forall|m: int| j < m < ws.len() && writes_to(#[trigger] ws[m], p, k) ==> ws[m] is Put,
    ensures
        apply_writes(db, ws)[p].contains_key(k),
    decreases ws.len(),
{
    if j == ws.len() - 1 {
        assert(ws.last() == ws[j]);
    } else {
        assert forall|m: int| j < m < ws.drop_last().len() && writes_to(#[trigger] ws.drop_last()[m], p, k)
            implies ws.drop_last()[m] is Put by {
            assert(ws.drop_last()[m] == ws[m]);
        }
        lemma_put_stays(db, ws.drop_last(), j, p, k);
        assert(ws.last() == ws[ws.len() - 1]);
    }
}

/// A saved message hash is known afterwards.
pub proof fn lemma_hash_round_trip(db: DbView, c: Changes, key: Seq<u8>, ws: Seq<Write>, i: int)
    requires
        written(ws, c, key),
        0 <= i < c.message_hashes@.len(),
    ensures
        apply_writes(db, ws)[PartitionId::OlmHashes].contains_key(hash_key(c.message_hashes@[i])),
{
    let o = offsets(c);
    let h = c.message_hashes@[i];
    let p = PartitionId::OlmHashes;
    let j = o[8] + i;
    assert(hash_write(ws[j], h));
    assert forall|m: int| j < m < ws.len() && writes_to(#[trigger] ws[m], p, hash_key(h)) implies ws[m] is Put by {
        lemma_partition_at(ws, c, key, m);
        let i2 = m - o[8];
        assert(hash_write(ws[o[8] + i2], c.message_hashes@[i2]));
    }
    lemma_put_stays(db, ws, j, p, hash_key(h));
}

/// A saved private identity reads back from the core partition.
pub proof fn lemma_private_identity_round_trip(db: DbView, c: Changes, key: Seq<u8>, ws: Seq<Write>)
    requires
        written(ws, c, key),
        c.private_identity is Some,
    ensures
        ({
            let part = apply_writes(db, ws)[PartitionId::Core];
            let i = c.private_identity->Some_0;
            &&& part.contains_key(crate::store::identity_key())
            &&& record_of(part[crate::store::identity_key()], key, 1) == Ok::<(Seq<String>, Seq<u8>), crate::error::CryptoStoreError>((seq![i.user_id], i.state@))
        }),
{
    let o = offsets(c);
    let i = c.private_identity->Some_0;
    let j = o[1];
    let p = PartitionId::Core;
    assert(identity_write(ws[j], i, key));
    assert forall|m: int| j < m < ws.len() implies !writes_to(#[trigger] ws[m], p, crate::store::identity_key()) by {
        lemma_partition_at(ws, c, key, m);
    }
    lemma_last_write(db, ws, j, p, crate::store::identity_key());
}

/// A saved new device that no later device of its change set replaces and
/// that the change set does not also delete reads back exactly. (New
/// devices are written before changed ones, and deletions last.)
pub proof fn lemma_new_device_round_trip(db: DbView, c: Changes, key: Seq<u8>, ws: Seq<Write>, i: int)
    requires
        written(ws, c, key),
        0 <= i < c.devices.new@.len(),
        forall|j: int| i < j < c.devices.new@.len() ==>
            device_key(#[trigger] c.devices.new@[j]) != device_key(c.devices.new@[i]),
        forall|j: int| 0 <= j < c.devices.changed@.len() ==>
            device_key(#[trigger] c.devices.changed@[j]) != device_key(c.devices.new@[i]),
        forall|j: int| 0 <= j < c.devices.deleted@.len() ==>
            device_key(#[trigger] c.devices.deleted@[j]) != device_key(c.devices.new@[i]),
    ensures
        ({
            let part = apply_writes(db, ws)[PartitionId::Devices];
            let d = c.devices.new@[i];
            &&& part.contains_key(device_key(d))
            &&& part[device_key(d)] == StoredValue::Device(d)
        }),
{
    let o = offsets(c);
    let d = c.devices.new@[i];
    let n = c.devices.new@.len();
    let j = o[5] + i;
    assert(device_write(ws[j], d));
    assert forall|m: int| j < m < ws.len() implies !writes_to(#[trigger] ws[m], PartitionId::Devices, device_key(d)) by {
        if ws[m].partition() == PartitionId::Devices {
            if m < o[5] + n {
                let i2 = m - o[5];
                assert(device_write(ws[o[5] + i2], c.devices.new@[i2]));
            } else if m < o[6] {
                let i2 = m - o[5] - n;
                assert(device_write(ws[o[5] + n + i2], c.devices.changed@[i2]));
            } else {
                let i2 = m - o[6];
                assert(device_delete(ws[o[6] + i2], c.devices.deleted@[i2]));
            }
        }
    }
    lemma_last_write(db, ws, j, PartitionId::Devices, device_key(d));
}

/// Deleting the request with id `a` leaves the sent and unsent entries of
/// every other id as they were, changes the descriptor index only at the
/// deleted request's descriptor, and touches no other partition.
pub proof fn lemma_delete_keeps_others(db: DbView, a: u128, b: u128, found: Option<GossipRequest>)
    requires
        a != b,
    ensures
        ({
            let after = request_deleted(db, uuid_text(a), found);
            let kb = uuid_text(b);
            &&& after[PartitionId::UnsentSecretRequests].contains_key(kb) == db[PartitionId::UnsentSecretRequests].contains_key(kb)
            &&& after[PartitionId::UnsentSecretRequests][kb] == db[PartitionId::UnsentSecretRequests][kb]
            &&& after[PartitionId::OutgoingSecretRequests].contains_key(kb) == db[PartitionId::OutgoingSecretRequests].contains_key(kb)
            &&& after[PartitionId::OutgoingSecretRequests][kb] == db[PartitionId::OutgoingSecretRequests][kb]
            &&& forall|d: Seq<char>| (found matches Some(r) ==> d != descriptor(r.info)) ==> {
                &&& after[PartitionId::SecretRequestsByInfo].contains_key(d) == db[PartitionId::SecretRequestsByInfo].contains_key(d)
                &&& after[PartitionId::SecretRequestsByInfo][d] == db[PartitionId::SecretRequestsByInfo][d]
            }
            &&& forall|p: PartitionId| !is_request_partition(p) ==> #[trigger] after[p] == db[p]
        }),
{
    if uuid_text(a) == uuid_text(b) {
        crate::ids::lemma_uuid_text_injective(a, b);
    }
}

} // verus!
