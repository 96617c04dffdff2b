//! The writes that applying a change set makes, and the proofs that the
//! writes planned for each kind of change stand where they should.
use vstd::prelude::*;

use crate::crypto::{seal, unsealed, PickleKey};
use crate::engine::{in_scope, PartitionId, StoredValue, Table, Write};
use crate::error::CryptoStoreError;
use crate::ids::{request_key, uuid_text};
use crate::keys::{join_key, join_key3, joined, joined3};
use crate::store::{account_key, identity_key};
use crate::types::{
    Account, Changes, Device, GossipRequest, InboundGroupSession, MessageHash,
    OutboundGroupSession, PrivateCrossSigningIdentity, SecretInfo, Session, UserIdentity,
};

verus! {

pub(crate) fn literal(s: &str) -> (r: String)
    ensures
        r@ == s@,
{
    s.to_owned()
}

/// The descriptor of a requested secret: the key of the index from
/// descriptors to request ids.
pub open spec fn descriptor(info: SecretInfo) -> Seq<char> {
    match info {
        SecretInfo::KeyRequest { algorithm, room_id, sender_key, session_id } =>
            joined3(joined3("keyRequest"@, room_id@, sender_key@), algorithm@, session_id@),
        SecretInfo::SecretRequest(name) => joined("secretName"@, name@),
    }
}

impl SecretInfo {
    /// The descriptor of the requested secret.
    pub fn as_key(&self) -> (r: String)
        ensures
            r@ == descriptor(*self),
    {
        match self {
            SecretInfo::KeyRequest { algorithm, room_id, sender_key, session_id } => {
                let head = join_key3("keyRequest", room_id.as_str(), sender_key.as_str());
                join_key3(head.as_str(), algorithm.as_str(), session_id.as_str())
            },
            SecretInfo::SecretRequest(name) => join_key("secretName", name.as_str()),
        }
    }
}

/// `w` stores the account `a`, sealed under `key`.
pub open spec fn account_write(w: Write, a: Account, key: Seq<u8>) -> bool {
    w matches Write::Put(p, k, v) && p == PartitionId::Core && k@ == account_key()
        && unsealed(v, key) == Some((seq![a.user_id, a.device_id, a.identity_keys], a.state@))
}

/// `w` stores the private identity `i`, sealed under `key`.
pub open spec fn identity_write(w: Write, i: PrivateCrossSigningIdentity, key: Seq<u8>) -> bool {
    w matches Write::Put(p, k, v) && p == PartitionId::Core && k@ == identity_key()
        && unsealed(v, key) == Some((seq![i.user_id], i.state@))
}

/// The key of a session record.
pub open spec fn session_key(s: Session) -> Seq<char> {
    joined(s.sender_key@, s.session_id@)
}

/// `w` stores the session `s`, sealed under `key`.
pub open spec fn session_write(w: Write, s: Session, key: Seq<u8>) -> bool {
    w matches Write::Put(p, k, v) && p == PartitionId::Session && k@ == session_key(s)
        && unsealed(v, key) == Some((seq![s.sender_key, s.session_id], s.state@))
}

/// The key of an inbound group session record.
pub open spec fn inbound_key(g: InboundGroupSession) -> Seq<char> {
    joined3(g.room_id@, g.sender_key@, g.session_id@)
}

/// `w` stores the inbound group session `g`, sealed under `key`.
pub open spec fn inbound_write(w: Write, g: InboundGroupSession, key: Seq<u8>) -> bool {
    w matches Write::Put(p, k, v) && p == PartitionId::InboundGroupSessions && k@ == inbound_key(g)
        && unsealed(v, key) == Some((seq![g.room_id, g.sender_key, g.session_id], g.state@))
}

/// `w` stores the outbound group session `o`, sealed under `key`.
pub open spec fn outbound_write(w: Write, o: OutboundGroupSession, key: Seq<u8>) -> bool {
    w matches Write::Put(p, k, v) && p == PartitionId::OutboundGroupSessions && k@ == o.room_id@
        && unsealed(v, key) == Some((seq![o.room_id], o.state@))
}

/// The key of a device record.
pub open spec fn device_key(d: Device) -> Seq<char> {
    joined(d.user_id@, d.device_id@)
}

/// `w` stores the device `d`.
pub open spec fn device_write(w: Write, d: Device) -> bool {
    w matches Write::Put(p, k, v) && p == PartitionId::Devices && k@ == device_key(d)
        && v == StoredValue::Device(d)
}

/// `w` deletes the device `d`.
pub open spec fn device_delete(w: Write, d: Device) -> bool {
    w matches Write::Delete(p, k) && p == PartitionId::Devices && k@ == device_key(d)
}

/// `w` stores the user identity `u`.
pub open spec fn user_identity_write(w: Write, u: UserIdentity) -> bool {
    w matches Write::Put(p, k, v) && p == PartitionId::Identities && k@ == u.user_id@
        && v == StoredValue::Identity(u)
}

/// The key of a message hash record.
pub open spec fn hash_key(h: MessageHash) -> Seq<char> {
    joined(h.sender_key@, h.hash@)
}

/// `w` records the message hash `h`.
pub open spec fn hash_write(w: Write, h: MessageHash) -> bool {
    w matches Write::Put(p, k, v) && p == PartitionId::OlmHashes && k@ == hash_key(h)
        && v == StoredValue::Flag(true)
}

/// `w0, w1, w2` file the gossip request `r`: its descriptor points to its id,
/// and it moves to the sent index if it was sent out, else to the unsent one.
pub open spec fn request_writes(w0: Write, w1: Write, w2: Write, r: GossipRequest) -> bool {
    let id = uuid_text(r.request_id);
    let (from, to) = if r.sent_out {
        (PartitionId::UnsentSecretRequests, PartitionId::OutgoingSecretRequests)
    } else {
        (PartitionId::OutgoingSecretRequests, PartitionId::UnsentSecretRequests)
    };
    &&& w0 matches Write::Put(p, k, v) && p == PartitionId::SecretRequestsByInfo
        && k@ == descriptor(r.info) && (v matches StoredValue::Text(t) && t@ == id)
    &&& w1 matches Write::Delete(p, k) && p == from && k@ == id
    &&& w2 matches Write::Put(p, k, v) && p == to && k@ == id && v == StoredValue::Request(r)
}

/// Whether changes of this kind touch partition `p`.
pub open spec fn implicated(c: Changes, p: PartitionId) -> bool {
    match p {
        PartitionId::Core => c.account is Some || c.private_identity is Some,
        PartitionId::Session => c.sessions@.len() > 0,
        PartitionId::Devices => c.devices.new@.len() > 0 || c.devices.changed@.len() > 0
            || c.devices.deleted@.len() > 0,
        PartitionId::Identities => c.identities.new@.len() > 0 || c.identities.changed@.len() > 0,
        PartitionId::InboundGroupSessions => c.inbound_group_sessions@.len() > 0,
        PartitionId::OutboundGroupSessions => c.outbound_group_sessions@.len() > 0,
        PartitionId::OlmHashes => c.message_hashes@.len() > 0,
        PartitionId::SecretRequestsByInfo => c.key_requests@.len() > 0,
        PartitionId::UnsentSecretRequests => c.key_requests@.len() > 0,
        PartitionId::OutgoingSecretRequests => c.key_requests@.len() > 0,
        PartitionId::TrackedUsers => false,
    }
}

pub open spec fn opt_len<T>(o: Option<T>) -> int {
    if o is Some { 1 } else { 0 }
}

/// Where the writes of each kind of change start, in the order they are
/// made: account, private identity, sessions, inbound and outbound group
/// sessions, new and changed devices, deleted devices, changed and new
/// identities, message hashes, gossip requests.
pub open spec fn offsets(c: Changes) -> Seq<int> {
    let o1 = opt_len(c.account);
    let o2 = o1 + opt_len(c.private_identity);
    let o3 = o2 + c.sessions@.len();
    let o4 = o3 + c.inbound_group_sessions@.len();
    let o5 = o4 + c.outbound_group_sessions@.len();
    let o6 = o5 + c.devices.new@.len() + c.devices.changed@.len();
    let o7 = o6 + c.devices.deleted@.len();
    let o8 = o7 + c.identities.changed@.len() + c.identities.new@.len();
    let o9 = o8 + c.message_hashes@.len();
    seq![0, o1, o2, o3, o4, o5, o6, o7, o8, o9, o9 + 3 * c.key_requests@.len()]
}

/// `ws` is what applying `c` writes, with every secret sealed under `key`.
pub open spec fn written(ws: Seq<Write>, c: Changes, key: Seq<u8>) -> bool {
    let o = offsets(c);
    &&& ws.len() == o[10]
    &&& part_range(ws, PartitionId::Session, o[2], o[3])
    &&& part_range(ws, PartitionId::Devices, o[5], o[7])
    &&& forall|m: int| o[9] <= m < ws.len() ==> is_request_partition(#[trigger] ws[m].partition())
    &&& c.account matches Some(a) ==> account_write(ws[0], a, key)
    &&& c.private_identity matches Some(i) ==> identity_write(ws[o[1]], i, key)
    &&& forall|i: int| 0 <= i < c.sessions@.len() ==> session_write(ws[o[2] + i], #[trigger] c.sessions@[i], key)
    &&& forall|i: int| 0 <= i < c.inbound_group_sessions@.len() ==>
        inbound_write(ws[o[3] + i], #[trigger] c.inbound_group_sessions@[i], key)
    &&& forall|i: int| 0 <= i < c.outbound_group_sessions@.len() ==>
        outbound_write(ws[o[4] + i], #[trigger] c.outbound_group_sessions@[i], key)
    &&& forall|i: int| 0 <= i < c.devices.new@.len() ==> device_write(ws[o[5] + i], #[trigger] c.devices.new@[i])
    &&& forall|i: int| 0 <= i < c.devices.changed@.len() ==>
        device_write(ws[o[5] + c.devices.new@.len() + i], #[trigger] c.devices.changed@[i])
    &&& forall|i: int| 0 <= i < c.devices.deleted@.len() ==> device_delete(ws[o[6] + i], #[trigger] c.devices.deleted@[i])
    &&& forall|i: int| 0 <= i < c.identities.changed@.len() ==>
        user_identity_write(ws[o[7] + i], #[trigger] c.identities.changed@[i])
    &&& forall|i: int| 0 <= i < c.identities.new@.len() ==>
        user_identity_write(ws[o[7] + c.identities.changed@.len() + i], #[trigger] c.identities.new@[i])
    &&& forall|i: int| 0 <= i < c.message_hashes@.len() ==> hash_write(ws[o[8] + i], #[trigger] c.message_hashes@[i])
    &&& forall|i: int| 0 <= i < c.key_requests@.len() ==>
        request_writes(ws[o[9] + 3 * i], ws[o[9] + 3 * i + 1], ws[o[9] + 3 * i + 2], #[trigger] c.key_requests@[i])
}

/// Whether `p` is one of the three gossip-request partitions.
pub open spec fn is_request_partition(p: PartitionId) -> bool {
    p == PartitionId::SecretRequestsByInfo || p == PartitionId::UnsentSecretRequests
        || p == PartitionId::OutgoingSecretRequests
}

/// Every write of `ws` to partition `p` stands at a position in `[lo, hi)`.
pub open spec fn part_range(ws: Seq<Write>, p: PartitionId, lo: int, hi: int) -> bool {
    forall|m: int| 0 <= m < ws.len() && #[trigger] ws[m].partition() == p ==> lo <= m < hi
}

/// No write of `ws` goes to partition `p`.
pub open spec fn no_part(ws: Seq<Write>, p: PartitionId) -> bool {
    forall|m: int| 0 <= m < ws.len() ==> #[trigger] ws[m].partition() != p
}

pub(crate) proof fn lemma_range_then_none(x: Seq<Write>, y: Seq<Write>, p: PartitionId, lo: int, hi: int)
    requires
        part_range(x, p, lo, hi),
        no_part(y, p),
    ensures
        part_range(x + y, p, lo, hi),
{
    assert forall|m: int| 0 <= m < (x + y).len() && #[trigger] (x + y)[m].partition() == p implies lo <= m < hi by {
        if m < x.len() {
            assert((x + y)[m] == x[m]);
        } else {
            assert((x + y)[m] == y[m - x.len()]);
        }
    }
}

pub(crate) proof fn lemma_none_then_all(x: Seq<Write>, y: Seq<Write>, p: PartitionId)
    requires
        no_part(x, p),
    ensures
        part_range(x + y, p, x.len() as int, (x.len() + y.len()) as int),
{
    assert forall|m: int| 0 <= m < (x + y).len() && #[trigger] (x + y)[m].partition() == p implies
        x.len() <= m < x.len() + y.len() by {
        if m < x.len() {
            assert((x + y)[m] == x[m]);
        }
    }
}

pub(crate) proof fn lemma_no_part_concat(x: Seq<Write>, y: Seq<Write>, p: PartitionId)
    requires
        no_part(x, p),
        no_part(y, p),
    ensures
        no_part(x + y, p),
{
    assert forall|m: int| 0 <= m < (x + y).len() implies #[trigger] (x + y)[m].partition() != p by {
        if m < x.len() {
            assert((x + y)[m] == x[m]);
        } else {
            assert((x + y)[m] == y[m - x.len()]);
        }
    }
}

pub(crate) proof fn lemma_all_to_no_part(ws: Seq<Write>, q: PartitionId, p: PartitionId)
    requires
        all_to(ws, q),
        q != p,
    ensures
        no_part(ws, p),
{
    assert forall|m: int| 0 <= m < ws.len() implies #[trigger] ws[m].partition() != p by {
        assert(ws[m].partition() == q);
    }
}

pub(crate) proof fn lemma_requests_no_part(ws: Seq<Write>, p: PartitionId)
    requires
        all_to_requests(ws),
        p != PartitionId::SecretRequestsByInfo,
        p != PartitionId::UnsentSecretRequests,
        p != PartitionId::OutgoingSecretRequests,
    ensures
        no_part(ws, p),
{
    assert forall|m: int| 0 <= m < ws.len() implies #[trigger] ws[m].partition() != p by {
        let q = ws[m].partition();
    }
}

/// Where the session and device writes of a planned change set stand.
pub(crate) proof fn lemma_partition_ranges(
    a0: Seq<Write>, a1: Seq<Write>, a2: Seq<Write>, a3: Seq<Write>, a4: Seq<Write>, a5: Seq<Write>,
    a5b: Seq<Write>, a6: Seq<Write>, a7: Seq<Write>, a7b: Seq<Write>, a8: Seq<Write>, a9: Seq<Write>,
)
    requires
        all_to(a0, PartitionId::Core),
        all_to(a1, PartitionId::Core),
        all_to(a2, PartitionId::Session),
        all_to(a3, PartitionId::InboundGroupSessions),
        all_to(a4, PartitionId::OutboundGroupSessions),
        all_to(a5, PartitionId::Devices),
        all_to(a5b, PartitionId::Devices),
        all_to(a6, PartitionId::Devices),
        all_to(a7, PartitionId::Identities),
        all_to(a7b, PartitionId::Identities),
        all_to(a8, PartitionId::OlmHashes),
        all_to_requests(a9),
    ensures
        ({
            let ws = a0 + a1 + a2 + a3 + a4 + a5 + a5b + a6 + a7 + a7b + a8 + a9;
            let o2 = (a0.len() + a1.len()) as int;
            let o3 = o2 + a2.len();
            let o5 = o3 + a3.len() + a4.len();
            let o7 = o5 + a5.len() + a5b.len() + a6.len();
            &&& part_range(ws, PartitionId::Session, o2, o3)
            &&& part_range(ws, PartitionId::Devices, o5, o7)
        }),
{
    let s = PartitionId::Session;
    let d = PartitionId::Devices;
    lemma_all_to_no_part(a0, PartitionId::Core, s);
    lemma_all_to_no_part(a1, PartitionId::Core, s);
    lemma_no_part_concat(a0, a1, s);
    lemma_none_then_all(a0 + a1, a2, s);
    let acc = a0 + a1 + a2;
    let slo: int = (a0 + a1).len() as int;
    let shi: int = slo + a2.len();
    lemma_all_to_no_part(a3, PartitionId::InboundGroupSessions, s);
    lemma_range_then_none(acc, a3, s, slo, shi);
    lemma_all_to_no_part(a4, PartitionId::OutboundGroupSessions, s);
    lemma_range_then_none(acc + a3, a4, s, slo, shi);
    lemma_all_to_no_part(a5, d, s);
    lemma_range_then_none(acc + a3 + a4, a5, s, slo, shi);
    lemma_all_to_no_part(a5b, d, s);
    lemma_range_then_none(acc + a3 + a4 + a5, a5b, s, slo, shi);
    lemma_all_to_no_part(a6, d, s);
    lemma_range_then_none(acc + a3 + a4 + a5 + a5b, a6, s, slo, shi);
    lemma_all_to_no_part(a7, PartitionId::Identities, s);
    lemma_range_then_none(acc + a3 + a4 + a5 + a5b + a6, a7, s, slo, shi);
    lemma_all_to_no_part(a7b, PartitionId::Identities, s);
    lemma_range_then_none(acc + a3 + a4 + a5 + a5b + a6 + a7, a7b, s, slo, shi);
    lemma_all_to_no_part(a8, PartitionId::OlmHashes, s);
    lemma_range_then_none(acc + a3 + a4 + a5 + a5b + a6 + a7 + a7b, a8, s, slo, shi);
    lemma_requests_no_part(a9, s);
    lemma_range_then_none(acc + a3 + a4 + a5 + a5b + a6 + a7 + a7b + a8, a9, s, slo, shi);

    lemma_all_to_no_part(a0, PartitionId::Core, d);
    lemma_all_to_no_part(a1, PartitionId::Core, d);
    lemma_all_to_no_part(a2, s, d);
    lemma_all_to_no_part(a3, PartitionId::InboundGroupSessions, d);
    lemma_all_to_no_part(a4, PartitionId::OutboundGroupSessions, d);
    lemma_no_part_concat(a0, a1, d);
    lemma_no_part_concat(a0 + a1, a2, d);
    lemma_no_part_concat(a0 + a1 + a2, a3, d);
    lemma_no_part_concat(a0 + a1 + a2 + a3, a4, d);
    let pre = a0 + a1 + a2 + a3 + a4;
    let dv = a5 + a5b + a6;
    assert forall|m: int| 0 <= m < dv.len() implies #[trigger] dv[m].partition() == d by {
        if m < a5.len() {
            assert(dv[m] == a5[m]);
        } else if m < a5.len() + a5b.len() {
            assert(dv[m] == a5b[m - a5.len()]);
        } else {
            assert(dv[m] == a6[m - a5.len() - a5b.len()]);
        }
    }
    lemma_none_then_all(pre, dv, d);
    assert(pre + dv =~= pre + a5 + a5b + a6);
    let lo = pre.len() as int;
    let hi: int = (pre.len() + dv.len()) as int;
    lemma_all_to_no_part(a7, PartitionId::Identities, d);
    lemma_range_then_none(pre + a5 + a5b + a6, a7, d, lo, hi);
    lemma_all_to_no_part(a7b, PartitionId::Identities, d);
    lemma_range_then_none(pre + a5 + a5b + a6 + a7, a7b, d, lo, hi);
    lemma_all_to_no_part(a8, PartitionId::OlmHashes, d);
    lemma_range_then_none(pre + a5 + a5b + a6 + a7 + a7b, a8, d, lo, hi);
    lemma_requests_no_part(a9, d);
    lemma_range_then_none(pre + a5 + a5b + a6 + a7 + a7b + a8, a9, d, lo, hi);
}

/// Whether some secret state of `c` is too long to be encrypted.
pub open spec fn too_long(c: Changes) -> bool {
    ||| c.account matches Some(a) && a.state@.len() > crate::crypto::max_plaintext()
    ||| c.private_identity matches Some(i) && i.state@.len() > crate::crypto::max_plaintext()
    ||| exists|i: int| 0 <= i < c.sessions@.len() && #[trigger] c.sessions@[i].state@.len() > crate::crypto::max_plaintext()
    ||| exists|i: int| 0 <= i < c.inbound_group_sessions@.len()
        && #[trigger] c.inbound_group_sessions@[i].state@.len() > crate::crypto::max_plaintext()
    ||| exists|i: int| 0 <= i < c.outbound_group_sessions@.len()
        && #[trigger] c.outbound_group_sessions@[i].state@.len() > crate::crypto::max_plaintext()
}

/// A sealing failure: no randomness, or a state too long to encrypt.
pub open spec fn seal_error(e: CryptoStoreError, too_long: bool) -> bool {
    e == CryptoStoreError::RandomnessUnavailable || (e == CryptoStoreError::SerializationError && too_long)
}

/// Every write of `ws` goes to partition `p`.
pub open spec fn all_to(ws: Seq<Write>, p: PartitionId) -> bool {
    forall|j: int| 0 <= j < ws.len() ==> #[trigger] ws[j].partition() == p
}

pub(crate) proof fn lemma_scope_concat(scope: Seq<PartitionId>, a: Seq<Write>, b: Seq<Write>)
    requires
        in_scope(scope, a),
        in_scope(scope, b),
    ensures
        in_scope(scope, a + b),
{
    assert forall|j: int| 0 <= j < (a + b).len() implies scope.contains(#[trigger] (a + b)[j].partition()) by {
        if j < a.len() {
            assert((a + b)[j] == a[j]);
        } else {
            assert((a + b)[j] == b[j - a.len()]);
        }
    }
}

pub(crate) proof fn lemma_scope_all_to(scope: Seq<PartitionId>, ws: Seq<Write>, p: PartitionId)
    requires
        all_to(ws, p),
        ws.len() > 0 ==> scope.contains(p),
    ensures
        in_scope(scope, ws),
{
    assert forall|j: int| 0 <= j < ws.len() implies scope.contains(#[trigger] ws[j].partition()) by {
        assert(ws[j].partition() == p);
    }
}

pub(crate) fn seal_account(key: &PickleKey, a: &Option<Account>) -> (r: Result<Vec<Write>, CryptoStoreError>)
    requires
        key.wf(),
    ensures
        r matches Ok(ws) ==> ws@.len() == opt_len(*a) && all_to(ws@, PartitionId::Core)
            && (a matches Some(acc) ==> account_write(ws@[0], *acc, key.key@)),
        r matches Err(e) ==> seal_error(e, a matches Some(acc) && acc.state@.len() > crate::crypto::max_plaintext()),
        a is None ==> r is Ok,
        r is Ok ==> (a matches Some(acc) ==> acc.state@.len() <= crate::crypto::max_plaintext()),
{
    let mut ws: Vec<Write> = Vec::new();
    if let Some(acc) = a {
        let ids = vec![acc.user_id.clone(), acc.device_id.clone(), acc.identity_keys.clone()];
        let v = seal(key, ids, &acc.state)?;
        ws.push(Write::Put(PartitionId::Core, literal("account"), v));
    }
    Ok(ws)
}

pub(crate) fn seal_identity(key: &PickleKey, i: &Option<PrivateCrossSigningIdentity>) -> (r: Result<Vec<Write>, CryptoStoreError>)
    requires
        key.wf(),
    ensures
        r matches Ok(ws) ==> ws@.len() == opt_len(*i) && all_to(ws@, PartitionId::Core)
            && (i matches Some(id) ==> identity_write(ws@[0], *id, key.key@)),
        r matches Err(e) ==> seal_error(e, i matches Some(id) && id.state@.len() > crate::crypto::max_plaintext()),
        i is None ==> r is Ok,
        r is Ok ==> (i matches Some(id) ==> id.state@.len() <= crate::crypto::max_plaintext()),
{
    let mut ws: Vec<Write> = Vec::new();
    if let Some(id) = i {
        let mut ids: Vec<String> = Vec::new();
        ids.push(id.user_id.clone());
        assert(ids@ =~= seq![id.user_id]);
        let v = seal(key, ids, &id.state)?;
        ws.push(Write::Put(PartitionId::Core, literal("private_identity"), v));
    }
    Ok(ws)
}

pub(crate) fn seal_sessions(key: &PickleKey, ss: &Vec<Session>) -> (r: Result<Vec<Write>, CryptoStoreError>)
    requires
        key.wf(),
    ensures
        r matches Ok(ws) ==> ws@.len() == ss@.len() && all_to(ws@, PartitionId::Session)
            && forall|i: int| 0 <= i < ss@.len() ==> session_write(ws@[i], #[trigger] ss@[i], key.key@),
        r matches Err(e) ==> seal_error(e, exists|i: int| 0 <= i < ss@.len()
            && #[trigger] ss@[i].state@.len() > crate::crypto::max_plaintext()),
        ss@.len() == 0 ==> r is Ok,
        r is Ok ==> forall|i: int| 0 <= i < ss@.len() ==> (#[trigger] ss@[i]).state@.len() <= crate::crypto::max_plaintext(),
{
    let mut ws: Vec<Write> = Vec::new();
    let mut i: usize = 0;
    while i < ss.len()
        invariant
            key.wf(),
            i <= ss@.len(),
            ws@.len() == i,
            forall|j: int| 0 <= j < i ==> (#[trigger] ss@[j]).state@.len() <= crate::crypto::max_plaintext(),
            all_to(ws@, PartitionId::Session),
            forall|j: int| 0 <= j < i ==> session_write(ws@[j], #[trigger] ss@[j], key.key@),
        decreases ss.len() - i,
    {
        let s = &ss[i];
        let ids = vec![s.sender_key.clone(), s.session_id.clone()];
        let v = match seal(key, ids, &s.state) {
            Ok(v) => v,
            Err(e) => {
                assert(ss@[i as int].state@.len() > crate::crypto::max_plaintext() || e == CryptoStoreError::RandomnessUnavailable);
                return Err(e);
            },
        };
        ws.push(Write::Put(PartitionId::Session, join_key(s.sender_key.as_str(), s.session_id.as_str()), v));
        i = i + 1;
    }
    Ok(ws)
}

pub(crate) fn seal_inbound(key: &PickleKey, gs: &Vec<InboundGroupSession>) -> (r: Result<Vec<Write>, CryptoStoreError>)
    requires
        key.wf(),
    ensures
        r matches Ok(ws) ==> ws@.len() == gs@.len() && all_to(ws@, PartitionId::InboundGroupSessions)
            && forall|i: int| 0 <= i < gs@.len() ==> inbound_write(ws@[i], #[trigger] gs@[i], key.key@),
        r matches Err(e) ==> seal_error(e, exists|i: int| 0 <= i < gs@.len()
            && #[trigger] gs@[i].state@.len() > crate::crypto::max_plaintext()),
        gs@.len() == 0 ==> r is Ok,
        r is Ok ==> forall|i: int| 0 <= i < gs@.len() ==> (#[trigger] gs@[i]).state@.len() <= crate::crypto::max_plaintext(),
{
    let mut ws: Vec<Write> = Vec::new();
    let mut i: usize = 0;
    while i < gs.len()
        invariant
            key.wf(),
            i <= gs@.len(),
            ws@.len() == i,
            forall|j: int| 0 <= j < i ==> (#[trigger] gs@[j]).state@.len() <= crate::crypto::max_plaintext(),
            all_to(ws@, PartitionId::InboundGroupSessions),
            forall|j: int| 0 <= j < i ==> inbound_write(ws@[j], #[trigger] gs@[j], key.key@),
        decreases gs.len() - i,
    {
        let g = &gs[i];
        let ids = vec![g.room_id.clone(), g.sender_key.clone(), g.session_id.clone()];
        let v = match seal(key, ids, &g.state) {
            Ok(v) => v,
            Err(e) => {
                assert(gs@[i as int].state@.len() > crate::crypto::max_plaintext() || e == CryptoStoreError::RandomnessUnavailable);
                return Err(e);
            },
        };
        let k = join_key3(g.room_id.as_str(), g.sender_key.as_str(), g.session_id.as_str());
        ws.push(Write::Put(PartitionId::InboundGroupSessions, k, v));
        i = i + 1;
    }
    Ok(ws)
}

pub(crate) fn seal_outbound(key: &PickleKey, os: &Vec<OutboundGroupSession>) -> (r: Result<Vec<Write>, CryptoStoreError>)
    requires
        key.wf(),
    ensures
        r matches Ok(ws) ==> ws@.len() == os@.len() && all_to(ws@, PartitionId::OutboundGroupSessions)
            && forall|i: int| 0 <= i < os@.len() ==> outbound_write(ws@[i], #[trigger] os@[i], key.key@),
        r matches Err(e) ==> seal_error(e, exists|i: int| 0 <= i < os@.len()
            && #[trigger] os@[i].state@.len() > crate::crypto::max_plaintext()),
        os@.len() == 0 ==> r is Ok,
        r is Ok ==> forall|i: int| 0 <= i < os@.len() ==> (#[trigger] os@[i]).state@.len() <= crate::crypto::max_plaintext(),
{
    let mut ws: Vec<Write> = Vec::new();
    let mut i: usize = 0;
    while i < os.len()
        invariant
            key.wf(),
            i <= os@.len(),
            ws@.len() == i,
            forall|j: int| 0 <= j < i ==> (#[trigger] os@[j]).state@.len() <= crate::crypto::max_plaintext(),
            all_to(ws@, PartitionId::OutboundGroupSessions),
            forall|j: int| 0 <= j < i ==> outbound_write(ws@[j], #[trigger] os@[j], key.key@),
        decreases os.len() - i,
    {
        let o = &os[i];
        let mut ids: Vec<String> = Vec::new();
        ids.push(o.room_id.clone());
        assert(ids@ =~= seq![o.room_id]);
        let v = match seal(key, ids, &o.state) {
            Ok(v) => v,
            Err(e) => {
                assert(os@[i as int].state@.len() > crate::crypto::max_plaintext() || e == CryptoStoreError::RandomnessUnavailable);
                return Err(e);
            },
        };
        ws.push(Write::Put(PartitionId::OutboundGroupSessions, o.room_id.clone(), v));
        i = i + 1;
    }
    Ok(ws)
}

pub(crate) fn device_writes(ds: &Vec<Device>, delete: bool) -> (r: Vec<Write>)
    ensures
        r@.len() == ds@.len(),
        all_to(r@, PartitionId::Devices),
        forall|i: int| 0 <= i < ds@.len() ==> (if delete {
            device_delete(r@[i], #[trigger] ds@[i])
        } else {
            device_write(r@[i], ds@[i])
        }),
{
    let mut ws: Vec<Write> = Vec::new();
    let mut i: usize = 0;
    while i < ds.len()
        invariant
            i <= ds@.len(),
            ws@.len() == i,
            all_to(ws@, PartitionId::Devices),
            forall|j: int| 0 <= j < i ==> (if delete {
                device_delete(ws@[j], #[trigger] ds@[j])
            } else {
                device_write(ws@[j], ds@[j])
            }),
        decreases ds.len() - i,
    {
        let d = &ds[i];
        let k = join_key(d.user_id.as_str(), d.device_id.as_str());
        if delete {
            ws.push(Write::Delete(PartitionId::Devices, k));
        } else {
            ws.push(Write::Put(PartitionId::Devices, k, StoredValue::Device(d.copy())));
        }
        i = i + 1;
    }
    ws
}

pub(crate) fn identity_writes(us: &Vec<UserIdentity>) -> (r: Vec<Write>)
    ensures
        r@.len() == us@.len(),
        all_to(r@, PartitionId::Identities),
        forall|i: int| 0 <= i < us@.len() ==> user_identity_write(r@[i], #[trigger] us@[i]),
{
    let mut ws: Vec<Write> = Vec::new();
    let mut i: usize = 0;
    while i < us.len()
        invariant
            i <= us@.len(),
            ws@.len() == i,
            all_to(ws@, PartitionId::Identities),
            forall|j: int| 0 <= j < i ==> user_identity_write(ws@[j], #[trigger] us@[j]),
        decreases us.len() - i,
    {
        let u = &us[i];
        ws.push(Write::Put(PartitionId::Identities, u.user_id.clone(), StoredValue::Identity(u.copy())));
        i = i + 1;
    }
    ws
}

pub(crate) fn hash_writes(hs: &Vec<MessageHash>) -> (r: Vec<Write>)
    ensures
        r@.len() == hs@.len(),
        all_to(r@, PartitionId::OlmHashes),
        forall|i: int| 0 <= i < hs@.len() ==> hash_write(r@[i], #[trigger] hs@[i]),
{
    let mut ws: Vec<Write> = Vec::new();
    let mut i: usize = 0;
    while i < hs.len()
        invariant
            i <= hs@.len(),
            ws@.len() == i,
            all_to(ws@, PartitionId::OlmHashes),
            forall|j: int| 0 <= j < i ==> hash_write(ws@[j], #[trigger] hs@[j]),
        decreases hs.len() - i,
    {
        let h = &hs[i];
        ws.push(Write::Put(PartitionId::OlmHashes, join_key(h.sender_key.as_str(), h.hash.as_str()), StoredValue::Flag(true)));
        i = i + 1;
    }
    ws
}

/// Whether every write of `ws` goes to one of the three gossip-request
/// partitions.
pub open spec fn all_to_requests(ws: Seq<Write>) -> bool {
    forall|j: int| 0 <= j < ws.len() ==> {
        let p = #[trigger] ws[j].partition();
        p == PartitionId::SecretRequestsByInfo || p == PartitionId::UnsentSecretRequests
            || p == PartitionId::OutgoingSecretRequests
    }
}

pub(crate) fn request_writes_for(rs: &Vec<GossipRequest>) -> (r: Vec<Write>)
    requires
        rs@.len() * 3 <= usize::MAX,
    ensures
        r@.len() == 3 * rs@.len(),
        all_to_requests(r@),
        forall|i: int| 0 <= i < rs@.len() ==>
            request_writes(r@[3 * i], r@[3 * i + 1], r@[3 * i + 2], #[trigger] rs@[i]),
{
    let mut ws: Vec<Write> = Vec::new();
    let mut i: usize = 0;
    while i < rs.len()
        invariant
            i <= rs@.len(),
            ws@.len() == 3 * i,
            all_to_requests(ws@),
            forall|j: int| 0 <= j < i ==>
                request_writes(ws@[3 * j], ws@[3 * j + 1], ws@[3 * j + 2], #[trigger] rs@[j]),
        decreases rs.len() - i,
    {
        let r = &rs[i];
        let id = request_key(r.request_id);
        ws.push(Write::Put(PartitionId::SecretRequestsByInfo, r.info.as_key(), StoredValue::Text(id.clone())));
        if r.sent_out {
            ws.push(Write::Delete(PartitionId::UnsentSecretRequests, id.clone()));
            ws.push(Write::Put(PartitionId::OutgoingSecretRequests, id, StoredValue::Request(r.copy())));
        } else {
            ws.push(Write::Delete(PartitionId::OutgoingSecretRequests, id.clone()));
            ws.push(Write::Put(PartitionId::UnsentSecretRequests, id, StoredValue::Request(r.copy())));
        }
        i = i + 1;
    }
    ws
}

/// `v` without the sessions whose id is `id`.
pub open spec fn without_id(v: Seq<Session>, id: Seq<char>) -> Seq<Session>
    decreases v.len(),
{
    if v.len() == 0 {
        v
    } else {
        let r = without_id(v.drop_last(), id);
        if v.last().session_id@ == id {
            r
        } else {
            r.push(v.last())
        }
    }
}

/// The cached list `v` after `s` was saved: `s` replaces any session with
/// its id.
pub open spec fn merged_into(v: Seq<Session>, s: Session) -> Seq<Session> {
    without_id(v, s.session_id@).push(s)
}

/// The cached lists, as sequences.
pub open spec fn cache_view(m: Map<Seq<char>, Vec<Session>>) -> Map<Seq<char>, Seq<Session>> {
    m.map_values(|v: Vec<Session>| v@)
}

/// The cache after the sessions `ss` were saved, in order. Only sender keys
/// that are cached already get the new sessions: a sender key that is not
/// cached is loaded whole on its next read.
pub open spec fn merge_all(c: Map<Seq<char>, Seq<Session>>, ss: Seq<Session>) -> Map<Seq<char>, Seq<Session>>
    decreases ss.len(),
{
    if ss.len() == 0 {
        c
    } else {
        let c0 = merge_all(c, ss.drop_last());
        let s = ss.last();
        if c0.contains_key(s.sender_key@) {
            c0.insert(s.sender_key@, merged_into(c0[s.sender_key@], s))
        } else {
            c0
        }
    }
}

pub(crate) fn replace_session(v: Vec<Session>, s: Session) -> (r: Vec<Session>)
    ensures
        r@ == merged_into(v@, s),
{
    let ghost orig = v@;
    assert(orig.len() == v.len());
    let mut rest = v;
    let mut out: Vec<Session> = Vec::new();
    let mut i: usize = 0;
    assert(orig.take(0) =~= Seq::<Session>::empty());
    assert(orig.skip(0) =~= orig);
    while rest.len() > 0
        invariant
            i <= orig.len(),
            orig.len() <= usize::MAX,
            rest@ == orig.skip(i as int),
            out@ == without_id(orig.take(i as int), s.session_id@),
        decreases rest.len(),
    {
        let x = rest.remove(0);
        proof {
            assert(x == orig[i as int]);
            assert(orig.take(i + 1).drop_last() =~= orig.take(i as int));
            assert(rest@ =~= orig.skip(i + 1));
        }
        if !(x.session_id == s.session_id) {
            out.push(x);
        }
        i = i + 1;
    }
    assert(orig.take(i as int) =~= orig);
    out.push(s);
    out
}

pub(crate) fn merge_session(cache: &mut Table<Vec<Session>>, s: Session)
    requires
        old(cache).wf(),
    ensures
        final(cache).wf(),
        cache_view(final(cache)@) == (if cache_view(old(cache)@).contains_key(s.sender_key@) {
            cache_view(old(cache)@).insert(s.sender_key@, merged_into(cache_view(old(cache)@)[s.sender_key@], s))
        } else {
            cache_view(old(cache)@)
        }),
{
    let k = s.sender_key.clone();
    let ghost before = cache@;
    match cache.take(&k) {
        Some(v) => {
            let nv = replace_session(v, s);
            cache.put(k, nv);
            assert(cache_view(cache@) =~= cache_view(before).insert(s.sender_key@, merged_into(cache_view(before)[s.sender_key@], s)));
        },
        None => {
            assert(cache@ =~= before);
        },
    }
}

pub(crate) fn push_if(r: &mut Vec<PartitionId>, cond: bool, p: PartitionId)
    ensures
        final(r)@.len() == old(r)@.len() + (if cond { 1int } else { 0int }),
        forall|q: PartitionId| #[trigger] final(r)@.contains(q) <==> (old(r)@.contains(q) || (cond && q == p)),
{
    let ghost before = r@;
    if cond {
        r.push(p);
        proof {
            assert forall|q: PartitionId| #[trigger] r@.contains(q) <==> (before.contains(q) || q == p) by {
                if before.contains(q) {
                    let j = choose|j: int| 0 <= j < before.len() && before[j] == q;
                    assert(r@[j] == q);
                }
                if q == p {
                    assert(r@[before.len() as int] == q);
                }
                if r@.contains(q) && q != p {
                    let j = choose|j: int| 0 <= j < r@.len() && r@[j] == q;
                    assert(before[j] == q);
                }
            }
        }
    }
}

/// The partitions that a change set touches.
pub(crate) fn stores_for(c: &Changes) -> (r: Vec<PartitionId>)
    ensures
        forall|p: PartitionId| #[trigger] r@.contains(p) <==> implicated(*c, p),
        r@.len() == 0 <==> forall|p: PartitionId| !implicated(*c, p),
{
    let mut r: Vec<PartitionId> = Vec::new();
    push_if(&mut r, c.account.is_some() || c.private_identity.is_some(), PartitionId::Core);
    push_if(&mut r, c.sessions.len() > 0, PartitionId::Session);
    push_if(&mut r, c.devices.new.len() > 0 || c.devices.changed.len() > 0 || c.devices.deleted.len() > 0, PartitionId::Devices);
    push_if(&mut r, c.identities.new.len() > 0 || c.identities.changed.len() > 0, PartitionId::Identities);
    push_if(&mut r, c.inbound_group_sessions.len() > 0, PartitionId::InboundGroupSessions);
    push_if(&mut r, c.outbound_group_sessions.len() > 0, PartitionId::OutboundGroupSessions);
    push_if(&mut r, c.message_hashes.len() > 0, PartitionId::OlmHashes);
    let req = c.key_requests.len() > 0;
    push_if(&mut r, req, PartitionId::SecretRequestsByInfo);
    push_if(&mut r, req, PartitionId::UnsentSecretRequests);
    push_if(&mut r, req, PartitionId::OutgoingSecretRequests);
    proof {
        if r@.len() == 0 {
            assert forall|p: PartitionId| !implicated(*c, p) by {
                assert(!r@.contains(p));
            }
        } else {
            let q = r@[0];
            assert(r@.contains(q));
            assert(implicated(*c, q));
            assert(!(forall|p: PartitionId| !implicated(*c, p)));
        }
    }
    r
}

/// A prefix of a prefix of `ws` is a prefix of `ws`.
proof fn lemma_shorter_prefix(ws: Seq<Write>, x: Seq<Write>, y: Seq<Write>)
    requires
        (x + y).len() <= ws.len(),
        ws.subrange(0, (x + y).len() as int) == x + y,
    ensures
        ws.subrange(0, x.len() as int) == x,
{
    assert(ws.subrange(0, x.len() as int) =~= (x + y).subrange(0, x.len() as int));
    assert((x + y).subrange(0, x.len() as int) =~= x);
}

/// The `i`-th write of `seg` stands at `x.len() + i` in a `ws` that begins
/// with `x + seg`.
proof fn lemma_in_segment(ws: Seq<Write>, x: Seq<Write>, seg: Seq<Write>, i: int)
    requires
        (x + seg).len() <= ws.len(),
        ws.subrange(0, (x + seg).len() as int) == x + seg,
        0 <= i < seg.len(),
    ensures
        ws[x.len() + i] == seg[i],
{
    assert(ws.subrange(0, (x + seg).len() as int)[x.len() + i] == ws[x.len() + i]);
}

pub(crate) proof fn lemma_written(
    ws: Seq<Write>,
    c: Changes,
    key: Seq<u8>,
    a0: Seq<Write>,
    a1: Seq<Write>,
    a2: Seq<Write>,
    a3: Seq<Write>,
    a4: Seq<Write>,
    a5: Seq<Write>,
    a5b: Seq<Write>,
    a6: Seq<Write>,
    a7: Seq<Write>,
    a7b: Seq<Write>,
    a8: Seq<Write>,
    a9: Seq<Write>,
)
    requires
        ws == a0 + a1 + a2 + a3 + a4 + a5 + a5b + a6 + a7 + a7b + a8 + a9,
        part_range(ws, PartitionId::Session, (a0.len() + a1.len()) as int, (a0.len() + a1.len() + a2.len()) as int),
        part_range(ws, PartitionId::Devices, (a0.len() + a1.len() + a2.len() + a3.len() + a4.len()) as int,
            (a0.len() + a1.len() + a2.len() + a3.len() + a4.len() + a5.len() + a5b.len() + a6.len()) as int),
        a0.len() == opt_len(c.account),
        c.account matches Some(acc) ==> account_write(a0[0], acc, key),
        a1.len() == opt_len(c.private_identity),
        c.private_identity matches Some(id) ==> identity_write(a1[0], id, key),
        a2.len() == c.sessions@.len(),
        forall|i: int| 0 <= i < c.sessions@.len() ==> session_write(a2[i], #[trigger] c.sessions@[i], key),
        a3.len() == c.inbound_group_sessions@.len(),
        forall|i: int| 0 <= i < c.inbound_group_sessions@.len() ==> inbound_write(a3[i], #[trigger] c.inbound_group_sessions@[i], key),
        a4.len() == c.outbound_group_sessions@.len(),
        forall|i: int| 0 <= i < c.outbound_group_sessions@.len() ==> outbound_write(a4[i], #[trigger] c.outbound_group_sessions@[i], key),
        a5.len() == c.devices.new@.len(),
        forall|i: int| 0 <= i < c.devices.new@.len() ==> device_write(a5[i], #[trigger] c.devices.new@[i]),
        a5b.len() == c.devices.changed@.len(),
        forall|i: int| 0 <= i < c.devices.changed@.len() ==> device_write(a5b[i], #[trigger] c.devices.changed@[i]),
        a6.len() == c.devices.deleted@.len(),
        forall|i: int| 0 <= i < c.devices.deleted@.len() ==> device_delete(a6[i], #[trigger] c.devices.deleted@[i]),
        a7.len() == c.identities.changed@.len(),
        forall|i: int| 0 <= i < c.identities.changed@.len() ==> user_identity_write(a7[i], #[trigger] c.identities.changed@[i]),
        a7b.len() == c.identities.new@.len(),
        forall|i: int| 0 <= i < c.identities.new@.len() ==> user_identity_write(a7b[i], #[trigger] c.identities.new@[i]),
        a8.len() == c.message_hashes@.len(),
        forall|i: int| 0 <= i < c.message_hashes@.len() ==> hash_write(a8[i], #[trigger] c.message_hashes@[i]),
        a9.len() == 3 * c.key_requests@.len(),
        all_to_requests(a9),
        forall|i: int| 0 <= i < c.key_requests@.len() ==>
            request_writes(a9[3 * i], a9[3 * i + 1], a9[3 * i + 2], #[trigger] c.key_requests@[i]),
    ensures
        written(ws, c, key),
{
    let o = offsets(c);
    assert(ws.subrange(0, ws.len() as int) =~= ws);
    lemma_shorter_prefix(ws, (a0 + a1 + a2 + a3 + a4 + a5 + a5b + a6 + a7 + a7b + a8), a9);
    lemma_shorter_prefix(ws, (a0 + a1 + a2 + a3 + a4 + a5 + a5b + a6 + a7 + a7b), a8);
    lemma_shorter_prefix(ws, (a0 + a1 + a2 + a3 + a4 + a5 + a5b + a6 + a7), a7b);
    lemma_shorter_prefix(ws, (a0 + a1 + a2 + a3 + a4 + a5 + a5b + a6), a7);
    lemma_shorter_prefix(ws, (a0 + a1 + a2 + a3 + a4 + a5 + a5b), a6);
    lemma_shorter_prefix(ws, (a0 + a1 + a2 + a3 + a4 + a5), a5b);
    lemma_shorter_prefix(ws, (a0 + a1 + a2 + a3 + a4), a5);
    lemma_shorter_prefix(ws, (a0 + a1 + a2 + a3), a4);
    lemma_shorter_prefix(ws, (a0 + a1 + a2), a3);
    lemma_shorter_prefix(ws, (a0 + a1), a2);
    lemma_shorter_prefix(ws, (a0), a1);
    assert(ws.subrange(0, a0.len() as int) == Seq::<Write>::empty() + a0) by {
        assert(Seq::<Write>::empty() + a0 =~= a0);
    }
    assert forall|m: int| o[9] <= m < ws.len() implies is_request_partition(#[trigger] ws[m].partition()) by {
        lemma_in_segment(ws, (a0 + a1 + a2 + a3 + a4 + a5 + a5b + a6 + a7 + a7b + a8), a9, m - o[9]);
    }
    assert forall|i: int| 0 <= i < c.key_requests@.len() implies
        request_writes(ws[o[9] + 3 * i], ws[o[9] + 3 * i + 1], ws[o[9] + 3 * i + 2], #[trigger] c.key_requests@[i]) by {
        lemma_in_segment(ws, (a0 + a1 + a2 + a3 + a4 + a5 + a5b + a6 + a7 + a7b + a8), a9, 3 * i);
        lemma_in_segment(ws, (a0 + a1 + a2 + a3 + a4 + a5 + a5b + a6 + a7 + a7b + a8), a9, 3 * i + 1);
        lemma_in_segment(ws, (a0 + a1 + a2 + a3 + a4 + a5 + a5b + a6 + a7 + a7b + a8), a9, 3 * i + 2);
    }
    assert forall|i: int| 0 <= i < c.sessions@.len() implies session_write(ws[o[2] + i], #[trigger] c.sessions@[i], key) by {
        lemma_in_segment(ws, (a0 + a1), a2, i);
    }
    assert forall|i: int| 0 <= i < c.inbound_group_sessions@.len() implies inbound_write(ws[o[3] + i], #[trigger] c.inbound_group_sessions@[i], key) by {
        lemma_in_segment(ws, (a0 + a1 + a2), a3, i);
    }
    assert forall|i: int| 0 <= i < c.outbound_group_sessions@.len() implies outbound_write(ws[o[4] + i], #[trigger] c.outbound_group_sessions@[i], key) by {
        lemma_in_segment(ws, (a0 + a1 + a2 + a3), a4, i);
    }
    assert forall|i: int| 0 <= i < c.devices.new@.len() implies device_write(ws[o[5] + i], #[trigger] c.devices.new@[i]) by {
        lemma_in_segment(ws, (a0 + a1 + a2 + a3 + a4), a5, i);
    }
    assert forall|i: int| 0 <= i < c.devices.changed@.len() implies device_write(ws[o[5] + c.devices.new@.len() + i], #[trigger] c.devices.changed@[i]) by {
        lemma_in_segment(ws, (a0 + a1 + a2 + a3 + a4 + a5), a5b, i);
    }
    assert forall|i: int| 0 <= i < c.devices.deleted@.len() implies device_delete(ws[o[6] + i], #[trigger] c.devices.deleted@[i]) by {
        lemma_in_segment(ws, (a0 + a1 + a2 + a3 + a4 + a5 + a5b), a6, i);
    }
    assert forall|i: int| 0 <= i < c.identities.changed@.len() implies user_identity_write(ws[o[7] + i], #[trigger] c.identities.changed@[i]) by {
        lemma_in_segment(ws, (a0 + a1 + a2 + a3 + a4 + a5 + a5b + a6), a7, i);
    }
    assert forall|i: int| 0 <= i < c.identities.new@.len() implies user_identity_write(ws[o[7] + c.identities.changed@.len() + i], #[trigger] c.identities.new@[i]) by {
        lemma_in_segment(ws, (a0 + a1 + a2 + a3 + a4 + a5 + a5b + a6 + a7), a7b, i);
    }
    assert forall|i: int| 0 <= i < c.message_hashes@.len() implies hash_write(ws[o[8] + i], #[trigger] c.message_hashes@[i]) by {
        lemma_in_segment(ws, (a0 + a1 + a2 + a3 + a4 + a5 + a5b + a6 + a7 + a7b), a8, i);
    }
    if c.private_identity is Some {
        lemma_in_segment(ws, a0, a1, 0);
    }
    if c.account is Some {
        lemma_in_segment(ws, Seq::<Write>::empty(), a0, 0);
    }
}

} // verus!
