//! The peer book of network discovery: known peers with their reputation
//! and connection statistics, trusted and banned peers, and the seed and
//! bootstrap lists.
//!
//! Peers are identified by the bytes of their peer id; times are
//! nanoseconds since the Unix epoch.
use vstd::prelude::*;
use vstd::string::StringExecFns;
use crate::hashing::copy_bytes;
use crate::reputation::{BootstrapPeer, DnsSeed, ReputationScore, MAX_SCORE, MIN_SCORE, BAN_THRESHOLD, TRUST_THRESHOLD};

verus! {

/// A peer not seen for this long (an hour, in nanoseconds) is not dialled.
pub const SEEN_WITHIN_NANOS: u64 = 3_600_000_000_000;

/// A peer discovered longer ago than this (seven days, in nanoseconds),
/// never connected and not trusted, is forgotten.
pub const STALE_AFTER_NANOS: u64 = 604_800_000_000_000;

/// Reads the system clock: nanoseconds since the Unix epoch
/// (`SystemTime::now`, 0 when the clock is before the epoch; the low 64 bits
/// of `Duration::as_nanos`). Nothing is stated of the value: it depends on
/// the machine and the moment.
#[verifier::external_body]
pub(crate) fn now_unix_nanos() -> (r: u64) {
    std::time::SystemTime::now().duration_since(std::time::UNIX_EPOCH).unwrap_or_default().as_nanos() as u64
}

/// Whether two byte strings are equal.
pub fn bytes_eq(a: &Vec<u8>, b: &Vec<u8>) -> (r: bool)
    ensures
        r == (a@ == b@),
{
    if a.len() != b.len() {
        return false;
    }
    let mut i: usize = 0;
    while i < a.len()
        invariant
            a@.len() == b@.len(),
            0 <= i <= a@.len(),
            forall|j: int| 0 <= j < i ==> a@[j] == b@[j],
        decreases a@.len() - i,
    {
        if a[i] != b[i] {
            return false;
        }
        i = i + 1;
    }
    assert(a@ =~= b@);
    true
}

/// What is known of a peer.
#[derive(Debug, Clone)]
pub struct PeerData {
    pub peer_id: Vec<u8>,
    pub addresses: Vec<String>,
    pub reputation: ReputationScore,
    pub last_seen: u64,
    pub connected: bool,
    pub connection_attempts: u32,
    pub successful_connections: u32,
    pub messages_sent: u64,
    pub messages_received: u64,
    pub bytes_sent: u64,
    pub bytes_received: u64,
    pub first_discovered: u64,
}

/// The peer's score after `delta` is applied: raised for a positive
/// delta, lowered otherwise, within the bounds.
pub open spec fn score_after(v: int, delta: int) -> int {
    if delta > 0 {
        if v + delta > MAX_SCORE { MAX_SCORE as int } else { v + delta }
    } else {
        if v + delta < MIN_SCORE { MIN_SCORE as int } else { v + delta }
    }
}

/// The peer is worth dialling at `now`: not banned, more than one in ten
/// connection attempts succeeded, and seen within the last hour.
pub open spec fn should_connect_spec(p: PeerData, now: u64) -> bool {
    &&& p.reputation.spec_value() > BAN_THRESHOLD
    &&& p.successful_connections * 10 > p.connection_attempts
    &&& (if now >= p.last_seen { now - p.last_seen } else { 0 }) < SEEN_WITHIN_NANOS
}

/// The addresses as text.
pub open spec fn texts(v: Seq<String>) -> Seq<Seq<char>> {
    Seq::new(v.len(), |i: int| v[i]@)
}

impl PeerData {
    /// A peer first discovered at `now` at `address` (listed once).
    pub fn new_at(peer_id: Vec<u8>, address: String, now: u64) -> (r: PeerData)
        ensures
            r.peer_id@ == peer_id@,
            texts(r.addresses@) == seq![address@],
            r.reputation.wf(),
            r.reputation.spec_value() == 0,
            r.last_seen == now,
            r.first_discovered == now,
            !r.connected,
            r.connection_attempts == 0,
            r.successful_connections == 0,
            r.messages_sent == 0,
            r.messages_received == 0,
            r.bytes_sent == 0,
            r.bytes_received == 0,
    {
        let mut addresses: Vec<String> = Vec::new();
        addresses.push(address);
        proof { assert(texts(addresses@) =~= seq![addresses@[0]@]); }
        let reputation = ReputationScore::new(0);
        PeerData {
            peer_id,
            addresses,
            reputation,
            last_seen: now,
            connected: false,
            connection_attempts: 0,
            successful_connections: 0,
            messages_sent: 0,
            messages_received: 0,
            bytes_sent: 0,
            bytes_received: 0,
            first_discovered: now,
        }
    }

    /// A peer discovered now at `address`.
    pub fn new(peer_id: Vec<u8>, address: String) -> (r: PeerData)
        ensures
            r.peer_id@ == peer_id@,
            texts(r.addresses@) == seq![address@],
            r.reputation.wf(),
            r.reputation.spec_value() == 0,
            r.last_seen == r.first_discovered,
            !r.connected,
            r.connection_attempts == 0,
            r.successful_connections == 0,
            r.messages_sent == 0,
            r.messages_received == 0,
            r.bytes_sent == 0,
            r.bytes_received == 0,
    {
        PeerData::new_at(peer_id, address, now_unix_nanos())
    }

    /// Marks the peer as seen at `now`.
    pub fn update_last_seen_at(&mut self, now: u64)
        ensures
            *final(self) == (PeerData { last_seen: now, ..*old(self) }),
    {
        self.last_seen = now;
    }

    /// Marks the peer as seen now.
    pub fn update_last_seen(&mut self)
        ensures
            *final(self) == (PeerData { last_seen: final(self).last_seen, ..*old(self) }),
    {
        let now = now_unix_nanos();
        self.update_last_seen_at(now);
    }

    /// Counts a connection attempt: a success raises the reputation by 10,
    /// a failure lowers it by 5.
    pub fn record_connection_attempt(&mut self, success: bool)
        requires
            old(self).reputation.wf(),
            old(self).connection_attempts < u32::MAX,
            success ==> old(self).successful_connections < u32::MAX,
        ensures
            final(self).reputation.wf(),
            final(self).connection_attempts == old(self).connection_attempts + 1,
            final(self).successful_connections == old(self).successful_connections + (if success { 1int } else { 0 }),
            final(self).reputation.spec_value() == score_after(old(self).reputation.spec_value(), if success { 10 } else { -5 }),
            final(self).peer_id == old(self).peer_id,
            final(self).addresses == old(self).addresses,
            final(self).last_seen == old(self).last_seen,
            final(self).connected == old(self).connected,
            final(self).messages_sent == old(self).messages_sent,
            final(self).messages_received == old(self).messages_received,
            final(self).bytes_sent == old(self).bytes_sent,
            final(self).bytes_received == old(self).bytes_received,
            final(self).first_discovered == old(self).first_discovered,
    {
        proof { self.reputation.lemma_wf_iff(); }
        self.connection_attempts = self.connection_attempts + 1;
        if success {
            self.successful_connections = self.successful_connections + 1;
            self.reputation.increase(10);
        } else {
            self.reputation.decrease(5);
        }
        proof { self.reputation.lemma_wf_iff(); }
    }

    /// Counts a message sent of `size` bytes.
    pub fn record_message_sent(&mut self, size: usize)
        requires
            old(self).messages_sent < u64::MAX,
            old(self).bytes_sent + size <= u64::MAX,
        ensures
            *final(self) == (PeerData {
                messages_sent: (old(self).messages_sent + 1) as u64,
                bytes_sent: (old(self).bytes_sent + size) as u64,
                ..*old(self)
            }),
    {
        self.messages_sent = self.messages_sent + 1;
        self.bytes_sent = self.bytes_sent + size as u64;
    }

    /// Counts a message received of `size` bytes, raising the reputation
    /// by 1.
    pub fn record_message_received(&mut self, size: usize)
        requires
            old(self).reputation.wf(),
            old(self).messages_received < u64::MAX,
            old(self).bytes_received + size <= u64::MAX,
        ensures
            final(self).reputation.wf(),
            final(self).reputation.spec_value() == score_after(old(self).reputation.spec_value(), 1),
            final(self).messages_received == old(self).messages_received + 1,
            final(self).bytes_received == old(self).bytes_received + size,
            final(self).peer_id == old(self).peer_id,
            final(self).addresses == old(self).addresses,
            final(self).last_seen == old(self).last_seen,
            final(self).connected == old(self).connected,
            final(self).connection_attempts == old(self).connection_attempts,
            final(self).successful_connections == old(self).successful_connections,
            final(self).messages_sent == old(self).messages_sent,
            final(self).bytes_sent == old(self).bytes_sent,
            final(self).first_discovered == old(self).first_discovered,
    {
        proof { self.reputation.lemma_wf_iff(); }
        self.messages_received = self.messages_received + 1;
        self.bytes_received = self.bytes_received + size as u64;
        self.reputation.increase(1);
        proof { self.reputation.lemma_wf_iff(); }
    }

    /// Whether the peer is worth dialling at `now`.
    pub fn should_connect_at(&self, now: u64) -> (r: bool)
        ensures
            r == should_connect_spec(*self, now),
    {
        let idle: u64 = if now >= self.last_seen { now - self.last_seen } else { 0 };
        !self.reputation.is_banned()
            && (self.successful_connections as u64) * 10 > self.connection_attempts as u64
            && idle < SEEN_WITHIN_NANOS
    }

    /// Whether the peer is worth dialling now.
    pub fn should_connect(&self) -> (r: bool)
        ensures
            exists|now: u64| r == should_connect_spec(*self, now),
    {
        let now = now_unix_nanos();
        let r = self.should_connect_at(now);
        assert(r == should_connect_spec(*self, now));
        r
    }
}

/// Two peer records hold the same values.
pub open spec fn same_peer(a: PeerData, b: PeerData) -> bool {
    &&& a.peer_id@ == b.peer_id@
    &&& texts(a.addresses@) == texts(b.addresses@)
    &&& a.reputation == b.reputation
    &&& a.last_seen == b.last_seen
    &&& a.connected == b.connected
    &&& a.connection_attempts == b.connection_attempts
    &&& a.successful_connections == b.successful_connections
    &&& a.messages_sent == b.messages_sent
    &&& a.messages_received == b.messages_received
    &&& a.bytes_sent == b.bytes_sent
    &&& a.bytes_received == b.bytes_received
    &&& a.first_discovered == b.first_discovered
}

/// A copy of a list of strings.
fn copy_strings(v: &Vec<String>) -> (r: Vec<String>)
    ensures
        texts(r@) == texts(v@),
{
    let mut out: Vec<String> = Vec::new();
    let mut i: usize = 0;
    while i < v.len()
        invariant
            0 <= i <= v@.len(),
            out@.len() == i,
            forall|j: int| 0 <= j < i ==> (#[trigger] out@[j])@ == v@[j]@,
        decreases v@.len() - i,
    {
        out.push(v[i].clone());
        i = i + 1;
    }
    assert(texts(out@) =~= texts(v@));
    out
}

/// A copy of a peer record.
pub fn copy_peer(p: &PeerData) -> (r: PeerData)
    ensures
        same_peer(*p, r),
{
    PeerData {
        peer_id: copy_bytes(&p.peer_id),
        addresses: copy_strings(&p.addresses),
        reputation: p.reputation,
        last_seen: p.last_seen,
        connected: p.connected,
        connection_attempts: p.connection_attempts,
        successful_connections: p.successful_connections,
        messages_sent: p.messages_sent,
        messages_received: p.messages_received,
        bytes_sent: p.bytes_sent,
        bytes_received: p.bytes_received,
        first_discovered: p.first_discovered,
    }
}

/// No two records share a peer id.
pub open spec fn ids_distinct(v: Seq<PeerData>) -> bool {
    forall|i: int, j: int| 0 <= i < v.len() && 0 <= j < v.len() && i != j ==> (#[trigger] v[i]).peer_id@ != (#[trigger] v[j]).peer_id@
}

/// Some record has peer id `k`.
pub open spec fn has_peer(v: Seq<PeerData>, k: Seq<u8>) -> bool {
    exists|i: int| 0 <= i < v.len() && (#[trigger] v[i]).peer_id@ == k
}

/// The records by peer id.
pub open spec fn peer_table(v: Seq<PeerData>) -> Map<Seq<u8>, PeerData> {
    Map::new(|k: Seq<u8>| has_peer(v, k), |k: Seq<u8>| v[choose|i: int| 0 <= i < v.len() && (#[trigger] v[i]).peer_id@ == k])
}

/// The ids of a list, as byte strings.
pub open spec fn id_set(v: Seq<Vec<u8>>) -> Set<Seq<u8>> {
    Set::new(|k: Seq<u8>| exists|i: int| 0 <= i < v.len() && (#[trigger] v[i])@ == k)
}

/// No id is listed twice.
pub open spec fn views_distinct(v: Seq<Vec<u8>>) -> bool {
    forall|i: int, j: int| 0 <= i < v.len() && 0 <= j < v.len() && i != j ==> (#[trigger] v[i])@ != (#[trigger] v[j])@
}

proof fn lemma_table_at(v: Seq<PeerData>, i: int)
    requires
        ids_distinct(v),
        0 <= i < v.len(),
    ensures
        peer_table(v).contains_key(v[i].peer_id@),
        peer_table(v)[v[i].peer_id@] == v[i],
{
    assert(has_peer(v, v[i].peer_id@));
    let j = choose|j: int| 0 <= j < v.len() && (#[trigger] v[j]).peer_id@ == v[i].peer_id@;
    assert(j == i);
}

proof fn lemma_table_update(v: Seq<PeerData>, i: int, p: PeerData)
    requires
        ids_distinct(v),
        0 <= i < v.len(),
        p.peer_id@ == v[i].peer_id@,
    ensures
        ids_distinct(v.update(i, p)),
        peer_table(v.update(i, p)) == peer_table(v).insert(p.peer_id@, p),
{
    let w = v.update(i, p);
    assert forall|a: int, b: int| 0 <= a < w.len() && 0 <= b < w.len() && a != b implies (#[trigger] w[a]).peer_id@ != (#[trigger] w[b]).peer_id@ by {
        assert(w[a].peer_id@ == v[a].peer_id@ && w[b].peer_id@ == v[b].peer_id@);
    }
    assert forall|k: Seq<u8>| has_peer(w, k) <==> has_peer(v, k) by {
        if has_peer(w, k) {
            let t = choose|t: int| 0 <= t < w.len() && (#[trigger] w[t]).peer_id@ == k;
            assert(v[t].peer_id@ == k);
        }
        if has_peer(v, k) {
            let t = choose|t: int| 0 <= t < v.len() && (#[trigger] v[t]).peer_id@ == k;
            assert(w[t].peer_id@ == k);
        }
    }
    assert forall|k: Seq<u8>| #[trigger] peer_table(w).contains_key(k) implies peer_table(w)[k] == peer_table(v).insert(p.peer_id@, p)[k] by {
        let t = choose|t: int| 0 <= t < w.len() && (#[trigger] w[t]).peer_id@ == k;
        lemma_table_at(w, t);
        if t != i {
            lemma_table_at(v, t);
        }
    }
    assert(peer_table(w) =~= peer_table(v).insert(p.peer_id@, p));
}

proof fn lemma_table_push(v: Seq<PeerData>, p: PeerData)
    requires
        ids_distinct(v),
        !has_peer(v, p.peer_id@),
    ensures
        ids_distinct(v.push(p)),
        peer_table(v.push(p)) == peer_table(v).insert(p.peer_id@, p),
{
    let w = v.push(p);
    assert forall|a: int, b: int| 0 <= a < w.len() && 0 <= b < w.len() && a != b implies (#[trigger] w[a]).peer_id@ != (#[trigger] w[b]).peer_id@ by {
        if a < v.len() && b < v.len() {
            assert(w[a] == v[a] && w[b] == v[b]);
        } else if a < v.len() {
            assert(w[a] == v[a]);
        } else {
            assert(w[b] == v[b]);
        }
    }
    assert forall|k: Seq<u8>| has_peer(w, k) <==> (has_peer(v, k) || k == p.peer_id@) by {
        if has_peer(w, k) && k != p.peer_id@ {
            let t = choose|t: int| 0 <= t < w.len() && (#[trigger] w[t]).peer_id@ == k;
            assert(v[t] == w[t]);
        }
        if has_peer(v, k) {
            let t = choose|t: int| 0 <= t < v.len() && (#[trigger] v[t]).peer_id@ == k;
            assert(w[t] == v[t]);
        }
        if k == p.peer_id@ {
            assert(w[v.len() as int] == p);
        }
    }
    assert forall|k: Seq<u8>| #[trigger] peer_table(w).contains_key(k) implies peer_table(w)[k] == peer_table(v).insert(p.peer_id@, p)[k] by {
        let t = choose|t: int| 0 <= t < w.len() && (#[trigger] w[t]).peer_id@ == k;
        lemma_table_at(w, t);
        if t < v.len() {
            assert(w[t] == v[t]);
            lemma_table_at(v, t);
        }
    }
    assert(peer_table(w) =~= peer_table(v).insert(p.peer_id@, p));
}

/// The position of the record with id `id`.
fn find_peer_index(v: &Vec<PeerData>, id: &Vec<u8>) -> (r: Option<usize>)
    ensures
        r matches Some(i) ==> i < v@.len() && v@[i as int].peer_id@ == id@,
        r is None ==> !has_peer(v@, id@),
{
    let mut i: usize = 0;
    while i < v.len()
        invariant
            0 <= i <= v@.len(),
            forall|j: int| 0 <= j < i ==> (#[trigger] v@[j]).peer_id@ != id@,
        decreases v@.len() - i,
    {
        if bytes_eq(&v[i].peer_id, id) {
            return Some(i);
        }
        i = i + 1;
    }
    None
}

/// The position of `id` in a list of ids.
fn find_id(v: &Vec<Vec<u8>>, id: &Vec<u8>) -> (r: Option<usize>)
    ensures
        r matches Some(i) ==> i < v@.len() && v@[i as int]@ == id@,
        r is None ==> !id_set(v@).contains(id@),
{
    let mut i: usize = 0;
    while i < v.len()
        invariant
            0 <= i <= v@.len(),
            forall|j: int| 0 <= j < i ==> (#[trigger] v@[j])@ != id@,
        decreases v@.len() - i,
    {
        if bytes_eq(&v[i], id) {
            return Some(i);
        }
        i = i + 1;
    }
    None
}

/// Adds `id` to a list of distinct ids.
fn id_insert(v: &mut Vec<Vec<u8>>, id: &Vec<u8>)
    requires
        views_distinct(old(v)@),
    ensures
        views_distinct(final(v)@),
        id_set(final(v)@) == id_set(old(v)@).insert(id@),
{
    match find_id(v, id) {
        Some(i) => {
            assert(id_set(v@) =~= id_set(v@).insert(id@));
        },
        None => {
            let ghost before = v@;
            v.push(copy_bytes(id));
            proof {
                assert forall|a: int, b: int| 0 <= a < v@.len() && 0 <= b < v@.len() && a != b implies (#[trigger] v@[a])@ != (#[trigger] v@[b])@ by {
                    if a < before.len() && b < before.len() {
                        assert(v@[a] == before[a] && v@[b] == before[b]);
                    } else if a < before.len() {
                        assert(v@[a] == before[a]);
                    } else {
                        assert(v@[b] == before[b]);
                    }
                }
                assert forall|k: Seq<u8>| id_set(v@).contains(k) <==> id_set(before).insert(id@).contains(k) by {
                    if id_set(v@).contains(k) {
                        let t = choose|t: int| 0 <= t < v@.len() && (#[trigger] v@[t])@ == k;
                        if t < before.len() { assert(v@[t] == before[t]); }
                    }
                    if id_set(before).contains(k) {
                        let t = choose|t: int| 0 <= t < before.len() && (#[trigger] before[t])@ == k;
                        assert(v@[t] == before[t]);
                    }
                    if k == id@ {
                        assert(v@[before.len() as int]@ == k);
                    }
                }
                assert(id_set(v@) =~= id_set(before).insert(id@));
            }
        },
    }
}

/// Removes `id` from a list of distinct ids.
fn id_remove(v: &mut Vec<Vec<u8>>, id: &Vec<u8>)
    requires
        views_distinct(old(v)@),
    ensures
        views_distinct(final(v)@),
        id_set(final(v)@) == id_set(old(v)@).remove(id@),
{
    match find_id(v, id) {
        Some(i) => {
            let ghost before = v@;
            v.remove(i);
            proof {
                assert forall|a: int| 0 <= a < v@.len() implies #[trigger] v@[a] == (if a < i { before[a] } else { before[a + 1] }) by {}
                assert forall|a: int, b: int| 0 <= a < v@.len() && 0 <= b < v@.len() && a != b implies (#[trigger] v@[a])@ != (#[trigger] v@[b])@ by {
                    let a2 = if a < i { a } else { a + 1 };
                    let b2 = if b < i { b } else { b + 1 };
                    assert(v@[a] == before[a2] && v@[b] == before[b2]);
                }
                assert forall|k: Seq<u8>| id_set(v@).contains(k) <==> id_set(before).remove(id@).contains(k) by {
                    if id_set(v@).contains(k) {
                        let t = choose|t: int| 0 <= t < v@.len() && (#[trigger] v@[t])@ == k;
                        let t2 = if t < i { t } else { t + 1 };
                        assert(v@[t] == before[t2]);
                        assert(t2 != i);
                    }
                    if id_set(before).remove(id@).contains(k) {
                        let t = choose|t: int| 0 <= t < before.len() && (#[trigger] before[t])@ == k;
                        assert(t != i);
                        if t < i { assert(v@[t] == before[t]); } else { assert(v@[t - 1] == before[t]); }
                    }
                }
                assert(id_set(v@) =~= id_set(before).remove(id@));
            }
        },
        None => {
            assert(id_set(v@) =~= id_set(v@).remove(id@));
        },
    }
}

/// The peer is a candidate for dialling at `now`: known, not banned, not
/// connected and worth dialling.
pub open spec fn dial_candidate(peers: Map<Seq<u8>, PeerData>, banned: Set<Seq<u8>>, k: Seq<u8>, now: u64) -> bool {
    &&& peers.contains_key(k)
    &&& !banned.contains(k)
    &&& !peers[k].connected
    &&& should_connect_spec(peers[k], now)
}

/// The peer is kept by the cleanup at `now`: discovered within the last
/// seven days, connected at least once, or trusted.
pub open spec fn keep_peer(p: PeerData, now: u64) -> bool {
    p.first_discovered + STALE_AFTER_NANOS > now || p.successful_connections > 0 || p.reputation.spec_value() >= TRUST_THRESHOLD
}

/// The text `/p2p/`.
pub open spec fn p2p_marker() -> Seq<char> {
    seq!['/', 'p', '2', 'p', '/']
}

/// `/p2p/` starts at position `p` of `a`.
pub open spec fn marker_at(a: Seq<char>, p: int) -> bool {
    0 <= p && p + 5 <= a.len() && a.subrange(p, p + 5) == p2p_marker()
}

/// The first position where `/p2p/` starts.
pub open spec fn first_marker(a: Seq<char>) -> int {
    choose|p: int| marker_at(a, p) && forall|t: int| 0 <= t < p ==> !#[trigger] marker_at(a, t)
}

/// The first position of a `/`.
pub open spec fn first_slash(a: Seq<char>) -> int {
    choose|q: int| 0 <= q < a.len() && a[q] == '/' && forall|t: int| 0 <= t < q ==> #[trigger] a[t] != '/'
}

/// The peer id a multiaddress carries: what follows the first `/p2p/`, up
/// to the next `/`.
pub open spec fn multiaddr_peer(a: Seq<char>) -> Option<Seq<char>> {
    if exists|p: int| #[trigger] marker_at(a, p) {
        let rest = a.subrange(first_marker(a) + 5, a.len() as int);
        if exists|q: int| 0 <= q < rest.len() && #[trigger] rest[q] == '/' {
            Some(rest.subrange(0, first_slash(rest)))
        } else {
            Some(rest)
        }
    } else {
        None
    }
}

/// Discovery state: seeds, bootstrap peers, and the peer book with its
/// trusted and banned peers.
pub struct DiscoveryManager {
    dns_seeds: Vec<DnsSeed>,
    bootstrap_peers: Vec<BootstrapPeer>,
    peers: Vec<PeerData>,
    trusted_peers: Vec<Vec<u8>>,
    banned_peers: Vec<Vec<u8>>,
    local_peer_id: Vec<u8>,
    enable_mdns: bool,
    enable_dht: bool,
    max_peers: usize,
    min_peers: usize,
}

impl DiscoveryManager {
    /// Known peers by id.
    pub closed spec fn peers(&self) -> Map<Seq<u8>, PeerData> {
        peer_table(self.peers@)
    }

    /// Ids of trusted peers.
    pub closed spec fn trusted(&self) -> Set<Seq<u8>> {
        id_set(self.trusted_peers@)
    }

    /// Ids of banned peers.
    pub closed spec fn banned(&self) -> Set<Seq<u8>> {
        id_set(self.banned_peers@)
    }

    /// The DNS seeds, in order.
    pub closed spec fn seeds(&self) -> Seq<DnsSeed> {
        self.dns_seeds@
    }

    /// The bootstrap peers, in order.
    pub closed spec fn bootstrap(&self) -> Seq<BootstrapPeer> {
        self.bootstrap_peers@
    }

    /// Whether mDNS discovery is on.
    pub closed spec fn mdns(&self) -> bool {
        self.enable_mdns
    }

    /// The most peers to dial at once.
    pub closed spec fn max_peers_spec(&self) -> usize {
        self.max_peers
    }

    /// Ids are listed once and every reputation lies within its bounds.
    pub closed spec fn wf(&self) -> bool {
        &&& ids_distinct(self.peers@)
        &&& views_distinct(self.trusted_peers@)
        &&& views_distinct(self.banned_peers@)
        &&& forall|i: int| 0 <= i < self.peers@.len() ==> (#[trigger] self.peers@[i]).reputation.wf()
    }

    /// Every known peer's reputation lies within its bounds.
    pub proof fn lemma_reputations_bounded(&self, k: Seq<u8>)
        requires
            self.wf(),
            self.peers().contains_key(k),
        ensures
            MIN_SCORE <= self.peers()[k].reputation.spec_value() <= MAX_SCORE,
    {
        let t = choose|t: int| 0 <= t < self.peers@.len() && (#[trigger] self.peers@[t]).peer_id@ == k;
        lemma_table_at(self.peers@, t);
        self.peers@[t].reputation.lemma_wf_iff();
    }

    /// A manager with the default DNS seeds, no bootstrap peers, mDNS and
    /// DHT on, at most 100 and at least 8 peers, and an empty peer book.
    pub fn new(local_peer_id: Vec<u8>) -> (r: DiscoveryManager)
        ensures
            r.wf(),
            r.peers() == Map::<Seq<u8>, PeerData>::empty(),
            r.trusted() == Set::<Seq<u8>>::empty(),
            r.banned() == Set::<Seq<u8>>::empty(),
            r.seeds().len() == 2,
            r.seeds()[0].hostname@ == "seed.cytah-speed.net"@ && r.seeds()[0].port == 8333,
            r.seeds()[1].hostname@ == "seed2.cytah-speed.net"@ && r.seeds()[1].port == 8333,
            r.bootstrap().len() == 0,
            r.mdns(),
            r.max_peers_spec() == 100,
    {
        let mut dns_seeds: Vec<DnsSeed> = Vec::new();
        dns_seeds.push(DnsSeed { hostname: String::from_str("seed.cytah-speed.net"), port: 8333 });
        dns_seeds.push(DnsSeed { hostname: String::from_str("seed2.cytah-speed.net"), port: 8333 });
        let bootstrap_peers: Vec<BootstrapPeer> = Vec::new();
        let r = DiscoveryManager {
            dns_seeds,
            bootstrap_peers,
            peers: Vec::new(),
            trusted_peers: Vec::new(),
            banned_peers: Vec::new(),
            local_peer_id,
            enable_mdns: true,
            enable_dht: true,
            max_peers: 100,
            min_peers: 8,
        };
        proof {
            assert(r.peers() =~= Map::<Seq<u8>, PeerData>::empty());
            assert(r.trusted() =~= Set::<Seq<u8>>::empty());
            assert(r.banned() =~= Set::<Seq<u8>>::empty());
        }
        r
    }

    /// Adds a DNS seed.
    pub fn add_dns_seed(&mut self, seed: DnsSeed)
        requires
            old(self).wf(),
        ensures
            final(self).wf(),
            final(self).seeds() == old(self).seeds().push(seed),
            final(self).bootstrap() == old(self).bootstrap(),
            final(self).peers() == old(self).peers(),
            final(self).trusted() == old(self).trusted(),
            final(self).banned() == old(self).banned(),
    {
        self.dns_seeds.push(seed);
    }

    /// Adds a bootstrap peer.
    pub fn add_bootstrap_peer(&mut self, peer: BootstrapPeer)
        requires
            old(self).wf(),
        ensures
            final(self).wf(),
            final(self).bootstrap() == old(self).bootstrap().push(peer),
            final(self).seeds() == old(self).seeds(),
            final(self).peers() == old(self).peers(),
            final(self).trusted() == old(self).trusted(),
            final(self).banned() == old(self).banned(),
    {
        self.bootstrap_peers.push(peer);
    }

    /// Adds a bootstrap peer known only by its address.
    pub fn add_bootstrap_peer_legacy(&mut self, peer_address: String)
        requires
            old(self).wf(),
        ensures
            final(self).wf(),
            final(self).bootstrap().len() == old(self).bootstrap().len() + 1,
            final(self).bootstrap().drop_last() == old(self).bootstrap(),
            final(self).bootstrap().last().address@ == peer_address@,
            final(self).bootstrap().last().peer_id is None,
            final(self).seeds() == old(self).seeds(),
            final(self).peers() == old(self).peers(),
    {
        let peer = BootstrapPeer { address: peer_address, peer_id: None };
        self.add_bootstrap_peer(peer);
    }

    /// The bootstrap addresses, in order.
    pub fn get_bootstrap_addresses(&self) -> (r: Vec<String>)
        ensures
            r@.len() == self.bootstrap().len(),
            forall|i: int| 0 <= i < r@.len() ==> (#[trigger] r@[i])@ == self.bootstrap()[i].address@,
    {
        let mut out: Vec<String> = Vec::new();
        let mut i: usize = 0;
        while i < self.bootstrap_peers.len()
            invariant
                0 <= i <= self.bootstrap_peers@.len(),
                out@.len() == i,
                forall|j: int| 0 <= j < i ==> (#[trigger] out@[j])@ == self.bootstrap_peers@[j].address@,
            decreases self.bootstrap_peers@.len() - i,
        {
            out.push(self.bootstrap_peers[i].address.clone());
            i = i + 1;
        }
        out
    }

    /// The bootstrap addresses, in order.
    pub fn get_bootstrap_peers_legacy(&self) -> (r: Vec<String>)
        ensures
            r@.len() == self.bootstrap().len(),
            forall|i: int| 0 <= i < r@.len() ==> (#[trigger] r@[i])@ == self.bootstrap()[i].address@,
    {
        self.get_bootstrap_addresses()
    }

    /// Whether mDNS discovery is on.
    pub fn is_mdns_enabled(&self) -> (r: bool)
        ensures
            r == self.mdns(),
    {
        self.enable_mdns
    }

    /// Turns mDNS discovery on or off.
    pub fn set_mdns_enabled(&mut self, enabled: bool)
        requires
            old(self).wf(),
        ensures
            final(self).wf(),
            final(self).mdns() == enabled,
            final(self).peers() == old(self).peers(),
            final(self).seeds() == old(self).seeds(),
            final(self).bootstrap() == old(self).bootstrap(),
    {
        self.enable_mdns = enabled;
    }

    /// Records `address` for a peer at `now`; a peer seen for the first
    /// time is added (its first address is then listed twice).
    pub fn add_peer_at(&mut self, peer_id: Vec<u8>, address: String, now: u64)
        requires
            old(self).wf(),
        ensures
            final(self).wf(),
            final(self).trusted() == old(self).trusted(),
            final(self).banned() == old(self).banned(),
            final(self).peers().dom() == old(self).peers().dom().insert(peer_id@),
            forall|k: Seq<u8>| k != peer_id@ && #[trigger] old(self).peers().contains_key(k) ==> final(self).peers()[k] == old(self).peers()[k],
            old(self).peers().contains_key(peer_id@) ==> {
                let (o, n) = (old(self).peers()[peer_id@], final(self).peers()[peer_id@]);
                &&& texts(n.addresses@) == texts(o.addresses@).push(address@)
                &&& n.peer_id == o.peer_id && n.reputation == o.reputation && n.last_seen == o.last_seen
                &&& n.connected == o.connected && n.connection_attempts == o.connection_attempts
                &&& n.successful_connections == o.successful_connections && n.messages_sent == o.messages_sent
                &&& n.messages_received == o.messages_received && n.bytes_sent == o.bytes_sent
                &&& n.bytes_received == o.bytes_received && n.first_discovered == o.first_discovered
            },
            !old(self).peers().contains_key(peer_id@) ==> {
                let n = final(self).peers()[peer_id@];
                &&& texts(n.addresses@) == seq![address@, address@]
                &&& n.reputation.spec_value() == 0 && n.last_seen == now && n.first_discovered == now
                &&& !n.connected && n.connection_attempts == 0 && n.successful_connections == 0
                &&& n.messages_sent == 0 && n.messages_received == 0 && n.bytes_sent == 0 && n.bytes_received == 0
            },
    {
        let ghost v0 = self.peers@;
        match find_peer_index(&self.peers, &peer_id) {
            Some(i) => {
                proof { lemma_table_at(v0, i as int); }
                let mut p = self.peers.remove(i);
                let ghost p0 = p;
                let ghost a0 = p.addresses@;
                p.addresses.push(address);
                proof {
                    assert(texts(p.addresses@) =~= texts(a0).push(p.addresses@[a0.len() as int]@));
                    assert(self.peers@.insert(i as int, p) =~= v0.update(i as int, p));
                    lemma_table_update(v0, i as int, p);
                }
                self.peers.insert(i, p);
                proof {
                    assert forall|j: int| 0 <= j < self.peers@.len() implies (#[trigger] self.peers@[j]).reputation.wf() by {
                        if j != i { assert(self.peers@[j] == v0[j]); }
                    }
                }
            },
            None => {
                let first = address.clone();
                let mut p = PeerData::new_at(peer_id, first, now);
                let ghost a0 = p.addresses@;
                p.addresses.push(address);
                proof {
                    assert(texts(p.addresses@) =~= texts(a0).push(p.addresses@[a0.len() as int]@));
                    lemma_table_push(v0, p);
                }
                self.peers.push(p);
                proof {
                    assert forall|j: int| 0 <= j < self.peers@.len() implies (#[trigger] self.peers@[j]).reputation.wf() by {
                        if j < v0.len() { assert(self.peers@[j] == v0[j]); }
                    }
                }
            },
        }
    }

    /// Records `address` for a peer now.
    pub fn add_peer(&mut self, peer_id: Vec<u8>, address: String)
        requires
            old(self).wf(),
        ensures
            final(self).wf(),
            final(self).trusted() == old(self).trusted(),
            final(self).banned() == old(self).banned(),
            final(self).peers().dom() == old(self).peers().dom().insert(peer_id@),
            forall|k: Seq<u8>| k != peer_id@ && #[trigger] old(self).peers().contains_key(k) ==> final(self).peers()[k] == old(self).peers()[k],
            texts(final(self).peers()[peer_id@].addresses@).last() == address@,
    {
        let now = now_unix_nanos();
        self.add_peer_at(peer_id, address, now);
    }
}

impl DiscoveryManager {
    proof fn lemma_replace(&self, i: int, p: PeerData)
        requires
            self.wf(),
            0 <= i < self.peers@.len(),
            p.peer_id@ == self.peers@[i].peer_id@,
            p.reputation.wf(),
        ensures
            ids_distinct(self.peers@.update(i, p)),
            peer_table(self.peers@.update(i, p)) == self.peers().insert(p.peer_id@, p),
            forall|j: int| 0 <= j < self.peers@.update(i, p).len() ==> (#[trigger] self.peers@.update(i, p)[j]).reputation.wf(),
    {
        lemma_table_update(self.peers@, i, p);
        assert forall|j: int| 0 <= j < self.peers@.update(i, p).len() implies (#[trigger] self.peers@.update(i, p)[j]).reputation.wf() by {
            if j != i { assert(self.peers@.update(i, p)[j] == self.peers@[j]); }
        }
    }

    /// Applies `delta` to a known peer's reputation (raising it for a
    /// positive delta, lowering it otherwise) and updates whether the peer is
    /// trusted and whether it is banned. Unknown peers are ignored.
    pub fn update_peer_reputation(&mut self, peer_id: &Vec<u8>, delta: i32)
        requires
            old(self).wf(),
            old(self).peers().contains_key(peer_id@) ==> (if delta > 0 {
                old(self).peers()[peer_id@].reputation.spec_value() + delta <= i32::MAX
            } else {
                delta > i32::MIN && old(self).peers()[peer_id@].reputation.spec_value() + delta >= i32::MIN
            }),
        ensures
            final(self).wf(),
            !old(self).peers().contains_key(peer_id@) ==> final(self).peers() == old(self).peers()
                && final(self).trusted() == old(self).trusted() && final(self).banned() == old(self).banned(),
            old(self).peers().contains_key(peer_id@) ==> {
                let v = score_after(old(self).peers()[peer_id@].reputation.spec_value(), delta as int);
                &&& final(self).peers().dom() == old(self).peers().dom()
                &&& forall|k: Seq<u8>| k != peer_id@ && #[trigger] old(self).peers().contains_key(k) ==> final(self).peers()[k] == old(self).peers()[k]
                &&& final(self).peers()[peer_id@].reputation.spec_value() == v
                &&& final(self).peers()[peer_id@].connection_attempts == old(self).peers()[peer_id@].connection_attempts
                &&& final(self).peers()[peer_id@].connected == old(self).peers()[peer_id@].connected
                &&& final(self).trusted() == (if v >= TRUST_THRESHOLD { old(self).trusted().insert(peer_id@) } else { old(self).trusted().remove(peer_id@) })
                &&& final(self).banned() == (if v <= BAN_THRESHOLD { old(self).banned().insert(peer_id@) } else { old(self).banned().remove(peer_id@) })
            },
    {
        let ghost v0 = self.peers@;
        if let Some(i) = find_peer_index(&self.peers, peer_id) {
            proof {
                lemma_table_at(v0, i as int);
                self.peers@[i as int].reputation.lemma_wf_iff();
            }
            let mut p = self.peers.remove(i);
            if delta > 0 {
                p.reputation.increase(delta);
            } else {
                p.reputation.decrease(-delta);
            }
            proof { p.reputation.lemma_wf_iff(); }
            let trusted = p.reputation.is_trusted();
            let banned = p.reputation.is_banned();
            proof {
                assert(self.peers@.insert(i as int, p) =~= v0.update(i as int, p));
                old(self).lemma_replace(i as int, p);
            }
            self.peers.insert(i, p);
            if trusted {
                id_insert(&mut self.trusted_peers, peer_id);
            } else {
                id_remove(&mut self.trusted_peers, peer_id);
            }
            if banned {
                id_insert(&mut self.banned_peers, peer_id);
            } else {
                id_remove(&mut self.banned_peers, peer_id);
            }
            proof {
                let m = self.peers();
                assert forall|k: Seq<u8>| k != peer_id@ && #[trigger] old(self).peers().contains_key(k) implies m[k] == old(self).peers()[k] by {}
                assert(m.dom() =~= old(self).peers().dom());
            }
        }
    }

    /// Records a successful connection to a known peer at `now`: one more
    /// attempt and success, reputation raised by 10, connected, seen at
    /// `now`. Unknown peers are ignored.
    pub fn record_connection_success_at(&mut self, peer_id: &Vec<u8>, now: u64)
        requires
            old(self).wf(),
            old(self).peers().contains_key(peer_id@) ==> old(self).peers()[peer_id@].connection_attempts < u32::MAX
                && old(self).peers()[peer_id@].successful_connections < u32::MAX,
        ensures
            final(self).wf(),
            final(self).trusted() == old(self).trusted(),
            final(self).banned() == old(self).banned(),
            !old(self).peers().contains_key(peer_id@) ==> final(self).peers() == old(self).peers(),
            old(self).peers().contains_key(peer_id@) ==> {
                let (o, n) = (old(self).peers()[peer_id@], final(self).peers()[peer_id@]);
                &&& final(self).peers().dom() == old(self).peers().dom()
                &&& forall|k: Seq<u8>| k != peer_id@ && #[trigger] old(self).peers().contains_key(k) ==> final(self).peers()[k] == old(self).peers()[k]
                &&& n.connection_attempts == o.connection_attempts + 1
                &&& n.successful_connections == o.successful_connections + 1
                &&& n.reputation.spec_value() == score_after(o.reputation.spec_value(), 10)
                &&& n.connected
                &&& n.last_seen == now
                &&& n.first_discovered == o.first_discovered
            },
    {
        let ghost v0 = self.peers@;
        if let Some(i) = find_peer_index(&self.peers, peer_id) {
            proof { lemma_table_at(v0, i as int); }
            let mut p = self.peers.remove(i);
            p.record_connection_attempt(true);
            p.connected = true;
            p.update_last_seen_at(now);
            proof {
                assert(self.peers@.insert(i as int, p) =~= v0.update(i as int, p));
                old(self).lemma_replace(i as int, p);
            }
            self.peers.insert(i, p);
            proof {
                assert(self.peers().dom() =~= old(self).peers().dom());
            }
        }
    }

    /// Records a successful connection now.
    pub fn record_connection_success(&mut self, peer_id: &Vec<u8>)
        requires
            old(self).wf(),
            old(self).peers().contains_key(peer_id@) ==> old(self).peers()[peer_id@].connection_attempts < u32::MAX
                && old(self).peers()[peer_id@].successful_connections < u32::MAX,
        ensures
            final(self).wf(),
            final(self).trusted() == old(self).trusted(),
            final(self).banned() == old(self).banned(),
            !old(self).peers().contains_key(peer_id@) ==> final(self).peers() == old(self).peers(),
            old(self).peers().contains_key(peer_id@) ==> {
                let (o, n) = (old(self).peers()[peer_id@], final(self).peers()[peer_id@]);
                &&& final(self).peers().dom() == old(self).peers().dom()
                &&& n.connection_attempts == o.connection_attempts + 1
                &&& n.successful_connections == o.successful_connections + 1
                &&& n.reputation.spec_value() == score_after(o.reputation.spec_value(), 10)
                &&& n.connected
            },
    {
        let now = now_unix_nanos();
        self.record_connection_success_at(peer_id, now);
    }

    /// Records a failed connection to a known peer: one more attempt and
    /// reputation lowered by 5. Unknown peers are ignored.
    pub fn record_connection_failure(&mut self, peer_id: &Vec<u8>)
        requires
            old(self).wf(),
            old(self).peers().contains_key(peer_id@) ==> old(self).peers()[peer_id@].connection_attempts < u32::MAX,
        ensures
            final(self).wf(),
            final(self).trusted() == old(self).trusted(),
            final(self).banned() == old(self).banned(),
            !old(self).peers().contains_key(peer_id@) ==> final(self).peers() == old(self).peers(),
            old(self).peers().contains_key(peer_id@) ==> {
                let (o, n) = (old(self).peers()[peer_id@], final(self).peers()[peer_id@]);
                &&& final(self).peers().dom() == old(self).peers().dom()
                &&& forall|k: Seq<u8>| k != peer_id@ && #[trigger] old(self).peers().contains_key(k) ==> final(self).peers()[k] == old(self).peers()[k]
                &&& n.connection_attempts == o.connection_attempts + 1
                &&& n.successful_connections == o.successful_connections
                &&& n.reputation.spec_value() == score_after(o.reputation.spec_value(), -5)
                &&& n.connected == o.connected
                &&& n.last_seen == o.last_seen
            },
    {
        let ghost v0 = self.peers@;
        if let Some(i) = find_peer_index(&self.peers, peer_id) {
            proof { lemma_table_at(v0, i as int); }
            let mut p = self.peers.remove(i);
            p.record_connection_attempt(false);
            proof {
                assert(self.peers@.insert(i as int, p) =~= v0.update(i as int, p));
                old(self).lemma_replace(i as int, p);
            }
            self.peers.insert(i, p);
            proof {
                assert(self.peers().dom() =~= old(self).peers().dom());
            }
        }
    }

    /// A known peer's reputation, or the default score.
    pub fn get_peer_reputation(&self, peer_id: &Vec<u8>) -> (r: ReputationScore)
        requires
            self.wf(),
        ensures
            r.spec_value() == (if self.peers().contains_key(peer_id@) { self.peers()[peer_id@].reputation.spec_value() } else { 0 }),
    {
        match find_peer_index(&self.peers, peer_id) {
            Some(i) => {
                proof { lemma_table_at(self.peers@, i as int); }
                self.peers[i].reputation
            },
            None => ReputationScore::default(),
        }
    }

    /// Whether a peer is banned.
    pub fn is_peer_banned(&self, peer_id: &Vec<u8>) -> (r: bool)
        ensures
            r == self.banned().contains(peer_id@),
    {
        find_id(&self.banned_peers, peer_id).is_some()
    }

    /// A copy of what is known of a peer.
    pub fn get_peer_stats(&self, peer_id: &Vec<u8>) -> (r: Option<PeerData>)
        requires
            self.wf(),
        ensures
            r is Some <==> self.peers().contains_key(peer_id@),
            r matches Some(p) ==> same_peer(self.peers()[peer_id@], p),
    {
        match find_peer_index(&self.peers, peer_id) {
            Some(i) => {
                proof { lemma_table_at(self.peers@, i as int); }
                Some(copy_peer(&self.peers[i]))
            },
            None => None,
        }
    }

    /// The ids of the trusted peers.
    pub fn get_trusted_peers(&self) -> (r: Vec<Vec<u8>>)
        requires
            self.wf(),
        ensures
            views_distinct(r@),
            id_set(r@) == self.trusted(),
    {
        let mut out: Vec<Vec<u8>> = Vec::new();
        let mut i: usize = 0;
        while i < self.trusted_peers.len()
            invariant
                views_distinct(self.trusted_peers@),
                0 <= i <= self.trusted_peers@.len(),
                out@.len() == i,
                forall|j: int| 0 <= j < i ==> (#[trigger] out@[j])@ == self.trusted_peers@[j]@,
            decreases self.trusted_peers@.len() - i,
        {
            out.push(copy_bytes(&self.trusted_peers[i]));
            i = i + 1;
        }
        proof {
            assert forall|a: int, b: int| 0 <= a < out@.len() && 0 <= b < out@.len() && a != b implies (#[trigger] out@[a])@ != (#[trigger] out@[b])@ by {
                assert(self.trusted_peers@[a]@ != self.trusted_peers@[b]@);
            }
            assert forall|k: Seq<u8>| id_set(out@).contains(k) <==> self.trusted().contains(k) by {
                if id_set(out@).contains(k) {
                    let t = choose|t: int| 0 <= t < out@.len() && (#[trigger] out@[t])@ == k;
                    assert(self.trusted_peers@[t]@ == k);
                }
                if self.trusted().contains(k) {
                    let t = choose|t: int| 0 <= t < self.trusted_peers@.len() && (#[trigger] self.trusted_peers@[t])@ == k;
                    assert(out@[t]@ == k);
                }
            }
            assert(id_set(out@) =~= self.trusted());
        }
        out
    }
}

/// The peers of `m` the cleanup at `now` keeps.
pub open spec fn kept_peers(m: Map<Seq<u8>, PeerData>, now: u64) -> Map<Seq<u8>, PeerData> {
    Map::new(|k: Seq<u8>| m.contains_key(k) && keep_peer(m[k], now), |k: Seq<u8>| m[k])
}

/// The ids of the peers of `m` the cleanup at `now` forgets.
pub open spec fn dropped_peers(m: Map<Seq<u8>, PeerData>, now: u64) -> Set<Seq<u8>> {
    Set::new(|k: Seq<u8>| m.contains_key(k) && !keep_peer(m[k], now))
}

/// The ids of the records, in order.
pub open spec fn ids_of(v: Seq<PeerData>) -> Seq<Seq<u8>> {
    Seq::new(v.len(), |i: int| v[i].peer_id@)
}

proof fn lemma_table_dom(v: Seq<PeerData>)
    ensures
        peer_table(v).dom() == ids_of(v).to_set(),
        peer_table(v).dom().finite(),
{
    assert forall|k: Seq<u8>| peer_table(v).dom().contains(k) <==> ids_of(v).to_set().contains(k) by {
        if has_peer(v, k) {
            let t = choose|t: int| 0 <= t < v.len() && (#[trigger] v[t]).peer_id@ == k;
            assert(ids_of(v)[t] == k);
        }
        if ids_of(v).contains(k) {
            let t = choose|t: int| 0 <= t < ids_of(v).len() && ids_of(v)[t] == k;
            assert(v[t].peer_id@ == k);
        }
    }
    assert(peer_table(v).dom() =~= ids_of(v).to_set());
    vstd::seq_lib::seq_to_set_is_finite(ids_of(v));
}

/// The records of `orig[lo..]` kept by the cleanup at `now`.
pub open spec fn kept_from(orig: Seq<PeerData>, lo: int, now: u64) -> Map<Seq<u8>, PeerData> {
    Map::new(
        |k: Seq<u8>| exists|j: int| lo <= j < orig.len() && (#[trigger] orig[j]).peer_id@ == k && keep_peer(orig[j], now),
        |k: Seq<u8>| orig[choose|j: int| lo <= j < orig.len() && (#[trigger] orig[j]).peer_id@ == k],
    )
}

/// The ids of `orig[lo..]` dropped by the cleanup at `now`.
pub open spec fn dropped_from(orig: Seq<PeerData>, lo: int, now: u64) -> Set<Seq<u8>> {
    Set::new(|k: Seq<u8>| exists|j: int| lo <= j < orig.len() && (#[trigger] orig[j]).peer_id@ == k && !keep_peer(orig[j], now))
}

proof fn lemma_cleanup_step(orig: Seq<PeerData>, lo: int, now: u64)
    requires
        ids_distinct(orig),
        0 < lo <= orig.len(),
    ensures
        !kept_from(orig, lo, now).contains_key(orig[lo - 1].peer_id@),
        keep_peer(orig[lo - 1], now) ==> kept_from(orig, lo - 1, now) == kept_from(orig, lo, now).insert(orig[lo - 1].peer_id@, orig[lo - 1])
            && dropped_from(orig, lo - 1, now) == dropped_from(orig, lo, now),
        !keep_peer(orig[lo - 1], now) ==> kept_from(orig, lo - 1, now) == kept_from(orig, lo, now)
            && dropped_from(orig, lo - 1, now) == dropped_from(orig, lo, now).insert(orig[lo - 1].peer_id@),
{
    let a = kept_from(orig, lo, now);
    let b = kept_from(orig, lo - 1, now);
    let k0 = orig[lo - 1].peer_id@;
    if a.contains_key(k0) {
        let j = choose|j: int| lo <= j < orig.len() && (#[trigger] orig[j]).peer_id@ == k0 && keep_peer(orig[j], now);
        assert(orig[j].peer_id@ != orig[lo - 1].peer_id@);
    }
    assert forall|k: Seq<u8>| k != k0 implies (#[trigger] b.contains_key(k) <==> a.contains_key(k)) by {
        if b.contains_key(k) {
            let j = choose|j: int| lo - 1 <= j < orig.len() && (#[trigger] orig[j]).peer_id@ == k && keep_peer(orig[j], now);
            assert(j != lo - 1);
        }
    }
    assert forall|k: Seq<u8>| #[trigger] b.contains_key(k) implies b[k] == (if k == k0 { orig[lo - 1] } else { a[k] }) by {
        let jb = choose|j: int| lo - 1 <= j < orig.len() && (#[trigger] orig[j]).peer_id@ == k;
        assert(orig[jb].peer_id@ == k);
        if k == k0 {
            assert(jb == lo - 1);
        } else {
            let j = choose|j: int| lo - 1 <= j < orig.len() && (#[trigger] orig[j]).peer_id@ == k && keep_peer(orig[j], now);
            assert(lo <= j);
            let ja = choose|j: int| lo <= j < orig.len() && (#[trigger] orig[j]).peer_id@ == k;
            assert(orig[ja].peer_id@ == k);
            assert(ja == jb);
        }
    }
    let da = dropped_from(orig, lo, now);
    let db = dropped_from(orig, lo - 1, now);
    assert forall|k: Seq<u8>| k != k0 implies (#[trigger] db.contains(k) <==> da.contains(k)) by {
        if db.contains(k) {
            let j = choose|j: int| lo - 1 <= j < orig.len() && (#[trigger] orig[j]).peer_id@ == k && !keep_peer(orig[j], now);
            assert(j != lo - 1);
        }
    }
    if da.contains(k0) {
        let j = choose|j: int| lo <= j < orig.len() && (#[trigger] orig[j]).peer_id@ == k0 && !keep_peer(orig[j], now);
        assert(orig[j].peer_id@ != orig[lo - 1].peer_id@);
    }
    if keep_peer(orig[lo - 1], now) {
        assert(b.contains_key(k0));
        assert(b =~= a.insert(k0, orig[lo - 1]));
        assert forall|k: Seq<u8>| db.contains(k) <==> da.contains(k) by {
            if k == k0 && db.contains(k) {
                let j = choose|j: int| lo - 1 <= j < orig.len() && (#[trigger] orig[j]).peer_id@ == k && !keep_peer(orig[j], now);
                assert(j != lo - 1);
            }
        }
        assert(db =~= da);
    } else {
        assert forall|k: Seq<u8>| b.contains_key(k) <==> a.contains_key(k) by {
            if k == k0 && b.contains_key(k) {
                let j = choose|j: int| lo - 1 <= j < orig.len() && (#[trigger] orig[j]).peer_id@ == k && keep_peer(orig[j], now);
                assert(j != lo - 1);
            }
        }
        assert(b =~= a);
        assert(db.contains(k0));
        assert(db =~= da.insert(k0));
    }
}

impl DiscoveryManager {
    /// `r` lists dial candidates at `now`: as many as there are, up to the
    /// maximum number of peers.
    pub open spec fn dial_list(&self, r: Seq<Vec<u8>>, now: u64) -> bool {
        &&& forall|i: int| 0 <= i < r.len() ==> dial_candidate(self.peers(), self.banned(), (#[trigger] r[i])@, now)
        &&& ({
            let e = Set::new(|k: Seq<u8>| dial_candidate(self.peers(), self.banned(), k, now));
            r.len() == (if e.len() < self.max_peers_spec() { e.len() } else { self.max_peers_spec() as nat })
        })
    }

    /// The ids of known peers worth dialling at `now` that are neither
    /// banned nor connected, at most the maximum number of peers.
    pub fn get_peers_to_connect_at(&self, now: u64) -> (r: Vec<Vec<u8>>)
        requires
            self.wf(),
        ensures
            views_distinct(r@),
            self.dial_list(r@, now),
    {
        let ghost v = self.peers@;
        let ghost e = Set::new(|k: Seq<u8>| dial_candidate(self.peers(), self.banned(), k, now));
        let mut out: Vec<Vec<u8>> = Vec::new();
        let mut i: usize = 0;
        while i < self.peers.len() && out.len() < self.max_peers
            invariant
                self.wf(),
                v == self.peers@,
                e == Set::new(|k: Seq<u8>| dial_candidate(self.peers(), self.banned(), k, now)),
                0 <= i <= v.len(),
                out@.len() <= self.max_peers,
                views_distinct(out@),
                forall|t: int| 0 <= t < out@.len() ==> e.contains((#[trigger] out@[t])@),
                forall|t: int| 0 <= t < out@.len() ==> exists|j: int| 0 <= j < i && (#[trigger] out@[t])@ == v[j].peer_id@,
                forall|j: int| 0 <= j < i && e.contains((#[trigger] v[j]).peer_id@) ==> id_set(out@).contains(v[j].peer_id@),
            decreases v.len() - i,
        {
            proof { lemma_table_at(v, i as int); }
            let banned = self.is_peer_banned(&self.peers[i].peer_id);
            if !banned && !self.peers[i].connected && self.peers[i].should_connect_at(now) {
                let ghost before = out@;
                out.push(copy_bytes(&self.peers[i].peer_id));
                proof {
                    assert(e.contains(v[i as int].peer_id@));
                    assert forall|a: int, b: int| 0 <= a < out@.len() && 0 <= b < out@.len() && a != b implies (#[trigger] out@[a])@ != (#[trigger] out@[b])@ by {
                        if a < before.len() && b < before.len() {
                            assert(out@[a] == before[a] && out@[b] == before[b]);
                        } else if a < before.len() {
                            let j = choose|j: int| 0 <= j < i && (#[trigger] before[a])@ == v[j].peer_id@;
                            assert(out@[a] == before[a]);
                            assert(v[j].peer_id@ != v[i as int].peer_id@);
                        } else if b < before.len() {
                            let j = choose|j: int| 0 <= j < i && (#[trigger] before[b])@ == v[j].peer_id@;
                            assert(out@[b] == before[b]);
                            assert(v[j].peer_id@ != v[i as int].peer_id@);
                        }
                    }
                    assert forall|t: int| 0 <= t < out@.len() implies exists|j: int| 0 <= j < i + 1 && (#[trigger] out@[t])@ == v[j].peer_id@ by {
                        if t < before.len() {
                            let j = choose|j: int| 0 <= j < i && (#[trigger] before[t])@ == v[j].peer_id@;
                            assert(out@[t] == before[t]);
                        } else {
                            assert(out@[t]@ == v[i as int].peer_id@);
                        }
                    }
                    assert forall|j: int| 0 <= j < i + 1 && e.contains((#[trigger] v[j]).peer_id@) implies id_set(out@).contains(v[j].peer_id@) by {
                        if j < i {
                            let t = choose|t: int| 0 <= t < before.len() && (#[trigger] before[t])@ == v[j].peer_id@;
                            assert(out@[t] == before[t]);
                        } else {
                            assert(out@[before.len() as int]@ == v[j].peer_id@);
                        }
                    }
                }
            } else {
                proof {
                    assert(!e.contains(v[i as int].peer_id@));
                }
            }
            i = i + 1;
        }
        proof {
            lemma_table_dom(v);
            let ov = Seq::new(out@.len(), |t: int| out@[t]@);
            assert(ov.no_duplicates()) by {
                assert forall|a: int, b: int| 0 <= a < ov.len() && 0 <= b < ov.len() && a != b implies ov[a] != ov[b] by {
                    assert(out@[a]@ != out@[b]@);
                }
            }
            ov.unique_seq_to_set();
            assert(ov.to_set() =~= id_set(out@)) by {
                assert forall|k: Seq<u8>| ov.to_set().contains(k) <==> id_set(out@).contains(k) by {
                    if ov.contains(k) {
                        let t = choose|t: int| 0 <= t < ov.len() && ov[t] == k;
                        assert(out@[t]@ == k);
                    }
                    if id_set(out@).contains(k) {
                        let t = choose|t: int| 0 <= t < out@.len() && (#[trigger] out@[t])@ == k;
                        assert(ov[t] == k);
                    }
                }
            }
            assert(id_set(out@).subset_of(e));
            assert(e.subset_of(self.peers().dom()));
            vstd::set_lib::lemma_len_subset(e, self.peers().dom());
            vstd::set_lib::lemma_len_subset(id_set(out@), e);
            if out@.len() < self.max_peers {
                assert(i == v.len());
                assert forall|k: Seq<u8>| e.contains(k) implies id_set(out@).contains(k) by {
                    let j = choose|j: int| 0 <= j < v.len() && (#[trigger] v[j]).peer_id@ == k;
                }
                assert(e =~= id_set(out@));
            }
        }
        out
    }

    /// `get_peers_to_connect_at` at the current time.
    pub fn get_peers_to_connect(&self) -> (r: Vec<Vec<u8>>)
        requires
            self.wf(),
        ensures
            views_distinct(r@),
            exists|now: u64| #[trigger] self.dial_list(r@, now),
    {
        let now = now_unix_nanos();
        let r = self.get_peers_to_connect_at(now);
        assert(self.dial_list(r@, now));
        r
    }

    /// Forgets, at `now`, the peers discovered more than seven days ago that
    /// never connected and are not trusted, along with their trusted and
    /// banned marks.
    pub fn cleanup_stale_peers_at(&mut self, now: u64)
        requires
            old(self).wf(),
        ensures
            final(self).wf(),
            final(self).peers() == kept_peers(old(self).peers(), now),
            final(self).trusted() == old(self).trusted().difference(dropped_peers(old(self).peers(), now)),
            final(self).banned() == old(self).banned().difference(dropped_peers(old(self).peers(), now)),
            final(self).seeds() == old(self).seeds(),
            final(self).bootstrap() == old(self).bootstrap(),
    {
        let ghost orig = self.peers@;
        let ghost t0 = id_set(self.trusted_peers@);
        let ghost b0 = id_set(self.banned_peers@);
        let mut kept: Vec<PeerData> = Vec::new();
        proof {
            assert(peer_table(kept@) =~= kept_from(orig, orig.len() as int, now));
            assert(dropped_from(orig, orig.len() as int, now) =~= Set::<Seq<u8>>::empty());
            assert(t0.difference(Set::<Seq<u8>>::empty()) =~= t0);
            assert(b0.difference(Set::<Seq<u8>>::empty()) =~= b0);
        }
        while self.peers.len() > 0
            invariant
                ids_distinct(orig),
                forall|i: int| 0 <= i < orig.len() ==> (#[trigger] orig[i]).reputation.wf(),
                self.peers@.len() <= orig.len(),
                self.peers@ == orig.subrange(0, self.peers@.len() as int),
                ids_distinct(kept@),
                forall|i: int| 0 <= i < kept@.len() ==> (#[trigger] kept@[i]).reputation.wf(),
                peer_table(kept@) == kept_from(orig, self.peers@.len() as int, now),
                views_distinct(self.trusted_peers@),
                views_distinct(self.banned_peers@),
                id_set(self.trusted_peers@) == t0.difference(dropped_from(orig, self.peers@.len() as int, now)),
                id_set(self.banned_peers@) == b0.difference(dropped_from(orig, self.peers@.len() as int, now)),
                self.dns_seeds@ == old(self).dns_seeds@,
                self.bootstrap_peers@ == old(self).bootstrap_peers@,
            decreases self.peers@.len(),
        {
            let ghost lo = self.peers@.len() as int;
            let p = self.peers.pop().unwrap();
            proof {
                assert(p == orig[lo - 1]);
                assert(self.peers@ =~= orig.subrange(0, lo - 1));
                lemma_cleanup_step(orig, lo, now);
            }
            let keep = (p.first_discovered as u128) + (STALE_AFTER_NANOS as u128) > (now as u128)
                || p.successful_connections > 0 || p.reputation.is_trusted();
            if keep {
                proof {
                    assert(!has_peer(kept@, p.peer_id@)) by {
                        if has_peer(kept@, p.peer_id@) {
                            let t = choose|t: int| 0 <= t < kept@.len() && (#[trigger] kept@[t]).peer_id@ == p.peer_id@;
                            lemma_table_at(kept@, t);
                        }
                    }
                    lemma_table_push(kept@, p);
                }
                let ghost before = kept@;
                kept.push(p);
                proof {
                    assert forall|i: int| 0 <= i < kept@.len() implies (#[trigger] kept@[i]).reputation.wf() by {
                        if i < before.len() { assert(kept@[i] == before[i]); }
                    }
                }
            } else {
                id_remove(&mut self.trusted_peers, &p.peer_id);
                id_remove(&mut self.banned_peers, &p.peer_id);
                proof {
                    let d = dropped_from(orig, lo, now);
                    assert(t0.difference(d).remove(p.peer_id@) =~= t0.difference(d.insert(p.peer_id@)));
                    assert(b0.difference(d).remove(p.peer_id@) =~= b0.difference(d.insert(p.peer_id@)));
                }
            }
        }
        self.peers = kept;
        proof {
            let m = old(self).peers();
            let target = kept_peers(m, now);
            let dropped = dropped_peers(m, now);
            assert forall|k: Seq<u8>| kept_from(orig, 0, now).contains_key(k) <==> target.contains_key(k) by {
                if kept_from(orig, 0, now).contains_key(k) {
                    let j = choose|j: int| 0 <= j < orig.len() && (#[trigger] orig[j]).peer_id@ == k && keep_peer(orig[j], now);
                    lemma_table_at(orig, j);
                }
                if target.contains_key(k) {
                    let j = choose|j: int| 0 <= j < orig.len() && (#[trigger] orig[j]).peer_id@ == k;
                    lemma_table_at(orig, j);
                }
            }
            assert forall|k: Seq<u8>| #[trigger] kept_from(orig, 0, now).contains_key(k) implies kept_from(orig, 0, now)[k] == target[k] by {
                let j = choose|j: int| 0 <= j < orig.len() && (#[trigger] orig[j]).peer_id@ == k;
                lemma_table_at(orig, j);
            }
            assert(kept_from(orig, 0, now) =~= target);
            assert forall|k: Seq<u8>| dropped_from(orig, 0, now).contains(k) <==> dropped.contains(k) by {
                if dropped_from(orig, 0, now).contains(k) {
                    let j = choose|j: int| 0 <= j < orig.len() && (#[trigger] orig[j]).peer_id@ == k && !keep_peer(orig[j], now);
                    lemma_table_at(orig, j);
                }
                if dropped.contains(k) {
                    let j = choose|j: int| 0 <= j < orig.len() && (#[trigger] orig[j]).peer_id@ == k;
                    lemma_table_at(orig, j);
                }
            }
            assert(dropped_from(orig, 0, now) =~= dropped);
        }
    }

    /// `cleanup_stale_peers_at` at the current time.
    pub fn cleanup_stale_peers(&mut self)
        requires
            old(self).wf(),
        ensures
            final(self).wf(),
            exists|now: u64| final(self).peers() == #[trigger] kept_peers(old(self).peers(), now),
            final(self).seeds() == old(self).seeds(),
            final(self).bootstrap() == old(self).bootstrap(),
    {
        let now = now_unix_nanos();
        self.cleanup_stale_peers_at(now);
        assert(self.peers() == kept_peers(old(self).peers(), now));
    }
}

proof fn lemma_first_marker(a: Seq<char>, p: int)
    requires
        marker_at(a, p),
        forall|t: int| 0 <= t < p ==> !#[trigger] marker_at(a, t),
    ensures
        first_marker(a) == p,
{
    let c = first_marker(a);
    assert(marker_at(a, c) && forall|t: int| 0 <= t < c ==> !#[trigger] marker_at(a, t));
    if c < p {
        assert(!marker_at(a, c));
    } else if c > p {
        assert(!marker_at(a, p));
    }
}

proof fn lemma_first_slash(a: Seq<char>, q: int)
    requires
        0 <= q < a.len(),
        a[q] == '/',
        forall|t: int| 0 <= t < q ==> #[trigger] a[t] != '/',
    ensures
        first_slash(a) == q,
{
    let c = first_slash(a);
    assert(0 <= c < a.len() && a[c] == '/' && forall|t: int| 0 <= t < c ==> #[trigger] a[t] != '/');
    if c < q {
        assert(a[c] != '/');
    } else if c > q {
        assert(a[q] != '/');
    }
}

/// Whether `/p2p/` starts at position `p` of `s` (which has `n` characters).
fn marker_here(s: &str, n: usize, p: usize) -> (r: bool)
    requires
        n == s@.len(),
        p + 5 <= n,
    ensures
        r == marker_at(s@, p as int),
{
    let r = s.get_char(p) == '/' && s.get_char(p + 1) == 'p' && s.get_char(p + 2) == '2'
        && s.get_char(p + 3) == 'p' && s.get_char(p + 4) == '/';
    proof {
        let sub = s@.subrange(p as int, p + 5);
        if r {
            assert(sub =~= p2p_marker());
        } else if sub == p2p_marker() {
            assert(sub[0] == s@[p as int] && sub[1] == s@[p + 1] && sub[2] == s@[p + 2] && sub[3] == s@[p + 3] && sub[4] == s@[p + 4]);
        }
    }
    r
}

impl DiscoveryManager {
    /// The peer id a multiaddress carries after `/p2p/`, if any.
    pub fn parse_multiaddr(addr: &str) -> (r: Option<String>)
        ensures
            match r {
                Some(t) => multiaddr_peer(addr@) == Some(t@),
                None => multiaddr_peer(addr@) is None,
            },
    {
        let n = addr.unicode_len();
        let ghost a = addr@;
        let mut p: usize = 0;
        let mut found = false;
        while !found && n >= 5 && p <= n - 5
            invariant
                p <= n,
                n == a.len(),
                a == addr@,
                found ==> p + 5 <= n && marker_at(a, p as int),
                forall|t: int| 0 <= t < p ==> !#[trigger] marker_at(a, t),
            decreases n + 1 - p - (if found { 1int } else { 0 }),
        {
            if marker_here(addr, n, p) {
                found = true;
            } else {
                p = p + 1;
            }
            assert(p <= n);
        }
        if !found {
            proof {
                assert forall|t: int| !#[trigger] marker_at(a, t) by {
                    if marker_at(a, t) {
                        assert(t < p);
                    }
                }
            }
            return None;
        }
        proof { lemma_first_marker(a, p as int); }
        let rest = addr.substring_char(p + 5, n);
        let ghost rs = rest@;
        let m = rest.unicode_len();
        let mut q: usize = 0;
        while q < m && rest.get_char(q) != '/'
            invariant
                m == rs.len(),
                rs == rest@,
                0 <= q <= m,
                forall|t: int| 0 <= t < q ==> #[trigger] rs[t] != '/',
            decreases m - q,
        {
            q = q + 1;
        }
        if q < m {
            proof { lemma_first_slash(rs, q as int); }
            let id = rest.substring_char(0, q);
            Some(String::from_str(id))
        } else {
            proof {
                assert forall|t: int| 0 <= t < rs.len() implies #[trigger] rs[t] != '/' by {}
            }
            Some(String::from_str(rest))
        }
    }
}

} // verus!
