//! Per-address protection against denial of service: connection limits,
//! request rate limits, bandwidth limits and temporary bans after repeated
//! violations.
//!
//! Addresses are keyed by their family (4 or 6) and their bits; times are
//! nanoseconds on a monotonic clock started when the protection is made.
use vstd::prelude::*;
use crate::kv::{keys_distinct, kv_has, kv_map, lemma_kv_at, lemma_kv_set, lemma_kv_push, lemma_kv_remove, lemma_kv_len};
use crate::hashing::{instant_now, nanos_since};

verus! {

/// An IP address: its family (4 or 6) and its bits.
pub type IpKey = (u8, u128);

/// Nanoseconds in a second.
pub const NANOS_PER_SEC: u64 = 1_000_000_000;

/// Violations after which an address is banned.
pub const BAN_AFTER_VIOLATIONS: u32 = 3;

/// Limits the protection enforces.
#[derive(Debug, Clone, Copy)]
pub struct DosProtectionConfig {
    /// Maximum connections per IP.
    pub max_connections_per_ip: u32,
    /// Maximum requests per second per IP.
    pub max_requests_per_second: u32,
    /// Maximum bytes per second per IP.
    pub max_bandwidth_per_second: u64,
    /// How long a ban lasts.
    pub ban_duration_seconds: u64,
    /// How often old entries are cleaned up.
    pub cleanup_interval_seconds: u64,
    /// Maximum number of tracked IPs.
    pub max_tracked_ips: usize,
}

impl Default for DosProtectionConfig {
    /// Ten connections, a hundred requests and 10 MiB per second, one-hour
    /// bans, five-minute cleanups and at most ten thousand tracked addresses.
    fn default() -> (r: DosProtectionConfig)
        ensures
            r.max_connections_per_ip == 10,
            r.max_requests_per_second == 100,
            r.max_bandwidth_per_second == 10 * 1024 * 1024,
            r.ban_duration_seconds == 3600,
            r.cleanup_interval_seconds == 300,
            r.max_tracked_ips == 10000,
    {
        DosProtectionConfig {
            max_connections_per_ip: 10,
            max_requests_per_second: 100,
            max_bandwidth_per_second: 10 * 1024 * 1024,
            ban_duration_seconds: 3600,
            cleanup_interval_seconds: 300,
            max_tracked_ips: 10000,
        }
    }
}

/// Why a connection or request was refused.
#[derive(Debug, Clone, PartialEq, Eq, Structural)]
pub enum DosError {
    /// The address is banned for this many more seconds.
    Banned { remaining_seconds: u64 },
    ConnectionLimitExceeded,
    RateLimitExceeded,
    BandwidthLimitExceeded,
}

/// Counters of what the protection has done.
#[derive(Debug, Clone, Copy)]
pub struct DosStats {
    pub tracked_ips: usize,
    pub total_violations: u64,
    pub bans_issued: u64,
    pub blocked_connections: u64,
    pub blocked_requests: u64,
}

impl Default for DosStats {
    /// All counters at zero.
    fn default() -> (r: DosStats)
        ensures
            r.tracked_ips == 0,
            r.total_violations == 0,
            r.bans_issued == 0,
            r.blocked_connections == 0,
            r.blocked_requests == 0,
    {
        DosStats { tracked_ips: 0, total_violations: 0, bans_issued: 0, blocked_connections: 0, blocked_requests: 0 }
    }
}

/// What is known of one address.
pub struct PeerView {
    pub connections: u32,
    pub request_times: Seq<u64>,
    pub bytes_sent: u64,
    pub bytes_received: u64,
    pub last_activity: u64,
    pub banned_until: Option<u128>,
    pub violations: u32,
}

/// The state kept for one address.
struct PeerState {
    connections: u32,
    request_times: Vec<u64>,
    bytes_sent: u64,
    bytes_received: u64,
    last_activity: u64,
    banned_until: Option<u128>,
    violations: u32,
}

impl View for PeerState {
    type V = PeerView;

    closed spec fn view(&self) -> PeerView {
        PeerView {
            connections: self.connections,
            request_times: self.request_times@,
            bytes_sent: self.bytes_sent,
            bytes_received: self.bytes_received,
            last_activity: self.last_activity,
            banned_until: self.banned_until,
            violations: self.violations,
        }
    }
}

/// The state of an address seen for the first time at `now`.
pub open spec fn fresh_peer(now: u64) -> PeerView {
    PeerView {
        connections: 0,
        request_times: Seq::empty(),
        bytes_sent: 0,
        bytes_received: 0,
        last_activity: now,
        banned_until: None,
        violations: 0,
    }
}

/// The state of `ip` in `m`, or a fresh one.
pub open spec fn peer_or_fresh(m: Map<IpKey, PeerView>, ip: IpKey, now: u64) -> PeerView {
    if m.contains_key(ip) { m[ip] } else { fresh_peer(now) }
}

/// A ban is in force at `now`.
pub open spec fn ban_active(p: PeerView, now: u64) -> bool {
    p.banned_until matches Some(b) && (now as int) < b
}

/// Whole seconds from `now` until `until` (saturating at `u64::MAX`).
pub open spec fn remaining_secs(until: u128, now: u64) -> u64 {
    let d = (until - now) / (NANOS_PER_SEC as int);
    if d > u64::MAX { u64::MAX } else { d as u64 }
}

/// One more violation at `now`; the third and later ones ban the address
/// for the configured duration.
pub open spec fn with_violation(p: PeerView, now: u64, cfg: DosProtectionConfig) -> PeerView {
    PeerView {
        violations: (p.violations + 1) as u32,
        banned_until: if p.violations + 1 >= BAN_AFTER_VIOLATIONS {
            Some((now + cfg.ban_duration_seconds * NANOS_PER_SEC) as u128)
        } else {
            p.banned_until
        },
        ..p
    }
}

/// The counters after a violation by a peer in state `p`.
pub open spec fn stats_after_violation(s: DosStats, p: PeerView) -> DosStats {
    DosStats {
        total_violations: (s.total_violations + 1) as u64,
        bans_issued: if p.violations + 1 >= BAN_AFTER_VIOLATIONS { (s.bans_issued + 1) as u64 } else { s.bans_issued },
        ..s
    }
}

/// A peer whose ban has lapsed starts over.
pub open spec fn lapsed_ban_cleared(p: PeerView) -> PeerView {
    if p.banned_until is Some { PeerView { banned_until: None, violations: 0, ..p } } else { p }
}

/// The peer after a connection attempt at `now`.
pub open spec fn conn_next(p: PeerView, now: u64, cfg: DosProtectionConfig) -> PeerView {
    if ban_active(p, now) {
        p
    } else {
        let q = lapsed_ban_cleared(p);
        if q.connections >= cfg.max_connections_per_ip {
            with_violation(q, now, cfg)
        } else {
            PeerView { connections: (q.connections + 1) as u32, last_activity: now, ..q }
        }
    }
}

/// The answer to a connection attempt at `now`.
pub open spec fn conn_result(p: PeerView, now: u64, cfg: DosProtectionConfig) -> Result<(), DosError> {
    if ban_active(p, now) {
        Err(DosError::Banned { remaining_seconds: remaining_secs(p.banned_until->0, now) })
    } else if lapsed_ban_cleared(p).connections >= cfg.max_connections_per_ip {
        Err(DosError::ConnectionLimitExceeded)
    } else {
        Ok(())
    }
}

/// The counters after a connection attempt at `now`.
pub open spec fn conn_stats(s: DosStats, p: PeerView, now: u64, cfg: DosProtectionConfig) -> DosStats {
    if ban_active(p, now) {
        DosStats { blocked_connections: (s.blocked_connections + 1) as u64, ..s }
    } else if lapsed_ban_cleared(p).connections >= cfg.max_connections_per_ip {
        stats_after_violation(s, lapsed_ban_cleared(p))
    } else {
        s
    }
}

/// The request times of the last second before `now`, in order.
pub open spec fn recent_times(ts: Seq<u64>, now: u64) -> Seq<u64>
    decreases ts.len(),
{
    if ts.len() == 0 {
        Seq::empty()
    } else {
        let rest = recent_times(ts.drop_last(), now);
        if within_second(ts.last(), now) { rest.push(ts.last()) } else { rest }
    }
}

/// `t` lies less than a second before `now` (or after it).
pub open spec fn within_second(t: u64, now: u64) -> bool {
    now < t || now - t < NANOS_PER_SEC
}

/// The peer after a request at `now`.
pub open spec fn req_next(p: PeerView, now: u64, cfg: DosProtectionConfig) -> PeerView {
    if ban_active(p, now) {
        p
    } else {
        let q = PeerView { request_times: recent_times(p.request_times, now), ..p };
        if q.request_times.len() >= cfg.max_requests_per_second {
            with_violation(q, now, cfg)
        } else {
            PeerView { request_times: q.request_times.push(now), last_activity: now, ..q }
        }
    }
}

/// The answer to a request at `now`.
pub open spec fn req_result(p: PeerView, now: u64, cfg: DosProtectionConfig) -> Result<(), DosError> {
    if ban_active(p, now) {
        Err(DosError::Banned { remaining_seconds: remaining_secs(p.banned_until->0, now) })
    } else if recent_times(p.request_times, now).len() >= cfg.max_requests_per_second {
        Err(DosError::RateLimitExceeded)
    } else {
        Ok(())
    }
}

/// The counters after a request at `now`.
pub open spec fn req_stats(s: DosStats, p: PeerView, now: u64, cfg: DosProtectionConfig) -> DosStats {
    if ban_active(p, now) {
        DosStats { blocked_requests: (s.blocked_requests + 1) as u64, ..s }
    } else if recent_times(p.request_times, now).len() >= cfg.max_requests_per_second {
        stats_after_violation(s, PeerView { request_times: recent_times(p.request_times, now), ..p })
    } else {
        s
    }
}

/// The peer with traffic recorded at `now`, before the limit is checked.
pub open spec fn with_traffic(p: PeerView, sent: u64, received: u64, now: u64) -> PeerView {
    PeerView {
        bytes_sent: (p.bytes_sent + sent) as u64,
        bytes_received: (p.bytes_received + received) as u64,
        last_activity: now,
        ..p
    }
}

/// The recorded traffic is over the limit.
pub open spec fn over_bandwidth(q: PeerView, cfg: DosProtectionConfig) -> bool {
    q.bytes_sent + q.bytes_received > cfg.max_bandwidth_per_second
}

/// The peer after traffic is recorded at `now`.
pub open spec fn bw_next(p: PeerView, sent: u64, received: u64, now: u64, cfg: DosProtectionConfig) -> PeerView {
    let q = with_traffic(p, sent, received, now);
    if over_bandwidth(q, cfg) { with_violation(q, now, cfg) } else { q }
}

/// The counters after traffic is recorded at `now`.
pub open spec fn bw_stats(s: DosStats, p: PeerView, sent: u64, received: u64, now: u64, cfg: DosProtectionConfig) -> DosStats {
    let q = with_traffic(p, sent, received, now);
    if over_bandwidth(q, cfg) { stats_after_violation(s, q) } else { s }
}

/// Nanoseconds since the peer was last active (0 if the clock reads earlier).
pub open spec fn idle_for(p: PeerView, now: u64) -> int {
    if now >= p.last_activity { now - p.last_activity } else { 0 }
}

/// The peer has been idle for more than twice the cleanup interval.
pub open spec fn is_stale(p: PeerView, now: u64, cfg: DosProtectionConfig) -> bool {
    idle_for(p, now) > cfg.cleanup_interval_seconds * 2 * NANOS_PER_SEC
}

/// A peer idle for more than a second has its traffic counters reset.
pub open spec fn refreshed(p: PeerView, now: u64) -> PeerView {
    if idle_for(p, now) > NANOS_PER_SEC { PeerView { bytes_sent: 0, bytes_received: 0, ..p } } else { p }
}

/// The tracked peers once stale ones are dropped and idle ones refreshed.
pub open spec fn swept(m: Map<IpKey, PeerView>, now: u64, cfg: DosProtectionConfig) -> Map<IpKey, PeerView> {
    Map::new(|k: IpKey| m.contains_key(k) && !is_stale(m[k], now, cfg), |k: IpKey| refreshed(m[k], now))
}

/// `after` keeps the most recently active peers of `before`, at most `max`
/// of them, with their values.
pub open spec fn trimmed(before: Map<IpKey, PeerView>, after: Map<IpKey, PeerView>, max: nat) -> bool {
    &&& after.dom().subset_of(before.dom())
    &&& forall|k: IpKey| #[trigger] after.contains_key(k) ==> after[k] == before[k]
    &&& before.dom().len() <= max ==> after.dom() == before.dom()
    &&& before.dom().len() > max ==> after.dom().len() == max
    &&& forall|r: IpKey, k: IpKey| before.contains_key(r) && !after.contains_key(r) && #[trigger] after.contains_key(k)
        ==> #[trigger] before[r].last_activity <= before[k].last_activity
}

/// The counters can each take one more event.
pub open spec fn stats_have_room(s: DosStats) -> bool {
    &&& s.total_violations < u64::MAX
    &&& s.bans_issued < u64::MAX
    &&& s.blocked_connections < u64::MAX
    &&& s.blocked_requests < u64::MAX
}

/// Per-address protection state.
pub struct DosProtection {
    config: DosProtectionConfig,
    peer_states: Vec<(IpKey, PeerState)>,
    stats: DosStats,
    origin: std::time::Instant,
}

impl DosProtection {
    /// The tracked addresses and their states.
    pub closed spec fn peers(self) -> Map<IpKey, PeerView> {
        peer_views(self.peer_states@)
    }

    /// The limits in force.
    pub closed spec fn config_of(self) -> DosProtectionConfig {
        self.config
    }

    /// The counters.
    pub closed spec fn stats_of(self) -> DosStats {
        self.stats
    }

    /// Each address is tracked once, and no address holds more connections
    /// or recent requests than the limits allow.
    pub closed spec fn wf(self) -> bool {
        &&& keys_distinct(self.peer_states@)
        &&& forall|i: int| 0 <= i < self.peer_states@.len() ==> peer_within_limits((#[trigger] self.peer_states@[i]).1@, self.config)
    }

    /// Counting one more event for `ip` cannot overflow.
    pub open spec fn has_room(self, ip: IpKey) -> bool {
        &&& stats_have_room(self.stats_of())
        &&& (self.peers().contains_key(ip) ==> self.peers()[ip].violations < u32::MAX)
    }

    /// A ban on `ip` is in force at `now`.
    pub open spec fn banned_at(self, ip: IpKey, now: u64) -> bool {
        self.peers().contains_key(ip) && ban_active(self.peers()[ip], now)
    }

    /// Recording `sent` and `received` bytes for `ip` cannot overflow.
    pub open spec fn traffic_fits(self, ip: IpKey, sent: u64, received: u64) -> bool {
        let p = peer_or_fresh(self.peers(), ip, 0);
        &&& p.bytes_sent + sent <= u64::MAX
        &&& p.bytes_received + received <= u64::MAX
        &&& p.bytes_sent + sent + p.bytes_received + received <= u64::MAX
    }

    proof fn lemma_peer_at(self, i: int)
        requires
            keys_distinct(self.peer_states@),
            0 <= i < self.peer_states@.len(),
        ensures
            self.peers().contains_key(self.peer_states@[i].0),
            self.peers()[self.peer_states@[i].0] == self.peer_states@[i].1@,
    {
        lemma_kv_at(self.peer_states@, i);
    }

    /// A protection with no tracked addresses and zeroed counters.
    pub fn new(config: DosProtectionConfig) -> (r: DosProtection)
        ensures
            r.wf(),
            r.peers() == Map::<IpKey, PeerView>::empty(),
            r.config_of() == config,
            r.stats_of() == (DosStats { tracked_ips: 0, total_violations: 0, bans_issued: 0, blocked_connections: 0, blocked_requests: 0 }),
    {
        let r = DosProtection { config, peer_states: Vec::new(), stats: DosStats::default(), origin: instant_now() };
        proof {
            assert(r.peers() =~= Map::<IpKey, PeerView>::empty());
        }
        r
    }

    /// The counters.
    pub fn get_stats(&self) -> (r: DosStats)
        ensures
            r == self.stats_of(),
    {
        self.stats
    }

    /// Nanoseconds since the protection was made.
    fn clock(&self) -> u64 {
        nanos_since(&self.origin)
    }

    /// The position of `ip` among the tracked addresses.
    fn find_peer(&self, ip: IpKey) -> (r: Option<usize>)
        ensures
            r matches Some(i) ==> i < self.peer_states@.len() && self.peer_states@[i as int].0 == ip,
            r is None ==> !kv_has(self.peer_states@, ip),
    {
        let mut i: usize = 0;
        while i < self.peer_states.len()
            invariant
                0 <= i <= self.peer_states@.len(),
                forall|j: int| 0 <= j < i ==> self.peer_states@[j].0 != ip,
            decreases self.peer_states@.len() - i,
        {
            let k = self.peer_states[i].0;
            if k.0 == ip.0 && k.1 == ip.1 {
                return Some(i);
            }
            i = i + 1;
        }
        None
    }

    /// Takes the state of `ip` out of the table (a fresh one if it is not
    /// tracked), leaving a gap at the returned position.
    fn take_peer(&mut self, ip: IpKey, now: u64) -> (r: (usize, PeerState))
        requires
            old(self).wf(),
        ensures
            r.1@ == peer_or_fresh(old(self).peers(), ip, now),
            r.0 <= final(self).peer_states@.len(),
            keys_distinct(final(self).peer_states@.insert(r.0 as int, (ip, r.1))),
            kv_map(final(self).peer_states@.insert(r.0 as int, (ip, r.1))).map_values(|p: PeerState| p@) == old(self).peers().insert(ip, r.1@),
            peer_within_limits(r.1@, old(self).config),
            forall|i: int| 0 <= i < final(self).peer_states@.len() ==> peer_within_limits((#[trigger] final(self).peer_states@[i]).1@, old(self).config),
            final(self).config == old(self).config,
            final(self).stats == old(self).stats,
    {
        let ghost v0 = self.peer_states@;
        match self.find_peer(ip) {
            Some(i) => {
                proof { self.lemma_peer_at(i as int); }
                let entry = self.peer_states.remove(i);
                proof {
                    assert(entry == v0[i as int]);
                    assert(self.peer_states@.insert(i as int, entry) =~= v0);
                    assert forall|j: int| 0 <= j < self.peer_states@.len() implies peer_within_limits((#[trigger] self.peer_states@[j]).1@, old(self).config) by {
                        if j < i { assert(self.peer_states@[j] == v0[j]); } else { assert(self.peer_states@[j] == v0[j + 1]); }
                    }
                    assert(peer_within_limits(v0[i as int].1@, old(self).config));
                    assert(old(self).peers().insert(ip, entry.1@) =~= old(self).peers());
                }
                (i, entry.1)
            },
            None => {
                let st = PeerState {
                    connections: 0,
                    request_times: Vec::new(),
                    bytes_sent: 0,
                    bytes_received: 0,
                    last_activity: now,
                    banned_until: None,
                    violations: 0,
                };
                let n = self.peer_states.len();
                proof {
                    assert(st@.request_times =~= Seq::<u64>::empty());
                    lemma_kv_push(v0, ip, st);
                    assert(v0.insert(n as int, (ip, st)) =~= v0.push((ip, st)));
                    assert(kv_map(v0.push((ip, st))).map_values(|p: PeerState| p@) =~= peer_views(v0).insert(ip, st@));
                    assert(!old(self).peers().contains_key(ip));
                }
                (n, st)
            },
        }
    }

    /// Puts the state of `ip` back into the gap left by `take_peer`.
    fn put_peer(&mut self, i: usize, ip: IpKey, st: PeerState)
        requires
            i <= old(self).peer_states@.len(),
            keys_distinct(old(self).peer_states@.insert(i as int, (ip, st))),
            forall|j: int| 0 <= j < old(self).peer_states@.len() ==> peer_within_limits((#[trigger] old(self).peer_states@[j]).1@, old(self).config),
            peer_within_limits(st@, old(self).config),
        ensures
            final(self).peer_states@ == old(self).peer_states@.insert(i as int, (ip, st)),
            final(self).wf(),
            final(self).config == old(self).config,
            final(self).stats == old(self).stats,
    {
        let ghost v0 = self.peer_states@;
        self.peer_states.insert(i, (ip, st));
        proof {
            assert forall|j: int| 0 <= j < self.peer_states@.len() implies peer_within_limits((#[trigger] self.peer_states@[j]).1@, self.config) by {
                if j < i { assert(self.peer_states@[j] == v0[j]); } else if j > i { assert(self.peer_states@[j] == v0[j - 1]); }
            }
        }
    }
}

/// The states of a table of peers, by address.
spec fn peer_views(v: Seq<(IpKey, PeerState)>) -> Map<IpKey, PeerView> {
    kv_map(v).map_values(|p: PeerState| p@)
}

proof fn lemma_peer_views_len(v: Seq<(IpKey, PeerState)>)
    requires
        keys_distinct(v),
    ensures
        peer_views(v).dom().finite(),
        peer_views(v).dom().len() == v.len(),
{
    lemma_kv_len(v);
    assert(peer_views(v).dom() =~= kv_map(v).dom());
}

/// The peer holds no more connections or recent requests than allowed.
pub open spec fn peer_within_limits(p: PeerView, cfg: DosProtectionConfig) -> bool {
    &&& p.connections <= cfg.max_connections_per_ip
    &&& p.request_times.len() <= cfg.max_requests_per_second
}

/// `kv_map` with values seen through their views, after replacing the value
/// of a key.
proof fn lemma_views_insert(v: Seq<(IpKey, PeerState)>, i: int, ip: IpKey, old_st: PeerState, st: PeerState)
    requires
        0 <= i <= v.len(),
        keys_distinct(v.insert(i, (ip, old_st))),
    ensures
        keys_distinct(v.insert(i, (ip, st))),
        kv_map(v.insert(i, (ip, st))).map_values(|p: PeerState| p@)
            == kv_map(v.insert(i, (ip, old_st))).map_values(|p: PeerState| p@).insert(ip, st@),
{
    let w = v.insert(i, (ip, old_st));
    assert(w[i].0 == ip);
    lemma_kv_set(w, i, st);
    assert(w.update(i, (w[i].0, st)) =~= v.insert(i, (ip, st)));
    assert(kv_map(w.update(i, (ip, st))).map_values(|p: PeerState| p@)
        =~= peer_views(w).insert(ip, st@));
}

/// Whole seconds from `now` until `until`.
fn seconds_until(until: u128, now: u64) -> (r: u64)
    requires
        (now as int) < until,
    ensures
        r == remaining_secs(until, now),
{
    let d = (until - now as u128) / (NANOS_PER_SEC as u128);
    if d > u64::MAX as u128 { u64::MAX } else { d as u64 }
}

/// Counts a violation by `p` at `now`, banning it on the third.
fn violate(p: &mut PeerState, now: u64, cfg: &DosProtectionConfig, stats: &mut DosStats)
    requires
        old(p)@.violations < u32::MAX,
        old(stats).total_violations < u64::MAX,
        old(stats).bans_issued < u64::MAX,
    ensures
        final(p)@ == with_violation(old(p)@, now, *cfg),
        *final(stats) == stats_after_violation(*old(stats), old(p)@),
{
    p.violations = p.violations + 1;
    stats.total_violations = stats.total_violations + 1;
    if p.violations >= BAN_AFTER_VIOLATIONS {
        p.banned_until = Some(now as u128 + (cfg.ban_duration_seconds as u128) * (NANOS_PER_SEC as u128));
        stats.bans_issued = stats.bans_issued + 1;
    }
}

/// A connection attempt by `p` at `now`.
fn connection_step(p: PeerState, now: u64, cfg: &DosProtectionConfig, stats: &mut DosStats) -> (r: (PeerState, Result<(), DosError>))
    requires
        p@.violations < u32::MAX,
        stats_have_room(*old(stats)),
    ensures
        r.0@ == conn_next(p@, now, *cfg),
        r.1 == conn_result(p@, now, *cfg),
        *final(stats) == conn_stats(*old(stats), p@, now, *cfg),
{
    let mut p = p;
    if let Some(until) = p.banned_until {
        if (now as u128) < until {
            stats.blocked_connections = stats.blocked_connections + 1;
            let remaining = seconds_until(until, now);
            return (p, Err(DosError::Banned { remaining_seconds: remaining }));
        } else {
            p.banned_until = None;
            p.violations = 0;
        }
    }
    if p.connections >= cfg.max_connections_per_ip {
        violate(&mut p, now, cfg, stats);
        return (p, Err(DosError::ConnectionLimitExceeded));
    }
    p.connections = p.connections + 1;
    p.last_activity = now;
    (p, Ok(()))
}

proof fn lemma_recent_len(ts: Seq<u64>, now: u64)
    ensures
        recent_times(ts, now).len() <= ts.len(),
    decreases ts.len(),
{
    if ts.len() > 0 {
        lemma_recent_len(ts.drop_last(), now);
    }
}

/// The times of `ts` within the second before `now`, in order.
fn recent_of(ts: &Vec<u64>, now: u64) -> (r: Vec<u64>)
    ensures
        r@ == recent_times(ts@, now),
{
    let mut out: Vec<u64> = Vec::new();
    let mut m: usize = 0;
    while m < ts.len()
        invariant
            0 <= m <= ts@.len(),
            out@ == recent_times(ts@.subrange(0, m as int), now),
        decreases ts@.len() - m,
    {
        let t = ts[m];
        proof {
            let pre = ts@.subrange(0, m as int + 1);
            assert(pre.drop_last() =~= ts@.subrange(0, m as int));
            assert(pre.last() == t);
        }
        if now < t || now - t < NANOS_PER_SEC {
            out.push(t);
        }
        m = m + 1;
    }
    proof { assert(ts@.subrange(0, ts@.len() as int) =~= ts@); }
    out
}

/// A request by `p` at `now`.
fn request_step(p: PeerState, now: u64, cfg: &DosProtectionConfig, stats: &mut DosStats) -> (r: (PeerState, Result<(), DosError>))
    requires
        p@.violations < u32::MAX,
        stats_have_room(*old(stats)),
    ensures
        r.0@ == req_next(p@, now, *cfg),
        r.1 == req_result(p@, now, *cfg),
        *final(stats) == req_stats(*old(stats), p@, now, *cfg),
{
    let mut p = p;
    if let Some(until) = p.banned_until {
        if (now as u128) < until {
            stats.blocked_requests = stats.blocked_requests + 1;
            let remaining = seconds_until(until, now);
            return (p, Err(DosError::Banned { remaining_seconds: remaining }));
        }
    }
    let ghost p0 = p@;
    p.request_times = recent_of(&p.request_times, now);
    assert(p@ == (PeerView { request_times: recent_times(p0.request_times, now), ..p0 }));
    if p.request_times.len() >= cfg.max_requests_per_second as usize {
        violate(&mut p, now, cfg, stats);
        return (p, Err(DosError::RateLimitExceeded));
    }
    p.request_times.push(now);
    p.last_activity = now;
    (p, Ok(()))
}

/// Traffic of `sent` and `received` bytes by `p` at `now`.
fn bandwidth_step(p: PeerState, sent: u64, received: u64, now: u64, cfg: &DosProtectionConfig, stats: &mut DosStats) -> (r: PeerState)
    requires
        p@.violations < u32::MAX,
        stats_have_room(*old(stats)),
        p@.bytes_sent + sent <= u64::MAX,
        p@.bytes_received + received <= u64::MAX,
        p@.bytes_sent + sent + p@.bytes_received + received <= u64::MAX,
    ensures
        r@ == bw_next(p@, sent, received, now, *cfg),
        *final(stats) == bw_stats(*old(stats), p@, sent, received, now, *cfg),
{
    let mut p = p;
    p.bytes_sent = p.bytes_sent + sent;
    p.bytes_received = p.bytes_received + received;
    p.last_activity = now;
    let total = p.bytes_sent + p.bytes_received;
    if total > cfg.max_bandwidth_per_second {
        violate(&mut p, now, cfg, stats);
    }
    p
}

impl DosProtection {
    /// Whether one more event for `ip` can be counted without overflow.
    pub fn has_room_for(&self, ip: IpKey) -> (r: bool)
        requires
            self.wf(),
        ensures
            r == self.has_room(ip),
    {
        let counters = self.stats.total_violations < u64::MAX && self.stats.bans_issued < u64::MAX
            && self.stats.blocked_connections < u64::MAX && self.stats.blocked_requests < u64::MAX;
        match self.find_peer(ip) {
            Some(i) => {
                proof { self.lemma_peer_at(i as int); }
                counters && self.peer_states[i].1.violations < u32::MAX
            },
            None => {
                proof { assert(!self.peers().contains_key(ip)); }
                counters
            },
        }
    }

    /// Whether `sent` and `received` more bytes for `ip` can be recorded
    /// without overflow.
    pub fn traffic_fits_for(&self, ip: IpKey, sent: u64, received: u64) -> (r: bool)
        requires
            self.wf(),
        ensures
            r == self.traffic_fits(ip, sent, received),
    {
        let (bs, br) = match self.find_peer(ip) {
            Some(i) => {
                proof { self.lemma_peer_at(i as int); }
                (self.peer_states[i].1.bytes_sent, self.peer_states[i].1.bytes_received)
            },
            None => {
                proof { assert(!self.peers().contains_key(ip)); }
                (0u64, 0u64)
            },
        };
        if bs > u64::MAX - sent || br > u64::MAX - received {
            return false;
        }
        let a = bs + sent;
        let b = br + received;
        a <= u64::MAX - b
    }

    /// Admits or refuses a connection from `ip` at `now`: refused while a
    /// ban is in force or when the address already holds the maximum number
    /// of connections (a violation); a lapsed ban is cleared first.
    pub fn check_connection_allowed_at(&mut self, ip: IpKey, now: u64) -> (r: Result<(), DosError>)
        requires
            old(self).wf(),
            old(self).has_room(ip),
        ensures
            final(self).wf(),
            final(self).config_of() == old(self).config_of(),
            final(self).peers() == old(self).peers().insert(ip, conn_next(peer_or_fresh(old(self).peers(), ip, now), now, old(self).config_of())),
            final(self).stats_of() == conn_stats(old(self).stats_of(), peer_or_fresh(old(self).peers(), ip, now), now, old(self).config_of()),
            r == conn_result(peer_or_fresh(old(self).peers(), ip, now), now, old(self).config_of()),
    {
        let (i, st) = self.take_peer(ip, now);
        let ghost gap = self.peer_states@;
        let ghost p0 = st@;
        let (st2, res) = connection_step(st, now, &self.config, &mut self.stats);
        proof {
            lemma_views_insert(gap, i as int, ip, st, st2);
        }
        self.put_peer(i, ip, st2);
        res
    }

    /// Admits or refuses a request from `ip` at `now`: refused while a ban is
    /// in force, or when the requests of the last second reach the limit (a
    /// violation); otherwise the request is recorded.
    pub fn check_request_allowed_at(&mut self, ip: IpKey, now: u64) -> (r: Result<(), DosError>)
        requires
            old(self).wf(),
            old(self).has_room(ip),
        ensures
            final(self).wf(),
            final(self).config_of() == old(self).config_of(),
            final(self).peers() == old(self).peers().insert(ip, req_next(peer_or_fresh(old(self).peers(), ip, now), now, old(self).config_of())),
            final(self).stats_of() == req_stats(old(self).stats_of(), peer_or_fresh(old(self).peers(), ip, now), now, old(self).config_of()),
            r == req_result(peer_or_fresh(old(self).peers(), ip, now), now, old(self).config_of()),
    {
        let (i, st) = self.take_peer(ip, now);
        let ghost gap = self.peer_states@;
        proof { lemma_recent_len(st@.request_times, now); }
        let (st2, res) = request_step(st, now, &self.config, &mut self.stats);
        proof {
            lemma_views_insert(gap, i as int, ip, st, st2);
        }
        self.put_peer(i, ip, st2);
        res
    }

    /// Records traffic of `ip` at `now`; exceeding the bandwidth limit is a
    /// violation.
    pub fn record_bandwidth_at(&mut self, ip: IpKey, bytes_sent: u64, bytes_received: u64, now: u64)
        requires
            old(self).wf(),
            old(self).has_room(ip),
            old(self).traffic_fits(ip, bytes_sent, bytes_received),
        ensures
            final(self).wf(),
            final(self).config_of() == old(self).config_of(),
            final(self).peers() == old(self).peers().insert(ip, bw_next(peer_or_fresh(old(self).peers(), ip, now), bytes_sent, bytes_received, now, old(self).config_of())),
            final(self).stats_of() == bw_stats(old(self).stats_of(), peer_or_fresh(old(self).peers(), ip, now), bytes_sent, bytes_received, now, old(self).config_of()),
    {
        let (i, st) = self.take_peer(ip, now);
        let ghost gap = self.peer_states@;
        let st2 = bandwidth_step(st, bytes_sent, bytes_received, now, &self.config, &mut self.stats);
        proof {
            lemma_views_insert(gap, i as int, ip, st, st2);
        }
        self.put_peer(i, ip, st2);
    }

    /// Releases one connection of `ip`, if it holds any.
    pub fn remove_connection(&mut self, ip: IpKey)
        requires
            old(self).wf(),
        ensures
            final(self).wf(),
            final(self).config_of() == old(self).config_of(),
            final(self).stats_of() == old(self).stats_of(),
            final(self).peers() == (if old(self).peers().contains_key(ip) && old(self).peers()[ip].connections > 0 {
                old(self).peers().insert(ip, PeerView { connections: (old(self).peers()[ip].connections - 1) as u32, ..old(self).peers()[ip] })
            } else {
                old(self).peers()
            }),
    {
        if let Some(i) = self.find_peer(ip) {
            proof { self.lemma_peer_at(i as int); }
            if self.peer_states[i].1.connections > 0 {
                let (i2, mut st) = self.take_peer(ip, 0);
                let ghost gap = self.peer_states@;
                let ghost st0 = st;
                st.connections = st.connections - 1;
                proof {
                    lemma_views_insert(gap, i2 as int, ip, st0, st);
                    assert(old(self).peers().insert(ip, st0@) =~= old(self).peers());
                }
                self.put_peer(i2, ip, st);
            }
        } else {
            proof { assert(!old(self).peers().contains_key(ip)); }
        }
    }

    /// Lifts the ban of `ip` and forgets its violations.
    pub fn unban_ip(&mut self, ip: IpKey)
        requires
            old(self).wf(),
        ensures
            final(self).wf(),
            final(self).config_of() == old(self).config_of(),
            final(self).stats_of() == old(self).stats_of(),
            final(self).peers() == (if old(self).peers().contains_key(ip) {
                old(self).peers().insert(ip, PeerView { banned_until: None, violations: 0, ..old(self).peers()[ip] })
            } else {
                old(self).peers()
            }),
    {
        if let Some(i) = self.find_peer(ip) {
            proof { self.lemma_peer_at(i as int); }
            let (i2, mut st) = self.take_peer(ip, 0);
            let ghost gap = self.peer_states@;
            let ghost st0 = st;
            st.banned_until = None;
            st.violations = 0;
            proof {
                lemma_views_insert(gap, i2 as int, ip, st0, st);
                assert(old(self).peers().insert(ip, st0@) =~= old(self).peers());
            }
            self.put_peer(i2, ip, st);
        } else {
            proof { assert(!old(self).peers().contains_key(ip)); }
        }
    }

    /// Whether a ban on `ip` is in force at `now`.
    pub fn is_banned_at(&self, ip: IpKey, now: u64) -> (r: bool)
        requires
            self.wf(),
        ensures
            r == self.banned_at(ip, now),
    {
        match self.find_peer(ip) {
            Some(i) => {
                proof { self.lemma_peer_at(i as int); }
                match self.peer_states[i].1.banned_until {
                    Some(until) => (now as u128) < until,
                    None => false,
                }
            },
            None => {
                proof { assert(!self.peers().contains_key(ip)); }
                false
            },
        }
    }

    /// `check_connection_allowed_at` at the current time.
    pub fn check_connection_allowed(&mut self, ip: IpKey) -> (r: Result<(), DosError>)
        requires
            old(self).wf(),
            old(self).has_room(ip),
        ensures
            final(self).wf(),
            final(self).config_of() == old(self).config_of(),
            exists|now: u64| {
                &&& final(self).peers() == old(self).peers().insert(ip, conn_next(peer_or_fresh(old(self).peers(), ip, now), now, old(self).config_of()))
                &&& final(self).stats_of() == conn_stats(old(self).stats_of(), peer_or_fresh(old(self).peers(), ip, now), now, old(self).config_of())
                &&& r == conn_result(peer_or_fresh(old(self).peers(), ip, now), now, old(self).config_of())
            },
    {
        let now = self.clock();
        self.check_connection_allowed_at(ip, now)
    }

    /// `check_request_allowed_at` at the current time.
    pub fn check_request_allowed(&mut self, ip: IpKey) -> (r: Result<(), DosError>)
        requires
            old(self).wf(),
            old(self).has_room(ip),
        ensures
            final(self).wf(),
            final(self).config_of() == old(self).config_of(),
            exists|now: u64| {
                &&& final(self).peers() == old(self).peers().insert(ip, req_next(peer_or_fresh(old(self).peers(), ip, now), now, old(self).config_of()))
                &&& final(self).stats_of() == req_stats(old(self).stats_of(), peer_or_fresh(old(self).peers(), ip, now), now, old(self).config_of())
                &&& r == req_result(peer_or_fresh(old(self).peers(), ip, now), now, old(self).config_of())
            },
    {
        let now = self.clock();
        self.check_request_allowed_at(ip, now)
    }

    /// `record_bandwidth_at` at the current time.
    pub fn record_bandwidth(&mut self, ip: IpKey, bytes_sent: u64, bytes_received: u64)
        requires
            old(self).wf(),
            old(self).has_room(ip),
            old(self).traffic_fits(ip, bytes_sent, bytes_received),
        ensures
            final(self).wf(),
            final(self).config_of() == old(self).config_of(),
            exists|now: u64| {
                &&& final(self).peers() == old(self).peers().insert(ip, bw_next(peer_or_fresh(old(self).peers(), ip, now), bytes_sent, bytes_received, now, old(self).config_of()))
                &&& final(self).stats_of() == bw_stats(old(self).stats_of(), peer_or_fresh(old(self).peers(), ip, now), bytes_sent, bytes_received, now, old(self).config_of())
            },
    {
        let now = self.clock();
        self.record_bandwidth_at(ip, bytes_sent, bytes_received, now)
    }

    /// `is_banned_at` at the current time.
    pub fn is_banned(&self, ip: IpKey) -> (r: bool)
        requires
            self.wf(),
        ensures
            exists|now: u64| r == #[trigger] self.banned_at(ip, now),
    {
        let now = self.clock();
        let r = self.is_banned_at(ip, now);
        assert(r == self.banned_at(ip, now));
        r
    }
}

/// The peers of `orig[lo..]` that are not stale, refreshed.
spec fn swept_from(orig: Seq<(IpKey, PeerState)>, lo: int, now: u64, cfg: DosProtectionConfig) -> Map<IpKey, PeerView> {
    Map::new(
        |k: IpKey| exists|j: int| lo <= j < orig.len() && #[trigger] orig[j].0 == k && !is_stale(orig[j].1@, now, cfg),
        |k: IpKey| refreshed(orig[choose|j: int| lo <= j < orig.len() && #[trigger] orig[j].0 == k].1@, now),
    )
}

proof fn lemma_sweep_step(orig: Seq<(IpKey, PeerState)>, lo: int, now: u64, cfg: DosProtectionConfig)
    requires
        keys_distinct(orig),
        0 < lo <= orig.len(),
    ensures
        !swept_from(orig, lo, now, cfg).contains_key(orig[lo - 1].0),
        is_stale(orig[lo - 1].1@, now, cfg) ==> swept_from(orig, lo - 1, now, cfg) == swept_from(orig, lo, now, cfg),
        !is_stale(orig[lo - 1].1@, now, cfg) ==> swept_from(orig, lo - 1, now, cfg)
            == swept_from(orig, lo, now, cfg).insert(orig[lo - 1].0, refreshed(orig[lo - 1].1@, now)),
{
    let a = swept_from(orig, lo, now, cfg);
    let b = swept_from(orig, lo - 1, now, cfg);
    let k0 = orig[lo - 1].0;
    if a.contains_key(k0) {
        let j = choose|j: int| lo <= j < orig.len() && #[trigger] orig[j].0 == k0 && !is_stale(orig[j].1@, now, cfg);
        assert(orig[j].0 != orig[lo - 1].0);
    }
    assert forall|k: IpKey| k != k0 implies (#[trigger] b.contains_key(k) <==> a.contains_key(k)) by {
        if b.contains_key(k) {
            let j = choose|j: int| lo - 1 <= j < orig.len() && #[trigger] orig[j].0 == k && !is_stale(orig[j].1@, now, cfg);
            assert(j != lo - 1);
        }
        if a.contains_key(k) {
            let j = choose|j: int| lo <= j < orig.len() && #[trigger] orig[j].0 == k && !is_stale(orig[j].1@, now, cfg);
            assert(lo - 1 <= j);
        }
    }
    assert forall|k: IpKey| #[trigger] b.contains_key(k) implies b[k] == (if k == k0 { refreshed(orig[lo - 1].1@, now) } else { a[k] }) by {
        let jb = choose|j: int| lo - 1 <= j < orig.len() && #[trigger] orig[j].0 == k;
        assert(orig[jb].0 == k);
        if k == k0 {
            assert(jb == lo - 1);
        } else {
            let j = choose|j: int| lo - 1 <= j < orig.len() && #[trigger] orig[j].0 == k && !is_stale(orig[j].1@, now, cfg);
            assert(lo <= j);
            let ja = choose|j: int| lo <= j < orig.len() && #[trigger] orig[j].0 == k;
            assert(orig[ja].0 == k);
            assert(ja == jb);
        }
    }
    if is_stale(orig[lo - 1].1@, now, cfg) {
        assert forall|k: IpKey| b.contains_key(k) <==> a.contains_key(k) by {
            if k == k0 && b.contains_key(k) {
                let j = choose|j: int| lo - 1 <= j < orig.len() && #[trigger] orig[j].0 == k && !is_stale(orig[j].1@, now, cfg);
                assert(j != lo - 1);
            }
        }
        assert(b =~= a);
    } else {
        assert(orig[lo - 1].0 == k0);
        assert(b.contains_key(k0));
        assert(b =~= a.insert(k0, refreshed(orig[lo - 1].1@, now)));
    }
}

proof fn lemma_swept_all(orig: Seq<(IpKey, PeerState)>, now: u64, cfg: DosProtectionConfig)
    requires
        keys_distinct(orig),
    ensures
        swept_from(orig, 0, now, cfg) == swept(peer_views(orig), now, cfg),
{
    let a = swept_from(orig, 0, now, cfg);
    let m = peer_views(orig);
    let b = swept(m, now, cfg);
    assert forall|k: IpKey| a.contains_key(k) <==> b.contains_key(k) by {
        if a.contains_key(k) {
            let j = choose|j: int| 0 <= j < orig.len() && #[trigger] orig[j].0 == k && !is_stale(orig[j].1@, now, cfg);
            lemma_kv_at(orig, j);
        }
        if b.contains_key(k) {
            let j = choose|j: int| 0 <= j < orig.len() && #[trigger] orig[j].0 == k;
            lemma_kv_at(orig, j);
        }
    }
    assert forall|k: IpKey| #[trigger] a.contains_key(k) implies a[k] == b[k] by {
        let j = choose|j: int| 0 <= j < orig.len() && #[trigger] orig[j].0 == k;
        lemma_kv_at(orig, j);
    }
    assert(a =~= b);
}

/// The position of the least recently active peer.
fn oldest_index(v: &Vec<(IpKey, PeerState)>) -> (r: usize)
    requires
        v@.len() > 0,
    ensures
        r < v@.len(),
        forall|j: int| 0 <= j < v@.len() ==> v@[r as int].1.last_activity <= #[trigger] v@[j].1.last_activity,
{
    let mut best: usize = 0;
    let mut i: usize = 1;
    while i < v.len()
        invariant
            0 < i <= v@.len(),
            best < i,
            forall|j: int| 0 <= j < i ==> v@[best as int].1.last_activity <= #[trigger] v@[j].1.last_activity,
        decreases v@.len() - i,
    {
        if v[i].1.last_activity < v[best].1.last_activity {
            best = i;
        }
        i = i + 1;
    }
    best
}

impl DosProtection {
    /// One pass of the periodic cleanup at `now`: peers idle for more than
    /// twice the cleanup interval are dropped, the traffic counters of peers
    /// idle for more than a second are reset, and if more peers than allowed
    /// remain, the least recently active ones are dropped. The number of
    /// tracked peers is recorded in the counters.
    pub fn cleanup_at(&mut self, now: u64)
        requires
            old(self).wf(),
            old(self).config_of().cleanup_interval_seconds <= u64::MAX / 2,
        ensures
            final(self).wf(),
            final(self).config_of() == old(self).config_of(),
            trimmed(swept(old(self).peers(), now, old(self).config_of()), final(self).peers(), old(self).config_of().max_tracked_ips as nat),
            final(self).stats_of() == (DosStats { tracked_ips: final(self).peers().dom().len() as usize, ..old(self).stats_of() }),
    {
        let ghost orig = self.peer_states@;
        let ghost cfg = self.config;
        let limit: u128 = (self.config.cleanup_interval_seconds as u128) * 2 * (NANOS_PER_SEC as u128);
        let mut kept: Vec<(IpKey, PeerState)> = Vec::new();
        proof { assert(peer_views(kept@) =~= swept_from(orig, orig.len() as int, now, cfg)); }
        while self.peer_states.len() > 0
            invariant
                keys_distinct(orig),
                self.config == cfg,
                self.stats == old(self).stats,
                limit == cfg.cleanup_interval_seconds * 2 * NANOS_PER_SEC,
                forall|i: int| 0 <= i < orig.len() ==> peer_within_limits((#[trigger] orig[i]).1@, cfg),
                self.peer_states@.len() <= orig.len(),
                self.peer_states@ == orig.subrange(0, self.peer_states@.len() as int),
                keys_distinct(kept@),
                forall|i: int| 0 <= i < kept@.len() ==> peer_within_limits((#[trigger] kept@[i]).1@, cfg),
                peer_views(kept@) == swept_from(orig, self.peer_states@.len() as int, now, cfg),
            decreases self.peer_states@.len(),
        {
            let ghost lo = self.peer_states@.len() as int;
            let entry = self.peer_states.pop().unwrap();
            proof {
                assert(entry == orig[lo - 1]);
                assert(self.peer_states@ =~= orig.subrange(0, lo - 1));
                lemma_sweep_step(orig, lo, now, cfg);
            }
            let (k, mut st) = entry;
            let idle: u64 = if now >= st.last_activity { now - st.last_activity } else { 0 };
            if (idle as u128) <= limit {
                if idle > NANOS_PER_SEC {
                    st.bytes_sent = 0;
                    st.bytes_received = 0;
                }
                proof {
                    assert(st@ == refreshed(orig[lo - 1].1@, now));
                    assert(!kv_has(kept@, k)) by {
                        if kv_has(kept@, k) {
                            let t = choose|t: int| 0 <= t < kept@.len() && #[trigger] kept@[t].0 == k;
                            lemma_kv_at(kept@, t);
                        }
                    }
                    lemma_kv_push(kept@, k, st);
                }
                let ghost before = kept@;
                kept.push((k, st));
                proof {
                    assert(peer_views(kept@) =~= peer_views(before).insert(k, st@));
                    assert forall|i: int| 0 <= i < kept@.len() implies peer_within_limits((#[trigger] kept@[i]).1@, cfg) by {
                        if i < before.len() { assert(kept@[i] == before[i]); }
                    }
                }
            }
        }
        proof { lemma_swept_all(orig, now, cfg); }
        let ghost full = peer_views(kept@);
        let ghost full_len = kept@.len();
        proof { lemma_peer_views_len(kept@); }
        let max = self.config.max_tracked_ips;
        if kept.len() > max {
            while kept.len() > max
                invariant
                    kept@.len() >= max,
                    keys_distinct(kept@),
                    forall|i: int| 0 <= i < kept@.len() ==> peer_within_limits((#[trigger] kept@[i]).1@, cfg),
                    peer_views(kept@).dom().subset_of(full.dom()),
                    forall|k: IpKey| #[trigger] peer_views(kept@).contains_key(k)
                        ==> peer_views(kept@)[k] == full[k],
                    forall|r: IpKey, k: IpKey| full.contains_key(r) && !peer_views(kept@).contains_key(r)
                        && #[trigger] peer_views(kept@).contains_key(k)
                        ==> #[trigger] full[r].last_activity <= full[k].last_activity,
                decreases kept@.len(),
            {
                let m = oldest_index(&kept);
                let ghost before = kept@;
                let ghost bm = peer_views(before);
                proof { lemma_kv_remove(before, m as int); lemma_kv_at(before, m as int); }
                kept.remove(m);
                proof {
                    let am = peer_views(kept@);
                    let km = before[m as int].0;
                    assert(am =~= bm.remove(km));
                    assert forall|i: int| 0 <= i < kept@.len() implies peer_within_limits((#[trigger] kept@[i]).1@, cfg) by {
                        if i < m { assert(kept@[i] == before[i]); } else { assert(kept@[i] == before[i + 1]); }
                    }
                    assert forall|r: IpKey, k: IpKey| full.contains_key(r) && !am.contains_key(r) && #[trigger] am.contains_key(k)
                        implies #[trigger] full[r].last_activity <= full[k].last_activity by {
                        assert(bm.contains_key(k));
                        if r == km {
                            let t = choose|t: int| 0 <= t < before.len() && #[trigger] before[t].0 == k;
                            lemma_kv_at(before, t);
                            assert(before[m as int].1.last_activity <= before[t].1.last_activity);
                        }
                    }
                }
            }
        }
        proof {
            lemma_peer_views_len(kept@);
            let fin = peer_views(kept@);
            if full_len <= max {
                assert(fin.dom() =~= full.dom());
            }
        }
        self.peer_states = kept;
        self.stats.tracked_ips = self.peer_states.len();
        proof {
            assert(old(self).peers() == peer_views(orig));
            assert(full == swept(old(self).peers(), now, cfg));
            assert(self.peers() == peer_views(self.peer_states@));
            assert(self.peers().dom().len() == self.peer_states@.len());
            assert(trimmed(full, self.peers(), max as nat));
        }
    }

    /// `cleanup_at` at the current time.
    pub fn cleanup(&mut self)
        requires
            old(self).wf(),
            old(self).config_of().cleanup_interval_seconds <= u64::MAX / 2,
        ensures
            final(self).wf(),
            final(self).config_of() == old(self).config_of(),
            exists|now: u64| trimmed(swept(old(self).peers(), now, old(self).config_of()), final(self).peers(), old(self).config_of().max_tracked_ips as nat),
            final(self).stats_of() == (DosStats { tracked_ips: final(self).peers().dom().len() as usize, ..old(self).stats_of() }),
    {
        let now = self.clock();
        self.cleanup_at(now)
    }
}

/// No tracked address holds more connections than the connection limit, nor
/// more recorded requests than the per-second request limit.
pub proof fn lemma_limits_hold(d: DosProtection, ip: IpKey)
    requires
        d.wf(),
        d.peers().contains_key(ip),
    ensures
        d.peers()[ip].connections <= d.config_of().max_connections_per_ip,
        d.peers()[ip].request_times.len() <= d.config_of().max_requests_per_second,
{
    let t = choose|t: int| 0 <= t < d.peer_states@.len() && #[trigger] d.peer_states@[t].0 == ip;
    d.lemma_peer_at(t);
}

/// The third violation, and every later one, bans the address from `now`
/// on (for a ban of positive length).
pub proof fn lemma_third_violation_bans(p: PeerView, now: u64, cfg: DosProtectionConfig)
    requires
        p.violations + 1 >= BAN_AFTER_VIOLATIONS,
        cfg.ban_duration_seconds > 0,
    ensures
        ban_active(with_violation(p, now, cfg), now),
{
}

/// A violation's ban, read back at the moment it was issued, has the
/// configured number of seconds left.
proof fn lemma_fresh_ban_remaining(now: u64, cfg: DosProtectionConfig)
    requires
        cfg.ban_duration_seconds > 0,
    ensures
        ({
            let until = (now + cfg.ban_duration_seconds * NANOS_PER_SEC) as u128;
            &&& (now as int) < until
            &&& remaining_secs(until, now) == cfg.ban_duration_seconds
        }),
{
    let d = cfg.ban_duration_seconds as int;
    let n = d * 1_000_000_000;
    assert(0 < n <= 18446744073709551615 * 1_000_000_000) by (nonlinear_arith)
        requires
            0 < d <= 18446744073709551615,
            n == d * 1_000_000_000,
    ;
    assert(n / 1_000_000_000 == d) by (nonlinear_arith)
        requires
            n == d * 1_000_000_000,
    ;
    assert((now + n) as u128 == now + n);
}

/// A request refused for its rate is a violation: the address's violation
/// count and the violation counter each rise by one, the third violation
/// issues a ban, and once banned the address's next request at the same
/// moment is refused as banned for the configured number of seconds.
pub proof fn lemma_rate_refusal_counts(p: PeerView, s: DosStats, now: u64, cfg: DosProtectionConfig)
    requires
        req_result(p, now, cfg) == Err::<(), DosError>(DosError::RateLimitExceeded),
        p.violations < u32::MAX,
        stats_have_room(s),
    ensures
        req_next(p, now, cfg).violations == p.violations + 1,
        req_stats(s, p, now, cfg).total_violations == s.total_violations + 1,
        req_stats(s, p, now, cfg).bans_issued == s.bans_issued + if p.violations + 1 >= 3 { 1int } else { 0int },
        p.violations + 1 >= 3 && cfg.ban_duration_seconds > 0 ==> req_result(req_next(p, now, cfg), now, cfg)
            == Err::<(), DosError>(DosError::Banned { remaining_seconds: cfg.ban_duration_seconds }),
{
    if p.violations + 1 >= 3 && cfg.ban_duration_seconds > 0 {
        lemma_fresh_ban_remaining(now, cfg);
    }
}

/// An admitted request is recorded at `now` and is no violation.
pub proof fn lemma_request_admitted(p: PeerView, s: DosStats, now: u64, cfg: DosProtectionConfig)
    requires
        req_result(p, now, cfg) is Ok,
    ensures
        req_next(p, now, cfg).violations == p.violations,
        req_next(p, now, cfg).request_times.last() == now,
        req_next(p, now, cfg).request_times.len() <= cfg.max_requests_per_second,
        req_stats(s, p, now, cfg) == s,
{
}

/// A connection refused for the connection limit is a violation: the
/// violation count rises by one (starting over after a lapsed ban), the
/// violation counter rises by one, and from the third violation on the
/// address's next attempt at the same moment is refused as banned for the
/// configured number of seconds.
pub proof fn lemma_connection_refusal_counts(p: PeerView, s: DosStats, now: u64, cfg: DosProtectionConfig)
    requires
        conn_result(p, now, cfg) == Err::<(), DosError>(DosError::ConnectionLimitExceeded),
        p.violations < u32::MAX,
        stats_have_room(s),
    ensures
        conn_next(p, now, cfg).violations == if p.banned_until is Some { 1int } else { p.violations + 1 },
        conn_stats(s, p, now, cfg).total_violations == s.total_violations + 1,
        conn_next(p, now, cfg).violations >= 3 && cfg.ban_duration_seconds > 0 ==> conn_result(conn_next(p, now, cfg), now, cfg)
            == Err::<(), DosError>(DosError::Banned { remaining_seconds: cfg.ban_duration_seconds }),
{
    if conn_next(p, now, cfg).violations >= 3 && cfg.ban_duration_seconds > 0 {
        lemma_fresh_ban_remaining(now, cfg);
    }
}

/// Recorded traffic adds up; traffic over the bandwidth limit is a
/// violation, and traffic within it is none.
pub proof fn lemma_bandwidth_counts(p: PeerView, s: DosStats, sent: u64, received: u64, now: u64, cfg: DosProtectionConfig)
    requires
        p.bytes_sent + sent <= u64::MAX,
        p.bytes_received + received <= u64::MAX,
        p.violations < u32::MAX,
        stats_have_room(s),
    ensures
        bw_next(p, sent, received, now, cfg).bytes_sent == p.bytes_sent + sent,
        bw_next(p, sent, received, now, cfg).bytes_received == p.bytes_received + received,
        p.bytes_sent + sent + p.bytes_received + received > cfg.max_bandwidth_per_second ==> {
            &&& bw_next(p, sent, received, now, cfg).violations == p.violations + 1
            &&& bw_stats(s, p, sent, received, now, cfg).total_violations == s.total_violations + 1
        },
        p.bytes_sent + sent + p.bytes_received + received <= cfg.max_bandwidth_per_second ==> {
            &&& bw_next(p, sent, received, now, cfg).violations == p.violations
            &&& bw_stats(s, p, sent, received, now, cfg) == s
        },
{
}

/// While a ban is in force, connections and requests from the address are
/// refused as banned and leave its state as it was.
pub proof fn lemma_banned_refused(d: DosProtection, ip: IpKey, now: u64)
    requires
        d.banned_at(ip, now),
    ensures
        conn_result(peer_or_fresh(d.peers(), ip, now), now, d.config_of()) is Err,
        conn_result(peer_or_fresh(d.peers(), ip, now), now, d.config_of())->Err_0 is Banned,
        req_result(peer_or_fresh(d.peers(), ip, now), now, d.config_of()) is Err,
        req_result(peer_or_fresh(d.peers(), ip, now), now, d.config_of())->Err_0 is Banned,
        conn_next(peer_or_fresh(d.peers(), ip, now), now, d.config_of()) == d.peers()[ip],
        req_next(peer_or_fresh(d.peers(), ip, now), now, d.config_of()) == d.peers()[ip],
{
}

/// Once an address is unbanned, no ban is in force on it at any time.
pub proof fn lemma_unban_lifts(d: DosProtection, ip: IpKey, now: u64)
    requires
        d.peers().contains_key(ip),
    ensures
        !ban_active(PeerView { banned_until: None, violations: 0, ..d.peers()[ip] }, now),
{
}

} // verus!
