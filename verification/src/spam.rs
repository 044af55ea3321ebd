//! The integer part of per-address spam detection: the one-minute rate
//! limit, burst detection, and the bounded record of recent transaction
//! patterns. Whether a new transaction resembles a recorded pattern is a
//! floating-point score and is decided outside this module.
//!
//! Times are nanoseconds on a monotonic clock.
use vstd::prelude::*;

verus! {

/// Nanoseconds in a second.
pub const SPAM_NANOS_PER_SEC: u64 = 1_000_000_000;

/// Transactions older than this are forgotten by the rate limit.
pub const RATE_WINDOW_NANOS: u64 = 60_000_000_000;

/// Recorded patterns kept per address.
pub const MAX_PATTERNS: usize = 100;

/// Burst detections after which an address is blocked.
pub const BURST_BLOCK_AFTER: u64 = 3;

/// Why a transaction was refused.
#[derive(Debug, Clone, Copy, PartialEq, Eq, Structural)]
pub enum SpamReason {
    RateLimitExceeded,
    BurstDetected,
    SimilarTransaction,
}

/// The verdict on one transaction.
#[derive(Debug, Clone, Copy, PartialEq, Eq, Structural)]
pub enum SpamResult {
    Allowed,
    Blocked(SpamReason),
}

/// Counters of refusals.
#[derive(Debug, Clone, Copy, PartialEq, Eq, Structural)]
pub struct SpamStats {
    pub rate_limit_blocks: u64,
    pub burst_detections: u64,
    pub similarity_blocks: u64,
    pub total_checked: u64,
}

impl Default for SpamStats {
    /// All counters at zero.
    fn default() -> (r: SpamStats)
        ensures
            r.rate_limit_blocks == 0,
            r.burst_detections == 0,
            r.similarity_blocks == 0,
            r.total_checked == 0,
    {
        SpamStats { rate_limit_blocks: 0, burst_detections: 0, similarity_blocks: 0, total_checked: 0 }
    }
}

/// What is remembered of an accepted transaction.
#[derive(Debug, Clone, Copy)]
pub struct TransactionPattern {
    pub hash: [u8; 32],
    /// The transferred amount; 0 for other payloads.
    pub amount: u64,
    pub gas_price: u64,
    pub payload_size: usize,
    pub timestamp: u64,
}

/// What one address did recently.
#[derive(Debug, Clone)]
pub struct IpActivity {
    /// Times of its accepted transactions, oldest first.
    pub transactions: Vec<u64>,
    /// Patterns of its accepted transactions, oldest first.
    pub patterns: Vec<TransactionPattern>,
    /// How many bursts it has been caught in.
    pub burst_score: u64,
    pub last_activity: u64,
}

/// Nanoseconds from `t` to `now`, 0 when `t` is later.
pub open spec fn elapsed(now: u64, t: u64) -> int {
    if t <= now { now - t } else { 0 }
}

/// The times of `s` less than `window` nanoseconds before `now`, in order.
pub open spec fn recent(s: Seq<u64>, now: u64, window: int) -> Seq<u64>
    decreases s.len(),
{
    if s.len() == 0 {
        s
    } else {
        let r = recent(s.drop_last(), now, window);
        if elapsed(now, s.last()) < window { r.push(s.last()) } else { r }
    }
}

/// The outcome of the rate and burst checks on an address whose kept
/// times are `kept` and whose burst score was `score`: a refusal, or none
/// (the similarity check comes next), and the new burst score.
pub open spec fn gate_outcome(kept: Seq<u64>, score: u64, now: u64, max_tps: u32, burst_window_secs: u64, burst_threshold: u32) -> (Option<SpamReason>, int) {
    if kept.len() >= max_tps {
        (Some(SpamReason::RateLimitExceeded), score as int)
    } else if recent(kept, now, burst_window_secs * SPAM_NANOS_PER_SEC).len() >= burst_threshold {
        if score + 1 > BURST_BLOCK_AFTER {
            (Some(SpamReason::BurstDetected), score + 1)
        } else {
            (None, score + 1)
        }
    } else {
        (None, score as int)
    }
}

/// Keeps the times of `times` less than `window` nanoseconds before `now`.
fn keep_recent(times: &Vec<u64>, now: u64, window: u64) -> (r: Vec<u64>)
    ensures
        r@ == recent(times@, now, window as int),
{
    let mut out: Vec<u64> = Vec::new();
    let mut i: usize = 0;
    while i < times.len()
        invariant
            i <= times.len(),
            out@ == recent(times@.take(i as int), now, window as int),
        decreases times.len() - i,
    {
        let t = times[i];
        let e: u64 = if t <= now { now - t } else { 0 };
        assert(times@.take(i as int + 1).drop_last() =~= times@.take(i as int));
        if e < window {
            out.push(t);
        }
        i = i + 1;
    }
    assert(times@.take(times.len() as int) =~= times@);
    out
}

/// The number of times of `times` less than `window_secs` seconds before
/// `now`.
fn count_recent(times: &Vec<u64>, now: u64, window_secs: u64) -> (r: usize)
    ensures
        r == recent(times@, now, window_secs * SPAM_NANOS_PER_SEC).len(),
{
    let w: u128 = window_secs as u128;
    assert(w * 1_000_000_000 <= 0xffff_ffff_ffff_ffff * 1_000_000_000) by (nonlinear_arith)
        requires
            w <= 0xffff_ffff_ffff_ffff,
    ;
    let window: u128 = w * 1_000_000_000u128;
    let mut n: usize = 0;
    let mut i: usize = 0;
    while i < times.len()
        invariant
            i <= times.len(),
            window == window_secs * SPAM_NANOS_PER_SEC,
            n == recent(times@.take(i as int), now, window_secs * SPAM_NANOS_PER_SEC).len(),
            n <= i,
        decreases times.len() - i,
    {
        let t = times[i];
        let e: u64 = if t <= now { now - t } else { 0 };
        assert(times@.take(i as int + 1).drop_last() =~= times@.take(i as int));
        if (e as u128) < window {
            n = n + 1;
        }
        i = i + 1;
    }
    assert(times@.take(times.len() as int) =~= times@);
    n
}

impl IpActivity {
    /// An address seen first at `now`: nothing recorded.
    pub fn new(now: u64) -> (r: IpActivity)
        ensures
            r.transactions@.len() == 0,
            r.patterns@.len() == 0,
            r.burst_score == 0,
            r.last_activity == now,
    {
        IpActivity { transactions: Vec::new(), patterns: Vec::new(), burst_score: 0, last_activity: now }
    }

    /// The rate and burst checks on a new transaction at `now`. Times a
    /// minute old or older are forgotten first. With `max_tps_per_ip` or
    /// more times left, the transaction is refused for its rate. Otherwise,
    /// when `burst_threshold` or more of them lie within the burst window,
    /// the burst score rises by one and the transaction is refused once the
    /// score passes three. `None` means that the similarity check decides.
    /// Each refusal and each burst is counted in `stats`.
    pub fn check_rate_and_burst(
        &mut self,
        stats: &mut SpamStats,
        now: u64,
        max_tps_per_ip: u32,
        burst_window_seconds: u64,
        burst_threshold: u32,
    ) -> (r: Option<SpamReason>)
        requires
            old(stats).rate_limit_blocks < u64::MAX,
            old(stats).burst_detections < u64::MAX,
            old(self).burst_score < u64::MAX,
        ensures
            final(self).transactions@ == recent(old(self).transactions@, now, RATE_WINDOW_NANOS as int),
            final(self).patterns == old(self).patterns,
            final(self).last_activity == old(self).last_activity,
            ({
                let (v, score) = gate_outcome(final(self).transactions@, old(self).burst_score, now,
                    max_tps_per_ip, burst_window_seconds, burst_threshold);
                &&& r == v
                &&& final(self).burst_score == score
            }),
            final(stats).rate_limit_blocks == old(stats).rate_limit_blocks
                + if r == Some(SpamReason::RateLimitExceeded) { 1int } else { 0int },
            final(stats).burst_detections == old(stats).burst_detections
                + (final(self).burst_score - old(self).burst_score),
            final(stats).similarity_blocks == old(stats).similarity_blocks,
            final(stats).total_checked == old(stats).total_checked,
    {
        let kept = keep_recent(&self.transactions, now, RATE_WINDOW_NANOS);
        self.transactions = kept;
        if self.transactions.len() >= max_tps_per_ip as usize {
            stats.rate_limit_blocks = stats.rate_limit_blocks + 1;
            return Some(SpamReason::RateLimitExceeded);
        }
        let recent_count = count_recent(&self.transactions, now, burst_window_seconds);
        if recent_count >= burst_threshold as usize {
            self.burst_score = self.burst_score + 1;
            stats.burst_detections = stats.burst_detections + 1;
            if self.burst_score > BURST_BLOCK_AFTER {
                return Some(SpamReason::BurstDetected);
            }
        }
        None
    }

    /// Records an accepted transaction at `now` with its pattern; only the
    /// last hundred patterns are kept.
    pub fn record(&mut self, pattern: TransactionPattern, now: u64)
        ensures
            final(self).transactions@ == old(self).transactions@.push(now),
            final(self).patterns@ == if old(self).patterns@.len() + 1 > MAX_PATTERNS {
                old(self).patterns@.push(pattern).drop_first()
            } else {
                old(self).patterns@.push(pattern)
            },
            final(self).burst_score == old(self).burst_score,
            final(self).last_activity == now,
    {
        self.transactions.push(now);
        self.patterns.push(pattern);
        self.last_activity = now;
        if self.patterns.len() > MAX_PATTERNS {
            self.patterns.remove(0);
        }
    }
}

} // verus!
