//! Peer reputation scores, kept within fixed bounds.
use vstd::prelude::*;

verus! {

/// A peer's reputation; higher is better.
#[derive(Debug, Clone, Copy, PartialEq, Eq, Structural, PartialOrd, Ord)]
pub struct ReputationScore(i32);

/// Highest score.
pub const MAX_SCORE: i32 = 1000;
/// Lowest score.
pub const MIN_SCORE: i32 = -1000;
/// Score of a new peer.
pub const DEFAULT_SCORE: i32 = 0;
/// At or below this score a peer is banned.
pub const BAN_THRESHOLD: i32 = -500;
/// At or above this score a peer is trusted.
pub const TRUST_THRESHOLD: i32 = 500;

/// `x` held within [lo, hi].
pub open spec fn clamp_spec(x: int, lo: int, hi: int) -> int {
    if x < lo { lo } else if x > hi { hi } else { x }
}

impl ReputationScore {
    /// The score's value.
    pub closed spec fn spec_value(&self) -> int {
        self.0 as int
    }

    /// A score stays within its bounds.
    pub closed spec fn wf(&self) -> bool {
        MIN_SCORE <= self.0 <= MAX_SCORE
    }

    /// A score is well formed exactly when its value lies within the bounds.
    pub proof fn lemma_wf_iff(&self)
        ensures
            self.wf() <==> (MIN_SCORE <= self.spec_value() <= MAX_SCORE),
    {
    }

    /// `score` held within the bounds.
    pub fn new(score: i32) -> (r: ReputationScore)
        ensures
            r.wf(),
            r.spec_value() == clamp_spec(score as int, MIN_SCORE as int, MAX_SCORE as int),
    {
        if score < MIN_SCORE {
            ReputationScore(MIN_SCORE)
        } else if score > MAX_SCORE {
            ReputationScore(MAX_SCORE)
        } else {
            ReputationScore(score)
        }
    }

    /// The score's value.
    pub fn value(&self) -> (r: i32)
        ensures
            r == self.spec_value(),
    {
        self.0
    }

    /// Raises the score by `amount`, up to the maximum.
    pub fn increase(&mut self, amount: i32)
        requires
            i32::MIN <= old(self).spec_value() + amount <= i32::MAX,
        ensures
            final(self).spec_value() == (if old(self).spec_value() + amount > MAX_SCORE { MAX_SCORE as int } else { old(self).spec_value() + amount }),
    {
        let v = self.0 + amount;
        self.0 = if v > MAX_SCORE { MAX_SCORE } else { v };
    }

    /// Lowers the score by `amount`, down to the minimum.
    pub fn decrease(&mut self, amount: i32)
        requires
            i32::MIN <= old(self).spec_value() - amount <= i32::MAX,
        ensures
            final(self).spec_value() == (if old(self).spec_value() - amount < MIN_SCORE { MIN_SCORE as int } else { old(self).spec_value() - amount }),
    {
        let v = self.0 - amount;
        self.0 = if v < MIN_SCORE { MIN_SCORE } else { v };
    }

    /// Whether the peer is banned.
    pub fn is_banned(&self) -> (r: bool)
        ensures
            r == (self.spec_value() <= BAN_THRESHOLD),
    {
        self.0 <= BAN_THRESHOLD
    }

    /// Whether the peer is trusted.
    pub fn is_trusted(&self) -> (r: bool)
        ensures
            r == (self.spec_value() >= TRUST_THRESHOLD),
    {
        self.0 >= TRUST_THRESHOLD
    }
}

impl Default for ReputationScore {
    /// The score of a new peer.
    fn default() -> (r: ReputationScore)
        ensures
            r.spec_value() == DEFAULT_SCORE,
    {
        ReputationScore(DEFAULT_SCORE)
    }
}

/// A DNS seed for peer discovery.
#[derive(Debug, Clone)]
pub struct DnsSeed {
    pub hostname: String,
    pub port: u16,
}

/// A configured bootstrap peer.
#[derive(Debug, Clone)]
pub struct BootstrapPeer {
    pub address: String,
    pub peer_id: Option<String>,
}

} // verus!
