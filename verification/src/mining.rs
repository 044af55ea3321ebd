//! Block reward schedule and proof-of-work difficulty check.
use vstd::prelude::*;
use crate::hashing::BlockHash;

verus! {

/// Total supply cap.
pub const CTS_MAX_SUPPLY: u64 = 600_000_000;
/// Genesis allocation.
pub const CTS_GENESIS_ALLOCATION: u64 = 100_000_000;
/// Supply left for mining.
pub const CTS_MINING_SUPPLY: u64 = 500_000_000;
/// Initial mining reward.
pub const CTS_INITIAL_REWARD: u64 = 100;
/// Smallest reward ever paid.
pub const CTS_MINIMUM_REWARD: u64 = 1;

/// Reward of a block by transaction count: 500 for an empty block, two
/// less per transaction, and never below 1.
pub open spec fn reward_spec(tx_count: nat) -> nat {
    if 2 * tx_count + 1 >= 500 {
        1
    } else {
        (500 - 2 * tx_count) as nat
    }
}

/// Block reward for a block holding `tx_count` transactions.
pub fn calculate_reward(tx_count: usize) -> (r: u64)
    ensures
        r == reward_spec(tx_count as nat),
        1 <= r <= 500,
{
    if tx_count >= 250 {
        1
    } else {
        500 - 2 * (tx_count as u64)
    }
}

/// The top `r` bits (1 <= r <= 7) of a byte are zero.
pub open spec fn top_bits_zero(b: u8, r: u32) -> bool {
    (b >> ((8 - r) as u8)) == 0
}

/// A hash meets a difficulty given in leading-zero bits: the first
/// `difficulty / 8` bytes are zero (all 32 when it asks for more), and,
/// when `difficulty` is not a multiple of 8, the following byte exists and
/// its top `difficulty % 8` bits are zero.  Difficulty 0 always holds.
pub open spec fn meets_difficulty_spec(hash: Seq<u8>, difficulty: u32) -> bool {
    difficulty == 0 || ((forall|i: int| 0 <= i < difficulty / 8 && i < 32 ==> hash[i] == 0) && (
    difficulty % 8 != 0 ==> (difficulty / 8 < 32 && top_bits_zero(hash[(difficulty / 8) as int], difficulty % 8))))
}

/// Whether `hash` satisfies `difficulty` leading-zero bits.
pub fn meets_difficulty(hash: &BlockHash, difficulty: u32) -> (r: bool)
    ensures
        r == meets_difficulty_spec(hash@, difficulty),
{
    if difficulty == 0 {
        return true;
    }
    let zero_bytes = difficulty / 8;
    let mut i: usize = 0;
    while i < 32 && (i as u32) < zero_bytes
        invariant
            0 <= i <= 32,
            i <= zero_bytes,
            zero_bytes == difficulty / 8,
            forall|j: int| 0 <= j < i ==> hash@[j] == 0,
        decreases 32 - i,
    {
        if hash[i] != 0 {
            return false;
        }
        i = i + 1;
    }
    let rem_bits = difficulty % 8;
    if rem_bits > 0 {
        if zero_bytes >= 32 {
            return false;
        }
        let b = hash[zero_bytes as usize];
        let sh: u8 = (8 - rem_bits) as u8;
        let mask: u8 = 0xFFu8 << sh;
        let ok = (b & mask) == 0;
        assert(1 <= sh <= 7);
        assert(((b & (0xFFu8 << sh)) == 0) == ((b >> sh) == 0)) by (bit_vector)
            requires
                1 <= sh <= 7,
        ;
        if !ok {
            return false;
        }
    }
    true
}

/// The largest reward a miner may claim.
pub const MAX_REASONABLE_REWARD: u64 = 1000;

/// A claimed miner reward is positive and at most `MAX_REASONABLE_REWARD`
/// (the height only serves the warning).
pub fn validate_miner_reward(reward: u64, block_height: u64) -> (r: bool)
    ensures
        r == (0 < reward && reward <= MAX_REASONABLE_REWARD),
{
    reward != 0 && reward <= MAX_REASONABLE_REWARD
}

/// The last `w` entries of `s` (all of them when fewer).
pub open spec fn keep_last(s: Seq<u64>, w: nat) -> Seq<u64> {
    if s.len() > w { s.subrange(s.len() - w, s.len() as int) } else { s }
}

/// Gap between consecutive timestamps `i` and `i + 1`.
pub open spec fn gap(s: Seq<u64>, i: int) -> int {
    s[i + 1] - s[i]
}

/// Timestamps never decrease.
pub open spec fn non_decreasing(s: Seq<u64>) -> bool {
    forall|i: int, j: int| 0 <= i <= j < s.len() ==> s[i] <= s[j]
}

/// Some gap between consecutive blocks is more than ten times another.
pub open spec fn gaps_oscillate(s: Seq<u64>) -> bool {
    exists|i: int, j: int| 0 <= i < s.len() - 1 && 0 <= j < s.len() - 1 && #[trigger] gap(s, j) > 10 * #[trigger] gap(s, i)
}

/// The timestamps of the latest blocks, oldest first, at most `window`
/// of them: the window over which difficulty is adjusted.
pub struct BlockTimeWindow {
    timestamps: Vec<u64>,
    window: usize,
}

impl BlockTimeWindow {
    /// The timestamps held, oldest first.
    pub closed spec fn times(&self) -> Seq<u64> {
        self.timestamps@
    }

    /// The window size.
    pub closed spec fn window_spec(&self) -> nat {
        self.window as nat
    }

    /// An empty window of size `window`.
    pub fn new(window: usize) -> (r: BlockTimeWindow)
        ensures
            r.times() == Seq::<u64>::empty(),
            r.window_spec() == window,
    {
        BlockTimeWindow { timestamps: Vec::new(), window }
    }

    /// The window size.
    pub fn window(&self) -> (r: usize)
        ensures
            r == self.window_spec(),
    {
        self.window
    }

    /// The timestamps held, oldest first.
    pub fn timestamps(&self) -> (r: &Vec<u64>)
        ensures
            r@ == self.times(),
    {
        &self.timestamps
    }

    /// Adds a block's timestamp and drops the oldest beyond the window;
    /// true when the window is full, so that difficulty is to be adjusted.
    pub fn add_block(&mut self, timestamp: u64) -> (due: bool)
        ensures
            final(self).window_spec() == old(self).window_spec(),
            final(self).times() == keep_last(old(self).times().push(timestamp), old(self).window_spec()),
            due == (final(self).times().len() >= old(self).window_spec()),
    {
        self.timestamps.push(timestamp);
        let n = self.timestamps.len();
        if n > self.window {
            let ghost before = self.timestamps@;
            let start = n - self.window;
            let mut kept: Vec<u64> = Vec::new();
            let mut i: usize = start;
            while i < n
                invariant
                    n == before.len(),
                    before == self.timestamps@,
                    start <= i <= n,
                    kept@ == before.subrange(start as int, i as int),
                decreases n - i,
            {
                kept.push(self.timestamps[i]);
                i = i + 1;
                proof {
                    assert(kept@ =~= before.subrange(start as int, i as int));
                }
            }
            self.timestamps = kept;
        }
        self.timestamps.len() >= self.window
    }

    /// The window is full.
    pub fn should_adjust_difficulty(&self) -> (r: bool)
        ensures
            r == (self.times().len() >= self.window_spec()),
    {
        self.timestamps.len() >= self.window
    }

    /// A full window whose block gaps vary more than tenfold, a sign of
    /// difficulty oscillation. The gaps are differences of consecutive
    /// timestamps, which must not decrease, and ten times the smallest gap
    /// must fit in a `u64`.
    pub fn detect_oscillation(&self) -> (r: bool)
        requires
            self.times().len() >= self.window_spec() ==> non_decreasing(self.times()),
            self.times().len() >= self.window_spec() && self.times().len() >= 2
                ==> exists|i: int| 0 <= i < self.times().len() - 1 && 10 * #[trigger] gap(self.times(), i) <= u64::MAX,
        ensures
            r == (self.times().len() >= self.window_spec() && self.times().len() >= 2 && gaps_oscillate(self.times())),
    {
        let n = self.timestamps.len();
        if n < self.window || n < 2 {
            return false;
        }
        let s = &self.timestamps;
        let mut min_gap: u64 = s[1] - s[0];
        let mut max_gap: u64 = min_gap;
        let mut imin: usize = 0;
        let mut imax: usize = 0;
        let mut i: usize = 1;
        while i < n - 1
            invariant
                n == s@.len(),
                n >= 2,
                non_decreasing(s@),
                1 <= i <= n - 1,
                0 <= imin < i && 0 <= imax < i,
                min_gap == gap(s@, imin as int),
                max_gap == gap(s@, imax as int),
                forall|k: int| 0 <= k < i ==> gap(s@, imin as int) <= #[trigger] gap(s@, k) <= gap(s@, imax as int),
            decreases n - 1 - i,
        {
            let g = s[i + 1] - s[i];
            if g < min_gap {
                min_gap = g;
                imin = i;
            }
            if g > max_gap {
                max_gap = g;
                imax = i;
            }
            i = i + 1;
        }
        proof {
            let k = choose|k: int| 0 <= k < n - 1 && 10 * #[trigger] gap(s@, k) <= u64::MAX;
            assert(gap(s@, imin as int) <= gap(s@, k));
        }
        let r = max_gap > min_gap * 10;
        proof {
            if r {
                assert(gap(s@, imax as int) > 10 * gap(s@, imin as int));
            } else {
                assert forall|a: int, b: int| 0 <= a < n - 1 && 0 <= b < n - 1 implies !(#[trigger] gap(s@, b) > 10 * #[trigger] gap(s@, a)) by {
                    assert(gap(s@, imin as int) <= gap(s@, a));
                    assert(gap(s@, b) <= gap(s@, imax as int));
                }
            }
        }
        r
    }
}

} // verus!
