//! Difficulty adjustment over a moving window of recent blocks.
use vstd::prelude::*;
use crate::block::{Block, same_block};
use crate::hashing::BlockHash;
use crate::blockdag::{BlockDAG, is_topological_order, blocks_along};
use crate::storage::has_hash;

verus! {

/// Number of most recent blocks the adjustment looks at.
pub const DAA_WINDOW: usize = 263;
/// Target seconds per block.
pub const TARGET_BLOCK_TIME: u64 = 1;
/// Largest single timestamp gap that counts, in seconds.
pub const MAX_GAP: u64 = 4;

/// Clamped time between two consecutive timestamps: 0 when time went
/// backwards, at most `MAX_GAP`.
pub open spec fn clamped_gap(prev: u64, next: u64) -> int {
    if next > prev {
        if next - prev > MAX_GAP { MAX_GAP as int } else { next - prev }
    } else {
        0
    }
}

/// Sum of clamped gaps of `ts[lo..hi]` (consecutive pairs).
pub open spec fn clamped_span(ts: Seq<u64>, lo: int, hi: int) -> int
    decreases hi - lo,
{
    if hi - lo <= 1 {
        0
    } else {
        clamped_span(ts, lo, hi - 1) + clamped_gap(ts[hi - 2], ts[hi - 1])
    }
}

/// Timestamps of a block sequence.
pub open spec fn timestamps_of(blocks: Seq<Block>) -> Seq<u64> {
    blocks.map_values(|b: Block| b.header.timestamp)
}

/// The next difficulty from a previous difficulty and the clamped timespan
/// of the last window: the previous value scaled by `actual / expected`
/// (with the ratio held within [1/4, 4]) and rounded to nearest, then kept
/// within [1, u32::MAX].
pub open spec fn scaled_difficulty(prev: u32, actual: int) -> int {
    let expected = DAA_WINDOW as int;
    let raw = if 4 * actual < expected {
        (prev + 2) / 4
    } else if actual > 4 * expected {
        4 * prev
    } else {
        (2 * prev * actual + expected) / (2 * expected)
    };
    if raw < 1 {
        1
    } else if raw > u32::MAX {
        u32::MAX as int
    } else {
        raw
    }
}

/// Next difficulty for chronologically ordered blocks: with fewer blocks
/// than the window, the last block's difficulty (1 with no block).
pub open spec fn next_difficulty_spec(blocks: Seq<Block>) -> int {
    if blocks.len() < DAA_WINDOW {
        if blocks.len() == 0 { 1 } else { blocks.last().header.difficulty as int }
    } else {
        scaled_difficulty(
            blocks.last().header.difficulty,
            clamped_span(timestamps_of(blocks), blocks.len() - DAA_WINDOW, blocks.len() as int),
        )
    }
}

proof fn lemma_span_bound(ts: Seq<u64>, lo: int, hi: int)
    requires
        lo <= hi,
    ensures
        0 <= clamped_span(ts, lo, hi) <= 4 * (hi - lo),
    decreases hi - lo,
{
    if hi - lo > 1 {
        lemma_span_bound(ts, lo, hi - 1);
    }
}

/// The adjustment scales the most recent block's difficulty and nothing
/// else: two windows with the same timestamps whose last blocks have the
/// same difficulty get the same next difficulty, whatever the difficulties
/// of the earlier blocks.
pub proof fn lemma_difficulty_from_latest(a: Seq<Block>, b: Seq<Block>)
    requires
        a.len() == b.len(),
        a.len() > 0,
        forall|i: int| 0 <= i < a.len() ==> #[trigger] a[i].header.timestamp == b[i].header.timestamp,
        a.last().header.difficulty == b.last().header.difficulty,
    ensures
        next_difficulty_spec(a) == next_difficulty_spec(b),
{
    assert(timestamps_of(a) =~= timestamps_of(b)) by {
        assert forall|i: int| 0 <= i < a.len() implies timestamps_of(a)[i] == timestamps_of(b)[i] by {
            assert(a[i].header.timestamp == b[i].header.timestamp);
        }
    }
}

/// With a full window, the next difficulty is the most recent block's
/// difficulty `d` times `span / DAA_WINDOW`, where `span` is the window's
/// clamped timespan, rounded to nearest and kept within [1, u32::MAX]; when
/// the window ran more than four times too fast, it is `d / 4` rounded.
/// In particular a window that took exactly `DAA_WINDOW` seconds keeps the
/// difficulty.
pub proof fn lemma_difficulty_tracks_pace(s: Seq<Block>)
    requires
        s.len() >= DAA_WINDOW,
    ensures
        ({
            let d = s.last().header.difficulty as int;
            let span = clamped_span(timestamps_of(s), s.len() - DAA_WINDOW, s.len() as int);
            let r = next_difficulty_spec(s);
            &&& 1 <= r <= u32::MAX
            &&& 4 * span >= DAA_WINDOW ==> {
                &&& (r == 1 || 2 * DAA_WINDOW * r <= 2 * d * span + DAA_WINDOW)
                &&& (r == u32::MAX || 2 * d * span + DAA_WINDOW < 2 * DAA_WINDOW * (r + 1))
            }
            &&& 4 * span < DAA_WINDOW ==> (r == 1 || (4 * r <= d + 2 && d + 2 < 4 * r + 4))
            &&& (span == DAA_WINDOW && d >= 1 ==> r == d)
        }),
{
    let d = s.last().header.difficulty as int;
    let span = clamped_span(timestamps_of(s), s.len() - DAA_WINDOW, s.len() as int);
    lemma_span_bound(timestamps_of(s), s.len() - DAA_WINDOW, s.len() as int);
    let x = 2 * d * span;
    assert(x >= 0) by (nonlinear_arith)
        requires
            d >= 0,
            span >= 0,
            x == 2 * d * span,
    ;
    let raw = (x + 263) / 526;
    assert(526 * raw <= x + 263 && x + 263 < 526 * raw + 526) by (nonlinear_arith)
        requires
            x >= 0,
            raw == (x + 263) / 526,
    ;
    let q = (d + 2) / 4;
    assert(4 * q <= d + 2 && d + 2 < 4 * q + 4) by (nonlinear_arith)
        requires
            d >= 0,
            q == (d + 2) / 4,
    ;
    if span == DAA_WINDOW && d >= 1 {
        assert(x == 526 * d) by (nonlinear_arith)
            requires
                x == 2 * d * span,
                span == 263,
        ;
        assert(raw == d) by (nonlinear_arith)
            requires
                526 * raw <= x + 263,
                x + 263 < 526 * raw + 526,
                x == 526 * d,
        ;
    }
}

/// Timestamps one second apart give a clamped span of one second per gap.
proof fn lemma_span_uniform(ts: Seq<u64>, lo: int, hi: int)
    requires
        0 <= lo < hi <= ts.len(),
        forall|k: int| lo <= k < hi - 1 ==> #[trigger] ts[k + 1] == ts[k] + 1,
    ensures
        clamped_span(ts, lo, hi) == hi - lo - 1,
    decreases hi - lo,
{
    if hi - lo > 1 {
        lemma_span_uniform(ts, lo, hi - 1);
        assert(ts[hi - 2 + 1] == ts[hi - 2] + 1);
    }
}

/// When the blocks of a full window are exactly one second apart, the
/// window spans `DAA_WINDOW - 1` seconds, and the next difficulty is the
/// most recent block's difficulty `d` times `(DAA_WINDOW - 1) / DAA_WINDOW`,
/// rounded to nearest (at least 1).
pub proof fn lemma_difficulty_one_second_apart(s: Seq<Block>)
    requires
        s.len() >= DAA_WINDOW,
        forall|k: int| s.len() - DAA_WINDOW <= k < s.len() - 1
            ==> #[trigger] s[k + 1].header.timestamp == s[k].header.timestamp + 1,
    ensures
        ({
            let d = s.last().header.difficulty as int;
            let r = next_difficulty_spec(s);
            &&& (r == 1 || 2 * DAA_WINDOW * r <= 2 * d * (DAA_WINDOW - 1) + DAA_WINDOW)
            &&& 2 * d * (DAA_WINDOW - 1) + DAA_WINDOW < 2 * DAA_WINDOW * (r + 1)
        }),
{
    let ts = timestamps_of(s);
    assert forall|k: int| s.len() - DAA_WINDOW <= k < s.len() - 1 implies #[trigger] ts[k + 1] == ts[k] + 1 by {
        assert(s[k + 1].header.timestamp == s[k].header.timestamp + 1);
    }
    lemma_span_uniform(ts, s.len() - DAA_WINDOW, s.len() as int);
    lemma_difficulty_tracks_pace(s);
    let d = s.last().header.difficulty as int;
    let r = next_difficulty_spec(s);
    assert(r <= u32::MAX);
    assert(2 * d * 262 + 263 < 2 * 263 * (u32::MAX as int + 1)) by (nonlinear_arith)
        requires
            0 <= d <= u32::MAX,
    ;
}

/// Rounded scaling of the previous difficulty.
fn scale(prev: u32, actual: u64) -> (r: u32)
    requires
        actual <= 4 * DAA_WINDOW,
    ensures
        r == scaled_difficulty(prev, actual as int),
{
    let expected: u64 = DAA_WINDOW as u64;
    let p = prev as u64;
    let raw: u64 = if 4 * actual < expected {
        (p + 2) / 4
    } else if actual > 4 * expected {
        4 * p
    } else {
        assert(2 * p * actual <= 2 * 4294967295u64 * 1052) by (nonlinear_arith)
            requires
                p <= 4294967295u64,
                actual <= 1052,
        ;
        (2 * p * actual + expected) / (2 * expected)
    };
    if raw < 1 {
        1
    } else if raw > u32::MAX as u64 {
        u32::MAX
    } else {
        raw as u32
    }
}

/// The next difficulty for a chronologically ordered slice of blocks.
pub fn calculate_next_difficulty(blocks: &[Block]) -> (r: u32)
    ensures
        r == next_difficulty_spec(blocks@),
{
    let n = blocks.len();
    if n < DAA_WINDOW {
        if n == 0 {
            return 1;
        }
        return blocks[n - 1].header.difficulty;
    }
    let start = n - DAA_WINDOW;
    let ghost ts = timestamps_of(blocks@);
    let mut actual: u64 = 0;
    let mut prev_ts = blocks[start].header.timestamp;
    let mut i: usize = start + 1;
    while i < n
        invariant
            start + 1 <= i <= n,
            n == blocks@.len(),
            start == n - DAA_WINDOW,
            ts == timestamps_of(blocks@),
            prev_ts == ts[i - 1],
            actual == clamped_span(ts, start as int, i as int),
            actual <= 4 * (i - start),
        decreases n - i,
    {
        let t = blocks[i].header.timestamp;
        let delta: u64 = if t > prev_ts { t - prev_ts } else { 0 };
        let step: u64 = if delta > MAX_GAP { MAX_GAP } else { delta };
        actual = actual + step;
        prev_ts = t;
        i = i + 1;
    }
    scale(blocks[n - 1].header.difficulty, actual)
}

/// The last `DAA_WINDOW` hashes of `o` (all of them when there are fewer).
pub open spec fn last_window(o: Seq<BlockHash>) -> Seq<BlockHash> {
    if o.len() < DAA_WINDOW { o } else { o.subrange(o.len() - DAA_WINDOW, o.len() as int) }
}

/// Copies agree on timestamps and difficulty, so on the next difficulty.
proof fn lemma_same_blocks_difficulty(a: Seq<Block>, b: Seq<Block>)
    requires
        a.len() == b.len(),
        forall|i: int| 0 <= i < a.len() ==> same_block(#[trigger] a[i], b[i]),
    ensures
        next_difficulty_spec(a) == next_difficulty_spec(b),
{
    assert(timestamps_of(a) =~= timestamps_of(b)) by {
        assert forall|i: int| 0 <= i < a.len() implies timestamps_of(a)[i] == timestamps_of(b)[i] by {
            assert(same_block(a[i], b[i]));
        }
    }
    if a.len() > 0 {
        assert(same_block(a[a.len() - 1], b[b.len() - 1]));
    }
}

/// The next difficulty for the DAG: the adjustment applied to the last
/// `DAA_WINDOW` blocks of its topological order.
pub fn next_difficulty(dag: &BlockDAG) -> (r: u32)
    requires
        dag.wf(),
    ensures
        exists|o: Seq<BlockHash>| #[trigger] is_topological_order(o, dag.blocks())
            && r == next_difficulty_spec(blocks_along(dag.blocks(), last_window(o))),
{
    let order = dag.get_topological_order();
    let n = order.len();
    let start: usize = if n < DAA_WINDOW { 0 } else { n - DAA_WINDOW };
    let ghost s = dag.blocks();
    let ghost win = last_window(order@);
    let mut recent: Vec<Block> = Vec::new();
    let mut i: usize = start;
    while i < n
        invariant
            dag.wf(),
            s == dag.blocks(),
            n == order@.len(),
            start <= i <= n,
            start == (if n < DAA_WINDOW { 0 } else { n - DAA_WINDOW }),
            forall|x: BlockHash| order@.contains(x) <==> has_hash(s, x),
            recent@.len() == i - start,
            forall|j: int| 0 <= j < recent@.len() ==> same_block(s[crate::storage::index_of(s, order@[start + j])], #[trigger] recent@[j]),
        decreases n - i,
    {
        proof { assert(order@.contains(order@[i as int])); }
        match dag.get_block(&order[i]) {
            Some(b) => {
                recent.push(b);
            },
            None => {},
        }
        i = i + 1;
    }
    proof {
        let along = blocks_along(s, win);
        assert(win =~= order@.subrange(start as int, n as int));
        assert(along.len() == recent@.len());
        assert forall|j: int| 0 <= j < along.len() implies same_block(#[trigger] along[j], recent@[j]) by {
            assert(along[j] == s[crate::storage::index_of(s, order@[start + j])]);
        }
        lemma_same_blocks_difficulty(along, recent@);
        assert(is_topological_order(order@, s));
    }
    calculate_next_difficulty(recent.as_slice())
}

} // verus!
