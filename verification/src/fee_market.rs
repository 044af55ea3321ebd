//! Base-fee adjustment in the style of EIP-1559: the fee rises by a tenth
//! after a block more than half full and falls by a tenth otherwise.
use vstd::prelude::*;
use crate::hashing::BlockHash;
use crate::block::Block;
use crate::blockdag::{BlockDAG, is_topological_order};
use crate::storage::{has_hash, index_of, parents_of};
use crate::dag_index::{is_tip_of, is_some_parent};

verus! {

/// Percent increase after a full block.
pub const BASE_FEE_ADJUST_UP_PERCENT: u64 = 10;
/// Percent decrease after a block that is not full.
pub const BASE_FEE_ADJUST_DOWN_PERCENT: u64 = 10;
/// The smallest base fee.
pub const BASE_FEE_MIN: u64 = 1;
/// Nominal number of transactions a block holds.
pub const TARGET_TXS_PER_BLOCK: u64 = 1000;

/// The base fee after a block with base fee `fee` and `tx_count`
/// transactions.
pub open spec fn base_fee_after(fee: u64, tx_count: int) -> int {
    let prev: int = if fee < BASE_FEE_MIN { BASE_FEE_MIN as int } else { fee as int };
    let next: int = if 2 * tx_count > TARGET_TXS_PER_BLOCK {
        prev + prev * BASE_FEE_ADJUST_UP_PERCENT / 100
    } else {
        prev - prev * BASE_FEE_ADJUST_DOWN_PERCENT / 100
    };
    if next < BASE_FEE_MIN { BASE_FEE_MIN as int } else { next }
}

/// The next base fee after the last block of `o`; the minimum when `o` is empty.
pub open spec fn next_base_fee_spec(s: Seq<Block>, o: Seq<BlockHash>) -> int {
    if o.len() == 0 {
        BASE_FEE_MIN as int
    } else {
        let b = s[index_of(s, o.last())];
        base_fee_after(b.header.base_fee, b.transactions@.len() as int)
    }
}

/// After a block more than half full the base fee does not fall, after any
/// other block it does not rise, and it never drops below the minimum.
pub proof fn lemma_fee_direction(fee: u64, tx_count: int)
    ensures
        base_fee_after(fee, tx_count) >= BASE_FEE_MIN,
        2 * tx_count > TARGET_TXS_PER_BLOCK ==> base_fee_after(fee, tx_count) >= fee,
        2 * tx_count <= TARGET_TXS_PER_BLOCK && fee >= BASE_FEE_MIN ==> base_fee_after(fee, tx_count) <= fee,
{
}

/// The change is proportional to the previous fee: after a block more than
/// half full the fee becomes 110% of the previous one rounded down, after
/// any other block 90% of it rounded up. A previous fee of 0 counts as the
/// minimum.
pub proof fn lemma_fee_proportional(fee: u64, tx_count: int)
    ensures
        fee >= 1 && 2 * tx_count > 1000 ==> {
            let r = base_fee_after(fee, tx_count);
            100 * r <= 110 * fee && 110 * fee < 100 * r + 100
        },
        fee >= 1 && 2 * tx_count <= 1000 ==> {
            let r = base_fee_after(fee, tx_count);
            90 * fee <= 100 * r && 100 * r < 90 * fee + 100
        },
        base_fee_after(0, tx_count) == base_fee_after(1, tx_count),
{
    let f = fee as int;
    let q = f * 10 / 100;
    assert(10 * q <= f && f < 10 * q + 10) by (nonlinear_arith)
        requires
            f >= 0,
            q == f * 10 / 100,
    ;
}

/// The adjusted fee for one block.
fn adjust_base_fee(fee: u64, tx_count: usize) -> (r: u64)
    requires
        fee <= u64::MAX / 10,
    ensures
        r == base_fee_after(fee, tx_count as int),
{
    let prev: u64 = if fee < BASE_FEE_MIN { BASE_FEE_MIN } else { fee };
    let next: u64 = if tx_count > 500 {
        prev + prev * BASE_FEE_ADJUST_UP_PERCENT / 100
    } else {
        prev - prev * BASE_FEE_ADJUST_DOWN_PERCENT / 100
    };
    if next < BASE_FEE_MIN { BASE_FEE_MIN } else { next }
}

/// The last hash of a topological order is a tip: nothing stored builds
/// on it.
pub proof fn lemma_last_is_tip(o: Seq<BlockHash>, s: Seq<Block>)
    requires
        crate::storage::distinct_hashes(s),
        is_topological_order(o, s),
        o.len() > 0,
    ensures
        is_tip_of(s, o.last()),
{
    let last = o.last();
    assert(o.contains(last));
    if is_some_parent(s, last) {
        let i = choose|i: int| 0 <= i < s.len() && #[trigger] s[i].header.parent_hashes@.contains(last);
        crate::storage::lemma_index_of(s, i);
        assert(has_hash(s, s[i].hash));
        assert(o.contains(s[i].hash));
        let k = choose|k: int| 0 <= k < o.len() && o[k] == s[i].hash;
        assert(parents_of(s, o[k]).contains(last));
        let j = choose|j: int| 0 <= j < k && o[j] == last;
        assert(o[o.len() - 1] == last);
    }
}

/// The base fee for the next block, from the last block of the DAG's
/// topological order, which is a tip. The base fee of every tip must be at
/// most a tenth of `u64::MAX`, so that the adjustment cannot overflow.
pub fn next_base_fee(dag: &BlockDAG) -> (r: u64)
    requires
        dag.wf(),
        forall|h: BlockHash| #[trigger] is_tip_of(dag.blocks(), h)
            ==> dag.blocks()[index_of(dag.blocks(), h)].header.base_fee <= u64::MAX / 10,
    ensures
        exists|o: Seq<BlockHash>| #[trigger] is_topological_order(o, dag.blocks()) && r == next_base_fee_spec(dag.blocks(), o),
{
    let order = dag.get_topological_order();
    let ghost s = dag.blocks();
    proof { assert(is_topological_order(order@, s)); }
    let n = order.len();
    if n == 0 {
        return BASE_FEE_MIN;
    }
    proof {
        assert(order@.contains(order@[n - 1]));
        dag.lemma_wf();
        lemma_last_is_tip(order@, s);
        assert(is_tip_of(s, order@[n - 1]));
    }
    match dag.get_block(&order[n - 1]) {
        Some(b) => {
            proof {
                let ix = index_of(s, order@[n - 1]);
                assert(0 <= ix < s.len() && s[ix].hash == order@[n - 1]);
            }
            adjust_base_fee(b.header.base_fee, b.transactions.len())
        },
        None => BASE_FEE_MIN,
    }
}

} // verus!
