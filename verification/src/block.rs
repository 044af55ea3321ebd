//! Blocks: header, hashing, reward and basic validation.
use vstd::prelude::*;
use vstd::bytes::{u64_to_le_bytes, spec_u64_to_le_bytes, u32_to_le_bytes, spec_u32_to_le_bytes};
use crate::hashing::{BlockHash, Address, hash_eq, copy_hashes, append_bytes, sha256, sha256_spec, hex_encode, hex_spec, now_unix_secs};
use crate::transaction::{Transaction, tx_hash_spec, same_tx};
use crate::mining::{calculate_reward, reward_spec, meets_difficulty, meets_difficulty_spec};

verus! {

/// Header fields covered by the block hash and proof of work.
#[derive(Debug, Clone)]
pub struct BlockHeader {
    pub parent_hashes: Vec<BlockHash>,
    pub timestamp: u64,
    pub nonce: u64,
    /// Required leading-zero bits of the block hash (0: no proof of work).
    pub difficulty: u32,
    /// Base fee per gas unit burned by this block.
    pub base_fee: u64,
    /// Root of the state after this block.
    pub state_root: [u8; 32],
    pub version: u32,
}

/// A block of the DAG.  The reward is kept in whole units.
#[derive(Debug, Clone)]
pub struct Block {
    pub hash: BlockHash,
    pub header: BlockHeader,
    pub transactions: Vec<Transaction>,
    pub producer: Address,
    pub reward: u64,
}

/// Concatenation of a sequence of hashes.
pub open spec fn concat_hashes(s: Seq<BlockHash>) -> Seq<u8>
    decreases s.len(),
{
    if s.len() == 0 {
        Seq::empty()
    } else {
        concat_hashes(s.drop_last()) + s.last()@
    }
}

/// Concatenation of the hashes of a sequence of transactions.
pub open spec fn concat_tx_hashes(s: Seq<Transaction>) -> Seq<u8>
    decreases s.len(),
{
    if s.len() == 0 {
        Seq::empty()
    } else {
        concat_tx_hashes(s.drop_last()) + tx_hash_spec(s.last())
    }
}

/// The bytes a block hash covers: parents, transaction hashes, then the
/// header metadata and the producer.
pub open spec fn block_preimage(b: Block) -> Seq<u8> {
    concat_hashes(b.header.parent_hashes@) + concat_tx_hashes(b.transactions@) + spec_u64_to_le_bytes(
        b.header.timestamp,
    ) + spec_u64_to_le_bytes(b.header.nonce) + spec_u32_to_le_bytes(b.header.difficulty)
        + spec_u64_to_le_bytes(b.header.base_fee) + b.header.state_root@ + spec_u32_to_le_bytes(
        b.header.version,
    ) + b.producer@
}

/// The hash a block's content determines.
pub open spec fn block_hash_spec(b: Block) -> Seq<u8> {
    sha256_spec(block_preimage(b))
}

/// Priority fee of one transaction: what its gas price pays above the base fee.
pub open spec fn tip(tx: Transaction, base_fee: u64) -> int {
    if tx.gas_price > base_fee { tx.gas_price - base_fee } else { 0 }
}

/// Sum of priority fees.
pub open spec fn total_tips(txs: Seq<Transaction>, base_fee: u64) -> int
    decreases txs.len(),
{
    if txs.len() == 0 {
        0
    } else {
        total_tips(txs.drop_last(), base_fee) + tip(txs.last(), base_fee)
    }
}

/// Reward a block must carry: base reward for its size plus all tips.
pub open spec fn expected_reward(txs: Seq<Transaction>, base_fee: u64) -> int {
    reward_spec(txs.len()) + total_tips(txs, base_fee)
}

/// No two transactions of a block share a hash.
pub open spec fn tx_hashes_distinct(txs: Seq<Transaction>) -> bool {
    forall|i: int, j: int|
        0 <= i < j < txs.len() ==> tx_hash_spec(#[trigger] txs[i]) != tx_hash_spec(#[trigger] txs[j])
}

/// Maximum seconds a block timestamp may run ahead of the clock.
pub const MAX_FUTURE_SECS: u64 = 3600;

/// A block passes basic validation at clock time `now`.
pub open spec fn block_valid_at(b: Block, now: u64) -> bool {
    &&& b.hash@ == block_hash_spec(b)
    &&& (b.header.difficulty > 0 ==> meets_difficulty_spec(b.hash@, b.header.difficulty))
    &&& b.reward == expected_reward(b.transactions@, b.header.base_fee)
    &&& tx_hashes_distinct(b.transactions@)
    &&& b.header.timestamp <= now + MAX_FUTURE_SECS
}

/// Priority fees add up over a split of the transaction list, and one
/// transaction pays what its gas price exceeds the base fee by (nothing
/// when it does not exceed it).
pub proof fn lemma_tips_additive(a: Seq<Transaction>, c: Seq<Transaction>, base_fee: u64)
    ensures
        total_tips(a + c, base_fee) == total_tips(a, base_fee) + total_tips(c, base_fee),
        a.len() == 1 ==> total_tips(a, base_fee) == if a[0].gas_price > base_fee { a[0].gas_price - base_fee } else { 0 },
    decreases c.len(),
{
    if a.len() == 1 {
        assert(a.drop_last() =~= Seq::<Transaction>::empty());
        assert(total_tips(a.drop_last(), base_fee) == 0);
        assert(a.last() == a[0]);
    }
    if c.len() == 0 {
        assert(a + c =~= a);
    } else {
        lemma_tips_additive(a, c.drop_last(), base_fee);
        assert((a + c).drop_last() =~= a + c.drop_last());
    }
}

/// A block that passes basic validation carries the hash of its content,
/// claims exactly the base reward for its number of transactions plus the
/// priority fees of all of them, holds no transaction twice, and is dated at
/// most an hour after the validation time. Any other block is refused.
pub proof fn lemma_valid_block_properties(b: Block, now: u64)
    requires
        block_valid_at(b, now),
    ensures
        b.hash@ == sha256_spec(block_preimage(b)),
        b.reward == reward_spec(b.transactions@.len()) + total_tips(b.transactions@, b.header.base_fee),
        forall|i: int, j: int| 0 <= i < j < b.transactions@.len()
            ==> tx_hash_spec(#[trigger] b.transactions@[i]) != tx_hash_spec(#[trigger] b.transactions@[j]),
        b.header.timestamp <= now + 3600,
{
}

/// Two blocks hold the same values.
pub open spec fn same_block(a: Block, b: Block) -> bool {
    &&& a.hash == b.hash
    &&& a.header.parent_hashes@ == b.header.parent_hashes@
    &&& a.header.timestamp == b.header.timestamp
    &&& a.header.nonce == b.header.nonce
    &&& a.header.difficulty == b.header.difficulty
    &&& a.header.base_fee == b.header.base_fee
    &&& a.header.state_root == b.header.state_root
    &&& a.header.version == b.header.version
    &&& a.transactions@.len() == b.transactions@.len()
    &&& forall|i: int| 0 <= i < a.transactions@.len() ==> same_tx(a.transactions@[i], b.transactions@[i])
    &&& a.producer == b.producer
    &&& a.reward == b.reward
}

proof fn lemma_tips_step(txs: Seq<Transaction>, i: int, base_fee: u64)
    requires
        0 <= i < txs.len(),
    ensures
        total_tips(txs.subrange(0, i + 1), base_fee) == total_tips(txs.subrange(0, i), base_fee) + tip(
            txs[i],
            base_fee,
        ),
{
    assert(txs.subrange(0, i + 1).drop_last() =~= txs.subrange(0, i));
}

proof fn lemma_tips_bound(txs: Seq<Transaction>, base_fee: u64)
    ensures
        0 <= total_tips(txs, base_fee) <= txs.len() * 18446744073709551615,
    decreases txs.len(),
{
    if txs.len() > 0 {
        lemma_tips_bound(txs.drop_last(), base_fee);
    }
}

/// Sum of the priority fees of `txs`, exactly.
fn sum_tips(txs: &Vec<Transaction>, base_fee: u64) -> (r: u128)
    ensures
        r == total_tips(txs@, base_fee),
        r <= txs@.len() * 18446744073709551615,
{
    proof { lemma_tips_bound(txs@, base_fee); }
    let mut total: u128 = 0;
    let mut i: usize = 0;
    while i < txs.len()
        invariant
            0 <= i <= txs.len(),
            total == total_tips(txs@.subrange(0, i as int), base_fee),
        decreases txs.len() - i,
    {
        proof {
            lemma_tips_step(txs@, i as int, base_fee);
            lemma_tips_bound(txs@.subrange(0, i + 1), base_fee);
            assert(i + 1 <= usize::MAX);
            assert((i + 1) * 18446744073709551615 <= 18446744073709551616 * 18446744073709551615) by (nonlinear_arith)
                requires i + 1 <= 18446744073709551616;
        }
        let g = txs[i].gas_price;
        let t: u64 = if g > base_fee { g - base_fee } else { 0 };
        total = total + t as u128;
        i = i + 1;
    }
    assert(txs@.subrange(0, txs.len() as int) =~= txs@);
    total
}

/// The reward a block of `txs` earns, if it fits in 64 bits.
pub fn checked_block_reward(txs: &Vec<Transaction>, base_fee: u64) -> (r: Option<u64>)
    ensures
        r matches Some(x) ==> x == expected_reward(txs@, base_fee),
        r is None ==> expected_reward(txs@, base_fee) > u64::MAX,
{
    let tips = sum_tips(txs, base_fee);
    let base = calculate_reward(txs.len());
    if tips > (u64::MAX - base) as u128 {
        None
    } else {
        Some(base + tips as u64)
    }
}

/// Whether all transaction hashes of `txs` differ.
fn tx_hashes_all_distinct(txs: &Vec<Transaction>) -> (r: bool)
    ensures
        r == tx_hashes_distinct(txs@),
{
    let mut hashes: Vec<[u8; 32]> = Vec::new();
    let mut i: usize = 0;
    while i < txs.len()
        invariant
            0 <= i <= txs.len(),
            hashes@.len() == i,
            forall|k: int| 0 <= k < i ==> hashes@[k]@ == tx_hash_spec(txs@[k]),
            forall|a: int, b: int| 0 <= a < b < i ==> tx_hash_spec(txs@[a]) != tx_hash_spec(txs@[b]),
        decreases txs.len() - i,
    {
        let h = txs[i].hash();
        let mut j: usize = 0;
        while j < i
            invariant
                0 <= j <= i,
                i < txs.len(),
                hashes@.len() == i,
                h@ == tx_hash_spec(txs@[i as int]),
                forall|k: int| 0 <= k < i ==> hashes@[k]@ == tx_hash_spec(txs@[k]),
                forall|k: int| 0 <= k < j ==> tx_hash_spec(txs@[k]) != tx_hash_spec(txs@[i as int]),
            decreases i - j,
        {
            if hash_eq(&hashes[j], &h) {
                assert(!tx_hashes_distinct(txs@)) by {
                    assert(tx_hash_spec(txs@[j as int]) == tx_hash_spec(txs@[i as int]));
                }
                return false;
            }
            proof {
                if tx_hash_spec(txs@[j as int]) == tx_hash_spec(txs@[i as int]) {
                    crate::hashing::lemma_hash_view_eq(hashes@[j as int], h);
                }
            }
            j = j + 1;
        }
        hashes.push(h);
        i = i + 1;
    }
    true
}

impl BlockHeader {
    /// A deep copy.
    pub fn copy(&self) -> (r: BlockHeader)
        ensures
            r.parent_hashes@ == self.parent_hashes@,
            r.timestamp == self.timestamp,
            r.nonce == self.nonce,
            r.difficulty == self.difficulty,
            r.base_fee == self.base_fee,
            r.state_root == self.state_root,
            r.version == self.version,
    {
        BlockHeader {
            parent_hashes: copy_hashes(&self.parent_hashes),
            timestamp: self.timestamp,
            nonce: self.nonce,
            difficulty: self.difficulty,
            base_fee: self.base_fee,
            state_root: self.state_root,
            version: self.version,
        }
    }
}

impl Block {
    /// Builds a block, computing its reward (base reward plus tips) and hash.
    pub fn new(
        parent_hashes: Vec<BlockHash>,
        timestamp: u64,
        transactions: Vec<Transaction>,
        nonce: u64,
        difficulty: u32,
        base_fee: u64,
        producer: Address,
        state_root: [u8; 32],
    ) -> (r: Block)
        requires
            expected_reward(transactions@, base_fee) <= u64::MAX,
        ensures
            r.header.parent_hashes@ == parent_hashes@,
            r.header.timestamp == timestamp,
            r.header.nonce == nonce,
            r.header.difficulty == difficulty,
            r.header.base_fee == base_fee,
            r.header.state_root == state_root,
            r.header.version == 1,
            r.transactions@ == transactions@,
            r.producer == producer,
            r.reward == expected_reward(transactions@, base_fee),
            r.hash@ == block_hash_spec(r),
    {
        let tips = sum_tips(&transactions, base_fee);
        let base = calculate_reward(transactions.len());
        let reward: u64 = (base as u128 + tips) as u64;
        let header = BlockHeader { parent_hashes, timestamp, nonce, difficulty, base_fee, state_root, version: 1 };
        let mut block = Block { hash: [0u8; 32], header, transactions, producer, reward };
        let h = block.calculate_hash();
        let ghost before = block;
        block.hash = h;
        proof {
            assert(block_preimage(block) =~= block_preimage(before));
        }
        block
    }

    /// The bytes the block hash covers.
    pub fn preimage(&self) -> (r: Vec<u8>)
        ensures
            r@ == block_preimage(*self),
    {
        let mut out: Vec<u8> = Vec::new();
        let mut i: usize = 0;
        while i < self.header.parent_hashes.len()
            invariant
                0 <= i <= self.header.parent_hashes@.len(),
                out@ == concat_hashes(self.header.parent_hashes@.subrange(0, i as int)),
            decreases self.header.parent_hashes@.len() - i,
        {
            append_bytes(&mut out, self.header.parent_hashes[i].as_slice());
            proof {
                let s = self.header.parent_hashes@.subrange(0, i + 1);
                assert(s.drop_last() =~= self.header.parent_hashes@.subrange(0, i as int));
            }
            i = i + 1;
        }
        assert(self.header.parent_hashes@.subrange(0, i as int) =~= self.header.parent_hashes@);
        let ghost after_parents = out@;
        let mut j: usize = 0;
        while j < self.transactions.len()
            invariant
                0 <= j <= self.transactions@.len(),
                out@ == after_parents + concat_tx_hashes(self.transactions@.subrange(0, j as int)),
            decreases self.transactions@.len() - j,
        {
            let h = self.transactions[j].hash();
            append_bytes(&mut out, h.as_slice());
            proof {
                let s = self.transactions@.subrange(0, j + 1);
                assert(s.drop_last() =~= self.transactions@.subrange(0, j as int));
                assert(out@ =~= after_parents + concat_tx_hashes(s));
            }
            j = j + 1;
        }
        assert(self.transactions@.subrange(0, j as int) =~= self.transactions@);
        let a = u64_to_le_bytes(self.header.timestamp);
        append_bytes(&mut out, a.as_slice());
        let b = u64_to_le_bytes(self.header.nonce);
        append_bytes(&mut out, b.as_slice());
        let c = u32_to_le_bytes(self.header.difficulty);
        append_bytes(&mut out, c.as_slice());
        let d = u64_to_le_bytes(self.header.base_fee);
        append_bytes(&mut out, d.as_slice());
        append_bytes(&mut out, self.header.state_root.as_slice());
        let e = u32_to_le_bytes(self.header.version);
        append_bytes(&mut out, e.as_slice());
        append_bytes(&mut out, self.producer.as_slice());
        assert(out@ =~= block_preimage(*self));
        out
    }

    /// SHA-256 of the block content.
    pub fn calculate_hash(&self) -> (r: BlockHash)
        ensures
            r@ == block_hash_spec(*self),
    {
        let bytes = self.preimage();
        sha256(bytes.as_slice())
    }

    /// Basic validation against an explicit clock time.
    pub fn validate_basic_at(&self, now: u64) -> (r: Result<(), String>)
        ensures
            r is Ok <==> block_valid_at(*self, now),
    {
        let calculated = self.calculate_hash();
        if !hash_eq(&self.hash, &calculated) {
            proof {
                if self.hash@ == calculated@ {
                    crate::hashing::lemma_hash_view_eq(self.hash, calculated);
                }
            }
            return Err("Block hash mismatch".to_string());
        }
        if self.header.difficulty > 0 && !meets_difficulty(&self.hash, self.header.difficulty) {
            return Err("Block does not satisfy PoW difficulty".to_string());
        }
        let base = calculate_reward(self.transactions.len());
        let tips = sum_tips(&self.transactions, self.header.base_fee);
        assert(tips <= self.transactions@.len() * 18446744073709551615);
        assert(self.transactions@.len() * 18446744073709551615 <= 18446744073709551616 * 18446744073709551615) by (nonlinear_arith)
            requires self.transactions@.len() <= 18446744073709551616;
        if self.reward as u128 != base as u128 + tips {
            return Err("Unexpected block reward".to_string());
        }
        if !tx_hashes_all_distinct(&self.transactions) {
            return Err("Duplicate transactions found".to_string());
        }
        if self.header.timestamp > now && self.header.timestamp - now > MAX_FUTURE_SECS {
            return Err("Block timestamp too far in future".to_string());
        }
        Ok(())
    }

    /// Basic validation against the system clock: hash, proof of work,
    /// reward, distinct transactions, and a timestamp at most an hour ahead.
    /// Only the last check depends on the clock: a block that passes even
    /// at time 0 (timestamp at most an hour) always passes.
    pub fn validate_basic(&self) -> (r: Result<(), String>)
        ensures
            r is Ok ==> exists|now: u64| block_valid_at(*self, now),
            !(exists|now: u64| block_valid_at(*self, now)) ==> r is Err,
            block_valid_at(*self, 0) ==> r is Ok,
    {
        let now = now_unix_secs();
        self.validate_basic_at(now)
    }

    /// A non-genesis block must reference at least one parent.
    pub fn validate_references(&self) -> (r: Result<(), String>)
        ensures
            r is Ok <==> self.header.parent_hashes@.len() > 0,
    {
        if self.header.parent_hashes.len() == 0 {
            return Err("Block must have at least one parent (except genesis)".to_string());
        }
        Ok(())
    }

    /// A genesis block has no parents.
    pub fn is_genesis(&self) -> (r: bool)
        ensures
            r == (self.header.parent_hashes@.len() == 0),
    {
        self.header.parent_hashes.len() == 0
    }

    /// Hex-encoded hashes of all transactions, in block order.
    pub fn transaction_hashes(&self) -> (r: Vec<String>)
        ensures
            r@.len() == self.transactions@.len(),
            forall|i: int| 0 <= i < r@.len() ==> r@[i]@ == hex_spec(tx_hash_spec(self.transactions@[i])),
    {
        let mut out: Vec<String> = Vec::new();
        let mut i: usize = 0;
        while i < self.transactions.len()
            invariant
                0 <= i <= self.transactions@.len(),
                out@.len() == i,
                forall|k: int| 0 <= k < i ==> out@[k]@ == hex_spec(tx_hash_spec(self.transactions@[k])),
            decreases self.transactions@.len() - i,
        {
            let h = self.transactions[i].hash();
            out.push(hex_encode(h.as_slice()));
            i = i + 1;
        }
        out
    }

    /// Rough in-memory size of the block in bytes.
    pub fn size_estimate(&self) -> (r: usize)
        requires
            32 + self.header.parent_hashes@.len() * 32 + self.transactions@.len() * (
            vstd::layout::size_of::<String>() + 264) + 60 <= usize::MAX,
        ensures
            r == 32 + self.header.parent_hashes@.len() * 32 + self.transactions@.len() * (
            vstd::layout::size_of::<String>() + 264) + 60,
    {
        let s = std::mem::size_of::<String>();
        let p = self.header.parent_hashes.len();
        let t = self.transactions.len();
        assert(p * 32 <= usize::MAX) by (nonlinear_arith)
            requires 32 + p * 32 + t * (s + 264) + 60 <= usize::MAX, t * (s + 264) >= 0;
        assert(t * (s + 264) <= usize::MAX) by (nonlinear_arith)
            requires 32 + p * 32 + t * (s + 264) + 60 <= usize::MAX, p * 32 >= 0;
        let per: usize = if t == 0 {
            0
        } else {
            assert(s + 264 <= usize::MAX) by (nonlinear_arith)
                requires t * (s + 264) <= usize::MAX, t >= 1, s >= 0;
            s + 264
        };
        assert(t * per == t * (s + 264)) by (nonlinear_arith)
            requires (t == 0 && per == 0) || per == s + 264;
        32 + p * 32 + t * per + 8 + 8 + 4 + 4 + 20 + 8 + 8
    }

    /// A deep copy.
    pub fn copy(&self) -> (r: Block)
        ensures
            same_block(*self, r),
    {
        let mut txs: Vec<Transaction> = Vec::new();
        let mut i: usize = 0;
        while i < self.transactions.len()
            invariant
                0 <= i <= self.transactions@.len(),
                txs@.len() == i,
                forall|k: int| 0 <= k < i ==> same_tx(self.transactions@[k], txs@[k]),
            decreases self.transactions@.len() - i,
        {
            txs.push(self.transactions[i].copy());
            i = i + 1;
        }
        Block {
            hash: self.hash,
            header: self.header.copy(),
            transactions: txs,
            producer: self.producer,
            reward: self.reward,
        }
    }
}

} // verus!
