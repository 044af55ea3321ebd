//! Assembling candidate blocks from the mempool's ready transactions and
//! searching for a nonce that meets the proof-of-work target.
use vstd::prelude::*;
use rayon::iter::{IntoParallelIterator, ParallelIterator};
use crate::block::{Block, BlockHeader, MAX_FUTURE_SECS, block_hash_spec, block_preimage, block_valid_at, checked_block_reward, concat_tx_hashes, expected_reward, tip, tx_hashes_distinct};
use crate::blockdag::BlockDAG;
use crate::dag_index::is_tip_of;
use crate::blockdag::{is_topological_order, blocks_along};
use crate::daa::{next_difficulty, next_difficulty_spec, last_window};
use crate::fee_market::{next_base_fee, next_base_fee_spec};
use crate::hashing::{Address, BlockHash};
use crate::mempool::{MempoolTransaction, TxDagMempool, held};
use crate::mining::{meets_difficulty, meets_difficulty_spec};
use crate::transaction::{Transaction, same_tx, same_txs, lemma_same_tx_same_hash};

verus! {

/// The sort key of a transaction: smaller for a larger priority fee.
pub open spec fn priority_key(tx: Transaction, base_fee: u64) -> int {
    u64::MAX - tip(tx, base_fee)
}

/// `x` placed after every entry of `s` whose key is not above its own
/// (insertion into a list sorted by key, keeping equal keys in order).
pub open spec fn insert_by_priority(s: Seq<Transaction>, x: Transaction, base_fee: u64) -> Seq<Transaction>
    decreases s.len(),
{
    if s.len() == 0 || priority_key(s.last(), base_fee) <= priority_key(x, base_fee) {
        s.push(x)
    } else {
        insert_by_priority(s.drop_last(), x, base_fee).push(s.last())
    }
}

/// `s` sorted by decreasing priority fee; equal fees keep their order.
pub open spec fn sort_by_priority(s: Seq<Transaction>, base_fee: u64) -> Seq<Transaction>
    decreases s.len(),
{
    if s.len() == 0 {
        s
    } else {
        insert_by_priority(sort_by_priority(s.drop_last(), base_fee), s.last(), base_fee)
    }
}

/// The transactions of the first `max` ready entries.
pub open spec fn ready_prefix(ready: Seq<MempoolTransaction>, max: usize) -> Seq<Transaction> {
    let n = if ready.len() < max { ready.len() } else { max as nat };
    Seq::new(n, |i: int| ready[i].transaction)
}

/// `b` with its nonce replaced.
pub open spec fn with_nonce(b: Block, n: u64) -> Block {
    Block { header: BlockHeader { nonce: n, ..b.header }, ..b }
}

/// The nonce `n` makes the block meet its proof-of-work target.
pub open spec fn nonce_meets_target(b: Block, n: u64) -> bool {
    meets_difficulty_spec(block_hash_spec(with_nonce(b, n)), b.header.difficulty)
}

proof fn lemma_insert_at(s: Seq<Transaction>, x: Transaction, base_fee: u64, j: int)
    requires
        0 <= j <= s.len(),
        forall|k: int| j <= k < s.len() ==> priority_key(#[trigger] s[k], base_fee) > priority_key(x, base_fee),
        j == 0 || priority_key(s[j - 1], base_fee) <= priority_key(x, base_fee),
    ensures
        insert_by_priority(s, x, base_fee) == s.insert(j, x),
    decreases s.len(),
{
    if s.len() == 0 {
        assert(s.insert(j, x) =~= s.push(x));
    } else if priority_key(s.last(), base_fee) <= priority_key(x, base_fee) {
        assert(j == s.len());
        assert(s.insert(j, x) =~= s.push(x));
    } else {
        let t = s.drop_last();
        assert forall|k: int| j <= k < t.len() implies priority_key(#[trigger] t[k], base_fee) > priority_key(x, base_fee) by {
            assert(t[k] == s[k]);
        }
        if j > 0 {
            assert(t[j - 1] == s[j - 1]);
        }
        lemma_insert_at(t, x, base_fee, j);
        assert(t.insert(j, x).push(s.last()) =~= s.insert(j, x));
    }
}

/// The priority fee of `tx`.
fn tip_of(tx: &Transaction, base_fee: u64) -> (r: u64)
    ensures
        r == tip(*tx, base_fee),
{
    if tx.gas_price > base_fee { tx.gas_price - base_fee } else { 0 }
}

/// The candidate passes basic validation at `now` once its hash is set:
/// proof of work (when a target is set), reward, distinct transactions and
/// a timestamp at most an hour ahead.
pub open spec fn candidate_valid_at(b: Block, now: u64) -> bool {
    &&& (b.header.difficulty > 0 ==> meets_difficulty_spec(block_hash_spec(b), b.header.difficulty))
    &&& b.reward == expected_reward(b.transactions@, b.header.base_fee)
    &&& tx_hashes_distinct(b.transactions@)
    &&& b.header.timestamp <= now + MAX_FUTURE_SECS
}

/// Sorts `v` by decreasing priority fee, keeping equal fees in order.
fn sort_by_priority_fee(v: Vec<Transaction>, base_fee: u64) -> (r: Vec<Transaction>)
    ensures
        r@ == sort_by_priority(v@, base_fee),
{
    let ghost v0 = v@;
    assert(v.len() == v@.len());
    let mut rest = v;
    let mut out: Vec<Transaction> = Vec::new();
    let mut i: usize = 0;
    while rest.len() > 0
        invariant
            v0.len() <= usize::MAX,
            i + rest@.len() == v0.len(),
            rest@ == v0.subrange(i as int, v0.len() as int),
            out@ == sort_by_priority(v0.subrange(0, i as int), base_fee),
        decreases rest@.len(),
    {
        let x = rest.remove(0);
        let xt = tip_of(&x, base_fee);
        let mut j: usize = out.len();
        while j > 0 && tip_of(&out[j - 1], base_fee) < xt
            invariant
                0 <= j <= out@.len(),
                xt == tip(x, base_fee),
                forall|k: int| j <= k < out@.len() ==> priority_key(#[trigger] out@[k], base_fee) > priority_key(x, base_fee),
            decreases j,
        {
            j = j - 1;
        }
        proof {
            lemma_insert_at(out@, x, base_fee, j as int);
            let pre = v0.subrange(0, i as int + 1);
            assert(pre.drop_last() =~= v0.subrange(0, i as int));
            assert(pre.last() == x);
        }
        out.insert(j, x);
        i = i + 1;
        proof {
            assert(rest@ =~= v0.subrange(i as int, v0.len() as int));
        }
    }
    proof {
        assert(v0.subrange(0, v0.len() as int) =~= v0);
    }
    out
}

/// Copies of the transactions of the first `max` ready entries, sorted by
/// decreasing priority fee.
pub fn select_transactions(ready: &Vec<MempoolTransaction>, max: usize, base_fee: u64) -> (r: Vec<Transaction>)
    ensures
        exists|c: Seq<Transaction>| same_txs(c, ready_prefix(ready@, max)) && r@ == sort_by_priority(c, base_fee),
{
    let n = if ready.len() < max { ready.len() } else { max };
    let mut prefix: Vec<Transaction> = Vec::new();
    let mut i: usize = 0;
    while i < n
        invariant
            n == (if ready@.len() < max { ready@.len() } else { max as nat }),
            0 <= i <= n,
            prefix@.len() == i,
            forall|k: int| 0 <= k < i ==> same_tx(#[trigger] prefix@[k], ready@[k].transaction),
        decreases n - i,
    {
        let t = ready[i].transaction.copy();
        proof {
            assert(same_tx(ready@[i as int].transaction, t));
        }
        prefix.push(t);
        i = i + 1;
    }
    let ghost c = prefix@;
    let sorted = sort_by_priority_fee(prefix, base_fee);
    proof {
        assert forall|k: int| 0 <= k < c.len() implies same_tx(#[trigger] c[k], ready_prefix(ready@, max)[k]) by {}
        assert(same_txs(c, ready_prefix(ready@, max)));
    }
    sorted
}

proof fn lemma_same_concat(a: Seq<Transaction>, b: Seq<Transaction>)
    requires
        same_txs(a, b),
    ensures
        concat_tx_hashes(a) == concat_tx_hashes(b),
    decreases a.len(),
{
    if a.len() > 0 {
        assert(same_txs(a.drop_last(), b.drop_last())) by {
            assert forall|k: int| 0 <= k < a.drop_last().len() implies same_tx(#[trigger] a.drop_last()[k], b.drop_last()[k]) by {
                assert(same_tx(a[k], b[k]));
            }
        }
        lemma_same_concat(a.drop_last(), b.drop_last());
        assert(same_tx(a[a.len() - 1], b[b.len() - 1]));
        lemma_same_tx_same_hash(a.last(), b.last());
    }
}

/// Whether nonce `n` makes `base` meet its proof-of-work target.
fn nonce_works(base: &Block, n: u64) -> (r: bool)
    ensures
        r == nonce_meets_target(*base, n),
{
    let mut candidate = base.copy();
    candidate.header.nonce = n;
    let h = candidate.calculate_hash();
    proof {
        lemma_same_concat(candidate.transactions@, base.transactions@);
        assert(block_preimage(candidate) =~= block_preimage(with_nonce(*base, n)));
    }
    meets_difficulty(&h, candidate.header.difficulty)
}

/// Searches all nonces below `u64::MAX` in parallel
/// (`rayon`'s `ParallelIterator::find_any` over `0..u64::MAX`), testing each
/// with `nonce_works`. `find_any` gives some matching item, not necessarily
/// the first, and `None` only when no item matches.
#[verifier::external_body]
fn find_nonce(base: &Block) -> (r: Option<u64>)
    ensures
        r matches Some(n) ==> n < u64::MAX && nonce_meets_target(*base, n),
        r is None ==> forall|n: u64| n < u64::MAX ==> !#[trigger] nonce_meets_target(*base, n),
{
    (0u64..u64::MAX).into_par_iter().find_any(|&n| nonce_works(base, n))
}

/// Reads the UTC clock (`chrono::Utc::now().timestamp()`): seconds since the
/// Unix epoch. Nothing is stated of the value: it depends on the moment.
#[verifier::external_body]
fn utc_timestamp() -> (r: i64) {
    chrono::Utc::now().timestamp()
}

/// Builds candidate blocks on the DAG tips and mines them.
pub struct BlockProducer {
    /// The address block rewards go to.
    pub producer_id: Address,
    nonce: u64,
    min_transactions: usize,
    max_transactions: usize,
}

/// Too few transactions are ready while the mempool holds more than the
/// minimum, so block production waits.
pub open spec fn too_few_ready(ready_len: nat, pool_size: nat, min: usize) -> bool {
    ready_len < min && ready_len > 0 && pool_size > min
}

/// `sel` are the transactions a block takes from the ready listing
/// `ready`: copies of the first `max`, by decreasing priority fee.
pub open spec fn chosen_from(ready: Seq<MempoolTransaction>, max: usize, base_fee: u64, sel: Seq<Transaction>) -> bool {
    exists|c: Seq<Transaction>| same_txs(c, ready_prefix(ready, max)) && sel == sort_by_priority(c, base_fee)
}

/// Building is refused before a nonce is taken: too few transactions are
/// ready, or the reward of those chosen (`sel`) does not fit in 64 bits.
pub open spec fn build_refused(pool_size: nat, ready: Seq<MempoolTransaction>, min: usize, base_fee: u64, sel: Seq<Transaction>) -> bool {
    too_few_ready(ready.len(), pool_size, min) || expected_reward(sel, base_fee) > u64::MAX
}

/// How building from the ready listing `ready` moves the producer's nonce
/// from `before` to `after`: when too few are ready it stays; otherwise
/// `sel` are the chosen transactions, and the nonce stays if their reward
/// does not fit and advances by one if it does.
pub open spec fn nonce_advance(
    mempool: &TxDagMempool,
    ready: Seq<MempoolTransaction>,
    sel: Seq<Transaction>,
    before: u64,
    after: u64,
    min: usize,
    max: usize,
    base_fee: u64,
) -> bool {
    &&& ready_listing(mempool, ready)
    &&& too_few_ready(ready.len(), mempool.pool().len(), min) ==> after == before
    &&& !too_few_ready(ready.len(), mempool.pool().len(), min) ==> {
        &&& chosen_from(ready, max, base_fee, sel)
        &&& expected_reward(sel, base_fee) > u64::MAX ==> after == before
        &&& expected_reward(sel, base_fee) <= u64::MAX ==> after == before + 1
    }
}

/// What building a block does once the clock has been read: `timestamp`
/// as the block's time and `now` as the time it is validated at. The nonce
/// moves as `nonce_advance` says; a refusal is an error; otherwise the
/// block on the tips `parents` with the chosen `sel` and the old nonce is
/// returned exactly when it passes basic validation at `now`.
#[verifier::opaque]
pub open spec fn build_outcome(
    mempool: &TxDagMempool,
    dag: &BlockDAG,
    ready: Seq<MempoolTransaction>,
    sel: Vec<Transaction>,
    parents: Vec<BlockHash>,
    timestamp: u64,
    now: u64,
    before: BlockProducer,
    after: BlockProducer,
    difficulty: u32,
    base_fee: u64,
    r: Result<Block, String>,
) -> bool {
    &&& nonce_advance(mempool, ready, sel@, before.nonce_spec(), after.nonce_spec(), before.min_spec(), before.max_spec(), base_fee)
    &&& build_refused(mempool.pool().len(), ready, before.min_spec(), base_fee, sel@) ==> r is Err
    &&& !build_refused(mempool.pool().len(), ready, before.min_spec(), base_fee, sel@) ==> {
        &&& parents@.no_duplicates()
        &&& forall|h: BlockHash| parents@.contains(h) <==> is_tip_of(dag.blocks(), h)
        &&& (r is Ok <==> candidate_valid_at(
            candidate(parents, timestamp, sel, before.nonce_spec(), difficulty, base_fee, before.producer_spec()),
            now,
        ))
    }
}

proof fn lemma_outcome_too_few(
    mempool: &TxDagMempool, dag: &BlockDAG, ready: Seq<MempoolTransaction>, sel: Vec<Transaction>, parents: Vec<BlockHash>,
    before: BlockProducer, after: BlockProducer, difficulty: u32, base_fee: u64, r: Result<Block, String>,
)
    requires
        ready_listing(mempool, ready),
        too_few_ready(ready.len(), mempool.pool().len(), before.min_spec()),
        after.nonce_spec() == before.nonce_spec(),
        r is Err,
    ensures
        build_outcome(mempool, dag, ready, sel, parents, 0, 0, before, after, difficulty, base_fee, r),
{
    reveal(build_outcome);
}

proof fn lemma_outcome_reward_too_big(
    mempool: &TxDagMempool, dag: &BlockDAG, ready: Seq<MempoolTransaction>, sel: Vec<Transaction>, parents: Vec<BlockHash>,
    before: BlockProducer, after: BlockProducer, difficulty: u32, base_fee: u64, r: Result<Block, String>,
)
    requires
        ready_listing(mempool, ready),
        !too_few_ready(ready.len(), mempool.pool().len(), before.min_spec()),
        chosen_from(ready, before.max_spec(), base_fee, sel@),
        expected_reward(sel@, base_fee) > u64::MAX,
        after.nonce_spec() == before.nonce_spec(),
        r is Err,
    ensures
        build_outcome(mempool, dag, ready, sel, parents, 0, 0, before, after, difficulty, base_fee, r),
{
    reveal(build_outcome);
}

proof fn lemma_outcome_assembled(
    mempool: &TxDagMempool, dag: &BlockDAG, ready: Seq<MempoolTransaction>, sel: Vec<Transaction>, parents: Vec<BlockHash>,
    timestamp: u64, now: u64, before: BlockProducer, after: BlockProducer, difficulty: u32, base_fee: u64, r: Result<Block, String>,
)
    requires
        ready_listing(mempool, ready),
        !too_few_ready(ready.len(), mempool.pool().len(), before.min_spec()),
        chosen_from(ready, before.max_spec(), base_fee, sel@),
        expected_reward(sel@, base_fee) <= u64::MAX,
        parents@.no_duplicates(),
        forall|h: BlockHash| parents@.contains(h) <==> is_tip_of(dag.blocks(), h),
        after.nonce_spec() == before.nonce_spec() + 1,
        r is Ok <==> candidate_valid_at(candidate(parents, timestamp, sel, before.nonce_spec(), difficulty, base_fee, before.producer_spec()), now),
    ensures
        build_outcome(mempool, dag, ready, sel, parents, timestamp, now, before, after, difficulty, base_fee, r),
{
    reveal(build_outcome);
}

impl BlockProducer {
    /// The address block rewards go to.
    pub closed spec fn producer_spec(&self) -> Address {
        self.producer_id
    }

    /// The nonce the next block will carry.
    pub closed spec fn nonce_spec(&self) -> u64 {
        self.nonce
    }

    /// The fewest ready transactions a block waits for.
    pub closed spec fn min_spec(&self) -> usize {
        self.min_transactions
    }

    /// The most transactions a block takes.
    pub closed spec fn max_spec(&self) -> usize {
        self.max_transactions
    }

    /// A producer starting at nonce 0.
    pub fn new(producer_id: Address, min_transactions: usize, max_transactions: usize) -> (r: BlockProducer)
        ensures
            r.producer_spec() == producer_id,
            r.nonce_spec() == 0,
            r.min_spec() == min_transactions,
            r.max_spec() == max_transactions,
    {
        BlockProducer { producer_id, nonce: 0, min_transactions, max_transactions }
    }

    /// The nonce the next block will carry.
    pub fn get_nonce(&self) -> (r: u64)
        ensures
            r == self.nonce_spec(),
    {
        self.nonce
    }

    /// Starts the nonce over at 0.
    pub fn reset_nonce(&mut self)
        ensures
            final(self).nonce_spec() == 0,
            final(self).producer_spec() == old(self).producer_spec(),
            final(self).min_spec() == old(self).min_spec(),
            final(self).max_spec() == old(self).max_spec(),
    {
        self.nonce = 0;
    }

    /// The decision of `create_block` once its inputs are read: `selected`
    /// are the transactions chosen from `ready_len` ready ones in a pool of
    /// `pool_size`, `parents` the tips, `timestamp` the block time and `now`
    /// the time of validation. Waits (an error) when too few transactions
    /// are ready; otherwise takes the next nonce and builds the block, which
    /// is returned if it passes basic validation at `now`.
    pub fn assemble_block(
        &mut self,
        selected: Vec<Transaction>,
        ready_len: usize,
        pool_size: usize,
        parents: Vec<BlockHash>,
        timestamp: u64,
        now: u64,
        difficulty: u32,
        base_fee: u64,
    ) -> (r: Result<Block, String>)
        requires
            old(self).nonce_spec() < u64::MAX,
            expected_reward(selected@, base_fee) <= u64::MAX,
        ensures
            final(self).producer_spec() == old(self).producer_spec(),
            final(self).min_spec() == old(self).min_spec(),
            final(self).max_spec() == old(self).max_spec(),
            too_few_ready(ready_len as nat, pool_size as nat, old(self).min_spec()) ==> r is Err && final(self).nonce_spec() == old(self).nonce_spec(),
            !too_few_ready(ready_len as nat, pool_size as nat, old(self).min_spec()) ==> {
                &&& final(self).nonce_spec() == old(self).nonce_spec() + 1
                &&& (r is Ok <==> candidate_valid_at(
                    candidate(parents, timestamp, selected, old(self).nonce_spec(), difficulty, base_fee, old(self).producer_spec()),
                    now,
                ))
            },
            r matches Ok(b) ==> same_content(b, candidate(parents, timestamp, selected, old(self).nonce_spec(), difficulty, base_fee, old(self).producer_spec()))
                && b.hash@ == block_hash_spec(b) && block_valid_at(b, now),
    {
        if ready_len < self.min_transactions && ready_len > 0 && pool_size > self.min_transactions {
            let mut msg = String::from_str("Not enough ready transactions: ");
            msg.append(ready_len.to_string().as_str());
            msg.append(" < ");
            msg.append(self.min_transactions.to_string().as_str());
            return Err(msg);
        }
        let nonce = self.nonce;
        self.nonce = nonce + 1;
        let ghost cand = candidate(parents, timestamp, selected, nonce, difficulty, base_fee, self.producer_id);
        let block = Block::new(parents, timestamp, selected, nonce, difficulty, base_fee, self.producer_id, [0u8; 32]);
        proof {
            assert(block_preimage(block) =~= block_preimage(cand));
            assert(block_hash_spec(block) == block_hash_spec(cand));
        }
        match block.validate_basic_at(now) {
            Ok(()) => Ok(block),
            Err(e) => Err(e),
        }
    }

    /// Builds a candidate block on the DAG tips from the mempool's ready
    /// transactions: waits (an error) when fewer than the minimum are ready
    /// while the pool holds more; otherwise takes at most the maximum number
    /// of them, by decreasing priority fee, with the next nonce and the
    /// current time, and returns the block if it passes basic validation.
    /// The block is not mined: its nonce need not meet the target.
    pub fn create_block(&mut self, mempool: &TxDagMempool, dag: &BlockDAG, difficulty: u32, base_fee: u64, state_root: [u8; 32]) -> (r: Result<Block, String>)
        requires
            mempool.wf(),
            dag.wf(),
            old(self).nonce_spec() < u64::MAX,
        ensures
            final(self).producer_spec() == old(self).producer_spec(),
            final(self).min_spec() == old(self).min_spec(),
            final(self).max_spec() == old(self).max_spec(),
            final(self).nonce_spec() == old(self).nonce_spec() || final(self).nonce_spec() == old(self).nonce_spec() + 1,
            r matches Ok(b) ==> built_from(b, mempool, dag, old(self).nonce_spec(), old(self).producer_spec(), old(self).max_spec(), difficulty, base_fee)
                && exists|now: u64| block_valid_at(b, now),
            exists|ready: Seq<MempoolTransaction>, sel: Vec<Transaction>, parents: Vec<BlockHash>, timestamp: u64, now: u64|
                #[trigger] build_outcome(mempool, dag, ready, sel, parents, timestamp, now, *old(self), *final(self), difficulty, base_fee, r),
    {
        let ready = mempool.get_ready_transactions();
        let pool_size = mempool.size();
        proof {
            assert(ready_listing(mempool, ready@)) by { reveal(ready_listing); }
        }
        if ready.len() < self.min_transactions && ready.len() > 0 && pool_size > self.min_transactions {
            let mut msg = String::from_str("Not enough ready transactions: ");
            msg.append(ready.len().to_string().as_str());
            msg.append(" < ");
            msg.append(self.min_transactions.to_string().as_str());
            let r: Result<Block, String> = Err(msg);
            proof {
                let sv = vstd::pervasive::arbitrary::<Vec<Transaction>>();
                let pv = vstd::pervasive::arbitrary::<Vec<BlockHash>>();
                lemma_outcome_too_few(mempool, dag, ready@, sv, pv, *old(self), *self, difficulty, base_fee, r);
            }
            return r;
        }
        let selected = select_transactions(&ready, self.max_transactions, base_fee);
        if checked_block_reward(&selected, base_fee).is_none() {
            let r: Result<Block, String> = Err(String::from_str("Block reward does not fit in 64 bits"));
            proof {
                let pv = vstd::pervasive::arbitrary::<Vec<BlockHash>>();
                lemma_outcome_reward_too_big(mempool, dag, ready@, selected, pv, *old(self), *self, difficulty, base_fee, r);
            }
            return r;
        }
        let ghost sel = selected@;
        let ghost selv = selected;
        let parents = dag.get_tips();
        let ghost par = parents@;
        let ghost parv = parents;
        let timestamp = utc_timestamp() as u64;
        let now = crate::hashing::now_unix_secs();
        let r = self.assemble_block(selected, ready.len(), pool_size, parents, timestamp, now, difficulty, base_fee);
        proof {
            if r is Ok {
                assert(block_valid_at(r->Ok_0, now));
            }
            lemma_outcome_assembled(mempool, dag, ready@, selv, parv, timestamp, now, *old(self), *self, difficulty, base_fee, r);
        }
        r
    }

    /// Builds a block template (checked like `create_block` in all but
    /// proof of work, which its first nonce need not meet), then searches
    /// the nonces in parallel for one that meets the target; the mined
    /// block must pass basic validation.
    pub fn mine_block(&mut self, mempool: &TxDagMempool, dag: &BlockDAG, difficulty: u32, base_fee: u64, state_root: [u8; 32]) -> (r: Result<Block, String>)
        requires
            mempool.wf(),
            dag.wf(),
            old(self).nonce_spec() < u64::MAX,
        ensures
            final(self).producer_spec() == old(self).producer_spec(),
            final(self).nonce_spec() == old(self).nonce_spec() || final(self).nonce_spec() == old(self).nonce_spec() + 1,
            exists|ready: Seq<MempoolTransaction>, sel: Seq<Transaction>|
                #[trigger] nonce_advance(mempool, ready, sel, old(self).nonce_spec(), final(self).nonce_spec(), old(self).min_spec(), old(self).max_spec(), base_fee)
                && (build_refused(mempool.pool().len(), ready, old(self).min_spec(), base_fee, sel) ==> r is Err),
            r is Ok ==> exists|now: u64| #[trigger] block_valid_at(r->Ok_0, now),
            r matches Ok(b) ==> b.header.difficulty == difficulty && b.header.base_fee == base_fee && b.producer == old(self).producer_spec(),
    {
        let made = self.create_block(mempool, dag, 0, base_fee, state_root);
        let ghost w = choose|ready: Seq<MempoolTransaction>, sel: Vec<Transaction>, parents: Vec<BlockHash>, timestamp: u64, now: u64|
            #[trigger] build_outcome(mempool, dag, ready, sel, parents, timestamp, now, *old(self), *self, 0, base_fee, made);
        proof {
            reveal(build_outcome);
            assert(nonce_advance(mempool, w.0, w.1@, old(self).nonce_spec(), self.nonce_spec(), old(self).min_spec(), old(self).max_spec(), base_fee));
        }
        let mut base = match made {
            Ok(b) => b,
            Err(e) => return Err(e),
        };
        base.header.difficulty = difficulty;
        let found = find_nonce(&base);
        if found.is_none() {
            return Err(String::from_str("unable to find valid nonce"));
        }
        let n = found.unwrap();
        base.header.nonce = n;
        base.hash = base.calculate_hash();
        let v = base.validate_basic();
        if v.is_err() {
            return Err(String::from_str("mined block failed validation"));
        }
        let ghost w = choose|now: u64| block_valid_at(base, now);
        assert(block_valid_at(base, w));
        assert(exists|now: u64| #[trigger] block_valid_at(base, now));
        let r: Result<Block, String> = Ok(base);
        assert(r->Ok_0 == base);
        assert(block_valid_at(r->Ok_0, w));
        r
    }

    /// Copies of the transactions a block would take now: the first ready
    /// ones, at most the maximum.
    pub fn get_pending_transactions(&self, mempool: &TxDagMempool) -> (r: Vec<Transaction>)
        requires
            mempool.wf(),
        ensures
            exists|ready: Seq<MempoolTransaction>| ready_listing(mempool, ready) && same_txs(r@, ready_prefix(ready, self.max_spec())),
    {
        let ready = mempool.get_ready_transactions();
        let n = if ready.len() < self.max_transactions { ready.len() } else { self.max_transactions };
        let mut out: Vec<Transaction> = Vec::new();
        let mut i: usize = 0;
        while i < n
            invariant
                n == (if ready@.len() < self.max_transactions { ready@.len() } else { self.max_transactions as nat }),
                0 <= i <= n,
                out@.len() == i,
                forall|k: int| 0 <= k < i ==> same_tx(#[trigger] out@[k], ready@[k].transaction),
            decreases n - i,
        {
            let t = ready[i].transaction.copy();
            proof { assert(same_tx(ready@[i as int].transaction, t)); }
            out.push(t);
            i = i + 1;
        }
        proof {
            assert(ready_listing(mempool, ready@)) by { reveal(ready_listing); }
            assert(same_txs(out@, ready_prefix(ready@, self.max_transactions)));
        }
        out
    }
}

/// The block built from these parts, before its hash is set.
pub open spec fn candidate(
    parents: Vec<BlockHash>,
    timestamp: u64,
    txs: Vec<Transaction>,
    nonce: u64,
    difficulty: u32,
    base_fee: u64,
    producer: Address,
) -> Block {
    Block {
        hash: [0u8; 32usize],
        header: BlockHeader { parent_hashes: parents, timestamp, nonce, difficulty, base_fee, state_root: [0u8; 32usize], version: 1 },
        transactions: txs,
        producer,
        reward: expected_reward(txs@, base_fee) as u64,
    }
}

/// Two blocks agree in everything but their stored hash.
pub open spec fn same_content(a: Block, b: Block) -> bool {
    &&& a.header.parent_hashes@ == b.header.parent_hashes@
    &&& a.header.timestamp == b.header.timestamp
    &&& a.header.nonce == b.header.nonce
    &&& a.header.difficulty == b.header.difficulty
    &&& a.header.base_fee == b.header.base_fee
    &&& a.header.state_root == b.header.state_root
    &&& a.header.version == b.header.version
    &&& a.transactions@ == b.transactions@
    &&& a.producer == b.producer
    &&& a.reward == b.reward
}

/// `ready` is what the mempool lists as ready: held, ready entries, and
/// every ready entry of the pool among them.
#[verifier::opaque]
pub open spec fn ready_listing(mempool: &TxDagMempool, ready: Seq<MempoolTransaction>) -> bool {
    &&& forall|i: int| 0 <= i < ready.len() ==> (#[trigger] ready[i]).is_ready && held(mempool.pool(), ready[i])
    &&& forall|k: [u8; 32]| #[trigger] mempool.pool().contains_key(k) && mempool.pool()[k].is_ready
        ==> exists|i: int| 0 <= i < ready.len() && crate::mempool::same_entry(mempool.pool()[k], ready[i])
}

/// `b` was built on the tips of `dag` from the first ready transactions of
/// the mempool, by decreasing priority fee, with the given nonce.
pub open spec fn built_from(
    b: Block,
    mempool: &TxDagMempool,
    dag: &BlockDAG,
    nonce: u64,
    producer: Address,
    max: usize,
    difficulty: u32,
    base_fee: u64,
) -> bool {
    &&& b.header.parent_hashes@.no_duplicates()
    &&& forall|h: BlockHash| b.header.parent_hashes@.contains(h) <==> is_tip_of(dag.blocks(), h)
    &&& b.header.nonce == nonce
    &&& b.header.difficulty == difficulty
    &&& b.header.base_fee == base_fee
    &&& b.header.state_root == [0u8; 32usize]
    &&& b.producer == producer
    &&& b.reward == expected_reward(b.transactions@, base_fee)
    &&& exists|ready: Seq<MempoolTransaction>, c: Seq<Transaction>|
        ready_listing(mempool, ready) && same_txs(c, ready_prefix(ready, max)) && b.transactions@ == sort_by_priority(c, base_fee)
}

/// Keys never decrease along `s`: priority fees never increase.
pub open spec fn by_priority(s: Seq<Transaction>, base_fee: u64) -> bool {
    forall|i: int, j: int| 0 <= i < j < s.len() ==> priority_key(#[trigger] s[i], base_fee) <= priority_key(#[trigger] s[j], base_fee)
}

proof fn lemma_insert_sorted(s: Seq<Transaction>, x: Transaction, base_fee: u64)
    requires
        by_priority(s, base_fee),
    ensures
        by_priority(insert_by_priority(s, x, base_fee), base_fee),
        insert_by_priority(s, x, base_fee).to_multiset() == s.to_multiset().insert(x),
    decreases s.len(),
{
    broadcast use vstd::seq_lib::group_to_multiset_ensures;
    let r = insert_by_priority(s, x, base_fee);
    if s.len() == 0 || priority_key(s.last(), base_fee) <= priority_key(x, base_fee) {
        assert forall|i: int, j: int| 0 <= i < j < r.len() implies priority_key(#[trigger] r[i], base_fee) <= priority_key(#[trigger] r[j], base_fee) by {
            if j == s.len() {
                assert(r[i] == s[i]);
                if i < s.len() - 1 {
                    assert(priority_key(s[i], base_fee) <= priority_key(s[s.len() - 1], base_fee));
                }
            } else {
                assert(r[i] == s[i] && r[j] == s[j]);
            }
        }
    } else {
        let t = s.drop_last();
        assert(by_priority(t, base_fee)) by {
            assert forall|i: int, j: int| 0 <= i < j < t.len() implies priority_key(#[trigger] t[i], base_fee) <= priority_key(#[trigger] t[j], base_fee) by {
                assert(t[i] == s[i] && t[j] == s[j]);
            }
        }
        lemma_insert_sorted(t, x, base_fee);
        let u = insert_by_priority(t, x, base_fee);
        assert(s =~= t.push(s.last()));
        assert forall|i: int| 0 <= i < u.len() implies priority_key(#[trigger] u[i], base_fee) <= priority_key(s.last(), base_fee) by {
            assert(u.to_multiset().count(u[i]) > 0);
            assert(u.contains(u[i]));
            if u[i] != x {
                assert(t.to_multiset().count(u[i]) > 0);
                assert(t.contains(u[i]));
                let k = choose|k: int| 0 <= k < t.len() && t[k] == u[i];
                assert(s[k] == t[k]);
            }
        }
        assert forall|i: int, j: int| 0 <= i < j < r.len() implies priority_key(#[trigger] r[i], base_fee) <= priority_key(#[trigger] r[j], base_fee) by {
            if j == u.len() {
                assert(r[i] == u[i]);
            } else {
                assert(r[i] == u[i] && r[j] == u[j]);
            }
        }
    }
}

/// The sort puts transactions in order of decreasing priority fee and
/// neither loses nor adds any.
pub proof fn lemma_sort_by_priority(s: Seq<Transaction>, base_fee: u64)
    ensures
        by_priority(sort_by_priority(s, base_fee), base_fee),
        sort_by_priority(s, base_fee).to_multiset() == s.to_multiset(),
    decreases s.len(),
{
    broadcast use vstd::seq_lib::group_to_multiset_ensures;
    if s.len() > 0 {
        lemma_sort_by_priority(s.drop_last(), base_fee);
        lemma_insert_sorted(sort_by_priority(s.drop_last(), base_fee), s.last(), base_fee);
        assert(s =~= s.drop_last().push(s.last()));
    }
}

/// The first decision of a block-production round: nothing happens when
/// mining is off or the mempool is empty; otherwise the next block's
/// difficulty (from the difficulty adjustment over the DAG) and base fee
/// (from the fee market), with the mempool set to that base fee. The base
/// fee of every tip must be at most a tenth of `u64::MAX`.
pub fn production_step(mining_enabled: bool, mempool: &mut TxDagMempool, dag: &BlockDAG) -> (r: Option<(u32, u64)>)
    requires
        old(mempool).wf(),
        dag.wf(),
        forall|h: BlockHash| #[trigger] is_tip_of(dag.blocks(), h)
            ==> dag.blocks()[crate::storage::index_of(dag.blocks(), h)].header.base_fee <= u64::MAX / 10,
    ensures
        final(mempool).wf(),
        final(mempool).pool() == old(mempool).pool(),
        final(mempool).children() == old(mempool).children(),
        final(mempool).pending() == old(mempool).pending(),
        final(mempool).rates() == old(mempool).rates(),
        final(mempool).max_size_spec() == old(mempool).max_size_spec(),
        final(mempool).min_gas_price_spec() == old(mempool).min_gas_price_spec(),
        r is None <==> (!mining_enabled || old(mempool).pool().len() == 0),
        r is None ==> final(mempool).base_fee() == old(mempool).base_fee(),
        r matches Some((difficulty, base_fee)) ==> {
            &&& final(mempool).base_fee() == base_fee
            &&& exists|o: Seq<BlockHash>| #[trigger] is_topological_order(o, dag.blocks())
                && difficulty == next_difficulty_spec(blocks_along(dag.blocks(), last_window(o)))
            &&& exists|o: Seq<BlockHash>| #[trigger] is_topological_order(o, dag.blocks())
                && base_fee == next_base_fee_spec(dag.blocks(), o)
        },
{
    if !mining_enabled {
        return None;
    }
    if mempool.size() == 0 {
        return None;
    }
    let difficulty = next_difficulty(dag);
    let base_fee = next_base_fee(dag);
    mempool.set_base_fee(base_fee);
    Some((difficulty, base_fee))
}

} // verus!
