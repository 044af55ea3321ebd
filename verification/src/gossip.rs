//! The relay decision of block and transaction gossip: each hash is
//! relayed the first time it is seen, until the seen lists are cleared.
use vstd::prelude::*;
use crate::hashing::{BlockHash, contains_hash};

verus! {

/// Hashes of blocks and transactions already relayed.
pub struct GossipSeen {
    seen_blocks: Vec<BlockHash>,
    seen_transactions: Vec<BlockHash>,
}

impl GossipSeen {
    /// The block hashes seen.
    pub closed spec fn blocks(&self) -> Set<BlockHash> {
        self.seen_blocks@.to_set()
    }

    /// The transaction hashes seen.
    pub closed spec fn transactions(&self) -> Set<BlockHash> {
        self.seen_transactions@.to_set()
    }

    /// Nothing seen yet.
    pub fn new() -> (r: GossipSeen)
        ensures
            r.blocks() == Set::<BlockHash>::empty(),
            r.transactions() == Set::<BlockHash>::empty(),
    {
        let r = GossipSeen { seen_blocks: Vec::new(), seen_transactions: Vec::new() };
        proof {
            assert(r.blocks() =~= Set::<BlockHash>::empty());
            assert(r.transactions() =~= Set::<BlockHash>::empty());
        }
        r
    }

    /// Records a block hash; true when it was not seen before, so the block
    /// is to be relayed.
    pub fn note_block(&mut self, hash: &BlockHash) -> (r: bool)
        ensures
            r == !old(self).blocks().contains(*hash),
            final(self).blocks() == old(self).blocks().insert(*hash),
            final(self).transactions() == old(self).transactions(),
    {
        if contains_hash(&self.seen_blocks, hash) {
            proof { assert(self.seen_blocks@.to_set().contains(*hash)); assert(self.seen_blocks@.to_set() =~= self.seen_blocks@.to_set().insert(*hash)); }
            return false;
        }
        let ghost before = self.seen_blocks@;
        self.seen_blocks.push(*hash);
        proof { before.lemma_push_to_set_commute(*hash); }
        true
    }

    /// Records a transaction hash; true when it was not seen before, so the
    /// transaction is to be relayed.
    pub fn note_transaction(&mut self, hash: &BlockHash) -> (r: bool)
        ensures
            r == !old(self).transactions().contains(*hash),
            final(self).transactions() == old(self).transactions().insert(*hash),
            final(self).blocks() == old(self).blocks(),
    {
        if contains_hash(&self.seen_transactions, hash) {
            proof { assert(self.seen_transactions@.to_set().contains(*hash)); assert(self.seen_transactions@.to_set() =~= self.seen_transactions@.to_set().insert(*hash)); }
            return false;
        }
        let ghost before = self.seen_transactions@;
        self.seen_transactions.push(*hash);
        proof { before.lemma_push_to_set_commute(*hash); }
        true
    }

    /// Forgets everything seen (the periodic cleanup).
    pub fn clear(&mut self)
        ensures
            final(self).blocks() == Set::<BlockHash>::empty(),
            final(self).transactions() == Set::<BlockHash>::empty(),
    {
        self.seen_blocks.clear();
        self.seen_transactions.clear();
        proof {
            assert(self.blocks() =~= Set::<BlockHash>::empty());
            assert(self.transactions() =~= Set::<BlockHash>::empty());
        }
    }
}

} // verus!
