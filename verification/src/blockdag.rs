//! The block DAG: a store of blocks plus its parent/child index, with
//! validated insertion and the graph queries consensus relies on.
use vstd::prelude::*;
use crate::hashing::{BlockHash, hash_eq, contains_hash, copy_hashes, now_unix_secs};
use crate::block::{Block, same_block, block_valid_at, block_hash_spec, expected_reward, MAX_FUTURE_SECS, tx_hashes_distinct};
use crate::transaction::Transaction;
use crate::storage::{
    BlockStore, has_hash, distinct_hashes, index_of, parents_of, is_ancestor_of, lemma_index_of,
};
use crate::dag_index::{
    DAGIndex, index_matches, is_tip_of, is_child_of, is_some_parent, parents_precede, depth_is,
    lca_candidate, is_topological_closure, parents_earlier, placed_closed, parents_placed,
    lemma_descendant_iff_ancestor,
};

verus! {

/// `o` lists every stored block once, each after its parents.
pub open spec fn is_topological_order(o: Seq<BlockHash>, s: Seq<Block>) -> bool {
    &&& o.no_duplicates()
    &&& forall|x: BlockHash| o.contains(x) <==> has_hash(s, x)
    &&& parents_earlier(o, s)
}

/// The stored blocks named by `o`, in that order.
pub open spec fn blocks_along(s: Seq<Block>, o: Seq<BlockHash>) -> Seq<Block> {
    o.map_values(|h: BlockHash| s[index_of(s, h)])
}

/// A block can join `s`: its hash is new, and either it names parents that
/// are all stored, or it names none and `s` is empty (the genesis block).
pub open spec fn insertable(s: Seq<Block>, b: Block) -> bool {
    &&& !has_hash(s, b.hash)
    &&& b.header.parent_hashes@.len() > 0 ==> forall|p: BlockHash| #[trigger] b.header.parent_hashes@.contains(p) ==> has_hash(s, p)
    &&& b.header.parent_hashes@.len() == 0 ==> s.len() == 0
}

/// Summary counts of a DAG.
#[derive(Debug, Clone, Copy)]
pub struct DAGStats {
    pub total_blocks: usize,
    pub total_transactions: usize,
    pub num_tips: usize,
    pub avg_parents_per_block: usize,
    pub total_size_bytes: usize,
}

/// A full snapshot of a DAG.
#[derive(Debug)]
pub struct DAGExport {
    pub blocks: Vec<Block>,
    pub tips: Vec<BlockHash>,
    pub statistics: DAGStats,
}

/// Sum of transaction counts.
pub open spec fn tx_total(s: Seq<Block>) -> int
    decreases s.len(),
{
    if s.len() == 0 { 0 } else { tx_total(s.drop_last()) + s.last().transactions@.len() }
}

/// Sum of parent counts.
pub open spec fn parent_total(s: Seq<Block>) -> int
    decreases s.len(),
{
    if s.len() == 0 { 0 } else { parent_total(s.drop_last()) + s.last().header.parent_hashes@.len() }
}

/// The block store and its index.
#[derive(Debug)]
pub struct BlockDAG {
    store: BlockStore,
    index: DAGIndex,
}

proof fn lemma_push_lookup(s: Seq<Block>, b: Block, h: BlockHash)
    requires
        distinct_hashes(s),
        !has_hash(s, b.hash),
    ensures
        distinct_hashes(s.push(b)),
        has_hash(s.push(b), h) <==> (has_hash(s, h) || h == b.hash),
        h == b.hash ==> parents_of(s.push(b), h) == b.header.parent_hashes@,
        h != b.hash ==> parents_of(s.push(b), h) == parents_of(s, h),
{
    let t = s.push(b);
    assert(t[s.len() as int] == b);
    if has_hash(s, h) {
        let i = index_of(s, h);
        assert(t[i] == s[i]);
    }
    if h == b.hash {
        lemma_index_of(t, s.len() as int);
    } else if has_hash(t, h) {
        let i = index_of(t, h);
        assert(i < s.len());
        assert(s[i] == t[i]);
        lemma_index_of(t, i);
        lemma_index_of(s, i);
    }
}

/// What inserting a genesis block stamped `timestamp` into an empty DAG,
/// validated at clock time `now`, leaves: that one block when the stamp is
/// at most an hour after `now`, else nothing.
pub open spec fn genesis_added(blocks: Seq<Block>, timestamp: u64, now: u64) -> bool {
    if timestamp <= now + MAX_FUTURE_SECS {
        blocks.len() == 1 && blocks[0].header.timestamp == timestamp && blocks[0].header.parent_hashes@.len() == 0
    } else {
        blocks.len() == 0
    }
}

/// `x` is the lowest common ancestor-or-self of `h1` and `h2`: a block
/// that is `h1` or an ancestor of it and `h2` or an ancestor of it, stored
/// after every other such block, so that none of them descends from it.
pub open spec fn lowest_common(s: Seq<Block>, h1: BlockHash, h2: BlockHash, x: BlockHash) -> bool {
    &&& lca_candidate(s, h1, h2, x)
    &&& forall|y: BlockHash| #[trigger] lca_candidate(s, h1, h2, y) ==> crate::dag_traversal::hash_rank(s, y) <= crate::dag_traversal::hash_rank(s, x)
    &&& forall|y: BlockHash| #[trigger] lca_candidate(s, h1, h2, y) && y != x ==> !is_ancestor_of(s, x, y)
}

impl BlockDAG {
    /// The stored blocks, in insertion order.
    pub closed spec fn blocks(&self) -> Seq<Block> {
        self.store@
    }

    /// The DAG's invariant: unique hashes, parents stored before children,
    /// and an index that matches the store.
    pub closed spec fn wf(&self) -> bool {
        &&& self.store.wf()
        &&& self.index.wf()
        &&& parents_precede(self.store@)
        &&& index_matches(&self.index, self.store@)
    }

    /// What the invariant gives callers.
    pub proof fn lemma_wf(&self)
        requires
            self.wf(),
        ensures
            distinct_hashes(self.blocks()),
            parents_precede(self.blocks()),
            self.blocks().len() <= usize::MAX,
    {
        self.store.lemma_len_bound();
    }

    /// An empty DAG.
    pub fn new() -> (r: BlockDAG)
        ensures
            r.wf(),
            r.blocks() == Seq::<Block>::empty(),
    {
        BlockDAG { store: BlockStore::new(), index: DAGIndex::new() }
    }

    /// Adds a block whose structure fits the DAG.
    pub fn insert_validated_block(&mut self, block: Block) -> (r: Result<(), String>)
        requires
            old(self).wf(),
        ensures
            final(self).wf(),
            r is Ok <==> insertable(old(self).blocks(), block),
            r is Ok ==> final(self).blocks() == old(self).blocks().push(block),
            r is Err ==> final(self).blocks() == old(self).blocks(),
    {
        let ghost s = self.store@;
        if self.store.block_exists(&block.hash) {
            return Err("Block already exists in DAG".to_string());
        }
        if block.header.parent_hashes.len() > 0 {
            let mut i: usize = 0;
            while i < block.header.parent_hashes.len()
                invariant
                    self.wf(),
                    *self == *old(self),
                    self.store@ == s,
                    0 <= i <= block.header.parent_hashes@.len(),
                    forall|k: int| 0 <= k < i ==> has_hash(s, #[trigger] block.header.parent_hashes@[k]),
                decreases block.header.parent_hashes@.len() - i,
            {
                if !self.store.block_exists(&block.header.parent_hashes[i]) {
                    assert(block.header.parent_hashes@.contains(block.header.parent_hashes@[i as int]));
                    return Err("Parent block does not exist".to_string());
                }
                i = i + 1;
            }
            proof {
                assert forall|p: BlockHash| #[trigger] block.header.parent_hashes@.contains(p) implies has_hash(s, p) by {
                    let k = choose|k: int| 0 <= k < block.header.parent_hashes@.len() && block.header.parent_hashes@[k] == p;
                    assert(has_hash(s, block.header.parent_hashes@[k]));
                }
            }
        } else {
            if self.store.block_count() > 0 {
                return Err("Non-genesis block cannot have zero parents".to_string());
            }
        }
        let ghost old_index = self.index;
        self.index.update_tips_after_insert(&block);
        let ghost b = block;
        let _ = self.store.insert_block(block);
        proof {
            let t = s.push(b);
            assert(self.store@ == t);
            assert forall|h: BlockHash| #![auto] has_hash(t, h) <==> (has_hash(s, h) || h == b.hash) by {
                lemma_push_lookup(s, b, h);
            }
            assert(parents_precede(t)) by {
                assert forall|i: int, p: BlockHash| 0 <= i < t.len() && #[trigger] t[i].header.parent_hashes@.contains(p) implies exists|j: int| 0 <= j < i && t[j].hash == p by {
                    if i < s.len() {
                        assert(t[i] == s[i]);
                        let j = choose|j: int| 0 <= j < i && s[j].hash == p;
                        assert(t[j] == s[j]);
                    } else {
                        assert(t[i] == b);
                        assert(has_hash(s, p));
                        let j = choose|j: int| 0 <= j < s.len() && s[j].hash == p;
                        assert(t[j] == s[j]);
                    }
                }
            }
            assert forall|p: BlockHash, c: BlockHash| #[trigger] self.index.children_of(p).contains(c) <==> is_child_of(t, p, c) by {
                lemma_push_lookup(s, b, c);
                assert(old_index.children_of(p).contains(c) <==> is_child_of(s, p, c));
            }
            assert forall|h: BlockHash| #[trigger] self.index.tips_view().contains(h) <==> is_tip_of(t, h) by {
                lemma_push_lookup(s, b, h);
                assert(old_index.tips_view().contains(h) <==> is_tip_of(s, h));
                assert(is_some_parent(t, h) <==> (is_some_parent(s, h) || b.header.parent_hashes@.contains(h))) by {
                    if is_some_parent(t, h) {
                        let i = choose|i: int| 0 <= i < t.len() && #[trigger] t[i].header.parent_hashes@.contains(h);
                        if i < s.len() {
                            assert(t[i] == s[i]);
                        } else {
                            assert(t[i] == b);
                        }
                    }
                    if is_some_parent(s, h) {
                        let i = choose|i: int| 0 <= i < s.len() && #[trigger] s[i].header.parent_hashes@.contains(h);
                        assert(t[i] == s[i]);
                    }
                    if b.header.parent_hashes@.contains(h) {
                        assert(t[s.len() as int] == b);
                    }
                }
                if h == b.hash {
                    assert(!is_some_parent(s, h)) by {
                        if is_some_parent(s, h) {
                            let i = choose|i: int| 0 <= i < s.len() && #[trigger] s[i].header.parent_hashes@.contains(h);
                            let j = choose|j: int| 0 <= j < i && s[j].hash == h;
                        }
                    }
                    assert(!b.header.parent_hashes@.contains(h)) by {
                        if b.header.parent_hashes@.contains(h) {
                            assert(b.header.parent_hashes@.len() > 0);
                            assert(has_hash(s, h));
                        }
                    }
                }
            }
        }
        Ok(())
    }

    /// Validates a block against the clock, then adds it.
    pub fn insert_block(&mut self, block: Block) -> (r: Result<(), String>)
        requires
            old(self).wf(),
        ensures
            final(self).wf(),
            r is Ok ==> (exists|now: u64| block_valid_at(block, now)) && insertable(old(self).blocks(), block)
                && final(self).blocks() == old(self).blocks().push(block),
            !insertable(old(self).blocks(), block) ==> r is Err,
            !(exists|now: u64| block_valid_at(block, now)) ==> r is Err,
            r is Err ==> final(self).blocks() == old(self).blocks(),
            insertable(old(self).blocks(), block) && block_valid_at(block, 0) ==> r is Ok,
    {
        let now = now_unix_secs();
        self.insert_block_at(block, now)
    }

    /// Validates a block at clock time `now`, then adds it: `Ok` exactly
    /// when it passes basic validation at `now` and fits the DAG.
    pub fn insert_block_at(&mut self, block: Block, now: u64) -> (r: Result<(), String>)
        requires
            old(self).wf(),
        ensures
            final(self).wf(),
            r is Ok <==> block_valid_at(block, now) && insertable(old(self).blocks(), block),
            r is Ok ==> final(self).blocks() == old(self).blocks().push(block),
            r is Err ==> final(self).blocks() == old(self).blocks(),
    {
        block.validate_basic_at(now)?;
        self.insert_validated_block(block)
    }

    /// A DAG holding just the given genesis block.
    pub fn with_genesis(genesis: Block) -> (r: Result<BlockDAG, String>)
        ensures
            r matches Ok(d) ==> d.wf() && d.blocks() == seq![genesis] && (exists|now: u64| block_valid_at(genesis, now)),
            genesis.header.parent_hashes@.len() > 0 ==> r is Err,
            !(exists|now: u64| block_valid_at(genesis, now)) ==> r is Err,
            genesis.header.parent_hashes@.len() == 0 && block_valid_at(genesis, 0) ==> r is Ok,
    {
        let mut dag = BlockDAG::new();
        if !genesis.is_genesis() {
            return Err("Block must be genesis block (no parents)".to_string());
        }
        let ghost g = genesis;
        dag.insert_block(genesis)?;
        assert(dag.blocks() =~= seq![g]);
        Ok(dag)
    }

    /// Adds the blocks in order, stopping at the first that is refused.
    pub fn insert_blocks(&mut self, blocks: Vec<Block>) -> (r: Result<usize, String>)
        requires
            old(self).wf(),
        ensures
            final(self).wf(),
            r matches Ok(n) ==> n == blocks@.len() && final(self).blocks() == old(self).blocks() + blocks@,
            r is Err ==> exists|k: int| 0 <= k < blocks@.len() && final(self).blocks() == old(self).blocks() + blocks@.subrange(0, k),
    {
        let ghost all = blocks@;
        let total_len = blocks.len();
        assert(all.len() == total_len);
        let mut rest = blocks;
        let mut inserted: usize = 0;
        while rest.len() > 0
            invariant
                self.wf(),
                0 <= inserted <= all.len(),
                rest@ == all.subrange(inserted as int, all.len() as int),
                all.len() <= usize::MAX,
                all == blocks@,
                self.blocks() == old(self).blocks() + all.subrange(0, inserted as int),
            decreases rest@.len(),
        {
            let b = rest.remove(0);
            let ghost bb = b;
            match self.insert_block(b) {
                Ok(()) => {
                    proof {
                        assert(all.subrange(0, inserted + 1) =~= all.subrange(0, inserted as int).push(bb));
                        assert(rest@ =~= all.subrange(inserted + 1, all.len() as int));
                    }
                    inserted = inserted + 1;
                },
                Err(e) => {
                    assert(self.blocks() == old(self).blocks() + all.subrange(0, inserted as int));
                    assert(0 <= inserted < all.len());
                    assert(all == blocks@);
                    assert(self.blocks() == old(self).blocks() + blocks@.subrange(0, inserted as int));
                    return Err(e);
                },
            }
        }
        assert(all.subrange(0, inserted as int) =~= all);
        Ok(inserted)
    }

    /// A copy of the block with hash `h`.
    pub fn get_block(&self, h: &BlockHash) -> (r: Option<Block>)
        requires
            self.wf(),
        ensures
            r is Some <==> has_hash(self.blocks(), *h),
            r matches Some(b) ==> same_block(self.blocks()[index_of(self.blocks(), *h)], b),
    {
        self.store.get_block(h)
    }

    /// Copies of all blocks, in insertion order.
    pub fn get_all_blocks(&self) -> (r: Vec<Block>)
        ensures
            r@.len() == self.blocks().len(),
            forall|i: int| 0 <= i < r@.len() ==> same_block(self.blocks()[i], #[trigger] r@[i]),
    {
        self.store.get_all_blocks()
    }

    /// The tips: stored blocks no stored block builds on.
    pub fn get_tips(&self) -> (r: Vec<BlockHash>)
        requires
            self.wf(),
        ensures
            r@.no_duplicates(),
            forall|h: BlockHash| r@.contains(h) <==> is_tip_of(self.blocks(), h),
    {
        self.index.get_tips()
    }

    /// Copies of the tip blocks.
    pub fn get_tip_blocks(&self) -> (r: Vec<Block>)
        requires
            self.wf(),
        ensures
            forall|h: BlockHash| has_hash(r@, h) <==> is_tip_of(self.blocks(), h),
    {
        let tips = self.get_tips();
        let mut out: Vec<Block> = Vec::new();
        let mut i: usize = 0;
        while i < tips.len()
            invariant
                self.wf(),
                0 <= i <= tips@.len(),
                forall|h: BlockHash| tips@.contains(h) <==> is_tip_of(self.blocks(), h),
                forall|h: BlockHash| has_hash(out@, h) <==> crate::dag_index::in_prefix(tips@, i as int, h),
            decreases tips@.len() - i,
        {
            assert(tips@.contains(tips@[i as int]));
            proof { crate::dag_index::lemma_in_prefix_step(tips@, i as int); }
            match self.get_block(&tips[i]) {
                Some(b) => {
                    let ghost old_out = out@;
                    out.push(b);
                    proof {
                        assert forall|h: BlockHash| has_hash(out@, h) <==> crate::dag_index::in_prefix(tips@, i + 1, h) by {
                            if has_hash(out@, h) {
                                let k = choose|k: int| 0 <= k < out@.len() && out@[k].hash == h;
                                if k < old_out.len() {
                                    assert(old_out[k].hash == h);
                                    assert(has_hash(old_out, h));
                                }
                            }
                            if has_hash(old_out, h) {
                                let k = choose|k: int| 0 <= k < old_out.len() && old_out[k].hash == h;
                                assert(out@[k].hash == h);
                            }
                            if h == tips@[i as int] {
                                assert(out@[old_out.len() as int].hash == h);
                            }
                        }
                    }
                },
                None => {
                    assert(false);
                },
            }
            i = i + 1;
        }
        proof {
            assert forall|h: BlockHash| has_hash(out@, h) <==> is_tip_of(self.blocks(), h) by {
                if crate::dag_index::in_prefix(tips@, i as int, h) {
                    let k = choose|k: int| 0 <= k < i && #[trigger] tips@[k] == h;
                    assert(tips@.contains(h));
                }
                if is_tip_of(self.blocks(), h) {
                    assert(tips@.contains(h));
                    let k = choose|k: int| 0 <= k < tips@.len() && tips@[k] == h;
                    assert(crate::dag_index::in_prefix(tips@, i as int, h));
                }
            }
        }
        out
    }

    /// The children of `h`.
    pub fn get_children(&self, h: &BlockHash) -> (r: Vec<BlockHash>)
        requires
            self.wf(),
        ensures
            forall|c: BlockHash| r@.contains(c) <==> is_child_of(self.blocks(), *h, c),
    {
        self.index.get_children(h)
    }

    /// Copies of the parent blocks of `h`, in the order the block lists them.
    pub fn get_parents(&self, h: &BlockHash) -> (r: Vec<Block>)
        requires
            self.wf(),
        ensures
            r@.len() == parents_of(self.blocks(), *h).len(),
            forall|i: int| 0 <= i < r@.len() ==> #[trigger] r@[i].hash == parents_of(self.blocks(), *h)[i],
    {
        let ps = self.store.get_parents(h);
        let mut out: Vec<Block> = Vec::new();
        let mut i: usize = 0;
        while i < ps.len()
            invariant
                self.wf(),
                ps@ == parents_of(self.blocks(), *h),
                0 <= i <= ps@.len(),
                out@.len() == i,
                forall|k: int| 0 <= k < i ==> #[trigger] out@[k].hash == ps@[k],
            decreases ps@.len() - i,
        {
            proof {
                let s = self.blocks();
                assert(has_hash(s, *h));
                let ih = index_of(s, *h);
                lemma_index_of(s, ih);
                assert(s[ih].header.parent_hashes@.contains(ps@[i as int]));
            }
            match self.get_block(&ps[i]) {
                Some(b) => {
                    out.push(b);
                },
                None => {
                    assert(false);
                },
            }
            i = i + 1;
        }
        out
    }

    /// Checks the stored blocks: hashes match content and there is at least
    /// the genesis block.
    pub fn validate(&self) -> (r: Result<(), String>)
        requires
            self.wf(),
        ensures
            r is Ok <==> (self.blocks().len() > 0 && forall|i: int| 0 <= i < self.blocks().len() ==> self.blocks()[i].hash@ == block_hash_spec(#[trigger] self.blocks()[i])),
    {
        self.store.verify_integrity()?;
        if self.store.block_count() == 0 {
            return Err("DAG must have at least one block (genesis)".to_string());
        }
        Ok(())
    }

    /// Total number of stored transactions (saturating).
    fn count_transactions(&self) -> (r: usize)
        ensures
            tx_total(self.blocks()) <= usize::MAX ==> r == tx_total(self.blocks()),
            tx_total(self.blocks()) > usize::MAX ==> r == usize::MAX,
    {
        let blocks = self.store.blocks();
        let mut total: u128 = 0;
        let mut i: usize = 0;
        while i < blocks.len()
            invariant
                blocks@ == self.blocks(),
                0 <= i <= blocks@.len(),
                total == tx_total(blocks@.subrange(0, i as int)),
                total <= i * 18446744073709551615,
            decreases blocks@.len() - i,
        {
            proof {
                assert(blocks@.subrange(0, i + 1).drop_last() =~= blocks@.subrange(0, i as int));
                assert(i * 18446744073709551615 + 18446744073709551615 <= 18446744073709551616 * 18446744073709551615) by (nonlinear_arith)
                    requires i < 18446744073709551616;
            }
            total = total + blocks[i].transactions.len() as u128;
            i = i + 1;
        }
        assert(blocks@.subrange(0, i as int) =~= blocks@);
        if total > usize::MAX as u128 { usize::MAX } else { total as usize }
    }

    /// Total number of parent links (saturating).
    fn count_parents(&self) -> (r: usize)
        ensures
            parent_total(self.blocks()) <= usize::MAX ==> r == parent_total(self.blocks()),
            parent_total(self.blocks()) > usize::MAX ==> r == usize::MAX,
    {
        let blocks = self.store.blocks();
        let mut total: u128 = 0;
        let mut i: usize = 0;
        while i < blocks.len()
            invariant
                blocks@ == self.blocks(),
                0 <= i <= blocks@.len(),
                total == parent_total(blocks@.subrange(0, i as int)),
                total <= i * 18446744073709551615,
            decreases blocks@.len() - i,
        {
            proof {
                assert(blocks@.subrange(0, i + 1).drop_last() =~= blocks@.subrange(0, i as int));
                assert(i * 18446744073709551615 + 18446744073709551615 <= 18446744073709551616 * 18446744073709551615) by (nonlinear_arith)
                    requires i < 18446744073709551616;
            }
            total = total + blocks[i].header.parent_hashes.len() as u128;
            i = i + 1;
        }
        assert(blocks@.subrange(0, i as int) =~= blocks@);
        if total > usize::MAX as u128 { usize::MAX } else { total as usize }
    }


    /// All ancestors of `h`: reached by one or more parent links.
    pub fn get_ancestors(&self, h: &BlockHash) -> (r: Vec<BlockHash>)
        requires
            self.wf(),
        ensures
            r@.no_duplicates(),
            forall|x: BlockHash| r@.contains(x) <==> is_ancestor_of(self.blocks(), x, *h),
    {
        self.index.get_all_ancestors(h, &self.store)
    }

    /// All descendants of `h`: the blocks `h` is an ancestor of.
    pub fn get_descendants(&self, h: &BlockHash) -> (r: Vec<BlockHash>)
        requires
            self.wf(),
        ensures
            r@.no_duplicates(),
            forall|x: BlockHash| r@.contains(x) <==> is_ancestor_of(self.blocks(), *h, x),
    {
        let r = self.index.get_all_descendants(h, &self.store);
        proof {
            assert forall|x: BlockHash| r@.contains(x) <==> is_ancestor_of(self.blocks(), *h, x) by {
                lemma_descendant_iff_ancestor(&self.index, self.store@, *h, x);
            }
        }
        r
    }

    /// Whether `ancestor_hash` is an ancestor of `block_hash`.
    pub fn is_ancestor(&self, ancestor_hash: &BlockHash, block_hash: &BlockHash) -> (r: bool)
        requires
            self.wf(),
        ensures
            r == is_ancestor_of(self.blocks(), *ancestor_hash, *block_hash),
    {
        self.index.is_ancestor(ancestor_hash, block_hash, &self.store)
    }

    /// The lowest common ancestor-or-self of two blocks (see
    /// `lowest_common`); `None` when the two share none.
    pub fn find_lca(&self, hash1: &BlockHash, hash2: &BlockHash) -> (r: Option<BlockHash>)
        requires
            self.wf(),
        ensures
            r matches Some(x) ==> lowest_common(self.blocks(), *hash1, *hash2, x),
            r is None ==> forall|x: BlockHash| !#[trigger] lca_candidate(self.blocks(), *hash1, *hash2, x),
    {
        self.index.find_lca(hash1, hash2, &self.store)
    }

    /// All stored blocks, each once, every parent before its children.
    pub fn get_topological_order(&self) -> (r: Vec<BlockHash>)
        requires
            self.wf(),
        ensures
            r@.no_duplicates(),
            forall|x: BlockHash| r@.contains(x) <==> has_hash(self.blocks(), x),
            parents_earlier(r@, self.blocks()),
            r@.len() == self.blocks().len(),
    {
        let r = self.index.get_topological_order(&self.store);
        proof {
            let s = self.store@;
            lemma_all_placed(r@, s, s.len() as int);
            assert forall|x: BlockHash| has_hash(s, x) implies r@.contains(x) by {
                let i = choose|i: int| 0 <= i < s.len() && s[i].hash == x;
                assert(r@.contains(s[i].hash));
            }
            let hs = s.map_values(|b: Block| b.hash);
            assert forall|x: BlockHash| r@.contains(x) implies hs.contains(x) by {
                let i = index_of(s, x);
                assert(hs[i] == x);
            }
            crate::storage::lemma_nodup_subset_len(r@, hs);
            assert(hs.no_duplicates()) by {
                assert forall|i: int, j: int| 0 <= i < hs.len() && 0 <= j < hs.len() && i != j implies hs[i] != hs[j] by {}
            }
            assert forall|x: BlockHash| hs.contains(x) implies r@.contains(x) by {
                let i = choose|i: int| 0 <= i < hs.len() && hs[i] == x;
                assert(has_hash(s, x));
            }
            crate::storage::lemma_nodup_subset_len(hs, r@);
        }
        r
    }

    /// Blocks sharing a parent with `h`, other than `h`.
    pub fn get_coparents(&self, h: &BlockHash) -> (r: Vec<BlockHash>)
        requires
            self.wf(),
        ensures
            r@.no_duplicates(),
            forall|c: BlockHash| r@.contains(c) <==> (c != *h && exists|p: BlockHash| #[trigger] parents_of(self.blocks(), *h).contains(p) && is_child_of(self.blocks(), p, c)),
    {
        let r = self.index.get_coparents(h, &self.store);
        proof {
            assert forall|c: BlockHash| r@.contains(c) <==> (c != *h && exists|p: BlockHash| #[trigger] parents_of(self.blocks(), *h).contains(p) && is_child_of(self.blocks(), p, c)) by {
                if r@.contains(c) {
                    let p = choose|p: BlockHash| #[trigger] parents_of(self.store@, *h).contains(p) && self.index.children_of(p).contains(c);
                    assert(is_child_of(self.blocks(), p, c));
                }
                if c != *h && exists|p: BlockHash| #[trigger] parents_of(self.blocks(), *h).contains(p) && is_child_of(self.blocks(), p, c) {
                    let p = choose|p: BlockHash| #[trigger] parents_of(self.blocks(), *h).contains(p) && is_child_of(self.blocks(), p, c);
                    assert(self.index.children_of(p).contains(c));
                }
            }
        }
        r
    }

    /// Length of the longest chain of parent links from `h`.
    pub fn get_block_depth(&self, h: &BlockHash) -> (r: usize)
        requires
            self.wf(),
        ensures
            depth_is(self.blocks(), *h, r as nat),
    {
        self.index.get_block_depth(h, &self.store)
    }

    /// Replaces the index with one built from the store.
    pub fn rebuild_index(&mut self)
        requires
            old(self).wf(),
        ensures
            final(self).wf(),
            final(self).blocks() == old(self).blocks(),
    {
        self.index = DAGIndex::build_from_store(&self.store);
    }

    /// Number of stored blocks.
    pub fn block_count(&self) -> (r: usize)
        ensures
            r == self.blocks().len(),
    {
        self.store.block_count()
    }

    /// A new block on all current tips, stamped with the clock.
    pub fn create_block_on_tips(&self, transactions: Vec<Transaction>) -> (r: Block)
        requires
            self.wf(),
            expected_reward(transactions@, 0) <= u64::MAX,
        ensures
            forall|h: BlockHash| r.header.parent_hashes@.contains(h) <==> is_tip_of(self.blocks(), h),
            r.transactions@ == transactions@,
            r.header.nonce == 0,
            r.header.difficulty == 0,
            r.header.base_fee == 0,
            r.reward == expected_reward(transactions@, 0),
            r.hash@ == block_hash_spec(r),
    {
        let tips = self.get_tips();
        let timestamp = now_unix_secs();
        Block::new(tips, timestamp, transactions, 0, 0, 0, [0u8; 20], [0u8; 32])
    }

    /// Creates a genesis block stamped with the clock and tries to insert it.
    pub fn create_genesis_block(&mut self) -> (r: Block)
        requires
            old(self).wf(),
        ensures
            final(self).wf(),
            r.header.parent_hashes@.len() == 0,
            r.transactions@.len() == 0,
            r.reward == 500,
            r.hash@ == block_hash_spec(r),
            final(self).blocks() == old(self).blocks() || (old(self).blocks().len() == 0 && final(self).blocks().len() == 1 && same_block(final(self).blocks()[0], r)),
            old(self).blocks().len() == 0 ==> exists|timestamp: u64, now: u64| #[trigger] genesis_added(final(self).blocks(), timestamp, now),
    {
        let timestamp = now_unix_secs();
        let now = now_unix_secs();
        let r = self.create_genesis_at(timestamp, now);
        proof {
            if old(self).blocks().len() == 0 {
                assert(genesis_added(self.blocks(), timestamp, now));
            }
        }
        r
    }

    /// Creates a genesis block with time `timestamp` and inserts it,
    /// validating at clock time `now`: it is added exactly when the DAG is
    /// empty and the timestamp is at most an hour after `now`.
    pub fn create_genesis_at(&mut self, timestamp: u64, now: u64) -> (r: Block)
        requires
            old(self).wf(),
        ensures
            final(self).wf(),
            r.header.parent_hashes@.len() == 0,
            r.header.timestamp == timestamp,
            r.transactions@.len() == 0,
            r.reward == 500,
            r.hash@ == block_hash_spec(r),
            old(self).blocks().len() == 0 && timestamp <= now + MAX_FUTURE_SECS
                ==> final(self).blocks().len() == 1 && same_block(final(self).blocks()[0], r),
            !(old(self).blocks().len() == 0 && timestamp <= now + MAX_FUTURE_SECS) ==> final(self).blocks() == old(self).blocks(),
    {
        let genesis = Block::new(Vec::new(), timestamp, Vec::new(), 0, 0, 0, [0u8; 20], [0u8; 32]);
        proof {
            reveal_with_fuel(crate::block::total_tips, 1);
        }
        let copy = genesis.copy();
        let ghost cg = copy;
        proof {
            assert(cg.transactions@ =~= Seq::<Transaction>::empty());
            assert(tx_hashes_distinct(cg.transactions@));
        }
        let _ = self.insert_block_at(copy, now);
        proof {
            if self.blocks() != old(self).blocks() {
                assert(self.blocks() == old(self).blocks().push(cg));
                assert(old(self).blocks().len() == 0);
                assert(self.blocks()[0] == cg);
            }
        }
        genesis
    }

    /// Creates and inserts a genesis block when the DAG is empty.
    pub fn create_genesis_if_empty(&mut self)
        requires
            old(self).wf(),
        ensures
            final(self).wf(),
            old(self).blocks().len() > 0 ==> final(self).blocks() == old(self).blocks(),
            old(self).blocks().len() == 0 ==> final(self).blocks().len() <= 1,
            forall|i: int| 0 <= i < final(self).blocks().len() - old(self).blocks().len() ==> (#[trigger] final(self).blocks()[i]).header.parent_hashes@.len() == 0,
            old(self).blocks().len() == 0 && final(self).blocks().len() == 1 ==> final(self).blocks()[0].transactions@.len() == 0
                && final(self).blocks()[0].reward == 500 && final(self).blocks()[0].hash@ == block_hash_spec(final(self).blocks()[0]),
            old(self).blocks().len() == 0 ==> exists|timestamp: u64, now: u64| #[trigger] genesis_added(final(self).blocks(), timestamp, now),
    {
        if self.store.block_count() == 0 {
            let _genesis = self.create_genesis_block();
        }
    }

    /// All blocks, the tips and the summary counts.
    pub fn export_dag(&self) -> (r: DAGExport)
        requires
            self.wf(),
            tx_total(self.blocks()) <= usize::MAX,
            parent_total(self.blocks()) <= usize::MAX,
            size_total(self.blocks()) <= usize::MAX,
        ensures
            r.blocks@.len() == self.blocks().len(),
            forall|i: int| 0 <= i < r.blocks@.len() ==> same_block(self.blocks()[i], #[trigger] r.blocks@[i]),
            forall|h: BlockHash| r.tips@.contains(h) <==> is_tip_of(self.blocks(), h),
            r.statistics.total_blocks == self.blocks().len(),
            r.statistics.total_transactions == tx_total(self.blocks()),
            r.statistics.num_tips == r.tips@.len(),
    {
        let stats = self.get_stats();
        let tips = self.get_tips();
        proof {
            assert(tips@.to_set() =~= tip_set(self.blocks()));
            tips@.unique_seq_to_set();
        }
        DAGExport { blocks: self.get_all_blocks(), tips, statistics: stats }
    }


    /// The parent hashes of `h` (empty for an unknown hash).
    pub fn parent_hashes(&self, h: &BlockHash) -> (r: Vec<BlockHash>)
        requires
            self.wf(),
        ensures
            r@ == parents_of(self.blocks(), *h),
    {
        self.store.get_parents(h)
    }

    /// Whether a block with hash `h` is stored.
    pub fn contains_block(&self, h: &BlockHash) -> (r: bool)
        requires
            self.wf(),
        ensures
            r == has_hash(self.blocks(), *h),
    {
        self.store.block_exists(h)
    }


    /// The stored blocks, in insertion order.
    pub fn stored_blocks(&self) -> (r: &Vec<Block>)
        ensures
            r@ == self.blocks(),
    {
        self.store.blocks()
    }

    /// Total size estimate of the stored blocks.
    fn total_size(&self) -> (r: usize)
        requires
            size_total(self.blocks()) <= usize::MAX,
        ensures
            r == size_total(self.blocks()),
    {
        let blocks = self.store.blocks();
        let mut total: usize = 0;
        let mut i: usize = 0;
        while i < blocks.len()
            invariant
                blocks@ == self.blocks(),
                size_total(blocks@) <= usize::MAX,
                0 <= i <= blocks@.len(),
                total == size_total(blocks@.subrange(0, i as int)),
            decreases blocks@.len() - i,
        {
            proof {
                assert(blocks@.subrange(0, i + 1).drop_last() =~= blocks@.subrange(0, i as int));
                lemma_size_total_prefix(blocks@, i + 1);
            }
            let sz = blocks[i].size_estimate();
            total = total + sz;
            i = i + 1;
        }
        assert(blocks@.subrange(0, i as int) =~= blocks@);
        total
    }

    /// Summary counts: blocks, transactions, tips, average parents per
    /// block (rounded down, 0 when empty) and the blocks' total size.
    pub fn get_stats(&self) -> (r: DAGStats)
        requires
            self.wf(),
            tx_total(self.blocks()) <= usize::MAX,
            parent_total(self.blocks()) <= usize::MAX,
            size_total(self.blocks()) <= usize::MAX,
        ensures
            r.total_blocks == self.blocks().len(),
            r.total_transactions == tx_total(self.blocks()),
            r.num_tips == tip_set(self.blocks()).len(),
            r.avg_parents_per_block == (if self.blocks().len() == 0 { 0 } else { parent_total(self.blocks()) / (self.blocks().len() as int) }),
            r.total_size_bytes == size_total(self.blocks()),
    {
        let tips = self.get_tips();
        proof {
            assert(tips@.to_set() =~= tip_set(self.blocks()));
            tips@.unique_seq_to_set();
        }
        let n = self.store.block_count();
        let total_txs = self.count_transactions();
        proof { lemma_parent_total_bound(self.blocks()); }
        let total_parents = self.count_parents();
        let avg = if n > 0 { total_parents / n } else { 0 };
        DAGStats {
            total_blocks: n,
            total_transactions: total_txs,
            num_tips: tips.len(),
            avg_parents_per_block: avg,
            total_size_bytes: self.total_size(),
        }
    }
}

proof fn lemma_all_placed(r: Seq<BlockHash>, s: Seq<Block>, n: int)
    requires
        0 <= n <= s.len(),
        parents_precede(s),
        placed_closed(r, s),
    ensures
        forall|i: int| 0 <= i < n ==> r.contains(#[trigger] s[i].hash),
    decreases n,
{
    if n > 0 {
        lemma_all_placed(r, s, n - 1);
        assert(parents_placed(s[n - 1], r)) by {
            assert forall|p: BlockHash| #[trigger] s[n - 1].header.parent_hashes@.contains(p) implies r.contains(p) by {
                let j = choose|j: int| 0 <= j < n - 1 && s[j].hash == p;
                assert(r.contains(s[j].hash));
            }
        }
    }
}

/// The tips of `s` as a set.
pub open spec fn tip_set(s: Seq<Block>) -> Set<BlockHash> {
    Set::new(|h: BlockHash| is_tip_of(s, h))
}

/// Size estimate of one block.
pub open spec fn block_size(b: Block) -> int {
    (32 + b.header.parent_hashes@.len() * 32 + b.transactions@.len() * (vstd::layout::size_of::<String>() + 264) + 60) as int
}

/// Sum of block size estimates.
pub open spec fn size_total(s: Seq<Block>) -> int
    decreases s.len(),
{
    if s.len() == 0 { 0 } else { size_total(s.drop_last()) + block_size(s.last()) }
}

proof fn lemma_size_total_prefix(s: Seq<Block>, n: int)
    requires
        0 <= n <= s.len(),
    ensures
        size_total(s.subrange(0, n)) <= size_total(s),
        n > 0 ==> block_size(s[n - 1]) <= size_total(s.subrange(0, n)),
        0 <= size_total(s.subrange(0, n)),
    decreases s.len(),
{
    if n < s.len() {
        assert(s.drop_last().subrange(0, n) =~= s.subrange(0, n));
        lemma_size_total_prefix(s.drop_last(), n);
        assert(block_size(s.last()) >= 0) by (nonlinear_arith)
            requires s.last().transactions@.len() >= 0, vstd::layout::size_of::<String>() >= 0;
    } else {
        assert(s.subrange(0, n) =~= s);
        if n > 0 {
            assert(s.drop_last().subrange(0, n - 1) =~= s.drop_last());
            lemma_size_total_prefix(s.drop_last(), n - 1);
            assert(s.last() == s[n - 1]);
        }
    }
}

proof fn lemma_parent_total_bound(s: Seq<Block>)
    ensures
        0 <= parent_total(s),
    decreases s.len(),
{
    if s.len() > 0 {
        lemma_parent_total_bound(s.drop_last());
    }
}

} // verus!
