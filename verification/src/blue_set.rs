//! Blue and red colouring of blocks relative to a reference block.
//!
//! A block is blue relative to a reference when its anticone relative to
//! that reference has at most `k` members; the reference itself is always
//! blue.
use vstd::prelude::*;
use crate::hashing::{BlockHash, hash_eq, contains_hash, sort_hashes, sorted_strict};
use crate::block::Block;
use crate::blockdag::BlockDAG;
use crate::storage::{has_hash, distinct_hashes, index_of, is_ancestor_of, lemma_index_of};
use crate::dag_index::{in_prefix, lemma_in_prefix_step};
use crate::dag_traversal::{DAGTraversal, anticone_set, anticone_member, proper_ancestor, lemma_len_matches_set};

verus! {

/// `b` is blue relative to `r`: its anticone relative to `r` has at most `k` members.
pub open spec fn is_blue_rel(s: Seq<Block>, b: BlockHash, r: BlockHash, k: nat) -> bool {
    anticone_set(s, b, r).len() <= k
}

/// The hashes of the stored blocks.
pub open spec fn stored_set(s: Seq<Block>) -> Set<BlockHash> {
    Set::new(|x: BlockHash| has_hash(s, x))
}

/// The blue set relative to `r`: `r` itself and every stored block blue relative to it.
pub open spec fn blue_set_of(s: Seq<Block>, r: BlockHash, k: nat) -> Set<BlockHash> {
    Set::new(|x: BlockHash| x == r || (has_hash(s, x) && is_blue_rel(s, x, r, k)))
}

/// The red set relative to `r`: the stored blocks outside the blue set.
pub open spec fn red_set_of(s: Seq<Block>, r: BlockHash, k: nat) -> Set<BlockHash> {
    Set::new(|x: BlockHash| has_hash(s, x) && x != r && !is_blue_rel(s, x, r, k))
}

/// With distinct hashes there are as many stored hashes as blocks.
pub proof fn lemma_stored_set(s: Seq<Block>)
    requires
        distinct_hashes(s),
    ensures
        stored_set(s).finite(),
        stored_set(s).len() == s.len(),
{
    let hs = s.map_values(|b: Block| b.hash);
    assert(hs.no_duplicates()) by {
        assert forall|i: int, j: int| 0 <= i < hs.len() && 0 <= j < hs.len() && i != j implies hs[i] != hs[j] by {}
    }
    assert forall|x: BlockHash| hs.contains(x) <==> stored_set(s).contains(x) by {
        if stored_set(s).contains(x) {
            let i = choose|i: int| 0 <= i < s.len() && s[i].hash == x;
            assert(hs[i] == x);
        }
        if hs.contains(x) {
            let i = choose|i: int| 0 <= i < hs.len() && hs[i] == x;
            assert(s[i].hash == x);
        }
    }
    lemma_len_matches_set(hs, stored_set(s));
}

/// Every stored block, and the reference, is either blue or red and never
/// both; so the two counts add up to the number of stored blocks, plus one
/// when the reference is not stored.
pub proof fn lemma_blue_red_partition(s: Seq<Block>, r: BlockHash, k: nat)
    requires
        distinct_hashes(s),
    ensures
        blue_set_of(s, r, k).finite(),
        red_set_of(s, r, k).finite(),
        blue_set_of(s, r, k).disjoint(red_set_of(s, r, k)),
        blue_set_of(s, r, k) + red_set_of(s, r, k) == stored_set(s).insert(r),
        blue_set_of(s, r, k).len() + red_set_of(s, r, k).len() == s.len() + (if has_hash(s, r) { 0int } else { 1int }),
{
    lemma_stored_set(s);
    let all = stored_set(s).insert(r);
    let blue = blue_set_of(s, r, k);
    let red = red_set_of(s, r, k);
    assert(blue + red =~= all);
    assert(blue.subset_of(all));
    assert(red.subset_of(all));
    vstd::set_lib::lemma_set_subset_finite(all, blue);
    vstd::set_lib::lemma_set_subset_finite(all, red);
    vstd::set_lib::lemma_set_disjoint_lens(blue, red);
    if has_hash(s, r) {
        assert(all =~= stored_set(s));
    }
}

/// Blue-set calculator with parameter `k`.
#[derive(Clone, Copy, Debug)]
pub struct BlueSet {
    /// The largest anticone a blue block may have.
    pub k: usize,
}

impl BlueSet {
    /// A calculator with parameter `k`.
    pub fn new(k: usize) -> (r: BlueSet)
        ensures
            r.k == k,
    {
        BlueSet { k }
    }

    /// The blue set relative to `reference_hash`, each hash once.
    pub fn build_blue_set(&self, dag: &BlockDAG, reference_hash: &BlockHash) -> (r: Vec<BlockHash>)
        requires
            dag.wf(),
        ensures
            r@.no_duplicates(),
            forall|x: BlockHash| r@.contains(x) <==> blue_set_of(dag.blocks(), *reference_hash, self.k as nat).contains(x),
    {
        let ghost s = dag.blocks();
        let all = DAGTraversal::get_all_blocks(dag);
        let mut out: Vec<BlockHash> = Vec::new();
        out.push(*reference_hash);
        proof {
            assert forall|x: BlockHash| out@.contains(x) <==> (x == *reference_hash || (in_prefix(all@, 0, x) && is_blue_rel(s, x, *reference_hash, self.k as nat))) by {
                if x == *reference_hash { assert(out@[0] == x); }
            }
        }
        let mut i: usize = 0;
        while i < all.len()
            invariant
                dag.wf(),
                s == dag.blocks(),
                0 <= i <= all@.len(),
                all@.no_duplicates(),
                forall|x: BlockHash| all@.contains(x) <==> has_hash(s, x),
                out@.no_duplicates(),
                forall|x: BlockHash| out@.contains(x) <==> (x == *reference_hash || (in_prefix(all@, i as int, x) && is_blue_rel(s, x, *reference_hash, self.k as nat))),
            decreases all@.len() - i,
        {
            let x = all[i];
            let ghost old_o = out@;
            proof { lemma_in_prefix_step(all@, i as int); }
            if !hash_eq(&x, reference_hash) {
                let anticone = DAGTraversal::get_anticone(dag, &x, reference_hash);
                if anticone.len() <= self.k {
                    proof {
                        assert(!old_o.contains(x)) by {
                            if old_o.contains(x) {
                                let t = choose|t: int| 0 <= t < i && #[trigger] all@[t] == x;
                            }
                        }
                    }
                    out.push(x);
                    proof {
                        assert forall|y: BlockHash| out@.contains(y) <==> (old_o.contains(y) || y == x) by {
                            if old_o.contains(y) {
                                let t = choose|t: int| 0 <= t < old_o.len() && old_o[t] == y;
                                assert(out@[t] == y);
                            }
                            if out@.contains(y) && y != x {
                                let t = choose|t: int| 0 <= t < out@.len() && out@[t] == y;
                                assert(old_o[t] == y);
                            }
                            if y == x { assert(out@[out@.len() - 1] == y); }
                        }
                    }
                }
            }
            proof {
                assert forall|y: BlockHash| out@.contains(y) <==> (y == *reference_hash || (in_prefix(all@, i + 1, y) && is_blue_rel(s, y, *reference_hash, self.k as nat))) by {
                    assert(old_o.contains(y) <==> (y == *reference_hash || (in_prefix(all@, i as int, y) && is_blue_rel(s, y, *reference_hash, self.k as nat))));
                    if y != x {
                        assert(out@.contains(y) == old_o.contains(y));
                    }
                }
            }
            i = i + 1;
        }
        proof {
            assert forall|x: BlockHash| out@.contains(x) <==> blue_set_of(s, *reference_hash, self.k as nat).contains(x) by {
                if all@.contains(x) {
                    let t = choose|t: int| 0 <= t < all@.len() && all@[t] == x;
                    assert(in_prefix(all@, i as int, x));
                }
            }
        }
        out
    }

    /// The red set relative to `reference_hash`: stored blocks outside the blue set.
    pub fn build_red_set(&self, dag: &BlockDAG, reference_hash: &BlockHash) -> (r: Vec<BlockHash>)
        requires
            dag.wf(),
        ensures
            r@.no_duplicates(),
            forall|x: BlockHash| r@.contains(x) <==> red_set_of(dag.blocks(), *reference_hash, self.k as nat).contains(x),
    {
        let ghost s = dag.blocks();
        let blue = self.build_blue_set(dag, reference_hash);
        let all = DAGTraversal::get_all_blocks(dag);
        let mut out: Vec<BlockHash> = Vec::new();
        let mut i: usize = 0;
        while i < all.len()
            invariant
                dag.wf(),
                s == dag.blocks(),
                0 <= i <= all@.len(),
                all@.no_duplicates(),
                forall|x: BlockHash| all@.contains(x) <==> has_hash(s, x),
                forall|x: BlockHash| blue@.contains(x) <==> blue_set_of(s, *reference_hash, self.k as nat).contains(x),
                out@.no_duplicates(),
                forall|x: BlockHash| out@.contains(x) <==> (in_prefix(all@, i as int, x) && !blue_set_of(s, *reference_hash, self.k as nat).contains(x)),
            decreases all@.len() - i,
        {
            let x = all[i];
            let ghost old_o = out@;
            proof { lemma_in_prefix_step(all@, i as int); }
            if !contains_hash(&blue, &x) {
                proof {
                    assert(!old_o.contains(x)) by {
                        if old_o.contains(x) {
                            let t = choose|t: int| 0 <= t < i && #[trigger] all@[t] == x;
                        }
                    }
                }
                out.push(x);
                proof {
                    assert forall|y: BlockHash| out@.contains(y) <==> (old_o.contains(y) || y == x) by {
                        if old_o.contains(y) {
                            let t = choose|t: int| 0 <= t < old_o.len() && old_o[t] == y;
                            assert(out@[t] == y);
                        }
                        if out@.contains(y) && y != x {
                            let t = choose|t: int| 0 <= t < out@.len() && out@[t] == y;
                            assert(old_o[t] == y);
                        }
                        if y == x { assert(out@[out@.len() - 1] == y); }
                    }
                }
            }
            proof {
                assert forall|y: BlockHash| out@.contains(y) <==> (in_prefix(all@, i + 1, y) && !blue_set_of(s, *reference_hash, self.k as nat).contains(y)) by {
                    if y != x {
                        assert(out@.contains(y) == old_o.contains(y));
                    }
                }
            }
            i = i + 1;
        }
        proof {
            assert forall|x: BlockHash| out@.contains(x) <==> red_set_of(s, *reference_hash, self.k as nat).contains(x) by {
                if all@.contains(x) {
                    let t = choose|t: int| 0 <= t < all@.len() && all@[t] == x;
                    assert(in_prefix(all@, i as int, x));
                }
                if out@.contains(x) {
                    assert(in_prefix(all@, i as int, x));
                }
            }
        }
        out
    }

    /// Whether `block_hash` is blue relative to `reference_hash`: it must be
    /// the reference or an ancestor of it, with a small enough anticone.
    pub fn is_blue(&self, dag: &BlockDAG, block_hash: &BlockHash, reference_hash: &BlockHash) -> (r: bool)
        requires
            dag.wf(),
        ensures
            r == ((*block_hash == *reference_hash || is_ancestor_of(dag.blocks(), *block_hash, *reference_hash))
                && is_blue_rel(dag.blocks(), *block_hash, *reference_hash, self.k as nat)),
    {
        if !hash_eq(block_hash, reference_hash) && !DAGTraversal::is_ancestor(dag, block_hash, reference_hash) {
            return false;
        }
        let anticone = DAGTraversal::get_anticone(dag, block_hash, reference_hash);
        anticone.len() <= self.k
    }

    /// The size of the anticone of `block_hash` relative to `reference_hash`.
    pub fn get_anticone_size(&self, dag: &BlockDAG, block_hash: &BlockHash, reference_hash: &BlockHash) -> (r: usize)
        requires
            dag.wf(),
        ensures
            anticone_set(dag.blocks(), *block_hash, *reference_hash).finite(),
            r == anticone_set(dag.blocks(), *block_hash, *reference_hash).len(),
    {
        let anticone = DAGTraversal::get_anticone(dag, block_hash, reference_hash);
        anticone.len()
    }

    /// The anticone of `block_hash` relative to `reference_hash`, each hash once.
    pub fn get_anticone(&self, dag: &BlockDAG, block_hash: &BlockHash, reference_hash: &BlockHash) -> (r: Vec<BlockHash>)
        requires
            dag.wf(),
        ensures
            r@.no_duplicates(),
            forall|x: BlockHash| r@.contains(x) <==> anticone_member(dag.blocks(), x, *block_hash, *reference_hash),
    {
        DAGTraversal::get_anticone(dag, block_hash, reference_hash)
    }

    /// The number of blue blocks relative to `reference_hash`.
    pub fn count_blue_blocks(&self, dag: &BlockDAG, reference_hash: &BlockHash) -> (r: usize)
        requires
            dag.wf(),
        ensures
            blue_set_of(dag.blocks(), *reference_hash, self.k as nat).finite(),
            r == blue_set_of(dag.blocks(), *reference_hash, self.k as nat).len(),
    {
        let blue = self.build_blue_set(dag, reference_hash);
        proof { lemma_len_matches_set(blue@, blue_set_of(dag.blocks(), *reference_hash, self.k as nat)); }
        blue.len()
    }

    /// The number of red blocks relative to `reference_hash`.
    pub fn count_red_blocks(&self, dag: &BlockDAG, reference_hash: &BlockHash) -> (r: usize)
        requires
            dag.wf(),
        ensures
            red_set_of(dag.blocks(), *reference_hash, self.k as nat).finite(),
            r == red_set_of(dag.blocks(), *reference_hash, self.k as nat).len(),
    {
        let red = self.build_red_set(dag, reference_hash);
        proof { lemma_len_matches_set(red@, red_set_of(dag.blocks(), *reference_hash, self.k as nat)); }
        red.len()
    }

    /// The blue set relative to `reference_hash`, in increasing hash order.
    pub fn get_blue_blocks(&self, dag: &BlockDAG, reference_hash: &BlockHash) -> (r: Vec<BlockHash>)
        requires
            dag.wf(),
        ensures
            r@.no_duplicates(),
            sorted_strict(r@),
            forall|x: BlockHash| r@.contains(x) <==> blue_set_of(dag.blocks(), *reference_hash, self.k as nat).contains(x),
    {
        let blue = self.build_blue_set(dag, reference_hash);
        sort_hashes(&blue)
    }

    /// The red set relative to `reference_hash`, in increasing hash order.
    pub fn get_red_blocks(&self, dag: &BlockDAG, reference_hash: &BlockHash) -> (r: Vec<BlockHash>)
        requires
            dag.wf(),
        ensures
            r@.no_duplicates(),
            sorted_strict(r@),
            forall|x: BlockHash| r@.contains(x) <==> red_set_of(dag.blocks(), *reference_hash, self.k as nat).contains(x),
    {
        let red = self.build_red_set(dag, reference_hash);
        sort_hashes(&red)
    }

    /// Whether every proper ancestor of `block_hash` is blue relative to `reference_hash`.
    pub fn are_all_ancestors_blue(&self, dag: &BlockDAG, block_hash: &BlockHash, reference_hash: &BlockHash) -> (r: bool)
        requires
            dag.wf(),
        ensures
            r == (forall|a: BlockHash| #[trigger] proper_ancestor(dag.blocks(), a, *block_hash)
                ==> blue_set_of(dag.blocks(), *reference_hash, self.k as nat).contains(a)),
    {
        let ancestors = DAGTraversal::get_ancestors(dag, block_hash);
        let blue = self.build_blue_set(dag, reference_hash);
        let mut i: usize = 0;
        while i < ancestors.len()
            invariant
                0 <= i <= ancestors@.len(),
                forall|x: BlockHash| ancestors@.contains(x) <==> proper_ancestor(dag.blocks(), x, *block_hash),
                forall|x: BlockHash| blue@.contains(x) <==> blue_set_of(dag.blocks(), *reference_hash, self.k as nat).contains(x),
                forall|j: int| 0 <= j < i ==> blue@.contains(#[trigger] ancestors@[j]),
            decreases ancestors@.len() - i,
        {
            if !contains_hash(&blue, &ancestors[i]) {
                proof {
                    assert(proper_ancestor(dag.blocks(), ancestors@[i as int], *block_hash)) by {
                        assert(ancestors@.contains(ancestors@[i as int]));
                    }
                }
                return false;
            }
            i = i + 1;
        }
        proof {
            assert forall|a: BlockHash| #[trigger] proper_ancestor(dag.blocks(), a, *block_hash)
                implies blue_set_of(dag.blocks(), *reference_hash, self.k as nat).contains(a) by {
                assert(ancestors@.contains(a));
                let t = choose|t: int| 0 <= t < ancestors@.len() && ancestors@[t] == a;
                assert(blue@.contains(ancestors@[t]));
            }
        }
        true
    }
}

} // verus!
