//! Graph queries over a block DAG used by the consensus rules.
use vstd::prelude::*;
use crate::hashing::{BlockHash, hash_eq, contains_hash};
use crate::block::Block;
use crate::blockdag::BlockDAG;
use crate::storage::{
    has_hash, parents_of, index_of, is_ancestor_of, in_parent_closure, closed_under_parents, covers,
    parent_closure, lemma_closure_step, lemma_index_of, lemma_ancestor_transitive,
};
use crate::dag_index::{is_child_of, depth_is, layer, lca_candidate, parents_earlier, next_layer};

verus! {

/// `a` is an ancestor of `b` other than `b` itself.
pub open spec fn proper_ancestor(s: Seq<Block>, a: BlockHash, b: BlockHash) -> bool {
    is_ancestor_of(s, a, b) && a != b
}

/// `x` is in the anticone of `b` relative to `r`: a proper ancestor of `b`
/// that is neither `r` nor a proper ancestor of `r`.
pub open spec fn anticone_member(s: Seq<Block>, x: BlockHash, b: BlockHash, r: BlockHash) -> bool {
    proper_ancestor(s, x, b) && !proper_ancestor(s, x, r) && x != r
}

/// The anticone of `b` relative to `r`.
pub open spec fn anticone_set(s: Seq<Block>, b: BlockHash, r: BlockHash) -> Set<BlockHash> {
    Set::new(|x: BlockHash| anticone_member(s, x, b, r))
}

/// The proper ancestors of `h`.
pub open spec fn ancestor_set(s: Seq<Block>, h: BlockHash) -> Set<BlockHash> {
    Set::new(|x: BlockHash| proper_ancestor(s, x, h))
}

/// The proper descendants of `h`.
pub open spec fn descendant_set(s: Seq<Block>, h: BlockHash) -> Set<BlockHash> {
    Set::new(|x: BlockHash| proper_ancestor(s, h, x))
}

/// `x` is each of `hs` or an ancestor of each (and `hs` is not empty).
pub open spec fn common_ancestor_of_all(s: Seq<Block>, hs: Seq<BlockHash>, x: BlockHash) -> bool {
    hs.len() > 0 && forall|i: int| 0 <= i < hs.len() ==> (x == #[trigger] hs[i] || is_ancestor_of(s, x, hs[i]))
}

/// A duplicate-free sequence with exactly the members of a set has the
/// set's size, and the set is finite.
pub proof fn lemma_len_matches_set(v: Seq<BlockHash>, set: Set<BlockHash>)
    requires
        v.no_duplicates(),
        forall|x: BlockHash| v.contains(x) <==> set.contains(x),
    ensures
        set.finite(),
        v.len() == set.len(),
{
    broadcast use vstd::seq_lib::seq_to_set_is_finite;
    assert(v.to_set() =~= set);
    v.unique_seq_to_set();
}

/// The elements of `v` other than `h`.
pub fn without_hash(v: &Vec<BlockHash>, h: &BlockHash) -> (r: Vec<BlockHash>)
    requires
        v@.no_duplicates(),
    ensures
        r@.no_duplicates(),
        forall|x: BlockHash| r@.contains(x) <==> (v@.contains(x) && x != *h),
{
    let mut out: Vec<BlockHash> = Vec::new();
    let mut i: usize = 0;
    while i < v.len()
        invariant
            0 <= i <= v@.len(),
            v@.no_duplicates(),
            out@.no_duplicates(),
            forall|x: BlockHash| out@.contains(x) <==> (crate::dag_index::in_prefix(v@, i as int, x) && x != *h),
        decreases v@.len() - i,
    {
        let x = v[i];
        let ghost old_o = out@;
        proof { crate::dag_index::lemma_in_prefix_step(v@, i as int); }
        if !hash_eq(&x, h) {
            proof {
                assert(!old_o.contains(x)) by {
                    if old_o.contains(x) {
                        let t = choose|t: int| 0 <= t < i && #[trigger] v@[t] == x;
                    }
                }
            }
            out.push(x);
            proof {
                assert forall|y: BlockHash| out@.contains(y) <==> (old_o.contains(y) || y == x) by {
                    if old_o.contains(y) {
                        let t = choose|t: int| 0 <= t < old_o.len() && old_o[t] == y;
                        assert(out@[t] == y);
                    }
                    if out@.contains(y) && y != x {
                        let t = choose|t: int| 0 <= t < out@.len() && out@[t] == y;
                        assert(old_o[t] == y);
                    }
                    if y == x { assert(out@[out@.len() - 1] == y); }
                }
            }
        }
        proof {
            assert forall|y: BlockHash| out@.contains(y) <==> (crate::dag_index::in_prefix(v@, i + 1, y) && y != *h) by {
                assert(old_o.contains(y) <==> (crate::dag_index::in_prefix(v@, i as int, y) && y != *h));
                if y == x {
                } else {
                    assert(out@.contains(y) == old_o.contains(y));
                }
            }
        }
        i = i + 1;
    }
    proof {
        assert forall|x: BlockHash| crate::dag_index::in_prefix(v@, i as int, x) <==> v@.contains(x) by {
            if v@.contains(x) {
                let t = choose|t: int| 0 <= t < v@.len() && v@[t] == x;
                assert(crate::dag_index::in_prefix(v@, i as int, x));
            }
        }
    }
    out
}

/// The elements of `a` that are also in `b`.
pub fn intersect_hashes(a: &Vec<BlockHash>, b: &Vec<BlockHash>) -> (r: Vec<BlockHash>)
    requires
        a@.no_duplicates(),
    ensures
        r@.no_duplicates(),
        forall|x: BlockHash| r@.contains(x) <==> (a@.contains(x) && b@.contains(x)),
{
    let mut out: Vec<BlockHash> = Vec::new();
    let mut i: usize = 0;
    while i < a.len()
        invariant
            0 <= i <= a@.len(),
            a@.no_duplicates(),
            out@.no_duplicates(),
            forall|x: BlockHash| out@.contains(x) <==> (crate::dag_index::in_prefix(a@, i as int, x) && b@.contains(x)),
        decreases a@.len() - i,
    {
        let x = a[i];
        let ghost old_o = out@;
        proof { crate::dag_index::lemma_in_prefix_step(a@, i as int); }
        if contains_hash(b, &x) {
            proof {
                assert(!old_o.contains(x)) by {
                    if old_o.contains(x) {
                        let t = choose|t: int| 0 <= t < i && #[trigger] a@[t] == x;
                    }
                }
            }
            out.push(x);
            proof {
                assert forall|y: BlockHash| out@.contains(y) <==> (old_o.contains(y) || y == x) by {
                    if old_o.contains(y) {
                        let t = choose|t: int| 0 <= t < old_o.len() && old_o[t] == y;
                        assert(out@[t] == y);
                    }
                    if out@.contains(y) && y != x {
                        let t = choose|t: int| 0 <= t < out@.len() && out@[t] == y;
                        assert(old_o[t] == y);
                    }
                    if y == x { assert(out@[out@.len() - 1] == y); }
                }
            }
        }
        proof {
            assert forall|y: BlockHash| out@.contains(y) <==> (crate::dag_index::in_prefix(a@, i + 1, y) && b@.contains(y)) by {
                assert(old_o.contains(y) <==> (crate::dag_index::in_prefix(a@, i as int, y) && b@.contains(y)));
                if y == x {
                } else {
                    assert(out@.contains(y) == old_o.contains(y));
                }
            }
        }
        i = i + 1;
    }
    proof {
        assert forall|x: BlockHash| crate::dag_index::in_prefix(a@, i as int, x) <==> a@.contains(x) by {
            if a@.contains(x) {
                let t = choose|t: int| 0 <= t < a@.len() && a@[t] == x;
                assert(crate::dag_index::in_prefix(a@, i as int, x));
            }
        }
    }
    out
}

/// What the closure of a single start holds: the start and its ancestors.
pub proof fn lemma_single_closure(s: Seq<Block>, c: BlockHash, a: BlockHash)
    ensures
        in_parent_closure(s, seq![c], a) <==> (a == c || is_ancestor_of(s, a, c)),
{
    let set = Set::new(|y: BlockHash| y == c || is_ancestor_of(s, y, c));
    assert(closed_under_parents(s, set)) by {
        assert forall|y: BlockHash, q: BlockHash| set.contains(y) && #[trigger] parents_of(s, y).contains(q) implies set.contains(q) by {
            if y == c {
                assert forall|t: Set<BlockHash>| #[trigger] closed_under_parents(s, t) && covers(parents_of(s, c), t) implies t.contains(q) by {}
            } else {
                lemma_closure_step(s, parents_of(s, c), y, q);
            }
        }
    }
    assert(covers(seq![c], set)) by {
        assert forall|x: BlockHash| #[trigger] seq![c].contains(x) implies set.contains(x) by {
            assert(seq![c][0] == c);
        }
    }
    if a == c {
        assert(seq![c].contains(c)) by { assert(seq![c][0] == c); }
    }
    if is_ancestor_of(s, a, c) {
        assert forall|t: Set<BlockHash>| #[trigger] closed_under_parents(s, t) && covers(seq![c], t) implies t.contains(a) by {
            assert(seq![c].contains(c)) by { assert(seq![c][0] == c); }
            assert(t.contains(c));
            assert(covers(parents_of(s, c), t)) by {
                assert forall|q: BlockHash| #[trigger] parents_of(s, c).contains(q) implies t.contains(q) by {}
            }
        }
    }
}

/// An ancestor of `c` is a parent of `c` or an ancestor of one.
pub proof fn lemma_ancestor_via_parent(s: Seq<Block>, a: BlockHash, c: BlockHash)
    requires
        is_ancestor_of(s, a, c),
    ensures
        exists|p: BlockHash| #[trigger] parents_of(s, c).contains(p) && in_parent_closure(s, seq![p], a),
{
    let set = Set::new(|y: BlockHash| exists|p: BlockHash| #[trigger] parents_of(s, c).contains(p) && in_parent_closure(s, seq![p], y));
    assert(closed_under_parents(s, set)) by {
        assert forall|y: BlockHash, q: BlockHash| set.contains(y) && #[trigger] parents_of(s, y).contains(q) implies set.contains(q) by {
            let p = choose|p: BlockHash| #[trigger] parents_of(s, c).contains(p) && in_parent_closure(s, seq![p], y);
            lemma_closure_step(s, seq![p], y, q);
        }
    }
    assert(covers(parents_of(s, c), set)) by {
        assert forall|p: BlockHash| #[trigger] parents_of(s, c).contains(p) implies set.contains(p) by {
            lemma_single_closure(s, p, p);
        }
    }
}

pub proof fn lemma_layer_empty_stays(s: Seq<Block>, h: BlockHash, k: nat, m: nat)
    requires
        k <= m,
        !(exists|x: BlockHash| #[trigger] layer(s, h, k).contains(x)),
    ensures
        !(exists|x: BlockHash| #[trigger] layer(s, h, m).contains(x)),
    decreases m - k,
{
    if k < m {
        lemma_layer_empty_stays(s, h, k, (m - 1) as nat);
        if exists|x: BlockHash| #[trigger] layer(s, h, m).contains(x) {
            let x = choose|x: BlockHash| #[trigger] layer(s, h, m).contains(x);
            let y = choose|y: BlockHash| #[trigger] layer(s, h, (m - 1) as nat).contains(y) && parents_of(s, y).contains(x);
        }
    }
}

/// One more than the position of `h` in `s`; zero when `h` is not stored.
pub open spec fn hash_rank(s: Seq<Block>, h: BlockHash) -> int {
    if has_hash(s, h) { index_of(s, h) + 1 } else { 0 }
}

/// In a store where parents come first, a parent sits before its child.
pub proof fn lemma_parent_earlier(s: Seq<Block>, c: BlockHash, p: BlockHash)
    requires
        crate::storage::distinct_hashes(s),
        crate::dag_index::parents_precede(s),
        parents_of(s, c).contains(p),
    ensures
        has_hash(s, c),
        has_hash(s, p),
        index_of(s, p) < index_of(s, c),
        hash_rank(s, p) < hash_rank(s, c),
{
    let ic = index_of(s, c);
    lemma_index_of(s, ic);
    assert(s[ic].header.parent_hashes@.contains(p));
    let j = choose|j: int| 0 <= j < ic && s[j].hash == p;
    lemma_index_of(s, j);
}

/// In a store where parents come first, an ancestor sits before its
/// descendant.
pub proof fn lemma_ancestor_earlier(s: Seq<Block>, a: BlockHash, b: BlockHash)
    requires
        crate::storage::distinct_hashes(s),
        crate::dag_index::parents_precede(s),
        is_ancestor_of(s, a, b),
    ensures
        has_hash(s, b),
        has_hash(s, a),
        index_of(s, a) < index_of(s, b),
{
    if !has_hash(s, b) {
        assert(parents_of(s, b) =~= Seq::<BlockHash>::empty());
        let empty = Set::<BlockHash>::empty();
        assert(closed_under_parents(s, empty));
        assert(covers(parents_of(s, b), empty));
    }
    let u = Set::new(|x: BlockHash| has_hash(s, x) && index_of(s, x) < index_of(s, b));
    assert(closed_under_parents(s, u)) by {
        assert forall|x: BlockHash, p: BlockHash| u.contains(x) && #[trigger] parents_of(s, x).contains(p) implies u.contains(p) by {
            lemma_parent_earlier(s, x, p);
        }
    }
    assert(covers(parents_of(s, b), u)) by {
        assert forall|x: BlockHash| #[trigger] parents_of(s, b).contains(x) implies u.contains(x) by {
            lemma_parent_earlier(s, b, x);
        }
    }
}

/// Each hash of `q` is a parent of the next.
pub open spec fn is_parent_chain(s: Seq<Block>, q: Seq<BlockHash>) -> bool {
    forall|i: int| 0 <= i < q.len() - 1 ==> parents_of(s, #[trigger] q[i + 1]).contains(q[i])
}

/// In a chain of parent links ending at `q.last()`, the hash `j` places
/// before the end is `j` links from it.
pub proof fn lemma_chain_in_layer(s: Seq<Block>, q: Seq<BlockHash>, j: nat)
    requires
        q.len() >= 1,
        is_parent_chain(s, q),
        j < q.len(),
    ensures
        layer(s, q.last(), j).contains(q[q.len() - 1 - j]),
    decreases j,
{
    if j > 0 {
        lemma_chain_in_layer(s, q, (j - 1) as nat);
        let n = q.len() as int;
        let c = q[n - j];
        let p = q[n - 1 - j];
        assert(parents_of(s, q[(n - 1 - j) + 1]).contains(q[n - 1 - j]));
        assert(layer(s, q.last(), (j - 1) as nat).contains(c) && parents_of(s, c).contains(p));
    }
}

/// A block `k >= 1` links back from `to` is stored at least `k` places
/// before it.
pub proof fn lemma_layer_index(s: Seq<Block>, to: BlockHash, k: nat, x: BlockHash)
    requires
        crate::storage::distinct_hashes(s),
        crate::dag_index::parents_precede(s),
        k >= 1,
        layer(s, to, k).contains(x),
    ensures
        has_hash(s, to),
        has_hash(s, x),
        index_of(s, x) + k <= index_of(s, to),
    decreases k,
{
    let y = choose|y: BlockHash| #[trigger] layer(s, to, (k - 1) as nat).contains(y) && parents_of(s, y).contains(x);
    lemma_parent_earlier(s, y, x);
    if k > 1 {
        lemma_layer_index(s, to, (k - 1) as nat, y);
    } else {
        assert(y == to);
    }
}

/// An ancestor of `to` is some number of links back from it.
pub proof fn lemma_ancestor_in_layer(s: Seq<Block>, x: BlockHash, to: BlockHash)
    requires
        is_ancestor_of(s, x, to),
    ensures
        exists|k: nat| k >= 1 && #[trigger] layer(s, to, k).contains(x),
{
    let u = Set::new(|y: BlockHash| exists|k: nat| k >= 1 && #[trigger] layer(s, to, k).contains(y));
    assert(closed_under_parents(s, u)) by {
        assert forall|y: BlockHash, p: BlockHash| u.contains(y) && #[trigger] parents_of(s, y).contains(p) implies u.contains(p) by {
            let k = choose|k: nat| k >= 1 && #[trigger] layer(s, to, k).contains(y);
            assert(layer(s, to, k).contains(y) && parents_of(s, y).contains(p));
            assert(layer(s, to, k + 1).contains(p));
        }
    }
    assert(covers(parents_of(s, to), u)) by {
        assert forall|p: BlockHash| #[trigger] parents_of(s, to).contains(p) implies u.contains(p) by {
            assert(layer(s, to, 0).contains(to));
            assert(layer(s, to, 1).contains(p));
        }
    }
}

/// What is `m` links from a parent `p` of `c` is `m + 1` links from `c`.
pub proof fn lemma_layer_shift(s: Seq<Block>, c: BlockHash, p: BlockHash, m: nat, x: BlockHash)
    requires
        parents_of(s, c).contains(p),
        layer(s, p, m).contains(x),
    ensures
        layer(s, c, m + 1).contains(x),
    decreases m,
{
    if m == 0 {
        assert(x == p);
        assert(layer(s, c, 0).contains(c));
    } else {
        let y = choose|y: BlockHash| #[trigger] layer(s, p, (m - 1) as nat).contains(y) && parents_of(s, y).contains(x);
        lemma_layer_shift(s, c, p, (m - 1) as nat, y);
    }
}

/// A parent is less deep than its child.
pub proof fn lemma_parent_depth_lower(s: Seq<Block>, c: BlockHash, p: BlockHash, dc: nat, dp: nat)
    requires
        parents_of(s, c).contains(p),
        depth_is(s, c, dc),
        depth_is(s, p, dp),
    ensures
        dp < dc,
{
    let x = choose|x: BlockHash| #[trigger] layer(s, p, dp).contains(x);
    lemma_layer_shift(s, c, p, dp, x);
    if dp + 1 > dc {
        lemma_layer_empty_stays(s, c, dc + 1, dp + 1);
        assert(layer(s, c, dp + 1).contains(x));
    }
}

/// A block has one depth.
pub proof fn lemma_depth_unique(s: Seq<Block>, h: BlockHash, d1: nat, d2: nat)
    requires
        depth_is(s, h, d1),
        depth_is(s, h, d2),
    ensures
        d1 == d2,
{
    if d1 < d2 {
        lemma_layer_empty_stays(s, h, d1 + 1, d2);
    } else if d2 < d1 {
        lemma_layer_empty_stays(s, h, d2 + 1, d1);
    }
}

/// Graph queries over a block DAG.
#[derive(Debug, Clone, Copy)]
pub struct DAGTraversal;

impl DAGTraversal {
    /// Proper ancestors of `hash`.
    pub fn get_ancestors(dag: &BlockDAG, hash: &BlockHash) -> (r: Vec<BlockHash>)
        requires
            dag.wf(),
        ensures
            r@.no_duplicates(),
            forall|x: BlockHash| r@.contains(x) <==> proper_ancestor(dag.blocks(), x, *hash),
    {
        let all = dag.get_ancestors(hash);
        without_hash(&all, hash)
    }

    /// Proper descendants of `hash`.
    pub fn get_descendants(dag: &BlockDAG, hash: &BlockHash) -> (r: Vec<BlockHash>)
        requires
            dag.wf(),
        ensures
            r@.no_duplicates(),
            forall|x: BlockHash| r@.contains(x) <==> proper_ancestor(dag.blocks(), *hash, x),
    {
        let all = dag.get_descendants(hash);
        without_hash(&all, hash)
    }

    /// Parent hashes of `hash`, as the block lists them.
    pub fn get_parents(dag: &BlockDAG, hash: &BlockHash) -> (r: Vec<BlockHash>)
        requires
            dag.wf(),
        ensures
            r@ == parents_of(dag.blocks(), *hash),
    {
        dag.parent_hashes(hash)
    }

    /// Children of `hash`.
    pub fn get_children(dag: &BlockDAG, hash: &BlockHash) -> (r: Vec<BlockHash>)
        requires
            dag.wf(),
        ensures
            forall|c: BlockHash| r@.contains(c) <==> is_child_of(dag.blocks(), *hash, c),
    {
        dag.get_children(hash)
    }

    /// The anticone of `block_hash` relative to `reference_hash`.
    pub fn get_anticone(dag: &BlockDAG, block_hash: &BlockHash, reference_hash: &BlockHash) -> (r: Vec<BlockHash>)
        requires
            dag.wf(),
        ensures
            r@.no_duplicates(),
            forall|x: BlockHash| r@.contains(x) <==> anticone_member(dag.blocks(), x, *block_hash, *reference_hash),
            r@.len() == anticone_set(dag.blocks(), *block_hash, *reference_hash).len(),
            anticone_set(dag.blocks(), *block_hash, *reference_hash).finite(),
    {
        let ref_ancestors = Self::get_ancestors(dag, reference_hash);
        let block_ancestors = Self::get_ancestors(dag, block_hash);
        let mut out: Vec<BlockHash> = Vec::new();
        let mut i: usize = 0;
        while i < block_ancestors.len()
            invariant
                0 <= i <= block_ancestors@.len(),
                block_ancestors@.no_duplicates(),
                out@.no_duplicates(),
                forall|x: BlockHash| ref_ancestors@.contains(x) <==> proper_ancestor(dag.blocks(), x, *reference_hash),
                forall|x: BlockHash| out@.contains(x) <==> (crate::dag_index::in_prefix(block_ancestors@, i as int, x) && !ref_ancestors@.contains(x) && x != *reference_hash),
            decreases block_ancestors@.len() - i,
        {
            let x = block_ancestors[i];
            let ghost old_o = out@;
            proof { crate::dag_index::lemma_in_prefix_step(block_ancestors@, i as int); }
            if !contains_hash(&ref_ancestors, &x) && !hash_eq(&x, reference_hash) {
                proof {
                    assert(!old_o.contains(x)) by {
                        if old_o.contains(x) {
                            let t = choose|t: int| 0 <= t < i && #[trigger] block_ancestors@[t] == x;
                        }
                    }
                }
                out.push(x);
                proof {
                    assert forall|y: BlockHash| out@.contains(y) <==> (old_o.contains(y) || y == x) by {
                        if old_o.contains(y) {
                            let t = choose|t: int| 0 <= t < old_o.len() && old_o[t] == y;
                            assert(out@[t] == y);
                        }
                        if out@.contains(y) && y != x {
                            let t = choose|t: int| 0 <= t < out@.len() && out@[t] == y;
                            assert(old_o[t] == y);
                        }
                        if y == x { assert(out@[out@.len() - 1] == y); }
                    }
                }
            }
            proof {
                assert forall|y: BlockHash| out@.contains(y) <==> (crate::dag_index::in_prefix(block_ancestors@, i + 1, y) && !ref_ancestors@.contains(y) && y != *reference_hash) by {
                    assert(old_o.contains(y) <==> (crate::dag_index::in_prefix(block_ancestors@, i as int, y) && !ref_ancestors@.contains(y) && y != *reference_hash));
                    if y == x {
                    } else {
                        assert(out@.contains(y) == old_o.contains(y));
                    }
                }
            }
            i = i + 1;
        }
        proof {
            assert forall|x: BlockHash| out@.contains(x) <==> anticone_member(dag.blocks(), x, *block_hash, *reference_hash) by {
                if block_ancestors@.contains(x) {
                    let t = choose|t: int| 0 <= t < block_ancestors@.len() && block_ancestors@[t] == x;
                    assert(crate::dag_index::in_prefix(block_ancestors@, i as int, x));
                }
            }
            lemma_len_matches_set(out@, anticone_set(dag.blocks(), *block_hash, *reference_hash));
        }
        out
    }

    /// The path from the ancestor `from` to the descendant `to`: it starts
    /// at `from`, ends at `to`, each hash is a parent of the next, and no
    /// such path is shorter (the blocks are searched breadth-first back
    /// from `to`). `None` exactly when `from` is neither `to` nor an
    /// ancestor of it.
    pub fn get_path(dag: &BlockDAG, from: &BlockHash, to: &BlockHash) -> (r: Option<Vec<BlockHash>>)
        requires
            dag.wf(),
        ensures
            r is None <==> !(*from == *to || is_ancestor_of(dag.blocks(), *from, *to)),
            r matches Some(path) ==> path@.len() >= 1 && path@[0] == *from && path@[path@.len() - 1] == *to
                && forall|i: int| 0 <= i < path@.len() - 1 ==> parents_of(dag.blocks(), #[trigger] path@[i + 1]).contains(path@[i]),
            r matches Some(path) ==> forall|q: Seq<BlockHash>| q.len() >= 1 && q[0] == *from && q.last() == *to
                && #[trigger] is_parent_chain(dag.blocks(), q) ==> q.len() >= path@.len(),
    {
        let ghost s = dag.blocks();
        proof { dag.lemma_wf(); }
        let mut start: Vec<BlockHash> = Vec::new();
        start.push(*to);
        assert(start@ =~= seq![*to]);
        let blocks = dag_blocks(dag);
        let reach = crate::storage::parent_closure(blocks, &start);
        proof { lemma_single_closure(s, *to, *from); }
        if !contains_hash(&reach, from) {
            return None;
        }
        let ghost d: nat = if *from == *to {
            0
        } else {
            lemma_ancestor_in_layer(s, *from, *to);
            choose|k: nat| k >= 1 && #[trigger] layer(s, *to, k).contains(*from)
        };
        proof {
            if *from == *to {
                assert(layer(s, *to, 0).contains(*to));
            } else {
                lemma_layer_index(s, *to, d, *from);
                crate::storage::lemma_index_of(s, index_of(s, *to));
                assert(index_of(s, *to) < s.len());
                assert(s.len() == blocks@.len());
            }
        }
        assert(blocks.len() == blocks@.len());
        let mut first: Vec<BlockHash> = Vec::new();
        first.push(*to);
        let mut layers: Vec<Vec<BlockHash>> = Vec::new();
        layers.push(first);
        let mut k: usize = 0;
        proof {
            assert forall|x: BlockHash| layers@[0]@.contains(x) <==> layer(s, *to, 0).contains(x) by {
                if layers@[0]@.contains(x) {
                    let t = choose|t: int| 0 <= t < layers@[0]@.len() && layers@[0]@[t] == x;
                }
                if x == *to { assert(layers@[0]@[0] == x); }
            }
        }
        while !contains_hash(&layers[k], from)
            invariant
                dag.wf(),
                s == dag.blocks(),
                blocks@ == s,
                crate::storage::distinct_hashes(s),
                layers@.len() == k + 1,
                forall|j: int, x: BlockHash| 0 <= j <= k ==> (#[trigger] layers@[j]@.contains(x) <==> layer(s, *to, j as nat).contains(x)),
                forall|j: int| 0 <= j < k ==> !#[trigger] layer(s, *to, j as nat).contains(*from),
                k <= d,
                d < blocks@.len() || d == 0,
                blocks@.len() <= usize::MAX,
                layer(s, *to, d).contains(*from),
            decreases d - k,
        {
            proof {
                if k == d {
                    assert(layers@[k as int]@.contains(*from));
                }
            }
            let next = next_layer(blocks, &layers[k]);
            proof {
                assert forall|x: BlockHash| next@.contains(x) <==> layer(s, *to, (k + 1) as nat).contains(x) by {
                    if next@.contains(x) {
                        let t = choose|t: int| 0 <= t < layers@[k as int]@.len() && #[trigger] parents_of(s, layers@[k as int]@[t]).contains(x);
                        let y = layers@[k as int]@[t];
                        assert(layers@[k as int]@.contains(y));
                        assert(layer(s, *to, k as nat).contains(y) && parents_of(s, y).contains(x));
                    }
                    if layer(s, *to, (k + 1) as nat).contains(x) {
                        let y = choose|y: BlockHash| #[trigger] layer(s, *to, k as nat).contains(y) && parents_of(s, y).contains(x);
                        assert(layers@[k as int]@.contains(y));
                        let t = choose|t: int| 0 <= t < layers@[k as int]@.len() && layers@[k as int]@[t] == y;
                        assert(parents_of(s, layers@[k as int]@[t]).contains(x));
                    }
                }
                assert(!layer(s, *to, k as nat).contains(*from));
            }
            let ghost old_layers = layers@;
            layers.push(next);
            proof {
                assert forall|j: int, x: BlockHash| 0 <= j <= k + 1 implies (#[trigger] layers@[j]@.contains(x) <==> layer(s, *to, j as nat).contains(x)) by {
                    if j <= k {
                        assert(layers@[j] == old_layers[j]);
                    }
                }
            }
            k = k + 1;
        }
        // Walk forward from `from` through the layers back to `to`.
        let mut path: Vec<BlockHash> = Vec::new();
        path.push(*from);
        let mut cur: BlockHash = *from;
        let mut j: usize = k;
        proof {
            assert(layers@[k as int]@.contains(*from));
        }
        while j > 0
            invariant
                s == dag.blocks(),
                blocks@ == s,
                crate::storage::distinct_hashes(s),
                layers@.len() == k + 1,
                forall|i: int, x: BlockHash| 0 <= i <= k ==> (#[trigger] layers@[i]@.contains(x) <==> layer(s, *to, i as nat).contains(x)),
                j <= k,
                layer(s, *to, j as nat).contains(cur),
                path@.len() == k - j + 1,
                path@[0] == *from,
                path@[path@.len() - 1] == cur,
                forall|i: int| 0 <= i < path@.len() - 1 ==> parents_of(s, #[trigger] path@[i + 1]).contains(path@[i]),
            decreases j,
        {
            let lay = &layers[j - 1];
            let mut found: Option<BlockHash> = None;
            let mut m: usize = 0;
            while m < lay.len()
                invariant
                    blocks@ == s,
                    crate::storage::distinct_hashes(s),
                    0 <= m <= lay@.len(),
                    found matches Some(x) ==> parents_of(s, x).contains(cur) && lay@.contains(x),
                    found is None ==> forall|t: int| 0 <= t < m ==> !parents_of(s, #[trigger] lay@[t]).contains(cur),
                decreases lay@.len() - m,
            {
                if found.is_none() {
                    let ps = crate::storage::get_parents_of(blocks, &lay[m]);
                    if contains_hash(&ps, &cur) {
                        assert(lay@.contains(lay@[m as int]));
                        found = Some(lay[m]);
                    }
                }
                m = m + 1;
            }
            let x = match found {
                Some(x) => x,
                None => {
                    proof {
                        let y = choose|y: BlockHash| #[trigger] layer(s, *to, (j - 1) as nat).contains(y) && parents_of(s, y).contains(cur);
                        assert(layers@[j - 1]@.contains(y));
                        let t = choose|t: int| 0 <= t < lay@.len() && lay@[t] == y;
                        assert(!parents_of(s, lay@[t]).contains(cur));
                    }
                    return None;
                },
            };
            proof {
                assert(layers@[j - 1]@.contains(x));
            }
            let ghost old_path = path@;
            path.push(x);
            proof {
                assert forall|i: int| 0 <= i < path@.len() - 1 implies parents_of(s, #[trigger] path@[i + 1]).contains(path@[i]) by {
                    if i < old_path.len() - 1 {
                        assert(path@[i] == old_path[i] && path@[i + 1] == old_path[i + 1]);
                    } else {
                        assert(path@[i] == cur && path@[i + 1] == x);
                    }
                }
            }
            cur = x;
            j = j - 1;
        }
        proof {
            assert(cur == *to);
            assert forall|q: Seq<BlockHash>| q.len() >= 1 && q[0] == *from && q.last() == *to
                && #[trigger] is_parent_chain(s, q) implies q.len() >= path@.len() by {
                let n = (q.len() - 1) as nat;
                lemma_chain_in_layer(s, q, n);
                assert(q[q.len() - 1 - n] == *from);
                if n < k {
                    assert(!layer(s, *to, n).contains(*from));
                }
            }
        }
        Some(path)
    }

    /// All blocks, parents before children.
    pub fn get_all_blocks(dag: &BlockDAG) -> (r: Vec<BlockHash>)
        requires
            dag.wf(),
        ensures
            r@.no_duplicates(),
            forall|x: BlockHash| r@.contains(x) <==> has_hash(dag.blocks(), x),
            parents_earlier(r@, dag.blocks()),
    {
        dag.get_topological_order()
    }

    /// Blocks whose longest parent chain has exactly `depth` links.
    pub fn get_blocks_at_depth(dag: &BlockDAG, depth: usize) -> (r: Vec<BlockHash>)
        requires
            dag.wf(),
        ensures
            r@.no_duplicates(),
            forall|x: BlockHash| r@.contains(x) <==> (has_hash(dag.blocks(), x) && depth_is(dag.blocks(), x, depth as nat)),
    {
        let all = dag.get_topological_order();
        let mut out: Vec<BlockHash> = Vec::new();
        let mut i: usize = 0;
        while i < all.len()
            invariant
                dag.wf(),
                0 <= i <= all@.len(),
                all@.no_duplicates(),
                forall|x: BlockHash| all@.contains(x) <==> has_hash(dag.blocks(), x),
                out@.no_duplicates(),
                forall|x: BlockHash| out@.contains(x) <==> (crate::dag_index::in_prefix(all@, i as int, x) && depth_is(dag.blocks(), x, depth as nat)),
            decreases all@.len() - i,
        {
            let x = all[i];
            let d = dag.get_block_depth(&x);
            let ghost old_o = out@;
            proof {
                crate::dag_index::lemma_in_prefix_step(all@, i as int);
                if depth_is(dag.blocks(), x, depth as nat) {
                    lemma_depth_unique(dag.blocks(), x, d as nat, depth as nat);
                }
            }
            if d == depth {
                proof {
                    assert(!old_o.contains(x)) by {
                        if old_o.contains(x) {
                            let t = choose|t: int| 0 <= t < i && #[trigger] all@[t] == x;
                        }
                    }
                }
                out.push(x);
                proof {
                    assert forall|y: BlockHash| out@.contains(y) <==> (old_o.contains(y) || y == x) by {
                        if old_o.contains(y) {
                            let t = choose|t: int| 0 <= t < old_o.len() && old_o[t] == y;
                            assert(out@[t] == y);
                        }
                        if out@.contains(y) && y != x {
                            let t = choose|t: int| 0 <= t < out@.len() && out@[t] == y;
                            assert(old_o[t] == y);
                        }
                        if y == x { assert(out@[out@.len() - 1] == y); }
                    }
                }
            }
            proof {
                assert forall|y: BlockHash| out@.contains(y) <==> (crate::dag_index::in_prefix(all@, i + 1, y) && depth_is(dag.blocks(), y, depth as nat)) by {
                    assert(old_o.contains(y) <==> (crate::dag_index::in_prefix(all@, i as int, y) && depth_is(dag.blocks(), y, depth as nat)));
                    if y == x {
                    } else {
                        assert(out@.contains(y) == old_o.contains(y));
                    }
                }
            }
            i = i + 1;
        }
        proof {
            assert forall|x: BlockHash| crate::dag_index::in_prefix(all@, i as int, x) <==> all@.contains(x) by {
                if all@.contains(x) {
                    let t = choose|t: int| 0 <= t < all@.len() && all@[t] == x;
                    assert(crate::dag_index::in_prefix(all@, i as int, x));
                }
            }
        }
        out
    }

    /// Whether `ancestor` is an ancestor of `block`.
    pub fn is_ancestor(dag: &BlockDAG, ancestor: &BlockHash, block: &BlockHash) -> (r: bool)
        requires
            dag.wf(),
        ensures
            r == is_ancestor_of(dag.blocks(), *ancestor, *block),
    {
        dag.is_ancestor(ancestor, block)
    }

    /// Hashes that are each given hash or an ancestor of each.
    pub fn get_common_ancestors(dag: &BlockDAG, hashes: &Vec<BlockHash>) -> (r: Vec<BlockHash>)
        requires
            dag.wf(),
        ensures
            r@.no_duplicates(),
            forall|x: BlockHash| r@.contains(x) <==> common_ancestor_of_all(dag.blocks(), hashes@, x),
    {
        if hashes.len() == 0 {
            return Vec::new();
        }
        let mut common = Self::ancestors_and_self(dag, &hashes[0]);
        let mut i: usize = 1;
        while i < hashes.len()
            invariant
                dag.wf(),
                1 <= i <= hashes@.len(),
                common@.no_duplicates(),
                forall|x: BlockHash| common@.contains(x) <==> forall|k: int| 0 <= k < i ==> (x == #[trigger] hashes@[k] || is_ancestor_of(dag.blocks(), x, hashes@[k])),
            decreases hashes@.len() - i,
        {
            let next = Self::ancestors_and_self(dag, &hashes[i]);
            let ghost prev = common@;
            common = intersect_hashes(&common, &next);
            proof {
                assert forall|x: BlockHash| common@.contains(x) <==> forall|k: int| 0 <= k < i + 1 ==> (x == #[trigger] hashes@[k] || is_ancestor_of(dag.blocks(), x, hashes@[k])) by {
                    if common@.contains(x) {
                        assert(prev.contains(x));
                        assert forall|k: int| 0 <= k < i + 1 implies (x == #[trigger] hashes@[k] || is_ancestor_of(dag.blocks(), x, hashes@[k])) by {
                            if k < i {
                            }
                        }
                    }
                }
            }
            i = i + 1;
        }
        common
    }

    /// `h` together with its ancestors.
    fn ancestors_and_self(dag: &BlockDAG, h: &BlockHash) -> (r: Vec<BlockHash>)
        requires
            dag.wf(),
        ensures
            r@.no_duplicates(),
            forall|x: BlockHash| r@.contains(x) <==> (x == *h || is_ancestor_of(dag.blocks(), x, *h)),
    {
        let anc = Self::get_ancestors(dag, h);
        let mut out = anc;
        let ghost before = out@;
        out.push(*h);
        proof {
            assert forall|a: int, b: int| 0 <= a < out@.len() && 0 <= b < out@.len() && a != b implies out@[a] != out@[b] by {
                if a < before.len() && b < before.len() {
                } else if a < before.len() {
                    assert(before.contains(out@[a]));
                } else {
                    assert(before.contains(out@[b]));
                }
            }
            assert forall|x: BlockHash| out@.contains(x) <==> (x == *h || is_ancestor_of(dag.blocks(), x, *h)) by {
                if out@.contains(x) && x != *h {
                    let t = choose|t: int| 0 <= t < out@.len() && out@[t] == x;
                    assert(before[t] == x);
                    assert(before.contains(x));
                }
                if x == *h {
                    assert(out@[before.len() as int] == x);
                }
                if is_ancestor_of(dag.blocks(), x, *h) && x != *h {
                    assert(before.contains(x));
                    let t = choose|t: int| 0 <= t < before.len() && before[t] == x;
                    assert(out@[t] == x);
                }
            }
        }
        out
    }

    /// The deepest common proper ancestor of two blocks; when they share
    /// none, what `find_lca` gives: the lowest common ancestor-or-self.
    pub fn get_furthest_common_ancestor(dag: &BlockDAG, hash1: &BlockHash, hash2: &BlockHash) -> (r: Option<BlockHash>)
        requires
            dag.wf(),
        ensures
            (exists|y: BlockHash| #[trigger] proper_ancestor(dag.blocks(), y, *hash1) && proper_ancestor(dag.blocks(), y, *hash2)) ==> (r matches Some(x) && proper_ancestor(dag.blocks(), x, *hash1) && proper_ancestor(dag.blocks(), x, *hash2) && forall|y: BlockHash, dy: nat, dx: nat| #![trigger proper_ancestor(dag.blocks(), y, *hash1), depth_is(dag.blocks(), y, dy), depth_is(dag.blocks(), x, dx)] proper_ancestor(dag.blocks(), y, *hash1) && proper_ancestor(dag.blocks(), y, *hash2) && depth_is(dag.blocks(), y, dy) && depth_is(dag.blocks(), x, dx) ==> dy <= dx),
            !(exists|y: BlockHash| #[trigger] proper_ancestor(dag.blocks(), y, *hash1) && proper_ancestor(dag.blocks(), y, *hash2)) ==> (
                (r matches Some(x) ==> crate::blockdag::lowest_common(dag.blocks(), *hash1, *hash2, x)) && (r is None ==> forall|x: BlockHash| !#[trigger] lca_candidate(dag.blocks(), *hash1, *hash2, x))),
    {
        let a1 = Self::get_ancestors(dag, hash1);
        let a2 = Self::get_ancestors(dag, hash2);
        let common = intersect_hashes(&a1, &a2);
        if common.len() == 0 {
            proof {
                if exists|y: BlockHash| #[trigger] proper_ancestor(dag.blocks(), y, *hash1) && proper_ancestor(dag.blocks(), y, *hash2) {
                    let y = choose|y: BlockHash| #[trigger] proper_ancestor(dag.blocks(), y, *hash1) && proper_ancestor(dag.blocks(), y, *hash2);
                    assert(common@.contains(y));
                }
            }
            return dag.find_lca(hash1, hash2);
        }
        let mut best = common[0];
        let mut best_depth = dag.get_block_depth(&best);
        let mut i: usize = 1;
        assert(common@.contains(common@[0]));
        proof {
            assert forall|k: int, dk: nat| #![trigger depth_is(dag.blocks(), common@[k], dk)] 0 <= k < 1 && depth_is(dag.blocks(), common@[k], dk) implies dk <= best_depth by {
                lemma_depth_unique(dag.blocks(), best, best_depth as nat, dk);
            }
        }
        while i < common.len()
            invariant
                dag.wf(),
                1 <= i <= common@.len(),
                common@.contains(best),
                depth_is(dag.blocks(), best, best_depth as nat),
                forall|x: BlockHash| common@.contains(x) <==> (proper_ancestor(dag.blocks(), x, *hash1) && proper_ancestor(dag.blocks(), x, *hash2)),
                forall|k: int, dk: nat| #![trigger depth_is(dag.blocks(), common@[k], dk)] 0 <= k < i && depth_is(dag.blocks(), common@[k], dk) ==> dk <= best_depth,
            decreases common@.len() - i,
        {
            let c = common[i];
            let d = dag.get_block_depth(&c);
            if d >= best_depth {
                proof {
                    assert forall|k: int, dk: nat| #![trigger depth_is(dag.blocks(), common@[k], dk)] 0 <= k < i + 1 && depth_is(dag.blocks(), common@[k], dk) implies dk <= d by {
                        if k == i {
                            lemma_depth_unique(dag.blocks(), c, d as nat, dk);
                        }
                    }
                    assert(common@.contains(common@[i as int]));
                }
                best = c;
                best_depth = d;
            } else {
                proof {
                    assert forall|k: int, dk: nat| #![trigger depth_is(dag.blocks(), common@[k], dk)] 0 <= k < i + 1 && depth_is(dag.blocks(), common@[k], dk) implies dk <= best_depth by {
                        if k == i {
                            lemma_depth_unique(dag.blocks(), c, d as nat, dk);
                        }
                    }
                }
            }
            i = i + 1;
        }
        proof {
            assert forall|y: BlockHash, dy: nat, dx: nat| #![trigger proper_ancestor(dag.blocks(), y, *hash1), depth_is(dag.blocks(), y, dy), depth_is(dag.blocks(), best, dx)] proper_ancestor(dag.blocks(), y, *hash1) && proper_ancestor(dag.blocks(), y, *hash2) && depth_is(dag.blocks(), y, dy) && depth_is(dag.blocks(), best, dx) implies dy <= dx by {
                assert(common@.contains(y));
                let k = choose|k: int| 0 <= k < common@.len() && common@[k] == y;
                assert(depth_is(dag.blocks(), common@[k], dy));
                lemma_depth_unique(dag.blocks(), best, dx, best_depth as nat);
            }
        }
        Some(best)
    }

    /// Number of proper descendants of `hash`.
    pub fn count_descendants(dag: &BlockDAG, hash: &BlockHash) -> (r: usize)
        requires
            dag.wf(),
        ensures
            descendant_set(dag.blocks(), *hash).finite(),
            r == descendant_set(dag.blocks(), *hash).len(),
    {
        let d = Self::get_descendants(dag, hash);
        proof { lemma_len_matches_set(d@, descendant_set(dag.blocks(), *hash)); }
        d.len()
    }

    /// Number of proper ancestors of `hash`.
    pub fn count_ancestors(dag: &BlockDAG, hash: &BlockHash) -> (r: usize)
        requires
            dag.wf(),
        ensures
            ancestor_set(dag.blocks(), *hash).finite(),
            r == ancestor_set(dag.blocks(), *hash).len(),
    {
        let a = Self::get_ancestors(dag, hash);
        proof { lemma_len_matches_set(a@, ancestor_set(dag.blocks(), *hash)); }
        a.len()
    }
}

/// The stored blocks of a DAG.
fn dag_blocks(dag: &BlockDAG) -> (r: &Vec<Block>)
    requires
        dag.wf(),
    ensures
        r@ == dag.blocks(),
        crate::storage::distinct_hashes(r@),
{
    proof { dag.lemma_wf(); }
    dag.stored_blocks()
}

} // verus!
