//! The GHOSTDAG engine: blue scores, parent selection and a deterministic
//! ordering of the blocks of a DAG.
use vstd::prelude::*;
use vstd::string::StringExecFns;
use crate::hashing::{BlockHash, hash_eq, hash_less, hash_lt, hex_encode, lemma_hash_lt_transitive, lemma_hash_lt_asymmetric,
    lemma_hash_lt_total, lemma_hash_lt_irreflexive};
use crate::block::Block;
use crate::blockdag::BlockDAG;
use crate::storage::{has_hash, distinct_hashes, index_of, parents_of, is_ancestor_of, in_parent_closure,
    closed_under_parents, covers, lemma_index_of, lemma_ancestor_transitive, lemma_nodup_subset_len};
use crate::dag_index::{parents_precede, in_prefix, lemma_in_prefix_step, depth_is, parents_earlier, is_tip_of};
use crate::dag_traversal::{DAGTraversal, anticone_set, ancestor_set, proper_ancestor};
use crate::blue_set::{BlueSet, is_blue_rel, blue_set_of, red_set_of, lemma_blue_red_partition};
use crate::hashing::sorted_strict;

verus! {

/// The proper ancestors of `h` that are blue relative to `h`.
pub open spec fn blue_ancestor_set(s: Seq<Block>, h: BlockHash, k: nat) -> Set<BlockHash> {
    Set::new(|a: BlockHash| proper_ancestor(s, a, h) && is_blue_rel(s, a, h, k))
}

/// The blue score of `h`: one for `h` itself when it is blue relative to
/// itself, plus its blue proper ancestors.
pub open spec fn blue_score_spec(s: Seq<Block>, h: BlockHash, k: nat) -> int {
    (if is_blue_rel(s, h, h, k) { 1int } else { 0int }) + blue_ancestor_set(s, h, k).len()
}

/// An ancestor of a stored block is stored, and sits before it.
pub proof fn lemma_ancestor_earlier(s: Seq<Block>, a: BlockHash, b: BlockHash)
    requires
        distinct_hashes(s),
        parents_precede(s),
        is_ancestor_of(s, a, b),
    ensures
        has_hash(s, a),
        has_hash(s, b),
        index_of(s, a) < index_of(s, b),
{
    let set = Set::new(|x: BlockHash| has_hash(s, x) && has_hash(s, b) && index_of(s, x) < index_of(s, b));
    assert forall|x: BlockHash, p: BlockHash| set.contains(x) && #[trigger] parents_of(s, x).contains(p) implies set.contains(p) by {
        let ix = index_of(s, x);
        lemma_index_of(s, ix);
        assert(s[ix].header.parent_hashes@.contains(p));
        let j = choose|j: int| 0 <= j < ix && s[j].hash == p;
        lemma_index_of(s, j);
    }
    assert(closed_under_parents(s, set));
    if has_hash(s, b) {
        assert forall|p: BlockHash| #[trigger] parents_of(s, b).contains(p) implies set.contains(p) by {
            let ib = index_of(s, b);
            lemma_index_of(s, ib);
            assert(s[ib].header.parent_hashes@.contains(p));
            let j = choose|j: int| 0 <= j < ib && s[j].hash == p;
            lemma_index_of(s, j);
        }
        assert(covers(parents_of(s, b), set));
    } else {
        assert(parents_of(s, b) =~= Seq::<BlockHash>::empty());
        assert(covers(parents_of(s, b), Set::empty()));
        assert(closed_under_parents(s, Set::empty()));
        assert(Set::<BlockHash>::empty().contains(a));
    }
}

/// Every proper ancestor of `h` is blue relative to `h`, and so is `h`
/// itself: the blue score of a block is one more than its number of
/// proper ancestors.
pub proof fn lemma_blue_score_counts_ancestors(s: Seq<Block>, h: BlockHash, k: nat)
    ensures
        blue_ancestor_set(s, h, k) == ancestor_set(s, h),
        blue_score_spec(s, h, k) == 1 + ancestor_set(s, h).len(),
{
    assert(anticone_set(s, h, h) =~= Set::empty());
    assert forall|a: BlockHash| proper_ancestor(s, a, h) implies #[trigger] anticone_set(s, a, h) =~= Set::empty() by {
        assert forall|x: BlockHash| !anticone_set(s, a, h).contains(x) by {
            if proper_ancestor(s, x, a) && x != h {
                lemma_ancestor_transitive(s, x, a, h);
            }
        }
    }
    assert(blue_ancestor_set(s, h, k) =~= ancestor_set(s, h)) by {
        assert forall|a: BlockHash| ancestor_set(s, h).contains(a) implies blue_ancestor_set(s, h, k).contains(a) by {
            assert(anticone_set(s, a, h) =~= Set::empty());
        }
    }
}

/// A block's blue score is higher than that of each of its parents.
pub proof fn lemma_parent_score_lower(s: Seq<Block>, c: BlockHash, p: BlockHash, k: nat)
    requires
        distinct_hashes(s),
        parents_precede(s),
        parents_of(s, c).contains(p),
    ensures
        blue_score_spec(s, p, k) < blue_score_spec(s, c, k),
{
    lemma_blue_score_counts_ancestors(s, p, k);
    lemma_blue_score_counts_ancestors(s, c, k);
    let ap = ancestor_set(s, p);
    let ac = ancestor_set(s, c);
    crate::storage::lemma_start_in_closure(s, parents_of(s, c), p);
    assert(is_ancestor_of(s, p, c));
    lemma_ancestor_earlier(s, p, c);
    assert forall|x: BlockHash| ap.insert(p).contains(x) implies ac.contains(x) by {
        if x != p {
            lemma_ancestor_transitive(s, x, p, c);
            lemma_ancestor_earlier(s, x, c);
        }
    }
    crate::blue_set::lemma_stored_set(s);
    assert forall|x: BlockHash| ac.contains(x) implies crate::blue_set::stored_set(s).contains(x) by {
        lemma_ancestor_earlier(s, x, c);
    }
    vstd::set_lib::lemma_set_subset_finite(crate::blue_set::stored_set(s), ac);
    vstd::set_lib::lemma_set_subset_finite(ac, ap.insert(p));
    assert(ap.insert(p).remove(p) =~= ap);
    vstd::set_lib::lemma_len_subset(ap.insert(p), ac);
}

/// The proper ancestors of a stored block are finite and fewer than the
/// stored blocks.
pub proof fn lemma_ancestors_fewer(s: Seq<Block>, h: BlockHash, anc: Seq<BlockHash>)
    requires
        distinct_hashes(s),
        parents_precede(s),
        anc.no_duplicates(),
        forall|x: BlockHash| anc.contains(x) ==> proper_ancestor(s, x, h),
        anc.len() > 0,
    ensures
        anc.len() + 1 <= s.len(),
{
    let hs = s.map_values(|b: Block| b.hash);
    let a0 = anc[0];
    assert(anc.contains(a0));
    lemma_ancestor_earlier(s, a0, h);
    let ext = anc.push(h);
    assert(ext.no_duplicates()) by {
        assert forall|i: int, j: int| 0 <= i < ext.len() && 0 <= j < ext.len() && i != j implies ext[i] != ext[j] by {
            if i < anc.len() && j < anc.len() {
            } else if i < anc.len() {
                assert(anc.contains(ext[i]));
            } else {
                assert(anc.contains(ext[j]));
            }
        }
    }
    assert forall|x: BlockHash| ext.contains(x) implies hs.contains(x) by {
        let t = choose|t: int| 0 <= t < ext.len() && ext[t] == x;
        if t < anc.len() {
            assert(anc.contains(x));
            lemma_ancestor_earlier(s, x, h);
        }
        let i = index_of(s, x);
        assert(hs[i] == x);
    }
    lemma_nodup_subset_len(ext, hs);
}

/// `a` ranks above `b` when choosing among candidates: higher score, or the
/// same score and a smaller hash.
pub open spec fn ranks_above(sa: int, a: BlockHash, sb: int, b: BlockHash) -> bool {
    sa > sb || (sa == sb && hash_lt(a, b))
}

/// Ranking is transitive.
pub proof fn lemma_ranks_above_transitive(sa: int, a: BlockHash, sb: int, b: BlockHash, sc: int, c: BlockHash)
    requires
        ranks_above(sa, a, sb, b),
        ranks_above(sb, b, sc, c),
    ensures
        ranks_above(sa, a, sc, c),
{
    if sa == sb && sb == sc {
        lemma_hash_lt_transitive(a, b, c);
    }
}

/// Ranking is asymmetric.
pub proof fn lemma_ranks_above_asymmetric(sa: int, a: BlockHash, sb: int, b: BlockHash)
    requires
        ranks_above(sa, a, sb, b),
    ensures
        !ranks_above(sb, b, sa, a),
{
    if sa == sb {
        lemma_hash_lt_asymmetric(a, b);
    }
}

/// Of two different hashes one ranks above the other.
pub proof fn lemma_ranks_above_total(sa: int, a: BlockHash, sb: int, b: BlockHash)
    requires
        a != b,
    ensures
        ranks_above(sa, a, sb, b) || ranks_above(sb, b, sa, a),
{
    lemma_hash_lt_total(a, b);
}

/// The depth of `h`: the length of its longest parent chain.
pub open spec fn depth_of(s: Seq<Block>, h: BlockHash) -> nat {
    choose|d: nat| depth_is(s, h, d)
}

/// `a` comes before `b` in the GHOSTDAG ordering: it is less deep, or as
/// deep and ranks above `b` by blue score and hash.
pub open spec fn comes_before(s: Seq<Block>, k: nat, a: BlockHash, b: BlockHash) -> bool {
    depth_of(s, a) < depth_of(s, b) || (depth_of(s, a) == depth_of(s, b)
        && ranks_above(blue_score_spec(s, a, k), a, blue_score_spec(s, b, k), b))
}

/// A hash with its depth and blue score, as sorted for the ordering.
pub open spec fn entry_before(a: (BlockHash, usize, u64), b: (BlockHash, usize, u64)) -> bool {
    a.1 < b.1 || (a.1 == b.1 && ranks_above(a.2 as int, a.0, b.2 as int, b.0))
}

/// Whether entry `a` sorts before entry `b`.
fn entry_less(a: &(BlockHash, usize, u64), b: &(BlockHash, usize, u64)) -> (r: bool)
    ensures
        r == entry_before(*a, *b),
{
    if a.1 != b.1 {
        return a.1 < b.1;
    }
    if a.2 != b.2 {
        return a.2 > b.2;
    }
    hash_less(&a.0, &b.0)
}

proof fn lemma_entry_transitive(a: (BlockHash, usize, u64), b: (BlockHash, usize, u64), c: (BlockHash, usize, u64))
    requires
        entry_before(a, b),
        entry_before(b, c),
    ensures
        entry_before(a, c),
{
    if a.1 == b.1 && b.1 == c.1 {
        lemma_ranks_above_transitive(a.2 as int, a.0, b.2 as int, b.0, c.2 as int, c.0);
    }
}

proof fn lemma_entry_total(a: (BlockHash, usize, u64), b: (BlockHash, usize, u64))
    requires
        a.0 != b.0,
        !entry_before(a, b),
    ensures
        entry_before(b, a),
{
    lemma_ranks_above_total(a.2 as int, a.0, b.2 as int, b.0);
}

proof fn lemma_entry_irreflexive(a: (BlockHash, usize, u64))
    ensures
        !entry_before(a, a),
{
    lemma_hash_lt_irreflexive(a.0);
}

/// The entries of `v` sorted by `entry_before`.
fn sort_entries(v: &Vec<(BlockHash, usize, u64)>) -> (r: Vec<(BlockHash, usize, u64)>)
    requires
        forall|i: int, j: int| 0 <= i < v@.len() && 0 <= j < v@.len() && i != j ==> #[trigger] v@[i].0 != #[trigger] v@[j].0,
    ensures
        r@.len() == v@.len(),
        forall|e: (BlockHash, usize, u64)| r@.contains(e) <==> v@.contains(e),
        forall|i: int, j: int| 0 <= i < j < r@.len() ==> entry_before(#[trigger] r@[i], #[trigger] r@[j]),
{
    let mut r: Vec<(BlockHash, usize, u64)> = Vec::new();
    let mut i: usize = 0;
    while i < v.len()
        invariant
            0 <= i <= v@.len(),
            forall|a: int, b: int| 0 <= a < v@.len() && 0 <= b < v@.len() && a != b ==> #[trigger] v@[a].0 != #[trigger] v@[b].0,
            r@.len() == i,
            forall|a: int, b: int| 0 <= a < b < r@.len() ==> entry_before(#[trigger] r@[a], #[trigger] r@[b]),
            forall|e: (BlockHash, usize, u64)| r@.contains(e) <==> v@.subrange(0, i as int).contains(e),
        decreases v@.len() - i,
    {
        let x = v[i];
        let ghost sub0 = v@.subrange(0, i as int);
        let ghost sub1 = v@.subrange(0, i + 1);
        proof {
            assert forall|e: (BlockHash, usize, u64)| r@.contains(e) implies e.0 != x.0 by {
                assert(sub0.contains(e));
                let t = choose|t: int| 0 <= t < sub0.len() && sub0[t] == e;
                assert(v@[t] == e);
            }
        }
        let mut p: usize = 0;
        while p < r.len() && !entry_less(&x, &r[p])
            invariant
                0 <= p <= r@.len(),
                forall|a: int, b: int| 0 <= a < b < r@.len() ==> entry_before(#[trigger] r@[a], #[trigger] r@[b]),
                forall|e: (BlockHash, usize, u64)| r@.contains(e) ==> e.0 != x.0,
                forall|q: int| 0 <= q < p ==> entry_before(#[trigger] r@[q], x),
            decreases r@.len() - p,
        {
            proof {
                assert(r@.contains(r@[p as int]));
                lemma_entry_total(x, r@[p as int]);
            }
            p = p + 1;
        }
        let ghost old_r = r@;
        r.insert(p, x);
        proof {
            assert forall|a: int, b: int| 0 <= a < b < r@.len() implies entry_before(#[trigger] r@[a], #[trigger] r@[b]) by {
                if b < p {
                    assert(r@[a] == old_r[a] && r@[b] == old_r[b]);
                } else if b == p {
                    assert(r@[b] == x && r@[a] == old_r[a]);
                } else if a < p {
                    assert(r@[a] == old_r[a] && r@[b] == old_r[b - 1]);
                } else if a == p {
                    assert(r@[a] == x && r@[b] == old_r[b - 1]);
                    assert(entry_before(x, old_r[p as int]));
                    if p < b - 1 {
                        lemma_entry_transitive(x, old_r[p as int], old_r[b - 1]);
                    }
                } else {
                    assert(r@[a] == old_r[a - 1] && r@[b] == old_r[b - 1]);
                }
            }
            assert forall|y: (BlockHash, usize, u64)| r@.contains(y) <==> sub1.contains(y) by {
                if r@.contains(y) {
                    let j = choose|j: int| 0 <= j < r@.len() && r@[j] == y;
                    if j < p {
                        assert(old_r[j] == y);
                        assert(old_r.contains(y));
                        let t = choose|t: int| 0 <= t < sub0.len() && sub0[t] == y;
                        assert(sub1[t] == y);
                    } else if j == p {
                        assert(sub1[i as int] == y);
                    } else {
                        assert(old_r[j - 1] == y);
                        assert(old_r.contains(y));
                        let t = choose|t: int| 0 <= t < sub0.len() && sub0[t] == y;
                        assert(sub1[t] == y);
                    }
                }
                if sub1.contains(y) {
                    let t = choose|t: int| 0 <= t < sub1.len() && sub1[t] == y;
                    if t < i {
                        assert(sub0[t] == y);
                        assert(old_r.contains(y));
                        let j = choose|j: int| 0 <= j < old_r.len() && old_r[j] == y;
                        if j < p {
                            assert(r@[j] == y);
                        } else {
                            assert(r@[j + 1] == y);
                        }
                    } else {
                        assert(r@[p as int] == y);
                    }
                }
            }
        }
        i = i + 1;
    }
    proof {
        assert(v@.subrange(0, i as int) =~= v@);
    }
    r
}



/// Facts about one sorted entry: it is stored, with its depth and blue score.
pub open spec fn entry_facts(s: Seq<Block>, k: nat, e: (BlockHash, usize, u64)) -> bool {
    has_hash(s, e.0) && depth_is(s, e.0, e.1 as nat) && e.2 == blue_score_spec(s, e.0, k)
}

/// The depth recorded for a block is its depth.
proof fn lemma_depth_of(s: Seq<Block>, h: BlockHash, d: nat)
    requires
        depth_is(s, h, d),
    ensures
        depth_of(s, h) == d,
{
    let c = depth_of(s, h);
    assert(depth_is(s, h, c));
    crate::dag_traversal::lemma_depth_unique(s, h, c, d);
}

/// Hashes read off entries sorted by depth, then rank, list every stored
/// block once, parents first, in GHOSTDAG order.
proof fn lemma_sorted_entries_order(
    s: Seq<Block>,
    k: nat,
    entries: Seq<(BlockHash, usize, u64)>,
    sorted: Seq<(BlockHash, usize, u64)>,
    order: Seq<BlockHash>,
)
    requires
        distinct_hashes(s),
        parents_precede(s),
        forall|j: int| 0 <= j < entries.len() ==> entry_facts(s, k, #[trigger] entries[j]),
        forall|i: int, j: int| 0 <= i < entries.len() && 0 <= j < entries.len() && i != j ==> #[trigger] entries[i].0 != #[trigger] entries[j].0,
        forall|x: BlockHash| has_hash(s, x) ==> exists|j: int| 0 <= j < entries.len() && #[trigger] entries[j].0 == x,
        sorted.len() == entries.len(),
        forall|e: (BlockHash, usize, u64)| sorted.contains(e) <==> entries.contains(e),
        forall|i: int, j: int| 0 <= i < j < sorted.len() ==> entry_before(#[trigger] sorted[i], #[trigger] sorted[j]),
        order.len() == sorted.len(),
        forall|j: int| 0 <= j < order.len() ==> #[trigger] order[j] == sorted[j].0,
    ensures
        order.no_duplicates(),
        forall|x: BlockHash| order.contains(x) <==> has_hash(s, x),
        parents_earlier(order, s),
        forall|i: int, j: int| 0 <= i < j < order.len() ==> comes_before(s, k, #[trigger] order[i], #[trigger] order[j]),
{
    assert forall|j: int| 0 <= j < sorted.len() implies #[trigger] entry_facts(s, k, sorted[j]) by {
        assert(sorted.contains(sorted[j]));
        let t = choose|t: int| 0 <= t < entries.len() && entries[t] == sorted[j];
    }
    assert forall|i: int, j: int| 0 <= i < j < order.len() implies comes_before(s, k, #[trigger] order[i], #[trigger] order[j]) by {
        assert(entry_facts(s, k, sorted[i]));
        assert(entry_facts(s, k, sorted[j]));
        lemma_depth_of(s, order[i], sorted[i].1 as nat);
        lemma_depth_of(s, order[j], sorted[j].1 as nat);
        assert(entry_before(sorted[i], sorted[j]));
    }
    assert forall|i: int, j: int| 0 <= i < order.len() && 0 <= j < order.len() && i != j implies order[i] != order[j] by {
        if order[i] == order[j] {
            assert(sorted.contains(sorted[i]));
            assert(sorted.contains(sorted[j]));
            let ti = choose|t: int| 0 <= t < entries.len() && entries[t] == sorted[i];
            let tj = choose|t: int| 0 <= t < entries.len() && entries[t] == sorted[j];
            assert(entries[ti].0 == entries[tj].0);
            assert(ti == tj);
            if i < j {
                assert(entry_before(sorted[i], sorted[j]));
            } else {
                assert(entry_before(sorted[j], sorted[i]));
            }
            lemma_entry_irreflexive(sorted[i]);
        }
    }
    assert forall|x: BlockHash| order.contains(x) <==> has_hash(s, x) by {
        if order.contains(x) {
            let j = choose|j: int| 0 <= j < order.len() && order[j] == x;
            assert(entry_facts(s, k, sorted[j]));
        }
        if has_hash(s, x) {
            let t = choose|t: int| 0 <= t < entries.len() && #[trigger] entries[t].0 == x;
            assert(entries.contains(entries[t]));
            assert(sorted.contains(entries[t]));
            let j = choose|j: int| 0 <= j < sorted.len() && sorted[j] == entries[t];
            assert(order[j] == x);
        }
    }
    assert forall|m: int, p: BlockHash| 0 <= m < order.len() && #[trigger] parents_of(s, order[m]).contains(p)
        implies exists|j: int| 0 <= j < m && order[j] == p by {
        crate::dag_traversal::lemma_parent_earlier(s, order[m], p);
        assert(order.contains(p));
        let j = choose|j: int| 0 <= j < order.len() && order[j] == p;
        assert(entry_facts(s, k, sorted[m]));
        assert(entry_facts(s, k, sorted[j]));
        crate::dag_traversal::lemma_parent_depth_lower(s, order[m], p, sorted[m].1 as nat, sorted[j].1 as nat);
        if j >= m {
            if j == m {
            } else {
                assert(entry_before(sorted[m], sorted[j]));
            }
        }
    }
}

/// `o` lists every stored block once, each after its parents.
pub open spec fn is_valid_ordering(s: Seq<Block>, o: Seq<BlockHash>) -> bool {
    &&& o.no_duplicates()
    &&& forall|x: BlockHash| o.contains(x) ==> has_hash(s, x)
    &&& parents_earlier(o, s)
    &&& o.len() == s.len()
}

/// An ordering that lists every stored block once and puts parents first,
/// as `generate_ordering` produces, passes `validate_ordering`.
pub proof fn lemma_generated_ordering_valid(s: Seq<Block>, o: Seq<BlockHash>)
    requires
        distinct_hashes(s),
        o.no_duplicates(),
        forall|x: BlockHash| o.contains(x) <==> has_hash(s, x),
        parents_earlier(o, s),
    ensures
        is_valid_ordering(s, o),
{
    crate::blue_set::lemma_stored_set(s);
    crate::dag_traversal::lemma_len_matches_set(o, crate::blue_set::stored_set(s));
}

/// The first position of `h` in `v`.
fn first_position(v: &[BlockHash], h: &BlockHash) -> (r: Option<usize>)
    ensures
        r matches Some(q) ==> q < v@.len() && v@[q as int] == *h && forall|t: int| 0 <= t < q ==> v@[t] != *h,
        r is None ==> !v@.contains(*h),
{
    let mut i: usize = 0;
    while i < v.len()
        invariant
            0 <= i <= v@.len(),
            forall|t: int| 0 <= t < i ==> v@[t] != *h,
        decreases v@.len() - i,
    {
        if hash_eq(&v[i], h) {
            return Some(i);
        }
        i = i + 1;
    }
    None
}

/// A non-empty DAG whose parents come first has a tip: its last block.
pub proof fn lemma_last_is_tip(s: Seq<Block>)
    requires
        distinct_hashes(s),
        parents_precede(s),
        s.len() > 0,
    ensures
        is_tip_of(s, s[s.len() - 1].hash),
{
    let h = s[s.len() - 1].hash;
    assert(has_hash(s, h));
    if crate::dag_index::is_some_parent(s, h) {
        let i = choose|i: int| 0 <= i < s.len() && #[trigger] s[i].header.parent_hashes@.contains(h);
        let j = choose|j: int| 0 <= j < i && s[j].hash == h;
    }
}

/// Statistics of an engine.
#[derive(Clone, Copy, Debug)]
pub struct GHOSTDAGStats {
    pub k_parameter: usize,
    pub total_blocks: usize,
    pub blue_blocks: usize,
    pub red_blocks: usize,
    pub cache_size: usize,
}

/// The GHOSTDAG engine with parameter `k`.
#[derive(Debug)]
pub struct GHOSTDAGEngine {
    /// The largest anticone a blue block may have.
    pub k: usize,
    dag: Option<BlockDAG>,
    blue_score_cache: Vec<(BlockHash, u64)>,
    blue_set: BlueSet,
}

impl GHOSTDAGEngine {
    /// The attached DAG, if any.
    pub closed spec fn attached(&self) -> Option<BlockDAG> {
        self.dag
    }

    /// The cached blue scores.
    pub closed spec fn cache(&self) -> Seq<(BlockHash, u64)> {
        self.blue_score_cache@
    }

    /// `h` has a cached score.
    pub open spec fn cache_has(&self, h: BlockHash) -> bool {
        exists|i: int| 0 <= i < self.cache().len() && #[trigger] self.cache()[i].0 == h
    }

    /// The blue score of `h` in the attached DAG; zero with no DAG attached.
    pub closed spec fn score_of(&self, h: BlockHash) -> int {
        match self.dag {
            Some(d) => blue_score_spec(d.blocks(), h, self.k as nat),
            None => 0,
        }
    }

    /// The parameter `k` (the field of that name).
    pub closed spec fn k_param(&self) -> nat {
        self.k as nat
    }

    /// What `score_of` is.
    pub proof fn lemma_score_of(&self, h: BlockHash)
        ensures
            self.score_of(h) == match self.attached() {
                Some(d) => blue_score_spec(d.blocks(), h, self.k_param()),
                None => 0,
            },
    {
    }

    /// Well-formed: the attached DAG is well-formed, and the cache holds
    /// each hash at most once with its blue score in that DAG.
    pub closed spec fn wf(&self) -> bool {
        &&& self.blue_set.k == self.k
        &&& (self.dag matches Some(d) ==> d.wf())
        &&& (self.dag is None ==> self.blue_score_cache@.len() == 0)
        &&& forall|i: int, j: int| 0 <= i < self.blue_score_cache@.len() && 0 <= j < self.blue_score_cache@.len() && i != j
            ==> #[trigger] self.blue_score_cache@[i].0 != #[trigger] self.blue_score_cache@[j].0
        &&& forall|i: int| 0 <= i < self.blue_score_cache@.len() ==> (#[trigger] self.blue_score_cache@[i]).1 == self.score_of(self.blue_score_cache@[i].0)
    }

    /// An engine with parameter `k`, no DAG and an empty cache.
    pub fn new(k: usize) -> (r: GHOSTDAGEngine)
        ensures
            r.wf(),
            r.k_param() == k as nat,
            r.attached() is None,
            r.cache().len() == 0,
    {
        GHOSTDAGEngine { k, dag: None, blue_score_cache: Vec::new(), blue_set: BlueSet::new(k) }
    }

    /// Attaches `dag` and empties the cache.
    pub fn attach_dag(&mut self, dag: BlockDAG)
        requires
            old(self).wf(),
            dag.wf(),
        ensures
            final(self).wf(),
            final(self).k_param() == old(self).k_param(),
            final(self).attached() == Some(dag),
            final(self).cache().len() == 0,
    {
        self.clear_cache();
        self.dag = Some(dag);
    }

    /// The attached DAG, if any.
    pub fn get_dag(&self) -> (r: Option<&BlockDAG>)
        ensures
            r is None <==> self.attached() is None,
            r matches Some(d) ==> self.attached() == Some(*d),
    {
        self.dag.as_ref()
    }

    /// Empties the blue-score cache.
    pub fn clear_cache(&mut self)
        requires
            old(self).wf(),
        ensures
            final(self).wf(),
            final(self).k_param() == old(self).k_param(),
            final(self).attached() == old(self).attached(),
            final(self).cache().len() == 0,
    {
        self.blue_score_cache.clear();
    }

    /// The cached score of `h`, if it is cached.
    fn cache_lookup(&self, h: &BlockHash) -> (r: Option<u64>)
        requires
            self.wf(),
        ensures
            r matches Some(v) ==> self.attached() is Some && v == self.score_of(*h) && self.cache_has(*h),
            r is None ==> forall|i: int| 0 <= i < self.cache().len() ==> #[trigger] self.cache()[i].0 != *h,
    {
        let mut i: usize = 0;
        while i < self.blue_score_cache.len()
            invariant
                self.wf(),
                0 <= i <= self.blue_score_cache@.len(),
                forall|j: int| 0 <= j < i ==> #[trigger] self.blue_score_cache@[j].0 != *h,
            decreases self.blue_score_cache@.len() - i,
        {
            let entry = self.blue_score_cache[i];
            if hash_eq(&entry.0, h) {
                proof {
                    assert(self.blue_score_cache@[i as int] == entry);
                    assert(self.cache()[i as int].0 == *h);
                }
                return Some(entry.1);
            }
            i = i + 1;
        }
        None
    }

    /// The blue score of `hash` in `dag`, the attached DAG, from the cache
    /// when it is there.
    fn calculate_blue_score_immutable(&self, dag: &BlockDAG, hash: &BlockHash) -> (r: Result<u64, String>)
        requires
            self.wf(),
            self.attached() == Some(*dag),
        ensures
            r matches Ok(v) && v == blue_score_spec(dag.blocks(), *hash, self.k as nat),
    {
        if let Some(cached) = self.cache_lookup(hash) {
            return Ok(cached);
        }
        let ghost s = dag.blocks();
        let ghost k = self.k as nat;
        proof { dag.lemma_wf(); }
        let ancestors = DAGTraversal::get_ancestors(dag, hash);
        let mut blue_count: u64 = 0;
        let block_anticone = DAGTraversal::get_anticone(dag, hash, hash);
        if block_anticone.len() <= self.k {
            blue_count = blue_count + 1;
        }
        let ghost self_term: int = if is_blue_rel(s, *hash, *hash, k) { 1int } else { 0int };
        let ghost mut counted: Seq<BlockHash> = Seq::empty();
        proof {
            if ancestors@.len() > 0 {
                lemma_ancestors_fewer(s, *hash, ancestors@);
            }
        }
        let mut i: usize = 0;
        while i < ancestors.len()
            invariant
                dag.wf(),
                s == dag.blocks(),
                k == self.k as nat,
                0 <= i <= ancestors@.len(),
                ancestors@.no_duplicates(),
                forall|x: BlockHash| ancestors@.contains(x) <==> proper_ancestor(s, x, *hash),
                ancestors@.len() > 0 ==> ancestors@.len() + 1 <= s.len(),
                s.len() <= usize::MAX,
                counted.no_duplicates(),
                counted.len() <= i,
                blue_count == self_term + counted.len(),
                self_term <= 1,
                forall|x: BlockHash| counted.contains(x) <==> (in_prefix(ancestors@, i as int, x) && is_blue_rel(s, x, *hash, k)),
            decreases ancestors@.len() - i,
        {
            let a = ancestors[i];
            proof { lemma_in_prefix_step(ancestors@, i as int); }
            let ghost old_c = counted;
            let anticone = DAGTraversal::get_anticone(dag, &a, hash);
            if anticone.len() <= self.k {
                proof {
                    assert(!old_c.contains(a)) by {
                        if old_c.contains(a) {
                            let t = choose|t: int| 0 <= t < i && #[trigger] ancestors@[t] == a;
                        }
                    }
                    counted = old_c.push(a);
                    assert forall|y: BlockHash| counted.contains(y) <==> (old_c.contains(y) || y == a) by {
                        if old_c.contains(y) {
                            let t = choose|t: int| 0 <= t < old_c.len() && old_c[t] == y;
                            assert(counted[t] == y);
                        }
                        if y == a { assert(counted[counted.len() - 1] == y); }
                    }
                    assert(counted.no_duplicates()) by {
                        assert forall|p: int, q: int| 0 <= p < counted.len() && 0 <= q < counted.len() && p != q implies counted[p] != counted[q] by {
                            if p < old_c.len() && q < old_c.len() {
                            } else if p < old_c.len() {
                                assert(old_c.contains(counted[p]));
                            } else {
                                assert(old_c.contains(counted[q]));
                            }
                        }
                    }
                }
                blue_count = blue_count + 1;
            }
            proof {
                assert forall|y: BlockHash| counted.contains(y) <==> (in_prefix(ancestors@, i + 1, y) && is_blue_rel(s, y, *hash, k)) by {
                    if y != a {
                        assert(counted.contains(y) == old_c.contains(y));
                    }
                }
            }
            i = i + 1;
        }
        proof {
            assert forall|x: BlockHash| counted.contains(x) <==> blue_ancestor_set(s, *hash, k).contains(x) by {
                if ancestors@.contains(x) {
                    let t = choose|t: int| 0 <= t < ancestors@.len() && ancestors@[t] == x;
                    assert(in_prefix(ancestors@, i as int, x));
                }
                if in_prefix(ancestors@, i as int, x) {
                    let t = choose|t: int| 0 <= t < i && ancestors@[t] == x;
                    assert(ancestors@.contains(x));
                }
            }
            crate::dag_traversal::lemma_len_matches_set(counted, blue_ancestor_set(s, *hash, k));
        }
        Ok(blue_count)
    }

    /// The blue score of `hash` in the attached DAG; it is cached.
    pub fn calculate_blue_score(&mut self, hash: &BlockHash) -> (r: Result<u64, String>)
        requires
            old(self).wf(),
        ensures
            final(self).wf(),
            final(self).k_param() == old(self).k_param(),
            final(self).attached() == old(self).attached(),
            r is Err <==> old(self).attached() is None,
            r matches Err(m) ==> m@ == "DAG not attached"@,
            r matches Ok(v) ==> v == old(self).score_of(*hash),
            r is Ok ==> final(self).cache_has(*hash),
            forall|x: BlockHash| #[trigger] final(self).cache_has(x) <==> (old(self).cache_has(x) || (r is Ok && x == *hash)),
    {
        let score = match &self.dag {
            None => {
                return Err(String::from_str("DAG not attached"));
            },
            Some(dag) => {
                if let Some(cached) = self.cache_lookup(hash) {
                    return Ok(cached);
                }
                match self.calculate_blue_score_immutable(dag, hash) {
                    Ok(v) => v,
                    Err(e) => {
                        return Err(e);
                    },
                }
            },
        };
        let ghost old_c = self.blue_score_cache@;
        self.blue_score_cache.push((*hash, score));
        proof {
            assert(self.blue_score_cache@[old_c.len() as int].0 == *hash);
            assert forall|x: BlockHash| #[trigger] self.cache_has(x) <==> (old(self).cache_has(x) || x == *hash) by {
                if old(self).cache_has(x) {
                    let i = choose|i: int| 0 <= i < old_c.len() && #[trigger] old(self).cache()[i].0 == x;
                    assert(self.cache()[i] == old_c[i]);
                }
                if self.cache_has(x) && x != *hash {
                    let i = choose|i: int| 0 <= i < self.cache().len() && #[trigger] self.cache()[i].0 == x;
                    assert(old(self).cache()[i] == self.cache()[i]);
                }
                if x == *hash {
                    assert(self.cache()[old_c.len() as int].0 == *hash);
                }
            }
        }
        Ok(score)
    }

    /// The blue score of `hash`, from the cache or calculated.
    pub fn get_blue_score(&mut self, hash: &BlockHash) -> (r: Result<u64, String>)
        requires
            old(self).wf(),
        ensures
            final(self).wf(),
            final(self).k_param() == old(self).k_param(),
            final(self).attached() == old(self).attached(),
            r is Err <==> old(self).attached() is None,
            r matches Err(m) ==> m@ == "DAG not attached"@,
            r matches Ok(v) ==> v == old(self).score_of(*hash),
            forall|x: BlockHash| #[trigger] final(self).cache_has(x) <==> (old(self).cache_has(x) || (r is Ok && x == *hash)),
    {
        if let Some(cached) = self.cache_lookup(hash) {
            return Ok(cached);
        }
        self.calculate_blue_score(hash)
    }

    /// The candidate ranking highest by blue score, ties going to the
    /// smaller hash.
    fn pick_best(&mut self, candidates: &[BlockHash]) -> (best: BlockHash)
        requires
            old(self).wf(),
            candidates@.len() > 0,
        ensures
            final(self).wf(),
            final(self).k_param() == old(self).k_param(),
            final(self).attached() == old(self).attached(),
            candidates@.contains(best),
            forall|i: int| 0 <= i < candidates@.len() ==> #[trigger] candidates@[i] == best
                || !ranks_above(old(self).score_of(candidates@[i]), candidates@[i], old(self).score_of(best), best),
    {
        let ghost k0 = self.k_param();
        let ghost d0 = self.attached();
        let mut best = candidates[0];
        let mut best_score: u64 = match self.get_blue_score(&best) {
            Ok(v) => v,
            Err(_) => 0,
        };
        let mut i: usize = 1;
        while i < candidates.len()
            invariant
                self.wf(),
                self.k_param() == k0,
                self.attached() == d0,
                k0 == old(self).k_param(),
                d0 == old(self).attached(),
                1 <= i <= candidates@.len(),
                candidates@.contains(best),
                best_score == old(self).score_of(best),
                forall|j: int| 0 <= j < i ==> #[trigger] candidates@[j] == best
                    || !ranks_above(old(self).score_of(candidates@[j]), candidates@[j], old(self).score_of(best), best),
            decreases candidates@.len() - i,
        {
            let p = candidates[i];
            let score: u64 = match self.get_blue_score(&p) {
                Ok(v) => v,
                Err(_) => 0,
            };
            if score > best_score || (score == best_score && hash_less(&p, &best)) {
                proof {
                    assert(candidates@.contains(p)) by { assert(candidates@[i as int] == p); }
                    assert forall|j: int| 0 <= j < i + 1 implies #[trigger] candidates@[j] == p
                        || !ranks_above(old(self).score_of(candidates@[j]), candidates@[j], old(self).score_of(p), p) by {
                        if j < i && candidates@[j] != p && ranks_above(old(self).score_of(candidates@[j]), candidates@[j], old(self).score_of(p), p) {
                            lemma_ranks_above_transitive(old(self).score_of(candidates@[j]), candidates@[j], score as int, p, best_score as int, best);
                            if candidates@[j] == best {
                                lemma_hash_lt_irreflexive(best);
                            }
                        }
                    }
                }
                best = p;
                best_score = score;
            } else {
                proof {
                    assert forall|j: int| 0 <= j < i + 1 implies #[trigger] candidates@[j] == best
                        || !ranks_above(old(self).score_of(candidates@[j]), candidates@[j], old(self).score_of(best), best) by {
                        if j == i {
                        }
                    }
                }
            }
            i = i + 1;
        }
        best
    }

    /// The best of `parents` by blue score in the attached DAG (zero for
    /// every hash when none is attached), ties going to the smaller hash.
    /// Fails when `parents` is empty.
    pub fn select_parent_from_parents(&mut self, _dag: &BlockDAG, parents: &[BlockHash]) -> (r: Result<BlockHash, String>)
        requires
            old(self).wf(),
        ensures
            final(self).wf(),
            final(self).k_param() == old(self).k_param(),
            final(self).attached() == old(self).attached(),
            r is Err <==> parents@.len() == 0,
            r matches Err(m) ==> m@ == "No parent candidates provided"@,
            r matches Ok(best) ==> parents@.contains(best) && forall|i: int| 0 <= i < parents@.len() ==> #[trigger] parents@[i] == best
                || !ranks_above(old(self).score_of(parents@[i]), parents@[i], old(self).score_of(best), best),
    {
        if parents.len() == 0 {
            return Err(String::from_str("No parent candidates provided"));
        }
        Ok(self.pick_best(parents))
    }

    /// The parent of `block_hash` with the highest blue score, ties going
    /// to the smaller hash. Fails with no DAG attached or when the block
    /// has no parents.
    pub fn select_parent(&mut self, block_hash: &BlockHash) -> (r: Result<BlockHash, String>)
        requires
            old(self).wf(),
        ensures
            final(self).wf(),
            final(self).k_param() == old(self).k_param(),
            final(self).attached() == old(self).attached(),
            r is Err <==> (old(self).attached() matches Some(d) ==> parents_of(d.blocks(), *block_hash).len() == 0),
            r matches Ok(best) ==> old(self).attached() matches Some(d) && parents_of(d.blocks(), *block_hash).contains(best)
                && forall|i: int| 0 <= i < parents_of(d.blocks(), *block_hash).len()
                    ==> #[trigger] parents_of(d.blocks(), *block_hash)[i] == best
                    || !ranks_above(old(self).score_of(parents_of(d.blocks(), *block_hash)[i]), parents_of(d.blocks(), *block_hash)[i], old(self).score_of(best), best),
    {
        let parents = match &self.dag {
            None => {
                return Err(String::from_str("DAG not attached"));
            },
            Some(dag) => DAGTraversal::get_parents(dag, block_hash),
        };
        if parents.len() == 0 {
            return Err("Block has no parents".to_string());
        }
        if parents.len() == 1 {
            proof {
                assert(parents@.contains(parents@[0]));
                assert forall|i: int| 0 <= i < parents@.len() implies #[trigger] parents@[i] == parents@[0] by {}
            }
            return Ok(parents[0]);
        }
        Ok(self.pick_best(parents.as_slice()))
    }

    /// The GHOSTDAG ordering of the attached DAG: every stored block once,
    /// shallower blocks first, and among blocks of one depth higher blue
    /// score first, then smaller hash. Blocks without parents come first
    /// and every parent precedes its children. Fails with no DAG attached.
    pub fn generate_ordering(&mut self) -> (r: Result<Vec<BlockHash>, String>)
        requires
            old(self).wf(),
        ensures
            *final(self) == *old(self),
            r is Err <==> old(self).attached() is None,
            r matches Ok(o) ==> old(self).attached() matches Some(d) && o@.no_duplicates()
                && (forall|x: BlockHash| o@.contains(x) <==> has_hash(d.blocks(), x))
                && parents_earlier(o@, d.blocks())
                && forall|i: int, j: int| 0 <= i < j < o@.len() ==> comes_before(d.blocks(), old(self).k_param(), #[trigger] o@[i], #[trigger] o@[j]),
    {
        let dag = match &self.dag {
            None => {
                return Err(String::from_str("DAG not attached"));
            },
            Some(d) => d,
        };
        let ghost s = dag.blocks();
        let ghost k = self.k_param();
        proof { dag.lemma_wf(); }
        let all = DAGTraversal::get_all_blocks(dag);
        let mut entries: Vec<(BlockHash, usize, u64)> = Vec::new();
        let mut i: usize = 0;
        while i < all.len()
            invariant
                self.wf(),
                self.attached() == Some(*dag),
                s == dag.blocks(),
                k == self.k_param(),
                0 <= i <= all@.len(),
                entries@.len() == i,
                forall|j: int| 0 <= j < i ==> #[trigger] entries@[j].0 == all@[j] && entry_facts(s, k, entries@[j]),
                forall|x: BlockHash| all@.contains(x) <==> has_hash(s, x),
            decreases all@.len() - i,
        {
            let h = all[i];
            let depth = dag.get_block_depth(&h);
            let score = match self.calculate_blue_score_immutable(dag, &h) {
                Ok(v) => v,
                Err(e) => {
                    return Err(e);
                },
            };
            proof { assert(all@.contains(h)) by { assert(all@[i as int] == h); } }
            entries.push((h, depth, score));
            i = i + 1;
        }
        proof {
            assert forall|a: int, b: int| 0 <= a < entries@.len() && 0 <= b < entries@.len() && a != b implies #[trigger] entries@[a].0 != #[trigger] entries@[b].0 by {
                assert(entries@[a].0 == all@[a] && entries@[b].0 == all@[b]);
            }
            assert forall|j: int| 0 <= j < entries@.len() implies entry_facts(s, k, #[trigger] entries@[j]) by {
                assert(entries@[j].0 == all@[j]);
            }
            assert forall|x: BlockHash| has_hash(s, x) implies exists|j: int| 0 <= j < entries@.len() && #[trigger] entries@[j].0 == x by {
                assert(all@.contains(x));
                let j = choose|j: int| 0 <= j < all@.len() && all@[j] == x;
                assert(entries@[j].0 == all@[j]);
            }
        }
        let sorted = sort_entries(&entries);
        let mut order: Vec<BlockHash> = Vec::new();
        let mut t: usize = 0;
        while t < sorted.len()
            invariant
                0 <= t <= sorted@.len(),
                order@.len() == t,
                forall|j: int| 0 <= j < t ==> #[trigger] order@[j] == sorted@[j].0,
            decreases sorted@.len() - t,
        {
            order.push(sorted[t].0);
            t = t + 1;
        }
        proof {
            lemma_sorted_entries_order(s, k, entries@, sorted@, order@);
        }
        Ok(order)
    }

    /// Checks that `ordering` lists every block of the attached DAG exactly
    /// once, each after all of its parents. Fails with no DAG attached.
    pub fn validate_ordering(&self, ordering: &[BlockHash]) -> (r: Result<(), String>)
        requires
            self.wf(),
        ensures
            r is Ok <==> (self.attached() matches Some(d) && is_valid_ordering(d.blocks(), ordering@)),
    {
        let dag = match &self.dag {
            None => {
                return Err(String::from_str("DAG not attached"));
            },
            Some(d) => d,
        };
        let ghost s = dag.blocks();
        let ghost o = ordering@;
        let mut index: usize = 0;
        while index < ordering.len()
            invariant
                dag.wf(),
                self.attached() == Some(*dag),
                s == dag.blocks(),
                o == ordering@,
                0 <= index <= o.len(),
                forall|j: int| 0 <= j < index ==> has_hash(s, #[trigger] o[j]),
                forall|a: int, b: int| 0 <= a < b < index ==> #[trigger] o[a] != #[trigger] o[b],
                forall|j: int, p: BlockHash| 0 <= j < index && #[trigger] parents_of(s, o[j]).contains(p)
                    ==> exists|t: int| 0 <= t < j && o[t] == p,
            decreases o.len() - index,
        {
            let h = ordering[index];
            if !dag.contains_block(&h) {
                let mut msg = String::from_str("Block ");
                msg.append(hex_encode(&h).as_str());
                msg.append(" not found in DAG");
                proof {
                    assert(o.contains(h)) by { assert(o[index as int] == h); }
                    assert(!is_valid_ordering(s, o));
                }
                return Err(msg);
            }
            match first_position(ordering, &h) {
                Some(q) => {
                    if q < index {
                        let mut msg = String::from_str("Duplicate block ");
                        msg.append(hex_encode(&h).as_str());
                        msg.append(" at position ");
                        msg.append(index.to_string().as_str());
                        return Err(msg);
                    }
                },
                None => {},
            }
            let parents = dag.parent_hashes(&h);
            let mut m: usize = 0;
            while m < parents.len()
                invariant
                    self.attached() == Some(*dag),
                    s == dag.blocks(),
                    0 <= m <= parents@.len(),
                    parents@ == parents_of(s, h),
                    o == ordering@,
                    h == o[index as int],
                    index < o.len(),
                    forall|t: int| 0 <= t < m ==> exists|u: int| 0 <= u < index && o[u] == #[trigger] parents@[t],
                decreases parents@.len() - m,
            {
                let p = parents[m];
                match first_position(ordering, &p) {
                    None => {
                        let mut msg = String::from_str("Parent ");
                        msg.append(hex_encode(&p).as_str());
                        msg.append(" of block ");
                        msg.append(hex_encode(&h).as_str());
                        msg.append(" not in ordering");
                        proof {
                            assert(parents_of(s, o[index as int]).contains(p)) by { assert(parents@[m as int] == p); }
                            if is_valid_ordering(s, o) {
                                let t = choose|t: int| 0 <= t < index && o[t] == p;
                                assert(o.contains(p));
                            }
                        }
                        return Err(msg);
                    },
                    Some(q) => {
                        if q >= index {
                            let mut msg = String::from_str("Parent ");
                            msg.append(hex_encode(&p).as_str());
                            msg.append(" appears after child ");
                            msg.append(hex_encode(&h).as_str());
                            msg.append(" in ordering");
                            proof {
                                assert(parents_of(s, o[index as int]).contains(p)) by { assert(parents@[m as int] == p); }
                                if is_valid_ordering(s, o) {
                                    let t = choose|t: int| 0 <= t < index && o[t] == p;
                                }
                            }
                            return Err(msg);
                        }
                    },
                }
                m = m + 1;
            }
            proof {
                assert forall|p: BlockHash| #[trigger] parents_of(s, o[index as int]).contains(p) implies exists|t: int| 0 <= t < index && o[t] == p by {
                    let u = choose|u: int| 0 <= u < parents@.len() && parents@[u] == p;
                    assert(exists|w: int| 0 <= w < index && o[w] == #[trigger] parents@[u]);
                }
            }
            index = index + 1;
        }
        if index != dag.block_count() {
            let mut msg = String::from_str("Ordering has ");
            msg.append(index.to_string().as_str());
            msg.append(" blocks but DAG has ");
            msg.append(dag.block_count().to_string().as_str());
            msg.append(" blocks");
            return Err(msg);
        }
        proof {
            assert(o.no_duplicates()) by {
                assert forall|a: int, b: int| 0 <= a < o.len() && 0 <= b < o.len() && a != b implies o[a] != o[b] by {
                    if a < b { assert(o[a] != o[b]); } else { assert(o[b] != o[a]); }
                }
            }
            assert forall|x: BlockHash| o.contains(x) implies has_hash(s, x) by {
                let j = choose|j: int| 0 <= j < o.len() && o[j] == x;
                assert(has_hash(s, o[j]));
            }
        }
        Ok(())
    }

    /// Engine statistics. With a DAG attached, the blue and red counts are
    /// taken relative to the first tip the DAG lists; the DAG must then
    /// hold a block.
    pub fn get_stats(&self) -> (r: GHOSTDAGStats)
        requires
            self.wf(),
            self.attached() matches Some(d) ==> d.blocks().len() > 0,
        ensures
            r.k_parameter as nat == self.k_param(),
            self.attached() is None ==> r.total_blocks == 0 && r.blue_blocks == 0 && r.red_blocks == 0 && r.cache_size == 0,
            self.attached() matches Some(d) ==> r.total_blocks == d.blocks().len() && r.cache_size == self.cache().len()
                && r.blue_blocks + r.red_blocks == r.total_blocks
                && exists|t: BlockHash| #[trigger] is_tip_of(d.blocks(), t)
                    && r.blue_blocks == blue_set_of(d.blocks(), t, self.k_param()).len()
                    && r.red_blocks == red_set_of(d.blocks(), t, self.k_param()).len(),
    {
        match &self.dag {
            Some(dag) => {
                let tips = dag.get_tips();
                proof {
                    dag.lemma_wf();
                    lemma_last_is_tip(dag.blocks());
                    let h = dag.blocks()[dag.blocks().len() - 1].hash;
                    assert(tips@.contains(h));
                }
                let t = tips[0];
                proof {
                    assert(tips@.contains(t)) by { assert(tips@[0] == t); }
                    lemma_blue_red_partition(dag.blocks(), t, self.k_param());
                }
                let blue = self.blue_set.count_blue_blocks(dag, &t);
                let red = self.blue_set.count_red_blocks(dag, &t);
                GHOSTDAGStats {
                    k_parameter: self.k,
                    total_blocks: dag.block_count(),
                    blue_blocks: blue,
                    red_blocks: red,
                    cache_size: self.blue_score_cache.len(),
                }
            },
            None => GHOSTDAGStats { k_parameter: self.k, total_blocks: 0, blue_blocks: 0, red_blocks: 0, cache_size: 0 },
        }
    }

    /// The blue score of every block of the attached DAG, each block once.
    /// Fails with no DAG attached.
    pub fn get_all_blue_scores(&self) -> (r: Result<Vec<(BlockHash, u64)>, String>)
        requires
            self.wf(),
        ensures
            r is Err <==> self.attached() is None,
            r matches Err(m) ==> m@ == "DAG not attached"@,
            r matches Ok(v) ==> self.attached() matches Some(d) && v@.len() == d.blocks().len()
                && (forall|i: int, j: int| 0 <= i < v@.len() && 0 <= j < v@.len() && i != j ==> #[trigger] v@[i].0 != #[trigger] v@[j].0)
                && (forall|i: int| 0 <= i < v@.len() ==> has_hash(d.blocks(), #[trigger] v@[i].0)
                    && v@[i].1 == blue_score_spec(d.blocks(), v@[i].0, self.k_param()))
                && (forall|x: BlockHash| has_hash(d.blocks(), x) ==> exists|i: int| 0 <= i < v@.len() && #[trigger] v@[i].0 == x),
    {
        let dag = match &self.dag {
            None => {
                return Err(String::from_str("DAG not attached"));
            },
            Some(d) => d,
        };
        let ghost s = dag.blocks();
        let all = dag.get_topological_order();
        let mut scores: Vec<(BlockHash, u64)> = Vec::new();
        let mut i: usize = 0;
        while i < all.len()
            invariant
                self.wf(),
                self.attached() == Some(*dag),
                s == dag.blocks(),
                0 <= i <= all@.len(),
                scores@.len() == i,
                forall|j: int| 0 <= j < i ==> #[trigger] scores@[j].0 == all@[j]
                    && scores@[j].1 == blue_score_spec(s, all@[j], self.k_param()),
            decreases all@.len() - i,
        {
            let h = all[i];
            let score = match self.calculate_blue_score_immutable(dag, &h) {
                Ok(v) => v,
                Err(e) => {
                    return Err(e);
                },
            };
            scores.push((h, score));
            i = i + 1;
        }
        proof {
            assert forall|a: int, b: int| 0 <= a < scores@.len() && 0 <= b < scores@.len() && a != b implies #[trigger] scores@[a].0 != #[trigger] scores@[b].0 by {
                assert(scores@[a].0 == all@[a] && scores@[b].0 == all@[b]);
            }
            assert forall|j: int| 0 <= j < scores@.len() implies has_hash(s, #[trigger] scores@[j].0)
                && scores@[j].1 == blue_score_spec(s, scores@[j].0, self.k_param()) by {
                assert(scores@[j].0 == all@[j]);
                assert(all@.contains(all@[j]));
            }
            assert forall|x: BlockHash| has_hash(s, x) implies exists|j: int| 0 <= j < scores@.len() && #[trigger] scores@[j].0 == x by {
                assert(all@.contains(x));
                let j = choose|j: int| 0 <= j < all@.len() && all@[j] == x;
                assert(scores@[j].0 == all@[j]);
            }
        }
        Ok(scores)
    }

    /// The blue set relative to `reference_hash` in increasing hash order.
    /// Fails with no DAG attached.
    pub fn get_blue_blocks(&self, reference_hash: &BlockHash) -> (r: Result<Vec<BlockHash>, String>)
        requires
            self.wf(),
        ensures
            r is Err <==> self.attached() is None,
            r matches Ok(v) ==> self.attached() matches Some(d) && v@.no_duplicates() && sorted_strict(v@)
                && forall|x: BlockHash| v@.contains(x) <==> blue_set_of(d.blocks(), *reference_hash, self.k_param()).contains(x),
    {
        match &self.dag {
            None => Err("DAG not attached".to_string()),
            Some(dag) => Ok(self.blue_set.get_blue_blocks(dag, reference_hash)),
        }
    }

    /// The red set relative to `reference_hash` in increasing hash order.
    /// Fails with no DAG attached.
    pub fn get_red_blocks(&self, reference_hash: &BlockHash) -> (r: Result<Vec<BlockHash>, String>)
        requires
            self.wf(),
        ensures
            r is Err <==> self.attached() is None,
            r matches Ok(v) ==> self.attached() matches Some(d) && v@.no_duplicates() && sorted_strict(v@)
                && forall|x: BlockHash| v@.contains(x) <==> red_set_of(d.blocks(), *reference_hash, self.k_param()).contains(x),
    {
        match &self.dag {
            None => Err("DAG not attached".to_string()),
            Some(dag) => Ok(self.blue_set.get_red_blocks(dag, reference_hash)),
        }
    }
}

} // verus!
