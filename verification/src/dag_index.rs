//! Parent-to-children index and tip set of a block DAG, with the
//! traversals built on them.
use vstd::prelude::*;
use crate::hashing::{BlockHash, hash_eq, contains_hash, copy_hashes};
use crate::block::Block;
use crate::storage::{
    BlockStore, has_hash, distinct_hashes, index_of, parents_of, in_parent_closure, is_ancestor_of, closed_under_parents,
    parent_closure, covers, lemma_index_of, lemma_nodup_subset_len, find_block, get_parents_of,
};
use crate::dag_traversal::hash_rank;

verus! {

/// Some block of `s` lists `h` as a parent.
pub open spec fn is_some_parent(s: Seq<Block>, h: BlockHash) -> bool {
    exists|i: int| 0 <= i < s.len() && #[trigger] s[i].header.parent_hashes@.contains(h)
}

/// `h` is a tip of `s`: a stored block no stored block builds on.
pub open spec fn is_tip_of(s: Seq<Block>, h: BlockHash) -> bool {
    has_hash(s, h) && !is_some_parent(s, h)
}

/// `c` is a child of `p` in `s`.
pub open spec fn is_child_of(s: Seq<Block>, p: BlockHash, c: BlockHash) -> bool {
    has_hash(s, c) && parents_of(s, c).contains(p)
}

/// Every parent of every block is stored at an earlier position.
pub open spec fn parents_precede(s: Seq<Block>) -> bool {
    forall|i: int, p: BlockHash|
        0 <= i < s.len() && #[trigger] s[i].header.parent_hashes@.contains(p) ==> exists|j: int|
            0 <= j < i && s[j].hash == p
}

/// The blocks reached from `h` in exactly `k` parent links.
pub open spec fn layer(s: Seq<Block>, h: BlockHash, k: nat) -> Set<BlockHash>
    decreases k,
{
    if k == 0 {
        Set::empty().insert(h)
    } else {
        Set::new(|p: BlockHash| exists|x: BlockHash| #[trigger] layer(s, h, (k - 1) as nat).contains(x) && parents_of(s, x).contains(p))
    }
}

/// `d` is the length of the longest parent chain from `h`: some block is
/// `d` links away and none is `d + 1` links away.
pub open spec fn depth_is(s: Seq<Block>, h: BlockHash, d: nat) -> bool {
    (exists|x: BlockHash| #[trigger] layer(s, h, d).contains(x)) && !(exists|x: BlockHash| #[trigger] layer(s, h, d + 1).contains(x))
}

/// `x` is `h1` or an ancestor of it, and `h2` or an ancestor of it.
pub open spec fn lca_candidate(s: Seq<Block>, h1: BlockHash, h2: BlockHash, x: BlockHash) -> bool {
    (x == h1 || is_ancestor_of(s, x, h1)) && in_parent_closure(s, seq![h2], x)
}

/// `c` is a recorded child of one of the first `i` hashes of `ps`.
pub open spec fn prefix_child(idx: &DAGIndex, ps: Seq<BlockHash>, i: int, c: BlockHash) -> bool {
    exists|k: int| 0 <= k < i && #[trigger] idx.children_of(ps[k]).contains(c)
}

/// `x` is among the first `n` elements of `s`.
pub open spec fn in_prefix(s: Seq<BlockHash>, n: int, x: BlockHash) -> bool {
    exists|t: int| 0 <= t < n && #[trigger] s[t] == x
}

/// Growing a prefix by one element.
pub proof fn lemma_in_prefix_step(s: Seq<BlockHash>, n: int)
    requires
        0 <= n < s.len(),
    ensures
        forall|x: BlockHash| #[trigger] in_prefix(s, n + 1, x) <==> (in_prefix(s, n, x) || x == s[n]),
{
    assert forall|x: BlockHash| #[trigger] in_prefix(s, n + 1, x) <==> (in_prefix(s, n, x) || x == s[n]) by {
        if in_prefix(s, n + 1, x) {
            let t = choose|t: int| 0 <= t < n + 1 && #[trigger] s[t] == x;
            if t < n {
                assert(in_prefix(s, n, x));
            }
        }
        if x == s[n] {
            assert(s[n] == x);
        }
    }
}

/// Each element's parents occur before it.
pub open spec fn parents_earlier(order: Seq<BlockHash>, s: Seq<Block>) -> bool {
    forall|k: int, p: BlockHash|
        0 <= k < order.len() && #[trigger] parents_of(s, order[k]).contains(p) ==> exists|j: int| 0 <= j < k && order[j] == p
}

/// All parents of `b` are placed in `order`.
pub open spec fn parents_placed(b: Block, order: Seq<BlockHash>) -> bool {
    forall|p: BlockHash| #[trigger] b.header.parent_hashes@.contains(p) ==> order.contains(p)
}

/// Every stored block whose parents are all placed is placed.
pub open spec fn placed_closed(order: Seq<BlockHash>, s: Seq<Block>) -> bool {
    forall|k: int| 0 <= k < s.len() && parents_placed(s[k], order) ==> order.contains(#[trigger] s[k].hash)
}

/// `order` lists stored blocks once each, parents first, and is closed:
/// every block whose parents are all listed is listed.
pub open spec fn is_topological_closure(order: Seq<BlockHash>, s: Seq<Block>) -> bool {
    &&& order.no_duplicates()
    &&& forall|x: BlockHash| order.contains(x) ==> has_hash(s, x)
    &&& parents_earlier(order, s)
    &&& placed_closed(order, s)
}

/// Whether every hash of `hs` occurs in `order`.
pub fn all_placed(hs: &Vec<BlockHash>, order: &Vec<BlockHash>) -> (r: bool)
    ensures
        r == forall|p: BlockHash| hs@.contains(p) ==> order@.contains(p),
{
    let mut i: usize = 0;
    while i < hs.len()
        invariant
            0 <= i <= hs@.len(),
            forall|t: int| 0 <= t < i ==> order@.contains(#[trigger] hs@[t]),
        decreases hs@.len() - i,
    {
        if !contains_hash(order, &hs[i]) {
            assert(hs@.contains(hs@[i as int]));
            return false;
        }
        i = i + 1;
    }
    proof {
        assert forall|p: BlockHash| hs@.contains(p) implies order@.contains(p) by {
            let t = choose|t: int| 0 <= t < hs@.len() && hs@[t] == p;
            assert(order@.contains(hs@[t]));
        }
    }
    true
}

/// Position of `k` among `keys`.
pub open spec fn key_pos(keys: Seq<BlockHash>, k: BlockHash) -> int {
    choose|i: int| 0 <= i < keys.len() && keys[i] == k
}

/// Parent-to-children lookup and the current tips.
#[derive(Debug)]
pub struct DAGIndex {
    keys: Vec<BlockHash>,
    children: Vec<Vec<BlockHash>>,
    tips: Vec<BlockHash>,
}

/// Every child of a member of `set` is in `set`.
pub open spec fn closed_under_children(idx: &DAGIndex, set: Set<BlockHash>) -> bool {
    forall|x: BlockHash, c: BlockHash| set.contains(x) && #[trigger] idx.children_of(x).contains(c) ==> set.contains(c)
}

/// `x` is in the smallest child-closed set containing `starts`.
pub open spec fn in_child_closure(idx: &DAGIndex, starts: Seq<BlockHash>, x: BlockHash) -> bool {
    forall|set: Set<BlockHash>| #[trigger] closed_under_children(idx, set) && covers(starts, set) ==> set.contains(x)
}

/// The index describes exactly the parent links and tips of `s`.
pub open spec fn index_matches(idx: &DAGIndex, s: Seq<Block>) -> bool {
    &&& forall|p: BlockHash, c: BlockHash| #[trigger] idx.children_of(p).contains(c) <==> is_child_of(s, p, c)
    &&& forall|h: BlockHash| #[trigger] idx.tips_view().contains(h) <==> is_tip_of(s, h)
}


/// In a store the index describes, `x` is reached from `a` by child links
/// exactly when `a` is an ancestor of `x`.
pub proof fn lemma_descendant_iff_ancestor(idx: &DAGIndex, s: Seq<Block>, a: BlockHash, x: BlockHash)
    requires
        index_matches(idx, s),
    ensures
        in_child_closure(idx, idx.children_of(a), x) <==> is_ancestor_of(s, a, x),
{
    let t = Set::new(|y: BlockHash| is_ancestor_of(s, a, y));
    assert(covers(idx.children_of(a), t)) by {
        assert forall|c: BlockHash| #[trigger] idx.children_of(a).contains(c) implies t.contains(c) by {
            assert(is_child_of(s, a, c));
            assert forall|set: Set<BlockHash>| #[trigger] crate::storage::closed_under_parents(s, set) && covers(parents_of(s, c), set) implies set.contains(a) by {
                assert(parents_of(s, c).contains(a));
            }
        }
    }
    assert(closed_under_children(idx, t)) by {
        assert forall|y: BlockHash, c: BlockHash| t.contains(y) && #[trigger] idx.children_of(y).contains(c) implies t.contains(c) by {
            assert(is_child_of(s, y, c));
            assert forall|set: Set<BlockHash>| #[trigger] crate::storage::closed_under_parents(s, set) && covers(parents_of(s, c), set) implies set.contains(a) by {
                assert(parents_of(s, c).contains(y));
                assert(set.contains(y));
                assert(covers(parents_of(s, y), set)) by {
                    assert forall|q: BlockHash| #[trigger] parents_of(s, y).contains(q) implies set.contains(q) by {}
                }
            }
        }
    }
    if in_child_closure(idx, idx.children_of(a), x) {
        assert(t.contains(x));
    }
    if is_ancestor_of(s, a, x) && !in_child_closure(idx, idx.children_of(a), x) {
        let d = Set::new(|y: BlockHash| in_child_closure(idx, idx.children_of(a), y));
        let other = Set::new(|y: BlockHash| !d.contains(y) && y != a);
        assert(crate::storage::closed_under_parents(s, other)) by {
            assert forall|y: BlockHash, p: BlockHash| other.contains(y) && #[trigger] parents_of(s, y).contains(p) implies other.contains(p) by {
                assert(has_hash(s, y));
                assert(is_child_of(s, p, y));
                assert(idx.children_of(p).contains(y));
                if p == a {
                    assert(in_child_closure(idx, idx.children_of(a), y));
                }
                if d.contains(p) {
                    DAGIndex::lemma_child_closure_step_pub(idx, idx.children_of(a), p, y);
                }
            }
        }
        assert(covers(parents_of(s, x), other)) by {
            assert forall|p: BlockHash| #[trigger] parents_of(s, x).contains(p) implies other.contains(p) by {
                assert(has_hash(s, x));
                assert(is_child_of(s, p, x));
                assert(idx.children_of(p).contains(x));
                if p == a {
                    assert(in_child_closure(idx, idx.children_of(a), x));
                }
                if d.contains(p) {
                    DAGIndex::lemma_child_closure_step_pub(idx, idx.children_of(a), p, x);
                }
            }
        }
        assert(other.contains(a));
    }
}

/// Some block listed in `cur` has `p` as a parent.
pub open spec fn parent_of_some(s: Seq<Block>, cur: Seq<BlockHash>, p: BlockHash) -> bool {
    exists|t: int| 0 <= t < cur.len() && #[trigger] parents_of(s, cur[t]).contains(p)
}

/// The parents of the listed blocks, each once.
pub fn next_layer(blocks: &Vec<Block>, current: &Vec<BlockHash>) -> (next: Vec<BlockHash>)
    requires
        distinct_hashes(blocks@),
    ensures
        next@.no_duplicates(),
        forall|p: BlockHash| #[trigger] next@.contains(p) <==> parent_of_some(blocks@, current@, p),
{
    let ghost s = blocks@;
    let mut next: Vec<BlockHash> = Vec::new();
    let mut i: usize = 0;
    while i < current.len()
        invariant
            s == blocks@,
            distinct_hashes(s),
            0 <= i <= current@.len(),
            next@.no_duplicates(),
            forall|p: BlockHash| #[trigger] next@.contains(p) <==> parent_of_some(s, current@.take(i as int), p),
        decreases current@.len() - i,
    {
        let parents = get_parents_of(blocks, &current[i]);
        let ghost before = next@;
        let mut m: usize = 0;
        while m < parents.len()
            invariant
                s == blocks@,
                distinct_hashes(s),
                0 <= i < current@.len(),
                parents@ == parents_of(s, current@[i as int]),
                0 <= m <= parents@.len(),
                next@.no_duplicates(),
                forall|p: BlockHash| #[trigger] next@.contains(p) <==> (before.contains(p) || parents@.take(m as int).contains(p)),
            decreases parents@.len() - m,
        {
            let p = parents[m];
            let ghost old_n = next@;
            if !contains_hash(&next, &p) {
                next.push(p);
                proof {
                    assert forall|a: int, b: int| 0 <= a < b < next@.len() implies next@[a] != next@[b] by {
                        if b == next@.len() - 1 {
                            assert(old_n.contains(next@[a]));
                        }
                    }
                }
            }
            proof {
                assert(parents@.take(m + 1) =~= parents@.take(m as int).push(p));
                assert forall|x: BlockHash| #[trigger] next@.contains(x) <==> (before.contains(x) || parents@.take(m + 1).contains(x)) by {
                    if x == p {
                        assert(parents@.take(m + 1)[m as int] == p);
                        if old_n.contains(x) {
                            let t = choose|t: int| 0 <= t < old_n.len() && old_n[t] == x;
                            assert(next@[t] == x);
                        } else {
                            assert(next@[next@.len() - 1] == x);
                        }
                    } else {
                        assert(next@.contains(x) == old_n.contains(x)) by {
                            if next@.contains(x) {
                                let t = choose|t: int| 0 <= t < next@.len() && next@[t] == x;
                                if t < old_n.len() { assert(old_n[t] == x); }
                            }
                            if old_n.contains(x) {
                                let t = choose|t: int| 0 <= t < old_n.len() && old_n[t] == x;
                                assert(next@[t] == x);
                            }
                        }
                        assert(parents@.take(m + 1).contains(x) == parents@.take(m as int).contains(x)) by {
                            if parents@.take(m + 1).contains(x) {
                                let pm = parents@.take(m + 1);
                                let t = choose|t: int| 0 <= t < pm.len() && #[trigger] pm[t] == x;
                                assert(t < m);
                                assert(parents@.take(m as int)[t] == x);
                            }
                            if parents@.take(m as int).contains(x) {
                                let pk = parents@.take(m as int);
                                let t = choose|t: int| 0 <= t < pk.len() && #[trigger] pk[t] == x;
                                assert(parents@.take(m + 1)[t] == x);
                            }
                        }
                    }
                }
            }
            m = m + 1;
        }
        proof {
            assert(parents@.take(parents@.len() as int) =~= parents@);
            assert forall|x: BlockHash| #[trigger] next@.contains(x) <==> parent_of_some(s, current@.take(i + 1), x) by {
                let ci = current@.take(i as int);
                let cj = current@.take(i + 1);
                assert(next@.contains(x) <==> (parent_of_some(s, ci, x) || parents@.contains(x)));
                if parent_of_some(s, ci, x) {
                    let t = choose|t: int| 0 <= t < ci.len() && #[trigger] parents_of(s, ci[t]).contains(x);
                    assert(cj[t] == ci[t]);
                }
                if parents@.contains(x) {
                    assert(cj[i as int] == current@[i as int]);
                    assert(parents_of(s, cj[i as int]).contains(x));
                }
                if parent_of_some(s, cj, x) {
                    let t = choose|t: int| 0 <= t < cj.len() && #[trigger] parents_of(s, cj[t]).contains(x);
                    if t < i {
                        assert(ci[t] == cj[t]);
                        assert(parents_of(s, ci[t]).contains(x));
                    } else {
                        assert(cj[t] == current@[i as int]);
                    }
                }
            }
        }
        i = i + 1;
    }
    proof {
        assert(current@.take(current@.len() as int) =~= current@);
    }
    next
}

/// What is reached from a list of hashes by parent links is the union,
/// over the hashes, of each hash with its ancestors.
pub proof fn lemma_reachable_is_union(s: Seq<Block>, hashes: Seq<BlockHash>, x: BlockHash)
    ensures
        in_parent_closure(s, hashes, x) <==> exists|h: BlockHash| #[trigger] hashes.contains(h) && (x == h || is_ancestor_of(s, x, h)),
{
    let u = Set::new(|y: BlockHash| exists|h: BlockHash| #[trigger] hashes.contains(h) && (y == h || is_ancestor_of(s, y, h)));
    assert(covers(hashes, u)) by {
        assert forall|h: BlockHash| #[trigger] hashes.contains(h) implies u.contains(h) by {}
    }
    assert(closed_under_parents(s, u)) by {
        assert forall|y: BlockHash, p: BlockHash| u.contains(y) && #[trigger] parents_of(s, y).contains(p) implies u.contains(p) by {
            let h = choose|h: BlockHash| #[trigger] hashes.contains(h) && (y == h || is_ancestor_of(s, y, h));
            if y == h {
                assert forall|t: Set<BlockHash>| #[trigger] closed_under_parents(s, t) && covers(parents_of(s, h), t) implies t.contains(p) by {}
                assert(is_ancestor_of(s, p, h));
            } else {
                assert forall|t: Set<BlockHash>| #[trigger] closed_under_parents(s, t) && covers(parents_of(s, y), t) implies t.contains(p) by {}
                assert(is_ancestor_of(s, p, y));
                crate::storage::lemma_ancestor_transitive(s, p, y, h);
            }
        }
    }
    if exists|h: BlockHash| #[trigger] hashes.contains(h) && (x == h || is_ancestor_of(s, x, h)) {
        let h = choose|h: BlockHash| #[trigger] hashes.contains(h) && (x == h || is_ancestor_of(s, x, h));
        assert forall|t: Set<BlockHash>| #[trigger] closed_under_parents(s, t) && covers(hashes, t) implies t.contains(x) by {
            assert(t.contains(h));
            if x != h {
                assert(covers(parents_of(s, h), t)) by {
                    assert forall|q: BlockHash| #[trigger] parents_of(s, h).contains(q) implies t.contains(q) by {}
                }
            }
        }
    }
}

impl DAGIndex {
    /// The recorded children of `h` (empty when none are recorded).
    pub closed spec fn children_of(&self, h: BlockHash) -> Seq<BlockHash> {
        if self.keys@.contains(h) {
            self.children@[key_pos(self.keys@, h)]@
        } else {
            Seq::empty()
        }
    }

    /// The recorded tips.
    pub closed spec fn tips_view(&self) -> Seq<BlockHash> {
        self.tips@
    }

    /// All recorded children, entry by entry.
    closed spec fn all_children(&self) -> Seq<BlockHash> {
        self.all_children_upto(self.children@.len() as int)
    }

    closed spec fn all_children_upto(&self, n: int) -> Seq<BlockHash>
        decreases n,
    {
        if n <= 0 {
            Seq::empty()
        } else {
            self.all_children_upto(n - 1) + self.children@[n - 1]@
        }
    }

    /// Representation invariant: one entry per key, tips listed once.
    pub closed spec fn wf(&self) -> bool {
        &&& self.keys@.len() == self.children@.len()
        &&& self.keys@.no_duplicates()
        &&& self.tips@.no_duplicates()
    }

    proof fn lemma_key_pos(&self, i: int)
        requires
            self.wf(),
            0 <= i < self.keys@.len(),
        ensures
            key_pos(self.keys@, self.keys@[i]) == i,
            self.children_of(self.keys@[i]) == self.children@[i]@,
    {
        assert(self.keys@.contains(self.keys@[i]));
        let j = key_pos(self.keys@, self.keys@[i]);
        assert(self.keys@[j] == self.keys@[i]);
    }

    proof fn lemma_all_children_contains(&self, n: int, e: int, c: BlockHash)
        requires
            0 <= e < n <= self.children@.len(),
            self.children@[e]@.contains(c),
        ensures
            self.all_children_upto(n).contains(c),
        decreases n,
    {
        if e == n - 1 {
            let ch = self.children@[e]@;
            let k = choose|k: int| 0 <= k < ch.len() && ch[k] == c;
            assert(self.all_children_upto(n)[self.all_children_upto(n - 1).len() + k] == c);
        } else {
            self.lemma_all_children_contains(n - 1, e, c);
            let prev = self.all_children_upto(n - 1);
            let k = choose|k: int| 0 <= k < prev.len() && prev[k] == c;
            assert(self.all_children_upto(n)[k] == c);
        }
    }

    proof fn lemma_child_in_all(&self, x: BlockHash, c: BlockHash)
        requires
            self.wf(),
            self.children_of(x).contains(c),
        ensures
            self.all_children().contains(c),
    {
        let e = key_pos(self.keys@, x);
        self.lemma_all_children_contains(self.children@.len() as int, e, c);
    }

    /// An empty index.
    pub fn new() -> (r: DAGIndex)
        ensures
            r.wf(),
            forall|h: BlockHash| r.children_of(h) == Seq::<BlockHash>::empty(),
            r.tips_view() == Seq::<BlockHash>::empty(),
            index_matches(&r, Seq::empty()),
    {
        DAGIndex { keys: Vec::new(), children: Vec::new(), tips: Vec::new() }
    }

    fn find_key(&self, h: &BlockHash) -> (r: Option<usize>)
        requires
            self.wf(),
        ensures
            r is Some <==> self.keys@.contains(*h),
            r matches Some(i) ==> i < self.keys@.len() && self.keys@[i as int] == *h && key_pos(self.keys@, *h) == i,
    {
        let mut i: usize = 0;
        while i < self.keys.len()
            invariant
                self.wf(),
                0 <= i <= self.keys@.len(),
                forall|j: int| 0 <= j < i ==> self.keys@[j] != *h,
            decreases self.keys@.len() - i,
        {
            if hash_eq(&self.keys[i], h) {
                proof { self.lemma_key_pos(i as int); }
                return Some(i);
            }
            i = i + 1;
        }
        None
    }

    /// Records `c` as a child of `p`.
    fn add_child(&mut self, p: &BlockHash, c: &BlockHash)
        requires
            old(self).wf(),
        ensures
            final(self).wf(),
            final(self).tips_view() == old(self).tips_view(),
            final(self).children_of(*p) == old(self).children_of(*p).push(*c),
            forall|x: BlockHash| x != *p ==> final(self).children_of(x) == old(self).children_of(x),
    {
        match self.find_key(p) {
            Some(i) => {
                let mut v = copy_hashes(&self.children[i]);
                v.push(*c);
                self.children.set(i, v);
                proof {
                    self.lemma_key_pos(i as int);
                    assert forall|x: BlockHash| x != *p implies self.children_of(x) == old(self).children_of(x) by {
                        if self.keys@.contains(x) {
                            let j = choose|j: int| 0 <= j < self.keys@.len() && self.keys@[j] == x;
                            self.lemma_key_pos(j);
                            old(self).lemma_key_pos(j);
                        }
                    }
                }
            },
            None => {
                self.keys.push(*p);
                let mut v: Vec<BlockHash> = Vec::new();
                v.push(*c);
                self.children.push(v);
                proof {
                    self.lemma_key_pos(self.keys@.len() - 1);
                    assert(v@ =~= Seq::<BlockHash>::empty().push(*c));
                    assert forall|x: BlockHash| x != *p implies self.children_of(x) == old(self).children_of(x) by {
                        if self.keys@.contains(x) {
                            let j = choose|j: int| 0 <= j < self.keys@.len() && self.keys@[j] == x;
                            self.lemma_key_pos(j);
                            old(self).lemma_key_pos(j);
                        } else {
                            assert(!old(self).keys@.contains(x)) by {
                                if old(self).keys@.contains(x) {
                                    let j = choose|j: int| 0 <= j < old(self).keys@.len() && old(self).keys@[j] == x;
                                    assert(self.keys@[j] == x);
                                }
                            }
                        }
                    }
                }
            },
        }
    }

    /// Adds `h` to the tips unless it is there.
    fn add_tip(&mut self, h: &BlockHash)
        requires
            old(self).wf(),
        ensures
            final(self).wf(),
            forall|x: BlockHash| final(self).children_of(x) == old(self).children_of(x),
            forall|x: BlockHash| final(self).tips_view().contains(x) <==> (old(self).tips_view().contains(x) || x == *h),
    {
        if !contains_hash(&self.tips, h) {
            let ghost old_t = self.tips@;
            self.tips.push(*h);
            proof {
                assert forall|x: BlockHash| self.tips_view().contains(x) <==> (old(self).tips_view().contains(x) || x == *h) by {
                    if old_t.contains(x) {
                        let j = choose|j: int| 0 <= j < old_t.len() && old_t[j] == x;
                        assert(self.tips@[j] == x);
                    }
                    if self.tips@.contains(x) && x != *h {
                        let j = choose|j: int| 0 <= j < self.tips@.len() && self.tips@[j] == x;
                        assert(old_t[j] == x);
                    }
                    if x == *h {
                        assert(self.tips@[self.tips@.len() - 1] == x);
                    }
                }
            }
        }
    }

    /// Removes `h` from the tips.
    fn remove_tip(&mut self, h: &BlockHash)
        requires
            old(self).wf(),
        ensures
            final(self).wf(),
            forall|x: BlockHash| final(self).children_of(x) == old(self).children_of(x),
            forall|x: BlockHash| final(self).tips_view().contains(x) <==> (old(self).tips_view().contains(x) && x != *h),
    {
        let mut kept: Vec<BlockHash> = Vec::new();
        let mut i: usize = 0;
        while i < self.tips.len()
            invariant
                old(self).wf(),
                self.tips@ == old(self).tips@,
                0 <= i <= self.tips@.len(),
                kept@.no_duplicates(),
                forall|x: BlockHash| kept@.contains(x) <==> (self.tips@.subrange(0, i as int).contains(x) && x != *h),
            decreases self.tips@.len() - i,
        {
            let t = self.tips[i];
            let ghost old_k = kept@;
            proof {
                let sub1 = self.tips@.subrange(0, i + 1);
                let sub0 = self.tips@.subrange(0, i as int);
                assert forall|x: BlockHash| sub1.contains(x) <==> (sub0.contains(x) || x == t) by {
                    if sub1.contains(x) {
                        let j = choose|j: int| 0 <= j < i + 1 && sub1[j] == x;
                        if j < i { assert(sub0[j] == x); }
                    }
                    if sub0.contains(x) {
                        let j = choose|j: int| 0 <= j < i && sub0[j] == x;
                        assert(sub1[j] == x);
                    }
                    if x == t { assert(sub1[i as int] == x); }
                }
            }
            if !hash_eq(&t, h) {
                proof {
                    assert(!old_k.contains(t)) by {
                        if old_k.contains(t) {
                            let sub0 = self.tips@.subrange(0, i as int);
                            assert(sub0.contains(t));
                            let j = choose|j: int| 0 <= j < i && sub0[j] == t;
                            assert(self.tips@[j] == self.tips@[i as int]);
                        }
                    }
                }
                kept.push(t);
                proof {
                    assert forall|x: BlockHash| kept@.contains(x) <==> (old_k.contains(x) || x == t) by {
                        if old_k.contains(x) {
                            let j = choose|j: int| 0 <= j < old_k.len() && old_k[j] == x;
                            assert(kept@[j] == x);
                        }
                        if kept@.contains(x) && x != t {
                            let j = choose|j: int| 0 <= j < kept@.len() && kept@[j] == x;
                            assert(old_k[j] == x);
                        }
                        if x == t { assert(kept@[kept@.len() - 1] == x); }
                    }
                }
            }
            proof {
                let sub1 = self.tips@.subrange(0, i + 1);
                let sub0 = self.tips@.subrange(0, i as int);
                assert forall|x: BlockHash| kept@.contains(x) <==> (sub1.contains(x) && x != *h) by {
                    assert(old_k.contains(x) <==> (sub0.contains(x) && x != *h));
                    assert(sub1.contains(x) <==> (sub0.contains(x) || x == t));
                }
            }
            i = i + 1;
        }
        assert(self.tips@.subrange(0, self.tips@.len() as int) =~= self.tips@);
        self.tips = kept;
    }

    /// Builds the index of all blocks of a store.
    pub fn build_from_store(store: &BlockStore) -> (r: DAGIndex)
        requires
            store.wf(),
        ensures
            r.wf(),
            index_matches(&r, store@),
    {
        let blocks = store.blocks();
        let ghost s = store@;
        let mut index = DAGIndex::new();
        let mut i: usize = 0;
        while i < blocks.len()
            invariant
                s == blocks@,
                distinct_hashes(s),
                0 <= i <= s.len(),
                index.wf(),
                forall|p: BlockHash, c: BlockHash| #[trigger] index.children_of(p).contains(c) <==> (exists|k: int|
                    0 <= k < i && s[k].hash == c && #[trigger] s[k].header.parent_hashes@.contains(p)),
                forall|h: BlockHash| #[trigger] index.tips_view().contains(h) <==> ((exists|k: int| 0 <= k < i && s[k].hash == h) && !(exists|k: int| 0 <= k < i && #[trigger] s[k].header.parent_hashes@.contains(h))),
            decreases s.len() - i,
        {
            let b = &blocks[i];
            let ghost before = index;
            // children: add b under each of its parents
            let mut m: usize = 0;
            while m < b.header.parent_hashes.len()
                invariant
                    s == blocks@,
                    0 <= i < s.len(),
                    *b == s[i as int],
                    0 <= m <= b.header.parent_hashes@.len(),
                    index.wf(),
                    index.tips_view() == before.tips_view(),
                    forall|p: BlockHash, c: BlockHash| #[trigger] index.children_of(p).contains(c) <==> (before.children_of(p).contains(c) || (c == b.hash && b.header.parent_hashes@.subrange(0, m as int).contains(p))),
                decreases b.header.parent_hashes@.len() - m,
            {
                let p = b.header.parent_hashes[m];
                let ghost mid = index;
                index.add_child(&p, &b.hash);
                proof {
                    assert forall|q: BlockHash, c: BlockHash| #[trigger] index.children_of(q).contains(c) <==> (before.children_of(q).contains(c) || (c == b.hash && b.header.parent_hashes@.subrange(0, m + 1).contains(q))) by {
                        let sub1 = b.header.parent_hashes@.subrange(0, m + 1);
                        let sub0 = b.header.parent_hashes@.subrange(0, m as int);
                        if sub1.contains(q) {
                            let j = choose|j: int| 0 <= j < m + 1 && sub1[j] == q;
                            if j < m { assert(sub0[j] == q); }
                        }
                        if sub0.contains(q) {
                            let j = choose|j: int| 0 <= j < m && sub0[j] == q;
                            assert(sub1[j] == q);
                        }
                        if q == p {
                            assert(sub1[m as int] == q);
                            if index.children_of(q).contains(c) {
                                let j = choose|j: int| 0 <= j < index.children_of(q).len() && index.children_of(q)[j] == c;
                                if j < mid.children_of(q).len() {
                                    assert(mid.children_of(q)[j] == c);
                                }
                            }
                            if mid.children_of(q).contains(c) {
                                let j = choose|j: int| 0 <= j < mid.children_of(q).len() && mid.children_of(q)[j] == c;
                                assert(index.children_of(q)[j] == c);
                            }
                            assert(index.children_of(q)[mid.children_of(q).len() as int] == b.hash);
                        }
                    }
                }
                m = m + 1;
            }
            assert(b.header.parent_hashes@.subrange(0, m as int) =~= b.header.parent_hashes@);
            let ghost with_children = index;
            // tips: b becomes a tip unless an earlier block builds on it; its parents stop being tips
            let mut built_on = false;
            let mut k: usize = 0;
            while k < i
                invariant
                    s == blocks@,
                    0 <= k <= i < s.len(),
                    *b == s[i as int],
                    built_on == (exists|j: int| 0 <= j < k && #[trigger] s[j].header.parent_hashes@.contains(b.hash)),
                decreases i - k,
            {
                if contains_hash(&blocks[k].header.parent_hashes, &b.hash) {
                    built_on = true;
                }
                k = k + 1;
            }
            if !built_on {
                index.add_tip(&b.hash);
            }
            let ghost with_tip = index;
            let mut m2: usize = 0;
            while m2 < b.header.parent_hashes.len()
                invariant
                    s == blocks@,
                    0 <= i < s.len(),
                    *b == s[i as int],
                    0 <= m2 <= b.header.parent_hashes@.len(),
                    index.wf(),
                    forall|x: BlockHash| index.children_of(x) == with_children.children_of(x),
                    forall|x: BlockHash| index.tips_view().contains(x) <==> (with_tip.tips_view().contains(x) && !b.header.parent_hashes@.subrange(0, m2 as int).contains(x)),
                decreases b.header.parent_hashes@.len() - m2,
            {
                let p = b.header.parent_hashes[m2];
                index.remove_tip(&p);
                proof {
                    assert forall|x: BlockHash| b.header.parent_hashes@.subrange(0, m2 + 1).contains(x) <==> (b.header.parent_hashes@.subrange(0, m2 as int).contains(x) || x == p) by {
                        let sub1 = b.header.parent_hashes@.subrange(0, m2 + 1);
                        let sub0 = b.header.parent_hashes@.subrange(0, m2 as int);
                        if sub1.contains(x) {
                            let j = choose|j: int| 0 <= j < m2 + 1 && sub1[j] == x;
                            if j < m2 { assert(sub0[j] == x); }
                        }
                        if sub0.contains(x) {
                            let j = choose|j: int| 0 <= j < m2 && sub0[j] == x;
                            assert(sub1[j] == x);
                        }
                        if x == p { assert(sub1[m2 as int] == x); }
                    }
                }
                m2 = m2 + 1;
            }
            assert(b.header.parent_hashes@.subrange(0, m2 as int) =~= b.header.parent_hashes@);
            proof {
                assert forall|p: BlockHash, c: BlockHash| #[trigger] index.children_of(p).contains(c) <==> (exists|k: int|
                    0 <= k < i + 1 && s[k].hash == c && #[trigger] s[k].header.parent_hashes@.contains(p)) by {
                    if index.children_of(p).contains(c) && !before.children_of(p).contains(c) {
                        assert(s[i as int].hash == c && s[i as int].header.parent_hashes@.contains(p));
                    }
                }
                assert forall|h: BlockHash| #[trigger] index.tips_view().contains(h) <==> ((exists|k: int| 0 <= k < i + 1 && s[k].hash == h) && !(exists|k: int| 0 <= k < i + 1 && #[trigger] s[k].header.parent_hashes@.contains(h))) by {
                    if h == b.hash {
                        if built_on {
                            let j = choose|j: int| 0 <= j < i && #[trigger] s[j].header.parent_hashes@.contains(b.hash);
                            assert(s[j].header.parent_hashes@.contains(h));
                        }
                        if exists|k: int| 0 <= k < i && s[k].hash == h {
                            let k = choose|k: int| 0 <= k < i && s[k].hash == h;
                            assert(s[k].hash == s[i as int].hash);
                        }
                        if (exists|k: int| 0 <= k < i + 1 && #[trigger] s[k].header.parent_hashes@.contains(h)) {
                            let k = choose|k: int| 0 <= k < i + 1 && #[trigger] s[k].header.parent_hashes@.contains(h);
                            if k < i {
                                assert(built_on);
                            }
                        }
                    } else {
                        if (exists|k: int| 0 <= k < i + 1 && s[k].hash == h) {
                            let k = choose|k: int| 0 <= k < i + 1 && s[k].hash == h;
                            assert(k < i);
                        }
                        if (exists|k: int| 0 <= k < i + 1 && #[trigger] s[k].header.parent_hashes@.contains(h)) {
                            let k = choose|k: int| 0 <= k < i + 1 && #[trigger] s[k].header.parent_hashes@.contains(h);
                            if k < i {
                                assert(exists|k: int| 0 <= k < i && #[trigger] s[k].header.parent_hashes@.contains(h));
                            }
                        }
                    }
                }
            }
            i = i + 1;
        }
        proof {
            assert forall|p: BlockHash, c: BlockHash| #[trigger] index.children_of(p).contains(c) <==> is_child_of(s, p, c) by {
                if index.children_of(p).contains(c) {
                    let k = choose|k: int| 0 <= k < s.len() && s[k].hash == c && #[trigger] s[k].header.parent_hashes@.contains(p);
                    lemma_index_of(s, k);
                }
                if is_child_of(s, p, c) {
                    let k = index_of(s, c);
                    assert(s[k].header.parent_hashes@.contains(p));
                }
            }
            assert forall|h: BlockHash| #[trigger] index.tips_view().contains(h) <==> is_tip_of(s, h) by {}
        }
        index
    }


    /// The child closure is closed under child links.
    pub proof fn lemma_child_closure_step_pub(idx: &DAGIndex, starts: Seq<BlockHash>, x: BlockHash, c: BlockHash)
        requires
            in_child_closure(idx, starts, x),
            idx.children_of(x).contains(c),
        ensures
            in_child_closure(idx, starts, c),
    {
        idx.lemma_child_closure_step(starts, x, c);
    }

    proof fn lemma_child_closure_step(&self, starts: Seq<BlockHash>, x: BlockHash, c: BlockHash)
        requires
            in_child_closure(self, starts, x),
            self.children_of(x).contains(c),
        ensures
            in_child_closure(self, starts, c),
    {
        assert forall|set: Set<BlockHash>| #[trigger] closed_under_children(self, set) && covers(starts, set) implies set.contains(c) by {
            assert(set.contains(x));
        }
    }

        /// Breadth-first walk over child links from `starts`: every hash
        /// reached, each once, starts first, in the order first reached.
        pub fn child_closure(&self, starts: &Vec<BlockHash>) -> (r: Vec<BlockHash>)
            requires
                self.wf(),
            ensures
                r@.no_duplicates(),
                forall|x: BlockHash| r@.contains(x) <==> in_child_closure(self, starts@, x),
    {
            let mut visited: Vec<BlockHash> = Vec::new();
        // seed with the distinct starts
        let mut k: usize = 0;
        while k < starts.len()
            invariant
                0 <= k <= starts.len(),
                visited@.no_duplicates(),
                forall|j: int| 0 <= j < k ==> visited@.contains(#[trigger] starts@[j]),
                forall|x: BlockHash| visited@.contains(x) ==> starts@.contains(x),
            decreases starts.len() - k,
        {
            let h = starts[k];
            if !contains_hash(&visited, &h) {
                let ghost old_v = visited@;
                visited.push(h);
                proof {
                    assert forall|j: int| 0 <= j < k + 1 implies visited@.contains(#[trigger] starts@[j]) by {
                        if j < k {
                            assert(old_v.contains(starts@[j]));
                            let t = choose|t: int| 0 <= t < old_v.len() && old_v[t] == starts@[j];
                            assert(visited@[t] == starts@[j]);
                        } else {
                            assert(visited@[visited@.len() - 1] == h);
                        }
                    }
                    assert forall|x: BlockHash| visited@.contains(x) implies starts@.contains(x) by {
                        if x != h {
                            let t = choose|t: int| 0 <= t < visited@.len() && visited@[t] == x;
                            assert(old_v[t] == x);
                        } else {
                            assert(starts@[k as int] == h);
                        }
                    }
                }
            }
            k = k + 1;
        }
        proof {
            assert forall|x: BlockHash| starts@.contains(x) implies visited@.contains(x) by {
                let j = choose|j: int| 0 <= j < starts@.len() && starts@[j] == x;
                assert(visited@.contains(starts@[j]));
            }
        }
        let ghost base = visited@.len();
        let ghost bound = self.all_children();
        // every element is a start or occurs among the parents of the store
        let mut i: usize = 0;
        while i < visited.len()
            invariant
                self.wf(),
                bound == self.all_children(),
                0 <= i <= visited@.len(),
                base <= visited@.len(),
                visited@.no_duplicates(),
                forall|x: BlockHash| starts@.contains(x) ==> visited@.contains(x),
                forall|x: BlockHash| visited@.contains(x) ==> in_child_closure(self, starts@, x),
                forall|j: int| base <= j < visited@.len() ==> bound.contains(#[trigger] visited@[j]),
                forall|j: int, p: BlockHash| 0 <= j < i && #[trigger] self.children_of(visited@[j]).contains(p) ==> visited@.contains(p),
            decreases base + bound.len() - i,
        {
            proof {
                lemma_nodup_subset_len(visited@.subrange(base as int, visited@.len() as int), bound);
            }
            let cur = visited[i];
            let parents = self.get_children(&cur);
            let mut m: usize = 0;
            while m < parents.len()
                invariant
                    self.wf(),
                    bound == self.all_children(),
                    0 <= i < visited@.len(),
                    cur == visited@[i as int],
                    parents@ == self.children_of(cur),
                    0 <= m <= parents@.len(),
                    base <= visited@.len(),
                    visited@.no_duplicates(),
                    forall|x: BlockHash| starts@.contains(x) ==> visited@.contains(x),
                    forall|x: BlockHash| visited@.contains(x) ==> in_child_closure(self, starts@, x),
                    forall|j: int| base <= j < visited@.len() ==> bound.contains(#[trigger] visited@[j]),
                    forall|j: int, p: BlockHash| 0 <= j < i && #[trigger] self.children_of(visited@[j]).contains(p) ==> visited@.contains(p),
                    forall|q: int| 0 <= q < m ==> visited@.contains(#[trigger] parents@[q]),
                decreases parents.len() - m,
            {
                let p = parents[m];
                if !contains_hash(&visited, &p) {
                    proof {
                        assert(self.children_of(cur).contains(p));
                        assert(visited@.contains(visited@[i as int]));
                        self.lemma_child_closure_step(starts@, cur, p);
                        self.lemma_child_in_all(cur, p);
                    }
                    let ghost old_v = visited@;
                    visited.push(p);
                    proof {
                        assert forall|x: BlockHash| visited@.contains(x) implies in_child_closure(self, starts@, x) by {
                            if x != p {
                                let j = choose|j: int| 0 <= j < visited@.len() && visited@[j] == x;
                                assert(old_v[j] == x);
                                assert(old_v.contains(x));
                            }
                        }
                        assert forall|x: BlockHash| #[trigger] starts@.contains(x) implies visited@.contains(x) by {
                            assert(old_v.contains(x));
                            let j = choose|j: int| 0 <= j < old_v.len() && old_v[j] == x;
                            assert(visited@[j] == x);
                        }
                        assert forall|j: int, q: BlockHash| 0 <= j < i && #[trigger] self.children_of(visited@[j]).contains(q) implies visited@.contains(q) by {
                            assert(visited@[j] == old_v[j]);
                            assert(old_v.contains(q));
                            let t = choose|t: int| 0 <= t < old_v.len() && old_v[t] == q;
                            assert(visited@[t] == q);
                        }
                        assert forall|q: int| 0 <= q < m + 1 implies visited@.contains(#[trigger] parents@[q]) by {
                            if q < m {
                                assert(old_v.contains(parents@[q]));
                                let t = choose|t: int| 0 <= t < old_v.len() && old_v[t] == parents@[q];
                                assert(visited@[t] == parents@[q]);
                            } else {
                                assert(visited@[visited@.len() - 1] == p);
                            }
                        }
                    }
                }
                m = m + 1;
            }
            proof {
                assert forall|j: int, p: BlockHash| 0 <= j < i + 1 && #[trigger] self.children_of(visited@[j]).contains(p) implies visited@.contains(p) by {
                    if j == i {
                        let q = choose|q: int| 0 <= q < parents@.len() && parents@[q] == p;
                        assert(visited@.contains(parents@[q]));
                    }
                }
            }
            i = i + 1;
        }
        proof {
            let set = visited@.to_set();
            assert(closed_under_children(self, set)) by {
                assert forall|x: BlockHash, p: BlockHash| set.contains(x) && #[trigger] self.children_of(x).contains(p) implies set.contains(p) by {
                    let j = choose|j: int| 0 <= j < visited@.len() && visited@[j] == x;
                    assert(self.children_of(visited@[j]).contains(p));
                }
            }
            assert(covers(starts@, set));
            assert forall|x: BlockHash| in_child_closure(self, starts@, x) implies visited@.contains(x) by {
                assert(set.contains(x));
            }
        }
        visited
    }



    /// All descendants of `hash`: reached by one or more child links.
    pub fn get_all_descendants(&self, hash: &BlockHash, _store: &BlockStore) -> (r: Vec<BlockHash>)
        requires
            self.wf(),
        ensures
            r@.no_duplicates(),
            forall|x: BlockHash| r@.contains(x) <==> in_child_closure(self, self.children_of(*hash), x),
    {
        let kids = self.get_children(hash);
        self.child_closure(&kids)
    }

    /// All ancestors of `hash` in the store: reached by one or more parent links.
    pub fn get_all_ancestors(&self, hash: &BlockHash, store: &BlockStore) -> (r: Vec<BlockHash>)
        requires
            store.wf(),
        ensures
            r@.no_duplicates(),
            forall|x: BlockHash| r@.contains(x) <==> is_ancestor_of(store@, x, *hash),
    {
        let parents = store.get_parents(hash);
        parent_closure(store.blocks(), &parents)
    }

    /// Whether `ancestor_hash` is an ancestor of `block_hash` in the store.
    pub fn is_ancestor(&self, ancestor_hash: &BlockHash, block_hash: &BlockHash, store: &BlockStore) -> (r: bool)
        requires
            store.wf(),
        ensures
            r == is_ancestor_of(store@, *ancestor_hash, *block_hash),
    {
        let ancestors = self.get_all_ancestors(block_hash, store);
        contains_hash(&ancestors, ancestor_hash)
    }

    /// The given hashes and everything reached from them by parent links:
    /// each hash with its ancestors (see `lemma_reachable_is_union`).
    pub fn get_reachable_blocks(&self, hashes: &Vec<BlockHash>, store: &BlockStore) -> (r: Vec<BlockHash>)
        requires
            store.wf(),
        ensures
            r@.no_duplicates(),
            forall|x: BlockHash| r@.contains(x) <==> in_parent_closure(store@, hashes@, x),
    {
        parent_closure(store.blocks(), hashes)
    }

    /// The lowest common ancestor-or-self of the two blocks: among the
    /// blocks that are `hash1` or an ancestor of it and also `hash2` or an
    /// ancestor of it, the one stored last. When parents are stored before
    /// their children, no other such block descends from it. `None`
    /// exactly when there is none.
    pub fn find_lca(&self, hash1: &BlockHash, hash2: &BlockHash, store: &BlockStore) -> (r: Option<BlockHash>)
        requires
            store.wf(),
        ensures
            r matches Some(x) ==> lca_candidate(store@, *hash1, *hash2, x)
                && forall|y: BlockHash| #[trigger] lca_candidate(store@, *hash1, *hash2, y) ==> hash_rank(store@, y) <= hash_rank(store@, x),
            r is None ==> forall|x: BlockHash| !#[trigger] lca_candidate(store@, *hash1, *hash2, x),
            parents_precede(store@) ==> (r matches Some(x) ==> forall|y: BlockHash|
                #[trigger] lca_candidate(store@, *hash1, *hash2, y) && y != x ==> !is_ancestor_of(store@, x, y)),
    {
        let ancestors1 = self.get_all_ancestors(hash1, store);
        let mut start: Vec<BlockHash> = Vec::new();
        start.push(*hash2);
        assert(start@ =~= seq![*hash2]);
        let order = parent_closure(store.blocks(), &start);
        let stored = store.blocks();
        assert(stored.len() == stored@.len());
        let mut best: Option<BlockHash> = None;
        let mut best_rank: usize = 0;
        let mut i: usize = 0;
        while i < order.len()
            invariant
                store.wf(),
                stored@ == store@,
                store@.len() <= usize::MAX,
                0 <= i <= order@.len(),
                forall|x: BlockHash| ancestors1@.contains(x) <==> is_ancestor_of(store@, x, *hash1),
                forall|x: BlockHash| order@.contains(x) <==> in_parent_closure(store@, seq![*hash2], x),
                best is None ==> forall|j: int| 0 <= j < i ==> !(#[trigger] order@[j] == *hash1 || ancestors1@.contains(order@[j])),
                best matches Some(b) ==> lca_candidate(store@, *hash1, *hash2, b) && best_rank == hash_rank(store@, b)
                    && forall|j: int| 0 <= j < i && (#[trigger] order@[j] == *hash1 || ancestors1@.contains(order@[j]))
                        ==> hash_rank(store@, order@[j]) <= best_rank,
            decreases order@.len() - i,
        {
            let cur = order[i];
            if hash_eq(hash1, &cur) || contains_hash(&ancestors1, &cur) {
                assert(order@.contains(order@[i as int]));
                let rank: usize = match find_block(stored, &cur) {
                    Some(k) => k + 1,
                    None => 0,
                };
                if best.is_none() || rank > best_rank {
                    best = Some(cur);
                    best_rank = rank;
                }
            }
            i = i + 1;
        }
        proof {
            assert forall|y: BlockHash| #[trigger] lca_candidate(store@, *hash1, *hash2, y) implies
                (exists|j: int| 0 <= j < order@.len() && order@[j] == y && (order@[j] == *hash1 || ancestors1@.contains(order@[j]))) by {
                assert(order@.contains(y));
                let j = choose|j: int| 0 <= j < order@.len() && order@[j] == y;
            }
            if best is None {
                assert forall|x: BlockHash| !#[trigger] lca_candidate(store@, *hash1, *hash2, x) by {
                    if lca_candidate(store@, *hash1, *hash2, x) {
                        let j = choose|j: int| 0 <= j < order@.len() && order@[j] == x && (order@[j] == *hash1 || ancestors1@.contains(order@[j]));
                    }
                }
            } else {
                let b = best->0;
                assert forall|y: BlockHash| #[trigger] lca_candidate(store@, *hash1, *hash2, y) implies hash_rank(store@, y) <= hash_rank(store@, b) by {
                    let j = choose|j: int| 0 <= j < order@.len() && order@[j] == y && (order@[j] == *hash1 || ancestors1@.contains(order@[j]));
                }
                if parents_precede(store@) {
                    assert forall|y: BlockHash| #[trigger] lca_candidate(store@, *hash1, *hash2, y) && y != b implies !is_ancestor_of(store@, b, y) by {
                        if is_ancestor_of(store@, b, y) {
                            crate::dag_traversal::lemma_ancestor_earlier(store@, b, y);
                        }
                    }
                }
            }
        }
        best
    }

    /// Blocks sharing a parent with `hash`, other than `hash` itself.
    pub fn get_coparents(&self, hash: &BlockHash, store: &BlockStore) -> (r: Vec<BlockHash>)
        requires
            self.wf(),
            store.wf(),
        ensures
            r@.no_duplicates(),
            forall|c: BlockHash| r@.contains(c) <==> (c != *hash && exists|p: BlockHash| #[trigger] parents_of(store@, *hash).contains(p) && self.children_of(p).contains(c)),
    {
        let parents = store.get_parents(hash);
        let mut out: Vec<BlockHash> = Vec::new();
        let mut i: usize = 0;
        while i < parents.len()
            invariant
                self.wf(),
                parents@ == parents_of(store@, *hash),
                0 <= i <= parents@.len(),
                out@.no_duplicates(),
                forall|c: BlockHash| out@.contains(c) <==> (c != *hash && prefix_child(self, parents@, i as int, c)),
            decreases parents@.len() - i,
        {
            let kids = self.get_children(&parents[i]);
            let mut j: usize = 0;
            while j < kids.len()
                invariant
                    self.wf(),
                    0 <= i < parents@.len(),
                    kids@ == self.children_of(parents@[i as int]),
                    0 <= j <= kids@.len(),
                    out@.no_duplicates(),
                    forall|c: BlockHash| out@.contains(c) <==> (c != *hash && (prefix_child(self, parents@, i as int, c) || in_prefix(kids@, j as int, c))),
                decreases kids@.len() - j,
            {
                let c = kids[j];
                let ghost old_o = out@;
                proof { lemma_in_prefix_step(kids@, j as int); }
                if !hash_eq(&c, hash) && !contains_hash(&out, &c) {
                    out.push(c);
                    proof {
                        assert forall|x: BlockHash| out@.contains(x) <==> (old_o.contains(x) || x == c) by {
                            if old_o.contains(x) {
                                let t = choose|t: int| 0 <= t < old_o.len() && old_o[t] == x;
                                assert(out@[t] == x);
                            }
                            if out@.contains(x) && x != c {
                                let t = choose|t: int| 0 <= t < out@.len() && out@[t] == x;
                                assert(old_o[t] == x);
                            }
                            if x == c { assert(out@[out@.len() - 1] == x); }
                        }
                    }
                }
                proof {
                    assert forall|x: BlockHash| out@.contains(x) <==> (x != *hash && (prefix_child(self, parents@, i as int, x) || in_prefix(kids@, j + 1, x))) by {
                        assert(old_o.contains(x) <==> (x != *hash && (prefix_child(self, parents@, i as int, x) || in_prefix(kids@, j as int, x))));
                        assert(in_prefix(kids@, j + 1, x) <==> (in_prefix(kids@, j as int, x) || x == kids@[j as int]));
                        if x == c {
                            assert(out@.contains(x) <==> (x != *hash && (prefix_child(self, parents@, i as int, x) || in_prefix(kids@, j + 1, x))));
                        } else {
                            assert(out@.contains(x) == old_o.contains(x));
                        }
                    }
                }
                j = j + 1;
            }
            proof {
                assert forall|c: BlockHash| in_prefix(kids@, j as int, c) <==> kids@.contains(c) by {
                    if kids@.contains(c) {
                        let t = choose|t: int| 0 <= t < kids@.len() && kids@[t] == c;
                        assert(in_prefix(kids@, j as int, c));
                    }
                }
            }
            proof {
                assert forall|c: BlockHash| out@.contains(c) <==> (c != *hash && prefix_child(self, parents@, i + 1, c)) by {
                    if out@.contains(c) && !prefix_child(self, parents@, i as int, c) {
                        assert(self.children_of(parents@[i as int]).contains(c));
                        assert(prefix_child(self, parents@, i + 1, c));
                    }
                    if prefix_child(self, parents@, i as int, c) {
                        let k = choose|k: int| 0 <= k < i && #[trigger] self.children_of(parents@[k]).contains(c);
                        assert(prefix_child(self, parents@, i + 1, c));
                    }
                    if c != *hash && prefix_child(self, parents@, i + 1, c) {
                        let k = choose|k: int| 0 <= k < i + 1 && #[trigger] self.children_of(parents@[k]).contains(c);
                        if k == i {
                            assert(kids@.contains(c));
                        } else {
                            assert(prefix_child(self, parents@, i as int, c));
                        }
                    }
                }
            }
            i = i + 1;
        }
        proof {
            assert forall|c: BlockHash| out@.contains(c) <==> (c != *hash && exists|p: BlockHash| #[trigger] parents_of(store@, *hash).contains(p) && self.children_of(p).contains(c)) by {
                if out@.contains(c) {
                    let k = choose|k: int| 0 <= k < parents@.len() && #[trigger] self.children_of(parents@[k]).contains(c);
                    assert(parents_of(store@, *hash).contains(parents@[k]));
                }
                if c != *hash && exists|p: BlockHash| #[trigger] parents_of(store@, *hash).contains(p) && self.children_of(p).contains(c) {
                    let p = choose|p: BlockHash| #[trigger] parents_of(store@, *hash).contains(p) && self.children_of(p).contains(c);
                    let k = choose|k: int| 0 <= k < parents@.len() && parents@[k] == p;
                    assert(self.children_of(parents@[k]).contains(c));
                    assert(prefix_child(self, parents@, parents@.len() as int, c));
                }
            }
        }
        out
    }


    /// The blocks of the store in an order where parents come before
    /// children: every block whose parents are all placed is placed, and
    /// nothing else (blocks with a missing ancestor are left out).
    pub fn get_topological_order(&self, store: &BlockStore) -> (r: Vec<BlockHash>)
        requires
            store.wf(),
        ensures
            is_topological_closure(r@, store@),
    {
        let blocks = store.blocks();
        let ghost s = store@;
        let ghost all = s.map_values(|b: Block| b.hash);
        let n = blocks.len();
        let mut order: Vec<BlockHash> = Vec::new();
        let mut progress = true;
        while progress
            invariant
                s == blocks@,
                distinct_hashes(s),
                n == s.len(),
                all == s.map_values(|b: Block| b.hash),
                order@.no_duplicates(),
                forall|x: BlockHash| order@.contains(x) ==> has_hash(s, x),
                parents_earlier(order@, s),
                order@.len() <= n,
                !progress ==> placed_closed(order@, s),
            decreases n - order@.len() + (if progress { 1int } else { 0int }),
        {
            let ghost start = order@;
            progress = false;
            let mut i: usize = 0;
            while i < n
                invariant
                    s == blocks@,
                    distinct_hashes(s),
                    n == s.len(),
                    all == s.map_values(|b: Block| b.hash),
                    0 <= i <= n,
                    order@.no_duplicates(),
                    forall|x: BlockHash| order@.contains(x) ==> has_hash(s, x),
                    parents_earlier(order@, s),
                    start.len() <= order@.len(),
                    progress ==> start.len() < order@.len(),
                    !progress ==> order@ == start,
                    !progress ==> forall|k: int| 0 <= k < i && parents_placed(s[k], order@) ==> order@.contains(#[trigger] s[k].hash),
                decreases n - i,
            {
                let b = &blocks[i];
                let placed = contains_hash(&order, &b.hash);
                let ready = all_placed(&b.header.parent_hashes, &order);
                if !placed && ready {
                    let ghost old_o = order@;
                    proof { lemma_index_of(s, i as int); }
                    order.push(b.hash);
                    proof {
                        assert forall|x: BlockHash| order@.contains(x) implies has_hash(s, x) by {
                            if x != b.hash {
                                let t = choose|t: int| 0 <= t < order@.len() && order@[t] == x;
                                assert(old_o[t] == x);
                            }
                        }
                        assert forall|k: int, p: BlockHash| 0 <= k < order@.len() && #[trigger] parents_of(s, order@[k]).contains(p) implies exists|j: int| 0 <= j < k && order@[j] == p by {
                            if k < old_o.len() {
                                assert(old_o[k] == order@[k]);
                                let j = choose|j: int| 0 <= j < k && old_o[j] == p;
                                assert(order@[j] == p);
                            } else {
                                assert(old_o.contains(p));
                                let j = choose|j: int| 0 <= j < old_o.len() && old_o[j] == p;
                                assert(order@[j] == p);
                            }
                        }
                    }
                    progress = true;
                }
                i = i + 1;
            }
            proof {
                assert forall|x: BlockHash| order@.contains(x) implies all.contains(x) by {
                    assert(has_hash(s, x));
                    let k = index_of(s, x);
                    assert(0 <= k < s.len() && s[k].hash == x);
                    assert(all[k] == x);
                }
                lemma_nodup_subset_len(order@, all);
                if !progress {
                    assert forall|k: int| 0 <= k < s.len() && parents_placed(s[k], order@) implies order@.contains(#[trigger] s[k].hash) by {}
                }
            }
        }
        order
    }

    /// Length of the longest chain of parent links starting at `hash`.
    pub fn get_block_depth(&self, hash: &BlockHash, store: &BlockStore) -> (r: usize)
        requires
            store.wf(),
            parents_precede(store@),
        ensures
            depth_is(store@, *hash, r as nat),
    {
        let ghost s = store@;
        let n = store.block_count();
        let mut depth: usize = 0;
        let mut current: Vec<BlockHash> = Vec::new();
        current.push(*hash);
        let ghost mut rank: int = n as int;
        proof {
            assert forall|x: BlockHash| current@.contains(x) <==> layer(s, *hash, 0).contains(x) by {
                if current@.contains(x) {
                    let t = choose|t: int| 0 <= t < current@.len() && current@[t] == x;
                }
                if x == *hash { assert(current@[0] == x); }
            }
            assert(current@.contains(*hash)) by { assert(current@[0] == *hash); }
            assert forall|x: BlockHash| current@.contains(x) && has_hash(s, x) implies index_of(s, x) < rank by {
                let k = index_of(s, x);
            }
        }
        loop
            invariant
                s == store@,
                store.wf(),
                parents_precede(s),
                n == s.len(),
                0 <= rank,
                depth + rank == n,
                forall|x: BlockHash| current@.contains(x) <==> layer(s, *hash, depth as nat).contains(x),
                exists|x: BlockHash| current@.contains(x),
                forall|x: BlockHash| current@.contains(x) && has_hash(s, x) ==> index_of(s, x) < rank,
            decreases rank,
        {
            let mut next: Vec<BlockHash> = Vec::new();
            let mut i: usize = 0;
            while i < current.len()
                invariant
                    s == store@,
                    store.wf(),
                    0 <= i <= current@.len(),
                    next@.no_duplicates(),
                    forall|p: BlockHash| next@.contains(p) <==> (exists|t: int| 0 <= t < i && #[trigger] parents_of(s, current@[t]).contains(p)),
                decreases current@.len() - i,
            {
                let parents = store.get_parents(&current[i]);
                let ghost before = next@;
                let mut m: usize = 0;
                while m < parents.len()
                    invariant
                        s == store@,
                        0 <= i < current@.len(),
                        parents@ == parents_of(s, current@[i as int]),
                        0 <= m <= parents@.len(),
                        next@.no_duplicates(),
                        forall|y: BlockHash| next@.contains(y) <==> (before.contains(y) || in_prefix(parents@, m as int, y)),
                    decreases parents@.len() - m,
                {
                    let p = parents[m];
                    let ghost old_n = next@;
                    proof { lemma_in_prefix_step(parents@, m as int); }
                    if !contains_hash(&next, &p) {
                        next.push(p);
                        proof {
                            assert forall|x: BlockHash| next@.contains(x) <==> (old_n.contains(x) || x == p) by {
                                if old_n.contains(x) {
                                    let t = choose|t: int| 0 <= t < old_n.len() && old_n[t] == x;
                                    assert(next@[t] == x);
                                }
                                if next@.contains(x) && x != p {
                                    let t = choose|t: int| 0 <= t < next@.len() && next@[t] == x;
                                    assert(old_n[t] == x);
                                }
                                if x == p { assert(next@[next@.len() - 1] == x); }
                            }
                        }
                    }
                    proof {
                        assert forall|x: BlockHash| next@.contains(x) <==> (before.contains(x) || in_prefix(parents@, m + 1, x)) by {
                            assert(old_n.contains(x) <==> (before.contains(x) || in_prefix(parents@, m as int, x)));
                            assert(in_prefix(parents@, m + 1, x) <==> (in_prefix(parents@, m as int, x) || x == parents@[m as int]));
                            if x == p {
                                assert(next@.contains(x));
                                assert(in_prefix(parents@, m + 1, x));
                            } else {
                                assert(next@.contains(x) == old_n.contains(x));
                            }
                        }
                    }
                    let ghost prev_m = m as int;
                    m = m + 1;
                    assert(m as int == prev_m + 1);
                    assert forall|y: BlockHash| next@.contains(y) <==> (before.contains(y) || in_prefix(parents@, m as int, y)) by {
                        assert(next@.contains(y) <==> (before.contains(y) || in_prefix(parents@, prev_m + 1, y)));
                    }
                }
                proof {
                    assert forall|p: BlockHash| next@.contains(p) <==> (exists|t: int| 0 <= t < i + 1 && #[trigger] parents_of(s, current@[t]).contains(p)) by {
                        assert(next@.contains(p) <==> (before.contains(p) || in_prefix(parents@, m as int, p)));
                        assert(before.contains(p) <==> (exists|t: int| 0 <= t < i && #[trigger] parents_of(s, current@[t]).contains(p)));
                        if before.contains(p) {
                            let t = choose|t: int| 0 <= t < i && #[trigger] parents_of(s, current@[t]).contains(p);
                            assert(0 <= t < i + 1 && parents_of(s, current@[t]).contains(p));
                        }
                        if in_prefix(parents@, m as int, p) {
                            let t = choose|t: int| 0 <= t < m && #[trigger] parents@[t] == p;
                            assert(parents_of(s, current@[i as int]).contains(p));
                        }
                        if exists|t: int| 0 <= t < i + 1 && #[trigger] parents_of(s, current@[t]).contains(p) {
                            let t = choose|t: int| 0 <= t < i + 1 && #[trigger] parents_of(s, current@[t]).contains(p);
                            if t == i {
                                let q = choose|q: int| 0 <= q < parents@.len() && parents@[q] == p;
                                assert(in_prefix(parents@, m as int, p));
                            } else {
                                assert(before.contains(p));
                            }
                        }
                    }
                }
                i = i + 1;
            }
            proof {
                assert forall|p: BlockHash| next@.contains(p) <==> layer(s, *hash, (depth + 1) as nat).contains(p) by {
                    if next@.contains(p) {
                        let t = choose|t: int| 0 <= t < current@.len() && #[trigger] parents_of(s, current@[t]).contains(p);
                        assert(current@.contains(current@[t]));
                        assert(layer(s, *hash, depth as nat).contains(current@[t]));
                    }
                    if layer(s, *hash, (depth + 1) as nat).contains(p) {
                        let x = choose|x: BlockHash| #[trigger] layer(s, *hash, depth as nat).contains(x) && parents_of(s, x).contains(p);
                        assert(current@.contains(x));
                        let t = choose|t: int| 0 <= t < current@.len() && current@[t] == x;
                        assert(parents_of(s, current@[t]).contains(p));
                    }
                }
            }
            if next.len() == 0 {
                proof {
                    assert(!(exists|x: BlockHash| #[trigger] layer(s, *hash, (depth + 1) as nat).contains(x))) by {
                        if exists|x: BlockHash| #[trigger] layer(s, *hash, (depth + 1) as nat).contains(x) {
                            let x = choose|x: BlockHash| #[trigger] layer(s, *hash, (depth + 1) as nat).contains(x);
                            assert(next@.contains(x));
                        }
                    }
                    let x = choose|x: BlockHash| current@.contains(x);
                    assert(layer(s, *hash, depth as nat).contains(x));
                }
                return depth;
            }
            proof {
                assert(next@.contains(next@[0]));
                let t = choose|t: int| 0 <= t < current@.len() && #[trigger] parents_of(s, current@[t]).contains(next@[0]);
                let x = current@[t];
                assert(current@.contains(x));
                assert(has_hash(s, x));
                assert forall|p: BlockHash| next@.contains(p) && has_hash(s, p) implies index_of(s, p) < rank - 1 by {
                    let t2 = choose|t2: int| 0 <= t2 < current@.len() && #[trigger] parents_of(s, current@[t2]).contains(p);
                    let y = current@[t2];
                    assert(current@.contains(y));
                    assert(has_hash(s, y));
                    let iy = index_of(s, y);
                    lemma_index_of(s, iy);
                    assert(s[iy].header.parent_hashes@.contains(p));
                    let j = choose|j: int| 0 <= j < iy && s[j].hash == p;
                    lemma_index_of(s, j);
                }
                rank = rank - 1;
            }
            current = next;
            depth = depth + 1;
        }
    }

    /// The recorded children of `h`.
    pub fn get_children(&self, h: &BlockHash) -> (r: Vec<BlockHash>)
        requires
            self.wf(),
        ensures
            r@ == self.children_of(*h),
    {
        match self.find_key(h) {
            Some(i) => {
                proof { self.lemma_key_pos(i as int); }
                copy_hashes(&self.children[i])
            },
            None => Vec::new(),
        }
    }

    /// The recorded tips.
    pub fn get_tips(&self) -> (r: Vec<BlockHash>)
        ensures
            r@ == self.tips_view(),
            r@.no_duplicates() <== self.wf(),
    {
        copy_hashes(&self.tips)
    }

    /// Whether `h` is a recorded tip.
    pub fn is_tip(&self, h: &BlockHash) -> (r: bool)
        ensures
            r == self.tips_view().contains(*h),
    {
        contains_hash(&self.tips, h)
    }

    /// Records a newly stored block: it becomes a tip, its parents stop
    /// being tips, and it is listed as a child of each parent.
    pub fn update_tips_after_insert(&mut self, new_block: &Block)
        requires
            old(self).wf(),
        ensures
            final(self).wf(),
            forall|x: BlockHash| final(self).tips_view().contains(x) <==> ((old(self).tips_view().contains(x) || x == new_block.hash) && !new_block.header.parent_hashes@.contains(x)),
            forall|p: BlockHash, c: BlockHash| #[trigger] final(self).children_of(p).contains(c) <==> (old(self).children_of(p).contains(c) || (c == new_block.hash && new_block.header.parent_hashes@.contains(p))),
    {
        let ghost before = *self;
        self.add_tip(&new_block.hash);
        let ghost with_tip = *self;
        let parents = &new_block.header.parent_hashes;
        let mut m: usize = 0;
        while m < parents.len()
            invariant
                parents@ == new_block.header.parent_hashes@,
                0 <= m <= parents@.len(),
                self.wf(),
                forall|x: BlockHash| self.tips_view().contains(x) <==> (with_tip.tips_view().contains(x) && !parents@.subrange(0, m as int).contains(x)),
                forall|x: BlockHash| self.children_of(x) == before.children_of(x),
            decreases parents@.len() - m,
        {
            let p = parents[m];
            let ghost mid = *self;
            self.remove_tip(&p);
            proof {
                let s1 = parents@.subrange(0, m + 1);
                let s0 = parents@.subrange(0, m as int);
                assert forall|x: BlockHash| s1.contains(x) <==> (s0.contains(x) || x == p) by {
                    let sub1 = parents@.subrange(0, m + 1);
                    let sub0 = parents@.subrange(0, m as int);
                    if sub1.contains(x) {
                        let j = choose|j: int| 0 <= j < m + 1 && sub1[j] == x;
                        if j < m { assert(sub0[j] == x); }
                    }
                    if sub0.contains(x) {
                        let j = choose|j: int| 0 <= j < m && sub0[j] == x;
                        assert(sub1[j] == x);
                    }
                    if x == p { assert(sub1[m as int] == x); }
                }
                assert forall|x: BlockHash| self.tips_view().contains(x) <==> (with_tip.tips_view().contains(x) && !s1.contains(x)) by {
                    assert(mid.tips_view().contains(x) <==> (with_tip.tips_view().contains(x) && !s0.contains(x)));
                    assert(self.tips_view().contains(x) <==> (mid.tips_view().contains(x) && x != p));
                }
            }
            m = m + 1;
        }
        assert(parents@.subrange(0, m as int) =~= parents@);
        let ghost tips_done = *self;
        let mut m2: usize = 0;
        while m2 < parents.len()
            invariant
                parents@ == new_block.header.parent_hashes@,
                0 <= m2 <= parents@.len(),
                self.wf(),
                self.tips_view() == tips_done.tips_view(),
                forall|q: BlockHash, c: BlockHash| #[trigger] self.children_of(q).contains(c) <==> (before.children_of(q).contains(c) || (c == new_block.hash && parents@.subrange(0, m2 as int).contains(q))),
            decreases parents@.len() - m2,
        {
            let p = parents[m2];
            let ghost mid = *self;
            self.add_child(&p, &new_block.hash);
            proof {
                assert forall|q: BlockHash, c: BlockHash| #[trigger] self.children_of(q).contains(c) <==> (before.children_of(q).contains(c) || (c == new_block.hash && parents@.subrange(0, m2 + 1).contains(q))) by {
                    let sub1 = parents@.subrange(0, m2 + 1);
                    let sub0 = parents@.subrange(0, m2 as int);
                    if sub1.contains(q) {
                        let j = choose|j: int| 0 <= j < m2 + 1 && sub1[j] == q;
                        if j < m2 { assert(sub0[j] == q); }
                    }
                    if sub0.contains(q) {
                        let j = choose|j: int| 0 <= j < m2 && sub0[j] == q;
                        assert(sub1[j] == q);
                    }
                    if q == p {
                        assert(sub1[m2 as int] == q);
                        if self.children_of(q).contains(c) {
                            let j = choose|j: int| 0 <= j < self.children_of(q).len() && self.children_of(q)[j] == c;
                            if j < mid.children_of(q).len() {
                                assert(mid.children_of(q)[j] == c);
                            }
                        }
                        if mid.children_of(q).contains(c) {
                            let j = choose|j: int| 0 <= j < mid.children_of(q).len() && mid.children_of(q)[j] == c;
                            assert(self.children_of(q)[j] == c);
                        }
                        assert(self.children_of(q)[mid.children_of(q).len() as int] == new_block.hash);
                    }
                }
            }
            m2 = m2 + 1;
        }
        assert(parents@.subrange(0, m2 as int) =~= parents@);
    }
}

} // verus!
