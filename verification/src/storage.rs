//! In-memory block store and the parent-closure (ancestor) machinery.
use vstd::prelude::*;
use crate::hashing::{BlockHash, hash_eq, contains_hash, copy_hashes};
use crate::block::{Block, same_block, block_hash_spec};

verus! {

/// Some block of `s` has hash `h`.
pub open spec fn has_hash(s: Seq<Block>, h: BlockHash) -> bool {
    exists|i: int| 0 <= i < s.len() && s[i].hash == h
}

/// No two blocks of `s` share a hash.
pub open spec fn distinct_hashes(s: Seq<Block>) -> bool {
    forall|i: int, j: int| 0 <= i < s.len() && 0 <= j < s.len() && i != j ==> s[i].hash != s[j].hash
}

/// The position of the block with hash `h`.
pub open spec fn index_of(s: Seq<Block>, h: BlockHash) -> int {
    choose|i: int| 0 <= i < s.len() && s[i].hash == h
}

/// The parents of the block with hash `h` (empty for an unknown hash).
pub open spec fn parents_of(s: Seq<Block>, h: BlockHash) -> Seq<BlockHash> {
    if has_hash(s, h) {
        s[index_of(s, h)].header.parent_hashes@
    } else {
        Seq::empty()
    }
}

/// Every parent of a member of `set` is in `set`.
pub open spec fn closed_under_parents(s: Seq<Block>, set: Set<BlockHash>) -> bool {
    forall|x: BlockHash, p: BlockHash|
        set.contains(x) && #[trigger] parents_of(s, x).contains(p) ==> set.contains(p)
}

/// Every element of `starts` is in `set`.
pub open spec fn covers(starts: Seq<BlockHash>, set: Set<BlockHash>) -> bool {
    forall|x: BlockHash| #[trigger] starts.contains(x) ==> set.contains(x)
}

/// `x` is in the smallest parent-closed set containing `starts`: it is a
/// start, or reached from one by following parent links.
pub open spec fn in_parent_closure(s: Seq<Block>, starts: Seq<BlockHash>, x: BlockHash) -> bool {
    forall|set: Set<BlockHash>| #[trigger] closed_under_parents(s, set) && covers(starts, set) ==> set.contains(x)
}

/// `a` is an ancestor of `b`: reached from `b` by one or more parent links.
pub open spec fn is_ancestor_of(s: Seq<Block>, a: BlockHash, b: BlockHash) -> bool {
    in_parent_closure(s, parents_of(s, b), a)
}

/// All parent hashes mentioned in `s`, block by block.
pub open spec fn all_parents(s: Seq<Block>) -> Seq<BlockHash>
    decreases s.len(),
{
    if s.len() == 0 {
        Seq::empty()
    } else {
        all_parents(s.drop_last()) + s.last().header.parent_hashes@
    }
}

/// The block at position `i` is the one `index_of` finds.
pub proof fn lemma_index_of(s: Seq<Block>, i: int)
    requires
        distinct_hashes(s),
        0 <= i < s.len(),
    ensures
        has_hash(s, s[i].hash),
        index_of(s, s[i].hash) == i,
        parents_of(s, s[i].hash) == s[i].header.parent_hashes@,
{
    assert(has_hash(s, s[i].hash));
    let j = index_of(s, s[i].hash);
    assert(s[j].hash == s[i].hash);
}

proof fn lemma_all_parents_contains(s: Seq<Block>, i: int, p: BlockHash)
    requires
        0 <= i < s.len(),
        s[i].header.parent_hashes@.contains(p),
    ensures
        all_parents(s).contains(p),
    decreases s.len(),
{
    if i == s.len() - 1 {
        let k = choose|k: int| 0 <= k < s[i].header.parent_hashes@.len() && s[i].header.parent_hashes@[k] == p;
        assert(all_parents(s)[all_parents(s.drop_last()).len() + k] == p);
    } else {
        lemma_all_parents_contains(s.drop_last(), i, p);
        let k = choose|k: int| 0 <= k < all_parents(s.drop_last()).len() && all_parents(s.drop_last())[k] == p;
        assert(all_parents(s)[k] == p);
    }
}

/// Every parent of any hash occurs in `all_parents`.
pub proof fn lemma_parent_in_all_parents(s: Seq<Block>, x: BlockHash, p: BlockHash)
    requires
        parents_of(s, x).contains(p),
    ensures
        all_parents(s).contains(p),
{
    lemma_all_parents_contains(s, index_of(s, x), p);
}

/// A duplicate-free sequence whose elements all occur in `b` is no longer than `b`.
pub proof fn lemma_nodup_subset_len(a: Seq<BlockHash>, b: Seq<BlockHash>)
    requires
        a.no_duplicates(),
        forall|x: BlockHash| a.contains(x) ==> b.contains(x),
    ensures
        a.len() <= b.len(),
{
    broadcast use vstd::seq_lib::seq_to_set_is_finite;
    a.unique_seq_to_set();
    b.lemma_cardinality_of_set();
    assert(a.to_set().subset_of(b.to_set()));
    vstd::set_lib::lemma_len_subset(a.to_set(), b.to_set());
}

/// Starts are in their own closure.
pub proof fn lemma_start_in_closure(s: Seq<Block>, starts: Seq<BlockHash>, x: BlockHash)
    requires
        starts.contains(x),
    ensures
        in_parent_closure(s, starts, x),
{
}

/// The closure is closed: parents of closure members are members.
pub proof fn lemma_closure_step(s: Seq<Block>, starts: Seq<BlockHash>, x: BlockHash, p: BlockHash)
    requires
        in_parent_closure(s, starts, x),
        parents_of(s, x).contains(p),
    ensures
        in_parent_closure(s, starts, p),
{
    assert forall|set: Set<BlockHash>| #[trigger] closed_under_parents(s, set) && covers(starts, set) implies set.contains(p) by {
        assert(set.contains(x));
    }
}

/// Ancestry is transitive.
pub proof fn lemma_ancestor_transitive(s: Seq<Block>, a: BlockHash, b: BlockHash, c: BlockHash)
    requires
        is_ancestor_of(s, a, b),
        is_ancestor_of(s, b, c),
    ensures
        is_ancestor_of(s, a, c),
{
    assert forall|set: Set<BlockHash>| #[trigger] closed_under_parents(s, set) && covers(parents_of(s, c), set) implies set.contains(a) by {
        assert(set.contains(b));
        assert forall|p: BlockHash| #[trigger] parents_of(s, b).contains(p) implies set.contains(p) by {}
        assert(covers(parents_of(s, b), set));
    }
}

/// Breadth-first walk over parent links from `starts`: every hash reached,
/// each once, starts first, in the order first reached.
pub fn parent_closure(blocks: &Vec<Block>, starts: &Vec<BlockHash>) -> (r: Vec<BlockHash>)
    requires
        distinct_hashes(blocks@),
    ensures
        r@.no_duplicates(),
        forall|x: BlockHash| r@.contains(x) <==> in_parent_closure(blocks@, starts@, x),
{
    let ghost s = blocks@;
    let mut visited: Vec<BlockHash> = Vec::new();
    // seed with the distinct starts
    let mut k: usize = 0;
    while k < starts.len()
        invariant
            0 <= k <= starts.len(),
            visited@.no_duplicates(),
            forall|j: int| 0 <= j < k ==> visited@.contains(#[trigger] starts@[j]),
            forall|x: BlockHash| visited@.contains(x) ==> starts@.contains(x),
        decreases starts.len() - k,
    {
        let h = starts[k];
        if !contains_hash(&visited, &h) {
            let ghost old_v = visited@;
            visited.push(h);
            proof {
                assert forall|j: int| 0 <= j < k + 1 implies visited@.contains(#[trigger] starts@[j]) by {
                    if j < k {
                        assert(old_v.contains(starts@[j]));
                        let t = choose|t: int| 0 <= t < old_v.len() && old_v[t] == starts@[j];
                        assert(visited@[t] == starts@[j]);
                    } else {
                        assert(visited@[visited@.len() - 1] == h);
                    }
                }
                assert forall|x: BlockHash| visited@.contains(x) implies starts@.contains(x) by {
                    if x != h {
                        let t = choose|t: int| 0 <= t < visited@.len() && visited@[t] == x;
                        assert(old_v[t] == x);
                    } else {
                        assert(starts@[k as int] == h);
                    }
                }
            }
        }
        k = k + 1;
    }
    proof {
        assert forall|x: BlockHash| starts@.contains(x) implies visited@.contains(x) by {
            let j = choose|j: int| 0 <= j < starts@.len() && starts@[j] == x;
            assert(visited@.contains(starts@[j]));
        }
    }
    let ghost base = visited@.len();
    let ghost bound = all_parents(s);
    // every element is a start or occurs among the parents of the store
    let mut i: usize = 0;
    while i < visited.len()
        invariant
            s == blocks@,
            distinct_hashes(s),
            bound == all_parents(s),
            0 <= i <= visited@.len(),
            base <= visited@.len(),
            visited@.no_duplicates(),
            forall|x: BlockHash| starts@.contains(x) ==> visited@.contains(x),
            forall|x: BlockHash| visited@.contains(x) ==> in_parent_closure(s, starts@, x),
            forall|j: int| base <= j < visited@.len() ==> bound.contains(#[trigger] visited@[j]),
            forall|j: int, p: BlockHash| 0 <= j < i && #[trigger] parents_of(s, visited@[j]).contains(p) ==> visited@.contains(p),
        decreases base + bound.len() - i,
    {
        proof {
            lemma_nodup_subset_len(visited@.subrange(base as int, visited@.len() as int), bound);
        }
        let cur = visited[i];
        let parents = get_parents_of(blocks, &cur);
        let mut m: usize = 0;
        while m < parents.len()
            invariant
                s == blocks@,
                distinct_hashes(s),
                bound == all_parents(s),
                0 <= i < visited@.len(),
                cur == visited@[i as int],
                parents@ == parents_of(s, cur),
                0 <= m <= parents@.len(),
                base <= visited@.len(),
                visited@.no_duplicates(),
                forall|x: BlockHash| starts@.contains(x) ==> visited@.contains(x),
                forall|x: BlockHash| visited@.contains(x) ==> in_parent_closure(s, starts@, x),
                forall|j: int| base <= j < visited@.len() ==> bound.contains(#[trigger] visited@[j]),
                forall|j: int, p: BlockHash| 0 <= j < i && #[trigger] parents_of(s, visited@[j]).contains(p) ==> visited@.contains(p),
                forall|q: int| 0 <= q < m ==> visited@.contains(#[trigger] parents@[q]),
            decreases parents.len() - m,
        {
            let p = parents[m];
            if !contains_hash(&visited, &p) {
                proof {
                    assert(parents_of(s, cur).contains(p));
                    assert(visited@.contains(visited@[i as int]));
                    lemma_closure_step(s, starts@, cur, p);
                    lemma_parent_in_all_parents(s, cur, p);
                }
                let ghost old_v = visited@;
                visited.push(p);
                proof {
                    assert forall|x: BlockHash| visited@.contains(x) implies in_parent_closure(s, starts@, x) by {
                        if x != p {
                            let j = choose|j: int| 0 <= j < visited@.len() && visited@[j] == x;
                            assert(old_v[j] == x);
                            assert(old_v.contains(x));
                        }
                    }
                    assert forall|x: BlockHash| #[trigger] starts@.contains(x) implies visited@.contains(x) by {
                        assert(old_v.contains(x));
                        let j = choose|j: int| 0 <= j < old_v.len() && old_v[j] == x;
                        assert(visited@[j] == x);
                    }
                    assert forall|j: int, q: BlockHash| 0 <= j < i && #[trigger] parents_of(s, visited@[j]).contains(q) implies visited@.contains(q) by {
                        assert(visited@[j] == old_v[j]);
                        assert(old_v.contains(q));
                        let t = choose|t: int| 0 <= t < old_v.len() && old_v[t] == q;
                        assert(visited@[t] == q);
                    }
                    assert forall|q: int| 0 <= q < m + 1 implies visited@.contains(#[trigger] parents@[q]) by {
                        if q < m {
                            assert(old_v.contains(parents@[q]));
                            let t = choose|t: int| 0 <= t < old_v.len() && old_v[t] == parents@[q];
                            assert(visited@[t] == parents@[q]);
                        } else {
                            assert(visited@[visited@.len() - 1] == p);
                        }
                    }
                }
            }
            m = m + 1;
        }
        proof {
            assert forall|j: int, p: BlockHash| 0 <= j < i + 1 && #[trigger] parents_of(s, visited@[j]).contains(p) implies visited@.contains(p) by {
                if j == i {
                    let q = choose|q: int| 0 <= q < parents@.len() && parents@[q] == p;
                    assert(visited@.contains(parents@[q]));
                }
            }
        }
        i = i + 1;
    }
    proof {
        let set = visited@.to_set();
        assert(closed_under_parents(s, set)) by {
            assert forall|x: BlockHash, p: BlockHash| set.contains(x) && #[trigger] parents_of(s, x).contains(p) implies set.contains(p) by {
                let j = choose|j: int| 0 <= j < visited@.len() && visited@[j] == x;
                assert(parents_of(s, visited@[j]).contains(p));
            }
        }
        assert(covers(starts@, set));
        assert forall|x: BlockHash| in_parent_closure(s, starts@, x) implies visited@.contains(x) by {
            assert(set.contains(x));
        }
    }
    visited
}

/// Position of the block with hash `h`, if any.
pub fn find_block(blocks: &Vec<Block>, h: &BlockHash) -> (r: Option<usize>)
    requires
        distinct_hashes(blocks@),
    ensures
        r is Some <==> has_hash(blocks@, *h),
        r matches Some(i) ==> i < blocks@.len() && blocks@[i as int].hash == *h && index_of(blocks@, *h) == i,
{
    let mut i: usize = 0;
    while i < blocks.len()
        invariant
            0 <= i <= blocks@.len(),
            distinct_hashes(blocks@),
            forall|j: int| 0 <= j < i ==> blocks@[j].hash != *h,
        decreases blocks@.len() - i,
    {
        if hash_eq(&blocks[i].hash, h) {
            proof {
                lemma_index_of(blocks@, i as int);
            }
            return Some(i);
        }
        i = i + 1;
    }
    None
}

/// The parents of the block with hash `h` (empty for an unknown hash).
pub fn get_parents_of(blocks: &Vec<Block>, h: &BlockHash) -> (r: Vec<BlockHash>)
    requires
        distinct_hashes(blocks@),
    ensures
        r@ == parents_of(blocks@, *h),
{
    match find_block(blocks, h) {
        Some(i) => copy_hashes(&blocks[i].header.parent_hashes),
        None => Vec::new(),
    }
}

/// Blocks kept in insertion order, at most one per hash.
#[derive(Debug)]
pub struct BlockStore {
    blocks: Vec<Block>,
}

impl View for BlockStore {
    type V = Seq<Block>;

    closed spec fn view(&self) -> Seq<Block> {
        self.blocks@
    }
}

impl BlockStore {
    /// The store's invariant: one block per hash.
    pub open spec fn wf(&self) -> bool {
        distinct_hashes(self@)
    }

    /// An empty store.
    pub fn new() -> (r: BlockStore)
        ensures
            r.wf(),
            r@ == Seq::<Block>::empty(),
    {
        BlockStore { blocks: Vec::new() }
    }

    /// A store holds at most `usize::MAX` blocks.
    pub proof fn lemma_len_bound(&self)
        ensures
            self@.len() <= usize::MAX,
    {
        assert(self.blocks.len() == self.blocks@.len());
    }

    /// The stored blocks, in insertion order.
    pub fn blocks(&self) -> (r: &Vec<Block>)
        ensures
            r@ == self@,
    {
        &self.blocks
    }

    /// Adds a block unless one with the same hash is stored.
    pub fn insert_block(&mut self, block: Block) -> (r: Result<(), String>)
        requires
            old(self).wf(),
        ensures
            final(self).wf(),
            r is Ok <==> !has_hash(old(self)@, block.hash),
            r is Ok ==> final(self)@ == old(self)@.push(block),
            r is Err ==> final(self)@ == old(self)@,
    {
        if self.block_exists(&block.hash) {
            return Err("Block already stored".to_string());
        }
        self.blocks.push(block);
        Ok(())
    }

    /// Whether a block with hash `h` is stored.
    pub fn block_exists(&self, h: &BlockHash) -> (r: bool)
        requires
            self.wf(),
        ensures
            r == has_hash(self@, *h),
    {
        find_block(&self.blocks, h).is_some()
    }

    /// A copy of the block with hash `h`.
    pub fn get_block(&self, h: &BlockHash) -> (r: Option<Block>)
        requires
            self.wf(),
        ensures
            r is Some <==> has_hash(self@, *h),
            r matches Some(b) ==> same_block(self@[index_of(self@, *h)], b),
    {
        match find_block(&self.blocks, h) {
            Some(i) => Some(self.blocks[i].copy()),
            None => None,
        }
    }

    /// The parents of the block with hash `h` (empty for an unknown hash).
    pub fn get_parents(&self, h: &BlockHash) -> (r: Vec<BlockHash>)
        requires
            self.wf(),
        ensures
            r@ == parents_of(self@, *h),
    {
        get_parents_of(&self.blocks, h)
    }

    /// Copies of all blocks, in insertion order.
    pub fn get_all_blocks(&self) -> (r: Vec<Block>)
        ensures
            r@.len() == self@.len(),
            forall|i: int| 0 <= i < r@.len() ==> same_block(self@[i], #[trigger] r@[i]),
    {
        let mut out: Vec<Block> = Vec::new();
        let mut i: usize = 0;
        while i < self.blocks.len()
            invariant
                0 <= i <= self.blocks@.len(),
                out@.len() == i,
                forall|k: int| 0 <= k < i ==> same_block(self.blocks@[k], #[trigger] out@[k]),
            decreases self.blocks@.len() - i,
        {
            out.push(self.blocks[i].copy());
            i = i + 1;
        }
        out
    }

    /// Hashes of all blocks, in insertion order.
    pub fn get_all_hashes(&self) -> (r: Vec<BlockHash>)
        ensures
            r@ == self@.map_values(|b: Block| b.hash),
    {
        let mut out: Vec<BlockHash> = Vec::new();
        let mut i: usize = 0;
        while i < self.blocks.len()
            invariant
                0 <= i <= self.blocks@.len(),
                out@ == self.blocks@.subrange(0, i as int).map_values(|b: Block| b.hash),
            decreases self.blocks@.len() - i,
        {
            out.push(self.blocks[i].hash);
            i = i + 1;
            assert(out@ =~= self.blocks@.subrange(0, i as int).map_values(|b: Block| b.hash));
        }
        assert(self.blocks@.subrange(0, i as int) =~= self.blocks@);
        out
    }

    /// Number of stored blocks.
    pub fn block_count(&self) -> (r: usize)
        ensures
            r == self@.len(),
    {
        self.blocks.len()
    }

    /// Checks that every stored block's hash matches its content.
    pub fn verify_integrity(&self) -> (r: Result<(), String>)
        ensures
            r is Ok <==> forall|i: int| 0 <= i < self@.len() ==> self@[i].hash@ == block_hash_spec(#[trigger] self@[i]),
    {
        let mut i: usize = 0;
        while i < self.blocks.len()
            invariant
                0 <= i <= self.blocks@.len(),
                forall|k: int| 0 <= k < i ==> self.blocks@[k].hash@ == block_hash_spec(#[trigger] self.blocks@[k]),
            decreases self.blocks@.len() - i,
        {
            let h = self.blocks[i].calculate_hash();
            if !hash_eq(&h, &self.blocks[i].hash) {
                proof {
                    if self.blocks@[i as int].hash@ == h@ {
                        crate::hashing::lemma_hash_view_eq(self.blocks@[i as int].hash, h);
                    }
                    assert(!(self@[i as int].hash@ == block_hash_spec(self@[i as int])));
                }
                return Err("Stored block hash does not match its content".to_string());
            }
            i = i + 1;
        }
        Ok(())
    }
}

} // verus!
