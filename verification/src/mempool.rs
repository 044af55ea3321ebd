//! A mempool whose transactions may name the transactions they depend on,
//! with a minimum gas price, per-source rate limiting and eviction of the
//! cheapest transaction when full.
use vstd::prelude::*;
use vstd::string::StringExecFns;
use crate::hashing::{Address, hash_eq, copy_hashes, now_unix_secs};
use crate::transaction::{Transaction, TxPayload, same_tx, tx_hash_spec, tx_valid_basic};
use crate::kv::{keys_distinct, kv_has, kv_map, lemma_kv_at, lemma_kv_set, lemma_kv_push, lemma_kv_remove,
    lemma_kv_len, find_hash_key, find_address_key};

verus! {

/// Length of a rate-limit window, in seconds.
pub const RATE_LIMIT_WINDOW_SECS: u64 = 60;
/// Transactions one source may submit per window.
pub const MAX_TX_PER_SOURCE: usize = 100;
/// Minimum gas price used before a base fee is known.
pub const DEFAULT_MIN_GAS_PRICE: u64 = 1;

/// A transaction in the mempool with the hashes it depends on, the time it
/// arrived and whether it may be executed.
#[derive(Debug, Clone)]
pub struct MempoolTransaction {
    pub transaction: Transaction,
    pub parent_tx_hashes: Vec<[u8; 32]>,
    pub timestamp: u64,
    pub is_ready: bool,
}

/// Two mempool entries hold the same values.
pub open spec fn same_entry(a: MempoolTransaction, b: MempoolTransaction) -> bool {
    &&& same_tx(a.transaction, b.transaction)
    &&& a.parent_tx_hashes@ == b.parent_tx_hashes@
    &&& a.timestamp == b.timestamp
    &&& a.is_ready == b.is_ready
}

impl MempoolTransaction {
    /// An entry, ready exactly when it depends on nothing.
    pub fn new(transaction: Transaction, parent_tx_hashes: Vec<[u8; 32]>, timestamp: u64) -> (r: MempoolTransaction)
        ensures
            r.transaction == transaction,
            r.parent_tx_hashes == parent_tx_hashes,
            r.timestamp == timestamp,
            r.is_ready == (parent_tx_hashes@.len() == 0),
    {
        let is_ready = parent_tx_hashes.len() == 0;
        MempoolTransaction { transaction, parent_tx_hashes, timestamp, is_ready }
    }

    /// A deep copy.
    pub fn copy(&self) -> (r: MempoolTransaction)
        ensures
            same_entry(*self, r),
    {
        MempoolTransaction {
            transaction: self.transaction.copy(),
            parent_tx_hashes: copy_hashes(&self.parent_tx_hashes),
            timestamp: self.timestamp,
            is_ready: self.is_ready,
        }
    }
}

/// The rate-limit table read by the texts of its sources.
pub open spec fn rate_view(v: Seq<(String, (usize, u64))>) -> Seq<(Seq<char>, (usize, u64))> {
    v.map_values(|e: (String, (usize, u64))| (e.0@, e.1))
}

/// The rate-limit entry of a source after a submission at `now` is
/// counted, before the limit is checked: a new source or an expired window
/// starts afresh at `now`.
pub open spec fn window_at(rates: Map<Seq<char>, (usize, u64)>, src: Seq<char>, now: u64) -> (usize, u64) {
    let e: (usize, u64) = if rates.contains_key(src) { rates[src] } else { (0usize, now) };
    if now >= e.1 + RATE_LIMIT_WINDOW_SECS { (0usize, now) } else { e }
}

/// `k` holds a transaction with the lowest gas price in the pool.
pub open spec fn is_cheapest(pool: Map<[u8; 32], MempoolTransaction>, k: [u8; 32]) -> bool {
    pool.contains_key(k) && forall|k2: [u8; 32]| #[trigger] pool.contains_key(k2)
        ==> pool[k].transaction.gas_price <= pool[k2].transaction.gas_price
}

/// `e` is a copy of an entry of `pool`.
pub open spec fn held(pool: Map<[u8; 32], MempoolTransaction>, e: MempoolTransaction) -> bool {
    exists|k: [u8; 32]| #[trigger] pool.contains_key(k) && same_entry(pool[k], e)
}

/// Whether a submission from `source` at `now` is over the source's limit.
pub open spec fn rate_blocked(rates: Map<Seq<char>, (usize, u64)>, source: Option<String>, now: u64) -> bool {
    source matches Some(src) && window_at(rates, src@, now).0 >= MAX_TX_PER_SOURCE
}

/// The entry of a source after a submission at `now`: counted unless over
/// the limit.
pub open spec fn rate_entry_after(rates: Map<Seq<char>, (usize, u64)>, src: Seq<char>, now: u64) -> (usize, u64) {
    let w = window_at(rates, src, now);
    if w.0 >= MAX_TX_PER_SOURCE { w } else { ((w.0 + 1) as usize, w.1) }
}

/// The counters after a submission from `source` at `now`.
pub open spec fn rates_after(rates: Map<Seq<char>, (usize, u64)>, source: Option<String>, now: u64) -> Map<Seq<char>, (usize, u64)> {
    match source {
        Some(src) => rates.insert(src@, rate_entry_after(rates, src@, now)),
        None => rates,
    }
}

/// A full pool makes room for `tx` by dropping a cheapest transaction
/// that `tx` outbids.
pub open spec fn evicts(pool: Map<[u8; 32], MempoolTransaction>, max_size: usize, tx: Transaction) -> bool {
    pool.len() >= max_size && exists|k: [u8; 32]| #[trigger] is_cheapest(pool, k) && tx.gas_price > pool[k].transaction.gas_price
}

/// A full pool that `tx` cannot enter.
pub open spec fn full_refused(pool: Map<[u8; 32], MempoolTransaction>, max_size: usize, tx: Transaction) -> bool {
    pool.len() >= max_size && !evicts(pool, max_size, tx)
}

/// The pool key of a transaction: its hash.
pub open spec fn tx_key(tx: Transaction) -> [u8; 32] {
    choose|h: [u8; 32]| h@ == tx_hash_spec(tx)
}

/// The checks after eviction: a signature is present, the gas price meets
/// the base fee and the minimum, the sender has funds, and the
/// transaction is not held already.
pub open spec fn admission_refused(pool: Map<[u8; 32], MempoolTransaction>, tx: Transaction, base_fee: u64, min_gas_price: u64, sender_balance: u64) -> bool {
    ||| tx.signature.data@.len() == 0
    ||| tx.gas_price < base_fee
    ||| tx.gas_price < min_gas_price
    ||| sender_balance == 0
    ||| pool.contains_key(tx_key(tx))
}

/// The dependants after recording `c` under each of `ps`.
pub open spec fn linked(m: Map<[u8; 32], Seq<[u8; 32]>>, ps: Seq<[u8; 32]>, c: [u8; 32]) -> Map<[u8; 32], Seq<[u8; 32]>>
    decreases ps.len(),
{
    if ps.len() == 0 {
        m
    } else {
        let prev = linked(m, ps.drop_last(), c);
        let p = ps.last();
        prev.insert(p, if prev.contains_key(p) {
            if prev[p].contains(c) { prev[p] } else { prev[p].push(c) }
        } else {
            seq![c]
        })
    }
}

/// The pending lists after `h` is appended to the list of `from`.
pub open spec fn pending_after(m: Map<Address, Seq<[u8; 32]>>, from: Address, h: [u8; 32]) -> Map<Address, Seq<[u8; 32]>> {
    m.insert(from, (if m.contains_key(from) { m[from] } else { Seq::empty() }).push(h))
}

/// The entry a transaction gets when admitted into `pool` at `now`.
pub open spec fn admitted_entry(pool: Map<[u8; 32], MempoolTransaction>, e: MempoolTransaction, tx: Transaction, parents: Seq<[u8; 32]>, now: u64) -> bool {
    &&& e.transaction == tx
    &&& e.parent_tx_hashes@ == parents
    &&& e.timestamp == now
    &&& e.is_ready == (forall|i: int| 0 <= i < parents.len() ==> !pool.contains_key(#[trigger] parents[i]))
}

/// The position of the rate-limit entry of `src`.
fn find_source(v: &Vec<(String, (usize, u64))>, src: &String) -> (r: Option<usize>)
    ensures
        r matches Some(i) ==> i < v@.len() && v@[i as int].0@ == src@,
        r is None ==> forall|j: int| 0 <= j < v@.len() ==> (#[trigger] v@[j]).0@ != src@,
{
    let mut i: usize = 0;
    while i < v.len()
        invariant
            0 <= i <= v@.len(),
            forall|j: int| 0 <= j < i ==> (#[trigger] v@[j]).0@ != src@,
        decreases v@.len() - i,
    {
        if v[i].0 == *src {
            return Some(i);
        }
        i = i + 1;
    }
    None
}

/// `pool1` is the pool once room is made for `tx`: the same pool when it is
/// not full, else the pool without one of its cheapest transactions.
pub open spec fn evicted_to(pool: Map<[u8; 32], MempoolTransaction>, max_size: usize, tx: Transaction, pool1: Map<[u8; 32], MempoolTransaction>) -> bool {
    if pool.len() < max_size {
        pool1 == pool
    } else {
        exists|k: [u8; 32]| #[trigger] is_cheapest(pool, k) && tx.gas_price > pool[k].transaction.gas_price && pool1 == pool.remove(k)
    }
}

/// `s` with every occurrence of `h` taken out.
pub open spec fn drop_hash(s: Seq<[u8; 32]>, h: [u8; 32]) -> Seq<[u8; 32]>
    decreases s.len(),
{
    if s.len() == 0 {
        s
    } else if s.last() == h {
        drop_hash(s.drop_last(), h)
    } else {
        drop_hash(s.drop_last(), h).push(s.last())
    }
}

/// The pending lists once `h`, sent by `from`, leaves the pool.
pub open spec fn pending_without(m: Map<Address, Seq<[u8; 32]>>, from: Address, h: [u8; 32]) -> Map<Address, Seq<[u8; 32]>> {
    if m.contains_key(from) { m.insert(from, drop_hash(m[from], h)) } else { m }
}

/// `s` without `h`.
fn drop_hash_exec(s: &Vec<[u8; 32]>, h: &[u8; 32]) -> (r: Vec<[u8; 32]>)
    ensures
        r@ == drop_hash(s@, *h),
{
    let mut out: Vec<[u8; 32]> = Vec::new();
    let mut i: usize = 0;
    while i < s.len()
        invariant
            0 <= i <= s@.len(),
            out@ == drop_hash(s@.subrange(0, i as int), *h),
        decreases s@.len() - i,
    {
        proof {
            assert(s@.subrange(0, i + 1).drop_last() =~= s@.subrange(0, i as int));
            assert(s@.subrange(0, i + 1).last() == s@[i as int]);
        }
        if !hash_eq(&s[i], h) {
            out.push(s[i]);
        }
        i = i + 1;
    }
    proof { assert(s@.subrange(0, i as int) =~= s@); }
    out
}

/// The DAG-aware mempool.
#[derive(Debug)]
pub struct TxDagMempool {
    transactions: Vec<([u8; 32], MempoolTransaction)>,
    parent_child_map: Vec<([u8; 32], Vec<[u8; 32]>)>,
    pending_by_sender: Vec<(Address, Vec<[u8; 32]>)>,
    max_size: usize,
    current_base_fee: u64,
    rate_limits: Vec<(String, (usize, u64))>,
    min_gas_price: u64,
}

/// What admitting `tx` at clock time `now` does, taking the pool from
/// `before` to `after` with result `r`: the source's submission is
/// counted; a blocked source, a full pool that `tx` cannot outbid, or a
/// refused admission (signature, gas price, balance, duplicate) is an
/// error that leaves the pool as it was after eviction; otherwise `tx` is
/// added, linked under its parents and listed as its sender's.
pub open spec fn admit_outcome(
    before: TxDagMempool,
    after: TxDagMempool,
    tx: Transaction,
    parents: Seq<[u8; 32]>,
    source: Option<String>,
    sender_balance: u64,
    now: u64,
    r: Result<(), String>,
) -> bool {
    &&& after.rates() == rates_after(before.rates(), source, now)
    &&& rate_blocked(before.rates(), source, now) ==> r is Err && after.pool() == before.pool()
    &&& !rate_blocked(before.rates(), source, now) && full_refused(before.pool(), before.max_size_spec(), tx)
        ==> r is Err && after.pool() == before.pool()
    &&& !rate_blocked(before.rates(), source, now) && !full_refused(before.pool(), before.max_size_spec(), tx)
        ==> exists|pool1: Map<[u8; 32], MempoolTransaction>| {
            &&& #[trigger] evicted_to(before.pool(), before.max_size_spec(), tx, pool1)
            &&& admission_refused(pool1, tx, before.base_fee(), before.min_gas_price_spec(), sender_balance)
                ==> r is Err && after.pool() == pool1
            &&& !admission_refused(pool1, tx, before.base_fee(), before.min_gas_price_spec(), sender_balance)
                ==> r is Ok && after.pool().dom() == pool1.dom().insert(tx_key(tx))
                && (forall|k: [u8; 32]| #[trigger] pool1.contains_key(k) ==> after.pool()[k] == pool1[k])
                && admitted_entry(pool1, after.pool()[tx_key(tx)], tx, parents, now)
        }
    &&& r is Err ==> after.children() == before.children() && after.pending() == before.pending()
    &&& r is Ok ==> after.children() == linked(before.children(), parents, tx_key(tx))
        && after.pending() == pending_after(before.pending(), tx.from, tx_key(tx))
}

impl TxDagMempool {
    /// The transactions by hash.
    pub closed spec fn pool(&self) -> Map<[u8; 32], MempoolTransaction> {
        kv_map(self.transactions@)
    }

    /// The dependants recorded for each hash.
    pub closed spec fn children(&self) -> Map<[u8; 32], Seq<[u8; 32]>> {
        kv_map(self.parent_child_map@).map_values(|v: Vec<[u8; 32]>| v@)
    }

    /// The pending transaction hashes of each sender, in arrival order.
    pub closed spec fn pending(&self) -> Map<Address, Seq<[u8; 32]>> {
        kv_map(self.pending_by_sender@).map_values(|v: Vec<[u8; 32]>| v@)
    }

    /// The rate-limit counters by source: count and window start.
    pub closed spec fn rates(&self) -> Map<Seq<char>, (usize, u64)> {
        kv_map(rate_view(self.rate_limits@))
    }

    /// The largest number of transactions held.
    pub closed spec fn max_size_spec(&self) -> usize {
        self.max_size
    }

    /// The current base fee.
    pub closed spec fn base_fee(&self) -> u64 {
        self.current_base_fee
    }

    /// The configured minimum gas price.
    pub closed spec fn min_gas_price_spec(&self) -> u64 {
        self.min_gas_price
    }

    /// Each table lists a key once; dependant lists hold no duplicates.
    pub closed spec fn wf(&self) -> bool {
        &&& keys_distinct(self.transactions@)
        &&& self.transactions@.len() <= self.max_size
        &&& keys_distinct(self.parent_child_map@)
        &&& keys_distinct(self.pending_by_sender@)
        &&& keys_distinct(rate_view(self.rate_limits@))
        &&& forall|i: int| 0 <= i < self.parent_child_map@.len() ==> (#[trigger] self.parent_child_map@[i]).1@.no_duplicates()
    }

    /// The pool never holds more than its maximum number of transactions.
    pub proof fn lemma_capacity(&self)
        requires
            self.wf(),
        ensures
            self.pool().len() <= self.max_size_spec(),
    {
        lemma_kv_len(self.transactions@);
    }

    /// An empty mempool holding at most `max_size` transactions, with the
    /// base fee starting at `min_gas_price`.
    pub fn new(max_size: usize, min_gas_price: u64) -> (r: TxDagMempool)
        ensures
            r.wf(),
            r.pool() == Map::<[u8; 32], MempoolTransaction>::empty(),
            r.children() == Map::<[u8; 32], Seq<[u8; 32]>>::empty(),
            r.pending() == Map::<Address, Seq<[u8; 32]>>::empty(),
            r.rates() == Map::<Seq<char>, (usize, u64)>::empty(),
            r.max_size_spec() == max_size,
            r.base_fee() == min_gas_price,
            r.min_gas_price_spec() == min_gas_price,
    {
        let r = TxDagMempool {
            transactions: Vec::new(),
            parent_child_map: Vec::new(),
            pending_by_sender: Vec::new(),
            max_size,
            current_base_fee: min_gas_price,
            rate_limits: Vec::new(),
            min_gas_price,
        };
        proof {
            assert(r.pool() =~= Map::<[u8; 32], MempoolTransaction>::empty());
            assert(r.children() =~= Map::<[u8; 32], Seq<[u8; 32]>>::empty());
            assert(r.pending() =~= Map::<Address, Seq<[u8; 32]>>::empty());
            assert(rate_view(r.rate_limits@) =~= Seq::empty());
            assert(r.rates() =~= Map::<Seq<char>, (usize, u64)>::empty());
        }
        r
    }

    /// Counts a submission from `src` at `now`; false when the source is
    /// over its limit (the counter is then left uncounted, its window
    /// possibly restarted).
    fn count_submission(&mut self, src: &String, now: u64) -> (ok: bool)
        requires
            old(self).wf(),
        ensures
            final(self).wf(),
            ok == (window_at(old(self).rates(), src@, now).0 < MAX_TX_PER_SOURCE),
            final(self).rates() == old(self).rates().insert(src@, rate_entry_after(old(self).rates(), src@, now)),
            final(self).transactions == old(self).transactions,
            final(self).parent_child_map == old(self).parent_child_map,
            final(self).pending_by_sender == old(self).pending_by_sender,
            final(self).max_size == old(self).max_size,
            final(self).current_base_fee == old(self).current_base_fee,
            final(self).min_gas_price == old(self).min_gas_price,
    {
        let ghost rv = rate_view(self.rate_limits@);
        let found = find_source(&self.rate_limits, src);
        let entry: (usize, u64) = match found {
            Some(j) => self.rate_limits[j].1,
            None => (0, now),
        };
        proof {
            match found {
                Some(j) => {
                    assert(rv[j as int] == (self.rate_limits@[j as int].0@, self.rate_limits@[j as int].1));
                    lemma_kv_at(rv, j as int);
                },
                None => {
                    assert(!kv_has(rv, src@)) by {
                        if kv_has(rv, src@) {
                            let t = choose|t: int| 0 <= t < rv.len() && #[trigger] rv[t].0 == src@;
                            assert(rv[t] == (self.rate_limits@[t].0@, self.rate_limits@[t].1));
                        }
                    }
                },
            }
        }
        let window: (usize, u64) = if now >= entry.1 && now - entry.1 >= RATE_LIMIT_WINDOW_SECS {
            (0, now)
        } else {
            entry
        };
        let ok = window.0 < MAX_TX_PER_SOURCE;
        let updated: (usize, u64) = if ok { (window.0 + 1, window.1) } else { window };
        match found {
            Some(j) => {
                let key = self.rate_limits[j].0.clone();
                self.rate_limits.set(j, (key, updated));
                proof {
                    assert(rate_view(self.rate_limits@) =~= rv.update(j as int, (rv[j as int].0, updated)));
                    lemma_kv_set(rv, j as int, updated);
                }
            },
            None => {
                self.rate_limits.push((src.clone(), updated));
                proof {
                    assert(rate_view(self.rate_limits@) =~= rv.push((src@, updated)));
                    lemma_kv_push(rv, src@, updated);
                }
            },
        }
        ok
    }

    /// The position of a cheapest transaction; `None` for an empty pool.
    fn cheapest_index(&self) -> (r: Option<usize>)
        requires
            self.wf(),
        ensures
            r is None <==> self.transactions@.len() == 0,
            r matches Some(i) ==> i < self.transactions@.len() && is_cheapest(self.pool(), self.transactions@[i as int].0),
    {
        if self.transactions.len() == 0 {
            return None;
        }
        let mut best: usize = 0;
        let mut i: usize = 1;
        while i < self.transactions.len()
            invariant
                1 <= i <= self.transactions@.len(),
                best < i,
                forall|j: int| 0 <= j < i ==> self.transactions@[best as int].1.transaction.gas_price <= #[trigger] self.transactions@[j].1.transaction.gas_price,
            decreases self.transactions@.len() - i,
        {
            if self.transactions[i].1.transaction.gas_price < self.transactions[best].1.transaction.gas_price {
                best = i;
            }
            i = i + 1;
        }
        proof {
            lemma_kv_at(self.transactions@, best as int);
            assert forall|k2: [u8; 32]| #[trigger] self.pool().contains_key(k2) implies
                self.pool()[self.transactions@[best as int].0].transaction.gas_price <= self.pool()[k2].transaction.gas_price by {
                let t = choose|t: int| 0 <= t < self.transactions@.len() && #[trigger] self.transactions@[t].0 == k2;
                lemma_kv_at(self.transactions@, t);
            }
        }
        Some(best)
    }

    /// Records `child` as a dependant of each of `parents`.
    fn link_children(&mut self, parents: &Vec<[u8; 32]>, child: &[u8; 32])
        requires
            old(self).wf(),
        ensures
            final(self).wf(),
            final(self).children() == linked(old(self).children(), parents@, *child),
            final(self).transactions == old(self).transactions,
            final(self).pending_by_sender == old(self).pending_by_sender,
            final(self).rate_limits == old(self).rate_limits,
            final(self).max_size == old(self).max_size,
            final(self).current_base_fee == old(self).current_base_fee,
            final(self).min_gas_price == old(self).min_gas_price,
    {
        let mut i: usize = 0;
        while i < parents.len()
            invariant
                self.wf(),
                0 <= i <= parents@.len(),
                self.children() == linked(old(self).children(), parents@.subrange(0, i as int), *child),
                self.transactions == old(self).transactions,
                self.pending_by_sender == old(self).pending_by_sender,
                self.rate_limits == old(self).rate_limits,
                self.max_size == old(self).max_size,
                self.current_base_fee == old(self).current_base_fee,
                self.min_gas_price == old(self).min_gas_price,
            decreases parents@.len() - i,
        {
            let p = parents[i];
            let ghost before = self.children();
            let ghost pcm = self.parent_child_map@;
            proof {
                assert(parents@.subrange(0, i + 1).drop_last() =~= parents@.subrange(0, i as int));
                assert(parents@.subrange(0, i + 1).last() == p);
            }
            match find_hash_key(&self.parent_child_map, &p) {
                Some(j) => {
                    proof { lemma_kv_at(pcm, j as int); }
                    if !crate::hashing::contains_hash(&self.parent_child_map[j].1, child) {
                        let mut kids = copy_hashes(&self.parent_child_map[j].1);
                        let ghost old_kids = kids@;
                        kids.push(*child);
                        proof {
                            assert(kids@.no_duplicates()) by {
                                assert forall|a: int, b: int| 0 <= a < kids@.len() && 0 <= b < kids@.len() && a != b implies kids@[a] != kids@[b] by {
                                    if a < old_kids.len() && b < old_kids.len() {
                                        assert(pcm[j as int].1@.no_duplicates());
                                    } else if a < old_kids.len() {
                                        assert(old_kids.contains(kids@[a]));
                                    } else {
                                        assert(old_kids.contains(kids@[b]));
                                    }
                                }
                            }
                        }
                        self.parent_child_map.set(j, (p, kids));
                        proof {
                            lemma_kv_set(pcm, j as int, kids);
                            assert(self.children() =~= before.insert(p, before[p].push(*child)));
                        }
                    }
                },
                None => {
                    let mut kids: Vec<[u8; 32]> = Vec::new();
                    kids.push(*child);
                    proof {
                        assert(kids@ =~= seq![*child]);
                        assert(!before.contains_key(p));
                    }
                    self.parent_child_map.push((p, kids));
                    proof {
                        lemma_kv_push(pcm, p, kids);
                        assert(self.children() =~= before.insert(p, seq![*child]));
                    }
                },
            }
            proof {
                assert forall|t: int| 0 <= t < self.parent_child_map@.len() implies (#[trigger] self.parent_child_map@[t]).1@.no_duplicates() by {
                    if t < pcm.len() && self.parent_child_map@[t] == pcm[t] {
                    }
                }
            }
            i = i + 1;
        }
        proof { assert(parents@.subrange(0, i as int) =~= parents@); }
    }

    /// Appends `h` to the pending list of `from`.
    fn add_pending(&mut self, from: Address, h: [u8; 32])
        requires
            old(self).wf(),
        ensures
            final(self).wf(),
            final(self).pending() == pending_after(old(self).pending(), from, h),
            final(self).transactions == old(self).transactions,
            final(self).parent_child_map == old(self).parent_child_map,
            final(self).rate_limits == old(self).rate_limits,
            final(self).max_size == old(self).max_size,
            final(self).current_base_fee == old(self).current_base_fee,
            final(self).min_gas_price == old(self).min_gas_price,
    {
        let ghost pend = self.pending_by_sender@;
        let ghost before = self.pending();
        match find_address_key(&self.pending_by_sender, &from) {
            Some(j) => {
                proof { lemma_kv_at(pend, j as int); }
                let mut hs = copy_hashes(&self.pending_by_sender[j].1);
                hs.push(h);
                self.pending_by_sender.set(j, (from, hs));
                proof {
                    lemma_kv_set(pend, j as int, hs);
                    assert(self.pending() =~= pending_after(before, from, h));
                }
            },
            None => {
                let mut hs: Vec<[u8; 32]> = Vec::new();
                hs.push(h);
                self.pending_by_sender.push((from, hs));
                proof {
                    lemma_kv_push(pend, from, hs);
                    assert(hs@ =~= Seq::<[u8; 32]>::empty().push(h));
                    assert(self.pending() =~= pending_after(before, from, h));
                }
            },
        }
    }

    /// Admits `tx`, depending on `parent_tx_hashes`, at clock time `now`
    /// for a sender whose balance is `sender_balance`. In order: the
    /// source's rate limit (the submission is counted even when later
    /// refused); room, made when full by dropping a cheapest transaction
    /// that `tx` outbids; a signature; a gas price at least the base fee
    /// and the minimum; a funded sender; no duplicate. An admitted
    /// transaction is ready when none of its parents is held.
    pub fn add_transaction_at(
        &mut self,
        tx: Transaction,
        parent_tx_hashes: Vec<[u8; 32]>,
        source: Option<String>,
        sender_balance: u64,
        now: u64,
    ) -> (r: Result<(), String>)
        requires
            old(self).wf(),
        ensures
            final(self).wf(),
            final(self).max_size_spec() == old(self).max_size_spec(),
            final(self).base_fee() == old(self).base_fee(),
            final(self).min_gas_price_spec() == old(self).min_gas_price_spec(),
            final(self).rates() == rates_after(old(self).rates(), source, now),
            rate_blocked(old(self).rates(), source, now) ==> r is Err && final(self).pool() == old(self).pool(),
            !rate_blocked(old(self).rates(), source, now) && full_refused(old(self).pool(), old(self).max_size_spec(), tx)
                ==> r is Err && final(self).pool() == old(self).pool(),
            !rate_blocked(old(self).rates(), source, now) && !full_refused(old(self).pool(), old(self).max_size_spec(), tx)
                ==> exists|pool1: Map<[u8; 32], MempoolTransaction>| {
                    &&& #[trigger] evicted_to(old(self).pool(), old(self).max_size_spec(), tx, pool1)
                    &&& admission_refused(pool1, tx, old(self).base_fee(), old(self).min_gas_price_spec(), sender_balance)
                        ==> r is Err && final(self).pool() == pool1
                    &&& !admission_refused(pool1, tx, old(self).base_fee(), old(self).min_gas_price_spec(), sender_balance)
                        ==> r is Ok && final(self).pool().dom() == pool1.dom().insert(tx_key(tx))
                        && (forall|k: [u8; 32]| #[trigger] pool1.contains_key(k) ==> final(self).pool()[k] == pool1[k])
                        && admitted_entry(pool1, final(self).pool()[tx_key(tx)], tx, parent_tx_hashes@, now)
                },
            r is Err ==> final(self).children() == old(self).children() && final(self).pending() == old(self).pending(),
            r is Ok ==> final(self).children() == linked(old(self).children(), parent_tx_hashes@, tx_key(tx))
                && final(self).pending() == pending_after(old(self).pending(), tx.from, tx_key(tx)),
    {
        if let Some(src) = &source {
            if !self.count_submission(src, now) {
                return Err(String::from_str("Rate limit exceeded for source"));
            }
        }
        let ghost pool0 = self.pool();
        proof { lemma_kv_len(self.transactions@); }
        if self.transactions.len() >= self.max_size {
            match self.cheapest_index() {
                Some(i) => {
                    if tx.gas_price > self.transactions[i].1.transaction.gas_price {
                        let ghost v = self.transactions@;
                        proof {
                            lemma_kv_at(v, i as int);
                            lemma_kv_remove(v, i as int);
                        }
                        let _dropped = self.transactions.remove(i);
                    } else {
                        proof {
                            lemma_kv_at(self.transactions@, i as int);
                            if evicts(pool0, self.max_size, tx) {
                                let k = choose|k: [u8; 32]| #[trigger] is_cheapest(pool0, k) && tx.gas_price > pool0[k].transaction.gas_price;
                            }
                        }
                        return Err(String::from_str("Mempool is full"));
                    }
                },
                None => {
                    proof {
                        if evicts(pool0, self.max_size, tx) {
                            let k = choose|k: [u8; 32]| #[trigger] is_cheapest(pool0, k) && tx.gas_price > pool0[k].transaction.gas_price;
                            let t = choose|t: int| 0 <= t < self.transactions@.len() && #[trigger] self.transactions@[t].0 == k;
                        }
                    }
                    return Err(String::from_str("Mempool is full"));
                },
            }
        }
        let ghost pool1 = self.pool();
        proof {
            assert(evicted_to(pool0, self.max_size, tx, pool1));
        }
        if tx.signature.data.len() == 0 {
            return Err(String::from_str("Transaction must be signed before adding to mempool"));
        }
        let base = self.current_base_fee;
        let threshold = if base > self.min_gas_price { base } else { self.min_gas_price };
        if tx.gas_price < threshold {
            let mut msg = String::from_str("Gas price ");
            msg.append(tx.gas_price.to_string().as_str());
            msg.append(" below minimum ");
            msg.append(threshold.to_string().as_str());
            return Err(msg);
        }
        if sender_balance == 0 {
            return Err(String::from_str("Sender account has zero balance"));
        }
        let tx_hash = tx.hash();
        proof {
            let c = tx_key(tx);
            assert(c@ == tx_hash_spec(tx));
            crate::hashing::lemma_hash_view_eq(c, tx_hash);
        }
        if find_hash_key(&self.transactions, &tx_hash).is_some() {
            return Err(String::from_str("Transaction already in mempool"));
        }
        let mut is_ready = true;
        let mut j: usize = 0;
        while j < parent_tx_hashes.len()
            invariant
                self.wf(),
                pool1 == self.pool(),
                0 <= j <= parent_tx_hashes@.len(),
                is_ready == (forall|t: int| 0 <= t < j ==> !pool1.contains_key(#[trigger] parent_tx_hashes@[t])),
            decreases parent_tx_hashes@.len() - j,
        {
            match find_hash_key(&self.transactions, &parent_tx_hashes[j]) {
                Some(q) => {
                    proof { lemma_kv_at(self.transactions@, q as int); }
                    is_ready = false;
                },
                None => {},
            }
            j = j + 1;
        }
        let from = tx.from;
        let ghost tx0 = tx;
        let parents_copy = copy_hashes(&parent_tx_hashes);
        let entry = MempoolTransaction { transaction: tx, parent_tx_hashes, timestamp: now, is_ready };
        let ghost v1 = self.transactions@;
        proof { lemma_kv_push(v1, tx_hash, entry); }
        self.transactions.push((tx_hash, entry));
        self.link_children(&parents_copy, &tx_hash);
        self.add_pending(from, tx_hash);
        proof {
            assert(self.pool() == pool1.insert(tx_hash, entry));
            assert(self.pool().dom() =~= pool1.dom().insert(tx_key(tx0)));
        }
        Ok(())
    }

    /// Admits `tx` at the current clock time; see `add_transaction_at`.
    pub fn add_transaction(
        &mut self,
        tx: Transaction,
        parent_tx_hashes: Vec<[u8; 32]>,
        source: Option<String>,
        sender_balance: u64,
    ) -> (r: Result<(), String>)
        requires
            old(self).wf(),
        ensures
            final(self).wf(),
            final(self).max_size_spec() == old(self).max_size_spec(),
            final(self).base_fee() == old(self).base_fee(),
            final(self).min_gas_price_spec() == old(self).min_gas_price_spec(),
            r is Ok ==> final(self).pool().contains_key(tx_key(tx)),
            exists|now: u64| #[trigger] admit_outcome(*old(self), *final(self), tx, parent_tx_hashes@, source, sender_balance, now, r),
    {
        let now = now_unix_secs();
        let ghost tx0 = tx;
        let ghost parents0 = parent_tx_hashes@;
        let ghost source0 = source;
        let r = self.add_transaction_at(tx, parent_tx_hashes, source, sender_balance, now);
        proof {
            assert(admit_outcome(*old(self), *self, tx0, parents0, source0, sender_balance, now, r));
            if r is Ok {
                let pool1 = choose|pool1: Map<[u8; 32], MempoolTransaction>| #[trigger] evicted_to(old(self).pool(), old(self).max_size_spec(), tx0, pool1)
                    && (admission_refused(pool1, tx0, old(self).base_fee(), old(self).min_gas_price_spec(), sender_balance) ==> r is Err && self.pool() == pool1)
                    && (!admission_refused(pool1, tx0, old(self).base_fee(), old(self).min_gas_price_spec(), sender_balance) ==> r is Ok && self.pool().dom() == pool1.dom().insert(tx_key(tx0))
                        && (forall|k: [u8; 32]| #[trigger] pool1.contains_key(k) ==> self.pool()[k] == pool1[k])
                        && admitted_entry(pool1, self.pool()[tx_key(tx0)], tx0, parent_tx_hashes@, now));
                assert(self.pool().dom().contains(tx_key(tx0)));
            }
        }
        r
    }

    /// Takes the transaction with hash `tx_hash` out of the pool, with its
    /// own dependant list and its place in its sender's pending list.
    pub fn remove_transaction(&mut self, tx_hash: &[u8; 32]) -> (r: Option<MempoolTransaction>)
        requires
            old(self).wf(),
        ensures
            final(self).wf(),
            r is Some <==> old(self).pool().contains_key(*tx_hash),
            r matches Some(e) ==> e == old(self).pool()[*tx_hash]
                && final(self).children() == old(self).children().remove(*tx_hash)
                && final(self).pending() == pending_without(old(self).pending(), e.transaction.from, *tx_hash),
            r is None ==> final(self).children() == old(self).children() && final(self).pending() == old(self).pending(),
            final(self).pool() == old(self).pool().remove(*tx_hash),
            final(self).rates() == old(self).rates(),
            final(self).max_size_spec() == old(self).max_size_spec(),
            final(self).base_fee() == old(self).base_fee(),
            final(self).min_gas_price_spec() == old(self).min_gas_price_spec(),
    {
        let i = match find_hash_key(&self.transactions, tx_hash) {
            Some(i) => i,
            None => {
                proof { assert(self.pool().remove(*tx_hash) =~= self.pool()); }
                return None;
            },
        };
        let ghost v = self.transactions@;
        proof {
            lemma_kv_at(v, i as int);
            lemma_kv_remove(v, i as int);
        }
        let removed = self.transactions.remove(i);
        let ghost pcm = self.parent_child_map@;
        match find_hash_key(&self.parent_child_map, tx_hash) {
            Some(j) => {
                proof { lemma_kv_remove(pcm, j as int); }
                let _kids = self.parent_child_map.remove(j);
                proof {
                    assert forall|t: int| 0 <= t < self.parent_child_map@.len() implies (#[trigger] self.parent_child_map@[t]).1@.no_duplicates() by {
                        if t < j { assert(self.parent_child_map@[t] == pcm[t]); } else { assert(self.parent_child_map@[t] == pcm[t + 1]); }
                    }
                    assert(self.children() =~= old(self).children().remove(*tx_hash));
                }
            },
            None => {
                proof { assert(self.children() =~= old(self).children().remove(*tx_hash)); }
            },
        }
        let from = removed.1.transaction.from;
        let ghost pend = self.pending_by_sender@;
        match find_address_key(&self.pending_by_sender, &from) {
            Some(j) => {
                proof { lemma_kv_at(pend, j as int); }
                let kept = drop_hash_exec(&self.pending_by_sender[j].1, tx_hash);
                self.pending_by_sender.set(j, (from, kept));
                proof {
                    lemma_kv_set(pend, j as int, kept);
                    assert(self.pending() =~= pending_without(old(self).pending(), from, *tx_hash));
                }
            },
            None => {},
        }
        Some(removed.1)
    }

    /// Checks the transaction's signature, amount and gas limit.
    pub fn validate_transaction(&self, tx: &Transaction) -> (r: Result<(), String>)
        ensures
            r is Ok <==> tx_valid_basic(*tx),
    {
        tx.validate_basic()?;
        if let TxPayload::Transfer { amount, .. } = &tx.payload {
            if *amount == 0 {
                return Err(String::from_str("Transaction amount must be > 0"));
            }
        }
        if tx.gas_limit == 0 {
            return Err(String::from_str("Gas limit must be > 0"));
        }
        Ok(())
    }

    /// The number of transactions held.
    pub fn tx_count(&self) -> (r: usize)
        requires
            self.wf(),
        ensures
            r == self.pool().len(),
    {
        proof { lemma_kv_len(self.transactions@); }
        self.transactions.len()
    }

    /// The number of transactions held.
    pub fn size(&self) -> (r: usize)
        requires
            self.wf(),
        ensures
            r == self.pool().len(),
    {
        self.tx_count()
    }

    /// Sets the current base fee.
    pub fn set_base_fee(&mut self, fee: u64)
        ensures
            final(self).base_fee() == fee,
            final(self).pool() == old(self).pool(),
            final(self).children() == old(self).children(),
            final(self).pending() == old(self).pending(),
            final(self).rates() == old(self).rates(),
            final(self).max_size_spec() == old(self).max_size_spec(),
            final(self).min_gas_price_spec() == old(self).min_gas_price_spec(),
            final(self).wf() == old(self).wf(),
    {
        self.current_base_fee = fee;
    }

    /// Drops every transaction, dependency and pending list; the rate-limit
    /// counters stay.
    pub fn clear(&mut self)
        requires
            old(self).wf(),
        ensures
            final(self).wf(),
            final(self).pool() == Map::<[u8; 32], MempoolTransaction>::empty(),
            final(self).children() == Map::<[u8; 32], Seq<[u8; 32]>>::empty(),
            final(self).pending() == Map::<Address, Seq<[u8; 32]>>::empty(),
            final(self).rates() == old(self).rates(),
            final(self).base_fee() == old(self).base_fee(),
            final(self).max_size_spec() == old(self).max_size_spec(),
            final(self).min_gas_price_spec() == old(self).min_gas_price_spec(),
    {
        self.transactions.clear();
        self.parent_child_map.clear();
        self.pending_by_sender.clear();
        proof {
            assert(self.pool() =~= Map::<[u8; 32], MempoolTransaction>::empty());
            assert(self.children() =~= Map::<[u8; 32], Seq<[u8; 32]>>::empty());
            assert(self.pending() =~= Map::<Address, Seq<[u8; 32]>>::empty());
        }
    }

    /// A copy of the transaction with hash `hash`, if held.
    pub fn get_transaction(&self, hash: &[u8; 32]) -> (r: Option<MempoolTransaction>)
        requires
            self.wf(),
        ensures
            r is Some <==> self.pool().contains_key(*hash),
            r matches Some(e) ==> same_entry(self.pool()[*hash], e),
    {
        match find_hash_key(&self.transactions, hash) {
            Some(i) => {
                proof { lemma_kv_at(self.transactions@, i as int); }
                Some(self.transactions[i].1.copy())
            },
            None => None,
        }
    }

    /// The pending transaction hashes of a sender; empty when none.
    pub fn get_sender_pending(&self, from: Address) -> (r: Vec<[u8; 32]>)
        requires
            self.wf(),
        ensures
            r@ == (if self.pending().contains_key(from) { self.pending()[from] } else { Seq::empty() }),
    {
        match find_address_key(&self.pending_by_sender, &from) {
            Some(i) => {
                proof { lemma_kv_at(self.pending_by_sender@, i as int); }
                copy_hashes(&self.pending_by_sender[i].1)
            },
            None => Vec::new(),
        }
    }

    /// Copies of every transaction held, each once.
    pub fn get_all_transactions(&self) -> (r: Vec<MempoolTransaction>)
        requires
            self.wf(),
        ensures
            r@.len() == self.pool().len(),
            forall|i: int| 0 <= i < r@.len() ==> held(self.pool(), #[trigger] r@[i]),
            forall|k: [u8; 32]| #[trigger] self.pool().contains_key(k) ==> exists|i: int| 0 <= i < r@.len() && same_entry(self.pool()[k], r@[i]),
    {
        proof { lemma_kv_len(self.transactions@); }
        let mut out: Vec<MempoolTransaction> = Vec::new();
        let mut i: usize = 0;
        while i < self.transactions.len()
            invariant
                self.wf(),
                0 <= i <= self.transactions@.len(),
                out@.len() == i,
                forall|j: int| 0 <= j < i ==> same_entry(self.transactions@[j].1, #[trigger] out@[j]),
            decreases self.transactions@.len() - i,
        {
            out.push(self.transactions[i].1.copy());
            i = i + 1;
        }
        proof {
            assert forall|j: int| 0 <= j < out@.len() implies held(self.pool(), #[trigger] out@[j]) by {
                lemma_kv_at(self.transactions@, j);
                assert(same_entry(self.transactions@[j].1, out@[j]));
            }
            assert forall|k: [u8; 32]| #[trigger] self.pool().contains_key(k) implies exists|j: int| 0 <= j < out@.len() && same_entry(self.pool()[k], out@[j]) by {
                let t = choose|t: int| 0 <= t < self.transactions@.len() && #[trigger] self.transactions@[t].0 == k;
                lemma_kv_at(self.transactions@, t);
                assert(same_entry(self.transactions@[t].1, out@[t]));
            }
        }
        out
    }

    /// Copies of the transactions ready to execute, in arrival order.
    pub fn get_ready_transactions(&self) -> (r: Vec<MempoolTransaction>)
        requires
            self.wf(),
        ensures
            forall|i: int| 0 <= i < r@.len() ==> (#[trigger] r@[i]).is_ready && held(self.pool(), r@[i]),
            forall|k: [u8; 32]| #[trigger] self.pool().contains_key(k) && self.pool()[k].is_ready ==> exists|i: int| 0 <= i < r@.len() && same_entry(self.pool()[k], r@[i]),
    {
        let mut out: Vec<MempoolTransaction> = Vec::new();
        let mut i: usize = 0;
        while i < self.transactions.len()
            invariant
                self.wf(),
                0 <= i <= self.transactions@.len(),
                forall|j: int| 0 <= j < out@.len() ==> (#[trigger] out@[j]).is_ready && exists|t: int| 0 <= t < i && same_entry(self.transactions@[t].1, out@[j]),
                forall|t: int| 0 <= t < i && (#[trigger] self.transactions@[t]).1.is_ready ==> exists|j: int| 0 <= j < out@.len() && same_entry(self.transactions@[t].1, out@[j]),
            decreases self.transactions@.len() - i,
        {
            if self.transactions[i].1.is_ready {
                let ghost before = out@;
                out.push(self.transactions[i].1.copy());
                proof {
                    assert forall|j: int| 0 <= j < out@.len() implies (#[trigger] out@[j]).is_ready && exists|t: int| 0 <= t < i + 1 && same_entry(self.transactions@[t].1, out@[j]) by {
                        if j < before.len() {
                            assert(out@[j] == before[j]);
                        }
                    }
                    assert forall|t: int| 0 <= t < i + 1 && (#[trigger] self.transactions@[t]).1.is_ready implies exists|j: int| 0 <= j < out@.len() && same_entry(self.transactions@[t].1, out@[j]) by {
                        if t < i {
                            let j = choose|j: int| 0 <= j < before.len() && same_entry(self.transactions@[t].1, before[j]);
                            assert(out@[j] == before[j]);
                        } else {
                            assert(same_entry(self.transactions@[t].1, out@[before.len() as int]));
                        }
                    }
                }
            }
            i = i + 1;
        }
        proof {
            assert forall|j: int| 0 <= j < out@.len() implies (#[trigger] out@[j]).is_ready && held(self.pool(), out@[j]) by {
                let t = choose|t: int| 0 <= t < i && same_entry(self.transactions@[t].1, out@[j]);
                lemma_kv_at(self.transactions@, t);
            }
            assert forall|k: [u8; 32]| #[trigger] self.pool().contains_key(k) && self.pool()[k].is_ready implies exists|j: int| 0 <= j < out@.len() && same_entry(self.pool()[k], out@[j]) by {
                let t = choose|t: int| 0 <= t < self.transactions@.len() && #[trigger] self.transactions@[t].0 == k;
                lemma_kv_at(self.transactions@, t);
                assert(self.transactions@[t].1.is_ready);
            }
        }
        out
    }
}

} // verus!
