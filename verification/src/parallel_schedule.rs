//! Conflict analysis of transactions and their grouping into batches that
//! can run concurrently.
use vstd::prelude::*;
use crate::hashing::{Address, BlockHash, address_eq, hash_eq, sha256, sha256_spec};
use crate::transaction::{Transaction, TxPayload, same_tx, tx_hash_spec};
use crate::kv::{keys_distinct, kv_has, kv_map, lemma_kv_at, lemma_kv_set, lemma_kv_push, find_hash_key};

verus! {

/// A transaction identifier: its hash.
pub type TxId = [u8; 32];

/// A piece of global state a transaction may read or write.
#[derive(Debug, Clone)]
pub enum StateKey {
    /// A whole account (balance and nonce).
    Account(Address),
    /// A contract's storage under a key; an empty key stands for all of it.
    ContractStorage(Address, Vec<u8>),
    /// A contract's registry entry.
    ContractRegistry(Address),
}

/// What a state key denotes: its kind, its address and its storage key.
pub open spec fn key_view(k: StateKey) -> (int, Seq<u8>, Seq<u8>) {
    match k {
        StateKey::Account(a) => (0, a@, Seq::empty()),
        StateKey::ContractStorage(a, s) => (1, a@, s@),
        StateKey::ContractRegistry(a) => (2, a@, Seq::empty()),
    }
}

/// The account key of an address.
pub open spec fn account_key(a: Seq<u8>) -> (int, Seq<u8>, Seq<u8>) {
    (0, a, Seq::empty())
}

/// The whole-storage key of a contract.
pub open spec fn storage_key(a: Seq<u8>) -> (int, Seq<u8>, Seq<u8>) {
    (1, a, Seq::empty())
}

/// The registry key of a contract.
pub open spec fn registry_key(a: Seq<u8>) -> (int, Seq<u8>, Seq<u8>) {
    (2, a, Seq::empty())
}

/// The address a deployment creates: the first 20 bytes of the SHA-256
/// digest of the code.
pub open spec fn deploy_address(code: Seq<u8>) -> Seq<u8> {
    sha256_spec(code).subrange(0, 20)
}

/// What a transaction reads: its sender, plus the recipient of a transfer
/// or the account, storage and registry entry of a called contract.
pub open spec fn reads_of(tx: Transaction) -> Set<(int, Seq<u8>, Seq<u8>)> {
    set![account_key(tx.from@)] + match tx.payload {
        TxPayload::Transfer { to, .. } => set![account_key(to@)],
        TxPayload::ContractDeploy { .. } => Set::empty(),
        TxPayload::ContractCall { contract_address, .. } => set![
            account_key(contract_address@),
            storage_key(contract_address@),
            registry_key(contract_address@),
        ],
    }
}

/// What a transaction writes: its sender, plus the recipient of a
/// transfer, the account, storage and registry entry a deployment
/// creates, or the account and storage of a called contract.
pub open spec fn writes_of(tx: Transaction) -> Set<(int, Seq<u8>, Seq<u8>)> {
    set![account_key(tx.from@)] + match tx.payload {
        TxPayload::Transfer { to, .. } => set![account_key(to@)],
        TxPayload::ContractDeploy { wasm_code, .. } => set![
            account_key(deploy_address(wasm_code@)),
            storage_key(deploy_address(wasm_code@)),
            registry_key(deploy_address(wasm_code@)),
        ],
        TxPayload::ContractCall { contract_address, .. } => set![
            account_key(contract_address@),
            storage_key(contract_address@),
        ],
    }
}

/// The keys of a list, by what they denote.
pub open spec fn key_set(v: Seq<StateKey>) -> Set<(int, Seq<u8>, Seq<u8>)> {
    Set::new(|x: (int, Seq<u8>, Seq<u8>)| exists|i: int| 0 <= i < v.len() && key_view(#[trigger] v[i]) == x)
}

/// No two keys of the list denote the same thing.
pub open spec fn keys_unique(v: Seq<StateKey>) -> bool {
    forall|i: int, j: int| 0 <= i < v.len() && 0 <= j < v.len() && i != j ==> key_view(#[trigger] v[i]) != key_view(#[trigger] v[j])
}

/// Two transactions conflict: one writes what the other reads or writes.
pub open spec fn tx_conflict(a: Transaction, b: Transaction) -> bool {
    !writes_of(a).disjoint(writes_of(b)) || !writes_of(a).disjoint(reads_of(b)) || !reads_of(a).disjoint(writes_of(b))
}

/// The keys a transaction reads and writes.
#[derive(Debug, Clone)]
pub struct TxAccessSet {
    pub reads: Vec<StateKey>,
    pub writes: Vec<StateKey>,
}

/// The access set describes `tx`.
pub open spec fn describes(s: TxAccessSet, tx: Transaction) -> bool {
    &&& keys_unique(s.reads@)
    &&& keys_unique(s.writes@)
    &&& key_set(s.reads@) == reads_of(tx)
    &&& key_set(s.writes@) == writes_of(tx)
}

/// Whether two keys denote the same thing.
fn same_state_key(a: &StateKey, b: &StateKey) -> (r: bool)
    ensures
        r == (key_view(*a) == key_view(*b)),
{
    match (a, b) {
        (StateKey::Account(x), StateKey::Account(y)) => {
            let r = address_eq(x, y);
            proof { if x@ == y@ { crate::hashing::lemma_address_view_eq(*x, *y); } }
            r
        },
        (StateKey::ContractRegistry(x), StateKey::ContractRegistry(y)) => {
            let r = address_eq(x, y);
            proof { if x@ == y@ { crate::hashing::lemma_address_view_eq(*x, *y); } }
            r
        },
        (StateKey::ContractStorage(x, s), StateKey::ContractStorage(y, t)) => {
            proof { if x@ == y@ { crate::hashing::lemma_address_view_eq(*x, *y); } }
            if !address_eq(x, y) {
                return false;
            }
            if s.len() != t.len() {
                proof { assert(s@.len() != t@.len()); }
                return false;
            }
            let mut i: usize = 0;
            while i < s.len()
                invariant
                    0 <= i <= s@.len(),
                    s@.len() == t@.len(),
                    key_view(*a) == (1int, x@, s@),
                    key_view(*b) == (1int, y@, t@),
                    forall|j: int| 0 <= j < i ==> s@[j] == t@[j],
                decreases s@.len() - i,
            {
                if s[i] != t[i] {
                    proof {
                        assert(s@[i as int] != t@[i as int]);
                        assert(s@ != t@);
                    }
                    return false;
                }
                i = i + 1;
            }
            assert(s@ =~= t@);
            true
        },
        _ => false,
    }
}

/// Adds `k` to a list of keys unless it holds it already.
fn insert_key(v: &mut Vec<StateKey>, k: StateKey)
    requires
        keys_unique(old(v)@),
    ensures
        keys_unique(final(v)@),
        key_set(final(v)@) == key_set(old(v)@).insert(key_view(k)),
{
    let ghost kv = key_view(k);
    let mut i: usize = 0;
    while i < v.len()
        invariant
            0 <= i <= v@.len(),
            v@ == old(v)@,
            keys_unique(old(v)@),
            kv == key_view(k),
            forall|j: int| 0 <= j < i ==> key_view(#[trigger] v@[j]) != kv,
        decreases v@.len() - i,
    {
        if same_state_key(&v[i], &k) {
            proof {
                assert(key_set(v@) =~= key_set(v@).insert(kv)) by {
                    assert(key_set(v@).contains(key_view(v@[i as int])));
                }
            }
            return;
        }
        i = i + 1;
    }
    let ghost before = v@;
    v.push(k);
    proof {
        assert(keys_unique(v@)) by {
            assert forall|a: int, b: int| 0 <= a < v@.len() && 0 <= b < v@.len() && a != b implies key_view(#[trigger] v@[a]) != key_view(#[trigger] v@[b]) by {
                if a < before.len() && b < before.len() {
                    assert(v@[a] == before[a] && v@[b] == before[b]);
                } else if a < before.len() {
                    assert(v@[a] == before[a]);
                } else {
                    assert(v@[b] == before[b]);
                }
            }
        }
        assert(key_set(v@) =~= key_set(before).insert(kv)) by {
            assert forall|x: (int, Seq<u8>, Seq<u8>)| key_set(v@).contains(x) <==> key_set(before).insert(kv).contains(x) by {
                if key_set(v@).contains(x) {
                    let t = choose|t: int| 0 <= t < v@.len() && key_view(#[trigger] v@[t]) == x;
                    if t < before.len() { assert(v@[t] == before[t]); }
                }
                if key_set(before).contains(x) {
                    let t = choose|t: int| 0 <= t < before.len() && key_view(#[trigger] before[t]) == x;
                    assert(v@[t] == before[t]);
                }
                if x == kv {
                    assert(key_view(v@[before.len() as int]) == x);
                }
            }
        }
    }
}

/// The address a deployment of `code` creates.
pub(crate) fn compute_deploy_address(code: &Vec<u8>) -> (r: Address)
    ensures
        r@ == deploy_address(code@),
{
    let digest = sha256(code.as_slice());
    let mut address: Address = [0u8; 20];
    let mut i: usize = 0;
    while i < 20
        invariant
            0 <= i <= 20,
            digest@ == sha256_spec(code@),
            forall|j: int| 0 <= j < i ==> address@[j] == digest@[j],
        decreases 20 - i,
    {
        address[i] = digest[i];
        i = i + 1;
    }
    assert(address@ =~= deploy_address(code@));
    address
}

/// The keys `tx` reads and writes.
pub fn analyze_access(tx: &Transaction) -> (r: TxAccessSet)
    ensures
        describes(r, *tx),
{
    let mut reads: Vec<StateKey> = Vec::new();
    let mut writes: Vec<StateKey> = Vec::new();
    proof {
        assert(key_set(reads@) =~= Set::empty());
        assert(key_set(writes@) =~= Set::empty());
    }
    insert_key(&mut reads, StateKey::Account(tx.from));
    insert_key(&mut writes, StateKey::Account(tx.from));
    match &tx.payload {
        TxPayload::Transfer { to, .. } => {
            insert_key(&mut reads, StateKey::Account(*to));
            insert_key(&mut writes, StateKey::Account(*to));
            proof {
                assert(key_set(reads@) =~= reads_of(*tx));
                assert(key_set(writes@) =~= writes_of(*tx));
            }
        },
        TxPayload::ContractDeploy { wasm_code, .. } => {
            let address = compute_deploy_address(wasm_code);
            insert_key(&mut writes, StateKey::Account(address));
            insert_key(&mut writes, StateKey::ContractStorage(address, Vec::new()));
            insert_key(&mut writes, StateKey::ContractRegistry(address));
            proof {
                assert(key_set(reads@) =~= reads_of(*tx));
                assert(key_set(writes@) =~= writes_of(*tx));
            }
        },
        TxPayload::ContractCall { contract_address, .. } => {
            insert_key(&mut reads, StateKey::Account(*contract_address));
            insert_key(&mut writes, StateKey::Account(*contract_address));
            insert_key(&mut reads, StateKey::ContractStorage(*contract_address, Vec::new()));
            insert_key(&mut writes, StateKey::ContractStorage(*contract_address, Vec::new()));
            insert_key(&mut reads, StateKey::ContractRegistry(*contract_address));
            proof {
                assert(key_set(reads@) =~= reads_of(*tx));
                assert(key_set(writes@) =~= writes_of(*tx));
            }
        },
    }
    TxAccessSet { reads, writes }
}

/// Whether two lists of keys share a key.
fn keys_overlap(a: &Vec<StateKey>, b: &Vec<StateKey>) -> (r: bool)
    ensures
        r == !key_set(a@).disjoint(key_set(b@)),
{
    let mut i: usize = 0;
    while i < a.len()
        invariant
            0 <= i <= a@.len(),
            forall|p: int, q: int| 0 <= p < i && 0 <= q < b@.len() ==> key_view(#[trigger] a@[p]) != key_view(#[trigger] b@[q]),
        decreases a@.len() - i,
    {
        let mut j: usize = 0;
        while j < b.len()
            invariant
                0 <= i < a@.len(),
                0 <= j <= b@.len(),
                forall|p: int, q: int| 0 <= p < i && 0 <= q < b@.len() ==> key_view(#[trigger] a@[p]) != key_view(#[trigger] b@[q]),
                forall|q: int| 0 <= q < j ==> key_view(a@[i as int]) != key_view(#[trigger] b@[q]),
            decreases b@.len() - j,
        {
            if same_state_key(&a[i], &b[j]) {
                proof {
                    assert(key_set(a@).contains(key_view(a@[i as int])));
                    assert(key_set(b@).contains(key_view(b@[j as int])));
                }
                return true;
            }
            j = j + 1;
        }
        i = i + 1;
    }
    proof {
        assert forall|x: (int, Seq<u8>, Seq<u8>)| key_set(a@).contains(x) implies !key_set(b@).contains(x) by {
            let p = choose|p: int| 0 <= p < a@.len() && key_view(#[trigger] a@[p]) == x;
            if key_set(b@).contains(x) {
                let q = choose|q: int| 0 <= q < b@.len() && key_view(#[trigger] b@[q]) == x;
                assert(key_view(a@[p]) != key_view(b@[q]));
            }
        }
    }
    false
}

/// Whether two access sets conflict: a write of one meets a read or write
/// of the other.
pub fn transactions_conflict(a: &TxAccessSet, b: &TxAccessSet) -> (r: bool)
    ensures
        r == (!key_set(a.writes@).disjoint(key_set(b.writes@)) || !key_set(a.writes@).disjoint(key_set(b.reads@))
            || !key_set(a.reads@).disjoint(key_set(b.writes@))),
{
    if keys_overlap(&a.writes, &b.writes) {
        return true;
    }
    if keys_overlap(&a.writes, &b.reads) {
        return true;
    }
    if keys_overlap(&a.reads, &b.writes) {
        return true;
    }
    false
}

/// `a` is the identifier of `tx`.
pub open spec fn id_of(a: TxId, tx: Transaction) -> bool {
    a@ == tx_hash_spec(tx)
}

/// Some conflicting pair among the first `i` rows of pairs (or the first
/// `j` pairs of row `i`) joins the transactions identified by `a` and `b`.
pub open spec fn edge_before(txs: Seq<Transaction>, a: TxId, b: TxId, i: int, j: int) -> bool {
    exists|p: int, q: int| #![trigger txs[p], txs[q]]
        0 <= p < q < txs.len() && (p < i || (p == i && q < j)) && tx_conflict(txs[p], txs[q])
        && ((id_of(a, txs[p]) && id_of(b, txs[q])) || (id_of(a, txs[q]) && id_of(b, txs[p])))
}

/// Two conflicting transactions of `txs` are identified by `a` and `b`.
pub open spec fn graph_edge(txs: Seq<Transaction>, a: TxId, b: TxId) -> bool {
    edge_before(txs, a, b, txs.len() as int, 0)
}

/// The conflict graph: each identifier with the identifiers it conflicts with.
#[derive(Debug, Clone)]
pub struct TxConflictGraph {
    pub edges: Vec<(TxId, Vec<TxId>)>,
}

/// `b` is listed as a neighbour of `a`.
pub open spec fn has_edge(edges: Seq<(TxId, Vec<TxId>)>, a: TxId, b: TxId) -> bool {
    kv_map(edges).contains_key(a) && kv_map(edges)[a]@.contains(b)
}

/// Neighbour lists hold no duplicates, and every listed key has a neighbour.
pub open spec fn graph_wf(edges: Seq<(TxId, Vec<TxId>)>) -> bool {
    &&& keys_distinct(edges)
    &&& forall|i: int| 0 <= i < edges.len() ==> (#[trigger] edges[i]).1@.no_duplicates() && edges[i].1@.len() > 0
}

/// Records `b` as a neighbour of `a`.
fn add_edge(edges: &mut Vec<(TxId, Vec<TxId>)>, a: TxId, b: TxId)
    requires
        graph_wf(old(edges)@),
    ensures
        graph_wf(final(edges)@),
        forall|x: TxId, y: TxId| #[trigger] has_edge(final(edges)@, x, y) <==> (has_edge(old(edges)@, x, y) || (x == a && y == b)),
{
    let ghost e0 = edges@;
    match find_hash_key(edges, &a) {
        Some(i) => {
            proof { lemma_kv_at(e0, i as int); }
            if !crate::hashing::contains_hash(&edges[i].1, &b) {
                let mut nb = crate::hashing::copy_hashes(&edges[i].1);
                let ghost old_nb = nb@;
                nb.push(b);
                proof {
                    assert(nb@.no_duplicates()) by {
                        assert forall|p: int, q: int| 0 <= p < nb@.len() && 0 <= q < nb@.len() && p != q implies nb@[p] != nb@[q] by {
                            if p < old_nb.len() && q < old_nb.len() {
                                assert(e0[i as int].1@.no_duplicates());
                            } else if p < old_nb.len() {
                                assert(old_nb.contains(nb@[p]));
                            } else {
                                assert(old_nb.contains(nb@[q]));
                            }
                        }
                    }
                }
                edges.set(i, (a, nb));
                proof {
                    lemma_kv_set(e0, i as int, nb);
                    assert forall|t: int| 0 <= t < edges@.len() implies (#[trigger] edges@[t]).1@.no_duplicates() && edges@[t].1@.len() > 0 by {
                        if t != i { assert(edges@[t] == e0[t]); }
                    }
                    assert forall|x: TxId, y: TxId| #[trigger] has_edge(edges@, x, y) <==> (has_edge(e0, x, y) || (x == a && y == b)) by {
                        if x == a {
                            assert(kv_map(edges@)[a]@ == old_nb.push(b));
                            if old_nb.contains(y) {
                                let t = choose|t: int| 0 <= t < old_nb.len() && old_nb[t] == y;
                                assert(old_nb.push(b)[t] == y);
                            }
                            if old_nb.push(b).contains(y) && y != b {
                                let t = choose|t: int| 0 <= t < old_nb.push(b).len() && old_nb.push(b)[t] == y;
                                assert(old_nb[t] == y);
                            }
                            if y == b {
                                assert(old_nb.push(b)[old_nb.len() as int] == y);
                            }
                        }
                    }
                }
            }
        },
        None => {
            let mut nb: Vec<TxId> = Vec::new();
            nb.push(b);
            edges.push((a, nb));
            proof {
                lemma_kv_push(e0, a, nb);
                assert(nb@ =~= seq![b]);
                assert forall|t: int| 0 <= t < edges@.len() implies (#[trigger] edges@[t]).1@.no_duplicates() && edges@[t].1@.len() > 0 by {
                    if t < e0.len() { assert(edges@[t] == e0[t]); }
                }
                assert forall|x: TxId, y: TxId| #[trigger] has_edge(edges@, x, y) <==> (has_edge(e0, x, y) || (x == a && y == b)) by {
                    if x == a {
                        assert(!kv_map(e0).contains_key(a));
                        if y == b { assert(nb@[0] == y); }
                    }
                }
            }
        },
    }
}

/// The conflict graph of `txs`: identifiers are joined when some pair of
/// transactions they identify conflicts.
pub fn build_conflict_graph(txs: &[Transaction]) -> (r: TxConflictGraph)
    ensures
        graph_wf(r.edges@),
        forall|a: TxId, b: TxId| #[trigger] has_edge(r.edges@, a, b) <==> graph_edge(txs@, a, b),
{
    let n = txs.len();
    let mut access: Vec<TxAccessSet> = Vec::new();
    let mut ids: Vec<TxId> = Vec::new();
    let mut k: usize = 0;
    while k < n
        invariant
            n == txs@.len(),
            0 <= k <= n,
            access@.len() == k,
            ids@.len() == k,
            forall|t: int| #![trigger access@[t]] #![trigger ids@[t]] 0 <= t < k ==> describes(access@[t], txs@[t]) && id_of(ids@[t], txs@[t]),
        decreases n - k,
    {
        let acc = analyze_access(&txs[k]);
        let id = txs[k].hash();
        let ghost a0 = access@;
        let ghost i0 = ids@;
        access.push(acc);
        ids.push(id);
        proof {
            assert forall|t: int| #![trigger access@[t]] #![trigger ids@[t]] 0 <= t < k + 1 implies describes(access@[t], txs@[t]) && id_of(ids@[t], txs@[t]) by {
                if t < k {
                    assert(access@[t] == a0[t]);
                    assert(ids@[t] == i0[t]);
                }
            }
        }
        k = k + 1;
    }
    assert(forall|t: int| 0 <= t < n ==> describes(#[trigger] access@[t], txs@[t]) && id_of(ids@[t], txs@[t]));
    let mut edges: Vec<(TxId, Vec<TxId>)> = Vec::new();
    let mut i: usize = 0;
    while i < n
        invariant
            n == txs@.len(),
            access@.len() == n,
            ids@.len() == n,
            forall|t: int| #![trigger access@[t]] #![trigger ids@[t]] 0 <= t < n ==> describes(access@[t], txs@[t]) && id_of(ids@[t], txs@[t]),
            0 <= i <= n,
            graph_wf(edges@),
            forall|a: TxId, b: TxId| #[trigger] has_edge(edges@, a, b) <==> edge_before(txs@, a, b, i as int, 0),
        decreases n - i,
    {
        let mut j: usize = i + 1;
        proof {
            assert forall|a: TxId, b: TxId| edge_before(txs@, a, b, i as int, 0) <==> edge_before(txs@, a, b, i as int, (i + 1) as int) by {
                if edge_before(txs@, a, b, i as int, (i + 1) as int) {
                    let (p, q) = choose|p: int, q: int| #![trigger txs@[p], txs@[q]]
                        0 <= p < q < txs@.len() && (p < i || (p == i && q < i + 1)) && tx_conflict(txs@[p], txs@[q])
                        && ((id_of(a, txs@[p]) && id_of(b, txs@[q])) || (id_of(a, txs@[q]) && id_of(b, txs@[p])));
                }
            }
        }
        while j < n
            invariant
                n == txs@.len(),
                access@.len() == n,
                ids@.len() == n,
                forall|t: int| #![trigger access@[t]] #![trigger ids@[t]] 0 <= t < n ==> describes(access@[t], txs@[t]) && id_of(ids@[t], txs@[t]),
                0 <= i < n,
                i + 1 <= j <= n,
                graph_wf(edges@),
                forall|a: TxId, b: TxId| #[trigger] has_edge(edges@, a, b) <==> edge_before(txs@, a, b, i as int, j as int),
            decreases n - j,
        {
            let c = transactions_conflict(&access[i], &access[j]);
            proof {
                assert(describes(access@[i as int], txs@[i as int]));
                assert(describes(access@[j as int], txs@[j as int]));
                assert(c == tx_conflict(txs@[i as int], txs@[j as int]));
            }
            let ghost e_before = edges@;
            if c {
                add_edge(&mut edges, ids[i], ids[j]);
                add_edge(&mut edges, ids[j], ids[i]);
            }
            proof {
                assert forall|a: TxId, b: TxId| #[trigger] has_edge(edges@, a, b) <==> edge_before(txs@, a, b, i as int, (j + 1) as int) by {
                    if edge_before(txs@, a, b, i as int, (j + 1) as int) && !edge_before(txs@, a, b, i as int, j as int) {
                        let (p, q) = choose|p: int, q: int| #![trigger txs@[p], txs@[q]]
                            0 <= p < q < txs@.len() && (p < i || (p == i && q < j + 1)) && tx_conflict(txs@[p], txs@[q])
                            && ((id_of(a, txs@[p]) && id_of(b, txs@[q])) || (id_of(a, txs@[q]) && id_of(b, txs@[p])));
                        assert(p == i && q == j);
                        assert(id_of(ids@[p], txs@[p]) && id_of(ids@[q], txs@[q]));
                        if id_of(a, txs@[p]) && id_of(b, txs@[q]) {
                            crate::hashing::lemma_hash_view_eq(a, ids@[p]);
                            crate::hashing::lemma_hash_view_eq(b, ids@[q]);
                        } else {
                            crate::hashing::lemma_hash_view_eq(a, ids@[q]);
                            crate::hashing::lemma_hash_view_eq(b, ids@[p]);
                        }
                    }
                    if has_edge(edges@, a, b) && !has_edge(e_before, a, b) {
                        assert(c);
                        assert(tx_conflict(txs@[i as int], txs@[j as int]));
                        assert(edge_before(txs@, a, b, i as int, (j + 1) as int));
                    }
                    if edge_before(txs@, a, b, i as int, j as int) {
                        let (p, q) = choose|p: int, q: int| #![trigger txs@[p], txs@[q]]
                            0 <= p < q < txs@.len() && (p < i || (p == i && q < j)) && tx_conflict(txs@[p], txs@[q])
                            && ((id_of(a, txs@[p]) && id_of(b, txs@[q])) || (id_of(a, txs@[q]) && id_of(b, txs@[p])));
                        assert(edge_before(txs@, a, b, i as int, (j + 1) as int));
                    }
                }
            }
            j = j + 1;
        }
        proof {
            assert forall|a: TxId, b: TxId| edge_before(txs@, a, b, i as int, n as int) <==> edge_before(txs@, a, b, (i + 1) as int, 0) by {
                if edge_before(txs@, a, b, i as int, n as int) {
                    let (p, q) = choose|p: int, q: int| #![trigger txs@[p], txs@[q]]
                        0 <= p < q < txs@.len() && (p < i || (p == i && q < n)) && tx_conflict(txs@[p], txs@[q])
                        && ((id_of(a, txs@[p]) && id_of(b, txs@[q])) || (id_of(a, txs@[q]) && id_of(b, txs@[p])));
                    assert(edge_before(txs@, a, b, (i + 1) as int, 0));
                }
                if edge_before(txs@, a, b, (i + 1) as int, 0) {
                    let (p, q) = choose|p: int, q: int| #![trigger txs@[p], txs@[q]]
                        0 <= p < q < txs@.len() && (p < i + 1 || (p == i + 1 && q < 0)) && tx_conflict(txs@[p], txs@[q])
                        && ((id_of(a, txs@[p]) && id_of(b, txs@[q])) || (id_of(a, txs@[q]) && id_of(b, txs@[p])));
                    assert(edge_before(txs@, a, b, i as int, n as int));
                }
            }
        }
        i = i + 1;
    }
    TxConflictGraph { edges }
}

} // verus!
