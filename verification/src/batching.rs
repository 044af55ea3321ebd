//! Greedy colouring of the conflict graph and the grouping of transactions
//! into batches that can run concurrently.
use vstd::prelude::*;
use crate::hashing::hash_eq;
use crate::transaction::{Transaction, same_tx, same_txs, tx_hash_spec};
use crate::kv::{kv_has, kv_map, lemma_kv_at, find_hash_key};
use crate::parallel_schedule::{
    TxId, TxConflictGraph, tx_conflict, reads_of, writes_of, id_of, graph_edge, has_edge, graph_wf, build_conflict_graph,
};

verus! {

/// The hashes of a list of transactions.
pub open spec fn hashes_of(txs: Seq<Transaction>) -> Seq<Seq<u8>> {
    Seq::new(txs.len(), |t: int| tx_hash_spec(txs[t]))
}

/// The views of a list of identifiers.
pub open spec fn id_views(v: Seq<TxId>) -> Seq<Seq<u8>> {
    Seq::new(v.len(), |t: int| v[t]@)
}

/// The last position below `m` that holds `h`, or -1.
pub open spec fn last_in(hs: Seq<Seq<u8>>, h: Seq<u8>, m: int) -> int
    decreases m,
{
    if m <= 0 {
        -1
    } else if hs[m - 1] == h {
        m - 1
    } else {
        last_in(hs, h, m - 1)
    }
}

/// The last position of `txs` holding a transaction with the hash of the
/// one at `i`.
pub open spec fn last_index(txs: Seq<Transaction>, i: int) -> int {
    last_in(hashes_of(txs), tx_hash_spec(txs[i]), txs.len() as int)
}

/// Some conflicting pair of `txs` has the hashes `x` and `y`.
pub open spec fn hash_edge(txs: Seq<Transaction>, x: Seq<u8>, y: Seq<u8>) -> bool {
    exists|p: int, q: int| #![trigger txs[p], txs[q]]
        0 <= p < q < txs.len() && tx_conflict(txs[p], txs[q])
        && ((tx_hash_spec(txs[p]) == x && tx_hash_spec(txs[q]) == y) || (tx_hash_spec(txs[q]) == x && tx_hash_spec(txs[p]) == y))
}

/// The least colour not in `s`.
pub open spec fn mex(s: Set<nat>) -> nat {
    choose|c: nat| !s.contains(c) && forall|d: nat| d < c ==> s.contains(d)
}

/// The colours the transaction at `i` must avoid: those held, in `cols`, by
/// the last copy of each hash it conflicts with.
pub open spec fn forbidden_colors(txs: Seq<Transaction>, cols: Seq<nat>, i: int) -> Set<nat> {
    Set::new(|c: nat| exists|j: int| #![trigger cols[j]]
        0 <= j < txs.len() && last_index(txs, j) == j
        && hash_edge(txs, tx_hash_spec(txs[i]), tx_hash_spec(txs[j])) && cols[j] == c)
}

/// The colours after the first `k` transactions are coloured in order;
/// the others still hold colour 0.
pub open spec fn colors_upto(txs: Seq<Transaction>, k: nat) -> Seq<nat>
    decreases k,
{
    if k == 0 {
        Seq::new(txs.len(), |t: int| 0nat)
    } else {
        let prev = colors_upto(txs, (k - 1) as nat);
        prev.update(k - 1, mex(forbidden_colors(txs, prev, k - 1)))
    }
}

/// The greedy colouring of `txs`.
pub open spec fn greedy_colors(txs: Seq<Transaction>) -> Seq<nat> {
    colors_upto(txs, txs.len())
}

/// Colours as natural numbers.
pub open spec fn nat_view(v: Seq<usize>) -> Seq<nat> {
    Seq::new(v.len(), |t: int| v[t] as nat)
}

proof fn lemma_last_in(hs: Seq<Seq<u8>>, h: Seq<u8>, m: int)
    requires
        0 <= m <= hs.len(),
    ensures
        last_in(hs, h, m) == -1 ==> forall|k: int| 0 <= k < m ==> hs[k] != h,
        last_in(hs, h, m) != -1 ==> 0 <= last_in(hs, h, m) < m && hs[last_in(hs, h, m)] == h
            && forall|k: int| last_in(hs, h, m) < k < m ==> hs[k] != h,
    decreases m,
{
    if m > 0 {
        lemma_last_in(hs, h, m - 1);
    }
}

proof fn lemma_colors_len(txs: Seq<Transaction>, k: nat)
    requires
        k <= txs.len(),
    ensures
        colors_upto(txs, k).len() == txs.len(),
    decreases k,
{
    if k > 0 {
        lemma_colors_len(txs, (k - 1) as nat);
    }
}

/// Once coloured, a transaction keeps its colour.
proof fn lemma_colors_frozen(txs: Seq<Transaction>, i: int, k: nat)
    requires
        0 <= i < k <= txs.len(),
    ensures
        colors_upto(txs, k)[i] == colors_upto(txs, (i + 1) as nat)[i],
    decreases k,
{
    if k > i + 1 {
        lemma_colors_frozen(txs, i, (k - 1) as nat);
        lemma_colors_len(txs, (k - 1) as nat);
    }
}

/// If every value below `m` occurs in `s`, then `s` has at least `m` entries.
proof fn lemma_covered_prefix(s: Seq<nat>, m: nat)
    requires
        forall|d: nat| d < m ==> s.contains(d),
    ensures
        m <= s.len(),
{
    let image = s.map_values(|x: nat| x as int).to_set();
    let range = vstd::set_lib::set_int_range(0, m as int);
    assert(range.subset_of(image)) by {
        assert forall|d: int| range.contains(d) implies image.contains(d) by {
            let dn = d as nat;
            assert(dn < m);
            assert(s.contains(dn));
            let t = choose|t: int| 0 <= t < s.len() && s[t] == dn;
            assert(s.map_values(|x: nat| x as int)[t] == d);
        }
    }
    vstd::set_lib::lemma_int_range(0, m as int);
    vstd::seq_lib::seq_to_set_is_finite(s.map_values(|x: nat| x as int));
    vstd::set_lib::lemma_len_subset(range, image);
    s.map_values(|x: nat| x as int).lemma_cardinality_of_set();
}

/// A colour outside `s` below which `s` holds every colour is `mex(s)`.
proof fn lemma_mex_unique(s: Set<nat>, c: nat)
    requires
        !s.contains(c),
        forall|d: nat| d < c ==> s.contains(d),
    ensures
        mex(s) == c,
{
    let m = mex(s);
    assert(!s.contains(m) && forall|d: nat| d < m ==> s.contains(d));
    if m < c {
        assert(s.contains(m));
    } else if c < m {
        assert(s.contains(c));
    }
}

/// Below any colour outside `s` lies a least one.
proof fn lemma_mex_exists(s: Set<nat>, c: nat)
    requires
        !s.contains(c),
    ensures
        !s.contains(mex(s)),
        forall|d: nat| d < mex(s) ==> s.contains(d),
    decreases c,
{
    if forall|d: nat| d < c ==> s.contains(d) {
        lemma_mex_unique(s, c);
    } else {
        let d = choose|d: nat| d < c && !s.contains(d);
        lemma_mex_exists(s, d);
    }
}

/// The forbidden colours are among the colours held, so one of `0..=n`
/// is free and `mex` is outside the set.
proof fn lemma_mex_free(txs: Seq<Transaction>, cols: Seq<nat>, i: int)
    requires
        cols.len() == txs.len(),
    ensures
        !forbidden_colors(txs, cols, i).contains(mex(forbidden_colors(txs, cols, i))),
{
    let s = forbidden_colors(txs, cols, i);
    let n = txs.len();
    if forall|d: nat| d <= n ==> s.contains(d) {
        assert forall|d: nat| d < n + 1 implies cols.contains(d) by {
            assert(s.contains(d));
            let j = choose|j: int| #![trigger cols[j]]
                0 <= j < txs.len() && last_index(txs, j) == j
                && hash_edge(txs, tx_hash_spec(txs[i]), tx_hash_spec(txs[j])) && cols[j] == d;
            assert(cols[j] == d);
        }
        lemma_covered_prefix(cols, (n + 1) as nat);
    } else {
        let c = choose|c: nat| c <= n && !s.contains(c);
        lemma_mex_exists(s, c);
    }
}

/// A conflicting pair is an edge between their hashes.
proof fn lemma_pair_edge(txs: Seq<Transaction>, i: int, j: int)
    requires
        0 <= i < j < txs.len(),
        tx_conflict(txs[i], txs[j]),
    ensures
        hash_edge(txs, tx_hash_spec(txs[j]), tx_hash_spec(txs[i])),
        hash_edge(txs, tx_hash_spec(txs[i]), tx_hash_spec(txs[j])),
{
}

/// An edge of the conflict graph joins the hashes of a conflicting pair.
proof fn lemma_graph_edge_hashes(txs: Seq<Transaction>, a: TxId, b: TxId)
    ensures
        graph_edge(txs, a, b) <==> hash_edge(txs, a@, b@),
{
    if graph_edge(txs, a, b) {
        let (p, q) = choose|p: int, q: int| #![trigger txs[p], txs[q]]
            0 <= p < q < txs.len() && (p < txs.len() || (p == txs.len() && q < 0)) && tx_conflict(txs[p], txs[q])
            && ((id_of(a, txs[p]) && id_of(b, txs[q])) || (id_of(a, txs[q]) && id_of(b, txs[p])));
        assert(hash_edge(txs, a@, b@));
    }
    if hash_edge(txs, a@, b@) {
        let (p, q) = choose|p: int, q: int| #![trigger txs[p], txs[q]]
            0 <= p < q < txs.len() && tx_conflict(txs[p], txs[q])
            && ((tx_hash_spec(txs[p]) == a@ && tx_hash_spec(txs[q]) == b@) || (tx_hash_spec(txs[q]) == a@ && tx_hash_spec(txs[p]) == b@));
        assert(graph_edge(txs, a, b));
    }
}

/// The last position of `ids` whose identifier is `h`.
fn last_position(ids: &Vec<TxId>, h: &TxId) -> (r: usize)
    requires
        exists|t: int| 0 <= t < ids@.len() && ids@[t]@ == h@,
    ensures
        r as int == last_in(id_views(ids@), h@, ids@.len() as int),
        r < ids@.len(),
{
    let ghost hs = id_views(ids@);
    let mut i: usize = ids.len();
    while i > 0
        invariant
            0 <= i <= ids@.len(),
            hs == id_views(ids@),
            exists|t: int| 0 <= t < ids@.len() && ids@[t]@ == h@,
            last_in(hs, h@, ids@.len() as int) == last_in(hs, h@, i as int),
        decreases i,
    {
        if hash_eq(&ids[i - 1], h) {
            proof {
                assert(hs[i - 1] == h@);
                lemma_last_in(hs, h@, ids@.len() as int);
            }
            return i - 1;
        }
        proof {
            if hs[i - 1] == h@ {
                crate::hashing::lemma_hash_view_eq(ids@[i - 1], *h);
            }
        }
        i = i - 1;
    }
    proof {
        lemma_last_in(hs, h@, ids@.len() as int);
        let t = choose|t: int| 0 <= t < ids@.len() && ids@[t]@ == h@;
        assert(hs[t] == h@);
    }
    0
}

/// Whether colour `c` occurs in `v`.
fn holds_color(v: &Vec<usize>, c: usize) -> (r: bool)
    ensures
        r == nat_view(v@).contains(c as nat),
{
    let mut t: usize = 0;
    while t < v.len()
        invariant
            0 <= t <= v@.len(),
            forall|w: int| 0 <= w < t ==> v@[w] != c,
        decreases v@.len() - t,
    {
        if v[t] == c {
            proof { assert(nat_view(v@)[t as int] == c as nat); }
            return true;
        }
        t = t + 1;
    }
    proof {
        if nat_view(v@).contains(c as nat) {
            let w = choose|w: int| 0 <= w < nat_view(v@).len() && nat_view(v@)[w] == c as nat;
            assert(v@[w] == c);
        }
    }
    false
}

/// The least colour that does not occur in `v`.
fn least_free(v: &Vec<usize>) -> (r: usize)
    ensures
        !nat_view(v@).contains(r as nat),
        forall|d: nat| d < r ==> nat_view(v@).contains(d),
{
    let mut c: usize = 0;
    while holds_color(v, c)
        invariant
            c <= v@.len(),
            forall|d: nat| d < c ==> nat_view(v@).contains(d),
        decreases v@.len() - c,
    {
        proof {
            assert forall|d: nat| d < c + 1 implies nat_view(v@).contains(d) by {}
            lemma_covered_prefix(nat_view(v@), (c + 1) as nat);
        }
        assert(v.len() == v@.len());
        c = c + 1;
    }
    c
}

/// The colours of the last copies of the hashes the transaction at `i`
/// conflicts with.
fn forbidden_of(txs: &Vec<Transaction>, graph: &TxConflictGraph, ids: &Vec<TxId>, colors: &Vec<usize>, i: usize) -> (r: Vec<usize>)
    requires
        graph_wf(graph.edges@),
        forall|a: TxId, b: TxId| #[trigger] has_edge(graph.edges@, a, b) <==> graph_edge(txs@, a, b),
        ids@.len() == txs@.len(),
        colors@.len() == txs@.len(),
        id_views(ids@) == hashes_of(txs@),
        i < txs@.len(),
    ensures
        forall|c: nat| forbidden_colors(txs@, nat_view(colors@), i as int).contains(c) <==> #[trigger] nat_view(r@).contains(c),
{
    let n = txs.len();
    let ghost hs = hashes_of(txs@);
    let ghost cols = nat_view(colors@);
    let ghost fset = forbidden_colors(txs@, cols, i as int);
    let h = ids[i];
    assert(h@ == hs[i as int]);
    let mut fb: Vec<usize> = Vec::new();
    match find_hash_key(&graph.edges, &h) {
        None => {
            proof {
                assert forall|c: nat| fset.contains(c) <==> #[trigger] nat_view(fb@).contains(c) by {
                    if fset.contains(c) {
                        let j = choose|j: int| #![trigger cols[j]]
                            0 <= j < txs@.len() && last_index(txs@, j) == j
                            && hash_edge(txs@, tx_hash_spec(txs@[i as int]), tx_hash_spec(txs@[j])) && cols[j] == c;
                        assert(ids@[j]@ == hs[j]);
                        lemma_graph_edge_hashes(txs@, h, ids@[j]);
                        assert(has_edge(graph.edges@, h, ids@[j]));
                        assert(kv_has(graph.edges@, h));
                    }
                }
            }
        },
        Some(k) => {
            proof { lemma_kv_at(graph.edges@, k as int); }
            let nb = &graph.edges[k].1;
            assert(kv_map(graph.edges@)[h] == *nb);
            let mut u: usize = 0;
            while u < nb.len()
                invariant
                    n == txs@.len(),
                    ids@.len() == n,
                    colors@.len() == n,
                    id_views(ids@) == hs,
                    hs == hashes_of(txs@),
                    cols == nat_view(colors@),
                    kv_map(graph.edges@).contains_key(h),
                    kv_map(graph.edges@)[h] == *nb,
                    forall|a: TxId, b: TxId| #[trigger] has_edge(graph.edges@, a, b) <==> graph_edge(txs@, a, b),
                    0 <= u <= nb@.len(),
                    fb@.len() == u,
                    forall|w: int| 0 <= w < u ==> 0 <= #[trigger] last_in(hs, nb@[w]@, n as int) < n
                        && fb@[w] as nat == cols[last_in(hs, nb@[w]@, n as int)],
                decreases nb@.len() - u,
            {
                let ghost y = nb@[u as int];
                proof {
                    assert(has_edge(graph.edges@, h, y));
                    lemma_graph_edge_hashes(txs@, h, y);
                    let (p, q) = choose|p: int, q: int| #![trigger txs@[p], txs@[q]]
                        0 <= p < q < txs@.len() && tx_conflict(txs@[p], txs@[q])
                        && ((tx_hash_spec(txs@[p]) == h@ && tx_hash_spec(txs@[q]) == y@) || (tx_hash_spec(txs@[q]) == h@ && tx_hash_spec(txs@[p]) == y@));
                    assert(hs[p] == tx_hash_spec(txs@[p]) && hs[q] == tx_hash_spec(txs@[q]));
                    assert(id_views(ids@)[p] == ids@[p]@ && id_views(ids@)[q] == ids@[q]@);
                }
                let pos = last_position(ids, &nb[u]);
                proof { lemma_last_in(hs, y@, n as int); }
                fb.push(colors[pos]);
                proof {
                    assert(fb@[u as int] as nat == cols[pos as int]);
                }
                u = u + 1;
            }
            proof {
                assert forall|c: nat| fset.contains(c) <==> #[trigger] nat_view(fb@).contains(c) by {
                    if fset.contains(c) {
                        let j = choose|j: int| #![trigger cols[j]]
                            0 <= j < txs@.len() && last_index(txs@, j) == j
                            && hash_edge(txs@, tx_hash_spec(txs@[i as int]), tx_hash_spec(txs@[j])) && cols[j] == c;
                        assert(ids@[j]@ == hs[j]);
                        lemma_graph_edge_hashes(txs@, h, ids@[j]);
                        assert(has_edge(graph.edges@, h, ids@[j]));
                        assert(nb@.contains(ids@[j]));
                        let w = choose|w: int| 0 <= w < nb@.len() && nb@[w] == ids@[j];
                        assert(0 <= last_in(hs, nb@[w]@, n as int) < n);
                        assert(nat_view(fb@)[w] == c);
                    }
                    if nat_view(fb@).contains(c) {
                        let w = choose|w: int| 0 <= w < nat_view(fb@).len() && nat_view(fb@)[w] == c;
                        let y = nb@[w];
                        let j = last_in(hs, y@, n as int);
                        assert(0 <= j < n);
                        lemma_last_in(hs, y@, n as int);
                        assert(nb@.contains(y));
                        assert(has_edge(graph.edges@, h, y));
                        lemma_graph_edge_hashes(txs@, h, y);
                        assert(hs[j] == tx_hash_spec(txs@[j]));
                        assert(last_index(txs@, j) == j);
                        assert(cols[j] == c);
                    }
                }
            }
        },
    }
    fb
}

/// Colours `txs` greedily in order: each transaction takes the least colour
/// not held by the last copy of any hash it conflicts with.
fn greedy_coloring(txs: &Vec<Transaction>, graph: &TxConflictGraph, ids: &Vec<TxId>) -> (r: Vec<usize>)
    requires
        graph_wf(graph.edges@),
        forall|a: TxId, b: TxId| #[trigger] has_edge(graph.edges@, a, b) <==> graph_edge(txs@, a, b),
        ids@.len() == txs@.len(),
        id_views(ids@) == hashes_of(txs@),
    ensures
        nat_view(r@) == greedy_colors(txs@),
{
    let n = txs.len();
    let mut colors: Vec<usize> = Vec::new();
    let mut t: usize = 0;
    while t < n
        invariant
            0 <= t <= n,
            colors@.len() == t,
            forall|w: int| 0 <= w < t ==> colors@[w] == 0,
        decreases n - t,
    {
        colors.push(0);
        t = t + 1;
    }
    proof {
        assert(nat_view(colors@) =~= colors_upto(txs@, 0));
    }
    let mut i: usize = 0;
    while i < n
        invariant
            n == txs@.len(),
            graph_wf(graph.edges@),
            forall|a: TxId, b: TxId| #[trigger] has_edge(graph.edges@, a, b) <==> graph_edge(txs@, a, b),
            ids@.len() == n,
            id_views(ids@) == hashes_of(txs@),
            0 <= i <= n,
            colors@.len() == n,
            nat_view(colors@) == colors_upto(txs@, i as nat),
        decreases n - i,
    {
        let fb = forbidden_of(txs, graph, ids, &colors, i);
        let c = least_free(&fb);
        proof {
            let s = forbidden_colors(txs@, nat_view(colors@), i as int);
            assert(!s.contains(c as nat));
            assert forall|d: nat| d < c implies s.contains(d) by {
                assert(nat_view(fb@).contains(d));
            }
            lemma_mex_unique(s, c as nat);
        }
        colors.set(i, c);
        proof {
            lemma_colors_len(txs@, i as nat);
            assert(nat_view(colors@) =~= colors_upto(txs@, (i + 1) as nat));
        }
        i = i + 1;
    }
    colors
}

/// The transactions of colour `c` among the first `m`, in order.
pub open spec fn class_of(txs: Seq<Transaction>, cols: Seq<nat>, c: nat, m: int) -> Seq<Transaction>
    decreases m,
{
    if m <= 0 {
        Seq::empty()
    } else if cols[m - 1] == c {
        class_of(txs, cols, c, m - 1).push(txs[m - 1])
    } else {
        class_of(txs, cols, c, m - 1)
    }
}

/// The earliest last position among transactions of colour `c1` is at most
/// that among transactions of colour `c2`.
pub open spec fn key_le(txs: Seq<Transaction>, cols: Seq<nat>, c1: nat, c2: nat) -> bool {
    forall|i: int| #![trigger cols[i]] 0 <= i < txs.len() && cols[i] == c2 ==>
        exists|j: int| 0 <= j < txs.len() && cols[j] == c1 && last_index(txs, j) <= last_index(txs, i)
}

/// A group of transactions that can run concurrently.
#[derive(Debug, Clone)]
pub struct ParallelBatch {
    pub transactions: Vec<Transaction>,
}

/// `r` is the schedule of `txs` with batch colours `bc`: one batch per
/// colour of the greedy colouring, holding the transactions of that colour
/// in order, batches ordered by the earliest last position of their
/// transactions' hashes.
pub open spec fn schedule_matches(txs: Seq<Transaction>, r: Seq<ParallelBatch>, bc: Seq<nat>) -> bool {
    let cols = greedy_colors(txs);
    &&& bc.len() == r.len()
    &&& bc.no_duplicates()
    &&& forall|b: int| 0 <= b < bc.len() ==> cols.contains(#[trigger] bc[b])
    &&& forall|i: int| 0 <= i < txs.len() ==> bc.contains(#[trigger] cols[i])
    &&& forall|b: int| 0 <= b < r.len() ==> same_txs((#[trigger] r[b]).transactions@, class_of(txs, cols, bc[b], txs.len() as int))
    &&& forall|b1: int, b2: int| 0 <= b1 < b2 < r.len() ==> key_le(txs, cols, #[trigger] bc[b1], #[trigger] bc[b2])
}

/// Copies of the transactions of colour `c`, in order.
fn build_batch(txs: &Vec<Transaction>, colors: &Vec<usize>, c: usize) -> (r: Vec<Transaction>)
    requires
        colors@.len() == txs@.len(),
    ensures
        same_txs(r@, class_of(txs@, nat_view(colors@), c as nat, txs@.len() as int)),
{
    let ghost cols = nat_view(colors@);
    let mut out: Vec<Transaction> = Vec::new();
    let mut m: usize = 0;
    while m < txs.len()
        invariant
            0 <= m <= txs@.len(),
            colors@.len() == txs@.len(),
            cols == nat_view(colors@),
            same_txs(out@, class_of(txs@, cols, c as nat, m as int)),
        decreases txs@.len() - m,
    {
        let ghost prev = out@;
        if colors[m] == c {
            out.push(txs[m].copy());
            proof {
                assert(cols[m as int] == c as nat);
                assert forall|k: int| 0 <= k < out@.len() implies same_tx(#[trigger] out@[k], class_of(txs@, cols, c as nat, (m + 1) as int)[k]) by {
                    if k < prev.len() {
                        assert(out@[k] == prev[k]);
                    }
                }
            }
        } else {
            proof { assert(cols[m as int] != c as nat); }
        }
        m = m + 1;
    }
    out
}

/// The position in `classes` of the entry of colour `c`.
fn find_class(classes: &Vec<(usize, usize)>, c: usize) -> (r: Option<usize>)
    ensures
        r matches Some(t) ==> t < classes@.len() && classes@[t as int].0 == c,
        r is None ==> forall|t: int| 0 <= t < classes@.len() ==> classes@[t].0 != c,
{
    let mut t: usize = 0;
    while t < classes.len()
        invariant
            0 <= t <= classes@.len(),
            forall|w: int| 0 <= w < t ==> classes@[w].0 != c,
        decreases classes@.len() - t,
    {
        if classes[t].0 == c {
            return Some(t);
        }
        t = t + 1;
    }
    None
}

/// `classes` lists each colour used among the first `i` transactions once,
/// with the earliest last position among its transactions.
pub open spec fn classes_inv(classes: Seq<(usize, usize)>, colors: Seq<usize>, last: Seq<usize>, i: int) -> bool {
    &&& classes_distinct(classes)
    &&& classes_witnessed(classes, colors, last, i)
    &&& classes_least(classes, colors, last, i)
    &&& classes_cover(classes, colors, i)
}

/// No colour is listed twice.
pub open spec fn classes_distinct(classes: Seq<(usize, usize)>) -> bool {
    forall|t1: int, t2: int| 0 <= t1 < classes.len() && 0 <= t2 < classes.len() && t1 != t2 ==> #[trigger] classes[t1].0 != #[trigger] classes[t2].0
}

/// Each listed key is the last position of a transaction of that colour.
pub open spec fn classes_witnessed(classes: Seq<(usize, usize)>, colors: Seq<usize>, last: Seq<usize>, i: int) -> bool {
    forall|t: int| 0 <= t < classes.len() ==> exists|m: int| 0 <= m < i && colors[m] == (#[trigger] classes[t]).0 && last[m] == classes[t].1
}

/// Each listed key is at most the last position of every transaction of
/// that colour.
pub open spec fn classes_least(classes: Seq<(usize, usize)>, colors: Seq<usize>, last: Seq<usize>, i: int) -> bool {
    forall|t: int, m: int| 0 <= t < classes.len() && 0 <= m < i && colors[m] == (#[trigger] classes[t]).0 ==> classes[t].1 <= #[trigger] last[m]
}

/// Every colour used is listed.
pub open spec fn classes_cover(classes: Seq<(usize, usize)>, colors: Seq<usize>, i: int) -> bool {
    forall|m: int| #![trigger colors[m]] 0 <= m < i ==> exists|t: int| 0 <= t < classes.len() && (#[trigger] classes[t]).0 == colors[m]
}

proof fn lemma_classes_update(before: Seq<(usize, usize)>, colors: Seq<usize>, last: Seq<usize>, i: int, t: int, key: usize)
    requires
        classes_inv(before, colors, last, i),
        0 <= i < colors.len(),
        last.len() == colors.len(),
        0 <= t < before.len(),
        before[t].0 == colors[i],
        key == (if last[i] < before[t].1 { last[i] } else { before[t].1 }),
    ensures
        classes_inv(before.update(t, (colors[i], key)), colors, last, i + 1),
{
    lemma_update_witnessed(before, colors, last, i, t, key);
    lemma_update_least(before, colors, last, i, t, key);
    lemma_update_cover(before, colors, i, t, key);
    lemma_update_distinct(before, t, (colors[i], key));
}

proof fn lemma_update_distinct(before: Seq<(usize, usize)>, t: int, entry: (usize, usize))
    requires
        classes_distinct(before),
        0 <= t < before.len(),
        before[t].0 == entry.0,
    ensures
        classes_distinct(before.update(t, entry)),
{
    let after = before.update(t, entry);
    assert forall|t1: int, t2: int| 0 <= t1 < after.len() && 0 <= t2 < after.len() && t1 != t2 implies #[trigger] after[t1].0 != #[trigger] after[t2].0 by {
        assert(before[t1].0 != before[t2].0);
    }
}

proof fn lemma_update_witnessed(before: Seq<(usize, usize)>, colors: Seq<usize>, last: Seq<usize>, i: int, t: int, key: usize)
    requires
        classes_witnessed(before, colors, last, i),
        0 <= i < colors.len(),
        last.len() == colors.len(),
        0 <= t < before.len(),
        before[t].0 == colors[i],
        key == (if last[i] < before[t].1 { last[i] } else { before[t].1 }),
    ensures
        classes_witnessed(before.update(t, (colors[i], key)), colors, last, i + 1),
{
    let after = before.update(t, (colors[i], key));
    assert forall|t1: int| 0 <= t1 < after.len() implies exists|m: int| 0 <= m < i + 1 && colors[m] == (#[trigger] after[t1]).0 && last[m] == after[t1].1 by {
        if t1 == t {
            if last[i] < before[t].1 {
                assert(colors[i] == after[t1].0 && last[i] == after[t1].1);
            } else {
                let m = choose|m: int| 0 <= m < i && colors[m] == (#[trigger] before[t]).0 && last[m] == before[t].1;
                assert(colors[m] == after[t1].0 && last[m] == after[t1].1);
            }
        } else {
            let m = choose|m: int| 0 <= m < i && colors[m] == (#[trigger] before[t1]).0 && last[m] == before[t1].1;
            assert(colors[m] == after[t1].0 && last[m] == after[t1].1);
        }
    }
}

proof fn lemma_update_least(before: Seq<(usize, usize)>, colors: Seq<usize>, last: Seq<usize>, i: int, t: int, key: usize)
    requires
        classes_distinct(before),
        classes_least(before, colors, last, i),
        0 <= i < colors.len(),
        last.len() == colors.len(),
        0 <= t < before.len(),
        before[t].0 == colors[i],
        key == (if last[i] < before[t].1 { last[i] } else { before[t].1 }),
    ensures
        classes_least(before.update(t, (colors[i], key)), colors, last, i + 1),
{
    let after = before.update(t, (colors[i], key));
    assert forall|t1: int, m: int| 0 <= t1 < after.len() && 0 <= m < i + 1 && colors[m] == (#[trigger] after[t1]).0 implies after[t1].1 <= #[trigger] last[m] by {
        if t1 != t {
            assert(after[t1] == before[t1]);
            if m == i {
                assert(before[t1].0 != before[t].0);
            }
        } else if m < i {
            assert(before[t].1 <= last[m]);
        }
    }
}

proof fn lemma_update_cover(before: Seq<(usize, usize)>, colors: Seq<usize>, i: int, t: int, key: usize)
    requires
        classes_cover(before, colors, i),
        0 <= i < colors.len(),
        0 <= t < before.len(),
        before[t].0 == colors[i],
    ensures
        classes_cover(before.update(t, (colors[i], key)), colors, i + 1),
{
    let after = before.update(t, (colors[i], key));
    assert forall|m: int| #![trigger colors[m]] 0 <= m < i + 1 implies exists|t1: int| 0 <= t1 < after.len() && (#[trigger] after[t1]).0 == colors[m] by {
        if m == i {
            assert(after[t].0 == colors[m]);
        } else {
            let t1 = choose|t1: int| 0 <= t1 < before.len() && (#[trigger] before[t1]).0 == colors[m];
            if t1 == t {
                assert(after[t].0 == colors[m]);
            } else {
                assert(after[t1] == before[t1]);
            }
        }
    }
}

proof fn lemma_classes_push(before: Seq<(usize, usize)>, colors: Seq<usize>, last: Seq<usize>, i: int)
    requires
        classes_inv(before, colors, last, i),
        0 <= i < colors.len(),
        last.len() == colors.len(),
        forall|t: int| 0 <= t < before.len() ==> before[t].0 != colors[i],
    ensures
        classes_inv(before.push((colors[i], last[i])), colors, last, i + 1),
{
    let after = before.push((colors[i], last[i]));
    let c = colors[i];
    assert forall|t1: int| 0 <= t1 < after.len() implies exists|m: int| 0 <= m < i + 1 && colors[m] == (#[trigger] after[t1]).0 && last[m] == after[t1].1 by {
        if t1 < before.len() {
            assert(after[t1] == before[t1]);
            let m = choose|m: int| 0 <= m < i && colors[m] == (#[trigger] before[t1]).0 && last[m] == before[t1].1;
            assert(colors[m] == after[t1].0 && last[m] == after[t1].1);
        } else {
            assert(colors[i] == after[t1].0 && last[i] == after[t1].1);
        }
    }
    assert forall|t1: int, m: int| 0 <= t1 < after.len() && 0 <= m < i + 1 && colors[m] == (#[trigger] after[t1]).0 implies after[t1].1 <= #[trigger] last[m] by {
        if t1 < before.len() {
            assert(after[t1] == before[t1]);
            if m == i {
                assert(before[t1].0 != c);
            }
        } else if m < i {
            let t2 = choose|t2: int| 0 <= t2 < before.len() && (#[trigger] before[t2]).0 == colors[m];
            assert(before[t2].0 != c);
        }
    }
    assert forall|m: int| #![trigger colors[m]] 0 <= m < i + 1 implies exists|t1: int| 0 <= t1 < after.len() && (#[trigger] after[t1]).0 == colors[m] by {
        if m == i {
            assert(after[before.len() as int].0 == colors[m]);
        } else {
            let t1 = choose|t1: int| 0 <= t1 < before.len() && (#[trigger] before[t1]).0 == colors[m];
            assert(after[t1] == before[t1]);
        }
    }
    assert forall|t1: int, t2: int| 0 <= t1 < after.len() && 0 <= t2 < after.len() && t1 != t2 implies #[trigger] after[t1].0 != #[trigger] after[t2].0 by {
        if t1 < before.len() && t2 < before.len() {
            assert(after[t1] == before[t1] && after[t2] == before[t2]);
        } else if t1 < before.len() {
            assert(after[t1] == before[t1]);
        } else {
            assert(after[t2] == before[t2]);
        }
    }
}

/// The colours in order of first use, each with the earliest last position
/// among its transactions.
fn color_classes(colors: &Vec<usize>, last: &Vec<usize>) -> (r: Vec<(usize, usize)>)
    requires
        last@.len() == colors@.len(),
    ensures
        classes_inv(r@, colors@, last@, colors@.len() as int),
{
    let mut classes: Vec<(usize, usize)> = Vec::new();
    let mut i: usize = 0;
    while i < colors.len()
        invariant
            0 <= i <= colors@.len(),
            last@.len() == colors@.len(),
            classes_inv(classes@, colors@, last@, i as int),
        decreases colors@.len() - i,
    {
        let c = colors[i];
        let l = last[i];
        let ghost before = classes@;
        match find_class(&classes, c) {
            Some(t) => {
                let old_key = classes[t].1;
                let key = if l < old_key { l } else { old_key };
                classes.set(t, (c, key));
                proof { lemma_classes_update(before, colors@, last@, i as int, t as int, key); }
            },
            None => {
                classes.push((c, l));
                proof { lemma_classes_push(before, colors@, last@, i as int); }
            },
        }
        i = i + 1;
    }
    classes
}

/// `em` lists, without repeats and in order of key, the entries of
/// `classes` whose key is below `k`, then those with key `k` before `tt`.
pub open spec fn emitted_inv(classes: Seq<(usize, usize)>, em: Seq<int>, k: int, tt: int) -> bool {
    &&& em.no_duplicates()
    &&& forall|e: int| 0 <= e < em.len() ==> 0 <= #[trigger] em[e] < classes.len()
    &&& forall|t: int| 0 <= t < classes.len() ==> (em.contains(t) <==> ((#[trigger] classes[t]).1 < k || (classes[t].1 == k && t < tt)))
    &&& forall|e1: int, e2: int| 0 <= e1 < e2 < em.len() ==> classes[#[trigger] em[e1]].1 <= classes[#[trigger] em[e2]].1
    &&& forall|e: int| 0 <= e < em.len() ==> classes[#[trigger] em[e]].1 <= k
}

proof fn lemma_emit_step(classes: Seq<(usize, usize)>, em: Seq<int>, k: int, tt: int)
    requires
        emitted_inv(classes, em, k, tt),
        0 <= tt < classes.len(),
    ensures
        classes[tt].1 == k ==> emitted_inv(classes, em.push(tt), k, tt + 1),
        classes[tt].1 != k ==> emitted_inv(classes, em, k, tt + 1),
{
    if classes[tt].1 == k {
        let em2 = em.push(tt);
        assert(!em.contains(tt));
        assert(em2.no_duplicates()) by {
            assert forall|a: int, b: int| 0 <= a < em2.len() && 0 <= b < em2.len() && a != b implies em2[a] != em2[b] by {
                if a < em.len() && b < em.len() {
                } else if a < em.len() {
                    assert(em.contains(em2[a]));
                } else {
                    assert(em.contains(em2[b]));
                }
            }
        }
        assert forall|t: int| 0 <= t < classes.len() implies (em2.contains(t) <==> ((#[trigger] classes[t]).1 < k || (classes[t].1 == k && t < tt + 1))) by {
            if em2.contains(t) && t != tt {
                let e = choose|e: int| 0 <= e < em2.len() && em2[e] == t;
                assert(em[e] == t);
                assert(em.contains(t));
            }
            if em.contains(t) {
                let e = choose|e: int| 0 <= e < em.len() && em[e] == t;
                assert(em2[e] == t);
            }
            if t == tt {
                assert(em2[em.len() as int] == t);
            }
        }
        assert forall|e1: int, e2: int| 0 <= e1 < e2 < em2.len() implies classes[#[trigger] em2[e1]].1 <= classes[#[trigger] em2[e2]].1 by {
            if e2 < em.len() {
                assert(em2[e1] == em[e1] && em2[e2] == em[e2]);
            } else {
                assert(em2[e1] == em[e1]);
                assert(classes[em[e1]].1 <= k);
            }
        }
        assert forall|e: int| 0 <= e < em2.len() implies classes[#[trigger] em2[e]].1 <= k by {
            if e < em.len() {
                assert(em2[e] == em[e]);
            }
        }
    } else {
        assert forall|t: int| 0 <= t < classes.len() implies (em.contains(t) <==> ((#[trigger] classes[t]).1 < k || (classes[t].1 == k && t < tt + 1))) by {
            if t == tt {
                assert(classes[t].1 != k);
            }
        }
    }
}

/// The batches match the colour classes and the emission order.
pub open spec fn batches_inv(
    txs: Seq<Transaction>,
    cols: Seq<nat>,
    classes: Seq<(usize, usize)>,
    result: Seq<ParallelBatch>,
    bc: Seq<nat>,
    em: Seq<int>,
) -> bool {
    &&& result.len() == em.len()
    &&& bc.len() == em.len()
    &&& forall|e: int| 0 <= e < em.len() ==> #[trigger] bc[e] == classes[em[e]].0 as nat
    &&& forall|e: int| 0 <= e < em.len() ==> same_txs((#[trigger] result[e]).transactions@, class_of(txs, cols, bc[e], txs.len() as int))
}

proof fn lemma_schedule_result(
    txs: Seq<Transaction>,
    colors: Seq<usize>,
    last: Seq<usize>,
    classes: Seq<(usize, usize)>,
    result: Seq<ParallelBatch>,
    bc: Seq<nat>,
    em: Seq<int>,
)
    requires
        nat_view(colors) == greedy_colors(txs),
        colors.len() == txs.len(),
        last.len() == txs.len(),
        forall|t: int| 0 <= t < txs.len() ==> #[trigger] last[t] as int == last_index(txs, t) && last[t] < txs.len(),
        classes_inv(classes, colors, last, txs.len() as int),
        emitted_inv(classes, em, txs.len() as int, 0),
        batches_inv(txs, greedy_colors(txs), classes, result, bc, em),
    ensures
        schedule_matches(txs, result, bc),
{
    let cols = greedy_colors(txs);
    let n = txs.len() as int;
    assert forall|t: int| 0 <= t < classes.len() implies em.contains(t) by {
        let m = choose|m: int| 0 <= m < n && colors[m] == (#[trigger] classes[t]).0 && last[m] == classes[t].1;
        assert(last[m] < n);
    }
    assert(bc.no_duplicates()) by {
        assert forall|a: int, b: int| 0 <= a < bc.len() && 0 <= b < bc.len() && a != b implies bc[a] != bc[b] by {
            if bc[a] == bc[b] {
                assert(classes[em[a]].0 == classes[em[b]].0);
                assert(em[a] != em[b]);
            }
        }
    }
    assert forall|b: int| 0 <= b < bc.len() implies cols.contains(#[trigger] bc[b]) by {
        let t = em[b];
        let m = choose|m: int| 0 <= m < n && colors[m] == (#[trigger] classes[t]).0 && last[m] == classes[t].1;
        assert(cols[m] == nat_view(colors)[m]);
        assert(cols[m] == bc[b]);
    }
    assert forall|i: int| 0 <= i < n implies bc.contains(#[trigger] cols[i]) by {
        assert(colors[i] == colors[i]);
        let t = choose|t: int| 0 <= t < classes.len() && (#[trigger] classes[t]).0 == colors[i];
        assert(em.contains(t));
        let e = choose|e: int| 0 <= e < em.len() && em[e] == t;
        assert(nat_view(colors)[i] == colors[i] as nat);
        assert(bc[e] == cols[i]);
    }
    assert forall|b1: int, b2: int| 0 <= b1 < b2 < result.len() implies key_le(txs, cols, #[trigger] bc[b1], #[trigger] bc[b2]) by {
        let t1 = em[b1];
        let t2 = em[b2];
        assert(classes[t1].1 <= classes[t2].1);
        let m = choose|m: int| 0 <= m < n && colors[m] == (#[trigger] classes[t1]).0 && last[m] == classes[t1].1;
        assert forall|i: int| #![trigger cols[i]] 0 <= i < n && cols[i] == bc[b2] implies
            exists|j: int| 0 <= j < n && cols[j] == bc[b1] && last_index(txs, j) <= last_index(txs, i) by {
            assert(nat_view(colors)[i] == colors[i] as nat);
            assert(colors[i] == classes[t2].0);
            assert(classes[t2].1 <= last[i]);
            assert(nat_view(colors)[m] == colors[m] as nat);
            assert(last[m] as int == last_index(txs, m));
            assert(last[i] as int == last_index(txs, i));
            assert(cols[m] == bc[b1]);
        }
    }
}

/// Groups `txs` into batches that can run concurrently: the conflict graph
/// is coloured greedily in order (each transaction takes the least colour
/// not held by the last copy of any hash it conflicts with), each colour
/// gives a batch of its transactions in order, and batches are ordered by
/// the earliest last position of their transactions' hashes.
pub fn schedule_parallel_batches(txs: Vec<Transaction>) -> (r: Vec<ParallelBatch>)
    ensures
        exists|bc: Seq<nat>| schedule_matches(txs@, r@, bc),
{
    let n = txs.len();
    let graph = build_conflict_graph(txs.as_slice());
    let mut ids: Vec<TxId> = Vec::new();
    let mut k: usize = 0;
    while k < n
        invariant
            n == txs@.len(),
            0 <= k <= n,
            ids@.len() == k,
            forall|t: int| 0 <= t < k ==> (#[trigger] ids@[t])@ == tx_hash_spec(txs@[t]),
        decreases n - k,
    {
        let h = txs[k].hash();
        ids.push(h);
        k = k + 1;
    }
    assert(id_views(ids@) =~= hashes_of(txs@));
    let colors = greedy_coloring(&txs, &graph, &ids);
    let mut last: Vec<usize> = Vec::new();
    let mut k: usize = 0;
    while k < n
        invariant
            n == txs@.len(),
            ids@.len() == n,
            id_views(ids@) == hashes_of(txs@),
            0 <= k <= n,
            last@.len() == k,
            forall|t: int| 0 <= t < k ==> #[trigger] last@[t] as int == last_index(txs@, t) && last@[t] < n,
        decreases n - k,
    {
        proof { assert(id_views(ids@)[k as int] == ids@[k as int]@); }
        let p = last_position(&ids, &ids[k]);
        proof { assert(hashes_of(txs@)[k as int] == tx_hash_spec(txs@[k as int])); }
        last.push(p);
        k = k + 1;
    }
    proof { lemma_colors_len(txs@, n as nat); }
    assert(colors@.len() == nat_view(colors@).len());
    let classes = color_classes(&colors, &last);
    let ghost cols = greedy_colors(txs@);
    let mut result: Vec<ParallelBatch> = Vec::new();
    let ghost mut bc: Seq<nat> = Seq::empty();
    let ghost mut em: Seq<int> = Seq::empty();
    let mut key: usize = 0;
    while key < n
        invariant
            n == txs@.len(),
            colors@.len() == n,
            nat_view(colors@) == cols,
            cols == greedy_colors(txs@),
            0 <= key <= n,
            emitted_inv(classes@, em, key as int, 0),
            batches_inv(txs@, cols, classes@, result@, bc, em),
        decreases n - key,
    {
        let mut tt: usize = 0;
        while tt < classes.len()
            invariant
                n == txs@.len(),
                colors@.len() == n,
                nat_view(colors@) == cols,
                0 <= key < n,
                0 <= tt <= classes@.len(),
                emitted_inv(classes@, em, key as int, tt as int),
                batches_inv(txs@, cols, classes@, result@, bc, em),
            decreases classes@.len() - tt,
        {
            proof { lemma_emit_step(classes@, em, key as int, tt as int); }
            if classes[tt].1 == key {
                let members = build_batch(&txs, &colors, classes[tt].0);
                let ghost before = result@;
                result.push(ParallelBatch { transactions: members });
                proof {
                    let ghost bc0 = bc;
                    let ghost em0 = em;
                    bc = bc.push(classes@[tt as int].0 as nat);
                    em = em.push(tt as int);
                    assert forall|e: int| 0 <= e < em.len() implies #[trigger] bc[e] == classes@[em[e]].0 as nat by {
                        if e < em0.len() { assert(bc[e] == bc0[e] && em[e] == em0[e]); }
                    }
                    assert forall|e: int| 0 <= e < em.len() implies same_txs((#[trigger] result@[e]).transactions@, class_of(txs@, cols, bc[e], txs@.len() as int)) by {
                        if e < em0.len() { assert(result@[e] == before[e] && bc[e] == bc0[e]); }
                    }
                }
            }
            tt = tt + 1;
        }
        proof {
            assert forall|t: int| 0 <= t < classes@.len() implies (em.contains(t) <==> ((#[trigger] classes@[t]).1 < key + 1 || (classes@[t].1 == key + 1 && t < 0))) by {}
        }
        key = key + 1;
    }
    proof {
        lemma_schedule_result(txs@, colors@, last@, classes@, result@, bc, em);
    }
    result
}

/// With distinct hashes, every transaction is the last copy of its hash.
proof fn lemma_distinct_last(txs: Seq<Transaction>, m: int)
    requires
        hashes_of(txs).no_duplicates(),
        0 <= m < txs.len(),
    ensures
        last_index(txs, m) == m,
{
    let hs = hashes_of(txs);
    lemma_last_in(hs, tx_hash_spec(txs[m]), txs.len() as int);
    assert(hs[m] == tx_hash_spec(txs[m]));
    let r = last_in(hs, tx_hash_spec(txs[m]), txs.len() as int);
    if r != m {
        assert(hs[r] == hs[m]);
    }
}

/// Of two conflicting transactions whose hashes all differ from each other,
/// the later is coloured apart from the earlier.
pub proof fn lemma_conflicting_colored_apart(txs: Seq<Transaction>, i: int, j: int)
    requires
        hashes_of(txs).no_duplicates(),
        0 <= i < j < txs.len(),
        tx_conflict(txs[i], txs[j]),
    ensures
        greedy_colors(txs)[i] != greedy_colors(txs)[j],
{
    let n = txs.len();
    let prev = colors_upto(txs, j as nat);
    lemma_colors_len(txs, j as nat);
    lemma_colors_frozen(txs, i, j as nat);
    lemma_colors_frozen(txs, i, n);
    lemma_colors_frozen(txs, j, n);
    lemma_distinct_last(txs, i);
    lemma_pair_edge(txs, i, j);
    let s = forbidden_colors(txs, prev, j);
    assert(prev[i] == prev[i]);
    assert(s.contains(prev[i]));
    lemma_mex_free(txs, prev, j);
    assert(colors_upto(txs, (j + 1) as nat)[j] == mex(s));
}

/// The positions of the transactions of colour `c` among the first `m`.
pub open spec fn class_pos(cols: Seq<nat>, c: nat, m: int) -> Seq<int>
    decreases m,
{
    if m <= 0 {
        Seq::empty()
    } else if cols[m - 1] == c {
        class_pos(cols, c, m - 1).push(m - 1)
    } else {
        class_pos(cols, c, m - 1)
    }
}

proof fn lemma_class_pos(txs: Seq<Transaction>, cols: Seq<nat>, c: nat, m: int)
    requires
        0 <= m <= txs.len(),
    ensures
        class_of(txs, cols, c, m).len() == class_pos(cols, c, m).len(),
        forall|u: int| 0 <= u < class_pos(cols, c, m).len() ==> 0 <= #[trigger] class_pos(cols, c, m)[u] < m
            && cols[class_pos(cols, c, m)[u]] == c && class_of(txs, cols, c, m)[u] == txs[class_pos(cols, c, m)[u]],
        forall|u: int, v: int| 0 <= u < v < class_pos(cols, c, m).len() ==> #[trigger] class_pos(cols, c, m)[u] < #[trigger] class_pos(cols, c, m)[v],
    decreases m,
{
    if m > 0 {
        lemma_class_pos(txs, cols, c, m - 1);
    }
}

/// Transactions with the same values read and write the same keys.
proof fn lemma_access_same(a: Transaction, b: Transaction)
    requires
        same_tx(a, b),
    ensures
        reads_of(a) == reads_of(b),
        writes_of(a) == writes_of(b),
{
    assert(reads_of(a) =~= reads_of(b));
    assert(writes_of(a) =~= writes_of(b));
}

/// When all hashes differ, no batch of a schedule holds two conflicting
/// transactions.
pub proof fn lemma_batches_conflict_free(txs: Seq<Transaction>, r: Seq<ParallelBatch>, bc: Seq<nat>, b: int, u: int, v: int)
    requires
        schedule_matches(txs, r, bc),
        hashes_of(txs).no_duplicates(),
        0 <= b < r.len(),
        0 <= u < v < r[b].transactions@.len(),
    ensures
        !tx_conflict(r[b].transactions@[u], r[b].transactions@[v]),
{
    let cols = greedy_colors(txs);
    let n = txs.len() as int;
    let batch = r[b].transactions@;
    let cls = class_of(txs, cols, bc[b], n);
    assert(same_txs(batch, cls));
    lemma_class_pos(txs, cols, bc[b], n);
    let pos = class_pos(cols, bc[b], n);
    let pu = pos[u];
    let pv = pos[v];
    assert(pu < pv);
    assert(same_tx(batch[u], cls[u]) && same_tx(batch[v], cls[v]));
    lemma_access_same(batch[u], txs[pu]);
    lemma_access_same(batch[v], txs[pv]);
    if tx_conflict(batch[u], batch[v]) {
        assert(tx_conflict(txs[pu], txs[pv]));
        lemma_conflicting_colored_apart(txs, pu, pv);
    }
}

} // verus!
