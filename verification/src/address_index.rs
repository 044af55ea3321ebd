//! The address index: what it keeps of each address, how a transaction
//! updates it, and how its listings are chosen from the stored entries
//! (read in key order).
use vstd::prelude::*;
use vstd::string::StrSliceExecFns;
use vstd::string::StringExecFns;
use crate::hashing::{Address, hex_encode, hex_spec};
use crate::transaction::{Transaction, TxPayload};

verus! {

/// What the index knows of an address.
#[derive(Debug, Clone)]
pub struct AddressInfo {
    pub address: Address,
    /// The balance as decimal text.
    pub balance: String,
    pub transaction_count: u64,
    /// Time of the first transaction seen.
    pub first_seen: u64,
    /// Time of the latest transaction seen.
    pub last_seen: u64,
}

/// The addresses a transaction is indexed under, in order: its sender,
/// then the recipient of a transfer or the contract of a call.
pub open spec fn touched_spec(tx: Transaction) -> Seq<Address> {
    match tx.payload {
        TxPayload::Transfer { to, .. } => seq![tx.from, to],
        TxPayload::ContractDeploy { .. } => seq![tx.from],
        TxPayload::ContractCall { contract_address, .. } => seq![tx.from, contract_address],
    }
}

/// The addresses `tx` is indexed under; each is recorded once per
/// appearance, so a transfer to oneself counts twice.
pub fn touched_addresses(tx: &Transaction) -> (r: Vec<Address>)
    ensures
        r@ == touched_spec(*tx),
{
    let mut r: Vec<Address> = Vec::new();
    r.push(tx.from);
    match &tx.payload {
        TxPayload::Transfer { to, .. } => r.push(*to),
        TxPayload::ContractDeploy { .. } => {},
        TxPayload::ContractCall { contract_address, .. } => r.push(*contract_address),
    }
    proof {
        assert(r@ =~= touched_spec(*tx));
    }
    r
}

/// The entry of `address` after one more transaction at `timestamp`: an
/// address seen for the first time starts with balance "0".
pub fn record_activity(existing: Option<AddressInfo>, address: Address, timestamp: u64) -> (r: AddressInfo)
    requires
        existing matches Some(i) ==> i.transaction_count < u64::MAX,
    ensures
        match existing {
            Some(i) => {
                &&& r.address == i.address
                &&& r.balance == i.balance
                &&& r.transaction_count == i.transaction_count + 1
                &&& r.first_seen == i.first_seen
                &&& r.last_seen == timestamp
            },
            None => {
                &&& r.address == address
                &&& r.balance@ == seq!['0']
                &&& r.transaction_count == 1
                &&& r.first_seen == timestamp
                &&& r.last_seen == timestamp
            },
        },
{
    let mut info = match existing {
        Some(i) => i,
        None => {
            proof {
                reveal_strlit("0");
            }
            AddressInfo {
                address,
                balance: String::from_str("0"),
                transaction_count: 0,
                first_seen: timestamp,
                last_seen: timestamp,
            }
        },
    };
    info.transaction_count = info.transaction_count + 1;
    info.last_seen = timestamp;
    info
}

/// The entry with its balance replaced; an address not yet indexed stays
/// unindexed.
pub fn update_balance(existing: Option<AddressInfo>, balance: &str) -> (r: Option<AddressInfo>)
    ensures
        match existing {
            Some(i) => r matches Some(u) && u.balance@ == balance@ && u.address == i.address
                && u.transaction_count == i.transaction_count && u.first_seen == i.first_seen
                && u.last_seen == i.last_seen,
            None => r is None,
        },
{
    match existing {
        Some(mut i) => {
            i.balance = String::from_str(balance);
            Some(i)
        },
        None => None,
    }
}

/// The two orders in which the index lists addresses.
#[derive(Debug, Clone, Copy, PartialEq, Eq, Structural)]
pub enum Ranking {
    /// Most transactions first.
    TransactionCount,
    /// Most recently seen first.
    LastSeen,
}

/// The value an entry is ranked by.
pub open spec fn rank_key(a: AddressInfo, by: Ranking) -> u64 {
    match by {
        Ranking::TransactionCount => a.transaction_count,
        Ranking::LastSeen => a.last_seen,
    }
}

/// `x` placed after every entry of `s` whose key is at least its own
/// (insertion into a list sorted by decreasing key, equal keys in order).
pub open spec fn insert_ranked(s: Seq<AddressInfo>, x: AddressInfo, by: Ranking) -> Seq<AddressInfo>
    decreases s.len(),
{
    if s.len() == 0 || rank_key(s.last(), by) >= rank_key(x, by) {
        s.push(x)
    } else {
        insert_ranked(s.drop_last(), x, by).push(s.last())
    }
}

/// `s` sorted by decreasing key; entries with equal keys keep their order.
pub open spec fn sort_ranked(s: Seq<AddressInfo>, by: Ranking) -> Seq<AddressInfo>
    decreases s.len(),
{
    if s.len() == 0 {
        s
    } else {
        insert_ranked(sort_ranked(s.drop_last(), by), s.last(), by)
    }
}

/// The first `limit` entries of `s` (all of them when fewer).
pub open spec fn first_entries(s: Seq<AddressInfo>, limit: usize) -> Seq<AddressInfo> {
    if limit < s.len() { s.take(limit as int) } else { s }
}

/// A listing: the first `limit` stored entries, ranked.
pub open spec fn ranked_listing(s: Seq<AddressInfo>, limit: usize, by: Ranking) -> Seq<AddressInfo> {
    sort_ranked(first_entries(s, limit), by)
}

/// Keys never increase along `s`.
pub open spec fn ranked(s: Seq<AddressInfo>, by: Ranking) -> bool {
    forall|i: int, j: int| 0 <= i < j < s.len() ==> rank_key(#[trigger] s[i], by) >= rank_key(#[trigger] s[j], by)
}

proof fn lemma_insert_ranked_at(s: Seq<AddressInfo>, x: AddressInfo, by: Ranking, j: int)
    requires
        0 <= j <= s.len(),
        forall|k: int| j <= k < s.len() ==> rank_key(#[trigger] s[k], by) < rank_key(x, by),
        j == 0 || rank_key(s[j - 1], by) >= rank_key(x, by),
    ensures
        insert_ranked(s, x, by) == s.insert(j, x),
    decreases s.len(),
{
    if s.len() == 0 {
        assert(s.insert(j, x) =~= s.push(x));
    } else if rank_key(s.last(), by) >= rank_key(x, by) {
        assert(j == s.len());
        assert(s.insert(j, x) =~= s.push(x));
    } else {
        let t = s.drop_last();
        assert forall|k: int| j <= k < t.len() implies rank_key(#[trigger] t[k], by) < rank_key(x, by) by {
            assert(t[k] == s[k]);
        }
        if j > 0 {
            assert(t[j - 1] == s[j - 1]);
        }
        lemma_insert_ranked_at(t, x, by, j);
        assert(t.insert(j, x).push(s.last()) =~= s.insert(j, x));
    }
}

/// The key of `a` in order `by`.
fn rank_key_of(a: &AddressInfo, by: Ranking) -> (r: u64)
    ensures
        r == rank_key(*a, by),
{
    match by {
        Ranking::TransactionCount => a.transaction_count,
        Ranking::LastSeen => a.last_seen,
    }
}

/// The first `limit` entries of `entries`, sorted by decreasing key;
/// equal keys keep their order.
pub fn rank_entries(entries: Vec<AddressInfo>, limit: usize, by: Ranking) -> (r: Vec<AddressInfo>)
    ensures
        r@ == ranked_listing(entries@, limit, by),
{
    let mut rest = entries;
    rest.truncate(limit);
    let ghost v0 = rest@;
    assert(v0 == first_entries(entries@, limit));
    let mut out: Vec<AddressInfo> = Vec::new();
    let mut i: usize = 0;
    while rest.len() > 0
        invariant
            v0.len() <= usize::MAX,
            i + rest@.len() == v0.len(),
            rest@ == v0.subrange(i as int, v0.len() as int),
            out@ == sort_ranked(v0.subrange(0, i as int), by),
        decreases rest@.len(),
    {
        let x = rest.remove(0);
        let xk = rank_key_of(&x, by);
        let mut j: usize = out.len();
        while j > 0 && rank_key_of(&out[j - 1], by) < xk
            invariant
                0 <= j <= out@.len(),
                xk == rank_key(x, by),
                forall|k: int| j <= k < out@.len() ==> rank_key(#[trigger] out@[k], by) < rank_key(x, by),
            decreases j,
        {
            j = j - 1;
        }
        proof {
            lemma_insert_ranked_at(out@, x, by, j as int);
            let pre = v0.subrange(0, i as int + 1);
            assert(pre.drop_last() =~= v0.subrange(0, i as int));
            assert(pre.last() == x);
        }
        out.insert(j, x);
        i = i + 1;
        proof {
            assert(rest@ =~= v0.subrange(i as int, v0.len() as int));
        }
    }
    proof {
        assert(v0.subrange(0, v0.len() as int) =~= v0);
    }
    out
}

/// The entries with the most transactions: the first `limit` stored
/// entries, most transactions first.
pub fn get_top_addresses_by_transactions(entries: Vec<AddressInfo>, limit: usize) -> (r: Vec<AddressInfo>)
    ensures
        r@ == ranked_listing(entries@, limit, Ranking::TransactionCount),
{
    rank_entries(entries, limit, Ranking::TransactionCount)
}

/// The recently active entries: the first `limit` stored entries, most
/// recently seen first.
pub fn get_recent_addresses(entries: Vec<AddressInfo>, limit: usize) -> (r: Vec<AddressInfo>)
    ensures
        r@ == ranked_listing(entries@, limit, Ranking::LastSeen),
{
    rank_entries(entries, limit, Ranking::LastSeen)
}

proof fn lemma_insert_ranked_sorted(s: Seq<AddressInfo>, x: AddressInfo, by: Ranking)
    requires
        ranked(s, by),
    ensures
        ranked(insert_ranked(s, x, by), by),
        insert_ranked(s, x, by).to_multiset() == s.to_multiset().insert(x),
    decreases s.len(),
{
    broadcast use vstd::seq_lib::group_to_multiset_ensures;
    let r = insert_ranked(s, x, by);
    if s.len() == 0 || rank_key(s.last(), by) >= rank_key(x, by) {
        assert forall|i: int, j: int| 0 <= i < j < r.len() implies rank_key(#[trigger] r[i], by) >= rank_key(#[trigger] r[j], by) by {
            if j == s.len() {
                assert(r[i] == s[i]);
                if i < s.len() - 1 {
                    assert(rank_key(s[i], by) >= rank_key(s[s.len() - 1], by));
                }
            } else {
                assert(r[i] == s[i] && r[j] == s[j]);
            }
        }
    } else {
        let t = s.drop_last();
        assert(ranked(t, by)) by {
            assert forall|i: int, j: int| 0 <= i < j < t.len() implies rank_key(#[trigger] t[i], by) >= rank_key(#[trigger] t[j], by) by {
                assert(t[i] == s[i] && t[j] == s[j]);
            }
        }
        lemma_insert_ranked_sorted(t, x, by);
        let u = insert_ranked(t, x, by);
        assert(s =~= t.push(s.last()));
        assert forall|i: int| 0 <= i < u.len() implies rank_key(#[trigger] u[i], by) >= rank_key(s.last(), by) by {
            assert(u.to_multiset().count(u[i]) > 0);
            assert(u.contains(u[i]));
            if u[i] != x {
                assert(t.to_multiset().count(u[i]) > 0);
                assert(t.contains(u[i]));
                let k = choose|k: int| 0 <= k < t.len() && t[k] == u[i];
                assert(s[k] == t[k]);
            }
        }
        assert forall|i: int, j: int| 0 <= i < j < r.len() implies rank_key(#[trigger] r[i], by) >= rank_key(#[trigger] r[j], by) by {
            if j == u.len() {
                assert(r[i] == u[i]);
            } else {
                assert(r[i] == u[i] && r[j] == u[j]);
            }
        }
    }
}

proof fn lemma_sort_ranked(s: Seq<AddressInfo>, by: Ranking)
    ensures
        ranked(sort_ranked(s, by), by),
        sort_ranked(s, by).to_multiset() == s.to_multiset(),
    decreases s.len(),
{
    broadcast use vstd::seq_lib::group_to_multiset_ensures;
    if s.len() > 0 {
        lemma_sort_ranked(s.drop_last(), by);
        lemma_insert_ranked_sorted(sort_ranked(s.drop_last(), by), s.last(), by);
        assert(s =~= s.drop_last().push(s.last()));
    }
}

/// A listing is in decreasing order of its key and holds exactly the
/// first `limit` stored entries, none lost or added.
pub proof fn lemma_listing_ranked(entries: Seq<AddressInfo>, limit: usize, by: Ranking)
    ensures
        ranked(ranked_listing(entries, limit, by), by),
        ranked_listing(entries, limit, by).to_multiset() == first_entries(entries, limit).to_multiset(),
        ranked_listing(entries, limit, by).len() == (if limit < entries.len() { limit as nat } else { entries.len() }),
{
    lemma_sort_ranked(first_entries(entries, limit), by);
    first_entries(entries, limit).to_multiset_ensures();
    ranked_listing(entries, limit, by).to_multiset_ensures();
}

/// An ASCII capital letter made small; any other character kept.
pub open spec fn ascii_lower(c: char) -> char {
    if 65 <= c as int <= 90 {
        ((c as int) + 32) as char
    } else {
        c
    }
}

/// The text with its ASCII capitals made small.
pub open spec fn lowered(q: Seq<char>) -> Seq<char> {
    Seq::new(q.len(), |k: int| ascii_lower(q[k]))
}

/// `q` occurs in `h` starting at position `i`.
pub open spec fn occurs_at(h: Seq<char>, q: Seq<char>, i: int) -> bool {
    &&& 0 <= i
    &&& i + q.len() <= h.len()
    &&& forall|k: int| 0 <= k < q.len() ==> h[i + k] == q[k]
}

/// `q` occurs somewhere in `h` (the empty text occurs everywhere).
pub open spec fn occurs_in(h: Seq<char>, q: Seq<char>) -> bool {
    exists|i: int| occurs_at(h, q, i)
}

/// The hexadecimal digits of `a` contain the query, compared without
/// regard to case (the digits are small letters).
pub open spec fn address_matches(a: Address, query: Seq<char>) -> bool {
    occurs_in(hex_spec(a@), lowered(query))
}

/// The entries of `s` whose address matches the query, in order.
pub open spec fn matching(s: Seq<AddressInfo>, query: Seq<char>) -> Seq<AddressInfo>
    decreases s.len(),
{
    if s.len() == 0 {
        s
    } else if address_matches(s.last().address, query) {
        matching(s.drop_last(), query).push(s.last())
    } else {
        matching(s.drop_last(), query)
    }
}

/// How many matches a search returns at most: `limit`, but at least one.
pub open spec fn search_cap(limit: usize) -> nat {
    if limit == 0 { 1 } else { limit as nat }
}

/// The first `cap` entries of `m` (all of them when fewer).
pub open spec fn capped(m: Seq<AddressInfo>, cap: nat) -> Seq<AddressInfo> {
    if cap < m.len() { m.take(cap as int) } else { m }
}

/// A search: the first matching entries, at most `search_cap(limit)`.
pub open spec fn search_listing(s: Seq<AddressInfo>, query: Seq<char>, limit: usize) -> Seq<AddressInfo> {
    capped(matching(s, query), search_cap(limit))
}

/// The characters of `s`, each ASCII capital made small when `lower`.
fn chars_of(s: &str, lower: bool) -> (r: Vec<char>)
    ensures
        lower ==> r@ == lowered(s@),
        !lower ==> r@ == s@,
{
    let n = s.unicode_len();
    let mut r: Vec<char> = Vec::new();
    let mut i: usize = 0;
    while i < n
        invariant
            n == s@.len(),
            0 <= i <= n,
            r@.len() == i,
            forall|k: int| 0 <= k < i ==> r@[k] == if lower { ascii_lower(s@[k]) } else { s@[k] },
        decreases n - i,
    {
        let c = s.get_char(i);
        let v = c as u32;
        if lower && 65 <= v && v <= 90 {
            let small = ((v as u8) + 32) as char;
            assert(small == ascii_lower(c));
            r.push(small);
        } else {
            r.push(c);
        }
        i = i + 1;
    }
    proof {
        if lower {
            assert(r@ =~= lowered(s@));
        } else {
            assert(r@ =~= s@);
        }
    }
    r
}

/// Whether `q` occurs in `h`.
fn occurs(h: &Vec<char>, q: &Vec<char>) -> (r: bool)
    ensures
        r == occurs_in(h@, q@),
{
    if q.len() > h.len() {
        return false;
    }
    if q.len() == 0 {
        assert(occurs_at(h@, q@, 0));
        return true;
    }
    let last = h.len() - q.len();
    let mut i: usize = 0;
    while i <= last
        invariant
            h@.len() <= usize::MAX,
            q@.len() >= 1,
            last == h@.len() - q@.len(),
            forall|p: int| 0 <= p < i ==> !occurs_at(h@, q@, p),
        decreases last + 1 - i,
    {
        let mut k: usize = 0;
        let mut same = true;
        while k < q.len() && same
            invariant
                h@.len() <= usize::MAX,
                i <= last,
                last == h@.len() - q@.len(),
                0 <= k <= q@.len(),
                same == (forall|t: int| 0 <= t < k ==> h@[i + t] == q@[t]),
            decreases q@.len() - k,
        {
            if h[i + k] != q[k] {
                same = false;
            }
            k = k + 1;
        }
        if same {
            assert(occurs_at(h@, q@, i as int));
            return true;
        }
        i = i + 1;
    }
    false
}

/// The stored entries whose address contains `query` in its hexadecimal
/// digits, without regard to case, in their stored order: the first
/// `limit` of them, and the first one even when `limit` is 0.
pub fn search_addresses(entries: Vec<AddressInfo>, query: &str, limit: usize) -> (r: Vec<AddressInfo>)
    ensures
        r@ == search_listing(entries@, query@, limit),
{
    let q = chars_of(query, true);
    let cap: usize = if limit == 0 { 1 } else { limit };
    assert(entries.len() == entries@.len());
    let ghost v0 = entries@;
    let mut rest = entries;
    let mut out: Vec<AddressInfo> = Vec::new();
    let mut i: usize = 0;
    while rest.len() > 0
        invariant
            v0.len() <= usize::MAX,
            q@ == lowered(query@),
            cap as nat == search_cap(limit),
            i + rest@.len() == v0.len(),
            rest@ == v0.subrange(i as int, v0.len() as int),
            out@ == capped(matching(v0.take(i as int), query@), cap as nat),
        decreases rest@.len(),
    {
        let x = rest.remove(0);
        let digits = hex_encode(&x.address);
        let h = chars_of(digits.as_str(), false);
        let hit = occurs(&h, &q);
        proof {
            let pre = v0.take(i as int + 1);
            assert(pre.drop_last() =~= v0.take(i as int));
            assert(pre.last() == x);
            assert(hit == address_matches(x.address, query@));
        }
        if hit && out.len() < cap {
            proof {
                let m = matching(v0.take(i as int), query@);
                assert(out@ == m);
                assert(capped(m.push(x), cap as nat) =~= m.push(x));
            }
            out.push(x);
        } else {
            proof {
                let m = matching(v0.take(i as int), query@);
                if hit {
                    assert(capped(m.push(x), cap as nat) =~= capped(m, cap as nat));
                }
            }
        }
        i = i + 1;
        proof {
            assert(rest@ =~= v0.subrange(i as int, v0.len() as int));
        }
    }
    proof {
        assert(v0.take(v0.len() as int) =~= v0);
    }
    out
}

} // verus!
