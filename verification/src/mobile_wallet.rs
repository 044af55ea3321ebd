//! A wallet for mobile use: a wallet plus a cache of the next nonce to use
//! for each address.
use vstd::prelude::*;
use crate::hashing::{Address, address_eq, hex_spec};
use crate::crypto::secret_key_valid;
use crate::sdk_errors::SdkError;
use crate::wallet::{Wallet, wallet_wf, key_bytes_of};

verus! {

/// A wallet with a nonce cache.
#[derive(Debug)]
pub struct MobileWallet {
    wallet: Wallet,
    nonce_cache: Vec<(Address, u64)>,
}

/// Addresses in `v` are distinct.
pub open spec fn distinct_addresses(v: Seq<(Address, u64)>) -> bool {
    forall|i: int, j: int| 0 <= i < v.len() && 0 <= j < v.len() && i != j ==> #[trigger] v[i].0 != #[trigger] v[j].0
}

/// `a` is listed in `v`.
pub open spec fn listed(v: Seq<(Address, u64)>, a: Address) -> bool {
    exists|i: int| 0 <= i < v.len() && #[trigger] v[i].0 == a
}

/// The map a list of (address, nonce) pairs stands for.
pub open spec fn nonce_map(v: Seq<(Address, u64)>) -> Map<Address, u64> {
    Map::new(|a: Address| listed(v, a), |a: Address| v[choose|i: int| 0 <= i < v.len() && #[trigger] v[i].0 == a].1)
}

/// With distinct addresses, the map gives each listed address its nonce.
proof fn lemma_nonce_map_at(v: Seq<(Address, u64)>, i: int)
    requires
        distinct_addresses(v),
        0 <= i < v.len(),
    ensures
        nonce_map(v).contains_key(v[i].0),
        nonce_map(v)[v[i].0] == v[i].1,
{
    assert(listed(v, v[i].0));
    let j = choose|j: int| 0 <= j < v.len() && #[trigger] v[j].0 == v[i].0;
    assert(j == i);
}

/// Overwriting the entry of `a` updates the map at `a`.
proof fn lemma_update_same_key(old_c: Seq<(Address, u64)>, v: Seq<(Address, u64)>, i: int, a: Address, n: u64)
    requires
        distinct_addresses(old_c),
        distinct_addresses(v),
        0 <= i < old_c.len(),
        old_c[i].0 == a,
        v == old_c.update(i, (a, n)),
    ensures
        nonce_map(v) == nonce_map(old_c).insert(a, n),
{
    assert forall|x: Address| listed(v, x) <==> listed(old_c, x) by {
        if listed(v, x) {
            let t = choose|t: int| 0 <= t < v.len() && #[trigger] v[t].0 == x;
            assert(old_c[t].0 == x);
        }
        if listed(old_c, x) {
            let t = choose|t: int| 0 <= t < old_c.len() && #[trigger] old_c[t].0 == x;
            assert(v[t].0 == x);
        }
    }
    assert forall|x: Address| #[trigger] nonce_map(v).contains_key(x) implies nonce_map(v)[x] == nonce_map(old_c).insert(a, n)[x] by {
        let t = choose|t: int| 0 <= t < v.len() && #[trigger] v[t].0 == x;
        lemma_nonce_map_at(v, t);
        if t != i {
            assert(v[t] == old_c[t]);
            lemma_nonce_map_at(old_c, t);
        }
    }
    assert(nonce_map(v) =~= nonce_map(old_c).insert(a, n));
}

/// Appending a new address adds it to the map.
proof fn lemma_push_new_key(old_c: Seq<(Address, u64)>, v: Seq<(Address, u64)>, a: Address, n: u64)
    requires
        distinct_addresses(old_c),
        distinct_addresses(v),
        v == old_c.push((a, n)),
        forall|j: int| 0 <= j < old_c.len() ==> old_c[j].0 != a,
    ensures
        nonce_map(v) == nonce_map(old_c).insert(a, n),
{
    assert forall|x: Address| listed(v, x) <==> (listed(old_c, x) || x == a) by {
        if listed(v, x) && x != a {
            let t = choose|t: int| 0 <= t < v.len() && #[trigger] v[t].0 == x;
            assert(old_c[t].0 == x);
        }
        if listed(old_c, x) {
            let t = choose|t: int| 0 <= t < old_c.len() && #[trigger] old_c[t].0 == x;
            assert(v[t].0 == x);
        }
        if x == a {
            assert(v[old_c.len() as int].0 == x);
        }
    }
    assert forall|x: Address| #[trigger] nonce_map(v).contains_key(x) implies nonce_map(v)[x] == nonce_map(old_c).insert(a, n)[x] by {
        let t = choose|t: int| 0 <= t < v.len() && #[trigger] v[t].0 == x;
        lemma_nonce_map_at(v, t);
        if t < old_c.len() {
            assert(v[t] == old_c[t]);
            lemma_nonce_map_at(old_c, t);
        }
    }
    assert(nonce_map(v) =~= nonce_map(old_c).insert(a, n));
}

impl MobileWallet {
    /// The wrapped wallet.
    pub closed spec fn wallet_spec(&self) -> Wallet {
        self.wallet
    }

    /// The cached nonces.
    pub closed spec fn nonces(&self) -> Map<Address, u64> {
        nonce_map(self.nonce_cache@)
    }

    /// The cache lists each address once.
    pub closed spec fn wf(&self) -> bool {
        distinct_addresses(self.nonce_cache@)
    }

    /// A mobile wallet with a new random key and an empty cache.
    pub fn create() -> (r: Result<MobileWallet, SdkError>)
        ensures
            r matches Ok(m) && m.wf() && wallet_wf(m.wallet_spec()) && m.nonces() == Map::<Address, u64>::empty(),
    {
        let wallet = Wallet::create_wallet()?;
        let r = MobileWallet { wallet, nonce_cache: Vec::new() };
        proof { assert(nonce_map(r.nonce_cache@) =~= Map::<Address, u64>::empty()); }
        Ok(r)
    }

    /// The mobile wallet of a secret key given in hexadecimal or as 32 raw
    /// bytes (see `Wallet::import_private_key`); fails on anything else and
    /// on an invalid key.
    pub fn from_private_key(private_key: &[u8]) -> (r: Result<MobileWallet, SdkError>)
        ensures
            r is Ok <==> (key_bytes_of(private_key@).len() == 32 && secret_key_valid(key_bytes_of(private_key@))),
            r matches Ok(m) ==> m.wf() && wallet_wf(m.wallet_spec()) && m.wallet_spec().secret_key@ == key_bytes_of(private_key@)
                && m.nonces() == Map::<Address, u64>::empty(),
    {
        let wallet = Wallet::import_private_key(private_key)?;
        let r = MobileWallet { wallet, nonce_cache: Vec::new() };
        proof { assert(nonce_map(r.nonce_cache@) =~= Map::<Address, u64>::empty()); }
        Ok(r)
    }

    /// The wallet's address.
    pub fn address(&self) -> (r: &Address)
        ensures
            *r == self.wallet_spec().address,
    {
        &self.wallet.address
    }

    /// The secret key in lowercase hexadecimal.
    pub fn export_private_key(&self) -> (r: String)
        ensures
            r@ == hex_spec(self.wallet_spec().secret_key@),
    {
        self.wallet.export_private_key_hex()
    }

    /// The cached nonce of `address`; 0 when none is cached.
    pub fn get_next_nonce(&self, address: &Address) -> (r: u64)
        requires
            self.wf(),
        ensures
            r == (if self.nonces().contains_key(*address) { self.nonces()[*address] } else { 0 }),
    {
        let mut i: usize = 0;
        while i < self.nonce_cache.len()
            invariant
                distinct_addresses(self.nonce_cache@),
                0 <= i <= self.nonce_cache@.len(),
                forall|j: int| 0 <= j < i ==> self.nonce_cache@[j].0 != *address,
            decreases self.nonce_cache@.len() - i,
        {
            let entry = self.nonce_cache[i];
            if address_eq(&entry.0, address) {
                proof {
                    assert(self.nonce_cache@[i as int] == entry);
                    lemma_nonce_map_at(self.nonce_cache@, i as int);
                }
                return entry.1;
            }
            i = i + 1;
        }
        proof {
            if listed(self.nonce_cache@, *address) {
                let t = choose|t: int| 0 <= t < self.nonce_cache@.len() && #[trigger] self.nonce_cache@[t].0 == *address;
            }
        }
        0
    }

    /// Caches `nonce` for `address`, replacing any cached value.
    pub fn update_nonce(&mut self, address: Address, nonce: u64)
        requires
            old(self).wf(),
        ensures
            final(self).wf(),
            final(self).nonces() == old(self).nonces().insert(address, nonce),
            final(self).wallet_spec() == old(self).wallet_spec(),
    {
        let ghost old_c = self.nonce_cache@;
        let mut i: usize = 0;
        while i < self.nonce_cache.len()
            invariant
                self.nonce_cache@ == old_c,
                self.wallet == old(self).wallet,
                old_c == old(self).nonce_cache@,
                distinct_addresses(old_c),
                0 <= i <= old_c.len(),
                forall|j: int| 0 <= j < i ==> old_c[j].0 != address,
            decreases old_c.len() - i,
        {
            if address_eq(&self.nonce_cache[i].0, &address) {
                self.nonce_cache.set(i, (address, nonce));
                proof {
                    let v = self.nonce_cache@;
                    assert forall|a: int| 0 <= a < v.len() implies #[trigger] v[a].0 == old_c[a].0 by {}
                    assert(distinct_addresses(v)) by {
                        assert forall|a: int, b: int| 0 <= a < v.len() && 0 <= b < v.len() && a != b implies #[trigger] v[a].0 != #[trigger] v[b].0 by {
                            assert(v[a].0 == old_c[a].0 && v[b].0 == old_c[b].0);
                        }
                    }
                    lemma_update_same_key(old_c, v, i as int, address, nonce);
                }
                return;
            }
            i = i + 1;
        }
        self.nonce_cache.push((address, nonce));
        proof {
            let v = self.nonce_cache@;
            assert(distinct_addresses(v)) by {
                assert forall|a: int, b: int| 0 <= a < v.len() && 0 <= b < v.len() && a != b implies #[trigger] v[a].0 != #[trigger] v[b].0 by {
                    if a < old_c.len() && b < old_c.len() {
                        assert(v[a] == old_c[a] && v[b] == old_c[b]);
                    } else if a < old_c.len() {
                        assert(v[a] == old_c[a]);
                    } else {
                        assert(v[b] == old_c[b]);
                    }
                }
            }
            lemma_push_new_key(old_c, v, address, nonce);
        }
    }

    /// Empties the nonce cache.
    pub fn clear_nonce_cache(&mut self)
        requires
            old(self).wf(),
        ensures
            final(self).wf(),
            final(self).nonces() == Map::<Address, u64>::empty(),
            final(self).wallet_spec() == old(self).wallet_spec(),
    {
        self.nonce_cache.clear();
        proof { assert(nonce_map(self.nonce_cache@) =~= Map::<Address, u64>::empty()); }
    }
}

} // verus!
