//! Byte-array identifiers (block hashes, addresses), their comparison,
//! and the SHA-256 / hex / clock primitives used throughout the crate.
use vstd::prelude::*;
use sha2::Digest;

verus! {

/// A 32-byte block or transaction hash.
pub type BlockHash = [u8; 32];

/// A 20-byte account address.
pub type Address = [u8; 20];

/// Lexicographic order on byte sequences of equal length.
pub open spec fn bytes_lt(a: Seq<u8>, b: Seq<u8>) -> bool {
    exists|i: int|
        0 <= i < a.len() && i < b.len() && a[i] < b[i] && forall|j: int| 0 <= j < i ==> a[j] == b[j]
}

/// Lexicographic order on block hashes (the order `Ord` gives `[u8; 32]`).
pub open spec fn hash_lt(a: BlockHash, b: BlockHash) -> bool {
    bytes_lt(a@, b@)
}

/// Two arrays with equal views are equal.
pub proof fn lemma_hash_view_eq(a: BlockHash, b: BlockHash)
    requires
        a@ == b@,
    ensures
        a == b,
{
    broadcast use vstd::array::group_array_axioms;
    assert(a =~= b) by {
        assert forall|i: int| 0 <= i < 32 implies a[i] == b[i] by {
            assert(a@[i] == b@[i]);
        }
    }
}

/// Two addresses with equal views are equal.
pub proof fn lemma_address_view_eq(a: Address, b: Address)
    requires
        a@ == b@,
    ensures
        a == b,
{
    broadcast use vstd::array::group_array_axioms;
    assert(a =~= b) by {
        assert forall|i: int| 0 <= i < 20 implies a[i] == b[i] by {
            assert(a@[i] == b@[i]);
        }
    }
}

/// Byte-wise equality of two block hashes.
pub fn hash_eq(a: &BlockHash, b: &BlockHash) -> (r: bool)
    ensures
        r == (*a == *b),
{
    let mut i: usize = 0;
    while i < 32
        invariant
            0 <= i <= 32,
            forall|j: int| 0 <= j < i ==> a@[j] == b@[j],
        decreases 32 - i,
    {
        if a[i] != b[i] {
            return false;
        }
        i = i + 1;
    }
    proof {
        assert(a@ =~= b@);
        lemma_hash_view_eq(*a, *b);
    }
    true
}

/// Byte-wise equality of two addresses.
pub fn address_eq(a: &Address, b: &Address) -> (r: bool)
    ensures
        r == (*a == *b),
{
    let mut i: usize = 0;
    while i < 20
        invariant
            0 <= i <= 20,
            forall|j: int| 0 <= j < i ==> a@[j] == b@[j],
        decreases 20 - i,
    {
        if a[i] != b[i] {
            return false;
        }
        i = i + 1;
    }
    proof {
        assert(a@ =~= b@);
        lemma_address_view_eq(*a, *b);
    }
    true
}

/// Whether every byte of an address is zero.
pub fn address_is_zero(a: &Address) -> (r: bool)
    ensures
        r == (forall|j: int| 0 <= j < 20 ==> a@[j] == 0),
{
    let mut i: usize = 0;
    while i < 20
        invariant
            0 <= i <= 20,
            forall|j: int| 0 <= j < i ==> a@[j] == 0,
        decreases 20 - i,
    {
        if a[i] != 0 {
            return false;
        }
        i = i + 1;
    }
    true
}

/// Strict lexicographic comparison of two block hashes.
pub fn hash_less(a: &BlockHash, b: &BlockHash) -> (r: bool)
    ensures
        r == hash_lt(*a, *b),
{
    let mut i: usize = 0;
    while i < 32
        invariant
            0 <= i <= 32,
            forall|j: int| 0 <= j < i ==> a@[j] == b@[j],
        decreases 32 - i,
    {
        if a[i] < b[i] {
            assert(bytes_lt(a@, b@)) by {
                assert(0 <= i < a@.len() && a@[i as int] < b@[i as int]);
            }
            return true;
        }
        if a[i] > b[i] {
            assert(!bytes_lt(a@, b@)) by {
                if bytes_lt(a@, b@) {
                    let k = choose|k: int|
                        0 <= k < a@.len() && k < b@.len() && a@[k] < b@[k] && forall|j: int|
                            0 <= j < k ==> a@[j] == b@[j];
                    if k < i {
                    } else if k == i {
                    } else {
                        assert(a@[i as int] == b@[i as int]);
                    }
                }
            }
            return false;
        }
        i = i + 1;
    }
    assert(!bytes_lt(a@, b@));
    false
}


/// Hashes in strictly increasing order.
pub open spec fn sorted_strict(s: Seq<BlockHash>) -> bool {
    forall|i: int, j: int| 0 <= i < j < s.len() ==> hash_lt(#[trigger] s[i], #[trigger] s[j])
}

/// No hash is below itself.
pub proof fn lemma_hash_lt_irreflexive(a: BlockHash)
    ensures
        !hash_lt(a, a),
{
}

proof fn lemma_trichotomy_from(a: BlockHash, b: BlockHash, i: int)
    requires
        0 <= i <= 32,
        forall|j: int| 0 <= j < i ==> a@[j] == b@[j],
        a != b,
    ensures
        hash_lt(a, b) || hash_lt(b, a),
    decreases 32 - i,
{
    if i == 32 {
        assert(a@ =~= b@);
        lemma_hash_view_eq(a, b);
    } else if a@[i] == b@[i] {
        lemma_trichotomy_from(a, b, i + 1);
    } else if a@[i] < b@[i] {
        assert(bytes_lt(a@, b@));
    } else {
        assert(bytes_lt(b@, a@));
    }
}

/// Distinct hashes are ordered one way or the other.
pub proof fn lemma_hash_lt_total(a: BlockHash, b: BlockHash)
    requires
        a != b,
    ensures
        hash_lt(a, b) || hash_lt(b, a),
{
    lemma_trichotomy_from(a, b, 0);
}

/// The order is asymmetric.
pub proof fn lemma_hash_lt_asymmetric(a: BlockHash, b: BlockHash)
    requires
        hash_lt(a, b),
    ensures
        !hash_lt(b, a),
{
    if hash_lt(b, a) {
        let i = choose|i: int| 0 <= i < a@.len() && i < b@.len() && a@[i] < b@[i] && forall|j: int| 0 <= j < i ==> a@[j] == b@[j];
        let k = choose|k: int| 0 <= k < b@.len() && k < a@.len() && b@[k] < a@[k] && forall|j: int| 0 <= j < k ==> b@[j] == a@[j];
        if i < k {
        } else if k < i {
        } else {
        }
    }
}

/// The order is transitive.
pub proof fn lemma_hash_lt_transitive(a: BlockHash, b: BlockHash, c: BlockHash)
    requires
        hash_lt(a, b),
        hash_lt(b, c),
    ensures
        hash_lt(a, c),
{
    let i = choose|i: int| 0 <= i < a@.len() && i < b@.len() && a@[i] < b@[i] && forall|j: int| 0 <= j < i ==> a@[j] == b@[j];
    let k = choose|k: int| 0 <= k < b@.len() && k < c@.len() && b@[k] < c@[k] && forall|j: int| 0 <= j < k ==> b@[j] == c@[j];
    if i < k {
        assert(a@[i] < c@[i]);
    } else if k < i {
        assert(a@[k] < c@[k]);
    } else {
        assert(a@[i] < c@[i]);
    }
}

/// The hashes of `v` in strictly increasing order.
pub fn sort_hashes(v: &Vec<BlockHash>) -> (r: Vec<BlockHash>)
    requires
        v@.no_duplicates(),
    ensures
        r@.no_duplicates(),
        r@.len() == v@.len(),
        forall|x: BlockHash| r@.contains(x) <==> v@.contains(x),
        sorted_strict(r@),
{
    let mut r: Vec<BlockHash> = Vec::new();
    let mut i: usize = 0;
    while i < v.len()
        invariant
            0 <= i <= v@.len(),
            v@.no_duplicates(),
            r@.len() == i,
            sorted_strict(r@),
            forall|x: BlockHash| r@.contains(x) <==> v@.subrange(0, i as int).contains(x),
        decreases v@.len() - i,
    {
        let x = v[i];
        let ghost sub0 = v@.subrange(0, i as int);
        let ghost sub1 = v@.subrange(0, i + 1);
        assert(!r@.contains(x)) by {
            if r@.contains(x) {
                let j = choose|j: int| 0 <= j < sub0.len() && sub0[j] == x;
                assert(v@[j] == v@[i as int]);
            }
        }
        let mut p: usize = 0;
        while p < r.len() && !hash_less(&x, &r[p])
            invariant
                0 <= p <= r@.len(),
                sorted_strict(r@),
                !r@.contains(x),
                forall|q: int| 0 <= q < p ==> hash_lt(#[trigger] r@[q], x),
            decreases r@.len() - p,
        {
            proof {
                assert(r@[p as int] != x) by { assert(r@.contains(r@[p as int])); }
                lemma_hash_lt_total(x, r@[p as int]);
            }
            p = p + 1;
        }
        let ghost old_r = r@;
        r.insert(p, x);
        proof {
            assert forall|a: int, b: int| 0 <= a < b < r@.len() implies hash_lt(#[trigger] r@[a], #[trigger] r@[b]) by {
                if b < p {
                    assert(r@[a] == old_r[a] && r@[b] == old_r[b]);
                } else if b == p {
                    assert(r@[b] == x);
                    assert(r@[a] == old_r[a]);
                } else if a < p {
                    assert(r@[a] == old_r[a] && r@[b] == old_r[b - 1]);
                    if a < b - 1 {
                    }
                } else if a == p {
                    assert(r@[a] == x && r@[b] == old_r[b - 1]);
                    assert(hash_less_spec_holds(x, old_r, p as int));
                    if p < b - 1 {
                        lemma_hash_lt_transitive(x, old_r[p as int], old_r[b - 1]);
                    }
                } else {
                    assert(r@[a] == old_r[a - 1] && r@[b] == old_r[b - 1]);
                }
            }
            assert forall|y: BlockHash| r@.contains(y) <==> sub1.contains(y) by {
                if r@.contains(y) {
                    let j = choose|j: int| 0 <= j < r@.len() && r@[j] == y;
                    if j < p {
                        assert(old_r[j] == y);
                        assert(old_r.contains(y));
                        let t = choose|t: int| 0 <= t < sub0.len() && sub0[t] == y;
                        assert(sub1[t] == y);
                    } else if j == p {
                        assert(sub1[i as int] == y);
                    } else {
                        assert(old_r[j - 1] == y);
                        assert(old_r.contains(y));
                        let t = choose|t: int| 0 <= t < sub0.len() && sub0[t] == y;
                        assert(sub1[t] == y);
                    }
                }
                if sub1.contains(y) {
                    let t = choose|t: int| 0 <= t < sub1.len() && sub1[t] == y;
                    if t < i {
                        assert(sub0[t] == y);
                        assert(old_r.contains(y));
                        let j = choose|j: int| 0 <= j < old_r.len() && old_r[j] == y;
                        if j < p {
                            assert(r@[j] == y);
                        } else {
                            assert(r@[j + 1] == y);
                        }
                    } else {
                        assert(r@[p as int] == y);
                    }
                }
            }
        }
        i = i + 1;
    }
    proof {
        assert(v@.subrange(0, i as int) =~= v@);
        assert forall|a: int, b: int| 0 <= a < r@.len() && 0 <= b < r@.len() && a != b implies r@[a] != r@[b] by {
            if a < b {
                assert(hash_lt(r@[a], r@[b]));
            } else {
                assert(hash_lt(r@[b], r@[a]));
            }
        }
    }
    r
}

/// After the search loop stops at `p` (below the length), `x` is below `s[p]`.
pub open spec fn hash_less_spec_holds(x: BlockHash, s: Seq<BlockHash>, p: int) -> bool {
    p < s.len() ==> hash_lt(x, s[p])
}

/// Whether `h` occurs in `v`.
pub fn contains_hash(v: &Vec<BlockHash>, h: &BlockHash) -> (r: bool)
    ensures
        r == v@.contains(*h),
{
    let mut i: usize = 0;
    while i < v.len()
        invariant
            0 <= i <= v.len(),
            forall|j: int| 0 <= j < i ==> v@[j] != *h,
        decreases v.len() - i,
    {
        if hash_eq(&v[i], h) {
            assert(v@[i as int] == *h);
            return true;
        }
        i = i + 1;
    }
    false
}

/// A copy of a vector of hashes.
pub fn copy_hashes(v: &Vec<BlockHash>) -> (r: Vec<BlockHash>)
    ensures
        r@ == v@,
{
    let mut r: Vec<BlockHash> = Vec::new();
    let mut i: usize = 0;
    while i < v.len()
        invariant
            0 <= i <= v.len(),
            r@ == v@.subrange(0, i as int),
        decreases v.len() - i,
    {
        r.push(v[i]);
        i = i + 1;
        assert(r@ =~= v@.subrange(0, i as int));
    }
    assert(v@.subrange(0, v.len() as int) =~= v@);
    r
}

/// A copy of a byte vector.
pub fn copy_bytes(v: &Vec<u8>) -> (r: Vec<u8>)
    ensures
        r@ == v@,
{
    let mut r: Vec<u8> = Vec::new();
    let mut i: usize = 0;
    while i < v.len()
        invariant
            0 <= i <= v.len(),
            r@ == v@.subrange(0, i as int),
        decreases v.len() - i,
    {
        r.push(v[i]);
        i = i + 1;
        assert(r@ =~= v@.subrange(0, i as int));
    }
    assert(v@.subrange(0, v.len() as int) =~= v@);
    r
}

/// Appends the bytes of a slice to a byte vector.
pub fn append_bytes(out: &mut Vec<u8>, bytes: &[u8])
    ensures
        final(out)@ == old(out)@ + bytes@,
{
    let mut i: usize = 0;
    while i < bytes.len()
        invariant
            0 <= i <= bytes.len(),
            out@ == old(out)@ + bytes@.subrange(0, i as int),
        decreases bytes.len() - i,
    {
        out.push(bytes[i]);
        i = i + 1;
        assert(out@ =~= old(out)@ + bytes@.subrange(0, i as int));
    }
    assert(bytes@.subrange(0, bytes.len() as int) =~= bytes@);
}

/// The SHA-256 digest of a byte sequence.
pub uninterp spec fn sha256_spec(data: Seq<u8>) -> Seq<u8>;

/// Calls `sha2::Sha256::digest` on `data`; the contract says only that the
/// 32-byte result is the SHA-256 digest of exactly the bytes handed in.
#[verifier::external_body]
pub(crate) fn sha256(data: &[u8]) -> (r: [u8; 32])
    ensures
        r@ == sha256_spec(data@),
{
    sha2::Sha256::digest(data).into()
}

/// `std::time::Instant`, a reading of the monotonic clock.
#[verifier::external_type_specification]
#[verifier::external_body]
pub struct ExInstant(std::time::Instant);

/// Reads the monotonic clock (`Instant::now`).
/// Nothing is stated of the reading: it depends on the moment.
#[verifier::external_body]
pub(crate) fn instant_now() -> (r: std::time::Instant) {
    std::time::Instant::now()
}

/// Nanoseconds elapsed since `origin` (`Instant::elapsed`, in the low 64
/// bits of `Duration::as_nanos`).
/// Nothing is stated of the value: it depends on the moment.
#[verifier::external_body]
pub(crate) fn nanos_since(origin: &std::time::Instant) -> (r: u64) {
    origin.elapsed().as_nanos() as u64
}

/// The Keccak-256 digest of a byte sequence.
pub uninterp spec fn keccak256_spec(data: Seq<u8>) -> Seq<u8>;

/// Calls `sha3::Keccak256::digest` on `data`; the contract says only that
/// the 32-byte result is the Keccak-256 digest of exactly the bytes handed
/// in.
#[verifier::external_body]
pub(crate) fn keccak256(data: &[u8]) -> (r: [u8; 32])
    ensures
        r@ == keccak256_spec(data@),
{
    sha3::Keccak256::digest(data).into()
}

/// The lower-case hexadecimal digit of a nibble.
pub open spec fn hex_digit(n: u8) -> char {
    if n < 10 {
        (('0' as u8) + n) as char
    } else {
        (('a' as u8) + (n - 10)) as char
    }
}

/// Lower-case hexadecimal encoding: two digits per byte, high nibble first.
pub open spec fn hex_spec(bytes: Seq<u8>) -> Seq<char>
    decreases bytes.len(),
{
    if bytes.len() == 0 {
        Seq::empty()
    } else {
        hex_spec(bytes.drop_last()) + seq![
            hex_digit(bytes.last() / 16),
            hex_digit(bytes.last() % 16),
        ]
    }
}

/// Calls `hex::encode`, which writes each byte as two lower-case hex digits,
/// high nibble first.
#[verifier::external_body]
pub(crate) fn hex_encode(bytes: &[u8]) -> (r: String)
    ensures
        r@ == hex_spec(bytes@),
{
    hex::encode(bytes)
}

/// Reads the system clock: seconds since the Unix epoch
/// (`SystemTime::now`, 0 when the clock is before the epoch).
/// Nothing is stated of the value: it depends on the machine and the moment.
#[verifier::external_body]
pub(crate) fn now_unix_secs() -> (r: u64) {
    std::time::SystemTime::now().duration_since(std::time::UNIX_EPOCH).unwrap_or_default().as_secs()
}

} // verus!
