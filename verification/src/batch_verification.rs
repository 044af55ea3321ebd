//! Checking the signatures of a batch of transactions: each must be 65
//! bytes, recover a public key from the transaction hash, and that key's
//! Keccak-256 address must be the sender's.
use vstd::prelude::*;
use vstd::string::StringExecFns;
use crate::block::Block;
use crate::crypto::{recover_spec, recover_with_stage, RecoveryStage};
use crate::hashing::{keccak256, keccak256_spec, instant_now, nanos_since};
use crate::transaction::{Transaction, tx_hash_spec, lemma_same_tx_same_hash};

verus! {

/// The Keccak address of a compressed public key: the last 20 bytes of
/// the Keccak-256 digest of the key without its prefix byte.
pub open spec fn keccak_address(pk: Seq<u8>) -> Seq<u8> {
    keccak256_spec(pk.subrange(1, pk.len() as int)).subrange(12, 32)
}

/// The public key the signature of `tx` recovers, if any.
pub open spec fn recovered(tx: Transaction) -> Option<Seq<u8>> {
    recover_spec(tx_hash_spec(tx), tx.signature.data@)
}

/// The signature of `tx` is 65 bytes and recovers a public key whose
/// Keccak-256 address is the sender.
pub open spec fn signature_matches(tx: Transaction) -> bool {
    &&& tx.signature.data@.len() == 65
    &&& recovered(tx) is Some
    &&& keccak_address(recovered(tx)->0) == tx.from@
}

/// The outcome of a batch: how many signatures held and failed, the
/// positions that failed, and the time taken in milliseconds.
#[derive(Debug, Clone)]
pub struct VerificationResult {
    pub valid_count: usize,
    pub invalid_count: usize,
    pub failed_signatures: Vec<usize>,
    pub total_time_ms: u64,
}

/// Counters over all batches checked.
#[derive(Debug, Clone, Copy, PartialEq, Eq, Structural)]
pub struct VerificationStats {
    pub total_verifications: usize,
    pub failed_verifications: usize,
    pub total_time_ms: u64,
}

impl Default for VerificationStats {
    fn default() -> (r: VerificationStats)
        ensures
            r.total_verifications == 0,
            r.failed_verifications == 0,
            r.total_time_ms == 0,
    {
        VerificationStats { total_verifications: 0, failed_verifications: 0, total_time_ms: 0 }
    }
}

/// `a + b`, or `u64::MAX` when the sum does not fit.
pub open spec fn saturated_sum(a: u64, b: u64) -> u64 {
    if a + b > u64::MAX { u64::MAX } else { (a + b) as u64 }
}

/// Checks signatures batch by batch and keeps counters.
pub struct BatchSignatureVerifier {
    stats: VerificationStats,
    max_batch_size: usize,
}

/// `prefix` followed by `tail`.
fn joined(prefix: &str, tail: &str) -> (r: String)
    ensures
        r@ == prefix@ + tail@,
{
    let mut r = String::from_str(prefix);
    r.append(tail);
    r
}

/// The character of a decimal digit.
pub open spec fn digit_char(d: nat) -> char {
    (48 + d) as char
}

/// The decimal digits of `n`, most significant first, without leading
/// zeros (a single "0" for zero).
pub open spec fn decimal_spec(n: nat) -> Seq<char>
    decreases n,
{
    if n < 10 {
        seq![digit_char(n)]
    } else {
        decimal_spec(n / 10).push(digit_char(n % 10))
    }
}

/// The text of one decimal digit.
fn digit_text(d: usize) -> (r: &'static str)
    requires
        d < 10,
    ensures
        r@ == seq![digit_char(d as nat)],
{
    proof {
        reveal_strlit("0");
        reveal_strlit("1");
        reveal_strlit("2");
        reveal_strlit("3");
        reveal_strlit("4");
        reveal_strlit("5");
        reveal_strlit("6");
        reveal_strlit("7");
        reveal_strlit("8");
        reveal_strlit("9");
    }
    match d {
        0 => "0",
        1 => "1",
        2 => "2",
        3 => "3",
        4 => "4",
        5 => "5",
        6 => "6",
        7 => "7",
        8 => "8",
        _ => "9",
    }
}

/// `n` written in decimal.
fn decimal_text(n: usize) -> (r: String)
    ensures
        r@ == decimal_spec(n as nat),
    decreases n,
{
    if n < 10 {
        String::from_str(digit_text(n))
    } else {
        let mut r = decimal_text(n / 10);
        r.append(digit_text(n % 10));
        r
    }
}

/// What a signature check of the transaction at `idx` reports on failure.
fn failure_text(idx: usize, reason: &str) -> (r: String)
    ensures
        r@ == "Transaction "@ + decimal_spec(idx as nat) + ": "@ + reason@,
{
    let mut r = String::from_str("Transaction ");
    r.append(decimal_text(idx).as_str());
    r.append(": ");
    r.append(reason);
    r
}

/// Checks one signature: its length, the recovery of a public key, and
/// that the key's Keccak-256 address is the sender's.
fn check_signature(tx: &Transaction, idx: usize) -> (r: Result<(), String>)
    ensures
        r is Ok <==> signature_matches(*tx),
{
    if tx.signature.data.len() != 65 {
        return Err(failure_text(idx, "Invalid signature length"));
    }
    let digest = tx.hash();
    let key = match recover_with_stage(&digest, tx.signature.data.as_slice()) {
        Ok(k) => k,
        Err((stage, text)) => {
            let reason = match stage {
                RecoveryStage::RecoveryId => joined("Invalid recovery ID: ", text.as_str()),
                RecoveryStage::Signature => joined("Invalid signature: ", text.as_str()),
                RecoveryStage::RecoverableSignature => joined("Invalid recoverable signature: ", text.as_str()),
                RecoveryStage::Recovery => joined("Public key recovery failed: ", text.as_str()),
            };
            return Err(failure_text(idx, reason.as_str()));
        },
    };
    let mut body: Vec<u8> = Vec::new();
    let mut i: usize = 1;
    while i < 33
        invariant
            1 <= i <= 33,
            body@ == key@.subrange(1, i as int),
        decreases 33 - i,
    {
        body.push(key[i]);
        i = i + 1;
        proof {
            assert(body@ =~= key@.subrange(1, i as int));
        }
    }
    let hash = keccak256(body.as_slice());
    let mut matches = true;
    let mut j: usize = 0;
    while j < 20
        invariant
            0 <= j <= 20,
            hash@ == keccak256_spec(key@.subrange(1, 33)),
            matches == (forall|t: int| 0 <= t < j ==> hash@[12 + t] == tx.from@[t]),
        decreases 20 - j,
    {
        if hash[12 + j] != tx.from[j] {
            matches = false;
        }
        j = j + 1;
    }
    proof {
        assert(matches <==> keccak_address(key@) =~= tx.from@);
    }
    if !matches {
        return Err(failure_text(idx, "signature does not match from address"));
    }
    Ok(())
}

impl BatchSignatureVerifier {
    /// The counters.
    pub closed spec fn stats_spec(&self) -> VerificationStats {
        self.stats
    }

    /// The largest number of signatures checked together.
    pub closed spec fn max_batch_spec(&self) -> usize {
        self.max_batch_size
    }

    /// A verifier with zero counters.
    pub fn new(max_batch_size: usize) -> (r: BatchSignatureVerifier)
        ensures
            r.stats_spec() == (VerificationStats { total_verifications: 0, failed_verifications: 0, total_time_ms: 0 }),
            r.max_batch_spec() == max_batch_size,
    {
        BatchSignatureVerifier { stats: VerificationStats::default(), max_batch_size }
    }

    /// Checks every signature of `transactions`, in order, stopping at the
    /// first that fails: then an error naming its position, the counters
    /// unchanged. When all hold, every one counts as valid and the
    /// counters take the batch and its time. An empty batch is valid at
    /// once and leaves the counters alone. (Splitting a batch into chunks
    /// of a size of zero is impossible, so that size needs a failing
    /// signature or an empty batch.)
    pub fn verify_transaction_batch(&mut self, transactions: &[Transaction]) -> (r: Result<VerificationResult, String>)
        requires
            old(self).stats_spec().total_verifications + transactions@.len() <= usize::MAX,
            old(self).max_batch_spec() == 0 && transactions@.len() > 0
                ==> exists|i: int| 0 <= i < transactions@.len() && !signature_matches(#[trigger] transactions@[i]),
        ensures
            final(self).max_batch_spec() == old(self).max_batch_spec(),
            r is Ok <==> forall|i: int| 0 <= i < transactions@.len() ==> signature_matches(#[trigger] transactions@[i]),
            r matches Ok(v) ==> v.valid_count == transactions@.len() && v.invalid_count == 0
                && v.failed_signatures@.len() == 0,
            r is Err || transactions@.len() == 0 ==> final(self).stats_spec() == old(self).stats_spec(),
            transactions@.len() == 0 ==> (r matches Ok(v) && v.total_time_ms == 0),
            r matches Ok(v) ==> (transactions@.len() > 0 ==> final(self).stats_spec() == (VerificationStats {
                total_verifications: (old(self).stats_spec().total_verifications + transactions@.len()) as usize,
                failed_verifications: old(self).stats_spec().failed_verifications,
                total_time_ms: saturated_sum(old(self).stats_spec().total_time_ms, v.total_time_ms),
            })),
    {
        let start = instant_now();
        let n = transactions.len();
        if n == 0 {
            return Ok(VerificationResult { valid_count: 0, invalid_count: 0, failed_signatures: Vec::new(), total_time_ms: 0 });
        }
        let mut i: usize = 0;
        while i < n
            invariant
                n == transactions@.len(),
                0 <= i <= n,
                forall|k: int| 0 <= k < i ==> signature_matches(#[trigger] transactions@[k]),
            decreases n - i,
        {
            match check_signature(&transactions[i], i) {
                Ok(()) => {},
                Err(e) => return Err(e),
            }
            i = i + 1;
        }
        let elapsed_ms = nanos_since(&start) / 1_000_000;
        self.stats.total_verifications = self.stats.total_verifications + n;
        self.stats.total_time_ms = self.stats.total_time_ms.saturating_add(elapsed_ms);
        Ok(VerificationResult { valid_count: n, invalid_count: 0, failed_signatures: Vec::new(), total_time_ms: elapsed_ms })
    }

    /// Checks the signatures of a block's transactions.
    pub fn verify_block_signatures(&mut self, block: &Block) -> (r: Result<VerificationResult, String>)
        requires
            old(self).stats_spec().total_verifications + block.transactions@.len() <= usize::MAX,
            old(self).max_batch_spec() == 0 && block.transactions@.len() > 0
                ==> exists|i: int| 0 <= i < block.transactions@.len() && !signature_matches(#[trigger] block.transactions@[i]),
        ensures
            final(self).max_batch_spec() == old(self).max_batch_spec(),
            r is Ok <==> forall|i: int| 0 <= i < block.transactions@.len() ==> signature_matches(#[trigger] block.transactions@[i]),
            r is Err ==> final(self).stats_spec() == old(self).stats_spec(),
    {
        self.verify_transaction_batch(block.transactions.as_slice())
    }

    /// Checks one transaction's signature as a batch of one: `Ok(true)`
    /// when it holds, an error naming position 0 when not.
    pub fn verify_transaction(&mut self, tx: &Transaction) -> (r: Result<bool, String>)
        requires
            old(self).stats_spec().total_verifications < usize::MAX,
            old(self).max_batch_spec() == 0 ==> !signature_matches(*tx),
        ensures
            final(self).max_batch_spec() == old(self).max_batch_spec(),
            r is Ok <==> signature_matches(*tx),
            r matches Ok(b) ==> b,
            r is Err ==> final(self).stats_spec() == old(self).stats_spec(),
            r is Ok ==> final(self).stats_spec().total_verifications == old(self).stats_spec().total_verifications + 1
                && final(self).stats_spec().failed_verifications == old(self).stats_spec().failed_verifications,
    {
        let one = vec![tx.copy()];
        proof {
            lemma_same_tx_same_hash(*tx, one@[0]);
            assert(signature_matches(one@[0]) == signature_matches(*tx));
        }
        match self.verify_transaction_batch(one.as_slice()) {
            Ok(result) => Ok(result.invalid_count == 0),
            Err(e) => Err(e),
        }
    }

    /// The counters.
    pub fn get_stats(&self) -> (r: VerificationStats)
        ensures
            r == self.stats_spec(),
    {
        self.stats
    }

    /// Sets the counters back to zero.
    pub fn reset_stats(&mut self)
        ensures
            final(self).stats_spec() == (VerificationStats { total_verifications: 0, failed_verifications: 0, total_time_ms: 0 }),
            final(self).max_batch_spec() == old(self).max_batch_spec(),
    {
        self.stats = VerificationStats::default();
    }

    /// The quick check before a transaction enters the mempool: a
    /// signature is present and 65 bytes long.
    pub fn pre_verify_transaction(&self, tx: &Transaction) -> (r: Result<(), String>)
        ensures
            r is Ok <==> tx.signature.data@.len() == 65,
            tx.signature.data@.len() == 0 ==> (r matches Err(e) && e@ == "Transaction has no signature"@),
            tx.signature.data@.len() != 0 && tx.signature.data@.len() != 65
                ==> (r matches Err(e) && e@ == "Invalid signature length"@),
    {
        if tx.signature.data.len() == 0 {
            return Err(String::from_str("Transaction has no signature"));
        }
        if tx.signature.data.len() != 65 {
            return Err(String::from_str("Invalid signature length"));
        }
        Ok(())
    }
}

} // verus!
