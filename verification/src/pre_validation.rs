//! Stateless transaction pre-validation: cheap checks made before a
//! transaction is admitted, without looking at account state.
use vstd::prelude::*;
use vstd::string::{StringExecFns, StrSliceExecFns};
use crate::hashing::{Address, hash_eq, address_eq, address_is_zero};
use crate::block::Block;
use crate::transaction::{Transaction, TxPayload, tx_hash_spec};

verus! {

/// Why a transaction was refused.
#[derive(Debug, Clone, PartialEq)]
pub enum ValidationError {
    InvalidFormat(String),
    InvalidSignature,
    InsufficientBalance,
    InvalidNonce,
    GasLimitExceeded,
    InvalidGasPrice,
    DuplicateTransaction,
    BlacklistedAddress,
}

impl ValidationError {
    /// The error as text: the variant's name, with the message of a format
    /// error in quotes (as `{:?}` writes it when the message needs no
    /// escaping).
    pub fn describe(&self) -> (r: String)
        ensures
            match self {
                ValidationError::InvalidFormat(m) => r@ == "InvalidFormat(\""@ + m@ + "\")"@,
                ValidationError::InvalidSignature => r@ == "InvalidSignature"@,
                ValidationError::InsufficientBalance => r@ == "InsufficientBalance"@,
                ValidationError::InvalidNonce => r@ == "InvalidNonce"@,
                ValidationError::GasLimitExceeded => r@ == "GasLimitExceeded"@,
                ValidationError::InvalidGasPrice => r@ == "InvalidGasPrice"@,
                ValidationError::DuplicateTransaction => r@ == "DuplicateTransaction"@,
                ValidationError::BlacklistedAddress => r@ == "BlacklistedAddress"@,
            },
    {
        match self {
            ValidationError::InvalidFormat(m) => {
                let mut s = String::from_str("InvalidFormat(\"");
                s.append(m.as_str());
                s.append("\")");
                s
            },
            ValidationError::InvalidSignature => String::from_str("InvalidSignature"),
            ValidationError::InsufficientBalance => String::from_str("InsufficientBalance"),
            ValidationError::InvalidNonce => String::from_str("InvalidNonce"),
            ValidationError::GasLimitExceeded => String::from_str("GasLimitExceeded"),
            ValidationError::InvalidGasPrice => String::from_str("InvalidGasPrice"),
            ValidationError::DuplicateTransaction => String::from_str("DuplicateTransaction"),
            ValidationError::BlacklistedAddress => String::from_str("BlacklistedAddress"),
        }
    }
}

/// The outcome of pre-validating a transaction.
#[derive(Debug, Clone)]
pub struct PreValidationResult {
    pub is_valid: bool,
    pub errors: Vec<ValidationError>,
}

/// Every byte of `a` is zero.
pub open spec fn is_zero_address(a: Address) -> bool {
    forall|j: int| 0 <= j < 20 ==> a@[j] == 0
}

/// The structural checks: size, amount, gas limit, non-zero addresses, no
/// self-transfer, code present for a deployment, method and contract named
/// for a call.
pub open spec fn format_ok(max_tx_size: usize, tx: Transaction) -> bool {
    &&& vstd::layout::spec_size_of_val::<Transaction>(&tx) <= max_tx_size
    &&& !(tx.payload matches TxPayload::Transfer { amount, .. } && amount == 0)
    &&& tx.gas_limit != 0
    &&& !is_zero_address(tx.from)
    &&& match tx.payload {
        TxPayload::Transfer { to, .. } => !is_zero_address(to) && tx.from != to,
        TxPayload::ContractDeploy { wasm_code, .. } => wasm_code@.len() > 0,
        TxPayload::ContractCall { contract_address, method, .. } => !is_zero_address(contract_address) && method@.len() > 0,
    }
}

/// The signature has the 65 bytes of a recoverable signature.
pub open spec fn signature_ok(tx: Transaction) -> bool {
    tx.signature.data@.len() == 65
}

/// The gas limit is above the maximum.
pub open spec fn gas_limit_exceeded(max_gas_limit: u64, tx: Transaction) -> bool {
    tx.gas_limit > max_gas_limit
}

/// The gas price is below the minimum or more than a thousand times it.
pub open spec fn gas_price_bad(min_gas_price: u64, tx: Transaction) -> bool {
    tx.gas_price < min_gas_price || tx.gas_price > min_gas_price * 1000
}

/// The sender, recipient or called contract is blacklisted.
pub open spec fn address_blocked(blacklist: Set<Address>, tx: Transaction) -> bool {
    blacklist.contains(tx.from) || match tx.payload {
        TxPayload::Transfer { to, .. } => blacklist.contains(to),
        TxPayload::ContractCall { contract_address, .. } => blacklist.contains(contract_address),
        TxPayload::ContractDeploy { .. } => false,
    }
}

/// The transaction's hash is among the known hashes.
pub open spec fn known_hash(known: Set<[u8; 32]>, tx: Transaction) -> bool {
    exists|h: [u8; 32]| #[trigger] known.contains(h) && h@ == tx_hash_spec(tx)
}

/// The errors pre-validation reports, in order, each given by the variant
/// it must have.
pub open spec fn expected_errors(v: TransactionPreValidator, tx: Transaction) -> Seq<spec_fn(ValidationError) -> bool> {
    (if format_ok(v.max_tx_size_spec(), tx) { Seq::empty() } else { seq![|e: ValidationError| e is InvalidFormat] })
    + (if signature_ok(tx) { Seq::empty() } else { seq![|e: ValidationError| e is InvalidSignature] })
    + (if gas_limit_exceeded(v.max_gas_limit_spec(), tx) {
        seq![|e: ValidationError| e is GasLimitExceeded]
    } else if gas_price_bad(v.min_gas_price_spec(), tx) {
        seq![|e: ValidationError| e is InvalidGasPrice]
    } else {
        Seq::empty()
    })
    + (if address_blocked(v.blacklist(), tx) { seq![|e: ValidationError| e is BlacklistedAddress] } else { Seq::empty() })
    + (if known_hash(v.known(), tx) { seq![|e: ValidationError| e is DuplicateTransaction] } else { Seq::empty() })
}

/// `r` is what pre-validating `tx` with `v` reports.
pub open spec fn result_matches(v: TransactionPreValidator, tx: Transaction, r: PreValidationResult) -> bool {
    let ex = expected_errors(v, tx);
    &&& r.errors@.len() == ex.len()
    &&& forall|i: int| 0 <= i < ex.len() ==> (#[trigger] ex[i])(r.errors@[i])
    &&& r.is_valid == (ex.len() == 0)
}


/// Pre-validation reports a blacklisted address exactly when the sender,
/// the recipient of a transfer or the called contract is on the blacklist,
/// and a transaction with such an address is never valid.
pub proof fn lemma_blacklist_reported(v: TransactionPreValidator, tx: Transaction, r: PreValidationResult)
    requires
        result_matches(v, tx, r),
    ensures
        ({
            let listed = v.blacklist().contains(tx.from)
                || (tx.payload matches TxPayload::Transfer { to, .. } && v.blacklist().contains(to))
                || (tx.payload matches TxPayload::ContractCall { contract_address, .. } && v.blacklist().contains(contract_address));
            &&& listed ==> !r.is_valid
            &&& listed <==> exists|i: int| 0 <= i < r.errors@.len() && #[trigger] r.errors@[i] is BlacklistedAddress
        }),
{
    let ex = expected_errors(v, tx);
    let c1: Seq<spec_fn(ValidationError) -> bool> = if format_ok(v.max_tx_size_spec(), tx) { Seq::empty() } else { seq![|e: ValidationError| e is InvalidFormat] };
    let c2: Seq<spec_fn(ValidationError) -> bool> = if signature_ok(tx) { Seq::empty() } else { seq![|e: ValidationError| e is InvalidSignature] };
    let c3: Seq<spec_fn(ValidationError) -> bool> = if gas_limit_exceeded(v.max_gas_limit_spec(), tx) {
        seq![|e: ValidationError| e is GasLimitExceeded]
    } else if gas_price_bad(v.min_gas_price_spec(), tx) {
        seq![|e: ValidationError| e is InvalidGasPrice]
    } else {
        Seq::empty()
    };
    let c4: Seq<spec_fn(ValidationError) -> bool> = if address_blocked(v.blacklist(), tx) { seq![|e: ValidationError| e is BlacklistedAddress] } else { Seq::empty() };
    let c5: Seq<spec_fn(ValidationError) -> bool> = if known_hash(v.known(), tx) { seq![|e: ValidationError| e is DuplicateTransaction] } else { Seq::empty() };
    assert(ex == c1 + c2 + c3 + c4 + c5);
    let n3 = c1.len() + c2.len() + c3.len();
    if address_blocked(v.blacklist(), tx) {
        assert(ex[n3 as int] == c4[0]);
        assert((ex[n3 as int])(r.errors@[n3 as int]));
        assert(r.errors@[n3 as int] is BlacklistedAddress);
    } else {
        assert forall|i: int| 0 <= i < r.errors@.len() implies !(#[trigger] r.errors@[i] is BlacklistedAddress) by {
            assert((ex[i])(r.errors@[i]));
            if i < c1.len() {
                assert(ex[i] == c1[i]);
            } else if i < c1.len() + c2.len() {
                assert(ex[i] == c2[i - c1.len()]);
            } else if i < n3 {
                assert(ex[i] == c3[i - c1.len() - c2.len()]);
            } else {
                assert(ex[i] == c5[i - n3]);
            }
        }
    }
}

/// An earlier transaction of the list has the same hash as the one at `i`.
pub open spec fn dup_before(txs: Seq<Transaction>, i: int) -> bool {
    exists|j: int| 0 <= j < i && tx_hash_spec(#[trigger] txs[j]) == tx_hash_spec(txs[i])
}

/// The number of errors block validation reports for the first `m`
/// transactions: each one's pre-validation errors, plus one for each
/// repeated hash.
pub open spec fn block_error_count(v: TransactionPreValidator, txs: Seq<Transaction>, m: int) -> nat
    decreases m,
{
    if m <= 0 {
        0
    } else {
        block_error_count(v, txs, m - 1) + expected_errors(v, txs[m - 1]).len() + (if dup_before(txs, m - 1) { 1nat } else { 0nat })
    }
}

/// No errors are reported exactly when every transaction passes and no
/// hash repeats.
pub proof fn lemma_block_errors_none(v: TransactionPreValidator, txs: Seq<Transaction>, m: int)
    requires
        0 <= m <= txs.len(),
    ensures
        block_error_count(v, txs, m) == 0 <==> forall|i: int| 0 <= i < m ==> expected_errors(v, #[trigger] txs[i]).len() == 0 && !dup_before(txs, i),
    decreases m,
{
    if m > 0 {
        lemma_block_errors_none(v, txs, m - 1);
    }
}

/// The gas estimate before it is capped by the gas limit.
pub open spec fn raw_gas_estimate(tx: Transaction) -> int {
    21000 + match tx.payload {
        TxPayload::Transfer { .. } => 0int,
        TxPayload::ContractDeploy { wasm_code, init_args } => (wasm_code@.len() * 16 + init_args@.len() * 4) as int,
        TxPayload::ContractCall { args, .. } => (args@.len() * 4) as int,
    }
}

/// Whether `a` occurs in `v`.
fn contains_address(v: &Vec<Address>, a: &Address) -> (r: bool)
    ensures
        r == v@.contains(*a),
{
    let mut i: usize = 0;
    while i < v.len()
        invariant
            0 <= i <= v@.len(),
            forall|j: int| 0 <= j < i ==> v@[j] != *a,
        decreases v@.len() - i,
    {
        if address_eq(&v[i], a) {
            assert(v@[i as int] == *a);
            return true;
        }
        i = i + 1;
    }
    false
}

/// Whether `h` occurs in `v`.
fn contains_tx_hash(v: &Vec<[u8; 32]>, h: &[u8; 32]) -> (r: bool)
    ensures
        r == v@.contains(*h),
{
    let mut i: usize = 0;
    while i < v.len()
        invariant
            0 <= i <= v@.len(),
            forall|j: int| 0 <= j < i ==> v@[j] != *h,
        decreases v@.len() - i,
    {
        if hash_eq(&v[i], h) {
            assert(v@[i as int] == *h);
            return true;
        }
        i = i + 1;
    }
    false
}

/// A duplicate-free sequence without `x`.
proof fn lemma_remove_nodup<T>(s: Seq<T>, r: Seq<T>, x: T)
    requires
        s.no_duplicates(),
        r.no_duplicates(),
        forall|y: T| r.contains(y) <==> (s.contains(y) && y != x),
    ensures
        r.to_set() == s.to_set().remove(x),
{
    assert(r.to_set() =~= s.to_set().remove(x));
}

/// Stateless pre-validator with gas and size limits, a blacklist of
/// addresses and the hashes of transactions already known.
#[derive(Debug)]
pub struct TransactionPreValidator {
    max_gas_limit: u64,
    min_gas_price: u64,
    max_tx_size: usize,
    blacklisted_addresses: Vec<Address>,
    known_tx_hashes: Vec<[u8; 32]>,
}

impl TransactionPreValidator {
    /// The largest gas limit accepted.
    pub closed spec fn max_gas_limit_spec(&self) -> u64 {
        self.max_gas_limit
    }

    /// The smallest gas price accepted.
    pub closed spec fn min_gas_price_spec(&self) -> u64 {
        self.min_gas_price
    }

    /// The largest transaction size accepted, in bytes.
    pub closed spec fn max_tx_size_spec(&self) -> usize {
        self.max_tx_size
    }

    /// The blacklisted addresses.
    pub closed spec fn blacklist(&self) -> Set<Address> {
        self.blacklisted_addresses@.to_set()
    }

    /// The known transaction hashes.
    pub closed spec fn known(&self) -> Set<[u8; 32]> {
        self.known_tx_hashes@.to_set()
    }

    /// Each address and hash is recorded once.
    pub closed spec fn wf(&self) -> bool {
        self.blacklisted_addresses@.no_duplicates() && self.known_tx_hashes@.no_duplicates()
    }

    /// The two recorded sets are finite.
    pub proof fn lemma_finite(&self)
        ensures
            self.blacklist().finite(),
            self.known().finite(),
    {
        broadcast use vstd::seq_lib::seq_to_set_is_finite;
    }

    /// A validator with the given limits and empty sets.
    pub fn new(max_gas_limit: u64, min_gas_price: u64, max_tx_size: usize) -> (r: TransactionPreValidator)
        ensures
            r.wf(),
            r.max_gas_limit_spec() == max_gas_limit,
            r.min_gas_price_spec() == min_gas_price,
            r.max_tx_size_spec() == max_tx_size,
            r.blacklist() == Set::<Address>::empty(),
            r.known() == Set::<[u8; 32]>::empty(),
    {
        let r = TransactionPreValidator {
            max_gas_limit,
            min_gas_price,
            max_tx_size,
            blacklisted_addresses: Vec::new(),
            known_tx_hashes: Vec::new(),
        };
        proof {
            assert(r.blacklisted_addresses@.to_set() =~= Set::<Address>::empty());
            assert(r.known_tx_hashes@.to_set() =~= Set::<[u8; 32]>::empty());
        }
        r
    }

    /// Runs every check on `tx` and lists the errors, in the order format,
    /// signature, gas, addresses, duplicate.
    pub fn pre_validate_transaction(&self, tx: &Transaction) -> (r: PreValidationResult)
        requires
            self.wf(),
            self.min_gas_price_spec() * 1000 <= u64::MAX,
        ensures
            result_matches(*self, *tx, r),
    {
        let mut errors: Vec<ValidationError> = Vec::new();
        let ghost ex = expected_errors(*self, *tx);
        let f = self.validate_format(tx);
        match f {
            Err(e) => { errors.push(e); },
            Ok(()) => {},
        }
        let ghost n1 = errors@.len();
        let sig = self.validate_signature(tx);
        match sig {
            Err(e) => { errors.push(e); },
            Ok(()) => {},
        }
        let ghost n2 = errors@.len();
        let g = self.validate_gas(tx);
        match g {
            Err(e) => { errors.push(e); },
            Ok(()) => {},
        }
        let ghost n3 = errors@.len();
        let a = self.validate_addresses(tx);
        match a {
            Err(e) => { errors.push(e); },
            Ok(()) => {},
        }
        let ghost n4 = errors@.len();
        let d = self.check_duplicate(tx);
        match d {
            Err(e) => { errors.push(e); },
            Ok(()) => {},
        }
        proof {
            let c1: Seq<spec_fn(ValidationError) -> bool> = if format_ok(self.max_tx_size_spec(), *tx) { Seq::empty() } else { seq![|e: ValidationError| e is InvalidFormat] };
            let c2: Seq<spec_fn(ValidationError) -> bool> = if signature_ok(*tx) { Seq::empty() } else { seq![|e: ValidationError| e is InvalidSignature] };
            let c3: Seq<spec_fn(ValidationError) -> bool> = if gas_limit_exceeded(self.max_gas_limit_spec(), *tx) {
                seq![|e: ValidationError| e is GasLimitExceeded]
            } else if gas_price_bad(self.min_gas_price_spec(), *tx) {
                seq![|e: ValidationError| e is InvalidGasPrice]
            } else {
                Seq::empty()
            };
            let c4: Seq<spec_fn(ValidationError) -> bool> = if address_blocked(self.blacklist(), *tx) { seq![|e: ValidationError| e is BlacklistedAddress] } else { Seq::empty() };
            let c5: Seq<spec_fn(ValidationError) -> bool> = if known_hash(self.known(), *tx) { seq![|e: ValidationError| e is DuplicateTransaction] } else { Seq::empty() };
            assert(ex == c1 + c2 + c3 + c4 + c5);
            assert(n1 == c1.len());
            assert(n2 == n1 + c2.len());
            assert(n3 == n2 + c3.len());
            assert(n4 == n3 + c4.len());
            assert(errors@.len() == n4 + c5.len());
            assert forall|i: int| 0 <= i < ex.len() implies (#[trigger] ex[i])(errors@[i]) by {
                if i < n1 {
                    assert(ex[i] == c1[i]);
                } else if i < n2 {
                    assert(ex[i] == c2[i - n1]);
                } else if i < n3 {
                    assert(ex[i] == c3[i - n2]);
                } else if i < n4 {
                    assert(ex[i] == c4[i - n3]);
                } else {
                    assert(ex[i] == c5[i - n4]);
                }
            }
        }
        let is_valid = errors.len() == 0;
        PreValidationResult { is_valid, errors }
    }

    /// Pre-validates each transaction.
    pub fn pre_validate_transactions(&self, transactions: &[Transaction]) -> (r: Vec<PreValidationResult>)
        requires
            self.wf(),
            self.min_gas_price_spec() * 1000 <= u64::MAX,
        ensures
            r@.len() == transactions@.len(),
            forall|i: int| 0 <= i < r@.len() ==> result_matches(*self, transactions@[i], #[trigger] r@[i]),
    {
        let mut out: Vec<PreValidationResult> = Vec::new();
        let mut i: usize = 0;
        while i < transactions.len()
            invariant
                self.wf(),
                self.min_gas_price_spec() * 1000 <= u64::MAX,
                0 <= i <= transactions@.len(),
                out@.len() == i,
                forall|j: int| 0 <= j < i ==> result_matches(*self, transactions@[j], #[trigger] out@[j]),
            decreases transactions@.len() - i,
        {
            let res = self.pre_validate_transaction(&transactions[i]);
            out.push(res);
            i = i + 1;
        }
        out
    }

    /// The structural checks; the first that fails is reported.
    fn validate_format(&self, tx: &Transaction) -> (r: Result<(), ValidationError>)
        ensures
            r is Ok <==> format_ok(self.max_tx_size, *tx),
            r matches Err(e) ==> e is InvalidFormat,
    {
        let tx_size = std::mem::size_of_val(tx);
        if tx_size > self.max_tx_size {
            let mut msg = String::from_str("Transaction size ");
            msg.append(tx_size.to_string().as_str());
            msg.append(" exceeds maximum ");
            msg.append(self.max_tx_size.to_string().as_str());
            return Err(ValidationError::InvalidFormat(msg));
        }
        let amount: u64 = match &tx.payload {
            TxPayload::Transfer { amount, .. } => *amount,
            TxPayload::ContractDeploy { .. } => 0,
            TxPayload::ContractCall { .. } => 0,
        };
        if amount == 0 && matches!(tx.payload, TxPayload::Transfer { .. }) {
            return Err(ValidationError::InvalidFormat(String::from_str("Transfer transaction amount cannot be zero")));
        }
        if tx.gas_limit == 0 {
            return Err(ValidationError::InvalidFormat(String::from_str("Gas limit cannot be zero")));
        }
        if address_is_zero(&tx.from) {
            return Err(ValidationError::InvalidFormat(String::from_str("From address cannot be zero")));
        }
        match &tx.payload {
            TxPayload::Transfer { to, .. } => {
                if address_is_zero(to) {
                    return Err(ValidationError::InvalidFormat(String::from_str("To address cannot be zero")));
                }
                if address_eq(&tx.from, to) {
                    return Err(ValidationError::InvalidFormat(String::from_str("From and to addresses cannot be the same")));
                }
            },
            TxPayload::ContractDeploy { wasm_code, .. } => {
                if wasm_code.len() == 0 {
                    return Err(ValidationError::InvalidFormat(String::from_str("Contract deploy must include WASM code")));
                }
            },
            TxPayload::ContractCall { contract_address, method, .. } => {
                if address_is_zero(contract_address) {
                    return Err(ValidationError::InvalidFormat(String::from_str("Contract address cannot be zero")));
                }
                if method.as_str().unicode_len() == 0 {
                    return Err(ValidationError::InvalidFormat(String::from_str("Contract method cannot be empty")));
                }
            },
        }
        Ok(())
    }

    /// The signature must have 65 bytes; it is verified in full elsewhere.
    fn validate_signature(&self, tx: &Transaction) -> (r: Result<(), ValidationError>)
        ensures
            r is Ok <==> signature_ok(*tx),
            r matches Err(e) ==> e is InvalidSignature,
    {
        if tx.signature.data.len() != 65 {
            return Err(ValidationError::InvalidSignature);
        }
        Ok(())
    }

    /// The gas limit must not exceed the maximum, and the gas price must
    /// lie between the minimum and a thousand times it.
    fn validate_gas(&self, tx: &Transaction) -> (r: Result<(), ValidationError>)
        requires
            self.min_gas_price * 1000 <= u64::MAX,
        ensures
            r is Ok <==> !gas_limit_exceeded(self.max_gas_limit, *tx) && !gas_price_bad(self.min_gas_price, *tx),
            r matches Err(e) ==> (if gas_limit_exceeded(self.max_gas_limit, *tx) { e is GasLimitExceeded } else { e is InvalidGasPrice }),
    {
        if tx.gas_limit > self.max_gas_limit {
            return Err(ValidationError::GasLimitExceeded);
        }
        if tx.gas_price < self.min_gas_price {
            return Err(ValidationError::InvalidGasPrice);
        }
        if tx.gas_price > self.min_gas_price * 1000 {
            return Err(ValidationError::InvalidGasPrice);
        }
        Ok(())
    }

    /// Neither the sender nor the recipient (or called contract) may be
    /// blacklisted.
    fn validate_addresses(&self, tx: &Transaction) -> (r: Result<(), ValidationError>)
        ensures
            r is Ok <==> !address_blocked(self.blacklist(), *tx),
            r matches Err(e) ==> e is BlacklistedAddress,
    {
        proof {
            assert forall|a: Address| self.blacklist().contains(a) <==> self.blacklisted_addresses@.contains(a) by {}
        }
        if contains_address(&self.blacklisted_addresses, &tx.from) {
            return Err(ValidationError::BlacklistedAddress);
        }
        match &tx.payload {
            TxPayload::Transfer { to, .. } => {
                if contains_address(&self.blacklisted_addresses, to) {
                    return Err(ValidationError::BlacklistedAddress);
                }
            },
            TxPayload::ContractCall { contract_address, .. } => {
                if contains_address(&self.blacklisted_addresses, contract_address) {
                    return Err(ValidationError::BlacklistedAddress);
                }
            },
            TxPayload::ContractDeploy { .. } => {},
        }
        Ok(())
    }

    /// The transaction's hash must not be known already.
    fn check_duplicate(&self, tx: &Transaction) -> (r: Result<(), ValidationError>)
        ensures
            r is Ok <==> !known_hash(self.known(), *tx),
            r matches Err(e) ==> e is DuplicateTransaction,
    {
        let tx_hash = tx.hash();
        if contains_tx_hash(&self.known_tx_hashes, &tx_hash) {
            proof { assert(self.known().contains(tx_hash)); }
            return Err(ValidationError::DuplicateTransaction);
        }
        proof {
            if known_hash(self.known(), *tx) {
                let h = choose|h: [u8; 32]| #[trigger] self.known().contains(h) && h@ == tx_hash_spec(*tx);
                crate::hashing::lemma_hash_view_eq(h, tx_hash);
            }
        }
        Ok(())
    }

    /// Records a transaction hash as known.
    pub fn add_known_transaction(&mut self, tx_hash: [u8; 32])
        requires
            old(self).wf(),
        ensures
            final(self).wf(),
            final(self).known() == old(self).known().insert(tx_hash),
            final(self).blacklist() == old(self).blacklist(),
            final(self).max_gas_limit_spec() == old(self).max_gas_limit_spec(),
            final(self).min_gas_price_spec() == old(self).min_gas_price_spec(),
            final(self).max_tx_size_spec() == old(self).max_tx_size_spec(),
    {
        if !contains_tx_hash(&self.known_tx_hashes, &tx_hash) {
            let ghost old_k = self.known_tx_hashes@;
            self.known_tx_hashes.push(tx_hash);
            proof {
                assert(self.known_tx_hashes@.no_duplicates()) by {
                    assert forall|i: int, j: int| 0 <= i < self.known_tx_hashes@.len() && 0 <= j < self.known_tx_hashes@.len() && i != j
                        implies self.known_tx_hashes@[i] != self.known_tx_hashes@[j] by {
                        if i < old_k.len() && j < old_k.len() {
                        } else if i < old_k.len() {
                            assert(old_k.contains(self.known_tx_hashes@[i]));
                        } else {
                            assert(old_k.contains(self.known_tx_hashes@[j]));
                        }
                    }
                }
                assert(self.known_tx_hashes@.to_set() =~= old_k.to_set().insert(tx_hash)) by {
                    assert forall|h: [u8; 32]| self.known_tx_hashes@.contains(h) <==> (old_k.contains(h) || h == tx_hash) by {
                        if old_k.contains(h) {
                            let t = choose|t: int| 0 <= t < old_k.len() && old_k[t] == h;
                            assert(self.known_tx_hashes@[t] == h);
                        }
                        if self.known_tx_hashes@.contains(h) && h != tx_hash {
                            let t = choose|t: int| 0 <= t < self.known_tx_hashes@.len() && self.known_tx_hashes@[t] == h;
                            assert(old_k[t] == h);
                        }
                        if h == tx_hash {
                            assert(self.known_tx_hashes@[old_k.len() as int] == h);
                        }
                    }
                }
            }
        } else {
            proof { assert(self.known_tx_hashes@.to_set() =~= self.known_tx_hashes@.to_set().insert(tx_hash)); }
        }
    }

    /// Forgets a transaction hash.
    pub fn remove_known_transaction(&mut self, tx_hash: &[u8; 32])
        requires
            old(self).wf(),
        ensures
            final(self).wf(),
            final(self).known() == old(self).known().remove(*tx_hash),
            final(self).blacklist() == old(self).blacklist(),
            final(self).max_gas_limit_spec() == old(self).max_gas_limit_spec(),
            final(self).min_gas_price_spec() == old(self).min_gas_price_spec(),
            final(self).max_tx_size_spec() == old(self).max_tx_size_spec(),
    {
        let ghost old_k = self.known_tx_hashes@;
        let mut kept: Vec<[u8; 32]> = Vec::new();
        let mut i: usize = 0;
        while i < self.known_tx_hashes.len()
            invariant
                old_k == self.known_tx_hashes@,
                old_k.no_duplicates(),
                0 <= i <= old_k.len(),
                kept@.no_duplicates(),
                forall|h: [u8; 32]| kept@.contains(h) <==> (crate::dag_index::in_prefix(old_k, i as int, h) && h != *tx_hash),
            decreases old_k.len() - i,
        {
            let h = self.known_tx_hashes[i];
            proof { crate::dag_index::lemma_in_prefix_step(old_k, i as int); }
            let ghost before = kept@;
            if !hash_eq(&h, tx_hash) {
                proof {
                    assert(!before.contains(h)) by {
                        if before.contains(h) {
                            let t = choose|t: int| 0 <= t < i && #[trigger] old_k[t] == h;
                        }
                    }
                }
                kept.push(h);
                proof {
                    assert forall|y: [u8; 32]| kept@.contains(y) <==> (before.contains(y) || y == h) by {
                        if before.contains(y) {
                            let t = choose|t: int| 0 <= t < before.len() && before[t] == y;
                            assert(kept@[t] == y);
                        }
                        if kept@.contains(y) && y != h {
                            let t = choose|t: int| 0 <= t < kept@.len() && kept@[t] == y;
                            assert(before[t] == y);
                        }
                        if y == h { assert(kept@[kept@.len() - 1] == y); }
                    }
                }
            }
            proof {
                assert forall|y: [u8; 32]| kept@.contains(y) <==> (crate::dag_index::in_prefix(old_k, i + 1, y) && y != *tx_hash) by {
                    if y != h {
                        assert(kept@.contains(y) == before.contains(y));
                    }
                }
            }
            i = i + 1;
        }
        proof {
            assert forall|y: [u8; 32]| kept@.contains(y) <==> (old_k.contains(y) && y != *tx_hash) by {
                if old_k.contains(y) {
                    let t = choose|t: int| 0 <= t < old_k.len() && old_k[t] == y;
                    assert(crate::dag_index::in_prefix(old_k, i as int, y));
                }
                if crate::dag_index::in_prefix(old_k, i as int, y) {
                    let t = choose|t: int| 0 <= t < i && old_k[t] == y;
                    assert(old_k.contains(y));
                }
            }
            lemma_remove_nodup(old_k, kept@, *tx_hash);
        }
        self.known_tx_hashes = kept;
    }

    /// Forgets every known transaction hash.
    pub fn clear_known_transactions(&mut self)
        requires
            old(self).wf(),
        ensures
            final(self).wf(),
            final(self).known() == Set::<[u8; 32]>::empty(),
            final(self).blacklist() == old(self).blacklist(),
            final(self).max_gas_limit_spec() == old(self).max_gas_limit_spec(),
            final(self).min_gas_price_spec() == old(self).min_gas_price_spec(),
            final(self).max_tx_size_spec() == old(self).max_tx_size_spec(),
    {
        self.known_tx_hashes.clear();
        proof { assert(self.known_tx_hashes@.to_set() =~= Set::<[u8; 32]>::empty()); }
    }

    /// Adds an address to the blacklist.
    pub fn blacklist_address(&mut self, address: Address)
        requires
            old(self).wf(),
        ensures
            final(self).wf(),
            final(self).blacklist() == old(self).blacklist().insert(address),
            final(self).known() == old(self).known(),
            final(self).max_gas_limit_spec() == old(self).max_gas_limit_spec(),
            final(self).min_gas_price_spec() == old(self).min_gas_price_spec(),
            final(self).max_tx_size_spec() == old(self).max_tx_size_spec(),
    {
        if !contains_address(&self.blacklisted_addresses, &address) {
            let ghost old_b = self.blacklisted_addresses@;
            self.blacklisted_addresses.push(address);
            proof {
                assert(self.blacklisted_addresses@.no_duplicates()) by {
                    assert forall|i: int, j: int| 0 <= i < self.blacklisted_addresses@.len() && 0 <= j < self.blacklisted_addresses@.len() && i != j
                        implies self.blacklisted_addresses@[i] != self.blacklisted_addresses@[j] by {
                        if i < old_b.len() && j < old_b.len() {
                        } else if i < old_b.len() {
                            assert(old_b.contains(self.blacklisted_addresses@[i]));
                        } else {
                            assert(old_b.contains(self.blacklisted_addresses@[j]));
                        }
                    }
                }
                assert(self.blacklisted_addresses@.to_set() =~= old_b.to_set().insert(address)) by {
                    assert forall|a: Address| self.blacklisted_addresses@.contains(a) <==> (old_b.contains(a) || a == address) by {
                        if old_b.contains(a) {
                            let t = choose|t: int| 0 <= t < old_b.len() && old_b[t] == a;
                            assert(self.blacklisted_addresses@[t] == a);
                        }
                        if self.blacklisted_addresses@.contains(a) && a != address {
                            let t = choose|t: int| 0 <= t < self.blacklisted_addresses@.len() && self.blacklisted_addresses@[t] == a;
                            assert(old_b[t] == a);
                        }
                        if a == address {
                            assert(self.blacklisted_addresses@[old_b.len() as int] == a);
                        }
                    }
                }
            }
        } else {
            proof { assert(self.blacklisted_addresses@.to_set() =~= self.blacklisted_addresses@.to_set().insert(address)); }
        }
    }

    /// Removes an address from the blacklist.
    pub fn unblacklist_address(&mut self, address: &Address)
        requires
            old(self).wf(),
        ensures
            final(self).wf(),
            final(self).blacklist() == old(self).blacklist().remove(*address),
            final(self).known() == old(self).known(),
            final(self).max_gas_limit_spec() == old(self).max_gas_limit_spec(),
            final(self).min_gas_price_spec() == old(self).min_gas_price_spec(),
            final(self).max_tx_size_spec() == old(self).max_tx_size_spec(),
    {
        let ghost old_b = self.blacklisted_addresses@;
        let mut kept: Vec<Address> = Vec::new();
        let mut i: usize = 0;
        while i < self.blacklisted_addresses.len()
            invariant
                old_b == self.blacklisted_addresses@,
                old_b.no_duplicates(),
                0 <= i <= old_b.len(),
                kept@.no_duplicates(),
                forall|a: Address| kept@.contains(a) <==> (exists|t: int| 0 <= t < i && old_b[t] == a) && a != *address,
            decreases old_b.len() - i,
        {
            let a = self.blacklisted_addresses[i];
            let ghost before = kept@;
            if !address_eq(&a, address) {
                proof {
                    assert(!before.contains(a)) by {
                        if before.contains(a) {
                            let t = choose|t: int| 0 <= t < i && old_b[t] == a;
                        }
                    }
                }
                kept.push(a);
                proof {
                    assert forall|y: Address| kept@.contains(y) <==> (before.contains(y) || y == a) by {
                        if before.contains(y) {
                            let t = choose|t: int| 0 <= t < before.len() && before[t] == y;
                            assert(kept@[t] == y);
                        }
                        if kept@.contains(y) && y != a {
                            let t = choose|t: int| 0 <= t < kept@.len() && kept@[t] == y;
                            assert(before[t] == y);
                        }
                        if y == a { assert(kept@[kept@.len() - 1] == y); }
                    }
                }
            }
            proof {
                assert forall|y: Address| kept@.contains(y) <==> (exists|t: int| 0 <= t < i + 1 && old_b[t] == y) && y != *address by {
                    if y != a {
                        assert(kept@.contains(y) == before.contains(y));
                        if exists|t: int| 0 <= t < i + 1 && old_b[t] == y {
                            let t = choose|t: int| 0 <= t < i + 1 && old_b[t] == y;
                            assert(t < i);
                        }
                    } else if a != *address {
                        assert(old_b[i as int] == y);
                    }
                }
            }
            i = i + 1;
        }
        proof {
            assert forall|y: Address| kept@.contains(y) <==> (old_b.contains(y) && y != *address) by {
                if old_b.contains(y) {
                    let t = choose|t: int| 0 <= t < old_b.len() && old_b[t] == y;
                }
            }
            lemma_remove_nodup(old_b, kept@, *address);
        }
        self.blacklisted_addresses = kept;
    }

    /// The number of blacklisted addresses.
    pub fn blacklist_size(&self) -> (r: usize)
        requires
            self.wf(),
        ensures
            r == self.blacklist().len(),
    {
        proof { self.blacklisted_addresses@.unique_seq_to_set(); }
        self.blacklisted_addresses.len()
    }

    /// The number of known transaction hashes.
    pub fn known_transactions_count(&self) -> (r: usize)
        requires
            self.wf(),
        ensures
            r == self.known().len(),
    {
        proof { self.known_tx_hashes@.unique_seq_to_set(); }
        self.known_tx_hashes.len()
    }

    /// Pre-validates every transaction of a block: each error of a
    /// transaction is reported as a format error naming its position, and a
    /// transaction whose hash occurred earlier in the block adds one more.
    pub fn validate_block_transactions(&self, block: &Block) -> (r: PreValidationResult)
        requires
            self.wf(),
            self.min_gas_price_spec() * 1000 <= u64::MAX,
        ensures
            r.errors@.len() == block_error_count(*self, block.transactions@, block.transactions@.len() as int),
            forall|k: int| 0 <= k < r.errors@.len() ==> (#[trigger] r.errors@[k]) is InvalidFormat,
            r.is_valid <==> forall|i: int| 0 <= i < block.transactions@.len()
                ==> expected_errors(*self, #[trigger] block.transactions@[i]).len() == 0 && !dup_before(block.transactions@, i),
    {
        let txs = &block.transactions;
        let mut all: Vec<ValidationError> = Vec::new();
        let mut seen: Vec<[u8; 32]> = Vec::new();
        let mut idx: usize = 0;
        while idx < txs.len()
            invariant
                self.wf(),
                self.min_gas_price_spec() * 1000 <= u64::MAX,
                0 <= idx <= txs@.len(),
                all@.len() == block_error_count(*self, txs@, idx as int),
                forall|k: int| 0 <= k < all@.len() ==> (#[trigger] all@[k]) is InvalidFormat,
                seen@.len() == idx,
                forall|j: int| 0 <= j < idx ==> (#[trigger] seen@[j])@ == tx_hash_spec(txs@[j]),
            decreases txs@.len() - idx,
        {
            let res = self.pre_validate_transaction(&txs[idx]);
            let ghost base = all@.len();
            let mut e: usize = 0;
            while e < res.errors.len()
                invariant
                    0 <= e <= res.errors@.len(),
                    all@.len() == base + e,
                    forall|k: int| 0 <= k < all@.len() ==> (#[trigger] all@[k]) is InvalidFormat,
                decreases res.errors@.len() - e,
            {
                let mut msg = String::from_str("Transaction ");
                msg.append(idx.to_string().as_str());
                msg.append(": ");
                msg.append(res.errors[e].describe().as_str());
                all.push(ValidationError::InvalidFormat(msg));
                e = e + 1;
            }
            let h = txs[idx].hash();
            let dup = crate::hashing::contains_hash(&seen, &h);
            proof {
                if dup {
                    let j = choose|j: int| 0 <= j < seen@.len() && seen@[j] == h;
                    assert(tx_hash_spec(txs@[j]) == tx_hash_spec(txs@[idx as int]));
                    assert(dup_before(txs@, idx as int));
                } else if dup_before(txs@, idx as int) {
                    let j = choose|j: int| 0 <= j < idx && tx_hash_spec(#[trigger] txs@[j]) == tx_hash_spec(txs@[idx as int]);
                    assert(seen@[j]@ == h@);
                    crate::hashing::lemma_hash_view_eq(seen@[j], h);
                    assert(seen@.contains(h));
                }
            }
            if dup {
                let mut msg = String::from_str("Duplicate transaction in block at index ");
                msg.append(idx.to_string().as_str());
                all.push(ValidationError::InvalidFormat(msg));
            }
            let ghost seen0 = seen@;
            seen.push(h);
            proof {
                assert forall|j: int| 0 <= j < idx + 1 implies (#[trigger] seen@[j])@ == tx_hash_spec(txs@[j]) by {
                    if j < idx { assert(seen@[j] == seen0[j]); }
                }
            }
            idx = idx + 1;
        }
        proof { lemma_block_errors_none(*self, txs@, txs@.len() as int); }
        let valid = all.len() == 0;
        PreValidationResult { is_valid: valid, errors: all }
    }

    /// A rough gas estimate: 21000, plus 16 per byte of deployed code and 4
    /// per byte of arguments, capped by the gas limit.
    pub fn estimate_gas_usage(&self, tx: &Transaction) -> (r: u64)
        requires
            raw_gas_estimate(*tx) <= u64::MAX,
        ensures
            r == (if raw_gas_estimate(*tx) < tx.gas_limit { raw_gas_estimate(*tx) } else { tx.gas_limit as int }),
    {
        let mut gas: u64 = 21000;
        match &tx.payload {
            TxPayload::Transfer { .. } => {},
            TxPayload::ContractDeploy { wasm_code, init_args } => {
                gas = gas + (wasm_code.len() as u64) * 16;
                gas = gas + (init_args.len() as u64) * 4;
            },
            TxPayload::ContractCall { args, .. } => {
                gas = gas + (args.len() as u64) * 4;
            },
        }
        if gas < tx.gas_limit { gas } else { tx.gas_limit }
    }
}

impl Default for TransactionPreValidator {
    /// Limits of eight million gas, a minimum price of one gwei and 128 KiB.
    fn default() -> (r: TransactionPreValidator)
        ensures
            r.wf(),
            r.max_gas_limit_spec() == 8_000_000,
            r.min_gas_price_spec() == 1_000_000_000,
            r.max_tx_size_spec() == 128 * 1024,
            r.blacklist() == Set::<Address>::empty(),
            r.known() == Set::<[u8; 32]>::empty(),
    {
        TransactionPreValidator::new(8_000_000, 1_000_000_000, 128 * 1024)
    }
}

} // verus!
