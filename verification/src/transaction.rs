//! Transactions: payload kinds, constructors, the canonical hash,
//! signing and basic validation.
use vstd::prelude::*;
use vstd::bytes::{u64_to_le_bytes, spec_u64_to_le_bytes};
use vstd::utf8::encode_utf8;
use crate::hashing::{Address, copy_bytes, append_bytes, sha256, sha256_spec};
use crate::crypto::{
    CryptoAlgorithm, Signature, secret_key_valid, sign_spec, recover_spec, public_key_spec,
    sign_recoverable, recover_public_key, derive_address_from_public_key, address_of_public_key,
};

verus! {

/// What a transaction does.
#[derive(Debug, Clone)]
pub enum TxPayload {
    Transfer { to: Address, amount: u64 },
    ContractDeploy { wasm_code: Vec<u8>, init_args: Vec<u8> },
    ContractCall { contract_address: Address, method: String, args: Vec<u8> },
}

/// A signed (or not yet signed) transaction.
#[derive(Debug, Clone)]
pub struct Transaction {
    pub from: Address,
    pub payload: TxPayload,
    pub nonce: u64,
    pub gas_limit: u64,
    pub gas_price: u64,
    pub signature: Signature,
}

/// The bytes that identify a payload in the transaction hash.
pub open spec fn payload_preimage(p: TxPayload) -> Seq<u8> {
    match p {
        TxPayload::Transfer { to, amount } => seq![0u8] + to@ + spec_u64_to_le_bytes(amount),
        TxPayload::ContractDeploy { wasm_code, init_args } =>
            seq![1u8] + sha256_spec(wasm_code@) + sha256_spec(init_args@),
        TxPayload::ContractCall { contract_address, method, args } =>
            seq![2u8] + contract_address@ + encode_utf8(method@) + sha256_spec(args@),
    }
}

/// The bytes hashed to identify a transaction: sender, payload, nonce,
/// gas limit and gas price (the signature is not covered).
pub open spec fn tx_preimage(tx: Transaction) -> Seq<u8> {
    tx.from@ + payload_preimage(tx.payload) + spec_u64_to_le_bytes(tx.nonce) + spec_u64_to_le_bytes(
        tx.gas_limit,
    ) + spec_u64_to_le_bytes(tx.gas_price)
}

/// The hash of a transaction.
pub open spec fn tx_hash_spec(tx: Transaction) -> Seq<u8> {
    sha256_spec(tx_preimage(tx))
}

/// Two payloads hold the same values.
pub open spec fn same_payload(a: TxPayload, b: TxPayload) -> bool {
    match (a, b) {
        (TxPayload::Transfer { to: t1, amount: a1 }, TxPayload::Transfer { to: t2, amount: a2 }) =>
            t1 == t2 && a1 == a2,
        (
            TxPayload::ContractDeploy { wasm_code: w1, init_args: i1 },
            TxPayload::ContractDeploy { wasm_code: w2, init_args: i2 },
        ) => w1@ == w2@ && i1@ == i2@,
        (
            TxPayload::ContractCall { contract_address: c1, method: m1, args: r1 },
            TxPayload::ContractCall { contract_address: c2, method: m2, args: r2 },
        ) => c1 == c2 && m1@ == m2@ && r1@ == r2@,
        _ => false,
    }
}

/// Two transactions hold the same values (field by field, through views).
pub open spec fn same_tx(a: Transaction, b: Transaction) -> bool {
    &&& a.from == b.from
    &&& same_payload(a.payload, b.payload)
    &&& a.nonce == b.nonce
    &&& a.gas_limit == b.gas_limit
    &&& a.gas_price == b.gas_price
    &&& a.signature.algorithm == b.signature.algorithm
    &&& a.signature.data@ == b.signature.data@
}

/// Two lists hold the same transactions, entry by entry.
pub open spec fn same_txs(a: Seq<Transaction>, b: Seq<Transaction>) -> bool {
    a.len() == b.len() && forall|k: int| 0 <= k < a.len() ==> same_tx(#[trigger] a[k], b[k])
}

/// Equal values give equal hashes.
pub proof fn lemma_same_tx_same_hash(a: Transaction, b: Transaction)
    requires
        same_tx(a, b),
    ensures
        tx_hash_spec(a) == tx_hash_spec(b),
{
    assert(payload_preimage(a.payload) =~= payload_preimage(b.payload));
    assert(tx_preimage(a) =~= tx_preimage(b));
}

/// The amount a payload transfers (0 for contract payloads).
pub open spec fn payload_amount(p: TxPayload) -> u64 {
    match p {
        TxPayload::Transfer { amount, .. } => amount,
        _ => 0,
    }
}

/// Why a transaction fails basic validation, in the order the checks run.
pub open spec fn tx_basic_checks_pass(tx: Transaction) -> bool {
    &&& tx.gas_limit != 0
    &&& tx.gas_price != 0
    &&& (tx.payload is Transfer ==> payload_amount(tx.payload) != 0)
}

/// The signer a transaction's signature recovers to, if any.
pub open spec fn recovered_key(tx: Transaction) -> Option<Seq<u8>> {
    if tx.signature.algorithm != CryptoAlgorithm::Secp256k1 || tx.signature.data@.len() != 65 {
        None
    } else {
        recover_spec(tx_hash_spec(tx), tx.signature.data@)
    }
}

/// A transaction passes basic validation: sane gas and amount, and a
/// signature that recovers to the public key whose address is the sender.
pub open spec fn tx_valid_basic(tx: Transaction) -> bool {
    &&& tx_basic_checks_pass(tx)
    &&& recovered_key(tx) is Some
    &&& address_of_public_key(recovered_key(tx).unwrap()) == tx.from@
}

impl TxPayload {
    /// A deep copy of a payload.
    pub fn copy(&self) -> (r: TxPayload)
        ensures
            same_payload(*self, r),
    {
        match self {
            TxPayload::Transfer { to, amount } => TxPayload::Transfer { to: *to, amount: *amount },
            TxPayload::ContractDeploy { wasm_code, init_args } => TxPayload::ContractDeploy {
                wasm_code: copy_bytes(wasm_code),
                init_args: copy_bytes(init_args),
            },
            TxPayload::ContractCall { contract_address, method, args } => TxPayload::ContractCall {
                contract_address: *contract_address,
                method: method.clone(),
                args: copy_bytes(args),
            },
        }
    }
}

impl Transaction {
    /// Generic constructor: a transfer.
    pub fn new(from: Address, to: Address, amount: u64, nonce: u64, gas_limit: u64, gas_price: u64) -> (r: Transaction)
        ensures
            r.from == from,
            r.payload == (TxPayload::Transfer { to, amount }),
            r.nonce == nonce,
            r.gas_limit == gas_limit,
            r.gas_price == gas_price,
            r.signature.algorithm == CryptoAlgorithm::Secp256k1,
            r.signature.data@.len() == 0,
    {
        Self::new_transfer(from, to, amount, nonce, gas_limit, gas_price)
    }

    /// An unsigned transfer.
    pub fn new_transfer(from: Address, to: Address, amount: u64, nonce: u64, gas_limit: u64, gas_price: u64) -> (r: Transaction)
        ensures
            r.from == from,
            r.payload == (TxPayload::Transfer { to, amount }),
            r.nonce == nonce,
            r.gas_limit == gas_limit,
            r.gas_price == gas_price,
            r.signature.algorithm == CryptoAlgorithm::Secp256k1,
            r.signature.data@.len() == 0,
    {
        Transaction {
            from,
            payload: TxPayload::Transfer { to, amount },
            nonce,
            gas_limit,
            gas_price,
            signature: Signature::empty(),
        }
    }

    /// The all-zero unsigned transfer.
    pub fn default_transfer() -> (r: Transaction)
        ensures
            r.from@ == Seq::new(20, |i: int| 0u8),
            r.payload matches TxPayload::Transfer { to, amount } && to@ == Seq::new(20, |i: int| 0u8)
                && amount == 0,
            r.nonce == 0,
            r.gas_limit == 0,
            r.gas_price == 0,
            r.signature.algorithm == CryptoAlgorithm::Secp256k1,
            r.signature.data@.len() == 0,
    {
        Self::new_transfer([0u8; 20], [0u8; 20], 0, 0, 0, 0)
    }

    /// An unsigned contract deployment.
    pub fn new_deploy(from: Address, wasm_code: Vec<u8>, init_args: Vec<u8>, nonce: u64, gas_limit: u64, gas_price: u64) -> (r: Transaction)
        ensures
            r.from == from,
            r.payload == (TxPayload::ContractDeploy { wasm_code, init_args }),
            r.nonce == nonce,
            r.gas_limit == gas_limit,
            r.gas_price == gas_price,
            r.signature.algorithm == CryptoAlgorithm::Secp256k1,
            r.signature.data@.len() == 0,
    {
        Transaction {
            from,
            payload: TxPayload::ContractDeploy { wasm_code, init_args },
            nonce,
            gas_limit,
            gas_price,
            signature: Signature::empty(),
        }
    }

    /// An unsigned contract call.
    pub fn new_call(
        from: Address,
        contract_address: Address,
        method: String,
        args: Vec<u8>,
        nonce: u64,
        gas_limit: u64,
        gas_price: u64,
    ) -> (r: Transaction)
        ensures
            r.from == from,
            r.payload == (TxPayload::ContractCall { contract_address, method, args }),
            r.nonce == nonce,
            r.gas_limit == gas_limit,
            r.gas_price == gas_price,
            r.signature.algorithm == CryptoAlgorithm::Secp256k1,
            r.signature.data@.len() == 0,
    {
        Transaction {
            from,
            payload: TxPayload::ContractCall { contract_address, method, args },
            nonce,
            gas_limit,
            gas_price,
            signature: Signature::empty(),
        }
    }

    /// A deep copy of the transaction.
    pub fn copy(&self) -> (r: Transaction)
        ensures
            same_tx(*self, r),
    {
        Transaction {
            from: self.from,
            payload: self.payload.copy(),
            nonce: self.nonce,
            gas_limit: self.gas_limit,
            gas_price: self.gas_price,
            signature: self.signature.copy(),
        }
    }

    /// The bytes the transaction hash covers.
    pub fn preimage(&self) -> (r: Vec<u8>)
        ensures
            r@ == tx_preimage(*self),
    {
        let mut out: Vec<u8> = Vec::new();
        append_bytes(&mut out, self.from.as_slice());
        match &self.payload {
            TxPayload::Transfer { to, amount } => {
                out.push(0u8);
                append_bytes(&mut out, to.as_slice());
                let a = u64_to_le_bytes(*amount);
                append_bytes(&mut out, a.as_slice());
            },
            TxPayload::ContractDeploy { wasm_code, init_args } => {
                out.push(1u8);
                let h1 = sha256(wasm_code.as_slice());
                append_bytes(&mut out, h1.as_slice());
                let h2 = sha256(init_args.as_slice());
                append_bytes(&mut out, h2.as_slice());
            },
            TxPayload::ContractCall { contract_address, method, args } => {
                out.push(2u8);
                append_bytes(&mut out, contract_address.as_slice());
                append_bytes(&mut out, method.as_str().as_bytes());
                let h = sha256(args.as_slice());
                append_bytes(&mut out, h.as_slice());
            },
        }
        let n = u64_to_le_bytes(self.nonce);
        append_bytes(&mut out, n.as_slice());
        let g = u64_to_le_bytes(self.gas_limit);
        append_bytes(&mut out, g.as_slice());
        let p = u64_to_le_bytes(self.gas_price);
        append_bytes(&mut out, p.as_slice());
        assert(out@ =~= tx_preimage(*self));
        out
    }

    /// SHA-256 of the transaction's canonical bytes.
    pub fn hash(&self) -> (r: [u8; 32])
        ensures
            r@ == tx_hash_spec(*self),
    {
        let bytes = self.preimage();
        sha256(bytes.as_slice())
    }

    /// Signs the transaction hash with a secret key and stores the 65-byte
    /// recoverable signature.
    pub fn sign(&mut self, private_key: &[u8; 32]) -> (r: Result<(), String>)
        requires
            secret_key_valid(private_key@),
        ensures
            r is Ok,
            final(self).from == old(self).from,
            final(self).payload == old(self).payload,
            final(self).nonce == old(self).nonce,
            final(self).gas_limit == old(self).gas_limit,
            final(self).gas_price == old(self).gas_price,
            final(self).signature.algorithm == CryptoAlgorithm::Secp256k1,
            final(self).signature.data@ == sign_spec(tx_hash_spec(*old(self)), private_key@),
            final(self).signature.data@.len() == 65,
            recovered_key(*final(self)) == Some(public_key_spec(private_key@)),
    {
        let message = self.hash();
        let sig = sign_recoverable(&message, private_key);
        self.signature = Signature { algorithm: CryptoAlgorithm::Secp256k1, data: sig };
        proof {
            assert(tx_preimage(*self) =~= tx_preimage(*old(self)));
        }
        Ok(())
    }

    /// Recovers the signer's compressed public key.
    pub fn verify_signature(&self) -> (r: Result<[u8; 33], String>)
        ensures
            r is Ok <==> recovered_key(*self) is Some,
            r matches Ok(k) ==> recovered_key(*self) == Some(k@),
    {
        if self.signature.algorithm != CryptoAlgorithm::Secp256k1 {
            return Err("Unsupported signature algorithm".to_string());
        }
        if self.signature.data.len() != 65 {
            return Err("Invalid signature length".to_string());
        }
        let message = self.hash();
        match recover_public_key(&message, self.signature.data.as_slice()) {
            Some(k) => Ok(k),
            None => Err("Signature recovery failed".to_string()),
        }
    }

    /// Checks gas, amount and that the signature was made by the sender.
    pub fn validate_basic(&self) -> (r: Result<(), String>)
        ensures
            r is Ok <==> tx_valid_basic(*self),
    {
        if self.gas_limit == 0 {
            return Err("Gas limit must be greater than 0".to_string());
        }
        if self.gas_price == 0 {
            return Err("Gas price must be greater than 0".to_string());
        }
        if let TxPayload::Transfer { amount, .. } = &self.payload {
            if *amount == 0 {
                return Err("Amount must be greater than 0".to_string());
            }
        }
        let pubkey = self.verify_signature()?;
        let address = derive_address_from_public_key(&pubkey);
        if !crate::hashing::address_eq(&address, &self.from) {
            proof {
                if address@ == self.from@ {
                    crate::hashing::lemma_address_view_eq(address, self.from);
                }
            }
            return Err("Signature does not match from address".to_string());
        }
        Ok(())
    }
}

} // verus!
