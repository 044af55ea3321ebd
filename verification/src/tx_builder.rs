//! A builder for transactions, with defaults for nonce and gas.
use vstd::prelude::*;
use vstd::string::StringExecFns;
use crate::hashing::Address;
use crate::crypto::{CryptoAlgorithm, secret_key_valid, public_key_spec, sign_spec};
use crate::transaction::{Transaction, TxPayload, tx_hash_spec, recovered_key};
use crate::sdk_errors::SdkError;
use crate::wallet::Wallet;

verus! {

/// Nonce used when none is set.
pub const DEFAULT_NONCE: u64 = 0;
/// Gas limit used when none is set.
pub const DEFAULT_GAS_LIMIT: u64 = 21000;
/// Gas price used when none is set.
pub const DEFAULT_GAS_PRICE: u64 = 1;

/// Collects the parts of a transaction.
#[derive(Debug)]
pub struct TransactionBuilder {
    from: Option<Address>,
    payload: Option<TxPayload>,
    nonce: Option<u64>,
    gas_limit: Option<u64>,
    gas_price: Option<u64>,
}

/// `tx` is the unsigned transaction with these parts.
pub open spec fn built_from(tx: Transaction, from: Address, payload: TxPayload, nonce: u64, gas_limit: u64, gas_price: u64) -> bool {
    &&& tx.from == from
    &&& tx.payload == payload
    &&& tx.nonce == nonce
    &&& tx.gas_limit == gas_limit
    &&& tx.gas_price == gas_price
    &&& tx.signature.algorithm == CryptoAlgorithm::Secp256k1
    &&& tx.signature.data@.len() == 0
}

/// `tx` is the unsigned transaction `b` builds, with the defaults for
/// what `b` leaves unset.
pub open spec fn built_by(tx: Transaction, b: TransactionBuilder) -> bool {
    built_from(
        tx,
        b.from_spec().unwrap(),
        b.payload_spec().unwrap(),
        match b.nonce_spec() { Some(n) => n, None => DEFAULT_NONCE },
        match b.gas_limit_spec() { Some(g) => g, None => DEFAULT_GAS_LIMIT },
        match b.gas_price_spec() { Some(p) => p, None => DEFAULT_GAS_PRICE },
    )
}

impl TransactionBuilder {
    /// The sender set so far.
    pub closed spec fn from_spec(&self) -> Option<Address> {
        self.from
    }

    /// The payload set so far.
    pub closed spec fn payload_spec(&self) -> Option<TxPayload> {
        self.payload
    }

    /// The nonce set so far.
    pub closed spec fn nonce_spec(&self) -> Option<u64> {
        self.nonce
    }

    /// The gas limit set so far.
    pub closed spec fn gas_limit_spec(&self) -> Option<u64> {
        self.gas_limit
    }

    /// The gas price set so far.
    pub closed spec fn gas_price_spec(&self) -> Option<u64> {
        self.gas_price
    }

    /// A builder with nothing set.
    pub fn new() -> (r: TransactionBuilder)
        ensures
            r.from_spec() is None,
            r.payload_spec() is None,
            r.nonce_spec() is None,
            r.gas_limit_spec() is None,
            r.gas_price_spec() is None,
    {
        TransactionBuilder { from: None, payload: None, nonce: None, gas_limit: None, gas_price: None }
    }

    /// Sets the sender.
    pub fn from(self, from: Address) -> (r: TransactionBuilder)
        ensures
            r.from_spec() == Some(from),
            r.payload_spec() == self.payload_spec(),
            r.nonce_spec() == self.nonce_spec(),
            r.gas_limit_spec() == self.gas_limit_spec(),
            r.gas_price_spec() == self.gas_price_spec(),
    {
        TransactionBuilder { from: Some(from), ..self }
    }

    /// Sets a transfer payload.
    pub fn transfer(self, to: Address, amount: u64) -> (r: TransactionBuilder)
        ensures
            r.from_spec() == self.from_spec(),
            r.payload_spec() == Some(TxPayload::Transfer { to, amount }),
            r.nonce_spec() == self.nonce_spec(),
            r.gas_limit_spec() == self.gas_limit_spec(),
            r.gas_price_spec() == self.gas_price_spec(),
    {
        TransactionBuilder { payload: Some(TxPayload::Transfer { to, amount }), ..self }
    }

    /// Sets a contract-deployment payload.
    pub fn deploy_contract(self, wasm_code: Vec<u8>, init_args: Vec<u8>) -> (r: TransactionBuilder)
        ensures
            r.from_spec() == self.from_spec(),
            r.payload_spec() == Some(TxPayload::ContractDeploy { wasm_code, init_args }),
            r.nonce_spec() == self.nonce_spec(),
            r.gas_limit_spec() == self.gas_limit_spec(),
            r.gas_price_spec() == self.gas_price_spec(),
    {
        TransactionBuilder { payload: Some(TxPayload::ContractDeploy { wasm_code, init_args }), ..self }
    }

    /// Sets a contract-call payload.
    pub fn call_contract(self, contract_address: Address, method: String, args: Vec<u8>) -> (r: TransactionBuilder)
        ensures
            r.from_spec() == self.from_spec(),
            r.payload_spec() == Some(TxPayload::ContractCall { contract_address, method, args }),
            r.nonce_spec() == self.nonce_spec(),
            r.gas_limit_spec() == self.gas_limit_spec(),
            r.gas_price_spec() == self.gas_price_spec(),
    {
        TransactionBuilder { payload: Some(TxPayload::ContractCall { contract_address, method, args }), ..self }
    }

    /// Sets the nonce.
    pub fn nonce(self, nonce: u64) -> (r: TransactionBuilder)
        ensures
            r.from_spec() == self.from_spec(),
            r.payload_spec() == self.payload_spec(),
            r.nonce_spec() == Some(nonce),
            r.gas_limit_spec() == self.gas_limit_spec(),
            r.gas_price_spec() == self.gas_price_spec(),
    {
        TransactionBuilder { nonce: Some(nonce), ..self }
    }

    /// Sets the gas limit.
    pub fn gas_limit(self, gas_limit: u64) -> (r: TransactionBuilder)
        ensures
            r.from_spec() == self.from_spec(),
            r.payload_spec() == self.payload_spec(),
            r.nonce_spec() == self.nonce_spec(),
            r.gas_limit_spec() == Some(gas_limit),
            r.gas_price_spec() == self.gas_price_spec(),
    {
        TransactionBuilder { gas_limit: Some(gas_limit), ..self }
    }

    /// Sets the gas price.
    pub fn gas_price(self, gas_price: u64) -> (r: TransactionBuilder)
        ensures
            r.from_spec() == self.from_spec(),
            r.payload_spec() == self.payload_spec(),
            r.nonce_spec() == self.nonce_spec(),
            r.gas_limit_spec() == self.gas_limit_spec(),
            r.gas_price_spec() == Some(gas_price),
    {
        TransactionBuilder { gas_price: Some(gas_price), ..self }
    }

    /// The unsigned transaction; fails without a sender or a payload. The
    /// nonce defaults to 0, the gas limit to 21000 and the gas price to 1.
    pub fn build(self) -> (r: Result<Transaction, SdkError>)
        ensures
            r is Err <==> (self.from_spec() is None || self.payload_spec() is None),
            r matches Err(e) ==> e is TransactionError,
            self.from_spec() is None ==> (r matches Err(SdkError::TransactionError(m)) && m@ == "Missing from address"@),
            self.from_spec() is Some && self.payload_spec() is None
                ==> (r matches Err(SdkError::TransactionError(m)) && m@ == "Missing payload"@),
            r matches Ok(tx) ==> built_by(tx, self),
    {
        let from = match self.from {
            Some(f) => f,
            None => {
                return Err(SdkError::TransactionError(String::from_str("Missing from address")));
            },
        };
        let payload = match self.payload {
            Some(p) => p,
            None => {
                return Err(SdkError::TransactionError(String::from_str("Missing payload")));
            },
        };
        let nonce = match self.nonce {
            Some(n) => n,
            None => DEFAULT_NONCE,
        };
        let gas_limit = match self.gas_limit {
            Some(g) => g,
            None => DEFAULT_GAS_LIMIT,
        };
        let gas_price = match self.gas_price {
            Some(p) => p,
            None => DEFAULT_GAS_PRICE,
        };
        let tx = match payload {
            TxPayload::Transfer { to, amount } => Transaction::new_transfer(from, to, amount, nonce, gas_limit, gas_price),
            TxPayload::ContractDeploy { wasm_code, init_args } => Transaction::new_deploy(
                from,
                wasm_code,
                init_args,
                nonce,
                gas_limit,
                gas_price,
            ),
            TxPayload::ContractCall { contract_address, method, args } => Transaction::new_call(
                from,
                contract_address,
                method,
                args,
                nonce,
                gas_limit,
                gas_price,
            ),
        };
        Ok(tx)
    }

    /// The transaction signed by `wallet`; fails as `build` does, or when
    /// the wallet's secret key is not a valid 32-byte key.
    pub fn build_and_sign(self, wallet: &Wallet) -> (r: Result<Transaction, SdkError>)
        ensures
            r is Ok <==> (self.from_spec() is Some && self.payload_spec() is Some
                && wallet.secret_key@.len() == 32 && secret_key_valid(wallet.secret_key@)),
            r matches Ok(tx) ==> exists|unsigned: Transaction| #[trigger] built_by(unsigned, self) && tx.from == unsigned.from && tx.payload == unsigned.payload && tx.nonce == unsigned.nonce
                && tx.gas_limit == unsigned.gas_limit && tx.gas_price == unsigned.gas_price
                && tx.signature.data@ == sign_spec(tx_hash_spec(unsigned), wallet.secret_key@)
                && tx.signature.algorithm == CryptoAlgorithm::Secp256k1
                && tx.signature.data@.len() == 65
                && recovered_key(tx) == Some(public_key_spec(wallet.secret_key@)),
            self.from_spec() is None ==> (r matches Err(SdkError::TransactionError(m)) && m@ == "Missing from address"@),
            self.from_spec() is Some && self.payload_spec() is None
                ==> (r matches Err(SdkError::TransactionError(m)) && m@ == "Missing payload"@),
            self.from_spec() is Some && self.payload_spec() is Some && !(wallet.secret_key@.len() == 32 && secret_key_valid(wallet.secret_key@))
                ==> (r matches Err(e) && e is CryptoError),
    {
        let mut tx = self.build()?;
        let ghost unsigned = tx;
        wallet.sign_transaction(&mut tx)?;
        Ok(tx)
    }
}

} // verus!
