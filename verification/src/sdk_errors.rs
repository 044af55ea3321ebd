//! The error type of the wallet SDK.
use vstd::prelude::*;

verus! {

/// What an SDK operation can fail with.
#[derive(Debug, Clone)]
pub enum SdkError {
    NetworkError(String),
    RpcError(String),
    CryptoError(String),
    TransactionError(String),
    ContractError(String),
    ConfigError(String),
    SerializationError(String),
    Unknown,
}

} // verus!
