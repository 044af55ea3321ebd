//! Verified core of a GHOSTDAG block-DAG node: blocks, transactions,
//! the DAG store and index, consensus (blue sets, GHOSTDAG ordering,
//! difficulty and fee adjustment), transaction pre-validation, the
//! DAG-aware mempool, and the wallet SDK helpers.
pub mod hashing;
pub mod address;
pub mod address_index;
pub mod crypto;
pub mod transaction;
pub mod mining;
pub mod block;
pub mod block_producer;
pub mod daa;
pub mod kv;
pub mod storage;
pub mod dag_index;
pub mod blockdag;
pub mod dag_traversal;
pub mod blue_set;
pub mod ghostdag;
pub mod fee_market;
pub mod config;
pub mod pre_validation;
pub mod batch_verification;
pub mod mempool;
pub mod parallel_schedule;
pub mod execution;
pub mod batching;
pub mod rpc;
pub mod dos_protection;
pub mod spam;
pub mod sdk_errors;
pub mod keypair;
pub mod wallet;
pub mod tx_builder;
pub mod mobile_wallet;
pub mod reputation;
pub mod discovery;
pub mod gossip;
pub mod state_sync;
pub mod events;
