use cytah_core::block::Block;
use cytah_core::block_producer::{production_step, select_transactions, BlockProducer};
use cytah_core::daa::next_difficulty;
use cytah_core::fee_market::next_base_fee;
use cytah_core::blockdag::BlockDAG;
use cytah_core::mempool::{TxDagMempool, DEFAULT_MIN_GAS_PRICE};
use cytah_core::transaction::Transaction;
use secp256k1::{PublicKey, Secp256k1, SecretKey};
use sha2::{Digest, Sha256};

fn signed_transfer(amount: u64, nonce: u64, gas_price: u64) -> Transaction {
    let secret_key = SecretKey::from_slice(&[1; 32]).unwrap();
    let secp = Secp256k1::new();
    let pubkey = PublicKey::from_secret_key(&secp, &secret_key);
    let pubkey_hash = Sha256::digest(&pubkey.serialize()[1..]);
    let from: [u8; 20] = pubkey_hash[12..32].try_into().unwrap();
    let mut tx = Transaction::new(from, [2u8; 20], amount, nonce, 21000, gas_price);
    tx.sign(&secret_key.secret_bytes()).unwrap();
    tx
}

fn dag_with_genesis() -> BlockDAG {
    let mut dag = BlockDAG::new();
    dag.create_genesis_if_empty();
    dag
}

#[test]
fn test_block_producer_creation() {
    let producer = BlockProducer::new([1u8; 20], 1, 10);
    assert_eq!(producer.producer_id, [1u8; 20]);
    assert_eq!(producer.get_nonce(), 0);
}

#[test]
fn test_create_block_empty_mempool() {
    let mempool = TxDagMempool::new(1000, DEFAULT_MIN_GAS_PRICE);
    let dag = dag_with_genesis();
    let mut producer = BlockProducer::new([1u8; 20], 0, 10);
    let block = producer.create_block(&mempool, &dag, 0, 0, [0; 32]).unwrap();
    assert!(block.transactions.is_empty());
    assert_eq!(block.header.parent_hashes, dag.get_tips());
    assert_eq!(block.producer, [1u8; 20]);
    assert_eq!(producer.get_nonce(), 1);
}

#[test]
fn test_create_block_with_transactions() {
    let mut mempool = TxDagMempool::new(1000, DEFAULT_MIN_GAS_PRICE);
    mempool.add_transaction(signed_transfer(100, 0, 1), vec![], None, 1_000_000).unwrap();
    let dag = dag_with_genesis();
    let mut producer = BlockProducer::new([1u8; 20], 1, 10);
    let block = producer.create_block(&mempool, &dag, 0, 0, [0; 32]).unwrap();
    assert_eq!(block.transactions.len(), 1);
    assert_eq!(block.producer, [1u8; 20]);
}

#[test]
fn test_create_block_respects_max_transactions() {
    let mut mempool = TxDagMempool::new(1000, DEFAULT_MIN_GAS_PRICE);
    for i in 0..10u64 {
        mempool.add_transaction(signed_transfer(100 + i, i, 1), vec![], None, 1_000_000).unwrap();
    }
    let dag = dag_with_genesis();
    let mut producer = BlockProducer::new([1u8; 20], 1, 5);
    let block = producer.create_block(&mempool, &dag, 0, 0, [0; 32]).unwrap();
    assert_eq!(block.transactions.len(), 5);
}

#[test]
fn test_block_producer_nonce() {
    let mempool = TxDagMempool::new(1000, DEFAULT_MIN_GAS_PRICE);
    let dag = dag_with_genesis();
    let mut producer = BlockProducer::new([1u8; 20], 0, 10);
    let b1 = producer.create_block(&mempool, &dag, 0, 0, [0; 32]).unwrap();
    let b2 = producer.create_block(&mempool, &dag, 0, 0, [0; 32]).unwrap();
    assert_eq!(b1.header.nonce, 0);
    assert_eq!(b2.header.nonce, 1);
    producer.reset_nonce();
    assert_eq!(producer.get_nonce(), 0);
}

#[test]
fn waits_for_minimum_when_pool_holds_more() {
    let dag = dag_with_genesis();
    let mut producer = BlockProducer::new([1u8; 20], 3, 10);
    let r = producer.assemble_block(vec![], 2, 4, dag.get_tips(), 1000, 1000, 0, 0);
    assert_eq!(r.unwrap_err(), "Not enough ready transactions: 2 < 3");
    assert_eq!(producer.get_nonce(), 0);
}

#[test]
fn transactions_are_ordered_by_priority_fee() {
    let mut mempool = TxDagMempool::new(1000, DEFAULT_MIN_GAS_PRICE);
    mempool.add_transaction(signed_transfer(100, 0, 5), vec![], None, 1_000_000).unwrap();
    mempool.add_transaction(signed_transfer(100, 1, 9), vec![], None, 1_000_000).unwrap();
    mempool.add_transaction(signed_transfer(100, 2, 7), vec![], None, 1_000_000).unwrap();
    let ready = mempool.get_ready_transactions();
    let selected = select_transactions(&ready, 10, 4);
    let prices: Vec<u64> = selected.iter().map(|t| t.gas_price).collect();
    assert_eq!(prices, vec![9, 7, 5]);
    // at a base fee above every price all fees are zero and the order is kept
    let kept = select_transactions(&ready, 10, 100);
    let kept_prices: Vec<u64> = kept.iter().map(|t| t.gas_price).collect();
    let ready_prices: Vec<u64> = ready.iter().map(|m| m.transaction.gas_price).collect();
    assert_eq!(kept_prices, ready_prices);
}

#[test]
fn mining_without_target_succeeds() {
    let mempool = TxDagMempool::new(1000, DEFAULT_MIN_GAS_PRICE);
    let dag = dag_with_genesis();
    let mut producer = BlockProducer::new([3u8; 20], 0, 10);
    let block = producer.mine_block(&mempool, &dag, 0, 0, [0; 32]).unwrap();
    assert_eq!(block.hash, block.calculate_hash());
    assert!(block.validate_basic().is_ok());
}

#[test]
fn pending_transactions_are_capped() {
    let mut mempool = TxDagMempool::new(1000, DEFAULT_MIN_GAS_PRICE);
    for i in 0..4u64 {
        mempool.add_transaction(signed_transfer(100 + i, i, 1), vec![], None, 1_000_000).unwrap();
    }
    let producer = BlockProducer::new([1u8; 20], 0, 3);
    assert_eq!(producer.get_pending_transactions(&mempool).len(), 3);
}

#[test]
fn test_mine_block_finds_nonce() {
    let mempool = TxDagMempool::new(1000, DEFAULT_MIN_GAS_PRICE);
    let dag = dag_with_genesis();
    let producer_id = [1u8; 20];
    let mut producer = BlockProducer::new(producer_id, 0, 10);
    // a very low difficulty so mining finishes quickly
    let block = producer.mine_block(&mempool, &dag, 4, 0, [0; 32]).expect("mining should succeed");
    assert!(cytah_core::mining::meets_difficulty(&block.hash, 4));
    assert_eq!(block.producer, producer_id);
}

#[test]
fn production_step_decides_difficulty_and_base_fee() {
    let mut dag = BlockDAG::new();
    let g = Block::new(vec![], 1000, vec![], 0, 0, 100, [0; 20], [0; 32]);
    dag.insert_block(g).unwrap();
    let mut mempool = TxDagMempool::new(1000, DEFAULT_MIN_GAS_PRICE);
    assert_eq!(production_step(true, &mut mempool, &dag), None);
    mempool.add_transaction(signed_transfer(100, 0, 1), vec![], None, 1_000_000).unwrap();
    assert_eq!(production_step(false, &mut mempool, &dag), None);
    // a light block with base fee 100 lowers the next base fee to 90
    let step = production_step(true, &mut mempool, &dag);
    assert_eq!(step, Some((next_difficulty(&dag), 90)));
    assert_eq!(next_base_fee(&dag), 90);
    // the mempool now refuses a gas price below the new base fee
    assert!(mempool.add_transaction(signed_transfer(100, 1, 50), vec![], None, 1_000_000).is_err());
    assert!(mempool.add_transaction(signed_transfer(100, 1, 95), vec![], None, 1_000_000).is_ok());
    assert_eq!(mempool.size(), 2);
}
