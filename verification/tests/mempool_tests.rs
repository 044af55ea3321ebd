use cytah_core::mempool::{TxDagMempool, DEFAULT_MIN_GAS_PRICE, MAX_TX_PER_SOURCE};
use cytah_core::transaction::Transaction;
use secp256k1::{PublicKey, Secp256k1, SecretKey};
use sha2::{Digest, Sha256};

fn create_test_transaction(to: [u8; 20], amount: u64, nonce: u64, secret_key: &SecretKey) -> Transaction {
    let secp = Secp256k1::new();
    let pubkey = PublicKey::from_secret_key(&secp, secret_key);
    let pubkey_hash = Sha256::digest(&pubkey.serialize()[1..]);
    let from: [u8; 20] = pubkey_hash[12..32].try_into().unwrap();
    let mut tx = Transaction::new(from, to, amount, nonce, 21000, 1);
    tx.sign(&secret_key.secret_bytes()).unwrap();
    tx
}

#[test]
fn test_mempool_creation() {
    let mempool = TxDagMempool::new(1000, DEFAULT_MIN_GAS_PRICE);
    assert_eq!(mempool.size(), 0);
}

#[test]
fn test_add_transaction() {
    let secret_key = SecretKey::from_slice(&[1; 32]).unwrap();
    let mut mempool = TxDagMempool::new(1000, DEFAULT_MIN_GAS_PRICE);
    let to = [2u8; 20];
    let tx = create_test_transaction(to, 100, 0, &secret_key);
    let result = mempool.add_transaction(tx, vec![], Some("peer1".to_string()), 1000);
    assert!(result.is_ok());
    assert_eq!(mempool.size(), 1);
}

#[test]
fn test_validate_transaction() {
    let secret_key = SecretKey::from_slice(&[1; 32]).unwrap();
    let mempool = TxDagMempool::new(1000, DEFAULT_MIN_GAS_PRICE);
    let to = [2u8; 20];
    let tx = create_test_transaction(to, 100, 0, &secret_key);
    let result = mempool.validate_transaction(&tx);
    assert!(result.is_ok());
}

#[test]
fn test_get_ready_transactions() {
    let secret_key = SecretKey::from_slice(&[1; 32]).unwrap();
    let mut mempool = TxDagMempool::new(1000, DEFAULT_MIN_GAS_PRICE);
    let to = [2u8; 20];
    let tx = create_test_transaction(to, 100, 0, &secret_key);
    mempool.add_transaction(tx, vec![], Some("peer2".to_string()), 1000).unwrap();
    let ready = mempool.get_ready_transactions();
    assert_eq!(ready.len(), 1);
    assert!(ready[0].is_ready);
}

#[test]
fn test_remove_transaction() {
    let secret_key = SecretKey::from_slice(&[1; 32]).unwrap();
    let mut mempool = TxDagMempool::new(1000, DEFAULT_MIN_GAS_PRICE);
    let to = [2u8; 20];
    let tx = create_test_transaction(to, 100, 0, &secret_key);
    mempool.add_transaction(tx.clone(), vec![], Some("src".to_string()), 1000).unwrap();
    assert_eq!(mempool.size(), 1);
    let tx_hash = tx.hash();
    mempool.remove_transaction(&tx_hash);
    assert_eq!(mempool.size(), 0);
}

#[test]
fn test_reject_zero_balance() {
    let mut mempool = TxDagMempool::new(10, DEFAULT_MIN_GAS_PRICE);
    let to = [2u8; 20];
    let secret_key = SecretKey::from_slice(&[1; 32]).unwrap();
    let tx = create_test_transaction(to, 50, 0, &secret_key);
    let res = mempool.add_transaction(tx, vec![], Some("peer3".to_string()), 0);
    assert!(res.is_err());
}

#[test]
fn test_reject_low_gas_price() {
    let secret_key = SecretKey::from_slice(&[1; 32]).unwrap();
    let mut mempool = TxDagMempool::new(10, 100);
    let to = [2u8; 20];
    let mut tx = create_test_transaction(to, 10, 0, &secret_key);
    tx.gas_price = 50;
    let res = mempool.add_transaction(tx, vec![], Some("peer4".to_string()), 1000);
    assert!(res.is_err());
}

#[test]
fn test_rate_limit() {
    let secret_key = SecretKey::from_slice(&[1; 32]).unwrap();
    let mut mempool = TxDagMempool::new(1000, DEFAULT_MIN_GAS_PRICE);
    let to = [2u8; 20];
    for _ in 0..MAX_TX_PER_SOURCE {
        let tx = create_test_transaction(to, 1, 0, &secret_key);
        let _ = mempool.add_transaction(tx, vec![], Some("peer5".to_string()), 1000);
    }
    let tx = create_test_transaction(to, 1, 1, &secret_key);
    let res = mempool.add_transaction(tx, vec![], Some("peer5".to_string()), 1000);
    assert!(res.is_err());
}

#[test]
fn test_drop_low_fee_when_full() {
    let secret_key = SecretKey::from_slice(&[1; 32]).unwrap();
    let mut mempool = TxDagMempool::new(1, DEFAULT_MIN_GAS_PRICE);
    let to = [2u8; 20];
    let mut tx1 = create_test_transaction(to, 1, 0, &secret_key);
    tx1.gas_price = 10;
    mempool.add_transaction(tx1.clone(), vec![], Some("peer6".to_string()), 1000).unwrap();
    let mut tx2 = create_test_transaction(to, 1, 1, &secret_key);
    tx2.gas_price = 20;
    mempool.add_transaction(tx2.clone(), vec![], Some("peer6".to_string()), 1000).unwrap();
    assert_eq!(mempool.size(), 1);
    let entries = mempool.get_all_transactions();
    assert_eq!(entries[0].transaction.gas_price, 20);
}

#[test]
fn dependencies_and_pending_lists() {
    let secret_key = SecretKey::from_slice(&[1; 32]).unwrap();
    let mut mempool = TxDagMempool::new(10, DEFAULT_MIN_GAS_PRICE);
    let parent = create_test_transaction([2u8; 20], 1, 0, &secret_key);
    let child = create_test_transaction([2u8; 20], 1, 1, &secret_key);
    let ph = parent.hash();
    let ch = child.hash();
    mempool.add_transaction_at(parent.clone(), vec![], None, 5, 100).unwrap();
    mempool.add_transaction_at(child.clone(), vec![ph], None, 5, 101).unwrap();
    assert_eq!(mempool.get_ready_transactions().len(), 1);
    assert!(!mempool.get_transaction(&ch).unwrap().is_ready);
    assert_eq!(mempool.get_transaction(&ch).unwrap().timestamp, 101);
    assert_eq!(mempool.get_sender_pending(parent.from), vec![ph, ch]);
    assert!(mempool.add_transaction_at(parent.clone(), vec![], None, 5, 102).is_err());
    let removed = mempool.remove_transaction(&ph).unwrap();
    assert_eq!(removed.transaction.nonce, 0);
    assert_eq!(mempool.get_sender_pending(parent.from), vec![ch]);
    assert!(mempool.remove_transaction(&ph).is_none());
    mempool.clear();
    assert_eq!(mempool.tx_count(), 0);
    assert!(mempool.get_sender_pending(parent.from).is_empty());
}

#[test]
fn base_fee_and_signature_gate_admission() {
    let secret_key = SecretKey::from_slice(&[1; 32]).unwrap();
    let mut mempool = TxDagMempool::new(10, 1);
    mempool.set_base_fee(5);
    let tx = create_test_transaction([2u8; 20], 1, 0, &secret_key);
    assert_eq!(mempool.add_transaction_at(tx, vec![], None, 5, 0), Err("Gas price 1 below minimum 5".to_string()));
    let unsigned = Transaction::new([1u8; 20], [2u8; 20], 1, 0, 21000, 10);
    assert!(mempool.add_transaction_at(unsigned, vec![], None, 5, 0).is_err());
    let mut full = TxDagMempool::new(0, 1);
    let tx2 = create_test_transaction([2u8; 20], 1, 0, &secret_key);
    assert_eq!(full.add_transaction_at(tx2, vec![], None, 5, 0), Err("Mempool is full".to_string()));
}

#[test]
fn rate_window_restarts_after_a_minute() {
    let secret_key = SecretKey::from_slice(&[1; 32]).unwrap();
    let mut mempool = TxDagMempool::new(1000, 1);
    for i in 0..MAX_TX_PER_SOURCE as u64 {
        let tx = create_test_transaction([2u8; 20], 1, i, &secret_key);
        mempool.add_transaction_at(tx, vec![], Some("p".to_string()), 5, 1000).unwrap();
    }
    let late = create_test_transaction([2u8; 20], 1, 500, &secret_key);
    assert!(mempool.add_transaction_at(late.clone(), vec![], Some("p".to_string()), 5, 1059).is_err());
    assert!(mempool.add_transaction_at(late, vec![], Some("p".to_string()), 5, 1060).is_ok());
}
