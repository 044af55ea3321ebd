use cytah_core::block::Block;
use cytah_core::mining::{calculate_reward, meets_difficulty};
use cytah_core::transaction::{Transaction, TxPayload};

#[test]
fn test_transaction_creation() {
    let from: [u8; 20] = [1; 20];
    let to: [u8; 20] = [2; 20];
    let tx = Transaction::new_transfer(from, to, 100, 1, 21000, 1);
    if let TxPayload::Transfer { amount, .. } = tx.payload {
        assert_eq!(amount, 100);
    } else {
        panic!("Expected transfer payload");
    }
    assert_eq!(tx.nonce, 1);
}

#[test]
fn test_transfer_transaction_creation() {
    let from = [1u8; 20];
    let to = [2u8; 20];
    let tx = Transaction::new_transfer(from, to, 100, 1, 21000, 1);
    if let TxPayload::Transfer { amount, .. } = tx.payload {
        assert_eq!(amount, 100);
    } else {
        panic!("Expected transfer payload");
    }
    assert_eq!(tx.nonce, 1);
}

#[test]
fn test_reward_calculation() {
    assert_eq!(calculate_reward(0), 500);
    assert_eq!(calculate_reward(1), 498);
    assert!(calculate_reward(1000) >= 1);
    assert!(calculate_reward(10000) >= 1);
}

#[test]
fn test_difficulty_check() {
    let hash = [0u8; 32];
    assert!(meets_difficulty(&hash, 0));
    assert!(meets_difficulty(&hash, 1));
    let hard_hash = [255u8; 32];
    assert!(!meets_difficulty(&hard_hash, 8));
}

#[test]
fn block_new_keeps_fields() {
    let tx = Transaction::new_transfer([1u8; 20], [2u8; 20], 100, 0, 21000, 1);
    let b = Block::new(vec![], 1000, vec![tx], 42, 0, 0, [0u8; 20], [0u8; 32]);
    assert_eq!(b.header.timestamp, 1000);
    assert_eq!(b.header.nonce, 42);
    assert_eq!(b.transactions.len(), 1);
    assert!(b.is_genesis());
}

use cytah_core::crypto::{CryptoAlgorithm, Signature};
use secp256k1::{PublicKey, Secp256k1, SecretKey};
use sha2::{Digest, Sha256};

#[test]
fn test_transaction_hash_length() {
    let from = [1u8; 20];
    let to = [2u8; 20];
    let tx = Transaction::new_transfer(from, to, 100, 1, 21000, 1);
    let hash = tx.hash();
    assert_eq!(hash.len(), 32);
}

#[test]
fn test_transaction_sign_and_verify() {
    let secp = Secp256k1::new();
    let secret_key = SecretKey::from_slice(&[1; 32]).unwrap();
    let public_key = PublicKey::from_secret_key(&secp, &secret_key);
    let pubkey_hash = Sha256::digest(&public_key.serialize()[1..]);
    let from: [u8; 20] = pubkey_hash[12..32].try_into().unwrap();
    let to = [2u8; 20];
    let mut tx = Transaction::new_transfer(from, to, 100, 1, 21000, 1);
    tx.sign(&secret_key.secret_bytes()).unwrap();
    assert!(tx.validate_basic().is_ok());
}

#[test]
fn test_invalid_signature() {
    let from = [1u8; 20];
    let to = [2u8; 20];
    let mut tx = Transaction::new_transfer(from, to, 100, 1, 21000, 1);
    tx.signature = Signature { algorithm: CryptoAlgorithm::Secp256k1, data: vec![0; 65] };
    assert!(tx.validate_basic().is_err());
}

#[test]
fn unsigned_or_zero_gas_transactions_fail_validation() {
    let tx = Transaction::new_transfer([1u8; 20], [2u8; 20], 100, 1, 21000, 1);
    assert!(tx.validate_basic().is_err());
    let zero_gas = Transaction::new_transfer([1u8; 20], [2u8; 20], 100, 1, 0, 1);
    assert_eq!(zero_gas.validate_basic(), Err("Gas limit must be greater than 0".to_string()));
    let zero_amount = Transaction::new_transfer([1u8; 20], [2u8; 20], 0, 1, 21000, 1);
    assert_eq!(zero_amount.validate_basic(), Err("Amount must be greater than 0".to_string()));
}

#[test]
fn transaction_hash_depends_on_fields() {
    let a = Transaction::new_transfer([1u8; 20], [2u8; 20], 100, 1, 21000, 1);
    let b = Transaction::new_transfer([1u8; 20], [2u8; 20], 100, 2, 21000, 1);
    assert_eq!(a.hash(), a.clone().hash());
    assert_ne!(a.hash(), b.hash());
}

#[test]
fn test_block_hash_calculation() {
    let tx = Transaction::new([1u8; 20], [2u8; 20], 100, 0, 21000, 1);
    let block = Block::new(vec![], 1000, vec![tx], 42, 0, 0, [0; 20], [0; 32]);
    assert_eq!(block.hash.len(), 32);
}

#[test]
fn test_block_validation_basic() {
    let tx = Transaction::new([1u8; 20], [2u8; 20], 100, 0, 21000, 1);
    let block = Block::new(vec![], 1000, vec![tx], 42, 0, 0, [0; 20], [0; 32]);
    assert!(block.validate_basic().is_ok());
}

#[test]
fn test_block_genesis_detection() {
    let block = Block::new(vec![], 1000, vec![], 0, 0, 0, [0; 20], [0; 32]);
    assert!(block.is_genesis());
}

#[test]
fn test_block_with_multiple_parents() {
    let parent1 = [0x11u8; 32];
    let parent2 = [0x22u8; 32];
    let tx = Transaction::new([1u8; 20], [2u8; 20], 100, 0, 21000, 1);
    let block = Block::new(vec![parent1, parent2], 1000, vec![tx], 42, 0, 0, [0; 20], [0; 32]);
    assert_eq!(block.header.parent_hashes.len(), 2);
    assert!(block.validate_basic().is_ok());
}

#[test]
fn test_duplicate_transaction_detection() {
    let tx1 = Transaction::new([1u8; 20], [2u8; 20], 100, 0, 21000, 1);
    let tx2 = Transaction::new([1u8; 20], [2u8; 20], 100, 0, 21000, 1);
    let block = Block::new(vec![], 1000, vec![tx1, tx2], 42, 0, 0, [0; 20], [0; 32]);
    assert!(block.validate_basic().is_err());
}

#[test]
fn test_hash_consistency() {
    let tx = Transaction::new([1u8; 20], [2u8; 20], 100, 0, 21000, 1);
    let block1 = Block::new(vec![[0x11u8; 32]], 1000, vec![tx.clone()], 42, 0, 0, [0; 20], [0; 32]);
    let block2 = Block::new(vec![[0x11u8; 32]], 1000, vec![tx], 42, 0, 0, [0; 20], [0; 32]);
    assert_eq!(block1.hash, block2.hash);
}

#[test]
fn test_pow_check_in_validation() {
    let tx = Transaction::new([1u8; 20], [2u8; 20], 100, 0, 21000, 1);
    let mut block = Block::new(vec![], 1000, vec![tx], 0, 1, 0, [0; 20], [0; 32]);
    let mut nonce = 0;
    while !meets_difficulty(&block.hash, block.header.difficulty) && nonce < 1000 {
        nonce += 1;
        block.header.nonce = nonce;
        block.hash = block.calculate_hash();
    }
    assert!(meets_difficulty(&block.hash, 1));
    assert!(block.validate_basic().is_ok());
}

#[test]
fn block_reward_adds_tips_to_base_reward() {
    let b0 = Block::new(vec![], 1000, vec![], 0, 0, 0, [0; 20], [0; 32]);
    assert_eq!(b0.reward, calculate_reward(0));
    let mut txs = Vec::new();
    for i in 0..3u64 {
        txs.push(Transaction::new([1u8; 20], [2u8; 20], 100, i, 21000, 5));
    }
    let b = Block::new(vec![], 1000, txs, 0, 0, 2, [0; 20], [0; 32]);
    assert_eq!(b.reward, calculate_reward(3) + 3 * 3);
}

#[test]
fn difficulty_bits_are_counted_from_the_front() {
    let mut h = [0u8; 32];
    h[1] = 0x10;
    assert!(meets_difficulty(&h, 11));
    assert!(!meets_difficulty(&h, 12));
    assert!(!meets_difficulty(&[0u8; 32], 257));
}
