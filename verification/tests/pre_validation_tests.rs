use cytah_core::block::Block;
use cytah_core::pre_validation::{TransactionPreValidator, ValidationError};
use cytah_core::transaction::{Transaction, TxPayload};
use secp256k1::{PublicKey, Secp256k1, SecretKey};
use sha3::{Digest, Keccak256};

fn create_test_transaction(amount: u64, nonce: u64) -> Transaction {
    let secp = Secp256k1::new();
    let secret_key = SecretKey::from_slice(&[1; 32]).unwrap();
    let public_key = PublicKey::from_secret_key(&secp, &secret_key);
    let pubkey_bytes = &public_key.serialize()[1..];
    let hash = Keccak256::digest(pubkey_bytes);
    let mut from = [0u8; 20];
    from.copy_from_slice(&hash[12..32]);
    let to = [2u8; 20];
    let mut tx = Transaction::new_transfer(from, to, amount, nonce, 21000, 1_000_000_000);
    tx.sign(&secret_key.secret_bytes()).unwrap();
    tx
}

#[test]
fn test_valid_transaction() {
    let validator = TransactionPreValidator::default();
    let tx = create_test_transaction(100, 0);
    let result = validator.pre_validate_transaction(&tx);
    assert!(result.is_valid);
    assert!(result.errors.is_empty());
}

#[test]
fn test_zero_amount() {
    let validator = TransactionPreValidator::default();
    let tx = create_test_transaction(0, 0);
    let result = validator.pre_validate_transaction(&tx);
    assert!(!result.is_valid);
    assert!(matches!(result.errors[0], ValidationError::InvalidFormat(_)));
}

#[test]
fn test_self_transfer() {
    let validator = TransactionPreValidator::default();
    let mut tx = create_test_transaction(100, 0);
    if let TxPayload::Transfer { to, .. } = &mut tx.payload {
        *to = tx.from;
    }
    let result = validator.pre_validate_transaction(&tx);
    assert!(!result.is_valid);
    assert!(matches!(result.errors[0], ValidationError::InvalidFormat(_)));
}

#[test]
fn test_gas_limit_exceeded() {
    let validator = TransactionPreValidator::new(1000, 1_000_000_000, 128 * 1024);
    let mut tx = create_test_transaction(100, 0);
    tx.gas_limit = 2000;
    let result = validator.pre_validate_transaction(&tx);
    assert!(!result.is_valid);
    assert!(matches!(result.errors[0], ValidationError::GasLimitExceeded));
}

#[test]
fn test_duplicate_detection() {
    let mut validator = TransactionPreValidator::default();
    let tx = create_test_transaction(100, 0);
    let tx_hash = tx.hash();
    let result1 = validator.pre_validate_transaction(&tx);
    assert!(result1.is_valid);
    validator.add_known_transaction(tx_hash);
    let result2 = validator.pre_validate_transaction(&tx);
    assert!(!result2.is_valid);
    assert!(matches!(result2.errors[0], ValidationError::DuplicateTransaction));
}

#[test]
fn test_blacklist() {
    let mut validator = TransactionPreValidator::default();
    let tx = create_test_transaction(100, 0);
    validator.blacklist_address(tx.from);
    let result = validator.pre_validate_transaction(&tx);
    assert!(!result.is_valid);
    assert!(matches!(result.errors[0], ValidationError::BlacklistedAddress));
}

#[test]
fn test_gas_estimation() {
    let validator = TransactionPreValidator::default();
    let mut tx = create_test_transaction(100, 0);
    tx.payload = TxPayload::ContractDeploy { wasm_code: vec![1, 2, 3, 0, 0], init_args: vec![] };
    let gas = validator.estimate_gas_usage(&tx);
    assert!(gas >= 21000);
    assert!(gas <= tx.gas_limit);
}

#[test]
fn errors_are_listed_in_check_order() {
    let mut validator = TransactionPreValidator::new(1000, 10, 128 * 1024);
    let mut tx = Transaction::new_transfer([1u8; 20], [1u8; 20], 5, 0, 2000, 1);
    validator.blacklist_address([1u8; 20]);
    validator.add_known_transaction(tx.hash());
    let r = validator.pre_validate_transaction(&tx);
    assert!(!r.is_valid);
    assert_eq!(r.errors.len(), 5);
    assert!(matches!(r.errors[0], ValidationError::InvalidFormat(_)));
    assert!(matches!(r.errors[1], ValidationError::InvalidSignature));
    assert!(matches!(r.errors[2], ValidationError::GasLimitExceeded));
    assert!(matches!(r.errors[3], ValidationError::BlacklistedAddress));
    assert!(matches!(r.errors[4], ValidationError::DuplicateTransaction));
    tx.gas_limit = 500;
    tx.gas_price = 10_001;
    let r2 = validator.pre_validate_transaction(&tx);
    assert!(matches!(r2.errors[2], ValidationError::InvalidGasPrice));
    let all = validator.pre_validate_transactions(&[tx.clone(), tx]);
    assert_eq!(all.len(), 2);
}

#[test]
fn known_and_blacklisted_sets_count_members_once() {
    let mut validator = TransactionPreValidator::default();
    validator.add_known_transaction([5u8; 32]);
    validator.add_known_transaction([5u8; 32]);
    validator.add_known_transaction([6u8; 32]);
    assert_eq!(validator.known_transactions_count(), 2);
    validator.remove_known_transaction(&[5u8; 32]);
    assert_eq!(validator.known_transactions_count(), 1);
    validator.clear_known_transactions();
    assert_eq!(validator.known_transactions_count(), 0);
    validator.blacklist_address([1u8; 20]);
    validator.blacklist_address([1u8; 20]);
    assert_eq!(validator.blacklist_size(), 1);
    validator.unblacklist_address(&[1u8; 20]);
    assert_eq!(validator.blacklist_size(), 0);
}

#[test]
fn gas_estimate_counts_code_and_arguments() {
    let validator = TransactionPreValidator::default();
    let deploy = Transaction::new_deploy([1u8; 20], vec![0u8; 10], vec![0u8; 3], 0, 1_000_000, 1);
    assert_eq!(validator.estimate_gas_usage(&deploy), 21000 + 160 + 12);
    let call = Transaction::new_call([1u8; 20], [2u8; 20], "run".to_string(), vec![0u8; 4], 0, 21010, 1);
    assert_eq!(validator.estimate_gas_usage(&call), 21010);
}

#[test]
fn block_with_valid_distinct_transactions_passes() {
    let validator = TransactionPreValidator::default();
    let txs = vec![create_test_transaction(100, 0), create_test_transaction(100, 1)];
    let block = Block::new(vec![], 1000, txs, 0, 0, 0, [0; 20], [0; 32]);
    let result = validator.validate_block_transactions(&block);
    assert!(result.is_valid);
    assert!(result.errors.is_empty());
}

#[test]
fn block_reports_repeats_and_invalid_transactions_by_position() {
    let validator = TransactionPreValidator::default();
    let tx = create_test_transaction(100, 0);
    let bad = create_test_transaction(0, 1);
    let block = Block::new(vec![], 1000, vec![tx.clone(), tx, bad], 0, 0, 0, [0; 20], [0; 32]);
    let result = validator.validate_block_transactions(&block);
    assert!(!result.is_valid);
    assert_eq!(result.errors.len(), 2);
    match &result.errors[0] {
        ValidationError::InvalidFormat(m) => assert_eq!(m, "Duplicate transaction in block at index 1"),
        _ => panic!("expected a format error"),
    }
    match &result.errors[1] {
        ValidationError::InvalidFormat(m) => assert_eq!(
            m,
            "Transaction 2: InvalidFormat(\"Transfer transaction amount cannot be zero\")"
        ),
        _ => panic!("expected a format error"),
    }
}

#[test]
fn describe_matches_debug_text() {
    let e = ValidationError::InvalidFormat("Gas limit cannot be zero".to_string());
    assert_eq!(e.describe(), format!("{:?}", e));
    assert_eq!(ValidationError::InvalidSignature.describe(), format!("{:?}", ValidationError::InvalidSignature));
    assert_eq!(ValidationError::BlacklistedAddress.describe(), "BlacklistedAddress");
}
