use cytah_core::batch_verification::BatchSignatureVerifier;
use cytah_core::transaction::Transaction;
use secp256k1::{PublicKey, Secp256k1, SecretKey};
use sha3::{Digest, Keccak256};

fn create_signed_transaction(amount: u64, nonce: u64) -> Transaction {
    let secp = Secp256k1::new();
    let secret_key = SecretKey::from_slice(&[1; 32]).unwrap();
    let public_key = PublicKey::from_secret_key(&secp, &secret_key);
    // Derive the address from the public key with Keccak-256.
    let pubkey_bytes = &public_key.serialize()[1..]; // Skip the prefix byte
    let hash = Keccak256::digest(pubkey_bytes);
    let mut from = [0u8; 20];
    from.copy_from_slice(&hash[12..32]);
    let to = [2u8; 20];
    let mut tx = Transaction::new_transfer(from, to, amount, nonce, 21000, 1_000_000_000);
    tx.sign(&secret_key.secret_bytes()).unwrap();
    tx
}

#[test]
fn test_batch_verification_valid() {
    let mut verifier = BatchSignatureVerifier::new(10);
    let txs = vec![
        create_signed_transaction(100, 0),
        create_signed_transaction(200, 1),
        create_signed_transaction(300, 2),
    ];
    let result = verifier.verify_transaction_batch(&txs).unwrap();
    assert_eq!(result.valid_count, 3);
    assert_eq!(result.invalid_count, 0);
    assert!(result.failed_signatures.is_empty());
}

#[test]
fn test_single_verification() {
    let mut verifier = BatchSignatureVerifier::new(10);
    let tx = create_signed_transaction(100, 0);
    let is_valid = verifier.verify_transaction(&tx).unwrap();
    assert!(is_valid);
}

#[test]
fn test_pre_verification() {
    let verifier = BatchSignatureVerifier::new(10);
    let tx = create_signed_transaction(100, 0);
    let result = verifier.pre_verify_transaction(&tx);
    assert!(result.is_ok());
}

#[test]
fn batch_counts_verifications() {
    let mut verifier = BatchSignatureVerifier::new(10);
    let txs = vec![create_signed_transaction(100, 0)];
    verifier.verify_transaction_batch(&txs).unwrap();
    let stats = verifier.get_stats();
    assert_eq!(stats.total_verifications, 1);
    assert_eq!(stats.failed_verifications, 0);
    verifier.reset_stats();
    assert_eq!(verifier.get_stats().total_verifications, 0);
}

#[test]
fn batch_reports_first_failure() {
    let mut verifier = BatchSignatureVerifier::new(10);
    let good = create_signed_transaction(100, 0);
    let mut wrong_sender = create_signed_transaction(5, 1);
    wrong_sender.from = [9; 20];
    let unsigned = Transaction::new_transfer([1; 20], [2; 20], 1, 2, 21000, 1);
    let err = verifier.verify_transaction_batch(&[good.clone(), wrong_sender, unsigned.clone()]).unwrap_err();
    assert_eq!(err, "Transaction 1: signature does not match from address");
    let err = verifier.verify_transaction_batch(&[good, unsigned]).unwrap_err();
    assert_eq!(err, "Transaction 1: Invalid signature length");
    assert_eq!(verifier.get_stats().total_verifications, 0);
    let mut bad_id = create_signed_transaction(7, 3);
    bad_id.signature.data[64] = 9;
    let err = verifier.verify_transaction_batch(&[bad_id]).unwrap_err();
    assert_eq!(err, "Transaction 0: Invalid recovery ID: bad recovery id");
    let empty: Vec<Transaction> = vec![];
    let r = verifier.verify_transaction_batch(&empty).unwrap();
    assert_eq!(r.valid_count, 0);
}

#[test]
fn pre_verification_errors() {
    let verifier = BatchSignatureVerifier::new(10);
    let unsigned = Transaction::new_transfer([1; 20], [2; 20], 1, 0, 21000, 1);
    assert_eq!(verifier.pre_verify_transaction(&unsigned).unwrap_err(), "Transaction has no signature");
}
