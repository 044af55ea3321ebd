use cytah_core::execution::{
    block_execution_result, execute_transfer, settle_call, settle_deployment, Account, Overlay, RuntimeOutcome,
    StateOverlay,
};
use cytah_core::transaction::Transaction;
use secp256k1::{PublicKey, Secp256k1, SecretKey};
use sha2::{Digest, Sha256};

fn sender_of(secret_key: &SecretKey) -> [u8; 20] {
    let secp = Secp256k1::new();
    let pubkey = PublicKey::from_secret_key(&secp, secret_key);
    let pubkey_hash = Sha256::digest(&pubkey.serialize()[1..]);
    pubkey_hash[12..32].try_into().unwrap()
}

fn signed(mut tx: Transaction, secret_key: &SecretKey) -> Transaction {
    tx.sign(&secret_key.secret_bytes()).unwrap();
    tx
}

fn key() -> SecretKey {
    SecretKey::from_slice(&[3u8; 32]).unwrap()
}

#[test]
fn transfer_moves_amount_and_charges_full_allowance() {
    let k = key();
    let from = sender_of(&k);
    let tx = signed(Transaction::new(from, [2; 20], 100, 0, 21000, 1), &k);
    let mut overlay = StateOverlay::new();
    let r = execute_transfer(&tx, &mut overlay, Some(Account::new(1_000_000, 0)), None);
    assert!(r.success);
    assert_eq!(r.gas_used, 21000);
    assert!(r.error.is_none());
    assert_eq!(r.tx_hash, tx.hash());
    assert_eq!(overlay.read_account(&from, None), Account::new(1_000_000 - 100 - 21000, 1));
    assert_eq!(overlay.read_account(&[2; 20], None), Account::new(100, 0));
}

#[test]
fn transfer_refusals() {
    let k = key();
    let from = sender_of(&k);
    let tx = signed(Transaction::new(from, [2; 20], 100, 0, 21000, 1), &k);
    let mut overlay = StateOverlay::new();
    let r = execute_transfer(&tx, &mut overlay, Some(Account::new(1_000_000, 5)), None);
    assert!(!r.success);
    assert_eq!(r.error.unwrap(), "Invalid nonce: expected 5 got 0");
    let r = execute_transfer(&tx, &mut overlay, Some(Account::new(1000, 0)), None);
    assert_eq!(r.error.unwrap(), "Insufficient balance for transfer");
    assert_eq!(r.gas_used, 0);
    assert!(overlay.modified().is_empty());
    let unsigned = Transaction::new(from, [2; 20], 100, 0, 21000, 1);
    assert!(execute_transfer(&unsigned, &mut overlay, Some(Account::new(1_000_000, 0)), None).error.is_some());
}

#[test]
fn transfer_to_oneself_keeps_only_the_debit() {
    let k = key();
    let from = sender_of(&k);
    let tx = signed(Transaction::new(from, from, 100, 0, 21000, 1), &k);
    let mut overlay = StateOverlay::new();
    let r = execute_transfer(&tx, &mut overlay, Some(Account::new(50_000, 0)), None);
    assert!(r.success);
    assert_eq!(overlay.read_account(&from, None), Account::new(50_000 - 100 - 21000, 1));
}

#[test]
fn deployment_registers_code_at_derived_address() {
    let k = key();
    let from = sender_of(&k);
    let code = vec![0u8, 0x61, 0x73, 0x6d];
    let tx = signed(Transaction::new_deploy(from, code.clone(), vec![], 0, 100_000, 2), &k);
    let mut overlay = Overlay::new();
    let r = settle_deployment(&tx, &mut overlay, Some(Account::new(10_000, 0)), RuntimeOutcome::Ran { gas_used: 500, failure: None });
    assert!(r.success);
    assert_eq!(r.gas_used, 500);
    let digest = Sha256::digest(&code);
    let address: [u8; 20] = digest[0..20].try_into().unwrap();
    assert_eq!(overlay.registry_updates, vec![(address, code)]);
    assert_eq!(overlay.state.read_account(&from, None), Account::new(9_000, 1));
    assert_eq!(overlay.state.read_account(&address, Some(Account::new(7, 7))), Account::new(0, 0));
}

#[test]
fn failed_init_still_charges() {
    let k = key();
    let from = sender_of(&k);
    let tx = signed(Transaction::new_deploy(from, vec![1, 2], vec![], 0, 100_000, 1), &k);
    let mut overlay = Overlay::new();
    let failure = Some("trap".to_string());
    let r = settle_deployment(&tx, &mut overlay, Some(Account::new(10_000, 0)), RuntimeOutcome::Ran { gas_used: 300, failure });
    assert_eq!(r.error.unwrap(), "contract init failed");
    assert!(overlay.registry_updates.is_empty());
    assert_eq!(overlay.state.read_account(&from, None), Account::new(9_700, 1));
    let r = settle_deployment(&tx, &mut Overlay::new(), Some(Account::new(10_000, 0)), RuntimeOutcome::InstantiateFailed("bad magic".to_string()));
    assert_eq!(r.error.unwrap(), "WASM instantiate error: bad magic");
}

#[test]
fn call_settlement() {
    let k = key();
    let from = sender_of(&k);
    let tx = signed(Transaction::new_call(from, [8; 20], "run".to_string(), vec![], 0, 100_000, 1), &k);
    let mut overlay = StateOverlay::new();
    let base = Some(Account::new(10_000, 0));
    let r = settle_call(&tx, &mut overlay, base, false, RuntimeOutcome::Ran { gas_used: 10, failure: None });
    assert_eq!(r.error.unwrap(), "Contract not found");
    let r = settle_call(&tx, &mut overlay, base, true, RuntimeOutcome::Ran { gas_used: 20_000, failure: None });
    assert_eq!(r.error.unwrap(), "Insufficient balance for fee");
    assert!(overlay.modified().is_empty());
    let r = settle_call(&tx, &mut overlay, base, true, RuntimeOutcome::Ran { gas_used: 40, failure: Some("trap".to_string()) });
    assert_eq!(r.error.unwrap(), "Contract call failed: trap");
    assert_eq!(overlay.read_account(&from, None), Account::new(9_960, 1));
    let mut fresh = StateOverlay::new();
    let r = settle_call(&tx, &mut fresh, base, true, RuntimeOutcome::Ran { gas_used: 40, failure: None });
    assert!(r.success);
    assert_eq!(r.gas_used, 40);
}

#[test]
fn block_summary_stops_at_first_failure() {
    let a = Transaction::new([1; 20], [2; 20], 1, 0, 21000, 1);
    let b = Transaction::new([1; 20], [2; 20], 1, 1, 21000, 2);
    let c = Transaction::new([1; 20], [2; 20], 1, 2, 21000, 3);
    let txs = vec![a, b, c];
    let outcomes = vec![Ok(21000), Ok(100), Err("bad".to_string())];
    let r = block_execution_result(&txs, &outcomes, [9; 32]);
    assert_eq!(r.executed_transactions, 2);
    assert!(!r.success);
    assert_eq!(r.total_fees, 21000 + 200);
    assert_eq!(r.new_state_root, [9; 32]);
    let all = block_execution_result(&txs, &vec![Ok(1), Ok(1), Ok(1)], [0; 32]);
    assert!(all.success);
    assert_eq!(all.total_fees, 1 + 2 + 3);
}
