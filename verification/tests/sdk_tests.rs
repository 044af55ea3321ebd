use cytah_core::mobile_wallet::MobileWallet;
use cytah_core::transaction::TxPayload;
use cytah_core::tx_builder::TransactionBuilder;

#[test]
fn test_transaction_builder_transfer() {
    let from = [1u8; 20];
    let to = [2u8; 20];
    let tx = TransactionBuilder::new()
        .from(from)
        .transfer(to, 100)
        .nonce(1)
        .gas_limit(21000)
        .gas_price(1)
        .build()
        .expect("build tx");
    assert_eq!(tx.from, from);
    if let TxPayload::Transfer { to: t, amount } = tx.payload {
        assert_eq!(t, to);
        assert_eq!(amount, 100);
    } else {
        panic!("expected transfer payload");
    }
}

#[test]
fn test_transaction_builder_missing_field() {
    let res = TransactionBuilder::new().build();
    assert!(res.is_err());
}

#[test]
fn test_mobile_wallet_creation() {
    let wallet = MobileWallet::create().unwrap();
    assert_eq!(wallet.address().len(), 20);
}

#[test]
fn test_nonce_cache() {
    let mut wallet = MobileWallet::create().unwrap();
    let address = *wallet.address();
    assert_eq!(wallet.get_next_nonce(&address), 0);
    wallet.update_nonce(address, 5);
    assert_eq!(wallet.get_next_nonce(&address), 5);
    wallet.clear_nonce_cache();
    assert_eq!(wallet.get_next_nonce(&address), 0);
}

use cytah_core::keypair::Keypair;
use cytah_core::transaction::Transaction;
use cytah_core::wallet::Wallet;

#[test]
fn test_generate_keypair_and_address() {
    let kp = Keypair::generate().expect("should generate keypair");
    let addr = kp.derive_address();
    assert_eq!(addr.len(), 20);
}

#[test]
fn test_sign_and_verify() {
    let kp = Keypair::generate().expect("should generate keypair");
    let msg = b"test message";
    let sig = kp.sign(msg).expect("should sign");
    assert!(kp.verify(msg, &sig).expect("verify should not error"));
}

#[test]
fn test_wallet_create_and_sign() {
    let wallet = Wallet::create_wallet().expect("create wallet");
    let addr = wallet.derive_address();
    assert_eq!(addr, wallet.address);
    let to = [2u8; 20];
    let mut tx = Transaction::new_transfer(addr, to, 100, 1, 21000, 1);
    wallet.sign_transaction(&mut tx).expect("sign tx");
    assert!(tx.validate_basic().is_ok());
}

#[test]
fn test_import_export_private_key() {
    let wallet = Wallet::create_wallet().expect("create wallet");
    let hex = wallet.export_private_key_hex();
    let secret = hex::decode(&hex).expect("decode hex");
    let imported = Wallet::import_private_key(&secret).expect("import");
    assert_eq!(imported.address, wallet.address);
}

#[test]
fn keypair_rejects_bad_inputs() {
    assert!(Keypair::from_secret_bytes(&[1u8; 31]).is_err());
    assert!(Keypair::from_secret_bytes(&[0u8; 32]).is_err());
    let kp = Keypair::from_secret_bytes(&[1u8; 32]).unwrap();
    assert_eq!(kp.secret_bytes(), [1u8; 32]);
    assert!(kp.verify(b"m", &[0u8; 64]).is_err());
    let other = Keypair::from_secret_bytes(&[2u8; 32]).unwrap();
    let sig = other.sign(b"m").unwrap();
    assert_eq!(kp.verify(b"m", &sig).unwrap(), false);
    assert_ne!(kp.derive_address(), other.derive_address());
}

#[test]
fn builder_defaults_and_signing() {
    let wallet = Wallet::import_private_key(&[7u8; 32]).unwrap();
    let tx = TransactionBuilder::new()
        .from(wallet.address)
        .deploy_contract(vec![1, 2, 3], vec![])
        .build()
        .unwrap();
    assert_eq!(tx.nonce, 0);
    assert_eq!(tx.gas_limit, 21000);
    assert_eq!(tx.gas_price, 1);
    assert!(TransactionBuilder::new().from([1u8; 20]).build().is_err());
    let signed = TransactionBuilder::new()
        .from(wallet.address)
        .transfer([9u8; 20], 5)
        .build_and_sign(&wallet)
        .unwrap();
    assert!(signed.validate_basic().is_ok());
    let bad_wallet = Wallet { secret_key: vec![0u8; 32], public_key: vec![], address: [0u8; 20] };
    assert!(TransactionBuilder::new().from([1u8; 20]).transfer([2u8; 20], 1).build_and_sign(&bad_wallet).is_err());
}

#[test]
fn mobile_wallet_import_and_export() {
    let m = MobileWallet::from_private_key(&[3u8; 32]).unwrap();
    assert_eq!(m.export_private_key(), "03".repeat(32));
    assert!(MobileWallet::from_private_key(&[3u8; 5]).is_err());
    let mut m2 = m;
    m2.update_nonce([1u8; 20], 4);
    m2.update_nonce([2u8; 20], 9);
    m2.update_nonce([1u8; 20], 6);
    assert_eq!(m2.get_next_nonce(&[1u8; 20]), 6);
    assert_eq!(m2.get_next_nonce(&[2u8; 20]), 9);
}

#[test]
fn import_accepts_hex_or_raw_key() {
    let k = [1u8; 32];
    let h = hex::encode(k);
    let from_hex = Wallet::import_private_key(h.as_bytes()).unwrap();
    let from_raw = Wallet::import_private_key(&k).unwrap();
    assert_eq!(from_hex.address, from_raw.address);
    assert_eq!(from_raw.secret_key, k.to_vec());
    assert_eq!(Wallet::import_private_key(h.to_uppercase().as_bytes()).unwrap().secret_key, k.to_vec());
    assert!(Wallet::import_private_key(&[1u8; 31]).is_err());
    assert!(Wallet::import_private_key(&[0u8; 32]).is_err());
    assert!(Wallet::import_private_key("zz".repeat(32).as_bytes()).is_err());
}

#[test]
fn mobile_export_then_import_keeps_key() {
    let m = cytah_core::mobile_wallet::MobileWallet::from_private_key(&[5u8; 32]).unwrap();
    let exported = m.export_private_key();
    let again = cytah_core::mobile_wallet::MobileWallet::from_private_key(exported.as_bytes()).unwrap();
    assert_eq!(again.address(), m.address());
}
