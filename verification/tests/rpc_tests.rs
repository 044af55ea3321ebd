use cytah_core::block::Block;
use cytah_core::blockdag::BlockDAG;
use cytah_core::mempool::{TxDagMempool, DEFAULT_MIN_GAS_PRICE};
use cytah_core::rpc::{get_node_info, get_transaction};
use cytah_core::transaction::Transaction;
use secp256k1::{PublicKey, Secp256k1, SecretKey};
use sha2::{Digest, Sha256};

fn signed_transfer(nonce: u64, secret_key: &SecretKey) -> Transaction {
    let secp = Secp256k1::new();
    let pubkey = PublicKey::from_secret_key(&secp, secret_key);
    let pubkey_hash = Sha256::digest(&pubkey.serialize()[1..]);
    let from: [u8; 20] = pubkey_hash[12..32].try_into().unwrap();
    let mut tx = Transaction::new(from, [2; 20], 10, nonce, 21000, 1);
    tx.sign(&secret_key.secret_bytes()).unwrap();
    tx
}

#[test]
fn lookup_finds_pending_then_block_transactions() {
    let key = SecretKey::from_slice(&[7u8; 32]).unwrap();
    let pending = signed_transfer(0, &key);
    let mined = signed_transfer(1, &key);
    let mut mempool = TxDagMempool::new(100, DEFAULT_MIN_GAS_PRICE);
    mempool.add_transaction(pending.clone(), vec![], None, 1000).unwrap();
    let mut dag = BlockDAG::new();
    let block = Block::new(vec![], 1000, vec![mined.clone()], 0, 0, 0, [0; 20], [0; 32]);
    dag.insert_block(block).unwrap();

    let text = hex::encode(pending.hash());
    let resp = get_transaction(&mempool, &dag, text.clone()).unwrap();
    assert_eq!(resp.hash, text);
    assert_eq!(resp.transaction.unwrap().hash(), pending.hash());

    let text = hex::encode(mined.hash());
    let resp = get_transaction(&mempool, &dag, text).unwrap();
    assert_eq!(resp.transaction.unwrap().nonce, 1);

    let resp = get_transaction(&mempool, &dag, "00".repeat(32)).unwrap();
    assert!(resp.transaction.is_none());
    assert!(get_transaction(&mempool, &dag, "abc".to_string()).is_none());
}

#[test]
fn node_info_counts_pool_and_blocks() {
    let key = SecretKey::from_slice(&[9u8; 32]).unwrap();
    let mut mempool = TxDagMempool::new(100, DEFAULT_MIN_GAS_PRICE);
    mempool.add_transaction(signed_transfer(0, &key), vec![], None, 1000).unwrap();
    let mut dag = BlockDAG::new();
    dag.insert_block(Block::new(vec![], 1000, vec![], 0, 0, 0, [0; 20], [0; 32])).unwrap();
    let info = get_node_info(vec!["peer-a".to_string()], &mempool, &dag);
    assert_eq!(info.peer_id, "unknown");
    assert_eq!(info.connected_peers, vec!["peer-a".to_string()]);
    assert_eq!(info.mempool_size, 1);
    assert_eq!(info.dag_height, 1);
}
