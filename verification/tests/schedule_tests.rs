use cytah_core::gossip::GossipSeen;
use cytah_core::batching::schedule_parallel_batches;
use cytah_core::parallel_schedule::{analyze_access, build_conflict_graph, transactions_conflict, StateKey};
use cytah_core::transaction::Transaction;

fn transfer(from: u8, to: u8, nonce: u64) -> Transaction {
    Transaction::new_transfer([from; 20], [to; 20], 10, nonce, 21000, 1)
}

fn has_account(keys: &[StateKey], a: [u8; 20]) -> bool {
    keys.iter().any(|k| matches!(k, StateKey::Account(x) if *x == a))
}

#[test]
fn transfer_reads_and_writes_both_accounts() {
    let tx = transfer(1, 2, 0);
    let acc = analyze_access(&tx);
    assert_eq!(acc.reads.len(), 2);
    assert_eq!(acc.writes.len(), 2);
    assert!(has_account(&acc.reads, [1; 20]));
    assert!(has_account(&acc.reads, [2; 20]));
    assert!(has_account(&acc.writes, [1; 20]));
    assert!(has_account(&acc.writes, [2; 20]));
}

#[test]
fn self_transfer_lists_each_key_once() {
    let tx = transfer(3, 3, 0);
    let acc = analyze_access(&tx);
    assert_eq!(acc.reads.len(), 1);
    assert_eq!(acc.writes.len(), 1);
}

#[test]
fn deploy_writes_account_storage_and_registry() {
    let tx = Transaction::new_deploy([1; 20], vec![0, 97, 115, 109], vec![], 0, 100000, 1);
    let acc = analyze_access(&tx);
    assert_eq!(acc.reads.len(), 1);
    assert_eq!(acc.writes.len(), 4);
    assert!(acc.writes.iter().any(|k| matches!(k, StateKey::ContractRegistry(_))));
    assert!(acc.writes.iter().any(|k| matches!(k, StateKey::ContractStorage(_, s) if s.is_empty())));
}

#[test]
fn call_reads_registry_and_storage() {
    let tx = Transaction::new_call([1; 20], [9; 20], "run".to_string(), vec![], 0, 100000, 1);
    let acc = analyze_access(&tx);
    assert_eq!(acc.reads.len(), 4);
    assert_eq!(acc.writes.len(), 3);
    assert!(acc.reads.iter().any(|k| matches!(k, StateKey::ContractRegistry(a) if *a == [9; 20])));
    assert!(!acc.writes.iter().any(|k| matches!(k, StateKey::ContractRegistry(_))));
}

#[test]
fn shared_account_conflicts() {
    let a = analyze_access(&transfer(1, 2, 0));
    let b = analyze_access(&transfer(3, 2, 0));
    let c = analyze_access(&transfer(4, 5, 0));
    assert!(transactions_conflict(&a, &b));
    assert!(!transactions_conflict(&a, &c));
}

#[test]
fn conflict_graph_links_both_ways() {
    let txs = vec![transfer(1, 2, 0), transfer(3, 2, 0), transfer(4, 5, 0)];
    let graph = build_conflict_graph(&txs);
    let h0 = txs[0].hash();
    let h1 = txs[1].hash();
    let h2 = txs[2].hash();
    let neighbours = |h: [u8; 32]| graph.edges.iter().find(|(k, _)| *k == h).map(|(_, v)| v.clone());
    assert_eq!(neighbours(h0), Some(vec![h1]));
    assert_eq!(neighbours(h1), Some(vec![h0]));
    assert_eq!(neighbours(h2), None);
}

#[test]
fn independent_transfers_share_one_batch() {
    let txs = vec![transfer(1, 2, 0), transfer(3, 4, 0), transfer(5, 6, 0)];
    let batches = schedule_parallel_batches(txs.clone());
    assert_eq!(batches.len(), 1);
    assert_eq!(batches[0].transactions.len(), 3);
    for (a, b) in batches[0].transactions.iter().zip(txs.iter()) {
        assert_eq!(a.hash(), b.hash());
    }
}

#[test]
fn conflicting_transfers_are_split() {
    let txs = vec![transfer(1, 2, 0), transfer(1, 3, 1)];
    let batches = schedule_parallel_batches(txs.clone());
    assert_eq!(batches.len(), 2);
    assert_eq!(batches[0].transactions.len(), 1);
    assert_eq!(batches[1].transactions.len(), 1);
    assert_eq!(batches[0].transactions[0].hash(), txs[0].hash());
    assert_eq!(batches[1].transactions[0].hash(), txs[1].hash());
}

#[test]
fn later_conflict_shares_batch_with_earlier_independent() {
    // tx0 is independent; tx1 and tx2 conflict. The greedy colouring gives
    // tx0 and tx2 the first colour and tx1 the second.
    let txs = vec![transfer(1, 2, 0), transfer(3, 4, 0), transfer(3, 5, 1)];
    let batches = schedule_parallel_batches(txs.clone());
    assert_eq!(batches.len(), 2);
    let first: Vec<[u8; 32]> = batches[0].transactions.iter().map(|t| t.hash()).collect();
    let second: Vec<[u8; 32]> = batches[1].transactions.iter().map(|t| t.hash()).collect();
    assert_eq!(first, vec![txs[0].hash(), txs[2].hash()]);
    assert_eq!(second, vec![txs[1].hash()]);
}

#[test]
fn chain_of_conflicts_alternates() {
    // each transaction conflicts with the next one only
    let txs = vec![transfer(1, 2, 0), transfer(2, 3, 0), transfer(3, 4, 0), transfer(4, 5, 0)];
    let batches = schedule_parallel_batches(txs.clone());
    let total: usize = batches.iter().map(|b| b.transactions.len()).sum();
    assert_eq!(total, 4);
    for b in &batches {
        for i in 0..b.transactions.len() {
            for j in (i + 1)..b.transactions.len() {
                let x = analyze_access(&b.transactions[i]);
                let y = analyze_access(&b.transactions[j]);
                assert!(!transactions_conflict(&x, &y));
            }
        }
    }
}

#[test]
fn empty_input_gives_no_batches() {
    let batches = schedule_parallel_batches(vec![]);
    assert!(batches.is_empty());
}

#[test]
fn gossip_relays_each_hash_once_until_cleared() {
    let mut seen = GossipSeen::new();
    let h = [7u8; 32];
    assert!(seen.note_block(&h));
    assert!(!seen.note_block(&h));
    assert!(seen.note_transaction(&h));
    assert!(!seen.note_transaction(&h));
    seen.clear();
    assert!(seen.note_block(&h));
}
