use cytah_core::address_index::{
    get_recent_addresses, get_top_addresses_by_transactions, record_activity, search_addresses,
    touched_addresses, update_balance, AddressInfo,
};
use cytah_core::transaction::Transaction;

fn info(byte: u8, count: u64, last_seen: u64) -> AddressInfo {
    AddressInfo {
        address: [byte; 20],
        balance: "0".to_string(),
        transaction_count: count,
        first_seen: 1,
        last_seen,
    }
}

fn bytes(list: &[AddressInfo]) -> Vec<u8> {
    list.iter().map(|i| i.address[0]).collect()
}

#[test]
fn indexing_a_transfer_records_sender_once() {
    let tx = Transaction::new([1; 20], [2; 20], 5, 0, 21000, 1);
    let timestamp = 1234567890;
    let touched = touched_addresses(&tx);
    assert_eq!(touched, vec![[1; 20], [2; 20]]);
    let sender = record_activity(None, touched[0], timestamp);
    assert_eq!(sender.address, [1; 20]);
    assert_eq!(sender.balance, "0");
    assert_eq!(sender.transaction_count, 1);
    assert_eq!(sender.first_seen, timestamp);
    assert_eq!(sender.last_seen, timestamp);
}

#[test]
fn activity_keeps_first_seen_and_counts() {
    let first = record_activity(None, [3; 20], 100);
    let second = record_activity(Some(first), [3; 20], 250);
    assert_eq!(second.transaction_count, 2);
    assert_eq!(second.first_seen, 100);
    assert_eq!(second.last_seen, 250);
}

#[test]
fn deployment_touches_only_sender() {
    let tx = Transaction::new_deploy([9; 20], vec![0, 1], vec![], 0, 100_000, 1);
    assert_eq!(touched_addresses(&tx), vec![[9; 20]]);
    let call = Transaction::new_call([9; 20], [8; 20], "run".to_string(), vec![], 1, 100_000, 1);
    assert_eq!(touched_addresses(&call), vec![[9; 20], [8; 20]]);
}

#[test]
fn balance_update_needs_an_entry() {
    assert!(update_balance(None, "10").is_none());
    let updated = update_balance(Some(info(1, 4, 7)), "12345").unwrap();
    assert_eq!(updated.balance, "12345");
    assert_eq!(updated.transaction_count, 4);
}

#[test]
fn top_addresses_sorted_from_first_entries() {
    let entries = vec![info(1, 2, 10), info(2, 9, 5), info(3, 2, 30), info(4, 50, 1)];
    // Only the first three stored entries are considered, then sorted; ties keep their order.
    assert_eq!(bytes(&get_top_addresses_by_transactions(entries, 3)), vec![2, 1, 3]);
    let entries = vec![info(1, 2, 10), info(2, 9, 5)];
    assert!(get_top_addresses_by_transactions(entries, 0).is_empty());
}

#[test]
fn recent_addresses_by_last_seen() {
    let entries = vec![info(1, 2, 10), info(2, 9, 5), info(3, 2, 30)];
    assert_eq!(bytes(&get_recent_addresses(entries, 10)), vec![3, 1, 2]);
}

#[test]
fn search_matches_hex_without_case() {
    let entries = vec![info(0x1a, 1, 1), info(0x2b, 1, 1), info(0xab, 1, 1), info(0x3a, 1, 1)];
    assert_eq!(bytes(&search_addresses(entries.clone(), "AB", 10)), vec![0xab]);
    assert_eq!(bytes(&search_addresses(entries.clone(), "B", 10)), vec![0x2b, 0xab]);
    assert_eq!(bytes(&search_addresses(entries.clone(), "a1", 1)), vec![0x1a]);
    // A zero limit still returns the first match.
    assert_eq!(bytes(&search_addresses(entries.clone(), "a", 0)), vec![0x1a]);
    assert!(search_addresses(entries.clone(), "zz", 5).is_empty());
    assert_eq!(search_addresses(entries, "", 2).len(), 2);
}
