use cytah_core::discovery::{DiscoveryManager, PeerData};
use cytah_core::reputation::{BootstrapPeer, DnsSeed};

const HOUR: u64 = 3_600_000_000_000;

fn peer(n: u8) -> Vec<u8> {
    vec![0x12, 0x20, n, n, n]
}

#[test]
fn test_bootstrap_peers() {
    let mut dm = DiscoveryManager::new(peer(0));
    dm.add_bootstrap_peer(BootstrapPeer { address: "/ip4/127.0.0.1/tcp/30333".to_string(), peer_id: None });
    assert_eq!(dm.get_bootstrap_addresses().len(), 1);
}

#[test]
fn test_known_peers() {
    let dm = DiscoveryManager::new(peer(0));
    assert!(dm.get_trusted_peers().is_empty());
}

#[test]
fn test_multiaddr_parsing() {
    let addr = "/ip4/127.0.0.1/tcp/30333/p2p/QmAAAAAAAAAAAAAAAAAAAAAAAAAAAAAAA";
    let peer_id = DiscoveryManager::parse_multiaddr(addr);
    assert_eq!(peer_id, Some("QmAAAAAAAAAAAAAAAAAAAAAAAAAAAAAAA".to_string()));
}

#[test]
fn test_mdns_control() {
    let mut dm = DiscoveryManager::new(peer(0));
    assert!(dm.is_mdns_enabled());
    dm.set_mdns_enabled(false);
    assert!(!dm.is_mdns_enabled());
}

#[test]
fn multiaddr_stops_at_next_slash_or_is_absent() {
    assert_eq!(DiscoveryManager::parse_multiaddr("/p2p/QmX/tcp/1"), Some("QmX".to_string()));
    assert_eq!(DiscoveryManager::parse_multiaddr("/ip4/1.2.3.4/tcp/1"), None);
    assert_eq!(DiscoveryManager::parse_multiaddr("/p2p/"), Some(String::new()));
}

#[test]
fn legacy_bootstrap_and_seeds() {
    let mut dm = DiscoveryManager::new(peer(0));
    dm.add_bootstrap_peer_legacy("/ip4/10.0.0.1/tcp/1".to_string());
    assert_eq!(dm.get_bootstrap_peers_legacy(), vec!["/ip4/10.0.0.1/tcp/1".to_string()]);
    dm.add_dns_seed(DnsSeed { hostname: "seed3.example".to_string(), port: 1 });
}

#[test]
fn new_peer_lists_its_first_address_twice() {
    let mut dm = DiscoveryManager::new(peer(0));
    dm.add_peer_at(peer(1), "/ip4/1.1.1.1/tcp/1".to_string(), 5);
    let p = dm.get_peer_stats(&peer(1)).unwrap();
    assert_eq!(p.addresses.len(), 2);
    assert_eq!(p.first_discovered, 5);
    dm.add_peer_at(peer(1), "/ip4/2.2.2.2/tcp/1".to_string(), 9);
    let p = dm.get_peer_stats(&peer(1)).unwrap();
    assert_eq!(p.addresses.len(), 3);
    assert_eq!(p.first_discovered, 5);
}

#[test]
fn reputation_marks_trusted_and_banned() {
    let mut dm = DiscoveryManager::new(peer(0));
    dm.add_peer_at(peer(1), "/a".to_string(), 0);
    dm.update_peer_reputation(&peer(1), 600);
    assert_eq!(dm.get_peer_reputation(&peer(1)).value(), 600);
    assert_eq!(dm.get_trusted_peers(), vec![peer(1)]);
    dm.update_peer_reputation(&peer(1), -1200);
    assert_eq!(dm.get_peer_reputation(&peer(1)).value(), -600);
    assert!(dm.get_trusted_peers().is_empty());
    assert!(dm.is_peer_banned(&peer(1)));
    dm.update_peer_reputation(&peer(1), -5000);
    assert_eq!(dm.get_peer_reputation(&peer(1)).value(), -1000);
    assert_eq!(dm.get_peer_reputation(&peer(9)).value(), 0);
}

#[test]
fn connection_results_change_reputation() {
    let mut dm = DiscoveryManager::new(peer(0));
    dm.add_peer_at(peer(1), "/a".to_string(), 0);
    dm.record_connection_success_at(&peer(1), 7);
    dm.record_connection_failure(&peer(1));
    let p = dm.get_peer_stats(&peer(1)).unwrap();
    assert_eq!(p.connection_attempts, 2);
    assert_eq!(p.successful_connections, 1);
    assert_eq!(p.reputation.value(), 5);
    assert!(p.connected);
    assert_eq!(p.last_seen, 7);
}

#[test]
fn dial_candidates_need_a_good_record() {
    let mut dm = DiscoveryManager::new(peer(0));
    dm.add_peer_at(peer(1), "/a".to_string(), 0);
    dm.add_peer_at(peer(2), "/b".to_string(), 0);
    // never attempted: success rate 0, not worth dialling
    assert!(dm.get_peers_to_connect_at(1).is_empty());
    // one success, then disconnected peers only are dialled
    dm.record_connection_success_at(&peer(1), 1);
    assert!(dm.get_peers_to_connect_at(2).is_empty());
    let mut p = PeerData::new_at(peer(3), "/c".to_string(), 0);
    p.record_connection_attempt(true);
    assert!(p.should_connect_at(HOUR - 1));
    assert!(!p.should_connect_at(HOUR));
}

#[test]
fn cleanup_forgets_old_unconnected_peers() {
    let week = 7 * 24 * HOUR;
    let mut dm = DiscoveryManager::new(peer(0));
    dm.add_peer_at(peer(1), "/a".to_string(), 0);
    dm.add_peer_at(peer(2), "/b".to_string(), 0);
    dm.record_connection_success_at(&peer(2), 1);
    dm.add_peer_at(peer(3), "/c".to_string(), week);
    dm.update_peer_reputation(&peer(1), -600);
    assert!(dm.is_peer_banned(&peer(1)));
    dm.cleanup_stale_peers_at(week);
    assert!(dm.get_peer_stats(&peer(1)).is_none());
    assert!(!dm.is_peer_banned(&peer(1)));
    assert!(dm.get_peer_stats(&peer(2)).is_some());
    assert!(dm.get_peer_stats(&peer(3)).is_some());
}
