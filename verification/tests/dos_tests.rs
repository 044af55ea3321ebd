use cytah_core::dos_protection::{DosError, DosProtection, DosProtectionConfig, IpKey};

const SEC: u64 = 1_000_000_000;

fn localhost() -> IpKey {
    (4, 0x7f00_0001)
}

fn config_with(max_connections: u32, max_requests: u32) -> DosProtectionConfig {
    DosProtectionConfig {
        max_connections_per_ip: max_connections,
        max_requests_per_second: max_requests,
        ..Default::default()
    }
}

#[test]
fn test_connection_limits() {
    let mut dos = DosProtection::new(config_with(2, 100));
    let ip = localhost();
    assert!(dos.check_connection_allowed(ip).is_ok());
    assert!(dos.check_connection_allowed(ip).is_ok());
    assert!(matches!(dos.check_connection_allowed(ip), Err(DosError::ConnectionLimitExceeded)));
}

#[test]
fn test_request_rate_limiting() {
    let mut dos = DosProtection::new(config_with(10, 2));
    let ip = localhost();
    assert!(dos.check_request_allowed(ip).is_ok());
    assert!(dos.check_request_allowed(ip).is_ok());
    assert!(matches!(dos.check_request_allowed(ip), Err(DosError::RateLimitExceeded)));
}

#[test]
fn default_config_values() {
    let c = DosProtectionConfig::default();
    assert_eq!(c.max_connections_per_ip, 10);
    assert_eq!(c.max_requests_per_second, 100);
    assert_eq!(c.max_bandwidth_per_second, 10 * 1024 * 1024);
    assert_eq!(c.ban_duration_seconds, 3600);
    assert_eq!(c.cleanup_interval_seconds, 300);
    assert_eq!(c.max_tracked_ips, 10000);
}

#[test]
fn third_violation_bans() {
    let mut dos = DosProtection::new(config_with(1, 100));
    let ip = localhost();
    assert!(dos.check_connection_allowed_at(ip, 10).is_ok());
    for t in 11..13 {
        assert!(matches!(dos.check_connection_allowed_at(ip, t), Err(DosError::ConnectionLimitExceeded)));
        assert!(!dos.is_banned_at(ip, t));
    }
    assert!(matches!(dos.check_connection_allowed_at(ip, 13), Err(DosError::ConnectionLimitExceeded)));
    assert!(dos.is_banned_at(ip, 13));
    let stats = dos.get_stats();
    assert_eq!(stats.total_violations, 3);
    assert_eq!(stats.bans_issued, 1);
}

#[test]
fn banned_address_is_refused_with_remaining_time() {
    let mut dos = DosProtection::new(config_with(1, 100));
    let ip = localhost();
    for t in 0..4 {
        let _ = dos.check_connection_allowed_at(ip, t);
    }
    // banned at t = 3 ns for 3600 s
    let r = dos.check_connection_allowed_at(ip, 3 + SEC + SEC / 2);
    assert_eq!(r, Err(DosError::Banned { remaining_seconds: 3598 }));
    let r = dos.check_request_allowed_at(ip, 3 + SEC + SEC / 2);
    assert_eq!(r, Err(DosError::Banned { remaining_seconds: 3598 }));
    let stats = dos.get_stats();
    assert_eq!(stats.blocked_connections, 1);
    assert_eq!(stats.blocked_requests, 1);
}

#[test]
fn lapsed_ban_is_cleared_on_connection() {
    let mut dos = DosProtection::new(config_with(1, 100));
    let ip = localhost();
    for t in 0..4 {
        let _ = dos.check_connection_allowed_at(ip, t);
    }
    let later = 3 + 3600 * SEC;
    assert!(!dos.is_banned_at(ip, later));
    // the ban has lapsed; the connection limit still applies, and the
    // violation count starts over
    assert_eq!(dos.check_connection_allowed_at(ip, later), Err(DosError::ConnectionLimitExceeded));
    assert!(!dos.is_banned_at(ip, later));
}

#[test]
fn unban_lifts_the_ban() {
    let mut dos = DosProtection::new(config_with(1, 100));
    let ip = localhost();
    for t in 0..4 {
        let _ = dos.check_connection_allowed_at(ip, t);
    }
    assert!(dos.is_banned_at(ip, 5));
    dos.unban_ip(ip);
    assert!(!dos.is_banned_at(ip, 5));
    assert!(!dos.is_banned(ip));
}

#[test]
fn released_connection_frees_a_slot() {
    let mut dos = DosProtection::new(config_with(1, 100));
    let ip = localhost();
    assert!(dos.check_connection_allowed_at(ip, 0).is_ok());
    dos.remove_connection(ip);
    assert!(dos.check_connection_allowed_at(ip, 1).is_ok());
}

#[test]
fn request_window_is_one_second() {
    let mut dos = DosProtection::new(config_with(10, 2));
    let ip = localhost();
    assert!(dos.check_request_allowed_at(ip, 0).is_ok());
    assert!(dos.check_request_allowed_at(ip, SEC / 2).is_ok());
    assert_eq!(dos.check_request_allowed_at(ip, SEC - 1), Err(DosError::RateLimitExceeded));
    // the first request is now a second old
    assert!(dos.check_request_allowed_at(ip, SEC).is_ok());
}

#[test]
fn bandwidth_over_limit_is_a_violation() {
    let config = DosProtectionConfig { max_bandwidth_per_second: 100, ..Default::default() };
    let mut dos = DosProtection::new(config);
    let ip = localhost();
    dos.record_bandwidth_at(ip, 40, 40, 0);
    assert_eq!(dos.get_stats().total_violations, 0);
    dos.record_bandwidth_at(ip, 10, 11, 1);
    assert_eq!(dos.get_stats().total_violations, 1);
}

#[test]
fn cleanup_drops_stale_and_oldest() {
    let config = DosProtectionConfig { cleanup_interval_seconds: 10, max_tracked_ips: 2, ..Default::default() };
    let mut dos = DosProtection::new(config);
    let a: IpKey = (4, 1);
    let b: IpKey = (4, 2);
    let c: IpKey = (4, 3);
    let d: IpKey = (6, 4);
    assert!(dos.check_connection_allowed_at(a, 0).is_ok());
    assert!(dos.check_connection_allowed_at(b, 5 * SEC).is_ok());
    assert!(dos.check_connection_allowed_at(c, 6 * SEC).is_ok());
    assert!(dos.check_connection_allowed_at(d, 7 * SEC).is_ok());
    // at 21 s, `a` has been idle for more than 20 s and is dropped; of the
    // three left, the least recently active (`b`) is dropped too
    dos.cleanup_at(21 * SEC);
    assert_eq!(dos.get_stats().tracked_ips, 2);
}

#[test]
fn cleanup_keeps_everything_under_the_limit() {
    let mut dos = DosProtection::new(DosProtectionConfig::default());
    assert!(dos.check_connection_allowed_at((4, 1), 0).is_ok());
    assert!(dos.check_connection_allowed_at((4, 2), 0).is_ok());
    dos.cleanup_at(SEC);
    assert_eq!(dos.get_stats().tracked_ips, 2);
}
