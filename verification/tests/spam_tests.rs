use cytah_core::spam::{IpActivity, SpamReason, SpamStats, TransactionPattern};

const SEC: u64 = 1_000_000_000;

fn pattern(amount: u64, at: u64) -> TransactionPattern {
    TransactionPattern { hash: [amount as u8; 32], amount, gas_price: 1, payload_size: 48, timestamp: at }
}

#[test]
fn rate_limit_refuses_once_the_minute_is_full() {
    let mut a = IpActivity::new(0);
    let mut stats = SpamStats::default();
    assert_eq!(a.check_rate_and_burst(&mut stats, 0, 2, 1, 100), None);
    a.record(pattern(1, 0), 0);
    assert_eq!(a.check_rate_and_burst(&mut stats, SEC, 2, 1, 100), None);
    a.record(pattern(2, SEC), SEC);
    assert_eq!(a.check_rate_and_burst(&mut stats, 2 * SEC, 2, 1, 100), Some(SpamReason::RateLimitExceeded));
    assert_eq!(stats.rate_limit_blocks, 1);
    assert_eq!(stats.burst_detections, 0);
    // a minute after the first transaction only the second one counts
    assert_eq!(a.check_rate_and_burst(&mut stats, 60 * SEC, 2, 1, 100), None);
    assert_eq!(a.transactions, vec![SEC]);
    assert_eq!(stats.rate_limit_blocks, 1);
}

#[test]
fn burst_blocks_after_the_fourth_detection() {
    let mut a = IpActivity::new(0);
    let mut stats = SpamStats::default();
    a.record(pattern(1, 0), 0);
    for i in 1..4u64 {
        assert_eq!(a.check_rate_and_burst(&mut stats, i * SEC, 100, 10, 1), None);
        assert_eq!(a.burst_score, i);
    }
    assert_eq!(a.check_rate_and_burst(&mut stats, 4 * SEC, 100, 10, 1), Some(SpamReason::BurstDetected));
    assert_eq!(a.burst_score, 4);
    assert_eq!(stats.burst_detections, 4);
    // outside the burst window nothing is detected
    assert_eq!(a.check_rate_and_burst(&mut stats, 20 * SEC, 100, 10, 1), None);
    assert_eq!(a.burst_score, 4);
}

#[test]
fn only_the_last_hundred_patterns_are_kept() {
    let mut a = IpActivity::new(0);
    for i in 0..101u64 {
        a.record(pattern(i, i), i);
    }
    assert_eq!(a.patterns.len(), 100);
    assert_eq!(a.patterns[0].amount, 1);
    assert_eq!(a.patterns[99].amount, 100);
    assert_eq!(a.transactions.len(), 101);
    assert_eq!(a.last_activity, 100);
}
