use catris::ip_tracker::IpTracker;
use catris::ip_tracker::NANOS_PER_MINUTE;

#[test]
fn test_ip_tracker_limits_clients_per_ip() {
    let mut tracker = IpTracker::new();
    for i in 0..5u64 {
        assert_eq!(tracker.track(42, i), ((i + 1) as usize, true));
    }
    assert_eq!(tracker.client_counts_by_ip.get(&42), Some(&5));
    // the sixth client of the same address is refused, but the connection is remembered
    assert_eq!(tracker.track(42, 10), (6, false));
    assert_eq!(tracker.client_counts_by_ip.get(&42), Some(&5));
    // another address is fine
    assert_eq!(tracker.track(7, 11), (1, true));

    tracker.forget_client(42);
    assert_eq!(tracker.client_counts_by_ip.get(&42), Some(&4));
    assert_eq!(tracker.track(42, 12), (7, true));

    tracker.forget_client(7);
    assert_eq!(tracker.client_counts_by_ip.get(&7), None);
}

#[test]
fn test_ip_tracker_forgets_old_connections() {
    let mut tracker = IpTracker::new();
    assert_eq!(tracker.track(1, 0), (1, true));
    assert_eq!(tracker.track(1, NANOS_PER_MINUTE), (2, true));
    // more than a minute after the first one: it is forgotten
    assert_eq!(tracker.track(1, NANOS_PER_MINUTE + 1), (2, true));
    assert_eq!(tracker.recent_ips.len(), 2);
}
