use aplomado_core::scanner::{
    aggregate_reachability, common_ports, host_alive, known_service, HostReachability, test_config, AdaptiveTimeouts, Duration, ScanConfig, ScanPolicy,
    TcpConnectStrategy,
};
use aplomado_core::types::IpAddress;

// ---- adaptive timeouts ----

#[test]
fn empty_rtt_returns_initial() {
    let at = AdaptiveTimeouts::new();
    assert_eq!(at.current_connect_timeout(), Duration::from_secs(3));
}

#[test]
fn single_sample_doubles() {
    let mut at = AdaptiveTimeouts::new();
    at.record_rtt(Duration::from_millis(500));
    assert_eq!(at.current_connect_timeout(), Duration::from_millis(1000));
}

#[test]
fn outlier_rejected() {
    let mut at = AdaptiveTimeouts::new();
    at.record_rtt(Duration::from_millis(100));
    at.record_rtt(Duration::from_millis(200));
    at.record_rtt(Duration::from_millis(150));
    at.record_rtt(Duration::from_secs(5));
    assert_eq!(at.rtt_samples().len(), 3);
}

#[test]
fn cap_at_connect_timeout_max() {
    let mut at = AdaptiveTimeouts::new();
    for _ in 0..10 {
        at.record_rtt(Duration::from_secs(6));
    }
    assert_eq!(at.current_connect_timeout(), Duration::from_secs(10));
}

#[test]
fn record_rtt_maintains_window() {
    let mut at = AdaptiveTimeouts::new();
    for _ in 0..15 {
        at.record_rtt(Duration::from_millis(100));
    }
    assert_eq!(at.rtt_samples().len(), 10);
    assert_eq!(at.rtt_samples()[0], Duration::from_millis(100));
    assert_eq!(at.rtt_samples()[9], Duration::from_millis(100));
}

#[test]
fn outlier_greater_than_10s_rejected() {
    let mut at = AdaptiveTimeouts::new();
    at.record_rtt(Duration::from_secs(15));
    assert!(at.rtt_samples().is_empty());
}

#[test]
fn rtt_does_not_go_below_minimum() {
    let mut at = AdaptiveTimeouts::new();
    at.record_rtt(Duration::from_millis(10));
    assert_eq!(at.current_connect_timeout(), Duration::from_millis(500));
}

#[test]
fn window_drops_the_oldest_sample() {
    let mut at = AdaptiveTimeouts::new();
    at.record_rtt(Duration::from_millis(300));
    for _ in 0..10 {
        at.record_rtt(Duration::from_millis(100));
    }
    assert_eq!(at.rtt_samples().len(), 10);
    assert!(at.rtt_samples().iter().all(|d| *d == Duration::from_millis(100)));
    // 2 * 100 ms is under the floor
    assert_eq!(at.current_connect_timeout(), Duration::from_millis(500));
}

#[test]
fn timeout_is_twice_the_largest_sample() {
    let mut at = AdaptiveTimeouts::new();
    at.record_rtt(Duration::from_millis(400));
    at.record_rtt(Duration::from_millis(900));
    at.record_rtt(Duration::from_millis(700));
    assert_eq!(at.current_connect_timeout(), Duration::from_millis(1800));
}

#[test]
fn ping_timeout_and_default() {
    let a = AdaptiveTimeouts::new();
    let b = AdaptiveTimeouts::default();
    assert_eq!(a.ping_timeout(), b.ping_timeout());
    assert_eq!(a.current_connect_timeout(), b.current_connect_timeout());
}

#[test]
fn duration_units() {
    assert_eq!(Duration::from_secs(2), Duration::from_millis(2000));
    assert_eq!(Duration::from_millis(1500).as_millis(), 1500);
    assert_eq!(Duration::zero().nanos, 0);
}

// ---- configuration ----

#[test]
fn defaults_are_reasonable() {
    let cfg = ScanConfig::default();
    assert_eq!(cfg.max_concurrent_hosts, 10);
    assert_eq!(cfg.max_concurrent_ports, 100);
    assert_eq!(cfg.connect_timeout, Duration::from_secs(3));
    assert!(cfg.adaptive_timeouts);
    assert!(!cfg.fast_mode);
    assert_eq!(cfg.max_scan_duration, Duration::from_secs(1800));
    assert_eq!(cfg.probe_chain_timeout, Duration::from_secs(5));
    assert_eq!(cfg.probe_chain_max_total, Duration::from_secs(30));
}

#[test]
fn fast_mode_halves_timeouts() {
    let cfg = ScanConfig::fast();
    assert!(cfg.fast_mode);
    assert_eq!(cfg.connect_timeout, Duration::from_millis(1500));
    assert_eq!(cfg.probe_chain_timeout, Duration::from_secs(2));
}

#[test]
fn fast_ports_reduced() {
    let cfg = ScanConfig::fast();
    assert_eq!(cfg.max_concurrent_ports, 50);
}

#[test]
fn clone_roundtrip() {
    let a = ScanConfig::fast();
    let b = a.clone();
    assert_eq!(a, b);
}

#[test]
fn partial_eq_works() {
    let a = ScanConfig::default();
    let b = ScanConfig::default();
    let c = ScanConfig::fast();
    assert_eq!(a, b);
    assert_ne!(a, c);
}

#[test]
fn test_config_has_fast_timeouts() {
    let cfg = test_config();
    assert_eq!(cfg.max_concurrent_hosts, 1);
    assert_eq!(cfg.connect_timeout, Duration::from_secs(2));
    assert!(!cfg.adaptive_timeouts);
}

#[test]
fn tcp_connect_strategy_name() {
    let s = TcpConnectStrategy::new(&ScanConfig::default());
    assert_eq!(s.name(), "tcp_connect");
}

// ---- ports ----

#[test]
fn known_port_names() {
    assert_eq!(known_service(22), "ssh");
    assert_eq!(known_service(80), "http");
    assert_eq!(known_service(443), "https");
    assert_eq!(known_service(3389), "rdp");
    assert_eq!(known_service(1), "unknown");
}

#[test]
fn common_ports_have_known_services() {
    let ports = common_ports();
    assert!(!ports.is_empty());
    assert!(ports.contains(&22));
    assert!(ports.contains(&80));
}

// ---- policy ----

#[test]
fn default_policy_blocks_loopback_v4() {
    let policy = ScanPolicy::default();
    assert!(!policy.is_allowed(IpAddress::V4([127, 0, 0, 1])));
}

#[test]
fn default_policy_blocks_loopback_v6() {
    let policy = ScanPolicy::default();
    assert!(!policy.is_allowed(IpAddress::V6([0, 0, 0, 0, 0, 0, 0, 1])));
}

#[test]
fn default_policy_blocks_multicast() {
    let policy = ScanPolicy::default();
    assert!(!policy.is_allowed(IpAddress::V4([224, 0, 0, 1])));
}

#[test]
fn default_policy_blocks_broadcast() {
    let policy = ScanPolicy::default();
    assert!(!policy.is_allowed(IpAddress::V4([255, 255, 255, 255])));
}

#[test]
fn default_policy_allows_private() {
    let policy = ScanPolicy::default();
    assert!(policy.is_allowed(IpAddress::V4([10, 0, 0, 1])));
    assert!(policy.is_allowed(IpAddress::V4([172, 16, 0, 1])));
    assert!(policy.is_allowed(IpAddress::V4([192, 168, 0, 1])));
}

#[test]
fn default_policy_blocks_unspecified() {
    let policy = ScanPolicy::default();
    assert!(!policy.is_allowed(IpAddress::V4([0, 0, 0, 0])));
}

#[test]
fn allow_loopback_when_enabled() {
    let policy = ScanPolicy { allow_loopback: true, ..Default::default() };
    assert!(policy.is_allowed(IpAddress::V4([127, 0, 0, 1])));
}

#[test]
fn filter_removes_blocked() {
    let policy = ScanPolicy::default();
    let ips = vec![
        IpAddress::V4([127, 0, 0, 1]),
        IpAddress::V4([10, 0, 0, 1]),
        IpAddress::V4([192, 168, 1, 1]),
        IpAddress::V4([224, 0, 0, 1]),
    ];
    let allowed = policy.filter(ips);
    assert_eq!(allowed.len(), 2);
    assert_eq!(allowed[0].to_text(), "10.0.0.1");
    assert_eq!(allowed[1].to_text(), "192.168.1.1");
}

#[test]
fn policy_blocks_link_local_documentation_and_zero_network() {
    let policy = ScanPolicy::default();
    assert!(!policy.is_allowed(IpAddress::V4([169, 254, 1, 1])));
    assert!(!policy.is_allowed(IpAddress::V4([192, 0, 2, 5])));
    assert!(!policy.is_allowed(IpAddress::V4([0, 1, 2, 3])));
    assert!(!policy.is_allowed(IpAddress::V6([0xfe80, 0, 0, 0, 0, 0, 0, 1])));
    assert!(!policy.is_allowed(IpAddress::V6([0xff02, 0, 0, 0, 0, 0, 0, 1])));
    assert!(!policy.is_allowed(IpAddress::V6([0, 0, 0, 0, 0, 0, 0, 0])));
    assert!(policy.is_allowed(IpAddress::V6([0x2001, 0x4860, 0, 0, 0, 0, 0, 0x8888])));
    assert!(policy.is_allowed(IpAddress::V4([8, 8, 8, 8])));
}

#[test]
fn private_blocked_when_disabled() {
    let policy = ScanPolicy { allow_private: false, ..Default::default() };
    assert!(!policy.is_allowed(IpAddress::V4([10, 0, 0, 1])));
    assert!(!policy.is_allowed(IpAddress::V4([172, 31, 255, 255])));
    assert!(policy.is_allowed(IpAddress::V4([172, 32, 0, 1])));
}

#[test]
fn reachability_of_a_host() {
    let (alive, closed, none) = (HostReachability::Alive, HostReachability::PortClosed, HostReachability::NoResponse);
    assert_eq!(aggregate_reachability(&[none, closed, alive]), alive);
    assert_eq!(aggregate_reachability(&[none, closed]), closed);
    assert_eq!(aggregate_reachability(&[none, none]), none);
    assert_eq!(aggregate_reachability(&[]), none);
    assert!(host_alive(closed, 0));
    assert!(host_alive(none, 2));
    assert!(!host_alive(none, 0));
}

#[test]
fn filtering_twice_keeps_what_filtering_once_kept() {
    let policy = ScanPolicy::default();
    let ips = vec![
        IpAddress::V4([10, 0, 0, 1]),
        IpAddress::V4([0, 1, 2, 3]),
        IpAddress::V4([169, 254, 1, 1]),
        IpAddress::V4([8, 8, 8, 8]),
        IpAddress::V4([203, 0, 113, 9]),
        IpAddress::V6([0xfe80, 0, 0, 0, 0, 0, 0, 1]),
        IpAddress::V6([0x2001, 0xdb8, 0, 0, 0, 0, 0, 1]),
    ];
    let once = policy.filter(ips);
    assert_eq!(once, vec![IpAddress::V4([10, 0, 0, 1]), IpAddress::V4([8, 8, 8, 8]), IpAddress::V6([0x2001, 0xdb8, 0, 0, 0, 0, 0, 1])]);
    let twice = policy.filter(once.clone());
    assert_eq!(twice, once);
}
