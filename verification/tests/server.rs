use aplomado_core::scanner::ScanPolicy;
use aplomado_core::server::{admit_addresses, auth_ok, finish_admission, limit_note, target_note, validate_ports};
use aplomado_core::targets::{expand_cidr, TargetResolveError};
use aplomado_core::types::IpAddress;

#[test]
fn api_keys() {
    assert!(auth_ok("", "anything"));
    assert!(auth_ok("s3cret", "Bearer s3cret"));
    assert!(auth_ok("s3cret", "s3cret"));
    assert!(!auth_ok("s3cret", "Bearer other"));
    assert!(!auth_ok("s3cret", ""));
}

#[test]
fn ports_are_checked_sorted_and_deduplicated() {
    assert_eq!(validate_ports(&[443, 22, 80, 22, 443]), Ok(vec![22, 80, 443]));
    assert_eq!(validate_ports(&[]), Err("At least one port is required".to_string()));
    assert_eq!(validate_ports(&[80, 0]), Err("Invalid port 0 (0 is reserved)".to_string()));
    assert_eq!(validate_ports(&[65535, 1]), Ok(vec![1, 65535]));
}

#[test]
fn addresses_are_filtered_and_deduplicated() {
    let policy = ScanPolicy::default();
    let mut ips = vec![IpAddress::V4([10, 0, 0, 1])];
    let resolved = vec![
        IpAddress::V4([10, 0, 0, 1]),
        IpAddress::V4([127, 0, 0, 1]),
        IpAddress::V4([10, 0, 0, 2]),
        IpAddress::V4([10, 0, 0, 2]),
        IpAddress::V6([0, 0, 0, 0, 0, 0, 0, 1]),
    ];
    admit_addresses(&policy, &mut ips, &resolved);
    assert_eq!(ips, vec![IpAddress::V4([10, 0, 0, 1]), IpAddress::V4([10, 0, 0, 2])]);
}

#[test]
fn limits_and_notes() {
    let policy = ScanPolicy { max_ips: 2, ..Default::default() };
    assert_eq!(limit_note(&policy, 1), None);
    assert_eq!(limit_note(&policy, 2), Some("Target IP limit reached (2), truncating".to_string()));
    let e = expand_cidr("10.0.0.0/8").unwrap_err();
    assert_eq!(target_note("10.0.0.0/8", &e), "10.0.0.0/8: CIDR range too large (max 65536 hosts, requested 65536)");
    assert_eq!(
        TargetResolveError::InvalidRange { start: "b".into(), end: "a".into() }.message(),
        "Invalid IP range: end a < start b"
    );
    assert_eq!(TargetResolveError::InvalidPrefix(40).message(), "Invalid prefix length 40 in CIDR");
}

#[test]
fn finishing_the_admission() {
    let policy = ScanPolicy { max_ips: 2, ..Default::default() };
    let three = vec![IpAddress::V4([10, 0, 0, 1]), IpAddress::V4([10, 0, 0, 2]), IpAddress::V4([10, 0, 0, 3])];
    assert_eq!(finish_admission(&policy, three, &vec![]).unwrap().len(), 2);
    assert_eq!(finish_admission(&policy, vec![], &vec![]), Err("No targets resolved".to_string()));
    assert_eq!(
        finish_admission(&policy, vec![], &vec!["a: x".to_string(), "b: y".to_string()]),
        Err("No targets resolved: a: x; b: y".to_string())
    );
}
