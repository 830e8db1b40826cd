use aplomado_core::targets::{expand_cidr, expand_range, plan_scan_target, plan_target, TargetPlan, TargetResolveError};
use aplomado_core::types::{IpAddress, ScanTarget};

#[test]
fn test_cidr_24() {
    let ips = expand_cidr("10.2.2.0/24").unwrap();
    assert_eq!(ips.len(), 254);
    assert_eq!(ips[0].to_text(), "10.2.2.1");
    assert_eq!(ips[253].to_text(), "10.2.2.254");
}

#[test]
fn test_cidr_32() {
    let ips = expand_cidr("10.0.0.1/32").unwrap();
    assert_eq!(ips.len(), 1);
    assert_eq!(ips[0].to_text(), "10.0.0.1");
}

#[test]
fn test_cidr_31() {
    let ips = expand_cidr("10.0.0.0/31").unwrap();
    assert_eq!(ips.len(), 2);
    assert_eq!(ips[0].to_text(), "10.0.0.0");
    assert_eq!(ips[1].to_text(), "10.0.0.1");
}

#[test]
fn test_range() {
    let ips = expand_range("10.0.0.1", "10.0.0.5").unwrap();
    assert_eq!(ips.len(), 5);
    assert_eq!(ips[0].to_text(), "10.0.0.1");
    assert_eq!(ips[4].to_text(), "10.0.0.5");
}

#[test]
fn test_cidr_0_returns_err() {
    let result = expand_cidr("10.0.0.0/0");
    assert!(result.is_err());
    assert!(matches!(result, Err(TargetResolveError::RangeTooLarge { .. })));
}

#[test]
fn test_cidr_1_returns_err() {
    assert!(expand_cidr("10.0.0.0/1").is_err());
}

#[test]
fn test_cidr_8_returns_err() {
    assert!(expand_cidr("10.0.0.0/8").is_err());
}

#[test]
fn test_cidr_16_returns_ok() {
    let ips = expand_cidr("10.0.0.0/16").unwrap();
    assert_eq!(ips.len(), 65534);
    assert_eq!(ips[0].to_text(), "10.0.0.1");
    assert_eq!(ips[65533].to_text(), "10.0.255.254");
}

#[test]
fn test_cidr_17_returns_ok() {
    assert_eq!(expand_cidr("10.0.0.0/17").unwrap().len(), 32766);
}

#[test]
fn test_cidr_invalid_prefix() {
    assert!(matches!(expand_cidr("10.0.0.0/33"), Err(TargetResolveError::InvalidPrefix(33))));
}

#[test]
fn test_cidr_invalid_ip() {
    assert!(matches!(expand_cidr("999.999.999.999/24"), Err(TargetResolveError::InvalidCidr(_))));
}

#[test]
fn test_cidr_no_slash() {
    assert!(matches!(expand_cidr("10.0.0.1"), Err(TargetResolveError::InvalidCidr(_))));
}

#[test]
fn test_negative_range_returns_err() {
    assert!(matches!(expand_range("10.0.0.10", "10.0.0.1"), Err(TargetResolveError::InvalidRange { .. })));
}

#[test]
fn test_invalid_range_start() {
    assert!(matches!(expand_range("not-an-ip", "10.0.0.1"), Err(TargetResolveError::InvalidTarget(_))));
}

#[test]
fn test_empty_target_str() {
    assert!(matches!(plan_target(""), Err(TargetResolveError::InvalidTarget(_))));
    assert_eq!(plan_target("  \t"), Err(TargetResolveError::InvalidTarget("empty string".into())));
}

#[test]
fn cidr_error_values() {
    assert_eq!(
        expand_cidr("10.0.0.0/8"),
        Err(TargetResolveError::RangeTooLarge { max: 65536, requested: 65536 })
    );
    assert_eq!(
        expand_cidr("10.0.0.0/15"),
        Err(TargetResolveError::RangeTooLarge { max: 65536, requested: 65536 })
    );
    assert_eq!(expand_cidr("10.0.0.0/x"), Err(TargetResolveError::InvalidCidr("10.0.0.0/x".into())));
    assert_eq!(expand_cidr("10.0.0.01/24"), Err(TargetResolveError::InvalidCidr("10.0.0.01/24".into())));
    let ips = expand_cidr("10.0.0.77/30").unwrap();
    assert_eq!(ips.iter().map(|i| i.to_text()).collect::<Vec<_>>(), vec!["10.0.0.77", "10.0.0.78"]);
}

#[test]
fn range_error_values() {
    assert_eq!(
        expand_range("10.0.0.1", "bad"),
        Err(TargetResolveError::InvalidTarget("invalid end IP: bad".into()))
    );
    assert_eq!(
        expand_range("10.0.0.0", "10.1.0.0"),
        Err(TargetResolveError::RangeTooLarge { max: 65536, requested: 65537 })
    );
    assert_eq!(expand_range("10.0.0.255", "10.0.1.0").unwrap().len(), 2);
}

#[test]
fn target_plans() {
    assert_eq!(plan_target(" 192.168.0.7 "), Ok(TargetPlan::Addresses(vec![IpAddress::V4([192, 168, 0, 7])])));
    assert_eq!(plan_target("example.org"), Ok(TargetPlan::Lookup("example.org".into())));
    assert_eq!(plan_target("::1"), Ok(TargetPlan::Lookup("::1".into())));
    match plan_target("10.0.0.0/30") {
        Ok(TargetPlan::Addresses(v)) => assert_eq!(v.len(), 2),
        other => panic!("unexpected {other:?}"),
    }
    assert_eq!(plan_target("10.0.0.0/40"), Err(TargetResolveError::InvalidPrefix(40)));
}

#[test]
fn scan_target_plans() {
    let ip = IpAddress::V4([10, 1, 1, 1]);
    assert_eq!(plan_scan_target(&ScanTarget::Ip(ip)), Ok(TargetPlan::Addresses(vec![ip])));
    assert_eq!(plan_scan_target(&ScanTarget::Hostname("h".into())), Ok(TargetPlan::Lookup("h".into())));
    match plan_scan_target(&ScanTarget::Range(IpAddress::V4([10, 0, 0, 1]), IpAddress::V4([10, 0, 0, 3]))) {
        Ok(TargetPlan::Addresses(v)) => assert_eq!(v, vec![
            IpAddress::V4([10, 0, 0, 1]),
            IpAddress::V4([10, 0, 0, 2]),
            IpAddress::V4([10, 0, 0, 3])
        ]),
        other => panic!("unexpected {other:?}"),
    }
    assert!(matches!(plan_scan_target(&ScanTarget::Cidr("nope".into())), Err(TargetResolveError::InvalidCidr(_))));
}

#[test]
fn address_text() {
    assert_eq!(IpAddress::V4([1, 2, 3, 4]).to_text(), "1.2.3.4");
    assert_eq!(IpAddress::V6([0, 0, 0, 0, 0, 0, 0, 1]).to_text(), "::1");
    assert_eq!(IpAddress::V6([0x2001, 0xdb8, 0, 0, 1, 0, 0, 1]).to_text(), "2001:db8::1:0:0:1");
}

#[test]
fn cidr_hosts_stay_in_block_without_network_and_broadcast() {
    let ips = expand_cidr("10.0.0.37/29").unwrap();
    let expected: Vec<IpAddress> = (33u8..=38).map(|d| IpAddress::V4([10, 0, 0, d])).collect();
    assert_eq!(ips, expected);
    assert!(!ips.contains(&IpAddress::V4([10, 0, 0, 32])));
    assert!(!ips.contains(&IpAddress::V4([10, 0, 0, 39])));
    let wide = expand_cidr("172.16.200.1/16").unwrap();
    assert_eq!(wide.len(), 65534);
    assert_eq!(wide[0], IpAddress::V4([172, 16, 0, 1]));
    assert_eq!(wide[65533], IpAddress::V4([172, 16, 255, 254]));
}

#[test]
fn address_text_plans_back_to_the_address() {
    for o in [[0u8, 0, 0, 0], [10, 2, 2, 1], [255, 255, 255, 255], [192, 168, 100, 7]] {
        let ip = IpAddress::V4(o);
        assert_eq!(plan_target(&ip.to_text()), Ok(TargetPlan::Addresses(vec![ip])));
    }
}
