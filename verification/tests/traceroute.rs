use aplomado_core::traceroute::{probe_port, probe_reply_matches, record_hop, MAX_HOPS};
use aplomado_core::types::{Hop, IpAddress};

#[test]
fn probe_ports() {
    assert_eq!(probe_port(1), 33434);
    assert_eq!(probe_port(MAX_HOPS), 33448);
}

#[test]
fn replies_are_matched_by_both_ports() {
    let mut msg = vec![0u8; 32];
    msg[0] = 11;
    msg[28..30].copy_from_slice(&7u16.to_be_bytes());
    msg[30..32].copy_from_slice(&33434u16.to_be_bytes());
    assert!(probe_reply_matches(&msg, 7, 33434));
    assert!(!probe_reply_matches(&msg, 8, 33434));
    assert!(!probe_reply_matches(&msg, 7, 33435));
    msg[0] = 3;
    assert!(probe_reply_matches(&msg, 7, 33434));
    msg[0] = 0;
    assert!(!probe_reply_matches(&msg, 7, 33434));
    assert!(!probe_reply_matches(&msg[..31], 7, 33434));
}

#[test]
fn hops_are_recorded() {
    let target = IpAddress::V4([10, 0, 0, 9]);
    let r1 = IpAddress::V4([10, 0, 0, 1]);
    let mut hops: Vec<Hop> = Vec::new();
    assert!(!record_hop(&mut hops, 1, Some((r1, 500)), &target));
    assert!(!record_hop(&mut hops, 2, None, &target));
    assert!(!record_hop(&mut hops, 3, Some((r1, 700)), &target));
    assert!(record_hop(&mut hops, 4, Some((target, 900)), &target));
    assert_eq!(
        hops,
        vec![
            Hop { hop: 1, ip: r1, rtt_us: Some(500) },
            Hop { hop: 2, ip: IpAddress::V4([0, 0, 0, 0]), rtt_us: None },
            Hop { hop: 4, ip: target, rtt_us: Some(900) },
        ]
    );
}

#[test]
fn test_hop_display() {
    let hop = Hop { hop: 1, ip: IpAddress::V4([10, 2, 2, 1]), rtt_us: Some(500) };
    assert_eq!(hop.to_text(), "1. 10.2.2.1 (0ms)");
    let slow = Hop { hop: 12, ip: IpAddress::V4([10, 0, 0, 9]), rtt_us: Some(2999) };
    assert_eq!(slow.to_text(), "12. 10.0.0.9 (2ms)");
    let silent = Hop { hop: 3, ip: IpAddress::V6([0x2001, 0xdb8, 0, 0, 0, 0, 0, 1]), rtt_us: None };
    assert_eq!(silent.to_text(), "3. 2001:db8::1");
}

#[test]
fn test_hop_sort() {
    let mut hops = [
        Hop { hop: 3, ip: IpAddress::V4([10, 2, 0, 7]), rtt_us: None },
        Hop { hop: 1, ip: IpAddress::V4([10, 2, 2, 1]), rtt_us: None },
        Hop { hop: 2, ip: IpAddress::V4([10, 2, 0, 1]), rtt_us: None },
    ];
    hops.sort_by_key(|a| a.hop);
    assert_eq!(hops[0].hop, 1);
    assert_eq!(hops[2].hop, 3);
}
