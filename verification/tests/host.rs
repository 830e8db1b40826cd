use aplomado_core::cve::{CveDatabase, CveEntry, CveSeverity, VersionRange};
use aplomado_core::host::finish_host;
use aplomado_core::scanner::HostReachability;
use aplomado_core::types::{IpAddress, PortInfo, PortState, TransportProto};

fn port(n: u16, svc: &str, banner: Option<&str>) -> PortInfo {
    PortInfo {
        port: n,
        protocol: TransportProto::Tcp,
        state: PortState::Open,
        service_name: svc.into(),
        service_version: None,
        banner: banner.map(|b| b.to_string()),
        cpe: None,
        cves: vec![],
    }
}

fn ssh_db() -> CveDatabase {
    CveDatabase {
        entries: vec![CveEntry {
            id: "CVE-2024-0001".into(),
            package_name: "ssh".into(),
            description: String::new(),
            cvss_score: 75,
            severity: CveSeverity::High,
            cpe_match: vec![],
            affected_versions: vec![VersionRange { start: "8.0".into(), end: "9.0".into(), start_including: true, end_including: true }],
            fixed_version: None,
            advisory_url: None,
        }],
        updated: String::new(),
        total_count: 1,
    }
}

#[test]
fn silent_host_without_ports_is_dead_and_not_traced() {
    let (h, trace) = finish_host(IpAddress::V4([10, 0, 0, 9]), HostReachability::NoResponse, vec![], None);
    assert!(!trace);
    assert!(!h.alive);
    assert!(h.os_guess.is_none() && h.ports.is_empty() && h.route.is_empty());
}

#[test]
fn alive_host_gets_guess_and_cves_and_is_traced() {
    let db = ssh_db();
    let ports = vec![port(22, "ssh", Some("SSH-2.0-OpenSSH_8.9p1 Ubuntu-3ubuntu0.6")), port(80, "http", None)];
    let (h, trace) = finish_host(IpAddress::V4([10, 0, 0, 5]), HostReachability::NoResponse, ports, Some(&db));
    assert!(trace && h.alive);
    assert_eq!(h.ports.len(), 2);
    assert_eq!(h.ports[0].cves.len(), 1);
    assert_eq!(h.ports[0].cves[0].id, "CVE-2024-0001");
    assert!(h.ports[1].cves.is_empty());
    assert!(h.os_guess.unwrap().contains("Ubuntu"));
    let (h2, _) = finish_host(IpAddress::V4([10, 0, 0, 5]), HostReachability::Alive, vec![port(22, "ssh", Some("SSH-2.0-OpenSSH_8.9"))], None);
    assert!(h2.ports[0].cves.is_empty());
}
