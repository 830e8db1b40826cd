use aplomado_core::history::{
    cve_summary_from_stored, diff_scans, host_from_stored, port_from_stored, ChangeType, CveChange, ScanRecord, StoredCveSummary, StoredHostInfo, StoredPortInfo,
};

use aplomado_core::types::{IpAddress, PortState, TransportProto};

fn make_scan(id: &str, hosts: Vec<StoredHostInfo>) -> ScanRecord {
    let alive = hosts.iter().filter(|h| h.alive).count() as u32;
    let ports: u32 = hosts.iter().map(|h| h.ports.len() as u32).sum();
    ScanRecord {
        id: id.to_string(),
        label: format!("scan-{id}"),
        targets: vec![],
        timestamp: "2024-01-01T00:00:00Z".to_string(),
        duration_secs: 0,
        hosts_total: hosts.len() as u32,
        hosts_alive: alive,
        hosts_found: hosts.len() as u32,
        ports_total: ports,
        hosts,
    }
}

fn host(ip: &str, alive: bool, ports: Vec<StoredPortInfo>) -> StoredHostInfo {
    StoredHostInfo { ip: ip.to_string(), hostname: None, os_guess: None, alive, ports }
}

fn port(num: u16, service: &str, version: Option<&str>) -> StoredPortInfo {
    StoredPortInfo {
        port: num,
        service: service.to_string(),
        version: version.map(|s| s.to_string()),
        banner: None,
        cves: vec![],
    }
}

fn port_with_cves(num: u16, service: &str, version: Option<&str>, cves: Vec<StoredCveSummary>) -> StoredPortInfo {
    StoredPortInfo {
        port: num,
        service: service.to_string(),
        version: version.map(|s| s.to_string()),
        banner: None,
        cves,
    }
}

fn cve(id: &str) -> StoredCveSummary {
    StoredCveSummary {
        id: id.to_string(),
        severity: "UNKNOWN".to_string(),
        cvss_score: 0,
        fixed_version: None,
        advisory_url: None,
        confidence: String::new(),
        method: String::new(),
    }
}

#[test]
fn identical_scans_produce_empty_diff() {
    let hosts = vec![
        host("10.0.0.1", true, vec![port(80, "http", Some("1.1"))]),
        host("10.0.0.2", false, vec![]),
    ];
    let a = make_scan("s1", hosts.clone());
    let b = make_scan("s2", hosts);
    let d = diff_scans(&a, &b);

    assert_eq!(d.scan_a_id, "s1");
    assert_eq!(d.scan_b_id, "s2");
    assert!(d.hosts_added.is_empty());
    assert!(d.hosts_removed.is_empty());
    assert_eq!(d.hosts_unchanged, 2);
    assert!(d.port_changes.is_empty());
    assert!(d.cve_changes.is_empty());
    assert_eq!(d.alive_change, 0);
    assert_eq!(d.ports_total_change, 0);
}

#[test]
fn one_new_host_shows_in_hosts_added() {
    let a = make_scan("a", vec![host("10.0.0.1", true, vec![])]);
    let b = make_scan("b", vec![host("10.0.0.1", true, vec![]), host("10.0.0.2", true, vec![])]);
    let d = diff_scans(&a, &b);

    assert_eq!(d.hosts_added, vec!["10.0.0.2".to_string()]);
    assert!(d.hosts_removed.is_empty());
    assert_eq!(d.hosts_unchanged, 1);
}

#[test]
fn one_removed_host_shows_in_hosts_removed() {
    let a = make_scan("a", vec![host("10.0.0.1", true, vec![]), host("10.0.0.2", true, vec![])]);
    let b = make_scan("b", vec![host("10.0.0.1", true, vec![])]);
    let d = diff_scans(&a, &b);

    assert!(d.hosts_added.is_empty());
    assert_eq!(d.hosts_removed, vec!["10.0.0.2".to_string()]);
    assert_eq!(d.hosts_unchanged, 1);
}

#[test]
fn version_change_creates_version_changed() {
    let a = make_scan("a", vec![host("10.0.0.1", true, vec![port(80, "nginx", Some("1.18"))])]);
    let b = make_scan("b", vec![host("10.0.0.1", true, vec![port(80, "nginx", Some("1.20"))])]);
    let d = diff_scans(&a, &b);

    assert_eq!(d.port_changes.len(), 1);
    assert_eq!(d.port_changes[0].host_ip, "10.0.0.1");
    assert_eq!(d.port_changes[0].port, 80);
    assert_eq!(
        d.port_changes[0].change_type,
        ChangeType::VersionChanged(Some("1.18".into()), Some("1.20".into()))
    );
}

#[test]
fn service_change_creates_service_changed() {
    let a = make_scan("a", vec![host("10.0.0.1", true, vec![port(80, "apache", Some("2.4"))])]);
    let b = make_scan("b", vec![host("10.0.0.1", true, vec![port(80, "nginx", Some("2.4"))])]);
    let d = diff_scans(&a, &b);

    assert_eq!(d.port_changes.len(), 1);
    assert_eq!(d.port_changes[0].host_ip, "10.0.0.1");
    assert_eq!(d.port_changes[0].port, 80);
    assert_eq!(d.port_changes[0].change_type, ChangeType::ServiceChanged("apache".into(), "nginx".into()));
}

#[test]
fn two_empty_scans_produce_zero_diff() {
    let a = make_scan("a", vec![]);
    let b = make_scan("b", vec![]);
    let d = diff_scans(&a, &b);

    assert!(d.hosts_added.is_empty());
    assert!(d.hosts_removed.is_empty());
    assert_eq!(d.hosts_unchanged, 0);
    assert!(d.port_changes.is_empty());
    assert!(d.cve_changes.is_empty());
    assert_eq!(d.alive_change, 0);
    assert_eq!(d.ports_total_change, 0);
}

#[test]
fn non_empty_scan_diffed_with_empty_scan() {
    let hosts = vec![host("10.0.0.1", true, vec![port(22, "ssh", None)]), host("10.0.0.2", false, vec![])];
    let a = make_scan("a", hosts);
    let b = make_scan("b", vec![]);
    let d = diff_scans(&a, &b);

    assert!(d.hosts_added.is_empty());
    let mut removed = d.hosts_removed.clone();
    removed.sort();
    assert_eq!(removed, vec!["10.0.0.1", "10.0.0.2"]);
    assert_eq!(d.hosts_unchanged, 0);
    assert!(d.port_changes.is_empty());
    assert_eq!(d.alive_change, -1);
    assert_eq!(d.ports_total_change, -1);
}

#[test]
fn cve_change_populates_cve_changes() {
    let a = make_scan(
        "a",
        vec![host("10.0.0.1", true, vec![port_with_cves(80, "http", None, vec![cve("CVE-2024-0001"), cve("CVE-2024-0002")])])],
    );
    let b = make_scan(
        "b",
        vec![host("10.0.0.1", true, vec![port_with_cves(80, "http", None, vec![cve("CVE-2024-0001"), cve("CVE-2024-0003")])])],
    );
    let d = diff_scans(&a, &b);

    assert_eq!(d.cve_changes.len(), 2);
    let added: Vec<&CveChange> = d.cve_changes.iter().filter(|c| c.change_type == ChangeType::Added).collect();
    let removed: Vec<&CveChange> = d.cve_changes.iter().filter(|c| c.change_type == ChangeType::Removed).collect();

    assert_eq!(added.len(), 1);
    assert_eq!(added[0].cve_id, "CVE-2024-0003");
    assert_eq!(added[0].host_ip, "10.0.0.1");

    assert_eq!(removed.len(), 1);
    assert_eq!(removed[0].cve_id, "CVE-2024-0002");
    assert_eq!(removed[0].host_ip, "10.0.0.1");
}

#[test]
fn multiple_hosts_added_and_removed() {
    let a = make_scan(
        "a",
        vec![host("10.0.0.1", true, vec![]), host("10.0.0.2", true, vec![]), host("10.0.0.3", true, vec![])],
    );
    let b = make_scan(
        "b",
        vec![
            host("10.0.0.2", true, vec![]),
            host("10.0.0.3", true, vec![]),
            host("10.0.0.4", true, vec![]),
            host("10.0.0.5", true, vec![]),
        ],
    );
    let d = diff_scans(&a, &b);

    assert_eq!(d.hosts_added.len(), 2);
    assert!(d.hosts_added.contains(&"10.0.0.4".to_string()));
    assert!(d.hosts_added.contains(&"10.0.0.5".to_string()));
    assert_eq!(d.hosts_removed.len(), 1);
    assert!(d.hosts_removed.contains(&"10.0.0.1".to_string()));
    assert_eq!(d.hosts_unchanged, 2);
    assert_eq!(d.alive_change, 1);
}

#[test]
fn reversed_diff_swaps_added_and_removed() {
    let a = make_scan("a", vec![host("10.0.0.1", true, vec![port(80, "apache", Some("2.4")), port(22, "ssh", None)])]);
    let b = make_scan("b", vec![host("10.0.0.1", true, vec![port(80, "nginx", Some("2.4")), port(443, "https", None)])]);
    let ab = diff_scans(&a, &b);
    let ba = diff_scans(&b, &a);
    assert_eq!(ab.port_changes.len(), 3);
    assert_eq!(ba.port_changes.len(), 3);
    for c in &ab.port_changes {
        let mirrored = match &c.change_type {
            ChangeType::Added => ChangeType::Removed,
            ChangeType::Removed => ChangeType::Added,
            ChangeType::ServiceChanged(x, y) => ChangeType::ServiceChanged(y.clone(), x.clone()),
            ChangeType::VersionChanged(x, y) => ChangeType::VersionChanged(y.clone(), x.clone()),
        };
        assert!(ba.port_changes.iter().any(|d| d.port == c.port && d.host_ip == c.host_ip && d.change_type == mirrored));
    }
}

#[test]
fn duplicate_host_entries_use_the_last_one() {
    let a = make_scan("a", vec![host("10.0.0.1", true, vec![port(80, "http", Some("1.0"))])]);
    let b = make_scan(
        "b",
        vec![host("10.0.0.1", true, vec![port(80, "http", Some("9.9"))]), host("10.0.0.1", true, vec![port(80, "http", Some("1.0"))])],
    );
    let d = diff_scans(&a, &b);
    assert!(d.port_changes.is_empty());
    assert_eq!(d.hosts_unchanged, 1);
}

#[test]
fn stored_records_as_results() {
    let c = cve_summary_from_stored(cve("CVE-1"));
    assert_eq!(c.id, "CVE-1");
    assert_eq!(c.severity, "UNKNOWN");
    let p = port_from_stored(port_with_cves(443, "https", Some("1.1"), vec![cve("CVE-1"), cve("CVE-2")]));
    assert_eq!(p.port, 443);
    assert_eq!(p.protocol, TransportProto::Tcp);
    assert_eq!(p.state, PortState::Open);
    assert_eq!(p.service_name, "https");
    assert_eq!(p.service_version.as_deref(), Some("1.1"));
    assert_eq!(p.cpe, None);
    assert_eq!(p.cves.iter().map(|c| c.id.as_str()).collect::<Vec<_>>(), vec!["CVE-1", "CVE-2"]);
    let h = host_from_stored(
        host("10.0.0.9", true, vec![port(22, "ssh", None), port(80, "http", Some("x"))]),
        IpAddress::V4([10, 0, 0, 9]),
    );
    assert_eq!(h.ip, IpAddress::V4([10, 0, 0, 9]));
    assert!(h.alive);
    assert!(h.route.is_empty());
    assert_eq!(h.ports.iter().map(|p| p.port).collect::<Vec<_>>(), vec![22, 80]);
}

#[test]
fn service_change_is_listed_before_version_change() {
    let a = make_scan("a", vec![host("10.0.0.1", true, vec![port(80, "apache", Some("2.4"))])]);
    let b = make_scan("b", vec![host("10.0.0.1", true, vec![port(80, "nginx", Some("1.25"))])]);
    let d = diff_scans(&a, &b);
    assert_eq!(d.hosts_unchanged, 1);
    assert!(d.hosts_added.is_empty() && d.hosts_removed.is_empty() && d.cve_changes.is_empty());
    assert_eq!(d.port_changes.len(), 2);
    assert_eq!(d.port_changes[0].change_type, ChangeType::ServiceChanged("apache".into(), "nginx".into()));
    assert_eq!(d.port_changes[1].change_type, ChangeType::VersionChanged(Some("2.4".into()), Some("1.25".into())));
}
