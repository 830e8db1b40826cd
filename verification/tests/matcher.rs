use aplomado_core::cve::{
    cve_summaries, get_cpe_for_service, match_cves, parse_version, version_in_range, CveDatabase, CveEntry, CveSeverity,
    VersionRange,
};
use aplomado_core::version::{extract_version, extract_version_num};

#[test]
fn test_extract_version_num_ssh() {
    assert_eq!(extract_version_num("ssh", "SSH-2.0-OpenSSH_8.9p1"), Some("8.9p1".into()));
}

#[test]
fn test_extract_version_num_http() {
    assert_eq!(extract_version_num("http", "Server: Apache/2.4.49"), Some("2.4.49".into()));
}

#[test]
fn test_extract_version_num_ftp() {
    assert_eq!(extract_version_num("ftp", "220 ProFTPD 1.3.5 Server"), Some("1.3.5".into()));
}

#[test]
fn test_extract_version_num_mysql() {
    assert_eq!(extract_version_num("mysql", "MySQL 5.7.35"), Some("5.7.35".into()));
}

#[test]
fn test_version_in_range() {
    let range = VersionRange {
        start: "2.4.0".into(),
        end: "2.4.49".into(),
        start_including: true,
        end_including: true,
    };
    assert!(version_in_range("2.4.49", &range));
    assert!(version_in_range("2.4.0", &range));
    assert!(!version_in_range("2.4.50", &range));
    assert!(!version_in_range("2.3.0", &range));
}

#[test]
fn test_parse_version() {
    assert_eq!(parse_version("1.2.3"), Some(vec![1, 2, 3]));
    assert_eq!(parse_version("1.2"), Some(vec![1, 2]));
    assert_eq!(parse_version("abc"), None);
}

#[test]
fn exclusive_and_open_bounds() {
    let r = VersionRange { start: "1.0".into(), end: "2.0".into(), start_including: false, end_including: false };
    assert!(!version_in_range("1.0", &r));
    assert!(version_in_range("1.5", &r));
    assert!(!version_in_range("2.0", &r));
    // A bound that does not read as a version leaves the range open.
    let open = VersionRange { start: String::new(), end: "3.0".into(), start_including: true, end_including: true };
    assert!(version_in_range("0.1", &open));
    assert!(version_in_range("3.0.1", &open));
    let open_end = VersionRange { start: "1.0".into(), end: "-".into(), start_including: true, end_including: true };
    assert!(version_in_range("0.5", &open_end));
    assert!(!version_in_range("x", &open_end));
}

#[test]
fn severity_from_tenths() {
    assert_eq!(CveSeverity::from_cvss_tenths(98), CveSeverity::Critical);
    assert_eq!(CveSeverity::from_cvss_tenths(90), CveSeverity::Critical);
    assert_eq!(CveSeverity::from_cvss_tenths(75), CveSeverity::High);
    assert_eq!(CveSeverity::from_cvss_tenths(40), CveSeverity::Medium);
    assert_eq!(CveSeverity::from_cvss_tenths(1), CveSeverity::Low);
    assert_eq!(CveSeverity::from_cvss_tenths(0), CveSeverity::Unscored);
    assert_eq!(CveSeverity::Unscored.as_str(), "None");
    assert_eq!(CveSeverity::High.as_str(), "High");
}

#[test]
fn cpe_names_for_services() {
    assert_eq!(get_cpe_for_service("SSH"), vec!["cpe:2.3:a:openbsd:openssh"]);
    assert_eq!(get_cpe_for_service("http-alt").len(), 4);
    assert_eq!(get_cpe_for_service("https-alt")[0], "cpe:2.3:a:apache:http_server");
    assert!(get_cpe_for_service("gopher").is_empty());
}

fn entry(id: &str, pkg: &str, cpe: &str, start: &str, end: &str) -> CveEntry {
    CveEntry {
        id: id.into(),
        package_name: pkg.into(),
        description: String::new(),
        cvss_score: 75,
        severity: CveSeverity::High,
        cpe_match: if cpe.is_empty() { vec![] } else { vec![cpe.into()] },
        affected_versions: vec![VersionRange {
            start: start.into(),
            end: end.into(),
            start_including: true,
            end_including: true,
        }],
        fixed_version: None,
        advisory_url: None,
    }
}

#[test]
fn match_cves_by_package_and_range() {
    let db = CveDatabase {
        entries: vec![
            entry("CVE-1", "ssh", "", "8.0", "9.0"),
            entry("CVE-2", "ssh", "", "9.1", "9.5"),
            entry("CVE-3", "", "cpe:2.3:a:openbsd:openssh", "8.5", "8.9"),
            entry("CVE-4", "http", "", "1.0", "99.0"),
        ],
        updated: String::new(),
        total_count: 4,
    };
    let found: Vec<&str> = match_cves(&db, "ssh", "SSH-2.0-OpenSSH_8.9").iter().map(|e| e.id.as_str()).collect();
    assert_eq!(found, vec!["CVE-1", "CVE-3"]);
    assert!(match_cves(&db, "ssh", "").is_empty());
    assert!(match_cves(&CveDatabase::empty(), "ssh", "SSH-2.0-OpenSSH_8.9").is_empty());
}

#[test]
fn extract_version_of_headers_and_banners() {
    assert_eq!(extract_version("ssh", "SSH-2.0-OpenSSH_8.9p1 Ubuntu"), Some("OpenSSH_8.9p1 Ubuntu".into()));
    assert_eq!(extract_version("http", "HTTP/1.1 200 OK\r\nServer: nginx/1.18.0\r\n"), Some("nginx/1.18.0".into()));
}

#[test]
fn summaries_of_matches() {
    let e = entry("CVE-7", "ssh", "", "1.0", "2.0");
    let s = cve_summaries(&vec![&e]);
    assert_eq!(s.len(), 1);
    assert_eq!(s[0].id, "CVE-7");
    assert_eq!(s[0].severity, "High");
    assert_eq!(s[0].cvss_score, 75);
    assert_eq!(s[0].confidence, "medium");
    assert_eq!(s[0].method, "banner");
}

#[test]
fn version_bounds_of_a_point_range() {
    let point = |si: bool, ei: bool| VersionRange { start: "2.4.49".into(), end: "2.4.49".into(), start_including: si, end_including: ei };
    assert!(version_in_range("2.4.49", &point(true, true)));
    assert!(!version_in_range("2.4.49", &point(false, true)));
    assert!(!version_in_range("2.4.49", &point(true, false)));
    assert!(!version_in_range("2.4.50", &point(true, true)));
}
