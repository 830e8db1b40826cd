use aplomado_core::cve::{CveSeverity, VulnerabilityFix};
use aplomado_core::sources::{
    collect_cpe_ranges, cpe_to_osv_name, database_to_fixes, fixes_to_database, fixes_to_database_at, merge_all_sources, normalize_cpe_for_nvd, CveSource, NvdConfig,
    NvdCpeMatch, NvdNode, RawCveEntry, RawVersionRange,
};

fn raw(source: CveSource, id: &str, pkg: &str, score: u32, start: &str) -> RawCveEntry {
    RawCveEntry {
        source,
        cve_id: id.into(),
        package_name: pkg.into(),
        description: format!("{id} from {source:?}"),
        cvss_score: score,
        affected_versions: vec![RawVersionRange {
            start: Some(start.into()),
            end: None,
            start_including: true,
            end_including: false,
        }],
        fixed_version: None,
        advisory_url: None,
    }
}

#[test]
fn confidence_by_source() {
    assert_eq!(CveSource::Osv.confidence_str(), "high");
    assert_eq!(CveSource::Nvd.confidence_str(), "medium");
    assert_eq!(CveSource::Circl.confidence_str(), "medium");
}

#[test]
fn nvd_cpe_names() {
    assert_eq!(normalize_cpe_for_nvd("cpe:2.3:a:openbsd:openssh"), "cpe:2.3:a:openbsd:openssh:-:*:*:*:*:*:*:*");
    assert_eq!(normalize_cpe_for_nvd("cpe:2.3:a:openbsd:openssh:-:*:*:*:*:*:*:*").matches(':').count(), 12);
    assert_eq!(normalize_cpe_for_nvd("cpe:2.3:a:x:y:1.0"), "cpe:2.3:a:x:y:1.0");
}

#[test]
fn osv_names() {
    assert_eq!(cpe_to_osv_name("cpe:2.3:a:openbsd:openssh"), "openssh");
    assert_eq!(cpe_to_osv_name("cpe:2.3:a:nginx:nginx:1.2"), "nginx");
    assert_eq!(cpe_to_osv_name("cpe:2.3:a"), "");
}

#[test]
fn merge_keeps_preferred_source_and_all_ranges() {
    let db = merge_all_sources(vec![
        raw(CveSource::Circl, "CVE-1", "openssh", 50, "1.0"),
        raw(CveSource::Osv, "CVE-1", "openssh", 98, "2.0"),
        raw(CveSource::Nvd, "CVE-1", "openssh", 70, "3.0"),
        raw(CveSource::Nvd, "CVE-2", "redis", 0, "4.0"),
    ]);
    assert_eq!(db.total_count, 2);
    assert_eq!(db.entries.len(), 2);
    let e = &db.entries[0];
    assert_eq!(e.id, "CVE-1");
    assert_eq!(e.cvss_score, 98);
    assert_eq!(e.severity, CveSeverity::Critical);
    assert_eq!(e.description, "CVE-1 from Osv");
    let starts: Vec<&str> = e.affected_versions.iter().map(|r| r.start.as_str()).collect();
    assert_eq!(starts, vec!["2.0", "1.0"]);
    assert_eq!(e.affected_versions[0].end, "");
    let n = &db.entries[1];
    assert_eq!(n.id, "CVE-2");
    assert_eq!(n.severity, CveSeverity::Unscored);
    assert_eq!(n.cpe_match, vec!["cpe:2.3:a:redis:redis".to_string()]);
    assert!(db.updated.is_empty());
}

#[test]
fn merge_of_nothing_is_empty() {
    let db = merge_all_sources(vec![]);
    assert!(db.entries.is_empty());
    assert_eq!(db.total_count, 0);
}

fn cpe_match(vulnerable: bool, criteria: &str, start_inc: Option<&str>, end_exc: Option<&str>) -> NvdCpeMatch {
    NvdCpeMatch {
        vulnerable,
        criteria: criteria.into(),
        version_start_including: start_inc.map(Into::into),
        version_start_excluding: None,
        version_end_including: None,
        version_end_excluding: end_exc.map(Into::into),
    }
}

#[test]
fn nvd_configuration_ranges() {
    let config = NvdConfig {
        nodes: vec![NvdNode {
            cpe_match: vec![
                cpe_match(true, "cpe:2.3:a:openbsd:openssh:*:*", Some("8.0"), Some("9.3")),
                cpe_match(false, "cpe:2.3:a:openbsd:openssh:*:*", Some("1.0"), None),
                cpe_match(true, "cpe:2.3:a:other:thing:*", Some("1.0"), None),
                cpe_match(true, "cpe:2.3:a:openbsd:openssh:7.4", None, None),
            ],
        }],
        configurations: vec![NvdConfig {
            nodes: vec![NvdNode { cpe_match: vec![cpe_match(true, "cpe:2.3:a:openbsd:openssh:*", None, Some("6.0"))] }],
            configurations: vec![],
        }],
    };
    let mut ranges = Vec::new();
    collect_cpe_ranges(&config, "cpe:2.3:a:openbsd:openssh", &mut ranges);
    assert_eq!(ranges.len(), 2);
    assert_eq!(ranges[0].start.as_deref(), Some("8.0"));
    assert!(ranges[0].start_including);
    assert_eq!(ranges[0].end.as_deref(), Some("9.3"));
    assert!(!ranges[0].end_including);
    assert_eq!(ranges[1].start, None);
    assert!(ranges[1].start_including);
    assert_eq!(ranges[1].end.as_deref(), Some("6.0"));
}

fn fix(id: &str, start: Option<&str>, end: Option<&str>, score: u32, severity: &str) -> VulnerabilityFix {
    VulnerabilityFix {
        cve_id: id.into(),
        package_name: "ssh".into(),
        affected_version_start: start.map(Into::into),
        affected_version_end: end.map(Into::into),
        fixed_version: Some("9.9".into()),
        advisory_url: None,
        severity: severity.into(),
        cvss_score: score,
        description: "d".into(),
    }
}

#[test]
fn stored_rows_become_records() {
    let db = fixes_to_database_at(&[fix("CVE-9", Some("1.0"), None, 75, "High")], "2025-01-01T00:00:00+00:00".into());
    assert_eq!(db.updated, "2025-01-01T00:00:00+00:00");
    assert_eq!(db.total_count, 1);
    let e = &db.entries[0];
    assert_eq!(e.severity, CveSeverity::High);
    assert_eq!(e.cpe_match, vec!["cpe:2.3:a:openbsd:openssh".to_string()]);
    assert_eq!(e.affected_versions.len(), 1);
    assert_eq!(e.affected_versions[0].start, "1.0");
    assert_eq!(e.affected_versions[0].end, "");
    assert!(e.affected_versions[0].start_including && e.affected_versions[0].end_including);
    let now = fixes_to_database(&[fix("CVE-9", None, None, 0, "None")]);
    assert_eq!(now.entries.len(), 1);
    assert!(!now.updated.is_empty());
}

#[test]
fn stored_rows_round_trip() {
    let rows = vec![
        fix("CVE-1", Some("1.0"), Some("2.0"), 98, "Critical"),
        fix("CVE-2", None, Some("3.1"), 45, "Medium"),
        fix("CVE-3", None, None, 0, "None"),
    ];
    let back = database_to_fixes(&fixes_to_database_at(&rows, String::new()));
    assert_eq!(back, rows);
    // An empty bound does not survive: it reads back as missing.
    let odd = vec![fix("CVE-4", Some(""), None, 10, "Low")];
    let back = database_to_fixes(&fixes_to_database_at(&odd, String::new()));
    assert_eq!(back[0].affected_version_start, None);
}
