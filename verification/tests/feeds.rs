use aplomado_core::cve::{cpe_services, get_cpe_for_service};
use aplomado_core::feeds::{
    circl_entries, english_text, nvd_entries, osv_entries, CirclRecord, CirclVersion, CvssScores, LangText,
    NvdVuln, OsvEvent, OsvRange, OsvSeverity, OsvVuln,
};
use aplomado_core::sources::{CveSource, NvdConfig, NvdCpeMatch, NvdNode};

fn text(lang: &str, value: &str) -> LangText {
    LangText { lang: lang.into(), value: value.into() }
}

#[test]
fn english_is_preferred() {
    assert_eq!(english_text(&vec![text("es", "hola"), text("en", "hello"), text("en", "again")]), "hello");
    assert_eq!(english_text(&vec![text("es", "hola")]), "");
}

#[test]
fn every_service_has_cpe_names() {
    let services = cpe_services();
    assert_eq!(services.len(), 22);
    for s in services {
        assert!(!get_cpe_for_service(s).is_empty(), "{s}");
    }
}

fn nvd(id: &str, status: Option<&str>, v31: Vec<u32>, v2: Vec<u32>) -> NvdVuln {
    NvdVuln {
        id: id.into(),
        vuln_status: status.map(Into::into),
        descriptions: vec![text("en", "desc")],
        cvss_v31: v31,
        cvss_v30: vec![],
        cvss_v2: v2,
        configurations: vec![NvdConfig {
            nodes: vec![NvdNode {
                cpe_match: vec![NvdCpeMatch {
                    vulnerable: true,
                    criteria: "cpe:2.3:a:openbsd:openssh:*".into(),
                    version_start_including: None,
                    version_start_excluding: Some("7.0".into()),
                    version_end_including: Some("8.0".into()),
                    version_end_excluding: None,
                }],
            }],
            configurations: vec![],
        }],
        references: vec!["https://a".into(), "https://b".into()],
    }
}

#[test]
fn nvd_records() {
    let vulns = vec![
        nvd("CVE-1", None, vec![98], vec![50]),
        nvd("CVE-2", Some("Rejected"), vec![10], vec![]),
        nvd("CVE-3", Some("Analyzed"), vec![], vec![43]),
    ];
    let es = nvd_entries("ssh", "cpe:2.3:a:openbsd:openssh", &vulns);
    assert_eq!(es.len(), 2);
    assert_eq!(es[0].cve_id, "CVE-1");
    assert_eq!(es[0].source, CveSource::Nvd);
    assert_eq!(es[0].cvss_score, 98);
    assert_eq!(es[0].package_name, "ssh");
    assert_eq!(es[0].description, "desc");
    assert_eq!(es[0].advisory_url.as_deref(), Some("https://a"));
    assert_eq!(es[0].affected_versions.len(), 1);
    assert_eq!(es[0].affected_versions[0].start.as_deref(), Some("7.0"));
    assert!(!es[0].affected_versions[0].start_including);
    assert!(es[0].affected_versions[0].end_including);
    assert_eq!(es[1].cve_id, "CVE-3");
    assert_eq!(es[1].cvss_score, 43);
}

fn scores(v31: Option<u32>, v30: Option<u32>, v2: Option<u32>) -> CvssScores {
    CvssScores { v31, v30, v2 }
}

fn cv(version: &str, lt: &str, le: &str) -> CirclVersion {
    CirclVersion { version: version.into(), less_than: lt.into(), less_than_or_equal: le.into() }
}

#[test]
fn circl_records() {
    let rec = CirclRecord {
        cve_id: "CVE-9".into(),
        descriptions: vec![text("en", "d")],
        adp_metrics: vec![vec![scores(None, None, None)], vec![scores(None, Some(64), Some(50))]],
        cna_metrics: vec![scores(Some(99), None, None)],
        references: vec![],
        affected: vec![vec![cv("1.0", "2.0", ""), cv("*", "", "3.0")], vec![cv("", "*", "")]],
    };
    let es = circl_entries("redis", &vec![rec.clone()]);
    let e = &es[0];
    assert_eq!(e.source, CveSource::Circl);
    assert_eq!(e.cvss_score, 64);
    assert_eq!(e.advisory_url, None);
    let r = &e.affected_versions;
    assert_eq!(r.len(), 3);
    assert_eq!((r[0].start.as_deref(), r[0].end.as_deref(), r[0].end_including), (Some("1.0"), Some("2.0"), false));
    assert_eq!((r[1].start.as_deref(), r[1].end.as_deref(), r[1].end_including), (None, Some("3.0"), true));
    assert_eq!((r[2].start.as_deref(), r[2].end.as_deref(), r[2].end_including), (None, None, true));
    let bare = CirclRecord { adp_metrics: vec![], affected: vec![], ..rec };
    let es = circl_entries("redis", &vec![bare]);
    assert_eq!(es[0].cvss_score, 99);
    assert_eq!(es[0].affected_versions.len(), 1);
    assert_eq!(es[0].affected_versions[0].start, None);
}

fn ev(introduced: Option<&str>, fixed: Option<&str>) -> OsvEvent {
    OsvEvent { introduced: introduced.map(Into::into), fixed: fixed.map(Into::into) }
}

#[test]
fn osv_records() {
    let v = OsvVuln {
        id: "GHSA-x".into(),
        aliases: vec!["PYSEC-1".into(), "CVE-2024-1".into()],
        summary: Some("sum".into()),
        severity: vec![
            OsvSeverity { kind: "CVSS_V2".into(), score: Some(50) },
            OsvSeverity { kind: "CVSS_V3".into(), score: None },
            OsvSeverity { kind: "CVSS_V3".into(), score: Some(81) },
        ],
        references: vec!["https://r".into()],
        affected: vec![
            vec![
                OsvRange { kind: "SEMVER".into(), events: vec![ev(Some("2.0"), None), ev(None, Some("2.5"))] },
                OsvRange { kind: "GIT".into(), events: vec![ev(Some("0"), Some("abc"))] },
            ],
            vec![
                OsvRange { kind: "ECOSYSTEM".into(), events: vec![ev(Some("1.0"), Some("1.2"))] },
                OsvRange { kind: "SEMVER".into(), events: vec![ev(Some("2.0"), None), ev(None, Some("2.5"))] },
            ],
        ],
    };
    let es = osv_entries("ssh", &vec![v]);
    let e = &es[0];
    assert_eq!(e.source, CveSource::Osv);
    assert_eq!(e.cve_id, "CVE-2024-1");
    assert_eq!(e.description, "sum");
    assert_eq!(e.cvss_score, 81);
    assert_eq!(e.fixed_version.as_deref(), Some("2.5"));
    let r: Vec<(Option<&str>, Option<&str>)> =
        e.affected_versions.iter().map(|r| (r.start.as_deref(), r.end.as_deref())).collect();
    assert_eq!(r, vec![(Some("1.0"), Some("1.2")), (Some("2.0"), Some("2.5"))]);
    assert!(e.affected_versions.iter().all(|r| r.start_including && !r.end_including));
    let plain = OsvVuln {
        id: "OSV-1".into(),
        aliases: vec![],
        summary: None,
        severity: vec![],
        references: vec![],
        affected: vec![],
    };
    let es = osv_entries("x", &vec![plain]);
    assert_eq!(es[0].cve_id, "OSV-1");
    assert_eq!(es[0].cvss_score, 0);
    assert!(es[0].affected_versions.is_empty());
}
