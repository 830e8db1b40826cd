use aplomado_core::export::{
    csv_escape, export_csv, export_rendered, export_html, export_html_multi, export_txt, export_txt_multi, html_escape,
    sanitize_filename, ExportFormat,
};
use aplomado_core::history::{ScanRecord, StoredHostInfo, StoredPortInfo};

fn make_record(id: &str) -> ScanRecord {
    ScanRecord {
        id: id.to_string(),
        label: format!("Scan {id}"),
        targets: vec!["192.168.1.0/24".to_string()],
        timestamp: "2025-01-01T00:00:00Z".to_string(),
        duration_secs: 42,
        hosts_total: 2,
        hosts_alive: 1,
        hosts_found: 2,
        ports_total: 3,
        hosts: vec![
            StoredHostInfo {
                ip: "192.168.1.1".to_string(),
                hostname: Some("router.local".to_string()),
                os_guess: Some("Linux".to_string()),
                alive: true,
                ports: vec![
                    StoredPortInfo {
                        port: 80,
                        service: "http".to_string(),
                        version: Some("nginx/1.20".to_string()),
                        banner: None,
                        cves: vec![],
                    },
                    StoredPortInfo {
                        port: 22,
                        service: "ssh".to_string(),
                        version: Some("OpenSSH_8.9".to_string()),
                        banner: None,
                        cves: vec![],
                    },
                ],
            },
            StoredHostInfo { ip: "192.168.1.2".to_string(), hostname: None, os_guess: None, alive: false, ports: vec![] },
        ],
    }
}

fn make_records() -> Vec<ScanRecord> {
    vec![make_record("rec-001"), make_record("rec-002"), make_record("rec-003")]
}

#[test]
fn export_html_multi_contains_summaries() {
    let html = export_html_multi(&make_records());
    assert!(html.contains("Scan rec-001"));
    assert!(html.contains("Scan rec-002"));
    assert!(html.contains("Scan rec-003"));
    assert!(html.contains("192.168.1.1"));
    assert!(html.contains("192.168.1.2"));
    assert!(html.contains("<details"));
    assert!(html.contains("<summary"));
    assert!(html.contains("</details>"));
    assert!(html.starts_with("<!DOCTYPE html>"));
    assert!(html.ends_with("</html>"));
}

#[test]
fn export_html_multi_empty() {
    let html = export_html_multi(&[]);
    assert!(html.contains("No records found"));
    assert!(html.starts_with("<!DOCTYPE html>"));
}

#[test]
fn export_txt_multi_has_separators() {
    let txt = export_txt_multi(&make_records());
    assert!(txt.contains("\n\n---\n\n"));
    assert_eq!(txt.matches("\n\n---\n\n").count(), 2);
    assert!(txt.contains("APLOMADO Scan Report"));
    assert!(txt.contains("192.168.1.1"));
}

#[test]
fn export_txt_multi_empty() {
    assert!(export_txt_multi(&[]).contains("No records found"));
}

#[test]
fn export_csv_has_header() {
    let csv = export_csv(&make_records());
    assert_eq!(
        csv.lines().next().unwrap(),
        "scan_id,timestamp,target,ip,hostname,os,alive,port,protocol,state,service,version,cve_id,cve_severity,cve_cvss"
    );
}

#[test]
fn export_csv_rows_per_port() {
    let csv = export_csv(&make_records());
    assert_eq!(csv.lines().count(), 10);
}

#[test]
fn export_csv_valid_format() {
    let csv = export_csv(&make_records());
    let lines: Vec<&str> = csv.lines().collect();
    assert!(lines.len() > 1);
    assert_eq!(lines[0].split(',').count(), 15);
    let first_row: Vec<&str> = lines[1].split(',').collect();
    assert_eq!(first_row.len(), 15);
    assert_eq!(first_row[0], "rec-001");
    assert_eq!(first_row[7], "80");
    assert_eq!(first_row[8], "tcp");
    assert_eq!(first_row[9], "open");
}

#[test]
fn export_csv_escapes_commas() {
    let mut record = make_record("esc-test");
    record.targets = vec!["192.168.1.0/24,extra".to_string()];
    assert!(export_csv(&[record]).contains("\"192.168.1.0/24,extra\""));
}

#[test]
fn export_empty_records_html_shows_message() {
    assert!(export_html_multi(&[]).contains("No records found"));
}

#[test]
fn export_empty_records_txt_shows_message() {
    assert!(export_txt_multi(&[]).contains("No records found"));
}

#[test]
fn txt_report_exact() {
    let expected = "APLOMADO Scan Report\nDate: 2025-01-01T00:00:00Z\nTargets: 192.168.1.0/24\nHosts found: 2\nDuration: 42s\n\n  192.168.1.1 (Linux)\n    80/tcp   http  nginx/1.20\n    22/tcp   ssh  OpenSSH_8.9\n\n  192.168.1.2 (?) \u{2014} DOWN\n\n";
    assert_eq!(export_txt(&make_record("x")), expected);
    assert_eq!(export_txt_multi(&[]), "APLOMADO Scan Reports\nNo records found.\n");
}

#[test]
fn csv_rows_exact() {
    let csv = export_csv(&[make_record("r1")]);
    let lines: Vec<&str> = csv.lines().collect();
    assert_eq!(lines.len(), 4);
    assert_eq!(lines[1], "r1,2025-01-01T00:00:00Z,192.168.1.0/24,192.168.1.1,router.local,Linux,true,80,tcp,open,http,nginx/1.20,,,");
    assert_eq!(lines[3], "r1,2025-01-01T00:00:00Z,192.168.1.0/24,192.168.1.2,,,false,,,,,,,,");
    assert_eq!(export_csv(&[]).lines().count(), 1);
}

#[test]
fn html_report_escapes_nothing_but_renders_rows() {
    let html = export_html(&make_record("h"));
    assert!(html.starts_with("<!DOCTYPE html>"));
    assert!(html.contains("2025-01-01T00:00:00Z | Targets: 192.168.1.0/24 | Hosts: 2 | Alive: 1 | Duration: 42s"));
    assert!(html.ends_with("</tbody></table></body></html>"));
}

#[test]
fn escaping() {
    assert_eq!(html_escape("<a href=\"x\">'&'</a>"), "&lt;a href=&quot;x&quot;&gt;&#x27;&amp;&#x27;&lt;/a&gt;");
    assert_eq!(html_escape("plain"), "plain");
    assert_eq!(csv_escape("plain"), "plain");
    assert_eq!(csv_escape("a,b"), "\"a,b\"");
    assert_eq!(csv_escape("say \"hi\""), "\"say \"\"hi\"\"\"");
    assert_eq!(csv_escape("two\nlines"), "\"two\nlines\"");
}

#[test]
fn file_names_and_formats() {
    assert_eq!(sanitize_filename("scan 2025/01:01.html"), "scan_2025_01_01.html");
    assert_eq!(sanitize_filename("ünï-code_ok"), "ünï-code_ok");
    assert_eq!(ExportFormat::from_str("HTML"), Some(ExportFormat::Html));
    assert_eq!(ExportFormat::from_str("text"), Some(ExportFormat::Txt));
    assert_eq!(ExportFormat::from_str("Zip"), Some(ExportFormat::Zip));
    assert_eq!(ExportFormat::from_str("pdf"), None);
    assert_eq!(ExportFormat::Csv.extension(), "csv");
    assert_eq!(ExportFormat::Json.extension(), "json");
}

#[test]
fn single_record_rendering() {
    let r = make_record("one");
    assert_eq!(export_rendered(&r, ExportFormat::Html), Ok(Some(export_html(&r))));
    assert_eq!(export_rendered(&r, ExportFormat::Txt), Ok(Some(export_txt(&r))));
    assert_eq!(export_rendered(&r, ExportFormat::Json), Ok(None));
    assert!(export_rendered(&r, ExportFormat::Csv).is_err());
    assert_eq!(
        export_rendered(&r, ExportFormat::Zip),
        Err("ZIP export requires multiple records; use save_reports instead")
    );
}

fn read_csv_field(f: &str) -> String {
    if f.len() >= 2 && f.starts_with('"') && f.ends_with('"') {
        f[1..f.len() - 1].replace("\"\"", "\"")
    } else {
        f.to_string()
    }
}

#[test]
fn csv_field_reads_back() {
    for s in ["plain", "a,b", "say \"hi\"", "line\nbreak", "\"", "", "\"\"\"", "x,\"y\",z"] {
        let f = aplomado_core::export::csv_escape(s);
        assert_eq!(read_csv_field(&f), s, "field {f:?}");
    }
    assert_eq!(aplomado_core::export::csv_escape("a,b"), "\"a,b\"");
    assert_eq!(aplomado_core::export::csv_escape("say \"hi\""), "\"say \"\"hi\"\"\"");
}

#[test]
fn csv_rows_per_target_and_once_without_targets() {
    let mut none = make_record("x");
    none.targets = vec![];
    let csv = export_csv(&[none]);
    let lines: Vec<&str> = csv.lines().collect();
    assert_eq!(lines.len(), 4);
    assert_eq!(lines[3], "x,2025-01-01T00:00:00Z,,192.168.1.2,,,false,,,,,,,,");
    let mut two = make_record("y");
    two.targets = vec!["10.0.0.0/24".to_string(), "host.example".to_string()];
    let csv = export_csv(&[two]);
    let lines: Vec<&str> = csv.lines().collect();
    assert_eq!(lines.len(), 7);
    assert!(lines[1].starts_with("y,2025-01-01T00:00:00Z,10.0.0.0/24,192.168.1.1,"));
    assert!(lines[4].starts_with("y,2025-01-01T00:00:00Z,host.example,192.168.1.1,"));
}
