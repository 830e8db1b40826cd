use aplomado_core::fingerprint::{
    banner_plan, clean_banner, detect_service_from_banner, guess_os, http_banner_text, http_request,
    mysql_banner_text, read_banner_text, redis_banner_text, BannerPlan,
};

#[test]
fn test_detect_service_http_server_header() {
    assert_eq!(detect_service_from_banner("Server: Apache/2.4.49 (Debian)"), Some("http"));
    assert_eq!(detect_service_from_banner("Server: nginx/1.18.0"), Some("http"));
}

#[test]
fn test_detect_service_http_response() {
    assert_eq!(detect_service_from_banner("HTTP/1.1 200 OK\r\nServer: Apache"), Some("http"));
}

#[test]
fn test_detect_service_ssh() {
    assert_eq!(detect_service_from_banner("SSH-2.0-OpenSSH_8.9p1 Ubuntu-3ubuntu0.6"), Some("ssh"));
}

#[test]
fn test_detect_service_unknown() {
    assert_eq!(detect_service_from_banner("some random data"), None);
    assert_eq!(detect_service_from_banner(""), None);
}

#[test]
fn test_ubuntu_ssh() {
    let ports = vec![(22, "ssh".to_string(), Some("SSH-2.0-OpenSSH_8.9p1 Ubuntu-3ubuntu0.6".to_string()))];
    assert_eq!(guess_os(&ports), Some("Ubuntu Linux".to_string()));
}

#[test]
fn test_debian_ssh() {
    let ports = vec![(22, "ssh".to_string(), Some("SSH-2.0-OpenSSH_8.9p1 Debian-3+deb11u1".to_string()))];
    assert_eq!(guess_os(&ports), Some("Debian Linux".to_string()));
}

#[test]
fn test_windows_rdp() {
    let ports = vec![(3389, "rdp".to_string(), None)];
    assert_eq!(guess_os(&ports), Some("Windows".to_string()));
}

#[test]
fn test_ubuntu_http() {
    let ports = vec![(80, "http".to_string(), Some("Server: Apache/2.4.41 (Ubuntu)".to_string()))];
    assert_eq!(guess_os(&ports), Some("Ubuntu Linux".to_string()));
}

#[test]
fn test_empty_returns_none() {
    assert_eq!(guess_os(&[]), None);
}

#[test]
fn test_rhel_ssh() {
    let ports = vec![(22, "ssh".to_string(), Some("SSH-2.0-OpenSSH_8.9p1 RHEL 8".to_string()))];
    assert_eq!(guess_os(&ports), Some("RHEL Linux".to_string()));
}

#[test]
fn banner_case_is_ignored() {
    assert_eq!(detect_service_from_banner("ssh-2.0-dropbear"), Some("ssh"));
    let ports = vec![(22, "ssh".to_string(), Some("SSH-2.0-OpenSSH_9.0 UBUNTU".to_string()))];
    assert_eq!(guess_os(&ports), Some("Ubuntu Linux".to_string()));
}

#[test]
fn unknown_linux_family_from_ports() {
    let ports = vec![(22, "ssh".to_string(), Some("SSH-2.0-OpenSSH_9.0".to_string()))];
    assert_eq!(guess_os(&ports), Some("Linux".to_string()));
    let likely = vec![
        (22, "ssh".to_string(), None),
        (53, "dns".to_string(), None),
        (80, "http".to_string(), None),
    ];
    assert_eq!(guess_os(&likely), Some("Likely Linux".to_string()));
    let unix = vec![(22, "ssh".to_string(), None)];
    assert_eq!(guess_os(&unix), Some("Likely Linux/Unix".to_string()));
    let nothing = vec![(7, "echo".to_string(), None)];
    assert_eq!(guess_os(&nothing), None);
}

#[test]
fn most_frequent_distribution_wins() {
    let ports = vec![
        (22, "ssh".to_string(), Some("SSH-2.0-OpenSSH_8.4p1 Debian-5".to_string())),
        (80, "http".to_string(), Some("Server: Apache/2.4.41 (Ubuntu)".to_string())),
        (443, "https".to_string(), Some("Server: Apache/2.4.41 (Ubuntu)".to_string())),
    ];
    assert_eq!(guess_os(&ports), Some("Ubuntu Linux".to_string()));
    let iis = vec![(80, "http".to_string(), Some("Server: Microsoft-IIS/10.0 windows".to_string()))];
    assert_eq!(guess_os(&iis), Some("Windows".to_string()));
}

#[test]
fn banner_plans_by_port() {
    assert_eq!(banner_plan(22), BannerPlan::Read);
    assert_eq!(banner_plan(25), BannerPlan::Read);
    assert_eq!(banner_plan(8080), BannerPlan::Http);
    assert_eq!(banner_plan(443), BannerPlan::HttpsThenHttp);
    assert_eq!(banner_plan(3306), BannerPlan::Mysql);
    assert_eq!(banner_plan(6379), BannerPlan::Redis);
    assert_eq!(banner_plan(9999), BannerPlan::HttpThenRead);
}

#[test]
fn banner_texts() {
    assert_eq!(read_banner_text(b"  SSH-2.0-OpenSSH_9.6\r\n"), Some("SSH-2.0-OpenSSH_9.6".to_string()));
    assert_eq!(read_banner_text(b" \r\n"), None);
    assert_eq!(read_banner_text(b""), None);
    assert_eq!(http_request("example.org"), "GET / HTTP/1.0\r\nHost: example.org\r\n\r\n");
    assert_eq!(
        http_banner_text(b"HTTP/1.1 200 OK\r\nDate: x\r\nSERVER: nginx/1.25 \r\n\r\n"),
        Some("SERVER: nginx/1.25".to_string())
    );
    assert_eq!(http_banner_text(b"HTTP/1.1 404 Not Found\r\n\r\n"), Some("HTTP/1.1 404 Not Found".to_string()));
    assert_eq!(http_banner_text(b""), None);
    let mut hs = vec![0x4a, 0, 0, 0, 0x0a];
    hs.extend_from_slice(b"8.0.36\0rest");
    assert_eq!(mysql_banner_text(&hs), Some("MySQL 8.0.36".to_string()));
    assert_eq!(mysql_banner_text(&[1, 2, 3, 4, 5]), None);
    assert_eq!(redis_banner_text(b"+PONG\r\n"), "+PONG");
    assert_eq!(clean_banner(Some("a\u{1}b".into())), Some("ab".to_string()));
    assert_eq!(clean_banner(None), None);
}
