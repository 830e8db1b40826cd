use aplomado_core::sanitize::{sanitize_banner, sanitize_cert_field, sanitize_error_context};

#[test]
fn null_bytes_rejected() {
    assert_eq!(sanitize_banner(b"SSH-2.0\x00OpenSSH", 1024), None);
}

#[test]
fn control_chars_stripped() {
    assert_eq!(sanitize_banner(b"SSH-\x01.0", 1024), Some("SSH-.0".to_string()));
}

#[test]
fn max_bytes_enforced() {
    let input = vec![b'A'; 2000];
    let result = sanitize_banner(&input, 1024).unwrap();
    assert_eq!(result.len(), 1024);
}

#[test]
fn empty_input_returns_none() {
    assert_eq!(sanitize_banner(b"", 1024), None);
}

#[test]
fn printable_ascii_preserved() {
    assert_eq!(sanitize_banner(b"Apache/2.4.41 (Ubuntu)", 1024), Some("Apache/2.4.41 (Ubuntu)".to_string()));
}

#[test]
fn cert_field_255_limit() {
    let input = vec![b'X'; 300];
    let result = sanitize_cert_field(&input).unwrap();
    assert_eq!(result.len(), 255);
}

#[test]
fn error_context_strips_internal_ip() {
    let input = b"error\nat 10.0.0.1:1234";
    let result = sanitize_error_context(input);
    assert_eq!(result, "error");
}

#[test]
fn sanitize_banner_rejects_xss() {
    let result = sanitize_banner(b"\x01<script>alert('xss')</script>\x02", 1024);
    assert_eq!(result, Some("<script>alert('xss')</script>".to_string()));
}

#[test]
fn zero_byte_after_the_limit_is_not_seen() {
    assert_eq!(sanitize_banner(b"abc\x00", 3), Some("abc".to_string()));
    assert_eq!(sanitize_banner(b"abc", 0), None);
    assert_eq!(sanitize_banner(b"\x01\x02\xff", 10), None);
}

#[test]
fn banner_output_is_clean() {
    let raw: Vec<u8> = (0u8..=255).filter(|b| *b != 0).collect();
    let out = sanitize_banner(&raw, 1024).unwrap();
    assert!(out.len() <= 1024);
    assert!(out.chars().all(|c| (' '..='~').contains(&c) || c == '\t' || c == '\n' || c == '\r'));
}

#[test]
fn error_context_drops_every_unsafe_line() {
    let raw = b"ok one\n192.168.1.5 down\n172.20.0.1 refused\n172.40.0.1 fine\nsee /etc/passwd\nC:\\x\n in main\nlast\r\n";
    assert_eq!(sanitize_error_context(raw), "ok one\n172.40.0.1 fine\nlast");
    let out = sanitize_error_context(raw);
    assert!(!out.contains('/') && !out.contains('\\'));
}

#[test]
fn error_context_reads_at_most_512_bytes() {
    let mut raw = vec![b'a'; 512];
    raw.extend_from_slice(b"bbb");
    assert_eq!(sanitize_error_context(&raw), "a".repeat(512));
    assert_eq!(sanitize_error_context(b""), "");
}

#[test]
fn sanitizing_twice_changes_nothing() {
    let raw: &[u8] = b"SSH-2.0-OpenSSH_8.9\x01\x1b[31m\r\n\xff\xfeok\tdone";
    for max in [4usize, 16, 256] {
        let once = sanitize_banner(raw, max).unwrap();
        assert_eq!(sanitize_banner(once.as_bytes(), max), Some(once.clone()));
    }
}

#[test]
fn error_context_drops_any_private_172_address() {
    assert_eq!(sanitize_error_context(b"172.5 172.20.0.1"), "");
    assert_eq!(sanitize_error_context(b"port 172.5 ok\nhost 172.31.9.9 down\nv 172.32.0.1"), "port 172.5 ok\nv 172.32.0.1");
}
