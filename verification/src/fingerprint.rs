//! Service and operating-system fingerprinting from banners.

use vstd::prelude::*;

use std::collections::HashSet;

use crate::probes::{server_line_from, zero_from};
use crate::sanitize::{banner_result, lines, sanitize_banner, split_lines};
use crate::text::{
    push_chars, push_str, text_eq, trim, trim_chars, utf8_lossy, lossy_string,
    chars_of, contains, contains_seq, has_prefix, lowercase_of, opt_view, starts_with, string_of,
    to_lowercase,
};

verus! {

// ---------------------------------------------------------------------------
// Services
// ---------------------------------------------------------------------------

/// The service a banner reveals, given the banner in lower case.
pub open spec fn service_of_lower(b: Seq<char>) -> Option<Seq<char>> {
    if has_prefix(b, seq!['s', 'e', 'r', 'v', 'e', 'r', ':']) || contains_seq(b, seq!['h', 't', 't', 'p', '/']) {
        Some("http"@)
    } else if has_prefix(b, seq!['s', 's', 'h', '-']) {
        Some("ssh"@)
    } else if has_prefix(b, seq!['2', '2', '0', ' ']) || contains_seq(b, seq!['f', 't', 'p']) {
        Some("ftp"@)
    } else if has_prefix(b, seq!['m', 'y', 's', 'q', 'l']) {
        Some("mysql"@)
    } else if contains_seq(b, seq!['r', 'e', 'd', 'i', 's']) || has_prefix(b, seq!['+', 'o', 'k']) {
        Some("redis"@)
    } else if contains_seq(b, seq!['p', 'o', 's', 't', 'g', 'r', 'e', 's', 'q', 'l']) {
        Some("postgresql"@)
    } else if contains_seq(b, seq!['m', 'i', 'c', 'r', 'o', 's', 'o', 'f', 't']) && contains_seq(b, seq!['i', 'i', 's']) {
        Some("http"@)
    } else if contains_seq(b, seq!['a', 'p', 'a', 'c', 'h', 'e']) || contains_seq(b, seq!['n', 'g', 'i', 'n', 'x'])
        || contains_seq(b, seq!['t', 'o', 'm', 'c', 'a', 't']) {
        Some("http"@)
    } else {
        None
    }
}

pub open spec fn static_view(o: Option<&'static str>) -> Option<Seq<char>> {
    match o {
        Some(s) => Some(s@),
        None => None,
    }
}

/// The service a banner reveals, given the banner in lower case (see
/// [`service_of_lower`]).
pub fn detect_service_in_lowercase(lowered: &str) -> (r: Option<&'static str>)
    ensures
        static_view(r) == service_of_lower(lowered@),
{
    let b = chars_of(lowered);
    let p_server = vec!['s', 'e', 'r', 'v', 'e', 'r', ':'];
    let p_http = vec!['h', 't', 't', 'p', '/'];
    let p_ssh = vec!['s', 's', 'h', '-'];
    let p_220 = vec!['2', '2', '0', ' '];
    let p_ftp = vec!['f', 't', 'p'];
    let p_mysql = vec!['m', 'y', 's', 'q', 'l'];
    let p_redis = vec!['r', 'e', 'd', 'i', 's'];
    let p_ok = vec!['+', 'o', 'k'];
    let p_pg = vec!['p', 'o', 's', 't', 'g', 'r', 'e', 's', 'q', 'l'];
    let p_ms = vec!['m', 'i', 'c', 'r', 'o', 's', 'o', 'f', 't'];
    let p_iis = vec!['i', 'i', 's'];
    let p_apache = vec!['a', 'p', 'a', 'c', 'h', 'e'];
    let p_nginx = vec!['n', 'g', 'i', 'n', 'x'];
    let p_tomcat = vec!['t', 'o', 'm', 'c', 'a', 't'];
    if starts_with(&b, &p_server) || contains(&b, &p_http) {
        return Some("http");
    }
    if starts_with(&b, &p_ssh) {
        return Some("ssh");
    }
    if starts_with(&b, &p_220) || contains(&b, &p_ftp) {
        return Some("ftp");
    }
    if starts_with(&b, &p_mysql) {
        return Some("mysql");
    }
    if contains(&b, &p_redis) || starts_with(&b, &p_ok) {
        return Some("redis");
    }
    if contains(&b, &p_pg) {
        return Some("postgresql");
    }
    if contains(&b, &p_ms) && contains(&b, &p_iis) {
        return Some("http");
    }
    if contains(&b, &p_apache) || contains(&b, &p_nginx) || contains(&b, &p_tomcat) {
        return Some("http");
    }
    None
}

/// The service a banner reveals, for services on unusual ports; `None` when
/// it cannot be told.
pub fn detect_service_from_banner(banner: &str) -> (r: Option<&'static str>)
    ensures
        static_view(r) == service_of_lower(lowercase_of(banner@)),
{
    let lowered = to_lowercase(banner);
    detect_service_in_lowercase(lowered.as_str())
}

// ---------------------------------------------------------------------------
// Operating systems
// ---------------------------------------------------------------------------

/// An operating system or distribution recognised in a banner.
#[derive(Debug, Clone, Copy, PartialEq, Eq, Structural)]
pub enum Distro {
    Ubuntu,
    Debian,
    Rhel,
    CentOs,
    Fedora,
    Alpine,
    FreeBsd,
    OpenBsd,
    Windows,
}

/// The name a distribution is reported under.
pub open spec fn distro_name(d: Distro) -> Seq<char> {
    match d {
        Distro::Ubuntu => seq!['U', 'b', 'u', 'n', 't', 'u'],
        Distro::Debian => seq!['D', 'e', 'b', 'i', 'a', 'n'],
        Distro::Rhel => seq!['R', 'H', 'E', 'L'],
        Distro::CentOs => seq!['C', 'e', 'n', 't', 'O', 'S'],
        Distro::Fedora => seq!['F', 'e', 'd', 'o', 'r', 'a'],
        Distro::Alpine => seq!['A', 'l', 'p', 'i', 'n', 'e'],
        Distro::FreeBsd => seq!['F', 'r', 'e', 'e', 'B', 'S', 'D'],
        Distro::OpenBsd => seq!['O', 'p', 'e', 'n', 'B', 'S', 'D'],
        Distro::Windows => seq!['W', 'i', 'n', 'd', 'o', 'w', 's'],
    }
}

/// The operating system reported for a distribution: the BSDs and Windows
/// by name, the others as "<name> Linux".
pub open spec fn distro_os(d: Distro) -> Seq<char> {
    match d {
        Distro::Windows | Distro::FreeBsd | Distro::OpenBsd => distro_name(d),
        _ => distro_name(d) + seq![' ', 'L', 'i', 'n', 'u', 'x'],
    }
}

/// The distribution named in a lower-case SSH banner.
pub open spec fn ssh_distro(l: Seq<char>) -> Option<Distro> {
    if contains_seq(l, seq!['u', 'b', 'u', 'n', 't', 'u']) {
        Some(Distro::Ubuntu)
    } else if contains_seq(l, seq!['d', 'e', 'b', 'i', 'a', 'n', '-']) || contains_seq(l, seq!['d', 'e', 'b', 'i', 'a', 'n', ' ']) {
        Some(Distro::Debian)
    } else if contains_seq(l, seq!['r', 'h', 'e', 'l']) {
        Some(Distro::Rhel)
    } else if contains_seq(l, seq!['c', 'e', 'n', 't', 'o', 's']) {
        Some(Distro::CentOs)
    } else if contains_seq(l, seq!['f', 'e', 'd', 'o', 'r', 'a']) {
        Some(Distro::Fedora)
    } else if contains_seq(l, seq!['a', 'l', 'p', 'i', 'n', 'e']) {
        Some(Distro::Alpine)
    } else if contains_seq(l, seq!['f', 'r', 'e', 'e', 'b', 's', 'd']) {
        Some(Distro::FreeBsd)
    } else if contains_seq(l, seq!['o', 'p', 'e', 'n', 'b', 's', 'd']) {
        Some(Distro::OpenBsd)
    } else {
        None
    }
}

/// The distribution named in a lower-case HTTP server banner.
pub open spec fn http_distro(l: Seq<char>) -> Option<Distro> {
    if contains_seq(l, seq!['u', 'b', 'u', 'n', 't', 'u']) {
        Some(Distro::Ubuntu)
    } else if contains_seq(l, seq!['d', 'e', 'b', 'i', 'a', 'n']) {
        Some(Distro::Debian)
    } else if contains_seq(l, seq!['c', 'e', 'n', 't', 'o', 's']) {
        Some(Distro::CentOs)
    } else if contains_seq(l, seq!['r', 'h', 'e', 'l']) {
        Some(Distro::Rhel)
    } else if contains_seq(l, seq!['f', 'e', 'd', 'o', 'r', 'a']) {
        Some(Distro::Fedora)
    } else if contains_seq(l, seq!['a', 'l', 'p', 'i', 'n', 'e']) {
        Some(Distro::Alpine)
    } else if contains_seq(l, seq!['f', 'r', 'e', 'e', 'b', 's', 'd']) {
        Some(Distro::FreeBsd)
    } else if contains_seq(l, seq!['w', 'i', 'n', 'd', 'o', 'w', 's']) {
        Some(Distro::Windows)
    } else {
        None
    }
}

/// The lower-case word by which a banner names a distribution.
pub open spec fn distro_word(d: Distro) -> Seq<char> {
    match d {
        Distro::Ubuntu => seq!['u', 'b', 'u', 'n', 't', 'u'],
        Distro::Debian => seq!['d', 'e', 'b', 'i', 'a', 'n'],
        Distro::Rhel => seq!['r', 'h', 'e', 'l'],
        Distro::CentOs => seq!['c', 'e', 'n', 't', 'o', 's'],
        Distro::Fedora => seq!['f', 'e', 'd', 'o', 'r', 'a'],
        Distro::Alpine => seq!['a', 'l', 'p', 'i', 'n', 'e'],
        Distro::FreeBsd => seq!['f', 'r', 'e', 'e', 'b', 's', 'd'],
        Distro::OpenBsd => seq!['o', 'p', 'e', 'n', 'b', 's', 'd'],
        Distro::Windows => seq!['w', 'i', 'n', 'd', 'o', 'w', 's'],
    }
}

/// The distributions an HTTP server banner can reveal (all but OpenBSD).
pub open spec fn http_known(d: Distro) -> bool {
    d != Distro::OpenBsd
}

/// The distributions an SSH banner can reveal (all but Windows).
pub open spec fn ssh_known(d: Distro) -> bool {
    d != Distro::Windows
}

/// The distribution read from a banner is one the banner names: from an
/// HTTP server banner, a known distribution whose word it contains; from an
/// SSH banner likewise (Debian only as "debian-" or "debian "). A banner
/// that names a known distribution always reveals one, and a banner that
/// names exactly one known distribution reveals that one.
pub proof fn law_distro_is_named(l: Seq<char>, d: Distro)
    ensures
        http_distro(l) matches Some(x) ==> http_known(x) && contains_seq(l, distro_word(x)),
        ssh_distro(l) matches Some(x) ==> ssh_known(x) && contains_seq(l, distro_word(x)),
        http_known(d) && contains_seq(l, distro_word(d)) ==> http_distro(l) is Some,
        http_known(d) && contains_seq(l, distro_word(d)) && (forall|e: Distro|
            http_known(e) && e != d ==> !contains_seq(l, #[trigger] distro_word(e))) ==> http_distro(l) == Some(d),
        ssh_known(d) && d != Distro::Debian && contains_seq(l, distro_word(d)) && (forall|e: Distro|
            ssh_known(e) && e != d ==> !contains_seq(l, #[trigger] distro_word(e))) ==> ssh_distro(l) == Some(d),
{
    if ssh_distro(l) == Some(Distro::Debian) {
        if contains_seq(l, seq!['d', 'e', 'b', 'i', 'a', 'n', '-']) {
            let i = choose|i: int| crate::text::occurs_at(l, seq!['d', 'e', 'b', 'i', 'a', 'n', '-'], i);
            let t7 = l.subrange(i, i + 7);
            assert(t7 == seq!['d', 'e', 'b', 'i', 'a', 'n', '-']);
            assert forall|k: int| 0 <= k < 6 implies #[trigger] l.subrange(i, i + 6)[k] == distro_word(Distro::Debian)[k] by {
                assert(l.subrange(i, i + 6)[k] == t7[k]);
            }
            assert(l.subrange(i, i + 6) =~= distro_word(Distro::Debian));
            assert(crate::text::occurs_at(l, distro_word(Distro::Debian), i));
        } else {
            let i = choose|i: int| crate::text::occurs_at(l, seq!['d', 'e', 'b', 'i', 'a', 'n', ' '], i);
            let t7 = l.subrange(i, i + 7);
            assert(t7 == seq!['d', 'e', 'b', 'i', 'a', 'n', ' ']);
            assert forall|k: int| 0 <= k < 6 implies #[trigger] l.subrange(i, i + 6)[k] == distro_word(Distro::Debian)[k] by {
                assert(l.subrange(i, i + 6)[k] == t7[k]);
            }
            assert(l.subrange(i, i + 6) =~= distro_word(Distro::Debian));
            assert(crate::text::occurs_at(l, distro_word(Distro::Debian), i));
        }
    }
    assert(distro_word(Distro::Ubuntu) == seq!['u', 'b', 'u', 'n', 't', 'u']);
    assert(distro_word(Distro::Debian) == seq!['d', 'e', 'b', 'i', 'a', 'n']);
    assert(distro_word(Distro::Rhel) == seq!['r', 'h', 'e', 'l']);
    assert(distro_word(Distro::CentOs) == seq!['c', 'e', 'n', 't', 'o', 's']);
    assert(distro_word(Distro::Fedora) == seq!['f', 'e', 'd', 'o', 'r', 'a']);
    assert(distro_word(Distro::Alpine) == seq!['a', 'l', 'p', 'i', 'n', 'e']);
    assert(distro_word(Distro::FreeBsd) == seq!['f', 'r', 'e', 'e', 'b', 's', 'd']);
    assert(distro_word(Distro::OpenBsd) == seq!['o', 'p', 'e', 'n', 'b', 's', 'd']);
    assert(distro_word(Distro::Windows) == seq!['w', 'i', 'n', 'd', 'o', 'w', 's']);
}

/// A host with one open HTTP port whose server banner names a known
/// distribution is reported as running that distribution's system.
pub proof fn law_http_banner_os(p: u16, svc: String, b: String, l: Seq<char>, d: Distro)
    requires
        is_http_port(p),
        http_distro(l) == Some(d),
    ensures
        os_guess_given(seq![(p, svc, Some(b))], seq![l]) == Some(distro_os(d)),
{
    let ports = seq![(p, svc, Some(b))];
    let lows = seq![l];
    assert(detected(ports, lows, 0) == Seq::<Distro>::empty());
    assert(detected(ports, lows, 1) == seq![d]);
    assert(best_upto(seq![d], 1) == 0);
}

pub open spec fn is_http_port(p: u16) -> bool {
    p == 80 || p == 443 || p == 8080 || p == 8443
}

/// The distribution one port reveals: SSH banners on port 22, server
/// banners on the HTTP ports; `low` is the banner in lower case.
pub open spec fn port_distro(port: u16, has_banner: bool, low: Seq<char>) -> Option<Distro> {
    if !has_banner {
        None
    } else if port == 22 {
        ssh_distro(low)
    } else if is_http_port(port) {
        http_distro(low)
    } else {
        None
    }
}

/// The distributions revealed by the first `n` ports, in order; `lows[i]`
/// is the lower-case banner of port `i`.
pub open spec fn detected(ports: Seq<(u16, String, Option<String>)>, lows: Seq<Seq<char>>, n: int) -> Seq<Distro>
    decreases n,
{
    if n <= 0 {
        Seq::empty()
    } else {
        let prev = detected(ports, lows, n - 1);
        match port_distro(ports[n - 1].0, ports[n - 1].2 is Some, lows[n - 1]) {
            Some(d) => prev.push(d),
            None => prev,
        }
    }
}

/// How many times `d` occurs in `ds`.
pub open spec fn occurrences(ds: Seq<Distro>, d: Distro) -> int
    decreases ds.len(),
{
    if ds.len() == 0 {
        0
    } else {
        occurrences(ds.drop_last(), d) + if ds.last() == d { 1int } else { 0int }
    }
}

/// The position, among the first `n` of `ds`, of the first distribution
/// seen most often.
pub open spec fn best_upto(ds: Seq<Distro>, n: int) -> int
    decreases n,
{
    if n <= 1 {
        0
    } else {
        let b = best_upto(ds, n - 1);
        if occurrences(ds, ds[n - 1]) > occurrences(ds, ds[b]) {
            n - 1
        } else {
            b
        }
    }
}

/// The distribution guess: the first of those seen most often.
pub open spec fn distro_guess(ds: Seq<Distro>) -> Option<Seq<char>> {
    if ds.len() == 0 {
        None
    } else {
        Some(distro_os(ds[best_upto(ds, ds.len() as int)]))
    }
}

pub open spec fn banner_or_empty(b: Option<String>) -> Seq<char> {
    match b {
        Some(s) => s@,
        None => Seq::empty(),
    }
}

/// The lower-case banners of the ports (empty text for none).
pub open spec fn lowered_banners(ports: Seq<(u16, String, Option<String>)>) -> Seq<Seq<char>> {
    ports.map_values(|p: (u16, String, Option<String>)| lowercase_of(banner_or_empty(p.2)))
}

fn ssh_distro_of(l: &Vec<char>) -> (r: Option<Distro>)
    ensures
        r == ssh_distro(l@),
{
    if contains(l, &vec!['u', 'b', 'u', 'n', 't', 'u']) {
        Some(Distro::Ubuntu)
    } else if contains(l, &vec!['d', 'e', 'b', 'i', 'a', 'n', '-']) || contains(l, &vec!['d', 'e', 'b', 'i', 'a', 'n', ' ']) {
        Some(Distro::Debian)
    } else if contains(l, &vec!['r', 'h', 'e', 'l']) {
        Some(Distro::Rhel)
    } else if contains(l, &vec!['c', 'e', 'n', 't', 'o', 's']) {
        Some(Distro::CentOs)
    } else if contains(l, &vec!['f', 'e', 'd', 'o', 'r', 'a']) {
        Some(Distro::Fedora)
    } else if contains(l, &vec!['a', 'l', 'p', 'i', 'n', 'e']) {
        Some(Distro::Alpine)
    } else if contains(l, &vec!['f', 'r', 'e', 'e', 'b', 's', 'd']) {
        Some(Distro::FreeBsd)
    } else if contains(l, &vec!['o', 'p', 'e', 'n', 'b', 's', 'd']) {
        Some(Distro::OpenBsd)
    } else {
        None
    }
}

fn http_distro_of(l: &Vec<char>) -> (r: Option<Distro>)
    ensures
        r == http_distro(l@),
{
    if contains(l, &vec!['u', 'b', 'u', 'n', 't', 'u']) {
        Some(Distro::Ubuntu)
    } else if contains(l, &vec!['d', 'e', 'b', 'i', 'a', 'n']) {
        Some(Distro::Debian)
    } else if contains(l, &vec!['c', 'e', 'n', 't', 'o', 's']) {
        Some(Distro::CentOs)
    } else if contains(l, &vec!['r', 'h', 'e', 'l']) {
        Some(Distro::Rhel)
    } else if contains(l, &vec!['f', 'e', 'd', 'o', 'r', 'a']) {
        Some(Distro::Fedora)
    } else if contains(l, &vec!['a', 'l', 'p', 'i', 'n', 'e']) {
        Some(Distro::Alpine)
    } else if contains(l, &vec!['f', 'r', 'e', 'e', 'b', 's', 'd']) {
        Some(Distro::FreeBsd)
    } else if contains(l, &vec!['w', 'i', 'n', 'd', 'o', 'w', 's']) {
        Some(Distro::Windows)
    } else {
        None
    }
}

fn distro_text(d: Distro) -> (r: String)
    ensures
        r@ == distro_os(d),
{
    let name = match d {
        Distro::Ubuntu => vec!['U', 'b', 'u', 'n', 't', 'u'],
        Distro::Debian => vec!['D', 'e', 'b', 'i', 'a', 'n'],
        Distro::Rhel => vec!['R', 'H', 'E', 'L'],
        Distro::CentOs => vec!['C', 'e', 'n', 't', 'O', 'S'],
        Distro::Fedora => vec!['F', 'e', 'd', 'o', 'r', 'a'],
        Distro::Alpine => vec!['A', 'l', 'p', 'i', 'n', 'e'],
        Distro::FreeBsd => vec!['F', 'r', 'e', 'e', 'B', 'S', 'D'],
        Distro::OpenBsd => vec!['O', 'p', 'e', 'n', 'B', 'S', 'D'],
        Distro::Windows => vec!['W', 'i', 'n', 'd', 'o', 'w', 's'],
    };
    assert(name@ == distro_name(d));
    let mut s = string_of(&name);
    match d {
        Distro::Windows | Distro::FreeBsd | Distro::OpenBsd => {},
        _ => {
            push_chars(&mut s, &vec![' ', 'L', 'i', 'n', 'u', 'x']);
        },
    }
    s
}

fn count_of(ds: &Vec<Distro>, d: Distro) -> (r: usize)
    ensures
        r == occurrences(ds@, d),
{
    let mut c: usize = 0;
    let mut i: usize = 0;
    while i < ds.len()
        invariant
            i <= ds.len(),
            c == occurrences(ds@.take(i as int), d),
            c <= i,
        decreases ds.len() - i,
    {
        assert(ds@.take(i + 1).drop_last() =~= ds@.take(i as int));
        if ds[i] == d {
            c = c + 1;
        }
        i = i + 1;
    }
    assert(ds@.take(i as int) =~= ds@);
    c
}

/// The distribution guess for the ports, given their lower-case banners
/// (see [`distro_guess`]).
pub fn detect_distro_from_banners(ports: &[(u16, String, Option<String>)], lows: &Vec<String>) -> (r: Option<String>)
    requires
        lows@.len() == ports@.len(),
    ensures
        opt_view(r) == distro_guess(detected(ports@, lows@.map_values(|s: String| s@), ports@.len() as int)),
{
    let ghost lv = lows@.map_values(|s: String| s@);
    let mut ds: Vec<Distro> = Vec::new();
    let mut i: usize = 0;
    while i < ports.len()
        invariant
            i <= ports.len(),
            lows@.len() == ports@.len(),
            lv == lows@.map_values(|s: String| s@),
            ds@ == detected(ports@, lv, i as int),
        decreases ports.len() - i,
    {
        let (port, _, banner) = &ports[i];
        let with_banner = banner.is_some();
        let l = chars_of(lows[i].as_str());
        let found = if !with_banner {
            None
        } else if *port == 22 {
            ssh_distro_of(&l)
        } else if *port == 80 || *port == 443 || *port == 8080 || *port == 8443 {
            http_distro_of(&l)
        } else {
            None
        };
        match found {
            Some(d) => ds.push(d),
            None => {},
        }
        i = i + 1;
    }
    if ds.len() == 0 {
        return None;
    }
    let mut best: usize = 0;
    let mut best_count = count_of(&ds, ds[0]);
    let mut k: usize = 1;
    while k < ds.len()
        invariant
            1 <= k <= ds.len(),
            best < k,
            best == best_upto(ds@, k as int),
            best_count == occurrences(ds@, ds@[best as int]),
        decreases ds.len() - k,
    {
        let c = count_of(&ds, ds[k]);
        if c > best_count {
            best = k;
            best_count = c;
        }
        k = k + 1;
    }
    Some(distro_text(ds[best]))
}

// ---------------------------------------------------------------------------
// Operating-system families
// ---------------------------------------------------------------------------

pub open spec fn pts(b: bool, n: int) -> int {
    if b { n } else { 0 }
}

/// Windows evidence of one port.
pub open spec fn win_points(port: u16, svc: Seq<char>, low: Seq<char>) -> int {
    pts(contains_seq(low, seq!['m', 'i', 'c', 'r', 'o', 's', 'o', 'f', 't', '-', 'i', 'i', 's']), 3) + pts(
        contains_seq(low, seq!['m', 'i', 'c', 'r', 'o', 's', 'o', 'f', 't']) || contains_seq(low, seq!['w', 'i', 'n', 'd', 'o', 'w', 's']),
        2,
    ) + pts(contains_seq(low, seq!['o', 'p', 'e', 'n', 's', 's', 'h', '_', 'f', 'o', 'r', '_', 'w', 'i', 'n', 'd', 'o', 'w', 's']), 3) + pts(port == 3389, 2) + pts(
        port == 135 || port == 139 || svc == seq!['m', 's', 'r', 'p', 'c'],
        1,
    ) + pts(contains_seq(low, seq!['e', 'x', 'c', 'h', 'a', 'n', 'g', 'e']) && port == 25, 2)
}

/// Linux evidence of one port.
pub open spec fn linux_points(low: Seq<char>) -> int {
    pts(contains_seq(low, seq!['a', 'p', 'a', 'c', 'h', 'e']) && !contains_seq(low, seq!['i', 'i', 's']), 1) + pts(
        contains_seq(low, seq!['n', 'g', 'i', 'n', 'x']),
        1,
    ) + pts(contains_seq(low, seq!['o', 'p', 'e', 'n', 's', 's', 'h']) && !contains_seq(low, seq!['w', 'i', 'n', 'd', 'o', 'w', 's']), 1) + pts(
        contains_seq(low, seq!['s', 'a', 'm', 'b', 'a']),
        1,
    )
}

pub open spec fn win_score(ports: Seq<(u16, String, Option<String>)>, lows: Seq<Seq<char>>, n: int) -> int
    decreases n,
{
    if n <= 0 {
        0
    } else {
        win_score(ports, lows, n - 1) + win_points(ports[n - 1].0, ports[n - 1].1@, lows[n - 1])
    }
}

pub open spec fn linux_score(ports: Seq<(u16, String, Option<String>)>, lows: Seq<Seq<char>>, n: int) -> int
    decreases n,
{
    if n <= 0 {
        0
    } else {
        linux_score(ports, lows, n - 1) + linux_points(lows[n - 1])
    }
}

pub open spec fn has_port(ports: Seq<(u16, String, Option<String>)>, p: u16) -> bool {
    exists|i: int| 0 <= i < ports.len() && #[trigger] ports[i].0 == p
}

pub open spec fn present(ports: Seq<(u16, String, Option<String>)>, ps: Seq<u16>) -> int
    decreases ps.len(),
{
    if ps.len() == 0 {
        0
    } else {
        present(ports, ps.drop_last()) + pts(has_port(ports, ps.last()), 1)
    }
}

pub open spec fn win_ports() -> Seq<u16> {
    seq![135u16, 139, 445, 3389, 593, 1433]
}

pub open spec fn linux_ports() -> Seq<u16> {
    seq![22u16, 53, 80, 443, 3306, 5432, 6379, 27017, 9090, 9200]
}

/// The family guess when no distribution was recognised.
pub open spec fn family_guess(ports: Seq<(u16, String, Option<String>)>, lows: Seq<Seq<char>>) -> Option<Seq<char>> {
    let w = win_score(ports, lows, ports.len() as int);
    let l = linux_score(ports, lows, ports.len() as int);
    let wc = present(ports, win_ports());
    let lc = present(ports, linux_ports());
    if w >= 3 && w > l {
        Some(seq!['W', 'i', 'n', 'd', 'o', 'w', 's'])
    } else if l >= 3 && l > w {
        Some(seq!['L', 'i', 'n', 'u', 'x'])
    } else if w > 0 && l == 0 {
        Some(seq!['W', 'i', 'n', 'd', 'o', 'w', 's'])
    } else if l > 0 && w == 0 {
        Some(seq!['L', 'i', 'n', 'u', 'x'])
    } else if wc >= 2 && has_port(ports, 3389) {
        Some(seq!['L', 'i', 'k', 'e', 'l', 'y', ' ', 'W', 'i', 'n', 'd', 'o', 'w', 's', ' ', '(', 'R', 'D', 'P', ' ', '+', ' ', 'R', 'P', 'C', ')'])
    } else if lc >= 3 {
        Some(seq!['L', 'i', 'k', 'e', 'l', 'y', ' ', 'L', 'i', 'n', 'u', 'x'])
    } else if has_port(ports, 3389) || wc >= 2 {
        Some(seq!['L', 'i', 'k', 'e', 'l', 'y', ' ', 'W', 'i', 'n', 'd', 'o', 'w', 's'])
    } else if has_port(ports, 22) {
        Some(seq!['L', 'i', 'k', 'e', 'l', 'y', ' ', 'L', 'i', 'n', 'u', 'x', '/', 'U', 'n', 'i', 'x'])
    } else {
        None
    }
}

broadcast use vstd::std_specs::hash::group_hash_axioms;

/// The set of the port numbers of `ports`.
fn port_set(ports: &[(u16, String, Option<String>)]) -> (r: HashSet<u16>)
    ensures
        forall|p: u16| #[trigger] r@.contains(p) <==> has_port(ports@, p),
{
    let mut set: HashSet<u16> = HashSet::new();
    let mut i: usize = 0;
    while i < ports.len()
        invariant
            i <= ports.len(),
            forall|p: u16| #[trigger] set@.contains(p) <==> exists|k: int| 0 <= k < i && #[trigger] ports@[k].0 == p,
        decreases ports.len() - i,
    {
        set.insert(ports[i].0);
        proof {
            assert forall|p: u16| #[trigger] set@.contains(p) <==> exists|k: int|
                0 <= k < i + 1 && #[trigger] ports@[k].0 == p by {
                if set@.contains(p) && p != ports@[i as int].0 {
                    let k = choose|k: int| 0 <= k < i && #[trigger] ports@[k].0 == p;
                }
                if p == ports@[i as int].0 {
                    assert(ports@[i as int].0 == p);
                }
            }
        }
        i = i + 1;
    }
    set
}

fn present_exec(set: &HashSet<u16>, ports: &[(u16, String, Option<String>)], ps: &Vec<u16>) -> (r: u32)
    requires
        ps.len() < 100,
        forall|p: u16| #[trigger] set@.contains(p) <==> has_port(ports@, p),
    ensures
        r == present(ports@, ps@),
{
    let mut c: u32 = 0;
    let mut i: usize = 0;
    while i < ps.len()
        invariant
            i <= ps.len() < 100,
            forall|p: u16| #[trigger] set@.contains(p) <==> has_port(ports@, p),
            c == present(ports@, ps@.take(i as int)),
            c <= i,
        decreases ps.len() - i,
    {
        assert(ps@.take(i + 1).drop_last() =~= ps@.take(i as int));
        if set.contains(&ps[i]) {
            c = c + 1;
        }
        i = i + 1;
    }
    assert(ps@.take(i as int) =~= ps@);
    c
}

fn port_points(port: u16, sv: &Vec<char>, low: &Vec<char>) -> (r: (u8, u8))
    ensures
        r.0 == win_points(port, sv@, low@),
        r.1 == linux_points(low@),
{
    let mut w: u8 = 0;
    let mut l: u8 = 0;
    if contains(low, &vec!['m', 'i', 'c', 'r', 'o', 's', 'o', 'f', 't', '-', 'i', 'i', 's']) {
        w = w + 3;
    }
    if contains(low, &vec!['m', 'i', 'c', 'r', 'o', 's', 'o', 'f', 't']) || contains(low, &vec!['w', 'i', 'n', 'd', 'o', 'w', 's']) {
        w = w + 2;
    }
    if contains(low, &vec!['o', 'p', 'e', 'n', 's', 's', 'h', '_', 'f', 'o', 'r', '_', 'w', 'i', 'n', 'd', 'o', 'w', 's']) {
        w = w + 3;
    }
    if port == 3389 {
        w = w + 2;
    }
    if port == 135 || port == 139 || text_eq(sv, &vec!['m', 's', 'r', 'p', 'c']) {
        w = w + 1;
    }
    if contains(low, &vec!['e', 'x', 'c', 'h', 'a', 'n', 'g', 'e']) && port == 25 {
        w = w + 2;
    }
    if contains(low, &vec!['a', 'p', 'a', 'c', 'h', 'e']) && !contains(low, &vec!['i', 'i', 's']) {
        l = l + 1;
    }
    if contains(low, &vec!['n', 'g', 'i', 'n', 'x']) {
        l = l + 1;
    }
    if contains(low, &vec!['o', 'p', 'e', 'n', 's', 's', 'h']) && !contains(low, &vec!['w', 'i', 'n', 'd', 'o', 'w', 's']) {
        l = l + 1;
    }
    if contains(low, &vec!['s', 'a', 'm', 'b', 'a']) {
        l = l + 1;
    }
    (w, l)
}

/// The family guess for the ports, given their lower-case banners (see
/// [`family_guess`]).
pub fn fallback_os_family(ports: &[(u16, String, Option<String>)], lows: &Vec<String>) -> (r: Option<String>)
    requires
        lows@.len() == ports@.len(),
    ensures
        opt_view(r) == family_guess(ports@, lows@.map_values(|s: String| s@)),
{
    let ghost lv = lows@.map_values(|s: String| s@);
    let mut w: u128 = 0;
    let mut l: u128 = 0;
    let mut i: usize = 0;
    while i < ports.len()
        invariant
            i <= ports.len(),
            lows@.len() == ports@.len(),
            lv == lows@.map_values(|s: String| s@),
            w == win_score(ports@, lv, i as int),
            l == linux_score(ports@, lv, i as int),
            0 <= w <= 13 * i,
            0 <= l <= 4 * i,
        decreases ports.len() - i,
    {
        let (port, svc, _) = &ports[i];
        let low = chars_of(lows[i].as_str());
        let sv = chars_of(svc.as_str());
        let (pw, pl) = port_points(*port, &sv, &low);
        w = w + pw as u128;
        l = l + pl as u128;
        i = i + 1;
    }
    if w >= 3 && w > l {
        return Some(string_of(&vec!['W', 'i', 'n', 'd', 'o', 'w', 's']));
    }
    if l >= 3 && l > w {
        return Some(string_of(&vec!['L', 'i', 'n', 'u', 'x']));
    }
    if w > 0 && l == 0 {
        return Some(string_of(&vec!['W', 'i', 'n', 'd', 'o', 'w', 's']));
    }
    if l > 0 && w == 0 {
        return Some(string_of(&vec!['L', 'i', 'n', 'u', 'x']));
    }
    let wp: Vec<u16> = vec![135, 139, 445, 3389, 593, 1433];
    let lp: Vec<u16> = vec![22, 53, 80, 443, 3306, 5432, 6379, 27017, 9090, 9200];
    assert(wp@ =~= win_ports());
    assert(lp@ =~= linux_ports());
    let set = port_set(ports);
    let wc = present_exec(&set, ports, &wp);
    let lc = present_exec(&set, ports, &lp);
    let rdp = set.contains(&3389);
    if wc >= 2 && rdp {
        Some(string_of(&vec!['L', 'i', 'k', 'e', 'l', 'y', ' ', 'W', 'i', 'n', 'd', 'o', 'w', 's', ' ', '(', 'R', 'D', 'P', ' ', '+', ' ', 'R', 'P', 'C', ')']))
    } else if lc >= 3 {
        Some(string_of(&vec!['L', 'i', 'k', 'e', 'l', 'y', ' ', 'L', 'i', 'n', 'u', 'x']))
    } else if rdp || wc >= 2 {
        Some(string_of(&vec!['L', 'i', 'k', 'e', 'l', 'y', ' ', 'W', 'i', 'n', 'd', 'o', 'w', 's']))
    } else if set.contains(&22) {
        Some(string_of(&vec!['L', 'i', 'k', 'e', 'l', 'y', ' ', 'L', 'i', 'n', 'u', 'x', '/', 'U', 'n', 'i', 'x']))
    } else {
        None
    }
}

/// The operating-system guess for ports and their lower-case banners:
/// none without ports, else the distribution guess, else the family guess.
pub open spec fn os_guess_given(ports: Seq<(u16, String, Option<String>)>, lows: Seq<Seq<char>>) -> Option<Seq<char>> {
    if ports.len() == 0 {
        None
    } else {
        match distro_guess(detected(ports, lows, ports.len() as int)) {
            Some(d) => Some(d),
            None => family_guess(ports, lows),
        }
    }
}

/// The operating-system guess given the lower-case banners (see
/// [`os_guess_given`]).
pub fn guess_os_given(ports: &[(u16, String, Option<String>)], lows: &Vec<String>) -> (r: Option<String>)
    requires
        lows@.len() == ports@.len(),
    ensures
        opt_view(r) == os_guess_given(ports@, lows@.map_values(|s: String| s@)),
{
    if ports.len() == 0 {
        return None;
    }
    match detect_distro_from_banners(ports, lows) {
        Some(d) => Some(d),
        None => fallback_os_family(ports, lows),
    }
}

/// Guesses the operating system (with its distribution where a banner
/// names one) from open ports and their banners.
pub fn guess_os(ports: &[(u16, String, Option<String>)]) -> (r: Option<String>)
    ensures
        opt_view(r) == os_guess_given(ports@, lowered_banners(ports@)),
{
    let mut lows: Vec<String> = Vec::new();
    let mut i: usize = 0;
    while i < ports.len()
        invariant
            i <= ports.len(),
            lows@.len() == i,
            forall|k: int| 0 <= k < i ==> (#[trigger] lows@[k])@ == lowercase_of(banner_or_empty(ports@[k].2)),
        decreases ports.len() - i,
    {
        let low = match &ports[i].2 {
            Some(b) => to_lowercase(b.as_str()),
            None => {
                proof {
                    reveal_strlit("");
                    assert(""@ =~= Seq::<char>::empty());
                }
                to_lowercase("")
            },
        };
        assert(low@ == lowercase_of(banner_or_empty(ports@[i as int].2)));
        lows.push(low);
        i = i + 1;
    }
    assert(lows@.map_values(|s: String| s@) =~= lowered_banners(ports@));
    guess_os_given(ports, &lows)
}


// ---------------------------------------------------------------------------
// Banner grabbing
// ---------------------------------------------------------------------------

/// How the banner of a port is read.
#[derive(Debug, Clone, Copy, PartialEq, Eq, Structural)]
pub enum BannerPlan {
    /// Connect and read what the service sends first (SSH, FTP, SMTP).
    Read,
    /// Send an HTTP request and read the reply.
    Http,
    /// Try HTTP over TLS, then plain HTTP.
    HttpsThenHttp,
    /// Read the MySQL handshake.
    Mysql,
    /// Send PING and read the reply.
    Redis,
    /// Try HTTP, then read what the service sends first.
    HttpThenRead,
}

/// The way the banner of `port` is read.
pub open spec fn banner_plan_of(port: u16) -> BannerPlan {
    if port == 22 || port == 21 || port == 25 {
        BannerPlan::Read
    } else if port == 80 || port == 8080 || port == 8443 {
        BannerPlan::Http
    } else if port == 443 {
        BannerPlan::HttpsThenHttp
    } else if port == 3306 {
        BannerPlan::Mysql
    } else if port == 6379 {
        BannerPlan::Redis
    } else {
        BannerPlan::HttpThenRead
    }
}

/// How to read the banner of `port` (see [`banner_plan_of`]).
pub fn banner_plan(port: u16) -> (r: BannerPlan)
    ensures
        r == banner_plan_of(port),
{
    match port {
        22 | 21 | 25 => BannerPlan::Read,
        80 | 8080 | 8443 => BannerPlan::Http,
        443 => BannerPlan::HttpsThenHttp,
        3306 => BannerPlan::Mysql,
        6379 => BannerPlan::Redis,
        _ => BannerPlan::HttpThenRead,
    }
}

/// The banner read first from a service: the bytes decoded (invalid UTF-8
/// replaced) and trimmed; nothing when no byte came or only whitespace.
pub open spec fn read_text_of(buf: Seq<u8>) -> Option<Seq<char>> {
    if buf.len() == 0 {
        None
    } else if trim(utf8_lossy(buf)).len() == 0 {
        None
    } else {
        Some(trim(utf8_lossy(buf)))
    }
}

/// Reads the banner a service sent first (see [`read_text_of`]).
pub fn read_banner_text(buf: &[u8]) -> (r: Option<String>)
    ensures
        opt_view(r) == read_text_of(buf@),
{
    if buf.len() == 0 {
        return None;
    }
    let text = lossy_string(buf);
    let t = trim_chars(&chars_of(text.as_str()));
    if t.len() == 0 {
        None
    } else {
        Some(string_of(&t))
    }
}

/// The HTTP request sent to read a web server's banner.
pub open spec fn http_request_text(host: Seq<char>) -> Seq<char> {
    "GET / HTTP/1.0\r\nHost: "@ + host + "\r\n\r\n"@
}

/// Builds the HTTP request sent to `host` (see [`http_request_text`]).
pub fn http_request(host: &str) -> (r: String)
    ensures
        r@ == http_request_text(host@),
{
    let mut s = String::new();
    push_str(&mut s, "GET / HTTP/1.0\r\nHost: ");
    push_str(&mut s, host);
    push_str(&mut s, "\r\n\r\n");
    s
}

/// The banner of an HTTP reply: its first "Server:" line (any case),
/// trimmed, else its first line; nothing for an empty reply.
pub open spec fn http_text_of(buf: Seq<u8>) -> Option<Seq<char>> {
    let ls = lines(utf8_lossy(buf));
    if buf.len() == 0 {
        None
    } else {
        match server_line_from(ls, 0) {
            Some(l) => Some(trim(l)),
            None => if ls.len() > 0 {
                Some(ls[0])
            } else {
                None
            },
        }
    }
}

/// Reads the banner of an HTTP reply (see [`http_text_of`]).
pub fn http_banner_text(buf: &[u8]) -> (r: Option<String>)
    ensures
        opt_view(r) == http_text_of(buf@),
{
    if buf.len() == 0 {
        return None;
    }
    let text = lossy_string(buf);
    let cs = chars_of(text.as_str());
    let ls = split_lines(&cs);
    let ghost all = ls@.map_values(|l: Vec<char>| l@);
    let tag = vec!['s', 'e', 'r', 'v', 'e', 'r', ':'];
    let mut i: usize = 0;
    while i < ls.len()
        invariant
            i <= ls.len(),
            all == ls@.map_values(|l: Vec<char>| l@),
            all == lines(utf8_lossy(buf@)),
            buf@.len() > 0,
            tag@ == seq!['s', 'e', 'r', 'v', 'e', 'r', ':'],
            server_line_from(all, 0) == server_line_from(all, i as int),
        decreases ls.len() - i,
    {
        let line = string_of(&ls[i]);
        let low = to_lowercase(line.as_str());
        let lc = chars_of(low.as_str());
        if starts_with(&lc, &tag) {
            return Some(string_of(&trim_chars(&ls[i])));
        }
        i = i + 1;
    }
    if ls.len() > 0 {
        Some(string_of(&ls[0]))
    } else {
        None
    }
}

/// The banner of a MySQL handshake of `buf`: "MySQL " and the version text
/// that starts at byte 5 and ends at the next zero byte (or the end), when
/// more than five bytes came.
pub open spec fn mysql_text_of(buf: Seq<u8>) -> Option<Seq<char>> {
    if buf.len() > 5 {
        Some("MySQL "@ + utf8_lossy(buf.subrange(5, zero_from(buf, 5))))
    } else {
        None
    }
}

/// Reads the banner of a MySQL handshake (see [`mysql_text_of`]).
pub fn mysql_banner_text(buf: &[u8]) -> (r: Option<String>)
    ensures
        opt_view(r) == mysql_text_of(buf@),
{
    if buf.len() <= 5 {
        return None;
    }
    let mut j: usize = 5;
    while j < buf.len() && buf[j] != 0
        invariant
            5 <= j <= buf.len(),
            zero_from(buf@, 5) == zero_from(buf@, j as int),
        decreases buf.len() - j,
    {
        j = j + 1;
    }
    let mut v: Vec<u8> = Vec::new();
    let mut k: usize = 5;
    while k < j
        invariant
            5 <= k <= j <= buf.len(),
            v@ == buf@.subrange(5, k as int),
        decreases j - k,
    {
        v.push(buf[k]);
        k = k + 1;
        assert(v@ =~= buf@.subrange(5, k as int));
    }
    let mut s = String::new();
    push_str(&mut s, "MySQL ");
    let version = lossy_string(v.as_slice());
    push_str(&mut s, version.as_str());
    Some(s)
}

/// Reads the reply of a Redis server to PING: the bytes decoded (invalid
/// UTF-8 replaced) and trimmed.
pub fn redis_banner_text(buf: &[u8]) -> (r: String)
    ensures
        r@ == trim(utf8_lossy(buf@)),
{
    let text = lossy_string(buf);
    string_of(&trim_chars(&chars_of(text.as_str())))
}

/// The banner kept of what was read: sanitized, at most 1024 bytes.
pub fn clean_banner(banner: Option<String>) -> (r: Option<String>)
    ensures
        opt_view(r) == match banner {
            Some(b) => banner_result(vstd::utf8::encode_utf8(b@), 1024),
            None => None,
        },
{
    match banner {
        Some(b) => sanitize_banner(b.as_str().as_bytes(), 1024),
        None => None,
    }
}

} // verus!
