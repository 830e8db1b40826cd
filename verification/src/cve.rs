//! CVE records, version ranges and matching of services against them.

use vstd::prelude::*;

use crate::text::{
    chars_of, clone_opt, has_prefix, lowercase_of, opt_view, starts_with, string_of, text_eq, to_lowercase,
};
use crate::types::CveSummary;
use crate::targets::{all_digits, digits_value, is_digit};
use crate::version::{extract_version_num, version_num};

verus! {

// ---------------------------------------------------------------------------
// Severity
// ---------------------------------------------------------------------------

/// Severity level of a CVE.
#[derive(Debug, Clone, Copy, PartialEq, Eq)]
pub enum CveSeverity {
    Critical,
    High,
    Medium,
    Low,
    /// No score, or a score of zero ("None").
    Unscored,
}

/// The severity of a CVSS score given in tenths (9.8 is 98).
pub open spec fn severity_of(tenths: u32) -> CveSeverity {
    if tenths >= 90 {
        CveSeverity::Critical
    } else if tenths >= 70 {
        CveSeverity::High
    } else if tenths >= 40 {
        CveSeverity::Medium
    } else if tenths > 0 {
        CveSeverity::Low
    } else {
        CveSeverity::Unscored
    }
}

/// The name of a severity.
pub open spec fn severity_name(s: CveSeverity) -> Seq<char> {
    match s {
        CveSeverity::Critical => "Critical"@,
        CveSeverity::High => "High"@,
        CveSeverity::Medium => "Medium"@,
        CveSeverity::Low => "Low"@,
        CveSeverity::Unscored => "None"@,
    }
}

impl CveSeverity {
    /// The severity of a CVSS score given in tenths: 9.0 and over is
    /// critical, 7.0 high, 4.0 medium, anything above 0 low.
    pub fn from_cvss_tenths(tenths: u32) -> (r: Self)
        ensures
            r == severity_of(tenths),
    {
        if tenths >= 90 {
            CveSeverity::Critical
        } else if tenths >= 70 {
            CveSeverity::High
        } else if tenths >= 40 {
            CveSeverity::Medium
        } else if tenths > 0 {
            CveSeverity::Low
        } else {
            CveSeverity::Unscored
        }
    }

    /// The name of the severity.
    pub fn as_str(&self) -> (r: &'static str)
        ensures
            r@ == severity_name(*self),
    {
        match self {
            CveSeverity::Critical => "Critical",
            CveSeverity::High => "High",
            CveSeverity::Medium => "Medium",
            CveSeverity::Low => "Low",
            CveSeverity::Unscored => "None",
        }
    }
}

// ---------------------------------------------------------------------------
// Records
// ---------------------------------------------------------------------------

/// A range of affected versions; an empty bound is open.
#[derive(Debug, Clone, PartialEq)]
pub struct VersionRange {
    pub start: String,
    pub end: String,
    pub start_including: bool,
    pub end_including: bool,
}

/// A CVE record; `cvss_score` is in tenths.
#[derive(Debug, Clone, PartialEq)]
pub struct CveEntry {
    pub id: String,
    pub package_name: String,
    pub description: String,
    pub cvss_score: u32,
    pub severity: CveSeverity,
    pub cpe_match: Vec<String>,
    pub affected_versions: Vec<VersionRange>,
    pub fixed_version: Option<String>,
    pub advisory_url: Option<String>,
}

/// The CVE records known to the scanner.
#[derive(Debug, Clone, PartialEq)]
pub struct CveDatabase {
    pub entries: Vec<CveEntry>,
    pub updated: String,
    pub total_count: u32,
}

/// Flat form of a record, as stored in the vulnerability table; `cvss_score`
/// is in tenths.
#[derive(Debug, Clone, PartialEq)]
pub struct VulnerabilityFix {
    pub cve_id: String,
    pub package_name: String,
    pub affected_version_start: Option<String>,
    pub affected_version_end: Option<String>,
    pub fixed_version: Option<String>,
    pub advisory_url: Option<String>,
    pub severity: String,
    pub cvss_score: u32,
    pub description: String,
}

impl CveDatabase {
    /// An empty database.
    pub fn empty() -> (r: Self)
        ensures
            r.entries@.len() == 0,
            r.updated@.len() == 0,
            r.total_count == 0,
    {
        CveDatabase { entries: Vec::new(), updated: String::new(), total_count: 0 }
    }
}

// ---------------------------------------------------------------------------
// Services and CPE names
// ---------------------------------------------------------------------------

/// The name under which a (lower-case) service is looked up: the http and
/// https variants fold onto "http" and "https".
pub open spec fn service_alias(l: Seq<char>) -> Seq<char> {
    if l == seq!['h', 't', 't', 'p', '-', 'a', 'l', 't'] || l == seq!['h', 't', 't', 'p', '-', 'p', 'r', 'o', 'x', 'y'] {
        seq!['h', 't', 't', 'p']
    } else if l == seq!['h', 't', 't', 'p', 's', '-', 'a', 'l', 't'] {
        seq!['h', 't', 't', 'p', 's']
    } else {
        l
    }
}

/// The CPE names of products that may run a service (by its looked-up name).
pub open spec fn cpes_of_name(n: Seq<char>) -> Seq<Seq<char>> {
    if n == seq!['s', 's', 'h'] {
        seq!["cpe:2.3:a:openbsd:openssh"@]
    } else if n == seq!['h', 't', 't', 'p'] {
        seq!["cpe:2.3:a:apache:http_server"@, "cpe:2.3:a:nginx:nginx"@, "cpe:2.3:a:apache:tomcat"@, "cpe:2.3:a:microsoft:internet_information_services"@]
    } else if n == seq!['h', 't', 't', 'p', 's'] {
        seq!["cpe:2.3:a:apache:http_server"@, "cpe:2.3:a:nginx:nginx"@, "cpe:2.3:a:microsoft:internet_information_services"@]
    } else if n == seq!['f', 't', 'p'] {
        seq!["cpe:2.3:a:filezilla:filezilla_ftp_server"@]
    } else if n == seq!['m', 'y', 's', 'q', 'l'] {
        seq!["cpe:2.3:a:oracle:mysql"@]
    } else if n == seq!['m', 's', 's', 'q', 'l'] {
        seq!["cpe:2.3:a:microsoft:sql_server"@]
    } else if n == seq!['p', 'o', 's', 't', 'g', 'r', 'e', 's', 'q', 'l'] {
        seq!["cpe:2.3:a:postgresql:postgresql"@]
    } else if n == seq!['r', 'e', 'd', 'i', 's'] {
        seq!["cpe:2.3:a:redis:redis"@]
    } else if n == seq!['m', 'o', 'n', 'g', 'o', 'd', 'b'] {
        seq!["cpe:2.3:a:mongodb:mongodb"@]
    } else if n == seq!['e', 'l', 'a', 's', 't', 'i', 'c', 's', 'e', 'a', 'r', 'c', 'h'] {
        seq!["cpe:2.3:a:elastic:elasticsearch"@]
    } else if n == seq!['o', 'r', 'a', 'c', 'l', 'e'] {
        seq!["cpe:2.3:a:oracle:oracle_database"@]
    } else if n == seq!['s', 'm', 'b'] {
        seq!["cpe:2.3:a:microsoft:windows_smb"@]
    } else if n == seq!['r', 'd', 'p'] {
        seq!["cpe:2.3:a:microsoft:remote_desktop"@]
    } else if n == seq!['v', 'n', 'c'] {
        seq!["cpe:2.3:a:realvnc:vnc"@]
    } else if n == seq!['n', 'f', 's'] {
        seq!["cpe:2.3:a:linux:nfs-utils"@]
    } else if n == seq!['d', 'n', 's'] {
        seq!["cpe:2.3:a:isc:bind"@]
    } else if n == seq!['t', 'e', 'l', 'n', 'e', 't'] {
        seq!["cpe:2.3:a:mit:telnet"@]
    } else if n == seq!['n', 'e', 't', 'b', 'i', 'o', 's'] {
        seq!["cpe:2.3:a:microsoft:netbios"@]
    } else if n == seq!['m', 's', 'r', 'p', 'c'] {
        seq!["cpe:2.3:a:microsoft:rpc"@]
    } else if n == seq!['i', 'm', 'a', 'p'] {
        seq!["cpe:2.3:a:cyrus:imap"@]
    } else if n == seq!['p', 'o', 'p', '3'] {
        seq!["cpe:2.3:a:cyrus:pop3d"@]
    } else if n == seq!['s', 'm', 't', 'p'] {
        seq!["cpe:2.3:a:postfix:postfix"@, "cpe:2.3:a:exim:exim"@]
    } else {
        Seq::empty()
    }
}

/// The CPE names for a service given in lower case.
pub open spec fn cpes_for_lower(l: Seq<char>) -> Seq<Seq<char>> {
    cpes_of_name(service_alias(l))
}

pub open spec fn str_views(v: Seq<&'static str>) -> Seq<Seq<char>> {
    v.map_values(|s: &'static str| s@)
}

/// The CPE names for a service given in lower case.
pub fn cpes_for_lowercase(lowered: &str) -> (r: Vec<&'static str>)
    ensures
        str_views(r@) == cpes_for_lower(lowered@),
{
    let l = chars_of(lowered);
    let n = if text_eq(&l, &vec!['h', 't', 't', 'p', '-', 'a', 'l', 't']) || text_eq(&l, &vec!['h', 't', 't', 'p', '-', 'p', 'r', 'o', 'x', 'y']) {
        vec!['h', 't', 't', 'p']
    } else if text_eq(&l, &vec!['h', 't', 't', 'p', 's', '-', 'a', 'l', 't']) {
        vec!['h', 't', 't', 'p', 's']
    } else {
        l
    };
    let r =     if text_eq(&n, &vec!['s', 's', 'h']) {
        vec!["cpe:2.3:a:openbsd:openssh"]
    } else if text_eq(&n, &vec!['h', 't', 't', 'p']) {
        vec!["cpe:2.3:a:apache:http_server", "cpe:2.3:a:nginx:nginx", "cpe:2.3:a:apache:tomcat", "cpe:2.3:a:microsoft:internet_information_services"]
    } else if text_eq(&n, &vec!['h', 't', 't', 'p', 's']) {
        vec!["cpe:2.3:a:apache:http_server", "cpe:2.3:a:nginx:nginx", "cpe:2.3:a:microsoft:internet_information_services"]
    } else if text_eq(&n, &vec!['f', 't', 'p']) {
        vec!["cpe:2.3:a:filezilla:filezilla_ftp_server"]
    } else if text_eq(&n, &vec!['m', 'y', 's', 'q', 'l']) {
        vec!["cpe:2.3:a:oracle:mysql"]
    } else if text_eq(&n, &vec!['m', 's', 's', 'q', 'l']) {
        vec!["cpe:2.3:a:microsoft:sql_server"]
    } else if text_eq(&n, &vec!['p', 'o', 's', 't', 'g', 'r', 'e', 's', 'q', 'l']) {
        vec!["cpe:2.3:a:postgresql:postgresql"]
    } else if text_eq(&n, &vec!['r', 'e', 'd', 'i', 's']) {
        vec!["cpe:2.3:a:redis:redis"]
    } else if text_eq(&n, &vec!['m', 'o', 'n', 'g', 'o', 'd', 'b']) {
        vec!["cpe:2.3:a:mongodb:mongodb"]
    } else if text_eq(&n, &vec!['e', 'l', 'a', 's', 't', 'i', 'c', 's', 'e', 'a', 'r', 'c', 'h']) {
        vec!["cpe:2.3:a:elastic:elasticsearch"]
    } else if text_eq(&n, &vec!['o', 'r', 'a', 'c', 'l', 'e']) {
        vec!["cpe:2.3:a:oracle:oracle_database"]
    } else if text_eq(&n, &vec!['s', 'm', 'b']) {
        vec!["cpe:2.3:a:microsoft:windows_smb"]
    } else if text_eq(&n, &vec!['r', 'd', 'p']) {
        vec!["cpe:2.3:a:microsoft:remote_desktop"]
    } else if text_eq(&n, &vec!['v', 'n', 'c']) {
        vec!["cpe:2.3:a:realvnc:vnc"]
    } else if text_eq(&n, &vec!['n', 'f', 's']) {
        vec!["cpe:2.3:a:linux:nfs-utils"]
    } else if text_eq(&n, &vec!['d', 'n', 's']) {
        vec!["cpe:2.3:a:isc:bind"]
    } else if text_eq(&n, &vec!['t', 'e', 'l', 'n', 'e', 't']) {
        vec!["cpe:2.3:a:mit:telnet"]
    } else if text_eq(&n, &vec!['n', 'e', 't', 'b', 'i', 'o', 's']) {
        vec!["cpe:2.3:a:microsoft:netbios"]
    } else if text_eq(&n, &vec!['m', 's', 'r', 'p', 'c']) {
        vec!["cpe:2.3:a:microsoft:rpc"]
    } else if text_eq(&n, &vec!['i', 'm', 'a', 'p']) {
        vec!["cpe:2.3:a:cyrus:imap"]
    } else if text_eq(&n, &vec!['p', 'o', 'p', '3']) {
        vec!["cpe:2.3:a:cyrus:pop3d"]
    } else if text_eq(&n, &vec!['s', 'm', 't', 'p']) {
        vec!["cpe:2.3:a:postfix:postfix", "cpe:2.3:a:exim:exim"]
    } else {
        Vec::new()
    };
    proof {
        assert(str_views(r@) =~= cpes_of_name(n@));
    }
    r
}

/// The services that have CPE names, in the order the feeds are queried.
pub open spec fn cpe_service_names() -> Seq<Seq<char>> {
    seq!["ssh"@, "http"@, "https"@, "ftp"@, "mysql"@, "mssql"@, "postgresql"@, "redis"@, "mongodb"@,
        "elasticsearch"@, "oracle"@, "smb"@, "rdp"@, "vnc"@, "nfs"@, "dns"@, "telnet"@, "netbios"@,
        "msrpc"@, "imap"@, "pop3"@, "smtp"@]
}

/// The services that have CPE names (see [`cpe_service_names`]).
pub fn cpe_services() -> (r: Vec<&'static str>)
    ensures
        str_views(r@) == cpe_service_names(),
{
    let r = vec!["ssh", "http", "https", "ftp", "mysql", "mssql", "postgresql", "redis", "mongodb",
        "elasticsearch", "oracle", "smb", "rdp", "vnc", "nfs", "dns", "telnet", "netbios", "msrpc",
        "imap", "pop3", "smtp"];
    assert(str_views(r@) =~= cpe_service_names());
    r
}

/// The CPE names of products that may run `service` (any case).
pub fn get_cpe_for_service(service: &str) -> (r: Vec<&'static str>)
    ensures
        str_views(r@) == cpes_for_lower(lowercase_of(service@)),
{
    let lowered = to_lowercase(service);
    cpes_for_lowercase(lowered.as_str())
}

// ---------------------------------------------------------------------------
// Version numbers
// ---------------------------------------------------------------------------

/// The fields of `s` between dots, after the partial field `cur`
/// (`split('.')`: there is always at least one field).
pub open spec fn dot_fields_from(s: Seq<char>, cur: Seq<char>) -> Seq<Seq<char>>
    decreases s.len(),
{
    if s.len() == 0 {
        seq![cur]
    } else if s[0] == '.' {
        seq![cur] + dot_fields_from(s.drop_first(), Seq::empty())
    } else {
        dot_fields_from(s.drop_first(), cur.push(s[0]))
    }
}

/// The value of `t` read as a `u32` the way `str::parse` reads it: an
/// optional '+', then one or more digits, worth at most `u32::MAX`.
pub open spec fn u32_parse(t: Seq<char>) -> Option<u32> {
    let ds = if t.len() > 0 && t[0] == '+' {
        t.drop_first()
    } else {
        t
    };
    if ds.len() == 0 || !all_digits(ds) || digits_value(ds) > 4294967295 {
        None
    } else {
        Some(digits_value(ds) as u32)
    }
}

/// The fields that read as numbers, in order.
pub open spec fn numeric_fields(fs: Seq<Seq<char>>) -> Seq<u32>
    decreases fs.len(),
{
    if fs.len() == 0 {
        Seq::empty()
    } else {
        match u32_parse(fs.last()) {
            Some(n) => numeric_fields(fs.drop_last()).push(n),
            None => numeric_fields(fs.drop_last()),
        }
    }
}

/// The numbers of a dotted version ("1.2.3" is [1, 2, 3]); fields that are
/// not numbers are skipped, and a version without any number has none.
pub open spec fn version_parts(v: Seq<char>) -> Option<Seq<u32>> {
    let p = numeric_fields(dot_fields_from(v, Seq::empty()));
    if p.len() == 0 {
        None
    } else {
        Some(p)
    }
}

proof fn lemma_value_nonneg_u(ds: Seq<char>)
    requires
        all_digits(ds),
    ensures
        digits_value(ds) >= 0,
    decreases ds.len(),
{
    if ds.len() > 0 {
        assert(all_digits(ds.drop_last())) by {
            assert forall|i: int| 0 <= i < ds.drop_last().len() implies is_digit(#[trigger] ds.drop_last()[i]) by {
                assert(ds.drop_last()[i] == ds[i]);
            }
        }
        assert(is_digit(ds[ds.len() - 1]));
        lemma_value_nonneg_u(ds.drop_last());
    }
}

/// Reads a `u32` (see [`u32_parse`]).
fn parse_u32_chars(t: &Vec<char>) -> (r: Option<u32>)
    ensures
        r == u32_parse(t@),
{
    let mut i: usize = 0;
    if t.len() > 0 && t[0] == '+' {
        i = 1;
    }
    let ghost ds = t@.skip(i as int);
    assert(ds =~= (if t@.len() > 0 && t@[0] == '+' { t@.drop_first() } else { t@ }));
    if i == t.len() {
        return None;
    }
    let start = i;
    let mut sat: u64 = 0;
    while i < t.len()
        invariant
            start <= i <= t.len(),
            start < t.len(),
            ds == t@.skip(start as int),
            ds == (if t@.len() > 0 && t@[0] == '+' { t@.drop_first() } else { t@ }),
            all_digits(t@.subrange(start as int, i as int)),
            sat == (if digits_value(t@.subrange(start as int, i as int)) > 4294967295 {
                4294967296
            } else {
                digits_value(t@.subrange(start as int, i as int))
            }),
        decreases t.len() - i,
    {
        if !('0' <= t[i] && t[i] <= '9') {
            proof {
                assert(ds[i - start] == t@[i as int]);
                assert(!is_digit(ds[i - start]));
            }
            return None;
        }
        let ghost pre = t@.subrange(start as int, i as int);
        assert(t@.subrange(start as int, i + 1).drop_last() =~= pre);
        proof {
            lemma_value_nonneg_u(pre);
        }
        let d = (t[i] as u64) - ('0' as u64);
        if sat < 4294967296 {
            let v = sat * 10 + d;
            sat = if v > 4294967295 {
                4294967296
            } else {
                v
            };
        }
        i = i + 1;
        assert(all_digits(t@.subrange(start as int, i as int))) by {
            assert forall|k: int| 0 <= k < i - start implies is_digit(
                #[trigger] t@.subrange(start as int, i as int)[k],
            ) by {
                if k < i - 1 - start {
                    assert(t@.subrange(start as int, i as int)[k] == pre[k]);
                }
            }
        }
    }
    assert(t@.subrange(start as int, i as int) =~= ds);
    if sat > 4294967295 {
        None
    } else {
        Some(sat as u32)
    }
}

/// The numbers of a dotted version (see [`version_parts`]).
pub fn parse_version(v: &str) -> (r: Option<Vec<u32>>)
    ensures
        match r {
            Some(p) => version_parts(v@) == Some(p@),
            None => version_parts(v@) is None,
        },
{
    let cs = chars_of(v);
    let mut parts: Vec<u32> = Vec::new();
    let mut cur: Vec<char> = Vec::new();
    let mut i: usize = 0;
    assert(cs@.skip(0) =~= cs@);
    assert(numeric_fields(Seq::<Seq<char>>::empty()) == Seq::<u32>::empty());
    while i < cs.len()
        invariant
            i <= cs.len(),
            cs@ == v@,
            numeric_fields(dot_fields_from(cs@, Seq::empty())) == parts@ + numeric_fields(
                dot_fields_from(cs@.skip(i as int), cur@),
            ),
        decreases cs.len() - i,
    {
        let ghost rest = cs@.skip(i as int);
        assert(rest.drop_first() =~= cs@.skip(i + 1));
        assert(rest[0] == cs@[i as int]);
        if cs[i] == '.' {
            let ghost tail = dot_fields_from(cs@.skip(i + 1), Seq::empty());
            proof {
                lemma_numeric_fields_cons(cur@, tail);
            }
            let ghost old_parts = parts@;
            match parse_u32_chars(&cur) {
                Some(n) => {
                    parts.push(n);
                    assert(old_parts + (seq![n] + numeric_fields(tail)) =~= parts@ + numeric_fields(tail));
                },
                None => {
                    assert(old_parts + numeric_fields(tail) =~= parts@ + numeric_fields(tail));
                },
            }
            cur = Vec::new();
            assert(cur@ =~= Seq::<char>::empty());
        } else {
            cur.push(cs[i]);
        }
        i = i + 1;
    }
    assert(cs@.skip(i as int) =~= Seq::<char>::empty());
    proof {
        lemma_numeric_fields_cons(cur@, Seq::empty());
        assert(seq![cur@] + Seq::<Seq<char>>::empty() =~= seq![cur@]);
    }
    match parse_u32_chars(&cur) {
        Some(n) => {
            parts.push(n);
        },
        None => {},
    }
    assert(parts@ =~= numeric_fields(dot_fields_from(cs@, Seq::empty())));
    if parts.len() == 0 {
        None
    } else {
        Some(parts)
    }
}

proof fn lemma_numeric_fields_cons(f: Seq<char>, rest: Seq<Seq<char>>)
    ensures
        numeric_fields(seq![f] + rest) == (match u32_parse(f) {
            Some(n) => seq![n],
            None => Seq::<u32>::empty(),
        }) + numeric_fields(rest),
    decreases rest.len(),
{
    if rest.len() == 0 {
        assert(seq![f] + rest =~= seq![f]);
        assert(seq![f].drop_last() =~= Seq::<Seq<char>>::empty());
        assert(numeric_fields(Seq::<Seq<char>>::empty()) =~= Seq::<u32>::empty());
        assert(numeric_fields(rest) =~= Seq::<u32>::empty());
        match u32_parse(f) {
            Some(n) => {
                assert(numeric_fields(seq![f]) == Seq::<u32>::empty().push(n));
                assert(seq![n] + Seq::<u32>::empty() =~= Seq::<u32>::empty().push(n));
            },
            None => {
                assert(Seq::<u32>::empty() + Seq::<u32>::empty() =~= Seq::<u32>::empty());
            },
        }
    } else {
        lemma_numeric_fields_cons(f, rest.drop_last());
        assert((seq![f] + rest).drop_last() =~= seq![f] + rest.drop_last());
        assert((seq![f] + rest).last() == rest.last());
        let pre = match u32_parse(f) {
            Some(n) => seq![n],
            None => Seq::<u32>::empty(),
        };
        match u32_parse(rest.last()) {
            Some(n) => {
                assert(pre + numeric_fields(rest.drop_last()).push(n) =~= (pre + numeric_fields(
                    rest.drop_last(),
                )).push(n));
            },
            None => {},
        }
    }
}

// ---------------------------------------------------------------------------
// Ranges and matching
// ---------------------------------------------------------------------------

/// `a` sorts before `b` as vectors of numbers do: at the first difference,
/// or as a proper prefix.
pub open spec fn parts_lt(a: Seq<u32>, b: Seq<u32>) -> bool
    decreases a.len(),
{
    if a.len() == 0 {
        b.len() > 0
    } else if b.len() == 0 {
        false
    } else if a[0] != b[0] {
        a[0] < b[0]
    } else {
        parts_lt(a.drop_first(), b.drop_first())
    }
}

/// Whether `version` lies in the range from `start` to `end`: a version
/// without a number never does; a bound without a number leaves the range
/// open (and then the other bound is not looked at).
pub open spec fn in_range(
    version: Seq<char>,
    start: Seq<char>,
    end: Seq<char>,
    start_including: bool,
    end_including: bool,
) -> bool {
    match version_parts(version) {
        None => false,
        Some(v) => match version_parts(start) {
            None => true,
            Some(s) => match version_parts(end) {
                None => true,
                Some(e) => {
                    &&& if start_including {
                        !parts_lt(v, s)
                    } else {
                        parts_lt(s, v)
                    }
                    &&& if end_including {
                        !parts_lt(e, v)
                    } else {
                        parts_lt(v, e)
                    }
                },
            },
        },
    }
}

proof fn lemma_parts_lt_irreflexive(a: Seq<u32>)
    ensures
        !parts_lt(a, a),
    decreases a.len(),
{
    if a.len() > 0 {
        lemma_parts_lt_irreflexive(a.drop_first());
    }
}

/// A numbered version lies in the inclusive range from itself to itself,
/// and in no range that excludes itself as an end.
pub proof fn law_version_bounds(v: Seq<char>)
    requires
        version_parts(v) is Some,
    ensures
        in_range(v, v, v, true, true),
        !in_range(v, v, v, false, true),
        !in_range(v, v, v, true, false),
{
    lemma_parts_lt_irreflexive(version_parts(v)->0);
}

/// `a` comes before `b` in the order of number lists: `a` is a proper
/// prefix of `b`, or at the first place where they differ `a` holds the
/// smaller number (whatever their lengths).
pub open spec fn before_in_order(a: Seq<u32>, b: Seq<u32>) -> bool {
    ||| (a.len() < b.len() && a == b.take(a.len() as int))
    ||| exists|i: int| 0 <= i < a.len() && i < b.len() && a.take(i) == b.take(i) && #[trigger] a[i] < b[i]
}

/// Versions are compared as number lists in lexicographic order: one comes
/// before another exactly when it is a proper prefix of it or holds the
/// smaller number at the first place they differ, so a list whose first
/// number is smaller comes first whatever the lengths ([2, 4, 49] before
/// [2, 5]). Accordingly a numbered version lies in a range with numbered
/// bounds exactly when it is not before an included start (after an
/// excluded one) and not after an included end (before an excluded one).
pub proof fn law_version_order(a: Seq<u32>, b: Seq<u32>, v: Seq<char>, start: Seq<char>, end: Seq<char>, si: bool, ei: bool)
    ensures
        parts_lt(a, b) <==> before_in_order(a, b),
        a.len() > 0 && b.len() > 0 && a[0] < b[0] ==> parts_lt(a, b),
        version_parts(v) is Some && version_parts(start) is Some && version_parts(end) is Some ==> (in_range(v, start, end, si, ei) <==> (
            (if si { !before_in_order(version_parts(v)->0, version_parts(start)->0) } else { before_in_order(version_parts(start)->0, version_parts(v)->0) })
            && (if ei { !before_in_order(version_parts(end)->0, version_parts(v)->0) } else { before_in_order(version_parts(v)->0, version_parts(end)->0) }))),
{
    lemma_parts_lt_order(a, b);
    if a.len() > 0 && b.len() > 0 && a[0] < b[0] {
        assert(a.take(0) =~= b.take(0));
        assert(before_in_order(a, b));
    }
    if version_parts(v) is Some && version_parts(start) is Some && version_parts(end) is Some {
        let (vp, sp, ep) = (version_parts(v)->0, version_parts(start)->0, version_parts(end)->0);
        lemma_parts_lt_order(vp, sp);
        lemma_parts_lt_order(sp, vp);
        lemma_parts_lt_order(ep, vp);
        lemma_parts_lt_order(vp, ep);
    }
}

proof fn lemma_parts_lt_order(a: Seq<u32>, b: Seq<u32>)
    ensures
        parts_lt(a, b) <==> before_in_order(a, b),
    decreases a.len(),
{
    if a.len() == 0 {
        if b.len() > 0 {
            assert(a =~= b.take(0));
        }
    } else if b.len() == 0 {
    } else if a[0] != b[0] {
        if a[0] < b[0] {
            assert(a.take(0) =~= b.take(0));
        }
        if a.len() < b.len() && a == b.take(a.len() as int) {
            assert(a[0] == b.take(a.len() as int)[0]);
        }
        if exists|i: int| 0 <= i < a.len() && i < b.len() && a.take(i) == b.take(i) && #[trigger] a[i] < b[i] {
            let i = choose|i: int| 0 <= i < a.len() && i < b.len() && a.take(i) == b.take(i) && #[trigger] a[i] < b[i];
            if i > 0 {
                assert(a.take(i)[0] == b.take(i)[0]);
            }
        }
    } else {
        let a1 = a.drop_first();
        let b1 = b.drop_first();
        lemma_parts_lt_order(a1, b1);
        if a.len() < b.len() && a == b.take(a.len() as int) {
            assert(a1 =~= b1.take(a1.len() as int));
        }
        if a1.len() < b1.len() && a1 == b1.take(a1.len() as int) {
            assert(a =~= b.take(a.len() as int)) by {
                assert forall|k: int| 0 <= k < a.len() implies #[trigger] a[k] == b.take(a.len() as int)[k] by {
                    if k > 0 {
                        assert(a[k] == a1[k - 1]);
                        assert(b1.take(a1.len() as int)[k - 1] == b[k]);
                    }
                }
            }
        }
        if exists|i: int| 0 <= i < a.len() && i < b.len() && a.take(i) == b.take(i) && #[trigger] a[i] < b[i] {
            let i = choose|i: int| 0 <= i < a.len() && i < b.len() && a.take(i) == b.take(i) && #[trigger] a[i] < b[i];
            assert(i > 0);
            assert(a1.take(i - 1) =~= b1.take(i - 1)) by {
                assert forall|k: int| 0 <= k < i - 1 implies #[trigger] a1.take(i - 1)[k] == b1.take(i - 1)[k] by {
                    assert(a.take(i)[k + 1] == b.take(i)[k + 1]);
                }
            }
            assert(a1[i - 1] < b1[i - 1]);
        }
        if exists|i: int| 0 <= i < a1.len() && i < b1.len() && a1.take(i) == b1.take(i) && #[trigger] a1[i] < b1[i] {
            let i = choose|i: int| 0 <= i < a1.len() && i < b1.len() && a1.take(i) == b1.take(i) && #[trigger] a1[i] < b1[i];
            assert(a.take(i + 1) =~= b.take(i + 1)) by {
                assert forall|k: int| 0 <= k < i + 1 implies #[trigger] a.take(i + 1)[k] == b.take(i + 1)[k] by {
                    if k > 0 {
                        assert(a1.take(i)[k - 1] == b1.take(i)[k - 1]);
                    }
                }
            }
            assert(a[i + 1] < b[i + 1]);
        }
    }
}

fn less_parts(a: &Vec<u32>, b: &Vec<u32>) -> (r: bool)
    ensures
        r == parts_lt(a@, b@),
{
    let mut i: usize = 0;
    assert(a@.skip(0) =~= a@);
    assert(b@.skip(0) =~= b@);
    while i < a.len() && i < b.len() && a[i] == b[i]
        invariant
            i <= a.len(),
            i <= b.len(),
            parts_lt(a@, b@) == parts_lt(a@.skip(i as int), b@.skip(i as int)),
        decreases a.len() - i,
    {
        assert(a@.skip(i as int).drop_first() =~= a@.skip(i + 1));
        assert(b@.skip(i as int).drop_first() =~= b@.skip(i + 1));
        i = i + 1;
    }
    if i == a.len() {
        i < b.len()
    } else if i == b.len() {
        false
    } else {
        assert(a@.skip(i as int)[0] == a@[i as int]);
        assert(b@.skip(i as int)[0] == b@[i as int]);
        a[i] < b[i]
    }
}

/// Whether `version` lies in `range` (see [`in_range`]).
pub fn version_in_range(version: &str, range: &VersionRange) -> (r: bool)
    ensures
        r == in_range(
            version@,
            range.start@,
            range.end@,
            range.start_including,
            range.end_including,
        ),
{
    let v = match parse_version(version) {
        Some(v) => v,
        None => return false,
    };
    let start = match parse_version(range.start.as_str()) {
        Some(s) => s,
        None => return true,
    };
    let end = match parse_version(range.end.as_str()) {
        Some(e) => e,
        None => return true,
    };
    let after_start = if range.start_including {
        !less_parts(&v, &start)
    } else {
        less_parts(&start, &v)
    };
    let before_end = if range.end_including {
        !less_parts(&end, &v)
    } else {
        less_parts(&v, &end)
    };
    after_start && before_end
}

/// Mathematical form of a range.
pub open spec fn range_holds(version: Seq<char>, r: VersionRange) -> bool {
    in_range(version, r.start@, r.end@, r.start_including, r.end_including)
}

/// Whether some CPE name of the entry starts with one of `cpes`.
pub open spec fn cpe_matches(e: CveEntry, cpes: Seq<Seq<char>>) -> bool {
    exists|i: int, j: int|
        0 <= i < e.cpe_match@.len() && 0 <= j < cpes.len() && has_prefix(
            #[trigger] e.cpe_match@[i]@,
            #[trigger] cpes[j],
        )
}

/// Whether entry `e` applies to a service whose lower-case name is `svc` and
/// whose version is `version`: the package is that service (or, for an
/// entry without package, one of its CPE names is that of a product of the
/// service), and one of its ranges holds the version.
pub open spec fn entry_applies(e: CveEntry, svc: Seq<char>, version: Seq<char>) -> bool {
    &&& if e.package_name@.len() > 0 {
        e.package_name@ == svc
    } else {
        cpe_matches(e, cpes_for_lower(svc))
    }
    &&& exists|k: int| 0 <= k < e.affected_versions@.len() && range_holds(version, #[trigger] e.affected_versions@[k])
}

/// The entries of `es` that apply, in order.
pub open spec fn applying(es: Seq<CveEntry>, svc: Seq<char>, version: Seq<char>) -> Seq<CveEntry>
    decreases es.len(),
{
    if es.len() == 0 {
        Seq::empty()
    } else if entry_applies(es.last(), svc, version) {
        applying(es.drop_last(), svc, version).push(es.last())
    } else {
        applying(es.drop_last(), svc, version)
    }
}

/// The entries matched for a service and banner: none for an empty banner,
/// an empty database or a banner without a version number; otherwise those
/// that apply to the lower-case service name and the version.
pub open spec fn matched(db: Seq<CveEntry>, service: Seq<char>, banner: Seq<char>) -> Seq<CveEntry> {
    if banner.len() == 0 || db.len() == 0 {
        Seq::empty()
    } else {
        match version_num(service, banner) {
            None => Seq::empty(),
            Some(v) => applying(db, lowercase_of(service), v),
        }
    }
}

pub open spec fn derefs<'a>(v: Seq<&'a CveEntry>) -> Seq<CveEntry> {
    v.map_values(|e: &'a CveEntry| *e)
}

fn any_range(e: &CveEntry, version: &str) -> (r: bool)
    ensures
        r == exists|k: int| 0 <= k < e.affected_versions@.len() && range_holds(version@, #[trigger] e.affected_versions@[k]),
{
    let mut k: usize = 0;
    while k < e.affected_versions.len()
        invariant
            k <= e.affected_versions.len(),
            forall|j: int| 0 <= j < k ==> !range_holds(version@, #[trigger] e.affected_versions@[j]),
        decreases e.affected_versions.len() - k,
    {
        if version_in_range(version, &e.affected_versions[k]) {
            return true;
        }
        k = k + 1;
    }
    false
}

fn any_cpe(e: &CveEntry, cpes: &Vec<&'static str>) -> (r: bool)
    ensures
        r == cpe_matches(*e, str_views(cpes@)),
{
    let mut i: usize = 0;
    while i < e.cpe_match.len()
        invariant
            i <= e.cpe_match.len(),
            forall|a: int, b: int|
                0 <= a < i && 0 <= b < cpes@.len() ==> !has_prefix(#[trigger] e.cpe_match@[a]@, #[trigger] str_views(cpes@)[b]),
        decreases e.cpe_match.len() - i,
    {
        let c = chars_of(e.cpe_match[i].as_str());
        let mut j: usize = 0;
        while j < cpes.len()
            invariant
                i < e.cpe_match.len(),
                j <= cpes.len(),
                c@ == e.cpe_match@[i as int]@,
                forall|a: int, b: int|
                    0 <= a < i && 0 <= b < cpes@.len() ==> !has_prefix(#[trigger] e.cpe_match@[a]@, #[trigger] str_views(cpes@)[b]),
                forall|b: int| 0 <= b < j ==> !has_prefix(c@, #[trigger] str_views(cpes@)[b]),
            decreases cpes.len() - j,
        {
            let k = chars_of(cpes[j]);
            if starts_with(&c, &k) {
                assert(has_prefix(e.cpe_match@[i as int]@, str_views(cpes@)[j as int]));
                return true;
            }
            j = j + 1;
        }
        i = i + 1;
    }
    false
}

/// The entries of `db` that apply to a service whose lower-case name is
/// `svc` at version `version`, in order.
pub fn applying_entries<'a>(db: &'a CveDatabase, svc: &str, version: &str) -> (r: Vec<&'a CveEntry>)
    ensures
        derefs(r@) == applying(db.entries@, svc@, version@),
{
    let cpes = cpes_for_lowercase(svc);
    let sv = chars_of(svc);
    let mut r: Vec<&'a CveEntry> = Vec::new();
    let mut i: usize = 0;
    while i < db.entries.len()
        invariant
            i <= db.entries.len(),
            str_views(cpes@) == cpes_for_lower(svc@),
            sv@ == svc@,
            derefs(r@) == applying(db.entries@.take(i as int), svc@, version@),
        decreases db.entries.len() - i,
    {
        let e = &db.entries[i];
        assert(db.entries@.take(i + 1).drop_last() =~= db.entries@.take(i as int));
        let ghost before = derefs(r@);
        let p = chars_of(e.package_name.as_str());
        let named = if p.len() > 0 {
            text_eq(&p, &sv)
        } else {
            any_cpe(e, &cpes)
        };
        if named && any_range(e, version) {
            r.push(e);
            assert(derefs(r@) =~= before.push(*e));
        }
        i = i + 1;
    }
    assert(db.entries@.take(i as int) =~= db.entries@);
    r
}

/// The CVE entries of `db` matched by the service name and banner (see
/// [`matched`]).
pub fn match_cves<'a>(db: &'a CveDatabase, service: &str, banner: &str) -> (r: Vec<&'a CveEntry>)
    ensures
        derefs(r@) == matched(db.entries@, service@, banner@),
{
    let bc = chars_of(banner);
    if bc.len() == 0 || db.entries.len() == 0 {
        return Vec::new();
    }
    let version = match extract_version_num(service, banner) {
        Some(v) => v,
        None => return Vec::new(),
    };
    let svc_lower = to_lowercase(service);
    applying_entries(db, svc_lower.as_str(), version.as_str())
}


// ---------------------------------------------------------------------------
// Summaries of matched records
// ---------------------------------------------------------------------------

/// `c` summarises record `e` as found by banner matching.
pub open spec fn summarises(c: CveSummary, e: CveEntry) -> bool {
    &&& c.id@ == e.id@
    &&& c.severity@ == severity_name(e.severity)
    &&& c.cvss_score == e.cvss_score
    &&& opt_view(c.fixed_version) == opt_view(e.fixed_version)
    &&& opt_view(c.advisory_url) == opt_view(e.advisory_url)
    &&& c.confidence@ == "medium"@
    &&& c.method@ == "banner"@
}

/// The summaries attached to a port for the records its banner matched.
pub fn cve_summaries(matched: &Vec<&CveEntry>) -> (r: Vec<CveSummary>)
    ensures
        r@.len() == matched@.len(),
        forall|i: int| 0 <= i < r@.len() ==> summarises(#[trigger] r@[i], *matched@[i]),
{
    let mut out: Vec<CveSummary> = Vec::new();
    let mut i: usize = 0;
    while i < matched.len()
        invariant
            i <= matched.len(),
            out@.len() == i,
            forall|k: int| 0 <= k < i ==> summarises(#[trigger] out@[k], *matched@[k]),
        decreases matched.len() - i,
    {
        let e = matched[i];
        out.push(CveSummary {
            id: e.id.clone(),
            severity: e.severity.as_str().to_owned(),
            cvss_score: e.cvss_score,
            fixed_version: clone_opt(&e.fixed_version),
            advisory_url: clone_opt(&e.advisory_url),
            confidence: "medium".to_owned(),
            method: "banner".to_owned(),
        });
        i = i + 1;
    }
    out
}

} // verus!
