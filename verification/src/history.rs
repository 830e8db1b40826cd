//! Stored scan records and the comparison of two scans.

use vstd::prelude::*;

use crate::text::{
    clone_opt, contains_string, contains_u16, opt_eq, opt_view, push_unique_string, push_unique_u16, views,
};
use crate::types::{CveSummary, HostInfo, IpAddress, PortInfo, PortState, TransportProto};

verus! {

// ---------------------------------------------------------------------------
// Stored records
// ---------------------------------------------------------------------------

/// Summary of a CVE attached to a stored port.
///
/// `cvss_score` is the CVSS base score in tenths (7.5 is stored as 75).
#[derive(Debug, Clone, PartialEq)]
pub struct StoredCveSummary {
    pub id: String,
    pub severity: String,
    pub cvss_score: u32,
    pub fixed_version: Option<String>,
    pub advisory_url: Option<String>,
    pub confidence: String,
    pub method: String,
}

#[derive(Debug, Clone, PartialEq)]
pub struct StoredPortInfo {
    pub port: u16,
    pub service: String,
    pub version: Option<String>,
    pub banner: Option<String>,
    pub cves: Vec<StoredCveSummary>,
}

#[derive(Debug, Clone, PartialEq)]
pub struct StoredHostInfo {
    pub ip: String,
    pub hostname: Option<String>,
    pub os_guess: Option<String>,
    pub alive: bool,
    pub ports: Vec<StoredPortInfo>,
}

/// A complete scan as kept in the history.
#[derive(Debug, Clone, PartialEq)]
pub struct ScanRecord {
    pub id: String,
    pub label: String,
    pub targets: Vec<String>,
    pub timestamp: String,
    pub duration_secs: u64,
    pub hosts_total: u32,
    pub hosts_alive: u32,
    pub hosts_found: u32,
    pub ports_total: u32,
    pub hosts: Vec<StoredHostInfo>,
}

/// One target of a saved scanning session.
#[derive(Debug, Clone, PartialEq)]
pub struct SessionTargetData {
    pub id: String,
    pub target: String,
    /// The preset name: "Quick", "Standard", ...
    pub preset: String,
    pub custom_ports: Vec<u16>,
    /// "Queued", "Scanning", "Done" or "Error".
    pub status: String,
    pub hosts_count: u32,
    /// Set when the status is "Error".
    pub error_message: Option<String>,
}

// ---------------------------------------------------------------------------
// Diff types
// ---------------------------------------------------------------------------

/// The type of a change detected when comparing two scans.
#[derive(Debug, Clone, PartialEq)]
pub enum ChangeType {
    Added,
    Removed,
    ServiceChanged(String, String),
    VersionChanged(Option<String>, Option<String>),
}

/// A change to a single port between two scans.
#[derive(Debug, Clone, PartialEq)]
pub struct PortChange {
    pub host_ip: String,
    pub port: u16,
    pub change_type: ChangeType,
}

/// A change to a CVE entry between two scans.
#[derive(Debug, Clone, PartialEq)]
pub struct CveChange {
    pub host_ip: String,
    pub cve_id: String,
    pub change_type: ChangeType,
}

/// Result of comparing two scan records.
#[derive(Debug, Clone, PartialEq)]
pub struct ScanDiff {
    pub scan_a_id: String,
    pub scan_b_id: String,
    pub hosts_added: Vec<String>,
    pub hosts_removed: Vec<String>,
    pub hosts_unchanged: usize,
    pub port_changes: Vec<PortChange>,
    pub cve_changes: Vec<CveChange>,
    pub alive_change: i32,
    pub ports_total_change: i32,
}

/// Mathematical form of a [`ChangeType`].
pub enum ChangeKind {
    Added,
    Removed,
    ServiceChanged(Seq<char>, Seq<char>),
    VersionChanged(Option<Seq<char>>, Option<Seq<char>>),
}

/// Mathematical form of a [`PortChange`].
pub struct PortChangeView {
    pub host_ip: Seq<char>,
    pub port: u16,
    pub kind: ChangeKind,
}

/// Mathematical form of a [`CveChange`].
pub struct CveChangeView {
    pub host_ip: Seq<char>,
    pub cve_id: Seq<char>,
    pub kind: ChangeKind,
}

impl View for ChangeType {
    type V = ChangeKind;

    open spec fn view(&self) -> ChangeKind {
        match self {
            ChangeType::Added => ChangeKind::Added,
            ChangeType::Removed => ChangeKind::Removed,
            ChangeType::ServiceChanged(a, b) => ChangeKind::ServiceChanged(a@, b@),
            ChangeType::VersionChanged(a, b) => ChangeKind::VersionChanged(opt_view(*a), opt_view(*b)),
        }
    }
}

impl View for PortChange {
    type V = PortChangeView;

    open spec fn view(&self) -> PortChangeView {
        PortChangeView { host_ip: self.host_ip@, port: self.port, kind: self.change_type@ }
    }
}

impl View for CveChange {
    type V = CveChangeView;

    open spec fn view(&self) -> CveChangeView {
        CveChangeView { host_ip: self.host_ip@, cve_id: self.cve_id@, kind: self.change_type@ }
    }
}

// ---------------------------------------------------------------------------
// Specification of the comparison
// ---------------------------------------------------------------------------

/// Some host of `hosts` has the address `ip`.
pub open spec fn has_ip(hosts: Seq<StoredHostInfo>, ip: Seq<char>) -> bool {
    exists|i: int| 0 <= i < hosts.len() && #[trigger] hosts[i].ip@ == ip
}

/// The set of host addresses of a host list.
pub open spec fn ip_set(hosts: Seq<StoredHostInfo>) -> Set<Seq<char>> {
    hosts.map_values(|h: StoredHostInfo| h.ip@).to_set()
}

/// `i` is the last position of a host with address `ip`.
pub open spec fn is_last_host(hosts: Seq<StoredHostInfo>, ip: Seq<char>, i: int) -> bool {
    &&& 0 <= i < hosts.len()
    &&& hosts[i].ip@ == ip
    &&& forall|k: int| i < k < hosts.len() ==> #[trigger] hosts[k].ip@ != ip
}

/// The host that stands for an address: the last host listed with it.
pub open spec fn host_for(hosts: Seq<StoredHostInfo>, ip: Seq<char>) -> StoredHostInfo {
    hosts[choose|i: int| is_last_host(hosts, ip, i)]
}

/// Some port entry has the number `p`.
pub open spec fn has_port(ports: Seq<StoredPortInfo>, p: u16) -> bool {
    exists|i: int| 0 <= i < ports.len() && #[trigger] ports[i].port == p
}

/// `i` is the last position of a port entry with number `p`.
pub open spec fn is_last_port(ports: Seq<StoredPortInfo>, p: u16, i: int) -> bool {
    &&& 0 <= i < ports.len()
    &&& ports[i].port == p
    &&& forall|k: int| i < k < ports.len() ==> #[trigger] ports[k].port != p
}

/// The port entry that stands for a number: the last one listed with it.
pub open spec fn port_for(ports: Seq<StoredPortInfo>, p: u16) -> StoredPortInfo {
    ports[choose|i: int| is_last_port(ports, p, i)]
}

/// Some port entry of `ports` lists a CVE with identifier `id`.
pub open spec fn has_cve(ports: Seq<StoredPortInfo>, id: Seq<char>) -> bool {
    exists|i: int, j: int|
        0 <= i < ports.len() && 0 <= j < ports[i].cves.len() && #[trigger] ports[i].cves@[j].id@
            == id
}

/// Whether `kind` is a change of port `p` between the port lists `pa` and `pb`.
pub open spec fn port_change_between(
    pa: Seq<StoredPortInfo>,
    pb: Seq<StoredPortInfo>,
    p: u16,
    kind: ChangeKind,
) -> bool {
    match kind {
        ChangeKind::Added => has_port(pb, p) && !has_port(pa, p),
        ChangeKind::Removed => has_port(pa, p) && !has_port(pb, p),
        ChangeKind::ServiceChanged(s1, s2) => {
            &&& has_port(pa, p)
            &&& has_port(pb, p)
            &&& s1 == port_for(pa, p).service@
            &&& s2 == port_for(pb, p).service@
            &&& s1 != s2
        },
        ChangeKind::VersionChanged(v1, v2) => {
            &&& has_port(pa, p)
            &&& has_port(pb, p)
            &&& v1 == opt_view(port_for(pa, p).version)
            &&& v2 == opt_view(port_for(pb, p).version)
            &&& v1 != v2
        },
    }
}

/// Whether `kind` is a change of CVE `id` between the port lists `pa` and `pb`.
pub open spec fn cve_change_between(
    pa: Seq<StoredPortInfo>,
    pb: Seq<StoredPortInfo>,
    id: Seq<char>,
    kind: ChangeKind,
) -> bool {
    match kind {
        ChangeKind::Added => has_cve(pb, id) && !has_cve(pa, id),
        ChangeKind::Removed => has_cve(pa, id) && !has_cve(pb, id),
        _ => false,
    }
}

/// `c` is a port change between scans `a` and `b`: the host is in both scans,
/// and between the entries that stand for it the port changed as `c` says.
pub open spec fn expected_port_change(
    a: Seq<StoredHostInfo>,
    b: Seq<StoredHostInfo>,
    c: PortChangeView,
) -> bool {
    &&& has_ip(a, c.host_ip)
    &&& has_ip(b, c.host_ip)
    &&& port_change_between(
        host_for(a, c.host_ip).ports@,
        host_for(b, c.host_ip).ports@,
        c.port,
        c.kind,
    )
}

/// `c` is a CVE change between scans `a` and `b`.
pub open spec fn expected_cve_change(
    a: Seq<StoredHostInfo>,
    b: Seq<StoredHostInfo>,
    c: CveChangeView,
) -> bool {
    &&& has_ip(a, c.host_ip)
    &&& has_ip(b, c.host_ip)
    &&& cve_change_between(
        host_for(a, c.host_ip).ports@,
        host_for(b, c.host_ip).ports@,
        c.cve_id,
        c.kind,
    )
}

/// The views of a list of port changes.
pub open spec fn port_change_views(v: Seq<PortChange>) -> Seq<PortChangeView> {
    v.map_values(|c: PortChange| c@)
}

/// The views of a list of CVE changes.
pub open spec fn cve_change_views(v: Seq<CveChange>) -> Seq<CveChangeView> {
    v.map_values(|c: CveChange| c@)
}

// ---------------------------------------------------------------------------
// Laws
// ---------------------------------------------------------------------------

/// Two scans with the same hosts differ in nothing: no host is added or
/// removed, every host counts as unchanged, and no port or CVE changed.
pub proof fn law_same_hosts_no_changes(hosts: Seq<StoredHostInfo>)
    ensures
        forall|ip: Seq<char>| !(has_ip(hosts, ip) && !has_ip(hosts, ip)),
        ip_set(hosts).intersect(ip_set(hosts)) == ip_set(hosts),
        forall|c: PortChangeView| !expected_port_change(hosts, hosts, c),
        forall|c: CveChangeView| !expected_cve_change(hosts, hosts, c),
{
    assert(ip_set(hosts).intersect(ip_set(hosts)) =~= ip_set(hosts));
}

/// A change seen from the other side: added and removed swap, and the two
/// sides of a service or version change trade places.
pub open spec fn swap_kind(k: ChangeKind) -> ChangeKind {
    match k {
        ChangeKind::Added => ChangeKind::Removed,
        ChangeKind::Removed => ChangeKind::Added,
        ChangeKind::ServiceChanged(x, y) => ChangeKind::ServiceChanged(y, x),
        ChangeKind::VersionChanged(x, y) => ChangeKind::VersionChanged(y, x),
    }
}

pub open spec fn swap_port_change(c: PortChangeView) -> PortChangeView {
    PortChangeView { host_ip: c.host_ip, port: c.port, kind: swap_kind(c.kind) }
}

pub open spec fn swap_cve_change(c: CveChangeView) -> CveChangeView {
    CveChangeView { host_ip: c.host_ip, cve_id: c.cve_id, kind: swap_kind(c.kind) }
}

/// Two duplicate-free sequences with the same elements hold them the same
/// number of times.
proof fn lemma_same_elements_same_multiset<A>(x: Seq<A>, y: Seq<A>)
    requires
        x.no_duplicates(),
        y.no_duplicates(),
        forall|a: A| x.contains(a) <==> y.contains(a),
    ensures
        x.to_multiset() == y.to_multiset(),
{
    broadcast use vstd::seq_lib::group_to_multiset_ensures;
    x.lemma_multiset_has_no_duplicates();
    y.lemma_multiset_has_no_duplicates();
    assert forall|a: A| x.to_multiset().count(a) == y.to_multiset().count(a) by {
        if x.contains(a) {
            assert(x.to_multiset().contains(a));
            assert(y.to_multiset().contains(a));
        }
    }
    assert(x.to_multiset() =~= y.to_multiset());
}

/// Comparing the scans the other way round swaps what was added and what was
/// removed, and the two sides of every service or version change.
pub proof fn law_diff_reversed(a: Seq<StoredHostInfo>, b: Seq<StoredHostInfo>)
    ensures
        forall|h: Seq<char>, p: u16|
            #[trigger] expected_port_change(a, b, (PortChangeView { host_ip: h, port: p, kind: ChangeKind::Added }))
                <==> expected_port_change(b, a, (PortChangeView { host_ip: h, port: p, kind: ChangeKind::Removed })),
        forall|h: Seq<char>, p: u16, s1: Seq<char>, s2: Seq<char>|
            #[trigger] expected_port_change(a, b, (PortChangeView { host_ip: h, port: p, kind: ChangeKind::ServiceChanged(s1, s2) }))
                <==> expected_port_change(b, a, (PortChangeView { host_ip: h, port: p, kind: ChangeKind::ServiceChanged(s2, s1) })),
        forall|h: Seq<char>, p: u16, v1: Option<Seq<char>>, v2: Option<Seq<char>>|
            #[trigger] expected_port_change(a, b, (PortChangeView { host_ip: h, port: p, kind: ChangeKind::VersionChanged(v1, v2) }))
                <==> expected_port_change(b, a, (PortChangeView { host_ip: h, port: p, kind: ChangeKind::VersionChanged(v2, v1) })),
        forall|h: Seq<char>, id: Seq<char>|
            #[trigger] expected_cve_change(a, b, (CveChangeView { host_ip: h, cve_id: id, kind: ChangeKind::Added }))
                <==> expected_cve_change(b, a, (CveChangeView { host_ip: h, cve_id: id, kind: ChangeKind::Removed })),
{
}

/// The port and CVE changes found comparing the scans the other way round
/// are those found the first way, each seen from the other side, as many
/// times each (once).
pub proof fn law_diff_reversed_changes(
    a: Seq<StoredHostInfo>,
    b: Seq<StoredHostInfo>,
    p1: Seq<PortChangeView>,
    p2: Seq<PortChangeView>,
    c1: Seq<CveChangeView>,
    c2: Seq<CveChangeView>,
)
    requires
        p1.no_duplicates(),
        forall|c: PortChangeView| #[trigger] p1.contains(c) <==> expected_port_change(a, b, c),
        p2.no_duplicates(),
        forall|c: PortChangeView| #[trigger] p2.contains(c) <==> expected_port_change(b, a, c),
        c1.no_duplicates(),
        forall|c: CveChangeView| #[trigger] c1.contains(c) <==> expected_cve_change(a, b, c),
        c2.no_duplicates(),
        forall|c: CveChangeView| #[trigger] c2.contains(c) <==> expected_cve_change(b, a, c),
    ensures
        p2.to_multiset() == p1.map_values(|c: PortChangeView| swap_port_change(c)).to_multiset(),
        c2.to_multiset() == c1.map_values(|c: CveChangeView| swap_cve_change(c)).to_multiset(),
{
    law_diff_reversed(a, b);
    law_diff_reversed(b, a);
    let fp = |c: PortChangeView| swap_port_change(c);
    let fc = |c: CveChangeView| swap_cve_change(c);
    assert forall|x: PortChangeView, y: PortChangeView| #[trigger] fp(x) == #[trigger] fp(y) implies x == y by {
        assert(swap_kind(swap_kind(x.kind)) == x.kind);
        assert(swap_kind(swap_kind(y.kind)) == y.kind);
    }
    assert forall|x: CveChangeView, y: CveChangeView| #[trigger] fc(x) == #[trigger] fc(y) implies x == y by {
        assert(swap_kind(swap_kind(x.kind)) == x.kind);
        assert(swap_kind(swap_kind(y.kind)) == y.kind);
    }
    p1.lemma_no_duplicates_injective(fp);
    c1.lemma_no_duplicates_injective(fc);
    let mp = p1.map_values(fp);
    let mc = c1.map_values(fc);
    assert forall|c: PortChangeView| mp.contains(c) <==> p2.contains(c) by {
        let s = swap_port_change(c);
        assert(swap_port_change(s) == c);
        if mp.contains(c) {
            let k = choose|k: int| 0 <= k < mp.len() && mp[k] == c;
            assert(p1.contains(p1[k]));
            assert(fp(p1[k]) == c);
            assert(p1[k] == s);
        }
        if p2.contains(c) {
            assert(expected_port_change(b, a, c));
            match c.kind {
                ChangeKind::Added => assert(expected_port_change(a, b, s)),
                ChangeKind::Removed => assert(expected_port_change(a, b, s)),
                ChangeKind::ServiceChanged(x, y) => assert(expected_port_change(a, b, s)),
                ChangeKind::VersionChanged(x, y) => assert(expected_port_change(a, b, s)),
            }
            assert(p1.contains(s));
            let k = choose|k: int| 0 <= k < p1.len() && p1[k] == s;
            assert(mp[k] == c);
        }
    }
    assert forall|c: CveChangeView| mc.contains(c) <==> c2.contains(c) by {
        let s = swap_cve_change(c);
        assert(swap_cve_change(s) == c);
        if mc.contains(c) {
            let k = choose|k: int| 0 <= k < mc.len() && mc[k] == c;
            assert(c1.contains(c1[k]));
            assert(fc(c1[k]) == c);
            assert(c1[k] == s);
            match s.kind {
                ChangeKind::Added => assert(expected_cve_change(b, a, c)),
                ChangeKind::Removed => assert(expected_cve_change(b, a, c)),
                _ => {},
            }
        }
        if c2.contains(c) {
            assert(expected_cve_change(b, a, c));
            match c.kind {
                ChangeKind::Added => assert(expected_cve_change(a, b, s)),
                ChangeKind::Removed => assert(expected_cve_change(a, b, s)),
                _ => {},
            }
            assert(c1.contains(s));
            let k = choose|k: int| 0 <= k < c1.len() && c1[k] == s;
            assert(mc[k] == c);
        }
    }
    lemma_same_elements_same_multiset(p2, mp);
    lemma_same_elements_same_multiset(c2, mc);
}

// ---------------------------------------------------------------------------
// Lemmas
// ---------------------------------------------------------------------------

proof fn lemma_last_host_unique(hosts: Seq<StoredHostInfo>, ip: Seq<char>, i: int)
    requires
        is_last_host(hosts, ip, i),
    ensures
        host_for(hosts, ip) == hosts[i],
{
    let j = choose|j: int| is_last_host(hosts, ip, j);
    assert(is_last_host(hosts, ip, j));
    if j < i {
        assert(hosts[i].ip@ != ip);
    } else if i < j {
        assert(hosts[j].ip@ != ip);
    }
}

proof fn lemma_last_port_unique(ports: Seq<StoredPortInfo>, p: u16, i: int)
    requires
        is_last_port(ports, p, i),
    ensures
        port_for(ports, p) == ports[i],
{
    let j = choose|j: int| is_last_port(ports, p, j);
    assert(is_last_port(ports, p, j));
    if j < i {
        assert(ports[i].port != p);
    } else if i < j {
        assert(ports[j].port != p);
    }
}

proof fn lemma_ip_set(hosts: Seq<StoredHostInfo>, ip: Seq<char>)
    ensures
        ip_set(hosts).contains(ip) == has_ip(hosts, ip),
{
    let m = hosts.map_values(|h: StoredHostInfo| h.ip@);
    if has_ip(hosts, ip) {
        let i = choose|i: int| 0 <= i < hosts.len() && #[trigger] hosts[i].ip@ == ip;
        assert(m[i] == ip);
        assert(m.contains(ip));
    }
    if m.contains(ip) {
        let i = choose|i: int| 0 <= i < m.len() && m[i] == ip;
        assert(hosts[i].ip@ == ip);
    }
}

// ---------------------------------------------------------------------------
// Executable helpers
// ---------------------------------------------------------------------------

/// The distinct host addresses of a host list.
fn distinct_ips(hosts: &Vec<StoredHostInfo>) -> (r: Vec<String>)
    ensures
        views(r@).no_duplicates(),
        forall|ip: Seq<char>| views(r@).contains(ip) <==> has_ip(hosts@, ip),
{
    let mut r: Vec<String> = Vec::new();
    let mut i: usize = 0;
    while i < hosts.len()
        invariant
            i <= hosts.len(),
            views(r@).no_duplicates(),
            forall|ip: Seq<char>|
                views(r@).contains(ip) <==> exists|k: int|
                    0 <= k < i && #[trigger] hosts@[k].ip@ == ip,
        decreases hosts.len() - i,
    {
        push_unique_string(&mut r, &hosts[i].ip);
        i = i + 1;
        assert forall|ip: Seq<char>|
            views(r@).contains(ip) <==> exists|k: int|
                0 <= k < i && #[trigger] hosts@[k].ip@ == ip by {
            if exists|k: int| 0 <= k < i && #[trigger] hosts@[k].ip@ == ip {
                let k = choose|k: int| 0 <= k < i && #[trigger] hosts@[k].ip@ == ip;
                if k < i - 1 {
                    assert(exists|k2: int| 0 <= k2 < i - 1 && #[trigger] hosts@[k2].ip@ == ip);
                }
            }
            if views(r@).contains(ip) && ip == hosts@[i - 1].ip@ {
                assert(hosts@[i - 1].ip@ == ip);
            }
        }
    }
    r
}

/// The last host of `hosts` whose address is `ip`.
fn last_host<'a>(hosts: &'a Vec<StoredHostInfo>, ip: &String) -> (r: &'a StoredHostInfo)
    requires
        has_ip(hosts@, ip@),
    ensures
        *r == host_for(hosts@, ip@),
{
    let mut i: usize = hosts.len();
    while i > 0
        invariant
            i <= hosts.len(),
            has_ip(hosts@, ip@),
            forall|k: int| i <= k < hosts.len() ==> #[trigger] hosts@[k].ip@ != ip@,
        decreases i,
    {
        if hosts[i - 1].ip == *ip {
            proof {
                lemma_last_host_unique(hosts@, ip@, i - 1);
            }
            return &hosts[i - 1];
        }
        i = i - 1;
    }
    proof {
        let k = choose|k: int| 0 <= k < hosts@.len() && #[trigger] hosts@[k].ip@ == ip@;
        assert(hosts@[k].ip@ != ip@);
    }
    &hosts[0]
}

/// The distinct port numbers of a port list.
fn distinct_ports(ports: &Vec<StoredPortInfo>) -> (r: Vec<u16>)
    ensures
        r@.no_duplicates(),
        forall|p: u16| r@.contains(p) <==> has_port(ports@, p),
{
    let mut r: Vec<u16> = Vec::new();
    let mut i: usize = 0;
    while i < ports.len()
        invariant
            i <= ports.len(),
            r@.no_duplicates(),
            forall|p: u16|
                r@.contains(p) <==> exists|k: int| 0 <= k < i && #[trigger] ports@[k].port == p,
        decreases ports.len() - i,
    {
        let p = ports[i].port;
        push_unique_u16(&mut r, p);
        i = i + 1;
        assert forall|q: u16|
            r@.contains(q) <==> exists|k: int| 0 <= k < i && #[trigger] ports@[k].port == q by {
            if exists|k: int| 0 <= k < i && #[trigger] ports@[k].port == q {
                let k = choose|k: int| 0 <= k < i && #[trigger] ports@[k].port == q;
                if k < i - 1 {
                    assert(exists|k2: int| 0 <= k2 < i - 1 && #[trigger] ports@[k2].port == q);
                }
            }
            if r@.contains(q) && q == p {
                assert(ports@[i - 1].port == q);
            }
        }
    }
    r
}

/// The last port entry of `ports` with number `p`.
fn last_port<'a>(ports: &'a Vec<StoredPortInfo>, p: u16) -> (r: &'a StoredPortInfo)
    requires
        has_port(ports@, p),
    ensures
        *r == port_for(ports@, p),
{
    let mut i: usize = ports.len();
    while i > 0
        invariant
            i <= ports.len(),
            has_port(ports@, p),
            forall|k: int| i <= k < ports.len() ==> #[trigger] ports@[k].port != p,
        decreases i,
    {
        if ports[i - 1].port == p {
            proof {
                lemma_last_port_unique(ports@, p, i - 1);
            }
            return &ports[i - 1];
        }
        i = i - 1;
    }
    proof {
        let k = choose|k: int| 0 <= k < ports@.len() && #[trigger] ports@[k].port == p;
        assert(ports@[k].port != p);
    }
    &ports[0]
}

/// The distinct CVE identifiers listed across a port list.
fn distinct_cve_ids(ports: &Vec<StoredPortInfo>) -> (r: Vec<String>)
    ensures
        views(r@).no_duplicates(),
        forall|id: Seq<char>| views(r@).contains(id) <==> has_cve(ports@, id),
{
    let mut r: Vec<String> = Vec::new();
    let mut i: usize = 0;
    while i < ports.len()
        invariant
            i <= ports.len(),
            views(r@).no_duplicates(),
            forall|id: Seq<char>|
                views(r@).contains(id) <==> exists|a: int, b: int|
                    0 <= a < i && 0 <= b < ports@[a].cves.len() && #[trigger] ports@[a].cves@[b].id@
                        == id,
        decreases ports.len() - i,
    {
        let cves = &ports[i].cves;
        let mut j: usize = 0;
        while j < cves.len()
            invariant
                i < ports.len(),
                cves == ports@[i as int].cves,
                j <= cves.len(),
                views(r@).no_duplicates(),
                forall|id: Seq<char>|
                    views(r@).contains(id) <==> (exists|a: int, b: int|
                        0 <= a < i && 0 <= b < ports@[a].cves.len()
                            && #[trigger] ports@[a].cves@[b].id@ == id) || (exists|b: int|
                        0 <= b < j && #[trigger] cves@[b].id@ == id),
            decreases cves.len() - j,
        {
            push_unique_string(&mut r, &cves[j].id);
            j = j + 1;
            assert forall|id: Seq<char>|
                views(r@).contains(id) <==> (exists|a: int, b: int|
                    0 <= a < i && 0 <= b < ports@[a].cves.len() && #[trigger] ports@[a].cves@[b].id@
                        == id) || (exists|b: int| 0 <= b < j && #[trigger] cves@[b].id@ == id) by {
                if views(r@).contains(id) && id == cves@[j - 1].id@ {
                    assert(cves@[j - 1].id@ == id);
                }
                if exists|b: int| 0 <= b < j && #[trigger] cves@[b].id@ == id {
                    let b = choose|b: int| 0 <= b < j && #[trigger] cves@[b].id@ == id;
                    if b < j - 1 {
                        assert(exists|b2: int| 0 <= b2 < j - 1 && #[trigger] cves@[b2].id@ == id);
                    }
                }
            }
        }
        i = i + 1;
        assert forall|id: Seq<char>|
            views(r@).contains(id) <==> exists|a: int, b: int|
                0 <= a < i && 0 <= b < ports@[a].cves.len() && #[trigger] ports@[a].cves@[b].id@
                    == id by {
            if exists|b: int| 0 <= b < cves.len() && #[trigger] cves@[b].id@ == id {
                let b = choose|b: int| 0 <= b < cves.len() && #[trigger] cves@[b].id@ == id;
                assert(ports@[i - 1].cves@[b].id@ == id);
            }
            if exists|a: int, b: int|
                0 <= a < i && 0 <= b < ports@[a].cves.len() && #[trigger] ports@[a].cves@[b].id@
                    == id {
                let (a, b) = choose|a: int, b: int|
                    0 <= a < i && 0 <= b < ports@[a].cves.len() && #[trigger] ports@[a].cves@[b].id@
                        == id;
                if a == i - 1 {
                    assert(cves@[b].id@ == id);
                } else {
                    assert(exists|a2: int, b2: int|
                        0 <= a2 < i - 1 && 0 <= b2 < ports@[a2].cves.len()
                            && #[trigger] ports@[a2].cves@[b2].id@ == id);
                }
            }
        }
    }
    r
}

} // verus!

verus! {

proof fn lemma_push_no_duplicates<A>(s: Seq<A>, x: A)
    requires
        s.no_duplicates(),
        !s.contains(x),
    ensures
        s.push(x).no_duplicates(),
{
    assert forall|i: int, j: int|
        0 <= i < s.push(x).len() && 0 <= j < s.push(x).len() && i != j implies s.push(x)[i]
        != s.push(x)[j] by {
        if i == s.len() {
            assert(s[j] == s.push(x)[j]);
        } else if j == s.len() {
            assert(s[i] == s.push(x)[i]);
        }
    }
}

/// Of the changes of one port of one host, a service change is listed
/// before a version change.
pub open spec fn service_before_version(cs: Seq<PortChangeView>) -> bool {
    forall|i: int, j: int|
        0 <= i < cs.len() && 0 <= j < cs.len() && cs[i].host_ip == cs[j].host_ip && cs[i].port
            == cs[j].port && (#[trigger] cs[i]).kind is ServiceChanged && (#[trigger] cs[j]).kind is VersionChanged
            ==> i < j
}

proof fn lemma_push_order(cs: Seq<PortChangeView>, c: PortChangeView)
    requires
        service_before_version(cs),
        c.kind is ServiceChanged ==> forall|k: int|
            0 <= k < cs.len() ==> !((#[trigger] cs[k]).host_ip == c.host_ip && cs[k].port == c.port
                && cs[k].kind is VersionChanged),
    ensures
        service_before_version(cs.push(c)),
{
    let t = cs.push(c);
    assert forall|i: int, j: int|
        0 <= i < t.len() && 0 <= j < t.len() && t[i].host_ip == t[j].host_ip && t[i].port == t[j].port
            && (#[trigger] t[i]).kind is ServiceChanged && (#[trigger] t[j]).kind is VersionChanged implies i < j by {
        if i < cs.len() && j < cs.len() {
            assert(t[i] == cs[i] && t[j] == cs[j]);
        } else if i == cs.len() && j < cs.len() {
            assert(t[j] == cs[j]);
        }
    }
}

fn push_port_change(r: &mut Vec<PortChange>, c: PortChange)
    requires
        port_change_views(old(r)@).no_duplicates(),
        !port_change_views(old(r)@).contains(c@),
    ensures
        port_change_views(final(r)@).no_duplicates(),
        port_change_views(final(r)@) == port_change_views(old(r)@).push(c@),
        forall|x: PortChangeView| #[trigger]
            port_change_views(final(r)@).contains(x) <==> (port_change_views(old(r)@).contains(x)
                || x == c@),
{
    let ghost old_r = r@;
    let ghost cv = c@;
    r.push(c);
    assert(port_change_views(r@) =~= port_change_views(old_r).push(cv));
    proof {
        lemma_push_no_duplicates(port_change_views(old_r), cv);
        assert(port_change_views(r@)[old_r.len() as int] == cv);
        assert forall|x: PortChangeView|
            port_change_views(r@).contains(x) <==> (port_change_views(old_r).contains(x) || x
                == cv) by {
            if port_change_views(old_r).contains(x) {
                let k = choose|k: int|
                    0 <= k < port_change_views(old_r).len() && port_change_views(old_r)[k] == x;
                assert(port_change_views(r@)[k] == x);
            }
            if port_change_views(r@).contains(x) {
                let k = choose|k: int|
                    0 <= k < port_change_views(r@).len() && port_change_views(r@)[k] == x;
                if k < old_r.len() {
                    assert(port_change_views(old_r)[k] == x);
                }
            }
        }
    }
}

fn push_cve_change(r: &mut Vec<CveChange>, c: CveChange)
    requires
        cve_change_views(old(r)@).no_duplicates(),
        !cve_change_views(old(r)@).contains(c@),
    ensures
        cve_change_views(final(r)@).no_duplicates(),
        forall|x: CveChangeView| #[trigger]
            cve_change_views(final(r)@).contains(x) <==> (cve_change_views(old(r)@).contains(x)
                || x == c@),
{
    let ghost old_r = r@;
    let ghost cv = c@;
    r.push(c);
    assert(cve_change_views(r@) =~= cve_change_views(old_r).push(cv));
    proof {
        lemma_push_no_duplicates(cve_change_views(old_r), cv);
        assert(cve_change_views(r@)[old_r.len() as int] == cv);
        assert forall|x: CveChangeView|
            cve_change_views(r@).contains(x) <==> (cve_change_views(old_r).contains(x) || x
                == cv) by {
            if cve_change_views(old_r).contains(x) {
                let k = choose|k: int|
                    0 <= k < cve_change_views(old_r).len() && cve_change_views(old_r)[k] == x;
                assert(cve_change_views(r@)[k] == x);
            }
            if cve_change_views(r@).contains(x) {
                let k = choose|k: int|
                    0 <= k < cve_change_views(r@).len() && cve_change_views(r@)[k] == x;
                if k < old_r.len() {
                    assert(cve_change_views(old_r)[k] == x);
                }
            }
        }
    }
}

/// Port changes of one host between its entries in two scans.
fn host_port_changes(ip: &String, pa: &Vec<StoredPortInfo>, pb: &Vec<StoredPortInfo>) -> (r: Vec<
    PortChange,
>)
    ensures
        port_change_views(r@).no_duplicates(),
        service_before_version(port_change_views(r@)),
        forall|c: PortChangeView| #[trigger]
            port_change_views(r@).contains(c) <==> (c.host_ip == ip@ && port_change_between(
                pa@,
                pb@,
                c.port,
                c.kind,
            )),
{
    let na = distinct_ports(pa);
    let nb = distinct_ports(pb);
    let mut r: Vec<PortChange> = Vec::new();
    let mut j: usize = 0;
    while j < nb.len()
        invariant
            j <= nb.len(),
            nb@.no_duplicates(),
            forall|p: u16| nb@.contains(p) <==> has_port(pb@, p),
            forall|p: u16| na@.contains(p) <==> has_port(pa@, p),
            port_change_views(r@).no_duplicates(),
            service_before_version(port_change_views(r@)),
            forall|c: PortChangeView| #[trigger]
                port_change_views(r@).contains(c) <==> (c.host_ip == ip@ && c.kind
                    == ChangeKind::Added && nb@.take(j as int).contains(c.port) && !has_port(
                    pa@,
                    c.port,
                )),
        decreases nb.len() - j,
    {
        let p = nb[j];
        let ghost tj = nb@.take(j as int);
        assert(nb@.take(j + 1) == tj.push(p));
        if !contains_u16(&na, p) {
            let c = PortChange { host_ip: ip.clone(), port: p, change_type: ChangeType::Added };
            proof {
                lemma_push_order(port_change_views(r@), c@);
            }
            assert(!tj.contains(p)) by {
                if tj.contains(p) {
                    let k = choose|k: int| 0 <= k < tj.len() && tj[k] == p;
                    assert(nb@[k] == nb@[j as int]);
                }
            }
            push_port_change(&mut r, c);
        }
        j = j + 1;
        assert forall|c: PortChangeView| #[trigger]
            port_change_views(r@).contains(c) <==> (c.host_ip == ip@ && c.kind == ChangeKind::Added
                && nb@.take(j as int).contains(c.port) && !has_port(pa@, c.port)) by {
            if nb@.take(j as int).contains(c.port) && c.port != p {
                let k = choose|k: int| 0 <= k < j && nb@.take(j as int)[k] == c.port;
                assert(tj[k] == c.port);
            }
            if c.port == p {
                assert(nb@.take(j as int)[j - 1] == p);
            }
            if tj.contains(c.port) {
                let k = choose|k: int| 0 <= k < tj.len() && tj[k] == c.port;
                assert(nb@.take(j as int)[k] == c.port);
            }
        }
    }
    assert(nb@.take(nb.len() as int) == nb@);
    let mut j: usize = 0;
    while j < na.len()
        invariant
            j <= na.len(),
            na@.no_duplicates(),
            forall|p: u16| nb@.contains(p) <==> has_port(pb@, p),
            forall|p: u16| na@.contains(p) <==> has_port(pa@, p),
            port_change_views(r@).no_duplicates(),
            service_before_version(port_change_views(r@)),
            forall|c: PortChangeView| #[trigger]
                port_change_views(r@).contains(c) <==> (c.host_ip == ip@ && ((c.kind
                    == ChangeKind::Added && has_port(pb@, c.port) && !has_port(pa@, c.port)) || (
                c.kind == ChangeKind::Removed && na@.take(j as int).contains(c.port) && !has_port(
                    pb@,
                    c.port,
                )))),
        decreases na.len() - j,
    {
        let p = na[j];
        let ghost tj = na@.take(j as int);
        assert(na@.take(j + 1) == tj.push(p));
        if !contains_u16(&nb, p) {
            let c = PortChange { host_ip: ip.clone(), port: p, change_type: ChangeType::Removed };
            proof {
                lemma_push_order(port_change_views(r@), c@);
            }
            assert(!tj.contains(p)) by {
                if tj.contains(p) {
                    let k = choose|k: int| 0 <= k < tj.len() && tj[k] == p;
                    assert(na@[k] == na@[j as int]);
                }
            }
            assert(na@.contains(p)) by {
                assert(na@[j as int] == p);
            }
            push_port_change(&mut r, c);
        }
        j = j + 1;
        assert forall|c: PortChangeView| #[trigger]
            port_change_views(r@).contains(c) <==> (c.host_ip == ip@ && ((c.kind == ChangeKind::Added
                && has_port(pb@, c.port) && !has_port(pa@, c.port)) || (c.kind
                == ChangeKind::Removed && na@.take(j as int).contains(c.port) && !has_port(
                pb@,
                c.port,
            )))) by {
            if na@.take(j as int).contains(c.port) && c.port != p {
                let k = choose|k: int| 0 <= k < j && na@.take(j as int)[k] == c.port;
                assert(tj[k] == c.port);
            }
            if c.port == p {
                assert(na@.take(j as int)[j - 1] == p);
            }
            if tj.contains(c.port) {
                let k = choose|k: int| 0 <= k < tj.len() && tj[k] == c.port;
                assert(na@.take(j as int)[k] == c.port);
            }
        }
    }
    assert(na@.take(na.len() as int) == na@);
    let mut j: usize = 0;
    while j < na.len()
        invariant
            j <= na.len(),
            na@.no_duplicates(),
            forall|p: u16| nb@.contains(p) <==> has_port(pb@, p),
            forall|p: u16| na@.contains(p) <==> has_port(pa@, p),
            port_change_views(r@).no_duplicates(),
            service_before_version(port_change_views(r@)),
            forall|c: PortChangeView| #[trigger]
                port_change_views(r@).contains(c) <==> (c.host_ip == ip@ && (((c.kind
                    == ChangeKind::Added || c.kind == ChangeKind::Removed) && port_change_between(
                    pa@,
                    pb@,
                    c.port,
                    c.kind,
                )) || (!(c.kind == ChangeKind::Added || c.kind == ChangeKind::Removed)
                    && na@.take(j as int).contains(c.port) && port_change_between(
                    pa@,
                    pb@,
                    c.port,
                    c.kind,
                )))),
        decreases na.len() - j,
    {
        let p = na[j];
        let ghost tj = na@.take(j as int);
        assert(na@.take(j + 1) == tj.push(p));
        assert(!tj.contains(p)) by {
            if tj.contains(p) {
                let k = choose|k: int| 0 <= k < tj.len() && tj[k] == p;
                assert(na@[k] == na@[j as int]);
            }
        }
        assert(na@.contains(p)) by {
            assert(na@[j as int] == p);
        }
        if contains_u16(&nb, p) {
            let x = last_port(pa, p);
            let y = last_port(pb, p);
            if !(x.service == y.service) {
                let c = PortChange {
                    host_ip: ip.clone(),
                    port: p,
                    change_type: ChangeType::ServiceChanged(x.service.clone(), y.service.clone()),
                };
                proof {
                    let cs = port_change_views(r@);
                    assert forall|k: int| 0 <= k < cs.len() implies !((#[trigger] cs[k]).host_ip == c@.host_ip
                        && cs[k].port == c@.port && cs[k].kind is VersionChanged) by {
                        if cs[k].port == p && cs[k].kind is VersionChanged {
                            assert(cs.contains(cs[k]));
                        }
                    }
                    lemma_push_order(cs, c@);
                }
                push_port_change(&mut r, c);
            }
            if !opt_eq(&x.version, &y.version) {
                let c = PortChange {
                    host_ip: ip.clone(),
                    port: p,
                    change_type: ChangeType::VersionChanged(
                        clone_opt(&x.version),
                        clone_opt(&y.version),
                    ),
                };
                proof {
                    lemma_push_order(port_change_views(r@), c@);
                }
                push_port_change(&mut r, c);
            }
        }
        j = j + 1;
        assert forall|c: PortChangeView| #[trigger]
            port_change_views(r@).contains(c) <==> (c.host_ip == ip@ && (((c.kind
                == ChangeKind::Added || c.kind == ChangeKind::Removed) && port_change_between(
                pa@,
                pb@,
                c.port,
                c.kind,
            )) || (!(c.kind == ChangeKind::Added || c.kind == ChangeKind::Removed) && na@.take(
                j as int,
            ).contains(c.port) && port_change_between(pa@, pb@, c.port, c.kind)))) by {
            if na@.take(j as int).contains(c.port) && c.port != p {
                let k = choose|k: int| 0 <= k < j && na@.take(j as int)[k] == c.port;
                assert(tj[k] == c.port);
            }
            if c.port == p {
                assert(na@.take(j as int)[j - 1] == p);
            }
            if tj.contains(c.port) {
                let k = choose|k: int| 0 <= k < tj.len() && tj[k] == c.port;
                assert(na@.take(j as int)[k] == c.port);
            }
        }
    }
    assert(na@.take(na.len() as int) == na@);
    assert forall|c: PortChangeView| #[trigger]
        port_change_views(r@).contains(c) <==> (c.host_ip == ip@ && port_change_between(
            pa@,
            pb@,
            c.port,
            c.kind,
        )) by {
        match c.kind {
            ChangeKind::ServiceChanged(s1, s2) => {
                if port_change_between(pa@, pb@, c.port, c.kind) {
                    assert(na@.contains(c.port));
                }
            },
            ChangeKind::VersionChanged(v1, v2) => {
                if port_change_between(pa@, pb@, c.port, c.kind) {
                    assert(na@.contains(c.port));
                }
            },
            _ => {},
        }
    }
    r
}

} // verus!

verus! {

/// CVE changes of one host between its entries in two scans.
fn host_cve_changes(ip: &String, pa: &Vec<StoredPortInfo>, pb: &Vec<StoredPortInfo>) -> (r: Vec<
    CveChange,
>)
    ensures
        cve_change_views(r@).no_duplicates(),
        forall|c: CveChangeView| #[trigger]
            cve_change_views(r@).contains(c) <==> (c.host_ip == ip@ && cve_change_between(
                pa@,
                pb@,
                c.cve_id,
                c.kind,
            )),
{
    let ia = distinct_cve_ids(pa);
    let ib = distinct_cve_ids(pb);
    let mut r: Vec<CveChange> = Vec::new();
    let mut j: usize = 0;
    while j < ib.len()
        invariant
            j <= ib.len(),
            views(ib@).no_duplicates(),
            forall|id: Seq<char>| views(ib@).contains(id) <==> has_cve(pb@, id),
            forall|id: Seq<char>| views(ia@).contains(id) <==> has_cve(pa@, id),
            cve_change_views(r@).no_duplicates(),
            forall|c: CveChangeView| #[trigger]
                cve_change_views(r@).contains(c) <==> (c.host_ip == ip@ && c.kind
                    == ChangeKind::Added && views(ib@).take(j as int).contains(c.cve_id)
                    && !has_cve(pa@, c.cve_id)),
        decreases ib.len() - j,
    {
        let ghost tj = views(ib@).take(j as int);
        let ghost id = ib@[j as int]@;
        assert(views(ib@).take(j + 1) == tj.push(id));
        assert(views(ib@)[j as int] == id);
        if !contains_string(&ia, &ib[j]) {
            let c = CveChange {
                host_ip: ip.clone(),
                cve_id: ib[j].clone(),
                change_type: ChangeType::Added,
            };
            assert(!tj.contains(id)) by {
                if tj.contains(id) {
                    let k = choose|k: int| 0 <= k < tj.len() && tj[k] == id;
                    assert(views(ib@)[k] == views(ib@)[j as int]);
                }
            }
            push_cve_change(&mut r, c);
        }
        j = j + 1;
        assert forall|c: CveChangeView| #[trigger]
            cve_change_views(r@).contains(c) <==> (c.host_ip == ip@ && c.kind == ChangeKind::Added
                && views(ib@).take(j as int).contains(c.cve_id) && !has_cve(pa@, c.cve_id)) by {
            if views(ib@).take(j as int).contains(c.cve_id) && c.cve_id != id {
                let k = choose|k: int| 0 <= k < j && views(ib@).take(j as int)[k] == c.cve_id;
                assert(tj[k] == c.cve_id);
            }
            if c.cve_id == id {
                assert(views(ib@).take(j as int)[j - 1] == id);
            }
            if tj.contains(c.cve_id) {
                let k = choose|k: int| 0 <= k < tj.len() && tj[k] == c.cve_id;
                assert(views(ib@).take(j as int)[k] == c.cve_id);
            }
        }
    }
    assert(views(ib@).take(ib.len() as int) == views(ib@));
    let mut j: usize = 0;
    while j < ia.len()
        invariant
            j <= ia.len(),
            views(ia@).no_duplicates(),
            forall|id: Seq<char>| views(ib@).contains(id) <==> has_cve(pb@, id),
            forall|id: Seq<char>| views(ia@).contains(id) <==> has_cve(pa@, id),
            cve_change_views(r@).no_duplicates(),
            forall|c: CveChangeView| #[trigger]
                cve_change_views(r@).contains(c) <==> (c.host_ip == ip@ && ((c.kind
                    == ChangeKind::Added && has_cve(pb@, c.cve_id) && !has_cve(pa@, c.cve_id)) || (
                c.kind == ChangeKind::Removed && views(ia@).take(j as int).contains(c.cve_id)
                    && !has_cve(pb@, c.cve_id)))),
        decreases ia.len() - j,
    {
        let ghost tj = views(ia@).take(j as int);
        let ghost id = ia@[j as int]@;
        assert(views(ia@).take(j + 1) == tj.push(id));
        assert(views(ia@)[j as int] == id);
        if !contains_string(&ib, &ia[j]) {
            let c = CveChange {
                host_ip: ip.clone(),
                cve_id: ia[j].clone(),
                change_type: ChangeType::Removed,
            };
            assert(!tj.contains(id)) by {
                if tj.contains(id) {
                    let k = choose|k: int| 0 <= k < tj.len() && tj[k] == id;
                    assert(views(ia@)[k] == views(ia@)[j as int]);
                }
            }
            assert(views(ia@).contains(id));
            push_cve_change(&mut r, c);
        }
        j = j + 1;
        assert forall|c: CveChangeView| #[trigger]
            cve_change_views(r@).contains(c) <==> (c.host_ip == ip@ && ((c.kind == ChangeKind::Added
                && has_cve(pb@, c.cve_id) && !has_cve(pa@, c.cve_id)) || (c.kind
                == ChangeKind::Removed && views(ia@).take(j as int).contains(c.cve_id) && !has_cve(
                pb@,
                c.cve_id,
            )))) by {
            if views(ia@).take(j as int).contains(c.cve_id) && c.cve_id != id {
                let k = choose|k: int| 0 <= k < j && views(ia@).take(j as int)[k] == c.cve_id;
                assert(tj[k] == c.cve_id);
            }
            if c.cve_id == id {
                assert(views(ia@).take(j as int)[j - 1] == id);
            }
            if tj.contains(c.cve_id) {
                let k = choose|k: int| 0 <= k < tj.len() && tj[k] == c.cve_id;
                assert(views(ia@).take(j as int)[k] == c.cve_id);
            }
        }
    }
    assert(views(ia@).take(ia.len() as int) == views(ia@));
    r
}

} // verus!

verus! {

/// Compares two scan records by host address.
///
/// Hosts are matched by their `ip` field, ports by number and CVEs by
/// identifier. Where a scan lists one address (or one port of a host) more
/// than once, the last entry stands for it. The lists of the result hold no
/// repeated entry; their order is not part of the result's meaning.
pub fn diff_scans(a: &ScanRecord, b: &ScanRecord) -> (d: ScanDiff)
    requires
        i32::MIN <= (b.hosts_alive as i32) - (a.hosts_alive as i32) <= i32::MAX,
        i32::MIN <= (b.ports_total as i32) - (a.ports_total as i32) <= i32::MAX,
    ensures
        d.scan_a_id@ == a.id@,
        d.scan_b_id@ == b.id@,
        views(d.hosts_added@).no_duplicates(),
        forall|ip: Seq<char>| #[trigger]
            views(d.hosts_added@).contains(ip) <==> (has_ip(b.hosts@, ip) && !has_ip(
                a.hosts@,
                ip,
            )),
        views(d.hosts_removed@).no_duplicates(),
        forall|ip: Seq<char>| #[trigger]
            views(d.hosts_removed@).contains(ip) <==> (has_ip(a.hosts@, ip) && !has_ip(
                b.hosts@,
                ip,
            )),
        d.hosts_unchanged == ip_set(a.hosts@).intersect(ip_set(b.hosts@)).len(),
        port_change_views(d.port_changes@).no_duplicates(),
        service_before_version(port_change_views(d.port_changes@)),
        forall|c: PortChangeView| #[trigger]
            port_change_views(d.port_changes@).contains(c) <==> expected_port_change(
                a.hosts@,
                b.hosts@,
                c,
            ),
        cve_change_views(d.cve_changes@).no_duplicates(),
        forall|c: CveChangeView| #[trigger]
            cve_change_views(d.cve_changes@).contains(c) <==> expected_cve_change(
                a.hosts@,
                b.hosts@,
                c,
            ),
        d.alive_change == (b.hosts_alive as i32) - (a.hosts_alive as i32),
        d.ports_total_change == (b.ports_total as i32) - (a.ports_total as i32),
{
    let a_ips = distinct_ips(&a.hosts);
    let b_ips = distinct_ips(&b.hosts);

    let mut hosts_added: Vec<String> = Vec::new();
    let mut i: usize = 0;
    while i < b_ips.len()
        invariant
            i <= b_ips.len(),
            views(b_ips@).no_duplicates(),
            forall|ip: Seq<char>| views(a_ips@).contains(ip) <==> has_ip(a.hosts@, ip),
            views(hosts_added@).no_duplicates(),
            forall|ip: Seq<char>| #[trigger]
                views(hosts_added@).contains(ip) <==> (views(b_ips@).take(i as int).contains(ip)
                    && !has_ip(a.hosts@, ip)),
        decreases b_ips.len() - i,
    {
        let ghost tj = views(b_ips@).take(i as int);
        assert(views(b_ips@).take(i + 1) == tj.push(b_ips@[i as int]@));
        assert(views(b_ips@)[i as int] == b_ips@[i as int]@);
        if !contains_string(&a_ips, &b_ips[i]) {
            push_unique_string(&mut hosts_added, &b_ips[i]);
        }
        i = i + 1;
        assert forall|ip: Seq<char>| #[trigger]
            views(hosts_added@).contains(ip) <==> (views(b_ips@).take(i as int).contains(ip)
                && !has_ip(a.hosts@, ip)) by {
            let x = b_ips@[i - 1]@;
            if views(b_ips@).take(i as int).contains(ip) && ip != x {
                let k = choose|k: int| 0 <= k < i && views(b_ips@).take(i as int)[k] == ip;
                assert(tj[k] == ip);
            }
            if ip == x {
                assert(views(b_ips@).take(i as int)[i - 1] == x);
            }
            if tj.contains(ip) {
                let k = choose|k: int| 0 <= k < tj.len() && tj[k] == ip;
                assert(views(b_ips@).take(i as int)[k] == ip);
            }
        }
    }
    assert(views(b_ips@).take(b_ips.len() as int) == views(b_ips@));

    let mut hosts_removed: Vec<String> = Vec::new();
    let mut hosts_unchanged: usize = 0;
    let ghost mut common: Seq<Seq<char>> = Seq::empty();
    let mut port_changes: Vec<PortChange> = Vec::new();
    let mut cve_changes: Vec<CveChange> = Vec::new();
    let mut i: usize = 0;
    while i < a_ips.len()
        invariant
            i <= a_ips.len(),
            views(a_ips@).no_duplicates(),
            forall|ip: Seq<char>| views(a_ips@).contains(ip) <==> has_ip(a.hosts@, ip),
            forall|ip: Seq<char>| views(b_ips@).contains(ip) <==> has_ip(b.hosts@, ip),
            views(hosts_removed@).no_duplicates(),
            forall|ip: Seq<char>| #[trigger]
                views(hosts_removed@).contains(ip) <==> (views(a_ips@).take(i as int).contains(
                    ip,
                ) && !has_ip(b.hosts@, ip)),
            common.no_duplicates(),
            hosts_unchanged == common.len(),
            common.len() <= i,
            forall|ip: Seq<char>| #[trigger]
                common.contains(ip) <==> (views(a_ips@).take(i as int).contains(ip) && has_ip(
                    b.hosts@,
                    ip,
                )),
            port_change_views(port_changes@).no_duplicates(),
            service_before_version(port_change_views(port_changes@)),
            forall|c: PortChangeView| #[trigger]
                port_change_views(port_changes@).contains(c) <==> (views(a_ips@).take(
                    i as int,
                ).contains(c.host_ip) && expected_port_change(a.hosts@, b.hosts@, c)),
            cve_change_views(cve_changes@).no_duplicates(),
            forall|c: CveChangeView| #[trigger]
                cve_change_views(cve_changes@).contains(c) <==> (views(a_ips@).take(
                    i as int,
                ).contains(c.host_ip) && expected_cve_change(a.hosts@, b.hosts@, c)),
        decreases a_ips.len() - i,
    {
        let ip = &a_ips[i];
        let ghost tj = views(a_ips@).take(i as int);
        assert(views(a_ips@).take(i + 1) == tj.push(ip@));
        assert(views(a_ips@)[i as int] == ip@);
        assert(!tj.contains(ip@)) by {
            if tj.contains(ip@) {
                let k = choose|k: int| 0 <= k < tj.len() && tj[k] == ip@;
                assert(views(a_ips@)[k] == views(a_ips@)[i as int]);
            }
        }
        assert(has_ip(a.hosts@, ip@)) by {
            assert(views(a_ips@).contains(ip@));
        }
        let ghost old_pc = port_changes@;
        let ghost old_cc = cve_changes@;
        let ghost old_common = common;
        if contains_string(&b_ips, ip) {
            hosts_unchanged = hosts_unchanged + 1;
            proof {
                lemma_push_no_duplicates(common, ip@);
                common = common.push(ip@);
                assert(common[common.len() - 1] == ip@);
            }
            let ha = last_host(&a.hosts, ip);
            let hb = last_host(&b.hosts, ip);
            let pcs = host_port_changes(ip, &ha.ports, &hb.ports);
            let mut k: usize = 0;
            while k < pcs.len()
                invariant
                    k <= pcs.len(),
                    port_change_views(pcs@).no_duplicates(),
                    forall|c: PortChangeView| #[trigger]
                        port_change_views(pcs@).contains(c) ==> c.host_ip == ip@,
                    forall|c: PortChangeView| #[trigger]
                        port_change_views(old_pc).contains(c) ==> tj.contains(c.host_ip),
                    !tj.contains(ip@),
                    port_change_views(port_changes@).no_duplicates(),
                    service_before_version(port_change_views(pcs@)),
                    service_before_version(port_change_views(port_changes@)),
                    port_change_views(port_changes@) == port_change_views(old_pc) + port_change_views(pcs@).take(k as int),
                    forall|c: PortChangeView| #[trigger]
                        port_change_views(port_changes@).contains(c) <==> (port_change_views(
                            old_pc,
                        ).contains(c) || port_change_views(pcs@).take(k as int).contains(c)),
                decreases pcs.len() - k,
            {
                let ghost cv = pcs@[k as int]@;
                let ghost tk = port_change_views(pcs@).take(k as int);
                assert(port_change_views(pcs@)[k as int] == cv);
                assert(port_change_views(pcs@).take(k + 1) == tk.push(cv));
                assert(port_change_views(pcs@).contains(cv));
                assert(!tk.contains(cv)) by {
                    if tk.contains(cv) {
                        let m = choose|m: int| 0 <= m < tk.len() && tk[m] == cv;
                        assert(port_change_views(pcs@)[m] == port_change_views(pcs@)[k as int]);
                    }
                }
                proof {
                    let cs = port_change_views(port_changes@);
                    let o = port_change_views(old_pc);
                    assert forall|m: int| 0 <= m < cs.len() implies !((#[trigger] cs[m]).host_ip == cv.host_ip
                        && cs[m].port == cv.port && cs[m].kind is VersionChanged) || !(cv.kind is ServiceChanged) by {
                        if m < o.len() {
                            assert(cs[m] == o[m]);
                            assert(o.contains(o[m]));
                        } else {
                            assert(cs[m] == port_change_views(pcs@)[m - o.len()]);
                            assert(cv.host_ip == ip@);
                        }
                    }
                    lemma_push_order(cs, cv);
                }
                push_port_change(&mut port_changes, pcs[k].clone_change());
                k = k + 1;
                assert forall|c: PortChangeView| #[trigger]
                    port_change_views(port_changes@).contains(c) <==> (port_change_views(
                        old_pc,
                    ).contains(c) || port_change_views(pcs@).take(k as int).contains(c)) by {
                    if port_change_views(pcs@).take(k as int).contains(c) && c != cv {
                        let m = choose|m: int|
                            0 <= m < k && port_change_views(pcs@).take(k as int)[m] == c;
                        assert(tk[m] == c);
                    }
                    if c == cv {
                        assert(port_change_views(pcs@).take(k as int)[k - 1] == cv);
                    }
                    if tk.contains(c) {
                        let m = choose|m: int| 0 <= m < tk.len() && tk[m] == c;
                        assert(port_change_views(pcs@).take(k as int)[m] == c);
                    }
                }
            }
            assert(port_change_views(pcs@).take(pcs.len() as int) == port_change_views(pcs@));
            let ccs = host_cve_changes(ip, &ha.ports, &hb.ports);
            let mut k: usize = 0;
            while k < ccs.len()
                invariant
                    k <= ccs.len(),
                    cve_change_views(ccs@).no_duplicates(),
                    forall|c: CveChangeView| #[trigger]
                        cve_change_views(ccs@).contains(c) ==> c.host_ip == ip@,
                    forall|c: CveChangeView| #[trigger]
                        cve_change_views(old_cc).contains(c) ==> tj.contains(c.host_ip),
                    !tj.contains(ip@),
                    cve_change_views(cve_changes@).no_duplicates(),
                    forall|c: CveChangeView| #[trigger]
                        cve_change_views(cve_changes@).contains(c) <==> (cve_change_views(
                            old_cc,
                        ).contains(c) || cve_change_views(ccs@).take(k as int).contains(c)),
                decreases ccs.len() - k,
            {
                let ghost cv = ccs@[k as int]@;
                let ghost tk = cve_change_views(ccs@).take(k as int);
                assert(cve_change_views(ccs@)[k as int] == cv);
                assert(cve_change_views(ccs@).take(k + 1) == tk.push(cv));
                assert(cve_change_views(ccs@).contains(cv));
                assert(!tk.contains(cv)) by {
                    if tk.contains(cv) {
                        let m = choose|m: int| 0 <= m < tk.len() && tk[m] == cv;
                        assert(cve_change_views(ccs@)[m] == cve_change_views(ccs@)[k as int]);
                    }
                }
                push_cve_change(&mut cve_changes, ccs[k].clone_change());
                k = k + 1;
                assert forall|c: CveChangeView| #[trigger]
                    cve_change_views(cve_changes@).contains(c) <==> (cve_change_views(
                        old_cc,
                    ).contains(c) || cve_change_views(ccs@).take(k as int).contains(c)) by {
                    if cve_change_views(ccs@).take(k as int).contains(c) && c != cv {
                        let m = choose|m: int|
                            0 <= m < k && cve_change_views(ccs@).take(k as int)[m] == c;
                        assert(tk[m] == c);
                    }
                    if c == cv {
                        assert(cve_change_views(ccs@).take(k as int)[k - 1] == cv);
                    }
                    if tk.contains(c) {
                        let m = choose|m: int| 0 <= m < tk.len() && tk[m] == c;
                        assert(cve_change_views(ccs@).take(k as int)[m] == c);
                    }
                }
            }
            assert(cve_change_views(ccs@).take(ccs.len() as int) == cve_change_views(ccs@));
        } else {
            push_unique_string(&mut hosts_removed, ip);
        }
        i = i + 1;
        assert forall|ip2: Seq<char>| #[trigger]
            views(hosts_removed@).contains(ip2) <==> (views(a_ips@).take(i as int).contains(ip2)
                && !has_ip(b.hosts@, ip2)) by {
            if views(a_ips@).take(i as int).contains(ip2) && ip2 != ip@ {
                let k = choose|k: int| 0 <= k < i && views(a_ips@).take(i as int)[k] == ip2;
                assert(tj[k] == ip2);
            }
            if ip2 == ip@ {
                assert(views(a_ips@).take(i as int)[i - 1] == ip@);
            }
            if tj.contains(ip2) {
                let k = choose|k: int| 0 <= k < tj.len() && tj[k] == ip2;
                assert(views(a_ips@).take(i as int)[k] == ip2);
            }
        }
        assert forall|ip2: Seq<char>| #[trigger]
            common.contains(ip2) <==> (views(a_ips@).take(i as int).contains(ip2) && has_ip(
                b.hosts@,
                ip2,
            )) by {
            if views(a_ips@).take(i as int).contains(ip2) && ip2 != ip@ {
                let k = choose|k: int| 0 <= k < i && views(a_ips@).take(i as int)[k] == ip2;
                assert(tj[k] == ip2);
            }
            if ip2 == ip@ {
                assert(views(a_ips@).take(i as int)[i - 1] == ip@);
                if has_ip(b.hosts@, ip2) {
                    assert(common[common.len() - 1] == ip2);
                }
            }
            if tj.contains(ip2) {
                let k = choose|k: int| 0 <= k < tj.len() && tj[k] == ip2;
                assert(views(a_ips@).take(i as int)[k] == ip2);
            }
            if common.contains(ip2) && ip2 != ip@ {
                let k = choose|k: int| 0 <= k < common.len() && common[k] == ip2;
                if common.len() > old_common.len() {
                    assert(k < old_common.len());
                }
                assert(old_common[k] == ip2);
            }
            if old_common.contains(ip2) {
                let k = choose|k: int| 0 <= k < old_common.len() && old_common[k] == ip2;
                assert(common[k] == ip2);
            }
        }
        assert forall|c: PortChangeView| #[trigger]
            port_change_views(port_changes@).contains(c) <==> (views(a_ips@).take(
                i as int,
            ).contains(c.host_ip) && expected_port_change(a.hosts@, b.hosts@, c)) by {
            if views(a_ips@).take(i as int).contains(c.host_ip) && c.host_ip != ip@ {
                let k = choose|k: int| 0 <= k < i && views(a_ips@).take(i as int)[k] == c.host_ip;
                assert(tj[k] == c.host_ip);
            }
            if c.host_ip == ip@ {
                assert(views(a_ips@).take(i as int)[i - 1] == ip@);
            }
            if tj.contains(c.host_ip) {
                let k = choose|k: int| 0 <= k < tj.len() && tj[k] == c.host_ip;
                assert(views(a_ips@).take(i as int)[k] == c.host_ip);
            }
        }
        assert forall|c: CveChangeView| #[trigger]
            cve_change_views(cve_changes@).contains(c) <==> (views(a_ips@).take(
                i as int,
            ).contains(c.host_ip) && expected_cve_change(a.hosts@, b.hosts@, c)) by {
            if views(a_ips@).take(i as int).contains(c.host_ip) && c.host_ip != ip@ {
                let k = choose|k: int| 0 <= k < i && views(a_ips@).take(i as int)[k] == c.host_ip;
                assert(tj[k] == c.host_ip);
            }
            if c.host_ip == ip@ {
                assert(views(a_ips@).take(i as int)[i - 1] == ip@);
            }
            if tj.contains(c.host_ip) {
                let k = choose|k: int| 0 <= k < tj.len() && tj[k] == c.host_ip;
                assert(views(a_ips@).take(i as int)[k] == c.host_ip);
            }
        }
    }
    assert(views(a_ips@).take(a_ips.len() as int) == views(a_ips@));
    proof {
        common.unique_seq_to_set();
        assert forall|x: Seq<char>|
            common.to_set().contains(x) <==> ip_set(a.hosts@).intersect(ip_set(b.hosts@)).contains(
                x,
            ) by {
            lemma_ip_set(a.hosts@, x);
            lemma_ip_set(b.hosts@, x);
        }
        assert(common.to_set() =~= ip_set(a.hosts@).intersect(ip_set(b.hosts@)));
    }
    ScanDiff {
        scan_a_id: a.id.clone(),
        scan_b_id: b.id.clone(),
        hosts_added,
        hosts_removed,
        hosts_unchanged,
        port_changes,
        cve_changes,
        alive_change: b.hosts_alive as i32 - a.hosts_alive as i32,
        ports_total_change: b.ports_total as i32 - a.ports_total as i32,
    }
}

impl PortChange {
    /// A copy of this change.
    pub fn clone_change(&self) -> (r: PortChange)
        ensures
            r@ == self@,
    {
        PortChange {
            host_ip: self.host_ip.clone(),
            port: self.port,
            change_type: self.change_type.clone_kind(),
        }
    }
}

impl CveChange {
    /// A copy of this change.
    pub fn clone_change(&self) -> (r: CveChange)
        ensures
            r@ == self@,
    {
        CveChange {
            host_ip: self.host_ip.clone(),
            cve_id: self.cve_id.clone(),
            change_type: self.change_type.clone_kind(),
        }
    }
}

impl ChangeType {
    /// A copy of this change type.
    pub fn clone_kind(&self) -> (r: ChangeType)
        ensures
            r@ == self@,
    {
        match self {
            ChangeType::Added => ChangeType::Added,
            ChangeType::Removed => ChangeType::Removed,
            ChangeType::ServiceChanged(x, y) => ChangeType::ServiceChanged(x.clone(), y.clone()),
            ChangeType::VersionChanged(x, y) => ChangeType::VersionChanged(clone_opt(x), clone_opt(y)),
        }
    }
}


// ---------------------------------------------------------------------------
// Stored records as scan results
// ---------------------------------------------------------------------------

/// A stored CVE summary as a scan result's summary (the same fields).
pub fn cve_summary_from_stored(s: StoredCveSummary) -> (r: CveSummary)
    ensures
        r.id == s.id,
        r.severity == s.severity,
        r.cvss_score == s.cvss_score,
        r.fixed_version == s.fixed_version,
        r.advisory_url == s.advisory_url,
        r.confidence == s.confidence,
        r.method == s.method,
{
    CveSummary {
        id: s.id,
        severity: s.severity,
        cvss_score: s.cvss_score,
        fixed_version: s.fixed_version,
        advisory_url: s.advisory_url,
        confidence: s.confidence,
        method: s.method,
    }
}

/// A stored port as a scan result's port: an open TCP port without CPE
/// name, its summaries converted one by one.
pub fn port_from_stored(s: StoredPortInfo) -> (r: PortInfo)
    ensures
        r.port == s.port,
        r.protocol == TransportProto::Tcp,
        r.state == PortState::Open,
        r.service_name == s.service,
        r.service_version == s.version,
        r.banner == s.banner,
        r.cpe is None,
        r.cves@.len() == s.cves@.len(),
        forall|i: int| 0 <= i < r.cves@.len() ==> (#[trigger] r.cves@[i]).id == s.cves@[i].id
            && r.cves@[i].severity == s.cves@[i].severity && r.cves@[i].cvss_score == s.cves@[i].cvss_score
            && r.cves@[i].fixed_version == s.cves@[i].fixed_version && r.cves@[i].advisory_url
            == s.cves@[i].advisory_url && r.cves@[i].confidence == s.cves@[i].confidence
            && r.cves@[i].method == s.cves@[i].method,
{
    let StoredPortInfo { port, service, version, banner, cves } = s;
    let ghost src = cves@;
    let mut out: Vec<CveSummary> = Vec::new();
    let mut rest = cves;
    let ghost n = src.len();
    assert(rest@ =~= src.subrange(0, n as int));
    while rest.len() > 0
        invariant
            n == src.len(),
            out@.len() + rest@.len() == n,
            rest@ =~= src.subrange(out@.len() as int, n as int),
            forall|i: int| 0 <= i < out@.len() ==> (#[trigger] out@[i]).id == src[i].id
                && out@[i].severity == src[i].severity && out@[i].cvss_score == src[i].cvss_score
                && out@[i].fixed_version == src[i].fixed_version && out@[i].advisory_url
                == src[i].advisory_url && out@[i].confidence == src[i].confidence
                && out@[i].method == src[i].method,
        decreases rest.len(),
    {
        let ghost k = out@.len() as int;
        let c = rest.remove(0);
        assert(c == src[k]);
        out.push(cve_summary_from_stored(c));
        assert(rest@ =~= src.subrange(out@.len() as int, n as int));
    }
    PortInfo {
        port,
        protocol: TransportProto::Tcp,
        state: PortState::Open,
        service_name: service,
        service_version: version,
        banner,
        cpe: None,
        cves: out,
    }
}

/// A stored host as a scan result's host at address `ip` (the caller reads
/// it from the stored text): no TTL, no route, its ports converted one by
/// one.
pub fn host_from_stored(s: StoredHostInfo, ip: IpAddress) -> (r: HostInfo)
    ensures
        r.ip == ip,
        r.hostname == s.hostname,
        r.ttl is None,
        r.os_guess == s.os_guess,
        r.alive == s.alive,
        r.route@.len() == 0,
        r.ports@.len() == s.ports@.len(),
        forall|i: int| 0 <= i < r.ports@.len() ==> (#[trigger] r.ports@[i]).port == s.ports@[i].port
            && r.ports@[i].service_name == s.ports@[i].service && r.ports@[i].service_version
            == s.ports@[i].version && r.ports@[i].banner == s.ports@[i].banner
            && r.ports@[i].cves@.len() == s.ports@[i].cves@.len(),
{
    let StoredHostInfo { ip: _, hostname, os_guess, alive, ports } = s;
    let ghost src = ports@;
    let ghost n = src.len();
    let mut rest = ports;
    assert(rest@ =~= src.subrange(0, n as int));
    let mut out: Vec<PortInfo> = Vec::new();
    while rest.len() > 0
        invariant
            n == src.len(),
            out@.len() + rest@.len() == n,
            rest@ =~= src.subrange(out@.len() as int, n as int),
            forall|i: int| 0 <= i < out@.len() ==> (#[trigger] out@[i]).port == src[i].port
                && out@[i].service_name == src[i].service && out@[i].service_version == src[i].version
                && out@[i].banner == src[i].banner && out@[i].cves@.len() == src[i].cves@.len(),
        decreases rest.len(),
    {
        let ghost k = out@.len() as int;
        let p = rest.remove(0);
        assert(p == src[k]);
        out.push(port_from_stored(p));
        assert(rest@ =~= src.subrange(out@.len() as int, n as int));
    }
    HostInfo { ip, hostname, ttl: None, os_guess, ports: out, alive, route: Vec::new() }
}

} // verus!
