//! Assembling the record of a scanned host from what the probes found.

use vstd::prelude::*;

use crate::cve::{cve_summaries, match_cves, matched, summarises, CveDatabase, CveEntry};
use crate::fingerprint::{guess_os, lowered_banners, os_guess_given};
use crate::scanner::{host_alive, HostReachability};
use crate::text::opt_view;
use crate::types::{CveSummary, HostInfo, IpAddress, PortInfo};

verus! {

/// What the operating-system guess reads of each open port: its number,
/// service name and banner.
pub open spec fn os_inputs(ps: Seq<PortInfo>) -> Seq<(u16, String, Option<String>)> {
    ps.map_values(|p: PortInfo| (p.port, p.service_name, p.banner))
}

/// Whether a host counts as alive: it answered a ping, or (when nothing
/// answered) some port is open.
pub open spec fn alive_by(ping: HostReachability, open_ports: int) -> bool {
    match ping {
        HostReachability::NoResponse => open_ports > 0,
        _ => true,
    }
}

/// The CVE records of a database, when there is one.
pub open spec fn db_entries(db: Option<&CveDatabase>) -> Option<Seq<CveEntry>> {
    match db {
        Some(d) => Some(d.entries@),
        None => None,
    }
}

/// `cves` are what a port with CVEs attached holds: with a database and a
/// banner, one summary of each record the banner matches, in order;
/// otherwise the port's own list.
pub open spec fn attached_cves(p: PortInfo, db: Option<Seq<CveEntry>>, cves: Seq<CveSummary>) -> bool {
    match (db, p.banner) {
        (Some(d), Some(b)) => {
            let m = matched(d, p.service_name@, b@);
            &&& cves.len() == m.len()
            &&& forall|i: int| 0 <= i < cves.len() ==> summarises(#[trigger] cves[i], m[i])
        },
        _ => cves == p.cves@,
    }
}

/// `q` is port `p` with only its CVE list replaced, as
/// [`attached_cves`] says.
pub open spec fn port_finished(p: PortInfo, db: Option<Seq<CveEntry>>, q: PortInfo) -> bool {
    &&& q == PortInfo { cves: q.cves, ..p }
    &&& attached_cves(p, db, q.cves@)
}

fn os_input_of(p: &PortInfo) -> (r: (u16, String, Option<String>))
    ensures
        r == (p.port, p.service_name, p.banner),
{
    let banner = match &p.banner {
        Some(b) => Some(b.clone()),
        None => None,
    };
    (p.port, p.service_name.clone(), banner)
}

/// The record of a scanned host and whether its route is to be traced.
///
/// A host is alive when its ping was answered or, failing that, some port is
/// open. A dead host keeps its open ports and has no guess. For an alive
/// host the operating system is guessed from its ports, each port with a
/// banner gets the CVE records its banner matches in the database (when
/// there is one), and the route is to be traced. The route itself is left
/// empty here; host name and TTL are unknown.
pub fn finish_host(ip: IpAddress, ping: HostReachability, ports: Vec<PortInfo>, db: Option<&CveDatabase>) -> (r: (
    HostInfo,
    bool,
))
    ensures
        r.1 == alive_by(ping, ports@.len() as int),
        r.0.alive == r.1,
        r.0.ip == ip,
        r.0.hostname is None,
        r.0.ttl is None,
        r.0.route@.len() == 0,
        !r.1 ==> r.0.os_guess is None && r.0.ports@ == ports@,
        r.1 ==> opt_view(r.0.os_guess) == os_guess_given(os_inputs(ports@), lowered_banners(os_inputs(ports@))),
        r.1 ==> r.0.ports@.len() == ports@.len() && forall|i: int|
            0 <= i < ports@.len() ==> port_finished(ports@[i], db_entries(db), #[trigger] r.0.ports@[i]),
{
    let alive = host_alive(ping, ports.len());
    if !alive {
        let host = HostInfo { ip, hostname: None, ttl: None, os_guess: None, ports, alive: false, route: Vec::new() };
        return (host, false);
    }
    let mut for_os: Vec<(u16, String, Option<String>)> = Vec::new();
    let mut i: usize = 0;
    while i < ports.len()
        invariant
            i <= ports.len(),
            for_os@ == os_inputs(ports@).take(i as int),
        decreases ports.len() - i,
    {
        let t = os_input_of(&ports[i]);
        for_os.push(t);
        i = i + 1;
        assert(for_os@ =~= os_inputs(ports@).take(i as int));
    }
    assert(os_inputs(ports@).take(i as int) =~= os_inputs(ports@));
    let os_guess = guess_os(&for_os);
    let ghost orig = ports@;
    let mut rest = ports;
    let mut done: Vec<PortInfo> = Vec::new();
    while rest.len() > 0
        invariant
            done@.len() + rest@.len() == orig.len(),
            rest@ == orig.skip(done@.len() as int),
            forall|k: int| 0 <= k < done@.len() ==> port_finished(orig[k], db_entries(db), #[trigger] done@[k]),
        decreases rest@.len(),
    {
        let ghost n = done@.len() as int;
        let mut p = rest.remove(0);
        assert(p == orig[n]);
        match (db, &p.banner) {
            (Some(d), Some(b)) => {
                let m = match_cves(d, &p.service_name, b);
                let cves = cve_summaries(&m);
                p.cves = cves;
            },
            _ => {},
        }
        done.push(p);
        assert(rest@ =~= orig.skip(done@.len() as int));
    }
    assert(done@.len() == orig.len());
    let host = HostInfo { ip, hostname: None, ttl: None, os_guess, ports: done, alive: true, route: Vec::new() };
    (host, true)
}

} // verus!
