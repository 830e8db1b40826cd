//! The decisions of a UDP traceroute: which port each probe goes to, which
//! ICMP replies answer it, and how the hops are recorded.

use vstd::prelude::*;

use crate::probes::be16;
use crate::types::{same_ip, Hop, IpAddress, IpValue};

verus! {

/// The largest time-to-live tried.
pub const MAX_HOPS: u32 = 15;

/// The destination port of the first probe.
pub const PROBE_PORT_BASE: u16 = 33434;

/// The destination port of the probe sent with time-to-live `ttl`.
pub fn probe_port(ttl: u32) -> (r: u16)
    requires
        1 <= ttl <= MAX_HOPS,
    ensures
        r == PROBE_PORT_BASE + ttl - 1,
{
    (PROBE_PORT_BASE as u32 + ttl - 1) as u16
}

/// Whether an ICMP message (read from a socket that strips the outer IP
/// header) answers the probe sent from port `probe_id` to port `port`: time
/// exceeded or unreachable, quoting both ports.
pub open spec fn probe_reply_answers(msg: Seq<u8>, probe_id: u16, port: u16) -> bool {
    &&& msg.len() >= 32
    &&& (msg[0] == 11 || msg[0] == 3)
    &&& be16(msg[28], msg[29]) == probe_id
    &&& be16(msg[30], msg[31]) == port
}

/// Checks an ICMP message (see [`probe_reply_answers`]).
pub fn probe_reply_matches(msg: &[u8], probe_id: u16, port: u16) -> (r: bool)
    ensures
        r == probe_reply_answers(msg@, probe_id, port),
{
    if msg.len() < 32 {
        return false;
    }
    if msg[0] != 11 && msg[0] != 3 {
        return false;
    }
    let src: u32 = (msg[28] as u32) * 256 + (msg[29] as u32);
    let dst: u32 = (msg[30] as u32) * 256 + (msg[31] as u32);
    src == probe_id as u32 && dst == port as u32
}

/// Some answered hop of `hops` has address `ip`.
pub open spec fn answered_at(hops: Seq<Hop>, ip: IpValue) -> bool {
    exists|i: int| 0 <= i < hops.len() && hops[i].rtt_us is Some && #[trigger] hops[i].ip@ == ip
}

/// No two answered hops share an address.
pub open spec fn answered_distinct(hops: Seq<Hop>) -> bool {
    forall|i: int, j: int|
        0 <= i < j < hops.len() && hops[i].rtt_us is Some && hops[j].rtt_us is Some ==> #[trigger] hops[i].ip@
            != #[trigger] hops[j].ip@
}

/// Some hop of `hops` has address `ip`.
pub open spec fn seen_at(hops: Seq<Hop>, ip: IpValue) -> bool {
    exists|i: int| 0 <= i < hops.len() && #[trigger] hops[i].ip@ == ip
}

fn seen(hops: &Vec<Hop>, ip: &IpAddress) -> (r: bool)
    ensures
        r == seen_at(hops@, ip@),
{
    let mut i: usize = 0;
    while i < hops.len()
        invariant
            i <= hops.len(),
            forall|k: int| 0 <= k < i ==> hops@[k].ip@ != ip@,
        decreases hops.len() - i,
    {
        if same_ip(&hops[i].ip, ip) {
            return true;
        }
        i = i + 1;
    }
    false
}

/// Records the outcome of the probe with time-to-live `ttl` towards
/// `target`: no reply adds a blank hop (address 0.0.0.0); a reply from the
/// target adds its hop and ends the trace; a reply from an address already
/// recorded adds nothing; any other reply adds its hop. Returns whether the
/// trace is done.
pub fn record_hop(hops: &mut Vec<Hop>, ttl: u32, reply: Option<(IpAddress, u32)>, target: &IpAddress) -> (done: bool)
    ensures
        match reply {
            None => !done && final(hops)@ == old(hops)@.push(
                (Hop { hop: ttl, ip: IpAddress::V4([0u8, 0u8, 0u8, 0u8]), rtt_us: None }),
            ),
            Some((ip, rtt)) => if ip@ == target@ {
                done && final(hops)@ == old(hops)@.push((Hop { hop: ttl, ip: ip, rtt_us: Some(rtt) }))
            } else if seen_at(old(hops)@, ip@) {
                !done && final(hops)@ == old(hops)@
            } else {
                !done && final(hops)@ == old(hops)@.push((Hop { hop: ttl, ip: ip, rtt_us: Some(rtt) }))
            },
        },
        answered_distinct(old(hops)@) && !answered_at(old(hops)@, target@) ==> answered_distinct(final(hops)@),
{
    match reply {
        None => {
            hops.push(Hop { hop: ttl, ip: IpAddress::V4([0, 0, 0, 0]), rtt_us: None });
            false
        },
        Some((ip, rtt)) => {
            let ghost before = hops@;
            if same_ip(&ip, target) {
                hops.push(Hop { hop: ttl, ip, rtt_us: Some(rtt) });
                proof {
                    if !answered_at(before, target@) {
                        assert forall|i: int| 0 <= i < before.len() && before[i].rtt_us is Some implies before[i].ip@
                            != ip@ by {
                            if before[i].ip@ == ip@ {
                                assert(answered_at(before, target@));
                            }
                        }
                    }
                }
                true
            } else if seen(hops, &ip) {
                false
            } else {
                hops.push(Hop { hop: ttl, ip, rtt_us: Some(rtt) });
                proof {
                    assert forall|i: int| 0 <= i < before.len() implies before[i].ip@ != ip@ by {
                        if before[i].ip@ == ip@ {
                            assert(seen_at(before, ip@));
                        }
                    }
                }
                false
            }
        },
    }
}

} // verus!
