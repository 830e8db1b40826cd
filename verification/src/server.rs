//! Checks a scan server applies to requests: the API key, the ports asked
//! for, and the addresses the targets resolve to.

use vstd::prelude::*;

use crate::export::{joined, push_joined};
use crate::scanner::{allowed, ScanPolicy};
use crate::targets::{target_error_text, TargetResolveError};
use crate::text::{chars_of, push_str, text_eq};
use crate::types::{same_ip, IpAddress, IpValue};

verus! {

// ---------------------------------------------------------------------------
// Authentication
// ---------------------------------------------------------------------------

/// Whether a request with Authorization header `header` may pass when the
/// server expects the key `expected`: any request when no key is set, else
/// "Bearer <key>" or the bare key.
pub open spec fn auth_passes(expected: Seq<char>, header: Seq<char>) -> bool {
    expected.len() == 0 || header == "Bearer "@ + expected || header == expected
}

/// Checks the Authorization header against the expected key (see
/// [`auth_passes`]).
pub fn auth_ok(expected: &str, header: &str) -> (r: bool)
    ensures
        r == auth_passes(expected@, header@),
{
    let e = chars_of(expected);
    if e.len() == 0 {
        return true;
    }
    let h = chars_of(header);
    let mut bearer = String::new();
    push_str(&mut bearer, "Bearer ");
    push_str(&mut bearer, expected);
    let b = chars_of(bearer.as_str());
    text_eq(&h, &b) || text_eq(&h, &e)
}

// ---------------------------------------------------------------------------
// Ports
// ---------------------------------------------------------------------------

/// `v` is strictly increasing.
pub open spec fn increasing(v: Seq<u16>) -> bool {
    forall|i: int, j: int| 0 <= i < j < v.len() ==> v[i] < v[j]
}

/// What [`validate_ports`] answers: an error for no port or for port 0, else
/// the distinct ports in increasing order.
pub open spec fn ports_ok(ports: Seq<u16>, r: Result<Vec<u16>, String>) -> bool {
    if ports.len() == 0 {
        r matches Err(m) && m@ == "At least one port is required"@
    } else if ports.contains(0u16) {
        r matches Err(m) && m@ == "Invalid port 0 (0 is reserved)"@
    } else {
        r matches Ok(v) && increasing(v@) && forall|p: u16| v@.contains(p) <==> ports.contains(p)
    }
}

/// Checks the ports of a scan request (see [`ports_ok`]).
pub fn validate_ports(ports: &[u16]) -> (r: Result<Vec<u16>, String>)
    ensures
        ports_ok(ports@, r),
{
    if ports.len() == 0 {
        return Err("At least one port is required".to_owned());
    }
    let mut v: Vec<u16> = Vec::new();
    let mut i: usize = 0;
    while i < ports.len()
        invariant
            i <= ports.len(),
            increasing(v@),
            forall|p: u16| v@.contains(p) <==> ports@.take(i as int).contains(p),
            !ports@.take(i as int).contains(0u16),
        decreases ports.len() - i,
    {
        let p = ports[i];
        assert(ports@.take(i + 1) =~= ports@.take(i as int).push(p));
        if p == 0 {
            return Err("Invalid port 0 (0 is reserved)".to_owned());
        }
        let mut k: usize = 0;
        while k < v.len() && v[k] < p
            invariant
                k <= v.len(),
                forall|j: int| 0 <= j < k ==> v@[j] < p,
            decreases v.len() - k,
        {
            k = k + 1;
        }
        let ghost v0 = v@;
        proof {
            let t = ports@.take(i as int);
            let t1 = ports@.take(i + 1);
            assert forall|q: u16| t1.contains(q) <==> t.contains(q) || q == p by {
                if t1.contains(q) {
                    let j = choose|j: int| 0 <= j < t1.len() && t1[j] == q;
                    if j < i {
                        assert(t[j] == q);
                    }
                }
                if t.contains(q) {
                    let j = choose|j: int| 0 <= j < t.len() && t[j] == q;
                    assert(t1[j] == q);
                }
                if q == p {
                    assert(t1[i as int] == p);
                }
            }
        }
        if k < v.len() && v[k] == p {
            assert(v@[k as int] == p);
        } else {
            let ghost old_v = v@;
            v.insert(k, p);
            assert(v@ =~= old_v.insert(k as int, p));
            assert forall|a: int, b: int| 0 <= a < b < v@.len() implies v@[a] < v@[b] by {
                if b < k {
                } else if a < k && b == k {
                } else if a < k {
                    assert(v@[b] == old_v[b - 1]);
                    if a < b - 1 {
                    }
                    assert(old_v[k as int] > p || k >= old_v.len());
                } else if a == k {
                    assert(v@[b] == old_v[b - 1]);
                    assert(old_v[k as int] > p);
                    if k < b - 1 {
                        assert(old_v[k as int] < old_v[b - 1]);
                    }
                } else {
                    assert(v@[a] == old_v[a - 1]);
                    assert(v@[b] == old_v[b - 1]);
                }
            }
            assert forall|q: u16| v@.contains(q) <==> old_v.contains(q) || q == p by {
                if v@.contains(q) {
                    let j = choose|j: int| 0 <= j < v@.len() && v@[j] == q;
                    if j < k {
                        assert(old_v[j] == q);
                    } else if j > k {
                        assert(old_v[j - 1] == q);
                    }
                }
                if old_v.contains(q) {
                    let j = choose|j: int| 0 <= j < old_v.len() && old_v[j] == q;
                    if j < k {
                        assert(v@[j] == q);
                    } else {
                        assert(v@[j + 1] == q);
                    }
                }
                if q == p {
                    assert(v@[k as int] == p);
                }
            }
        }
        assert forall|q: u16| v@.contains(q) <==> ports@.take(i + 1).contains(q) by {
            assert(v0.contains(q) <==> ports@.take(i as int).contains(q));
            assert(ports@.take(i + 1).contains(q) <==> ports@.take(i as int).contains(q) || q == p);
        }
        i = i + 1;
    }
    assert(ports@.take(i as int) =~= ports@);
    Ok(v)
}

// ---------------------------------------------------------------------------
// Addresses
// ---------------------------------------------------------------------------

pub open spec fn ip_views(v: Seq<IpAddress>) -> Seq<IpValue> {
    v.map_values(|a: IpAddress| a@)
}

/// The addresses admitted after `acc` from resolved addresses `rs`: each one
/// the policy allows and not yet admitted is appended, in order.
pub open spec fn admitted(p: ScanPolicy, acc: Seq<IpValue>, rs: Seq<IpValue>) -> Seq<IpValue>
    decreases rs.len(),
{
    if rs.len() == 0 {
        acc
    } else {
        let a = admitted(p, acc, rs.drop_last());
        if allowed(p, rs.last()) && !a.contains(rs.last()) {
            a.push(rs.last())
        } else {
            a
        }
    }
}

fn contains_ip(v: &Vec<IpAddress>, x: &IpAddress) -> (r: bool)
    ensures
        r == ip_views(v@).contains(x@),
{
    let mut i: usize = 0;
    while i < v.len()
        invariant
            i <= v.len(),
            forall|k: int| 0 <= k < i ==> v@[k]@ != x@,
        decreases v.len() - i,
    {
        if same_ip(&v[i], x) {
            assert(ip_views(v@)[i as int] == x@);
            return true;
        }
        i = i + 1;
    }
    assert forall|k: int| 0 <= k < ip_views(v@).len() implies ip_views(v@)[k] != x@ by {
        assert(ip_views(v@)[k] == v@[k]@);
    }
    false
}

/// Admits the addresses a target resolved to (see [`admitted`]).
pub fn admit_addresses(policy: &ScanPolicy, ips: &mut Vec<IpAddress>, resolved: &Vec<IpAddress>)
    ensures
        ip_views(final(ips)@) == admitted(*policy, ip_views(old(ips)@), ip_views(resolved@)),
{
    let ghost start = ip_views(ips@);
    let mut i: usize = 0;
    while i < resolved.len()
        invariant
            i <= resolved.len(),
            ip_views(ips@) == admitted(*policy, start, ip_views(resolved@).take(i as int)),
        decreases resolved.len() - i,
    {
        let x = resolved[i];
        let ghost rs = ip_views(resolved@).take(i + 1);
        assert(rs.drop_last() =~= ip_views(resolved@).take(i as int));
        assert(rs.last() == x@);
        if policy.is_allowed(x) && !contains_ip(ips, &x) {
            let ghost before = ips@;
            ips.push(x);
            assert(ip_views(ips@) =~= ip_views(before).push(x@));
        }
        i = i + 1;
    }
    assert(ip_views(resolved@).take(i as int) =~= ip_views(resolved@));
}

/// The note recorded when the address limit is reached before a target:
/// present exactly when `count` addresses fill the policy's limit.
pub fn limit_note(policy: &ScanPolicy, count: usize) -> (r: Option<String>)
    ensures
        match r {
            Some(m) => count >= policy.max_ips && m@ == "Target IP limit reached ("@ + crate::text::decimal(
                policy.max_ips as nat,
            ) + "), truncating"@,
            None => count < policy.max_ips,
        },
{
    if count >= policy.max_ips {
        let mut s = String::new();
        push_str(&mut s, "Target IP limit reached (");
        crate::text::push_decimal(&mut s, policy.max_ips as u64);
        push_str(&mut s, "), truncating");
        Some(s)
    } else {
        None
    }
}

/// The note recorded for a target that did not resolve: the target, ": "
/// and the error's message.
pub fn target_note(target: &str, e: &TargetResolveError) -> (r: String)
    ensures
        r@ == target@ + ": "@ + target_error_text(e@),
{
    let mut s = String::new();
    push_str(&mut s, target);
    push_str(&mut s, ": ");
    let m = e.message();
    push_str(&mut s, m.as_str());
    s
}

/// What ends the admission: the first `max_ips` admitted addresses, or, when
/// none was admitted, an error that lists the notes.
pub open spec fn admission_result(p: ScanPolicy, ips: Seq<IpValue>, notes: Seq<Seq<char>>) -> Result<
    Seq<IpValue>,
    Seq<char>,
> {
    if ips.len() == 0 {
        if notes.len() == 0 {
            Err("No targets resolved"@)
        } else {
            Err("No targets resolved: "@ + joined(notes, "; "@))
        }
    } else if ips.len() > p.max_ips {
        Ok(ips.take(p.max_ips as int))
    } else {
        Ok(ips)
    }
}

/// Ends the admission (see [`admission_result`]).
pub fn finish_admission(policy: &ScanPolicy, ips: Vec<IpAddress>, notes: &Vec<String>) -> (r: Result<
    Vec<IpAddress>,
    String,
>)
    ensures
        match r {
            Ok(v) => admission_result(*policy, ip_views(ips@), notes@.map_values(|s: String| s@)) == Ok::<
                Seq<IpValue>,
                Seq<char>,
            >(ip_views(v@)),
            Err(m) => admission_result(*policy, ip_views(ips@), notes@.map_values(|s: String| s@)) == Err::<
                Seq<IpValue>,
                Seq<char>,
            >(m@),
        },
{
    if ips.len() == 0 {
        if notes.len() == 0 {
            return Err("No targets resolved".to_owned());
        }
        let mut s = String::new();
        push_str(&mut s, "No targets resolved: ");
        push_joined(&mut s, notes, "; ");
        return Err(s);
    }
    let mut ips = ips;
    if ips.len() > policy.max_ips {
        let ghost before = ips@;
        ips.truncate(policy.max_ips);
        assert(ip_views(ips@) =~= ip_views(before).take(policy.max_ips as int));
    }
    Ok(ips)
}

} // verus!
