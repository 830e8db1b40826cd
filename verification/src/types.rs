//! Shared data models: addresses, ports, hosts and scan results.

use vstd::prelude::*;

use crate::text::{decimal, push_char, push_decimal};

verus! {

// ---------------------------------------------------------------------------
// Addresses
// ---------------------------------------------------------------------------

/// An IP address: four octets or eight 16-bit segments.
#[derive(Debug, Clone, Copy, PartialEq, Eq, Hash)]
pub enum IpAddress {
    V4([u8; 4]),
    V6([u16; 8]),
}

/// Mathematical form of an address: the family and its octets or segments.
pub enum IpValue {
    V4(Seq<u8>),
    V6(Seq<u16>),
}

impl View for IpAddress {
    type V = IpValue;

    open spec fn view(&self) -> IpValue {
        match self {
            IpAddress::V4(o) => IpValue::V4(o@),
            IpAddress::V6(s) => IpValue::V6(s@),
        }
    }
}

/// Whether two addresses are the same.
pub fn same_ip(a: &IpAddress, b: &IpAddress) -> (r: bool)
    ensures
        r == (a@ == b@),
{
    match (a, b) {
        (IpAddress::V4(x), IpAddress::V4(y)) => {
            let r = x[0] == y[0] && x[1] == y[1] && x[2] == y[2] && x[3] == y[3];
            proof {
                if r {
                    assert(x@ =~= y@);
                }
            }
            r
        },
        (IpAddress::V6(x), IpAddress::V6(y)) => {
            let mut i: usize = 0;
            while i < 8
                invariant
                    i <= 8,
                    a@ == IpValue::V6(x@),
                    b@ == IpValue::V6(y@),
                    forall|k: int| 0 <= k < i ==> x@[k] == y@[k],
                decreases 8 - i,
            {
                if x[i] != y[i] {
                    assert(a@ == IpValue::V6(x@));
                    assert(b@ == IpValue::V6(y@));
                    assert(x@[i as int] != y@[i as int]);
                    assert(x@ != y@);
                    return false;
                }
                i = i + 1;
            }
            assert(x@ =~= y@);
            true
        },
        _ => false,
    }
}

// ---------------------------------------------------------------------------
// Textual forms of addresses
// ---------------------------------------------------------------------------

/// Lower-case hexadecimal digit for `d < 16`.
pub open spec fn hex_char(d: nat) -> char {
    if d < 10 {
        crate::text::digit_char(d)
    } else if d == 10 {
        'a'
    } else if d == 11 {
        'b'
    } else if d == 12 {
        'c'
    } else if d == 13 {
        'd'
    } else if d == 14 {
        'e'
    } else {
        'f'
    }
}

/// Lower-case hexadecimal rendering without leading zeros.
pub open spec fn hex(n: nat) -> Seq<char>
    decreases n,
{
    if n < 16 {
        seq![hex_char(n)]
    } else {
        hex(n / 16).push(hex_char(n % 16))
    }
}

/// Lower-case hexadecimal rendering padded with zeros to four digits.
pub open spec fn hex4(n: nat) -> Seq<char> {
    seq![hex_char((n / 4096) % 16), hex_char((n / 256) % 16), hex_char((n / 16) % 16), hex_char(n % 16)]
}

/// Dotted-decimal form of four octets.
pub open spec fn v4_text(o: Seq<u8>) -> Seq<char> {
    decimal(o[0] as nat) + seq!['.'] + decimal(o[1] as nat) + seq!['.'] + decimal(o[2] as nat)
        + seq!['.'] + decimal(o[3] as nat)
}

/// Segments joined by ':' in hexadecimal.
pub open spec fn hex_join(s: Seq<u16>) -> Seq<char>
    decreases s.len(),
{
    if s.len() == 0 {
        Seq::empty()
    } else if s.len() == 1 {
        hex(s[0] as nat)
    } else {
        hex_join(s.drop_last()) + seq![':'] + hex(s.last() as nat)
    }
}

/// Length of the run of zero segments that ends just before position `i`.
pub open spec fn zero_run_before(s: Seq<u16>, i: int) -> int
    decreases i,
{
    if i <= 0 {
        0
    } else if s[i - 1] == 0 {
        zero_run_before(s, i - 1) + 1
    } else {
        0
    }
}

/// The first longest run of zero segments among the first `i` segments, as
/// (start, length); (0, 0) where there is none.
pub open spec fn longest_zero_run(s: Seq<u16>, i: int) -> (int, int)
    decreases i,
{
    if i <= 0 {
        (0, 0)
    } else {
        let prev = longest_zero_run(s, i - 1);
        let cur = zero_run_before(s, i);
        if cur > prev.1 {
            (i - cur, cur)
        } else {
            prev
        }
    }
}

/// The segments form an IPv4-mapped address `::ffff:a.b.c.d`.
pub open spec fn is_v4_mapped(s: Seq<u16>) -> bool {
    s[0] == 0 && s[1] == 0 && s[2] == 0 && s[3] == 0 && s[4] == 0 && s[5] == 0xffff
}

/// The octets of the IPv4 address embedded in the last two segments.
pub open spec fn mapped_octets(s: Seq<u16>) -> Seq<u8> {
    seq![(s[6] / 256) as u8, (s[6] % 256) as u8, (s[7] / 256) as u8, (s[7] % 256) as u8]
}

/// Canonical text of eight segments: the IPv4-mapped form, or hexadecimal
/// segments with the first longest run of two or more zero segments written
/// as "::".
pub open spec fn v6_text(s: Seq<u16>) -> Seq<char> {
    if is_v4_mapped(s) {
        seq![':', ':', 'f', 'f', 'f', 'f', ':'] + v4_text(mapped_octets(s))
    } else {
        let z = longest_zero_run(s, 8);
        if z.1 > 1 {
            hex_join(s.take(z.0)) + seq![':', ':'] + hex_join(s.skip(z.0 + z.1))
        } else {
            hex_join(s)
        }
    }
}

/// The textual form of an address.
pub open spec fn ip_text(ip: IpValue) -> Seq<char> {
    match ip {
        IpValue::V4(o) => v4_text(o),
        IpValue::V6(s) => v6_text(s),
    }
}

fn hex_digit(d: u16) -> (c: char)
    requires
        d < 16,
    ensures
        c == hex_char(d as nat),
{
    if d < 10 {
        if d == 0 { '0' } else if d == 1 { '1' } else if d == 2 { '2' } else if d == 3 { '3' }
        else if d == 4 { '4' } else if d == 5 { '5' } else if d == 6 { '6' } else if d == 7 { '7' }
        else if d == 8 { '8' } else { '9' }
    } else if d == 10 {
        'a'
    } else if d == 11 {
        'b'
    } else if d == 12 {
        'c'
    } else if d == 13 {
        'd'
    } else if d == 14 {
        'e'
    } else {
        'f'
    }
}

/// Appends the hexadecimal rendering of `n`.
pub fn push_hex(s: &mut String, n: u16)
    ensures
        final(s)@ == old(s)@ + hex(n as nat),
    decreases n,
{
    if n < 16 {
        push_char(s, hex_digit(n));
    } else {
        push_hex(s, n / 16);
        push_char(s, hex_digit(n % 16));
    }
}

/// Appends the four-digit hexadecimal rendering of `n`.
pub fn push_hex4(s: &mut String, n: u16)
    ensures
        final(s)@ == old(s)@ + hex4(n as nat),
{
    let ghost s0 = s@;
    push_char(s, hex_digit((n / 4096) % 16));
    push_char(s, hex_digit((n / 256) % 16));
    push_char(s, hex_digit((n / 16) % 16));
    push_char(s, hex_digit(n % 16));
    assert(s@ =~= s0 + hex4(n as nat));
}

/// Appends the dotted-decimal form of four octets.
pub fn push_v4(s: &mut String, o: &[u8; 4])
    ensures
        final(s)@ == old(s)@ + v4_text(o@),
{
    let ghost s0 = s@;
    push_decimal(s, o[0] as u64);
    push_char(s, '.');
    push_decimal(s, o[1] as u64);
    push_char(s, '.');
    push_decimal(s, o[2] as u64);
    push_char(s, '.');
    push_decimal(s, o[3] as u64);
    assert(s@ =~= s0 + v4_text(o@));
}

/// Appends segments `from..to` joined by ':'.
fn push_hex_join(s: &mut String, seg: &[u16; 8], from: usize, to: usize)
    requires
        from <= to <= 8,
    ensures
        final(s)@ == old(s)@ + hex_join(seg@.subrange(from as int, to as int)),
{
    let ghost s0 = s@;
    let mut i: usize = from;
    while i < to
        invariant
            from <= i <= to <= 8,
            s@ == s0 + hex_join(seg@.subrange(from as int, i as int)),
        decreases to - i,
    {
        let ghost before = s@;
        if i > from {
            push_char(s, ':');
        }
        push_hex(s, seg[i]);
        let ghost sub = seg@.subrange(from as int, i + 1);
        assert(sub.drop_last() =~= seg@.subrange(from as int, i as int));
        assert(sub.last() == seg@[i as int]);
        if i > from {
            assert(s@ =~= s0 + hex_join(sub));
        } else {
            assert(seg@.subrange(from as int, i as int).len() == 0);
            assert(s@ =~= s0 + hex_join(sub));
        }
        i = i + 1;
    }
}

/// The (start, length) of the first longest run of zero segments.
fn find_zero_run(seg: &[u16; 8]) -> (r: (usize, usize))
    ensures
        r.0 as int == longest_zero_run(seg@, 8).0,
        r.1 as int == longest_zero_run(seg@, 8).1,
        r.0 + r.1 <= 8,
{
    let mut best_start: usize = 0;
    let mut best_len: usize = 0;
    let mut cur_len: usize = 0;
    let mut i: usize = 0;
    while i < 8
        invariant
            i <= 8,
            cur_len as int == zero_run_before(seg@, i as int),
            cur_len <= i,
            best_start as int == longest_zero_run(seg@, i as int).0,
            best_len as int == longest_zero_run(seg@, i as int).1,
            best_start + best_len <= i,
        decreases 8 - i,
    {
        if seg[i] == 0 {
            cur_len = cur_len + 1;
        } else {
            cur_len = 0;
        }
        i = i + 1;
        if cur_len > best_len {
            best_len = cur_len;
            best_start = i - cur_len;
        }
    }
    (best_start, best_len)
}

/// Appends the canonical text of eight segments.
pub fn push_v6(s: &mut String, seg: &[u16; 8])
    ensures
        final(s)@ == old(s)@ + v6_text(seg@),
{
    let ghost s0 = s@;
    if seg[0] == 0 && seg[1] == 0 && seg[2] == 0 && seg[3] == 0 && seg[4] == 0 && seg[5] == 0xffff {
        push_char(s, ':');
        push_char(s, ':');
        push_char(s, 'f');
        push_char(s, 'f');
        push_char(s, 'f');
        push_char(s, 'f');
        push_char(s, ':');
        let o: [u8; 4] = [
            (seg[6] / 256) as u8,
            (seg[6] % 256) as u8,
            (seg[7] / 256) as u8,
            (seg[7] % 256) as u8,
        ];
        assert(o@ =~= mapped_octets(seg@));
        push_v4(s, &o);
        assert(s@ =~= s0 + v6_text(seg@));
    } else {
        let (start, len) = find_zero_run(seg);
        if len > 1 {
            push_hex_join(s, seg, 0, start);
            push_char(s, ':');
            push_char(s, ':');
            push_hex_join(s, seg, start + len, 8);
            assert(seg@.subrange(0, start as int) =~= seg@.take(start as int));
            assert(seg@.subrange(start + len, 8) =~= seg@.skip(start + len));
            assert(s@ =~= s0 + v6_text(seg@));
        } else {
            push_hex_join(s, seg, 0, 8);
            assert(seg@.subrange(0, 8) =~= seg@);
        }
    }
}

/// Appends the textual form of an address.
pub fn push_ip(s: &mut String, ip: &IpAddress)
    ensures
        final(s)@ == old(s)@ + ip_text(ip@),
{
    match ip {
        IpAddress::V4(o) => push_v4(s, o),
        IpAddress::V6(seg) => push_v6(s, seg),
    }
}

impl IpAddress {
    /// The textual form of the address (dotted decimal, or the canonical
    /// compressed hexadecimal form).
    pub fn to_text(&self) -> (r: String)
        ensures
            r@ == ip_text(self@),
    {
        let mut s = String::new();
        push_ip(&mut s, self);
        s
    }

    /// Whether this is an IPv6 address.
    pub fn is_ipv6(&self) -> (r: bool)
        ensures
            r == (self@ is V6),
    {
        match self {
            IpAddress::V4(_) => false,
            IpAddress::V6(_) => true,
        }
    }
}

} // verus!

verus! {

// ---------------------------------------------------------------------------
// Scan data
// ---------------------------------------------------------------------------

/// How to resolve/find a scan target.
#[derive(Debug, Clone, PartialEq)]
pub enum ScanTarget {
    Ip(IpAddress),
    Range(IpAddress, IpAddress),
    Cidr(String),
    Hostname(String),
}

/// Transport-layer protocol.
#[derive(Debug, Clone, Copy, PartialEq, Eq)]
pub enum TransportProto {
    Tcp,
    Udp,
}

/// Observed state of a port after probing.
#[derive(Debug, Clone, Copy, PartialEq, Eq)]
pub enum PortState {
    Open,
    Closed,
    Filtered,
}

/// A single hop discovered during a traceroute; `rtt_us` is the round-trip
/// time in microseconds, when the hop answered.
#[derive(Debug, Clone, Copy, PartialEq)]
pub struct Hop {
    pub hop: u32,
    pub ip: IpAddress,
    pub rtt_us: Option<u32>,
}

/// The textual form of a hop: its number, a dot, its address and, when it
/// answered, the round-trip time in whole milliseconds in parentheses.
pub open spec fn hop_text(h: Hop) -> Seq<char> {
    let base = decimal(h.hop as nat) + seq!['.', ' '] + ip_text(h.ip@);
    match h.rtt_us {
        Some(us) => base + seq![' ', '('] + decimal((us / 1000) as nat) + seq!['m', 's', ')'],
        None => base,
    }
}

impl Hop {
    /// The textual form of the hop, such as `1. 10.2.2.1 (0ms)`.
    pub fn to_text(&self) -> (r: String)
        ensures
            r@ == hop_text(*self),
    {
        let mut s = String::new();
        push_decimal(&mut s, self.hop as u64);
        push_char(&mut s, '.');
        push_char(&mut s, ' ');
        push_ip(&mut s, &self.ip);
        match self.rtt_us {
            Some(us) => {
                push_char(&mut s, ' ');
                push_char(&mut s, '(');
                push_decimal(&mut s, (us / 1000) as u64);
                push_char(&mut s, 'm');
                push_char(&mut s, 's');
                push_char(&mut s, ')');
            },
            None => {},
        }
        s
    }
}

/// Summary of a CVE associated with a service; `cvss_score` is in tenths.
#[derive(Debug, Clone, PartialEq)]
pub struct CveSummary {
    pub id: String,
    pub severity: String,
    pub cvss_score: u32,
    pub fixed_version: Option<String>,
    pub advisory_url: Option<String>,
    pub confidence: String,
    pub method: String,
}

/// Information about a single port on a host.
#[derive(Debug, Clone, PartialEq)]
pub struct PortInfo {
    pub port: u16,
    pub protocol: TransportProto,
    pub state: PortState,
    pub service_name: String,
    pub service_version: Option<String>,
    pub banner: Option<String>,
    pub cpe: Option<String>,
    pub cves: Vec<CveSummary>,
}

/// Information about a scanned host.
#[derive(Debug, Clone, PartialEq)]
pub struct HostInfo {
    pub ip: IpAddress,
    pub hostname: Option<String>,
    pub ttl: Option<u8>,
    pub os_guess: Option<String>,
    pub ports: Vec<PortInfo>,
    pub alive: bool,
    pub route: Vec<Hop>,
}

/// Aggregate result of scanning one or more targets.
#[derive(Debug, Clone, PartialEq)]
pub struct ScanResult {
    pub target: ScanTarget,
    pub hosts: Vec<HostInfo>,
    pub duration_ms: u64,
    pub ports_scanned: u32,
    pub hosts_found: u32,
}

} // verus!
