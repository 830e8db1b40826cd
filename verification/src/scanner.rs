//! Scan configuration, adaptive timeouts, well-known services and the
//! server-side scan policy.

use vstd::prelude::*;

use crate::types::{IpAddress, IpValue};

verus! {

// ---------------------------------------------------------------------------
// Durations
// ---------------------------------------------------------------------------

/// A span of time, counted in nanoseconds.
#[derive(Debug, Clone, Copy, PartialEq, Eq, Structural)]
pub struct Duration {
    pub nanos: u128,
}

impl Duration {
    /// `secs` seconds.
    pub fn from_secs(secs: u64) -> (d: Duration)
        ensures
            d.nanos == secs * 1_000_000_000,
    {
        Duration { nanos: (secs as u128) * 1_000_000_000 }
    }

    /// `millis` milliseconds.
    pub fn from_millis(millis: u64) -> (d: Duration)
        ensures
            d.nanos == millis * 1_000_000,
    {
        Duration { nanos: (millis as u128) * 1_000_000 }
    }

    /// No time at all.
    pub fn zero() -> (d: Duration)
        ensures
            d.nanos == 0,
    {
        Duration { nanos: 0 }
    }

    /// The number of whole milliseconds.
    pub fn as_millis(&self) -> (r: u128)
        ensures
            r == self.nanos / 1_000_000,
    {
        self.nanos / 1_000_000
    }
}

// ---------------------------------------------------------------------------
// Scan configuration
// ---------------------------------------------------------------------------

#[derive(Debug, Clone, Copy, PartialEq, Eq, Structural)]
pub struct ScanConfig {
    pub max_concurrent_hosts: usize,
    pub max_concurrent_ports: usize,
    pub connect_timeout: Duration,
    pub adaptive_timeouts: bool,
    pub fast_mode: bool,
    pub max_scan_duration: Duration,
    pub probe_chain_timeout: Duration,
    pub probe_chain_max_total: Duration,
}

pub open spec fn secs(n: int) -> u128 {
    (n * 1_000_000_000) as u128
}

pub open spec fn millis(n: int) -> u128 {
    (n * 1_000_000) as u128
}

/// The default configuration.
pub open spec fn default_config() -> ScanConfig {
    ScanConfig {
        max_concurrent_hosts: 10,
        max_concurrent_ports: 100,
        connect_timeout: Duration { nanos: secs(3) },
        adaptive_timeouts: true,
        fast_mode: false,
        max_scan_duration: Duration { nanos: secs(1800) },
        probe_chain_timeout: Duration { nanos: secs(5) },
        probe_chain_max_total: Duration { nanos: secs(30) },
    }
}

impl Default for ScanConfig {
    fn default() -> (c: Self)
        ensures
            c == default_config(),
    {
        ScanConfig {
            max_concurrent_hosts: 10,
            max_concurrent_ports: 100,
            connect_timeout: Duration::from_secs(3),
            adaptive_timeouts: true,
            fast_mode: false,
            max_scan_duration: Duration::from_secs(1800),
            probe_chain_timeout: Duration::from_secs(5),
            probe_chain_max_total: Duration::from_secs(30),
        }
    }
}

impl ScanConfig {
    /// The fast configuration: the defaults with fast mode on, a 1.5 s
    /// connect timeout, 50 concurrent ports, a 2 s probe timeout and a 10 s
    /// probe-chain budget.
    pub fn fast() -> (c: Self)
        ensures
            c == (ScanConfig {
                fast_mode: true,
                connect_timeout: Duration { nanos: millis(1500) },
                max_concurrent_ports: 50,
                probe_chain_timeout: Duration { nanos: secs(2) },
                probe_chain_max_total: Duration { nanos: secs(10) },
                ..default_config()
            }),
    {
        let d = ScanConfig::default();
        ScanConfig {
            fast_mode: true,
            connect_timeout: Duration::from_millis(1500),
            max_concurrent_ports: 50,
            probe_chain_timeout: Duration::from_secs(2),
            probe_chain_max_total: Duration::from_secs(10),
            ..d
        }
    }
}

/// The configuration used by the scanner's tests: one host at a time, a 2 s
/// connect timeout and no adaptive timeouts.
pub fn test_config() -> (c: ScanConfig)
    ensures
        c == (ScanConfig {
            max_concurrent_hosts: 1,
            connect_timeout: Duration { nanos: secs(2) },
            adaptive_timeouts: false,
            ..default_config()
        }),
{
    let d = ScanConfig::default();
    ScanConfig {
        max_concurrent_hosts: 1,
        connect_timeout: Duration::from_secs(2),
        adaptive_timeouts: false,
        ..d
    }
}

// ---------------------------------------------------------------------------
// Adaptive timeouts
// ---------------------------------------------------------------------------

/// Mathematical form of [`AdaptiveTimeouts`]: durations in nanoseconds.
pub struct TimeoutsView {
    pub initial: int,
    pub max: int,
    pub ping: int,
    pub samples: Seq<int>,
    pub window: int,
}

/// Connect timeouts that adapt to the round-trip times seen so far.
pub struct AdaptiveTimeouts {
    initial_connect_timeout: Duration,
    connect_timeout_max: Duration,
    ping_timeout: Duration,
    rtt_samples: Vec<Duration>,
    max_rtt_samples: usize,
}

pub open spec fn nanos_of(v: Seq<Duration>) -> Seq<int> {
    v.map_values(|d: Duration| d.nanos as int)
}

/// The greatest element of a non-empty sequence.
pub open spec fn seq_max(s: Seq<int>) -> int
    decreases s.len(),
{
    if s.len() <= 1 {
        s[0]
    } else {
        let m = seq_max(s.drop_last());
        if s.last() > m {
            s.last()
        } else {
            m
        }
    }
}

/// The median of the samples: the middle one once sorted, or the floor of
/// the mean of the two middle ones; zero when there is none.
pub open spec fn median(s: Seq<int>) -> int {
    let t = s.sort();
    let mid = t.len() as int / 2;
    if t.len() == 0 {
        0
    } else if t.len() % 2 == 0 {
        (t[mid - 1] + t[mid]) / 2
    } else {
        t[mid]
    }
}

/// The connect timeout for state `v`: twice the largest sample (or the
/// initial timeout when there is none), at least 500 ms and at most the
/// maximum.
pub open spec fn connect_timeout_of(v: TimeoutsView) -> int {
    let base = if v.samples.len() == 0 {
        v.initial
    } else {
        2 * seq_max(v.samples)
    };
    let at_least = if base < millis(500) {
        millis(500) as int
    } else {
        base
    };
    if at_least < v.max {
        at_least
    } else {
        v.max
    }
}

/// The state after recording a round-trip time of `rtt` nanoseconds: over
/// 10 s, or over three times the median once there are two samples, it is
/// dropped; otherwise it is appended, the oldest sample leaving a full
/// window first.
pub open spec fn record_of(v: TimeoutsView, rtt: int) -> TimeoutsView {
    if rtt > secs(10) {
        v
    } else if v.samples.len() >= 2 && rtt > median(v.samples) * 3 {
        v
    } else if v.samples.len() >= v.window {
        TimeoutsView { samples: v.samples.drop_first().push(rtt), ..v }
    } else {
        TimeoutsView { samples: v.samples.push(rtt), ..v }
    }
}

/// The connect timeout never exceeds the configured maximum, and it is at
/// least 500 ms whenever the maximum allows that much.
pub proof fn law_connect_timeout_bounds(v: TimeoutsView)
    ensures
        connect_timeout_of(v) <= v.max,
        v.max >= millis(500) ==> connect_timeout_of(v) >= millis(500),
{
}

/// Recording a round-trip time never lets the samples outgrow the window
/// and leaves the settings as they were.
pub proof fn law_record_keeps_window(v: TimeoutsView, rtt: int)
    requires
        1 <= v.window,
        v.samples.len() <= v.window,
    ensures
        record_of(v, rtt).samples.len() <= v.window,
        record_of(v, rtt).window == v.window,
        record_of(v, rtt).initial == v.initial,
        record_of(v, rtt).max == v.max,
        record_of(v, rtt).ping == v.ping,
{
}

/// What every state of [`AdaptiveTimeouts`] is: 3 s initial connect and ping
/// timeouts, a 10 s maximum, a window of 10 samples, at most 10 samples held
/// and none over 10 s.
pub open spec fn timeouts_valid(v: TimeoutsView) -> bool {
    &&& v.initial == secs(3)
    &&& v.max == secs(10)
    &&& v.ping == secs(3)
    &&& v.window == 10
    &&& v.samples.len() <= 10
    &&& forall|i: int| 0 <= i < v.samples.len() ==> 0 <= #[trigger] v.samples[i] <= secs(10)
}

/// Recording a round-trip time keeps a state valid: the window stays 10
/// samples long at most, and a time over 10 s is never kept.
pub proof fn law_record_keeps_valid(v: TimeoutsView, rtt: int)
    requires
        timeouts_valid(v),
        0 <= rtt,
    ensures
        timeouts_valid(record_of(v, rtt)),
{
    let w = record_of(v, rtt);
    if !(rtt > secs(10)) && !(v.samples.len() >= 2 && rtt > median(v.samples) * 3) {
        if v.samples.len() >= v.window {
            assert forall|i: int| 0 <= i < w.samples.len() implies 0 <= #[trigger] w.samples[i] <= secs(10) by {
                if i < w.samples.len() - 1 {
                    assert(w.samples[i] == v.samples[i + 1]);
                }
            }
        } else {
            assert forall|i: int| 0 <= i < w.samples.len() implies 0 <= #[trigger] w.samples[i] <= secs(10) by {
                if i < w.samples.len() - 1 {
                    assert(w.samples[i] == v.samples[i]);
                }
            }
        }
    }
}

/// In every valid state the connect timeout lies between 500 ms and 10 s.
pub proof fn law_valid_connect_timeout(v: TimeoutsView)
    requires
        timeouts_valid(v),
    ensures
        millis(500) <= connect_timeout_of(v) <= secs(10),
{
}

/// A round-trip time over 10 s leaves the state unchanged.
pub proof fn law_slow_rtt_ignored(v: TimeoutsView, rtt: int)
    requires
        rtt > secs(10),
    ensures
        record_of(v, rtt) == v,
{
}

impl View for AdaptiveTimeouts {
    type V = TimeoutsView;

    closed spec fn view(&self) -> TimeoutsView {
        TimeoutsView {
            initial: self.initial_connect_timeout.nanos as int,
            max: self.connect_timeout_max.nanos as int,
            ping: self.ping_timeout.nanos as int,
            samples: nanos_of(self.rtt_samples@),
            window: self.max_rtt_samples as int,
        }
    }
}

/// Sorts durations counted in nanoseconds (`slice::sort`): the result is
/// the input in ascending order.
#[verifier::external_body]
fn sort_nanos(v: &mut Vec<u128>)
    ensures
        final(v)@.len() == old(v)@.len(),
        final(v)@.map_values(|x: u128| x as int) == old(v)@.map_values(|x: u128| x as int).sort(),
{
    v.sort();
}

proof fn lemma_seq_max_bound(s: Seq<int>, b: int)
    requires
        s.len() > 0,
        forall|i: int| 0 <= i < s.len() ==> 0 <= #[trigger] s[i] <= b,
    ensures
        0 <= seq_max(s) <= b,
        exists|i: int| 0 <= i < s.len() && s[i] == seq_max(s),
        forall|i: int| 0 <= i < s.len() ==> s[i] <= seq_max(s),
    decreases s.len(),
{
    if s.len() > 1 {
        lemma_seq_max_bound(s.drop_last(), b);
        let i = choose|i: int| 0 <= i < s.drop_last().len() && s.drop_last()[i] == seq_max(s.drop_last());
        assert(s[i] == s.drop_last()[i]);
        assert forall|j: int| 0 <= j < s.len() implies s[j] <= seq_max(s) by {
            if j < s.len() - 1 {
                assert(s[j] == s.drop_last()[j]);
            }
        }
    } else {
        assert(s[0] == seq_max(s));
    }
}

impl AdaptiveTimeouts {
    #[verifier::type_invariant]
    spec fn inv(self) -> bool {
        &&& self.max_rtt_samples == 10
        &&& self.rtt_samples@.len() <= 10
        &&& forall|i: int| 0 <= i < self.rtt_samples@.len() ==> (#[trigger] self.rtt_samples@[i]).nanos <= secs(10)
        &&& self.initial_connect_timeout.nanos == secs(3)
        &&& self.connect_timeout_max.nanos == secs(10)
        &&& self.ping_timeout.nanos == secs(3)
    }

    /// Initial state: 3 s connect and ping timeouts, a 10 s maximum, no
    /// samples and a window of 10 samples.
    pub fn new() -> (r: Self)
        ensures
            r@ == (TimeoutsView {
                initial: secs(3) as int,
                max: secs(10) as int,
                ping: secs(3) as int,
                samples: Seq::empty(),
                window: 10,
            }),
    {
        let r = AdaptiveTimeouts {
            initial_connect_timeout: Duration::from_secs(3),
            connect_timeout_max: Duration::from_secs(10),
            ping_timeout: Duration::from_secs(3),
            rtt_samples: Vec::new(),
            max_rtt_samples: 10,
        };
        assert(nanos_of(r.rtt_samples@) =~= Seq::<int>::empty());
        r
    }

    /// The recorded round-trip times, oldest first.
    pub fn rtt_samples(&self) -> (r: &Vec<Duration>)
        ensures
            nanos_of(r@) == self@.samples,
            timeouts_valid(self@),
    {
        proof {
            use_type_invariant(self);
        }
        &self.rtt_samples
    }

    /// The connect timeout to use now.
    pub fn current_connect_timeout(&self) -> (r: Duration)
        ensures
            r.nanos == connect_timeout_of(self@),
            timeouts_valid(self@),
    {
        proof {
            use_type_invariant(self);
        }
        let base: u128 = if self.rtt_samples.len() == 0 {
            self.initial_connect_timeout.nanos
        } else {
            let mut m: u128 = self.rtt_samples[0].nanos;
            let mut i: usize = 1;
            assert(nanos_of(self.rtt_samples@).take(1) =~= seq![self.rtt_samples@[0].nanos as int]);
            while i < self.rtt_samples.len()
                invariant
                    1 <= i <= self.rtt_samples.len(),
                    self.rtt_samples@.len() <= 10,
                    forall|k: int| 0 <= k < self.rtt_samples@.len() ==> (#[trigger] self.rtt_samples@[k]).nanos <= secs(10),
                    m == seq_max(nanos_of(self.rtt_samples@).take(i as int)),
                    m <= secs(10),
                decreases self.rtt_samples.len() - i,
            {
                assert(nanos_of(self.rtt_samples@).take(i + 1).drop_last() =~= nanos_of(self.rtt_samples@).take(i as int));
                let x = self.rtt_samples[i].nanos;
                if x > m {
                    m = x;
                }
                i = i + 1;
            }
            assert(nanos_of(self.rtt_samples@).take(i as int) =~= nanos_of(self.rtt_samples@));
            2 * m
        };
        let half_second: u128 = 500_000_000;
        let at_least = if base < half_second {
            half_second
        } else {
            base
        };
        let r = if at_least < self.connect_timeout_max.nanos {
            at_least
        } else {
            self.connect_timeout_max.nanos
        };
        Duration { nanos: r }
    }

    /// The median of the recorded round-trip times (zero when there is none).
    fn rtt_median(&self) -> (r: Duration)
        ensures
            r.nanos == median(self@.samples),
            r.nanos <= secs(10),
    {
        proof {
            use_type_invariant(self);
        }
        let mut sorted: Vec<u128> = Vec::new();
        let mut i: usize = 0;
        while i < self.rtt_samples.len()
            invariant
                i <= self.rtt_samples.len(),
                sorted@.len() == i,
                forall|k: int| 0 <= k < i ==> sorted@[k] == (#[trigger] self.rtt_samples@[k]).nanos,
            decreases self.rtt_samples.len() - i,
        {
            sorted.push(self.rtt_samples[i].nanos);
            i = i + 1;
        }
        assert(sorted@.map_values(|x: u128| x as int) =~= nanos_of(self.rtt_samples@));
        let ghost before = sorted@.map_values(|x: u128| x as int);
        sort_nanos(&mut sorted);
        proof {
            before.lemma_sort_ensures();
            assert forall|k: int| 0 <= k < sorted@.len() implies sorted@[k] <= secs(10) by {
                let t = before.sort();
                assert(t[k] == sorted@[k] as int);
                assert(t.contains(t[k]));
                assert(t.to_multiset().contains(t[k])) by {
                    broadcast use vstd::seq_lib::group_to_multiset_ensures;
                }
                assert(before.to_multiset().contains(t[k]));
                assert(before.contains(t[k])) by {
                    broadcast use vstd::seq_lib::group_to_multiset_ensures;
                }
                let j = choose|j: int| 0 <= j < before.len() && before[j] == t[k];
                assert(before[j] == self.rtt_samples@[j].nanos);
            }
        }
        let n = sorted.len();
        let mid = n / 2;
        if n == 0 {
            Duration { nanos: 0 }
        } else if n % 2 == 0 {
            Duration { nanos: (sorted[mid - 1] + sorted[mid]) / 2 }
        } else {
            Duration { nanos: sorted[mid] }
        }
    }

    /// Records a round-trip time (see [`record_of`]).
    pub fn record_rtt(&mut self, rtt: Duration)
        ensures
            final(self)@ == record_of(old(self)@, rtt.nanos as int),
            timeouts_valid(old(self)@),
            timeouts_valid(final(self)@),
    {
        proof {
            use_type_invariant(&*self);
        }
        if rtt.nanos > 10_000_000_000 {
            return;
        }
        let median = self.rtt_median();
        if self.rtt_samples.len() >= 2 && rtt.nanos > median.nanos * 3 {
            return;
        }
        let ghost old_s = nanos_of(self.rtt_samples@);
        let mut samples = Vec::new();
        std::mem::swap(&mut samples, &mut self.rtt_samples);
        if samples.len() >= self.max_rtt_samples {
            samples.remove(0);
            assert(nanos_of(samples@) =~= old_s.drop_first());
        }
        let ghost mid_s = nanos_of(samples@);
        samples.push(rtt);
        assert(nanos_of(samples@) =~= mid_s.push(rtt.nanos as int));
        self.rtt_samples = samples;
    }

    /// The ping timeout.
    pub fn ping_timeout(&self) -> (r: Duration)
        ensures
            r.nanos == self@.ping,
            timeouts_valid(self@),
    {
        proof {
            use_type_invariant(self);
        }
        self.ping_timeout
    }
}

impl Default for AdaptiveTimeouts {
    fn default() -> (r: Self)
        ensures
            r@ == (TimeoutsView {
                initial: secs(3) as int,
                max: secs(10) as int,
                ping: secs(3) as int,
                samples: Seq::empty(),
                window: 10,
            }),
    {
        Self::new()
    }
}

// ---------------------------------------------------------------------------
// Well-known services
// ---------------------------------------------------------------------------

/// The service conventionally found on `port`, or "unknown".
pub open spec fn service_of_port(port: u16) -> Seq<char> {
    match port {
        21 => "ftp"@,
        22 => "ssh"@,
        23 => "telnet"@,
        25 => "smtp"@,
        53 => "dns"@,
        80 => "http"@,
        110 => "pop3"@,
        111 => "rpcbind"@,
        135 => "msrpc"@,
        139 => "netbios"@,
        143 => "imap"@,
        443 => "https"@,
        445 => "smb"@,
        993 => "imaps"@,
        995 => "pop3s"@,
        1433 => "mssql"@,
        1521 => "oracle"@,
        2049 => "nfs"@,
        3306 => "mysql"@,
        3389 => "rdp"@,
        5432 => "postgresql"@,
        5900 => "vnc"@,
        6379 => "redis"@,
        8080 => "http-proxy"@,
        8443 => "https-alt"@,
        9090 => "http-alt"@,
        9200 => "elasticsearch"@,
        27017 => "mongodb"@,
        _ => "unknown"@,
    }
}

/// The service conventionally found on `port`, or "unknown".
pub fn known_service(port: u16) -> (r: &'static str)
    ensures
        r@ == service_of_port(port),
{
    match port {
        21 => "ftp",
        22 => "ssh",
        23 => "telnet",
        25 => "smtp",
        53 => "dns",
        80 => "http",
        110 => "pop3",
        111 => "rpcbind",
        135 => "msrpc",
        139 => "netbios",
        143 => "imap",
        443 => "https",
        445 => "smb",
        993 => "imaps",
        995 => "pop3s",
        1433 => "mssql",
        1521 => "oracle",
        2049 => "nfs",
        3306 => "mysql",
        3389 => "rdp",
        5432 => "postgresql",
        5900 => "vnc",
        6379 => "redis",
        8080 => "http-proxy",
        8443 => "https-alt",
        9090 => "http-alt",
        9200 => "elasticsearch",
        27017 => "mongodb",
        _ => "unknown",
    }
}

/// The ports scanned by default.
pub fn common_ports() -> (r: Vec<u16>)
    ensures
        r@ == seq![21u16, 22, 23, 25, 53, 80, 110, 111, 135, 139, 143, 443, 445, 993, 995, 1433, 1521,
            2049, 3306, 3389, 5432, 5900, 6379, 8080, 8443, 9090, 9200, 27017],
{
    vec![21, 22, 23, 25, 53, 80, 110, 111, 135, 139, 143, 443, 445, 993, 995, 1433, 1521, 2049, 3306,
        3389, 5432, 5900, 6379, 8080, 8443, 9090, 9200, 27017]
}

// ---------------------------------------------------------------------------
// Reachability and progress
// ---------------------------------------------------------------------------

/// Outcome of probing whether a host answers.
#[derive(Debug, Clone, Copy, PartialEq, Eq)]
pub enum HostReachability {
    Alive,
    PortClosed,
    NoResponse,
}

/// What probing several ports of a host says of it: alive when one
/// accepted, else closed when one refused, else no response.
pub open spec fn aggregate(rs: Seq<HostReachability>) -> HostReachability {
    if exists|i: int| 0 <= i < rs.len() && rs[i] == HostReachability::Alive {
        HostReachability::Alive
    } else if exists|i: int| 0 <= i < rs.len() && rs[i] == HostReachability::PortClosed {
        HostReachability::PortClosed
    } else {
        HostReachability::NoResponse
    }
}

/// Combines the outcomes of probing several ports (see [`aggregate`]).
pub fn aggregate_reachability(results: &[HostReachability]) -> (r: HostReachability)
    ensures
        r == aggregate(results@),
{
    let mut closed = false;
    let mut i: usize = 0;
    while i < results.len()
        invariant
            i <= results.len(),
            forall|k: int| 0 <= k < i ==> results@[k] != HostReachability::Alive,
            closed <==> exists|k: int| 0 <= k < i && results@[k] == HostReachability::PortClosed,
        decreases results.len() - i,
    {
        match results[i] {
            HostReachability::Alive => {
                return HostReachability::Alive;
            },
            HostReachability::PortClosed => {
                closed = true;
            },
            HostReachability::NoResponse => {},
        }
        i = i + 1;
    }
    if closed {
        HostReachability::PortClosed
    } else {
        HostReachability::NoResponse
    }
}

/// Whether a host counts as alive: it answered the probe (accepting or
/// refusing), or some scanned port was open.
pub fn host_alive(ping: HostReachability, open_ports: usize) -> (r: bool)
    ensures
        r == match ping {
            HostReachability::NoResponse => open_ports > 0,
            _ => true,
        },
{
    match ping {
        HostReachability::Alive | HostReachability::PortClosed => true,
        HostReachability::NoResponse => open_ports > 0,
    }
}

/// Phase of a running scan.
#[derive(Debug, Clone, Copy, PartialEq, Eq)]
pub enum ScanPhase {
    Ping,
    PortScan,
    BannerGrab,
    Done,
}

/// Progress of a running scan, sent from the engine to the interface.
#[derive(Debug, Clone)]
pub struct ScanProgress {
    pub total_hosts: u32,
    pub scanned_hosts: u32,
    pub current_host: String,
    pub found_ports: u32,
    pub elapsed_secs: u64,
    pub phase: ScanPhase,
}

/// Scanning by plain TCP connects.
#[derive(Debug)]
pub struct TcpConnectStrategy;

impl TcpConnectStrategy {
    pub fn new(_config: &ScanConfig) -> (r: Self)
        ensures
            r == TcpConnectStrategy,
    {
        TcpConnectStrategy
    }

    /// The name of the strategy.
    pub fn name(&self) -> (r: &'static str)
        ensures
            r@ == "tcp_connect"@,
    {
        "tcp_connect"
    }
}

// ---------------------------------------------------------------------------
// Scan policy
// ---------------------------------------------------------------------------

/// Which targets a server-side scan may touch.
#[derive(Debug, Clone, Copy, PartialEq, Eq, Structural)]
pub struct ScanPolicy {
    pub allow_loopback: bool,
    pub allow_link_local: bool,
    pub allow_multicast: bool,
    pub allow_broadcast: bool,
    pub allow_unspecified: bool,
    pub allow_documentation: bool,
    pub allow_private: bool,
    pub max_ips: usize,
}

pub open spec fn default_policy() -> ScanPolicy {
    ScanPolicy {
        allow_loopback: false,
        allow_link_local: false,
        allow_multicast: false,
        allow_broadcast: false,
        allow_unspecified: false,
        allow_documentation: false,
        allow_private: true,
        max_ips: 65536,
    }
}

impl Default for ScanPolicy {
    fn default() -> (p: Self)
        ensures
            p == default_policy(),
    {
        ScanPolicy {
            allow_loopback: false,
            allow_link_local: false,
            allow_multicast: false,
            allow_broadcast: false,
            allow_unspecified: false,
            allow_documentation: false,
            allow_private: true,
            max_ips: 65536,
        }
    }
}

/// 127.0.0.0/8
pub open spec fn v4_loopback(o: Seq<u8>) -> bool {
    o[0] == 127
}

/// 169.254.0.0/16
pub open spec fn v4_link_local(o: Seq<u8>) -> bool {
    o[0] == 169 && o[1] == 254
}

/// 224.0.0.0/4
pub open spec fn v4_multicast(o: Seq<u8>) -> bool {
    224 <= o[0] <= 239
}

/// 255.255.255.255
pub open spec fn v4_broadcast(o: Seq<u8>) -> bool {
    o[0] == 255 && o[1] == 255 && o[2] == 255 && o[3] == 255
}

/// 0.0.0.0
pub open spec fn v4_unspecified(o: Seq<u8>) -> bool {
    o[0] == 0 && o[1] == 0 && o[2] == 0 && o[3] == 0
}

/// 192.0.2.0/24, 198.51.100.0/24 and 203.0.113.0/24
pub open spec fn v4_documentation(o: Seq<u8>) -> bool {
    (o[0] == 192 && o[1] == 0 && o[2] == 2) || (o[0] == 198 && o[1] == 51 && o[2] == 100) || (o[0]
        == 203 && o[1] == 0 && o[2] == 113)
}

/// 10.0.0.0/8, 172.16.0.0/12 and 192.168.0.0/16
pub open spec fn v4_private(o: Seq<u8>) -> bool {
    o[0] == 10 || (o[0] == 172 && 16 <= o[1] <= 31) || (o[0] == 192 && o[1] == 168)
}

/// ::1
pub open spec fn v6_loopback(s: Seq<u16>) -> bool {
    s[0] == 0 && s[1] == 0 && s[2] == 0 && s[3] == 0 && s[4] == 0 && s[5] == 0 && s[6] == 0 && s[7]
        == 1
}

/// fe80::/10
pub open spec fn v6_link_local(s: Seq<u16>) -> bool {
    0xfe80 <= s[0] <= 0xfebf
}

/// ff00::/8
pub open spec fn v6_multicast(s: Seq<u16>) -> bool {
    s[0] >= 0xff00
}

/// ::
pub open spec fn v6_unspecified(s: Seq<u16>) -> bool {
    s[0] == 0 && s[1] == 0 && s[2] == 0 && s[3] == 0 && s[4] == 0 && s[5] == 0 && s[6] == 0 && s[7]
        == 0
}

/// Whether `p` lets a scan touch address `ip`.
pub open spec fn allowed(p: ScanPolicy, ip: IpValue) -> bool {
    match ip {
        IpValue::V4(o) => {
            &&& !(v4_loopback(o) && !p.allow_loopback)
            &&& !(v4_link_local(o) && !p.allow_link_local)
            &&& !(v4_multicast(o) && !p.allow_multicast)
            &&& !(v4_broadcast(o) && !p.allow_broadcast)
            &&& !(v4_unspecified(o) && !p.allow_unspecified)
            &&& !(v4_documentation(o) && !p.allow_documentation)
            &&& !(v4_private(o) && !p.allow_private)
            &&& !(o[0] == 0 && !p.allow_unspecified)
        },
        IpValue::V6(s) => {
            &&& !(v6_loopback(s) && !p.allow_loopback)
            &&& !(v6_link_local(s) && !p.allow_link_local)
            &&& !(v6_multicast(s) && !p.allow_multicast)
            &&& !(v6_unspecified(s) && !p.allow_unspecified)
        },
    }
}

/// The addresses of `ips` that `p` allows, in order.
pub open spec fn allowed_ips(p: ScanPolicy, ips: Seq<IpAddress>) -> Seq<IpAddress>
    decreases ips.len(),
{
    if ips.len() == 0 {
        Seq::empty()
    } else if allowed(p, ips.last()@) {
        allowed_ips(p, ips.drop_last()).push(ips.last())
    } else {
        allowed_ips(p, ips.drop_last())
    }
}

impl ScanPolicy {
    /// Whether the policy lets a scan touch `ip`.
    pub fn is_allowed(&self, ip: IpAddress) -> (r: bool)
        ensures
            r == allowed(*self, ip@),
    {
        match ip {
            IpAddress::V4(o) => {
                if o[0] == 127 && !self.allow_loopback {
                    return false;
                }
                if o[0] == 169 && o[1] == 254 && !self.allow_link_local {
                    return false;
                }
                if 224 <= o[0] && o[0] <= 239 && !self.allow_multicast {
                    return false;
                }
                if o[0] == 255 && o[1] == 255 && o[2] == 255 && o[3] == 255 && !self.allow_broadcast {
                    return false;
                }
                if o[0] == 0 && o[1] == 0 && o[2] == 0 && o[3] == 0 && !self.allow_unspecified {
                    return false;
                }
                let doc = (o[0] == 192 && o[1] == 0 && o[2] == 2) || (o[0] == 198 && o[1] == 51
                    && o[2] == 100) || (o[0] == 203 && o[1] == 0 && o[2] == 113);
                if doc && !self.allow_documentation {
                    return false;
                }
                let private = o[0] == 10 || (o[0] == 172 && 16 <= o[1] && o[1] <= 31) || (o[0] == 192
                    && o[1] == 168);
                if private && !self.allow_private {
                    return false;
                }
                if o[0] == 0 && !self.allow_unspecified {
                    return false;
                }
                true
            },
            IpAddress::V6(s) => {
                let zero6 = s[0] == 0 && s[1] == 0 && s[2] == 0 && s[3] == 0 && s[4] == 0 && s[5] == 0
                    && s[6] == 0;
                if zero6 && s[7] == 1 && !self.allow_loopback {
                    return false;
                }
                if 0xfe80 <= s[0] && s[0] <= 0xfebf && !self.allow_link_local {
                    return false;
                }
                if s[0] >= 0xff00 && !self.allow_multicast {
                    return false;
                }
                if zero6 && s[7] == 0 && !self.allow_unspecified {
                    return false;
                }
                true
            },
        }
    }

    /// The addresses of `ips` that the policy allows, in order.
    pub fn filter(&self, ips: Vec<IpAddress>) -> (r: Vec<IpAddress>)
        ensures
            r@ == allowed_ips(*self, ips@),
    {
        let mut r: Vec<IpAddress> = Vec::new();
        let mut i: usize = 0;
        while i < ips.len()
            invariant
                i <= ips.len(),
                r@ == allowed_ips(*self, ips@.take(i as int)),
            decreases ips.len() - i,
        {
            assert(ips@.take(i + 1).drop_last() =~= ips@.take(i as int));
            if self.is_allowed(ips[i]) {
                r.push(ips[i]);
            }
            i = i + 1;
        }
        assert(ips@.take(i as int) =~= ips@);
        r
    }
}


/// The default policy blocks every loopback, link-local, multicast,
/// broadcast and unspecified (0.0.0.0/8, ::) address, and every IPv4
/// documentation address.
pub proof fn law_default_policy_blocks(ip: IpValue)
    requires
        match ip {
            IpValue::V4(o) => v4_loopback(o) || v4_link_local(o) || v4_multicast(o) || v4_broadcast(o)
                || o[0] == 0 || v4_documentation(o),
            IpValue::V6(s) => v6_loopback(s) || v6_link_local(s) || v6_multicast(s) || v6_unspecified(s),
        },
    ensures
        !allowed(default_policy(), ip),
{
}

/// A policy that does not allow private addresses refuses every RFC 1918
/// address: 10.0.0.0/8, 172.16.0.0/12 and 192.168.0.0/16.
pub proof fn law_private_refused(p: ScanPolicy, o: Seq<u8>)
    requires
        !p.allow_private,
        o.len() == 4,
        o[0] == 10 || (o[0] == 172 && 16 <= o[1] && o[1] <= 31) || (o[0] == 192 && o[1] == 168),
    ensures
        !allowed(p, IpValue::V4(o)),
{
}

/// Every address kept by filtering is allowed, every allowed address is
/// kept, and filtering what was kept keeps it all.
pub proof fn law_filter_keeps_allowed(p: ScanPolicy, ips: Seq<IpAddress>)
    ensures
        forall|a: IpAddress| #[trigger] allowed_ips(p, ips).contains(a) <==> ips.contains(a) && allowed(p, a@),
        allowed_ips(p, allowed_ips(p, ips)) == allowed_ips(p, ips),
    decreases ips.len(),
{
    if ips.len() > 0 {
        let rest = ips.drop_last();
        law_filter_keeps_allowed(p, rest);
        assert forall|a: IpAddress| ips.contains(a) <==> rest.contains(a) || a == ips.last() by {
            if ips.contains(a) {
                let i = choose|i: int| 0 <= i < ips.len() && ips[i] == a;
                if i < ips.len() - 1 {
                    assert(rest[i] == a);
                }
            }
            if rest.contains(a) {
                let i = choose|i: int| 0 <= i < rest.len() && rest[i] == a;
                assert(ips[i] == a);
            }
            if a == ips.last() {
                assert(ips[ips.len() - 1] == a);
            }
        }
        let f = allowed_ips(p, rest);
        if allowed(p, ips.last()@) {
            let g = f.push(ips.last());
            assert forall|a: IpAddress| g.contains(a) <==> f.contains(a) || a == ips.last() by {
                if g.contains(a) {
                    let i = choose|i: int| 0 <= i < g.len() && g[i] == a;
                    if i < f.len() {
                        assert(f[i] == a);
                    }
                }
                if f.contains(a) {
                    let i = choose|i: int| 0 <= i < f.len() && f[i] == a;
                    assert(g[i] == a);
                }
                if a == ips.last() {
                    assert(g[f.len() as int] == a);
                }
            }
            assert(g.drop_last() =~= f);
            assert(allowed_ips(p, g) == allowed_ips(p, f).push(ips.last()));
        }
    }
}

} // verus!
