//! Hybrid topology graph built from scanned hosts.
//!
//! The graph holds one node per alive host address, one node per route hop
//! that is not itself a host, one logical subnet node per /24 (IPv4) or /64
//! (IPv6) group of those nodes, confirmed-route edges between consecutive
//! hops (and from the last hop to its host), and subnet-membership edges.
//! Nodes are sorted by identifier and edges by (source, target, kind), so the
//! graph depends on the set of hosts and not on their order, except where two
//! entries share an address (see [`build_hybrid_topology`]).

use vstd::prelude::*;

use crate::text::{
    chars_of, decimal, has_prefix, lemma_lex_asymmetric, lemma_lex_irreflexive, lemma_lex_total,
    lemma_lex_transitive, lex_lt, push_char, push_decimal, push_str, starts_with, string_of,
    text_eq, text_less,
};
use crate::address_text::{law_address_text_injective, lemma_view_well_formed, well_formed_ip};
use crate::types::{
    hex4, ip_text, push_hex4, push_ip, same_ip, Hop, HostInfo, IpAddress, IpValue,
};

verus! {

// ---------------------------------------------------------------------------
// Graph types
// ---------------------------------------------------------------------------

#[derive(Debug, Clone, Copy, PartialEq, Eq)]
pub enum TopologyNodeKind {
    Host,
    RouteHop,
    LogicalSubnet,
}

#[derive(Debug, Clone, Copy, PartialEq, Eq)]
pub enum TopologyEdgeKind {
    ConfirmedRoute,
    LogicalSubnetMembership,
}

#[derive(Debug, Clone, PartialEq)]
pub struct TopologyNode {
    pub id: String,
    pub kind: TopologyNodeKind,
    pub ip: Option<IpAddress>,
    pub label: String,
    pub group_id: Option<String>,
}

#[derive(Debug, Clone, PartialEq)]
pub struct TopologyEdge {
    pub source: String,
    pub target: String,
    pub kind: TopologyEdgeKind,
}

#[derive(Debug, Clone, PartialEq)]
pub struct TopologyGraph {
    pub nodes: Vec<TopologyNode>,
    pub edges: Vec<TopologyEdge>,
}

/// Mathematical form of a node.
pub struct NodeView {
    pub id: Seq<char>,
    pub kind: TopologyNodeKind,
    pub ip: Option<IpValue>,
    pub label: Seq<char>,
    pub group: Option<Seq<char>>,
}

/// Mathematical form of an edge.
pub struct EdgeView {
    pub source: Seq<char>,
    pub target: Seq<char>,
    pub kind: TopologyEdgeKind,
}

pub open spec fn opt_ip_view(o: Option<IpAddress>) -> Option<IpValue> {
    match o {
        Some(ip) => Some(ip@),
        None => None,
    }
}

impl View for TopologyNode {
    type V = NodeView;

    open spec fn view(&self) -> NodeView {
        NodeView {
            id: self.id@,
            kind: self.kind,
            ip: opt_ip_view(self.ip),
            label: self.label@,
            group: crate::text::opt_view(self.group_id),
        }
    }
}

impl View for TopologyEdge {
    type V = EdgeView;

    open spec fn view(&self) -> EdgeView {
        EdgeView { source: self.source@, target: self.target@, kind: self.kind }
    }
}

pub open spec fn node_views(v: Seq<TopologyNode>) -> Seq<NodeView> {
    v.map_values(|n: TopologyNode| n@)
}

pub open spec fn edge_views(v: Seq<TopologyEdge>) -> Seq<EdgeView> {
    v.map_values(|e: TopologyEdge| e@)
}

// ---------------------------------------------------------------------------
// Identifiers and labels
// ---------------------------------------------------------------------------

pub open spec fn family(ip: IpValue) -> Seq<char> {
    match ip {
        IpValue::V4(_) => seq!['i', 'p', 'v', '4'],
        IpValue::V6(_) => seq!['i', 'p', 'v', '6'],
    }
}

/// "host:<family>:<address>"
pub open spec fn host_id(ip: IpValue) -> Seq<char> {
    seq!['h', 'o', 's', 't', ':'] + family(ip) + seq![':'] + ip_text(ip)
}

/// "hop:<family>:<address>"
pub open spec fn hop_id(ip: IpValue) -> Seq<char> {
    seq!['h', 'o', 'p', ':'] + family(ip) + seq![':'] + ip_text(ip)
}

/// The /24 or /64 prefix of an address, e.g. "192.168.1.0/24" or
/// "2001:0db8:abcd:0001::/64".
pub open spec fn subnet_prefix(ip: IpValue) -> Seq<char> {
    match ip {
        IpValue::V4(o) => decimal(o[0] as nat) + seq!['.'] + decimal(o[1] as nat) + seq!['.']
            + decimal(o[2] as nat) + seq!['.', '0', '/', '2', '4'],
        IpValue::V6(s) => hex4(s[0] as nat) + seq![':'] + hex4(s[1] as nat) + seq![':'] + hex4(
            s[2] as nat,
        ) + seq![':'] + hex4(s[3] as nat) + seq![':', ':', '/', '6', '4'],
    }
}

/// "subnet:<family>:<prefix>"
pub open spec fn subnet_id(ip: IpValue) -> Seq<char> {
    seq!['s', 'u', 'b', 'n', 'e', 't', ':'] + family(ip) + seq![':'] + subnet_prefix(ip)
}

pub open spec fn subnet_v4_tag() -> Seq<char> {
    seq!['s', 'u', 'b', 'n', 'e', 't', ':', 'i', 'p', 'v', '4', ':']
}

pub open spec fn subnet_v6_tag() -> Seq<char> {
    seq!['s', 'u', 'b', 'n', 'e', 't', ':', 'i', 'p', 'v', '6', ':']
}

/// The label of a subnet node: its identifier without the "subnet:ipv4:" or
/// "subnet:ipv6:" tag.
pub open spec fn subnet_label_of(id: Seq<char>) -> Seq<char> {
    if has_prefix(id, subnet_v4_tag()) || has_prefix(id, subnet_v6_tag()) {
        id.skip(12)
    } else {
        id
    }
}

// ---------------------------------------------------------------------------
// Merging of hosts that share an address
// ---------------------------------------------------------------------------

/// Some alive host among the first `n` has address `ip`.
pub open spec fn alive_upto(hosts: Seq<HostInfo>, ip: IpValue, n: int) -> bool {
    exists|i: int| 0 <= i < n && i < hosts.len() && hosts[i].alive && #[trigger] hosts[i].ip@ == ip
}

/// Some alive host has address `ip`.
pub open spec fn alive_ip(hosts: Seq<HostInfo>, ip: IpValue) -> bool {
    alive_upto(hosts, ip, hosts.len() as int)
}

/// The route kept for `ip` after the first `n` hosts: the first route of
/// greatest length among the alive entries with that address.
pub open spec fn route_upto(hosts: Seq<HostInfo>, ip: IpValue, n: int) -> Option<Seq<Hop>>
    decreases n,
{
    if n <= 0 || n > hosts.len() {
        None
    } else {
        let prev = route_upto(hosts, ip, n - 1);
        let h = hosts[n - 1];
        if h.alive && h.ip@ == ip {
            match prev {
                None => Some(h.route@),
                Some(r) => if h.route@.len() > r.len() {
                    Some(h.route@)
                } else {
                    prev
                },
            }
        } else {
            prev
        }
    }
}

/// The host name kept for `ip` after the first `n` hosts: the first name
/// given by an alive entry with that address.
pub open spec fn name_upto(hosts: Seq<HostInfo>, ip: IpValue, n: int) -> Option<Seq<char>>
    decreases n,
{
    if n <= 0 || n > hosts.len() {
        None
    } else {
        let prev = name_upto(hosts, ip, n - 1);
        let h = hosts[n - 1];
        if prev is None && h.alive && h.ip@ == ip && h.hostname is Some {
            Some(h.hostname->0@)
        } else {
            prev
        }
    }
}

pub open spec fn merged_route(hosts: Seq<HostInfo>, ip: IpValue) -> Seq<Hop> {
    match route_upto(hosts, ip, hosts.len() as int) {
        Some(r) => r,
        None => Seq::empty(),
    }
}

pub open spec fn merged_name(hosts: Seq<HostInfo>, ip: IpValue) -> Option<Seq<char>> {
    name_upto(hosts, ip, hosts.len() as int)
}

/// `x` lies on the kept route of some alive host.
pub open spec fn on_route(hosts: Seq<HostInfo>, x: IpValue) -> bool {
    exists|ip: IpValue, k: int|
        alive_ip(hosts, ip) && 0 <= k < merged_route(hosts, ip).len() && #[trigger] merged_route(
            hosts,
            ip,
        )[k].ip@ == x
}

/// `x` is a route hop that is not itself an alive host.
pub open spec fn hop_ip(hosts: Seq<HostInfo>, x: IpValue) -> bool {
    on_route(hosts, x) && !alive_ip(hosts, x)
}

/// The node identifier of an address seen on a route.
pub open spec fn node_id(hosts: Seq<HostInfo>, x: IpValue) -> Seq<char> {
    if alive_ip(hosts, x) {
        host_id(x)
    } else {
        hop_id(x)
    }
}

pub open spec fn host_node(hosts: Seq<HostInfo>, ip: IpValue) -> NodeView {
    NodeView {
        id: host_id(ip),
        kind: TopologyNodeKind::Host,
        ip: Some(ip),
        label: match merged_name(hosts, ip) {
            Some(n) => n,
            None => ip_text(ip),
        },
        group: Some(subnet_id(ip)),
    }
}

pub open spec fn hop_node(ip: IpValue) -> NodeView {
    NodeView {
        id: hop_id(ip),
        kind: TopologyNodeKind::RouteHop,
        ip: Some(ip),
        label: ip_text(ip),
        group: Some(subnet_id(ip)),
    }
}

pub open spec fn subnet_node(id: Seq<char>) -> NodeView {
    NodeView {
        id: id,
        kind: TopologyNodeKind::LogicalSubnet,
        ip: None,
        label: subnet_label_of(id),
        group: None,
    }
}

/// `v` is the host node of an alive address or the hop node of a route hop.
pub open spec fn core_node(hosts: Seq<HostInfo>, v: NodeView) -> bool {
    (exists|ip: IpValue| alive_ip(hosts, ip) && v == #[trigger] host_node(hosts, ip)) || (exists|
        x: IpValue,
    | hop_ip(hosts, x) && v == #[trigger] hop_node(x))
}

/// Some node of `nodes` has identifier `id`.
pub open spec fn has_node_id(nodes: Seq<NodeView>, id: Seq<char>) -> bool {
    exists|i: int| 0 <= i < nodes.len() && #[trigger] nodes[i].id == id
}

/// Some node of `nodes` belongs to group `g`.
pub open spec fn has_group(nodes: Seq<NodeView>, g: Seq<char>) -> bool {
    exists|i: int| 0 <= i < nodes.len() && #[trigger] nodes[i].group == Some(g)
}

/// Nodes are sorted strictly by identifier.
pub open spec fn nodes_sorted(nodes: Seq<NodeView>) -> bool {
    forall|i: int, j: int| 0 <= i < j < nodes.len() ==> lex_lt(nodes[i].id, nodes[j].id)
}

pub open spec fn edge_rank(k: TopologyEdgeKind) -> int {
    match k {
        TopologyEdgeKind::ConfirmedRoute => 0,
        TopologyEdgeKind::LogicalSubnetMembership => 1,
    }
}

/// Order of edges: by source, then target, then kind.
pub open spec fn edge_lt(x: EdgeView, y: EdgeView) -> bool {
    lex_lt(x.source, y.source) || (x.source == y.source && (lex_lt(x.target, y.target) || (
    x.target == y.target && edge_rank(x.kind) < edge_rank(y.kind))))
}

pub open spec fn edges_sorted(edges: Seq<EdgeView>) -> bool {
    forall|i: int, j: int| 0 <= i < j < edges.len() ==> edge_lt(edges[i], edges[j])
}

/// `e` joins hop `u` of route `r` to hop `u + 1`, and those hops have
/// different node identifiers.
pub open spec fn pair_edge(hosts: Seq<HostInfo>, r: Seq<Hop>, u: int, e: EdgeView) -> bool {
    &&& e.kind == TopologyEdgeKind::ConfirmedRoute
    &&& e.source != e.target
    &&& e.source == node_id(hosts, r[u].ip@)
    &&& e.target == node_id(hosts, r[u + 1].ip@)
}

/// `e` joins the last hop of route `r` to the host node of `ip`, and the two
/// differ.
pub open spec fn last_edge(hosts: Seq<HostInfo>, r: Seq<Hop>, ip: IpValue, e: EdgeView) -> bool {
    &&& r.len() > 0
    &&& e.kind == TopologyEdgeKind::ConfirmedRoute
    &&& e.source != e.target
    &&& e.source == node_id(hosts, r.last().ip@)
    &&& e.target == host_id(ip)
}

/// `e` is a confirmed-route edge of the kept route of address `ip`.
pub open spec fn route_edge_of(hosts: Seq<HostInfo>, ip: IpValue, e: EdgeView) -> bool {
    let r = merged_route(hosts, ip);
    (exists|u: int| 0 <= u < r.len() - 1 && #[trigger] pair_edge(hosts, r, u, e)) || last_edge(
        hosts,
        r,
        ip,
        e,
    )
}

/// The edges expected of a graph with nodes `nodes` built from `hosts`.
pub open spec fn expected_edge(hosts: Seq<HostInfo>, nodes: Seq<NodeView>, e: EdgeView) -> bool {
    (exists|ip: IpValue| alive_ip(hosts, ip) && #[trigger] route_edge_of(hosts, ip, e)) || (
    e.kind == TopologyEdgeKind::LogicalSubnetMembership && exists|i: int|
        0 <= i < nodes.len() && nodes[i].id == e.source && #[trigger] nodes[i].group == Some(
            e.target,
        ))
}


/// What the nodes of a graph built from `hosts` are: sorted strictly by
/// identifier, each the host node of an alive address, the hop node of a
/// route hop, or the subnet node of a group some node belongs to; with a
/// host node for every alive address, a hop node for every route hop and a
/// node for every group.
pub open spec fn nodes_of(hosts: Seq<HostInfo>, nodes: Seq<NodeView>) -> bool {
    &&& nodes_sorted(nodes)
    &&& forall|i: int|
        0 <= i < nodes.len() ==> core_node(hosts, #[trigger] nodes[i]) || (nodes[i] == subnet_node(nodes[i].id)
            && has_group(nodes, nodes[i].id))
    &&& forall|ip: IpValue| alive_ip(hosts, ip) ==> has_node_id(nodes, #[trigger] host_id(ip))
    &&& forall|x: IpValue| hop_ip(hosts, x) ==> has_node_id(nodes, #[trigger] hop_id(x))
    &&& forall|s: Seq<char>| has_group(nodes, s) ==> has_node_id(nodes, s)
}

/// What a graph built from `hosts` is: its nodes as [`nodes_of`] says, and
/// its edges sorted strictly and exactly the expected ones.
pub open spec fn graph_of(hosts: Seq<HostInfo>, nodes: Seq<NodeView>, edges: Seq<EdgeView>) -> bool {
    &&& nodes_of(hosts, nodes)
    &&& edges_sorted(edges)
    &&& forall|e: EdgeView| #[trigger] edges.contains(e) <==> expected_edge(hosts, nodes, e)
}

} // verus!

verus! {

// ---------------------------------------------------------------------------
// Identifiers (executable)
// ---------------------------------------------------------------------------

fn push_family(s: &mut String, ip: &IpAddress)
    ensures
        final(s)@ == old(s)@ + family(ip@),
{
    let ghost s0 = s@;
    push_char(s, 'i');
    push_char(s, 'p');
    push_char(s, 'v');
    match ip {
        IpAddress::V4(_) => push_char(s, '4'),
        IpAddress::V6(_) => push_char(s, '6'),
    }
    assert(s@ =~= s0 + family(ip@));
}

/// The identifier of the host node of `ip`.
pub fn host_node_id(ip: &IpAddress) -> (r: String)
    ensures
        r@ == host_id(ip@),
{
    let mut s = String::new();
    push_char(&mut s, 'h');
    push_char(&mut s, 'o');
    push_char(&mut s, 's');
    push_char(&mut s, 't');
    push_char(&mut s, ':');
    push_family(&mut s, ip);
    push_char(&mut s, ':');
    push_ip(&mut s, ip);
    assert(s@ =~= host_id(ip@));
    s
}

/// The identifier of the route-hop node of `ip`.
pub fn hop_node_id(ip: &IpAddress) -> (r: String)
    ensures
        r@ == hop_id(ip@),
{
    let mut s = String::new();
    push_char(&mut s, 'h');
    push_char(&mut s, 'o');
    push_char(&mut s, 'p');
    push_char(&mut s, ':');
    push_family(&mut s, ip);
    push_char(&mut s, ':');
    push_ip(&mut s, ip);
    assert(s@ =~= hop_id(ip@));
    s
}

/// The identifier of the subnet group of `ip`.
pub fn ip_to_subnet_id(ip: &IpAddress) -> (r: String)
    ensures
        r@ == subnet_id(ip@),
{
    let mut s = String::new();
    push_char(&mut s, 's');
    push_char(&mut s, 'u');
    push_char(&mut s, 'b');
    push_char(&mut s, 'n');
    push_char(&mut s, 'e');
    push_char(&mut s, 't');
    push_char(&mut s, ':');
    push_family(&mut s, ip);
    push_char(&mut s, ':');
    let ghost s1 = s@;
    match ip {
        IpAddress::V4(o) => {
            push_decimal(&mut s, o[0] as u64);
            push_char(&mut s, '.');
            push_decimal(&mut s, o[1] as u64);
            push_char(&mut s, '.');
            push_decimal(&mut s, o[2] as u64);
            push_char(&mut s, '.');
            push_char(&mut s, '0');
            push_char(&mut s, '/');
            push_char(&mut s, '2');
            push_char(&mut s, '4');
        },
        IpAddress::V6(g) => {
            push_hex4(&mut s, g[0]);
            push_char(&mut s, ':');
            push_hex4(&mut s, g[1]);
            push_char(&mut s, ':');
            push_hex4(&mut s, g[2]);
            push_char(&mut s, ':');
            push_hex4(&mut s, g[3]);
            push_char(&mut s, ':');
            push_char(&mut s, ':');
            push_char(&mut s, '/');
            push_char(&mut s, '6');
            push_char(&mut s, '4');
        },
    }
    assert(s@ =~= s1 + subnet_prefix(ip@));
    assert(s@ =~= subnet_id(ip@));
    s
}

/// The label of a subnet node: the identifier without its "subnet:ipv4:" or
/// "subnet:ipv6:" tag (unchanged when it has neither).
pub fn subnet_label(subnet_id: &str) -> (r: String)
    ensures
        r@ == subnet_label_of(subnet_id@),
{
    let cs = chars_of(subnet_id);
    let v4 = vec!['s', 'u', 'b', 'n', 'e', 't', ':', 'i', 'p', 'v', '4', ':'];
    let v6 = vec!['s', 'u', 'b', 'n', 'e', 't', ':', 'i', 'p', 'v', '6', ':'];
    assert(v4@ =~= subnet_v4_tag());
    assert(v6@ =~= subnet_v6_tag());
    if starts_with(&cs, &v4) || starts_with(&cs, &v6) {
        let mut rest: Vec<char> = Vec::new();
        let mut i: usize = 12;
        while i < cs.len()
            invariant
                12 <= i <= cs.len(),
                rest@ == cs@.subrange(12, i as int),
            decreases cs.len() - i,
        {
            rest.push(cs[i]);
            i = i + 1;
            assert(rest@ =~= cs@.subrange(12, i as int));
        }
        assert(cs@.subrange(12, cs.len() as int) =~= cs@.skip(12));
        string_of(&rest)
    } else {
        string_of(&cs)
    }
}

// ---------------------------------------------------------------------------
// Merging (executable)
// ---------------------------------------------------------------------------

/// One alive address with the positions of the entries that give its name
/// and its route.
struct Merged {
    ip: IpAddress,
    name: Option<usize>,
    route: usize,
}

spec fn merged_ok(hosts: Seq<HostInfo>, m: Merged, n: int) -> bool {
    &&& m.route < n <= hosts.len()
    &&& alive_upto(hosts, m.ip@, n)
    &&& route_upto(hosts, m.ip@, n) == Some(hosts[m.route as int].route@)
    &&& match m.name {
        Some(j) => j < n && hosts[j as int].hostname is Some && name_upto(hosts, m.ip@, n) == Some(
            hosts[j as int].hostname->0@,
        ),
        None => name_upto(hosts, m.ip@, n) is None,
    }
}

spec fn merged_list_ok(hosts: Seq<HostInfo>, ms: Seq<Merged>, n: int) -> bool {
    &&& forall|k: int| 0 <= k < ms.len() ==> merged_ok(hosts, #[trigger] ms[k], n)
    &&& forall|k: int, l: int| 0 <= k < l < ms.len() ==> ms[k].ip@ != ms[l].ip@
    &&& forall|ip: IpValue|
        alive_upto(hosts, ip, n) ==> exists|k: int| 0 <= k < ms.len() && #[trigger] ms[k].ip@ == ip
}

proof fn lemma_upto_unmatched(hosts: Seq<HostInfo>, ip: IpValue, n: int)
    requires
        0 < n <= hosts.len(),
        !(hosts[n - 1].alive && hosts[n - 1].ip@ == ip),
    ensures
        route_upto(hosts, ip, n) == route_upto(hosts, ip, n - 1),
        name_upto(hosts, ip, n) == name_upto(hosts, ip, n - 1),
        alive_upto(hosts, ip, n) == alive_upto(hosts, ip, n - 1),
{
    if alive_upto(hosts, ip, n) {
        let i = choose|i: int|
            0 <= i < n && i < hosts.len() && hosts[i].alive && #[trigger] hosts[i].ip@ == ip;
        assert(i < n - 1);
    }
}

proof fn lemma_upto_none(hosts: Seq<HostInfo>, ip: IpValue, n: int)
    requires
        0 <= n <= hosts.len(),
        !alive_upto(hosts, ip, n),
    ensures
        route_upto(hosts, ip, n) is None,
        name_upto(hosts, ip, n) is None,
    decreases n,
{
    if n > 0 {
        if hosts[n - 1].alive && hosts[n - 1].ip@ == ip {
            assert(alive_upto(hosts, ip, n));
        }
        assert(!alive_upto(hosts, ip, n - 1)) by {
            if alive_upto(hosts, ip, n - 1) {
                let i = choose|i: int|
                    0 <= i < n - 1 && i < hosts.len() && hosts[i].alive && #[trigger] hosts[i].ip@
                        == ip;
                assert(hosts[i].ip@ == ip);
            }
        }
        lemma_upto_none(hosts, ip, n - 1);
    }
}

fn find_merged(ms: &Vec<Merged>, ip: &IpAddress) -> (r: Option<usize>)
    ensures
        match r {
            Some(k) => k < ms.len() && ms@[k as int].ip@ == ip@,
            None => forall|k: int| 0 <= k < ms.len() ==> ms@[k].ip@ != ip@,
        },
{
    let mut k: usize = 0;
    while k < ms.len()
        invariant
            k <= ms.len(),
            forall|l: int| 0 <= l < k ==> ms@[l].ip@ != ip@,
        decreases ms.len() - k,
    {
        if same_ip(&ms[k].ip, ip) {
            return Some(k);
        }
        k = k + 1;
    }
    None
}

/// Groups the alive hosts by address.
fn merge_hosts(hosts: &[HostInfo]) -> (ms: Vec<Merged>)
    ensures
        merged_list_ok(hosts@, ms@, hosts.len() as int),
{
    let mut ms: Vec<Merged> = Vec::new();
    let mut i: usize = 0;
    while i < hosts.len()
        invariant
            i <= hosts.len(),
            merged_list_ok(hosts@, ms@, i as int),
        decreases hosts.len() - i,
    {
        let h = &hosts[i];
        let ghost n = i as int + 1;
        let ghost old_ms = ms@;
        let ghost mut pos: int = 0;
        if h.alive {
            match find_merged(&ms, &h.ip) {
                None => {
                    proof {
                        assert(!alive_upto(hosts@, h.ip@, i as int)) by {
                            if alive_upto(hosts@, h.ip@, i as int) {
                                let k = choose|k: int|
                                    0 <= k < ms@.len() && #[trigger] ms@[k].ip@ == h.ip@;
                                assert(ms@[k].ip@ != h.ip@);
                            }
                        }
                        lemma_upto_none(hosts@, h.ip@, i as int);
                    }
                    let name = if h.hostname.is_some() {
                        Some(i)
                    } else {
                        None
                    };
                    ms.push(Merged { ip: h.ip, name, route: i });
                    proof {
                        pos = old_ms.len() as int;
                    }
                },
                Some(k) => {
                    let cur = ms[k].route;
                    let new_route = if h.route.len() > hosts[cur].route.len() {
                        i
                    } else {
                        cur
                    };
                    let new_name = match ms[k].name {
                        Some(j) => Some(j),
                        None => if h.hostname.is_some() {
                            Some(i)
                        } else {
                            None
                        },
                    };
                    let ip = ms[k].ip;
                    ms.set(k, Merged { ip, name: new_name, route: new_route });
                    proof {
                        pos = k as int;
                    }
                },
            }
        }
        i = i + 1;
        proof {
            assert(hosts@[n - 1].alive ==> 0 <= pos < ms@.len() && ms@[pos].ip@ == hosts@[n - 1].ip@);
            assert forall|k: int| 0 <= k < ms@.len() implies merged_ok(
                hosts@,
                #[trigger] ms@[k],
                n,
            ) by {
                if !(hosts@[n - 1].alive && hosts@[n - 1].ip@ == ms@[k].ip@) {
                    lemma_upto_unmatched(hosts@, ms@[k].ip@, n);
                    assert(ms@[k] == old_ms[k]);
                } else {
                    assert(alive_upto(hosts@, ms@[k].ip@, n)) by {
                        assert(hosts@[n - 1].ip@ == ms@[k].ip@);
                    }
                }
            }
            assert forall|ip: IpValue| alive_upto(hosts@, ip, n) implies exists|k: int|
                0 <= k < ms@.len() && #[trigger] ms@[k].ip@ == ip by {
                if !(hosts@[n - 1].alive && hosts@[n - 1].ip@ == ip) {
                    lemma_upto_unmatched(hosts@, ip, n);
                    let k = choose|k: int| 0 <= k < old_ms.len() && #[trigger] old_ms[k].ip@ == ip;
                    assert(ms@[k].ip@ == ip);
                } else {
                    assert(ms@[pos].ip@ == ip);
                }
            }
        }
    }
    ms
}

} // verus!

verus! {

// ---------------------------------------------------------------------------
// Sorted insertion
// ---------------------------------------------------------------------------

proof fn lemma_edge_irreflexive(x: EdgeView)
    ensures
        !edge_lt(x, x),
{
    lemma_lex_irreflexive(x.source);
    lemma_lex_irreflexive(x.target);
}

proof fn lemma_edge_transitive(x: EdgeView, y: EdgeView, z: EdgeView)
    requires
        edge_lt(x, y),
        edge_lt(y, z),
    ensures
        edge_lt(x, z),
{
    if lex_lt(x.source, y.source) && lex_lt(y.source, z.source) {
        lemma_lex_transitive(x.source, y.source, z.source);
    }
    if x.source == y.source && y.source == z.source {
        if lex_lt(x.target, y.target) && lex_lt(y.target, z.target) {
            lemma_lex_transitive(x.target, y.target, z.target);
        }
    }
}

proof fn lemma_edge_total(x: EdgeView, y: EdgeView)
    ensures
        x == y || edge_lt(x, y) || edge_lt(y, x),
{
    lemma_lex_total(x.source, y.source);
    lemma_lex_total(x.target, y.target);
}

proof fn lemma_node_insert_sorted(s: Seq<NodeView>, j: int, v: NodeView)
    requires
        nodes_sorted(s),
        0 <= j <= s.len(),
        forall|k: int| 0 <= k < j ==> lex_lt(#[trigger] s[k].id, v.id),
        forall|k: int| j <= k < s.len() ==> lex_lt(v.id, #[trigger] s[k].id),
    ensures
        nodes_sorted(s.insert(j, v)),
{
    let t = s.insert(j, v);
    assert forall|a: int, b: int| 0 <= a < b < t.len() implies lex_lt(t[a].id, t[b].id) by {
        if a < j && b < j {
        } else if a < j && b == j {
        } else if a < j && b > j {
            assert(t[b] == s[b - 1]);
        } else if a == j {
            assert(t[b] == s[b - 1]);
        } else {
            assert(t[a] == s[a - 1]);
            assert(t[b] == s[b - 1]);
        }
    }
}

proof fn lemma_edge_insert_sorted(s: Seq<EdgeView>, j: int, v: EdgeView)
    requires
        edges_sorted(s),
        0 <= j <= s.len(),
        forall|k: int| 0 <= k < j ==> edge_lt(#[trigger] s[k], v),
        forall|k: int| j <= k < s.len() ==> edge_lt(v, #[trigger] s[k]),
    ensures
        edges_sorted(s.insert(j, v)),
{
    let t = s.insert(j, v);
    assert forall|a: int, b: int| 0 <= a < b < t.len() implies edge_lt(t[a], t[b]) by {
        if a < j && b < j {
        } else if a < j && b == j {
        } else if a < j && b > j {
            assert(t[b] == s[b - 1]);
        } else if a == j {
            assert(t[b] == s[b - 1]);
        } else {
            assert(t[a] == s[a - 1]);
            assert(t[b] == s[b - 1]);
        }
    }
}

/// Inserts `n` at its place by identifier, unless a node with that
/// identifier is present.
fn insert_node(nodes: &mut Vec<TopologyNode>, n: TopologyNode)
    requires
        nodes_sorted(node_views(old(nodes)@)),
    ensures
        nodes_sorted(node_views(final(nodes)@)),
        forall|v: NodeView| #[trigger]
            node_views(final(nodes)@).contains(v) <==> (node_views(old(nodes)@).contains(v) || (v
                == n@ && !has_node_id(node_views(old(nodes)@), n@.id))),
        forall|id: Seq<char>| #[trigger]
            has_node_id(node_views(final(nodes)@), id) <==> (has_node_id(
                node_views(old(nodes)@),
                id,
            ) || id == n@.id),
{
    let ghost old_v = node_views(nodes@);
    let key = chars_of(n.id.as_str());
    let mut j: usize = 0;
    while j < nodes.len()
        invariant
            j <= nodes.len(),
            node_views(nodes@) == old_v,
            key@ == n@.id,
            forall|k: int| 0 <= k < j ==> lex_lt(#[trigger] old_v[k].id, key@),
        ensures
            j <= nodes.len(),
            node_views(nodes@) == old_v,
            key@ == n@.id,
            forall|k: int| 0 <= k < j ==> lex_lt(#[trigger] old_v[k].id, key@),
            j < nodes.len() ==> !lex_lt(old_v[j as int].id, key@),
        decreases nodes.len() - j,
    {
        let cur = chars_of(nodes[j].id.as_str());
        assert(old_v[j as int].id == cur@);
        if !text_less(&cur, &key) {
            break;
        }
        j = j + 1;
    }
    let same = if j < nodes.len() {
        let cur = chars_of(nodes[j].id.as_str());
        assert(old_v[j as int].id == cur@);
        text_eq(&cur, &key)
    } else {
        false
    };
    if same {
        assert(old_v[j as int].id == n@.id);
        assert(has_node_id(old_v, n@.id));
        return;
    }
    proof {
        assert forall|k: int| j <= k < old_v.len() implies lex_lt(n@.id, #[trigger] old_v[k].id) by {
            lemma_lex_total(old_v[j as int].id, n@.id);
            if k > j {
                lemma_lex_transitive(n@.id, old_v[j as int].id, old_v[k].id);
            }
        }
        assert(!has_node_id(old_v, n@.id)) by {
            if has_node_id(old_v, n@.id) {
                let k = choose|k: int| 0 <= k < old_v.len() && #[trigger] old_v[k].id == n@.id;
                lemma_lex_irreflexive(n@.id);
                if k < j {
                    assert(lex_lt(old_v[k].id, n@.id));
                } else {
                    assert(lex_lt(n@.id, old_v[k].id));
                }
            }
        }
        lemma_node_insert_sorted(old_v, j as int, n@);
    }
    let ghost nv = n@;
    nodes.insert(j, n);
    proof {
        let t = old_v.insert(j as int, nv);
        assert(node_views(nodes@) =~= t);
        assert forall|v: NodeView| #[trigger]
            node_views(nodes@).contains(v) <==> (old_v.contains(v) || v == nv) by {
            if old_v.contains(v) {
                let k = choose|k: int| 0 <= k < old_v.len() && old_v[k] == v;
                if k < j {
                    assert(t[k] == v);
                } else {
                    assert(t[k + 1] == v);
                }
            }
            if v == nv {
                assert(t[j as int] == v);
            }
            if t.contains(v) {
                let k = choose|k: int| 0 <= k < t.len() && t[k] == v;
                if k < j {
                    assert(old_v[k] == v);
                } else if k > j {
                    assert(old_v[k - 1] == v);
                }
            }
        }
        assert forall|id: Seq<char>| #[trigger]
            has_node_id(node_views(nodes@), id) <==> (has_node_id(old_v, id) || id == nv.id) by {
            if has_node_id(old_v, id) {
                let k = choose|k: int| 0 <= k < old_v.len() && #[trigger] old_v[k].id == id;
                if k < j {
                    assert(t[k].id == id);
                } else {
                    assert(t[k + 1].id == id);
                }
            }
            if id == nv.id {
                assert(t[j as int].id == id);
            }
            if has_node_id(t, id) {
                let k = choose|k: int| 0 <= k < t.len() && #[trigger] t[k].id == id;
                if k < j {
                    assert(old_v[k].id == id);
                } else if k > j {
                    assert(old_v[k - 1].id == id);
                }
            }
        }
    }
}

fn edge_less(a: &TopologyEdge, b: &TopologyEdge) -> (r: bool)
    ensures
        r == edge_lt(a@, b@),
{
    let as_ = chars_of(a.source.as_str());
    let bs = chars_of(b.source.as_str());
    if text_less(&as_, &bs) {
        return true;
    }
    if !text_eq(&as_, &bs) {
        return false;
    }
    let at = chars_of(a.target.as_str());
    let bt = chars_of(b.target.as_str());
    if text_less(&at, &bt) {
        return true;
    }
    if !text_eq(&at, &bt) {
        return false;
    }
    match (a.kind, b.kind) {
        (TopologyEdgeKind::ConfirmedRoute, TopologyEdgeKind::LogicalSubnetMembership) => true,
        _ => false,
    }
}

fn edge_same(a: &TopologyEdge, b: &TopologyEdge) -> (r: bool)
    ensures
        r == (a@ == b@),
{
    let as_ = chars_of(a.source.as_str());
    let bs = chars_of(b.source.as_str());
    let at = chars_of(a.target.as_str());
    let bt = chars_of(b.target.as_str());
    let k = match (a.kind, b.kind) {
        (TopologyEdgeKind::ConfirmedRoute, TopologyEdgeKind::ConfirmedRoute) => true,
        (TopologyEdgeKind::LogicalSubnetMembership, TopologyEdgeKind::LogicalSubnetMembership) => true,
        _ => false,
    };
    text_eq(&as_, &bs) && text_eq(&at, &bt) && k
}

/// Inserts `e` at its place, unless an equal edge is present.
fn insert_edge(edges: &mut Vec<TopologyEdge>, e: TopologyEdge)
    requires
        edges_sorted(edge_views(old(edges)@)),
    ensures
        edges_sorted(edge_views(final(edges)@)),
        forall|v: EdgeView| #[trigger]
            edge_views(final(edges)@).contains(v) <==> (edge_views(old(edges)@).contains(v) || v
                == e@),
{
    let ghost old_v = edge_views(edges@);
    let mut j: usize = 0;
    while j < edges.len()
        invariant
            j <= edges.len(),
            edge_views(edges@) == old_v,
            forall|k: int| 0 <= k < j ==> edge_lt(#[trigger] old_v[k], e@),
        ensures
            j <= edges.len(),
            edge_views(edges@) == old_v,
            forall|k: int| 0 <= k < j ==> edge_lt(#[trigger] old_v[k], e@),
            j < edges.len() ==> !edge_lt(old_v[j as int], e@),
        decreases edges.len() - j,
    {
        assert(old_v[j as int] == edges@[j as int]@);
        if !edge_less(&edges[j], &e) {
            break;
        }
        j = j + 1;
    }
    let same = if j < edges.len() {
        assert(old_v[j as int] == edges@[j as int]@);
        edge_same(&edges[j], &e)
    } else {
        false
    };
    if same {
        assert(old_v[j as int] == e@);
        return;
    }
    proof {
        assert forall|k: int| j <= k < old_v.len() implies edge_lt(e@, #[trigger] old_v[k]) by {
            lemma_edge_total(old_v[j as int], e@);
            if k > j {
                lemma_edge_transitive(e@, old_v[j as int], old_v[k]);
            }
        }
        lemma_edge_insert_sorted(old_v, j as int, e@);
    }
    let ghost ev = e@;
    edges.insert(j, e);
    proof {
        let t = old_v.insert(j as int, ev);
        assert(edge_views(edges@) =~= t);
        assert forall|v: EdgeView| #[trigger]
            edge_views(edges@).contains(v) <==> (old_v.contains(v) || v == ev) by {
            if old_v.contains(v) {
                let k = choose|k: int| 0 <= k < old_v.len() && old_v[k] == v;
                if k < j {
                    assert(t[k] == v);
                } else {
                    assert(t[k + 1] == v);
                }
            }
            if v == ev {
                assert(t[j as int] == v);
            }
            if t.contains(v) {
                let k = choose|k: int| 0 <= k < t.len() && t[k] == v;
                if k < j {
                    assert(old_v[k] == v);
                } else if k > j {
                    assert(old_v[k - 1] == v);
                }
            }
        }
    }
}

} // verus!

verus! {

// ---------------------------------------------------------------------------
// Building the graph
// ---------------------------------------------------------------------------

fn is_alive_addr(hosts: &[HostInfo], ms: &Vec<Merged>, ip: &IpAddress) -> (r: bool)
    requires
        merged_list_ok(hosts@, ms@, hosts@.len() as int),
    ensures
        r == alive_ip(hosts@, ip@),
{
    match find_merged(ms, ip) {
        Some(k) => {
            assert(merged_ok(hosts@, ms@[k as int], hosts@.len() as int));
            true
        },
        None => {
            proof {
                if alive_ip(hosts@, ip@) {
                    let k = choose|k: int| 0 <= k < ms@.len() && #[trigger] ms@[k].ip@ == ip@;
                    assert(ms@[k].ip@ == ip@);
                }
            }
            false
        },
    }
}

fn route_node_id(hosts: &[HostInfo], ms: &Vec<Merged>, ip: &IpAddress) -> (r: String)
    requires
        merged_list_ok(hosts@, ms@, hosts@.len() as int),
    ensures
        r@ == node_id(hosts@, ip@),
{
    if is_alive_addr(hosts, ms, ip) {
        host_node_id(ip)
    } else {
        hop_node_id(ip)
    }
}

proof fn lemma_merged_route(hosts: Seq<HostInfo>, ms: Seq<Merged>, k: int)
    requires
        merged_list_ok(hosts, ms, hosts.len() as int),
        0 <= k < ms.len(),
    ensures
        merged_route(hosts, ms[k].ip@) == hosts[ms[k].route as int].route@,
        alive_ip(hosts, ms[k].ip@),
        merged_name(hosts, ms[k].ip@) == match ms[k].name {
            Some(j) => Some(hosts[j as int].hostname->0@),
            None => None,
        },
{
    assert(merged_ok(hosts, ms[k], hosts.len() as int));
}

/// The host node of merged entry `m`.
fn make_host_node(hosts: &[HostInfo], ms: &Vec<Merged>, k: usize) -> (n: TopologyNode)
    requires
        merged_list_ok(hosts@, ms@, hosts@.len() as int),
        k < ms.len(),
    ensures
        n@ == host_node(hosts@, ms@[k as int].ip@),
{
    proof {
        lemma_merged_route(hosts@, ms@, k as int);
    }
    let m = &ms[k];
    let label = match m.name {
        Some(j) => {
            assert(merged_ok(hosts@, ms@[k as int], hosts@.len() as int));
            match &hosts[j].hostname {
                Some(h) => h.clone(),
                None => m.ip.to_text(),
            }
        },
        None => m.ip.to_text(),
    };
    TopologyNode {
        id: host_node_id(&m.ip),
        kind: TopologyNodeKind::Host,
        ip: Some(m.ip),
        label,
        group_id: Some(ip_to_subnet_id(&m.ip)),
    }
}

fn make_hop_node(ip: &IpAddress) -> (n: TopologyNode)
    ensures
        n@ == hop_node(ip@),
{
    TopologyNode {
        id: hop_node_id(ip),
        kind: TopologyNodeKind::RouteHop,
        ip: Some(*ip),
        label: ip.to_text(),
        group_id: Some(ip_to_subnet_id(ip)),
    }
}

/// Host nodes of all merged entries, then hop nodes of all kept routes.
fn core_nodes(hosts: &[HostInfo], ms: &Vec<Merged>) -> (nodes: Vec<TopologyNode>)
    requires
        merged_list_ok(hosts@, ms@, hosts@.len() as int),
    ensures
        nodes_sorted(node_views(nodes@)),
        forall|i: int|
            0 <= i < nodes@.len() ==> core_node(hosts@, #[trigger] node_views(nodes@)[i]),
        forall|ip: IpValue| alive_ip(hosts@, ip) ==> has_node_id(node_views(nodes@), host_id(ip)),
        forall|x: IpValue| hop_ip(hosts@, x) ==> has_node_id(node_views(nodes@), hop_id(x)),
{
    let mut nodes: Vec<TopologyNode> = Vec::new();
    let mut k: usize = 0;
    while k < ms.len()
        invariant
            k <= ms.len(),
            merged_list_ok(hosts@, ms@, hosts@.len() as int),
            nodes_sorted(node_views(nodes@)),
            forall|i: int|
                0 <= i < nodes@.len() ==> core_node(hosts@, #[trigger] node_views(nodes@)[i]),
            forall|l: int|
                0 <= l < k ==> has_node_id(node_views(nodes@), host_id(#[trigger] ms@[l].ip@)),
        decreases ms.len() - k,
    {
        let n = make_host_node(hosts, ms, k);
        let ghost nv = n@;
        let ghost old_v = node_views(nodes@);
        proof {
            lemma_merged_route(hosts@, ms@, k as int);
        }
        insert_node(&mut nodes, n);
        proof {
            assert forall|i: int|
                0 <= i < nodes@.len() implies core_node(hosts@, #[trigger] node_views(nodes@)[i]) by {
                let v = node_views(nodes@)[i];
                assert(node_views(nodes@).contains(v));
                if old_v.contains(v) {
                    let j = choose|j: int| 0 <= j < old_v.len() && old_v[j] == v;
                    assert(core_node(hosts@, old_v[j]));
                } else {
                    assert(v == host_node(hosts@, ms@[k as int].ip@));
                }
            }
        }
        k = k + 1;
    }
    assert forall|ip: IpValue| alive_ip(hosts@, ip) implies has_node_id(
        node_views(nodes@),
        host_id(ip),
    ) by {
        let l = choose|l: int| 0 <= l < ms@.len() && #[trigger] ms@[l].ip@ == ip;
        assert(has_node_id(node_views(nodes@), host_id(ms@[l].ip@)));
    }
    let mut k: usize = 0;
    while k < ms.len()
        invariant
            k <= ms.len(),
            merged_list_ok(hosts@, ms@, hosts@.len() as int),
            nodes_sorted(node_views(nodes@)),
            forall|i: int|
                0 <= i < nodes@.len() ==> core_node(hosts@, #[trigger] node_views(nodes@)[i]),
            forall|ip: IpValue|
                alive_ip(hosts@, ip) ==> has_node_id(node_views(nodes@), host_id(ip)),
            forall|l: int, t: int|
                0 <= l < k && 0 <= t < merged_route(hosts@, ms@[l].ip@).len() && !alive_ip(
                    hosts@,
                    merged_route(hosts@, ms@[l].ip@)[t].ip@,
                ) ==> has_node_id(
                    node_views(nodes@),
                    hop_id(#[trigger] merged_route(hosts@, ms@[l].ip@)[t].ip@),
                ),
        decreases ms.len() - k,
    {
        proof {
            lemma_merged_route(hosts@, ms@, k as int);
        }
        let route = &hosts[ms[k].route].route;
        let ghost mip = ms@[k as int].ip@;
        let mut t: usize = 0;
        while t < route.len()
            invariant
                k < ms.len(),
                t <= route.len(),
                mip == ms@[k as int].ip@,
                route@ == merged_route(hosts@, mip),
                alive_ip(hosts@, mip),
                merged_list_ok(hosts@, ms@, hosts@.len() as int),
                nodes_sorted(node_views(nodes@)),
                forall|i: int|
                    0 <= i < nodes@.len() ==> core_node(hosts@, #[trigger] node_views(nodes@)[i]),
                forall|ip: IpValue|
                    alive_ip(hosts@, ip) ==> has_node_id(node_views(nodes@), host_id(ip)),
                forall|l: int, u: int|
                    0 <= l < k && 0 <= u < merged_route(hosts@, ms@[l].ip@).len() && !alive_ip(
                        hosts@,
                        merged_route(hosts@, ms@[l].ip@)[u].ip@,
                    ) ==> has_node_id(
                        node_views(nodes@),
                        hop_id(#[trigger] merged_route(hosts@, ms@[l].ip@)[u].ip@),
                    ),
                forall|u: int|
                    0 <= u < t && !alive_ip(hosts@, route@[u].ip@) ==> has_node_id(
                        node_views(nodes@),
                        hop_id(#[trigger] route@[u].ip@),
                    ),
            decreases route.len() - t,
        {
            let hop_addr = route[t].ip;
            if !is_alive_addr(hosts, ms, &hop_addr) {
                let n = make_hop_node(&hop_addr);
                let ghost old_v = node_views(nodes@);
                proof {
                    assert(on_route(hosts@, hop_addr@)) by {
                        assert(merged_route(hosts@, mip)[t as int].ip@ == hop_addr@);
                    }
                }
                insert_node(&mut nodes, n);
                proof {
                    assert forall|i: int|
                        0 <= i < nodes@.len() implies core_node(
                        hosts@,
                        #[trigger] node_views(nodes@)[i],
                    ) by {
                        let v = node_views(nodes@)[i];
                        assert(node_views(nodes@).contains(v));
                        if old_v.contains(v) {
                            let j = choose|j: int| 0 <= j < old_v.len() && old_v[j] == v;
                            assert(core_node(hosts@, old_v[j]));
                        } else {
                            assert(v == hop_node(hop_addr@));
                        }
                    }
                }
            }
            t = t + 1;
        }
        k = k + 1;
        proof {
            assert forall|l: int, u: int|
                0 <= l < k && 0 <= u < merged_route(hosts@, ms@[l].ip@).len() && !alive_ip(
                    hosts@,
                    merged_route(hosts@, ms@[l].ip@)[u].ip@,
                ) implies has_node_id(
                node_views(nodes@),
                hop_id(#[trigger] merged_route(hosts@, ms@[l].ip@)[u].ip@),
            ) by {
                if l == k - 1 {
                    assert(route@[u] == merged_route(hosts@, ms@[l].ip@)[u]);
                }
            }
        }
    }
    assert forall|x: IpValue| hop_ip(hosts@, x) implies has_node_id(node_views(nodes@), hop_id(x)) by {
        let (ip, t) = choose|ip: IpValue, t: int|
            alive_ip(hosts@, ip) && 0 <= t < merged_route(hosts@, ip).len()
                && #[trigger] merged_route(hosts@, ip)[t].ip@ == x;
        let l = choose|l: int| 0 <= l < ms@.len() && #[trigger] ms@[l].ip@ == ip;
        assert(merged_route(hosts@, ms@[l].ip@)[t].ip@ == x);
    }
    nodes
}

} // verus!

verus! {

/// Confirmed-route edges of every kept route, sorted and without duplicates.
fn route_edges(hosts: &[HostInfo], ms: &Vec<Merged>) -> (edges: Vec<TopologyEdge>)
    requires
        merged_list_ok(hosts@, ms@, hosts@.len() as int),
    ensures
        edges_sorted(edge_views(edges@)),
        forall|e: EdgeView| #[trigger]
            edge_views(edges@).contains(e) <==> exists|ip: IpValue|
                alive_ip(hosts@, ip) && #[trigger] route_edge_of(hosts@, ip, e),
{
    let mut edges: Vec<TopologyEdge> = Vec::new();
    let mut k: usize = 0;
    while k < ms.len()
        invariant
            k <= ms.len(),
            merged_list_ok(hosts@, ms@, hosts@.len() as int),
            edges_sorted(edge_views(edges@)),
            forall|e: EdgeView| #[trigger]
                edge_views(edges@).contains(e) <==> exists|l: int|
                    0 <= l < k && #[trigger] route_edge_of(hosts@, ms@[l].ip@, e),
        decreases ms.len() - k,
    {
        proof {
            lemma_merged_route(hosts@, ms@, k as int);
        }
        let ghost ip = ms@[k as int].ip@;
        let ghost before = edge_views(edges@);
        let r = &hosts[ms[k].route].route;
        let pairs: usize = if r.len() > 0 {
            r.len() - 1
        } else {
            0
        };
        let mut t: usize = 0;
        while t < pairs
            invariant
                k < ms.len(),
                ip == ms@[k as int].ip@,
                r@ == merged_route(hosts@, ip),
                t <= pairs,
                pairs == (if r@.len() > 0 { r@.len() - 1 } else { 0 }),
                merged_list_ok(hosts@, ms@, hosts@.len() as int),
                edges_sorted(edge_views(edges@)),
                forall|e: EdgeView| #[trigger]
                    edge_views(edges@).contains(e) <==> (before.contains(e) || exists|u: int|
                        0 <= u < t && #[trigger] pair_edge(hosts@, r@, u, e)),
            decreases r.len() - t,
        {
            let a = route_node_id(hosts, ms, &r[t].ip);
            let b = route_node_id(hosts, ms, &r[t + 1].ip);
            let ghost cur = edge_views(edges@);
            if a != b {
                let e = TopologyEdge { source: a, target: b, kind: TopologyEdgeKind::ConfirmedRoute };
                let ghost ev = e@;
                insert_edge(&mut edges, e);
                proof {
                    assert(pair_edge(hosts@, r@, t as int, ev));
                    assert forall|x: EdgeView|
                        edge_views(edges@).contains(x) <==> (before.contains(x) || exists|u: int|
                            0 <= u < t + 1 && #[trigger] pair_edge(hosts@, r@, u, x)) by {
                        if exists|u: int| 0 <= u < t + 1 && #[trigger] pair_edge(hosts@, r@, u, x) {
                            let u = choose|u: int| 0 <= u < t + 1 && #[trigger] pair_edge(hosts@, r@, u, x);
                            if u == t {
                                assert(x == ev);
                            } else {
                                assert(cur.contains(x));
                            }
                        }
                    }
                }
            } else {
                proof {
                    assert forall|x: EdgeView|
                        edge_views(edges@).contains(x) <==> (before.contains(x) || exists|u: int|
                            0 <= u < t + 1 && #[trigger] pair_edge(hosts@, r@, u, x)) by {
                        if exists|u: int| 0 <= u < t + 1 && #[trigger] pair_edge(hosts@, r@, u, x) {
                            let u = choose|u: int| 0 <= u < t + 1 && #[trigger] pair_edge(hosts@, r@, u, x);
                            assert(u != t);
                            assert(cur.contains(x));
                        }
                    }
                }
            }
            t = t + 1;
        }
        let ghost mid = edge_views(edges@);
        if r.len() > 0 {
            let last = route_node_id(hosts, ms, &r[r.len() - 1].ip);
            let target = host_node_id(&ms[k].ip);
            if last != target {
                let e = TopologyEdge {
                    source: last,
                    target,
                    kind: TopologyEdgeKind::ConfirmedRoute,
                };
                let ghost ev = e@;
                insert_edge(&mut edges, e);
                proof {
                    assert(last_edge(hosts@, r@, ip, ev));
                }
            }
        }
        proof {
            assert forall|x: EdgeView|
                edge_views(edges@).contains(x) <==> exists|l: int|
                    0 <= l < k + 1 && #[trigger] route_edge_of(hosts@, ms@[l].ip@, x) by {
                if exists|l: int| 0 <= l < k + 1 && #[trigger] route_edge_of(hosts@, ms@[l].ip@, x) {
                    let l = choose|l: int| 0 <= l < k + 1 && #[trigger] route_edge_of(hosts@, ms@[l].ip@, x);
                    if l < k {
                        assert(before.contains(x));
                    } else {
                        if exists|u: int| 0 <= u < r@.len() - 1 && #[trigger] pair_edge(hosts@, r@, u, x) {
                            let u = choose|u: int| 0 <= u < r@.len() - 1 && #[trigger] pair_edge(hosts@, r@, u, x);
                            assert(mid.contains(x));
                        }
                    }
                }
                if edge_views(edges@).contains(x) && !before.contains(x) {
                    if mid.contains(x) {
                        let u = choose|u: int| 0 <= u < t && #[trigger] pair_edge(hosts@, r@, u, x);
                        assert(route_edge_of(hosts@, ms@[k as int].ip@, x));
                    } else {
                        assert(last_edge(hosts@, r@, ip, x));
                        assert(route_edge_of(hosts@, ms@[k as int].ip@, x));
                    }
                }
            }
        }
        k = k + 1;
    }
    proof {
        assert forall|x: EdgeView|
            edge_views(edges@).contains(x) <==> exists|ip: IpValue|
                alive_ip(hosts@, ip) && #[trigger] route_edge_of(hosts@, ip, x) by {
            if edge_views(edges@).contains(x) {
                let l = choose|l: int| 0 <= l < ms@.len() && #[trigger] route_edge_of(hosts@, ms@[l].ip@, x);
                lemma_merged_route(hosts@, ms@, l);
            }
            if exists|ip: IpValue| alive_ip(hosts@, ip) && #[trigger] route_edge_of(hosts@, ip, x) {
                let ip = choose|ip: IpValue| alive_ip(hosts@, ip) && #[trigger] route_edge_of(hosts@, ip, x);
                let l = choose|l: int| 0 <= l < ms@.len() && #[trigger] ms@[l].ip@ == ip;
                assert(route_edge_of(hosts@, ms@[l].ip@, x));
            }
        }
    }
    edges
}

} // verus!

verus! {

/// A node identifier together with the subnet group it belongs to.
struct Membership {
    node: String,
    group: String,
}

spec fn membership_edge(p: Membership) -> EdgeView {
    EdgeView {
        source: p.node@,
        target: p.group@,
        kind: TopologyEdgeKind::LogicalSubnetMembership,
    }
}

/// `p` pairs the identifier of a node of `nodes` with that node's group.
spec fn is_pair_of(nodes: Seq<TopologyNode>, p: Membership) -> bool {
    exists|j: int| 0 <= j < nodes.len() && nodes[j]@.id == p.node@ && nodes[j]@.group == Some(p.group@)
}

/// The (node, group) pairs of all nodes that belong to a group.
fn memberships(nodes: &Vec<TopologyNode>) -> (ps: Vec<Membership>)
    ensures
        forall|k: int|
            0 <= k < ps@.len() ==> is_pair_of(nodes@, #[trigger] ps@[k]),
        forall|j: int|
            0 <= j < nodes@.len() && (#[trigger] nodes@[j]).group_id is Some ==> exists|k: int|
                0 <= k < ps@.len() && ps@[k].node@ == nodes@[j]@.id && Some(ps@[k].group@)
                    == nodes@[j]@.group,
{
    let mut ps: Vec<Membership> = Vec::new();
    let mut i: usize = 0;
    while i < nodes.len()
        invariant
            i <= nodes.len(),
            forall|k: int|
                0 <= k < ps@.len() ==> is_pair_of(nodes@, #[trigger] ps@[k]),
            forall|j: int|
                0 <= j < i && (#[trigger] nodes@[j]).group_id is Some ==> exists|k: int|
                    0 <= k < ps@.len() && ps@[k].node@ == nodes@[j]@.id && Some(ps@[k].group@)
                        == nodes@[j]@.group,
        decreases nodes.len() - i,
    {
        match &nodes[i].group_id {
            Some(g) => {
                let ghost old_ps = ps@;
                ps.push(Membership { node: nodes[i].id.clone(), group: g.clone() });
                proof {
                    assert forall|k: int| 0 <= k < ps@.len() implies is_pair_of(nodes@, #[trigger] ps@[k]) by {
                        if k < old_ps.len() {
                            assert(ps@[k] == old_ps[k]);
                        } else {
                            assert(nodes@[i as int]@.id == ps@[k].node@);
                            assert(nodes@[i as int]@.group == Some(ps@[k].group@));
                        }
                    }
                    assert forall|j: int|
                        0 <= j < i + 1 && (#[trigger] nodes@[j]).group_id is Some implies exists|k: int|
                            0 <= k < ps@.len() && ps@[k].node@ == nodes@[j]@.id && Some(
                                ps@[k].group@,
                            ) == nodes@[j]@.group by {
                        if j < i {
                            let k = choose|k: int|
                                0 <= k < old_ps.len() && old_ps[k].node@ == nodes@[j]@.id && Some(
                                    old_ps[k].group@,
                                ) == nodes@[j]@.group;
                            assert(ps@[k] == old_ps[k]);
                        } else {
                            assert(ps@[old_ps.len() as int].node@ == nodes@[j]@.id);
                        }
                    }
                }
            },
            None => {},
        }
        i = i + 1;
    }
    ps
}

fn make_subnet_node(g: &String) -> (n: TopologyNode)
    ensures
        n@ == subnet_node(g@),
{
    TopologyNode {
        id: g.clone(),
        kind: TopologyNodeKind::LogicalSubnet,
        ip: None,
        label: subnet_label(g.as_str()),
        group_id: None,
    }
}

/// Adds one subnet node per group of `ps` and one membership edge per pair.
fn add_subnets(nodes: &mut Vec<TopologyNode>, edges: &mut Vec<TopologyEdge>, ps: &Vec<Membership>)
    requires
        nodes_sorted(node_views(old(nodes)@)),
        edges_sorted(edge_views(old(edges)@)),
    ensures
        nodes_sorted(node_views(final(nodes)@)),
        edges_sorted(edge_views(final(edges)@)),
        forall|v: NodeView|
            node_views(old(nodes)@).contains(v) ==> #[trigger] node_views(final(nodes)@).contains(v),
        forall|i: int|
            0 <= i < final(nodes)@.len() ==> node_views(old(nodes)@).contains(
                #[trigger] node_views(final(nodes)@)[i],
            ) || (node_views(final(nodes)@)[i] == subnet_node(node_views(final(nodes)@)[i].id)
                && exists|k: int| 0 <= k < ps@.len() && ps@[k].group@ == node_views(final(nodes)@)[i].id),
        forall|k: int|
            0 <= k < ps@.len() ==> has_node_id(node_views(final(nodes)@), (#[trigger] ps@[k]).group@),
        forall|e: EdgeView| #[trigger]
            edge_views(final(edges)@).contains(e) <==> (edge_views(old(edges)@).contains(e)
                || exists|k: int| 0 <= k < ps@.len() && e == membership_edge(#[trigger] ps@[k])),
{
    let ghost core = node_views(nodes@);
    let ghost e0 = edge_views(edges@);
    let mut k: usize = 0;
    while k < ps.len()
        invariant
            k <= ps.len(),
            nodes_sorted(node_views(nodes@)),
            edges_sorted(edge_views(edges@)),
            forall|v: NodeView| core.contains(v) ==> #[trigger] node_views(nodes@).contains(v),
            forall|i: int|
                0 <= i < nodes@.len() ==> core.contains(#[trigger] node_views(nodes@)[i]) || (
                node_views(nodes@)[i] == subnet_node(node_views(nodes@)[i].id) && exists|l: int|
                    0 <= l < ps@.len() && ps@[l].group@ == node_views(nodes@)[i].id),
            forall|l: int| 0 <= l < k ==> has_node_id(node_views(nodes@), (#[trigger] ps@[l]).group@),
            forall|e: EdgeView| #[trigger]
                edge_views(edges@).contains(e) <==> (e0.contains(e) || exists|l: int|
                    0 <= l < k && e == membership_edge(#[trigger] ps@[l])),
        decreases ps.len() - k,
    {
        let n = make_subnet_node(&ps[k].group);
        let ghost nv = n@;
        let ghost before = node_views(nodes@);
        insert_node(nodes, n);
        proof {
            assert forall|v: NodeView| core.contains(v) implies #[trigger] node_views(nodes@).contains(v) by {
                assert(before.contains(v));
            }
            assert forall|i: int|
                0 <= i < nodes@.len() implies core.contains(#[trigger] node_views(nodes@)[i]) || (
                node_views(nodes@)[i] == subnet_node(node_views(nodes@)[i].id) && exists|l: int|
                    0 <= l < ps@.len() && ps@[l].group@ == node_views(nodes@)[i].id) by {
                let v = node_views(nodes@)[i];
                assert(node_views(nodes@).contains(v));
                if before.contains(v) {
                    let j = choose|j: int| 0 <= j < before.len() && before[j] == v;
                    assert(before[j] == v);
                } else {
                    assert(v == nv);
                    assert(ps@[k as int].group@ == v.id);
                }
            }
        }
        let e = TopologyEdge {
            source: ps[k].node.clone(),
            target: ps[k].group.clone(),
            kind: TopologyEdgeKind::LogicalSubnetMembership,
        };
        let ghost ev = e@;
        let ghost ebefore = edge_views(edges@);
        insert_edge(edges, e);
        proof {
            assert(ev == membership_edge(ps@[k as int]));
            assert forall|x: EdgeView| #[trigger]
                edge_views(edges@).contains(x) <==> (e0.contains(x) || exists|l: int|
                    0 <= l < k + 1 && x == membership_edge(#[trigger] ps@[l])) by {
                if exists|l: int| 0 <= l < k + 1 && x == membership_edge(#[trigger] ps@[l]) {
                    let l = choose|l: int| 0 <= l < k + 1 && x == membership_edge(#[trigger] ps@[l]);
                    if l < k {
                        assert(ebefore.contains(x));
                    }
                }
            }
        }
        k = k + 1;
    }
}

/// What the steps of [`build_hybrid_topology`] establish: `raw` holds the
/// host and hop nodes, `ps` their (node, group) pairs, and `nv` the final
/// nodes.
spec fn assembled(hosts: Seq<HostInfo>, raw: Seq<TopologyNode>, nv: Seq<NodeView>, ps: Seq<Membership>) -> bool {
    let core = node_views(raw);
    &&& forall|i: int| 0 <= i < core.len() ==> core_node(hosts, #[trigger] core[i])
    &&& forall|ip: IpValue| alive_ip(hosts, ip) ==> has_node_id(core, host_id(ip))
    &&& forall|x: IpValue| hop_ip(hosts, x) ==> has_node_id(core, hop_id(x))
    &&& forall|k: int| 0 <= k < ps.len() ==> is_pair_of(raw, #[trigger] ps[k])
    &&& forall|j: int|
        0 <= j < raw.len() && (#[trigger] raw[j]).group_id is Some ==> exists|k: int|
            0 <= k < ps.len() && ps[k].node@ == raw[j]@.id && Some(ps[k].group@) == raw[j]@.group
    &&& forall|v: NodeView| core.contains(v) ==> #[trigger] nv.contains(v)
    &&& forall|i: int|
        0 <= i < nv.len() ==> core.contains(#[trigger] nv[i]) || (nv[i] == subnet_node(nv[i].id)
            && exists|k: int| 0 <= k < ps.len() && ps[k].group@ == nv[i].id)
    &&& forall|k: int| 0 <= k < ps.len() ==> has_node_id(nv, (#[trigger] ps[k]).group@)
}

proof fn lemma_group_of_pair(hosts: Seq<HostInfo>, raw: Seq<TopologyNode>, nv: Seq<NodeView>, ps: Seq<Membership>, s: Seq<char>)
    requires
        assembled(hosts, raw, nv, ps),
        has_group(nv, s),
    ensures
        exists|k: int| 0 <= k < ps.len() && ps[k].group@ == s,
{
    let core = node_views(raw);
    let i = choose|i: int| 0 <= i < nv.len() && #[trigger] nv[i].group == Some(s);
    assert(core.contains(nv[i]));
    let j = choose|j: int| 0 <= j < core.len() && core[j] == nv[i];
    assert(raw[j]@ == core[j]);
    assert(raw[j].group_id is Some);
    let k = choose|k: int|
        0 <= k < ps.len() && ps[k].node@ == raw[j]@.id && Some(ps[k].group@) == raw[j]@.group;
    assert(ps[k].group@ == s);
}

proof fn lemma_pair_in_nodes(raw: Seq<TopologyNode>, nv: Seq<NodeView>, ps: Seq<Membership>, hosts: Seq<HostInfo>, k: int)
    requires
        assembled(hosts, raw, nv, ps),
        0 <= k < ps.len(),
    ensures
        exists|i: int| 0 <= i < nv.len() && nv[i].id == ps[k].node@ && nv[i].group == Some(ps[k].group@),
{
    let core = node_views(raw);
    assert(is_pair_of(raw, ps[k]));
    let j = choose|j: int|
        0 <= j < raw.len() && raw[j]@.id == ps[k].node@ && raw[j]@.group == Some(ps[k].group@);
    assert(core[j] == raw[j]@);
    assert(core.contains(core[j]));
    assert(nv.contains(core[j]));
    let i = choose|i: int| 0 <= i < nv.len() && nv[i] == core[j];
    assert(nv[i].id == ps[k].node@);
}

proof fn lemma_graph_nodes(hosts: Seq<HostInfo>, raw: Seq<TopologyNode>, nv: Seq<NodeView>, ps: Seq<Membership>)
    requires
        assembled(hosts, raw, nv, ps),
    ensures
        forall|i: int|
            0 <= i < nv.len() ==> core_node(hosts, #[trigger] nv[i]) || (nv[i] == subnet_node(nv[i].id)
                && has_group(nv, nv[i].id)),
        forall|ip: IpValue| alive_ip(hosts, ip) ==> has_node_id(nv, #[trigger] host_id(ip)),
        forall|x: IpValue| hop_ip(hosts, x) ==> has_node_id(nv, #[trigger] hop_id(x)),
        forall|s: Seq<char>| has_group(nv, s) ==> has_node_id(nv, s),
{
    let core = node_views(raw);
    assert forall|i: int|
        0 <= i < nv.len() implies core_node(hosts, #[trigger] nv[i]) || (nv[i] == subnet_node(nv[i].id)
            && has_group(nv, nv[i].id)) by {
        if core.contains(nv[i]) {
            let j = choose|j: int| 0 <= j < core.len() && core[j] == nv[i];
            assert(core_node(hosts, core[j]));
        } else {
            let k = choose|k: int| 0 <= k < ps.len() && ps[k].group@ == nv[i].id;
            lemma_pair_in_nodes(raw, nv, ps, hosts, k);
            let i2 = choose|i2: int|
                0 <= i2 < nv.len() && nv[i2].id == ps[k].node@ && nv[i2].group == Some(ps[k].group@);
            assert(nv[i2].group == Some(nv[i].id));
        }
    }
    assert forall|ip: IpValue| alive_ip(hosts, ip) implies has_node_id(nv, #[trigger] host_id(ip)) by {
        let j = choose|j: int| 0 <= j < core.len() && #[trigger] core[j].id == host_id(ip);
        assert(core.contains(core[j]));
        assert(nv.contains(core[j]));
        let i = choose|i: int| 0 <= i < nv.len() && nv[i] == core[j];
        assert(nv[i].id == host_id(ip));
    }
    assert forall|x: IpValue| hop_ip(hosts, x) implies has_node_id(nv, #[trigger] hop_id(x)) by {
        let j = choose|j: int| 0 <= j < core.len() && #[trigger] core[j].id == hop_id(x);
        assert(core.contains(core[j]));
        assert(nv.contains(core[j]));
        let i = choose|i: int| 0 <= i < nv.len() && nv[i] == core[j];
        assert(nv[i].id == hop_id(x));
    }
    assert forall|s: Seq<char>| has_group(nv, s) implies has_node_id(nv, s) by {
        lemma_group_of_pair(hosts, raw, nv, ps, s);
        let k = choose|k: int| 0 <= k < ps.len() && ps[k].group@ == s;
        assert(has_node_id(nv, ps[k].group@));
    }
}

proof fn lemma_membership_edge(hosts: Seq<HostInfo>, raw: Seq<TopologyNode>, nv: Seq<NodeView>, ps: Seq<Membership>, e: EdgeView)
    requires
        assembled(hosts, raw, nv, ps),
    ensures
        (exists|k: int| 0 <= k < ps.len() && e == membership_edge(#[trigger] ps[k])) <==> (e.kind
            == TopologyEdgeKind::LogicalSubnetMembership && exists|i: int|
            0 <= i < nv.len() && nv[i].id == e.source && #[trigger] nv[i].group == Some(e.target)),
{
    let core = node_views(raw);
    if exists|k: int| 0 <= k < ps.len() && e == membership_edge(#[trigger] ps[k]) {
        let k = choose|k: int| 0 <= k < ps.len() && e == membership_edge(#[trigger] ps[k]);
        lemma_pair_in_nodes(raw, nv, ps, hosts, k);
    }
    if e.kind == TopologyEdgeKind::LogicalSubnetMembership && exists|i: int|
        0 <= i < nv.len() && nv[i].id == e.source && #[trigger] nv[i].group == Some(e.target) {
        let i = choose|i: int|
            0 <= i < nv.len() && nv[i].id == e.source && #[trigger] nv[i].group == Some(e.target);
        assert(core.contains(nv[i]));
        let j = choose|j: int| 0 <= j < core.len() && core[j] == nv[i];
        assert(raw[j]@ == core[j]);
        assert(raw[j].group_id is Some);
        let k = choose|k: int|
            0 <= k < ps.len() && ps[k].node@ == raw[j]@.id && Some(ps[k].group@) == raw[j]@.group;
        assert(e == membership_edge(ps[k]));
    }
}

/// Builds the hybrid topology graph of `hosts`.
///
/// Host nodes: one per alive address (entries sharing an address are merged:
/// the first host name given is kept, and the first route of greatest
/// length). Route-hop nodes: one per address on a kept route that is not an
/// alive host. Subnet nodes: one per /24 or /64 group of those nodes.
/// Confirmed-route edges join consecutive hops of a kept route and its last
/// hop to its host, never a node to itself; membership edges join each host
/// or hop node to its group. Nodes are sorted by identifier, edges by
/// (source, target, kind), and neither repeats.
pub fn build_hybrid_topology(hosts: &[HostInfo]) -> (g: TopologyGraph)
    ensures
        graph_of(hosts@, node_views(g.nodes@), edge_views(g.edges@)),
{
    let ms = merge_hosts(hosts);
    let mut nodes = core_nodes(hosts, &ms);
    let mut edges = route_edges(hosts, &ms);
    let ghost raw = nodes@;
    let ghost core = node_views(nodes@);
    let ghost e0 = edge_views(edges@);
    let ps = memberships(&nodes);
    add_subnets(&mut nodes, &mut edges, &ps);
    let ghost nv = node_views(nodes@);
    proof {
        assert(assembled(hosts@, raw, nv, ps@));
        lemma_graph_nodes(hosts@, raw, nv, ps@);
        assert forall|e: EdgeView| #[trigger]
            edge_views(edges@).contains(e) <==> expected_edge(hosts@, nv, e) by {
            lemma_membership_edge(hosts@, raw, nv, ps@, e);
        }
    }
    TopologyGraph { nodes, edges }
}


// ---------------------------------------------------------------------------
// Laws
// ---------------------------------------------------------------------------

/// No edge of a built graph joins a node to itself.
pub proof fn law_no_self_loops(hosts: Seq<HostInfo>, nodes: Seq<NodeView>, edges: Seq<EdgeView>, e: EdgeView)
    requires
        graph_of(hosts, nodes, edges),
        edges.contains(e),
    ensures
        e.source != e.target,
{
    assert(expected_edge(hosts, nodes, e));
    if !(exists|ip: IpValue| alive_ip(hosts, ip) && #[trigger] route_edge_of(hosts, ip, e)) {
        let i = choose|i: int|
            0 <= i < nodes.len() && nodes[i].id == e.source && #[trigger] nodes[i].group == Some(e.target);
        let v = nodes[i];
        if core_node(hosts, v) {
            if exists|ip: IpValue| alive_ip(hosts, ip) && v == #[trigger] host_node(hosts, ip) {
                let ip = choose|ip: IpValue| alive_ip(hosts, ip) && v == #[trigger] host_node(hosts, ip);
                assert(host_id(ip)[0] == 'h');
                assert(subnet_id(ip)[0] == 's');
            } else {
                let x = choose|x: IpValue| hop_ip(hosts, x) && v == #[trigger] hop_node(x);
                assert(hop_id(x)[0] == 'h');
                assert(subnet_id(x)[0] == 's');
            }
        }
    }
}

/// The edges of a built graph are pairwise distinct: they are sorted strictly.
pub proof fn law_edges_distinct(edges: Seq<EdgeView>)
    requires
        edges_sorted(edges),
    ensures
        edges.no_duplicates(),
{
    assert forall|i: int, j: int| 0 <= i < edges.len() && 0 <= j < edges.len() && i != j implies edges[i]
        != edges[j] by {
        if i < j {
            lemma_edge_irreflexive(edges[i]);
        } else {
            lemma_edge_irreflexive(edges[j]);
        }
    }
}

/// The nodes of a built graph have pairwise distinct identifiers: they are
/// sorted strictly by identifier.
pub proof fn law_node_ids_distinct(nodes: Seq<NodeView>)
    requires
        nodes_sorted(nodes),
    ensures
        forall|i: int, j: int| 0 <= i < nodes.len() && 0 <= j < nodes.len() && i != j ==> nodes[i].id != nodes[j].id,
{
    assert forall|i: int, j: int| 0 <= i < nodes.len() && 0 <= j < nodes.len() && i != j implies nodes[i].id
        != nodes[j].id by {
        if i < j {
            lemma_lex_irreflexive(nodes[i].id);
        } else {
            lemma_lex_irreflexive(nodes[j].id);
        }
    }
}


/// Every edge of a built graph joins two nodes of that graph.
pub proof fn law_edges_join_nodes(hosts: Seq<HostInfo>, nodes: Seq<NodeView>, edges: Seq<EdgeView>, e: EdgeView)
    requires
        graph_of(hosts, nodes, edges),
        edges.contains(e),
    ensures
        has_node_id(nodes, e.source),
        has_node_id(nodes, e.target),
{
    assert(expected_edge(hosts, nodes, e));
    if exists|ip: IpValue| alive_ip(hosts, ip) && #[trigger] route_edge_of(hosts, ip, e) {
        let ip = choose|ip: IpValue| alive_ip(hosts, ip) && #[trigger] route_edge_of(hosts, ip, e);
        let r = merged_route(hosts, ip);
        assert forall|k: int| 0 <= k < r.len() implies has_node_id(nodes, #[trigger] node_id(hosts, r[k].ip@)) by {
            let x = r[k].ip@;
            assert(merged_route(hosts, ip)[k].ip@ == x);
            assert(on_route(hosts, x));
            if alive_ip(hosts, x) {
                assert(has_node_id(nodes, host_id(x)));
            } else {
                assert(hop_ip(hosts, x));
                assert(has_node_id(nodes, hop_id(x)));
            }
        }
        if exists|u: int| 0 <= u < r.len() - 1 && #[trigger] pair_edge(hosts, r, u, e) {
            let u = choose|u: int| 0 <= u < r.len() - 1 && #[trigger] pair_edge(hosts, r, u, e);
            assert(has_node_id(nodes, node_id(hosts, r[u].ip@)));
            assert(has_node_id(nodes, node_id(hosts, r[u + 1].ip@)));
        } else {
            assert(last_edge(hosts, r, ip, e));
            assert(has_node_id(nodes, node_id(hosts, r[r.len() - 1].ip@)));
            assert(has_node_id(nodes, host_id(ip)));
        }
    } else {
        let i = choose|i: int|
            0 <= i < nodes.len() && nodes[i].id == e.source && #[trigger] nodes[i].group == Some(e.target);
        assert(has_group(nodes, e.target));
    }
}

/// A graph built from hosts none of which is alive has no node and no edge.
pub proof fn law_no_alive_hosts_empty_graph(hosts: Seq<HostInfo>, nodes: Seq<NodeView>, edges: Seq<EdgeView>)
    requires
        forall|i: int| 0 <= i < hosts.len() ==> !(#[trigger] hosts[i]).alive,
        graph_of(hosts, nodes, edges),
    ensures
        nodes.len() == 0,
        edges.len() == 0,
{
    assert forall|ip: IpValue| !alive_ip(hosts, ip) by {
        if alive_ip(hosts, ip) {
            let i = choose|i: int|
                0 <= i < hosts.len() as int && i < hosts.len() && hosts[i].alive && #[trigger] hosts[i].ip@ == ip;
            assert(!hosts[i].alive);
        }
    }
    assert forall|x: IpValue| !on_route(hosts, x) by {
        if on_route(hosts, x) {
            let (ip, k) = choose|ip: IpValue, k: int|
                alive_ip(hosts, ip) && 0 <= k < merged_route(hosts, ip).len() && #[trigger] merged_route(
                    hosts,
                    ip,
                )[k].ip@ == x;
            assert(alive_ip(hosts, ip));
        }
    }
    assert forall|i: int| 0 <= i < nodes.len() implies !core_node(hosts, #[trigger] nodes[i]) by {
        if core_node(hosts, nodes[i]) {
            if exists|ip: IpValue| alive_ip(hosts, ip) && nodes[i] == #[trigger] host_node(hosts, ip) {
                let ip = choose|ip: IpValue| alive_ip(hosts, ip) && nodes[i] == #[trigger] host_node(hosts, ip);
                assert(alive_ip(hosts, ip));
            } else {
                let x = choose|x: IpValue| hop_ip(hosts, x) && nodes[i] == #[trigger] hop_node(x);
                assert(on_route(hosts, x));
            }
        }
    }
    assert forall|i: int| 0 <= i < nodes.len() implies #[trigger] nodes[i].group is None by {
        if core_node(hosts, nodes[i]) {
        } else {
            assert(nodes[i] == subnet_node(nodes[i].id));
        }
    }
    if nodes.len() > 0 {
        assert(has_group(nodes, nodes[0].id) || core_node(hosts, nodes[0]));
        if has_group(nodes, nodes[0].id) {
            let j = choose|j: int| 0 <= j < nodes.len() && #[trigger] nodes[j].group == Some(nodes[0].id);
            assert(nodes[j].group is None);
        }
    }
    if edges.len() > 0 {
        let e = edges[0];
        assert(edges.contains(e));
        assert(expected_edge(hosts, nodes, e));
        if exists|ip: IpValue| alive_ip(hosts, ip) && #[trigger] route_edge_of(hosts, ip, e) {
            let ip = choose|ip: IpValue| alive_ip(hosts, ip) && #[trigger] route_edge_of(hosts, ip, e);
            assert(alive_ip(hosts, ip));
        }
    }
}


/// Entry `i` is alive, has address `ip`, and no alive entry with that
/// address has a longer route.
pub open spec fn longest_entry(hosts: Seq<HostInfo>, ip: IpValue, i: int) -> bool {
    &&& 0 <= i < hosts.len()
    &&& hosts[i].alive
    &&& hosts[i].ip@ == ip
    &&& forall|j: int|
        0 <= j < hosts.len() && hosts[j].alive && hosts[j].ip@ == ip ==> #[trigger] hosts[j].route@.len()
            <= hosts[i].route@.len()
}

/// The addresses of the hops of a route, in order.
pub open spec fn hop_ips(r: Seq<Hop>) -> Seq<IpValue> {
    r.map_values(|h: Hop| h.ip@)
}

/// Alive entries that share an address never disagree on what the graph
/// keeps of them: the host names they give are equal, and so are the hop
/// addresses of their longest routes.
pub open spec fn entries_agree(hosts: Seq<HostInfo>) -> bool {
    &&& forall|i: int, j: int|
        0 <= i < hosts.len() && 0 <= j < hosts.len() && hosts[i].alive && hosts[j].alive
            && hosts[i].ip@ == hosts[j].ip@ && hosts[i].hostname is Some && hosts[j].hostname is Some
            ==> (#[trigger] hosts[i].hostname)->0@ == (#[trigger] hosts[j].hostname)->0@
    &&& forall|ip: IpValue, i: int, j: int|
        #[trigger] longest_entry(hosts, ip, i) && #[trigger] longest_entry(hosts, ip, j) ==> hop_ips(
            hosts[i].route@,
        ) == hop_ips(hosts[j].route@)
}

proof fn lemma_route_upto(hosts: Seq<HostInfo>, ip: IpValue, n: int)
    requires
        0 <= n <= hosts.len(),
    ensures
        route_upto(hosts, ip, n) is None <==> !alive_upto(hosts, ip, n),
        route_upto(hosts, ip, n) is Some ==> exists|i: int|
            0 <= i < n && hosts[i].alive && hosts[i].ip@ == ip && #[trigger] hosts[i].route@ == route_upto(
                hosts,
                ip,
                n,
            )->0,
        route_upto(hosts, ip, n) is Some ==> forall|j: int|
            0 <= j < n && hosts[j].alive && hosts[j].ip@ == ip ==> #[trigger] hosts[j].route@.len()
                <= route_upto(hosts, ip, n)->0.len(),
    decreases n,
{
    if n > 0 {
        lemma_route_upto(hosts, ip, n - 1);
        let h = hosts[n - 1];
        if h.alive && h.ip@ == ip {
            assert(alive_upto(hosts, ip, n));
        } else {
            if alive_upto(hosts, ip, n) {
                let i = choose|i: int| 0 <= i < n && i < hosts.len() && hosts[i].alive && #[trigger] hosts[i].ip@ == ip;
                assert(i < n - 1);
            }
            if alive_upto(hosts, ip, n - 1) {
                let i = choose|i: int|
                    0 <= i < n - 1 && i < hosts.len() && hosts[i].alive && #[trigger] hosts[i].ip@ == ip;
                assert(hosts[i].ip@ == ip);
            }
        }
    }
}

proof fn lemma_name_upto(hosts: Seq<HostInfo>, ip: IpValue, n: int)
    requires
        0 <= n <= hosts.len(),
    ensures
        name_upto(hosts, ip, n) is Some <==> exists|i: int|
            0 <= i < n && hosts[i].alive && hosts[i].ip@ == ip && (#[trigger] hosts[i].hostname) is Some,
        name_upto(hosts, ip, n) is Some ==> exists|i: int|
            0 <= i < n && hosts[i].alive && hosts[i].ip@ == ip && (#[trigger] hosts[i].hostname) is Some
                && hosts[i].hostname->0@ == name_upto(hosts, ip, n)->0,
    decreases n,
{
    if n > 0 {
        lemma_name_upto(hosts, ip, n - 1);
        if exists|i: int| 0 <= i < n && hosts[i].alive && hosts[i].ip@ == ip && (#[trigger] hosts[i].hostname) is Some {
            let i = choose|i: int|
                0 <= i < n && hosts[i].alive && hosts[i].ip@ == ip && (#[trigger] hosts[i].hostname) is Some;
            if i < n - 1 {
                assert(hosts[i].hostname is Some);
            }
        }
    }
}

proof fn lemma_same_alive(a: Seq<HostInfo>, b: Seq<HostInfo>, ip: IpValue)
    requires
        forall|h: HostInfo| a.contains(h) <==> b.contains(h),
    ensures
        alive_ip(a, ip) == alive_ip(b, ip),
{
    if alive_ip(a, ip) {
        let i = choose|i: int| 0 <= i < a.len() as int && i < a.len() && a[i].alive && #[trigger] a[i].ip@ == ip;
        assert(a.contains(a[i]));
        let k = choose|k: int| 0 <= k < b.len() && b[k] == a[i];
        assert(b[k].ip@ == ip);
    }
    if alive_ip(b, ip) {
        let i = choose|i: int| 0 <= i < b.len() as int && i < b.len() && b[i].alive && #[trigger] b[i].ip@ == ip;
        assert(b.contains(b[i]));
        let k = choose|k: int| 0 <= k < a.len() && a[k] == b[i];
        assert(a[k].ip@ == ip);
    }
}

proof fn lemma_same_route(a: Seq<HostInfo>, b: Seq<HostInfo>, ip: IpValue)
    requires
        forall|h: HostInfo| a.contains(h) <==> b.contains(h),
        entries_agree(a),
    ensures
        hop_ips(merged_route(a, ip)) == hop_ips(merged_route(b, ip)),
{
    lemma_route_upto(a, ip, a.len() as int);
    lemma_route_upto(b, ip, b.len() as int);
    lemma_same_alive(a, b, ip);
    if alive_ip(a, ip) {
        let ra = route_upto(a, ip, a.len() as int)->0;
        let rb = route_upto(b, ip, b.len() as int)->0;
        let i = choose|i: int| 0 <= i < a.len() && a[i].alive && a[i].ip@ == ip && #[trigger] a[i].route@ == ra;
        let j = choose|j: int| 0 <= j < b.len() && b[j].alive && b[j].ip@ == ip && #[trigger] b[j].route@ == rb;
        assert(a.contains(a[i]));
        let ib = choose|k: int| 0 <= k < b.len() && b[k] == a[i];
        assert(b[ib].route@.len() <= rb.len());
        assert(b.contains(b[j]));
        let ja = choose|k: int| 0 <= k < a.len() && a[k] == b[j];
        assert(a[ja].route@.len() <= ra.len());
        assert(longest_entry(a, ip, i));
        assert forall|m: int| 0 <= m < a.len() && a[m].alive && a[m].ip@ == ip implies #[trigger] a[m].route@.len()
            <= a[ja].route@.len() by {}
        assert(longest_entry(a, ip, ja));
        assert(hop_ips(a[i].route@) == hop_ips(a[ja].route@));
    }
}

proof fn lemma_same_name(a: Seq<HostInfo>, b: Seq<HostInfo>, ip: IpValue)
    requires
        forall|h: HostInfo| a.contains(h) <==> b.contains(h),
        entries_agree(a),
    ensures
        merged_name(a, ip) == merged_name(b, ip),
{
    lemma_name_upto(a, ip, a.len() as int);
    lemma_name_upto(b, ip, b.len() as int);
    if merged_name(a, ip) is Some {
        let i = choose|i: int|
            0 <= i < a.len() && a[i].alive && a[i].ip@ == ip && (#[trigger] a[i].hostname) is Some
                && a[i].hostname->0@ == merged_name(a, ip)->0;
        assert(a.contains(a[i]));
        let ib = choose|k: int| 0 <= k < b.len() && b[k] == a[i];
        assert(b[ib].hostname is Some);
        let j = choose|j: int|
            0 <= j < b.len() && b[j].alive && b[j].ip@ == ip && (#[trigger] b[j].hostname) is Some
                && b[j].hostname->0@ == merged_name(b, ip)->0;
        assert(b.contains(b[j]));
        let ja = choose|k: int| 0 <= k < a.len() && a[k] == b[j];
        assert(a[ja].hostname is Some);
        assert(a[i].hostname->0@ == a[ja].hostname->0@);
    } else if merged_name(b, ip) is Some {
        let j = choose|j: int|
            0 <= j < b.len() && b[j].alive && b[j].ip@ == ip && (#[trigger] b[j].hostname) is Some
                && b[j].hostname->0@ == merged_name(b, ip)->0;
        assert(b.contains(b[j]));
        let ja = choose|k: int| 0 <= k < a.len() && a[k] == b[j];
        assert(a[ja].hostname is Some);
    }
}

/// `a` and `b` agree on which addresses are alive and on what merging keeps
/// for each of them: its host name and the hop addresses of its route.
pub open spec fn same_merge(a: Seq<HostInfo>, b: Seq<HostInfo>) -> bool {
    &&& forall|ip: IpValue| #[trigger] alive_ip(a, ip) == alive_ip(b, ip)
    &&& forall|ip: IpValue| #[trigger] hop_ips(merged_route(a, ip)) == hop_ips(merged_route(b, ip))
    &&& forall|ip: IpValue| #[trigger] merged_name(a, ip) == merged_name(b, ip)
}

proof fn lemma_same_on_route(a: Seq<HostInfo>, b: Seq<HostInfo>, x: IpValue)
    requires
        same_merge(a, b),
    ensures
        on_route(a, x) == on_route(b, x),
{
    if on_route(a, x) {
        let (ip, k) = choose|ip: IpValue, k: int|
            alive_ip(a, ip) && 0 <= k < merged_route(a, ip).len() && #[trigger] merged_route(a, ip)[k].ip@ == x;
        assert(hop_ips(merged_route(a, ip)) == hop_ips(merged_route(b, ip)));
        assert(hop_ips(merged_route(a, ip))[k] == x);
        assert(hop_ips(merged_route(b, ip)).len() == merged_route(b, ip).len());
        assert(hop_ips(merged_route(b, ip))[k] == merged_route(b, ip)[k].ip@);
        assert(alive_ip(b, ip) && merged_route(b, ip)[k].ip@ == x);
    }
    if on_route(b, x) {
        let (ip, k) = choose|ip: IpValue, k: int|
            alive_ip(b, ip) && 0 <= k < merged_route(b, ip).len() && #[trigger] merged_route(b, ip)[k].ip@ == x;
        assert(hop_ips(merged_route(a, ip)) == hop_ips(merged_route(b, ip)));
        assert(hop_ips(merged_route(b, ip))[k] == x);
        assert(hop_ips(merged_route(a, ip)).len() == merged_route(a, ip).len());
        assert(hop_ips(merged_route(a, ip))[k] == merged_route(a, ip)[k].ip@);
        assert(alive_ip(a, ip) && merged_route(a, ip)[k].ip@ == x);
    }
}

proof fn lemma_same_core_node(a: Seq<HostInfo>, b: Seq<HostInfo>, v: NodeView)
    requires
        same_merge(a, b),
    ensures
        core_node(a, v) == core_node(b, v),
{
    if exists|ip: IpValue| alive_ip(a, ip) && v == #[trigger] host_node(a, ip) {
        let ip = choose|ip: IpValue| alive_ip(a, ip) && v == #[trigger] host_node(a, ip);
        assert(merged_name(a, ip) == merged_name(b, ip));
        assert(alive_ip(b, ip) && v == host_node(b, ip));
    }
    if exists|ip: IpValue| alive_ip(b, ip) && v == #[trigger] host_node(b, ip) {
        let ip = choose|ip: IpValue| alive_ip(b, ip) && v == #[trigger] host_node(b, ip);
        assert(merged_name(a, ip) == merged_name(b, ip));
        assert(alive_ip(a, ip) && v == host_node(a, ip));
    }
    if exists|x: IpValue| hop_ip(a, x) && v == #[trigger] hop_node(x) {
        let x = choose|x: IpValue| hop_ip(a, x) && v == #[trigger] hop_node(x);
        lemma_same_on_route(a, b, x);
        assert(alive_ip(a, x) == alive_ip(b, x));
        assert(hop_ip(b, x));
    }
    if exists|x: IpValue| hop_ip(b, x) && v == #[trigger] hop_node(x) {
        let x = choose|x: IpValue| hop_ip(b, x) && v == #[trigger] hop_node(x);
        lemma_same_on_route(a, b, x);
        assert(alive_ip(a, x) == alive_ip(b, x));
        assert(hop_ip(a, x));
    }
}

proof fn lemma_same_route_edge(a: Seq<HostInfo>, b: Seq<HostInfo>, ip: IpValue, e: EdgeView)
    requires
        same_merge(a, b),
    ensures
        route_edge_of(a, ip, e) == route_edge_of(b, ip, e),
{
    let r = merged_route(a, ip);
    let t = merged_route(b, ip);
    assert(hop_ips(r) == hop_ips(t));
    assert(r.len() == hop_ips(r).len() && t.len() == hop_ips(t).len());
    assert forall|k: int| 0 <= k < r.len() implies #[trigger] r[k].ip@ == t[k].ip@ by {
        assert(hop_ips(r)[k] == hop_ips(t)[k]);
    }
    assert forall|y: IpValue| #[trigger] node_id(a, y) == node_id(b, y) by {
        assert(alive_ip(a, y) == alive_ip(b, y));
    }
    assert forall|u: int| 0 <= u < r.len() - 1 implies #[trigger] pair_edge(a, r, u, e) == pair_edge(b, t, u, e) by {
        assert(r[u].ip@ == t[u].ip@);
        assert(r[u + 1].ip@ == t[u + 1].ip@);
        assert(node_id(a, r[u].ip@) == node_id(b, t[u].ip@));
        assert(node_id(a, r[u + 1].ip@) == node_id(b, t[u + 1].ip@));
    }
    if r.len() > 0 {
        assert(r.last().ip@ == t.last().ip@) by {
            assert(r[r.len() - 1].ip@ == t[t.len() - 1].ip@);
        }
        assert(node_id(a, r.last().ip@) == node_id(b, t.last().ip@));
        assert(last_edge(a, r, ip, e) == last_edge(b, t, ip, e));
    }
    if exists|u: int| 0 <= u < r.len() - 1 && #[trigger] pair_edge(a, r, u, e) {
        let u = choose|u: int| 0 <= u < r.len() - 1 && #[trigger] pair_edge(a, r, u, e);
        assert(pair_edge(b, t, u, e));
    }
    if exists|u: int| 0 <= u < t.len() - 1 && #[trigger] pair_edge(b, t, u, e) {
        let u = choose|u: int| 0 <= u < t.len() - 1 && #[trigger] pair_edge(b, t, u, e);
        assert(pair_edge(a, r, u, e));
    }
}

proof fn lemma_same_expected_edge(a: Seq<HostInfo>, b: Seq<HostInfo>, nodes: Seq<NodeView>, e: EdgeView)
    requires
        same_merge(a, b),
    ensures
        expected_edge(a, nodes, e) == expected_edge(b, nodes, e),
{
    if exists|ip: IpValue| alive_ip(a, ip) && #[trigger] route_edge_of(a, ip, e) {
        let ip = choose|ip: IpValue| alive_ip(a, ip) && #[trigger] route_edge_of(a, ip, e);
        lemma_same_route_edge(a, b, ip, e);
        assert(alive_ip(b, ip) && route_edge_of(b, ip, e));
    }
    if exists|ip: IpValue| alive_ip(b, ip) && #[trigger] route_edge_of(b, ip, e) {
        let ip = choose|ip: IpValue| alive_ip(b, ip) && #[trigger] route_edge_of(b, ip, e);
        lemma_same_route_edge(a, b, ip, e);
        assert(alive_ip(a, ip) && route_edge_of(a, ip, e));
    }
}

/// Reordering the hosts (or repeating entries) leaves unchanged everything
/// that the contract of [`build_hybrid_topology`] says of its graph, as long
/// as alive entries that share an address agree on their host names and on
/// the hop addresses of their longest routes. Where they disagree, merging
/// keeps whichever comes first, and the order matters.
pub proof fn law_host_order_irrelevant(a: Seq<HostInfo>, b: Seq<HostInfo>)
    requires
        forall|h: HostInfo| a.contains(h) <==> b.contains(h),
        entries_agree(a),
    ensures
        same_merge(a, b),
        forall|x: IpValue| #[trigger] hop_ip(a, x) == hop_ip(b, x),
        forall|v: NodeView| #[trigger] core_node(a, v) == core_node(b, v),
        forall|nodes: Seq<NodeView>, e: EdgeView| #[trigger] expected_edge(a, nodes, e) == expected_edge(b, nodes, e),
{
    assert forall|ip: IpValue| #[trigger] alive_ip(a, ip) == alive_ip(b, ip) by {
        lemma_same_alive(a, b, ip);
    }
    assert forall|ip: IpValue| #[trigger] hop_ips(merged_route(a, ip)) == hop_ips(merged_route(b, ip)) by {
        lemma_same_route(a, b, ip);
    }
    assert forall|ip: IpValue| #[trigger] merged_name(a, ip) == merged_name(b, ip) by {
        lemma_same_name(a, b, ip);
    }
    assert(same_merge(a, b));
    assert forall|x: IpValue| #[trigger] hop_ip(a, x) == hop_ip(b, x) by {
        lemma_same_on_route(a, b, x);
    }
    assert forall|v: NodeView| #[trigger] core_node(a, v) == core_node(b, v) by {
        lemma_same_core_node(a, b, v);
    }
    assert forall|nodes: Seq<NodeView>, e: EdgeView| #[trigger] expected_edge(a, nodes, e) == expected_edge(b, nodes, e) by {
        lemma_same_expected_edge(a, b, nodes, e);
    }
}

// ---------------------------------------------------------------------------
// A graph is determined by its hosts
// ---------------------------------------------------------------------------

proof fn lemma_host_id_injective(x: IpValue, y: IpValue)
    requires
        well_formed_ip(x),
        well_formed_ip(y),
        host_id(x) == host_id(y),
    ensures
        x == y,
{
    let t = host_id(x);
    assert(t[8] == family(x)[3] && host_id(y)[8] == family(y)[3]);
    assert(family(x)[3] == (if x is V4 { '4' } else { '6' }));
    assert(family(y)[3] == (if y is V4 { '4' } else { '6' }));
    assert(t[8] == host_id(y)[8]);
    assert(ip_text(x) =~= t.skip(10));
    assert(ip_text(y) =~= host_id(y).skip(10));
    law_address_text_injective(x, y);
}

proof fn lemma_hop_id_injective(x: IpValue, y: IpValue)
    requires
        well_formed_ip(x),
        well_formed_ip(y),
        hop_id(x) == hop_id(y),
    ensures
        x == y,
{
    let t = hop_id(x);
    assert(t[7] == family(x)[3] && hop_id(y)[7] == family(y)[3]);
    assert(family(x)[3] == (if x is V4 { '4' } else { '6' }));
    assert(family(y)[3] == (if y is V4 { '4' } else { '6' }));
    assert(t[7] == hop_id(y)[7]);
    assert(ip_text(x) =~= t.skip(9));
    assert(ip_text(y) =~= hop_id(y).skip(9));
    law_address_text_injective(x, y);
}

proof fn lemma_alive_well_formed(hosts: Seq<HostInfo>, ip: IpValue)
    requires
        alive_ip(hosts, ip),
    ensures
        well_formed_ip(ip),
{
    let i = choose|i: int| 0 <= i < hosts.len() as int && i < hosts.len() && hosts[i].alive && #[trigger] hosts[i].ip@ == ip;
    lemma_view_well_formed(hosts[i].ip);
}

proof fn lemma_hop_well_formed(hosts: Seq<HostInfo>, x: IpValue)
    requires
        on_route(hosts, x),
    ensures
        well_formed_ip(x),
{
    let (ip, k) = choose|ip: IpValue, k: int|
        alive_ip(hosts, ip) && 0 <= k < merged_route(hosts, ip).len() && #[trigger] merged_route(hosts, ip)[k].ip@ == x;
    lemma_view_well_formed(merged_route(hosts, ip)[k].ip);
}

/// An address whose node a graph holds: an alive host or a route hop.
pub open spec fn member_ip(hosts: Seq<HostInfo>, y: IpValue) -> bool {
    alive_ip(hosts, y) || hop_ip(hosts, y)
}

/// The node of a member address.
pub open spec fn member_node(hosts: Seq<HostInfo>, y: IpValue) -> NodeView {
    if alive_ip(hosts, y) {
        host_node(hosts, y)
    } else {
        hop_node(y)
    }
}

proof fn lemma_group_owner(hosts: Seq<HostInfo>, nodes: Seq<NodeView>, s: Seq<char>) -> (y: IpValue)
    requires
        forall|i: int|
            0 <= i < nodes.len() ==> core_node(hosts, #[trigger] nodes[i]) || (nodes[i] == subnet_node(
                nodes[i].id,
            ) && has_group(nodes, nodes[i].id)),
        has_group(nodes, s),
    ensures
        member_ip(hosts, y),
        s == subnet_id(y),
        core_node(hosts, member_node(hosts, y)),
        member_node(hosts, y).group == Some(s),
{
    let i = choose|i: int| 0 <= i < nodes.len() && #[trigger] nodes[i].group == Some(s);
    let v = nodes[i];
    assert(core_node(hosts, v));
    if exists|ip: IpValue| alive_ip(hosts, ip) && v == #[trigger] host_node(hosts, ip) {
        let ip = choose|ip: IpValue| alive_ip(hosts, ip) && v == #[trigger] host_node(hosts, ip);
        ip
    } else {
        let x = choose|x: IpValue| hop_ip(hosts, x) && v == #[trigger] hop_node(x);
        assert(member_node(hosts, x) == hop_node(x));
        x
    }
}

/// Host identifiers begin with "hos", hop identifiers with "hop", subnet
/// identifiers with 's'.
proof fn lemma_id_shapes(x: IpValue, y: IpValue, z: IpValue)
    ensures
        host_id(x)[0] == 'h' && host_id(x)[2] == 's',
        hop_id(y)[0] == 'h' && hop_id(y)[2] == 'p',
        subnet_id(z)[0] == 's',
{
}

/// The node of an alive address, held by any graph of `hosts`.
proof fn lemma_host_present(hosts: Seq<HostInfo>, nodes: Seq<NodeView>, ip: IpValue)
    requires
        nodes_of(hosts, nodes),
        alive_ip(hosts, ip),
    ensures
        nodes.contains(host_node(hosts, ip)),
{
    lemma_alive_well_formed(hosts, ip);
    assert(has_node_id(nodes, host_id(ip)));
    let j = choose|j: int| 0 <= j < nodes.len() && #[trigger] nodes[j].id == host_id(ip);
    let w = nodes[j];
    if core_node(hosts, w) {
        if exists|ip2: IpValue| alive_ip(hosts, ip2) && w == #[trigger] host_node(hosts, ip2) {
            let ip2 = choose|ip2: IpValue| alive_ip(hosts, ip2) && w == #[trigger] host_node(hosts, ip2);
            lemma_alive_well_formed(hosts, ip2);
            lemma_host_id_injective(ip, ip2);
        } else {
            let x2 = choose|x2: IpValue| hop_ip(hosts, x2) && w == #[trigger] hop_node(x2);
            lemma_id_shapes(ip, x2, ip);
        }
    } else {
        let z = lemma_group_owner(hosts, nodes, w.id);
        lemma_id_shapes(ip, ip, z);
    }
    assert(nodes[j] == host_node(hosts, ip));
}

/// The node of a route hop, held by any graph of `hosts`.
proof fn lemma_hop_present(hosts: Seq<HostInfo>, nodes: Seq<NodeView>, x: IpValue)
    requires
        nodes_of(hosts, nodes),
        hop_ip(hosts, x),
    ensures
        nodes.contains(hop_node(x)),
{
    lemma_hop_well_formed(hosts, x);
    assert(has_node_id(nodes, hop_id(x)));
    let j = choose|j: int| 0 <= j < nodes.len() && #[trigger] nodes[j].id == hop_id(x);
    let w = nodes[j];
    if core_node(hosts, w) {
        if exists|ip2: IpValue| alive_ip(hosts, ip2) && w == #[trigger] host_node(hosts, ip2) {
            let ip2 = choose|ip2: IpValue| alive_ip(hosts, ip2) && w == #[trigger] host_node(hosts, ip2);
            lemma_id_shapes(ip2, x, x);
        } else {
            let x2 = choose|x2: IpValue| hop_ip(hosts, x2) && w == #[trigger] hop_node(x2);
            lemma_hop_well_formed(hosts, x2);
            lemma_hop_id_injective(x, x2);
        }
    } else {
        let z = lemma_group_owner(hosts, nodes, w.id);
        lemma_id_shapes(x, x, z);
    }
    assert(nodes[j] == hop_node(x));
}

/// Every node of one graph of `hosts` is a node of any other.
proof fn lemma_node_present(hosts: Seq<HostInfo>, n1: Seq<NodeView>, n2: Seq<NodeView>, v: NodeView)
    requires
        nodes_of(hosts, n1),
        nodes_of(hosts, n2),
        n1.contains(v),
    ensures
        n2.contains(v),
{
    let i = choose|i: int| 0 <= i < n1.len() && n1[i] == v;
    assert(core_node(hosts, n1[i]) || (n1[i] == subnet_node(n1[i].id) && has_group(n1, n1[i].id)));
    if core_node(hosts, v) {
        if exists|ip: IpValue| alive_ip(hosts, ip) && v == #[trigger] host_node(hosts, ip) {
            let ip = choose|ip: IpValue| alive_ip(hosts, ip) && v == #[trigger] host_node(hosts, ip);
            lemma_host_present(hosts, n2, ip);
        } else {
            let x = choose|x: IpValue| hop_ip(hosts, x) && v == #[trigger] hop_node(x);
            lemma_hop_present(hosts, n2, x);
        }
    } else {
        let y = lemma_group_owner(hosts, n1, v.id);
        let u = member_node(hosts, y);
        if alive_ip(hosts, y) {
            lemma_host_present(hosts, n2, y);
        } else {
            lemma_hop_present(hosts, n2, y);
        }
        let k = choose|k: int| 0 <= k < n2.len() && n2[k] == u;
        assert(n2[k].group == Some(v.id));
        assert(has_group(n2, v.id));
        assert(has_node_id(n2, v.id));
        let j = choose|j: int| 0 <= j < n2.len() && #[trigger] n2[j].id == v.id;
        let w = n2[j];
        lemma_id_shapes(y, y, y);
        if core_node(hosts, w) {
            if exists|ip2: IpValue| alive_ip(hosts, ip2) && w == #[trigger] host_node(hosts, ip2) {
                let ip2 = choose|ip2: IpValue| alive_ip(hosts, ip2) && w == #[trigger] host_node(hosts, ip2);
                lemma_id_shapes(ip2, ip2, y);
            } else {
                let x2 = choose|x2: IpValue| hop_ip(hosts, x2) && w == #[trigger] hop_node(x2);
                lemma_id_shapes(x2, x2, y);
            }
        }
        assert(n2[j] == v);
    }
}

/// Two sequences sorted strictly by one order and holding the same elements
/// are equal.
proof fn lemma_sorted_unique<A>(x: Seq<A>, y: Seq<A>, lt: spec_fn(A, A) -> bool)
    requires
        forall|a: A| !(#[trigger] lt(a, a)),
        forall|a: A, b: A, c: A| #[trigger] lt(a, b) && #[trigger] lt(b, c) ==> lt(a, c),
        forall|i: int, j: int| 0 <= i < j < x.len() ==> lt(x[i], x[j]),
        forall|i: int, j: int| 0 <= i < j < y.len() ==> lt(y[i], y[j]),
        forall|a: A| x.contains(a) <==> y.contains(a),
    ensures
        x == y,
    decreases x.len(),
{
    if x.len() == 0 {
        if y.len() > 0 {
            assert(y.contains(y[0]));
        }
        assert(x =~= y);
    } else {
        assert(x.contains(x[0]));
        let j = choose|j: int| 0 <= j < y.len() && y[j] == x[0];
        assert(y.contains(y[0]));
        let k = choose|k: int| 0 <= k < x.len() && x[k] == y[0];
        if j != 0 {
            assert(lt(y[0], y[j]));
            if k != 0 {
                assert(lt(x[0], x[k]));
                assert(lt(y[0], y[0]));
            }
        }
        assert(x[0] == y[0]);
        let x2 = x.drop_first();
        let y2 = y.drop_first();
        assert forall|a: A| x2.contains(a) <==> y2.contains(a) by {
            if x2.contains(a) {
                let m = choose|m: int| 0 <= m < x2.len() && x2[m] == a;
                assert(x.contains(a)) by {
                    assert(x[m + 1] == a);
                }
                let n = choose|n: int| 0 <= n < y.len() && y[n] == a;
                assert(lt(x[0], x[m + 1]));
                assert(n != 0);
                assert(y2[n - 1] == a);
            }
            if y2.contains(a) {
                let m = choose|m: int| 0 <= m < y2.len() && y2[m] == a;
                assert(y.contains(a)) by {
                    assert(y[m + 1] == a);
                }
                let n = choose|n: int| 0 <= n < x.len() && x[n] == a;
                assert(lt(y[0], y[m + 1]));
                assert(n != 0);
                assert(x2[n - 1] == a);
            }
        }
        lemma_sorted_unique(x2, y2, lt);
        assert(x =~= y) by {
            assert forall|i: int| 0 <= i < x.len() implies x[i] == y[i] by {
                if i > 0 {
                    assert(x[i] == x2[i - 1]);
                    assert(y[i] == y2[i - 1]);
                }
            }
        }
    }
}

/// What a graph built from `hosts` is pins it down: two graphs that both
/// meet [`graph_of`] for the same hosts have the same nodes and edges, in
/// the same order.
pub proof fn law_graph_determined(
    hosts: Seq<HostInfo>,
    n1: Seq<NodeView>,
    e1: Seq<EdgeView>,
    n2: Seq<NodeView>,
    e2: Seq<EdgeView>,
)
    requires
        graph_of(hosts, n1, e1),
        graph_of(hosts, n2, e2),
    ensures
        n1 == n2,
        e1 == e2,
{
    assert forall|v: NodeView| n1.contains(v) <==> n2.contains(v) by {
        if n1.contains(v) {
            lemma_node_present(hosts, n1, n2, v);
        }
        if n2.contains(v) {
            lemma_node_present(hosts, n2, n1, v);
        }
    }
    let lt = |u: NodeView, w: NodeView| lex_lt(u.id, w.id);
    assert forall|a: NodeView| !(#[trigger] lt(a, a)) by {
        lemma_lex_irreflexive(a.id);
    }
    assert forall|a: NodeView, b: NodeView, c: NodeView| #[trigger] lt(a, b) && #[trigger] lt(b, c) implies lt(a, c) by {
        lemma_lex_transitive(a.id, b.id, c.id);
    }
    lemma_sorted_unique(n1, n2, lt);
    assert forall|e: EdgeView| e1.contains(e) <==> e2.contains(e) by {
        assert(e1.contains(e) <==> expected_edge(hosts, n1, e));
        assert(e2.contains(e) <==> expected_edge(hosts, n2, e));
    }
    let elt = |a: EdgeView, b: EdgeView| edge_lt(a, b);
    assert forall|a: EdgeView| !(#[trigger] elt(a, a)) by {
        lemma_edge_irreflexive(a);
    }
    assert forall|a: EdgeView, b: EdgeView, c: EdgeView| #[trigger] elt(a, b) && #[trigger] elt(b, c) implies elt(a, c) by {
        lemma_edge_transitive(a, b, c);
    }
    lemma_sorted_unique(e1, e2, elt);
}

/// Reordering the hosts (or repeating entries) does not change the graph
/// built from them, as long as alive entries that share an address agree on
/// their host names and on the hop addresses of their longest routes: any
/// graph built from the one list equals any graph built from the other.
pub proof fn law_reordered_hosts_same_graph(
    a: Seq<HostInfo>,
    b: Seq<HostInfo>,
    n1: Seq<NodeView>,
    e1: Seq<EdgeView>,
    n2: Seq<NodeView>,
    e2: Seq<EdgeView>,
)
    requires
        forall|h: HostInfo| a.contains(h) <==> b.contains(h),
        entries_agree(a),
        graph_of(a, n1, e1),
        graph_of(b, n2, e2),
    ensures
        n1 == n2,
        e1 == e2,
{
    law_host_order_irrelevant(a, b);
    assert forall|i: int| 0 <= i < n2.len() implies core_node(a, #[trigger] n2[i]) || (n2[i] == subnet_node(
        n2[i].id,
    ) && has_group(n2, n2[i].id)) by {
        assert(core_node(a, n2[i]) == core_node(b, n2[i]));
    }
    assert forall|ip: IpValue| alive_ip(a, ip) implies has_node_id(n2, #[trigger] host_id(ip)) by {
        assert(alive_ip(a, ip) == alive_ip(b, ip));
    }
    assert forall|x: IpValue| hop_ip(a, x) implies has_node_id(n2, #[trigger] hop_id(x)) by {
        assert(hop_ip(a, x) == hop_ip(b, x));
    }
    assert forall|e: EdgeView| #[trigger] e2.contains(e) <==> expected_edge(a, n2, e) by {
        assert(expected_edge(a, n2, e) == expected_edge(b, n2, e));
    }
    assert(graph_of(a, n2, e2));
    law_graph_determined(a, n1, e1, n2, e2);
}

/// In a built graph, every host or hop node belongs to a group and has
/// exactly one membership edge, to that group, which is a subnet node; a
/// hop node never stands for an alive host; and every alive host has its
/// host node.
pub proof fn law_node_memberships(hosts: Seq<HostInfo>, nodes: Seq<NodeView>, edges: Seq<EdgeView>, i: int)
    requires
        graph_of(hosts, nodes, edges),
        0 <= i < nodes.len(),
        nodes[i].kind != TopologyNodeKind::LogicalSubnet,
    ensures
        nodes[i].group is Some,
        edges.contains(
            EdgeView {
                source: nodes[i].id,
                target: nodes[i].group->0,
                kind: TopologyEdgeKind::LogicalSubnetMembership,
            },
        ),
        forall|e: EdgeView|
            #[trigger] edges.contains(e) && e.kind == TopologyEdgeKind::LogicalSubnetMembership && e.source
                == nodes[i].id ==> e.target == nodes[i].group->0,
        exists|k: int|
            0 <= k < nodes.len() && nodes[k].id == nodes[i].group->0 && #[trigger] nodes[k].kind
                == TopologyNodeKind::LogicalSubnet,
        nodes[i].kind == TopologyNodeKind::RouteHop ==> nodes[i].ip is Some && !alive_ip(hosts, nodes[i].ip->0),
        forall|ip: IpValue| alive_ip(hosts, ip) ==> #[trigger] nodes.contains(host_node(hosts, ip)),
{
    let v = nodes[i];
    assert(core_node(hosts, v) || (v == subnet_node(v.id) && has_group(nodes, v.id)));
    assert(core_node(hosts, v));
    let g = v.group->0;
    if exists|ip: IpValue| alive_ip(hosts, ip) && v == #[trigger] host_node(hosts, ip) {
        let ip = choose|ip: IpValue| alive_ip(hosts, ip) && v == #[trigger] host_node(hosts, ip);
        assert(g == subnet_id(ip));
    } else {
        let x = choose|x: IpValue| hop_ip(hosts, x) && v == #[trigger] hop_node(x);
        assert(g == subnet_id(x));
    }
    let m = EdgeView { source: v.id, target: g, kind: TopologyEdgeKind::LogicalSubnetMembership };
    assert(expected_edge(hosts, nodes, m));
    law_node_ids_distinct(nodes);
    assert forall|e: EdgeView|
        #[trigger] edges.contains(e) && e.kind == TopologyEdgeKind::LogicalSubnetMembership && e.source == v.id
            implies e.target == g by {
        assert(expected_edge(hosts, nodes, e));
        if exists|ip: IpValue| alive_ip(hosts, ip) && #[trigger] route_edge_of(hosts, ip, e) {
            let ip = choose|ip: IpValue| alive_ip(hosts, ip) && #[trigger] route_edge_of(hosts, ip, e);
            let r = merged_route(hosts, ip);
            if exists|u: int| 0 <= u < r.len() - 1 && #[trigger] pair_edge(hosts, r, u, e) {
                let u = choose|u: int| 0 <= u < r.len() - 1 && #[trigger] pair_edge(hosts, r, u, e);
            }
        } else {
            let k = choose|k: int|
                0 <= k < nodes.len() && nodes[k].id == e.source && #[trigger] nodes[k].group == Some(e.target);
            assert(k == i);
        }
    }
    assert(has_group(nodes, g)) by {
        assert(nodes[i].group == Some(g));
    }
    assert(has_node_id(nodes, g));
    let j = choose|j: int| 0 <= j < nodes.len() && #[trigger] nodes[j].id == g;
    let w = nodes[j];
    if core_node(hosts, w) {
        if exists|ip2: IpValue| alive_ip(hosts, ip2) && w == #[trigger] host_node(hosts, ip2) {
            let ip2 = choose|ip2: IpValue| alive_ip(hosts, ip2) && w == #[trigger] host_node(hosts, ip2);
            lemma_id_shapes(ip2, ip2, ip2);
            if exists|ip: IpValue| alive_ip(hosts, ip) && v == #[trigger] host_node(hosts, ip) {
                let ip = choose|ip: IpValue| alive_ip(hosts, ip) && v == #[trigger] host_node(hosts, ip);
                lemma_id_shapes(ip, ip, ip);
            } else {
                let x = choose|x: IpValue| hop_ip(hosts, x) && v == #[trigger] hop_node(x);
                lemma_id_shapes(x, x, x);
            }
        } else {
            let x2 = choose|x2: IpValue| hop_ip(hosts, x2) && w == #[trigger] hop_node(x2);
            lemma_id_shapes(x2, x2, x2);
            if exists|ip: IpValue| alive_ip(hosts, ip) && v == #[trigger] host_node(hosts, ip) {
                let ip = choose|ip: IpValue| alive_ip(hosts, ip) && v == #[trigger] host_node(hosts, ip);
                lemma_id_shapes(ip, ip, ip);
            } else {
                let x = choose|x: IpValue| hop_ip(hosts, x) && v == #[trigger] hop_node(x);
                lemma_id_shapes(x, x, x);
            }
        }
    }
    assert(nodes[j].kind == TopologyNodeKind::LogicalSubnet);
    if v.kind == TopologyNodeKind::RouteHop {
        if exists|ip: IpValue| alive_ip(hosts, ip) && v == #[trigger] host_node(hosts, ip) {
            let ip = choose|ip: IpValue| alive_ip(hosts, ip) && v == #[trigger] host_node(hosts, ip);
        }
    }
    assert forall|ip: IpValue| alive_ip(hosts, ip) implies #[trigger] nodes.contains(host_node(hosts, ip)) by {
        lemma_host_present(hosts, nodes, ip);
    }
}

/// The identifiers of the host nodes of `nodes`.
pub open spec fn host_node_ids(nodes: Seq<NodeView>) -> Set<Seq<char>> {
    Set::new(|id: Seq<char>| exists|i: int| 0 <= i < nodes.len() && nodes[i].kind == TopologyNodeKind::Host && #[trigger] nodes[i].id == id)
}

/// The host identifiers of the alive addresses of `hosts`.
pub open spec fn alive_host_ids(hosts: Seq<HostInfo>) -> Set<Seq<char>> {
    Set::new(|id: Seq<char>| exists|ip: IpValue| alive_ip(hosts, ip) && id == #[trigger] host_id(ip))
}

/// In a built graph the host nodes are exactly those of the alive hosts:
/// their identifiers are "host:<family>:<address>" of the alive addresses,
/// each the node of its address; and no route-hop node carries the address
/// of an alive host.
pub proof fn law_host_nodes_are_alive_hosts(hosts: Seq<HostInfo>, nodes: Seq<NodeView>, edges: Seq<EdgeView>)
    requires
        graph_of(hosts, nodes, edges),
    ensures
        host_node_ids(nodes) == alive_host_ids(hosts),
        forall|i: int|
            0 <= i < nodes.len() && #[trigger] nodes[i].kind == TopologyNodeKind::Host ==> exists|ip: IpValue|
                alive_ip(hosts, ip) && nodes[i] == host_node(hosts, ip),
        forall|i: int|
            0 <= i < nodes.len() && #[trigger] nodes[i].kind == TopologyNodeKind::RouteHop ==> nodes[i].ip is Some
                && !alive_ip(hosts, nodes[i].ip->0),
{
    assert forall|i: int| 0 <= i < nodes.len() && #[trigger] nodes[i].kind == TopologyNodeKind::Host implies exists|ip: IpValue|
        alive_ip(hosts, ip) && nodes[i] == host_node(hosts, ip) by {
        let v = nodes[i];
        assert(core_node(hosts, v) || (v == subnet_node(v.id) && has_group(nodes, v.id)));
        if exists|x: IpValue| hop_ip(hosts, x) && v == #[trigger] hop_node(x) {
            let x = choose|x: IpValue| hop_ip(hosts, x) && v == #[trigger] hop_node(x);
        }
    }
    assert forall|i: int| 0 <= i < nodes.len() && #[trigger] nodes[i].kind == TopologyNodeKind::RouteHop implies nodes[i].ip is Some
        && !alive_ip(hosts, nodes[i].ip->0) by {
        let v = nodes[i];
        assert(core_node(hosts, v) || (v == subnet_node(v.id) && has_group(nodes, v.id)));
        if exists|ip: IpValue| alive_ip(hosts, ip) && v == #[trigger] host_node(hosts, ip) {
            let ip = choose|ip: IpValue| alive_ip(hosts, ip) && v == #[trigger] host_node(hosts, ip);
        } else {
            let x = choose|x: IpValue| hop_ip(hosts, x) && v == #[trigger] hop_node(x);
        }
    }
    assert forall|id: Seq<char>| host_node_ids(nodes).contains(id) <==> alive_host_ids(hosts).contains(id) by {
        if host_node_ids(nodes).contains(id) {
            let i = choose|i: int| 0 <= i < nodes.len() && nodes[i].kind == TopologyNodeKind::Host && #[trigger] nodes[i].id == id;
            let ip = choose|ip: IpValue| alive_ip(hosts, ip) && nodes[i] == host_node(hosts, ip);
            assert(id == host_id(ip));
        }
        if alive_host_ids(hosts).contains(id) {
            let ip = choose|ip: IpValue| alive_ip(hosts, ip) && id == #[trigger] host_id(ip);
            lemma_host_present(hosts, nodes, ip);
            let k = choose|k: int| 0 <= k < nodes.len() && nodes[k] == host_node(hosts, ip);
            assert(nodes[k].kind == TopologyNodeKind::Host && nodes[k].id == id);
        }
    }
    assert(host_node_ids(nodes) =~= alive_host_ids(hosts));
}

} // verus!
