use aplomado_core::topology::{build_hybrid_topology, subnet_label, TopologyEdgeKind, TopologyGraph, TopologyNodeKind};
use aplomado_core::types::{Hop, HostInfo, IpAddress};

fn v4(s: &str) -> IpAddress {
    let o: Vec<u8> = s.split('.').map(|p| p.parse().unwrap()).collect();
    IpAddress::V4([o[0], o[1], o[2], o[3]])
}

fn host_at(ip: IpAddress, alive: bool, route: Vec<(u32, &str, Option<u32>)>) -> HostInfo {
    HostInfo {
        ip,
        hostname: None,
        ttl: None,
        os_guess: None,
        ports: vec![],
        alive,
        route: route.into_iter().map(|(hop, ip, rtt)| Hop { hop, ip: v4(ip), rtt_us: rtt }).collect(),
    }
}

fn make_host(ip: &str, alive: bool, route: Vec<(u32, &str, Option<u32>)>) -> HostInfo {
    host_at(v4(ip), alive, route)
}

fn ids(g: &TopologyGraph, kind: TopologyNodeKind) -> Vec<String> {
    g.nodes.iter().filter(|n| n.kind == kind).map(|n| n.id.clone()).collect()
}

fn host_node_ids(g: &TopologyGraph) -> Vec<String> {
    ids(g, TopologyNodeKind::Host)
}

fn hop_node_ids(g: &TopologyGraph) -> Vec<String> {
    ids(g, TopologyNodeKind::RouteHop)
}

fn subnet_node_ids(g: &TopologyGraph) -> Vec<String> {
    ids(g, TopologyNodeKind::LogicalSubnet)
}

fn confirmed_route_edges(g: &TopologyGraph) -> Vec<(String, String)> {
    let mut pairs: Vec<_> = g
        .edges
        .iter()
        .filter(|e| e.kind == TopologyEdgeKind::ConfirmedRoute)
        .map(|e| (e.source.clone(), e.target.clone()))
        .collect();
    pairs.sort();
    pairs
}

fn pair(a: &str, b: &str) -> (String, String) {
    (a.to_string(), b.to_string())
}

#[test]
fn single_alive_host_without_route() {
    let g = build_hybrid_topology(&[make_host("192.168.1.10", true, vec![])]);
    assert_eq!(host_node_ids(&g), vec!["host:ipv4:192.168.1.10"]);
    assert!(confirmed_route_edges(&g).is_empty());
}

#[test]
fn two_hosts_same_ipv4_subnet() {
    let g = build_hybrid_topology(&[make_host("192.168.1.10", true, vec![]), make_host("192.168.1.20", true, vec![])]);
    let hosts = host_node_ids(&g);
    assert_eq!(hosts.len(), 2);
    assert!(hosts.contains(&"host:ipv4:192.168.1.10".into()));
    assert!(hosts.contains(&"host:ipv4:192.168.1.20".into()));
    assert_eq!(subnet_node_ids(&g), vec!["subnet:ipv4:192.168.1.0/24"]);
    assert!(confirmed_route_edges(&g).is_empty());
}

#[test]
fn hosts_from_two_ipv4_subnets() {
    let g = build_hybrid_topology(&[make_host("192.168.1.10", true, vec![]), make_host("192.168.2.10", true, vec![])]);
    let subnets = subnet_node_ids(&g);
    assert_eq!(subnets.len(), 2);
    assert!(subnets.contains(&"subnet:ipv4:192.168.1.0/24".into()));
    assert!(subnets.contains(&"subnet:ipv4:192.168.2.0/24".into()));
}

#[test]
fn one_host_with_three_hop_route() {
    let g = build_hybrid_topology(&[make_host(
        "10.0.0.10",
        true,
        vec![(1, "10.0.0.1", Some(1000)), (2, "10.0.0.2", Some(2000)), (3, "10.0.0.3", Some(3000))],
    )]);
    assert!(host_node_ids(&g).contains(&"host:ipv4:10.0.0.10".into()));
    let hops = hop_node_ids(&g);
    assert_eq!(hops.len(), 3);
    assert!(hops.contains(&"hop:ipv4:10.0.0.1".into()));
    assert!(hops.contains(&"hop:ipv4:10.0.0.2".into()));
    assert!(hops.contains(&"hop:ipv4:10.0.0.3".into()));
    let edges = confirmed_route_edges(&g);
    assert!(edges.contains(&pair("hop:ipv4:10.0.0.1", "hop:ipv4:10.0.0.2")));
    assert!(edges.contains(&pair("hop:ipv4:10.0.0.2", "hop:ipv4:10.0.0.3")));
    assert!(edges.contains(&pair("hop:ipv4:10.0.0.3", "host:ipv4:10.0.0.10")));
    assert_eq!(edges.len(), 3);
}

#[test]
fn route_already_contains_target() {
    let g = build_hybrid_topology(&[make_host(
        "10.0.0.10",
        true,
        vec![(1, "10.0.0.1", Some(1000)), (2, "10.0.0.2", Some(2000)), (3, "10.0.0.10", Some(3000))],
    )]);
    assert_eq!(hop_node_ids(&g), vec!["hop:ipv4:10.0.0.1", "hop:ipv4:10.0.0.2"]);
    let edges = confirmed_route_edges(&g);
    assert!(edges.contains(&pair("hop:ipv4:10.0.0.1", "hop:ipv4:10.0.0.2")));
    assert!(edges.contains(&pair("hop:ipv4:10.0.0.2", "host:ipv4:10.0.0.10")));
    assert!(!edges.contains(&pair("host:ipv4:10.0.0.10", "host:ipv4:10.0.0.10")));
    assert_eq!(edges.len(), 2);
}

#[test]
fn two_hosts_with_shared_hops() {
    let g = build_hybrid_topology(&[
        make_host("10.0.0.10", true, vec![(1, "10.0.0.1", Some(1000)), (2, "10.0.0.2", Some(2000)), (3, "10.0.0.3", Some(3000))]),
        make_host("10.0.0.20", true, vec![(1, "10.0.0.1", Some(1000)), (2, "10.0.0.2", Some(2000)), (3, "10.0.0.4", Some(4000))]),
    ]);
    let hops = hop_node_ids(&g);
    assert_eq!(hops.len(), 4);
    for h in ["hop:ipv4:10.0.0.1", "hop:ipv4:10.0.0.2", "hop:ipv4:10.0.0.3", "hop:ipv4:10.0.0.4"] {
        assert!(hops.contains(&h.to_string()));
    }
    let edges = confirmed_route_edges(&g);
    assert!(edges.contains(&pair("hop:ipv4:10.0.0.1", "hop:ipv4:10.0.0.2")));
    assert!(edges.contains(&pair("hop:ipv4:10.0.0.2", "hop:ipv4:10.0.0.3")));
    assert!(edges.contains(&pair("hop:ipv4:10.0.0.3", "host:ipv4:10.0.0.10")));
    assert!(edges.contains(&pair("hop:ipv4:10.0.0.2", "hop:ipv4:10.0.0.4")));
    assert!(edges.contains(&pair("hop:ipv4:10.0.0.4", "host:ipv4:10.0.0.20")));
    assert_eq!(edges.len(), 5);
}

#[test]
fn isolated_and_routed_hosts() {
    let g = build_hybrid_topology(&[
        make_host("192.168.1.10", true, vec![]),
        make_host("10.0.0.10", true, vec![(1, "10.0.0.1", Some(1000))]),
    ]);
    let hosts = host_node_ids(&g);
    assert!(hosts.contains(&"host:ipv4:192.168.1.10".into()));
    assert!(hosts.contains(&"host:ipv4:10.0.0.10".into()));
    assert_eq!(hosts.len(), 2);
}

#[test]
fn dead_hosts_are_excluded() {
    let g = build_hybrid_topology(&[make_host("192.168.1.10", false, vec![]), make_host("192.168.1.20", false, vec![])]);
    assert!(host_node_ids(&g).is_empty());
    assert!(g.nodes.is_empty());
}

#[test]
fn mixed_alive_and_dead() {
    let g = build_hybrid_topology(&[make_host("192.168.1.10", true, vec![]), make_host("192.168.1.20", false, vec![])]);
    let hosts = host_node_ids(&g);
    assert!(hosts.contains(&"host:ipv4:192.168.1.10".into()));
    assert!(!hosts.contains(&"host:ipv4:192.168.1.20".into()));
    assert_eq!(hosts.len(), 1);
}

#[test]
fn input_order_does_not_change_graph() {
    let hosts_a = vec![make_host("192.168.1.10", true, vec![]), make_host("192.168.1.20", true, vec![])];
    let hosts_b: Vec<HostInfo> = hosts_a.iter().cloned().rev().collect();
    assert_eq!(build_hybrid_topology(&hosts_a), build_hybrid_topology(&hosts_b));
}

#[test]
fn ipv6_host_is_supported() {
    let g = build_hybrid_topology(&[host_at(IpAddress::V6([0x2001, 0xdb8, 0xabcd, 1, 0, 0, 0, 0x10]), true, vec![])]);
    assert!(host_node_ids(&g).contains(&"host:ipv6:2001:db8:abcd:1::10".into()));
    let subnets = subnet_node_ids(&g);
    assert!(subnets.contains(&"subnet:ipv6:2001:0db8:abcd:0001::/64".into()), "got: {subnets:?}");
}

#[test]
fn duplicate_host_ip_is_deduplicated() {
    let first = HostInfo {
        ip: v4("192.168.1.10"),
        hostname: Some("first".into()),
        ttl: None,
        os_guess: None,
        ports: vec![],
        alive: true,
        route: vec![],
    };
    let second = HostInfo {
        ip: v4("192.168.1.10"),
        hostname: Some("second".into()),
        ttl: None,
        os_guess: None,
        ports: vec![],
        alive: true,
        route: vec![Hop { hop: 1, ip: v4("10.0.0.1"), rtt_us: Some(1000) }],
    };
    let g = build_hybrid_topology(&[first, second]);
    assert_eq!(host_node_ids(&g).len(), 1);
    let host = g.nodes.iter().find(|n| n.kind == TopologyNodeKind::Host).unwrap();
    assert_eq!(host.label, "first");
    let edges = confirmed_route_edges(&g);
    assert!(edges.contains(&pair("hop:ipv4:10.0.0.1", "host:ipv4:192.168.1.10")));
}

#[test]
fn no_self_loops() {
    let g = build_hybrid_topology(&[make_host(
        "10.0.0.10",
        true,
        vec![(1, "10.0.0.1", Some(1000)), (2, "10.0.0.2", Some(2000)), (3, "10.0.0.10", Some(3000))],
    )]);
    for edge in &g.edges {
        assert_ne!(edge.source, edge.target, "self-loop: {} -> {}", edge.source, edge.target);
    }
}

#[test]
fn no_duplicate_edges() {
    let g = build_hybrid_topology(&[
        make_host("10.0.0.10", true, vec![(1, "10.0.0.1", Some(1000)), (2, "10.0.0.2", Some(2000))]),
        make_host("10.0.0.20", true, vec![(1, "10.0.0.1", Some(1000)), (2, "10.0.0.2", Some(2000))]),
    ]);
    let ab: Vec<_> = g
        .edges
        .iter()
        .filter(|e| e.source == "hop:ipv4:10.0.0.1" && e.target == "hop:ipv4:10.0.0.2" && e.kind == TopologyEdgeKind::ConfirmedRoute)
        .collect();
    assert_eq!(ab.len(), 1);
    for i in 0..g.edges.len() {
        for j in (i + 1)..g.edges.len() {
            assert_ne!(g.edges[i], g.edges[j]);
        }
    }
}

#[test]
fn deterministic_node_and_edge_order() {
    let hosts = vec![make_host("10.0.0.20", true, vec![(1, "10.0.0.1", Some(1000))]), make_host("192.168.1.10", true, vec![])];
    let g1 = build_hybrid_topology(&hosts);
    let g2 = build_hybrid_topology(&hosts);
    assert_eq!(g1, g2);
    let mut sorted = g1.nodes.iter().map(|n| n.id.clone()).collect::<Vec<_>>();
    sorted.sort();
    assert_eq!(sorted, g1.nodes.iter().map(|n| n.id.clone()).collect::<Vec<_>>());
}

#[test]
fn alive_invariant() {
    let g = build_hybrid_topology(&[make_host("192.168.1.10", true, vec![])]);
    assert!(g.nodes.iter().any(|n| n.kind == TopologyNodeKind::Host));
}

#[test]
fn empty_hosts_returns_empty_graph() {
    let g = build_hybrid_topology(&[]);
    assert!(g.nodes.is_empty());
    assert!(g.edges.is_empty());
}

#[test]
fn subnet_membership_edges_created() {
    let g = build_hybrid_topology(&[make_host("192.168.1.10", true, vec![]), make_host("192.168.1.20", true, vec![])]);
    let membership: Vec<_> = g.edges.iter().filter(|e| e.kind == TopologyEdgeKind::LogicalSubnetMembership).collect();
    assert_eq!(membership.len(), 2);
    for m in &membership {
        assert!(m.source.starts_with("host:"), "{}", m.source);
        assert!(m.target.starts_with("subnet:"), "{}", m.target);
    }
}

#[test]
fn hop_is_host_takes_priority_over_routehop() {
    let g = build_hybrid_topology(&[make_host("10.0.0.10", true, vec![(1, "10.0.0.1", Some(1000)), (2, "10.0.0.10", Some(2000))])]);
    let host_node = g.nodes.iter().find(|n| n.id == "host:ipv4:10.0.0.10").expect("host node must exist");
    assert_eq!(host_node.kind, TopologyNodeKind::Host);
    assert!(g.nodes.iter().all(|n| n.id != "hop:ipv4:10.0.0.10"));
}

#[test]
fn route_hop_deduplication() {
    let g = build_hybrid_topology(&[
        make_host("10.0.0.10", true, vec![(1, "10.0.0.1", Some(1000)), (2, "10.0.0.2", Some(2000))]),
        make_host("10.0.0.20", true, vec![(1, "10.0.0.1", Some(1000)), (2, "10.0.0.3", Some(3000))]),
    ]);
    assert_eq!(g.nodes.iter().filter(|n| n.kind == TopologyNodeKind::RouteHop).count(), 3);
    let ab = g
        .edges
        .iter()
        .filter(|e| e.source == "hop:ipv4:10.0.0.1" && e.target == "hop:ipv4:10.0.0.2" && e.kind == TopologyEdgeKind::ConfirmedRoute)
        .count();
    assert_eq!(ab, 1);
}

#[test]
fn ipv6_subnet_grouping() {
    let g = build_hybrid_topology(&[
        host_at(IpAddress::V6([0x2001, 0xdb8, 0xabcd, 1, 0, 0, 0, 0x10]), true, vec![]),
        host_at(IpAddress::V6([0x2001, 0xdb8, 0xabcd, 1, 0, 0, 0, 0x20]), true, vec![]),
    ]);
    let subnets = subnet_node_ids(&g);
    assert_eq!(subnets.len(), 1);
    assert!(subnets[0].contains("2001:0db8:abcd:0001"), "{}", subnets[0]);
}

#[test]
fn route_hop_and_subnet_edges_coexist() {
    let g = build_hybrid_topology(&[make_host("10.0.0.10", true, vec![(1, "10.0.0.1", Some(1000))])]);
    assert_eq!(g.edges.iter().filter(|e| e.kind == TopologyEdgeKind::ConfirmedRoute).count(), 1);
    assert_eq!(g.edges.iter().filter(|e| e.kind == TopologyEdgeKind::LogicalSubnetMembership).count(), 2);
}

#[test]
fn subnet_labels() {
    assert_eq!(subnet_label("subnet:ipv4:10.0.0.0/24"), "10.0.0.0/24");
    assert_eq!(subnet_label("subnet:ipv6:2001:0db8:abcd:0001::/64"), "2001:0db8:abcd:0001::/64");
    assert_eq!(subnet_label("other"), "other");
    let g = build_hybrid_topology(&[make_host("10.0.0.10", true, vec![])]);
    let s = g.nodes.iter().find(|n| n.kind == TopologyNodeKind::LogicalSubnet).unwrap();
    assert_eq!(s.label, "10.0.0.0/24");
    assert_eq!(s.group_id, None);
}

#[test]
fn every_edge_joins_existing_nodes() {
    let hosts = vec![
        make_host("10.0.0.10", true, vec![(1, "10.0.0.1", Some(1000)), (2, "10.0.0.2", Some(2000))]),
        make_host("10.0.1.20", true, vec![(1, "10.0.0.1", Some(1000)), (2, "10.0.0.10", Some(3000))]),
        make_host("10.0.2.30", false, vec![(1, "10.0.9.9", Some(1000))]),
    ];
    let g = build_hybrid_topology(&hosts);
    assert!(!g.edges.is_empty());
    for e in &g.edges {
        assert!(g.nodes.iter().any(|n| n.id == e.source), "missing source {}", e.source);
        assert!(g.nodes.iter().any(|n| n.id == e.target), "missing target {}", e.target);
    }
    assert!(g.nodes.iter().all(|n| n.id != "hop:ipv4:10.0.9.9"));
}

#[test]
fn no_alive_host_gives_empty_graph() {
    let hosts = vec![make_host("10.0.0.10", false, vec![(1, "10.0.0.1", Some(1000))])];
    let g = build_hybrid_topology(&hosts);
    assert!(g.nodes.is_empty());
    assert!(g.edges.is_empty());
}

#[test]
fn reordering_and_repeating_agreeing_entries_keeps_graph() {
    let a = make_host("10.0.0.10", true, vec![(1, "10.0.0.1", Some(1000)), (2, "10.0.0.2", Some(2000))]);
    let b = make_host("10.0.0.10", true, vec![(1, "10.0.0.3", Some(1000))]);
    let c = make_host("192.168.1.5", true, vec![]);
    let one = vec![a.clone(), b.clone(), c.clone()];
    let two = vec![c.clone(), b.clone(), a.clone(), c];
    assert_eq!(build_hybrid_topology(&one), build_hybrid_topology(&two));
}

#[test]
fn disagreeing_host_names_depend_on_order() {
    let mut first = make_host("10.0.0.10", true, vec![]);
    first.hostname = Some("alpha".into());
    let mut second = make_host("10.0.0.10", true, vec![]);
    second.hostname = Some("beta".into());
    let g1 = build_hybrid_topology(&[first.clone(), second.clone()]);
    let g2 = build_hybrid_topology(&[second, first]);
    let label = |g: &TopologyGraph| g.nodes.iter().find(|n| n.kind == TopologyNodeKind::Host).unwrap().label.clone();
    assert_eq!(label(&g1), "alpha");
    assert_eq!(label(&g2), "beta");
}

#[test]
fn longest_routes_differing_only_in_timings_keep_graph() {
    let a = make_host("10.0.0.10", true, vec![(1, "10.0.0.1", Some(1000)), (2, "10.0.0.2", Some(2000))]);
    let b = make_host("10.0.0.10", true, vec![(1, "10.0.0.1", None), (2, "10.0.0.2", Some(9000))]);
    assert_eq!(build_hybrid_topology(&[a.clone(), b.clone()]), build_hybrid_topology(&[b, a]));
}

#[test]
fn each_host_and_hop_has_one_membership_edge_to_a_subnet() {
    let hosts = vec![
        make_host("10.0.0.10", true, vec![(1, "10.0.1.1", Some(1000)), (2, "10.0.0.10", Some(2000))]),
        make_host("192.168.5.4", true, vec![]),
    ];
    let g = build_hybrid_topology(&hosts);
    for n in g.nodes.iter().filter(|n| n.kind != TopologyNodeKind::LogicalSubnet) {
        let group = n.group_id.clone().expect("group");
        let mem: Vec<_> = g
            .edges
            .iter()
            .filter(|e| e.kind == TopologyEdgeKind::LogicalSubnetMembership && e.source == n.id)
            .collect();
        assert_eq!(mem.len(), 1);
        assert_eq!(mem[0].target, group);
        assert!(g.nodes.iter().any(|m| m.id == group && m.kind == TopologyNodeKind::LogicalSubnet));
    }
}

#[test]
fn host_nodes_are_exactly_the_alive_hosts() {
    let hosts = vec![
        make_host("10.0.0.10", true, vec![(1, "10.0.0.20", Some(1000)), (2, "10.0.0.30", Some(2000))]),
        make_host("10.0.0.20", true, vec![]),
        make_host("10.0.0.40", false, vec![]),
    ];
    let g = build_hybrid_topology(&hosts);
    let mut ids = host_node_ids(&g);
    ids.sort();
    assert_eq!(ids, vec!["host:ipv4:10.0.0.10".to_string(), "host:ipv4:10.0.0.20".to_string()]);
    assert_eq!(hop_node_ids(&g), vec!["hop:ipv4:10.0.0.30".to_string()]);
}
