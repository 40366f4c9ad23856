use network_mapper::graph::{build_graph, group_by_subnet, Node, NodeKind};
use network_mapper::host::HostResult;

fn host(address: u32, ports: &[u16]) -> HostResult {
    HostResult::from_open_ports(address, ports.to_vec()).unwrap()
}

fn sample() -> Vec<HostResult> {
    vec![
        host(0x0A00_0002, &[22, 80]),
        host(0x0A00_0009, &[443]),
        host(0x0A00_0105, &[21]),
        host(0x0A00_01C8, &[22, 80, 443]),
        host(0xC0A8_0101, &[3306, 5432]),
    ]
}

#[test]
fn groups_follow_first_appearance() {
    let groups = group_by_subnet(&sample());
    let names: Vec<String> = groups.iter().map(|g| g.name()).collect();
    assert_eq!(names, vec!["10.0.0.0/24", "10.0.1.0/24", "192.168.1.0/24"]);
    let networks: Vec<u32> = groups.iter().map(|g| g.network()).collect();
    assert_eq!(networks, vec![0x0A00_0000, 0x0A00_0100, 0xC0A8_0100]);
}

#[test]
fn groups_hold_their_hosts_in_list_order() {
    let groups = group_by_subnet(&sample());
    let members: Vec<Vec<String>> =
        groups.iter().map(|g| g.members().iter().map(|h| h.address().clone()).collect()).collect();
    assert_eq!(
        members,
        vec![
            vec!["10.0.0.2".to_string(), "10.0.0.9".to_string()],
            vec!["10.0.1.5".to_string(), "10.0.1.200".to_string()],
            vec!["192.168.1.1".to_string()],
        ]
    );
}

#[test]
fn every_host_is_in_exactly_one_group() {
    let hosts = sample();
    let groups = group_by_subnet(&hosts);
    let total: usize = groups.iter().map(|g| g.members().len()).sum();
    assert_eq!(total, hosts.len());
    for group in &groups {
        assert!(!group.members().is_empty());
        for member in group.members() {
            assert_eq!(member.network(), group.network());
            assert_eq!(member.subnet(), &group.name());
        }
    }
}

#[test]
fn groups_of_an_unordered_list() {
    let hosts = vec![
        host(0xC0A8_0101, &[80]),
        host(0x0A00_0002, &[80]),
        host(0xC0A8_0102, &[80]),
        host(0x0A00_0001, &[80]),
    ];
    let groups = group_by_subnet(&hosts);
    assert_eq!(groups.len(), 2);
    assert_eq!(groups[0].name(), "192.168.1.0/24");
    assert_eq!(groups[1].name(), "10.0.0.0/24");
    let first: Vec<u32> = groups[0].members().iter().map(|h| h.address_value()).collect();
    let second: Vec<u32> = groups[1].members().iter().map(|h| h.address_value()).collect();
    assert_eq!(first, vec![0xC0A8_0101, 0xC0A8_0102]);
    assert_eq!(second, vec![0x0A00_0002, 0x0A00_0001]);
}

#[test]
fn no_host_means_no_group() {
    assert!(group_by_subnet(&Vec::new()).is_empty());
}

#[test]
fn graph_of_no_host_is_empty() {
    let graph = build_graph(&Vec::new());
    assert!(graph.is_empty());
    assert_eq!(graph.nodes().len(), 0);
    assert_eq!(graph.edges().len(), 0);
}

#[test]
fn graph_has_devices_first_and_then_subnets() {
    let graph = build_graph(&sample());
    assert!(!graph.is_empty());
    let ids: Vec<String> = graph.nodes().iter().map(|n| n.id()).collect();
    assert_eq!(
        ids,
        vec![
            "10.0.0.2", "10.0.0.9", "10.0.1.5", "10.0.1.200", "192.168.1.1", "10.0.0.0/24", "10.0.1.0/24",
            "192.168.1.0/24"
        ]
    );
    let kinds: Vec<NodeKind> = graph.nodes().iter().map(|n| n.kind()).collect();
    assert_eq!(kinds[..5], [NodeKind::Device; 5]);
    assert_eq!(kinds[5..], [NodeKind::Subnet; 3]);
}

#[test]
fn device_nodes_carry_their_records() {
    let hosts = sample();
    let graph = build_graph(&hosts);
    for (i, expected) in hosts.iter().enumerate() {
        match &graph.nodes()[i] {
            Node::Device(record) => {
                assert_eq!(record.address(), expected.address());
                assert_eq!(record.open_ports(), expected.open_ports());
                assert_eq!(record.os_guess(), expected.os_guess());
                assert_eq!(record.subnet(), expected.subnet());
            }
            Node::Subnet(_) => panic!("a device node was expected"),
        }
    }
    match &graph.nodes()[5] {
        Node::Subnet(network) => assert_eq!(*network, 0x0A00_0000),
        Node::Device(_) => panic!("a subnet node was expected"),
    }
}

#[test]
fn graph_has_one_edge_per_host_from_its_subnet() {
    let hosts = sample();
    let graph = build_graph(&hosts);
    assert_eq!(graph.edges().len(), hosts.len());
    let ends: Vec<(String, String)> = graph.edges().iter().map(|e| (e.source(), e.target())).collect();
    assert_eq!(
        ends,
        vec![
            ("10.0.0.0/24".to_string(), "10.0.0.2".to_string()),
            ("10.0.0.0/24".to_string(), "10.0.0.9".to_string()),
            ("10.0.1.0/24".to_string(), "10.0.1.5".to_string()),
            ("10.0.1.0/24".to_string(), "10.0.1.200".to_string()),
            ("192.168.1.0/24".to_string(), "192.168.1.1".to_string()),
        ]
    );
    for (edge, record) in graph.edges().iter().zip(&hosts) {
        assert_eq!(edge.device(), record.address_value());
        assert_eq!(edge.network(), record.network());
    }
}

#[test]
fn every_edge_joins_two_nodes_of_the_graph() {
    let graph = build_graph(&sample());
    let ids: Vec<String> = graph.nodes().iter().map(|n| n.id()).collect();
    for edge in graph.edges() {
        let source = ids.iter().position(|id| *id == edge.source()).unwrap();
        let target = ids.iter().position(|id| *id == edge.target()).unwrap();
        assert_eq!(graph.nodes()[source].kind(), NodeKind::Subnet);
        assert_eq!(graph.nodes()[target].kind(), NodeKind::Device);
    }
}

#[test]
fn graph_names_each_subnet_once() {
    let hosts: Vec<HostResult> = (1..=40u32).map(|i| host(0x0A00_0000 + (i % 4) * 256 + i, &[80])).collect();
    let graph = build_graph(&hosts);
    let subnets: Vec<String> =
        graph.nodes().iter().filter(|n| n.kind() == NodeKind::Subnet).map(|n| n.id()).collect();
    assert_eq!(subnets, vec!["10.0.1.0/24", "10.0.2.0/24", "10.0.3.0/24", "10.0.0.0/24"]);
    assert_eq!(graph.nodes().len(), 44);
    assert_eq!(graph.edges().len(), 40);
}
