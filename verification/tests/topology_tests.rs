use netmap::parse_port_data;
use netmap::DeviceConfig;
use netmap::DeviceDataFormat;
use netmap::DevicePoller;
use netmap::DeviceType;
use netmap::ExpireSet;
use netmap::GraphNode;
use netmap::Network;
use netmap::NetworkConfig;
use netmap::PollStep;
use netmap::PortConfig;
use netmap::PortDataFormat;
use netmap::PortPoller;

fn port(id: &str, pollers: Vec<PortPoller>) -> PortConfig {
    PortConfig { id: id.to_string(), name: None, pollers }
}

fn device(id: &str, mac: Vec<u64>, ports: Vec<PortConfig>) -> DeviceConfig {
    DeviceConfig {
        id: id.to_string(),
        name: None,
        device_type: DeviceType::Unknown,
        mac,
        ports,
        pollers: Vec::new(),
    }
}

fn report(macs: &[u64], expiry: u64) -> ExpireSet {
    let mut s = ExpireSet::new();
    for &m in macs {
        s.insert(m, expiry);
    }
    s
}

const MAC_A: u64 = 0x00aaaaaaaa0a;
const MAC_B: u64 = 0x00bbbbbbbb0b;
const MAC_C: u64 = 0x00cccccccc0c;

#[test]
fn pruning_removes_transitive_noise() {
    // A--B--C in a chain: A's port sees both B and C, but B's facing
    // port (which sees C) does not see A back, so C must be judged
    // noise inherited through B and stripped from A's port.
    let config = NetworkConfig {
        devices: vec![
            device("a", vec![MAC_A], vec![port("pa", Vec::new())]),
            device("b", vec![MAC_B], vec![port("pb", Vec::new())]),
            device("c", vec![MAC_C], Vec::new()),
        ],
    };
    let mut net = Network::new(config);
    assert!(net.merge_port_report(0, 0, report(&[MAC_B, MAC_C], 100)));
    assert!(net.merge_port_report(1, 0, report(&[MAC_C], 100)));
    let pruned = net.prune_state();
    assert!(pruned[0][0].contains(MAC_B), "the direct neighbor stays");
    assert!(!pruned[0][0].contains(MAC_C), "the transitive address is stripped");
    // the live state is untouched by the build's working copy
    let again = net.prune_state();
    assert!(again[0][0].contains(MAC_B));
}

#[test]
fn end_to_end_single_link() {
    // Two devices, one port each; each port's collector reports the
    // other device's address. One poll cycle and a build must yield
    // exactly one adjacency edge between the two port nodes and no
    // aggregate-neighbor nodes.
    let d1_mac = 0xaaaaaaaaaa01;
    let d2_mac = 0xbbbbbbbbbb02;
    let config = NetworkConfig {
        devices: vec![
            device(
                "d1",
                vec![d1_mac],
                vec![port(
                    "p1",
                    vec![PortPoller::File {
                        file: "d1p1.txt".to_string(),
                        format: PortDataFormat::HostApd,
                    }],
                )],
            ),
            device(
                "d2",
                vec![d2_mac],
                vec![port(
                    "p1",
                    vec![PortPoller::File {
                        file: "d2p1.txt".to_string(),
                        format: PortDataFormat::HostApd,
                    }],
                )],
            ),
        ],
    };
    let mut net = Network::new(config);
    let now = 1_000;
    for step in net.poll_plan() {
        match step {
            PollStep::Sweep { device, port } => {
                assert!(net.sweep_port(device, port, now));
            }
            PollStep::PortFile { device, port, file, format } => {
                let data: &[u8] = match file.as_str() {
                    "d1p1.txt" => b"bb:bb:bb:bb:bb:02",
                    "d2p1.txt" => b"aa:aa:aa:aa:aa:01",
                    _ => panic!("unexpected collector file"),
                };
                let set = parse_port_data(data, format, now);
                assert!(net.merge_port_report(device, port, set));
            }
            PollStep::DeviceFile { .. } => panic!("no device-scoped collectors configured"),
        }
    }
    let g = net.map();
    // nodes: device d1, its port p1, device d2, its port p1
    assert_eq!(g.nodes.len(), 4);
    assert!(matches!(g.nodes[0], GraphNode::Device { device: 0, grouped: true, .. }));
    assert!(matches!(g.nodes[1], GraphNode::Port { device: 0, port: 0, .. }));
    assert!(matches!(g.nodes[2], GraphNode::Device { device: 1, grouped: true, .. }));
    assert!(matches!(g.nodes[3], GraphNode::Port { device: 1, port: 0, .. }));
    assert!(
        !g.nodes.iter().any(|n| matches!(n, GraphNode::Aggregate { .. })),
        "no aggregate-neighbor nodes"
    );
    // edges: each device to its port, then exactly one adjacency edge
    // connecting the two port nodes
    assert_eq!(g.edges.len(), 3);
    assert_eq!(g.edges[0], (0, 1));
    assert_eq!(g.edges[1], (2, 3));
    assert_eq!(g.edges[2], (3, 1));
}

#[test]
fn unknown_neighbor_aggregation() {
    // One device, one port, three addresses belonging to no configured
    // device: one aggregate node for a count of three, attached to the
    // port by a single edge.
    let config = NetworkConfig {
        devices: vec![device("d", vec![MAC_A], vec![port("p1", Vec::new())])],
    };
    let mut net = Network::new(config);
    assert!(net.merge_port_report(0, 0, report(&[0x1111, 0x2222, 0x3333], 60)));
    let g = net.map();
    assert_eq!(g.nodes.len(), 3);
    assert!(matches!(g.nodes[0], GraphNode::Device { device: 0, grouped: true, .. }));
    assert!(matches!(g.nodes[1], GraphNode::Port { device: 0, port: 0, .. }));
    assert!(matches!(g.nodes[2], GraphNode::Aggregate { count: 3 }));
    assert_eq!(g.edges, vec![(0, 1), (1, 2)]);
}

#[test]
fn sweep_ages_out_stale_visibility() {
    let config = NetworkConfig {
        devices: vec![device("d", vec![MAC_A], vec![port("p1", Vec::new())])],
    };
    let mut net = Network::new(config);
    assert!(net.merge_port_report(0, 0, report(&[MAC_B], 100)));
    assert!(net.sweep_port(0, 0, 100));
    let g = net.map();
    assert!(matches!(g.nodes[0], GraphNode::Device { grouped: true, .. }));
    assert!(net.sweep_port(0, 0, 101));
    let g = net.map();
    assert_eq!(g.nodes.len(), 1);
    assert!(matches!(g.nodes[0], GraphNode::Device { grouped: false, .. }));
}

#[test]
fn poll_plan_sweeps_before_collectors() {
    let config = NetworkConfig {
        devices: vec![device(
            "d",
            vec![MAC_A],
            vec![port(
                "p1",
                vec![PortPoller::File {
                    file: "x".to_string(),
                    format: PortDataFormat::HostApd,
                }],
            )],
        )],
    };
    let net = Network::new(config);
    let plan = net.poll_plan();
    assert_eq!(plan.len(), 2);
    assert!(matches!(plan[0], PollStep::Sweep { device: 0, port: 0 }));
    assert!(matches!(
        plan[1],
        PollStep::PortFile { device: 0, port: 0, .. }
    ));
}

#[test]
fn device_report_merges_matching_ports_only() {
    let config = NetworkConfig {
        devices: vec![device("d", vec![MAC_A], vec![port("p1", Vec::new())])],
    };
    let mut net = Network::new(config);
    let dev_report = vec![
        (b"p1".to_vec(), report(&[MAC_B], 40)),
        (b"zz".to_vec(), report(&[MAC_C], 40)),
    ];
    assert!(net.merge_device_report(0, dev_report));
    let pruned = net.prune_state();
    assert!(pruned[0][0].contains(MAC_B));
    assert!(
        !pruned[0][0].contains(MAC_C),
        "a report for an unmatched port id is silently dropped"
    );
}

#[test]
fn poll_plan_lists_device_collectors_after_ports() {
    let mut cfg = device("d", vec![MAC_A], vec![port("p1", Vec::new())]);
    cfg.pollers = vec![DevicePoller::File {
        file: "fdb.txt".to_string(),
        format: DeviceDataFormat::ForwardDb,
    }];
    let net = Network::new(NetworkConfig { devices: vec![cfg] });
    let plan = net.poll_plan();
    assert_eq!(plan.len(), 2);
    assert!(matches!(plan[0], PollStep::Sweep { device: 0, port: 0 }));
    assert!(matches!(plan[1], PollStep::DeviceFile { device: 0, .. }));
}

#[test]
fn node_labels_prefer_configured_names() {
    let config = NetworkConfig {
        devices: vec![DeviceConfig {
            id: "gw".to_string(),
            name: Some("Gateway".to_string()),
            device_type: DeviceType::Router,
            mac: vec![MAC_A],
            ports: vec![PortConfig {
                id: "p1".to_string(),
                name: Some("uplink".to_string()),
                pollers: Vec::new(),
            }],
            pollers: Vec::new(),
        }],
    };
    let mut net = Network::new(config);
    assert!(net.merge_port_report(0, 0, report(&[MAC_B], 10)));
    let g = net.map();
    match &g.nodes[0] {
        GraphNode::Device { label, .. } => assert_eq!(label, "Gateway"),
        _ => panic!("expected a device node first"),
    }
    match &g.nodes[1] {
        GraphNode::Port { label, .. } => assert_eq!(label, "uplink"),
        _ => panic!("expected the port node second"),
    }
}

#[test]
fn ungrouped_devices_still_get_pair_edges() {
    // neither device sees the other: the adjacency edge attaches to
    // the device nodes themselves
    let config = NetworkConfig {
        devices: vec![
            device("a", vec![MAC_A], Vec::new()),
            device("b", vec![MAC_B], Vec::new()),
        ],
    };
    let net = Network::new(config);
    let g = net.map();
    assert_eq!(g.nodes.len(), 2);
    assert_eq!(g.edges, vec![(1, 0)]);
}
