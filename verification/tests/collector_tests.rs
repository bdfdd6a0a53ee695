use netmon::networks::{collect_networks, CollectorInput, IfaceInfo, ProcCpu, SocketEntry,
    TrafficEntry};

fn iface(name: &str, v4: &[&str], v6: &[&str]) -> IfaceInfo {
    IfaceInfo {
        name: name.to_string(),
        v4_addrs: v4.iter().map(|s| s.to_string()).collect(),
        v6_addrs: v6.iter().map(|s| s.to_string()).collect(),
    }
}

fn socket(addr: &str, port: u16, pid: Option<u64>) -> SocketEntry {
    SocketEntry { local_addr: addr.to_string(), local_port: port, pid }
}

fn traffic(name: &str, rx: u64, tx: u64) -> TrafficEntry {
    TrafficEntry { name: name.to_string(), received: rx, transmitted: tx }
}

#[test]
fn collects_one_interface_exactly() {
    let input = CollectorInput {
        interfaces: vec![iface("eth0", &["8.8.8.8"], &["fe80::1"])],
        sockets: vec![
            socket("8.8.8.8", 443, Some(31)),
            socket("8.8.8.8", 80, Some(32)),
            socket("1.2.3.4", 22, Some(33)),
        ],
        traffic: vec![traffic("eth0", 2_000_000, 500_000)],
        cpu: vec![ProcCpu { pid: 31, cpu_centi: 150 }, ProcCpu { pid: 32, cpu_centi: 50 }],
    };
    let records = collect_networks(&input, 12345);
    assert_eq!(records.len(), 1);
    let r = &records[0];
    assert_eq!(r.id, "iface_0");
    assert_eq!(r.name, "eth0");
    assert_eq!(r.status, "active");
    // 2_000_000 bytes are 16_000_000 bits: 16 Mbps down; 500_000 bytes are
    // 4_000_000 bits: 4 Mbps up.
    assert_eq!(r.bandwidth.download, 16);
    assert_eq!(r.bandwidth.upload, 4);
    assert_eq!(r.received_bytes, 2_000_000);
    assert_eq!(r.transmitted_bytes, 500_000);
    // The public address is redacted, the IPv6 address is raw.
    assert_eq!(r.ip_info.ipv4, Some("8.8.x.x".to_string()));
    assert_eq!(r.ip_info.ipv6, Some("fe80::1".to_string()));
    // Only the two sockets bound on this interface contribute.
    assert_eq!(r.active_ports, vec![443, 80]);
    assert_eq!(r.cpu_usage, 200);
    assert_eq!(r.last_seen, 12345);
    assert!(!r.anomaly.is_anomalous);
    assert_eq!(r.anomaly.anomaly_type, Some("BENIGN".to_string()));
}

#[test]
fn bandwidth_rounds_down() {
    let input = CollectorInput {
        interfaces: vec![],
        sockets: vec![],
        traffic: vec![traffic("eth0", 124_999, 125_000)],
        cpu: vec![],
    };
    let records = collect_networks(&input, 0);
    // 124_999 bytes are 999_992 bits: still 0 whole Mbps.
    assert_eq!(records[0].bandwidth.download, 0);
    assert_eq!(records[0].bandwidth.upload, 1);
}

#[test]
fn idle_interface_without_listing() {
    let input = CollectorInput {
        interfaces: vec![],
        sockets: vec![socket("8.8.8.8", 443, Some(1))],
        traffic: vec![traffic("lo", 0, 0)],
        cpu: vec![],
    };
    let records = collect_networks(&input, 7);
    let r = &records[0];
    assert_eq!(r.status, "idle");
    assert_eq!(r.ip_info.ipv4, None);
    assert_eq!(r.ip_info.ipv6, None);
    assert_eq!(r.active_ports, Vec::<u16>::new());
    assert_eq!(r.cpu_usage, 0);
}

#[test]
fn cpu_counts_per_socket_and_ignores_unknown_pids() {
    let input = CollectorInput {
        interfaces: vec![iface("eth0", &["10.0.0.1"], &[])],
        sockets: vec![
            socket("10.0.0.1", 1, Some(5)),
            socket("10.0.0.1", 2, Some(5)),
            socket("10.0.0.1", 3, Some(99)),
            socket("10.0.0.1", 4, None),
        ],
        traffic: vec![traffic("eth0", 1, 0)],
        cpu: vec![ProcCpu { pid: 5, cpu_centi: 40 }],
    };
    let records = collect_networks(&input, 0);
    // The process with two sockets contributes twice; the unknown and the
    // ownerless sockets contribute nothing.
    assert_eq!(records[0].cpu_usage, 80);
    assert_eq!(records[0].active_ports, vec![1, 2, 3, 4]);
}

#[test]
fn cpu_sum_saturates() {
    let input = CollectorInput {
        interfaces: vec![iface("eth0", &["10.0.0.1"], &[])],
        sockets: vec![
            socket("10.0.0.1", 1, Some(5)),
            socket("10.0.0.1", 2, Some(6)),
        ],
        traffic: vec![traffic("eth0", 1, 0)],
        cpu: vec![
            ProcCpu { pid: 5, cpu_centi: u64::MAX },
            ProcCpu { pid: 6, cpu_centi: 17 },
        ],
    };
    let records = collect_networks(&input, 0);
    assert_eq!(records[0].cpu_usage, u64::MAX);
}

#[test]
fn records_come_out_sorted() {
    let input = CollectorInput {
        interfaces: vec![],
        sockets: vec![],
        traffic: vec![
            traffic("eth1", 1, 0),
            traffic("eth0", 1, 0),
            traffic("wlan0", 0, 0),
        ],
        cpu: vec![],
    };
    let records = collect_networks(&input, 0);
    let names: Vec<&str> = records.iter().map(|r| r.name.as_str()).collect();
    // Both eth records are active, wlan0 is idle and none is anomalous.
    assert_eq!(names, vec!["eth0", "eth1", "wlan0"]);
    // The synthetic identifiers reflect the enumeration order, not the
    // published order.
    let ids: Vec<&str> = records.iter().map(|r| r.id.as_str()).collect();
    assert_eq!(ids, vec!["iface_1", "iface_0", "iface_2"]);
}

#[test]
fn synthetic_ids_render_positions_in_decimal() {
    let input = CollectorInput {
        interfaces: vec![],
        sockets: vec![],
        traffic: (0..12).map(|k| traffic(&format!("if{k:02}"), 0, 0)).collect(),
        cpu: vec![],
    };
    let records = collect_networks(&input, 0);
    let mut ids: Vec<String> = records.iter().map(|r| r.id.clone()).collect();
    ids.sort();
    assert!(ids.contains(&"iface_0".to_string()));
    assert!(ids.contains(&"iface_10".to_string()));
    assert!(ids.contains(&"iface_11".to_string()));
}

#[test]
fn huge_counters_do_not_overflow_bandwidth() {
    let input = CollectorInput {
        interfaces: vec![],
        sockets: vec![],
        traffic: vec![traffic("eth0", u64::MAX, u64::MAX)],
        cpu: vec![],
    };
    let records = collect_networks(&input, 0);
    assert_eq!(records[0].bandwidth.download, u64::MAX / 125_000);
}
