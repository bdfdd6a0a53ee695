use netmon::resolver::{parse_interface_map, should_retry_resolution};
use netmon::structures::{AnomalyDetection, Bandwidth, IPInfo, NetworkInfo};
use netmon::supervisor::{active_addresses, plan_reconcile, NameIndex, WorkerTable};

fn addressed_record(name: &str, ipv4: Option<&str>) -> NetworkInfo {
    NetworkInfo {
        id: String::new(),
        name: name.to_string(),
        status: "active".to_string(),
        anomaly: AnomalyDetection::new(),
        ip_info: IPInfo { ipv4: ipv4.map(|s| s.to_string()), ipv6: None },
        bandwidth: Bandwidth { download: 0, upload: 0 },
        received_bytes: 0,
        transmitted_bytes: 0,
        active_ports: vec![],
        last_seen: 0,
        cpu_usage: 0,
    }
}

#[test]
fn active_addresses_keeps_present_ones_in_order() {
    let records = vec![
        addressed_record("eth0", Some("10.0.0.1")),
        addressed_record("lo", None),
        addressed_record("wlan0", Some("10.0.0.2")),
    ];
    let addrs = active_addresses(&records);
    assert_eq!(addrs, vec!["10.0.0.1".to_string(), "10.0.0.2".to_string()]);
}

fn index_ab() -> NameIndex {
    let mut index = NameIndex::new();
    index.insert("10.0.0.1".to_string(), "eth0".to_string());
    index.insert("10.0.0.2".to_string(), "wlan0".to_string());
    index
}

#[test]
fn worker_lifecycle_three_passes() {
    let index = index_ab();
    let a = "10.0.0.1".to_string();
    let b = "10.0.0.2".to_string();
    let mut table = WorkerTable::new();
    let mut spawned: Vec<String> = vec![];
    let mut killed: Vec<String> = vec![];

    let passes: Vec<(Vec<String>, Vec<String>)> = vec![
        (vec![], vec![a.clone()]),
        (vec![a.clone()], vec![a.clone(), b.clone()]),
        (vec![a.clone(), b.clone()], vec![b.clone()]),
    ];
    let mut next_handle: u64 = 1;
    for (previous, current) in passes {
        let plan = plan_reconcile(&previous, &current, &index);
        for entry in plan.spawns {
            if !table.contains(&entry.addr) {
                table.register(entry.addr.clone(), next_handle);
                next_handle += 1;
                spawned.push(entry.addr);
            }
        }
        for addr in plan.kills {
            if table.remove(&addr).is_some() {
                killed.push(addr);
            }
        }
    }

    assert_eq!(spawned, vec![a.clone(), b.clone()]);
    assert_eq!(spawned.iter().filter(|x| **x == b).count(), 1);
    assert_eq!(killed, vec![a.clone()]);
    assert_eq!(table.len(), 1);
    assert!(table.contains(&b));
    assert!(!table.contains(&a));
    assert_eq!(table.handle_of(&b), Some(2));
}

#[test]
fn unresolvable_address_spawns_nothing() {
    let index = index_ab();
    let current = vec!["10.0.0.1".to_string(), "203.0.113.9".to_string()];
    let plan = plan_reconcile(&vec![], &current, &index);
    assert_eq!(plan.spawns.len(), 1);
    assert_eq!(plan.spawns[0].addr, "10.0.0.1");
    assert_eq!(plan.spawns[0].name, "eth0");
    assert!(plan.kills.is_empty());
}

#[test]
fn unchanged_set_plans_nothing() {
    let index = index_ab();
    let addrs = vec!["10.0.0.1".to_string(), "10.0.0.2".to_string()];
    let plan = plan_reconcile(&addrs, &addrs, &index);
    assert!(plan.spawns.is_empty());
    assert!(plan.kills.is_empty());
}

#[test]
fn kill_planned_even_for_unresolvable_address() {
    let index = index_ab();
    let previous = vec!["203.0.113.9".to_string()];
    let plan = plan_reconcile(&previous, &vec![], &index);
    assert!(plan.spawns.is_empty());
    assert_eq!(plan.kills, vec!["203.0.113.9".to_string()]);
}

#[test]
fn table_remove_absent_is_none() {
    let mut table = WorkerTable::new();
    assert_eq!(table.remove(&"10.0.0.1".to_string()), None);
    table.register("10.0.0.1".to_string(), 7);
    assert_eq!(table.handle_of(&"10.0.0.1".to_string()), Some(7));
    assert_eq!(table.remove(&"10.0.0.1".to_string()), Some(7));
    assert_eq!(table.len(), 0);
}

#[test]
fn index_lookup_both_ways() {
    let index = index_ab();
    assert_eq!(index.lookup(&"10.0.0.1".to_string()), Some("eth0".to_string()));
    assert_eq!(index.lookup(&"10.0.0.9".to_string()), None);
    assert_eq!(
        index.reverse_lookup(&"wlan0".to_string()),
        Some("10.0.0.2".to_string())
    );
    assert_eq!(index.reverse_lookup(&"tun0".to_string()), None);
}

#[test]
fn index_insert_overwrites_same_address() {
    let mut index = NameIndex::new();
    index.insert("10.0.0.1".to_string(), "eth0".to_string());
    index.insert("10.0.0.1".to_string(), "br0".to_string());
    assert_eq!(index.len(), 1);
    assert_eq!(index.lookup(&"10.0.0.1".to_string()), Some("br0".to_string()));
}

#[test]
fn parse_interface_map_reads_complete_entries() {
    let text = r#"[{"name":"eth0","ipv4":"10.0.0.1"},{"name":"wlan0","ipv4":"10.0.0.2"}]"#;
    let index = parse_interface_map(text);
    assert_eq!(index.len(), 2);
    assert_eq!(index.lookup(&"10.0.0.1".to_string()), Some("eth0".to_string()));
    assert_eq!(index.lookup(&"10.0.0.2".to_string()), Some("wlan0".to_string()));
}

#[test]
fn parse_interface_map_skips_incomplete_entries() {
    let text = r#"[{"name":"eth0"},{"ipv4":"10.0.0.2"},{"name":"wlan0","ipv4":"10.0.0.3"},42]"#;
    let index = parse_interface_map(text);
    assert_eq!(index.len(), 1);
    assert_eq!(index.lookup(&"10.0.0.3".to_string()), Some("wlan0".to_string()));
}

#[test]
fn parse_interface_map_tolerates_garbage() {
    assert!(parse_interface_map("").is_empty());
    assert!(parse_interface_map("not json").is_empty());
    assert!(parse_interface_map(r#"{"name":"eth0"}"#).is_empty());
    assert!(parse_interface_map("[]").is_empty());
}

#[test]
fn parse_interface_map_last_binding_wins() {
    let text = r#"[{"name":"eth0","ipv4":"10.0.0.1"},{"name":"br0","ipv4":"10.0.0.1"}]"#;
    let index = parse_interface_map(text);
    assert_eq!(index.len(), 1);
    assert_eq!(index.lookup(&"10.0.0.1".to_string()), Some("br0".to_string()));
}

#[test]
fn retry_policy_is_bounded() {
    assert!(should_retry_resolution(0, 0));
    assert!(should_retry_resolution(4, 0));
    assert!(!should_retry_resolution(5, 0));
    assert!(!should_retry_resolution(0, 3));
}
