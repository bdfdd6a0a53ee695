use netmon::helpers::{mask_ip, rigid_sorter};
use netmon::structures::{AnomalyDetection, Bandwidth, IPInfo, NetworkInfo};

fn sort_record(name: &str, status: &str, anomalous: bool) -> NetworkInfo {
    NetworkInfo {
        id: String::new(),
        name: name.to_string(),
        status: status.to_string(),
        anomaly: AnomalyDetection {
            is_anomalous: anomalous,
            anomaly_type: Some(if anomalous { "ANOMALY" } else { "BENIGN" }.to_string()),
        },
        ip_info: IPInfo { ipv4: None, ipv6: None },
        bandwidth: Bandwidth { download: 0, upload: 0 },
        received_bytes: 0,
        transmitted_bytes: 0,
        active_ports: vec![],
        last_seen: 0,
        cpu_usage: 0,
    }
}

fn names(v: &[NetworkInfo]) -> Vec<String> {
    v.iter().map(|r| r.name.clone()).collect()
}

#[test]
fn sort_chain_order() {
    let input = vec![
        sort_record("eth1", "active", false),
        sort_record("eth0", "active", false),
        sort_record("wlan0", "idle", true),
    ];
    let sorted = rigid_sorter(input);
    assert_eq!(names(&sorted), vec!["wlan0", "eth0", "eth1"]);
}

#[test]
fn sort_active_before_idle() {
    let input = vec![
        sort_record("b", "idle", false),
        sort_record("a", "idle", false),
        sort_record("z", "active", false),
    ];
    let sorted = rigid_sorter(input);
    assert_eq!(names(&sorted), vec!["z", "a", "b"]);
}

#[test]
fn sort_name_is_case_insensitive() {
    let input = vec![
        sort_record("ETH1", "active", false),
        sort_record("eth0", "active", false),
        sort_record("Eth2", "active", false),
    ];
    let sorted = rigid_sorter(input);
    assert_eq!(names(&sorted), vec!["eth0", "ETH1", "Eth2"]);
}

#[test]
fn sort_keeps_tied_records_in_order() {
    let mut first = sort_record("eth0", "active", false);
    first.id = "first".to_string();
    let mut second = sort_record("ETH0", "active", false);
    second.id = "second".to_string();
    let sorted = rigid_sorter(vec![first, second]);
    // Both tie on every criterion (names differ only in case), so the
    // earlier record stays first.
    assert_eq!(sorted[0].id, "first");
    assert_eq!(sorted[1].id, "second");
}

#[test]
fn sort_empty_and_single() {
    assert_eq!(rigid_sorter(vec![]).len(), 0);
    let sorted = rigid_sorter(vec![sort_record("only", "idle", false)]);
    assert_eq!(names(&sorted), vec!["only"]);
}

#[test]
fn mask_public_address() {
    assert_eq!(mask_ip("8.8.8.8"), "8.8.x.x");
    assert_eq!(mask_ip("203.0.113.77"), "203.0.x.x");
}

#[test]
fn mask_private_ranges_verbatim() {
    assert_eq!(mask_ip("192.168.1.10"), "192.168.1.10");
    assert_eq!(mask_ip("10.0.0.1"), "10.0.0.1");
    assert_eq!(mask_ip("10.255.255.255"), "10.255.255.255");
    assert_eq!(mask_ip("172.16.5.5"), "172.16.5.5");
    assert_eq!(mask_ip("172.31.255.255"), "172.31.255.255");
}

#[test]
fn mask_non_private_despite_private_looking_prefix() {
    // The boundary is the numeric range, not the textual prefix.
    assert_eq!(mask_ip("192.0.2.5"), "192.0.x.x");
    assert_eq!(mask_ip("172.32.0.1"), "172.32.x.x");
    assert_eq!(mask_ip("172.15.9.9"), "172.15.x.x");
    assert_eq!(mask_ip("172.217.4.4"), "172.217.x.x");
    assert_eq!(mask_ip("999.168.1.1"), "999.168.x.x");
}

#[test]
fn mask_non_quad_verbatim() {
    assert_eq!(mask_ip(""), "");
    assert_eq!(mask_ip("8.8.8"), "8.8.8");
    assert_eq!(mask_ip("1.2.3.4.5"), "1.2.3.4.5");
    assert_eq!(mask_ip("fe80::1"), "fe80::1");
    assert_eq!(mask_ip("not an address"), "not an address");
}

#[test]
fn mask_keeps_first_two_octets() {
    assert_eq!(mask_ip("100.64.250.3"), "100.64.x.x");
    assert_eq!(mask_ip("9.9.9.9"), "9.9.x.x");
}
