use netmon::store::StateStore;
use netmon::structures::{AnomalyDetection, Bandwidth, IPInfo, NetworkInfo};

fn store_record(name: &str, ipv4: Option<&str>, status: &str) -> NetworkInfo {
    NetworkInfo {
        id: format!("id_{name}"),
        name: name.to_string(),
        status: status.to_string(),
        anomaly: AnomalyDetection::new(),
        ip_info: IPInfo { ipv4: ipv4.map(|s| s.to_string()), ipv6: None },
        bandwidth: Bandwidth { download: 0, upload: 0 },
        received_bytes: 0,
        transmitted_bytes: 0,
        active_ports: vec![],
        last_seen: 100,
        cpu_usage: 0,
    }
}

fn store_summary(store: &StateStore) -> Vec<(String, Option<String>, bool, Option<String>)> {
    store
        .snapshot()
        .into_iter()
        .map(|r| (r.name, r.ip_info.ipv4, r.anomaly.is_anomalous, r.anomaly.anomaly_type))
        .collect()
}

#[test]
fn merge_idempotence() {
    let mut store = StateStore::new();
    store.replace(vec![store_record("eth0", Some("192.168.1.2"), "active")]);
    let snapshot = vec![
        store_record("eth0", Some("192.168.1.2"), "active"),
        store_record("wlan0", Some("10.0.0.3"), "idle"),
    ];
    let again = vec![
        store_record("eth0", Some("192.168.1.2"), "active"),
        store_record("wlan0", Some("10.0.0.3"), "idle"),
    ];
    store.replace(snapshot);
    let once = store_summary(&store);
    store.replace(again);
    let twice = store_summary(&store);
    assert_eq!(once, twice);
}

#[test]
fn anomaly_preservation() {
    let mut store = StateStore::new();
    store.replace(vec![store_record("eth0", Some("192.168.1.2"), "active")]);
    let matched = store.apply_anomaly(
        &"192.168.1.2".to_string(),
        true,
        &"ddos".to_string(),
        500,
    );
    assert!(matched);
    store.replace(vec![store_record("eth0", Some("192.168.1.2"), "active")]);
    let records = store.snapshot();
    assert_eq!(records.len(), 1);
    assert!(records[0].anomaly.is_anomalous);
    assert_eq!(records[0].anomaly.anomaly_type, Some("DDOS".to_string()));
}

#[test]
fn anomaly_preserved_when_matched_by_name_only() {
    let mut store = StateStore::new();
    store.replace(vec![store_record("eth0", Some("10.0.0.1"), "active")]);
    store.apply_anomaly(&"10.0.0.1".to_string(), true, &"scan".to_string(), 500);
    // The interface reappears with a different address: the name still
    // identifies it, so the label survives.
    store.replace(vec![store_record("eth0", Some("10.0.0.9"), "active")]);
    let records = store.snapshot();
    assert_eq!(records.len(), 1);
    assert!(records[0].anomaly.is_anomalous);
    assert_eq!(records[0].ip_info.ipv4, Some("10.0.0.9".to_string()));
}

#[test]
fn new_record_reset() {
    let mut store = StateStore::new();
    store.replace(vec![store_record("eth0", Some("192.168.1.2"), "active")]);
    store.apply_anomaly(&"192.168.1.2".to_string(), true, &"ddos".to_string(), 500);
    store.replace(vec![
        store_record("eth0", Some("192.168.1.2"), "active"),
        store_record("wlan0", Some("10.0.0.3"), "idle"),
    ]);
    let records = store.snapshot();
    let wlan = records.iter().find(|r| r.name == "wlan0").unwrap();
    assert!(!wlan.anomaly.is_anomalous);
    assert_eq!(wlan.anomaly.anomaly_type, Some("BENIGN".to_string()));
    let eth = records.iter().find(|r| r.name == "eth0").unwrap();
    assert!(eth.anomaly.is_anomalous);
}

#[test]
fn pruning() {
    let mut store = StateStore::new();
    store.replace(vec![
        store_record("eth0", Some("192.168.1.2"), "active"),
        store_record("wlan0", Some("10.0.0.3"), "idle"),
    ]);
    assert_eq!(store.len(), 2);
    store.replace(vec![store_record("wlan0", Some("10.0.0.3"), "idle")]);
    let records = store.snapshot();
    assert_eq!(records.len(), 1);
    assert_eq!(records[0].name, "wlan0");
}

#[test]
fn replace_overwrites_live_fields() {
    let mut store = StateStore::new();
    store.replace(vec![store_record("eth0", Some("192.168.1.2"), "idle")]);
    let mut fresh = store_record("eth0", Some("192.168.1.2"), "active");
    fresh.received_bytes = 125_000_000;
    fresh.cpu_usage = 350;
    fresh.last_seen = 777;
    store.replace(vec![fresh]);
    let records = store.snapshot();
    assert_eq!(records[0].status, "active");
    assert_eq!(records[0].received_bytes, 125_000_000);
    assert_eq!(records[0].cpu_usage, 350);
    assert_eq!(records[0].last_seen, 777);
}

#[test]
fn apply_anomaly_no_match_is_noop() {
    let mut store = StateStore::new();
    store.replace(vec![store_record("eth0", Some("192.168.1.2"), "active")]);
    let before = store_summary(&store);
    let matched = store.apply_anomaly(
        &"172.16.0.9".to_string(),
        true,
        &"ddos".to_string(),
        500,
    );
    assert!(!matched);
    assert_eq!(before, store_summary(&store));
}

#[test]
fn apply_anomaly_matches_by_name_too() {
    let mut store = StateStore::new();
    store.replace(vec![store_record("eth0", None, "active")]);
    let matched = store.apply_anomaly(&"eth0".to_string(), true, &"probe".to_string(), 900);
    assert!(matched);
    let records = store.snapshot();
    assert!(records[0].anomaly.is_anomalous);
    assert_eq!(records[0].anomaly.anomaly_type, Some("PROBE".to_string()));
    assert_eq!(records[0].last_seen, 900);
}
