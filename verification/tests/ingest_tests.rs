use netmon::ingest::{ingest_line, interpret_event, IngestOutcome};
use netmon::store::StateStore;
use netmon::structures::{AnomalyDetection, Bandwidth, IPInfo, NetworkInfo};
use netmon::supervisor::NameIndex;

fn net_record(name: &str, ipv4: &str) -> NetworkInfo {
    NetworkInfo {
        id: String::new(),
        name: name.to_string(),
        status: "active".to_string(),
        anomaly: AnomalyDetection::new(),
        ip_info: IPInfo { ipv4: Some(ipv4.to_string()), ipv6: None },
        bandwidth: Bandwidth { download: 0, upload: 0 },
        received_bytes: 0,
        transmitted_bytes: 0,
        active_ports: vec![],
        last_seen: 0,
        cpu_usage: 0,
    }
}

fn setup() -> (StateStore, NameIndex) {
    let mut store = StateStore::new();
    store.replace(vec![net_record("eth0", "192.168.1.2")]);
    let mut index = NameIndex::new();
    index.insert("192.168.1.2".to_string(), "eth0".to_string());
    (store, index)
}

fn anomaly_summary(store: &StateStore) -> Vec<(String, bool, Option<String>, i64)> {
    store
        .snapshot()
        .into_iter()
        .map(|r| (r.name, r.anomaly.is_anomalous, r.anomaly.anomaly_type, r.last_seen))
        .collect()
}

#[test]
fn discards_non_json_line() {
    let (mut store, index) = setup();
    let before = anomaly_summary(&store);
    let outcome = ingest_line(&mut store, &index, "not json at all");
    assert!(matches!(outcome, IngestOutcome::DiscardedMalformed));
    assert_eq!(before, anomaly_summary(&store));
}

#[test]
fn discards_empty_line() {
    let (mut store, index) = setup();
    let before = anomaly_summary(&store);
    let outcome = ingest_line(&mut store, &index, "");
    assert!(matches!(outcome, IngestOutcome::DiscardedMalformed));
    assert_eq!(before, anomaly_summary(&store));
}

#[test]
fn discards_object_missing_anomaly_flag() {
    let (mut store, index) = setup();
    let before = anomaly_summary(&store);
    let outcome = ingest_line(&mut store, &index, r#"{"iface":"eth0","label":"ddos"}"#);
    assert!(matches!(outcome, IngestOutcome::DiscardedIncomplete));
    assert_eq!(before, anomaly_summary(&store));
}

#[test]
fn discards_object_missing_iface() {
    let (mut store, index) = setup();
    let before = anomaly_summary(&store);
    let outcome = ingest_line(&mut store, &index, r#"{"is_anomaly":true}"#);
    assert!(matches!(outcome, IngestOutcome::DiscardedIncomplete));
    assert_eq!(before, anomaly_summary(&store));
}

#[test]
fn discards_unresolvable_interface() {
    let (mut store, index) = setup();
    let before = anomaly_summary(&store);
    let outcome = ingest_line(
        &mut store,
        &index,
        r#"{"iface":"wlan9","is_anomaly":true,"label":"ddos"}"#,
    );
    assert!(matches!(outcome, IngestOutcome::DiscardedUnresolved));
    assert_eq!(before, anomaly_summary(&store));
}

#[test]
fn applies_valid_event_with_uppercased_label() {
    let (mut store, index) = setup();
    let outcome = ingest_line(
        &mut store,
        &index,
        r#"{"iface":"eth0","is_anomaly":true,"label":"ddos"}"#,
    );
    match outcome {
        IngestOutcome::Applied { addr, is_anomalous, matched, .. } => {
            assert_eq!(addr, "192.168.1.2");
            assert!(is_anomalous);
            assert!(matched);
        },
        _ => panic!("expected the event to apply"),
    }
    let records = store.snapshot();
    assert!(records[0].anomaly.is_anomalous);
    assert_eq!(records[0].anomaly.anomaly_type, Some("DDOS".to_string()));
}

#[test]
fn missing_label_defaults_to_unknown() {
    let (mut store, index) = setup();
    let outcome = ingest_line(&mut store, &index, r#"{"iface":"eth0","is_anomaly":true}"#);
    assert!(matches!(outcome, IngestOutcome::Applied { .. }));
    let records = store.snapshot();
    assert_eq!(records[0].anomaly.anomaly_type, Some("UNKNOWN".to_string()));
}

#[test]
fn double_encoded_event_handled_like_direct() {
    let (mut store_a, index) = setup();
    let direct = r#"{"iface":"eth0","is_anomaly":true,"label":"ddos"}"#;
    let outcome_a = ingest_line(&mut store_a, &index, direct);
    assert!(matches!(outcome_a, IngestOutcome::Applied { .. }));

    let (mut store_b, _) = setup();
    // The same event wrapped once more as a JSON string.
    let wrapped = "\"{\\\"iface\\\":\\\"eth0\\\",\\\"is_anomaly\\\":true,\\\"label\\\":\\\"ddos\\\"}\"";
    let outcome_b = ingest_line(&mut store_b, &index, wrapped);
    assert!(matches!(outcome_b, IngestOutcome::Applied { .. }));

    let strip_time = |v: Vec<(String, bool, Option<String>, i64)>| {
        v.into_iter().map(|(n, f, l, _)| (n, f, l)).collect::<Vec<_>>()
    };
    assert_eq!(strip_time(anomaly_summary(&store_a)), strip_time(anomaly_summary(&store_b)));
}

#[test]
fn double_encoded_garbage_is_discarded() {
    let (mut store, index) = setup();
    let before = anomaly_summary(&store);
    let outcome = ingest_line(&mut store, &index, "\"still not json\"");
    assert!(matches!(outcome, IngestOutcome::DiscardedMalformed));
    assert_eq!(before, anomaly_summary(&store));
}

#[test]
fn event_can_clear_an_anomaly() {
    let (mut store, index) = setup();
    ingest_line(
        &mut store,
        &index,
        r#"{"iface":"eth0","is_anomaly":true,"label":"ddos"}"#,
    );
    assert!(store.snapshot()[0].anomaly.is_anomalous);
    ingest_line(
        &mut store,
        &index,
        r#"{"iface":"eth0","is_anomaly":false,"label":"benign"}"#,
    );
    let records = store.snapshot();
    assert!(!records[0].anomaly.is_anomalous);
    assert_eq!(records[0].anomaly.anomaly_type, Some("BENIGN".to_string()));
}

#[test]
fn interpret_event_requires_iface_and_flag() {
    assert!(interpret_event(None, None, None).is_none());
    assert!(interpret_event(Some("eth0".to_string()), None, None).is_none());
    assert!(interpret_event(None, None, Some(true)).is_none());
    let ev = interpret_event(Some("eth0".to_string()), None, Some(true)).unwrap();
    assert_eq!(ev.iface, "eth0");
    assert_eq!(ev.label, "unknown");
    assert!(ev.is_anomalous);
    let ev = interpret_event(
        Some("eth0".to_string()),
        Some("portscan".to_string()),
        Some(false),
    )
    .unwrap();
    assert_eq!(ev.label, "portscan");
    assert!(!ev.is_anomalous);
}
