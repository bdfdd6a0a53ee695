//! The record types that one reconciliation cycle produces and the state
//! store keeps, together with their mathematical models.

use vstd::prelude::*;

verus! {

/// Anomaly classification attached to an interface record. Only the event
/// ingestion path mutates it; a collector refresh preserves it.
#[derive(Debug)]
pub struct AnomalyDetection {
    pub is_anomalous: bool,
    pub anomaly_type: Option<String>,
}

/// Model of an anomaly state: the flag and the label's characters.
pub struct AnomalyModel {
    pub is_anomalous: bool,
    pub label: Option<Seq<char>>,
}

impl View for AnomalyDetection {
    type V = AnomalyModel;

    open spec fn view(&self) -> AnomalyModel {
        AnomalyModel {
            is_anomalous: self.is_anomalous,
            label: match self.anomaly_type {
                Some(ref s) => Some(s@),
                None => None,
            },
        }
    }
}

/// The anomaly state a record starts with: not anomalous, labelled BENIGN.
pub open spec fn benign_model() -> AnomalyModel {
    AnomalyModel { is_anomalous: false, label: Some("BENIGN"@) }
}

impl AnomalyDetection {
    pub fn new() -> (r: Self)
        ensures
            r@ == benign_model(),
    {
        Self { is_anomalous: false, anomaly_type: Some("BENIGN".to_owned()) }
    }
}

/// Masked IPv4 and raw IPv6 addressing of one interface.
#[derive(Debug)]
pub struct IPInfo {
    pub ipv4: Option<String>,
    pub ipv6: Option<String>,
}

/// Model of an interface's addressing.
pub struct IpModel {
    pub ipv4: Option<Seq<char>>,
    pub ipv6: Option<Seq<char>>,
}

impl View for IPInfo {
    type V = IpModel;

    open spec fn view(&self) -> IpModel {
        IpModel {
            ipv4: match self.ipv4 {
                Some(ref s) => Some(s@),
                None => None,
            },
            ipv6: match self.ipv6 {
                Some(ref s) => Some(s@),
                None => None,
            },
        }
    }
}

/// Whole-Mbps throughput derived from the cumulative byte counters.
#[derive(Debug, Clone, Copy, PartialEq, Eq, Structural)]
pub struct Bandwidth {
    pub download: u64,
    pub upload: u64,
}

/// One entry of the published snapshot: everything the monitor knows about a
/// single network interface after a reconciliation cycle.
#[derive(Debug)]
pub struct NetworkInfo {
    pub id: String,
    pub name: String,
    pub status: String,
    pub anomaly: AnomalyDetection,
    pub ip_info: IPInfo,
    pub bandwidth: Bandwidth,
    pub received_bytes: u64,
    pub transmitted_bytes: u64,
    pub active_ports: Vec<u16>,
    pub last_seen: i64,
    pub cpu_usage: u64,
}

/// Model of one interface record, with every string as its characters.
pub struct RecordModel {
    pub id: Seq<char>,
    pub name: Seq<char>,
    pub status: Seq<char>,
    pub anomaly: AnomalyModel,
    pub ip: IpModel,
    pub bandwidth: Bandwidth,
    pub received_bytes: u64,
    pub transmitted_bytes: u64,
    pub active_ports: Seq<u16>,
    pub last_seen: i64,
    pub cpu_usage: u64,
}

impl View for NetworkInfo {
    type V = RecordModel;

    open spec fn view(&self) -> RecordModel {
        RecordModel {
            id: self.id@,
            name: self.name@,
            status: self.status@,
            anomaly: self.anomaly@,
            ip: self.ip_info@,
            bandwidth: self.bandwidth,
            received_bytes: self.received_bytes,
            transmitted_bytes: self.transmitted_bytes,
            active_ports: self.active_ports@,
            last_seen: self.last_seen,
            cpu_usage: self.cpu_usage,
        }
    }
}

/// The models of a sequence of values, element by element.
pub open spec fn models<T: View>(s: Seq<T>) -> Seq<T::V> {
    s.map_values(|r: T| r@)
}

} // verus!
