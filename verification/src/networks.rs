//! The interface snapshot collector: assembles one ordered list of
//! interface records out of a point-in-time reading of the OS accessors —
//! interfaces with their bound addresses, open sockets with their owning
//! processes, per-process CPU shares, and per-interface traffic counters.

use vstd::prelude::*;
use vstd::string::StringExecFns;

use crate::helpers::{lemma_permutation_distinct_names, lemma_sort_spec_permutation, mask_ip,
    mask_ip_spec, rigid_sorter, sort_spec};
use crate::store::clone_string;
use crate::structures::{benign_model, models, AnomalyDetection, Bandwidth, IPInfo, IpModel,
    NetworkInfo, RecordModel};
use crate::supervisor::{addr_views, contains_addr};

verus! {

/// One interface with its bound addresses, as the OS reports them.
pub struct IfaceInfo {
    pub name: String,
    pub v4_addrs: Vec<String>,
    pub v6_addrs: Vec<String>,
}

/// Model of an interface listing.
pub struct IfaceModel {
    pub name: Seq<char>,
    pub v4: Seq<Seq<char>>,
    pub v6: Seq<Seq<char>>,
}

impl View for IfaceInfo {
    type V = IfaceModel;

    open spec fn view(&self) -> IfaceModel {
        IfaceModel {
            name: self.name@,
            v4: addr_views(self.v4_addrs@),
            v6: addr_views(self.v6_addrs@),
        }
    }
}

/// One open socket: its local address, its local port, and the first
/// process bound to it, when the OS reports one.
pub struct SocketEntry {
    pub local_addr: String,
    pub local_port: u16,
    pub pid: Option<u64>,
}

/// Model of a socket entry.
pub struct SocketModel {
    pub local_addr: Seq<char>,
    pub local_port: u16,
    pub pid: Option<u64>,
}

impl View for SocketEntry {
    type V = SocketModel;

    open spec fn view(&self) -> SocketModel {
        SocketModel { local_addr: self.local_addr@, local_port: self.local_port, pid: self.pid }
    }
}

/// Cumulative traffic counters of one interface.
pub struct TrafficEntry {
    pub name: String,
    pub received: u64,
    pub transmitted: u64,
}

/// Model of a traffic entry.
pub struct TrafficModel {
    pub name: Seq<char>,
    pub received: u64,
    pub transmitted: u64,
}

impl View for TrafficEntry {
    type V = TrafficModel;

    open spec fn view(&self) -> TrafficModel {
        TrafficModel { name: self.name@, received: self.received, transmitted: self.transmitted }
    }
}

/// The CPU share of one process, in hundredths of a percent.
#[derive(Debug, Clone, Copy, PartialEq, Eq, Structural)]
pub struct ProcCpu {
    pub pid: u64,
    pub cpu_centi: u64,
}

/// Everything one collection cycle reads from the OS, as plain values.
pub struct CollectorInput {
    pub interfaces: Vec<IfaceInfo>,
    pub sockets: Vec<SocketEntry>,
    pub traffic: Vec<TrafficEntry>,
    pub cpu: Vec<ProcCpu>,
}

/// Model of a whole collection reading.
pub struct CollectorModel {
    pub interfaces: Seq<IfaceModel>,
    pub sockets: Seq<SocketModel>,
    pub traffic: Seq<TrafficModel>,
    pub cpu: Seq<ProcCpu>,
}

impl View for CollectorInput {
    type V = CollectorModel;

    open spec fn view(&self) -> CollectorModel {
        CollectorModel {
            interfaces: models(self.interfaces@),
            sockets: models(self.sockets@),
            traffic: models(self.traffic@),
            cpu: self.cpu@,
        }
    }
}

/// The first listed interface with the given name.
pub open spec fn find_iface_spec(ifs: Seq<IfaceModel>, name: Seq<char>) -> Option<IfaceModel>
    decreases ifs.len(),
{
    if ifs.len() == 0 {
        None
    } else if ifs[0].name == name {
        Some(ifs[0])
    } else {
        find_iface_spec(ifs.drop_first(), name)
    }
}

/// Whether an address is bound on the interface.
pub open spec fn addr_on_iface(f: IfaceModel, addr: Seq<char>) -> bool {
    f.v4.contains(addr) || f.v6.contains(addr)
}

/// The local ports of the sockets whose traffic routes through the
/// interface, in socket order.
pub open spec fn ports_spec(socks: Seq<SocketModel>, f: IfaceModel) -> Seq<u16>
    decreases socks.len(),
{
    if socks.len() == 0 {
        Seq::empty()
    } else {
        ports_spec(socks.drop_last(), f) + (if addr_on_iface(f, socks.last().local_addr) {
            seq![socks.last().local_port]
        } else {
            Seq::empty()
        })
    }
}

/// The CPU share recorded for a process, zero when the process table does
/// not list it.
pub open spec fn cpu_of_pid(tab: Seq<ProcCpu>, pid: u64) -> u64
    decreases tab.len(),
{
    if tab.len() == 0 {
        0
    } else if tab[0].pid == pid {
        tab[0].cpu_centi
    } else {
        cpu_of_pid(tab.drop_first(), pid)
    }
}

/// Saturating addition: CPU shares accumulate and cap rather than wrap.
pub open spec fn sat_add(a: u64, b: u64) -> u64 {
    if a + b > u64::MAX {
        u64::MAX
    } else {
        (a + b) as u64
    }
}

/// The CPU share one socket contributes: that of its first bound process.
pub open spec fn socket_cpu(tab: Seq<ProcCpu>, s: SocketModel) -> u64 {
    match s.pid {
        Some(p) => cpu_of_pid(tab, p),
        None => 0,
    }
}

/// The aggregate CPU share of the processes whose sockets route through
/// the interface, one contribution per socket, saturating at the cap.
pub open spec fn cpu_spec(socks: Seq<SocketModel>, f: IfaceModel, tab: Seq<ProcCpu>) -> u64
    decreases socks.len(),
{
    if socks.len() == 0 {
        0
    } else if addr_on_iface(f, socks.last().local_addr) {
        sat_add(cpu_spec(socks.drop_last(), f, tab), socket_cpu(tab, socks.last()))
    } else {
        cpu_spec(socks.drop_last(), f, tab)
    }
}

/// The addressing a record publishes: the interface's first IPv4 address
/// masked, its first IPv6 address raw; nothing when the interface listing
/// does not know the name.
pub open spec fn ip_info_spec(ifs: Seq<IfaceModel>, name: Seq<char>) -> IpModel {
    match find_iface_spec(ifs, name) {
        Some(f) => IpModel {
            ipv4: if f.v4.len() > 0 {
                Some(mask_ip_spec(f.v4[0]))
            } else {
                None
            },
            ipv6: if f.v6.len() > 0 {
                Some(f.v6[0])
            } else {
                None
            },
        },
        None => IpModel { ipv4: None, ipv6: None },
    }
}

/// The interface listed under the name, or one with no addresses.
pub open spec fn iface_or_empty(ifs: Seq<IfaceModel>, name: Seq<char>) -> IfaceModel {
    match find_iface_spec(ifs, name) {
        Some(f) => f,
        None => IfaceModel { name, v4: Seq::empty(), v6: Seq::empty() },
    }
}

/// Whole-Mbps throughput of a cumulative byte counter.
pub open spec fn mbps(bytes: u64) -> u64 {
    ((bytes as int) * 8 / 1000000) as u64
}

/// An interface with any cumulative traffic is active, the rest are idle.
pub open spec fn status_of(t: TrafficModel) -> Seq<char> {
    if t.received > 0 || t.transmitted > 0 {
        "active"@
    } else {
        "idle"@
    }
}

/// The decimal digit characters.
pub open spec fn digit_char(d: int) -> char {
    if d == 0 {
        '0'
    } else if d == 1 {
        '1'
    } else if d == 2 {
        '2'
    } else if d == 3 {
        '3'
    } else if d == 4 {
        '4'
    } else if d == 5 {
        '5'
    } else if d == 6 {
        '6'
    } else if d == 7 {
        '7'
    } else if d == 8 {
        '8'
    } else {
        '9'
    }
}

/// The decimal rendering of a number.
pub open spec fn dec_spec(n: nat) -> Seq<char>
    decreases n,
{
    if n < 10 {
        seq![digit_char(n as int)]
    } else {
        dec_spec(n / 10) + seq![digit_char((n % 10) as int)]
    }
}

/// The synthetic display identifier of the record at one enumeration
/// position. It is regenerated every cycle and is not a stable key.
pub open spec fn synth_id_spec(i: nat) -> Seq<char> {
    "iface_"@ + dec_spec(i)
}

/// One interface record as the collector builds it, before sorting.
pub open spec fn record_spec(inp: CollectorModel, i: int, now: i64) -> RecordModel {
    let t = inp.traffic[i];
    let f = iface_or_empty(inp.interfaces, t.name);
    RecordModel {
        id: synth_id_spec(i as nat),
        name: t.name,
        status: status_of(t),
        anomaly: benign_model(),
        ip: ip_info_spec(inp.interfaces, t.name),
        bandwidth: Bandwidth { download: mbps(t.received), upload: mbps(t.transmitted) },
        received_bytes: t.received,
        transmitted_bytes: t.transmitted,
        active_ports: ports_spec(inp.sockets, f),
        last_seen: now,
        cpu_usage: cpu_spec(inp.sockets, f, inp.cpu),
    }
}

/// The records of one collection reading, in traffic-counter order.
pub open spec fn raw_records_spec(inp: CollectorModel, now: i64) -> Seq<RecordModel> {
    Seq::new(inp.traffic.len(), |i: int| record_spec(inp, i, now))
}

fn digit_str(d: u64) -> (r: &'static str)
    requires
        d < 10,
    ensures
        r@ =~= seq![digit_char(d as int)],
{
    if d == 0 {
        proof {
            reveal_strlit("0");
        }
        "0"
    } else if d == 1 {
        proof {
            reveal_strlit("1");
        }
        "1"
    } else if d == 2 {
        proof {
            reveal_strlit("2");
        }
        "2"
    } else if d == 3 {
        proof {
            reveal_strlit("3");
        }
        "3"
    } else if d == 4 {
        proof {
            reveal_strlit("4");
        }
        "4"
    } else if d == 5 {
        proof {
            reveal_strlit("5");
        }
        "5"
    } else if d == 6 {
        proof {
            reveal_strlit("6");
        }
        "6"
    } else if d == 7 {
        proof {
            reveal_strlit("7");
        }
        "7"
    } else if d == 8 {
        proof {
            reveal_strlit("8");
        }
        "8"
    } else {
        proof {
            reveal_strlit("9");
        }
        "9"
    }
}

fn dec_string(n: u64) -> (r: String)
    ensures
        r@ == dec_spec(n as nat),
    decreases n,
{
    if n < 10 {
        digit_str(n).to_owned()
    } else {
        let mut s = dec_string(n / 10);
        s.append(digit_str(n % 10));
        s
    }
}

/// The display identifier of the record at one enumeration position.
fn synth_id(i: usize) -> (r: String)
    ensures
        r@ == synth_id_spec(i as nat),
{
    let mut s = "iface_".to_owned();
    let d = dec_string(i as u64);
    s.append(d.as_str());
    s
}

/// The first listed interface with the given name.
fn find_iface<'a>(ifaces: &'a Vec<IfaceInfo>, name: &String) -> (r: Option<&'a IfaceInfo>)
    ensures
        (r is Some <==> find_iface_spec(models(ifaces@), name@) is Some),
        r matches Some(f) ==> find_iface_spec(models(ifaces@), name@) == Some(f@),
{
    let n = ifaces.len();
    let mut j: usize = 0;
    while j < n
        invariant
            j <= n,
            n == ifaces@.len(),
            forall|k: int| 0 <= k < j ==> (#[trigger] models(ifaces@)[k]).name != name@,
        decreases n - j,
    {
        if ifaces[j].name == *name {
            proof {
                lemma_find_iface_skip(models(ifaces@), name@, j as int);
                assert(models(ifaces@).skip(j as int)[0] == models(ifaces@)[j as int]);
            }
            return Some(&ifaces[j]);
        }
        j = j + 1;
    }
    proof {
        lemma_find_iface_skip(models(ifaces@), name@, n as int);
        assert(models(ifaces@).skip(n as int) =~= Seq::<IfaceModel>::empty());
    }
    None
}

proof fn lemma_find_iface_skip(ifs: Seq<IfaceModel>, name: Seq<char>, j: int)
    requires
        0 <= j <= ifs.len(),
        forall|k: int| 0 <= k < j ==> (#[trigger] ifs[k]).name != name,
    ensures
        find_iface_spec(ifs, name) == find_iface_spec(ifs.skip(j), name),
    decreases j,
{
    if j > 0 {
        lemma_find_iface_skip(ifs.drop_first(), name, j - 1);
        assert(forall|k: int| 0 <= k < j - 1 ==> (#[trigger] ifs.drop_first()[k]).name != name);
        assert(ifs.drop_first().skip(j - 1) =~= ifs.skip(j));
    } else {
        assert(ifs.skip(0) =~= ifs);
    }
}

proof fn lemma_cpu_of_pid_skip(tab: Seq<ProcCpu>, pid: u64, j: int)
    requires
        0 <= j <= tab.len(),
        forall|k: int| 0 <= k < j ==> (#[trigger] tab[k]).pid != pid,
    ensures
        cpu_of_pid(tab, pid) == cpu_of_pid(tab.skip(j), pid),
    decreases j,
{
    if j > 0 {
        lemma_cpu_of_pid_skip(tab.drop_first(), pid, j - 1);
        assert(forall|k: int| 0 <= k < j - 1 ==> (#[trigger] tab.drop_first()[k]).pid != pid);
        assert(tab.drop_first().skip(j - 1) =~= tab.skip(j));
    } else {
        assert(tab.skip(0) =~= tab);
    }
}

/// The CPU share recorded for a process.
fn cpu_lookup(tab: &Vec<ProcCpu>, pid: u64) -> (r: u64)
    ensures
        r == cpu_of_pid(tab@, pid),
{
    let n = tab.len();
    let mut j: usize = 0;
    while j < n
        invariant
            j <= n,
            n == tab@.len(),
            forall|k: int| 0 <= k < j ==> (#[trigger] tab@[k]).pid != pid,
        decreases n - j,
    {
        if tab[j].pid == pid {
            proof {
                lemma_cpu_of_pid_skip(tab@, pid, j as int);
                assert(tab@.skip(j as int)[0] == tab@[j as int]);
            }
            return tab[j].cpu_centi;
        }
        j = j + 1;
    }
    proof {
        lemma_cpu_of_pid_skip(tab@, pid, n as int);
        assert(tab@.skip(n as int) =~= Seq::<ProcCpu>::empty());
    }
    0
}

/// Whether the socket's local address is bound on the interface.
fn socket_on_iface(s: &SocketEntry, f: &IfaceInfo) -> (r: bool)
    ensures
        r == addr_on_iface(f@, s@.local_addr),
{
    contains_addr(&f.v4_addrs, &s.local_addr) || contains_addr(&f.v6_addrs, &s.local_addr)
}

/// The local ports of the sockets routing through the interface.
pub fn extract_ports(sockets: &Vec<SocketEntry>, f: &IfaceInfo) -> (r: Vec<u16>)
    ensures
        r@ == ports_spec(models(sockets@), f@),
{
    let ghost socks: Seq<SocketModel> = models(sockets@);
    let mut r: Vec<u16> = Vec::new();
    let n = sockets.len();
    let mut i: usize = 0;
    proof {
        assert(socks.take(0) =~= Seq::<SocketModel>::empty());
        assert(r@ =~= ports_spec(socks.take(0), f@));
    }
    while i < n
        invariant
            i <= n,
            n == sockets@.len(),
            socks == models(sockets@),
            r@ =~= ports_spec(socks.take(i as int), f@),
        decreases n - i,
    {
        proof {
            assert(socks.take(i as int + 1).drop_last() =~= socks.take(i as int));
            assert(socks.take(i as int + 1).last() == socks[i as int]);
        }
        let ghost r0 = r@;
        if socket_on_iface(&sockets[i], f) {
            r.push(sockets[i].local_port);
            proof {
                assert(r@ =~= ports_spec(socks.take(i as int + 1), f@));
            }
        } else {
            proof {
                assert(r@ =~= ports_spec(socks.take(i as int + 1), f@));
            }
        }
        i = i + 1;
    }
    proof {
        assert(socks.take(n as int) =~= socks);
    }
    r
}

/// The aggregate CPU share of the sockets routing through the interface.
pub fn compute_interface_cpu(sockets: &Vec<SocketEntry>, f: &IfaceInfo, cpu: &Vec<ProcCpu>) -> (r:
    u64)
    ensures
        r == cpu_spec(models(sockets@), f@, cpu@),
{
    let ghost socks: Seq<SocketModel> = models(sockets@);
    let mut total: u64 = 0;
    let n = sockets.len();
    let mut i: usize = 0;
    proof {
        assert(socks.take(0) =~= Seq::<SocketModel>::empty());
    }
    while i < n
        invariant
            i <= n,
            n == sockets@.len(),
            socks == models(sockets@),
            total == cpu_spec(socks.take(i as int), f@, cpu@),
        decreases n - i,
    {
        proof {
            assert(socks.take(i as int + 1).drop_last() =~= socks.take(i as int));
            assert(socks.take(i as int + 1).last() == socks[i as int]);
        }
        if socket_on_iface(&sockets[i], f) {
            let share = match &sockets[i].pid {
                Some(p) => cpu_lookup(cpu, *p),
                None => 0,
            };
            proof {
                assert(share == socket_cpu(cpu@, socks[i as int]));
            }
            if total <= u64::MAX - share {
                total = total + share;
            } else {
                total = u64::MAX;
            }
        }
        i = i + 1;
    }
    proof {
        assert(socks.take(n as int) =~= socks);
    }
    total
}

/// The addressing a record publishes for an interface name.
pub fn build_ip_info(interfaces: &Vec<IfaceInfo>, name: &String) -> (r: IPInfo)
    ensures
        r@ == ip_info_spec(models(interfaces@), name@),
{
    match find_iface(interfaces, name) {
        Some(f) => {
            let ipv4 = if f.v4_addrs.len() > 0 {
                Some(mask_ip(f.v4_addrs[0].as_str()))
            } else {
                None
            };
            let ipv6 = if f.v6_addrs.len() > 0 {
                Some(clone_string(&f.v6_addrs[0]))
            } else {
                None
            };
            IPInfo { ipv4, ipv6 }
        },
        None => IPInfo { ipv4: None, ipv6: None },
    }
}

/// Builds the records of one collection reading, in traffic-counter order.
pub fn build_network_info(input: &CollectorInput, now_ms: i64) -> (r: Vec<NetworkInfo>)
    ensures
        models(r@) == raw_records_spec(input@, now_ms),
{
    let mut out: Vec<NetworkInfo> = Vec::new();
    let n = input.traffic.len();
    let mut i: usize = 0;
    while i < n
        invariant
            i <= n,
            n == input.traffic@.len(),
            models(out@).len() == i,
            forall|k: int|
                0 <= k < i ==> models(out@)[k] == record_spec(input@, k, now_ms),
        decreases n - i,
    {
        let t = &input.traffic[i];
        let id = synth_id(i);
        let name = clone_string(&t.name);
        let status: String = if t.received > 0 || t.transmitted > 0 {
            "active".to_owned()
        } else {
            "idle".to_owned()
        };
        let ip_info = build_ip_info(&input.interfaces, &t.name);
        let download = mbps_of(t.received);
        let upload = mbps_of(t.transmitted);
        let (ports, cpu_usage) = match find_iface(&input.interfaces, &t.name) {
            Some(f) => (
                extract_ports(&input.sockets, f),
                compute_interface_cpu(&input.sockets, f, &input.cpu),
            ),
            None => {
                proof {
                    let fe = iface_or_empty(input@.interfaces, t@.name);
                    lemma_no_iface_no_traffic(input@.sockets, fe, input@.cpu);
                }
                (Vec::new(), 0u64)
            },
        };
        let rec = NetworkInfo {
            id,
            name,
            status,
            anomaly: AnomalyDetection::new(),
            ip_info,
            bandwidth: Bandwidth { download, upload },
            received_bytes: t.received,
            transmitted_bytes: t.transmitted,
            active_ports: ports,
            last_seen: now_ms,
            cpu_usage,
        };
        proof {
            assert(models(input.traffic@)[i as int] == t@);
            assert(rec@ == record_spec(input@, i as int, now_ms));
        }
        let ghost o0 = out@;
        out.push(rec);
        proof {
            assert forall|k: int| 0 <= k < i + 1 implies models(out@)[k] == record_spec(
                input@,
                k,
                now_ms,
            ) by {
                if k < i {
                    assert(out@[k] == o0[k]);
                    assert(models(o0)[k] == record_spec(input@, k, now_ms));
                }
            }
        }
        i = i + 1;
    }
    proof {
        assert(models(out@) =~= raw_records_spec(input@, now_ms));
    }
    out
}

proof fn lemma_no_iface_no_traffic(socks: Seq<SocketModel>, f: IfaceModel, tab: Seq<ProcCpu>)
    requires
        f.v4.len() == 0,
        f.v6.len() == 0,
    ensures
        ports_spec(socks, f) == Seq::<u16>::empty(),
        cpu_spec(socks, f, tab) == 0,
    decreases socks.len(),
{
    if socks.len() > 0 {
        lemma_no_iface_no_traffic(socks.drop_last(), f, tab);
        assert(!addr_on_iface(f, socks.last().local_addr));
        assert(ports_spec(socks, f) =~= Seq::<u16>::empty());
    }
}

/// Whole-Mbps throughput of a cumulative byte counter.
fn mbps_of(bytes: u64) -> (r: u64)
    ensures
        r == mbps(bytes),
{
    let bits: u128 = (bytes as u128) * 8;
    let m: u128 = bits / 1000000;
    proof {
        vstd::arithmetic::div_mod::lemma_div_is_ordered(
            bits as int,
            0xffffffffffffffffint * 8,
            1000000,
        );
        assert(0xffffffffffffffffint * 8 / 1000000 < 0xffffffffffffffffint);
    }
    m as u64
}

/// Pairwise-distinct interface names among the traffic counters; the OS
/// keys its counters by name, so a reading normally satisfies this.
pub open spec fn distinct_traffic_names(ts: Seq<TrafficModel>) -> bool {
    forall|i: int, j: int|
        0 <= i < j < ts.len() ==> (#[trigger] ts[i]).name != (#[trigger] ts[j]).name
}

/// One reconciliation cycle's snapshot: assembles every interface record
/// out of the OS reading and orders the list for publication — anomalous
/// first, then active before idle, then case-insensitive name ascending.
/// A reading with one counter per interface name yields at most one record
/// per interface name.
pub fn collect_networks(input: &CollectorInput, now_ms: i64) -> (r: Vec<NetworkInfo>)
    ensures
        models(r@) == sort_spec(raw_records_spec(input@, now_ms)),
        distinct_traffic_names(input@.traffic) ==> forall|i: int, j: int|
            0 <= i < j < models(r@).len() ==> (#[trigger] models(r@)[i]).name != (
            #[trigger] models(r@)[j]).name,
{
    let raw = build_network_info(input, now_ms);
    let sorted = rigid_sorter(raw);
    proof {
        if distinct_traffic_names(input@.traffic) {
            let rr = raw_records_spec(input@, now_ms);
            assert forall|i: int, j: int| 0 <= i < j < rr.len() implies (#[trigger] rr[i]).name
                != (#[trigger] rr[j]).name by {
                assert(rr[i] == record_spec(input@, i, now_ms));
                assert(rr[j] == record_spec(input@, j, now_ms));
                assert(input@.traffic[i].name != input@.traffic[j].name);
            }
            lemma_sort_spec_permutation(rr);
            lemma_permutation_distinct_names(rr, sort_spec(rr));
        }
    }
    sorted
}

} // verus!
