//! The state store: the single source of truth for the latest interface
//! records. A reconciliation cycle synchronizes it to the newest snapshot
//! while preserving anomaly labels; the ingestion path narrows one record's
//! anomaly state; readers take point-in-time copies.

use vstd::prelude::*;

use crate::helpers::{upper_of, uppercase};
use crate::structures::{benign_model, models, AnomalyDetection, AnomalyModel, NetworkInfo,
    RecordModel};

verus! {

/// Whether a stored record and an incoming record describe the same
/// interface: same IPv4 address, or same interface name.
pub open spec fn rec_matches(existing: RecordModel, inc: RecordModel) -> bool {
    (inc.ip.ipv4 is Some && existing.ip.ipv4 == inc.ip.ipv4) || existing.name == inc.name
}

/// The anomaly state an incoming record ends up with: taken from the first
/// stored record for the same interface, or fresh BENIGN when none exists.
pub open spec fn merged_anomaly(prior: Seq<RecordModel>, inc: RecordModel) -> AnomalyModel
    decreases prior.len(),
{
    if prior.len() == 0 {
        benign_model()
    } else if rec_matches(prior[0], inc) {
        prior[0].anomaly
    } else {
        merged_anomaly(prior.drop_first(), inc)
    }
}

/// One incoming record after the merge: every field the collector measured,
/// with the anomaly state carried over from the prior store.
pub open spec fn merge_one(prior: Seq<RecordModel>, inc: RecordModel) -> RecordModel {
    RecordModel { anomaly: merged_anomaly(prior, inc), ..inc }
}

/// The whole store after a replace: exactly the incoming records, in their
/// order, each with its anomaly state merged; stored records for interfaces
/// absent from the incoming snapshot are gone.
pub open spec fn merge_spec(prior: Seq<RecordModel>, incs: Seq<RecordModel>) -> Seq<RecordModel> {
    incs.map_values(|inc: RecordModel| merge_one(prior, inc))
}

/// Whether a record is addressed by an ingestion key: resolved IPv4 address
/// or interface name.
pub open spec fn key_matches(r: RecordModel, key: Seq<char>) -> bool {
    r.ip.ipv4 == Some(key) || r.name == key
}

/// One record after an anomaly application: addressed records take the new
/// flag, the uppercased label and the new timestamp; others are untouched.
pub open spec fn apply_one(
    r: RecordModel,
    key: Seq<char>,
    flag: bool,
    ulabel: Seq<char>,
    now: i64,
) -> RecordModel {
    if key_matches(r, key) {
        RecordModel {
            anomaly: AnomalyModel { is_anomalous: flag, label: Some(ulabel) },
            last_seen: now,
            ..r
        }
    } else {
        r
    }
}

/// The whole store after an anomaly application.
pub open spec fn apply_spec(
    s: Seq<RecordModel>,
    key: Seq<char>,
    flag: bool,
    ulabel: Seq<char>,
    now: i64,
) -> Seq<RecordModel> {
    s.map_values(|r: RecordModel| apply_one(r, key, flag, ulabel, now))
}

proof fn lemma_merged_anomaly_skip(prior: Seq<RecordModel>, inc: RecordModel, j: int)
    requires
        0 <= j <= prior.len(),
        forall|k: int| 0 <= k < j ==> !rec_matches(#[trigger] prior[k], inc),
    ensures
        merged_anomaly(prior, inc) == merged_anomaly(prior.skip(j), inc),
    decreases j,
{
    if j > 0 {
        assert(!rec_matches(prior[0], inc));
        lemma_merged_anomaly_skip(prior.drop_first(), inc, j - 1);
        assert(forall|k: int|
            0 <= k < j - 1 ==> !rec_matches(#[trigger] prior.drop_first()[k], inc));
        assert(prior.drop_first().skip(j - 1) =~= prior.skip(j));
    } else {
        assert(prior.skip(0) =~= prior);
    }
}

proof fn lemma_merged_anomaly_at(prior: Seq<RecordModel>, inc: RecordModel, j: int)
    requires
        0 <= j < prior.len(),
        forall|k: int| 0 <= k < j ==> !rec_matches(#[trigger] prior[k], inc),
        rec_matches(prior[j], inc),
    ensures
        merged_anomaly(prior, inc) == prior[j].anomaly,
{
    lemma_merged_anomaly_skip(prior, inc, j);
    assert(prior.skip(j)[0] == prior[j]);
}

proof fn lemma_merged_anomaly_none(prior: Seq<RecordModel>, inc: RecordModel)
    requires
        forall|k: int| 0 <= k < prior.len() ==> !rec_matches(#[trigger] prior[k], inc),
    ensures
        merged_anomaly(prior, inc) == benign_model(),
{
    lemma_merged_anomaly_skip(prior, inc, prior.len() as int);
    assert(prior.skip(prior.len() as int) =~= Seq::<RecordModel>::empty());
}

pub(crate) fn clone_string(s: &String) -> (r: String)
    ensures
        r@ == s@,
{
    s.clone()
}

fn clone_opt_string(s: &Option<String>) -> (r: Option<String>)
    ensures
        (r is Some <==> *s is Some),
        r matches Some(x) ==> (s matches Some(y) && x@ == y@),
{
    match s {
        Some(x) => Some(x.clone()),
        None => None,
    }
}

fn copy_ports(v: &Vec<u16>) -> (r: Vec<u16>)
    ensures
        r@ == v@,
{
    let mut r: Vec<u16> = Vec::new();
    let n = v.len();
    let mut i: usize = 0;
    while i < n
        invariant
            i <= n,
            n == v@.len(),
            r@ =~= v@.take(i as int),
        decreases n - i,
    {
        r.push(v[i]);
        proof {
            assert(r@ =~= v@.take(i as int + 1));
        }
        i = i + 1;
    }
    proof {
        assert(v@.take(n as int) =~= v@);
    }
    r
}

fn clone_anomaly(a: &AnomalyDetection) -> (r: AnomalyDetection)
    ensures
        r@ == a@,
{
    AnomalyDetection {
        is_anomalous: a.is_anomalous,
        anomaly_type: clone_opt_string(&a.anomaly_type),
    }
}

fn clone_record(r: &NetworkInfo) -> (c: NetworkInfo)
    ensures
        c@ == r@,
{
    NetworkInfo {
        id: clone_string(&r.id),
        name: clone_string(&r.name),
        status: clone_string(&r.status),
        anomaly: clone_anomaly(&r.anomaly),
        ip_info: crate::structures::IPInfo {
            ipv4: clone_opt_string(&r.ip_info.ipv4),
            ipv6: clone_opt_string(&r.ip_info.ipv6),
        },
        bandwidth: r.bandwidth,
        received_bytes: r.received_bytes,
        transmitted_bytes: r.transmitted_bytes,
        active_ports: copy_ports(&r.active_ports),
        last_seen: r.last_seen,
        cpu_usage: r.cpu_usage,
    }
}

/// Whether one record matches an incoming one, decided on the live values.
fn rec_matches_live(existing: &NetworkInfo, inc: &NetworkInfo) -> (r: bool)
    ensures
        r == rec_matches(existing@, inc@),
{
    let addr_match = match (&inc.ip_info.ipv4, &existing.ip_info.ipv4) {
        (Some(a), Some(b)) => *a == *b,
        _ => false,
    };
    addr_match || existing.name == inc.name
}

/// The shared store of the latest interface records.
pub struct StateStore {
    records: Vec<NetworkInfo>,
}

impl View for StateStore {
    type V = Seq<RecordModel>;

    closed spec fn view(&self) -> Seq<RecordModel> {
        models(self.records@)
    }
}

impl StateStore {
    /// An empty store.
    pub fn new() -> (r: Self)
        ensures
            r@ == Seq::<RecordModel>::empty(),
    {
        let r = StateStore { records: Vec::new() };
        proof {
            assert(models(r.records@) =~= Seq::<RecordModel>::empty());
        }
        r
    }

    /// The anomaly state an incoming record continues with: that of the
    /// first stored record for the same interface, or fresh BENIGN.
    fn anomaly_for(&self, inc: &NetworkInfo) -> (r: AnomalyDetection)
        ensures
            r@ == merged_anomaly(self@, inc@),
    {
        let n = self.records.len();
        let mut j: usize = 0;
        while j < n
            invariant
                j <= n,
                n == self.records@.len(),
                forall|k: int| 0 <= k < j ==> !rec_matches(#[trigger] self@[k], inc@),
            decreases n - j,
        {
            if rec_matches_live(&self.records[j], inc) {
                proof {
                    lemma_merged_anomaly_at(self@, inc@, j as int);
                }
                return clone_anomaly(&self.records[j].anomaly);
            }
            j = j + 1;
        }
        proof {
            lemma_merged_anomaly_none(self@, inc@);
        }
        AnomalyDetection::new()
    }

    /// Synchronizes the store to the incoming snapshot: every incoming
    /// record is kept wholesale, except that an interface already stored
    /// keeps its anomaly state; stored records for interfaces absent from
    /// the snapshot are dropped.
    pub fn replace(&mut self, incoming: Vec<NetworkInfo>)
        ensures
            final(self)@ == merge_spec(old(self)@, models(incoming@)),
    {
        let ghost incs: Seq<RecordModel> = models(incoming@);
        let ghost prior: Seq<RecordModel> = old(self)@;
        let mut rest = incoming;
        let mut merged: Vec<NetworkInfo> = Vec::new();
        proof {
            assert(models(rest@) =~= incs.skip(0));
            assert(models(merged@) =~= merge_spec(prior, incs.take(0)));
        }
        while rest.len() > 0
            invariant
                rest@.len() <= incs.len(),
                self@ == prior,
                models(rest@) =~= incs.skip(incs.len() - rest@.len()),
                models(merged@) =~= merge_spec(prior, incs.take(incs.len() - rest@.len())),
            decreases rest@.len(),
        {
            let ghost k = incs.len() - rest@.len();
            let ghost rest0 = rest@;
            let mut inc = rest.remove(0);
            proof {
                assert(inc@ == models(rest0)[0]);
                assert(inc@ == incs[k]);
                assert forall|i: int| 0 <= i < models(rest@).len() implies models(rest@)[i]
                    == incs.skip(k + 1)[i] by {
                    assert(rest@[i] == rest0[i + 1]);
                    assert(models(rest0)[i + 1] == incs.skip(k)[i + 1]);
                }
                assert(models(rest@) =~= incs.skip(k + 1));
            }
            let merged_anom = self.anomaly_for(&inc);
            inc.anomaly = merged_anom;
            proof {
                assert(inc@ == merge_one(prior, incs[k]));
            }
            let ghost m0 = merged@;
            merged.push(inc);
            proof {
                assert(merged@ == m0.push(inc));
                assert(models(m0).len() == k);
                assert forall|i: int| 0 <= i < models(merged@).len() implies models(merged@)[i]
                    == merge_spec(prior, incs.take(k + 1))[i] by {
                    if i < k {
                        assert(merged@[i] == m0[i]);
                        assert(models(m0)[i] == merge_spec(prior, incs.take(k))[i]);
                        assert(incs.take(k)[i] == incs[i]);
                        assert(incs.take(k + 1)[i] == incs[i]);
                    } else {
                        assert(merged@[i] == inc);
                        assert(incs.take(k + 1)[i] == incs[k]);
                    }
                }
                assert(models(merged@) =~= merge_spec(prior, incs.take(k + 1)));
            }
        }
        self.records = merged;
        proof {
            assert(incs.take(incs.len() as int) =~= incs);
        }
    }

    /// Applies one classification event: every record addressed by the key
    /// takes the flag, the uppercased label and the new timestamp; returns
    /// whether any record was addressed.
    pub fn apply_anomaly(
        &mut self,
        key: &String,
        is_anomalous: bool,
        label: &String,
        now_ms: i64,
    ) -> (r: bool)
        ensures
            final(self)@ == apply_spec(
                old(self)@,
                key@,
                is_anomalous,
                upper_of(label@),
                now_ms,
            ),
            r == exists|i: int| 0 <= i < old(self)@.len() && key_matches(#[trigger] old(self)@[i], key@),
    {
        let ghost prior: Seq<RecordModel> = old(self)@;
        let upper = uppercase(label.as_str());
        let n = self.records.len();
        let mut i: usize = 0;
        let mut found = false;
        while i < n
            invariant
                i <= n,
                n == self.records@.len(),
                upper@ == upper_of(label@),
                forall|k: int|
                    i <= k < n ==> models(self.records@)[k] == #[trigger] prior[k],
                forall|k: int|
                    0 <= k < i ==> models(self.records@)[k] == apply_one(
                        #[trigger] prior[k],
                        key@,
                        is_anomalous,
                        upper_of(label@),
                        now_ms,
                    ),
                found == exists|k: int| 0 <= k < i && key_matches(#[trigger] prior[k], key@),
            decreases n - i,
        {
            let addressed = {
                let rec = &self.records[i];
                (match &rec.ip_info.ipv4 {
                    Some(a) => *a == *key,
                    None => false,
                }) || rec.name == *key
            };
            if addressed {
                self.records[i].anomaly.is_anomalous = is_anomalous;
                self.records[i].anomaly.anomaly_type = Some(clone_string(&upper));
                self.records[i].last_seen = now_ms;
                found = true;
                proof {
                    assert(key_matches(prior[i as int], key@));
                    assert(models(self.records@)[i as int] == apply_one(
                        prior[i as int],
                        key@,
                        is_anomalous,
                        upper_of(label@),
                        now_ms,
                    ));
                }
            } else {
                proof {
                    assert(!key_matches(prior[i as int], key@));
                }
            }
            i = i + 1;
        }
        proof {
            assert(models(self.records@) =~= apply_spec(
                prior,
                key@,
                is_anomalous,
                upper_of(label@),
                now_ms,
            ));
        }
        found
    }

    /// A point-in-time copy of the stored records, for publication or a
    /// read-only query.
    pub fn snapshot(&self) -> (r: Vec<NetworkInfo>)
        ensures
            models(r@) == self@,
    {
        let n = self.records.len();
        let mut r: Vec<NetworkInfo> = Vec::new();
        let mut i: usize = 0;
        proof {
            assert(models(r@) =~= self@.take(0));
        }
        while i < n
            invariant
                i <= n,
                n == self.records@.len(),
                models(r@) =~= self@.take(i as int),
            decreases n - i,
        {
            let c = clone_record(&self.records[i]);
            let ghost r0 = r@;
            r.push(c);
            proof {
                assert(r@ == r0.push(c));
                assert(models(r0).len() == i);
                assert forall|t: int| 0 <= t < models(r@).len() implies models(r@)[t] == self@.take(
                    i as int + 1,
                )[t] by {
                    if t < i {
                        assert(r@[t] == r0[t]);
                        assert(models(r0)[t] == self@.take(i as int)[t]);
                    } else {
                        assert(r@[t] == c);
                        assert(self@.take(i as int + 1)[t] == self@[i as int]);
                        assert(c@ == models(self.records@)[i as int]);
                    }
                }
                assert(models(r@) =~= self@.take(i as int + 1));
            }
            i = i + 1;
        }
        proof {
            assert(self@.take(n as int) =~= self@);
        }
        r
    }

    /// How many records the store holds.
    pub fn len(&self) -> (r: usize)
        ensures
            r == self@.len(),
    {
        self.records.len()
    }
}

/// A snapshot is well formed when no two records claim the same interface:
/// names are pairwise distinct and present IPv4 addresses are pairwise
/// distinct.
pub open spec fn wf_snapshot(incs: Seq<RecordModel>) -> bool {
    forall|i: int, j: int|
        0 <= i < incs.len() && 0 <= j < incs.len() && i != j ==> (#[trigger] incs[i]).name != (
        #[trigger] incs[j]).name && !(incs[i].ip.ipv4 is Some && incs[i].ip.ipv4 == incs[j].ip.ipv4)
}

/// Replacing twice with the same well-formed snapshot leaves exactly what
/// one replace leaves: the merge is idempotent. The hypothesis is needed:
/// a snapshot that lists one interface name twice, or one address twice
/// (which address masking can genuinely produce), can defeat idempotence,
/// because the second pass reads the first pass's record for the wrong
/// entry.
pub proof fn lemma_replace_idempotent(prior: Seq<RecordModel>, incs: Seq<RecordModel>)
    requires
        wf_snapshot(incs),
    ensures
        merge_spec(merge_spec(prior, incs), incs) == merge_spec(prior, incs),
{
    let m1 = merge_spec(prior, incs);
    assert forall|k: int| 0 <= k < incs.len() implies merge_spec(m1, incs)[k] == m1[k] by {
        assert(m1[k] == merge_one(prior, incs[k]));
        assert forall|j: int| 0 <= j < k implies !rec_matches(#[trigger] m1[j], incs[k]) by {
            assert(m1[j] == merge_one(prior, incs[j]));
        }
        assert(rec_matches(m1[k], incs[k]));
        lemma_merged_anomaly_at(m1, incs[k], k);
    }
    assert(merge_spec(m1, incs) =~= m1);
}

/// After a replace the store holds exactly one record per incoming
/// record, carrying that record's name and addressing; with a well-formed
/// snapshot the store therefore holds at most one record per interface
/// name.
pub proof fn lemma_replace_names(prior: Seq<RecordModel>, incs: Seq<RecordModel>)
    ensures
        merge_spec(prior, incs).len() == incs.len(),
        forall|k: int|
            0 <= k < incs.len() ==> (#[trigger] merge_spec(prior, incs)[k]).name == incs[k].name
                && merge_spec(prior, incs)[k].ip == incs[k].ip,
{
    assert forall|k: int| 0 <= k < incs.len() implies (#[trigger] merge_spec(prior, incs)[k]).name
        == incs[k].name && merge_spec(prior, incs)[k].ip == incs[k].ip by {
        assert(merge_spec(prior, incs)[k] == merge_one(prior, incs[k]));
    }
}

/// An anomaly state survives a refresh: when a prior record is the first
/// stored match of an incoming record, the merged record keeps that prior
/// record's whole anomaly state. First-match is the merge's policy: where
/// one stored record shares the incoming record's name and an earlier one
/// its address, the earlier record's anomaly state is the one carried
/// over.
pub proof fn lemma_anomaly_preserved(
    prior: Seq<RecordModel>,
    incs: Seq<RecordModel>,
    i: int,
    j: int,
)
    requires
        0 <= i < incs.len(),
        0 <= j < prior.len(),
        rec_matches(prior[j], incs[i]),
        forall|k: int| 0 <= k < j ==> !rec_matches(#[trigger] prior[k], incs[i]),
    ensures
        merge_spec(prior, incs)[i].anomaly == prior[j].anomaly,
{
    lemma_merged_anomaly_at(prior, incs[i], j);
}

/// A record for an interface the store did not know starts BENIGN,
/// whatever else the store holds.
pub proof fn lemma_new_record_benign(prior: Seq<RecordModel>, incs: Seq<RecordModel>, i: int)
    requires
        0 <= i < incs.len(),
        forall|j: int| 0 <= j < prior.len() ==> !rec_matches(#[trigger] prior[j], incs[i]),
    ensures
        merge_spec(prior, incs)[i].anomaly == benign_model(),
{
    lemma_merged_anomaly_none(prior, incs[i]);
}

/// Pruning: after a replace the store names exactly the incoming
/// interfaces, so an interface absent from the new snapshot is absent from
/// the store.
pub proof fn lemma_pruned(prior: Seq<RecordModel>, incs: Seq<RecordModel>, name: Seq<char>)
    requires
        forall|i: int| 0 <= i < incs.len() ==> (#[trigger] incs[i]).name != name,
    ensures
        forall|k: int|
            0 <= k < merge_spec(prior, incs).len() ==> (#[trigger] merge_spec(prior, incs)[k]).name
                != name,
{
    assert forall|k: int| 0 <= k < merge_spec(prior, incs).len() implies (#[trigger] merge_spec(
        prior,
        incs,
    )[k]).name != name by {
        assert(merge_spec(prior, incs)[k] == merge_one(prior, incs[k]));
    }
}

} // verus!
