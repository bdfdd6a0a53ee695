//! The worker supervisor's data: the address-to-interface-name index
//! resolved at startup, the table of live worker handles, and the pure
//! set-difference that decides which workers a reconciliation pass starts
//! and stops.

use vstd::prelude::*;

use crate::store::clone_string;
use crate::structures::{models, NetworkInfo, RecordModel};

verus! {

/// One resolved pairing of an IPv4 address with its interface name.
pub struct IndexEntry {
    pub addr: String,
    pub name: String,
}

/// Model of an index entry.
pub struct EntryModel {
    pub addr: Seq<char>,
    pub name: Seq<char>,
}

impl View for IndexEntry {
    type V = EntryModel;

    open spec fn view(&self) -> EntryModel {
        EntryModel { addr: self.addr@, name: self.name@ }
    }
}

/// The name an address resolves to: that of the first entry for it.
pub open spec fn lookup_spec(idx: Seq<EntryModel>, addr: Seq<char>) -> Option<Seq<char>>
    decreases idx.len(),
{
    if idx.len() == 0 {
        None
    } else if idx[0].addr == addr {
        Some(idx[0].name)
    } else {
        lookup_spec(idx.drop_first(), addr)
    }
}

/// The address a worker-reported name resolves back to: that of the first
/// entry carrying the name.
pub open spec fn rev_lookup_spec(idx: Seq<EntryModel>, name: Seq<char>) -> Option<Seq<char>>
    decreases idx.len(),
{
    if idx.len() == 0 {
        None
    } else if idx[0].name == name {
        Some(idx[0].addr)
    } else {
        rev_lookup_spec(idx.drop_first(), name)
    }
}

/// The index after binding an address to a name: the first entry for the
/// address is renamed in place, or a new entry is appended.
pub open spec fn upsert_spec(idx: Seq<EntryModel>, addr: Seq<char>, name: Seq<char>) -> Seq<
    EntryModel,
>
    decreases idx.len(),
{
    if idx.len() == 0 {
        seq![EntryModel { addr, name }]
    } else if idx[0].addr == addr {
        seq![EntryModel { addr, name }] + idx.drop_first()
    } else {
        seq![idx[0]] + upsert_spec(idx.drop_first(), addr, name)
    }
}

proof fn lemma_lookup_skip(idx: Seq<EntryModel>, addr: Seq<char>, j: int)
    requires
        0 <= j <= idx.len(),
        forall|k: int| 0 <= k < j ==> (#[trigger] idx[k]).addr != addr,
    ensures
        lookup_spec(idx, addr) == lookup_spec(idx.skip(j), addr),
    decreases j,
{
    if j > 0 {
        lemma_lookup_skip(idx.drop_first(), addr, j - 1);
        assert(forall|k: int| 0 <= k < j - 1 ==> (#[trigger] idx.drop_first()[k]).addr != addr);
        assert(idx.drop_first().skip(j - 1) =~= idx.skip(j));
    } else {
        assert(idx.skip(0) =~= idx);
    }
}

proof fn lemma_rev_lookup_skip(idx: Seq<EntryModel>, name: Seq<char>, j: int)
    requires
        0 <= j <= idx.len(),
        forall|k: int| 0 <= k < j ==> (#[trigger] idx[k]).name != name,
    ensures
        rev_lookup_spec(idx, name) == rev_lookup_spec(idx.skip(j), name),
    decreases j,
{
    if j > 0 {
        lemma_rev_lookup_skip(idx.drop_first(), name, j - 1);
        assert(forall|k: int| 0 <= k < j - 1 ==> (#[trigger] idx.drop_first()[k]).name != name);
        assert(idx.drop_first().skip(j - 1) =~= idx.skip(j));
    } else {
        assert(idx.skip(0) =~= idx);
    }
}

proof fn lemma_upsert_at(idx: Seq<EntryModel>, addr: Seq<char>, name: Seq<char>, j: int)
    requires
        0 <= j < idx.len(),
        forall|k: int| 0 <= k < j ==> (#[trigger] idx[k]).addr != addr,
        idx[j].addr == addr,
    ensures
        upsert_spec(idx, addr, name) == idx.update(j, EntryModel { addr, name }),
    decreases j,
{
    if j == 0 {
        assert(seq![EntryModel { addr, name }] + idx.drop_first() =~= idx.update(
            0,
            EntryModel { addr, name },
        ));
    } else {
        lemma_upsert_at(idx.drop_first(), addr, name, j - 1);
        assert(forall|k: int| 0 <= k < j - 1 ==> (#[trigger] idx.drop_first()[k]).addr != addr);
        assert(idx.drop_first()[j - 1].addr == addr);
        assert(seq![idx[0]] + idx.drop_first().update(j - 1, EntryModel { addr, name })
            =~= idx.update(j, EntryModel { addr, name }));
    }
}

proof fn lemma_upsert_none(idx: Seq<EntryModel>, addr: Seq<char>, name: Seq<char>)
    requires
        forall|k: int| 0 <= k < idx.len() ==> (#[trigger] idx[k]).addr != addr,
    ensures
        upsert_spec(idx, addr, name) == idx.push(EntryModel { addr, name }),
    decreases idx.len(),
{
    if idx.len() == 0 {
        assert(seq![EntryModel { addr, name }] =~= idx.push(EntryModel { addr, name }));
    } else {
        lemma_upsert_none(idx.drop_first(), addr, name);
        assert(forall|k: int| 0 <= k < idx.drop_first().len() ==> (#[trigger] idx.drop_first()[k]).addr != addr);
        assert(seq![idx[0]] + idx.drop_first().push(EntryModel { addr, name }) =~= idx.push(
            EntryModel { addr, name },
        ));
    }
}

/// No address is bound twice: the index is a mapping.
pub open spec fn index_wf(idx: Seq<EntryModel>) -> bool {
    forall|i: int, j: int|
        0 <= i < j < idx.len() ==> (#[trigger] idx[i]).addr != (#[trigger] idx[j]).addr
}

/// The address-to-name mapping resolved once at startup and read by both
/// the reconciliation loop and the ingestion path.
pub struct NameIndex {
    entries: Vec<IndexEntry>,
}

impl View for NameIndex {
    type V = Seq<EntryModel>;

    closed spec fn view(&self) -> Seq<EntryModel> {
        models(self.entries@)
    }
}

impl NameIndex {
    /// An empty index: the degraded-start state in which no worker can be
    /// spawned.
    pub fn new() -> (r: Self)
        ensures
            r@ == Seq::<EntryModel>::empty(),
            index_wf(r@),
    {
        let r = NameIndex { entries: Vec::new() };
        proof {
            assert(models(r.entries@) =~= Seq::<EntryModel>::empty());
        }
        r
    }

    /// Binds an address to an interface name, overwriting an earlier
    /// binding of the same address.
    pub fn insert(&mut self, addr: String, name: String)
        ensures
            final(self)@ == upsert_spec(old(self)@, addr@, name@),
            index_wf(old(self)@) ==> index_wf(final(self)@),
    {
        let n = self.entries.len();
        let mut j: usize = 0;
        while j < n
            invariant
                j <= n,
                n == self.entries@.len(),
                self@ == old(self)@,
                forall|k: int| 0 <= k < j ==> (#[trigger] self@[k]).addr != addr@,
            decreases n - j,
        {
            if self.entries[j].addr == addr {
                proof {
                    lemma_upsert_at(self@, addr@, name@, j as int);
                }
                self.entries[j].addr = addr;
                self.entries[j].name = name;
                proof {
                    assert(models(self.entries@) =~= old(self)@.update(
                        j as int,
                        EntryModel { addr: addr@, name: name@ },
                    ));
                    let nv = models(self.entries@);
                    if index_wf(old(self)@) {
                        assert forall|x: int, y: int| 0 <= x < y < nv.len() implies (
                        #[trigger] nv[x]).addr != (#[trigger] nv[y]).addr by {
                            if x == j as int {
                                assert(nv[x].addr == old(self)@[j as int].addr);
                                assert(nv[y] == old(self)@[y]);
                            } else if y == j as int {
                                assert(nv[y].addr == old(self)@[j as int].addr);
                                assert(nv[x] == old(self)@[x]);
                            } else {
                                assert(nv[x] == old(self)@[x]);
                                assert(nv[y] == old(self)@[y]);
                            }
                        }
                    }
                }
                return ;
            }
            j = j + 1;
        }
        proof {
            lemma_upsert_none(self@, addr@, name@);
        }
        let ghost e0 = self.entries@;
        self.entries.push(IndexEntry { addr, name });
        proof {
            assert forall|i: int| 0 <= i < models(self.entries@).len() implies models(
                self.entries@,
            )[i] == old(self)@.push(EntryModel { addr: addr@, name: name@ })[i] by {
                if i < e0.len() {
                    assert(self.entries@[i] == e0[i]);
                }
            }
            assert(models(self.entries@) =~= old(self)@.push(
                EntryModel { addr: addr@, name: name@ },
            ));
            let nv = models(self.entries@);
            if index_wf(old(self)@) {
                assert forall|x: int, y: int| 0 <= x < y < nv.len() implies (#[trigger] nv[x]).addr
                    != (#[trigger] nv[y]).addr by {
                    if y == nv.len() - 1 {
                        assert(nv[y].addr == addr@);
                        assert(nv[x] == old(self)@[x]);
                        assert(old(self)@[x].addr != addr@);
                    } else {
                        assert(nv[x] == old(self)@[x]);
                        assert(nv[y] == old(self)@[y]);
                    }
                }
            }
        }
    }

    /// The interface name bound to an address, when one is.
    pub fn lookup(&self, addr: &String) -> (r: Option<String>)
        ensures
            (r is Some <==> lookup_spec(self@, addr@) is Some),
            r matches Some(n) ==> lookup_spec(self@, addr@) == Some(n@),
    {
        let count = self.entries.len();
        let mut j: usize = 0;
        while j < count
            invariant
                j <= count,
                count == self.entries@.len(),
                forall|k: int| 0 <= k < j ==> (#[trigger] self@[k]).addr != addr@,
            decreases count - j,
        {
            if self.entries[j].addr == *addr {
                proof {
                    lemma_lookup_skip(self@, addr@, j as int);
                    assert(self@.skip(j as int)[0] == self@[j as int]);
                }
                return Some(clone_string(&self.entries[j].name));
            }
            j = j + 1;
        }
        proof {
            lemma_lookup_skip(self@, addr@, count as int);
            assert(self@.skip(count as int) =~= Seq::<EntryModel>::empty());
        }
        None
    }

    /// The address a worker-reported interface name resolves back to, when
    /// one does.
    pub fn reverse_lookup(&self, name: &String) -> (r: Option<String>)
        ensures
            (r is Some <==> rev_lookup_spec(self@, name@) is Some),
            r matches Some(a) ==> rev_lookup_spec(self@, name@) == Some(a@),
    {
        let count = self.entries.len();
        let mut j: usize = 0;
        while j < count
            invariant
                j <= count,
                count == self.entries@.len(),
                forall|k: int| 0 <= k < j ==> (#[trigger] self@[k]).name != name@,
            decreases count - j,
    {
            if self.entries[j].name == *name {
                proof {
                    lemma_rev_lookup_skip(self@, name@, j as int);
                    assert(self@.skip(j as int)[0] == self@[j as int]);
                }
                return Some(clone_string(&self.entries[j].addr));
            }
            j = j + 1;
        }
        proof {
            lemma_rev_lookup_skip(self@, name@, count as int);
            assert(self@.skip(count as int) =~= Seq::<EntryModel>::empty());
        }
        None
    }

    /// Whether the index resolved nothing, the degraded-start state.
    pub fn is_empty(&self) -> (r: bool)
        ensures
            r == (self@.len() == 0),
    {
        self.entries.len() == 0
    }

    /// How many addresses the index binds.
    pub fn len(&self) -> (r: usize)
        ensures
            r == self@.len(),
    {
        self.entries.len()
    }
}

/// One live worker process, keyed by the interface address it watches.
pub struct WorkerEntry {
    pub addr: String,
    pub handle: u64,
}

/// Model of a worker table entry.
pub struct WorkerModel {
    pub addr: Seq<char>,
    pub handle: u64,
}

impl View for WorkerEntry {
    type V = WorkerModel;

    open spec fn view(&self) -> WorkerModel {
        WorkerModel { addr: self.addr@, handle: self.handle }
    }
}

/// Whether the table holds a worker for the address.
pub open spec fn table_contains(t: Seq<WorkerModel>, addr: Seq<char>) -> bool {
    exists|i: int| 0 <= i < t.len() && (#[trigger] t[i]).addr == addr
}

/// At most one live worker per address.
pub open spec fn table_wf(t: Seq<WorkerModel>) -> bool {
    forall|i: int, j: int|
        0 <= i < j < t.len() ==> (#[trigger] t[i]).addr != (#[trigger] t[j]).addr
}

/// The handle registered for an address: that of the first entry for it.
pub open spec fn handle_spec(t: Seq<WorkerModel>, addr: Seq<char>) -> Option<u64>
    decreases t.len(),
{
    if t.len() == 0 {
        None
    } else if t[0].addr == addr {
        Some(t[0].handle)
    } else {
        handle_spec(t.drop_first(), addr)
    }
}

/// The table after a termination: the first entry for the address is gone.
pub open spec fn remove_addr_spec(t: Seq<WorkerModel>, addr: Seq<char>) -> Seq<WorkerModel>
    decreases t.len(),
{
    if t.len() == 0 {
        t
    } else if t[0].addr == addr {
        t.drop_first()
    } else {
        seq![t[0]] + remove_addr_spec(t.drop_first(), addr)
    }
}

proof fn lemma_handle_skip(t: Seq<WorkerModel>, addr: Seq<char>, j: int)
    requires
        0 <= j <= t.len(),
        forall|k: int| 0 <= k < j ==> (#[trigger] t[k]).addr != addr,
    ensures
        handle_spec(t, addr) == handle_spec(t.skip(j), addr),
        remove_addr_spec(t, addr) == t.take(j) + remove_addr_spec(t.skip(j), addr),
    decreases j,
{
    if j > 0 {
        lemma_handle_skip(t.drop_first(), addr, j - 1);
        assert(forall|k: int| 0 <= k < j - 1 ==> (#[trigger] t.drop_first()[k]).addr != addr);
        assert(t.drop_first().skip(j - 1) =~= t.skip(j));
        assert(t.drop_first().take(j - 1) =~= t.take(j).drop_first());
        assert(seq![t[0]] + (t.take(j).drop_first() + remove_addr_spec(t.skip(j), addr)) =~= t.take(
            j,
        ) + remove_addr_spec(t.skip(j), addr));
    } else {
        assert(t.skip(0) =~= t);
        assert(t.take(0) + remove_addr_spec(t, addr) =~= remove_addr_spec(t, addr));
    }
}

/// The supervisor's table of live workers: at most one per address, each
/// entry owned from successful spawn to explicit termination.
pub struct WorkerTable {
    entries: Vec<WorkerEntry>,
}

impl View for WorkerTable {
    type V = Seq<WorkerModel>;

    closed spec fn view(&self) -> Seq<WorkerModel> {
        models(self.entries@)
    }
}

impl WorkerTable {
    /// A table with no live worker.
    pub fn new() -> (r: Self)
        ensures
            r@ == Seq::<WorkerModel>::empty(),
            table_wf(r@),
    {
        let r = WorkerTable { entries: Vec::new() };
        proof {
            assert(models(r.entries@) =~= Seq::<WorkerModel>::empty());
        }
        r
    }

    /// Whether a worker is registered for the address.
    pub fn contains(&self, addr: &String) -> (r: bool)
        ensures
            r == table_contains(self@, addr@),
    {
        let n = self.entries.len();
        let mut j: usize = 0;
        while j < n
            invariant
                j <= n,
                n == self.entries@.len(),
                forall|k: int| 0 <= k < j ==> (#[trigger] self@[k]).addr != addr@,
            decreases n - j,
        {
            if self.entries[j].addr == *addr {
                proof {
                    assert((self@[j as int]).addr == addr@);
                }
                return true;
            }
            j = j + 1;
        }
        false
    }

    /// Registers a freshly spawned worker. An address transitions only
    /// absent, spawned, terminated, absent, so it must not be present.
    pub fn register(&mut self, addr: String, handle: u64)
        requires
            !table_contains(old(self)@, addr@),
        ensures
            final(self)@ == old(self)@.push(WorkerModel { addr: addr@, handle }),
            table_wf(old(self)@) ==> table_wf(final(self)@),
    {
        let ghost e0 = self.entries@;
        self.entries.push(WorkerEntry { addr, handle });
        proof {
            assert forall|i: int| 0 <= i < models(self.entries@).len() implies models(
                self.entries@,
            )[i] == old(self)@.push(WorkerModel { addr: addr@, handle })[i] by {
                if i < e0.len() {
                    assert(self.entries@[i] == e0[i]);
                }
            }
            assert(models(self.entries@) =~= old(self)@.push(WorkerModel { addr: addr@, handle }));
            let nv = models(self.entries@);
            if table_wf(old(self)@) {
                assert forall|x: int, y: int| 0 <= x < y < nv.len() implies (#[trigger] nv[x]).addr
                    != (#[trigger] nv[y]).addr by {
                    if y == nv.len() - 1 {
                        assert(nv[y].addr == addr@);
                        assert(nv[x] == old(self)@[x]);
                    } else {
                        assert(nv[x] == old(self)@[x]);
                        assert(nv[y] == old(self)@[y]);
                    }
                }
            }
        }
    }

    /// Removes the worker for an address and hands back its handle so the
    /// caller can terminate the process; `None` when none was registered.
    pub fn remove(&mut self, addr: &String) -> (r: Option<u64>)
        ensures
            final(self)@ == remove_addr_spec(old(self)@, addr@),
            r == handle_spec(old(self)@, addr@),
            table_wf(old(self)@) ==> table_wf(final(self)@),
            table_wf(old(self)@) ==> !table_contains(final(self)@, addr@),
    {
        let n = self.entries.len();
        let ghost ents0 = self.entries@;
        let mut j: usize = 0;
        while j < n
            invariant
                j <= n,
                n == self.entries@.len(),
                self.entries@ == ents0,
                self@ == old(self)@,
                forall|k: int| 0 <= k < j ==> (#[trigger] self@[k]).addr != addr@,
            decreases n - j,
        {
            if self.entries[j].addr == *addr {
                proof {
                    lemma_handle_skip(self@, addr@, j as int);
                    assert(self@.skip(j as int)[0] == self@[j as int]);
                }
                let e = self.entries.remove(j);
                proof {
                    let t = old(self)@;
                    assert forall|i: int| 0 <= i < models(self.entries@).len() implies models(
                        self.entries@,
                    )[i] == (t.take(j as int) + t.skip(j as int).drop_first())[i] by {
                        assert(self.entries@[i] == ents0.remove(j as int)[i]);
                        if i < j {
                            assert(ents0.remove(j as int)[i] == ents0[i]);
                        } else {
                            assert(ents0.remove(j as int)[i] == ents0[i + 1]);
                            assert((t.take(j as int) + t.skip(j as int).drop_first())[i] == t[i
                                + 1]);
                        }
                    }
                    assert(models(self.entries@) =~= t.take(j as int) + t.skip(
                        j as int,
                    ).drop_first());
                    assert(remove_addr_spec(t.skip(j as int), addr@) == t.skip(
                        j as int,
                    ).drop_first());
                    let nv = models(self.entries@);
                    assert forall|i: int| 0 <= i < nv.len() implies #[trigger] nv[i] == (if i < j
                        as int {
                        t[i]
                    } else {
                        t[i + 1]
                    }) by {
                        assert(nv[i] == (t.take(j as int) + t.skip(j as int).drop_first())[i]);
                    }
                    if table_wf(t) {
                        assert(t[j as int].addr == addr@);
                        assert forall|x: int, y: int| 0 <= x < y < nv.len() implies (
                        #[trigger] nv[x]).addr != (#[trigger] nv[y]).addr by {
                            let x2: int = if x < j as int {
                                x
                            } else {
                                x + 1
                            };
                            let y2: int = if y < j as int {
                                y
                            } else {
                                y + 1
                            };
                            assert(nv[x] == t[x2] && nv[y] == t[y2]);
                            assert(t[x2].addr != t[y2].addr);
                        }
                        assert forall|i: int| 0 <= i < nv.len() implies (#[trigger] nv[i]).addr
                            != addr@ by {
                            let i2: int = if i < j as int {
                                i
                            } else {
                                i + 1
                            };
                            assert(nv[i] == t[i2]);
                            if i2 < j as int {
                                assert(t[i2].addr != t[j as int].addr);
                            } else {
                                assert(t[j as int].addr != t[i2].addr);
                            }
                        }
                        assert(!table_contains(nv, addr@));
                    }
                }
                return Some(e.handle);
            }
            j = j + 1;
        }
        proof {
            lemma_handle_skip(self@, addr@, n as int);
            assert(self@.skip(n as int) =~= Seq::<WorkerModel>::empty());
            assert(self@.take(n as int) =~= self@);
            assert(remove_addr_spec(old(self)@, addr@) =~= self@);
        }
        None
    }

    /// The handle registered for an address, when one is.
    pub fn handle_of(&self, addr: &String) -> (r: Option<u64>)
        ensures
            r == handle_spec(self@, addr@),
    {
        let n = self.entries.len();
        let mut j: usize = 0;
        while j < n
            invariant
                j <= n,
                n == self.entries@.len(),
                forall|k: int| 0 <= k < j ==> (#[trigger] self@[k]).addr != addr@,
            decreases n - j,
        {
            if self.entries[j].addr == *addr {
                proof {
                    lemma_handle_skip(self@, addr@, j as int);
                    assert(self@.skip(j as int)[0] == self@[j as int]);
                }
                return Some(self.entries[j].handle);
            }
            j = j + 1;
        }
        proof {
            lemma_handle_skip(self@, addr@, n as int);
            assert(self@.skip(n as int) =~= Seq::<WorkerModel>::empty());
        }
        None
    }

    /// How many workers are live.
    pub fn len(&self) -> (r: usize)
        ensures
            r == self@.len(),
    {
        self.entries.len()
    }
}

/// The character sequences of a vector of address strings.
pub open spec fn addr_views(v: Seq<String>) -> Seq<Seq<char>> {
    v.map_values(|s: String| s@)
}

/// Whether a pass must start a worker for an address: it newly appeared
/// and its interface name is resolvable.
pub open spec fn spawn_needed(prev: Seq<Seq<char>>, idx: Seq<EntryModel>, a: Seq<char>) -> bool {
    !prev.contains(a) && lookup_spec(idx, a) is Some
}

/// The name an address resolves to, where it resolves.
pub open spec fn resolved_name(idx: Seq<EntryModel>, a: Seq<char>) -> Seq<char> {
    match lookup_spec(idx, a) {
        Some(n) => n,
        None => Seq::empty(),
    }
}

/// The spawn half of a reconciliation pass: for each current address in
/// order, one spawn when it newly appeared and resolves; an unresolvable
/// newcomer is skipped.
pub open spec fn spawn_spec(
    prev: Seq<Seq<char>>,
    cur: Seq<Seq<char>>,
    idx: Seq<EntryModel>,
) -> Seq<EntryModel>
    decreases cur.len(),
{
    if cur.len() == 0 {
        Seq::empty()
    } else {
        spawn_spec(prev, cur.drop_last(), idx) + (if spawn_needed(prev, idx, cur.last()) {
            seq![EntryModel { addr: cur.last(), name: resolved_name(idx, cur.last()) }]
        } else {
            Seq::empty()
        })
    }
}

/// The termination half of a reconciliation pass: each previous address
/// absent from the current set, in order.
pub open spec fn kill_spec(prev: Seq<Seq<char>>, cur: Seq<Seq<char>>) -> Seq<Seq<char>>
    decreases prev.len(),
{
    if prev.len() == 0 {
        Seq::empty()
    } else {
        kill_spec(prev.drop_last(), cur) + (if !cur.contains(prev.last()) {
            seq![prev.last()]
        } else {
            Seq::empty()
        })
    }
}

/// What one reconciliation pass must do: the workers to start, with their
/// resolved interface names, and the addresses whose workers to stop.
pub struct ReconcilePlan {
    pub spawns: Vec<IndexEntry>,
    pub kills: Vec<String>,
}

pub(crate) fn contains_addr(v: &Vec<String>, s: &String) -> (r: bool)
    ensures
        r == addr_views(v@).contains(s@),
{
    let n = v.len();
    let mut j: usize = 0;
    while j < n
        invariant
            j <= n,
            n == v@.len(),
            forall|k: int| 0 <= k < j ==> addr_views(v@)[k] != s@,
        decreases n - j,
    {
        if v[j] == *s {
            proof {
                assert(addr_views(v@)[j as int] == s@);
            }
            return true;
        }
        j = j + 1;
    }
    proof {
        assert forall|k: int| 0 <= k < addr_views(v@).len() implies addr_views(v@)[k] != s@ by {}
    }
    false
}

/// Computes the pure set-difference of one reconciliation pass: spawns for
/// resolvable newcomers in `current`, terminations for addresses of
/// `previous` that disappeared.
pub fn plan_reconcile(previous: &Vec<String>, current: &Vec<String>, index: &NameIndex) -> (r:
    ReconcilePlan)
    ensures
        models(r.spawns@) == spawn_spec(addr_views(previous@), addr_views(current@), index@),
        addr_views(r.kills@) == kill_spec(addr_views(previous@), addr_views(current@)),
{
    let ghost prevv: Seq<Seq<char>> = addr_views(previous@);
    let ghost curv: Seq<Seq<char>> = addr_views(current@);
    let mut spawns: Vec<IndexEntry> = Vec::new();
    let n = current.len();
    let mut i: usize = 0;
    proof {
        assert(curv.take(0) =~= Seq::<Seq<char>>::empty());
        assert(models(spawns@) =~= spawn_spec(prevv, curv.take(0), index@));
    }
    while i < n
        invariant
            i <= n,
            n == current@.len(),
            curv == addr_views(current@),
            prevv == addr_views(previous@),
            models(spawns@) =~= spawn_spec(prevv, curv.take(i as int), index@),
        decreases n - i,
    {
        let ghost s0 = spawns@;
        let addr = &current[i];
        proof {
            assert(curv.take(i as int + 1).drop_last() =~= curv.take(i as int));
            assert(curv.take(i as int + 1).last() == curv[i as int]);
            assert(curv[i as int] == addr@);
        }
        if !contains_addr(previous, addr) {
            match index.lookup(addr) {
                Some(name) => {
                    let entry = IndexEntry { addr: clone_string(addr), name };
                    spawns.push(entry);
                    proof {
                        assert(spawn_needed(prevv, index@, addr@));
                        assert forall|t: int| 0 <= t < models(spawns@).len() implies models(
                            spawns@,
                        )[t] == spawn_spec(prevv, curv.take(i as int + 1), index@)[t] by {
                            if t < s0.len() {
                                assert(spawns@[t] == s0[t]);
                            }
                        }
                        assert(models(spawns@) =~= spawn_spec(
                            prevv,
                            curv.take(i as int + 1),
                            index@,
                        ));
                    }
                },
                None => {
                    proof {
                        assert(!spawn_needed(prevv, index@, addr@));
                        assert(models(spawns@) =~= spawn_spec(
                            prevv,
                            curv.take(i as int + 1),
                            index@,
                        ));
                    }
                },
            }
        } else {
            proof {
                assert(!spawn_needed(prevv, index@, addr@));
                assert(models(spawns@) =~= spawn_spec(prevv, curv.take(i as int + 1), index@));
            }
        }
        i = i + 1;
    }
    proof {
        assert(curv.take(n as int) =~= curv);
    }
    let mut kills: Vec<String> = Vec::new();
    let m = previous.len();
    let mut p: usize = 0;
    proof {
        assert(prevv.take(0) =~= Seq::<Seq<char>>::empty());
        assert(addr_views(kills@) =~= kill_spec(prevv.take(0), curv));
    }
    while p < m
        invariant
            p <= m,
            m == previous@.len(),
            curv == addr_views(current@),
            prevv == addr_views(previous@),
            models(spawns@) =~= spawn_spec(prevv, curv, index@),
            addr_views(kills@) =~= kill_spec(prevv.take(p as int), curv),
        decreases m - p,
    {
        let ghost k0 = kills@;
        let addr = &previous[p];
        proof {
            assert(prevv.take(p as int + 1).drop_last() =~= prevv.take(p as int));
            assert(prevv.take(p as int + 1).last() == prevv[p as int]);
            assert(prevv[p as int] == addr@);
        }
        if !contains_addr(current, addr) {
            kills.push(clone_string(addr));
            proof {
                assert forall|t: int| 0 <= t < addr_views(kills@).len() implies addr_views(
                    kills@,
                )[t] == kill_spec(prevv.take(p as int + 1), curv)[t] by {
                    if t < k0.len() {
                        assert(kills@[t] == k0[t]);
                    }
                }
                assert(addr_views(kills@) =~= kill_spec(prevv.take(p as int + 1), curv));
            }
        } else {
            proof {
                assert(addr_views(kills@) =~= kill_spec(prevv.take(p as int + 1), curv));
            }
        }
        p = p + 1;
    }
    proof {
        assert(prevv.take(m as int) =~= prevv);
    }
    ReconcilePlan { spawns, kills }
}

/// The IPv4 addresses a snapshot carries, in record order: the current
/// address set that one reconciliation pass diffs against the previous
/// one.
pub open spec fn snapshot_addrs(rs: Seq<RecordModel>) -> Seq<Seq<char>>
    decreases rs.len(),
{
    if rs.len() == 0 {
        Seq::empty()
    } else {
        snapshot_addrs(rs.drop_last()) + (match rs.last().ip.ipv4 {
            Some(a) => seq![a],
            None => Seq::empty(),
        })
    }
}

/// Collects the addresses of the records that carry one: the current
/// address set of a reconciliation pass.
pub fn active_addresses(records: &Vec<NetworkInfo>) -> (r: Vec<String>)
    ensures
        addr_views(r@) == snapshot_addrs(models(records@)),
{
    let ghost ms: Seq<RecordModel> = models(records@);
    let mut r: Vec<String> = Vec::new();
    let n = records.len();
    let mut i: usize = 0;
    proof {
        assert(ms.take(0) =~= Seq::<RecordModel>::empty());
        assert(addr_views(r@) =~= snapshot_addrs(ms.take(0)));
    }
    while i < n
        invariant
            i <= n,
            n == records@.len(),
            ms == models(records@),
            addr_views(r@) =~= snapshot_addrs(ms.take(i as int)),
        decreases n - i,
    {
        proof {
            assert(ms.take(i as int + 1).drop_last() =~= ms.take(i as int));
            assert(ms.take(i as int + 1).last() == ms[i as int]);
        }
        let ghost r0 = r@;
        match &records[i].ip_info.ipv4 {
            Some(a) => {
                r.push(clone_string(a));
                proof {
                    assert forall|t: int| 0 <= t < addr_views(r@).len() implies addr_views(r@)[t]
                        == snapshot_addrs(ms.take(i as int + 1))[t] by {
                        if t < r0.len() {
                            assert(r@[t] == r0[t]);
                        }
                    }
                    assert(addr_views(r@) =~= snapshot_addrs(ms.take(i as int + 1)));
                }
            },
            None => {
                proof {
                    assert(addr_views(r@) =~= snapshot_addrs(ms.take(i as int + 1)));
                }
            },
        }
        i = i + 1;
    }
    proof {
        assert(ms.take(n as int) =~= ms);
    }
    r
}

/// The worker lifecycle across three passes whose address sets are {a},
/// then {a, b}, then {b}: the first pass starts only a's worker, the second
/// starts only b's and stops none, the third starts none and stops only
/// a's, and the table that registered a then b and then removed a holds
/// exactly b's handle.
pub proof fn lemma_worker_lifecycle(
    a: Seq<char>,
    b: Seq<char>,
    idx: Seq<EntryModel>,
    ha: u64,
    hb: u64,
)
    requires
        a != b,
        lookup_spec(idx, a) is Some,
        lookup_spec(idx, b) is Some,
    ensures
        spawn_spec(Seq::<Seq<char>>::empty(), seq![a], idx) == seq![
            EntryModel { addr: a, name: resolved_name(idx, a) },
        ],
        kill_spec(Seq::<Seq<char>>::empty(), seq![a]) == Seq::<Seq<char>>::empty(),
        spawn_spec(seq![a], seq![a, b], idx) == seq![
            EntryModel { addr: b, name: resolved_name(idx, b) },
        ],
        kill_spec(seq![a], seq![a, b]) == Seq::<Seq<char>>::empty(),
        spawn_spec(seq![a, b], seq![b], idx) == Seq::<EntryModel>::empty(),
        kill_spec(seq![a, b], seq![b]) == seq![a],
        remove_addr_spec(
            Seq::<WorkerModel>::empty().push(WorkerModel { addr: a, handle: ha }).push(
                WorkerModel { addr: b, handle: hb },
            ),
            a,
        ) == seq![WorkerModel { addr: b, handle: hb }],
{
    let e: Seq<Seq<char>> = Seq::empty();
    let sa = seq![a];
    let sab = seq![a, b];
    let sb = seq![b];
    assert(sa[0] == a);
    assert(sab[0] == a);
    assert(sab[1] == b);
    assert(sb[0] == b);
    assert(!e.contains(a));
    assert(!sa.contains(b));
    assert(sa.contains(a));
    assert(sab.contains(a));
    assert(sab.contains(b));
    assert(!sb.contains(a));

    assert(sa.drop_last() =~= e);
    assert(spawn_spec(e, e, idx) == Seq::<EntryModel>::empty());
    assert(spawn_spec(e, sa, idx) =~= seq![EntryModel { addr: a, name: resolved_name(idx, a) }]);
    assert(kill_spec(e, sa) == Seq::<Seq<char>>::empty());

    assert(sab.drop_last() =~= sa);
    assert(sab.last() == b);
    assert(spawn_spec(sa, sa, idx) =~= Seq::<EntryModel>::empty()) by {
        assert(sa.drop_last() =~= e);
        assert(sa.last() == a);
        assert(!spawn_needed(sa, idx, a));
        assert(spawn_spec(sa, e, idx) == Seq::<EntryModel>::empty());
    }
    assert(spawn_spec(sa, sab, idx) =~= seq![EntryModel { addr: b, name: resolved_name(idx, b) }]);
    assert(kill_spec(sa, sab) =~= Seq::<Seq<char>>::empty()) by {
        assert(sa.drop_last() =~= e);
        assert(sa.last() == a);
        assert(kill_spec(e, sab) == Seq::<Seq<char>>::empty());
    }

    assert(sb.drop_last() =~= e);
    assert(sb.last() == b);
    assert(spawn_spec(sab, sb, idx) =~= Seq::<EntryModel>::empty()) by {
        assert(!spawn_needed(sab, idx, b));
        assert(sb.drop_last() =~= e);
        assert(sb.last() == b);
        assert(spawn_spec(sab, e, idx) == Seq::<EntryModel>::empty());
    }
    assert(kill_spec(sab, sb) =~= seq![a]) by {
        assert(sab.drop_last() =~= sa);
        assert(sab.last() == b);
        assert(sb.contains(b));
        assert(kill_spec(sa, sb) =~= seq![a]) by {
            assert(sa.drop_last() =~= e);
            assert(sa.last() == a);
            assert(kill_spec(e, sb) == Seq::<Seq<char>>::empty());
        }
    }

    let wa = WorkerModel { addr: a, handle: ha };
    let wb = WorkerModel { addr: b, handle: hb };
    let t = Seq::<WorkerModel>::empty().push(wa).push(wb);
    assert(t[0] == wa);
    assert(t.drop_first() =~= seq![wb]);
    assert(remove_addr_spec(t, a) == t.drop_first());
    assert(remove_addr_spec(t, a) =~= seq![wb]);
}

} // verus!
