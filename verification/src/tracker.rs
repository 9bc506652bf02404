use vstd::prelude::*;
use std::collections::HashMap;
use std::collections::HashSet;
use tokio::sync::mpsc::Sender;
use crate::service::{fresh_service, OptsView, RunExit, Service, ServiceOpts, ServiceSignal, ServiceView, SimpleService, SimpleView, Status, exit_status};
use crate::reader::{has_name, position_of, names_distinct, opts_view_seq, OptsMap};

verus! {

broadcast use vstd::std_specs::hash::group_hash_axioms;

/// Why a registry operation was refused.
#[derive(Debug)]
pub enum TrackerError {
    /// A service of this name is already registered.
    AlreadyRegistered(String),
    /// No service of this name is registered.
    NotRegistered(String),
    /// A service waits for this service, which is not registered.
    ParentNotRegistered(String),
    /// This registered service is missing from the watched services.
    NotTracked(String),
    /// This registered service is missing from the dependency graph.
    NotInGraph(String),
    /// This service has no stop channel: it was not started, or was stopped.
    NoSender(String),
}

/// Abstract form of a registry error.
pub enum TrackerErrorView {
    AlreadyRegistered(Seq<char>),
    NotRegistered(Seq<char>),
    ParentNotRegistered(Seq<char>),
    NotTracked(Seq<char>),
    NotInGraph(Seq<char>),
    NoSender(Seq<char>),
}

impl View for TrackerError {
    type V = TrackerErrorView;

    open spec fn view(&self) -> TrackerErrorView {
        match self {
            TrackerError::AlreadyRegistered(n) => TrackerErrorView::AlreadyRegistered(n@),
            TrackerError::NotRegistered(n) => TrackerErrorView::NotRegistered(n@),
            TrackerError::ParentNotRegistered(n) => TrackerErrorView::ParentNotRegistered(n@),
            TrackerError::NotTracked(n) => TrackerErrorView::NotTracked(n@),
            TrackerError::NotInGraph(n) => TrackerErrorView::NotInGraph(n@),
            TrackerError::NoSender(n) => TrackerErrorView::NoSender(n@),
        }
    }
}

/// One registered name and the id of its service.
#[derive(Debug)]
struct NameEntry {
    name: String,
    id: u64,
}

spec fn entry_has_name(s: Seq<NameEntry>, n: Seq<char>) -> bool {
    exists|i: int| 0 <= i < s.len() && s[i].name@ == n
}

spec fn names_map(s: Seq<NameEntry>) -> Map<Seq<char>, u64> {
    Map::new(
        |n: Seq<char>| entry_has_name(s, n),
        |n: Seq<char>| s[choose|i: int| 0 <= i < s.len() && s[i].name@ == n].id,
    )
}

spec fn entry_names_distinct(s: Seq<NameEntry>) -> bool {
    forall|i: int, j: int|
        0 <= i < s.len() && 0 <= j < s.len() && i != j ==> s[i].name@ != s[j].name@
}

proof fn lemma_names_map_lookup(s: Seq<NameEntry>, i: int)
    requires
        entry_names_distinct(s),
        0 <= i < s.len(),
    ensures
        names_map(s).contains_key(s[i].name@),
        names_map(s)[s[i].name@] == s[i].id,
{
    let n = s[i].name@;
    assert(entry_has_name(s, n));
    let j = choose|j: int| 0 <= j < s.len() && s[j].name@ == n;
    assert(j == i);
}

proof fn lemma_names_map_push(s: Seq<NameEntry>, e: NameEntry)
    requires
        entry_names_distinct(s),
        !names_map(s).contains_key(e.name@),
    ensures
        entry_names_distinct(s.push(e)),
        names_map(s.push(e)) =~= names_map(s).insert(e.name@, e.id),
{
    let t = s.push(e);
    assert forall|i: int, j: int| 0 <= i < t.len() && 0 <= j < t.len() && i != j implies t[i].name@ != t[j].name@ by {
        if i < s.len() && j < s.len() {
        } else if i == s.len() {
            assert(!entry_has_name(s, e.name@));
            assert(t[j] == s[j]);
        } else {
            assert(!entry_has_name(s, e.name@));
            assert(t[i] == s[i]);
        }
    }
    assert forall|n: Seq<char>| #[trigger] names_map(t).contains_key(n) == names_map(s).insert(e.name@, e.id).contains_key(n) by {
        if entry_has_name(t, n) {
            let i = choose|i: int| 0 <= i < t.len() && t[i].name@ == n;
            if i < s.len() {
                assert(s[i] == t[i]);
                assert(entry_has_name(s, n));
            }
        }
        if entry_has_name(s, n) {
            let i = choose|i: int| 0 <= i < s.len() && s[i].name@ == n;
            assert(t[i] == s[i]);
            assert(entry_has_name(t, n));
        }
        if n == e.name@ {
            assert(t[s.len() as int] == e);
            assert(entry_has_name(t, n));
        }
    }
    assert forall|n: Seq<char>| #[trigger] names_map(t).contains_key(n) implies names_map(t)[n] == names_map(s).insert(e.name@, e.id)[n] by {
        let i = choose|i: int| 0 <= i < t.len() && t[i].name@ == n;
        lemma_names_map_lookup(t, i);
        if i < s.len() {
            assert(t[i] == s[i]);
            lemma_names_map_lookup(s, i);
        }
    }
}

proof fn lemma_names_map_remove(s: Seq<NameEntry>, i: int)
    requires
        entry_names_distinct(s),
        0 <= i < s.len(),
    ensures
        entry_names_distinct(s.remove(i)),
        names_map(s.remove(i)) =~= names_map(s).remove(s[i].name@),
{
    let t = s.remove(i);
    let gone = s[i].name@;
    assert forall|a: int, b: int| 0 <= a < t.len() && 0 <= b < t.len() && a != b implies t[a].name@ != t[b].name@ by {
        let a2 = if a < i { a } else { a + 1 };
        let b2 = if b < i { b } else { b + 1 };
        assert(t[a] == s[a2]);
        assert(t[b] == s[b2]);
    }
    assert forall|n: Seq<char>| #[trigger] names_map(t).contains_key(n) == names_map(s).remove(gone).contains_key(n) by {
        if entry_has_name(t, n) {
            let a = choose|a: int| 0 <= a < t.len() && t[a].name@ == n;
            let a2 = if a < i { a } else { a + 1 };
            assert(t[a] == s[a2]);
            assert(entry_has_name(s, n));
        }
        if entry_has_name(s, n) && n != gone {
            let a = choose|a: int| 0 <= a < s.len() && s[a].name@ == n;
            assert(a != i);
            let a2 = if a < i { a } else { a - 1 };
            assert(t[a2] == s[a]);
            assert(entry_has_name(t, n));
        }
    }
    assert forall|n: Seq<char>| #[trigger] names_map(t).contains_key(n) implies names_map(t)[n] == names_map(s).remove(gone)[n] by {
        let a = choose|a: int| 0 <= a < t.len() && t[a].name@ == n;
        lemma_names_map_lookup(t, a);
        let a2 = if a < i { a } else { a + 1 };
        assert(t[a] == s[a2]);
        lemma_names_map_lookup(s, a2);
    }
}

/// Abstract form of the registry of watched services.
pub struct TrackerView {
    /// The watched services, by id.
    pub services: Map<u64, ServiceView>,
    /// For each watched service, the ids of the services that wait for it.
    pub graph: Map<u64, Set<u64>>,
    /// The ids of the services that hold a stop channel.
    pub senders: Set<u64>,
    /// The ids of the services that reported healthy since they were last started.
    pub reported: Set<u64>,
    /// The id of each registered name.
    pub ids: Map<Seq<char>, u64>,
    /// The id that the next registered service gets.
    pub next_id: u64,
}

/// Definition `i` of a batch waits, at position `j` of its list, for a service that the
/// batch does not define.
pub open spec fn batch_missing(opts: Seq<OptsView>, i: int, j: int) -> bool {
    &&& 0 <= i < opts.len()
    &&& 0 <= j < opts[i].after.len()
    &&& !has_name(opts, opts[i].after[j])
}

/// Every service that a definition of the batch waits for is defined in the batch.
pub open spec fn batch_complete(opts: Seq<OptsView>) -> bool {
    forall|i: int, j: int| !#[trigger] batch_missing(opts, i, j)
}

/// The first missing dependency of a batch, in the order of definitions, then of their lists.
pub open spec fn first_batch_missing(opts: Seq<OptsView>) -> (int, int) {
    choose|p: (int, int)|
        batch_missing(opts, p.0, p.1) && forall|i: int, j: int|
            (i < p.0 || (i == p.0 && j < p.1)) ==> !#[trigger] batch_missing(opts, i, j)
}

/// Why registering a batch is refused, if it is.
pub open spec fn batch_error(opts: Seq<OptsView>) -> Option<TrackerErrorView> {
    if batch_complete(opts) {
        None
    } else {
        let p = first_batch_missing(opts);
        Some(TrackerErrorView::ParentNotRegistered(opts[p.0].after[p.1]))
    }
}

/// In a batch whose definitions get the ids `base`, `base + 1`, ..., the ids of the
/// definitions that wait for definition `k - base`.
pub open spec fn batch_children(opts: Seq<OptsView>, base: u64, k: u64) -> Set<u64> {
    Set::new(|c: u64| base <= c < base + opts.len() && opts[c - base].after.contains(opts[k - base].name))
}

/// The dependents of definition `k - base` found once definitions before `i`, and the
/// first `j` entries of the list of definition `i`, have been linked.
spec fn edges_upto(o: Seq<OptsView>, base: u64, i: int, j: int, k: u64) -> Set<u64> {
    Set::new(
        |c: u64|
            base <= c < base + o.len() && ((c - base < i && o[c - base].after.contains(o[k - base].name)) || (
            c - base == i && exists|j2: int| 0 <= j2 < j && o[i].after[j2] == o[k - base].name)),
    )
}

/// Registering a complete batch of new names keeps the registry consistent.
proof fn lemma_batch_added_well_formed(t: TrackerView, o: Seq<OptsView>)
    requires
        t.well_formed(),
        names_distinct(o),
        t.next_id + o.len() <= u64::MAX,
        forall|m: int| 0 <= m < o.len() ==> !t.ids.contains_key(#[trigger] o[m].name),
    ensures
        t.batch_added(o).well_formed(),
{
    let a = t.batch_added(o);
    let base = t.next_id;
    let n = o.len();
    assert forall|k: u64| #[trigger] a.services.contains_key(k) implies {
        &&& a.services[k].id == k
        &&& k < a.next_id
        &&& a.ids.contains_key(a.services[k].opts.name)
        &&& a.ids[a.services[k].opts.name] == k
    } by {
        if base <= k < base + n {
            let nm = o[k - base].name;
            assert(has_name(o, nm));
            let p = position_of(o, nm);
            assert(p == k - base);
        } else {
            let nm = t.services[k].opts.name;
            assert(t.ids.contains_key(nm));
            if has_name(o, nm) {
                let p = position_of(o, nm);
                assert(!t.ids.contains_key(o[p].name));
            }
        }
    }
    assert forall|nm: Seq<char>| #[trigger] a.ids.contains_key(nm) implies {
        &&& a.services.contains_key(a.ids[nm])
        &&& a.services[a.ids[nm]].opts.name == nm
    } by {
        if has_name(o, nm) {
            let p = position_of(o, nm);
            assert(a.ids[nm] == base + p);
        } else {
            assert(t.ids.contains_key(nm));
            assert(t.services.contains_key(t.ids[nm]));
        }
    }
    assert(a.graph.dom() =~= a.services.dom());
    assert forall|k: u64, c: u64| #[trigger] a.graph.contains_key(k) && #[trigger] a.graph[k].contains(c)
        implies a.services.contains_key(c) by {
        if !(base <= k < base + n) {
            assert(t.graph.contains_key(k));
        }
    }
}

/// Replacing a service's run-time state keeps the registry consistent.
proof fn lemma_with_service_well_formed(t: TrackerView, id: u64, s: ServiceView)
    requires
        t.well_formed(),
        t.services.contains_key(id),
        s.id == id,
        s.opts.name == t.services[id].opts.name,
    ensures
        t.with_service(id, s).well_formed(),
{
    let a = t.with_service(id, s);
    assert(a.services.dom() =~= t.services.dom());
    assert(a.graph.dom() =~= a.services.dom());
}

impl TrackerView {
    /// The registry's own consistency: names and ids agree, the graph, the stop channels
    /// and the healthy reports only mention watched services, and ids are handed out in
    /// increasing order.
    pub open spec fn well_formed(self) -> bool {
        &&& self.next_id >= 1
        &&& forall|k: u64| #[trigger] self.services.contains_key(k) ==> {
            &&& self.services[k].id == k
            &&& k < self.next_id
            &&& self.ids.contains_key(self.services[k].opts.name)
            &&& self.ids[self.services[k].opts.name] == k
        }
        &&& forall|n: Seq<char>| #[trigger] self.ids.contains_key(n) ==> {
            &&& self.services.contains_key(self.ids[n])
            &&& self.services[self.ids[n]].opts.name == n
        }
        &&& self.graph.dom() == self.services.dom()
        &&& forall|k: u64, c: u64| #[trigger] self.graph.contains_key(k) && #[trigger] self.graph[k].contains(c)
            ==> self.services.contains_key(c)
        &&& self.senders.subset_of(self.services.dom())
        &&& self.reported.subset_of(self.services.dom())
    }

    pub open spec fn registered(self, name: Seq<char>) -> bool {
        self.ids.contains_key(name)
    }

    /// The registered service of this name.
    pub open spec fn service(self, name: Seq<char>) -> ServiceView {
        self.services[self.ids[name]]
    }

    /// Every service that `o` waits for is registered.
    pub open spec fn parents_registered(self, o: OptsView) -> bool {
        forall|i: int| 0 <= i < o.after.len() ==> self.ids.contains_key(#[trigger] o.after[i])
    }

    /// The position in `o.after` of the first service that is not registered.
    pub open spec fn first_missing_parent(self, o: OptsView) -> int {
        choose|i: int|
            0 <= i < o.after.len() && !self.ids.contains_key(o.after[i]) && forall|j: int|
                0 <= j < i ==> self.ids.contains_key(#[trigger] o.after[j])
    }

    /// Why registering `o` is refused, if it is: its name is taken, or a service it
    /// waits for is not registered (the first such in `o.after`).
    pub open spec fn add_error(self, o: OptsView) -> Option<TrackerErrorView> {
        if self.ids.contains_key(o.name) {
            Some(TrackerErrorView::AlreadyRegistered(o.name))
        } else if !self.parents_registered(o) {
            Some(TrackerErrorView::ParentNotRegistered(o.after[self.first_missing_parent(o)]))
        } else {
            None
        }
    }

    /// The registry after a batch of definitions was registered: the definitions get
    /// consecutive ids in order, and each is a dependent of the batch's services it waits for.
    pub open spec fn batch_added(self, opts: Seq<OptsView>) -> TrackerView {
        let base = self.next_id;
        let n = opts.len();
        TrackerView {
            services: self.services.union_prefer_right(
                Map::new(|k: u64| base <= k < base + n, |k: u64| fresh_service(k, opts[k - base])),
            ),
            graph: self.graph.union_prefer_right(
                Map::new(|k: u64| base <= k < base + n, |k: u64| batch_children(opts, base, k)),
            ),
            senders: self.senders,
            reported: self.reported,
            ids: self.ids.union_prefer_right(
                Map::new(|nm: Seq<char>| has_name(opts, nm), |nm: Seq<char>| (base + position_of(opts, nm)) as u64),
            ),
            next_id: (base + n) as u64,
        }
    }

    /// The registry after the service registered as `name` was removed: it leaves the
    /// services, the names, the stop channels, the record of healthy reports and the
    /// dependency graph, also as a dependent.
    pub open spec fn removed(self, name: Seq<char>) -> TrackerView {
        let id = self.ids[name];
        TrackerView {
            services: self.services.remove(id),
            graph: self.graph.remove(id).map_values(|s: Set<u64>| s.remove(id)),
            senders: self.senders.remove(id),
            reported: self.reported.remove(id),
            ids: self.ids.remove(name),
            next_id: self.next_id,
        }
    }

    /// The ids of the services that wait for the service registered as `name`.
    pub open spec fn children(self, name: Seq<char>) -> Set<u64> {
        self.graph[self.ids[name]]
    }

    /// The registry with the service of id `id` replaced by `s`.
    pub open spec fn with_service(self, id: u64, s: ServiceView) -> TrackerView {
        TrackerView { services: self.services.insert(id, s), ..self }
    }

    /// The summaries of all services, in the order given by `ks`, a listing of their ids.
    pub open spec fn listing(self, ks: Seq<u64>) -> Seq<SimpleView> {
        ks.map_values(|k: u64| self.services[k].simplified())
    }

    /// `ks` lists every service id exactly once.
    pub open spec fn lists_all(self, ks: Seq<u64>) -> bool {
        ks.no_duplicates() && ks.to_set() == self.services.dom()
    }

    /// The ids of the services that `o` waits for.
    pub open spec fn parent_ids(self, o: OptsView) -> Set<u64> {
        Set::new(|p: u64| exists|i: int| 0 <= i < o.after.len() && self.ids[o.after[i]] == p)
    }

    /// The registry after `o` was registered: it gets the next id, no dependents of its
    /// own, and becomes a dependent of each service it waits for.
    pub open spec fn added(self, o: OptsView) -> TrackerView {
        let id = self.next_id;
        let parents = self.parent_ids(o);
        TrackerView {
            services: self.services.insert(id, fresh_service(id, o)),
            graph: Map::new(
                |k: u64| self.graph.contains_key(k) || k == id,
                |k: u64|
                    if k == id {
                        Set::empty()
                    } else if parents.contains(k) {
                        self.graph[k].insert(id)
                    } else {
                        self.graph[k]
                    },
            ),
            senders: self.senders,
            reported: self.reported,
            ids: self.ids.insert(o.name, id),
            next_id: (id + 1) as u64,
        }
    }
}

/// The registry of watched services: their definitions and state, the dependency graph
/// between them, and the stop channels of the running ones.
pub struct Tracker {
    services: HashMap<u64, Service>,
    graph: HashMap<u64, HashSet<u64>>,
    senders: HashMap<u64, Sender<ServiceSignal>>,
    reported: HashSet<u64>,
    id_map: Vec<NameEntry>,
    id: u64,
}

impl View for Tracker {
    type V = TrackerView;

    closed spec fn view(&self) -> TrackerView {
        TrackerView {
            services: self.services@.map_values(|s: Service| s@),
            graph: self.graph@.map_values(|s: HashSet<u64>| s@),
            senders: self.senders@.dom(),
            reported: self.reported@,
            ids: names_map(self.id_map@),
            next_id: self.id,
        }
    }
}

/// Every stop channel held both before and after, by a service not in `changed`, is the same.
pub open spec fn channels_kept(
    before: Map<u64, Sender<ServiceSignal>>,
    after: Map<u64, Sender<ServiceSignal>>,
    changed: Set<u64>,
) -> bool {
    forall|k: u64| #[trigger] after.contains_key(k) && before.contains_key(k) && !changed.contains(k)
        ==> after[k] == before[k]
}

impl Tracker {
    pub closed spec fn names_unique(&self) -> bool {
        entry_names_distinct(self.id_map@)
    }

    /// The stop channel that each service holding one keeps, by id.
    pub closed spec fn stop_channels(&self) -> Map<u64, Sender<ServiceSignal>> {
        self.senders@
    }

    /// The registry is consistent, and its view lists exactly the services that hold a
    /// stop channel.
    pub open spec fn wf(&self) -> bool {
        &&& self.names_unique()
        &&& self@.well_formed()
        &&& self@.senders == self.stop_channels().dom()
    }

    pub fn new() -> (res: Tracker)
        ensures
            res.wf(),
            res@.services == Map::<u64, ServiceView>::empty(),
            res@.graph == Map::<u64, Set<u64>>::empty(),
            res@.senders == Set::<u64>::empty(),
            res@.reported == Set::<u64>::empty(),
            res@.ids == Map::<Seq<char>, u64>::empty(),
            res@.next_id == 1,
            res.stop_channels() == Map::<u64, Sender<ServiceSignal>>::empty(),
    {
        let res = Tracker {
            services: HashMap::new(),
            graph: HashMap::new(),
            senders: HashMap::new(),
            reported: HashSet::new(),
            id: 1,
            id_map: Vec::new(),
        };
        assert(res@.services =~= Map::<u64, ServiceView>::empty());
        assert(res@.graph =~= Map::<u64, Set<u64>>::empty());
        assert(res@.senders =~= Set::<u64>::empty());
        assert(res@.reported =~= Set::<u64>::empty());
        assert(res@.ids =~= Map::<Seq<char>, u64>::empty());
        assert(res.stop_channels() =~= Map::<u64, Sender<ServiceSignal>>::empty());
        res
    }

    /// The id that the next registered service gets.
    pub fn next_id(&self) -> (res: u64)
        ensures
            res == self@.next_id,
    {
        self.id
    }

    /// The id of the service registered under `name`, if any.
    fn find_id(&self, name: &String) -> (res: Option<u64>)
        requires
            self.names_unique(),
        ensures
            res matches Some(id) ==> self@.ids.contains_key(name@) && self@.ids[name@] == id,
            res is None ==> !self@.ids.contains_key(name@),
    {
        match self.find_index(name) {
            Some(i) => Some(self.id_map[i].id),
            None => None,
        }
    }


    /// Facts about the name list that follow from the registry's consistency.
    proof fn lemma_entries(&self)
        requires
            self.wf(),
        ensures
            forall|i: int| 0 <= i < self.id_map@.len() ==> {
                &&& self@.ids.contains_key(#[trigger] self.id_map@[i].name@)
                &&& self@.ids[self.id_map@[i].name@] == self.id_map@[i].id
                &&& self@.services.contains_key(self.id_map@[i].id)
            },
            forall|k: u64| #[trigger] self@.services.contains_key(k) ==> exists|i: int|
                0 <= i < self.id_map@.len() && self.id_map@[i].id == k,
            forall|i: int, j: int| 0 <= i < self.id_map@.len() && 0 <= j < self.id_map@.len() && i != j
                ==> self.id_map@[i].id != self.id_map@[j].id,
    {
        let s = self.id_map@;
        assert forall|i: int| 0 <= i < s.len() implies {
            &&& self@.ids.contains_key(#[trigger] s[i].name@)
            &&& self@.ids[s[i].name@] == s[i].id
            &&& self@.services.contains_key(s[i].id)
        } by {
            lemma_names_map_lookup(s, i);
        }
        assert forall|k: u64| #[trigger] self@.services.contains_key(k) implies exists|i: int|
            0 <= i < s.len() && s[i].id == k by {
            let n = self@.services[k].opts.name;
            assert(self@.ids.contains_key(n));
            assert(entry_has_name(s, n));
            let i = choose|i: int| 0 <= i < s.len() && s[i].name@ == n;
            lemma_names_map_lookup(s, i);
        }
        assert forall|i: int, j: int| 0 <= i < s.len() && 0 <= j < s.len() && i != j implies s[i].id != s[j].id by {
            lemma_names_map_lookup(s, i);
            lemma_names_map_lookup(s, j);
        }
    }

    /// The position in the name list of the service registered under `name`, if any.
    fn find_index(&self, name: &String) -> (res: Option<usize>)
        requires
            self.names_unique(),
        ensures
            res matches Some(i) ==> i < self.id_map@.len() && self.id_map@[i as int].name@ == name@
                && self@.ids.contains_key(name@) && self@.ids[name@] == self.id_map@[i as int].id,
            res is None ==> !self@.ids.contains_key(name@),
    {
        let mut i: usize = 0;
        while i < self.id_map.len()
            invariant
                i <= self.id_map@.len(),
                entry_names_distinct(self.id_map@),
                forall|j: int| 0 <= j < i ==> self.id_map@[j].name@ != name@,
            decreases self.id_map@.len() - i,
        {
            if self.id_map[i].name == *name {
                proof {
                    lemma_names_map_lookup(self.id_map@, i as int);
                }
                return Some(i);
            }
            i = i + 1;
        }
        proof {
            if entry_has_name(self.id_map@, name@) {
                let j = choose|j: int| 0 <= j < self.id_map@.len() && self.id_map@[j].name@ == name@;
                assert(self.id_map@[j].name@ != name@);
            }
        }
        None
    }

    /// Unregisters the service named `service_name`: it leaves the services, the names,
    /// the stop channels, the record of healthy reports and the dependency graph.
    #[verifier::spinoff_prover]
    pub fn remove(&mut self, service_name: &str) -> (res: Result<(), TrackerError>)
        requires
            old(self).wf(),
        ensures
            final(self).wf(),
            old(self)@.registered(service_name@) ==> final(self).stop_channels()
                == old(self).stop_channels().remove(old(self)@.ids[service_name@]),
            !old(self)@.registered(service_name@) ==> final(self).stop_channels() == old(self).stop_channels(),
            !old(self)@.registered(service_name@) ==> (res matches Err(e)
                && e@ == TrackerErrorView::NotRegistered(service_name@) && final(self)@ == old(self)@),
            old(self)@.registered(service_name@) ==> res is Ok && final(self)@ == old(self)@.removed(service_name@),
    {
        let ghost old_view = self@;
        let name = service_name.to_owned();
        let idx = match self.find_index(&name) {
            Some(i) => i,
            None => return Err(TrackerError::NotRegistered(name)),
        };
        proof {
            self.lemma_entries();
        }
        let id = self.id_map[idx].id;
        self.services.remove(&id);
        self.graph.remove(&id);
        self.senders.remove(&id);
        self.reported.remove(&id);
        let ghost old_entries = self.id_map@;
        proof {
            lemma_names_map_remove(self.id_map@, idx as int);
        }
        self.id_map.remove(idx);
        let ghost new_view = old_view.removed(name@);
        assert(self@.services =~= new_view.services);
        assert(self@.senders =~= new_view.senders);
        assert(self@.reported =~= new_view.reported);
        assert(self@.ids =~= new_view.ids);
        assert(self.graph@.dom() =~= new_view.graph.dom());
        assert(forall|i: int| 0 <= i < self.id_map@.len() ==> #[trigger] self.id_map@[i] == old_entries[
            if i < idx { i } else { i + 1 }]);
        let mut i: usize = 0;
        while i < self.id_map.len()
            invariant
                self.senders@ == old(self).senders@.remove(id),
                self.reported@ == old(self).reported@.remove(id),
                i <= self.id_map@.len(),
                self.names_unique(),
                old_view.well_formed(),
                old_view.ids.contains_key(name@),
                id == old_view.ids[name@],
                new_view == old_view.removed(name@),
                self@.services == new_view.services,
                self@.senders == new_view.senders,
                self@.reported == new_view.reported,
                self@.ids == new_view.ids,
                self@.next_id == new_view.next_id,
                self.graph@.dom() == new_view.graph.dom(),
                self.id_map@.len() == old_entries.len() - 1,
                forall|m: int| 0 <= m < self.id_map@.len() ==> #[trigger] self.id_map@[m] == old_entries[
                    if m < idx { m } else { m + 1 }],
                forall|m: int| 0 <= m < old_entries.len() ==> old_view.services.contains_key(#[trigger] old_entries[m].id),
                forall|m1: int, m2: int| 0 <= m1 < old_entries.len() && 0 <= m2 < old_entries.len() && m1 != m2
                    ==> old_entries[m1].id != old_entries[m2].id,
                old_entries[idx as int].id == id,
                idx < old_entries.len(),
                forall|k: u64| #[trigger] new_view.graph.contains_key(k) ==> self.graph@[k]@ == (
                    if (exists|m: int| 0 <= m < i && self.id_map@[m].id == k) { new_view.graph[k] }
                    else { old_view.graph[k] }),
            decreases self.id_map@.len() - i,
        {
            let k = self.id_map[i].id;
            proof {
                let m = if i < idx { i as int } else { i + 1 };
                assert(self.id_map@[i as int] == old_entries[m]);
                assert(old_view.services.contains_key(k));
                assert(m != idx);
                assert(k != id);
                assert(new_view.graph.contains_key(k));
            }
            let ghost es = self.id_map@;
            let ghost prev = self.graph@;
            assert(forall|k2: u64| #[trigger] new_view.graph.contains_key(k2) ==> prev[k2]@ == (
                if (exists|m: int| 0 <= m < i && es[m].id == k2) { new_view.graph[k2] }
                else { old_view.graph[k2] }));
            let ghost was_done = exists|m: int| 0 <= m < i && es[m].id == k;
            proof {
                if was_done {
                    let m = choose|m: int| 0 <= m < i && es[m].id == k;
                    let m1 = if m < idx { m } else { m + 1 };
                    let m2 = if i < idx { i as int } else { i + 1 };
                    assert(es[m] == old_entries[m1]);
                    assert(es[i as int] == old_entries[m2]);
                    assert(m1 != m2);
                }
                assert(!was_done);
                assert(prev[k]@ == old_view.graph[k]);
            }
            let mut set = self.graph.remove(&k).unwrap();
            set.remove(&id);
            self.graph.insert(k, set);
            proof {
                assert(self.id_map@ == es);
                assert(self.graph@ =~= prev.insert(k, self.graph@[k]));
                assert(self.graph@[k]@ == old_view.graph[k].remove(id));
                assert(new_view.graph[k] == old_view.graph[k].remove(id));
                assert forall|k2: u64| #[trigger] new_view.graph.contains_key(k2) implies self.graph@[k2]@ == (
                    if (exists|m: int| 0 <= m < i + 1 && es[m].id == k2) { new_view.graph[k2] }
                    else { old_view.graph[k2] }) by {
                    if k2 == k {
                        assert(es[i as int].id == k2);
                    } else {
                        assert(self.graph@[k2] == prev[k2]);
                        assert(prev[k2]@ == (
                            if (exists|m: int| 0 <= m < i && es[m].id == k2) { new_view.graph[k2] }
                            else { old_view.graph[k2] }));
                        if exists|m: int| 0 <= m < i + 1 && es[m].id == k2 {
                            let m = choose|m: int| 0 <= m < i + 1 && es[m].id == k2;
                            assert(m < i);
                            assert(exists|m: int| 0 <= m < i && es[m].id == k2);
                        } else {
                            assert(!exists|m: int| 0 <= m < i && es[m].id == k2);
                        }
                    }
                }
            }
            i = i + 1;
        }
        proof {
            assert forall|k: u64| #[trigger] new_view.graph.contains_key(k) implies
                exists|m: int| 0 <= m < self.id_map@.len() && self.id_map@[m].id == k by {
                assert(old_view.services.contains_key(k));
                let n = old_view.services[k].opts.name;
                assert(old_view.ids.contains_key(n));
                assert(n != name@);
                assert(self@.ids.contains_key(n));
                assert(entry_has_name(self.id_map@, n));
                let m = choose|m: int| 0 <= m < self.id_map@.len() && self.id_map@[m].name@ == n;
                lemma_names_map_lookup(self.id_map@, m);
            }
            assert(self@.graph =~= new_view.graph);
            assert(self@.well_formed()) by {
                assert(self@.graph.dom() =~= self@.services.dom());
                assert forall|n: Seq<char>| #[trigger] self@.ids.contains_key(n) implies {
                    &&& self@.services.contains_key(self@.ids[n])
                    &&& self@.services[self@.ids[n]].opts.name == n
                } by {
                    assert(old_view.ids.contains_key(n));
                    assert(old_view.ids[n] != id);
                }
                assert forall|k: u64, c: u64| #[trigger] self@.graph.contains_key(k) && #[trigger] self@.graph[k].contains(c)
                    implies self@.services.contains_key(c) by {
                    assert(old_view.graph.contains_key(k));
                    assert(old_view.graph[k].contains(c));
                }
            }
        }
        Ok(())
    }

    /// The service registered as `service_name`.
    pub fn get_service(&self, service_name: &str) -> (res: Result<Service, TrackerError>)
        requires
            self.wf(),
        ensures
            self@.registered(service_name@) ==> (res matches Ok(s) && s@ == self@.service(service_name@)),
            !self@.registered(service_name@) ==> (res matches Err(e)
                && e@ == TrackerErrorView::NotRegistered(service_name@)),
    {
        let name = service_name.to_owned();
        let id = match self.find_id(&name) {
            Some(id) => id,
            None => return Err(TrackerError::NotRegistered(name)),
        };
        match self.services.get(&id) {
            Some(service) => Ok(service.clone()),
            None => Err(TrackerError::NotTracked(name)),
        }
    }

    /// The services that wait for the service registered as `service_name`, one each.
    #[verifier::spinoff_prover]
    pub fn get_children(&self, service_name: &str) -> (res: Result<Vec<Service>, TrackerError>)
        requires
            self.wf(),
        ensures
            self@.registered(service_name@) ==> (res matches Ok(v) && {
                &&& v@.map_values(|s: Service| s@.id).no_duplicates()
                &&& v@.map_values(|s: Service| s@.id).to_set() == self@.children(service_name@)
                &&& forall|i: int| 0 <= i < v@.len() ==> #[trigger] v@[i]@ == self@.services[v@[i]@.id]
            }),
            !self@.registered(service_name@) ==> (res matches Err(e)
                && e@ == TrackerErrorView::NotRegistered(service_name@)),
    {
        let name = service_name.to_owned();
        let id = match self.find_id(&name) {
            Some(id) => id,
            None => return Err(TrackerError::NotRegistered(name)),
        };
        let set = match self.graph.get(&id) {
            Some(set) => set,
            None => return Err(TrackerError::NotInGraph(name)),
        };
        proof {
            self.lemma_entries();
        }
        let ghost kids = self@.children(name@);
        assert(set@ == kids);
        let mut children: Vec<Service> = Vec::new();
        let mut i: usize = 0;
        while i < self.id_map.len()
            invariant
                i <= self.id_map@.len(),
                self.wf(),
                set@ == kids,
                kids == self@.graph[id],
                self@.graph.contains_key(id),
                forall|m: int| 0 <= m < self.id_map@.len() ==> self@.services.contains_key(#[trigger] self.id_map@[m].id),
                forall|m1: int, m2: int| 0 <= m1 < self.id_map@.len() && 0 <= m2 < self.id_map@.len() && m1 != m2
                    ==> self.id_map@[m1].id != self.id_map@[m2].id,
                children@.map_values(|s: Service| s@.id).no_duplicates(),
                children@.map_values(|s: Service| s@.id).to_set() == kids.filter(
                    |c: u64| exists|m: int| 0 <= m < i && self.id_map@[m].id == c),
                forall|j: int| 0 <= j < children@.len() ==> #[trigger] children@[j]@ == self@.services[children@[j]@.id],
                forall|j: int| 0 <= j < children@.len() ==> exists|m: int| 0 <= m < i && self.id_map@[m].id == #[trigger] children@[j]@.id,
            decreases self.id_map@.len() - i,
        {
            let k = self.id_map[i].id;
            let ghost before = children@.map_values(|s: Service| s@.id);
            if set.contains(&k) {
                let child = self.services.get(&k).unwrap();
                children.push(child.clone());
                proof {
                    let after = children@.map_values(|s: Service| s@.id);
                    assert(after =~= before.push(k));
                    assert forall|j: int| 0 <= j < before.len() implies before[j] != k by {
                        let m = choose|m: int| 0 <= m < i && self.id_map@[m].id == children@[j]@.id;
                        assert(children@[j]@.id == before[j]);
                    }
                    assert(after.to_set() =~= kids.filter(|c: u64| exists|m: int| 0 <= m < i + 1 && self.id_map@[m].id == c)) by {
                        assert forall|c: u64| after.to_set().contains(c) implies kids.filter(|c: u64| exists|m: int| 0 <= m < i + 1 && self.id_map@[m].id == c).contains(c) by {
                            if c != k {
                                assert(before.to_set().contains(c)) by {
                                    let j = choose|j: int| 0 <= j < after.len() && after[j] == c;
                                    assert(j < before.len());
                                    assert(before[j] == c);
                                }
                            }
                        }
                        assert forall|c: u64| kids.filter(|c: u64| exists|m: int| 0 <= m < i + 1 && self.id_map@[m].id == c).contains(c) implies after.to_set().contains(c) by {
                            if c != k {
                                let m = choose|m: int| 0 <= m < i + 1 && self.id_map@[m].id == c;
                                assert(m < i);
                                assert(before.to_set().contains(c));
                                let j = choose|j: int| 0 <= j < before.len() && before[j] == c;
                                assert(after[j] == c);
                            } else {
                                assert(after[before.len() as int] == c);
                            }
                        }
                    }
                    assert forall|j: int| 0 <= j < children@.len() implies exists|m: int| 0 <= m < i + 1 && self.id_map@[m].id == #[trigger] children@[j]@.id by {
                        if j < before.len() {
                            let m = choose|m: int| 0 <= m < i && self.id_map@[m].id == children@[j]@.id;
                        } else {
                            assert(self.id_map@[i as int].id == children@[j]@.id);
                        }
                    }
                }
            } else {
                proof {
                    assert(before.to_set() =~= kids.filter(|c: u64| exists|m: int| 0 <= m < i + 1 && self.id_map@[m].id == c)) by {
                        assert forall|c: u64| kids.filter(|c: u64| exists|m: int| 0 <= m < i + 1 && self.id_map@[m].id == c).contains(c) implies before.to_set().contains(c) by {
                            let m = choose|m: int| 0 <= m < i + 1 && self.id_map@[m].id == c;
                            if m == i {
                                assert(kids.contains(k));
                            }
                        }
                    }
                    assert forall|j: int| 0 <= j < children@.len() implies exists|m: int| 0 <= m < i + 1 && self.id_map@[m].id == #[trigger] children@[j]@.id by {
                        let m = choose|m: int| 0 <= m < i && self.id_map@[m].id == children@[j]@.id;
                    }
                }
            }
            i = i + 1;
        }
        proof {
            assert(kids.filter(|c: u64| exists|m: int| 0 <= m < self.id_map@.len() && self.id_map@[m].id == c) =~= kids) by {
                assert forall|c: u64| kids.contains(c) implies exists|m: int| 0 <= m < self.id_map@.len() && self.id_map@[m].id == c by {
                    assert(self@.graph.contains_key(id) && self@.graph[id].contains(c));
                    assert(self@.services.contains_key(c));
                }
            }
        }
        Ok(children)
    }

    /// The stop channel of the service registered as `service_name`.
    pub fn get_sender<'a>(&'a self, service_name: &str) -> (res: Result<&'a Sender<ServiceSignal>, TrackerError>)
        requires
            self.wf(),
        ensures
            !self@.registered(service_name@) ==> (res matches Err(e)
                && e@ == TrackerErrorView::NotRegistered(service_name@)),
            self@.registered(service_name@) && !self@.senders.contains(self@.ids[service_name@]) ==> (res matches Err(e)
                && e@ == TrackerErrorView::NoSender(service_name@)),
            self@.registered(service_name@) && self@.senders.contains(self@.ids[service_name@]) ==> (res matches Ok(s)
                && *s == self.stop_channels()[self@.ids[service_name@]]),
    {
        let name = service_name.to_owned();
        let id = match self.find_id(&name) {
            Some(id) => id,
            None => return Err(TrackerError::NotRegistered(name)),
        };
        match self.senders.get(&id) {
            Some(sender) => Ok(sender),
            None => Err(TrackerError::NoSender(name)),
        }
    }

    /// Keeps `sender` as the stop channel of the service registered as `service_name`,
    /// which has just been started: no healthy report counts for it since.
    pub fn insert_sender(&mut self, service_name: &str, sender: Sender<ServiceSignal>) -> (res: Result<(), TrackerError>)
        requires
            old(self).wf(),
        ensures
            final(self).wf(),
            old(self)@.registered(service_name@) ==> final(self).stop_channels()
                == old(self).stop_channels().insert(old(self)@.ids[service_name@], sender),
            !old(self)@.registered(service_name@) ==> final(self).stop_channels() == old(self).stop_channels(),
            !old(self)@.registered(service_name@) ==> (res matches Err(e)
                && e@ == TrackerErrorView::NotRegistered(service_name@) && final(self)@ == old(self)@),
            old(self)@.registered(service_name@) ==> res is Ok && final(self)@ == (TrackerView {
                senders: old(self)@.senders.insert(old(self)@.ids[service_name@]),
                reported: old(self)@.reported.remove(old(self)@.ids[service_name@]),
                ..old(self)@
            }),
    {
        let name = service_name.to_owned();
        let id = match self.find_id(&name) {
            Some(id) => id,
            None => return Err(TrackerError::NotRegistered(name)),
        };
        self.senders.insert(id, sender);
        self.reported.remove(&id);
        assert(self@.senders =~= old(self)@.senders.insert(id));
        assert(self@.reported =~= old(self)@.reported.remove(id));
        Ok(())
    }

    /// Drops the stop channel of the service registered as `service_name`.
    pub fn remove_sender(&mut self, service_name: &str) -> (res: Result<(), TrackerError>)
        requires
            old(self).wf(),
        ensures
            final(self).wf(),
            old(self)@.registered(service_name@) ==> final(self).stop_channels()
                == old(self).stop_channels().remove(old(self)@.ids[service_name@]),
            !old(self)@.registered(service_name@) ==> final(self).stop_channels() == old(self).stop_channels(),
            !old(self)@.registered(service_name@) ==> (res matches Err(e)
                && e@ == TrackerErrorView::NotRegistered(service_name@) && final(self)@ == old(self)@),
            old(self)@.registered(service_name@) ==> res is Ok && final(self)@ == (TrackerView {
                senders: old(self)@.senders.remove(old(self)@.ids[service_name@]),
                ..old(self)@
            }),
    {
        let name = service_name.to_owned();
        let id = match self.find_id(&name) {
            Some(id) => id,
            None => return Err(TrackerError::NotRegistered(name)),
        };
        self.senders.remove(&id);
        assert(self@.senders =~= old(self)@.senders.remove(id));
        Ok(())
    }

    /// Registers a batch of definitions at once, as done when the manager starts: each
    /// service is a dependent of the services it waits for. A batch in which a definition
    /// waits for a service the batch does not define is refused, whatever the registry
    /// holds; a complete batch must bring names that are not registered yet.
    #[verifier::spinoff_prover]
    pub fn batch_add(&mut self, opts_map: &OptsMap) -> (res: Result<(), TrackerError>)
        requires
            old(self).wf(),
            opts_map.wf(),
            batch_complete(opts_map@) ==> old(self)@.next_id + opts_map@.len() <= u64::MAX,
            batch_complete(opts_map@) ==> forall|m: int| 0 <= m < opts_map@.len()
                ==> !old(self)@.ids.contains_key(#[trigger] opts_map@[m].name),
        ensures
            final(self).wf(),
            final(self).stop_channels() == old(self).stop_channels(),
            match batch_error(opts_map@) {
                Some(e) => (res matches Err(x) && x@ == e && final(self)@ == old(self)@),
                None => res is Ok && final(self)@ == old(self)@.batch_added(opts_map@),
            },
    {
        let ghost o = opts_map@;
        let ghost old_view = self@;
        let entries = opts_map.entries();
        let n = entries.len();
        for i in 0..n
            invariant
                self.senders@ == old(self).senders@,
                self.reported@ == old(self).reported@,
                n == o.len(),
                opts_view_seq(entries@) == o,
                names_distinct(o),
                self@ == old_view,
                self.wf(),
                o == opts_map@,
                forall|i2: int, j2: int| i2 < i ==> !#[trigger] batch_missing(o, i2, j2),
        {
            let after = &entries[i].after;
            assert(o[i as int] == entries@[i as int]@);
            for j in 0..after.len()
                invariant
                    self.senders@ == old(self).senders@,
                    self.reported@ == old(self).reported@,
                    i < n,
                    n == o.len(),
                    opts_view_seq(entries@) == o,
                    names_distinct(o),
                    self@ == old_view,
                    self.wf(),
                    o == opts_map@,
                    after@.len() == o[i as int].after.len(),
                    forall|m: int| 0 <= m < after@.len() ==> #[trigger] after@[m]@ == o[i as int].after[m],
                    forall|i2: int, j2: int| (i2 < i || (i2 == i && j2 < j)) ==> !#[trigger] batch_missing(o, i2, j2),
            {
                assert(after@[j as int]@ == o[i as int].after[j as int]);
                if !opts_map.contains_key(&after[j]) {
                    proof {
                        assert(batch_missing(o, i as int, j as int));
                        assert(!batch_complete(o));
                        let w = (i as int, j as int);
                        assert(batch_missing(o, w.0, w.1) && forall|i2: int, j2: int|
                            (i2 < w.0 || (i2 == w.0 && j2 < w.1)) ==> !#[trigger] batch_missing(o, i2, j2));
                        let p = first_batch_missing(o);
                        if p.0 > i || (p.0 == i && p.1 > j) {
                            assert(!batch_missing(o, i as int, j as int));
                        }
                        assert(p == (i as int, j as int));
                    }
                    return Err(TrackerError::ParentNotRegistered(after[j].clone()));
                }
            }
            proof {
                assert forall|i2: int, j2: int| i2 < i + 1 implies !#[trigger] batch_missing(o, i2, j2) by {
                    if i2 == i && j2 >= after@.len() {
                    }
                }
            }
        }
        assert(batch_complete(o));
        let base = self.id;
        for i in 0..n
            invariant
                self.senders@ == old(self).senders@,
                self.reported@ == old(self).reported@,
                n == o.len(),
                opts_view_seq(entries@) == o,
                names_distinct(o),
                old_view.well_formed(),
                base == old_view.next_id,
                base + n <= u64::MAX,
                forall|m: int| 0 <= m < o.len() ==> !old_view.ids.contains_key(#[trigger] o[m].name),
                self.names_unique(),
                self@.next_id == base + i,
                self@.senders == old_view.senders,
                self@.services == old_view.services.union_prefer_right(
                    Map::new(|k: u64| base <= k < base + i, |k: u64| fresh_service(k, o[k - base]))),
                self@.graph == old_view.graph.union_prefer_right(
                    Map::new(|k: u64| base <= k < base + i, |k: u64| Set::<u64>::empty())),
                self@.ids == old_view.ids.union_prefer_right(
                    Map::new(|nm: Seq<char>| exists|m: int| 0 <= m < i && o[m].name == nm,
                        |nm: Seq<char>| (base + position_of(o, nm)) as u64)),
        {
            assert(o[i as int] == entries@[i as int]@);
            let service = self.new_service(entries[i].clone());
            let id = service.id;
            let ghost sv = service@;
            let ghost prev_services = self.services@;
            let ghost prev_graph = self.graph@;
            assert(sv == fresh_service((base + i) as u64, o[i as int]));
            let entry = NameEntry { name: service.opts.name.clone(), id };
            proof {
                assert(entry.name@ == o[i as int].name);
                assert(!old_view.ids.contains_key(o[i as int].name));
                assert(!(exists|m: int| 0 <= m < i && o[m].name == o[i as int].name)) by {
                    if exists|m: int| 0 <= m < i && o[m].name == o[i as int].name {
                        let m = choose|m: int| 0 <= m < i && o[m].name == o[i as int].name;
                        assert(m != i);
                        assert(o[m].name != o[i as int].name);
                    }
                }
                assert(!self@.ids.contains_key(entry.name@));
                assert(names_map(self.id_map@) == self@.ids);
                lemma_names_map_push(self.id_map@, entry);
            }
            self.id_map.push(entry);
            self.services.insert(id, service);
            self.graph.insert(id, HashSet::new());
            proof {
                assert(self.services@ == prev_services.insert(id, self.services@[id]));
                assert(self@.services =~= prev_services.map_values(|s: Service| s@).insert(id, sv));
                assert(self@.graph =~= prev_graph.map_values(|s: HashSet<u64>| s@).insert(id, Set::<u64>::empty()));
                assert(self@.services =~= old_view.services.union_prefer_right(
                    Map::new(|k: u64| base <= k < base + i + 1, |k: u64| fresh_service(k, o[k - base]))));
                assert(self@.graph =~= old_view.graph.union_prefer_right(
                    Map::new(|k: u64| base <= k < base + i + 1, |k: u64| Set::<u64>::empty())));
                assert(has_name(o, o[i as int].name));
                assert(position_of(o, o[i as int].name) == i);
                assert(self@.ids =~= old_view.ids.union_prefer_right(
                    Map::new(|nm: Seq<char>| exists|m: int| 0 <= m < i + 1 && o[m].name == nm,
                        |nm: Seq<char>| (base + position_of(o, nm)) as u64)));
            }
        }
        let ghost target = old_view.batch_added(o);
        assert(self@.services =~= target.services);
        assert(self@.ids =~= target.ids);
        assert forall|k: u64| base <= k < base + n implies #[trigger] edges_upto(o, base, 0, 0, k) == Set::<u64>::empty() by {
            assert(edges_upto(o, base, 0, 0, k) =~= Set::<u64>::empty());
        }
        assert(self@.graph =~= old_view.graph.union_prefer_right(
            Map::new(|k: u64| base <= k < base + n, |k: u64| edges_upto(o, base, 0, 0, k))));
        for i in 0..n
            invariant
                self.senders@ == old(self).senders@,
                self.reported@ == old(self).reported@,
                n == o.len(),
                opts_view_seq(entries@) == o,
                names_distinct(o),
                base == old_view.next_id,
                base + n <= u64::MAX,
                target == old_view.batch_added(o),
                old_view.well_formed(),
                self.names_unique(),
                self@.services == target.services,
                self@.ids == target.ids,
                self@.senders == target.senders,
                self@.next_id == target.next_id,
                batch_complete(o),
                self@.graph == old_view.graph.union_prefer_right(
                    Map::new(|k: u64| base <= k < base + n, |k: u64| edges_upto(o, base, i as int, 0, k))),
        {
            let name = &entries[i].name;
            assert(o[i as int] == entries@[i as int]@);
            assert(has_name(o, o[i as int].name));
            assert(position_of(o, o[i as int].name) == i);
            if let Some(sid) = self.find_id(name) {
                assert(sid == base + i);
                let after = &entries[i].after;
                for j in 0..after.len()
                    invariant
                        self.senders@ == old(self).senders@,
                        self.reported@ == old(self).reported@,
                        i < n,
                        n == o.len(),
                        sid == base + i,
                        names_distinct(o),
                        base + n <= u64::MAX,
                        self.names_unique(),
                        self@.ids == target.ids,
                        target.ids == old_view.ids.union_prefer_right(
                            Map::new(|nm: Seq<char>| has_name(o, nm), |nm: Seq<char>| (base + position_of(o, nm)) as u64)),
                        self@.services == target.services,
                        self@.senders == target.senders,
                        self@.next_id == target.next_id,
                        batch_complete(o),
                        after@.len() == o[i as int].after.len(),
                        forall|m: int| 0 <= m < after@.len() ==> #[trigger] after@[m]@ == o[i as int].after[m],
                        self@.graph == old_view.graph.union_prefer_right(
                            Map::new(|k: u64| base <= k < base + n, |k: u64| edges_upto(o, base, i as int, j as int, k))),
                {
                    let ghost parent = o[i as int].after[j as int];
                    assert(!batch_missing(o, i as int, j as int));
                    let ghost p = position_of(o, parent);
                    assert(o[p].name == parent);
                    if let Some(pid) = self.find_id(&after[j]) {
                        assert(pid == base + p);
                        let ghost prev = self@.graph;
                        assert(prev.contains_key(pid));
                        assert(prev[pid] == edges_upto(o, base, i as int, j as int, pid));
                        if let Some(mut set) = self.graph.remove(&pid) {
                            set.insert(sid);
                            self.graph.insert(pid, set);
                            proof {
                                assert(self@.graph =~= prev.insert(pid, prev[pid].insert(sid)));
                                assert(edges_upto(o, base, i as int, j + 1, pid) =~= edges_upto(o, base, i as int, j as int, pid).insert(sid)) by {
                                    assert(o[pid - base].name == parent);
                                    assert forall|c: u64| #[trigger] edges_upto(o, base, i as int, j + 1, pid).contains(c)
                                        == edges_upto(o, base, i as int, j as int, pid).insert(sid).contains(c) by {
                                        if c == sid {
                                            assert(o[i as int].after[j as int] == o[pid - base].name);
                                        } else if c - base == i {
                                            assert(c == sid);
                                        }
                                    }
                                }
                                assert forall|k: u64| base <= k < base + n && k != pid implies #[trigger] edges_upto(o, base, i as int, j + 1, k)
                                    == edges_upto(o, base, i as int, j as int, k) by {
                                    assert(o[k - base].name != parent) by {
                                        assert(k - base != p);
                                    }
                                    assert forall|c: u64| #[trigger] edges_upto(o, base, i as int, j + 1, k).contains(c)
                                        == edges_upto(o, base, i as int, j as int, k).contains(c) by {
                                        if edges_upto(o, base, i as int, j + 1, k).contains(c) && c - base == i
                                            && !(c - base < i && o[c - base].after.contains(o[k - base].name)) {
                                            let j2 = choose|j2: int| 0 <= j2 < j + 1 && o[i as int].after[j2] == o[k - base].name;
                                            assert(j2 != j);
                                        }
                                    }
                                    assert(edges_upto(o, base, i as int, j + 1, k) =~= edges_upto(o, base, i as int, j as int, k));
                                }
                                assert(self@.graph =~= old_view.graph.union_prefer_right(
                                    Map::new(|k: u64| base <= k < base + n, |k: u64| edges_upto(o, base, i as int, j + 1, k))));
                            }
                        }
                    }
                }
                proof {
                    assert forall|k: u64| base <= k < base + n implies #[trigger] edges_upto(o, base, i as int, after@.len() as int, k)
                        == edges_upto(o, base, i + 1, 0, k) by {
                        assert(edges_upto(o, base, i as int, after@.len() as int, k) =~= edges_upto(o, base, i + 1, 0, k));
                    }
                    assert(self@.graph =~= old_view.graph.union_prefer_right(
                        Map::new(|k: u64| base <= k < base + n, |k: u64| edges_upto(o, base, i + 1, 0, k))));
                }
            }
        }
        proof {
            assert forall|k: u64| base <= k < base + n implies #[trigger] edges_upto(o, base, n as int, 0, k)
                == batch_children(o, base, k) by {
                assert(edges_upto(o, base, n as int, 0, k) =~= batch_children(o, base, k));
            }
            assert(self@.graph =~= target.graph);
            lemma_batch_added_well_formed(old_view, o);
        }
        Ok(())
    }

    /// Summaries of all services, one each.
    #[verifier::spinoff_prover]
    pub fn list_services(&self) -> (res: Vec<SimpleService>)
        requires
            self.wf(),
        ensures
            exists|ks: Seq<u64>| #![auto] self@.lists_all(ks) && res@.map_values(|s: SimpleService| s@) == self@.listing(ks),
    {
        proof {
            self.lemma_entries();
        }
        let mut list: Vec<SimpleService> = Vec::new();
        let ghost ks = self.id_map@.map_values(|e: NameEntry| e.id);
        let mut i: usize = 0;
        while i < self.id_map.len()
            invariant
                i <= self.id_map@.len(),
                ks == self.id_map@.map_values(|e: NameEntry| e.id),
                forall|m: int| 0 <= m < self.id_map@.len() ==> self@.services.contains_key(#[trigger] self.id_map@[m].id),
                list@.map_values(|s: SimpleService| s@) == self@.listing(ks.take(i as int)),
            decreases self.id_map@.len() - i,
        {
            let k = self.id_map[i].id;
            let service = self.services.get(&k).unwrap();
            let ghost before = list@.map_values(|s: SimpleService| s@);
            let summary = service.simplify();
            assert(service@ == self@.services[k]);
            assert(summary@ == self@.services[k].simplified());
            list.push(summary);
            assert(ks[i as int] == k);
            assert(self@.listing(ks.take(i + 1)) =~= self@.listing(ks.take(i as int)).push(self@.services[k].simplified()));
            assert(list@.map_values(|s: SimpleService| s@) =~= before.push(summary@));
            i = i + 1;
        }
        proof {
            assert(ks.take(i as int) =~= ks);
            assert(ks.no_duplicates());
            assert(ks.to_set() =~= self@.services.dom()) by {
                assert forall|k: u64| self@.services.contains_key(k) implies ks.to_set().contains(k) by {
                    let m = choose|m: int| 0 <= m < self.id_map@.len() && self.id_map@[m].id == k;
                    assert(ks[m] == k);
                }
            }
            assert(self@.lists_all(ks));
        }
        list
    }

    /// Sets the status of the service of id `id`, if it is still registered.
    pub fn change_status(&mut self, id: u64, status: Status) -> (found: bool)
        requires
            old(self).wf(),
        ensures
            final(self).wf(),
            final(self).stop_channels() == old(self).stop_channels(),
            found == old(self)@.services.contains_key(id),
            found ==> final(self)@ == old(self)@.with_service(id, old(self)@.services[id].with_status(status)),
            !found ==> final(self)@ == old(self)@,
    {
        match self.services.remove(&id) {
            Some(mut service) => {
                service.change_status(status);
                self.services.insert(id, service);
                proof {
                    let t = old(self)@;
                    assert(self@.services =~= t.services.insert(id, t.services[id].with_status(status)));
                    lemma_with_service_well_formed(t, id, t.services[id].with_status(status));
                }
                true
            },
            None => {
                assert(self@.services =~= old(self)@.services);
                false
            },
        }
    }

    /// Counts one more healthy parent for the service of id `id`, if it is still registered.
    pub fn increase_healthy_parents(&mut self, id: u64) -> (found: bool)
        requires
            old(self).wf(),
            old(self)@.services.contains_key(id) ==> old(self)@.services[id].healthy_parents < u32::MAX,
        ensures
            final(self).wf(),
            final(self).stop_channels() == old(self).stop_channels(),
            found == old(self)@.services.contains_key(id),
            found ==> final(self)@ == old(self)@.with_service(id, old(self)@.services[id].bumped()),
            !found ==> final(self)@ == old(self)@,
    {
        match self.services.remove(&id) {
            Some(mut service) => {
                service.increase_healthy_parents();
                self.services.insert(id, service);
                proof {
                    let t = old(self)@;
                    assert(self@.services =~= t.services.insert(id, t.services[id].bumped()));
                    lemma_with_service_well_formed(t, id, t.services[id].bumped());
                }
                true
            },
            None => {
                assert(self@.services =~= old(self)@.services);
                false
            },
        }
    }

    /// Records that the service of id `id` reported healthy, and says whether this is its
    /// first report since it was last started: only such a report counts.
    pub fn record_healthy(&mut self, id: u64) -> (first: bool)
        requires
            old(self).wf(),
        ensures
            final(self).wf(),
            final(self).stop_channels() == old(self).stop_channels(),
            first == (old(self)@.services.contains_key(id) && !old(self)@.reported.contains(id)),
            first ==> final(self)@ == (TrackerView { reported: old(self)@.reported.insert(id), ..old(self)@ }),
            !first ==> final(self)@ == old(self)@,
    {
        if !self.services.contains_key(&id) || self.reported.contains(&id) {
            return false;
        }
        self.reported.insert(id);
        assert(self@.reported =~= old(self)@.reported.insert(id));
        true
    }

    /// Records that the command of the service of id `id` runs as process `pid`.
    pub fn start_running(&mut self, id: u64, pid: u32) -> (found: bool)
        requires
            old(self).wf(),
        ensures
            final(self).wf(),
            final(self).stop_channels() == old(self).stop_channels(),
            found == old(self)@.services.contains_key(id),
            found ==> final(self)@ == old(self)@.with_service(id,
                old(self)@.services[id].with_pid(pid).with_status(Status::Running)),
            !found ==> final(self)@ == old(self)@,
    {
        match self.services.remove(&id) {
            Some(mut service) => {
                service.start_running(pid);
                self.services.insert(id, service);
                proof {
                    let t = old(self)@;
                    let s = t.services[id].with_pid(pid).with_status(Status::Running);
                    assert(self@.services =~= t.services.insert(id, s));
                    lemma_with_service_well_formed(t, id, s);
                }
                true
            },
            None => {
                assert(self@.services =~= old(self)@.services);
                false
            },
        }
    }

    /// Records that the process of the service of id `id` ended as `exit` says.
    pub fn finish_running(&mut self, id: u64, exit: RunExit) -> (found: bool)
        requires
            old(self).wf(),
        ensures
            final(self).wf(),
            final(self).stop_channels() == old(self).stop_channels(),
            found == old(self)@.services.contains_key(id),
            found ==> final(self)@ == old(self)@.with_service(id,
                old(self)@.services[id].with_pid(0).with_status(exit_status(exit))),
            !found ==> final(self)@ == old(self)@,
    {
        match self.services.remove(&id) {
            Some(mut service) => {
                service.finish_running(exit);
                self.services.insert(id, service);
                proof {
                    let t = old(self)@;
                    let s = t.services[id].with_pid(0).with_status(exit_status(exit));
                    assert(self@.services =~= t.services.insert(id, s));
                    lemma_with_service_well_formed(t, id, s);
                }
                true
            },
            None => {
                assert(self@.services =~= old(self)@.services);
                false
            },
        }
    }

    /// Builds a service from `opts` under the next free id, which is then used up.
    pub fn new_service(&mut self, opts: ServiceOpts) -> (res: Service)
        requires
            old(self)@.next_id < u64::MAX,
        ensures
            old(self).wf() ==> final(self).wf(),
            final(self).stop_channels() == old(self).stop_channels(),
            final(self).names_unique() == old(self).names_unique(),
            res@ == fresh_service(old(self)@.next_id, opts@),
            final(self)@ == (TrackerView { next_id: (old(self)@.next_id + 1) as u64, ..old(self)@ }),
    {
        let service = Service::from_opts(self.id, opts);
        self.id = self.id + 1;
        service
    }

    /// Registers the service defined by `opts`; it starts with no dependents and becomes
    /// a dependent of every service it waits for.
    #[verifier::spinoff_prover]
    pub fn add(&mut self, opts: ServiceOpts) -> (res: Result<(), TrackerError>)
        requires
            old(self).wf(),
            old(self)@.next_id < u64::MAX,
        ensures
            final(self).wf(),
            final(self).stop_channels() == old(self).stop_channels(),
            match old(self)@.add_error(opts@) {
                Some(e) => res matches Err(x) && x@ == e && final(self)@ == old(self)@,
                None => res is Ok && final(self)@ == old(self)@.added(opts@),
            },
    {
        let ghost old_view = self@;
        if self.find_id(&opts.name).is_some() {
            return Err(TrackerError::AlreadyRegistered(opts.name.clone()));
        }
        let mut parent_ids: Vec<u64> = Vec::new();
        for i in 0..opts.after.len()
            invariant
                self.senders@ == old(self).senders@,
                self.reported@ == old(self).reported@,
                self.names_unique(),
                self@ == old_view,
                old_view.well_formed(),
                !old_view.ids.contains_key(opts@.name),
                parent_ids@.len() == i,
                forall|j: int| 0 <= j < i ==> old_view.ids.contains_key(#[trigger] opts@.after[j]),
                forall|j: int| 0 <= j < i ==> parent_ids@[j] == old_view.ids[#[trigger] opts@.after[j]],
        {
            assert(opts@.after[i as int] == opts.after@[i as int]@);
            match self.find_id(&opts.after[i]) {
                Some(id) => parent_ids.push(id),
                None => {
                    proof {
                        let o = opts@;
                        assert(!old_view.parents_registered(o));
                        let k = old_view.first_missing_parent(o);
                        assert(0 <= i < o.after.len() && !old_view.ids.contains_key(o.after[i as int])
                            && forall|j: int| 0 <= j < i ==> old_view.ids.contains_key(#[trigger] o.after[j]));
                        if k < i {
                            assert(old_view.ids.contains_key(o.after[k]));
                        } else if k > i {
                            assert(old_view.ids.contains_key(o.after[i as int]));
                        }
                        assert(k == i);
                    }
                    return Err(TrackerError::ParentNotRegistered(opts.after[i].clone()));
                },
            }
        }
        assert(old_view.parents_registered(opts@));
        let ghost o = opts@;
        let service = self.new_service(opts);
        let id = service.id;
        let entry = NameEntry { name: service.opts.name.clone(), id };
        proof {
            lemma_names_map_push(self.id_map@, entry);
        }
        self.id_map.push(entry);
        self.services.insert(id, service);
        self.graph.insert(id, HashSet::new());
        assert(self@.services =~= old_view.services.insert(id, fresh_service(id, o)));
        assert(self@.ids =~= old_view.ids.insert(o.name, id));
        assert(self@.senders =~= old_view.senders);
        let ghost parents = old_view.parent_ids(o);
        let mut j: usize = 0;
        while j < parent_ids.len()
            invariant
                self.senders@ == old(self).senders@,
                self.reported@ == old(self).reported@,
                j <= parent_ids@.len(),
                parent_ids@.len() == o.after.len(),
                forall|m: int| 0 <= m < parent_ids@.len() ==> parent_ids@[m] == old_view.ids[#[trigger] o.after[m]],
                old_view.parents_registered(o),
                old_view.well_formed(),
                id == old_view.next_id,
                !old_view.services.contains_key(id),
                self.names_unique(),
                self@.services == old_view.services.insert(id, fresh_service(id, o)),
                self@.ids == old_view.ids.insert(o.name, id),
                self@.senders == old_view.senders,
                self@.next_id == id + 1,
                !old_view.ids.contains_key(o.name),
                self.graph@.dom() == old_view.graph.dom().insert(id),
                self.graph@[id]@ == Set::<u64>::empty(),
                forall|k: u64| #[trigger] old_view.graph.contains_key(k) ==> self.graph@[k]@ == (
                    if (exists|m: int| 0 <= m < j && parent_ids@[m] == k) { old_view.graph[k].insert(id) }
                    else { old_view.graph[k] }),
            decreases parent_ids@.len() - j,
        {
            let p = parent_ids[j];
            assert(old_view.ids.contains_key(o.after[j as int]));
            assert(old_view.graph.contains_key(p));
            let mut set = self.graph.remove(&p).unwrap();
            set.insert(id);
            self.graph.insert(p, set);
            proof {
                assert forall|k: u64| #[trigger] old_view.graph.contains_key(k) implies self.graph@[k]@ == (
                    if (exists|m: int| 0 <= m < j + 1 && parent_ids@[m] == k) { old_view.graph[k].insert(id) }
                    else { old_view.graph[k] }) by {
                    if k == p {
                        assert(parent_ids@[j as int] == k);
                    } else {
                        if exists|m: int| 0 <= m < j + 1 && parent_ids@[m] == k {
                            let m = choose|m: int| 0 <= m < j + 1 && parent_ids@[m] == k;
                            assert(m < j);
                        }
                    }
                }
            }
            j = j + 1;
        }
        proof {
            let new_view = old_view.added(o);
            assert forall|k: u64| #[trigger] old_view.graph.contains_key(k) implies
                (exists|m: int| 0 <= m < parent_ids@.len() && parent_ids@[m] == k) == parents.contains(k) by {
                if exists|m: int| 0 <= m < parent_ids@.len() && parent_ids@[m] == k {
                    let m = choose|m: int| 0 <= m < parent_ids@.len() && parent_ids@[m] == k;
                    assert(old_view.ids[o.after[m]] == k);
                }
                if parents.contains(k) {
                    let m = choose|m: int| 0 <= m < o.after.len() && old_view.ids[o.after[m]] == k;
                    assert(parent_ids@[m] == k);
                }
            }
            assert(self@.graph =~= new_view.graph);
            assert(self@.services =~= new_view.services);
            assert(self@.ids =~= new_view.ids);
            assert(self@.senders =~= new_view.senders);
            assert(self@.well_formed()) by {
                assert(self@.graph.dom() =~= self@.services.dom());
                assert(self@.senders.subset_of(self@.services.dom()));
                assert forall|k: u64| #[trigger] self@.services.contains_key(k) implies {
                    &&& self@.services[k].id == k
                    &&& k < self@.next_id
                    &&& self@.ids.contains_key(self@.services[k].opts.name)
                    &&& self@.ids[self@.services[k].opts.name] == k
                } by {
                    if k != id {
                        assert(old_view.services.contains_key(k));
                        assert(old_view.services[k].opts.name != o.name);
                    }
                }
                assert forall|n: Seq<char>| #[trigger] self@.ids.contains_key(n) implies {
                    &&& self@.services.contains_key(self@.ids[n])
                    &&& self@.services[self@.ids[n]].opts.name == n
                } by {
                    if n != o.name {
                        assert(old_view.ids.contains_key(n));
                        assert(old_view.ids[n] != id);
                    }
                }
                assert forall|k: u64, c: u64| #[trigger] self@.graph.contains_key(k) && #[trigger] self@.graph[k].contains(c)
                    implies self@.services.contains_key(c) by {
                    if k != id && c != id {
                        assert(old_view.graph.contains_key(k));
                    }
                }
            }
        }
        Ok(())
    }
}

} // verus!
