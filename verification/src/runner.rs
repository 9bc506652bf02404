use vstd::prelude::*;
use tokio::sync::mpsc::{Receiver, Sender};
use crate::channel::{stop_channel, stop_pair};
use crate::reader::{has_name, names_distinct, opts_view_seq, position_of, OptsMap};
use crate::service::{fresh_service, OptsView, Service, ServiceOpts, ServiceSignal, Status};
use crate::tracker::{batch_complete, batch_error, channels_kept, Tracker, TrackerError, TrackerErrorView, TrackerView};

verus! {

broadcast use vstd::std_specs::hash::group_hash_axioms;

/// Why starting, stopping or registering a service failed.
#[derive(Debug)]
pub enum RunnerError {
    /// The registry refused the operation.
    Tracker(TrackerError),
    /// The service still waits for services that have not reported healthy.
    StillPending(String),
    /// The stop signal could not be handed to the service.
    SignalNotDelivered(String),
}

/// Abstract form of a runner error.
pub enum RunnerErrorView {
    Tracker(TrackerErrorView),
    StillPending(Seq<char>),
    SignalNotDelivered(Seq<char>),
}

impl View for RunnerError {
    type V = RunnerErrorView;

    open spec fn view(&self) -> RunnerErrorView {
        match self {
            RunnerError::Tracker(e) => RunnerErrorView::Tracker(e@),
            RunnerError::StillPending(n) => RunnerErrorView::StillPending(n@),
            RunnerError::SignalNotDelivered(n) => RunnerErrorView::SignalNotDelivered(n@),
        }
    }
}

/// What is needed to run a service that was just allowed to start: the service as
/// registered, and the receiving end of its stop channel.
pub struct Launch {
    pub service: Service,
    pub receiver: Receiver<ServiceSignal>,
}

/// The outcome of trying to start one service.
pub type StartAttempt = Result<Launch, RunnerError>;

/// A registered service may start when it is eligible.
pub open spec fn may_start(t: TrackerView, name: Seq<char>) -> bool {
    t.registered(name) && t.service(name).eligible()
}

/// The registry after trying to start the service registered as `name`: an eligible
/// service gets a stop channel, and its next healthy report counts again; one that still
/// waits is marked pending.
pub open spec fn start_spec(t: TrackerView, name: Seq<char>) -> TrackerView {
    if !t.registered(name) {
        t
    } else if t.service(name).eligible() {
        TrackerView { senders: t.senders.insert(t.ids[name]), reported: t.reported.remove(t.ids[name]), ..t }
    } else {
        t.with_service(t.ids[name], t.service(name).with_status(Status::Pending))
    }
}

/// What trying to start the service registered as `name` reports.
pub open spec fn start_reports(t: TrackerView, name: Seq<char>, a: StartAttempt) -> bool {
    if !t.registered(name) {
        a matches Err(e) && e@ == RunnerErrorView::Tracker(TrackerErrorView::NotRegistered(name))
    } else if t.service(name).eligible() {
        a matches Ok(l) && l.service@ == t.service(name)
    } else {
        a matches Err(e) && e@ == RunnerErrorView::StillPending(name)
    }
}

/// A start attempt that succeeded hands out the receiving half of the stop channel that
/// the service of id `k` holds in `channels`.
pub open spec fn launched_on(channels: Map<u64, Sender<ServiceSignal>>, k: u64, a: StartAttempt) -> bool {
    a matches Ok(l) ==> channels.contains_key(k) && stop_pair(channels[k], l.receiver)
}

/// The services of `ks` that hold no stop channel and are ready once they count one more
/// healthy parent.
pub open spec fn ready_after_bump(t: TrackerView, ks: Set<u64>) -> Set<u64> {
    Set::new(|k: u64| ks.contains(k) && !t.senders.contains(k) && t.services[k].bumped().eligible())
}

/// The registry after each service of `ks` counted one more healthy parent; each of them
/// that holds no stop channel was then started, or marked pending if it still waits.
pub open spec fn bump_and_start(t: TrackerView, ks: Set<u64>) -> TrackerView {
    TrackerView {
        services: Map::new(
            |k: u64| t.services.contains_key(k),
            |k: u64|
                if ks.contains(k) {
                    if t.senders.contains(k) || t.services[k].bumped().eligible() {
                        t.services[k].bumped()
                    } else {
                        t.services[k].bumped().with_status(Status::Pending)
                    }
                } else {
                    t.services[k]
                },
        ),
        senders: t.senders.union(ready_after_bump(t, ks)),
        reported: t.reported.difference(ready_after_bump(t, ks)),
        ..t
    }
}

/// A healthy report of the service registered as `name` counts: it is the first one since
/// the service was last started.
pub open spec fn report_counts(t: TrackerView, name: Seq<char>) -> bool {
    t.registered(name) && !t.reported.contains(t.ids[name])
}

/// The registry after the service registered as `name` reported healthy. A report that
/// counts is recorded, each dependent counts one more healthy parent, and each dependent
/// that holds no stop channel is then started or marked pending. Any other report changes
/// nothing.
pub open spec fn healthy_spec(t: TrackerView, name: Seq<char>) -> TrackerView {
    if report_counts(t, name) {
        bump_and_start(TrackerView { reported: t.reported.insert(t.ids[name]), ..t }, t.children(name))
    } else {
        t
    }
}

/// The dependents of the service registered as `name` that hold no stop channel.
pub open spec fn waiting_dependents(t: TrackerView, name: Seq<char>) -> Set<u64> {
    Set::new(|k: u64| t.children(name).contains(k) && !t.senders.contains(k))
}

/// What trying to start the service of id `k`, after it counted one more healthy parent, reports.
pub open spec fn bump_report(t: TrackerView, k: u64, a: StartAttempt) -> bool {
    if t.services[k].bumped().eligible() {
        a matches Ok(l) && l.service@ == t.services[k].bumped()
    } else {
        a matches Err(e) && e@ == RunnerErrorView::StillPending(t.services[k].opts.name)
    }
}

/// The start attempts made for the dependents of the service registered as `name` that
/// hold no stop channel, one per such dependent; each one that succeeded hands out the
/// receiving half of the stop channel kept for it in `channels`.
pub open spec fn dependents_tried(
    t: TrackerView,
    name: Seq<char>,
    v: Seq<StartAttempt>,
    channels: Map<u64, Sender<ServiceSignal>>,
) -> bool {
    exists|ks: Seq<u64>| {
        &&& ks.no_duplicates()
        &&& ks.to_set() == waiting_dependents(t, name)
        &&& ks.len() == v.len()
        &&& forall|i: int| 0 <= i < v.len() ==> #[trigger] bump_report(t, ks[i], v[i])
            && launched_on(channels, ks[i], v[i])
    }
}

/// What handling a healthy report of the service registered as `name` hands back: the
/// start attempts for its waiting dependents if the report counts, none otherwise;
/// `channels` are the stop channels kept afterwards.
pub open spec fn healthy_reports(
    t: TrackerView,
    name: Seq<char>,
    v: Seq<StartAttempt>,
    channels: Map<u64, Sender<ServiceSignal>>,
) -> bool {
    if report_counts(t, name) {
        dependents_tried(t, name, v, channels)
    } else {
        v.len() == 0
    }
}

/// Every dependent of the service registered as `name` can count one more healthy parent.
pub open spec fn children_have_room(t: TrackerView, name: Seq<char>) -> bool {
    forall|c: u64| #[trigger] t.children(name).contains(c) ==> t.services[c].healthy_parents < u32::MAX
}

/// The registry after a batch was registered and its first `i` services were tried in
/// turn: those that wait for nobody got a stop channel, the others were marked pending.
pub open spec fn batch_started_upto(t: TrackerView, o: Seq<OptsView>, i: int) -> TrackerView {
    let a = t.batch_added(o);
    let base = t.next_id;
    TrackerView {
        services: a.services.union_prefer_right(
            Map::new(
                |k: u64| base <= k < base + i && !fresh_service(k, o[k - base]).eligible(),
                |k: u64| fresh_service(k, o[k - base]).with_status(Status::Pending),
            ),
        ),
        senders: a.senders.union(
            Set::new(|k: u64| base <= k < base + i && fresh_service(k, o[k - base]).eligible()),
        ),
        ..a
    }
}

/// The registry after a batch was registered and each of its services was tried in turn.
pub open spec fn batch_started(t: TrackerView, o: Seq<OptsView>) -> TrackerView {
    batch_started_upto(t, o, o.len() as int)
}

/// What trying to start a freshly registered service of id `k` defined by `o` reports.
pub open spec fn fresh_report(k: u64, o: OptsView, a: StartAttempt) -> bool {
    if fresh_service(k, o).eligible() {
        a matches Ok(l) && l.service@ == fresh_service(k, o)
    } else {
        a matches Err(e) && e@ == RunnerErrorView::StillPending(o.name)
    }
}

/// How trying to start the service registered as `name` changes the stop channels:
/// a service that may start gets a new one, replacing any it held; otherwise none changes.
pub open spec fn start_channels(
    t: TrackerView,
    name: Seq<char>,
    before: Map<u64, Sender<ServiceSignal>>,
    after: Map<u64, Sender<ServiceSignal>>,
) -> bool {
    if may_start(t, name) {
        after == before.insert(t.ids[name], after[t.ids[name]])
    } else {
        after == before
    }
}

/// The services that start when the service registered as `name` reports healthy and the
/// report counts.
pub open spec fn started_dependents(t: TrackerView, name: Seq<char>) -> Set<u64> {
    ready_after_bump(t, t.children(name))
}

/// Starts, stops and registers services, on behalf of the manager.
pub struct Runner {}

impl Runner {
    /// Whether `service` may start: every service it waits for has reported healthy.
    /// One that may not is marked pending.
    fn is_eligible_to_start(&self, tracker: &mut Tracker, service: &Service) -> (res: bool)
        requires
            old(tracker).wf(),
            old(tracker)@.services.contains_key(service.id),
            old(tracker)@.services[service.id] == service@,
        ensures
            final(tracker).wf(),
            res == service@.eligible(),
            res ==> final(tracker)@ == old(tracker)@,
            !res ==> final(tracker)@ == old(tracker)@.with_service(service.id, service@.with_status(Status::Pending)),
            final(tracker).stop_channels() == old(tracker).stop_channels(),
    {
        if service.indegree == service.healthy_parents {
            return true;
        }
        tracker.change_status(service.id, Status::Pending);
        false
    }

    /// Starts the service registered as `service_name` if every service it waits for
    /// has reported healthy: it gets a stop channel, its next healthy report counts again,
    /// and the caller gets what it needs to run it.
    pub fn start(&self, tracker: &mut Tracker, service_name: &str) -> (res: StartAttempt)
        requires
            old(tracker).wf(),
        ensures
            final(tracker).wf(),
            final(tracker)@ == start_spec(old(tracker)@, service_name@),
            start_reports(old(tracker)@, service_name@, res),
            start_channels(old(tracker)@, service_name@, old(tracker).stop_channels(), final(tracker).stop_channels()),
            launched_on(final(tracker).stop_channels(), old(tracker)@.ids[service_name@], res),
    {
        let service = match tracker.get_service(service_name) {
            Ok(s) => s,
            Err(e) => return Err(RunnerError::Tracker(e)),
        };
        if !self.is_eligible_to_start(tracker, &service) {
            return Err(RunnerError::StillPending(service_name.to_owned()));
        }
        let (tx, rx) = stop_channel();
        match tracker.insert_sender(service_name, tx) {
            Ok(()) => {},
            Err(e) => return Err(RunnerError::Tracker(e)),
        }
        Ok(Launch { service, receiver: rx })
    }

    /// Registers the service defined by `opts`, then tries to start it. A refused
    /// registration is an error; the outcome of the start attempt is handed back.
    pub fn add(&self, opts: ServiceOpts, tracker: &mut Tracker) -> (res: Result<StartAttempt, RunnerError>)
        requires
            old(tracker).wf(),
            old(tracker)@.next_id < u64::MAX,
        ensures
            final(tracker).wf(),
            match old(tracker)@.add_error(opts@) {
                Some(e) => (res matches Err(x) && x@ == RunnerErrorView::Tracker(e) && final(tracker)@ == old(tracker)@
                    && final(tracker).stop_channels() == old(tracker).stop_channels()),
                None => (res matches Ok(a) && final(tracker)@ == start_spec(old(tracker)@.added(opts@), opts@.name)
                    && start_reports(old(tracker)@.added(opts@), opts@.name, a)
                    && start_channels(old(tracker)@.added(opts@), opts@.name, old(tracker).stop_channels(),
                        final(tracker).stop_channels())
                    && launched_on(final(tracker).stop_channels(), old(tracker)@.next_id, a)),
            },
    {
        let service_name = opts.name.clone();
        match tracker.add(opts) {
            Ok(()) => {},
            Err(e) => return Err(RunnerError::Tracker(e)),
        }
        Ok(self.start(tracker, service_name.as_str()))
    }

    /// Finishes stopping the service registered as `service_name` once the stop signal
    /// was sent through its stop channel: `delivered` says whether the service got it.
    /// The service must hold a stop channel, and only a delivered signal lets it go.
    pub fn stop(&self, service_name: &str, tracker: &mut Tracker, delivered: bool) -> (res: Result<(), RunnerError>)
        requires
            old(tracker).wf(),
        ensures
            final(tracker).wf(),
            res is Err ==> final(tracker)@ == old(tracker)@ && final(tracker).stop_channels() == old(tracker).stop_channels(),
            !old(tracker)@.registered(service_name@) ==> (res matches Err(e)
                && e@ == RunnerErrorView::Tracker(TrackerErrorView::NotRegistered(service_name@))),
            old(tracker)@.registered(service_name@) && !old(tracker)@.senders.contains(old(tracker)@.ids[service_name@])
                ==> (res matches Err(e) && e@ == RunnerErrorView::Tracker(TrackerErrorView::NoSender(service_name@))),
            old(tracker)@.registered(service_name@) && old(tracker)@.senders.contains(old(tracker)@.ids[service_name@])
                && !delivered ==> (res matches Err(e) && e@ == RunnerErrorView::SignalNotDelivered(service_name@)),
            old(tracker)@.registered(service_name@) && old(tracker)@.senders.contains(old(tracker)@.ids[service_name@])
                && delivered ==> res is Ok && final(tracker)@ == (TrackerView {
                    senders: old(tracker)@.senders.remove(old(tracker)@.ids[service_name@]),
                    ..old(tracker)@
                }) && final(tracker).stop_channels() == old(tracker).stop_channels().remove(old(tracker)@.ids[service_name@]),
    {
        match tracker.get_sender(service_name) {
            Ok(_) => {},
            Err(e) => return Err(RunnerError::Tracker(e)),
        }
        if !delivered {
            return Err(RunnerError::SignalNotDelivered(service_name.to_owned()));
        }
        match tracker.remove_sender(service_name) {
            Ok(()) => Ok(()),
            Err(e) => Err(RunnerError::Tracker(e)),
        }
    }

    /// Registers a batch of definitions (see `Tracker::batch_add`), then tries to start
    /// each of its services in turn; the outcomes come back in the batch's order.
    #[verifier::spinoff_prover]
    pub fn batch_add(&self, tracker: &mut Tracker, opts: &OptsMap) -> (res: Result<Vec<StartAttempt>, RunnerError>)
        requires
            old(tracker).wf(),
            opts.wf(),
            batch_complete(opts@) ==> old(tracker)@.next_id + opts@.len() <= u64::MAX,
            batch_complete(opts@) ==> forall|m: int| 0 <= m < opts@.len()
                ==> !old(tracker)@.ids.contains_key(#[trigger] opts@[m].name),
        ensures
            final(tracker).wf(),
            match batch_error(opts@) {
                Some(e) => (res matches Err(x) && x@ == RunnerErrorView::Tracker(e) && final(tracker)@ == old(tracker)@
                    && final(tracker).stop_channels() == old(tracker).stop_channels()),
                None => (res matches Ok(v) && final(tracker)@ == batch_started(old(tracker)@, opts@)
                    && channels_kept(old(tracker).stop_channels(), final(tracker).stop_channels(), Set::empty())
                    && v@.len() == opts@.len()
                    && forall|i: int| 0 <= i < v@.len() ==> #[trigger] fresh_report(
                        (old(tracker)@.next_id + i) as u64, opts@[i], v@[i])
                        && launched_on(final(tracker).stop_channels(), (old(tracker)@.next_id + i) as u64, v@[i])),
            },
    {
        let ghost t = tracker@;
        let ghost c0 = tracker.stop_channels();
        let ghost o = opts@;
        let entries = opts.entries();
        let mut service_names: Vec<String> = Vec::new();
        for i in 0..entries.len()
            invariant
                opts_view_seq(entries@) == o,
                service_names@.len() == i,
                forall|m: int| 0 <= m < i ==> #[trigger] service_names@[m]@ == o[m].name,
        {
            assert(o[i as int] == entries@[i as int]@);
            service_names.push(entries[i].name.clone());
        }
        match tracker.batch_add(opts) {
            Ok(()) => {},
            Err(e) => return Err(RunnerError::Tracker(e)),
        }
        let ghost base = t.next_id;
        let ghost a = t.batch_added(o);
        assert forall|k: u64| #[trigger] c0.contains_key(k) implies k < base by {
            assert(t.senders.contains(k));
            assert(t.services.contains_key(k));
        }
        assert forall|k: u64| #[trigger] t.reported.contains(k) implies k < base by {
            assert(t.services.contains_key(k));
        }
        proof {
            assert(batch_started_upto(t, o, 0).services =~= a.services);
            assert(batch_started_upto(t, o, 0).senders =~= a.senders);
        }
        let mut attempts: Vec<StartAttempt> = Vec::new();
        let mut i: usize = 0;
        while i < service_names.len()
            invariant
                i <= service_names@.len(),
                service_names@.len() == o.len(),
                forall|m: int| 0 <= m < o.len() ==> #[trigger] service_names@[m]@ == o[m].name,
                tracker.wf(),
                names_distinct(o),
                base == t.next_id,
                base + o.len() <= u64::MAX,
                a == t.batch_added(o),
                forall|m: int| 0 <= m < o.len() ==> !t.ids.contains_key(#[trigger] o[m].name),
                tracker@ == batch_started_upto(t, o, i as int),
                forall|k: u64| #[trigger] c0.contains_key(k) ==> k < base,
                forall|k: u64| #[trigger] t.reported.contains(k) ==> k < base,
                channels_kept(c0, tracker.stop_channels(), Set::empty()),
                attempts@.len() == i,
                forall|m: int| 0 <= m < i ==> #[trigger] fresh_report((base + m) as u64, o[m], attempts@[m]),
                forall|m: int| 0 <= m < i ==> #[trigger] launched_on(tracker.stop_channels(), (base + m) as u64, attempts@[m]),
            decreases service_names@.len() - i,
        {
            let ghost k = (base + i) as u64;
            proof {
                let nm = o[i as int].name;
                assert(has_name(o, nm));
                assert(position_of(o, nm) == i);
                assert(tracker@.ids[nm] == k);
                assert(tracker@.registered(nm));
                assert(tracker@.service(nm) == fresh_service(k, o[i as int]));
            }
            let ghost before = tracker.stop_channels();
            let attempt = self.start(tracker, service_names[i].as_str());
            proof {
                assert forall|m: int| 0 <= m < i implies #[trigger] launched_on(tracker.stop_channels(), (base + m) as u64, attempts@[m]) by {
                    assert(launched_on(before, (base + m) as u64, attempts@[m]));
                    assert((base + m) as u64 != k);
                }
                let want = batch_started_upto(t, o, i + 1);
                assert(tracker@.services =~= want.services);
                assert(tracker@.senders =~= want.senders);
                assert(tracker@.reported =~= want.reported);
                assert(fresh_report(k, o[i as int], attempt));
            }
            attempts.push(attempt);
            i = i + 1;
        }
        Ok(attempts)
    }

    /// Counts the service registered as `service_name` as a healthy parent of each of its
    /// dependents, and tries to start each of them that holds no stop channel.
    #[verifier::spinoff_prover]
    fn increase_healthy_parents_of_children(&self, tracker: &mut Tracker, service_name: &str) -> (res: Result<Vec<StartAttempt>, RunnerError>)
        requires
            old(tracker).wf(),
            old(tracker)@.registered(service_name@),
            children_have_room(old(tracker)@, service_name@),
        ensures
            final(tracker).wf(),
            res matches Ok(v) && final(tracker)@ == bump_and_start(old(tracker)@, old(tracker)@.children(service_name@))
                && dependents_tried(old(tracker)@, service_name@, v@, final(tracker).stop_channels()),
            channels_kept(old(tracker).stop_channels(), final(tracker).stop_channels(),
                started_dependents(old(tracker)@, service_name@)),
    {
        let ghost t = tracker@;
        let ghost c0 = tracker.stop_channels();
        let children = match tracker.get_children(service_name) {
            Ok(c) => c,
            Err(e) => return Err(RunnerError::Tracker(e)),
        };
        let ghost kids = t.children(service_name@);
        let ghost cs = children@.map_values(|s: Service| s@.id);
        let ghost mut ws: Seq<u64> = Seq::empty();
        let mut attempts: Vec<StartAttempt> = Vec::new();
        assert(cs.take(0).to_set() =~= Set::<u64>::empty());
        assert(bump_and_start(t, Set::<u64>::empty()) =~= t) by {
            assert(ready_after_bump(t, Set::<u64>::empty()) =~= Set::<u64>::empty());
            assert(bump_and_start(t, Set::<u64>::empty()).services =~= t.services);
            assert(bump_and_start(t, Set::<u64>::empty()).senders =~= t.senders);
            assert(bump_and_start(t, Set::<u64>::empty()).reported =~= t.reported);
        }
        assert(ws.to_set() =~= Set::new(|k: u64| cs.take(0).to_set().contains(k) && !t.senders.contains(k)));
        let mut i: usize = 0;
        while i < children.len()
            invariant
                i <= children@.len(),
                tracker.wf(),
                t.well_formed(),
                t.registered(service_name@),
                children_have_room(t, service_name@),
                kids == t.children(service_name@),
                cs == children@.map_values(|s: Service| s@.id),
                cs.no_duplicates(),
                cs.to_set() == kids,
                forall|m: int| 0 <= m < children@.len() ==> #[trigger] children@[m]@ == t.services[children@[m]@.id],
                tracker@ == bump_and_start(t, cs.take(i as int).to_set()),
                channels_kept(c0, tracker.stop_channels(), started_dependents(t, service_name@)),
                ws.no_duplicates(),
                ws.to_set() == Set::new(|k: u64| cs.take(i as int).to_set().contains(k) && !t.senders.contains(k)),
                ws.len() == attempts@.len(),
                forall|m: int| 0 <= m < ws.len() ==> #[trigger] bump_report(t, ws[m], attempts@[m]),
                forall|m: int| 0 <= m < ws.len() ==> #[trigger] launched_on(tracker.stop_channels(), ws[m], attempts@[m]),
            decreases children@.len() - i,
        {
            let c = children[i].id;
            let ghost done = cs.take(i as int).to_set();
            proof {
                assert(cs[i as int] == c);
                assert(kids.contains(c));
                assert(t.graph.contains_key(t.ids[service_name@]) && t.graph[t.ids[service_name@]].contains(c));
                assert(t.services.contains_key(c));
                assert(!done.contains(c)) by {
                    if done.contains(c) {
                        let m = choose|m: int| 0 <= m < cs.take(i as int).len() && cs.take(i as int)[m] == c;
                        assert(cs[m] == cs[i as int]);
                    }
                }
                assert(!ready_after_bump(t, done).contains(c));
                assert(tracker@.services[c] == t.services[c]);
                assert(tracker@.senders.contains(c) == t.senders.contains(c));
            }
            tracker.increase_healthy_parents(c);
            let ghost t1 = tracker@;
            let name = &children[i].opts.name;
            proof {
                assert(t.services[c].opts.name == name@);
                assert(t.ids[name@] == c);
                assert(t1.ids[name@] == c);
                assert(t1.registered(name@));
                assert(t1.service(name@) == t.services[c].bumped());
            }
            let running = tracker.get_sender(name.as_str()).is_ok();
            let ghost next = cs.take(i + 1).to_set();
            proof {
                assert(next =~= done.insert(c)) by {
                    assert(cs.take(i + 1) =~= cs.take(i as int).push(c));
                    cs.take(i as int).lemma_push_to_set_commute(c);
                }
            }
            if !running {
                let ghost before = tracker.stop_channels();
                let attempt = self.start(tracker, name.as_str());
                proof {
                    assert forall|m: int| 0 <= m < ws.len() implies #[trigger] launched_on(tracker.stop_channels(), ws[m], attempts@[m]) by {
                        assert(launched_on(before, ws[m], attempts@[m]));
                        assert(ws.to_set().contains(ws[m]));
                        assert(ws[m] != c);
                    }
                    let want = bump_and_start(t, next);
                    if t.services[c].bumped().eligible() {
                        assert(ready_after_bump(t, next) =~= ready_after_bump(t, done).insert(c));
                    } else {
                        assert(ready_after_bump(t, next) =~= ready_after_bump(t, done));
                    }
                    assert(tracker@.services =~= want.services);
                    assert(tracker@.senders =~= want.senders);
                    assert(tracker@.reported =~= want.reported);
                    assert(tracker@ == want);
                    assert(bump_report(t, c, attempt));
                    assert(!ws.to_set().contains(c));
                    ws.lemma_push_to_set_commute(c);
                    assert(ws.push(c).to_set() =~= Set::new(|k: u64| next.contains(k) && !t.senders.contains(k)));
                    ws = ws.push(c);
                }
                attempts.push(attempt);
            } else {
                proof {
                    let want = bump_and_start(t, next);
                    assert(ready_after_bump(t, next) =~= ready_after_bump(t, done));
                    assert(tracker@.services =~= want.services);
                    assert(tracker@.senders =~= want.senders);
                    assert(tracker@.reported =~= want.reported);
                    assert(tracker@ == want);
                    assert(ws.to_set() =~= Set::new(|k: u64| next.contains(k) && !t.senders.contains(k)));
                }
            }
            i = i + 1;
        }
        proof {
            assert(cs.take(i as int) =~= cs);
            assert(ws.to_set() =~= waiting_dependents(t, service_name@));
            assert(dependents_tried(t, service_name@, attempts@, tracker.stop_channels())) by {
                assert(forall|m: int| 0 <= m < attempts@.len() ==> #[trigger] bump_report(t, ws[m], attempts@[m])
                    && launched_on(tracker.stop_channels(), ws[m], attempts@[m]));
            }
        }
        Ok(attempts)
    }

    /// Handles the report that the service registered as `service_name` is healthy. Only
    /// its first report since it was last started counts: each of its dependents then
    /// counts it as a healthy parent, and each dependent that holds no stop channel is
    /// tried again. A later report changes nothing.
    pub fn process_healthy_service(&self, tracker: &mut Tracker, service_name: &str) -> (res: Result<Vec<StartAttempt>, RunnerError>)
        requires
            old(tracker).wf(),
            report_counts(old(tracker)@, service_name@) ==> children_have_room(old(tracker)@, service_name@),
        ensures
            final(tracker).wf(),
            !old(tracker)@.registered(service_name@) ==> (res matches Err(e)
                && e@ == RunnerErrorView::Tracker(TrackerErrorView::NotRegistered(service_name@))),
            old(tracker)@.registered(service_name@) ==> (res matches Ok(v)
                && final(tracker)@ == healthy_spec(old(tracker)@, service_name@)
                && healthy_reports(old(tracker)@, service_name@, v@, final(tracker).stop_channels())),
            !report_counts(old(tracker)@, service_name@) ==> final(tracker)@ == old(tracker)@
                && final(tracker).stop_channels() == old(tracker).stop_channels(),
            channels_kept(old(tracker).stop_channels(), final(tracker).stop_channels(),
                started_dependents(old(tracker)@, service_name@)),
    {
        let ghost t = tracker@;
        let service = match tracker.get_service(service_name) {
            Ok(s) => s,
            Err(e) => return Err(RunnerError::Tracker(e)),
        };
        proof {
            assert(t.services.contains_key(t.ids[service_name@]));
            assert(service@.id == t.ids[service_name@]);
        }
        if !tracker.record_healthy(service.id) {
            return Ok(Vec::new());
        }
        let ghost t1 = tracker@;
        proof {
            assert(t1.children(service_name@) == t.children(service_name@));
            assert(t1.registered(service_name@));
            assert(children_have_room(t1, service_name@));
        }
        let res = self.increase_healthy_parents_of_children(tracker, service_name);
        proof {
            assert(waiting_dependents(t1, service_name@) =~= waiting_dependents(t, service_name@));
            assert(started_dependents(t1, service_name@) =~= started_dependents(t, service_name@));
            let v = res->Ok_0;
            let ch = tracker.stop_channels();
            let ks = choose|ks: Seq<u64>| {
                &&& ks.no_duplicates()
                &&& ks.to_set() == waiting_dependents(t1, service_name@)
                &&& ks.len() == v@.len()
                &&& forall|i: int| 0 <= i < v@.len() ==> #[trigger] bump_report(t1, ks[i], v@[i])
                    && launched_on(ch, ks[i], v@[i])
            };
            assert forall|i: int| 0 <= i < v@.len() implies #[trigger] bump_report(t, ks[i], v@[i])
                && launched_on(ch, ks[i], v@[i]) by {
                assert(bump_report(t1, ks[i], v@[i]));
            }
            assert(dependents_tried(t, service_name@, v@, ch));
        }
        res
    }

    /// Unregisters the service registered as `service_name`, together with its stop
    /// channel if it holds one. The caller first sends the stop signal on that channel;
    /// whether it got through does not matter: a tracked service can always be deleted.
    pub fn delete(&self, service_name: &str, tracker: &mut Tracker) -> (res: Result<(), RunnerError>)
        requires
            old(tracker).wf(),
        ensures
            final(tracker).wf(),
            !old(tracker)@.registered(service_name@) ==> (res matches Err(e)
                && e@ == RunnerErrorView::Tracker(TrackerErrorView::NotRegistered(service_name@))
                && final(tracker)@ == old(tracker)@ && final(tracker).stop_channels() == old(tracker).stop_channels()),
            old(tracker)@.registered(service_name@) ==> res is Ok
                && final(tracker)@ == old(tracker)@.removed(service_name@)
                && final(tracker).stop_channels() == old(tracker).stop_channels().remove(old(tracker)@.ids[service_name@]),
    {
        match tracker.remove(service_name) {
            Ok(()) => Ok(()),
            Err(e) => Err(RunnerError::Tracker(e)),
        }
    }
}

} // verus!
