use vstd::prelude::*;
use std::collections::HashMap;
use std::sync::Arc;
use tokio::sync::mpsc::Sender;
use crate::channel::stop_pair;
use crate::reader::OptsMap;
use crate::runner::{
    batch_started, children_have_room, report_counts, fresh_report, healthy_reports, healthy_spec, start_channels,
    launched_on, start_reports, start_spec, started_dependents, Launch, Runner, RunnerError, RunnerErrorView, StartAttempt,
};
use crate::service::{RunExit, Service, ServiceOpts, ServiceSignal, SimpleService, Status, exit_status};
use crate::tracker::{batch_complete, batch_error, channels_kept, Tracker, TrackerErrorView, TrackerView};

verus! {

pub type ServiceName = String;

/// Messages exchanged between the manager, the services it runs and its users.
pub enum ManagerSignal {
    /// The named service's command is running.
    Healthy(ServiceName),
    AddService(ServiceOpts),
    DeleteService(ServiceName),
    StopService(ServiceName),
    StartService(ServiceName),
    CloseManager,
    ListServices,
    ServiceList(HashMap<String, Arc<Service>>),
}

/// Why a manager request failed.
#[derive(Debug)]
pub enum ManagerError {
    /// The runner refused the request.
    Runner(RunnerError),
    /// The request needs the manager's signal channel, which is not open.
    MonitorNotRunning,
}

/// Abstract form of a manager error.
pub enum ManagerErrorView {
    Runner(RunnerErrorView),
    MonitorNotRunning,
}

impl View for ManagerError {
    type V = ManagerErrorView;

    open spec fn view(&self) -> ManagerErrorView {
        match self {
            ManagerError::Runner(e) => ManagerErrorView::Runner(e@),
            ManagerError::MonitorNotRunning => ManagerErrorView::MonitorNotRunning,
        }
    }
}

/// What the manager did with one signal from its services.
pub enum ListenStep {
    /// The channel was closed: the manager stops listening.
    Closed,
    /// The signal is not one the manager acts on.
    Ignored,
    /// A service reported healthy; its dependents were counted and tried.
    Healthy(Result<Vec<StartAttempt>, RunnerError>),
}

/// Abstract form of the manager.
pub struct ManagerView {
    pub tracker: TrackerView,
    /// Whether the manager holds a channel on which its services report.
    pub monitoring: bool,
}

/// The service manager: it keeps the registry of services read from a directory and
/// decides which of them start, stop or go.
pub struct Manager<P> {
    dir_path: P,
    tracker: Tracker,
    runner: Runner,
    sender: Option<Sender<ManagerSignal>>,
}

impl<P> View for Manager<P> {
    type V = ManagerView;

    closed spec fn view(&self) -> ManagerView {
        ManagerView { tracker: self.tracker@, monitoring: self.sender is Some }
    }
}

impl<P> Manager<P> {
    /// The manager's registry is consistent.
    pub closed spec fn wf(&self) -> bool {
        self.tracker.wf()
    }

    /// The directory the manager reads definitions from.
    pub closed spec fn path(&self) -> P {
        self.dir_path
    }

    /// The channel on which the manager's services report, once it monitors.
    pub closed spec fn signal_channel(&self) -> Option<Sender<ManagerSignal>> {
        self.sender
    }

    /// The stop channels held by the manager's services, by id.
    pub closed spec fn stop_channels(&self) -> Map<u64, Sender<ServiceSignal>> {
        self.tracker.stop_channels()
    }

    /// A manager for the definitions in `path`, with no services and no signal channel yet.
    pub fn new(path: P) -> (res: Self)
        ensures
            res.wf(),
            res.path() == path,
            !res@.monitoring,
            res.signal_channel() is None,
            res@.tracker.services == Map::<u64, crate::service::ServiceView>::empty(),
            res@.tracker.ids == Map::<Seq<char>, u64>::empty(),
            res@.tracker.next_id == 1,
    {
        let tracker = Tracker::new();
        let runner = Runner {};
        Self { dir_path: path, tracker, runner, sender: None }
    }

    pub fn dir_path(&self) -> (res: &P)
        ensures
            *res == self.path(),
    {
        &self.dir_path
    }

    /// Read access to the registry.
    pub fn tracker(&self) -> (res: &Tracker)
        ensures
            res@ == self@.tracker,
            res.stop_channels() == self.stop_channels(),
            self.wf() ==> res.wf(),
    {
        &self.tracker
    }

    /// The channel on which the manager's services report, once it monitors.
    pub fn signal_sender(&self) -> (res: Option<&Sender<ManagerSignal>>)
        ensures
            res is Some == self@.monitoring,
            res matches Some(s) ==> self.signal_channel() == Some(*s),
    {
        match &self.sender {
            Some(s) => Some(s),
            None => None,
        }
    }

    /// Starts monitoring: registers the definitions read from the directory, tries to start
    /// each service, and from then on keeps `signals`, the channel on which services report.
    pub fn monitor(&mut self, opts: &OptsMap, signals: Sender<ManagerSignal>) -> (res: Result<Vec<StartAttempt>, ManagerError>)
        requires
            old(self).wf(),
            opts.wf(),
            batch_complete(opts@) ==> old(self)@.tracker.next_id + opts@.len() <= u64::MAX,
            batch_complete(opts@) ==> forall|m: int| 0 <= m < opts@.len()
                ==> !old(self)@.tracker.ids.contains_key(#[trigger] opts@[m].name),
        ensures
            final(self).wf(),
            final(self).path() == old(self).path(),
            match batch_error(opts@) {
                Some(e) => (res matches Err(x) && x@ == ManagerErrorView::Runner(RunnerErrorView::Tracker(e))
                    && final(self)@ == old(self)@ && final(self).signal_channel() == old(self).signal_channel()
                    && final(self).stop_channels() == old(self).stop_channels()),
                None => (res matches Ok(v) && final(self)@.tracker == batch_started(old(self)@.tracker, opts@)
                    && final(self)@.monitoring && final(self).signal_channel() == Some(signals)
                    && channels_kept(old(self).stop_channels(), final(self).stop_channels(), Set::empty())
                    && v@.len() == opts@.len()
                    && forall|i: int| 0 <= i < v@.len() ==> #[trigger] fresh_report(
                        (old(self)@.tracker.next_id + i) as u64, opts@[i], v@[i])
                        && launched_on(final(self).stop_channels(), (old(self)@.tracker.next_id + i) as u64, v@[i])),
            },
    {
        match self.runner.batch_add(&mut self.tracker, opts) {
            Ok(v) => {
                self.sender = Some(signals);
                Ok(v)
            },
            Err(e) => Err(ManagerError::Runner(e)),
        }
    }

    /// Registers the service defined by `opts` and tries to start it; this needs the
    /// manager to monitor.
    pub fn add(&mut self, opts: ServiceOpts) -> (res: Result<StartAttempt, ManagerError>)
        requires
            old(self).wf(),
            old(self)@.tracker.next_id < u64::MAX,
        ensures
            final(self).wf(),
            final(self)@.monitoring == old(self)@.monitoring,
            final(self).signal_channel() == old(self).signal_channel(),
            !old(self)@.monitoring ==> (res matches Err(e) && e@ == ManagerErrorView::MonitorNotRunning
                && final(self)@ == old(self)@ && final(self).stop_channels() == old(self).stop_channels()),
            old(self)@.monitoring ==> match old(self)@.tracker.add_error(opts@) {
                Some(e) => (res matches Err(x) && x@ == ManagerErrorView::Runner(RunnerErrorView::Tracker(e))
                    && final(self)@.tracker == old(self)@.tracker
                    && final(self).stop_channels() == old(self).stop_channels()),
                None => (res matches Ok(a) && final(self)@.tracker == start_spec(old(self)@.tracker.added(opts@), opts@.name)
                    && start_reports(old(self)@.tracker.added(opts@), opts@.name, a)
                    && start_channels(old(self)@.tracker.added(opts@), opts@.name, old(self).stop_channels(),
                        final(self).stop_channels())
                    && launched_on(final(self).stop_channels(), old(self)@.tracker.next_id, a)),
            },
    {
        if self.sender.is_none() {
            return Err(ManagerError::MonitorNotRunning);
        }
        match self.runner.add(opts, &mut self.tracker) {
            Ok(a) => Ok(a),
            Err(e) => Err(ManagerError::Runner(e)),
        }
    }

    /// Unregisters the service registered as `service_name`, together with its stop
    /// channel if it holds one (the stop signal is sent on it first, whether or not it gets
    /// through).
    pub fn delete(&mut self, service_name: &str) -> (res: Result<(), ManagerError>)
        requires
            old(self).wf(),
        ensures
            final(self).wf(),
            final(self)@.monitoring == old(self)@.monitoring,
            final(self).signal_channel() == old(self).signal_channel(),
            !old(self)@.tracker.registered(service_name@) ==> (res matches Err(e)
                && e@ == ManagerErrorView::Runner(RunnerErrorView::Tracker(TrackerErrorView::NotRegistered(service_name@)))
                && final(self)@ == old(self)@ && final(self).stop_channels() == old(self).stop_channels()),
            old(self)@.tracker.registered(service_name@) ==> res is Ok
                && final(self)@.tracker == old(self)@.tracker.removed(service_name@)
                && final(self).stop_channels() == old(self).stop_channels().remove(old(self)@.tracker.ids[service_name@]),
    {
        match self.runner.delete(service_name, &mut self.tracker) {
            Ok(()) => Ok(()),
            Err(e) => Err(ManagerError::Runner(e)),
        }
    }

    /// Stops the service registered as `service_name`, which must hold a stop channel:
    /// `delivered` says whether the stop signal sent on it got through.
    pub fn stop(&mut self, service_name: &str, delivered: bool) -> (res: Result<(), ManagerError>)
        requires
            old(self).wf(),
        ensures
            final(self).wf(),
            final(self)@.monitoring == old(self)@.monitoring,
            final(self).signal_channel() == old(self).signal_channel(),
            res is Err ==> final(self)@ == old(self)@ && final(self).stop_channels() == old(self).stop_channels(),
            !old(self)@.tracker.registered(service_name@) ==> (res matches Err(e)
                && e@ == ManagerErrorView::Runner(RunnerErrorView::Tracker(TrackerErrorView::NotRegistered(service_name@)))),
            old(self)@.tracker.registered(service_name@)
                && !old(self)@.tracker.senders.contains(old(self)@.tracker.ids[service_name@]) ==> (res matches Err(e)
                && e@ == ManagerErrorView::Runner(RunnerErrorView::Tracker(TrackerErrorView::NoSender(service_name@)))),
            old(self)@.tracker.registered(service_name@)
                && old(self)@.tracker.senders.contains(old(self)@.tracker.ids[service_name@]) && !delivered
                ==> (res matches Err(e) && e@ == ManagerErrorView::Runner(RunnerErrorView::SignalNotDelivered(service_name@))),
            old(self)@.tracker.registered(service_name@)
                && old(self)@.tracker.senders.contains(old(self)@.tracker.ids[service_name@]) && delivered
                ==> res is Ok && final(self)@.tracker == (TrackerView {
                    senders: old(self)@.tracker.senders.remove(old(self)@.tracker.ids[service_name@]),
                    ..old(self)@.tracker
                }) && final(self).stop_channels() == old(self).stop_channels().remove(old(self)@.tracker.ids[service_name@]),
    {
        match self.runner.stop(service_name, &mut self.tracker, delivered) {
            Ok(()) => Ok(()),
            Err(e) => Err(ManagerError::Runner(e)),
        }
    }

    /// Starts the service registered as `service_name`; this needs the manager to monitor.
    pub fn start(&mut self, service_name: &str) -> (res: Result<Launch, ManagerError>)
        requires
            old(self).wf(),
        ensures
            final(self).wf(),
            final(self)@.monitoring == old(self)@.monitoring,
            final(self).signal_channel() == old(self).signal_channel(),
            !old(self)@.monitoring ==> (res matches Err(e) && e@ == ManagerErrorView::MonitorNotRunning
                && final(self)@ == old(self)@ && final(self).stop_channels() == old(self).stop_channels()),
            old(self)@.monitoring ==> final(self)@.tracker == start_spec(old(self)@.tracker, service_name@),
            old(self)@.monitoring ==> start_channels(old(self)@.tracker, service_name@, old(self).stop_channels(),
                final(self).stop_channels()),
            res matches Ok(l) ==> final(self).stop_channels().contains_key(old(self)@.tracker.ids[service_name@])
                && stop_pair(final(self).stop_channels()[old(self)@.tracker.ids[service_name@]], l.receiver),
            old(self)@.monitoring ==> match res {
                Ok(l) => start_reports(old(self)@.tracker, service_name@, Ok(l)),
                Err(ManagerError::Runner(e)) => start_reports(old(self)@.tracker, service_name@, Err(e)),
                Err(_) => false,
            },
    {
        if self.sender.is_none() {
            return Err(ManagerError::MonitorNotRunning);
        }
        match self.runner.start(&mut self.tracker, service_name) {
            Ok(l) => Ok(l),
            Err(e) => Err(ManagerError::Runner(e)),
        }
    }

    /// Summaries of all services, one each.
    pub fn list(&self) -> (res: Vec<SimpleService>)
        requires
            self.wf(),
        ensures
            exists|ks: Seq<u64>| #![auto] self@.tracker.lists_all(ks)
                && res@.map_values(|s: SimpleService| s@) == self@.tracker.listing(ks),
    {
        let res = self.tracker.list_services();
        proof {
            let ks = choose|ks: Seq<u64>| #![auto] self.tracker@.lists_all(ks)
                && res@.map_values(|s: SimpleService| s@) == self.tracker@.listing(ks);
            assert(self@.tracker.lists_all(ks) && res@.map_values(|s: SimpleService| s@) == self@.tracker.listing(ks));
        }
        res
    }

    /// Acts on the next signal from the services, or on the channel having closed (`None`):
    /// the first healthy report of a service since it was last started lets its dependents
    /// count it, and those without a stop channel try to start.
    pub fn handle_signal(&mut self, signal: Option<ManagerSignal>) -> (res: ListenStep)
        requires
            old(self).wf(),
            signal matches Some(ManagerSignal::Healthy(n)) ==> (report_counts(old(self)@.tracker, n@)
                ==> children_have_room(old(self)@.tracker, n@)),
        ensures
            final(self).wf(),
            final(self)@.monitoring == old(self)@.monitoring,
            final(self).signal_channel() == old(self).signal_channel(),
            signal is None ==> res is Closed && final(self)@ == old(self)@
                && final(self).stop_channels() == old(self).stop_channels(),
            (signal is Some && !(signal matches Some(ManagerSignal::Healthy(_)))) ==> res is Ignored
                && final(self)@ == old(self)@ && final(self).stop_channels() == old(self).stop_channels(),
            signal matches Some(ManagerSignal::Healthy(n)) ==> (res matches ListenStep::Healthy(r) && (
                if old(self)@.tracker.registered(n@) {
                    r matches Ok(v) && final(self)@.tracker == healthy_spec(old(self)@.tracker, n@)
                        && healthy_reports(old(self)@.tracker, n@, v@, final(self).stop_channels())
                        && channels_kept(old(self).stop_channels(), final(self).stop_channels(),
                            started_dependents(old(self)@.tracker, n@))
                } else {
                    r matches Err(e) && e@ == RunnerErrorView::Tracker(TrackerErrorView::NotRegistered(n@))
                        && final(self)@ == old(self)@ && final(self).stop_channels() == old(self).stop_channels()
                })),
    {
        match signal {
            None => ListenStep::Closed,
            Some(ManagerSignal::Healthy(service_name)) => {
                ListenStep::Healthy(self.runner.process_healthy_service(&mut self.tracker, service_name.as_str()))
            },
            Some(_) => ListenStep::Ignored,
        }
    }

    /// Records that the service of id `id` runs as process `pid`.
    pub fn record_start(&mut self, id: u64, pid: u32) -> (found: bool)
        requires
            old(self).wf(),
        ensures
            final(self).wf(),
            final(self)@.monitoring == old(self)@.monitoring,
            final(self).signal_channel() == old(self).signal_channel(),
            final(self).stop_channels() == old(self).stop_channels(),
            found == old(self)@.tracker.services.contains_key(id),
            found ==> final(self)@.tracker == old(self)@.tracker.with_service(id,
                old(self)@.tracker.services[id].with_pid(pid).with_status(Status::Running)),
            !found ==> final(self)@ == old(self)@,
    {
        self.tracker.start_running(id, pid)
    }

    /// Records that the process of the service of id `id` ended as `exit` says.
    pub fn record_exit(&mut self, id: u64, exit: RunExit) -> (found: bool)
        requires
            old(self).wf(),
        ensures
            final(self).wf(),
            final(self)@.monitoring == old(self)@.monitoring,
            final(self).signal_channel() == old(self).signal_channel(),
            final(self).stop_channels() == old(self).stop_channels(),
            found == old(self)@.tracker.services.contains_key(id),
            found ==> final(self)@.tracker == old(self)@.tracker.with_service(id,
                old(self)@.tracker.services[id].with_pid(0).with_status(exit_status(exit))),
            !found ==> final(self)@ == old(self)@,
    {
        self.tracker.finish_running(id, exit)
    }
}

} // verus!
