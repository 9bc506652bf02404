use vstd::prelude::*;

verus! {

/// Lifecycle state of a tracked service.
#[derive(Debug, Clone, Copy, PartialEq, Eq, Structural)]
pub enum Status {
    Pending,
    Init,
    Running,
    Successful,
    Stopped,
    Failure,
}

/// Signals that the manager sends to a running service.
#[derive(Debug, Clone, Copy, PartialEq, Eq, Structural)]
pub enum ServiceSignal {
    Stop,
}

/// Abstract form of a service definition.
pub struct OptsView {
    pub name: Seq<char>,
    pub cmd: Seq<char>,
    pub health_check: Seq<char>,
    pub combine_log: bool,
    pub one_shot: bool,
    pub after: Seq<Seq<char>>,
}

/// A service definition: the command to run and the services it must wait for.
#[derive(Debug, PartialEq, Eq)]
pub struct ServiceOpts {
    pub name: String,
    pub cmd: String,
    pub health_check: String,
    pub combine_log: bool,
    pub one_shot: bool,
    pub after: Vec<String>,
}

pub open spec fn strings_view(v: Seq<String>) -> Seq<Seq<char>> {
    v.map_values(|s: String| s@)
}

impl View for ServiceOpts {
    type V = OptsView;

    open spec fn view(&self) -> OptsView {
        OptsView {
            name: self.name@,
            cmd: self.cmd@,
            health_check: self.health_check@,
            combine_log: self.combine_log,
            one_shot: self.one_shot,
            after: strings_view(self.after@),
        }
    }
}

/// Copies a list of strings, element by element.
pub fn clone_strings(v: &Vec<String>) -> (res: Vec<String>)
    ensures
        strings_view(res@) == strings_view(v@),
{
    let mut res: Vec<String> = Vec::new();
    for i in 0..v.len()
        invariant
            res@.len() == i,
            forall|j: int| 0 <= j < i ==> #[trigger] res@[j]@ == v@[j]@,
    {
        res.push(v[i].clone());
    }
    assert(strings_view(res@) =~= strings_view(v@));
    res
}

impl Clone for ServiceOpts {
    fn clone(&self) -> (res: Self)
        ensures
            res@ == self@,
    {
        ServiceOpts {
            name: self.name.clone(),
            cmd: self.cmd.clone(),
            health_check: self.health_check.clone(),
            combine_log: self.combine_log,
            one_shot: self.one_shot,
            after: clone_strings(&self.after),
        }
    }
}


/// Abstract form of a service summary.
pub struct SimpleView {
    pub name: Seq<char>,
    pub pid: u32,
    pub status: Status,
    pub after: Seq<Seq<char>>,
}

/// A summary of a tracked service, as handed out by listings.
#[derive(Debug)]
pub struct SimpleService {
    pub name: String,
    pub pid: u32,
    pub status: Status,
    pub after: Vec<String>,
}

impl View for SimpleService {
    type V = SimpleView;

    open spec fn view(&self) -> SimpleView {
        SimpleView {
            name: self.name@,
            pid: self.pid,
            status: self.status,
            after: strings_view(self.after@),
        }
    }
}

/// Abstract form of a tracked service.
pub struct ServiceView {
    pub id: u64,
    pub pid: u32,
    pub opts: OptsView,
    pub status: Status,
    pub indegree: u32,
    pub healthy_parents: u32,
}

impl ServiceView {
    /// The summary that a listing shows of this service.
    pub open spec fn simplified(self) -> SimpleView {
        SimpleView {
            name: self.opts.name,
            pid: self.pid,
            status: self.status,
            after: self.opts.after,
        }
    }

    /// A service may start once every service it waits for has reported healthy.
    pub open spec fn eligible(self) -> bool {
        self.indegree == self.healthy_parents
    }

    pub open spec fn with_status(self, status: Status) -> ServiceView {
        ServiceView { status: status, ..self }
    }

    pub open spec fn with_pid(self, pid: u32) -> ServiceView {
        ServiceView { pid: pid, ..self }
    }

    /// The service after one more of the services it waits for reported healthy.
    pub open spec fn bumped(self) -> ServiceView {
        ServiceView { healthy_parents: (self.healthy_parents + 1) as u32, ..self }
    }
}

/// A freshly registered service: no process, waiting for all of its parents.
pub open spec fn fresh_service(id: u64, opts: OptsView) -> ServiceView {
    ServiceView {
        id: id,
        pid: 0,
        opts: opts,
        status: Status::Init,
        indegree: opts.after.len() as u32,
        healthy_parents: 0,
    }
}

/// A tracked service: its definition and its run-time state.
#[derive(Debug)]
pub struct Service {
    pub id: u64,
    pub pid: u32,
    pub opts: ServiceOpts,
    pub status: Status,
    pub indegree: u32,
    pub healthy_parents: u32,
}

impl View for Service {
    type V = ServiceView;

    open spec fn view(&self) -> ServiceView {
        ServiceView {
            id: self.id,
            pid: self.pid,
            opts: self.opts@,
            status: self.status,
            indegree: self.indegree,
            healthy_parents: self.healthy_parents,
        }
    }
}

impl Clone for Service {
    fn clone(&self) -> (res: Self)
        ensures
            res@ == self@,
    {
        Service {
            id: self.id,
            pid: self.pid,
            opts: self.opts.clone(),
            status: self.status,
            indegree: self.indegree,
            healthy_parents: self.healthy_parents,
        }
    }
}

/// How a service's process ended, as observed by whoever waited for it.
#[derive(Debug, Clone, Copy, PartialEq, Eq, Structural)]
pub enum RunExit {
    /// Waiting for the process failed.
    WaitFailed,
    /// The process exited, with its exit code if it had one.
    Exited(Option<i32>),
    /// The process was ended because the service was told to stop.
    Stopped,
}

/// The status a service takes when its process ends: only a clean exit with code 0
/// succeeds, and a process ended on a stop signal leaves the service stopped.
pub open spec fn exit_status(exit: RunExit) -> Status {
    match exit {
        RunExit::Exited(Some(code)) => if code == 0 { Status::Successful } else { Status::Failure },
        RunExit::Stopped => Status::Stopped,
        _ => Status::Failure,
    }
}

/// What the background loop of a service does next.
#[derive(Debug, Clone, Copy, PartialEq, Eq, Structural)]
pub enum BackgroundStep {
    /// Run the command once and leave the loop.
    RunOnce,
    /// Run the command, then come back to the loop.
    Run,
    /// Leave the loop without running.
    Exit,
}

impl Service {
    /// Builds a tracked service with the given id from its definition.
    pub fn from_opts(id: u64, opts: ServiceOpts) -> (res: Service)
        ensures
            res@ == fresh_service(id, opts@),
    {
        let indegree = opts.after.len() as u32;
        Service { id, healthy_parents: 0, indegree, opts, pid: 0, status: Status::Init }
    }

    pub fn change_status(&mut self, new_status: Status)
        ensures
            final(self)@ == old(self)@.with_status(new_status),
    {
        self.status = new_status;
    }

    pub fn change_pid(&mut self, new_pid: u32)
        ensures
            final(self)@ == old(self)@.with_pid(new_pid),
    {
        self.pid = new_pid;
    }

    pub fn increase_healthy_parents(&mut self)
        requires
            old(self).healthy_parents < u32::MAX,
        ensures
            final(self)@ == old(self)@.bumped(),
    {
        self.healthy_parents = self.healthy_parents + 1;
    }

    pub fn simplify(&self) -> (res: SimpleService)
        ensures
            res@ == self@.simplified(),
    {
        SimpleService {
            name: self.opts.name.clone(),
            after: clone_strings(&self.opts.after),
            pid: self.pid,
            status: self.status,
        }
    }

    /// Decides the next step of the background loop of this service, given the
    /// signal that arrived since the last step, if any.
    /// A one-shot service runs once; any other runs until it is told to stop.
    pub fn background_service(&self, received: Option<ServiceSignal>) -> (step: BackgroundStep)
        ensures
            self.opts.one_shot ==> step == BackgroundStep::RunOnce,
            !self.opts.one_shot && received is Some ==> step == BackgroundStep::Exit,
            !self.opts.one_shot && received is None ==> step == BackgroundStep::Run,
    {
        if self.opts.one_shot {
            return BackgroundStep::RunOnce;
        }
        match received {
            Some(ServiceSignal::Stop) => BackgroundStep::Exit,
            None => BackgroundStep::Run,
        }
    }

    /// Decides, once a run of the command has ended as `exit` says, whether the background
    /// loop of this service goes on: a one-shot service runs once, and a run ended by a
    /// stop signal ends the loop.
    pub fn continue_after(&self, exit: RunExit) -> (go_on: bool)
        ensures
            go_on == (!self.opts.one_shot && exit != RunExit::Stopped),
    {
        if self.opts.one_shot {
            return false;
        }
        match exit {
            RunExit::Stopped => false,
            _ => true,
        }
    }

    /// Decides, while the command of this service runs, whether its process must be ended,
    /// given the signal that arrived meanwhile, if any: a stop signal stops the process,
    /// one-shot or not.
    pub fn stop_requested(&self, received: Option<ServiceSignal>) -> (stop: bool)
        ensures
            stop == (received matches Some(ServiceSignal::Stop)),
    {
        match received {
            Some(ServiceSignal::Stop) => true,
            None => false,
        }
    }

    /// Records that the command of this service was spawned as process `pid`:
    /// the service is running.
    pub fn start_running(&mut self, pid: u32)
        ensures
            final(self)@ == old(self)@.with_pid(pid).with_status(Status::Running),
    {
        self.change_pid(pid);
        self.change_status(Status::Running);
    }

    /// Records that the process of this service ended: it has no process any more,
    /// and its status says whether it succeeded.
    pub fn finish_running(&mut self, exit: RunExit)
        ensures
            final(self)@ == old(self)@.with_pid(0).with_status(exit_status(exit)),
    {
        self.change_pid(0);
        let status = match exit {
            RunExit::WaitFailed => Status::Failure,
            RunExit::Stopped => Status::Stopped,
            RunExit::Exited(code) => match code {
                Some(c) => if c == 0 { Status::Successful } else { Status::Failure },
                None => Status::Failure,
            },
        };
        self.change_status(status);
    }
}

} // verus!
