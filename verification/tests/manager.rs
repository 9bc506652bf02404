use sminit::manager::{ListenStep, Manager, ManagerError, ManagerSignal};
use sminit::reader::{read_all, DirEntryReport};
use sminit::service::{BackgroundStep, RunExit, Service, ServiceOpts, ServiceSignal, Status};

fn opts(name: &str, after: &[&str], one_shot: bool) -> ServiceOpts {
    ServiceOpts {
        name: name.to_string(),
        cmd: "echo hi".to_string(),
        health_check: "sleep 1".to_string(),
        combine_log: true,
        one_shot,
        after: after.iter().map(|s| s.to_string()).collect(),
    }
}

#[test]
fn manager_needs_monitor_for_add_and_start() {
    let mut m = Manager::new("/srv".to_string());
    assert_eq!(m.dir_path(), "/srv");
    assert!(matches!(m.add(opts("a", &[], false)), Err(ManagerError::MonitorNotRunning)));
    assert!(matches!(m.start("a"), Err(ManagerError::MonitorNotRunning)));
    assert!(m.list().is_empty());
}

#[test]
fn manager_monitor_and_signals() {
    let mut m = Manager::new("/srv".to_string());
    let reports = vec![
        DirEntryReport { path: "/srv/a.yaml".to_string(), is_file: true, open_failure: None, file_name: Some("a.yaml".to_string()), parsed: Ok(opts("", &[], false)) },
        DirEntryReport { path: "/srv/b.yaml".to_string(), is_file: true, open_failure: None, file_name: Some("b.yaml".to_string()), parsed: Ok(opts("", &["a"], false)) },
    ];
    let defs = read_all("/srv", reports).unwrap();
    let (tx, _rx) = tokio::sync::mpsc::channel(100);
    let attempts = m.monitor(&defs, tx).unwrap();
    assert!(m.signal_sender().is_some());
    assert_eq!(attempts.len(), 2);
    assert!(attempts[0].is_ok());
    assert!(attempts[1].is_err());
    assert!(matches!(m.handle_signal(None), ListenStep::Closed));
    assert!(matches!(m.handle_signal(Some(ManagerSignal::ListServices)), ListenStep::Ignored));
    match m.handle_signal(Some(ManagerSignal::Healthy("a".to_string()))) {
        ListenStep::Healthy(Ok(v)) => {
            assert_eq!(v.len(), 1);
            assert!(v[0].is_ok());
        }
        _ => panic!("expected the dependents of a to be tried"),
    }
    assert!(m.tracker().get_sender("b").is_ok());
    m.stop("b", true).unwrap();
    assert!(m.tracker().get_sender("b").is_err());
    let id = m.tracker().get_service("a").unwrap().id;
    assert!(m.record_start(id, 7));
    assert_eq!(m.tracker().get_service("a").unwrap().status, Status::Running);
    assert!(m.record_exit(id, RunExit::WaitFailed));
    assert_eq!(m.tracker().get_service("a").unwrap().status, Status::Failure);
    // a still holds its stop channel, whose signal went nowhere: it is deleted all the same
    assert!(m.tracker().get_sender("a").is_ok());
    m.delete("a").unwrap();
    assert!(m.tracker().get_service("a").is_err());
    assert!(m.delete("a").is_err());
}

#[test]
fn background_steps() {
    let svc = Service::from_opts(1, opts("a", &[], false));
    assert_eq!(svc.background_service(None), BackgroundStep::Run);
    assert_eq!(svc.background_service(Some(ServiceSignal::Stop)), BackgroundStep::Exit);
    let once = Service::from_opts(2, opts("b", &[], true));
    assert_eq!(once.background_service(None), BackgroundStep::RunOnce);
    assert_eq!(once.background_service(Some(ServiceSignal::Stop)), BackgroundStep::RunOnce);
}

#[test]
fn service_state_changes() {
    let mut svc = Service::from_opts(5, opts("a", &["x", "y"], false));
    assert_eq!(svc.indegree, 2);
    svc.increase_healthy_parents();
    svc.increase_healthy_parents();
    assert_eq!(svc.healthy_parents, 2);
    svc.start_running(99);
    assert_eq!((svc.pid, svc.status), (99, Status::Running));
    svc.finish_running(RunExit::Exited(None));
    assert_eq!((svc.pid, svc.status), (0, Status::Failure));
    svc.change_status(Status::Stopped);
    let simple = svc.simplify();
    assert_eq!(simple.name, "a");
    assert_eq!(simple.status, Status::Stopped);
    assert_eq!(simple.after, vec!["x".to_string(), "y".to_string()]);
    let copy = svc.clone();
    assert_eq!(copy.opts, svc.opts);
}

#[test]
fn add_and_start_after_monitor() {
    let mut m = Manager::new("/srv".to_string());
    let empty = read_all("/srv", Vec::new()).unwrap();
    let (tx, _rx) = tokio::sync::mpsc::channel(100);
    let keep = tx.clone();
    assert!(m.monitor(&empty, tx).unwrap().is_empty());
    assert!(m.signal_sender().unwrap().same_channel(&keep));
    let attempt = m.add(opts("a", &[], false)).unwrap();
    assert!(attempt.is_ok());
    assert!(m.tracker().get_sender("a").is_ok());
    assert!(m.add(opts("b", &["a"], false)).unwrap().is_err());
    m.stop("a", true).unwrap();
    assert!(m.tracker().get_sender("a").is_err());
    let launch = m.start("a").unwrap();
    assert_eq!(launch.service.opts.name, "a");
    assert!(m.tracker().get_sender("a").is_ok());
    assert!(m.start("zz").is_err());
}

#[test]
fn delete_without_stop_channel() {
    let mut m = Manager::new("/srv".to_string());
    let empty = read_all("/srv", Vec::new()).unwrap();
    let (tx, _rx) = tokio::sync::mpsc::channel(100);
    m.monitor(&empty, tx).unwrap();
    m.add(opts("a", &[], false)).unwrap().unwrap();
    assert!(m.add(opts("b", &["a"], false)).unwrap().is_err());
    // b is pending: it holds no stop channel and goes at once
    m.delete("b").unwrap();
    assert!(m.tracker().get_service("b").is_err());
    // stopping a service without a stop channel is refused
    m.stop("a", true).unwrap();
    assert!(matches!(m.stop("a", true), Err(ManagerError::Runner(_))));
    m.delete("a").unwrap();
    assert!(m.list().is_empty());
}

#[test]
fn stop_signal_ends_the_run() {
    let mut svc = Service::from_opts(3, opts("a", &[], false));
    assert!(svc.stop_requested(Some(ServiceSignal::Stop)));
    assert!(!svc.stop_requested(None));
    let once = Service::from_opts(4, opts("b", &[], true));
    assert!(once.stop_requested(Some(ServiceSignal::Stop)));
    svc.start_running(42);
    svc.finish_running(RunExit::Stopped);
    assert_eq!((svc.pid, svc.status), (0, Status::Stopped));
}

fn summary(m: &Manager<String>) -> Vec<(String, u32, Status, Vec<String>, u32, bool)> {
    let mut v: Vec<_> = m
        .list()
        .into_iter()
        .map(|s| {
            let svc = m.tracker().get_service(&s.name).unwrap();
            let running = m.tracker().get_sender(&s.name).is_ok();
            (s.name, s.pid, s.status, s.after, svc.healthy_parents, running)
        })
        .collect();
    v.sort_by(|a, b| a.0.cmp(&b.0));
    v
}

#[test]
fn only_healthy_signals_change_the_registry() {
    let defs = || {
        let reports = vec![
            DirEntryReport { path: "/srv/a.yaml".to_string(), is_file: true, open_failure: None, file_name: Some("a.yaml".to_string()), parsed: Ok(opts("", &[], false)) },
            DirEntryReport { path: "/srv/b.yaml".to_string(), is_file: true, open_failure: None, file_name: Some("b.yaml".to_string()), parsed: Ok(opts("", &["a"], false)) },
        ];
        read_all("/srv", reports).unwrap()
    };
    let mut all = Manager::new("/srv".to_string());
    let mut healthy_only = Manager::new("/srv".to_string());
    let (tx, _rx) = tokio::sync::mpsc::channel(100);
    all.monitor(&defs(), tx.clone()).unwrap();
    healthy_only.monitor(&defs(), tx).unwrap();
    all.handle_signal(Some(ManagerSignal::ListServices));
    all.handle_signal(Some(ManagerSignal::Healthy("a".to_string())));
    all.handle_signal(Some(ManagerSignal::StopService("a".to_string())));
    all.handle_signal(Some(ManagerSignal::Healthy("a".to_string())));
    healthy_only.handle_signal(Some(ManagerSignal::Healthy("a".to_string())));
    healthy_only.handle_signal(Some(ManagerSignal::Healthy("a".to_string())));
    assert_eq!(summary(&all), summary(&healthy_only));
    assert_eq!(summary(&all)[1].4, 1);
}

#[test]
fn loop_goes_on_until_a_stop() {
    let svc = Service::from_opts(3, opts("a", &[], false));
    assert!(svc.continue_after(RunExit::Exited(Some(0))));
    assert!(svc.continue_after(RunExit::Exited(Some(1))));
    assert!(svc.continue_after(RunExit::WaitFailed));
    assert!(!svc.continue_after(RunExit::Stopped));
    let once = Service::from_opts(4, opts("b", &[], true));
    assert!(!once.continue_after(RunExit::Exited(Some(0))));
}
