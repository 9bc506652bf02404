use sminit::reader::{read_all, DirEntryReport, OptsMap};
use sminit::runner::{Runner, RunnerError};
use sminit::service::{ServiceOpts, Status};
use sminit::tracker::{Tracker, TrackerError};

fn opts(name: &str, after: &[&str]) -> ServiceOpts {
    ServiceOpts {
        name: name.to_string(),
        cmd: format!("run {}", name),
        health_check: "sleep 1".to_string(),
        combine_log: false,
        one_shot: false,
        after: after.iter().map(|s| s.to_string()).collect(),
    }
}

fn map_of(defs: Vec<ServiceOpts>) -> OptsMap {
    let reports = defs
        .into_iter()
        .map(|o| DirEntryReport {
            path: format!("/srv/{}.yaml", o.name),
            is_file: true,
            open_failure: None,
            file_name: Some(format!("{}.yaml", o.name)),
            parsed: Ok(o),
        })
        .collect();
    read_all("/srv", reports).unwrap()
}

fn child_names(tracker: &Tracker, name: &str) -> Vec<String> {
    let mut v: Vec<String> = tracker.get_children(name).unwrap().into_iter().map(|s| s.opts.name).collect();
    v.sort();
    v
}

#[test]
fn add_assigns_ids_and_indegree() {
    let mut t = Tracker::new();
    t.add(opts("a", &[])).unwrap();
    t.add(opts("b", &["a"])).unwrap();
    let a = t.get_service("a").unwrap();
    let b = t.get_service("b").unwrap();
    assert_eq!(a.id, 1);
    assert_eq!(b.id, 2);
    assert_eq!(a.indegree, 0);
    assert_eq!(b.indegree, 1);
    assert_eq!(b.healthy_parents, 0);
    assert_eq!(b.status, Status::Init);
    assert_eq!(b.pid, 0);
}

#[test]
fn add_refuses_duplicates_and_unknown_parents() {
    let mut t = Tracker::new();
    t.add(opts("a", &[])).unwrap();
    assert!(matches!(t.add(opts("a", &[])), Err(TrackerError::AlreadyRegistered(n)) if n == "a"));
    assert!(matches!(t.add(opts("c", &["a", "x", "y"])), Err(TrackerError::ParentNotRegistered(n)) if n == "x"));
    assert!(matches!(t.get_service("c"), Err(TrackerError::NotRegistered(_))));
    // refused registrations use up no id
    t.add(opts("d", &[])).unwrap();
    assert_eq!(t.get_service("d").unwrap().id, 2);
}

#[test]
fn add_links_new_service_under_its_parents() {
    let mut t = Tracker::new();
    t.add(opts("a", &[])).unwrap();
    t.add(opts("b", &[])).unwrap();
    t.add(opts("c", &["a", "b"])).unwrap();
    assert_eq!(child_names(&t, "a"), vec!["c".to_string()]);
    assert_eq!(child_names(&t, "b"), vec!["c".to_string()]);
    assert!(child_names(&t, "c").is_empty());
}

#[test]
fn add_then_remove_forgets_the_service() {
    let mut t = Tracker::new();
    t.add(opts("a", &[])).unwrap();
    t.add(opts("b", &["a"])).unwrap();
    t.remove("b").unwrap();
    assert!(matches!(t.get_service("b"), Err(TrackerError::NotRegistered(_))));
    assert!(child_names(&t, "a").is_empty());
    assert_eq!(t.list_services().len(), 1);
    assert!(matches!(t.remove("b"), Err(TrackerError::NotRegistered(n)) if n == "b"));
    // the name can be registered again, under a new id
    t.add(opts("b", &["a"])).unwrap();
    assert_eq!(t.get_service("b").unwrap().id, 3);
}

#[test]
fn batch_add_links_dependents() {
    let mut t = Tracker::new();
    let defs = map_of(vec![opts("a", &[]), opts("b", &["a"]), opts("c", &["a", "b"])]);
    t.batch_add(&defs).unwrap();
    assert_eq!(t.get_service("a").unwrap().id, 1);
    assert_eq!(t.get_service("b").unwrap().id, 2);
    assert_eq!(t.get_service("c").unwrap().id, 3);
    assert_eq!(child_names(&t, "a"), vec!["b".to_string(), "c".to_string()]);
    assert_eq!(child_names(&t, "b"), vec!["c".to_string()]);
    assert!(child_names(&t, "c").is_empty());
}

#[test]
fn batch_add_refuses_unknown_parent() {
    let mut t = Tracker::new();
    let defs = map_of(vec![opts("a", &[]), opts("b", &["a", "zz"])]);
    assert!(matches!(t.batch_add(&defs), Err(TrackerError::ParentNotRegistered(n)) if n == "zz"));
    assert!(t.list_services().is_empty());
}

#[test]
fn senders_insert_get_remove() {
    let mut t = Tracker::new();
    t.add(opts("a", &[])).unwrap();
    assert!(matches!(t.get_sender("a"), Err(TrackerError::NoSender(_))));
    let (tx, _rx) = tokio::sync::mpsc::channel(1);
    let keep = tx.clone();
    t.insert_sender("a", tx).unwrap();
    assert!(t.get_sender("a").unwrap().same_channel(&keep));
    // a second insert replaces the first
    let (tx2, _rx2) = tokio::sync::mpsc::channel(1);
    let keep2 = tx2.clone();
    t.insert_sender("a", tx2).unwrap();
    assert!(t.get_sender("a").unwrap().same_channel(&keep2));
    assert!(!t.get_sender("a").unwrap().same_channel(&keep));
    t.remove_sender("a").unwrap();
    assert!(matches!(t.get_sender("a"), Err(TrackerError::NoSender(_))));
    let (tx, _rx) = tokio::sync::mpsc::channel(1);
    assert!(matches!(t.insert_sender("zz", tx), Err(TrackerError::NotRegistered(_))));
}

#[test]
fn list_services_summarises_each_service() {
    let mut t = Tracker::new();
    t.add(opts("a", &[])).unwrap();
    t.add(opts("b", &["a"])).unwrap();
    let mut list = t.list_services();
    list.sort_by(|x, y| x.name.cmp(&y.name));
    assert_eq!(list.len(), 2);
    assert_eq!(list[0].name, "a");
    assert_eq!(list[1].name, "b");
    assert_eq!(list[1].after, vec!["a".to_string()]);
    assert_eq!(list[1].status, Status::Init);
    assert_eq!(list[1].pid, 0);
}

#[test]
fn run_bookkeeping() {
    let mut t = Tracker::new();
    t.add(opts("a", &[])).unwrap();
    let id = t.get_service("a").unwrap().id;
    assert!(t.start_running(id, 4242));
    let s = t.get_service("a").unwrap();
    assert_eq!((s.pid, s.status), (4242, Status::Running));
    assert!(t.finish_running(id, sminit::service::RunExit::Exited(Some(0))));
    let s = t.get_service("a").unwrap();
    assert_eq!((s.pid, s.status), (0, Status::Successful));
    assert!(t.finish_running(id, sminit::service::RunExit::Exited(Some(3))));
    assert_eq!(t.get_service("a").unwrap().status, Status::Failure);
    assert!(!t.start_running(99, 1));
}

#[test]
fn start_only_when_parents_are_healthy() {
    let runner = Runner {};
    let mut t = Tracker::new();
    t.add(opts("a", &[])).unwrap();
    t.add(opts("b", &["a"])).unwrap();
    let launch = runner.start(&mut t, "a").unwrap();
    assert_eq!(launch.service.opts.name, "a");
    assert!(t.get_sender("a").is_ok());
    assert!(matches!(runner.start(&mut t, "b"), Err(RunnerError::StillPending(n)) if n == "b"));
    assert_eq!(t.get_service("b").unwrap().status, Status::Pending);
    assert!(t.get_sender("b").is_err());
    assert!(matches!(runner.start(&mut t, "zz"), Err(RunnerError::Tracker(TrackerError::NotRegistered(_)))));
}

#[test]
fn healthy_parent_starts_ready_dependents() {
    let runner = Runner {};
    let mut t = Tracker::new();
    t.add(opts("a", &[])).unwrap();
    t.add(opts("b", &[])).unwrap();
    t.add(opts("c", &["a", "b"])).unwrap();
    t.add(opts("d", &["a"])).unwrap();
    let attempts = runner.process_healthy_service(&mut t, "a").unwrap();
    assert_eq!(attempts.len(), 2);
    // d waited only for a: it starts; c still waits for b
    assert!(t.get_sender("d").is_ok());
    assert!(t.get_sender("c").is_err());
    assert_eq!(t.get_service("c").unwrap().healthy_parents, 1);
    assert_eq!(t.get_service("c").unwrap().status, Status::Pending);
    let attempts = runner.process_healthy_service(&mut t, "b").unwrap();
    assert_eq!(attempts.len(), 1);
    assert!(attempts[0].is_ok());
    assert!(t.get_sender("c").is_ok());
    assert!(matches!(runner.process_healthy_service(&mut t, "zz"), Err(RunnerError::Tracker(TrackerError::NotRegistered(_)))));
}

#[test]
fn runner_add_and_batch_add_start_what_they_can() {
    let runner = Runner {};
    let mut t = Tracker::new();
    let defs = map_of(vec![opts("a", &[]), opts("b", &["a"])]);
    let attempts = runner.batch_add(&mut t, &defs).unwrap();
    assert_eq!(attempts.len(), 2);
    assert!(attempts[0].is_ok());
    assert!(matches!(&attempts[1], Err(RunnerError::StillPending(n)) if n == "b"));
    let attempt = runner.add(opts("c", &[]), &mut t).unwrap();
    assert!(attempt.is_ok());
    assert!(matches!(runner.add(opts("c", &[]), &mut t), Err(RunnerError::Tracker(TrackerError::AlreadyRegistered(_)))));
}

#[test]
fn stop_and_delete() {
    let runner = Runner {};
    let mut t = Tracker::new();
    t.add(opts("a", &[])).unwrap();
    runner.start(&mut t, "a").unwrap();
    // an undelivered stop signal keeps everything as it was
    assert!(matches!(runner.stop("a", &mut t, false), Err(RunnerError::SignalNotDelivered(n)) if n == "a"));
    assert!(t.get_sender("a").is_ok());
    runner.stop("a", &mut t, true).unwrap();
    assert!(t.get_sender("a").is_err());
    assert!(t.get_service("a").is_ok());
    assert!(matches!(runner.stop("a", &mut t, true), Err(RunnerError::Tracker(TrackerError::NoSender(_)))));
    runner.delete("a", &mut t).unwrap();
    assert!(t.get_service("a").is_err());
    assert!(matches!(runner.delete("a", &mut t), Err(RunnerError::Tracker(TrackerError::NotRegistered(_)))));
}

#[test]
fn stop_signal_reaches_the_started_service() {
    let runner = Runner {};
    let mut t = Tracker::new();
    t.add(opts("a", &[])).unwrap();
    let mut launch = runner.start(&mut t, "a").unwrap();
    t.get_sender("a").unwrap().try_send(sminit::service::ServiceSignal::Stop).unwrap();
    assert_eq!(launch.receiver.try_recv().unwrap(), sminit::service::ServiceSignal::Stop);
}

#[test]
fn only_first_report_since_start_counts() {
    let runner = Runner {};
    let mut t = Tracker::new();
    t.add(opts("a", &[])).unwrap();
    t.add(opts("b", &["a"])).unwrap();
    runner.start(&mut t, "a").unwrap();
    let attempts = runner.process_healthy_service(&mut t, "a").unwrap();
    assert_eq!(attempts.len(), 1);
    assert!(attempts[0].is_ok());
    assert_eq!(t.get_service("b").unwrap().healthy_parents, 1);
    // a second report from the same run of a changes nothing
    let attempts = runner.process_healthy_service(&mut t, "a").unwrap();
    assert!(attempts.is_empty());
    assert_eq!(t.get_service("b").unwrap().healthy_parents, 1);
    // once a is started anew, its report counts again; b holds a stop channel and is
    // only counted, not started a second time
    runner.stop("a", &mut t, true).unwrap();
    runner.start(&mut t, "a").unwrap();
    let attempts = runner.process_healthy_service(&mut t, "a").unwrap();
    assert!(attempts.is_empty());
    assert_eq!(t.get_service("b").unwrap().healthy_parents, 2);
    assert!(t.get_sender("b").is_ok());
}

#[test]
fn stopped_dependent_is_started_again() {
    let runner = Runner {};
    let mut t = Tracker::new();
    t.add(opts("a", &[])).unwrap();
    t.add(opts("b", &["a"])).unwrap();
    runner.start(&mut t, "a").unwrap();
    runner.process_healthy_service(&mut t, "a").unwrap();
    runner.stop("b", &mut t, true).unwrap();
    runner.stop("a", &mut t, true).unwrap();
    runner.start(&mut t, "a").unwrap();
    // b counts a second healthy parent, more than it waits for: it stays pending
    let attempts = runner.process_healthy_service(&mut t, "a").unwrap();
    assert_eq!(attempts.len(), 1);
    assert!(matches!(&attempts[0], Err(RunnerError::StillPending(n)) if n == "b"));
    assert_eq!(t.get_service("b").unwrap().status, Status::Pending);
}

#[test]
fn several_batches_keep_dependents_exact() {
    let mut t = Tracker::new();
    t.batch_add(&map_of(vec![opts("a", &[]), opts("b", &["a"])])).unwrap();
    t.batch_add(&map_of(vec![opts("c", &[]), opts("d", &["c"]), opts("e", &["c", "d"])])).unwrap();
    t.add(opts("f", &["a", "e"])).unwrap();
    assert_eq!(child_names(&t, "a"), vec!["b".to_string(), "f".to_string()]);
    assert!(child_names(&t, "b").is_empty());
    assert_eq!(child_names(&t, "c"), vec!["d".to_string(), "e".to_string()]);
    assert_eq!(child_names(&t, "d"), vec!["e".to_string()]);
    assert_eq!(child_names(&t, "e"), vec!["f".to_string()]);
}

#[test]
fn ids_count_built_services() {
    let mut t = Tracker::new();
    let ids: Vec<u64> = ["x", "y", "z"].iter().map(|n| t.new_service(opts(n, &[])).id).collect();
    assert_eq!(ids, vec![1, 2, 3]);
    assert_eq!(t.next_id(), 4);
    assert!(t.list_services().is_empty());
}

#[test]
fn healthy_parent_counts_add_up() {
    let mut svc = sminit::service::Service::from_opts(1, opts("a", &["p", "q", "r"]));
    for _ in 0..3 {
        svc.increase_healthy_parents();
    }
    assert_eq!(svc.healthy_parents, 3);
    assert_eq!(svc.indegree, 3);
    assert_eq!(svc.status, Status::Init);
}

#[test]
fn healthy_reports_are_recorded_until_the_next_start() {
    let mut t = Tracker::new();
    t.add(opts("a", &[])).unwrap();
    let id = t.get_service("a").unwrap().id;
    assert!(t.record_healthy(id));
    assert!(!t.record_healthy(id));
    assert!(!t.record_healthy(99));
    let (tx, _rx) = tokio::sync::mpsc::channel(1);
    t.insert_sender("a", tx).unwrap();
    assert!(t.record_healthy(id));
}

#[test]
fn incomplete_batch_is_refused_whatever_is_registered() {
    let mut t = Tracker::new();
    t.add(opts("a", &[])).unwrap();
    let defs = map_of(vec![opts("a", &[]), opts("b", &["zz"])]);
    assert!(matches!(t.batch_add(&defs), Err(TrackerError::ParentNotRegistered(n)) if n == "zz"));
    assert_eq!(t.list_services().len(), 1);
    assert_eq!(t.next_id(), 2);
    let runner = Runner {};
    assert!(matches!(runner.batch_add(&mut t, &defs), Err(RunnerError::Tracker(TrackerError::ParentNotRegistered(_)))));
    assert_eq!(t.list_services().len(), 1);
}

#[test]
fn started_service_is_deleted_without_a_stop() {
    let runner = Runner {};
    let mut t = Tracker::new();
    t.add(opts("a", &[])).unwrap();
    let launch = runner.start(&mut t, "a").unwrap();
    drop(launch);
    // the receiver is gone: a stop signal could not be delivered, the service goes anyway
    assert!(t.get_sender("a").unwrap().try_send(sminit::service::ServiceSignal::Stop).is_err());
    runner.delete("a", &mut t).unwrap();
    assert!(t.get_service("a").is_err());
}

#[test]
fn started_dependents_listen_on_their_stop_channel() {
    let runner = Runner {};
    let mut t = Tracker::new();
    t.add(opts("a", &[])).unwrap();
    t.add(opts("b", &["a"])).unwrap();
    let mut attempts = runner.process_healthy_service(&mut t, "a").unwrap();
    let mut launch = attempts.pop().unwrap().unwrap();
    t.get_sender("b").unwrap().try_send(sminit::service::ServiceSignal::Stop).unwrap();
    assert_eq!(launch.receiver.try_recv().unwrap(), sminit::service::ServiceSignal::Stop);
}
