//! Properties of the registry and of the reading rules that hold across operations.

use vstd::prelude::*;
use crate::reader::{named, read_all_spec, read_options_spec, try_read_spec, ReportView, has_name, names_distinct, position_of, has_single_dot, only_dot_at, service_name_of, single_dot_index, with_suffix, yaml_extension, ReadErrorView};
use crate::manager::ManagerSignal;
use crate::runner::{batch_started, healthy_spec, ready_after_bump, report_counts, start_spec};
use crate::service::{exit_status, fresh_service, OptsView, RunExit, ServiceView, Status};
use crate::tracker::{batch_complete, batch_error, batch_missing, TrackerErrorView, TrackerView};

verus! {

broadcast use vstd::std_specs::hash::group_hash_axioms;

/// Registering a service and then removing it gives back the registry it started from,
/// except that the id it had is used up; the same definition can then be registered again.
pub proof fn law_add_then_remove(t: TrackerView, o: OptsView)
    requires
        t.well_formed(),
        t.add_error(o) is None,
        t.next_id < u64::MAX,
    ensures
        t.added(o).removed(o.name) == (TrackerView { next_id: (t.next_id + 1) as u64, ..t }),
        t.added(o).removed(o.name).add_error(o) is None,
{
    let a = t.added(o);
    let r = a.removed(o.name);
    let id = t.next_id;
    assert(a.ids[o.name] == id);
    assert(!t.services.contains_key(id));
    assert(r.services =~= t.services);
    assert(r.ids =~= t.ids);
    assert(r.senders =~= t.senders) by {
        assert(!t.senders.contains(id));
    }
    assert(r.reported =~= t.reported) by {
        assert(!t.reported.contains(id));
    }
    assert forall|k: u64| #[trigger] t.graph.contains_key(k) implies r.graph[k] == t.graph[k] by {
        assert(!t.graph[k].contains(id));
        assert(r.graph[k] =~= t.graph[k]);
    }
    assert(r.graph =~= t.graph);
}

/// A registered service can be looked up under its name, as a fresh service with the
/// next id; registering the same name again is refused.
pub proof fn law_add_then_lookup(t: TrackerView, o: OptsView)
    requires
        t.well_formed(),
        t.add_error(o) is None,
    ensures
        t.added(o).registered(o.name),
        t.added(o).service(o.name) == fresh_service(t.next_id, o),
        t.added(o).add_error(o) == Some(TrackerErrorView::AlreadyRegistered(o.name)),
{
}

/// A newly registered service becomes a dependent of every service it waits for, and
/// has no dependents of its own.
pub proof fn law_add_links_parents(t: TrackerView, o: OptsView, i: int)
    requires
        t.well_formed(),
        t.add_error(o) is None,
        0 <= i < o.after.len(),
    ensures
        t.added(o).children(o.after[i]).contains(t.next_id),
        t.added(o).children(o.name) == Set::<u64>::empty(),
{
    let p = t.ids[o.after[i]];
    assert(t.parents_registered(o));
    assert(t.ids.contains_key(o.after[i]));
    assert(t.parent_ids(o).contains(p));
    assert(t.services.contains_key(p));
    assert(p != t.next_id);
    assert(o.after[i] != o.name);
}

/// Ids are never handed out twice: the new service's id is not in use, and later ones are larger.
pub proof fn law_fresh_ids(t: TrackerView, o: OptsView)
    requires
        t.well_formed(),
        t.add_error(o) is None,
        t.next_id < u64::MAX,
    ensures
        !t.services.contains_key(t.next_id),
        t.added(o).next_id > t.next_id,
{
}

/// A removed service is gone from everywhere: its name, the services, the stop channels
/// and the dependency graph, also as a dependent of other services; the other names keep
/// their services.
pub proof fn law_remove_forgets(t: TrackerView, name: Seq<char>)
    requires
        t.well_formed(),
        t.registered(name),
    ensures
        !t.removed(name).registered(name),
        !t.removed(name).services.contains_key(t.ids[name]),
        !t.removed(name).senders.contains(t.ids[name]),
        !t.removed(name).graph.contains_key(t.ids[name]),
        forall|k: u64| #[trigger] t.removed(name).graph.contains_key(k) ==> !t.removed(name).graph[k].contains(t.ids[name]),
        forall|n: Seq<char>| n != name && #[trigger] t.registered(n) ==> t.removed(name).registered(n)
            && t.removed(name).service(n) == t.service(n),
{
    let id = t.ids[name];
    assert forall|n: Seq<char>| n != name && #[trigger] t.registered(n) implies t.removed(name).registered(n)
        && t.removed(name).service(n) == t.service(n) by {
        assert(t.ids[n] != id);
    }
}

/// A service starts only when every service it waits for has reported healthy; one that
/// may not start keeps its stop channels as they were and is marked pending.
pub proof fn law_start_needs_healthy_parents(t: TrackerView, name: Seq<char>)
    requires
        t.well_formed(),
        t.registered(name),
    ensures
        t.service(name).eligible() ==> start_spec(t, name).senders.contains(t.ids[name]),
        !t.service(name).eligible() ==> start_spec(t, name).senders == t.senders
            && start_spec(t, name).service(name).status == Status::Pending,
{
}

/// When a service reports healthy for the first time since it was last started, each of
/// its dependents counts one more healthy parent. A dependent without a stop channel for
/// which that completes the count gets started, one that still waits is pending; a
/// dependent that holds a stop channel is only counted.
pub proof fn law_healthy_starts_ready_dependents(t: TrackerView, name: Seq<char>, c: u64)
    requires
        t.well_formed(),
        report_counts(t, name),
        t.children(name).contains(c),
    ensures
        healthy_spec(t, name).services[c].healthy_parents == t.services[c].healthy_parents + 1
            || t.services[c].healthy_parents == u32::MAX,
        healthy_spec(t, name).services[c].indegree == t.services[c].indegree,
        !t.senders.contains(c) && t.services[c].bumped().eligible() ==> healthy_spec(t, name).senders.contains(c),
        !t.senders.contains(c) && !t.services[c].bumped().eligible()
            ==> healthy_spec(t, name).services[c].status == Status::Pending,
        t.senders.contains(c) ==> healthy_spec(t, name).services[c] == t.services[c].bumped()
            && healthy_spec(t, name).senders.contains(c),
{
    assert(t.graph.contains_key(t.ids[name]) && t.graph[t.ids[name]].contains(c));
    assert(t.services.contains_key(c));
}

/// Only the first healthy report of a service since it was last started counts: a second
/// one changes nothing. (A service that waits for itself is left out: the first report
/// may start it anew.)
pub proof fn law_second_report_changes_nothing(t: TrackerView, name: Seq<char>)
    requires
        t.well_formed(),
        report_counts(t, name),
        !t.children(name).contains(t.ids[name]),
    ensures
        healthy_spec(t, name).registered(name),
        !report_counts(healthy_spec(t, name), name),
        healthy_spec(healthy_spec(t, name), name) == healthy_spec(t, name),
{
    let id = t.ids[name];
    let t1 = TrackerView { reported: t.reported.insert(id), ..t };
    assert(!ready_after_bump(t1, t.children(name)).contains(id));
    assert(healthy_spec(t, name).reported.contains(id));
}

/// Starting a service anew makes its next healthy report count again.
pub proof fn law_start_renews_report(t: TrackerView, name: Seq<char>)
    requires
        t.well_formed(),
        t.registered(name),
        t.service(name).eligible(),
    ensures
        report_counts(start_spec(t, name), name),
{
}

/// A service that is not a dependent is untouched when another service reports healthy.
pub proof fn law_healthy_leaves_others(t: TrackerView, name: Seq<char>, k: u64)
    requires
        t.well_formed(),
        t.registered(name),
        t.services.contains_key(k),
        !t.children(name).contains(k),
    ensures
        healthy_spec(t, name).services[k] == t.services[k],
        healthy_spec(t, name).senders.contains(k) == t.senders.contains(k),
{
}

/// Stopping a service only takes its stop channel away: it stays registered, with the
/// same definition and state.
pub proof fn law_stop_keeps_service(t: TrackerView, name: Seq<char>)
    requires
        t.well_formed(),
        t.registered(name),
    ensures
        ({
            let s = TrackerView { senders: t.senders.remove(t.ids[name]), ..t };
            &&& s.registered(name)
            &&& s.service(name) == t.service(name)
            &&& !s.senders.contains(t.ids[name])
        }),
{
}

/// When the manager starts monitoring a directory, every service that waits for nobody
/// is started and every other one is pending.
pub proof fn law_monitor_starts_independent_services(t: TrackerView, o: Seq<OptsView>, i: int)
    requires
        t.well_formed(),
        0 <= i < o.len(),
        t.next_id + o.len() <= u64::MAX,
    ensures
        o[i].after.len() == 0 ==> batch_started(t, o).senders.contains((t.next_id + i) as u64),
        (o[i].after.len() as u32) != 0 ==> batch_started(t, o).services[(t.next_id + i) as u64].status == Status::Pending
            && !batch_started(t, o).senders.contains((t.next_id + i) as u64),
{
    let k = (t.next_id + i) as u64;
    assert(k - t.next_id == i);
    assert(!t.services.contains_key(k));
    assert(!t.senders.contains(k));
}

/// After a batch is registered, a service of the batch is a dependent of another exactly
/// when its definition waits for it.
pub proof fn law_batch_links_dependents(t: TrackerView, o: Seq<OptsView>, p: int, c: int)
    requires
        t.well_formed(),
        names_distinct(o),
        0 <= p < o.len(),
        0 <= c < o.len(),
        t.next_id + o.len() <= u64::MAX,
    ensures
        t.batch_added(o).children(o[p].name).contains((t.next_id + c) as u64) <==> o[c].after.contains(o[p].name),
{
    assert(has_name(o, o[p].name));
    assert(position_of(o, o[p].name) == p);
    let k = (t.next_id + p) as u64;
    assert(t.batch_added(o).ids[o[p].name] == k);
    assert(k - t.next_id == p);
    assert(((t.next_id + c) as u64) - t.next_id == c);
}

/// The file names tried for a service name without dots give that name back.
pub proof fn law_file_name_roundtrip(name: Seq<char>, yaml: bool)
    requires
        forall|i: int| 0 <= i < name.len() ==> name[i] != '.',
    ensures
        service_name_of(with_suffix(name, yaml)) == Ok::<Seq<char>, ReadErrorView>(name),
{
    let f = with_suffix(name, yaml);
    let d = name.len() as int;
    assert(f[d] == '.');
    assert(only_dot_at(f, d));
    assert(has_single_dot(f));
    let k = single_dot_index(f);
    assert(k == d);
    let ext = f.subrange(d + 1, f.len() as int);
    if yaml {
        assert(ext =~= seq!['y', 'a', 'm', 'l']);
    } else {
        assert(ext =~= seq!['y', 'm', 'l']);
    }
    assert(yaml_extension(ext));
    assert(f.subrange(0, d) =~= name);
}

/// Every service waits only for registered services, and the dependents recorded for each
/// registered service are exactly the services whose definitions wait for it.
pub open spec fn dependents_match(t: TrackerView) -> bool {
    &&& forall|c: u64, j: int| #![trigger t.services[c].opts.after[j]]
        t.services.contains_key(c) && 0 <= j < t.services[c].opts.after.len()
            ==> t.ids.contains_key(t.services[c].opts.after[j])
    &&& forall|n: Seq<char>, c: u64| #![trigger t.children(n).contains(c)]
        #![trigger t.ids.contains_key(n), t.services[c].opts.after.contains(n)]
        t.ids.contains_key(n) ==> (t.children(n).contains(c)
            <==> (t.services.contains_key(c) && t.services[c].opts.after.contains(n)))
}

/// An empty registry records no dependents, as none are owed.
pub proof fn law_empty_dependents_match(t: TrackerView)
    requires
        t.services == Map::<u64, ServiceView>::empty(),
        t.ids == Map::<Seq<char>, u64>::empty(),
    ensures
        dependents_match(t),
{
}

/// Registering a batch keeps the recorded dependents exact: for a registry built by any
/// number of batches, the dependents of each service are the services that wait for it.
pub proof fn law_batches_keep_dependents_match(t: TrackerView, o: Seq<OptsView>)
    requires
        t.well_formed(),
        dependents_match(t),
        names_distinct(o),
        batch_error(o) is None,
        t.next_id + o.len() <= u64::MAX,
        forall|m: int| 0 <= m < o.len() ==> !t.ids.contains_key(#[trigger] o[m].name),
    ensures
        dependents_match(t.batch_added(o)),
{
    let a = t.batch_added(o);
    let base = t.next_id;
    let len = o.len();
    assert(batch_complete(o));
    assert forall|c: u64, j: int| #![trigger a.services[c].opts.after[j]]
        a.services.contains_key(c) && 0 <= j < a.services[c].opts.after.len()
        implies a.ids.contains_key(a.services[c].opts.after[j]) by {
        if base <= c < base + len {
            let i = c - base;
            assert(!batch_missing(o, i, j));
            assert(a.services[c].opts == o[i]);
        } else {
            assert(t.services.contains_key(c));
            assert(t.ids.contains_key(t.services[c].opts.after[j]));
        }
    }
    assert forall|n: Seq<char>, c: u64| a.ids.contains_key(n) implies (#[trigger] a.children(n).contains(c)
        <==> (a.services.contains_key(c) && a.services[c].opts.after.contains(n))) by {
        if has_name(o, n) {
            let p = position_of(o, n);
            let k = (base + p) as u64;
            assert(a.ids[n] == k);
            assert(k - base == p);
            assert(o[p].name == n);
            assert(a.children(n) == crate::tracker::batch_children(o, base, k));
            if base <= c < base + len {
                assert(a.services[c].opts == o[c - base]);
            } else if t.services.contains_key(c) && t.services[c].opts.after.contains(n) {
                let af = t.services[c].opts.after;
                let j = choose|j: int| 0 <= j < af.len() && #[trigger] af[j] == n;
                assert(t.ids.contains_key(t.services[c].opts.after[j]));
                assert(!t.ids.contains_key(o[p].name));
            }
        } else {
            assert(t.ids.contains_key(n));
            let k = t.ids[n];
            assert(a.ids[n] == k);
            assert(t.services.contains_key(k));
            assert(k < base);
            assert(a.children(n) == t.children(n));
            if base <= c < base + len {
                assert(a.services[c].opts == o[c - base]);
                let oc = o[c - base];
                if oc.after.contains(n) {
                    let j = choose|j: int| 0 <= j < oc.after.len() && #[trigger] oc.after[j] == n;
                    assert(!batch_missing(o, c - base, j));
                }
                if t.children(n).contains(c) {
                    assert(t.graph.contains_key(k) && t.graph[k].contains(c));
                    assert(t.services.contains_key(c));
                }
            } else {
                assert(t.children(n).contains(c) <==> (t.services.contains_key(c) && t.services[c].opts.after.contains(n)));
            }
        }
    }
}

/// Registering one service keeps the recorded dependents exact, so the same holds for a
/// registry built by any mix of single registrations and batches.
pub proof fn law_add_keeps_dependents_match(t: TrackerView, o: OptsView)
    requires
        t.well_formed(),
        dependents_match(t),
        t.add_error(o) is None,
        t.next_id < u64::MAX,
    ensures
        dependents_match(t.added(o)),
{
    let a = t.added(o);
    let id = t.next_id;
    assert(!t.services.contains_key(id));
    assert forall|c: u64, j: int| #![trigger a.services[c].opts.after[j]]
        a.services.contains_key(c) && 0 <= j < a.services[c].opts.after.len()
        implies a.ids.contains_key(a.services[c].opts.after[j]) by {
        if c == id {
            assert(t.ids.contains_key(o.after[j]));
        } else {
            assert(t.ids.contains_key(t.services[c].opts.after[j]));
        }
    }
    assert forall|n: Seq<char>, c: u64| a.ids.contains_key(n) implies (#[trigger] a.children(n).contains(c)
        <==> (a.services.contains_key(c) && a.services[c].opts.after.contains(n))) by {
        if n == o.name {
            assert(a.ids[n] == id);
            assert(a.children(n) == Set::<u64>::empty());
            if a.services.contains_key(c) && a.services[c].opts.after.contains(n) {
                let af = a.services[c].opts.after;
                let j = choose|j: int| 0 <= j < af.len() && #[trigger] af[j] == n;
                if c == id {
                    assert(t.ids.contains_key(o.after[j]));
                } else {
                    assert(t.ids.contains_key(t.services[c].opts.after[j]));
                }
            }
        } else {
            assert(t.ids.contains_key(n));
            let k = t.ids[n];
            assert(a.ids[n] == k);
            assert(t.services.contains_key(k));
            assert(k != id);
            if c == id {
                if o.after.contains(n) {
                    let j = choose|j: int| 0 <= j < o.after.len() && #[trigger] o.after[j] == n;
                    assert(t.parent_ids(o).contains(k));
                } else if t.parent_ids(o).contains(k) {
                    let i = choose|i: int| 0 <= i < o.after.len() && t.ids[o.after[i]] == k;
                    assert(t.ids.contains_key(o.after[i]));
                    assert(t.services[t.ids[o.after[i]]].opts.name == o.after[i]);
                    assert(o.after[i] == n);
                }
                if t.children(n).contains(id) {
                    assert(t.graph.contains_key(k) && t.graph[k].contains(id));
                }
            } else {
                assert(t.children(n).contains(c) <==> (t.services.contains_key(c) && t.services[c].opts.after.contains(n)));
            }
        }
    }
}

/// The registry after the manager handled the signals `sigs` from its services in turn
/// (see `Manager::handle_signal`): each healthy report as `healthy_spec` says, any other
/// signal changing nothing.
pub open spec fn after_signals(t: TrackerView, sigs: Seq<ManagerSignal>) -> TrackerView
    decreases sigs.len(),
{
    if sigs.len() == 0 {
        t
    } else {
        let p = after_signals(t, sigs.drop_last());
        match sigs.last() {
            ManagerSignal::Healthy(n) => healthy_spec(p, n@),
            _ => p,
        }
    }
}

/// Handling a sequence of signals is handling its healthy reports alone, in the order in
/// which they came: the other signals change nothing, wherever they stand.
pub proof fn law_only_healthy_signals_count(t: TrackerView, sigs: Seq<ManagerSignal>)
    ensures
        after_signals(t, sigs) == after_signals(t, sigs.filter(|s: ManagerSignal| s is Healthy)),
    decreases sigs.len(),
{
    reveal(Seq::filter);
    let healthy = |s: ManagerSignal| s is Healthy;
    if sigs.len() > 0 {
        let rest = sigs.drop_last();
        law_only_healthy_signals_count(t, rest);
        let fr = rest.filter(healthy);
        assert(sigs.filter(healthy) == if healthy(sigs.last()) { fr.push(sigs.last()) } else { fr });
        if healthy(sigs.last()) {
            assert(fr.push(sigs.last()).drop_last() =~= fr);
        }
    }
}

/// A directory holding, for each definition of `os` (distinct names without dots), one
/// regular file `<name>.yaml` whose contents decode to that definition (less its name,
/// which the file does not hold) reads back as exactly `os`: each definition under the
/// name its file gives, in the order of the entries.
pub proof fn law_read_all_gives_back_definitions(dir: Seq<char>, os: Seq<OptsView>, rs: Seq<ReportView>)
    requires
        names_distinct(os),
        forall|i: int, j: int| 0 <= i < os.len() && 0 <= j < os[i].name.len() ==> #[trigger] os[i].name[j] != '.',
        rs.len() == os.len(),
        forall|i: int| #![trigger rs[i]] 0 <= i < rs.len() ==> {
            &&& rs[i].is_file
            &&& rs[i].open_failure is None
            &&& rs[i].file_name == Some(with_suffix(os[i].name, true))
            &&& rs[i].parsed matches Ok(o) && named(o, os[i].name) == os[i]
        },
    ensures
        read_all_spec(dir, rs) == Ok::<Seq<OptsView>, ReadErrorView>(os),
    decreases os.len(),
{
    if os.len() > 0 {
        let k = os.len() - 1;
        let front = os.drop_last();
        assert forall|i: int| #![trigger rs.drop_last()[i]] 0 <= i < rs.drop_last().len() implies {
            &&& rs.drop_last()[i].is_file
            &&& rs.drop_last()[i].open_failure is None
            &&& rs.drop_last()[i].file_name == Some(with_suffix(front[i].name, true))
            &&& rs.drop_last()[i].parsed matches Ok(o) && named(o, front[i].name) == front[i]
        } by {
            assert(rs.drop_last()[i] == rs[i]);
            assert(front[i] == os[i]);
        }
        assert forall|i: int, j: int| 0 <= i < front.len() && 0 <= j < front[i].name.len()
            implies #[trigger] front[i].name[j] != '.' by {
            assert(front[i] == os[i]);
            assert(os[i].name[j] != '.');
        }
        law_read_all_gives_back_definitions(dir, front, rs.drop_last());
        assert forall|j: int| 0 <= j < os[k].name.len() implies os[k].name[j] != '.' by {
            assert(os[k].name[j] != '.');
        }
        law_file_name_roundtrip(os[k].name, true);
        assert(rs[k].is_file);
        assert(!has_name(front, os[k].name)) by {
            if has_name(front, os[k].name) {
                let i = choose|i: int| 0 <= i < front.len() && front[i].name == os[k].name;
                assert(front[i] == os[i]);
            }
        }
        assert(front.push(os[k]) =~= os);
        let r = rs[k];
        assert(rs.last() == r);
        assert(service_name_of(r.file_name->0) == Ok::<Seq<char>, ReadErrorView>(os[k].name));
        assert(crate::reader::read_options_spec(os[k].name, r.parsed) == Ok::<OptsView, ReadErrorView>(os[k]));
        assert(crate::reader::insert_opts(front, os[k]) == os);
        assert(crate::reader::admit_spec(front, dir, r) == Ok::<Seq<OptsView>, ReadErrorView>(os));
    } else {
        assert(os =~= Seq::<OptsView>::empty());
    }
}

/// A batch is refused exactly when some definition waits for a name that no definition of
/// the batch has, wherever in the batch that definition stands: the order of the
/// definitions plays no part.
pub proof fn law_batch_refused_only_for_undefined_parents(o: Seq<OptsView>)
    ensures
        batch_error(o) is None <==> forall|i: int, j: int| 0 <= i < o.len() && 0 <= j < o[i].after.len()
            ==> exists|k: int| 0 <= k < o.len() && o[k].name == #[trigger] o[i].after[j],
{
    if batch_error(o) is None {
        assert(batch_complete(o));
        assert forall|i: int, j: int| 0 <= i < o.len() && 0 <= j < o[i].after.len()
            implies exists|k: int| 0 <= k < o.len() && o[k].name == #[trigger] o[i].after[j] by {
            assert(!batch_missing(o, i, j));
            assert(has_name(o, o[i].after[j]));
        }
    } else {
        assert(!batch_complete(o));
        let (i, j) = choose|i: int, j: int| batch_missing(o, i, j);
        assert(batch_missing(o, i, j));
        assert(!has_name(o, o[i].after[j]));
        assert(!(exists|k: int| 0 <= k < o.len() && o[k].name == o[i].after[j]));
    }
}

/// Reading a definition keeps every field its file decoded to and only sets the name to
/// the service's name; contents that do not decode give the decoder's complaint.
pub proof fn law_reading_keeps_decoded_fields(name: Seq<char>, parsed: Result<OptsView, Seq<char>>)
    ensures
        parsed matches Ok(o) ==> (read_options_spec(name, parsed) matches Ok(r) && {
            &&& r.name == name
            &&& r.cmd == o.cmd
            &&& r.health_check == o.health_check
            &&& r.combine_log == o.combine_log
            &&& r.one_shot == o.one_shot
            &&& r.after == o.after
        }),
        parsed matches Err(m) ==> read_options_spec(name, parsed) == Err::<OptsView, ReadErrorView>(
            ReadErrorView::Parse(m)),
{
}

/// The definition of a service comes from `<name>.yaml` when that file opened, else from
/// `<name>.yml` when that one did, with every decoded field kept and only the name set;
/// when neither opened, the service is not found in the directory.
pub proof fn law_lookup_prefers_yaml(
    name: Seq<char>,
    dir: Seq<char>,
    yaml: Option<Result<OptsView, Seq<char>>>,
    yml: Option<Result<OptsView, Seq<char>>>,
)
    ensures
        yaml matches Some(Ok(o)) ==> try_read_spec(name, dir, yaml, yml)
            == Ok::<OptsView, ReadErrorView>(OptsView { name: name, ..o }),
        yaml matches Some(Err(m)) ==> try_read_spec(name, dir, yaml, yml)
            == Err::<OptsView, ReadErrorView>(ReadErrorView::Parse(m)),
        yaml is None ==> (yml matches Some(Ok(o)) ==> try_read_spec(name, dir, yaml, yml)
            == Ok::<OptsView, ReadErrorView>(OptsView { name: name, ..o })),
        yaml is None ==> (yml matches Some(Err(m)) ==> try_read_spec(name, dir, yaml, yml)
            == Err::<OptsView, ReadErrorView>(ReadErrorView::Parse(m))),
        yaml is None && yml is None ==> try_read_spec(name, dir, yaml, yml)
            == Err::<OptsView, ReadErrorView>(ReadErrorView::NotFound { name: name, dir: dir }),
{
}

/// Only a clean exit with code 0 succeeds: any other exit code, an exit without a code
/// and a failed wait are failures, and a process ended on a stop signal leaves the
/// service stopped.
pub proof fn law_only_exit_code_zero_succeeds(c: i32)
    ensures
        (exit_status(RunExit::Exited(Some(c))) == Status::Successful) <==> c == 0,
        c != 0 ==> exit_status(RunExit::Exited(Some(c))) == Status::Failure,
        exit_status(RunExit::Exited(None)) == Status::Failure,
        exit_status(RunExit::WaitFailed) == Status::Failure,
        exit_status(RunExit::Stopped) == Status::Stopped,
{
}

/// A listing shows each service as it is: its name, its process id, its status and the
/// services it waits for, all taken from the service itself.
pub proof fn law_summary_shows_the_service(s: ServiceView)
    ensures
        s.simplified().name == s.opts.name,
        s.simplified().pid == s.pid,
        s.simplified().status == s.status,
        s.simplified().after == s.opts.after,
{
}

/// A file name is accepted only as `<name>.yaml` or `<name>.yml`, for a name without
/// dots, and it then defines that name.
pub proof fn law_accepted_file_names(f: Seq<char>)
    ensures
        service_name_of(f) matches Ok(n) ==> {
            &&& f == with_suffix(n, true) || f == with_suffix(n, false)
            &&& forall|i: int| 0 <= i < n.len() ==> n[i] != '.'
        },
{
    if service_name_of(f) is Ok {
        let d = single_dot_index(f);
        assert(only_dot_at(f, d));
        let n = f.subrange(0, d);
        let ext = f.subrange(d + 1, f.len() as int);
        assert(yaml_extension(ext));
        let yaml = ext == seq!['y', 'a', 'm', 'l'];
        let tail = if yaml { seq!['.', 'y', 'a', 'm', 'l'] } else { seq!['.', 'y', 'm', 'l'] };
        let w = with_suffix(n, yaml);
        assert(w == n + tail);
        assert(ext.len() + 1 == tail.len());
        assert(w.len() == f.len());
        assert forall|i: int| 0 <= i < f.len() implies f[i] == w[i] by {
            if i < d {
                assert(w[i] == n[i]);
            } else if i == d {
                assert(w[i] == tail[0]);
            } else {
                assert(f[i] == ext[i - d - 1]);
                assert(w[i] == tail[i - d]);
                assert(tail[i - d] == ext[i - d - 1]);
            }
        }
        assert(f =~= w);
        assert forall|i: int| 0 <= i < n.len() implies n[i] != '.' by {
            assert(n[i] == f[i]);
        }
    }
}

/// The service after `k` more of the services it waits for reported healthy, one at a time.
pub open spec fn bumped_times(s: ServiceView, k: nat) -> ServiceView
    decreases k,
{
    if k == 0 {
        s
    } else {
        bumped_times(s, (k - 1) as nat).bumped()
    }
}

/// A freshly registered service has the given id and definition, no process, status
/// `Init`, and waits for each of the services its definition lists: it becomes ready after
/// exactly as many healthy parents as it lists, no sooner and no later.
pub proof fn law_fresh_service_waits_for_all_parents(id: u64, o: OptsView, m: nat)
    requires
        o.after.len() <= u32::MAX,
        m <= u32::MAX,
    ensures
        fresh_service(id, o).id == id,
        fresh_service(id, o).opts == o,
        fresh_service(id, o).pid == 0,
        fresh_service(id, o).status == Status::Init,
        fresh_service(id, o).healthy_parents == 0,
        fresh_service(id, o).indegree == o.after.len(),
        bumped_times(fresh_service(id, o), m).eligible() <==> m == o.after.len(),
{
    law_bumps_add_up(fresh_service(id, o), m);
}

/// Counting `k` healthy parents one at a time raises the count by exactly `k`: none is
/// lost, and nothing else about the service changes.
pub proof fn law_bumps_add_up(s: ServiceView, k: nat)
    requires
        s.healthy_parents + k <= u32::MAX,
    ensures
        bumped_times(s, k) == (ServiceView { healthy_parents: (s.healthy_parents + k) as u32, ..s }),
    decreases k,
{
    if k > 0 {
        law_bumps_add_up(s, (k - 1) as nat);
    }
}

/// The registry after `n` services were built from it, one at a time (see
/// `Tracker::new_service`).
pub open spec fn after_builds(t: TrackerView, n: nat) -> TrackerView
    decreases n,
{
    if n == 0 {
        t
    } else {
        let p = after_builds(t, (n - 1) as nat);
        TrackerView { next_id: (p.next_id + 1) as u64, ..p }
    }
}

/// Ids count the services built: the service built after `n` others gets the id
/// `t.next_id + n` (so `n + 1` from a new registry), and nothing else changes.
pub proof fn law_ids_count_builds(t: TrackerView, n: nat)
    requires
        t.next_id + n <= u64::MAX,
    ensures
        after_builds(t, n) == (TrackerView { next_id: (t.next_id + n) as u64, ..t }),
    decreases n,
{
    if n > 0 {
        law_ids_count_builds(t, (n - 1) as nat);
    }
}

} // verus!
