//! Properties that relate several operations of the registry.
use vstd::prelude::*;
use crate::lifecycle::{Selector, WATCH_DEBOUNCE_MS, WatchInput, WatchReaction, reaction_to, selected};
use crate::logs::MAX_LOGS;
use crate::monitor::{HISTORY_SECS, MetricSample, drop_older};
use crate::models::{AppConfig, AppConfigView, AppInstanceView, LogEntry, UpdateAppParams, fresh_instance};
use crate::registry::{
    AppState,
    Change,
    Snapshot,
    alive_map,
    appended_all,
    changed,
    exited,
    import_all,
    imported_view,
    lists_all,
    loaded,
    reconciled,
    restarts_on_exit,
    snapshot_of,
    updated_config_view,
};

verus! {

/// Deleting an application right after adding it gives back the
/// applications the manager had before, and drops the log buffer kept
/// under its id.
pub proof fn law_delete_undoes_add(before: AppState, added: AppState, after: AppState, c: AppConfig)
    requires
        before.wf(),
        !before.apps().dom().contains(c.id@),
        added.apps() == before.apps().insert(c.id@, fresh_instance(c)@),
        added.logs() == before.logs().insert(c.id@, Seq::<LogEntry>::empty()),
        !added.apps()[c.id@].running,
        after.apps() == added.apps().remove(c.id@),
        after.logs() == added.logs().remove(c.id@),
    ensures
        after.apps() == before.apps(),
        after.logs() == before.logs().remove(c.id@),
{
    assert(after.apps() =~= before.apps());
    assert(after.logs() =~= before.logs().remove(c.id@));
}

/// Every application stays under its id whatever happens to it, and keeps
/// its configuration: only run-time data changes.
pub proof fn law_changes_keep_config(v: AppInstanceView, c: Change)
    ensures
        changed(v, c).config == v.config,
{
}

/// An edit keeps the application's id and list position, and none of its
/// run-time data changes.
pub proof fn law_update_keeps_identity(v: AppInstanceView, params: UpdateAppParams)
    ensures
        updated_config_view(v.config, params).id == v.config.id,
        updated_config_view(v.config, params).sort_order == v.config.sort_order,
{
}

/// An edit stores what was submitted: every editable field takes the
/// submitted value, and a flag that was not submitted is off (it does not
/// keep its earlier value).  The type changes only when one is submitted.
pub proof fn law_update_takes_submitted(config: AppConfigView, params: UpdateAppParams)
    ensures
        ({
            let c = updated_config_view(config, params);
            &&& c.name == params.name
            &&& c.command == params.command
            &&& c.work_dir == params.work_dir
            &&& c.description == params.description
            &&& c.color == params.color
            &&& c.group == params.group
            &&& c.url == params.url
            &&& c.env_vars == crate::models::opt_seq_view(params.env_vars)
            &&& c.watch_dirs == crate::models::opt_seq_view(params.watch_dirs)
            &&& c.static_server == crate::models::opt_server_view(params.static_server)
            &&& (c.auto_start <==> params.auto_start == Some(true))
            &&& (c.watch_restart <==> params.watch_restart == Some(true))
            &&& (c.exit_restart <==> params.exit_restart == Some(true))
            &&& (params.delay_seconds is None ==> c.delay_seconds == 0)
            &&& (params.delay_seconds matches Some(d) ==> c.delay_seconds == d)
            &&& (params.app_type matches Some(t) ==> c.app_type == t)
            &&& (params.app_type is None ==> c.app_type == config.app_type)
        }),
{
}

/// The same for the configuration record itself (see `apply_update`).
pub proof fn law_update_record_takes_submitted(config: AppConfig, params: UpdateAppParams)
    ensures
        ({
            let c = crate::models::updated_config(config, params);
            &&& c.id == config.id
            &&& c.sort_order == config.sort_order
            &&& c.name == params.name
            &&& c.command == params.command
            &&& c.work_dir == params.work_dir
            &&& c.description == params.description
            &&& c.color == params.color
            &&& c.group == params.group
            &&& c.url == params.url
            &&& c.env_vars == params.env_vars
            &&& c.watch_dirs == params.watch_dirs
            &&& c.static_server == params.static_server
            &&& (c.auto_start <==> params.auto_start == Some(true))
            &&& (c.watch_restart <==> params.watch_restart == Some(true))
            &&& (c.exit_restart <==> params.exit_restart == Some(true))
            &&& (params.delay_seconds is None ==> c.delay_seconds == 0)
            &&& (params.delay_seconds matches Some(d) ==> c.delay_seconds == d)
            &&& (params.app_type matches Some(t) ==> c.app_type == t)
            &&& (params.app_type is None ==> c.app_type == config.app_type)
        }),
{
}

/// Starting a process clears a stop by the user: it leaves the application
/// running under the new process, not marked as stopped by the user; so a
/// command set to restart on exit that the user stopped and started again
/// is restarted automatically when that process ends.
pub proof fn law_start_clears_user_stop(
    v: AppInstanceView,
    force: bool,
    pid: u32,
    ts: i64,
    msg: Seq<char>,
)
    ensures
        !changed(v, Change::Spawned { pid, ts }).manual_stop,
        changed(v, Change::Spawned { pid, ts }).running,
        changed(v, Change::Spawned { pid, ts }).pid == Some(pid),
        restarts_on_exit(v) ==> selected(
            Selector::RestartCandidates,
            exited(
                changed(changed(v, Change::CommandStopped { force }), Change::Spawned { pid, ts }),
                msg,
            ),
        ),
{
}

/// What each change does to the run state: a start or a listening server
/// makes the application run (with the new process or port and start time);
/// a stop by the user, alone or in a batch, ends it and marks it as stopped
/// by the user; an exit ends it without that mark changing; a sample only
/// records the figures of the running process.
pub proof fn law_change_run_state(
    v: AppInstanceView,
    pid: u32,
    port: u16,
    ts: i64,
    force: bool,
    msg: String,
    stats: crate::models::ProcessStats,
)
    ensures
        ({
            let a = changed(v, Change::Spawned { pid, ts });
            a.running && a.pid == Some(pid) && a.started_at == Some(ts) && a.exit_reason is None
                && !a.manual_stop && a.process_info is None
        }),
        ({
            let a = changed(v, Change::ServerUp { port, ts });
            a.running && a.server_port == Some(port) && a.started_at == Some(ts)
        }),
        ({
            let a = changed(v, Change::CommandStopped { force });
            !a.running && a.pid is None && a.started_at is None && a.manual_stop
        }),
        ({
            let a = changed(v, Change::ServerStopped);
            !a.running && a.server_port is None && a.started_at is None && a.manual_stop
        }),
        ({
            let a = changed(v, Change::BatchStopped);
            !a.running && a.pid is None && a.server_port is None && a.manual_stop
        }),
        ({
            let a = changed(v, Change::Exited { msg });
            !a.running && a.pid is None && a.started_at is None && a.manual_stop == v.manual_stop
        }),
        ({
            let a = changed(v, Change::Sampled(stats));
            a.running && a.process_info == Some(stats) && a.pid == v.pid
        }),
{
}

/// A command whose process ended by itself is restarted automatically
/// exactly when it is set to restart on exit and was not stopped by the
/// user.
pub proof fn law_exit_leads_to_restart(v: AppInstanceView, msg: Seq<char>)
    ensures
        selected(Selector::RestartCandidates, exited(v, msg)) <==> (restarts_on_exit(v) && !v.manual_stop),
{
}

/// An application stopped by the user, alone or in a batch, is never
/// restarted automatically.
pub proof fn law_user_stop_prevents_restart(v: AppInstanceView, force: bool)
    ensures
        !selected(Selector::RestartCandidates, changed(v, Change::CommandStopped { force })),
        !selected(Selector::RestartCandidates, changed(v, Change::ServerStopped)),
        !selected(Selector::RestartCandidates, changed(v, Change::BatchStopped)),
{
}

/// A log buffer never holds more than `MAX_LOGS` lines, and after lines
/// were appended the newest of them is the last line kept.
pub proof fn law_log_buffer_bounded(
    before: Seq<LogEntry>,
    after: Seq<LogEntry>,
    ts: i64,
    lines: Seq<(Seq<char>, Seq<char>)>,
)
    requires
        appended_all(before, after, ts, lines),
        lines.len() > 0,
    ensures
        after.len() <= MAX_LOGS,
        after.len() > 0,
        after.last().level@ == lines.last().0,
        after.last().content@ == lines.last().1,
        after.last().timestamp == ts,
{
    let total = before.len() + lines.len();
    let d = if total > MAX_LOGS {
        total - MAX_LOGS
    } else {
        0
    };
    let i = after.len() - 1;
    assert(i + d - before.len() == lines.len() - 1);
}

/// Importing never changes an application that is already known.
pub proof fn law_import_keeps_existing(
    apps: Map<Seq<char>, AppInstanceView>,
    logs: Map<Seq<char>, Seq<LogEntry>>,
    next: int,
    list: Seq<AppInstanceView>,
    k: Seq<char>,
)
    requires
        apps.dom().contains(k),
    ensures
        import_all(apps, logs, next, list).0.dom().contains(k),
        import_all(apps, logs, next, list).0[k] == apps[k],
    decreases list.len(),
{
    if list.len() > 0 {
        law_import_keeps_existing(apps, logs, next, list.drop_last(), k);
    }
}

/// Importing the same list a second time adds nothing.
pub proof fn law_import_idempotent(
    apps: Map<Seq<char>, AppInstanceView>,
    logs: Map<Seq<char>, Seq<LogEntry>>,
    next: int,
    list: Seq<AppInstanceView>,
)
    ensures
        ({
            let (a, l, n, c) = import_all(apps, logs, next, list);
            import_all(a, l, n, list) == (a, l, n, 0nat)
        }),
{
    let (a, l, n, c) = import_all(apps, logs, next, list);
    lemma_import_covers(apps, logs, next, list);
    lemma_import_known(a, l, n, list);
}

/// After importing `list`, every id in it is known.
proof fn lemma_import_covers(
    apps: Map<Seq<char>, AppInstanceView>,
    logs: Map<Seq<char>, Seq<LogEntry>>,
    next: int,
    list: Seq<AppInstanceView>,
)
    ensures
        forall|i: int|
            0 <= i < list.len() ==> #[trigger] import_all(apps, logs, next, list).0.dom().contains(
                list[i].config.id@,
            ),
    decreases list.len(),
{
    if list.len() > 0 {
        let prev = list.drop_last();
        lemma_import_covers(apps, logs, next, prev);
        let (a, l, n, c) = import_all(apps, logs, next, prev);
        assert forall|i: int| 0 <= i < list.len() implies #[trigger] import_all(
            apps,
            logs,
            next,
            list,
        ).0.dom().contains(list[i].config.id@) by {
            if i < list.len() - 1 {
                assert(list[i] == prev[i]);
                assert(a.dom().contains(prev[i].config.id@));
            }
        }
    }
}

/// Importing a list whose ids are all known changes nothing.
proof fn lemma_import_known(
    apps: Map<Seq<char>, AppInstanceView>,
    logs: Map<Seq<char>, Seq<LogEntry>>,
    next: int,
    list: Seq<AppInstanceView>,
)
    requires
        forall|i: int| 0 <= i < list.len() ==> apps.dom().contains(#[trigger] list[i].config.id@),
    ensures
        import_all(apps, logs, next, list) == (apps, logs, next, 0nat),
    decreases list.len(),
{
    if list.len() > 0 {
        let prev = list.drop_last();
        assert forall|i: int| 0 <= i < prev.len() implies apps.dom().contains(#[trigger] prev[i].config.id@) by {
            assert(prev[i] == list[i]);
        }
        lemma_import_known(apps, logs, next, prev);
        assert(apps.dom().contains(list[list.len() - 1].config.id@));
    }
}

/// The liveness that `loaded` gives the application `k`.
spec fn seen_of(alive: Map<Seq<char>, Option<bool>>, k: Seq<char>) -> Option<Option<bool>> {
    if alive.dom().contains(k) {
        Some(alive[k])
    } else {
        None
    }
}

/// Loading a list whose ids are distinct into empty maps stores each entry,
/// brought up to date, under its id, and nothing else.
proof fn lemma_loaded_distinct(list: Seq<AppInstanceView>, alive: Map<Seq<char>, Option<bool>>)
    requires
        forall|i: int, j: int| 0 <= i < j < list.len() ==> #[trigger] list[i].config.id@ != #[trigger] list[j].config.id@,
    ensures
        ({
            let (a, l) = loaded(Map::empty(), Map::empty(), list, alive);
            &&& forall|k: Seq<char>|
                #[trigger] a.dom().contains(k) <==> exists|i: int| 0 <= i < list.len() && list[i].config.id@ == k
            &&& l.dom() == a.dom()
            &&& forall|i: int|
                0 <= i < list.len() ==> a[#[trigger] list[i].config.id@] == reconciled(
                    list[i],
                    seen_of(alive, list[i].config.id@),
                ) && l[list[i].config.id@].len() == 0
        }),
    decreases list.len(),
{
    if list.len() > 0 {
        let prev = list.drop_last();
        assert forall|i: int, j: int| 0 <= i < j < prev.len() implies #[trigger] prev[i].config.id@
            != #[trigger] prev[j].config.id@ by {
            assert(prev[i] == list[i]);
            assert(prev[j] == list[j]);
        }
        lemma_loaded_distinct(prev, alive);
        let (a1, l1) = loaded(Map::empty(), Map::empty(), prev, alive);
        let (a, l) = loaded(Map::empty(), Map::empty(), list, alive);
        let v = list.last();
        let n = list.len() - 1;
        assert(a == a1.insert(v.config.id@, reconciled(v, seen_of(alive, v.config.id@))));
        assert(l == l1.insert(v.config.id@, Seq::<LogEntry>::empty()));
        assert forall|k: Seq<char>| #[trigger] a.dom().contains(k) <==> exists|i: int|
            0 <= i < list.len() && list[i].config.id@ == k by {
            if a.dom().contains(k) {
                if k == v.config.id@ {
                    assert(list[n].config.id@ == k);
                } else {
                    assert(a1.dom().contains(k));
                    let i = choose|i: int| 0 <= i < prev.len() && prev[i].config.id@ == k;
                    assert(list[i] == prev[i]);
                }
            }
            if exists|i: int| 0 <= i < list.len() && list[i].config.id@ == k {
                let i = choose|i: int| 0 <= i < list.len() && list[i].config.id@ == k;
                if i < n {
                    assert(prev[i] == list[i]);
                    assert(a1.dom().contains(prev[i].config.id@));
                }
            }
        }
        assert(l.dom() =~= a.dom());
        assert forall|i: int| 0 <= i < list.len() implies a[#[trigger] list[i].config.id@] == reconciled(
            list[i],
            seen_of(alive, list[i].config.id@),
        ) && l[list[i].config.id@].len() == 0 by {
            if i < n {
                assert(prev[i] == list[i]);
                assert(list[i].config.id@ != list[n].config.id@);
                assert(a1[prev[i].config.id@] == reconciled(prev[i], seen_of(alive, prev[i].config.id@)));
            }
        }
    }
}

/// Saving the applications (the copy written to the data file) and
/// loading them into an empty manager brings back every application and no
/// other, each with its configuration and an empty log; an application that
/// was stopped comes back exactly as saved.
pub proof fn law_save_then_load(
    apps: Map<Seq<char>, AppInstanceView>,
    saved: Seq<AppInstanceView>,
    observed: Seq<Option<bool>>,
)
    requires
        lists_all(saved, apps, Snapshot::Persist),
        observed.len() == saved.len(),
    ensures
        ({
            let (a, l) = loaded(Map::empty(), Map::empty(), saved, alive_map(saved, observed));
            &&& a.dom() == apps.dom()
            &&& l.dom() == apps.dom()
            &&& forall|k: Seq<char>| #[trigger] apps.dom().contains(k) ==> a[k].config == apps[k].config && l[k].len() == 0
            &&& forall|k: Seq<char>|
                #[trigger] apps.dom().contains(k) && !apps[k].running ==> a[k] == snapshot_of(Snapshot::Persist, apps[k])
        }),
{
    let alive = alive_map(saved, observed);
    lemma_loaded_distinct(saved, alive);
    let (a, l) = loaded(Map::empty(), Map::empty(), saved, alive);
    assert forall|k: Seq<char>| a.dom().contains(k) <==> apps.dom().contains(k) by {
        if a.dom().contains(k) {
            let i = choose|i: int| 0 <= i < saved.len() && saved[i].config.id@ == k;
            assert(apps.dom().contains(saved[i].config.id@));
        }
        if apps.dom().contains(k) {
            let i = choose|i: int| 0 <= i < saved.len() && saved[i].config.id@ == k;
            assert(a.dom().contains(saved[i].config.id@));
        }
    }
    assert(a.dom() =~= apps.dom());
    assert forall|k: Seq<char>| #[trigger] apps.dom().contains(k) implies a[k].config == apps[k].config && l[k].len() == 0
        && (!apps[k].running ==> a[k] == snapshot_of(Snapshot::Persist, apps[k])) by {
        let i = choose|i: int| 0 <= i < saved.len() && saved[i].config.id@ == k;
        assert(saved[i] == snapshot_of(Snapshot::Persist, apps[saved[i].config.id@]));
        assert(a[saved[i].config.id@] == reconciled(saved[i], seen_of(alive, saved[i].config.id@)));
    }
}

/// Importing a list whose ids are distinct into an empty manager adds every
/// entry, under its id, at the position of its index.
proof fn lemma_import_distinct(next: int, list: Seq<AppInstanceView>)
    requires
        forall|i: int, j: int| 0 <= i < j < list.len() ==> #[trigger] list[i].config.id@ != #[trigger] list[j].config.id@,
    ensures
        ({
            let (a, l, n, c) = import_all(Map::empty(), Map::empty(), next, list);
            &&& c == list.len()
            &&& n == next + list.len()
            &&& forall|k: Seq<char>|
                #[trigger] a.dom().contains(k) <==> exists|i: int| 0 <= i < list.len() && list[i].config.id@ == k
            &&& l.dom() == a.dom()
            &&& forall|i: int|
                0 <= i < list.len() ==> a[#[trigger] list[i].config.id@] == imported_view(list[i], (next + i) as i32)
        }),
    decreases list.len(),
{
    if list.len() > 0 {
        let prev = list.drop_last();
        assert forall|i: int, j: int| 0 <= i < j < prev.len() implies #[trigger] prev[i].config.id@
            != #[trigger] prev[j].config.id@ by {
            assert(prev[i] == list[i]);
            assert(prev[j] == list[j]);
        }
        lemma_import_distinct(next, prev);
        let (a1, l1, n1, c1) = import_all(Map::empty(), Map::empty(), next, prev);
        let (a, l, n, c) = import_all(Map::empty(), Map::empty(), next, list);
        let v = list.last();
        let last = list.len() - 1;
        assert(!a1.dom().contains(v.config.id@)) by {
            if a1.dom().contains(v.config.id@) {
                let i = choose|i: int| 0 <= i < prev.len() && prev[i].config.id@ == v.config.id@;
                assert(prev[i] == list[i]);
                assert(list[i].config.id@ != list[last].config.id@);
            }
        }
        assert(a == a1.insert(v.config.id@, imported_view(v, n1 as i32)));
        assert(l == l1.insert(v.config.id@, Seq::<LogEntry>::empty()));
        assert forall|k: Seq<char>| #[trigger] a.dom().contains(k) <==> exists|i: int|
            0 <= i < list.len() && list[i].config.id@ == k by {
            if a.dom().contains(k) {
                if k == v.config.id@ {
                    assert(list[last].config.id@ == k);
                } else {
                    assert(a1.dom().contains(k));
                    let i = choose|i: int| 0 <= i < prev.len() && prev[i].config.id@ == k;
                    assert(list[i] == prev[i]);
                }
            }
            if exists|i: int| 0 <= i < list.len() && list[i].config.id@ == k {
                let i = choose|i: int| 0 <= i < list.len() && list[i].config.id@ == k;
                if i < last {
                    assert(prev[i] == list[i]);
                    assert(a1.dom().contains(prev[i].config.id@));
                }
            }
        }
        assert(l.dom() =~= a.dom());
        assert forall|i: int| 0 <= i < list.len() implies a[#[trigger] list[i].config.id@] == imported_view(
            list[i],
            (next + i) as i32,
        ) by {
            if i < last {
                assert(prev[i] == list[i]);
                assert(list[i].config.id@ != list[last].config.id@);
                assert(a1[prev[i].config.id@] == imported_view(prev[i], (next + i) as i32));
            }
        }
    }
}

/// Exporting the applications and importing the export into an empty
/// manager brings back every application and no other, stopped, with its
/// configuration; only the list positions are handed out anew, in the
/// order of the export.
pub proof fn law_export_then_import(apps: Map<Seq<char>, AppInstanceView>, exported: Seq<AppInstanceView>)
    requires
        lists_all(exported, apps, Snapshot::Export),
        import_all(Map::empty(), Map::empty(), 0, exported).2 <= i32::MAX,
    ensures
        ({
            let (a, l, n, c) = import_all(Map::empty(), Map::empty(), 0, exported);
            &&& c == apps.dom().len()
            &&& a.dom() == apps.dom()
            &&& forall|k: Seq<char>|
                #[trigger] apps.dom().contains(k) ==> !a[k].running && a[k].pid is None
                    && a[k].config == AppConfigView { sort_order: a[k].config.sort_order, ..apps[k].config }
            &&& forall|i: int, j: int|
                0 <= i < j < exported.len() ==> #[trigger] a[exported[i].config.id@].config.sort_order
                    < #[trigger] a[exported[j].config.id@].config.sort_order
        }),
{
    lemma_import_distinct(0, exported);
    let (a, l, n, c) = import_all(Map::empty(), Map::empty(), 0, exported);
    assert forall|k: Seq<char>| a.dom().contains(k) <==> apps.dom().contains(k) by {
        if a.dom().contains(k) {
            let i = choose|i: int| 0 <= i < exported.len() && exported[i].config.id@ == k;
            assert(apps.dom().contains(exported[i].config.id@));
        }
        if apps.dom().contains(k) {
            let i = choose|i: int| 0 <= i < exported.len() && exported[i].config.id@ == k;
            assert(a.dom().contains(exported[i].config.id@));
        }
    }
    assert(a.dom() =~= apps.dom());
    assert forall|k: Seq<char>| #[trigger] apps.dom().contains(k) implies !a[k].running && a[k].pid is None
        && a[k].config == AppConfigView { sort_order: a[k].config.sort_order, ..apps[k].config } by {
        let i = choose|i: int| 0 <= i < exported.len() && exported[i].config.id@ == k;
        assert(exported[i] == snapshot_of(Snapshot::Export, apps[exported[i].config.id@]));
        assert(a[exported[i].config.id@] == imported_view(exported[i], i as i32));
    }
    // the ids of the export are exactly the applications', one each
    let ids = Seq::new(exported.len(), |i: int| exported[i].config.id@);
    assert forall|i: int, j: int| 0 <= i < j < ids.len() implies ids[i] != ids[j] by {
        assert(ids[i] == exported[i].config.id@);
        assert(ids[j] == exported[j].config.id@);
    }
    assert(ids.no_duplicates());
    assert(ids.to_set() =~= apps.dom()) by {
        assert forall|k: Seq<char>| ids.to_set().contains(k) <==> apps.dom().contains(k) by {
            if apps.dom().contains(k) {
                let i = choose|i: int| 0 <= i < exported.len() && exported[i].config.id@ == k;
                assert(ids[i] == k);
            }
            if ids.to_set().contains(k) {
                let i = choose|i: int| 0 <= i < ids.len() && ids[i] == k;
                assert(ids[i] == exported[i].config.id@);
            }
        }
    }
    ids.unique_seq_to_set();
    assert forall|i: int, j: int| 0 <= i < j < exported.len() implies #[trigger] a[exported[i].config.id@].config.sort_order
        < #[trigger] a[exported[j].config.id@].config.sort_order by {
        assert(a[exported[i].config.id@] == imported_view(exported[i], i as i32));
        assert(a[exported[j].config.id@] == imported_view(exported[j], j as i32));
        assert(j <= i32::MAX);
        assert((i as i32) as int == i);
        assert((j as i32) as int == j);
    }
}

/// Samples are in time order.
pub open spec fn in_time_order(h: Seq<MetricSample>) -> bool {
    forall|i: int, j: int| 0 <= i <= j < h.len() ==> #[trigger] h[i].ts <= #[trigger] h[j].ts
}

proof fn lemma_drop_older_sorted(h: Seq<MetricSample>, bound: i64)
    requires
        in_time_order(h),
    ensures
        in_time_order(drop_older(h, bound)),
        forall|i: int| 0 <= i < drop_older(h, bound).len() ==> #[trigger] drop_older(h, bound)[i].ts >= bound,
        h.len() > 0 && h.last().ts >= bound ==> drop_older(h, bound).len() > 0 && drop_older(h, bound).last()
            == h.last(),
    decreases h.len(),
{
    if h.len() > 0 && h[0].ts < bound {
        let t = h.drop_first();
        assert forall|i: int, j: int| 0 <= i <= j < t.len() implies #[trigger] t[i].ts <= #[trigger] t[j].ts by {
            assert(t[i] == h[i + 1]);
            assert(t[j] == h[j + 1]);
        }
        lemma_drop_older_sorted(t, bound);
        if h.len() > 0 && h.last().ts >= bound {
            assert(t.len() > 0);
            assert(t.last() == h.last());
        }
    } else if h.len() > 0 {
        assert forall|i: int| 0 <= i < h.len() implies #[trigger] h[i].ts >= bound by {
            assert(h[0].ts <= h[i].ts);
        }
    }
}

/// Samples recorded in time order stay in time order, and the history then
/// covers only the last `HISTORY_SECS` seconds before the newest sample,
/// which it always keeps.
pub proof fn law_history_last_hour(h: Seq<MetricSample>, sample: MetricSample)
    requires
        in_time_order(h),
        h.len() > 0 ==> h.last().ts <= sample.ts,
        sample.ts >= i64::MIN + HISTORY_SECS,
    ensures
        ({
            let kept = drop_older(h.push(sample), (sample.ts - HISTORY_SECS) as i64);
            &&& in_time_order(kept)
            &&& forall|i: int| 0 <= i < kept.len() ==> #[trigger] kept[i].ts >= sample.ts - HISTORY_SECS
            &&& kept.len() > 0 && kept.last() == sample
        }),
{
    let full = h.push(sample);
    assert forall|i: int, j: int| 0 <= i <= j < full.len() implies #[trigger] full[i].ts <= #[trigger] full[j].ts by {
        if j == full.len() - 1 {
            if i < j {
                assert(full[i] == h[i]);
                assert(h[i].ts <= h.last().ts);
            }
        } else {
            assert(full[i] == h[i]);
            assert(full[j] == h[j]);
        }
    }
    lemma_drop_older_sorted(full, (sample.ts - HISTORY_SECS) as i64);
}

/// The times (milliseconds) at which a watcher that starts at `last` and
/// receives the timed inputs `ev` handles a change of files, while the
/// application is known.
pub open spec fn handled_times(ev: Seq<(int, WatchInput)>, last: int) -> Seq<int>
    decreases ev.len(),
{
    if ev.len() == 0 {
        seq![]
    } else {
        let (t, input) = ev[0];
        if reaction_to(input, t - last, true) == WatchReaction::Handle {
            seq![t] + handled_times(ev.drop_first(), t)
        } else {
            handled_times(ev.drop_first(), last)
        }
    }
}

/// A watcher handles changes of files at least `WATCH_DEBOUNCE_MS` apart,
/// and the first one at least that long after it started, however many
/// events arrive.
pub proof fn law_watch_debounce(ev: Seq<(int, WatchInput)>, start: int)
    requires
        forall|i: int, j: int| 0 <= i <= j < ev.len() ==> #[trigger] ev[i].0 <= #[trigger] ev[j].0,
        forall|i: int| 0 <= i < ev.len() ==> start <= #[trigger] ev[i].0,
    ensures
        ({
            let h = handled_times(ev, start);
            &&& h.len() > 0 ==> h[0] >= start + WATCH_DEBOUNCE_MS
            &&& forall|k: int| 0 <= k < h.len() - 1 ==> #[trigger] h[k + 1] >= h[k] + WATCH_DEBOUNCE_MS
        }),
    decreases ev.len(),
{
    if ev.len() > 0 {
        let (t, input) = ev[0];
        let rest = ev.drop_first();
        assert forall|i: int, j: int| 0 <= i <= j < rest.len() implies #[trigger] rest[i].0 <= #[trigger] rest[j].0 by {
            assert(rest[i] == ev[i + 1]);
            assert(rest[j] == ev[j + 1]);
        }
        if reaction_to(input, t - start, true) == WatchReaction::Handle {
            assert forall|i: int| 0 <= i < rest.len() implies t <= #[trigger] rest[i].0 by {
                assert(rest[i] == ev[i + 1]);
                assert(ev[0].0 <= ev[i + 1].0);
            }
            law_watch_debounce(rest, t);
            let h = handled_times(ev, start);
            let hr = handled_times(rest, t);
            assert(h == seq![t] + hr);
            assert forall|k: int| 0 <= k < h.len() - 1 implies #[trigger] h[k + 1] >= h[k] + WATCH_DEBOUNCE_MS by {
                if k > 0 {
                    assert(h[k] == hr[k - 1]);
                    assert(h[k + 1] == hr[k]);
                    assert(hr[(k - 1) + 1] >= hr[k - 1] + WATCH_DEBOUNCE_MS);
                } else {
                    assert(hr.len() > 0);
                    assert(h[1] == hr[0]);
                    assert(h[0] == t);
                }
            }
        } else {
            assert forall|i: int| 0 <= i < rest.len() implies start <= #[trigger] rest[i].0 by {
                assert(rest[i] == ev[i + 1]);
            }
            law_watch_debounce(rest, start);
        }
    }
}

} // verus!
