//! Batch operations over the registry: which applications a batch start,
//! stop or automatic restart concerns, and how a sampling round changes an
//! application.
use vstd::prelude::*;
use crate::models::{AppConfigView, AppInstance, AppInstanceView, AppType, ProcessStats, StaticServerConfig, opt_server_view};
use crate::registry::{AppState, Change, Snapshot, changed, exited, lists_all, logs_after, snapshot_of};
use crate::text::{chars_of, push_signed_decimal, push_str_chars, signed_decimal, string_from_chars, trim, trim_chars};

verus! {

/// A class of applications that a batch operation concerns.
#[derive(Clone, Copy, Debug, PartialEq, Eq, Structural)]
pub enum Selector {
    /// Those running.
    Running,
    /// The static servers that are running.
    RunningServers,
    /// Those stopped.
    Stopped,
    /// Those stopped that start with the manager.
    AutoStart,
    /// Those whose process ended by itself and that restart when it does.
    RestartCandidates,
}

/// Whether `v` belongs to the class `which`.
pub open spec fn selected(which: Selector, v: AppInstanceView) -> bool {
    match which {
        Selector::Running => v.running,
        Selector::RunningServers => v.running && v.config.app_type == AppType::StaticServer,
        Selector::Stopped => !v.running,
        Selector::AutoStart => v.config.auto_start && !v.running,
        Selector::RestartCandidates => {
            &&& !v.running
            &&& v.config.exit_restart
            &&& v.pid is None
            &&& !v.manual_stop
            &&& v.config.app_type == AppType::Command
        },
    }
}

fn is_selected(which: Selector, inst: &AppInstance) -> (b: bool)
    ensures
        b == selected(which, inst@),
{
    match which {
        Selector::Running => inst.running,
        Selector::RunningServers => inst.running && inst.config.app_type == AppType::StaticServer,
        Selector::Stopped => !inst.running,
        Selector::AutoStart => inst.config.auto_start && !inst.running,
        Selector::RestartCandidates => !inst.running && inst.config.exit_restart && inst.pid.is_none()
            && !inst.manual_stop && inst.config.app_type == AppType::Command,
    }
}

/// The positions in `l` of the elements in the class `which`, ascending.
fn positions_where(l: &Vec<AppInstance>, which: Selector) -> (r: Vec<usize>)
    ensures
        forall|q: int| 0 <= q < r@.len() ==> #[trigger] r@[q] < l@.len() && selected(which, l@[r@[q] as int]@),
        forall|a: int, b: int| 0 <= a < b < r@.len() ==> #[trigger] r@[a] < #[trigger] r@[b],
        forall|j: int|
            0 <= j < l@.len() && selected(which, #[trigger] l@[j]@) ==> exists|q: int|
                0 <= q < r@.len() && r@[q] as int == j,
{
    let mut r: Vec<usize> = Vec::new();
    let mut i: usize = 0;
    while i < l.len()
        invariant
            i <= l@.len(),
            forall|q: int| 0 <= q < r@.len() ==> #[trigger] r@[q] < i && selected(which, l@[r@[q] as int]@),
            forall|a: int, b: int| 0 <= a < b < r@.len() ==> #[trigger] r@[a] < #[trigger] r@[b],
            forall|j: int|
                0 <= j < i && selected(which, #[trigger] l@[j]@) ==> exists|q: int|
                    0 <= q < r@.len() && r@[q] as int == j,
        decreases l@.len() - i,
    {
        if is_selected(which, &l[i]) {
            let ghost before = r@;
            r.push(i);
            proof {
                assert forall|j: int| 0 <= j < i + 1 && selected(which, #[trigger] l@[j]@) implies exists|q: int|
                    0 <= q < r@.len() && r@[q] as int == j by {
                    if j < i {
                        let q = choose|q: int| 0 <= q < before.len() && before[q] as int == j;
                        assert(r@[q] == before[q]);
                    } else {
                        assert(r@[before.len() as int] == i);
                    }
                }
            }
        }
        i += 1;
    }
    r
}

/// What a batch start needs of one application, taken when the batch is
/// planned.
pub struct PlanItem {
    pub id: String,
    pub app_type: AppType,
    pub delay_seconds: u32,
    pub static_server: Option<StaticServerConfig>,
}

/// `item` describes the application `v`.
pub open spec fn plans(item: PlanItem, v: AppInstanceView) -> bool {
    &&& item.id@ == v.config.id@
    &&& item.app_type == v.config.app_type
    &&& item.delay_seconds == v.config.delay_seconds
    &&& opt_server_view(item.static_server) == v.config.static_server
}

impl AppState {
    /// The ids of the applications in the class `which`, each once, ordered
    /// by list position.
    pub fn ids_where(&self, which: Selector) -> (r: Vec<String>)
        requires
            self.wf(),
        ensures
            forall|q: int|
                0 <= q < r@.len() ==> self.apps().dom().contains(#[trigger] r@[q]@) && selected(
                    which,
                    self.apps()[r@[q]@],
                ),
            forall|a: int, b: int| 0 <= a < b < r@.len() ==> #[trigger] r@[a]@ != #[trigger] r@[b]@,
            forall|k: Seq<char>|
                #[trigger] self.apps().dom().contains(k) && selected(which, self.apps()[k]) ==> exists|q: int|
                    0 <= q < r@.len() && r@[q]@ == k,
            forall|a: int, b: int|
                0 <= a < b < r@.len() ==> #[trigger] self.apps()[r@[a]@].config.sort_order
                    <= #[trigger] self.apps()[r@[b]@].config.sort_order,
    {
        let l = self.list_apps();
        let ghost lv = l@.map_values(|x: AppInstance| x@);
        let pos = positions_where(&l, which);
        let mut r: Vec<String> = Vec::new();
        let mut m: usize = 0;
        while m < pos.len()
            invariant
                lists_all(lv, self.apps(), Snapshot::Full),
                lv == l@.map_values(|x: AppInstance| x@),
                forall|q: int| 0 <= q < pos@.len() ==> #[trigger] pos@[q] < l@.len() && selected(which, l@[pos@[q] as int]@),
                forall|a: int, b: int| 0 <= a < b < pos@.len() ==> #[trigger] pos@[a] < #[trigger] pos@[b],
                m <= pos@.len(),
                r@.len() == m,
                forall|q: int| 0 <= q < m ==> (#[trigger] r@[q])@ == l@[pos@[q] as int].config.id@,
            decreases pos@.len() - m,
        {
            let p = pos[m];
            r.push(l[p].config.id.clone());
            m += 1;
        }
        proof {
            assert forall|q: int| 0 <= q < r@.len() implies self.apps().dom().contains(#[trigger] r@[q]@)
                && selected(which, self.apps()[r@[q]@]) by {
                let j = pos@[q] as int;
                assert(lv[j] == l@[j]@);
                assert(snapshot_of(Snapshot::Full, self.apps()[lv[j].config.id@]) == self.apps()[lv[j].config.id@]);
            }
            assert forall|a: int, b: int| 0 <= a < b < r@.len() implies #[trigger] r@[a]@ != #[trigger] r@[b]@ by {
                let ja = pos@[a] as int;
                let jb = pos@[b] as int;
                assert(lv[ja] == l@[ja]@);
                assert(lv[jb] == l@[jb]@);
                assert(lv[ja].config.id@ != lv[jb].config.id@);
            }
            assert forall|k: Seq<char>| #[trigger] self.apps().dom().contains(k) && selected(which, self.apps()[k])
                implies exists|q: int| 0 <= q < r@.len() && r@[q]@ == k by {
                let j = choose|j: int| 0 <= j < lv.len() && lv[j].config.id@ == k;
                assert(lv[j] == l@[j]@);
                assert(snapshot_of(Snapshot::Full, self.apps()[lv[j].config.id@]) == self.apps()[lv[j].config.id@]);
                assert(selected(which, l@[j]@));
                let q = choose|q: int| 0 <= q < pos@.len() && pos@[q] as int == j;
                assert(r@[q]@ == l@[pos@[q] as int].config.id@);
                assert(r@[q]@ == k);
            }
            assert forall|a: int, b: int| 0 <= a < b < r@.len() implies #[trigger] self.apps()[r@[a]@].config.sort_order
                <= #[trigger] self.apps()[r@[b]@].config.sort_order by {
                let ja = pos@[a] as int;
                let jb = pos@[b] as int;
                assert(lv[ja] == l@[ja]@);
                assert(lv[jb] == l@[jb]@);
                assert(snapshot_of(Snapshot::Full, self.apps()[lv[ja].config.id@]) == self.apps()[lv[ja].config.id@]);
                assert(snapshot_of(Snapshot::Full, self.apps()[lv[jb].config.id@]) == self.apps()[lv[jb].config.id@]);
                assert(lv[ja].config.sort_order <= lv[jb].config.sort_order);
            }
        }
        r
    }

    /// The plan of a batch start: every stopped application (only those that
    /// start with the manager if `auto_only`), each once, ordered by list
    /// position.
    pub fn start_plan(&self, auto_only: bool) -> (r: Vec<PlanItem>)
        requires
            self.wf(),
        ensures
            ({
                let which = if auto_only { Selector::AutoStart } else { Selector::Stopped };
                &&& forall|q: int|
                    0 <= q < r@.len() ==> self.apps().dom().contains(#[trigger] r@[q].id@) && selected(
                        which,
                        self.apps()[r@[q].id@],
                    ) && plans(r@[q], self.apps()[r@[q].id@])
                &&& forall|a: int, b: int| 0 <= a < b < r@.len() ==> #[trigger] r@[a].id@ != #[trigger] r@[b].id@
                &&& forall|k: Seq<char>|
                    #[trigger] self.apps().dom().contains(k) && selected(which, self.apps()[k]) ==> exists|q: int|
                        0 <= q < r@.len() && r@[q].id@ == k
                &&& forall|a: int, b: int|
                    0 <= a < b < r@.len() ==> #[trigger] self.apps()[r@[a].id@].config.sort_order
                        <= #[trigger] self.apps()[r@[b].id@].config.sort_order
            }),
    {
        let which = if auto_only { Selector::AutoStart } else { Selector::Stopped };
        let l = self.list_apps();
        let ghost lv = l@.map_values(|x: AppInstance| x@);
        let pos = positions_where(&l, which);
        let mut r: Vec<PlanItem> = Vec::new();
        let mut m: usize = 0;
        while m < pos.len()
            invariant
                lists_all(lv, self.apps(), Snapshot::Full),
                lv == l@.map_values(|x: AppInstance| x@),
                forall|q: int| 0 <= q < pos@.len() ==> #[trigger] pos@[q] < l@.len() && selected(which, l@[pos@[q] as int]@),
                forall|a: int, b: int| 0 <= a < b < pos@.len() ==> #[trigger] pos@[a] < #[trigger] pos@[b],
                m <= pos@.len(),
                r@.len() == m,
                forall|q: int| 0 <= q < m ==> plans(#[trigger] r@[q], l@[pos@[q] as int]@),
            decreases pos@.len() - m,
        {
            let p = pos[m];
            let inst = &l[p];
            r.push(
                PlanItem {
                    id: inst.config.id.clone(),
                    app_type: inst.config.app_type,
                    delay_seconds: inst.config.delay_seconds,
                    static_server: crate::models::copy_opt_server(&inst.config.static_server),
                },
            );
            m += 1;
        }
        proof {
            assert forall|q: int| 0 <= q < r@.len() implies self.apps().dom().contains(#[trigger] r@[q].id@)
                && selected(which, self.apps()[r@[q].id@]) && plans(r@[q], self.apps()[r@[q].id@]) by {
                let j = pos@[q] as int;
                assert(lv[j] == l@[j]@);
                assert(snapshot_of(Snapshot::Full, self.apps()[lv[j].config.id@]) == self.apps()[lv[j].config.id@]);
            }
            assert forall|a: int, b: int| 0 <= a < b < r@.len() implies #[trigger] r@[a].id@ != #[trigger] r@[b].id@ by {
                let ja = pos@[a] as int;
                let jb = pos@[b] as int;
                assert(lv[ja] == l@[ja]@);
                assert(lv[jb] == l@[jb]@);
                assert(lv[ja].config.id@ != lv[jb].config.id@);
            }
            assert forall|k: Seq<char>| #[trigger] self.apps().dom().contains(k) && selected(which, self.apps()[k])
                implies exists|q: int| 0 <= q < r@.len() && r@[q].id@ == k by {
                let j = choose|j: int| 0 <= j < lv.len() && lv[j].config.id@ == k;
                assert(lv[j] == l@[j]@);
                assert(snapshot_of(Snapshot::Full, self.apps()[lv[j].config.id@]) == self.apps()[lv[j].config.id@]);
                assert(selected(which, l@[j]@));
                let q = choose|q: int| 0 <= q < pos@.len() && pos@[q] as int == j;
                assert(plans(r@[q], l@[pos@[q] as int]@));
                assert(r@[q].id@ == k);
            }
            assert forall|a: int, b: int| 0 <= a < b < r@.len() implies #[trigger] self.apps()[r@[a].id@].config.sort_order
                <= #[trigger] self.apps()[r@[b].id@].config.sort_order by {
                let ja = pos@[a] as int;
                let jb = pos@[b] as int;
                assert(lv[ja] == l@[ja]@);
                assert(lv[jb] == l@[jb]@);
                assert(snapshot_of(Snapshot::Full, self.apps()[lv[ja].config.id@]) == self.apps()[lv[ja].config.id@]);
                assert(snapshot_of(Snapshot::Full, self.apps()[lv[jb].config.id@]) == self.apps()[lv[jb].config.id@]);
                assert(lv[ja].config.sort_order <= lv[jb].config.sort_order);
            }
        }
        r
    }
}

// ---------------------------------------------------------------------------
// Sampling rounds
// ---------------------------------------------------------------------------

/// What became of a child process that is no longer found.
pub enum ExitObservation {
    /// No child handle is held for the application.
    Untracked,
    /// It exited successfully.
    Success,
    /// It exited with this code.
    Code(i32),
    /// It was ended by a signal.
    Signal,
    /// Its handle still reports it running.
    StillRunning,
    /// Its status could not be read; the error's text.
    Failed(String),
}

/// The reason recorded for the exit `o`.
pub open spec fn exit_text(o: ExitObservation) -> Seq<char> {
    match o {
        ExitObservation::Untracked => "进程已退出"@,
        ExitObservation::Success => "进程正常退出 (退出码: 0)"@,
        ExitObservation::Code(c) => "进程异常退出 (退出码: "@ + signed_decimal(c as int) + ")"@,
        ExitObservation::Signal => "进程被信号终止"@,
        ExitObservation::StillRunning => "进程已退出 (系统无法获取状态)"@,
        ExitObservation::Failed(e) => "进程已退出 (获取状态失败: "@ + e@ + ")"@,
    }
}

/// Builds the reason of `exit_text`.
pub fn exit_message(o: &ExitObservation) -> (s: String)
    ensures
        s@ == exit_text(*o),
{
    match o {
        ExitObservation::Untracked => String::from_str("进程已退出"),
        ExitObservation::Success => String::from_str("进程正常退出 (退出码: 0)"),
        ExitObservation::Code(c) => {
            let mut v: Vec<char> = Vec::new();
            push_str_chars(&mut v, "进程异常退出 (退出码: ");
            push_signed_decimal(&mut v, *c as i64);
            push_str_chars(&mut v, ")");
            string_from_chars(v.as_slice())
        },
        ExitObservation::Signal => String::from_str("进程被信号终止"),
        ExitObservation::StillRunning => String::from_str("进程已退出 (系统无法获取状态)"),
        ExitObservation::Failed(e) => {
            let mut v: Vec<char> = Vec::new();
            push_str_chars(&mut v, "进程已退出 (获取状态失败: ");
            push_str_chars(&mut v, e.as_str());
            push_str_chars(&mut v, ")");
            string_from_chars(v.as_slice())
        },
    }
}

/// What a sampling round found of one recorded process.
pub enum Probe {
    /// It is alive; its sample (the process id is taken from the record).
    Alive(ProcessStats),
    /// It is gone.
    Gone(ExitObservation),
}

/// The line written when a batch stops an application.
pub open spec fn batch_stop_line() -> (Seq<char>, Seq<char>) {
    ("info"@, "批量关闭"@)
}

/// The line written before an automatic restart after an exit.
pub open spec fn auto_restart_line() -> (Seq<char>, Seq<char>) {
    ("info"@, "退出自动重启：重新启动进程..."@)
}

/// The line written before a restart caused by changed files.
pub open spec fn files_changed_line() -> (Seq<char>, Seq<char>) {
    ("info"@, "文件变更，准备自动重启..."@)
}

impl AppState {
    /// Applies what a sampling round found of the process of `id`.  An
    /// application without a recorded process is left alone.  A live process
    /// gets its sample; a gone one is recorded as exited (see `exited`), with
    /// a warning line when the application was running.  Returns whether a
    /// running application was found exited.
    pub fn observe(&mut self, id: &str, probe: Probe, ts: i64) -> (was_running: bool)
        requires
            old(self).wf(),
        ensures
            final(self).wf(),
            final(self).next_sort_order() == old(self).next_sort_order(),
            !(old(self).apps().dom().contains(id@) && old(self).apps()[id@].pid is Some) ==> !was_running
                && final(self).apps() == old(self).apps() && final(self).logs() == old(self).logs(),
            old(self).apps().dom().contains(id@) && old(self).apps()[id@].pid is Some ==> {
                let v = old(self).apps()[id@];
                match probe {
                    Probe::Alive(s) => {
                        &&& !was_running
                        &&& final(self).apps() == old(self).apps().insert(
                            id@,
                            changed(v, Change::Sampled(ProcessStats { pid: v.pid->0, ..s })),
                        )
                        &&& final(self).logs() == old(self).logs()
                    },
                    Probe::Gone(o) => {
                        &&& was_running == v.running
                        &&& final(self).apps() == old(self).apps().insert(id@, exited(v, exit_text(o)))
                        &&& v.running ==> logs_after(
                            old(self).logs(),
                            final(self).logs(),
                            id@,
                            ts,
                            seq![("warn"@, exit_text(o))],
                        )
                        &&& !v.running ==> final(self).logs() == old(self).logs()
                    },
                }
            },
    {
        let (pid, running) = match self.get_app(id) {
            None => {
                return false;
            },
            Some(inst) => match inst.pid {
                None => {
                    return false;
                },
                Some(p) => (p, inst.running),
            },
        };
        match probe {
            Probe::Alive(s) => {
                self.change_app(id, Change::Sampled(ProcessStats { pid, ..s }));
                false
            },
            Probe::Gone(o) => {
                let msg = exit_message(&o);
                if running {
                    self.log(id, ts, "warn", msg.as_str());
                }
                self.change_app(id, Change::Exited { msg });
                running
            },
        }
    }

    /// Marks `id` stopped by a batch stop, with the line of
    /// `batch_stop_line`; returns its name, or `None` if it is unknown.
    pub fn mark_batch_stopped(&mut self, id: &str, ts: i64) -> (name: Option<String>)
        requires
            old(self).wf(),
        ensures
            final(self).wf(),
            final(self).next_sort_order() == old(self).next_sort_order(),
            !old(self).apps().dom().contains(id@) ==> name is None && final(self).apps() == old(self).apps()
                && final(self).logs() == old(self).logs(),
            old(self).apps().dom().contains(id@) ==> {
                let v = old(self).apps()[id@];
                &&& name matches Some(n) && n@ == v.config.name@
                &&& final(self).apps() == old(self).apps().insert(id@, changed(v, Change::BatchStopped))
                &&& logs_after(old(self).logs(), final(self).logs(), id@, ts, seq![batch_stop_line()])
            },
    {
        match self.get_app(id) {
            None => None,
            Some(inst) => {
                self.change_app(id, Change::BatchStopped);
                self.log(id, ts, "info", "批量关闭");
                Some(inst.config.name)
            },
        }
    }

    /// Announces the automatic restart of `id` after its exit, with the line
    /// of `auto_restart_line`, unless it is unknown or running again.
    /// Returns whether the restart goes ahead.
    pub fn begin_auto_restart(&mut self, id: &str, ts: i64) -> (go: bool)
        requires
            old(self).wf(),
        ensures
            final(self).wf(),
            final(self).apps() == old(self).apps(),
            final(self).next_sort_order() == old(self).next_sort_order(),
            go == (old(self).apps().dom().contains(id@) && !old(self).apps()[id@].running),
            go ==> logs_after(old(self).logs(), final(self).logs(), id@, ts, seq![auto_restart_line()]),
            !go ==> final(self).logs() == old(self).logs(),
    {
        match self.get_app(id) {
            Some(inst) => {
                if inst.running {
                    false
                } else {
                    self.log(id, ts, "info", "退出自动重启：重新启动进程...");
                    true
                }
            },
            None => false,
        }
    }
}

// ---------------------------------------------------------------------------
// Restarts when watched files change
// ---------------------------------------------------------------------------

/// The trimmed entries of `ds` that are not blank, in order.
pub open spec fn nonblank_trimmed(ds: Seq<String>) -> Seq<Seq<char>>
    decreases ds.len(),
{
    if ds.len() == 0 {
        seq![]
    } else {
        let rest = nonblank_trimmed(ds.drop_last());
        let t = trim(ds.last()@);
        if t.len() > 0 {
            rest.push(t)
        } else {
            rest
        }
    }
}

/// The directories watched for `c`: its watch list without blank entries,
/// or else its trimmed working directory unless blank.
pub open spec fn dirs_to_watch(c: AppConfigView) -> Seq<Seq<char>> {
    let listed = match c.watch_dirs {
        Some(ds) => nonblank_trimmed(ds),
        None => seq![],
    };
    if listed.len() > 0 {
        listed
    } else {
        match c.work_dir {
            Some(w) => if trim(w@).len() > 0 {
                seq![trim(w@)]
            } else {
                seq![]
            },
            None => seq![],
        }
    }
}

fn trimmed(s: &str) -> (r: Vec<char>)
    ensures
        r@ == trim(s@),
{
    let v = chars_of(s);
    trim_chars(v.as_slice())
}

fn nonblank_trimmed_of(ds: &Vec<String>) -> (r: Vec<String>)
    ensures
        r@.map_values(|x: String| x@) == nonblank_trimmed(ds@),
{
    let mut r: Vec<String> = Vec::new();
    let mut i: usize = 0;
    while i < ds.len()
        invariant
            i <= ds@.len(),
            r@.map_values(|x: String| x@) == nonblank_trimmed(ds@.take(i as int)),
        decreases ds@.len() - i,
    {
        let t = trimmed(ds[i].as_str());
        if t.len() > 0 {
            r.push(string_from_chars(t.as_slice()));
        }
        proof {
            assert(ds@.take(i + 1).drop_last() =~= ds@.take(i as int));
            assert(ds@.take(i + 1).last() == ds@[i as int]);
            assert(r@.map_values(|x: String| x@) =~= nonblank_trimmed(ds@.take(i + 1)));
        }
        i += 1;
    }
    assert(ds@.take(ds@.len() as int) =~= ds@);
    r
}

/// What a change of watched files means for an application.
#[derive(Clone, Copy, Debug, PartialEq, Eq, Structural)]
pub enum WatchStep {
    /// It no longer exists: the watcher ends.
    Stop,
    /// It is not running: nothing happens.
    Ignore,
    /// It was marked for a restart (see `Change::FilesChanged`); restart it
    /// as this type.
    Restart(AppType),
}

/// The shortest time between two restarts caused by changed files, in
/// milliseconds.
pub const WATCH_DEBOUNCE_MS: u64 = 2000;

/// What the watcher of an application receives while it waits (for at most
/// 30 seconds).
#[derive(Clone, Copy, Debug, PartialEq, Eq, Structural)]
pub enum WatchInput {
    /// A file event; `changes` when a file was created, modified or removed.
    FileEvent { changes: bool },
    /// The watcher reported an error.
    WatchError,
    /// Nothing arrived in time.
    Timeout,
    /// The watcher is gone.
    Closed,
}

/// What the watcher does about an input.
#[derive(Clone, Copy, Debug, PartialEq, Eq, Structural)]
pub enum WatchReaction {
    /// Nothing; it waits again.
    Wait,
    /// It handles a change of files (see `AppState::begin_watch_restart`) and
    /// counts the time to the next one from now.
    Handle,
    /// It ends.
    End,
}

/// The watcher's reaction to `input`, `since_restart_ms` milliseconds
/// (rounded down) after it started or last handled a change, while the
/// application is known (`app_known`): a change is handled only once
/// `WATCH_DEBOUNCE_MS` have passed; other file events and errors are
/// ignored; a timeout ends the watcher once the application is gone; and
/// the watcher ends when it is closed.
pub fn watch_reaction(input: WatchInput, since_restart_ms: u64, app_known: bool) -> (r: WatchReaction)
    ensures
        r == reaction_to(input, since_restart_ms as int, app_known),
{
    match input {
        WatchInput::FileEvent { changes } => if changes && since_restart_ms >= WATCH_DEBOUNCE_MS {
            WatchReaction::Handle
        } else {
            WatchReaction::Wait
        },
        WatchInput::WatchError => WatchReaction::Wait,
        WatchInput::Timeout => if app_known {
            WatchReaction::Wait
        } else {
            WatchReaction::End
        },
        WatchInput::Closed => WatchReaction::End,
    }
}

/// The reaction of `watch_reaction`.
pub open spec fn reaction_to(input: WatchInput, since_restart_ms: int, app_known: bool) -> WatchReaction {
    match input {
        WatchInput::FileEvent { changes } => if changes && since_restart_ms >= WATCH_DEBOUNCE_MS {
                WatchReaction::Handle
            } else {
                WatchReaction::Wait
            },
            WatchInput::WatchError => WatchReaction::Wait,
            WatchInput::Timeout => if app_known {
                WatchReaction::Wait
            } else {
                WatchReaction::End
            },
            WatchInput::Closed => WatchReaction::End,
        }
}

impl AppState {
    /// The directories to watch for `id`: `None` when it is unknown, does
    /// not restart on file changes, or has nothing to watch.
    pub fn watch_dirs(&self, id: &str) -> (r: Option<Vec<String>>)
        requires
            self.wf(),
        ensures
            match r {
                Some(ds) => {
                    &&& self.apps().dom().contains(id@)
                    &&& self.apps()[id@].config.watch_restart
                    &&& ds@.map_values(|x: String| x@) == dirs_to_watch(self.apps()[id@].config)
                    &&& ds@.len() > 0
                },
                None => !self.apps().dom().contains(id@) || !self.apps()[id@].config.watch_restart
                    || dirs_to_watch(self.apps()[id@].config).len() == 0,
            },
    {
        let inst = match self.get_app(id) {
            None => {
                return None;
            },
            Some(i) => i,
        };
        if !inst.config.watch_restart {
            return None;
        }
        let listed = match &inst.config.watch_dirs {
            Some(ds) => nonblank_trimmed_of(ds),
            None => Vec::new(),
        };
        let ghost lv = listed@.map_values(|x: String| x@);
        assert(lv.len() == listed@.len());
        if listed.len() > 0 {
            return Some(listed);
        }
        match &inst.config.work_dir {
            Some(w) => {
                let t = trimmed(w.as_str());
                if t.len() > 0 {
                    let mut v: Vec<String> = Vec::new();
                    v.push(string_from_chars(t.as_slice()));
                    proof {
                        assert(v@.map_values(|x: String| x@) =~= seq![trim(w@)]);
                    }
                    Some(v)
                } else {
                    None
                }
            },
            None => None,
        }
    }

    /// Handles a change of the files watched for `id`: a running
    /// application is marked for a restart (see `Change::FilesChanged`)
    /// with the line of `files_changed_line`.
    pub fn begin_watch_restart(&mut self, id: &str, ts: i64) -> (step: WatchStep)
        requires
            old(self).wf(),
        ensures
            final(self).wf(),
            final(self).next_sort_order() == old(self).next_sort_order(),
            !old(self).apps().dom().contains(id@) ==> step == WatchStep::Stop && final(self).apps() == old(
                self,
            ).apps() && final(self).logs() == old(self).logs(),
            old(self).apps().dom().contains(id@) && !old(self).apps()[id@].running ==> step == WatchStep::Ignore
                && final(self).apps() == old(self).apps() && final(self).logs() == old(self).logs(),
            old(self).apps().dom().contains(id@) && old(self).apps()[id@].running ==> {
                let v = old(self).apps()[id@];
                &&& step == WatchStep::Restart(v.config.app_type)
                &&& final(self).apps() == old(self).apps().insert(id@, changed(v, Change::FilesChanged))
                &&& logs_after(old(self).logs(), final(self).logs(), id@, ts, seq![files_changed_line()])
            },
    {
        match self.get_app(id) {
            None => WatchStep::Stop,
            Some(inst) => {
                if !inst.running {
                    WatchStep::Ignore
                } else {
                    self.log(id, ts, "info", "文件变更，准备自动重启...");
                    self.change_app(id, Change::FilesChanged);
                    WatchStep::Restart(inst.config.app_type)
                }
            },
        }
    }
}

} // verus!
