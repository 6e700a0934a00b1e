//! The manager's state: the applications by id, their log buffers and the next
//! free list position.
use vstd::prelude::*;
use crate::keyed::KeyedVec;
use crate::text::{chars_lt, decimal, push_decimal, push_str_chars, string_from_chars};
use crate::logs::{appended, push_log_at, LogBuffers, MAX_LOGS};
use crate::models::{
    apply_update, config_from_params, env_names_distinct, create_app_config_with_id, fresh_instance, updated_config,
    AddAppParams, AppConfig, AppConfigView, AppInstance, AppInstanceView, AppType, LogEntry, UpdateAppParams,
};

verus! {

broadcast use vstd::string::group_string_axioms;

/// Why a request about an application was refused.
#[derive(Clone, Copy, Debug, PartialEq, Eq, Structural)]
pub enum AppError {
    NotFound,
    RunningCannotEdit,
    RunningCannotDelete,
    AlreadyRunning,
    NotRunning,
    NameRequired,
    CommandRequired,
    StaticConfigRequired,
    RootDirRequired,
    MissingStaticConfig,
}

/// The message shown for each refusal.
pub open spec fn error_text(e: AppError) -> Seq<char> {
    match e {
        AppError::NotFound => "应用不存在"@,
        AppError::RunningCannotEdit => "应用正在运行，请先关闭后再编辑"@,
        AppError::RunningCannotDelete => "应用正在运行，请先关闭后再删除"@,
        AppError::AlreadyRunning => "应用已经在运行中"@,
        AppError::NotRunning => "应用未在运行中"@,
        AppError::NameRequired => "名称不能为空"@,
        AppError::CommandRequired => "命令不能为空"@,
        AppError::StaticConfigRequired => "静态服务器配置不能为空"@,
        AppError::RootDirRequired => "静态文件目录不能为空"@,
        AppError::MissingStaticConfig => "缺少静态服务器配置"@,
    }
}

impl AppError {
    /// The message shown to the user.
    pub fn message(&self) -> (s: String)
        ensures
            s@ == error_text(*self),
    {
        let t: &str = match self {
            AppError::NotFound => "应用不存在",
            AppError::RunningCannotEdit => "应用正在运行，请先关闭后再编辑",
            AppError::RunningCannotDelete => "应用正在运行，请先关闭后再删除",
            AppError::AlreadyRunning => "应用已经在运行中",
            AppError::NotRunning => "应用未在运行中",
            AppError::NameRequired => "名称不能为空",
            AppError::CommandRequired => "命令不能为空",
            AppError::StaticConfigRequired => "静态服务器配置不能为空",
            AppError::RootDirRequired => "静态文件目录不能为空",
            AppError::MissingStaticConfig => "缺少静态服务器配置",
        };
        String::from_str(t)
    }
}

/// Why a new application is refused, if it is: no name; a command
/// application without a command; a static server without settings or
/// without a directory.
pub open spec fn add_rejection(p: AddAppParams) -> Option<AppError> {
    let t = match p.app_type {
        Some(t) => t,
        None => AppType::Command,
    };
    if p.name@.len() == 0 {
        Some(AppError::NameRequired)
    } else if t == AppType::Command && p.command@.len() == 0 {
        Some(AppError::CommandRequired)
    } else if t == AppType::StaticServer && p.static_server is None {
        Some(AppError::StaticConfigRequired)
    } else if t == AppType::StaticServer && p.static_server->0.root_dir@.len() == 0 {
        Some(AppError::RootDirRequired)
    } else {
        None
    }
}

/// Why `params` would be refused as a new application, if they would be
/// (see `add_rejection`).
pub fn check_add_params(params: &AddAppParams) -> (r: Option<AppError>)
    ensures
        r == add_rejection(*params),
{
    let app_type = match params.app_type {
        Some(t) => t,
        None => AppType::Command,
    };
    if params.name.as_str().is_empty() {
        Some(AppError::NameRequired)
    } else if app_type == AppType::Command && params.command.as_str().is_empty() {
        Some(AppError::CommandRequired)
    } else if app_type == AppType::StaticServer {
        match &params.static_server {
            None => Some(AppError::StaticConfigRequired),
            Some(sc) => if sc.root_dir.as_str().is_empty() {
                Some(AppError::RootDirRequired)
            } else {
                None
            },
        }
    } else {
        None
    }
}

/// The run-time state of the manager that the verified logic owns.
pub struct AppState {
    apps: KeyedVec<AppInstance>,
    logs: LogBuffers,
    next_sort_order: i32,
}

impl AppState {
    /// The applications, by id.
    pub closed spec fn apps(&self) -> Map<Seq<char>, AppInstanceView> {
        Map::new(|k: Seq<char>| self.apps@.dom().contains(k), |k: Seq<char>| self.apps@[k]@)
    }

    /// The log buffers, by application id.
    pub closed spec fn logs(&self) -> Map<Seq<char>, Seq<LogEntry>> {
        Map::new(|k: Seq<char>| self.logs@.dom().contains(k), |k: Seq<char>| self.logs@[k]@)
    }

    /// The list position the next new application receives.
    pub closed spec fn next_sort_order(&self) -> i32 {
        self.next_sort_order
    }

    /// Internal consistency: the maps are well formed and every application
    /// is stored under its own id.
    pub closed spec fn wf(&self) -> bool {
        &&& self.apps.wf()
        &&& self.logs.wf()
        &&& forall|k: Seq<char>| #[trigger]
            self.apps@.dom().contains(k) ==> self.apps@[k].config.id@ == k
        &&& forall|k: Seq<char>| #[trigger]
            self.logs@.dom().contains(k) ==> self.logs@[k]@.len() <= MAX_LOGS
        &&& forall|k: Seq<char>| #[trigger]
            self.apps@.dom().contains(k) ==> env_names_distinct(self.apps@[k]@.config.env_vars)
    }

    /// No application names an environment variable twice.
    pub proof fn law_env_names_distinct(&self)
        requires
            self.wf(),
        ensures
            forall|k: Seq<char>| #[trigger]
                self.apps().dom().contains(k) ==> env_names_distinct(self.apps()[k].config.env_vars),
    {
    }

    /// No log buffer holds more than `MAX_LOGS` lines.
    pub proof fn lemma_log_bound(&self)
        requires
            self.wf(),
        ensures
            forall|k: Seq<char>| #[trigger]
                self.logs().dom().contains(k) ==> self.logs()[k].len() <= MAX_LOGS,
    {
    }

    /// Every application is stored under its own id.
    pub proof fn law_apps_keyed_by_id(&self)
        requires
            self.wf(),
        ensures
            forall|k: Seq<char>| #[trigger]
                self.apps().dom().contains(k) ==> self.apps()[k].config.id@ == k,
    {
    }

    /// An empty manager: no applications, positions start at 0.
    pub fn new() -> (s: Self)
        ensures
            s.wf(),
            s.apps() == Map::<Seq<char>, AppInstanceView>::empty(),
            s.logs() == Map::<Seq<char>, Seq<LogEntry>>::empty(),
            s.next_sort_order() == 0,
    {
        let s = AppState {
            apps: KeyedVec::new(),
            logs: KeyedVec::new(),
            next_sort_order: 0,
        };
        assert(s.apps() =~= Map::<Seq<char>, AppInstanceView>::empty());
        assert(s.logs() =~= Map::<Seq<char>, Seq<LogEntry>>::empty());
        s
    }

    /// The list position the next new application receives.
    pub fn peek_sort_order(&self) -> (v: i32)
        ensures
            v == self.next_sort_order(),
    {
        self.next_sort_order
    }

    /// Hands out the next list position.
    pub fn alloc_sort_order(&mut self) -> (v: i32)
        requires
            old(self).wf(),
            old(self).next_sort_order() < i32::MAX,
        ensures
            final(self).wf(),
            v == old(self).next_sort_order(),
            final(self).next_sort_order() == old(self).next_sort_order() + 1,
            final(self).apps() == old(self).apps(),
            final(self).logs() == old(self).logs(),
    {
        let v = self.next_sort_order;
        self.next_sort_order = v + 1;
        v
    }

    /// Continues positions after `max_order`.
    pub fn init_sort_order(&mut self, max_order: i32)
        requires
            old(self).wf(),
            max_order < i32::MAX,
        ensures
            final(self).wf(),
            final(self).next_sort_order() == max_order + 1,
            final(self).apps() == old(self).apps(),
            final(self).logs() == old(self).logs(),
    {
        self.next_sort_order = max_order + 1;
    }

    /// Stores `inst` under its id and gives it a fresh empty log buffer.
    fn put_app(&mut self, inst: AppInstance)
        requires
            old(self).wf(),
            env_names_distinct(inst@.config.env_vars),
        ensures
            final(self).wf(),
            final(self).apps() == old(self).apps().insert(inst.config.id@, inst@),
            final(self).logs() == old(self).logs().insert(inst.config.id@, Seq::<LogEntry>::empty()),
            final(self).next_sort_order() == old(self).next_sort_order(),
    {
        let id = inst.config.id.clone();
        let id2 = inst.config.id.clone();
        self.apps.insert(id, inst);
        self.logs.insert(id2, Vec::new());
        proof {
            assert(self.apps() =~= old(self).apps().insert(inst.config.id@, inst@));
            assert(self.logs() =~= old(self).logs().insert(
                inst.config.id@,
                Seq::<LogEntry>::empty(),
            ));
        }
    }

    /// Adds an application made from `params` under the id `id`, unless it
    /// is refused (see `add_rejection`); it is stopped, takes the next list
    /// position and an empty log buffer.  Returns its configuration.
    pub fn add_app_with_id(&mut self, params: AddAppParams, id: String) -> (r: Result<AppConfig, AppError>)
        requires
            old(self).wf(),
            env_names_distinct(crate::models::opt_seq_view(params.env_vars)),
            add_rejection(params) is None ==> old(self).next_sort_order() < i32::MAX,
        ensures
            final(self).wf(),
            match add_rejection(params) {
                Some(e) => {
                    &&& r == Err::<AppConfig, AppError>(e)
                    &&& final(self).apps() == old(self).apps()
                    &&& final(self).logs() == old(self).logs()
                    &&& final(self).next_sort_order() == old(self).next_sort_order()
                },
                None => {
                    &&& r matches Ok(c)
                    &&& c == config_from_params(params, old(self).next_sort_order(), id)
                    &&& final(self).apps() == old(self).apps().insert(id@, fresh_instance(c)@)
                    &&& final(self).logs() == old(self).logs().insert(id@, Seq::<LogEntry>::empty())
                    &&& final(self).next_sort_order() == old(self).next_sort_order() + 1
                },
            },
    {
        if let Some(e) = check_add_params(&params) {
            return Err(e);
        }
        let order = self.alloc_sort_order();
        let config = create_app_config_with_id(params, order, id);
        let stored = AppInstance {
            config: config.copy(),
            pid: None,
            running: false,
            process_info: None,
            started_at: None,
            logs: None,
            server_port: None,
            exit_reason: None,
            manual_stop: false,
        };
        assert(stored@ == fresh_instance(config)@);
        self.put_app(stored);
        Ok(config)
    }

    /// Adds an application made from `params` with a fresh random id (see
    /// `add_app_with_id`).
    pub fn add_app(&mut self, params: AddAppParams) -> (r: Result<AppConfig, AppError>)
        requires
            old(self).wf(),
            env_names_distinct(crate::models::opt_seq_view(params.env_vars)),
            add_rejection(params) is None ==> old(self).next_sort_order() < i32::MAX,
        ensures
            final(self).wf(),
            match add_rejection(params) {
                Some(e) => {
                    &&& r == Err::<AppConfig, AppError>(e)
                    &&& final(self).apps() == old(self).apps()
                    &&& final(self).logs() == old(self).logs()
                    &&& final(self).next_sort_order() == old(self).next_sort_order()
                },
                None => {
                    &&& r matches Ok(c)
                    &&& crate::models::is_v4_uuid_text(c.id@)
                    &&& c == config_from_params(params, old(self).next_sort_order(), c.id)
                    &&& final(self).apps() == old(self).apps().insert(c.id@, fresh_instance(c)@)
                    &&& final(self).logs() == old(self).logs().insert(c.id@, Seq::<LogEntry>::empty())
                    &&& final(self).next_sort_order() == old(self).next_sort_order() + 1
                },
            },
    {
        let id = crate::models::new_app_id();
        self.add_app_with_id(params, id)
    }

    /// Edits the application `params.id` unless it is unknown or running.
    /// Returns the edited configuration.
    pub fn update_app(&mut self, params: UpdateAppParams) -> (r: Result<AppConfig, AppError>)
        requires
            old(self).wf(),
            env_names_distinct(crate::models::opt_seq_view(params.env_vars)),
        ensures
            final(self).wf(),
            final(self).logs() == old(self).logs(),
            final(self).next_sort_order() == old(self).next_sort_order(),
            !old(self).apps().dom().contains(params.id@) ==> r == Err::<AppConfig, AppError>(
                AppError::NotFound,
            ) && final(self).apps() == old(self).apps(),
            old(self).apps().dom().contains(params.id@) && old(self).apps()[params.id@].running
                ==> r == Err::<AppConfig, AppError>(AppError::RunningCannotEdit) && final(self).apps() == old(self).apps(),
            old(self).apps().dom().contains(params.id@) && !old(self).apps()[params.id@].running
                ==> (r matches Ok(c) && c@ == updated_config_view(
                old(self).apps()[params.id@].config,
                params,
            ) && final(self).apps() == old(self).apps().insert(
                params.id@,
                AppInstanceView { config: c@, ..old(self).apps()[params.id@] },
            )),
    {
        match self.apps.find(params.id.as_str()) {
            None => Err(AppError::NotFound),
            Some(i) => {
                proof {
                    self.apps.lemma_pairs();
                }
                if self.apps.value_at(i).running {
                    return Err(AppError::RunningCannotEdit);
                }
                let (key, inst) = self.apps.remove_at(i);
                let ghost before = inst@;
                let AppInstance {
                    config,
                    pid,
                    running,
                    process_info,
                    started_at,
                    logs,
                    server_port,
                    exit_reason,
                    manual_stop,
                } = inst;
                let ghost old_config = config;
                let new_config = apply_update(config, params);
                let result = new_config.copy();
                let edited = AppInstance {
                    config: new_config,
                    pid,
                    running,
                    process_info,
                    started_at,
                    logs,
                    server_port,
                    exit_reason,
                    manual_stop,
                };
                proof {
                    assert(old_config@ == before.config);
                    assert(edited.config.id == old_config.id);
                }
                self.apps.insert(key, edited);
                proof {
                    assert(self.apps() =~= old(self).apps().insert(
                        params.id@,
                        AppInstanceView { config: result@, ..old(self).apps()[params.id@] },
                    ));
                }
                Ok(result)
            },
        }
    }
}

/// `updated_config` on views.
pub open spec fn updated_config_view(
    config: crate::models::AppConfigView,
    params: UpdateAppParams,
) -> crate::models::AppConfigView {
    crate::models::AppConfigView {
        id: config.id,
        name: params.name,
        app_type: match params.app_type {
            Some(t) => t,
            None => config.app_type,
        },
        command: params.command,
        work_dir: params.work_dir,
        description: params.description,
        color: params.color,
        auto_start: match params.auto_start {
            Some(b) => b,
            None => false,
        },
        group: params.group,
        env_vars: crate::models::opt_seq_view(params.env_vars),
        sort_order: config.sort_order,
        delay_seconds: match params.delay_seconds {
            Some(d) => d,
            None => 0,
        },
        static_server: crate::models::opt_server_view(params.static_server),
        url: params.url,
        watch_restart: match params.watch_restart {
            Some(b) => b,
            None => false,
        },
        watch_dirs: crate::models::opt_seq_view(params.watch_dirs),
        exit_restart: match params.exit_restart {
            Some(b) => b,
            None => false,
        },
    }
}

/// `s` with `a` inserted at `p` contains exactly what `s` contains, and `a`.
proof fn lemma_insert_contains<T>(s: Seq<T>, p: int, a: T, x: T)
    requires
        0 <= p <= s.len(),
    ensures
        s.insert(p, a).contains(x) <==> (s.contains(x) || x == a),
{
    s.insert_ensures(p, a);
    let t = s.insert(p, a);
    if t.contains(x) {
        let m = choose|m: int| 0 <= m < t.len() && t[m] == x;
        if m < p {
            assert(s[m] == x);
        } else if m > p {
            assert(s[m - 1] == x);
        }
    }
    if s.contains(x) {
        let m = choose|m: int| 0 <= m < s.len() && s[m] == x;
        if m < p {
            assert(t[m] == x);
        } else {
            assert(t[m + 1] == x);
        }
    }
    if x == a {
        assert(t[p] == x);
    }
}

/// `order` lists distinct positions below `n`, sorted by `key`.
pub open spec fn sorted_positions(order: Seq<usize>, key: spec_fn(int) -> int, n: int) -> bool {
    &&& forall|m: int| 0 <= m < order.len() ==> #[trigger] order[m] < n
    &&& forall|a: int, b: int| 0 <= a < b < order.len() ==> #[trigger] order[a] != #[trigger] order[b]
    &&& forall|a: int, b: int|
        0 <= a < b < order.len() ==> #[trigger] key(order[a] as int) <= #[trigger] key(order[b] as int)
}

impl AppState {
    /// List position of the application stored at `i`.
    spec fn position_key(&self) -> spec_fn(int) -> int {
        |i: int| self.apps.pairs()[i].1.config.sort_order as int
    }

    /// The stored applications' slots, ordered by list position (stable).
    fn sorted_slots(&self) -> (order: Vec<usize>)
        requires
            self.wf(),
        ensures
            order@.len() == self.apps.pairs().len(),
            sorted_positions(order@, self.position_key(), self.apps.pairs().len() as int),
            forall|j: usize| j < self.apps.pairs().len() ==> #[trigger] order@.contains(j),
    {
        let n = self.apps.len();
        let ghost key = self.position_key();
        let mut order: Vec<usize> = Vec::new();
        let mut i: usize = 0;
        while i < n
            invariant
                n == self.apps.pairs().len(),
                key == self.position_key(),
                i <= n,
                order@.len() == i,
                sorted_positions(order@, key, i as int),
                forall|j: usize| j < i ==> #[trigger] order@.contains(j),
            decreases n - i,
        {
            let ki = self.apps.value_at(i).config.sort_order;
            let mut p: usize = 0;
            while p < order.len() && self.apps.value_at(order[p]).config.sort_order <= ki
                invariant
                    n == self.apps.pairs().len(),
                    key == self.position_key(),
                    i < n,
                    ki == key(i as int),
                    order@.len() == i,
                    sorted_positions(order@, key, i as int),
                    p <= order@.len(),
                    forall|m: int| 0 <= m < p ==> key(#[trigger] order@[m] as int) <= ki,
                decreases order@.len() - p,
            {
                p += 1;
            }
            let ghost before = order@;
            order.insert(p, i);
            proof {
                before.insert_ensures(p as int, i);
                assert(order@ == before.insert(p as int, i));
                assert forall|m: int| 0 <= m < order@.len() implies #[trigger] order@[m] < i + 1 by {
                    if m < p {
                        assert(order@[m] == before[m]);
                    } else if m > p {
                        assert(order@[m] == before[m - 1]);
                    }
                }
                assert forall|a: int, b: int| 0 <= a < b < order@.len() implies #[trigger] order@[a]
                    != #[trigger] order@[b] by {
                    let a2 = if a < p { a } else { a - 1 };
                    let b2 = if b < p { b } else { b - 1 };
                    if a != p && b != p {
                        assert(order@[a] == before[a2]);
                        assert(order@[b] == before[b2]);
                    } else if a == p {
                        assert(order@[b] == before[b2]);
                    } else {
                        assert(order@[a] == before[a2]);
                    }
                }
                assert forall|a: int, b: int| 0 <= a < b < order@.len() implies #[trigger] key(
                    order@[a] as int,
                ) <= #[trigger] key(order@[b] as int) by {
                    let a2 = if a < p { a } else { a - 1 };
                    let b2 = if b < p { b } else { b - 1 };
                    if a != p && b != p {
                        assert(order@[a] == before[a2]);
                        assert(order@[b] == before[b2]);
                    } else if a == p {
                        assert(order@[b] == before[b2]);
                        if b2 < before.len() && p < before.len() {
                            assert(key(before[p as int] as int) <= key(before[b2] as int)
                                || p == b2);
                        }
                    } else {
                        assert(order@[a] == before[a2]);
                    }
                }
                assert forall|j: usize| j < i + 1 implies #[trigger] order@.contains(j) by {
                    lemma_insert_contains(before, p as int, i, j);
                }
            }
            i += 1;
        }
        order
    }
}

/// Which copy of the applications is produced.
#[derive(Clone, Copy, Debug, PartialEq, Eq, Structural)]
pub enum Snapshot {
    /// Everything, as listed to the user.
    Full,
    /// For the data file: without process samples and log lines.
    Persist,
    /// For exporting: stopped, without any run-time data.
    Export,
}

/// The copy of one application that `mode` produces.
pub open spec fn snapshot_of(mode: Snapshot, v: AppInstanceView) -> AppInstanceView {
    match mode {
        Snapshot::Full => v,
        Snapshot::Persist => AppInstanceView { process_info: None, logs: None, ..v },
        Snapshot::Export => AppInstanceView {
            running: false,
            pid: None,
            process_info: None,
            started_at: None,
            logs: None,
            server_port: None,
            exit_reason: None,
            ..v
        },
    }
}

/// `r` holds the copy (`mode`) of every application of `apps` once, ordered
/// by list position.
pub open spec fn lists_all(
    r: Seq<AppInstanceView>,
    apps: Map<Seq<char>, AppInstanceView>,
    mode: Snapshot,
) -> bool {
    &&& forall|i: int|
        0 <= i < r.len() ==> apps.dom().contains(#[trigger] r[i].config.id@) && r[i]
            == snapshot_of(mode, apps[r[i].config.id@])
    &&& forall|i: int, j: int|
        0 <= i < j < r.len() ==> #[trigger] r[i].config.id@ != #[trigger] r[j].config.id@
    &&& forall|k: Seq<char>|
        #[trigger] apps.dom().contains(k) ==> exists|i: int| 0 <= i < r.len() && r[i].config.id@ == k
    &&& forall|i: int, j: int|
        0 <= i < j < r.len() ==> #[trigger] r[i].config.sort_order <= #[trigger] r[j].config.sort_order
}

fn snapshot_copy(mode: Snapshot, inst: &AppInstance) -> (r: AppInstance)
    ensures
        r@ == snapshot_of(mode, inst@),
{
    let mut c = inst.copy();
    match mode {
        Snapshot::Full => {},
        Snapshot::Persist => {
            c.process_info = None;
            c.logs = None;
        },
        Snapshot::Export => {
            c.running = false;
            c.pid = None;
            c.process_info = None;
            c.started_at = None;
            c.logs = None;
            c.server_port = None;
            c.exit_reason = None;
        },
    }
    c
}

impl AppState {
    /// Copies of all applications ordered by list position (see `lists_all`).
    pub fn snapshot(&self, mode: Snapshot) -> (r: Vec<AppInstance>)
        requires
            self.wf(),
        ensures
            lists_all(r@.map_values(|x: AppInstance| x@), self.apps(), mode),
    {
        let order = self.sorted_slots();
        proof {
            self.apps.lemma_pairs();
        }
        let ghost pairs = self.apps.pairs();
        let mut r: Vec<AppInstance> = Vec::new();
        let mut m: usize = 0;
        while m < order.len()
            invariant
                self.wf(),
                pairs == self.apps.pairs(),
                order@.len() == pairs.len(),
                sorted_positions(order@, self.position_key(), pairs.len() as int),
                m <= order@.len(),
                r@.len() == m,
                forall|q: int| 0 <= q < m ==> (#[trigger] r@[q])@ == snapshot_of(mode, pairs[order@[q] as int].1@),
            decreases order@.len() - m,
        {
            let slot = order[m];
            r.push(snapshot_copy(mode, self.apps.value_at(slot)));
            m += 1;
        }
        proof {
            let rv = r@.map_values(|x: AppInstance| x@);
            assert forall|i: int| 0 <= i < rv.len() implies self.apps().dom().contains(
                #[trigger] rv[i].config.id@,
            ) && rv[i] == snapshot_of(mode, self.apps()[rv[i].config.id@]) by {
                let j = order@[i] as int;
                assert(rv[i] == r@[i]@);
                assert(self.apps@[pairs[j].0@] == pairs[j].1);
                assert(self.apps@[pairs[j].0@].config.id@ == pairs[j].0@);
            }
            assert forall|i: int, j: int| 0 <= i < j < rv.len() implies #[trigger] rv[i].config.id@
                != #[trigger] rv[j].config.id@ by {
                let a = order@[i] as int;
                let b = order@[j] as int;
                assert(rv[i] == r@[i]@);
                assert(rv[j] == r@[j]@);
                assert(self.apps@[pairs[a].0@].config.id@ == pairs[a].0@);
                assert(self.apps@[pairs[b].0@].config.id@ == pairs[b].0@);
                assert(pairs[a].0@ != pairs[b].0@);
            }
            assert forall|k: Seq<char>| #[trigger] self.apps().dom().contains(k) implies exists|i: int|
                0 <= i < rv.len() && rv[i].config.id@ == k by {
                let j = choose|j: int| 0 <= j < pairs.len() && #[trigger] pairs[j].0@ == k;
                assert(order@.contains(j as usize));
                let i = choose|i: int| 0 <= i < order@.len() && order@[i] == j as usize;
                assert(rv[i] == r@[i]@);
                assert(self.apps@[pairs[j].0@].config.id@ == pairs[j].0@);
            }
            assert forall|i: int, j: int| 0 <= i < j < rv.len() implies #[trigger] rv[i].config.sort_order
                <= #[trigger] rv[j].config.sort_order by {
                assert(rv[i] == r@[i]@);
                assert(rv[j] == r@[j]@);
                let key = self.position_key();
                assert(key(order@[i] as int) <= key(order@[j] as int));
            }
        }
        r
    }

    /// All applications ordered by list position.
    pub fn list_apps(&self) -> (r: Vec<AppInstance>)
        requires
            self.wf(),
        ensures
            lists_all(r@.map_values(|x: AppInstance| x@), self.apps(), Snapshot::Full),
    {
        self.snapshot(Snapshot::Full)
    }
}

impl AppState {
    /// Removes the application `id` and its log buffer unless it is unknown
    /// or running.
    pub fn delete_app(&mut self, id: &str) -> (r: Result<(), AppError>)
        requires
            old(self).wf(),
        ensures
            final(self).wf(),
            final(self).next_sort_order() == old(self).next_sort_order(),
            !old(self).apps().dom().contains(id@) ==> r == Err::<(), AppError>(AppError::NotFound)
                && final(self).apps() == old(self).apps() && final(self).logs() == old(self).logs(),
            old(self).apps().dom().contains(id@) && old(self).apps()[id@].running ==> r == Err::<
                (),
                AppError,
            >(AppError::RunningCannotDelete) && final(self).apps() == old(self).apps() && final(
                self).logs() == old(self).logs(),
            old(self).apps().dom().contains(id@) && !old(self).apps()[id@].running ==> r == Ok::<
                (),
                AppError,
            >(()) && final(self).apps() == old(self).apps().remove(id@) && final(self).logs()
                == old(self).logs().remove(id@),
    {
        match self.apps.find(id) {
            None => Err(AppError::NotFound),
            Some(i) => {
                if self.apps.value_at(i).running {
                    return Err(AppError::RunningCannotDelete);
                }
                let _removed = self.apps.remove_at(i);
                let _buffer = self.logs.remove(id);
                proof {
                    assert(self.apps() =~= old(self).apps().remove(id@));
                    assert(self.logs() =~= old(self).logs().remove(id@));
                }
                Ok(())
            },
        }
    }

    /// A copy of the application `id`.
    pub fn get_app(&self, id: &str) -> (r: Option<AppInstance>)
        requires
            self.wf(),
        ensures
            match r {
                Some(a) => self.apps().dom().contains(id@) && a@ == self.apps()[id@],
                None => !self.apps().dom().contains(id@),
            },
    {
        match self.apps.get(id) {
            Some(a) => Some(a.copy()),
            None => None,
        }
    }

    /// The latest process sample of the application `id`.
    pub fn get_process_info(&self, id: &str) -> (r: Result<Option<crate::models::ProcessStats>, AppError>)
        requires
            self.wf(),
        ensures
            match r {
                Ok(p) => self.apps().dom().contains(id@) && p == self.apps()[id@].process_info,
                Err(e) => !self.apps().dom().contains(id@) && e == AppError::NotFound,
            },
    {
        match self.apps.get(id) {
            Some(a) => Ok(a.process_info),
            None => Err(AppError::NotFound),
        }
    }

    /// A copy of the log lines of `id` (none when it has no buffer).
    pub fn get_app_logs(&self, id: &str) -> (r: Vec<LogEntry>)
        requires
            self.wf(),
        ensures
            self.logs().dom().contains(id@) ==> r@ == self.logs()[id@],
            !self.logs().dom().contains(id@) ==> r@.len() == 0,
    {
        match self.logs.get(id) {
            Some(v) => crate::models::copy_logs(v),
            None => Vec::new(),
        }
    }

    /// Empties the log buffer of `id`, if it has one.
    pub fn clear_app_logs(&mut self, id: &str)
        requires
            old(self).wf(),
        ensures
            final(self).wf(),
            final(self).apps() == old(self).apps(),
            final(self).next_sort_order() == old(self).next_sort_order(),
            old(self).logs().dom().contains(id@) ==> final(self).logs() == old(self).logs().insert(
                id@,
                Seq::<LogEntry>::empty(),
            ),
            !old(self).logs().dom().contains(id@) ==> final(self).logs() == old(self).logs(),
    {
        match self.logs.find(id) {
            Some(i) => {
                proof {
                    self.logs.lemma_pairs();
                }
                self.logs.set_value(i, Vec::new());
                proof {
                    assert(self.logs() =~= old(self).logs().insert(id@, Seq::<LogEntry>::empty()));
                }
            },
            None => {},
        }
    }

    /// Appends a line stamped `ts` to the log of `id`, if it has a buffer;
    /// the oldest lines beyond `MAX_LOGS` are dropped.
    pub fn push_log_line(&mut self, id: &str, ts: i64, level: &str, content: &str)
        requires
            old(self).wf(),
        ensures
            final(self).wf(),
            final(self).apps() == old(self).apps(),
            final(self).next_sort_order() == old(self).next_sort_order(),
            final(self).logs().dom() == old(self).logs().dom(),
            forall|k: Seq<char>|
                k != id@ && old(self).logs().dom().contains(k) ==> #[trigger] final(self).logs().index(k)
                    == old(self).logs().index(k),
            old(self).logs().dom().contains(id@) ==> appended(
                old(self).logs()[id@],
                final(self).logs()[id@],
                ts,
                level@,
                content@,
            ),
            !old(self).logs().dom().contains(id@) ==> final(self).logs() == old(self).logs(),
    {
        crate::logs::push_to_buffer_at(&mut self.logs, id, ts, level, content);
        proof {
            assert(self.logs().dom() =~= old(self).logs().dom());
            if !old(self).logs().dom().contains(id@) {
                assert(self.logs() =~= old(self).logs());
            }
        }
    }

}

/// `v` at list position `o`.
pub open spec fn with_sort_order(v: AppInstanceView, o: i32) -> AppInstanceView {
    AppInstanceView { config: AppConfigView { sort_order: o, ..v.config }, ..v }
}

/// `apps` after moving each listed application to its new position, in
/// order; unknown ids are skipped.
pub open spec fn reordered(
    apps: Map<Seq<char>, AppInstanceView>,
    orders: Seq<(String, i32)>,
) -> Map<Seq<char>, AppInstanceView>
    decreases orders.len(),
{
    if orders.len() == 0 {
        apps
    } else {
        let prev = reordered(apps, orders.drop_last());
        let (id, o) = orders.last();
        if prev.dom().contains(id@) {
            prev.insert(id@, with_sort_order(prev[id@], o))
        } else {
            prev
        }
    }
}

impl AppState {
    /// Takes the application at slot `i` out (see `restore_app`).
    fn take_app(&mut self, i: usize) -> (r: (String, AppInstance))
        requires
            old(self).wf(),
            i < old(self).apps.pairs().len(),
        ensures
            final(self).wf(),
            r == old(self).apps.pairs()[i as int],
            r.0@ == r.1.config.id@,
            old(self).apps().dom().contains(r.0@),
            old(self).apps()[r.0@] == r.1@,
            final(self).apps() == old(self).apps().remove(r.0@),
            !final(self).apps@.dom().contains(r.0@),
            final(self).apps.pairs().len() == old(self).apps.pairs().len() - 1,
            final(self).logs() == old(self).logs(),
            final(self).next_sort_order() == old(self).next_sort_order(),
    {
        proof {
            self.apps.lemma_pairs();
            let k = self.apps.pairs()[i as int].0@;
            assert(self.apps@.dom().contains(k));
            assert(self.apps@[k] == self.apps.pairs()[i as int].1);
        }
        let r = self.apps.remove_at(i);
        proof {
            assert(self.apps() =~= old(self).apps().remove(r.0@));
        }
        r
    }

    /// Puts an application back at slot `i` under its id.
    fn restore_app(&mut self, i: usize, key: String, inst: AppInstance)
        requires
            old(self).wf(),
            env_names_distinct(inst@.config.env_vars),
            i <= old(self).apps.pairs().len(),
            key@ == inst.config.id@,
            !old(self).apps@.dom().contains(key@),
        ensures
            final(self).wf(),
            final(self).apps() == old(self).apps().insert(key@, inst@),
            final(self).apps.pairs().len() == old(self).apps.pairs().len() + 1,
            final(self).logs() == old(self).logs(),
            final(self).next_sort_order() == old(self).next_sort_order(),
    {
        self.apps.insert_at(i, key, inst);
        proof {
            assert(self.apps() =~= old(self).apps().insert(key@, inst@));
        }
    }

    /// Moves applications to new list positions; unknown ids are skipped.
    pub fn update_sort_order(&mut self, orders: &Vec<(String, i32)>)
        requires
            old(self).wf(),
        ensures
            final(self).wf(),
            final(self).apps() == reordered(old(self).apps(), orders@),
            final(self).logs() == old(self).logs(),
            final(self).next_sort_order() == old(self).next_sort_order(),
    {
        let mut k: usize = 0;
        while k < orders.len()
            invariant
                self.wf(),
                k <= orders@.len(),
                self.apps() == reordered(old(self).apps(), orders@.take(k as int)),
                self.logs() == old(self).logs(),
                self.next_sort_order() == old(self).next_sort_order(),
            decreases orders@.len() - k,
        {
            let (id, o) = &orders[k];
            proof {
                assert(orders@.take(k + 1).drop_last() =~= orders@.take(k as int));
                assert(orders@.take(k + 1).last() == orders@[k as int]);
            }
            match self.apps.find(id.as_str()) {
                Some(i) => {
                    let ghost before = self.apps();
                    let (key, mut inst) = self.take_app(i);
                    inst.config.sort_order = *o;
                    self.restore_app(i, key, inst);
                    proof {
                        assert(self.apps() =~= before.insert(id@, with_sort_order(before[id@], *o)));
                    }
                },
                None => {},
            }
            k += 1;
        }
        assert(orders@.take(orders@.len() as int) =~= orders@);
    }
}

// ---------------------------------------------------------------------------
// Importing and loading
// ---------------------------------------------------------------------------

/// What is kept of an imported application: placed at `o`, stopped, with
/// no run-time data.
pub open spec fn imported_view(v: AppInstanceView, o: i32) -> AppInstanceView {
    AppInstanceView {
        config: AppConfigView { sort_order: o, ..v.config },
        running: false,
        pid: None,
        process_info: None,
        started_at: None,
        logs: None,
        server_port: None,
        exit_reason: None,
        ..v
    }
}

/// Importing `list` in order into `(apps, logs, next)`: applications whose
/// id is already known are skipped; each new one takes the next position
/// and an empty log buffer.  Also yields how many were added.
pub open spec fn import_all(
    apps: Map<Seq<char>, AppInstanceView>,
    logs: Map<Seq<char>, Seq<LogEntry>>,
    next: int,
    list: Seq<AppInstanceView>,
) -> (Map<Seq<char>, AppInstanceView>, Map<Seq<char>, Seq<LogEntry>>, int, nat)
    decreases list.len(),
{
    if list.len() == 0 {
        (apps, logs, next, 0)
    } else {
        let (a, l, n, c) = import_all(apps, logs, next, list.drop_last());
        let v = list.last();
        if a.dom().contains(v.config.id@) {
            (a, l, n, c)
        } else {
            (
                a.insert(v.config.id@, imported_view(v, n as i32)),
                l.insert(v.config.id@, Seq::<LogEntry>::empty()),
                n + 1,
                c + 1,
            )
        }
    }
}

pub proof fn lemma_import_monotone(
    apps: Map<Seq<char>, AppInstanceView>,
    logs: Map<Seq<char>, Seq<LogEntry>>,
    next: int,
    list: Seq<AppInstanceView>,
    k: int,
)
    requires
        0 <= k <= list.len(),
    ensures
        import_all(apps, logs, next, list.take(k)).2 <= import_all(apps, logs, next, list).2,
        next <= import_all(apps, logs, next, list).2,
        import_all(apps, logs, next, list).3 <= list.len(),
        import_all(apps, logs, next, list).2 == next + import_all(apps, logs, next, list).3,
    decreases list.len(),
{
    if list.len() > 0 {
        if k == list.len() {
            assert(list.take(k) =~= list);
        }
        lemma_import_monotone(apps, logs, next, list.drop_last(), if k < list.len() {
            k
        } else {
            list.len() - 1
        });
        if k < list.len() {
            assert(list.drop_last().take(k) =~= list.take(k));
        }
    }
}

pub open spec fn views_of(v: Seq<AppInstance>) -> Seq<AppInstanceView> {
    v.map_values(|x: AppInstance| x@)
}

impl AppState {
    /// Adds the applications of `instances` whose ids are not known yet (see
    /// `import_all`); returns how many were added.
    pub fn import_config(&mut self, instances: Vec<AppInstance>) -> (count: usize)
        requires
            old(self).wf(),
            forall|i: int| 0 <= i < instances@.len() ==> env_names_distinct(#[trigger] instances@[i]@.config.env_vars),
            import_all(
                old(self).apps(),
                old(self).logs(),
                old(self).next_sort_order() as int,
                views_of(instances@),
            ).2 <= i32::MAX,
        ensures
            final(self).wf(),
            ({
                let (a, l, n, c) = import_all(
                    old(self).apps(),
                    old(self).logs(),
                    old(self).next_sort_order() as int,
                    views_of(instances@),
                );
                &&& final(self).apps() == a
                &&& final(self).logs() == l
                &&& final(self).next_sort_order() == n
                &&& count == c
            }),
    {
        let ghost all = views_of(instances@);
        let ghost a0 = self.apps();
        let ghost l0 = self.logs();
        let ghost n0 = self.next_sort_order() as int;
        let total = instances.len();
        let mut rest = instances;
        let mut k: usize = 0;
        let mut count: usize = 0;
        proof {
            assert(all.take(0) =~= Seq::<AppInstanceView>::empty());
            lemma_import_monotone(a0, l0, n0, all, 0);
            assert forall|i: int| 0 <= i < all.len() implies env_names_distinct(
                #[trigger] all[i].config.env_vars,
            ) by {
                assert(all[i] == instances@[i]@);
            }
        }
        while k < total
            invariant
                self.wf(),
                total == all.len(),
                k <= total,
                views_of(rest@) == all.skip(k as int),
                rest@.len() == total - k,
                forall|i: int| 0 <= i < all.len() ==> env_names_distinct(#[trigger] all[i].config.env_vars),
                import_all(a0, l0, n0, all).2 <= i32::MAX,
                ({
                    let (a, l, n, c) = import_all(a0, l0, n0, all.take(k as int));
                    &&& self.apps() == a
                    &&& self.logs() == l
                    &&& self.next_sort_order() == n
                    &&& count == c
                }),
                count <= k,
            decreases total - k,
        {
            let ghost before_rest = rest@;
            let inst = rest.remove(0);
            proof {
                assert(inst@ == all[k as int]) by {
                    assert(views_of(before_rest)[0] == before_rest[0]@);
                    assert(all.skip(k as int)[0] == all[k as int]);
                }
                assert forall|q: int| 0 <= q < rest@.len() implies #[trigger] views_of(rest@)[q]
                    == all.skip(k + 1)[q] by {
                    assert(rest@[q] == before_rest[q + 1]);
                    assert(views_of(before_rest)[q + 1] == before_rest[q + 1]@);
                    assert(all.skip(k as int)[q + 1] == all[k + 1 + q]);
                }
                assert(views_of(rest@) =~= all.skip(k + 1));
                assert(all.take(k + 1).drop_last() =~= all.take(k as int));
                assert(all.take(k + 1).last() == all[k as int]);
                lemma_import_monotone(a0, l0, n0, all, k + 1);
                lemma_import_monotone(a0, l0, n0, all.take(k + 1), k + 1);
            }
            if self.apps.find(inst.config.id.as_str()).is_none() {
                let order = self.alloc_sort_order();
                let mut v = inst;
                v.config.sort_order = order;
                v.running = false;
                v.pid = None;
                v.process_info = None;
                v.started_at = None;
                v.logs = None;
                v.server_port = None;
                v.exit_reason = None;
                self.put_app(v);
                count += 1;
            }
            k += 1;
        }
        proof {
            assert(all.take(total as int) =~= all);
        }
        count
    }
}

/// Whether each running application of `list` was found alive, by id (a
/// later entry with the same id wins): `observed[i]` for a command, no for
/// a static server (its server does not survive a restart of the manager).
pub open spec fn alive_map(list: Seq<AppInstanceView>, observed: Seq<Option<bool>>) -> Map<
    Seq<char>,
    Option<bool>,
>
    decreases list.len(),
{
    if list.len() == 0 {
        Map::empty()
    } else {
        let prev = alive_map(list.drop_last(), observed.drop_last());
        let v = list.last();
        if v.running {
            prev.insert(
                v.config.id@,
                match v.config.app_type {
                    AppType::Command => observed.last(),
                    AppType::StaticServer => Some(false),
                },
            )
        } else {
            prev
        }
    }
}

/// A loaded application brought up to date: no log lines; if it was
/// running, a command whose process is gone is stopped ("进程已退出"), one
/// without a process id is stopped ("进程信息丢失"), and a static server is
/// stopped ("静态服务器需要重新启动").
pub open spec fn reconciled(v: AppInstanceView, alive: Option<Option<bool>>) -> AppInstanceView {
    let v = AppInstanceView { logs: None, ..v };
    if !v.running {
        v
    } else {
        match v.config.app_type {
            AppType::Command => if v.pid is Some && alive == Some(Some(false)) {
                AppInstanceView {
                    running: false,
                    pid: None,
                    started_at: None,
                    exit_reason: Some("进程已退出"@),
                    ..v
                }
            } else if v.pid is None {
                AppInstanceView { running: false, exit_reason: Some("进程信息丢失"@), ..v }
            } else {
                v
            },
            AppType::StaticServer => AppInstanceView {
                running: false,
                server_port: None,
                exit_reason: Some("静态服务器需要重新启动"@),
                ..v
            },
        }
    }
}

/// `(apps, logs)` after storing each of `list`, brought up to date, with an
/// empty log buffer (a later entry with the same id replaces an earlier one).
pub open spec fn loaded(
    apps: Map<Seq<char>, AppInstanceView>,
    logs: Map<Seq<char>, Seq<LogEntry>>,
    list: Seq<AppInstanceView>,
    alive: Map<Seq<char>, Option<bool>>,
) -> (Map<Seq<char>, AppInstanceView>, Map<Seq<char>, Seq<LogEntry>>)
    decreases list.len(),
{
    if list.len() == 0 {
        (apps, logs)
    } else {
        let (a, l) = loaded(apps, logs, list.drop_last(), alive);
        let v = list.last();
        let id = v.config.id@;
        let seen = if alive.dom().contains(id) {
            Some(alive[id])
        } else {
            None
        };
        (a.insert(id, reconciled(v, seen)), l.insert(id, Seq::<LogEntry>::empty()))
    }
}

/// The largest list position in `list`, or -1 when it is empty.
pub open spec fn max_order(list: Seq<AppInstanceView>) -> int
    decreases list.len(),
{
    if list.len() == 0 {
        -1
    } else if list.len() == 1 {
        list[0].config.sort_order as int
    } else {
        let m = max_order(list.drop_last());
        let o = list.last().config.sort_order as int;
        if o > m {
            o
        } else {
            m
        }
    }
}

fn reconcile(inst: AppInstance, alive: Option<Option<bool>>) -> (r: AppInstance)
    ensures
        r@ == reconciled(inst@, alive),
        r.config.id == inst.config.id,
{
    let mut v = inst;
    v.logs = None;
    if v.running {
        match v.config.app_type {
            AppType::Command => {
                if v.pid.is_some() && alive == Some(Some(false)) {
                    v.running = false;
                    v.pid = None;
                    v.started_at = None;
                    v.exit_reason = Some(String::from_str("进程已退出"));
                } else if v.pid.is_none() {
                    v.running = false;
                    v.exit_reason = Some(String::from_str("进程信息丢失"));
                }
            },
            AppType::StaticServer => {
                v.running = false;
                v.server_port = None;
                v.exit_reason = Some(String::from_str("静态服务器需要重新启动"));
            },
        }
    }
    v
}

impl AppState {
    /// Takes in the applications read from the data file: positions continue
    /// after the largest one, each application is stored brought up to date
    /// (see `loaded`) with an empty log buffer, and all applications are
    /// returned ordered by position.  `observed[i]` tells whether the process
    /// of `instances[i]` was found (`None` when it has no process id).
    pub fn load_apps(&mut self, instances: Vec<AppInstance>, observed: &Vec<Option<bool>>) -> (r: Vec<
        AppInstance,
    >)
        requires
            old(self).wf(),
            observed@.len() == instances@.len(),
            forall|i: int| 0 <= i < instances@.len() ==> env_names_distinct(#[trigger] instances@[i]@.config.env_vars),
            max_order(views_of(instances@)) < i32::MAX,
        ensures
            final(self).wf(),
            final(self).next_sort_order() == max_order(views_of(instances@)) + 1,
            ({
                let (a, l) = loaded(
                    old(self).apps(),
                    old(self).logs(),
                    views_of(instances@),
                    alive_map(views_of(instances@), observed@),
                );
                final(self).apps() == a && final(self).logs() == l
            }),
            lists_all(r@.map_values(|x: AppInstance| x@), final(self).apps(), Snapshot::Full),
    {
        let ghost all = views_of(instances@);
        let total = instances.len();
        // largest position
        let mut max: i32 = -1;
        let mut i: usize = 0;
        while i < total
            invariant
                total == instances@.len(),
                all == views_of(instances@),
                i <= total,
                max == max_order(all.take(i as int)),
            decreases total - i,
        {
            proof {
                assert(all.take(i + 1).drop_last() =~= all.take(i as int));
                assert(all.take(i + 1).last() == instances@[i as int]@);
            }
            let o = instances[i].config.sort_order;
            if i == 0 || o > max {
                max = o;
            }
            i += 1;
        }
        proof {
            assert(all.take(total as int) =~= all);
        }
        self.init_sort_order(max);
        // which running applications were found alive
        let mut alive: KeyedVec<Option<bool>> = KeyedVec::new();
        let mut j: usize = 0;
        while j < total
            invariant
                total == instances@.len(),
                observed@.len() == total,
                all == views_of(instances@),
                j <= total,
                alive.wf(),
                alive@ == alive_map(all.take(j as int), observed@.take(j as int)),
            decreases total - j,
        {
            proof {
                assert(all.take(j + 1).drop_last() =~= all.take(j as int));
                assert(observed@.take(j + 1).drop_last() =~= observed@.take(j as int));
                assert(all.take(j + 1).last() == instances@[j as int]@);
                assert(observed@.take(j + 1).last() == observed@[j as int]);
            }
            let inst = &instances[j];
            if inst.running {
                let seen = match inst.config.app_type {
                    AppType::Command => observed[j],
                    AppType::StaticServer => Some(false),
                };
                alive.insert(inst.config.id.clone(), seen);
            }
            j += 1;
        }
        proof {
            assert(all.take(total as int) =~= all);
            assert(observed@.take(total as int) =~= observed@);
        }
        let ghost amap = alive@;
        let ghost a0 = self.apps();
        let ghost l0 = self.logs();
        proof {
            assert forall|i: int| 0 <= i < all.len() implies env_names_distinct(
                #[trigger] all[i].config.env_vars,
            ) by {
                assert(all[i] == instances@[i]@);
            }
        }
        let mut rest = instances;
        let mut k: usize = 0;
        while k < total
            invariant
                self.wf(),
                total == all.len(),
                k <= total,
                views_of(rest@) == all.skip(k as int),
                rest@.len() == total - k,
                forall|i: int| 0 <= i < all.len() ==> env_names_distinct(#[trigger] all[i].config.env_vars),
                alive.wf(),
                alive@ == amap,
                ({
                    let (a, l) = loaded(a0, l0, all.take(k as int), amap);
                    self.apps() == a && self.logs() == l
                }),
                self.next_sort_order() == max_order(all) + 1,
            decreases total - k,
        {
            let ghost before_rest = rest@;
            let inst = rest.remove(0);
            proof {
                assert(inst@ == all[k as int]) by {
                    assert(views_of(before_rest)[0] == before_rest[0]@);
                    assert(all.skip(k as int)[0] == all[k as int]);
                }
                assert forall|q: int| 0 <= q < rest@.len() implies #[trigger] views_of(rest@)[q]
                    == all.skip(k + 1)[q] by {
                    assert(rest@[q] == before_rest[q + 1]);
                    assert(views_of(before_rest)[q + 1] == before_rest[q + 1]@);
                    assert(all.skip(k as int)[q + 1] == all[k + 1 + q]);
                }
                assert(views_of(rest@) =~= all.skip(k + 1));
                assert(all.take(k + 1).drop_last() =~= all.take(k as int));
                assert(all.take(k + 1).last() == all[k as int]);
            }
            let seen: Option<Option<bool>> = match alive.get(inst.config.id.as_str()) {
                Some(x) => Some(*x),
                None => None,
            };
            let v = reconcile(inst, seen);
            self.put_app(v);
            k += 1;
        }
        proof {
            assert(all.take(total as int) =~= all);
        }
        self.list_apps()
    }
}

// ---------------------------------------------------------------------------
// Groups
// ---------------------------------------------------------------------------

/// Whether some application is in group `g`.
pub open spec fn has_group(apps: Map<Seq<char>, AppInstanceView>, g: Seq<char>) -> bool {
    exists|k: Seq<char>|
        #[trigger] apps.dom().contains(k) && apps[k].config.group is Some
            && apps[k].config.group->0@ == g
}

/// Strictly increasing in string order (hence without repeats).
pub open spec fn strictly_ascending(r: Seq<Seq<char>>) -> bool {
    forall|i: int, j: int| 0 <= i < j < r.len() ==> chars_lt(#[trigger] r[i], #[trigger] r[j])
}

pub open spec fn string_views(v: Seq<String>) -> Seq<Seq<char>> {
    v.map_values(|x: String| x@)
}

/// Some stored application is in group `g`.
pub open spec fn group_source(pairs: Seq<(String, AppInstance)>, g: Seq<char>) -> bool {
    exists|j: int|
        0 <= j < pairs.len() && (#[trigger] pairs[j]).1.config.group is Some
            && pairs[j].1.config.group->0@ == g
}

pub open spec fn key_views(v: Seq<Vec<char>>) -> Seq<Seq<char>> {
    v.map_values(|x: Vec<char>| x@)
}

impl AppState {
    /// The group names in use, sorted and without repeats.
    pub fn get_groups(&self) -> (r: Vec<String>)
        requires
            self.wf(),
        ensures
            strictly_ascending(string_views(r@)),
            forall|i: int|
                0 <= i < r@.len() ==> has_group(self.apps(), #[trigger] r@[i]@),
            forall|g: Seq<char>|
                has_group(self.apps(), g) ==> string_views(r@).contains(g),
    {
        proof {
            self.apps.lemma_pairs();
        }
        let ghost pairs = self.apps.pairs();
        let n = self.apps.len();
        let mut keys: Vec<Vec<char>> = Vec::new();
        let mut i: usize = 0;
        while i < n
            invariant
                self.wf(),
                pairs == self.apps.pairs(),
                n == pairs.len(),
                i <= n,
                strictly_ascending(key_views(keys@)),
                forall|m: int|
                    0 <= m < keys@.len() ==> group_source(pairs, #[trigger] key_views(keys@)[m]),
                forall|j: int|
                    0 <= j < i && (#[trigger] pairs[j]).1.config.group is Some ==> key_views(
                        keys@,
                    ).contains(pairs[j].1.config.group->0@),
            decreases n - i,
        {
            match &self.apps.value_at(i).config.group {
                None => {},
                Some(g) => {
                    let gc = crate::text::chars_of(g.as_str());
                    let mut p: usize = 0;
                    while p < keys.len() && crate::text::less_than(keys[p].as_slice(), gc.as_slice())
                        invariant
                            p <= keys@.len(),
                            forall|q: int| 0 <= q < p ==> chars_lt(#[trigger] keys@[q]@, gc@),
                        decreases keys@.len() - p,
                    {
                        p += 1;
                    }
                    let dup = p < keys.len() && crate::text::chars_eq_str(
                        keys[p].as_slice(),
                        g.as_str(),
                    );
                    if !dup {
                        let ghost before = keys@;
                        keys.insert(p, gc);
                        proof {
                            let bv = key_views(before);
                            let kv = key_views(keys@);
                            assert(kv =~= bv.insert(p as int, g@));
                            bv.insert_ensures(p as int, g@);
                            if p < before.len() {
                                crate::text::lemma_chars_lt_total(bv[p as int], g@);
                            }
                            assert forall|a: int, b: int| 0 <= a < b < kv.len() implies chars_lt(
                                #[trigger] kv[a],
                                #[trigger] kv[b],
                            ) by {
                                if b < p {
                                    assert(kv[a] == bv[a] && kv[b] == bv[b]);
                                } else if b == p {
                                    assert(kv[a] == bv[a]);
                                    assert(bv[a] == before[a]@);
                                } else if a < p {
                                    assert(kv[a] == bv[a] && kv[b] == bv[b - 1]);
                                    if b - 1 > a {
                                    }
                                } else if a == p {
                                    assert(kv[b] == bv[b - 1]);
                                    if b - 1 > p {
                                        crate::text::lemma_chars_lt_transitive(g@, bv[p as int], bv[b - 1]);
                                    }
                                } else {
                                    assert(kv[a] == bv[a - 1] && kv[b] == bv[b - 1]);
                                }
                            }
                            assert forall|m: int| 0 <= m < kv.len() implies group_source(
                                pairs,
                                #[trigger] kv[m],
                            ) by {
                                if m < p {
                                    assert(kv[m] == bv[m]);
                                } else if m > p {
                                    assert(kv[m] == bv[m - 1]);
                                } else {
                                    assert(pairs[i as int].1.config.group->0@ == kv[m]);
                                }
                            }
                            assert forall|j: int|
                                0 <= j < i + 1 && (#[trigger] pairs[j]).1.config.group is Some implies kv.contains(
                                pairs[j].1.config.group->0@,
                            ) by {
                                if j < i {
                                    crate::registry::lemma_insert_contains(
                                        bv,
                                        p as int,
                                        g@,
                                        pairs[j].1.config.group->0@,
                                    );
                                } else {
                                    assert(kv[p as int] == g@);
                                }
                            }
                        }
                    } else {
                        proof {
                            assert(key_views(keys@)[p as int] == g@);
                        }
                    }
                },
            }
            i += 1;
        }
        let mut r: Vec<String> = Vec::new();
        let mut m: usize = 0;
        while m < keys.len()
            invariant
                m <= keys@.len(),
                r@.len() == m,
                string_views(r@) == key_views(keys@).take(m as int),
            decreases keys@.len() - m,
        {
            let ghost before = r@;
            let sm = crate::text::string_from_chars(keys[m].as_slice());
            r.push(sm);
            m += 1;
            proof {
                assert forall|q: int| 0 <= q < m implies #[trigger] string_views(r@)[q]
                    == key_views(keys@).take(m as int)[q] by {
                    if q < m - 1 {
                        assert(r@[q] == before[q]);
                        assert(string_views(before)[q] == key_views(keys@).take(
                            m - 1,
                        )[q]);
                    }
                }
                assert(string_views(r@) =~= key_views(keys@).take(m as int));
            }
        }
        proof {
            let kv = key_views(keys@);
            assert(kv.take(keys@.len() as int) =~= kv);
            assert forall|q: int| 0 <= q < r@.len() implies has_group(self.apps(), #[trigger] r@[q]@) by {
                assert(string_views(r@)[q] == r@[q]@);
                assert(kv[q] == keys@[q]@);
                assert(group_source(pairs, kv[q]));
                let j = choose|j: int|
                    0 <= j < pairs.len() && (#[trigger] pairs[j]).1.config.group is Some
                        && pairs[j].1.config.group->0@ == kv[q];
                let k = pairs[j].0@;
                assert(self.apps@[k] == pairs[j].1);
                assert(self.apps().dom().contains(k));
            }
            assert forall|g: Seq<char>| has_group(self.apps(), g) implies r@.map_values(
                |x: String| x@,
            ).contains(g) by {
                let k = choose|k: Seq<char>|
                    #[trigger] self.apps().dom().contains(k) && self.apps()[k].config.group is Some
                        && self.apps()[k].config.group->0@ == g;
                let j = choose|j: int| 0 <= j < pairs.len() && #[trigger] pairs[j].0@ == k;
                assert(self.apps@[pairs[j].0@] == pairs[j].1);
            }
        }
        r
    }
}

// ---------------------------------------------------------------------------
// Log effects
// ---------------------------------------------------------------------------

/// `after` is `before` with the lines `lines` (level, text) appended in
/// order, each stamped `ts`, keeping the last `MAX_LOGS` lines.
pub open spec fn appended_all(
    before: Seq<LogEntry>,
    after: Seq<LogEntry>,
    ts: i64,
    lines: Seq<(Seq<char>, Seq<char>)>,
) -> bool {
    let total = before.len() + lines.len();
    let d = if total > MAX_LOGS {
        total - MAX_LOGS
    } else {
        0
    };
    &&& after.len() == total - d
    &&& forall|i: int|
        0 <= i < after.len() ==> if i + d < before.len() {
            #[trigger] after[i] == before[i + d]
        } else {
            &&& after[i].timestamp == ts
            &&& after[i].level@ == lines[i + d - before.len()].0
            &&& after[i].content@ == lines[i + d - before.len()].1
        }
}

/// The log buffers `after` are `before` with `lines` appended to the buffer
/// of `id` (nothing happens when `id` has no buffer).
pub open spec fn logs_after(
    before: Map<Seq<char>, Seq<LogEntry>>,
    after: Map<Seq<char>, Seq<LogEntry>>,
    id: Seq<char>,
    ts: i64,
    lines: Seq<(Seq<char>, Seq<char>)>,
) -> bool {
    &&& after.dom() == before.dom()
    &&& forall|k: Seq<char>|
        k != id && before.dom().contains(k) ==> #[trigger] after.index(k) == before.index(k)
    &&& before.dom().contains(id) ==> appended_all(before[id], after[id], ts, lines)
    &&& !before.dom().contains(id) ==> after == before
}

pub proof fn lemma_logs_after_none(m: Map<Seq<char>, Seq<LogEntry>>, id: Seq<char>, ts: i64)
    requires
        m.dom().contains(id) ==> m[id].len() <= MAX_LOGS,
    ensures
        logs_after(m, m, id, ts, seq![]),
{
}

pub proof fn lemma_logs_after_extend(
    m0: Map<Seq<char>, Seq<LogEntry>>,
    m1: Map<Seq<char>, Seq<LogEntry>>,
    m2: Map<Seq<char>, Seq<LogEntry>>,
    id: Seq<char>,
    ts: i64,
    lines: Seq<(Seq<char>, Seq<char>)>,
    level: Seq<char>,
    text: Seq<char>,
)
    requires
        logs_after(m0, m1, id, ts, lines),
        m2.dom() == m1.dom(),
        forall|k: Seq<char>| k != id && m1.dom().contains(k) ==> #[trigger] m2.index(k) == m1.index(k),
        m1.dom().contains(id) ==> appended(m1[id], m2[id], ts, level, text),
        !m1.dom().contains(id) ==> m2 == m1,
    ensures
        logs_after(m0, m2, id, ts, lines.push((level, text))),
{
    if m0.dom().contains(id) {
        lemma_appended_all_extend(m0[id], m1[id], m2[id], ts, lines, level, text);
    }
}

proof fn lemma_appended_all_extend(
    a0: Seq<LogEntry>,
    a1: Seq<LogEntry>,
    a2: Seq<LogEntry>,
    ts: i64,
    lines: Seq<(Seq<char>, Seq<char>)>,
    level: Seq<char>,
    text: Seq<char>,
)
    requires
        appended_all(a0, a1, ts, lines),
        appended(a1, a2, ts, level, text),
    ensures
        appended_all(a0, a2, ts, lines.push((level, text))),
{
    let l2 = lines.push((level, text));
    let n0 = a0.len();
    let k = lines.len();
    let total1 = n0 + k;
    let d1: int = if total1 > MAX_LOGS {
        total1 - MAX_LOGS
    } else {
        0
    };
    let e = crate::logs::overflow(a1.len()) as int;
    let total2 = n0 + k + 1;
    let d2: int = if total2 > MAX_LOGS {
        total2 - MAX_LOGS
    } else {
        0
    };
    assert(d1 + e == d2);
    assert forall|i: int| 0 <= i < a2.len() implies if i + d2 < a0.len() {
        #[trigger] a2[i] == a0[i + d2]
    } else {
        &&& a2[i].timestamp == ts
        &&& a2[i].level@ == l2[i + d2 - a0.len()].0
        &&& a2[i].content@ == l2[i + d2 - a0.len()].1
    } by {
        if i < a2.len() - 1 {
            assert(a2[i] == a1[i + e]);
            assert(0 <= i + e < a1.len());
            if i + e + d1 < a0.len() {
                assert(a1[i + e] == a0[i + e + d1]);
            } else {
                assert(l2[i + d2 - a0.len()] == lines[i + e + d1 - a0.len()]);
            }
        } else {
            assert(i + d2 - a0.len() == k);
        }
    }
}

// ---------------------------------------------------------------------------
// Run-time changes of one application
// ---------------------------------------------------------------------------

/// A change of an application's run-time state.
pub enum Change {
    /// Its process was started with id `pid` at `ts`.
    Spawned { pid: u32, ts: i64 },
    /// Its static server is listening on `port` since `ts`.
    ServerUp { port: u16, ts: i64 },
    /// Its static server was stopped by the user.
    ServerStopped,
    /// Its process was stopped by the user (`force`: the whole tree was killed).
    CommandStopped { force: bool },
    /// It is being restarted.
    Restarting,
    /// It was stopped with all others.
    BatchStopped,
    /// Its process was sampled.
    Sampled(crate::models::ProcessStats),
    /// Its process was found gone, for the reason `msg`.
    Exited { msg: String },
    /// It is restarted because watched files changed.
    FilesChanged,
}

/// Whether an exit of `v` is followed by an automatic restart.
pub open spec fn restarts_on_exit(v: AppInstanceView) -> bool {
    v.config.exit_restart && v.config.app_type == AppType::Command
}

/// `v` once its process was found gone for the reason `msg`; the reason
/// notes a coming automatic restart.
pub open spec fn exited(v: AppInstanceView, msg: Seq<char>) -> AppInstanceView {
    AppInstanceView {
        running: false,
        pid: None,
        process_info: None,
        started_at: None,
        exit_reason: Some(
            if restarts_on_exit(v) {
                msg + " (自动重启中...)"@
            } else {
                msg
            },
        ),
        ..v
    }
}

/// `v` after `c`.
pub open spec fn changed(v: AppInstanceView, c: Change) -> AppInstanceView {
    match c {
        Change::Spawned { pid, ts } => AppInstanceView {
            pid: Some(pid),
            running: true,
            process_info: None,
            started_at: Some(ts),
            exit_reason: None,
            manual_stop: false,
            ..v
        },
        Change::ServerUp { port, ts } => AppInstanceView {
            running: true,
            server_port: Some(port),
            started_at: Some(ts),
            ..v
        },
        Change::ServerStopped => AppInstanceView {
            running: false,
            pid: None,
            process_info: None,
            started_at: None,
            server_port: None,
            exit_reason: Some("手动停止"@),
            manual_stop: true,
            ..v
        },
        Change::CommandStopped { force } => AppInstanceView {
            running: false,
            pid: None,
            process_info: None,
            started_at: None,
            exit_reason: Some(
                if force {
                    "手动强制关闭"@
                } else {
                    "手动关闭"@
                },
            ),
            manual_stop: true,
            ..v
        },
        Change::Restarting => if !v.running {
            v
        } else if v.config.app_type == AppType::Command {
            AppInstanceView {
                running: false,
                pid: None,
                process_info: None,
                started_at: None,
                exit_reason: Some("重启"@),
                ..v
            }
        } else {
            AppInstanceView {
                running: false,
                pid: None,
                process_info: None,
                started_at: None,
                server_port: None,
                exit_reason: Some("重启"@),
                ..v
            }
        },
        Change::BatchStopped => AppInstanceView {
            running: false,
            pid: None,
            process_info: None,
            started_at: None,
            server_port: None,
            exit_reason: Some("批量关闭"@),
            manual_stop: true,
            ..v
        },
        Change::Sampled(stats) => AppInstanceView { process_info: Some(stats), running: true, ..v },
        Change::Exited { msg } => exited(v, msg@),
        Change::FilesChanged => if v.config.app_type == AppType::StaticServer {
            AppInstanceView {
                running: false,
                pid: None,
                process_info: None,
                started_at: None,
                server_port: None,
                exit_reason: None,
                ..v
            }
        } else {
            AppInstanceView {
                running: false,
                pid: None,
                process_info: None,
                started_at: None,
                exit_reason: Some("文件变更自动重启"@),
                ..v
            }
        },
    }
}

fn apply_change(inst: AppInstance, c: Change) -> (r: AppInstance)
    ensures
        r@ == changed(inst@, c),
        r.config == inst.config,
{
    let mut v = inst;
    match c {
        Change::Spawned { pid, ts } => {
            v.pid = Some(pid);
            v.running = true;
            v.process_info = None;
            v.started_at = Some(ts);
            v.exit_reason = None;
            v.manual_stop = false;
        },
        Change::ServerUp { port, ts } => {
            v.running = true;
            v.server_port = Some(port);
            v.started_at = Some(ts);
        },
        Change::ServerStopped => {
            v.running = false;
            v.pid = None;
            v.process_info = None;
            v.started_at = None;
            v.server_port = None;
            v.exit_reason = Some(String::from_str("手动停止"));
            v.manual_stop = true;
        },
        Change::CommandStopped { force } => {
            v.running = false;
            v.pid = None;
            v.process_info = None;
            v.started_at = None;
            v.exit_reason = Some(
                if force {
                    String::from_str("手动强制关闭")
                } else {
                    String::from_str("手动关闭")
                },
            );
            v.manual_stop = true;
        },
        Change::Restarting => {
            if v.running {
                v.running = false;
                v.pid = None;
                v.process_info = None;
                v.started_at = None;
                if v.config.app_type == AppType::StaticServer {
                    v.server_port = None;
                }
                v.exit_reason = Some(String::from_str("重启"));
            }
        },
        Change::BatchStopped => {
            v.running = false;
            v.pid = None;
            v.process_info = None;
            v.started_at = None;
            v.server_port = None;
            v.exit_reason = Some(String::from_str("批量关闭"));
            v.manual_stop = true;
        },
        Change::Sampled(stats) => {
            v.process_info = Some(stats);
            v.running = true;
        },
        Change::Exited { msg } => {
            let auto = v.config.exit_restart && v.config.app_type == AppType::Command;
            v.running = false;
            v.pid = None;
            v.process_info = None;
            v.started_at = None;
            v.exit_reason = Some(
                if auto {
                    msg.concat(" (自动重启中...)")
                } else {
                    msg
                },
            );
        },
        Change::FilesChanged => {
            v.running = false;
            v.pid = None;
            v.process_info = None;
            v.started_at = None;
            if v.config.app_type == AppType::StaticServer {
                v.server_port = None;
                v.exit_reason = None;
            } else {
                v.exit_reason = Some(String::from_str("文件变更自动重启"));
            }
        },
    }
    v
}

impl AppState {
    /// Applies `c` to the application `id`, if it exists.
    pub fn change_app(&mut self, id: &str, c: Change) -> (found: bool)
        requires
            old(self).wf(),
        ensures
            final(self).wf(),
            found == old(self).apps().dom().contains(id@),
            found ==> final(self).apps() == old(self).apps().insert(id@, changed(old(self).apps()[id@], c)),
            !found ==> final(self).apps() == old(self).apps(),
            final(self).logs() == old(self).logs(),
            final(self).next_sort_order() == old(self).next_sort_order(),
    {
        match self.apps.find(id) {
            None => false,
            Some(i) => {
                let ghost before = self.apps();
                let (key, inst) = self.take_app(i);
                let v = apply_change(inst, c);
                self.restore_app(i, key, v);
                proof {
                    assert(self.apps() =~= before.insert(id@, changed(before[id@], c)));
                }
                true
            },
        }
    }

    /// Appends the line (`level`, `text`) stamped `ts` to the log of `id`.
    pub fn log(&mut self, id: &str, ts: i64, level: &str, text: &str)
        requires
            old(self).wf(),
        ensures
            final(self).wf(),
            final(self).apps() == old(self).apps(),
            final(self).next_sort_order() == old(self).next_sort_order(),
            logs_after(old(self).logs(), final(self).logs(), id@, ts, seq![(level@, text@)]),
    {
        self.push_log_line(id, ts, level, text);
        proof {
            old(self).lemma_log_bound();
            lemma_logs_after_none(old(self).logs(), id@, ts);
            lemma_logs_after_extend(
                old(self).logs(),
                old(self).logs(),
                self.logs(),
                id@,
                ts,
                seq![],
                level@,
                text@,
            );
            assert(Seq::<(Seq<char>, Seq<char>)>::empty().push((level@, text@)) =~= seq![
                (level@, text@),
            ]);
        }
    }
}

// ---------------------------------------------------------------------------
// Starting, stopping and restarting
// ---------------------------------------------------------------------------

/// The log line written when a process starts: the tag, `启动成功，PID: `,
/// the process id, and the wrapper's id when the two differ.
pub open spec fn start_text(tag: Seq<char>, pid: u32, wrapper: u32) -> Seq<char> {
    tag + "启动成功，PID: "@ + decimal(pid as nat) + if pid != wrapper {
        "（包装进程 "@ + decimal(wrapper as nat) + "）"@
    } else {
        seq![]
    }
}

/// Builds the line of `start_text`.
pub fn start_message(tag: &str, pid: u32, wrapper: u32) -> (s: String)
    ensures
        s@ == start_text(tag@, pid, wrapper),
{
    let mut v: Vec<char> = Vec::new();
    push_str_chars(&mut v, tag);
    push_str_chars(&mut v, "启动成功，PID: ");
    push_decimal(&mut v, pid as u64);
    if pid != wrapper {
        push_str_chars(&mut v, "（包装进程 ");
        push_decimal(&mut v, wrapper as u64);
        push_str_chars(&mut v, "）");
    }
    proof {
        if pid == wrapper {
            assert(v@ =~= start_text(tag@, pid, wrapper));
        } else {
            assert(v@ =~= start_text(tag@, pid, wrapper));
        }
    }
    string_from_chars(v.as_slice())
}

/// `prefix` followed by a number.
pub fn numbered(prefix: &str, n: u64) -> (s: String)
    ensures
        s@ == prefix@ + decimal(n as nat),
{
    let mut v: Vec<char> = Vec::new();
    push_str_chars(&mut v, prefix);
    push_decimal(&mut v, n);
    string_from_chars(v.as_slice())
}

/// `a` followed by `b`.
pub fn joined(a: &str, b: &str) -> (s: String)
    ensures
        s@ == a@ + b@,
{
    let s = String::from_str(a);
    s.concat(b)
}

/// What starting an application involves.
pub enum StartPlan {
    /// Run its command as a child process.
    Spawn,
    /// Serve its directory with these settings.
    Serve(crate::models::StaticServerConfig),
}

/// What stopping an application still involves.
pub enum StopPlan {
    /// Nothing: its static server was marked stopped; the caller ends the
    /// server task.
    ServerStopped,
    /// Kill its process; `real_pid` is the process id last recorded.
    KillProcess { real_pid: Option<u32> },
}

impl AppState {
    /// Decides how to start `id`: refused if unknown or running; a command
    /// is spawned; a static server needs its settings.
    pub fn begin_start(&self, id: &str) -> (r: Result<StartPlan, AppError>)
        requires
            self.wf(),
        ensures
            !self.apps().dom().contains(id@) ==> (r matches Err(e) && e == AppError::NotFound),
            self.apps().dom().contains(id@) ==> {
                let v = self.apps()[id@];
                if v.running {
                    (r matches Err(e) && e == AppError::AlreadyRunning)
                } else if v.config.app_type == AppType::Command {
                    (r matches Ok(StartPlan::Spawn))
                } else {
                    match v.config.static_server {
                        Some(sc) => (r matches Ok(StartPlan::Serve(c)) && c@ == sc),
                        None => (r matches Err(e) && e == AppError::MissingStaticConfig),
                    }
                }
            },
    {
        match self.apps.get(id) {
            None => Err(AppError::NotFound),
            Some(inst) => {
                if inst.running {
                    Err(AppError::AlreadyRunning)
                } else if inst.config.app_type == AppType::Command {
                    Ok(StartPlan::Spawn)
                } else {
                    match &inst.config.static_server {
                        Some(sc) => Ok(StartPlan::Serve(sc.copy())),
                        None => Err(AppError::MissingStaticConfig),
                    }
                }
            },
        }
    }

    /// Records that the process of `id` started as `pid` (the spawned
    /// wrapper being `wrapper`) at `ts`, with an info line (see `start_text`).
    pub fn record_spawned(&mut self, id: &str, pid: u32, wrapper: u32, tag: &str, ts: i64)
        requires
            old(self).wf(),
        ensures
            final(self).wf(),
            final(self).next_sort_order() == old(self).next_sort_order(),
            old(self).apps().dom().contains(id@) ==> final(self).apps() == old(self).apps().insert(
                id@,
                changed(old(self).apps()[id@], Change::Spawned { pid, ts }),
            ),
            !old(self).apps().dom().contains(id@) ==> final(self).apps() == old(self).apps(),
            logs_after(
                old(self).logs(),
                final(self).logs(),
                id@,
                ts,
                seq![("info"@, start_text(tag@, pid, wrapper))],
            ),
    {
        self.change_app(id, Change::Spawned { pid, ts });
        let msg = start_message(tag, pid, wrapper);
        self.log(id, ts, "info", msg.as_str());
    }

    /// Records that starting `id` failed with `err`, with an error line
    /// `<tag>启动失败: <err>`.
    pub fn record_spawn_failed(&mut self, id: &str, tag: &str, err: &str, ts: i64)
        requires
            old(self).wf(),
        ensures
            final(self).wf(),
            final(self).apps() == old(self).apps(),
            final(self).next_sort_order() == old(self).next_sort_order(),
            logs_after(
                old(self).logs(),
                final(self).logs(),
                id@,
                ts,
                seq![("error"@, tag@ + "启动失败: "@ + err@)],
            ),
    {
        let a = joined(tag, "启动失败: ");
        let msg = joined(a.as_str(), err);
        self.log(id, ts, "error", msg.as_str());
    }

    /// Records that the static server of `id` listens on `port` since `ts`,
    /// with an info line `<what><port>`.
    pub fn record_server_started(&mut self, id: &str, port: u16, ts: i64, what: &str)
        requires
            old(self).wf(),
        ensures
            final(self).wf(),
            final(self).next_sort_order() == old(self).next_sort_order(),
            old(self).apps().dom().contains(id@) ==> final(self).apps() == old(self).apps().insert(
                id@,
                changed(old(self).apps()[id@], Change::ServerUp { port, ts }),
            ),
            !old(self).apps().dom().contains(id@) ==> final(self).apps() == old(self).apps(),
            old(self).apps().dom().contains(id@) ==> logs_after(
                old(self).logs(),
                final(self).logs(),
                id@,
                ts,
                seq![("info"@, what@ + decimal(port as nat))],
            ),
            !old(self).apps().dom().contains(id@) ==> final(self).logs() == old(self).logs(),
    {
        if self.change_app(id, Change::ServerUp { port, ts }) {
            let msg = numbered(what, port as u64);
            self.log(id, ts, "info", msg.as_str());
        }
    }

    /// Decides how to stop `id` (refused if unknown or not running).  A
    /// static server is marked stopped at once, with the lines
    /// `正在停止静态服务器...` and `静态服务器已停止`; for a command the line
    /// `强制终止进程` (or `终止进程`) is written and the process is left to
    /// the caller.
    pub fn begin_stop(&mut self, id: &str, force: bool, ts: i64) -> (r: Result<StopPlan, AppError>)
        requires
            old(self).wf(),
        ensures
            final(self).wf(),
            final(self).next_sort_order() == old(self).next_sort_order(),
            !old(self).apps().dom().contains(id@) ==> (r matches Err(e) && e == AppError::NotFound)
                && final(self).apps() == old(self).apps() && final(self).logs() == old(self).logs(),
            old(self).apps().dom().contains(id@) && !old(self).apps()[id@].running ==> (r matches Err(
                e,
            ) && e == AppError::NotRunning) && final(self).apps() == old(self).apps() && final(
                self).logs() == old(self).logs(),
            old(self).apps().dom().contains(id@) && old(self).apps()[id@].running
                && old(self).apps()[id@].config.app_type == AppType::StaticServer ==> (r matches Ok(
                StopPlan::ServerStopped,
            )) && final(self).apps() == old(self).apps().insert(
                id@,
                changed(old(self).apps()[id@], Change::ServerStopped),
            ) && logs_after(
                old(self).logs(),
                final(self).logs(),
                id@,
                ts,
                seq![("info"@, "正在停止静态服务器..."@), ("info"@, "静态服务器已停止"@)],
            ),
            old(self).apps().dom().contains(id@) && old(self).apps()[id@].running
                && old(self).apps()[id@].config.app_type == AppType::Command ==> (r matches Ok(
                StopPlan::KillProcess { real_pid },
            ) && real_pid == old(self).apps()[id@].pid) && final(self).apps() == old(self).apps()
                && logs_after(
                old(self).logs(),
                final(self).logs(),
                id@,
                ts,
                seq![
                    ("info"@, if force {
                        "强制终止进程"@
                    } else {
                        "终止进程"@
                    }),
                ],
            ),
    {
        let (running, app_type, pid) = match self.apps.get(id) {
            None => {
                return Err(AppError::NotFound);
            },
            Some(inst) => (inst.running, inst.config.app_type, inst.pid),
        };
        if !running {
            return Err(AppError::NotRunning);
        }
        match app_type {
            AppType::StaticServer => {
                let ghost l0 = self.logs();
                self.log(id, ts, "info", "正在停止静态服务器...");
                let ghost l1 = self.logs();
                self.change_app(id, Change::ServerStopped);
                self.log(id, ts, "info", "静态服务器已停止");
                proof {
                    lemma_logs_after_extend(
                        l0,
                        l1,
                        self.logs(),
                        id@,
                        ts,
                        seq![("info"@, "正在停止静态服务器..."@)],
                        "info"@,
                        "静态服务器已停止"@,
                    );
                    assert(seq![("info"@, "正在停止静态服务器..."@)].push(("info"@, "静态服务器已停止"@))
                        =~= seq![("info"@, "正在停止静态服务器..."@), ("info"@, "静态服务器已停止"@)]);
                }
                Ok(StopPlan::ServerStopped)
            },
            AppType::Command => {
                self.log(id, ts, "info", if force {
                    "强制终止进程"
                } else {
                    "终止进程"
                });
                Ok(StopPlan::KillProcess { real_pid: pid })
            },
        }
    }

    /// Finishes stopping the command `id` once its process was dealt with:
    /// if it was killed (or `force`), it is marked stopped with the line
    /// `已强制关闭` (or `已关闭`); otherwise the error line `关闭失败` is
    /// written.  Returns whether the stop succeeded.
    pub fn finish_stop(&mut self, id: &str, killed: bool, force: bool, ts: i64) -> (ok: bool)
        requires
            old(self).wf(),
        ensures
            final(self).wf(),
            final(self).next_sort_order() == old(self).next_sort_order(),
            ok == (killed || force),
            !old(self).apps().dom().contains(id@) ==> final(self).apps() == old(self).apps()
                && final(self).logs() == old(self).logs(),
            old(self).apps().dom().contains(id@) && ok ==> final(self).apps() == old(self).apps().insert(
                id@,
                changed(old(self).apps()[id@], Change::CommandStopped { force }),
            ) && logs_after(
                old(self).logs(),
                final(self).logs(),
                id@,
                ts,
                seq![
                    ("info"@, if force {
                        "已强制关闭"@
                    } else {
                        "已关闭"@
                    }),
                ],
            ),
            old(self).apps().dom().contains(id@) && !ok ==> final(self).apps() == old(self).apps()
                && logs_after(old(self).logs(), final(self).logs(), id@, ts, seq![("error"@, "关闭失败"@)]),
    {
        let ok = killed || force;
        if self.apps.find(id).is_none() {
            return ok;
        }
        if ok {
            self.change_app(id, Change::CommandStopped { force });
            self.log(id, ts, "info", if force {
                "已强制关闭"
            } else {
                "已关闭"
            });
        } else {
            self.log(id, ts, "error", "关闭失败");
        }
        ok
    }

    /// Prepares the restart of `id` (refused if unknown): a running
    /// application is marked stopped for the restart, with the line
    /// `重启：关闭旧进程` (command) or `重启：停止静态服务器` (static server).
    /// Returns its type.
    pub fn begin_restart(&mut self, id: &str, ts: i64) -> (r: Result<AppType, AppError>)
        requires
            old(self).wf(),
        ensures
            final(self).wf(),
            final(self).next_sort_order() == old(self).next_sort_order(),
            !old(self).apps().dom().contains(id@) ==> (r matches Err(e) && e == AppError::NotFound)
                && final(self).apps() == old(self).apps() && final(self).logs() == old(self).logs(),
            old(self).apps().dom().contains(id@) ==> {
                let v = old(self).apps()[id@];
                &&& r == Ok::<AppType, AppError>(v.config.app_type)
                &&& final(self).apps() == old(self).apps().insert(id@, changed(v, Change::Restarting))
                &&& v.running ==> logs_after(
                    old(self).logs(),
                    final(self).logs(),
                    id@,
                    ts,
                    seq![
                        ("info"@, if v.config.app_type == AppType::Command {
                            "重启：关闭旧进程"@
                        } else {
                            "重启：停止静态服务器"@
                        }),
                    ],
                )
                &&& !v.running ==> final(self).logs() == old(self).logs()
            },
    {
        let (running, app_type) = match self.apps.get(id) {
            None => {
                return Err(AppError::NotFound);
            },
            Some(inst) => (inst.running, inst.config.app_type),
        };
        if running {
            self.log(id, ts, "info", if app_type == AppType::Command {
                "重启：关闭旧进程"
            } else {
                "重启：停止静态服务器"
            });
        }
        self.change_app(id, Change::Restarting);
        Ok(app_type)
    }
}

} // verus!
