//! The records the manager keeps about each application.
use vstd::prelude::*;
use crate::keyed::keys_distinct;

verus! {

/// How an application is run.
#[derive(Clone, Copy, Debug, PartialEq, Eq, Structural)]
pub enum AppType {
    /// A shell command started as a child process.
    Command,
    /// A built-in static file server.
    StaticServer,
}

impl Default for AppType {
    fn default() -> (t: Self)
        ensures
            t == AppType::Command,
    {
        AppType::Command
    }
}

/// A path prefix whose requests are forwarded to another server.
#[derive(Clone, Debug)]
pub struct ProxyRule {
    pub path: String,
    pub target: String,
    pub rewrite: bool,
}

/// Settings of a static file server.
#[derive(Clone, Debug)]
pub struct StaticServerConfig {
    pub port: u16,
    pub root_dir: String,
    pub spa_mode: bool,
    pub index_file: String,
    pub proxy_rules: Vec<ProxyRule>,
}

/// The persistent description of an application.
///
/// The environment variables are kept as a list of name/value pairs.
#[derive(Clone, Debug)]
pub struct AppConfig {
    pub id: String,
    pub name: String,
    pub app_type: AppType,
    pub command: String,
    pub work_dir: Option<String>,
    pub description: Option<String>,
    pub color: Option<String>,
    pub auto_start: bool,
    pub group: Option<String>,
    /// Environment variables as (name, value) pairs; no name occurs twice
    /// (see `env_names_distinct`).
    pub env_vars: Option<Vec<(String, String)>>,
    pub sort_order: i32,
    pub delay_seconds: u32,
    pub static_server: Option<StaticServerConfig>,
    pub url: Option<String>,
    pub watch_restart: bool,
    pub watch_dirs: Option<Vec<String>>,
    pub exit_restart: bool,
}

/// A resource sample of a running process.  CPU usage is kept in hundredths
/// of a percent (the value shown is rounded to two decimals).
#[derive(Clone, Copy, Debug)]
pub struct ProcessStats {
    pub pid: u32,
    pub cpu_hundredths: u64,
    pub memory_bytes: u64,
    /// Whether the process used any CPU since the last sample.
    pub busy: bool,
}

/// One line of an application's log.
#[derive(Clone, Debug)]
pub struct LogEntry {
    pub timestamp: i64,
    pub level: String,
    pub content: String,
}

/// An application together with its run-time state.
#[derive(Clone, Debug)]
pub struct AppInstance {
    pub config: AppConfig,
    pub pid: Option<u32>,
    pub running: bool,
    pub process_info: Option<ProcessStats>,
    pub started_at: Option<i64>,
    pub logs: Option<Vec<LogEntry>>,
    pub server_port: Option<u16>,
    pub exit_reason: Option<String>,
    pub manual_stop: bool,
}

/// What a user submits to create an application.
#[derive(Clone, Debug)]
pub struct AddAppParams {
    pub name: String,
    pub app_type: Option<AppType>,
    pub command: String,
    pub work_dir: Option<String>,
    pub description: Option<String>,
    pub color: Option<String>,
    pub auto_start: Option<bool>,
    pub group: Option<String>,
    /// Environment variables as (name, value) pairs; no name occurs twice
    /// (see `env_names_distinct`).
    pub env_vars: Option<Vec<(String, String)>>,
    pub delay_seconds: Option<u32>,
    pub static_server: Option<StaticServerConfig>,
    pub url: Option<String>,
    pub watch_restart: Option<bool>,
    pub watch_dirs: Option<Vec<String>>,
    pub exit_restart: Option<bool>,
}

/// What a user submits to edit an application.
#[derive(Clone, Debug)]
pub struct UpdateAppParams {
    pub id: String,
    pub name: String,
    pub app_type: Option<AppType>,
    pub command: String,
    pub work_dir: Option<String>,
    pub description: Option<String>,
    pub color: Option<String>,
    pub auto_start: Option<bool>,
    pub group: Option<String>,
    /// Environment variables as (name, value) pairs; no name occurs twice
    /// (see `env_names_distinct`).
    pub env_vars: Option<Vec<(String, String)>>,
    pub delay_seconds: Option<u32>,
    pub static_server: Option<StaticServerConfig>,
    pub url: Option<String>,
    pub watch_restart: Option<bool>,
    pub watch_dirs: Option<Vec<String>>,
    pub exit_restart: Option<bool>,
}

/// New positions of applications in the list.
#[derive(Clone, Debug)]
pub struct UpdateSortOrderParams {
    pub orders: Vec<(String, i32)>,
}

/// The reply of every command: `code` 0 with data on success, -1 with a
/// message on failure.
#[derive(Clone, Debug)]
pub struct CommandResult<T> {
    pub code: i32,
    pub data: Option<T>,
    pub msg: String,
}

impl<T> CommandResult<T> {
    /// A successful reply carrying `data`.
    pub fn success(data: T) -> (r: Self)
        ensures
            r.code == 0,
            r.data == Some(data),
            r.msg@ == "success"@,
    {
        CommandResult { code: 0, data: Some(data), msg: String::from_str("success") }
    }

    /// A failed reply with message `msg`.
    pub fn error(msg: String) -> (r: Self)
        ensures
            r.code == -1,
            r.data is None,
            r.msg == msg,
    {
        CommandResult { code: -1, data: None, msg }
    }
}


// ---------------------------------------------------------------------------
// Views: the same records with lists seen as sequences
// ---------------------------------------------------------------------------

/// `StaticServerConfig` with its rules as a sequence.
pub struct StaticServerView {
    pub port: u16,
    pub root_dir: String,
    pub spa_mode: bool,
    pub index_file: String,
    pub proxy_rules: Seq<ProxyRule>,
}

impl View for StaticServerConfig {
    type V = StaticServerView;

    open spec fn view(&self) -> StaticServerView {
        StaticServerView {
            port: self.port,
            root_dir: self.root_dir,
            spa_mode: self.spa_mode,
            index_file: self.index_file,
            proxy_rules: self.proxy_rules@,
        }
    }
}

pub open spec fn opt_server_view(s: Option<StaticServerConfig>) -> Option<StaticServerView> {
    match s {
        Some(c) => Some(c@),
        None => None,
    }
}

pub open spec fn opt_seq_view<T>(v: Option<Vec<T>>) -> Option<Seq<T>> {
    match v {
        Some(x) => Some(x@),
        None => None,
    }
}

/// No environment variable is named twice (the variables form a map from
/// name to value).
pub open spec fn env_names_distinct(env: Option<Seq<(String, String)>>) -> bool {
    match env {
        Some(s) => keys_distinct(s),
        None => true,
    }
}

/// `AppConfig` with its lists as sequences.
pub struct AppConfigView {
    pub id: String,
    pub name: String,
    pub app_type: AppType,
    pub command: String,
    pub work_dir: Option<String>,
    pub description: Option<String>,
    pub color: Option<String>,
    pub auto_start: bool,
    pub group: Option<String>,
    pub env_vars: Option<Seq<(String, String)>>,
    pub sort_order: i32,
    pub delay_seconds: u32,
    pub static_server: Option<StaticServerView>,
    pub url: Option<String>,
    pub watch_restart: bool,
    pub watch_dirs: Option<Seq<String>>,
    pub exit_restart: bool,
}

impl View for AppConfig {
    type V = AppConfigView;

    open spec fn view(&self) -> AppConfigView {
        AppConfigView {
            id: self.id,
            name: self.name,
            app_type: self.app_type,
            command: self.command,
            work_dir: self.work_dir,
            description: self.description,
            color: self.color,
            auto_start: self.auto_start,
            group: self.group,
            env_vars: opt_seq_view(self.env_vars),
            sort_order: self.sort_order,
            delay_seconds: self.delay_seconds,
            static_server: opt_server_view(self.static_server),
            url: self.url,
            watch_restart: self.watch_restart,
            watch_dirs: opt_seq_view(self.watch_dirs),
            exit_restart: self.exit_restart,
        }
    }
}

/// `AppInstance` with its lists as sequences.
pub struct AppInstanceView {
    pub config: AppConfigView,
    pub pid: Option<u32>,
    pub running: bool,
    pub process_info: Option<ProcessStats>,
    pub started_at: Option<i64>,
    pub logs: Option<Seq<LogEntry>>,
    pub server_port: Option<u16>,
    pub exit_reason: Option<Seq<char>>,
    pub manual_stop: bool,
}

pub open spec fn opt_str_view(s: Option<String>) -> Option<Seq<char>> {
    match s {
        Some(x) => Some(x@),
        None => None,
    }
}

impl View for AppInstance {
    type V = AppInstanceView;

    open spec fn view(&self) -> AppInstanceView {
        AppInstanceView {
            config: self.config@,
            pid: self.pid,
            running: self.running,
            process_info: self.process_info,
            started_at: self.started_at,
            logs: opt_seq_view(self.logs),
            server_port: self.server_port,
            exit_reason: opt_str_view(self.exit_reason),
            manual_stop: self.manual_stop,
        }
    }
}

// ---------------------------------------------------------------------------
// Copies
// ---------------------------------------------------------------------------

/// A copy of an optional string.
pub fn copy_opt_string(s: &Option<String>) -> (r: Option<String>)
    ensures
        r == *s,
{
    match s {
        Some(x) => Some(x.clone()),
        None => None,
    }
}

/// A copy of a list of strings.
pub fn copy_strings(v: &Vec<String>) -> (r: Vec<String>)
    ensures
        r@ == v@,
{
    let mut r: Vec<String> = Vec::new();
    let mut i: usize = 0;
    while i < v.len()
        invariant
            i <= v@.len(),
            r@ == v@.take(i as int),
        decreases v@.len() - i,
    {
        r.push(v[i].clone());
        i += 1;
        assert(r@ =~= v@.take(i as int));
    }
    assert(v@.take(v@.len() as int) =~= v@);
    r
}

/// A copy of a list of name/value pairs.
pub fn copy_pairs(v: &Vec<(String, String)>) -> (r: Vec<(String, String)>)
    ensures
        r@ == v@,
{
    let mut r: Vec<(String, String)> = Vec::new();
    let mut i: usize = 0;
    while i < v.len()
        invariant
            i <= v@.len(),
            r@ == v@.take(i as int),
        decreases v@.len() - i,
    {
        let (a, b) = &v[i];
        r.push((a.clone(), b.clone()));
        i += 1;
        assert(r@ =~= v@.take(i as int));
    }
    assert(v@.take(v@.len() as int) =~= v@);
    r
}

impl ProxyRule {
    /// A copy of this rule.
    pub fn copy(&self) -> (r: Self)
        ensures
            r == *self,
    {
        ProxyRule { path: self.path.clone(), target: self.target.clone(), rewrite: self.rewrite }
    }
}

impl StaticServerConfig {
    /// A copy of this configuration.
    pub fn copy(&self) -> (r: Self)
        ensures
            r@ == self@,
    {
        let mut rules: Vec<ProxyRule> = Vec::new();
        let mut i: usize = 0;
        while i < self.proxy_rules.len()
            invariant
                i <= self.proxy_rules@.len(),
                rules@ == self.proxy_rules@.take(i as int),
            decreases self.proxy_rules@.len() - i,
        {
            rules.push(self.proxy_rules[i].copy());
            i += 1;
            assert(rules@ =~= self.proxy_rules@.take(i as int));
        }
        assert(self.proxy_rules@.take(self.proxy_rules@.len() as int) =~= self.proxy_rules@);
        StaticServerConfig {
            port: self.port,
            root_dir: self.root_dir.clone(),
            spa_mode: self.spa_mode,
            index_file: self.index_file.clone(),
            proxy_rules: rules,
        }
    }
}

/// A copy of an optional static server configuration.
pub fn copy_opt_server(s: &Option<StaticServerConfig>) -> (r: Option<StaticServerConfig>)
    ensures
        opt_server_view(r) == opt_server_view(*s),
{
    match s {
        Some(x) => Some(x.copy()),
        None => None,
    }
}

impl AppConfig {
    /// A copy of this configuration.
    pub fn copy(&self) -> (r: Self)
        ensures
            r@ == self@,
    {
        AppConfig {
            id: self.id.clone(),
            name: self.name.clone(),
            app_type: self.app_type,
            command: self.command.clone(),
            work_dir: copy_opt_string(&self.work_dir),
            description: copy_opt_string(&self.description),
            color: copy_opt_string(&self.color),
            auto_start: self.auto_start,
            group: copy_opt_string(&self.group),
            env_vars: match &self.env_vars {
                Some(v) => Some(copy_pairs(v)),
                None => None,
            },
            sort_order: self.sort_order,
            delay_seconds: self.delay_seconds,
            static_server: copy_opt_server(&self.static_server),
            url: copy_opt_string(&self.url),
            watch_restart: self.watch_restart,
            watch_dirs: match &self.watch_dirs {
                Some(v) => Some(copy_strings(v)),
                None => None,
            },
            exit_restart: self.exit_restart,
        }
    }
}

impl LogEntry {
    /// A copy of this line.
    pub fn copy(&self) -> (r: Self)
        ensures
            r == *self,
    {
        LogEntry { timestamp: self.timestamp, level: self.level.clone(), content: self.content.clone() }
    }
}

/// A copy of a list of log lines.
pub fn copy_logs(v: &Vec<LogEntry>) -> (r: Vec<LogEntry>)
    ensures
        r@ == v@,
{
    let mut r: Vec<LogEntry> = Vec::new();
    let mut i: usize = 0;
    while i < v.len()
        invariant
            i <= v@.len(),
            r@ == v@.take(i as int),
        decreases v@.len() - i,
    {
        r.push(v[i].copy());
        i += 1;
        assert(r@ =~= v@.take(i as int));
    }
    assert(v@.take(v@.len() as int) =~= v@);
    r
}

impl AppInstance {
    /// A copy of this instance.
    pub fn copy(&self) -> (r: Self)
        ensures
            r@ == self@,
    {
        AppInstance {
            config: self.config.copy(),
            pid: self.pid,
            running: self.running,
            process_info: self.process_info,
            started_at: self.started_at,
            logs: match &self.logs {
                Some(v) => Some(copy_logs(v)),
                None => None,
            },
            server_port: self.server_port,
            exit_reason: copy_opt_string(&self.exit_reason),
            manual_stop: self.manual_stop,
        }
    }
}

// ---------------------------------------------------------------------------
// Creating and editing configurations
// ---------------------------------------------------------------------------

/// Whether `s` is a hyphenated lower-case UUID of version 4
/// (`xxxxxxxx-xxxx-4xxx-[89ab]xxx-xxxxxxxxxxxx`).
pub open spec fn is_v4_uuid_text(s: Seq<char>) -> bool {
    &&& s.len() == 36
    &&& forall|i: int|
        0 <= i < 36 ==> (if i == 8 || i == 13 || i == 18 || i == 23 {
            #[trigger] s[i] == '-'
        } else {
            ('0' <= s[i] <= '9') || ('a' <= s[i] <= 'f')
        })
    &&& s[14] == '4'
    &&& (s[19] == '8' || s[19] == '9' || s[19] == 'a' || s[19] == 'b')
}

/// `Uuid::new_v4().to_string()`: a random version-4 UUID in its hyphenated
/// lower-case form.  Which UUID comes out is left open.
#[verifier::external_body]
pub(crate) fn new_app_id() -> (s: String)
    ensures
        is_v4_uuid_text(s@),
{
    uuid::Uuid::new_v4().to_string()
}

/// The configuration made from `params`, with id `id` and position `sort_order`.
pub open spec fn config_from_params(params: AddAppParams, sort_order: i32, id: String) -> AppConfig {
    AppConfig {
        id,
        name: params.name,
        app_type: match params.app_type {
            Some(t) => t,
            None => AppType::Command,
        },
        command: params.command,
        work_dir: params.work_dir,
        description: params.description,
        color: params.color,
        auto_start: match params.auto_start {
            Some(b) => b,
            None => false,
        },
        group: params.group,
        env_vars: params.env_vars,
        sort_order,
        delay_seconds: match params.delay_seconds {
            Some(d) => d,
            None => 0,
        },
        static_server: params.static_server,
        url: params.url,
        watch_restart: match params.watch_restart {
            Some(b) => b,
            None => false,
        },
        watch_dirs: params.watch_dirs,
        exit_restart: match params.exit_restart {
            Some(b) => b,
            None => false,
        },
    }
}

/// A configuration from `params` with the given id (see `config_from_params`).
pub fn create_app_config_with_id(params: AddAppParams, sort_order: i32, id: String) -> (c: AppConfig)
    ensures
        c == config_from_params(params, sort_order, id),
{
    AppConfig {
        id,
        name: params.name,
        app_type: match params.app_type {
            Some(t) => t,
            None => AppType::Command,
        },
        command: params.command,
        work_dir: params.work_dir,
        description: params.description,
        color: params.color,
        auto_start: match params.auto_start {
            Some(b) => b,
            None => false,
        },
        group: params.group,
        env_vars: params.env_vars,
        sort_order,
        delay_seconds: match params.delay_seconds {
            Some(d) => d,
            None => 0,
        },
        static_server: params.static_server,
        url: params.url,
        watch_restart: match params.watch_restart {
            Some(b) => b,
            None => false,
        },
        watch_dirs: params.watch_dirs,
        exit_restart: match params.exit_restart {
            Some(b) => b,
            None => false,
        },
    }
}

/// A configuration from `params` with a fresh random id.
pub fn create_app_config(params: AddAppParams, sort_order: i32) -> (c: AppConfig)
    ensures
        is_v4_uuid_text(c.id@),
        c == config_from_params(params, sort_order, c.id),
{
    let id = new_app_id();
    create_app_config_with_id(params, sort_order, id)
}

/// `config` edited with `params`: every editable field takes the submitted
/// value (flags and the delay default to off and 0); the id and the
/// position are kept, and the type only changes when one is submitted.
pub open spec fn updated_config(config: AppConfig, params: UpdateAppParams) -> AppConfig {
    AppConfig {
        id: config.id,
        name: params.name,
        app_type: match params.app_type {
            Some(t) => t,
            None => config.app_type,
        },
        command: params.command,
        work_dir: params.work_dir,
        description: params.description,
        color: params.color,
        auto_start: match params.auto_start {
            Some(b) => b,
            None => false,
        },
        group: params.group,
        env_vars: params.env_vars,
        sort_order: config.sort_order,
        delay_seconds: match params.delay_seconds {
            Some(d) => d,
            None => 0,
        },
        static_server: params.static_server,
        url: params.url,
        watch_restart: match params.watch_restart {
            Some(b) => b,
            None => false,
        },
        watch_dirs: params.watch_dirs,
        exit_restart: match params.exit_restart {
            Some(b) => b,
            None => false,
        },
    }
}

/// Applies `params` to `config` (see `updated_config`).
pub fn apply_update(config: AppConfig, params: UpdateAppParams) -> (c: AppConfig)
    ensures
        c == updated_config(config, params),
{
    AppConfig {
        id: config.id,
        name: params.name,
        app_type: match params.app_type {
            Some(t) => t,
            None => config.app_type,
        },
        command: params.command,
        work_dir: params.work_dir,
        description: params.description,
        color: params.color,
        auto_start: match params.auto_start {
            Some(b) => b,
            None => false,
        },
        group: params.group,
        env_vars: params.env_vars,
        sort_order: config.sort_order,
        delay_seconds: match params.delay_seconds {
            Some(d) => d,
            None => 0,
        },
        static_server: params.static_server,
        url: params.url,
        watch_restart: match params.watch_restart {
            Some(b) => b,
            None => false,
        },
        watch_dirs: params.watch_dirs,
        exit_restart: match params.exit_restart {
            Some(b) => b,
            None => false,
        },
    }
}

/// A stopped instance of `config` with no run-time data.
pub open spec fn fresh_instance(config: AppConfig) -> AppInstance {
    AppInstance {
        config,
        pid: None,
        running: false,
        process_info: None,
        started_at: None,
        logs: None,
        server_port: None,
        exit_reason: None,
        manual_stop: false,
    }
}

/// `status` shown for a sampled process.
pub open spec fn status_text(busy: bool) -> Seq<char> {
    if busy {
        "running"@
    } else {
        "sleeping"@
    }
}

impl ProcessStats {
    /// `"running"` when the process used CPU, `"sleeping"` otherwise.
    pub fn status(&self) -> (s: String)
        ensures
            s@ == status_text(self.busy),
    {
        if self.busy {
            String::from_str("running")
        } else {
            String::from_str("sleeping")
        }
    }
}

} // verus!
