use app_m::models::{AddAppParams, AppInstance, AppType, ProxyRule, StaticServerConfig, UpdateAppParams};
use app_m::registry::{AppError, AppState, Change, Snapshot, StartPlan, StopPlan};

fn command_params(name: &str, command: &str) -> AddAppParams {
    AddAppParams {
        name: name.to_string(),
        app_type: None,
        command: command.to_string(),
        work_dir: None,
        description: None,
        color: None,
        auto_start: None,
        group: None,
        env_vars: None,
        delay_seconds: None,
        static_server: None,
        url: None,
        watch_restart: None,
        watch_dirs: None,
        exit_restart: None,
    }
}

fn server_config(root: &str) -> StaticServerConfig {
    StaticServerConfig {
        port: 8080,
        root_dir: root.to_string(),
        spa_mode: true,
        index_file: "index.html".to_string(),
        proxy_rules: vec![ProxyRule { path: "/api".to_string(), target: "http://localhost:3000".to_string(), rewrite: true }],
    }
}

fn update_params(id: &str, name: &str) -> UpdateAppParams {
    UpdateAppParams {
        id: id.to_string(),
        name: name.to_string(),
        app_type: None,
        command: "npm start".to_string(),
        work_dir: Some("/srv".to_string()),
        description: None,
        color: None,
        auto_start: Some(true),
        group: Some("web".to_string()),
        env_vars: None,
        delay_seconds: Some(3),
        static_server: None,
        url: None,
        watch_restart: None,
        watch_dirs: None,
        exit_restart: Some(true),
    }
}

fn is_uuid_v4(s: &str) -> bool {
    let b: Vec<char> = s.chars().collect();
    if b.len() != 36 {
        return false;
    }
    for (i, c) in b.iter().enumerate() {
        if i == 8 || i == 13 || i == 18 || i == 23 {
            if *c != '-' {
                return false;
            }
        } else if !c.is_ascii_hexdigit() || c.is_ascii_uppercase() {
            return false;
        }
    }
    b[14] == '4' && matches!(b[19], '8' | '9' | 'a' | 'b')
}

#[test]
fn add_app_gives_fresh_stopped_app_with_uuid() {
    let mut s = AppState::new();
    let c = s.add_app(command_params("web", "npm run dev")).unwrap();
    assert!(is_uuid_v4(&c.id));
    assert_eq!(c.name, "web");
    assert_eq!(c.app_type, AppType::Command);
    assert_eq!(c.sort_order, 0);
    assert_eq!(c.delay_seconds, 0);
    assert!(!c.auto_start);
    let inst = s.get_app(&c.id).unwrap();
    assert!(!inst.running);
    assert!(inst.pid.is_none());
    assert!(inst.exit_reason.is_none());
    assert!(!inst.manual_stop);
    assert_eq!(s.get_app_logs(&c.id).len(), 0);
}

#[test]
fn add_app_ids_differ() {
    let mut s = AppState::new();
    let a = s.add_app(command_params("a", "x")).unwrap();
    let b = s.add_app(command_params("b", "y")).unwrap();
    assert_ne!(a.id, b.id);
    assert_eq!(a.sort_order, 0);
    assert_eq!(b.sort_order, 1);
    assert_eq!(s.peek_sort_order(), 2);
}

#[test]
fn add_app_refusals() {
    let mut s = AppState::new();
    assert_eq!(s.add_app(command_params("", "x")).unwrap_err(), AppError::NameRequired);
    assert_eq!(s.add_app(command_params("a", "")).unwrap_err(), AppError::CommandRequired);
    let mut p = command_params("srv", "");
    p.app_type = Some(AppType::StaticServer);
    assert_eq!(s.add_app(p).unwrap_err(), AppError::StaticConfigRequired);
    let mut p = command_params("srv", "");
    p.app_type = Some(AppType::StaticServer);
    p.static_server = Some(server_config(""));
    assert_eq!(s.add_app(p).unwrap_err(), AppError::RootDirRequired);
    assert_eq!(s.list_apps().len(), 0);
    assert_eq!(s.peek_sort_order(), 0);
}

#[test]
fn error_messages() {
    assert_eq!(AppError::NotFound.message(), "应用不存在");
    assert_eq!(AppError::RunningCannotEdit.message(), "应用正在运行，请先关闭后再编辑");
    assert_eq!(AppError::RunningCannotDelete.message(), "应用正在运行，请先关闭后再删除");
    assert_eq!(AppError::AlreadyRunning.message(), "应用已经在运行中");
    assert_eq!(AppError::NotRunning.message(), "应用未在运行中");
    assert_eq!(AppError::NameRequired.message(), "名称不能为空");
    assert_eq!(AppError::CommandRequired.message(), "命令不能为空");
    assert_eq!(AppError::StaticConfigRequired.message(), "静态服务器配置不能为空");
    assert_eq!(AppError::RootDirRequired.message(), "静态文件目录不能为空");
    assert_eq!(AppError::MissingStaticConfig.message(), "缺少静态服务器配置");
}

#[test]
fn static_server_app_is_accepted() {
    let mut s = AppState::new();
    let mut p = command_params("site", "");
    p.app_type = Some(AppType::StaticServer);
    p.static_server = Some(server_config("/var/www"));
    let c = s.add_app(p).unwrap();
    assert_eq!(c.app_type, AppType::StaticServer);
    match s.begin_start(&c.id) {
        Ok(StartPlan::Serve(sc)) => {
            assert_eq!(sc.port, 8080);
            assert_eq!(sc.root_dir, "/var/www");
            assert_eq!(sc.proxy_rules.len(), 1);
        }
        _ => panic!("expected a server plan"),
    }
}

#[test]
fn update_app_edits_and_keeps_position() {
    let mut s = AppState::new();
    let _ = s.add_app(command_params("first", "a")).unwrap();
    let c = s.add_app(command_params("second", "b")).unwrap();
    let e = s.update_app(update_params(&c.id, "renamed")).unwrap();
    assert_eq!(e.id, c.id);
    assert_eq!(e.name, "renamed");
    assert_eq!(e.command, "npm start");
    assert_eq!(e.sort_order, 1);
    assert_eq!(e.delay_seconds, 3);
    assert!(e.auto_start);
    assert!(e.exit_restart);
    assert!(!e.watch_restart);
    assert_eq!(e.group.as_deref(), Some("web"));
    assert_eq!(s.get_app(&c.id).unwrap().config.name, "renamed");
}

#[test]
fn update_app_refusals() {
    let mut s = AppState::new();
    assert_eq!(s.update_app(update_params("missing", "x")).unwrap_err(), AppError::NotFound);
    let c = s.add_app(command_params("a", "x")).unwrap();
    s.record_spawned(&c.id, 42, 42, "", 100);
    assert_eq!(s.update_app(update_params(&c.id, "x")).unwrap_err(), AppError::RunningCannotEdit);
    assert_eq!(s.get_app(&c.id).unwrap().config.name, "a");
}

#[test]
fn delete_app_cases() {
    let mut s = AppState::new();
    assert_eq!(s.delete_app("missing"), Err(AppError::NotFound));
    let c = s.add_app(command_params("a", "x")).unwrap();
    s.record_spawned(&c.id, 7, 7, "", 1);
    assert_eq!(s.delete_app(&c.id), Err(AppError::RunningCannotDelete));
    let d = s.add_app(command_params("b", "y")).unwrap();
    assert_eq!(s.delete_app(&d.id), Ok(()));
    assert!(s.get_app(&d.id).is_none());
    assert_eq!(s.get_app_logs(&d.id).len(), 0);
    assert_eq!(s.list_apps().len(), 1);
}

#[test]
fn delete_after_add_restores_list() {
    let mut s = AppState::new();
    let a = s.add_app(command_params("a", "x")).unwrap();
    let before: Vec<String> = s.list_apps().iter().map(|i| i.config.id.clone()).collect();
    let b = s.add_app(command_params("b", "y")).unwrap();
    assert_eq!(s.delete_app(&b.id), Ok(()));
    let after: Vec<String> = s.list_apps().iter().map(|i| i.config.id.clone()).collect();
    assert_eq!(before, after);
    assert_eq!(after, vec![a.id]);
}

#[test]
fn list_apps_sorted_by_position() {
    let mut s = AppState::new();
    let a = s.add_app(command_params("a", "x")).unwrap();
    let b = s.add_app(command_params("b", "y")).unwrap();
    let c = s.add_app(command_params("c", "z")).unwrap();
    s.update_sort_order(&vec![(a.id.clone(), 5), (c.id.clone(), -1), ("unknown".to_string(), 0)]);
    let names: Vec<String> = s.list_apps().iter().map(|i| i.config.name.clone()).collect();
    assert_eq!(names, vec!["c".to_string(), "b".to_string(), "a".to_string()]);
    assert_eq!(s.get_app(&b.id).unwrap().config.sort_order, 1);
}

#[test]
fn groups_sorted_without_repeats() {
    let mut s = AppState::new();
    for (n, g) in [("a", Some("web")), ("b", None), ("c", Some("db")), ("d", Some("web"))] {
        let mut p = command_params(n, "x");
        p.group = g.map(|x| x.to_string());
        s.add_app(p).unwrap();
    }
    assert_eq!(s.get_groups(), vec!["db".to_string(), "web".to_string()]);
}

#[test]
fn logs_are_capped_and_cleared() {
    let mut s = AppState::new();
    let c = s.add_app(command_params("a", "x")).unwrap();
    for i in 0..2005 {
        s.push_log_line(&c.id, i as i64, "info", &format!("line {}", i));
    }
    let logs = s.get_app_logs(&c.id);
    assert_eq!(logs.len(), 2000);
    assert_eq!(logs[0].content, "line 5");
    assert_eq!(logs[1999].content, "line 2004");
    assert_eq!(logs[1999].timestamp, 2004);
    s.clear_app_logs(&c.id);
    assert_eq!(s.get_app_logs(&c.id).len(), 0);
    s.push_log_line("unknown", 1, "info", "x");
    assert_eq!(s.get_app_logs("unknown").len(), 0);
}

#[test]
fn start_and_stop_command() {
    let mut s = AppState::new();
    let c = s.add_app(command_params("a", "x")).unwrap();
    assert!(matches!(s.begin_start(&c.id), Ok(StartPlan::Spawn)));
    s.record_spawned(&c.id, 200, 100, "", 10);
    let inst = s.get_app(&c.id).unwrap();
    assert!(inst.running);
    assert_eq!(inst.pid, Some(200));
    assert_eq!(inst.started_at, Some(10));
    let logs = s.get_app_logs(&c.id);
    assert_eq!(logs.last().unwrap().content, "启动成功，PID: 200（包装进程 100）");
    assert_eq!(s.begin_start(&c.id).err(), Some(AppError::AlreadyRunning));
    match s.begin_stop(&c.id, false, 11) {
        Ok(StopPlan::KillProcess { real_pid }) => assert_eq!(real_pid, Some(200)),
        _ => panic!("expected a kill plan"),
    }
    assert_eq!(s.get_app_logs(&c.id).last().unwrap().content, "终止进程");
    assert!(s.finish_stop(&c.id, true, false, 12));
    let inst = s.get_app(&c.id).unwrap();
    assert!(!inst.running);
    assert!(inst.pid.is_none());
    assert!(inst.manual_stop);
    assert_eq!(inst.exit_reason.as_deref(), Some("手动关闭"));
    assert_eq!(s.get_app_logs(&c.id).last().unwrap().content, "已关闭");
    assert_eq!(s.begin_stop(&c.id, false, 13).err(), Some(AppError::NotRunning));
    assert_eq!(s.begin_stop("missing", false, 13).err(), Some(AppError::NotFound));
}

#[test]
fn failed_stop_keeps_running() {
    let mut s = AppState::new();
    let c = s.add_app(command_params("a", "x")).unwrap();
    s.record_spawned(&c.id, 5, 5, "", 1);
    assert!(!s.finish_stop(&c.id, false, false, 2));
    assert!(s.get_app(&c.id).unwrap().running);
    let last = s.get_app_logs(&c.id).last().unwrap().clone();
    assert_eq!(last.level, "error");
    assert_eq!(last.content, "关闭失败");
    assert!(s.finish_stop(&c.id, false, true, 3));
    assert_eq!(s.get_app(&c.id).unwrap().exit_reason.as_deref(), Some("手动强制关闭"));
}

#[test]
fn spawn_failure_is_logged() {
    let mut s = AppState::new();
    let c = s.add_app(command_params("a", "x")).unwrap();
    s.record_spawn_failed(&c.id, "批量", "no such file", 3);
    let last = s.get_app_logs(&c.id).last().unwrap().clone();
    assert_eq!(last.level, "error");
    assert_eq!(last.content, "批量启动失败: no such file");
    assert!(!s.get_app(&c.id).unwrap().running);
}

#[test]
fn static_server_start_and_stop() {
    let mut s = AppState::new();
    let mut p = command_params("site", "");
    p.app_type = Some(AppType::StaticServer);
    p.static_server = Some(server_config("/www"));
    let c = s.add_app(p).unwrap();
    s.record_server_started(&c.id, 8080, 50, "静态服务器启动，端口: ");
    let inst = s.get_app(&c.id).unwrap();
    assert!(inst.running);
    assert_eq!(inst.server_port, Some(8080));
    assert_eq!(s.get_app_logs(&c.id).last().unwrap().content, "静态服务器启动，端口: 8080");
    assert!(matches!(s.begin_stop(&c.id, false, 51), Ok(StopPlan::ServerStopped)));
    let inst = s.get_app(&c.id).unwrap();
    assert!(!inst.running);
    assert!(inst.server_port.is_none());
    assert_eq!(inst.exit_reason.as_deref(), Some("手动停止"));
    let logs = s.get_app_logs(&c.id);
    let n = logs.len();
    assert_eq!(logs[n - 2].content, "正在停止静态服务器...");
    assert_eq!(logs[n - 1].content, "静态服务器已停止");
}

#[test]
fn missing_static_config_refused_at_start() {
    let mut s = AppState::new();
    let mut p = command_params("site", "");
    p.app_type = Some(AppType::StaticServer);
    p.static_server = Some(server_config("/www"));
    let c = s.add_app(p).unwrap();
    let mut u = update_params(&c.id, "site");
    u.static_server = None;
    s.update_app(u).unwrap();
    assert_eq!(s.begin_start(&c.id).err(), Some(AppError::MissingStaticConfig));
    assert_eq!(s.begin_start("missing").err(), Some(AppError::NotFound));
}

#[test]
fn restart_marks_running_app() {
    let mut s = AppState::new();
    let c = s.add_app(command_params("a", "x")).unwrap();
    assert_eq!(s.begin_restart("missing", 1), Err(AppError::NotFound));
    assert_eq!(s.begin_restart(&c.id, 1), Ok(AppType::Command));
    assert_eq!(s.get_app_logs(&c.id).len(), 0);
    s.record_spawned(&c.id, 9, 9, "", 1);
    assert_eq!(s.begin_restart(&c.id, 2), Ok(AppType::Command));
    let inst = s.get_app(&c.id).unwrap();
    assert!(!inst.running);
    assert_eq!(inst.exit_reason.as_deref(), Some("重启"));
    assert_eq!(s.get_app_logs(&c.id).last().unwrap().content, "重启：关闭旧进程");
    s.record_spawned(&c.id, 10, 10, "重启", 3);
    assert_eq!(s.get_app_logs(&c.id).last().unwrap().content, "重启启动成功，PID: 10");
}

#[test]
fn export_snapshot_is_stopped() {
    let mut s = AppState::new();
    let c = s.add_app(command_params("a", "x")).unwrap();
    s.record_spawned(&c.id, 9, 9, "", 1);
    let e = s.snapshot(Snapshot::Export);
    assert_eq!(e.len(), 1);
    assert!(!e[0].running);
    assert!(e[0].pid.is_none());
    assert!(e[0].started_at.is_none());
    let p = s.snapshot(Snapshot::Persist);
    assert!(p[0].running);
    assert_eq!(p[0].pid, Some(9));
}

fn stored(id: &str, order: i32, running: bool, pid: Option<u32>, t: AppType) -> AppInstance {
    let mut s = AppState::new();
    let mut p = command_params(id, "x");
    p.app_type = Some(t);
    p.static_server = Some(server_config("/www"));
    let mut c = s.add_app(p).unwrap();
    c.id = id.to_string();
    c.sort_order = order;
    AppInstance {
        config: c,
        pid,
        running,
        process_info: None,
        started_at: Some(5),
        logs: None,
        server_port: Some(1),
        exit_reason: None,
        manual_stop: false,
    }
}

#[test]
fn import_skips_known_ids() {
    let mut s = AppState::new();
    let a = s.add_app(command_params("a", "x")).unwrap();
    let list = vec![
        stored("n1", 40, true, Some(3), AppType::Command),
        stored(&a.id, 7, false, None, AppType::Command),
        stored("n2", 2, false, None, AppType::Command),
    ];
    let list2 = list.iter().map(|i| i.copy()).collect::<Vec<_>>();
    assert_eq!(s.import_config(list), 2);
    let n1 = s.get_app("n1").unwrap();
    assert_eq!(n1.config.sort_order, 1);
    assert!(!n1.running);
    assert!(n1.pid.is_none());
    assert!(n1.server_port.is_none());
    assert_eq!(s.get_app("n2").unwrap().config.sort_order, 2);
    assert_eq!(s.get_app(&a.id).unwrap().config.sort_order, 0);
    assert_eq!(s.import_config(list2), 0);
    assert_eq!(s.list_apps().len(), 3);
}

#[test]
fn load_reconciles_running_apps() {
    let mut s = AppState::new();
    let list = vec![
        stored("gone", 3, true, Some(11), AppType::Command),
        stored("alive", 1, true, Some(12), AppType::Command),
        stored("nopid", 2, true, None, AppType::Command),
        stored("site", 0, true, None, AppType::StaticServer),
    ];
    let observed = vec![Some(false), Some(true), None, None];
    let r = s.load_apps(list, &observed);
    let ids: Vec<String> = r.iter().map(|i| i.config.id.clone()).collect();
    assert_eq!(ids, vec!["site", "alive", "nopid", "gone"]);
    let gone = s.get_app("gone").unwrap();
    assert!(!gone.running);
    assert!(gone.pid.is_none());
    assert_eq!(gone.exit_reason.as_deref(), Some("进程已退出"));
    assert!(s.get_app("alive").unwrap().running);
    assert_eq!(s.get_app("nopid").unwrap().exit_reason.as_deref(), Some("进程信息丢失"));
    let site = s.get_app("site").unwrap();
    assert!(!site.running);
    assert!(site.server_port.is_none());
    assert_eq!(site.exit_reason.as_deref(), Some("静态服务器需要重新启动"));
    assert_eq!(s.peek_sort_order(), 4);
}

#[test]
fn change_app_on_unknown_id() {
    let mut s = AppState::new();
    assert!(!s.change_app("missing", Change::Restarting));
    assert_eq!(s.list_apps().len(), 0);
}

#[test]
fn export_then_import_recreates_apps() {
    let mut s = AppState::new();
    let a = s.add_app(command_params("a", "x")).unwrap();
    let b = s.add_app(command_params("b", "y")).unwrap();
    s.update_sort_order(&vec![(a.id.clone(), 9)]);
    s.record_spawned(&b.id, 3, 3, "", 1);
    let exported = s.snapshot(Snapshot::Export);
    let mut t = AppState::new();
    assert_eq!(t.import_config(exported), 2);
    let list = t.list_apps();
    assert_eq!(list.len(), 2);
    assert_eq!(list[0].config.id, b.id);
    assert_eq!(list[0].config.sort_order, 0);
    assert_eq!(list[1].config.id, a.id);
    assert_eq!(list[1].config.sort_order, 1);
    assert!(list.iter().all(|i| !i.running && i.pid.is_none()));
    assert_eq!(list[1].config.command, "x");
}

#[test]
fn save_then_load_restores_apps() {
    let mut s = AppState::new();
    let a = s.add_app(command_params("a", "x")).unwrap();
    let b = s.add_app(command_params("b", "y")).unwrap();
    s.record_spawned(&b.id, 3, 3, "", 1);
    s.observe(&b.id, app_m::lifecycle::Probe::Alive(app_m::models::ProcessStats { pid: 3, cpu_hundredths: 5, memory_bytes: 9, busy: true }), 2);
    let saved = s.snapshot(Snapshot::Persist);
    assert!(saved[1].process_info.is_none());
    let observed: Vec<Option<bool>> = saved.iter().map(|i| i.pid.map(|_| true)).collect();
    let mut t = AppState::new();
    let loaded = t.load_apps(saved, &observed);
    assert_eq!(loaded.len(), 2);
    let la = t.get_app(&a.id).unwrap();
    assert!(!la.running);
    assert_eq!(la.config.name, "a");
    let lb = t.get_app(&b.id).unwrap();
    assert!(lb.running);
    assert_eq!(lb.pid, Some(3));
    assert!(lb.process_info.is_none());
    assert_eq!(t.get_app_logs(&b.id).len(), 0);
    assert_eq!(t.peek_sort_order(), 2);
}

#[test]
fn load_continues_after_negative_positions() {
    let mut s = AppState::new();
    let list = vec![
        stored("low", -5, false, None, AppType::Command),
        stored("lower", -9, false, None, AppType::Command),
    ];
    let observed = vec![None, None];
    let r = s.load_apps(list, &observed);
    assert_eq!(r.len(), 2);
    assert_eq!(r[0].config.id, "lower");
    assert_eq!(s.peek_sort_order(), -4);
}

#[test]
fn load_of_nothing_starts_positions_at_zero() {
    let mut s = AppState::new();
    let r = s.load_apps(Vec::new(), &Vec::new());
    assert!(r.is_empty());
    assert_eq!(s.peek_sort_order(), 0);
}

#[test]
fn env_vars_kept_by_add_and_update() {
    let mut s = AppState::new();
    let mut p = command_params("a", "x");
    p.env_vars = Some(vec![("PORT".to_string(), "3000".to_string()), ("MODE".to_string(), "dev".to_string())]);
    let a = s.add_app(p).unwrap();
    let stored = s.get_app(&a.id).unwrap();
    assert_eq!(
        stored.config.env_vars,
        Some(vec![("PORT".to_string(), "3000".to_string()), ("MODE".to_string(), "dev".to_string())])
    );
    let mut u = update_params(&a.id, "b");
    u.env_vars = Some(vec![("HOST".to_string(), "0.0.0.0".to_string())]);
    let c = s.update_app(u).unwrap();
    assert_eq!(c.env_vars, Some(vec![("HOST".to_string(), "0.0.0.0".to_string())]));
    assert_eq!(s.get_app(&a.id).unwrap().config.env_vars, c.env_vars);
}
