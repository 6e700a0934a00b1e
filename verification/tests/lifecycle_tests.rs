use app_m::lifecycle::{
    exit_message, watch_reaction, ExitObservation, Probe, Selector, WatchInput, WatchReaction, WatchStep,
    WATCH_DEBOUNCE_MS,
};
use app_m::models::{AddAppParams, AppType, ProcessStats, StaticServerConfig};
use app_m::registry::AppState;

fn params(name: &str) -> AddAppParams {
    AddAppParams {
        name: name.to_string(),
        app_type: None,
        command: "run".to_string(),
        work_dir: None,
        description: None,
        color: None,
        auto_start: None,
        group: None,
        env_vars: None,
        delay_seconds: None,
        static_server: None,
        url: None,
        watch_restart: None,
        watch_dirs: None,
        exit_restart: None,
    }
}

fn stats(pid: u32, cpu: u64) -> ProcessStats {
    ProcessStats { pid, cpu_hundredths: cpu, memory_bytes: 1024, busy: cpu > 0 }
}

#[test]
fn exit_messages() {
    assert_eq!(exit_message(&ExitObservation::Untracked), "进程已退出");
    assert_eq!(exit_message(&ExitObservation::Success), "进程正常退出 (退出码: 0)");
    assert_eq!(exit_message(&ExitObservation::Code(3)), "进程异常退出 (退出码: 3)");
    assert_eq!(exit_message(&ExitObservation::Code(-1)), "进程异常退出 (退出码: -1)");
    assert_eq!(exit_message(&ExitObservation::Signal), "进程被信号终止");
    assert_eq!(exit_message(&ExitObservation::StillRunning), "进程已退出 (系统无法获取状态)");
    assert_eq!(
        exit_message(&ExitObservation::Failed("denied".to_string())),
        "进程已退出 (获取状态失败: denied)"
    );
}

#[test]
fn observe_alive_records_sample() {
    let mut s = AppState::new();
    let c = s.add_app(params("a")).unwrap();
    s.record_spawned(&c.id, 77, 77, "", 1);
    assert!(!s.observe(&c.id, Probe::Alive(stats(0, 250)), 2));
    let inst = s.get_app(&c.id).unwrap();
    let p = inst.process_info.unwrap();
    assert_eq!(p.pid, 77);
    assert_eq!(p.cpu_hundredths, 250);
    assert_eq!(p.status(), "running");
    assert!(inst.running);
    assert_eq!(s.get_process_info(&c.id).unwrap().unwrap().memory_bytes, 1024);
}

#[test]
fn observe_without_process_changes_nothing() {
    let mut s = AppState::new();
    let c = s.add_app(params("a")).unwrap();
    assert!(!s.observe(&c.id, Probe::Gone(ExitObservation::Untracked), 2));
    assert!(s.get_app(&c.id).unwrap().exit_reason.is_none());
    assert!(!s.observe("missing", Probe::Alive(stats(1, 0)), 2));
}

#[test]
fn observe_exit_and_restart_candidates() {
    let mut s = AppState::new();
    let mut p = params("a");
    p.exit_restart = Some(true);
    let a = s.add_app(p).unwrap();
    let b = s.add_app(params("b")).unwrap();
    s.record_spawned(&a.id, 10, 10, "", 1);
    s.record_spawned(&b.id, 11, 11, "", 1);
    assert!(s.observe(&a.id, Probe::Gone(ExitObservation::Code(2)), 5));
    assert!(s.observe(&b.id, Probe::Gone(ExitObservation::Success), 5));
    let ia = s.get_app(&a.id).unwrap();
    assert!(!ia.running);
    assert!(ia.pid.is_none());
    assert_eq!(ia.exit_reason.as_deref(), Some("进程异常退出 (退出码: 2) (自动重启中...)"));
    let last = s.get_app_logs(&a.id).last().unwrap().clone();
    assert_eq!(last.level, "warn");
    assert_eq!(last.content, "进程异常退出 (退出码: 2)");
    assert_eq!(s.get_app(&b.id).unwrap().exit_reason.as_deref(), Some("进程正常退出 (退出码: 0)"));
    assert_eq!(s.ids_where(Selector::RestartCandidates), vec![a.id.clone()]);
    assert!(s.begin_auto_restart(&a.id, 6));
    assert_eq!(s.get_app_logs(&a.id).last().unwrap().content, "退出自动重启：重新启动进程...");
    s.record_spawned(&a.id, 12, 12, "自动重启", 7);
    assert!(!s.begin_auto_restart(&a.id, 8));
    assert!(!s.begin_auto_restart("missing", 8));
}

#[test]
fn user_stopped_app_is_not_restarted() {
    let mut s = AppState::new();
    let mut p = params("a");
    p.exit_restart = Some(true);
    let a = s.add_app(p).unwrap();
    s.record_spawned(&a.id, 10, 10, "", 1);
    assert_eq!(s.mark_batch_stopped(&a.id, 2), Some("a".to_string()));
    assert_eq!(s.get_app(&a.id).unwrap().exit_reason.as_deref(), Some("批量关闭"));
    assert_eq!(s.get_app_logs(&a.id).last().unwrap().content, "批量关闭");
    assert!(s.ids_where(Selector::RestartCandidates).is_empty());
    assert_eq!(s.mark_batch_stopped("missing", 2), None);
}

#[test]
fn running_selections() {
    let mut s = AppState::new();
    let a = s.add_app(params("a")).unwrap();
    let mut p = params("site");
    p.app_type = Some(AppType::StaticServer);
    p.static_server = Some(StaticServerConfig {
        port: 9000,
        root_dir: "/www".to_string(),
        spa_mode: false,
        index_file: "index.html".to_string(),
        proxy_rules: vec![],
    });
    let b = s.add_app(p).unwrap();
    let c = s.add_app(params("c")).unwrap();
    s.record_spawned(&a.id, 1, 1, "", 1);
    s.record_server_started(&b.id, 9000, 1, "静态服务器启动，端口: ");
    assert_eq!(s.ids_where(Selector::Running), vec![a.id.clone(), b.id.clone()]);
    assert_eq!(s.ids_where(Selector::RunningServers), vec![b.id.clone()]);
    assert_eq!(s.ids_where(Selector::Stopped), vec![c.id.clone()]);
}

#[test]
fn start_plans_follow_positions() {
    let mut s = AppState::new();
    let mut p = params("late");
    p.auto_start = Some(true);
    p.delay_seconds = Some(4);
    let late = s.add_app(p).unwrap();
    let early = s.add_app(params("early")).unwrap();
    let mut p = params("auto");
    p.auto_start = Some(true);
    let auto = s.add_app(p).unwrap();
    s.update_sort_order(&vec![(late.id.clone(), 10)]);
    let all = s.start_plan(false);
    let ids: Vec<String> = all.iter().map(|i| i.id.clone()).collect();
    assert_eq!(ids, vec![early.id.clone(), auto.id.clone(), late.id.clone()]);
    assert_eq!(all[2].delay_seconds, 4);
    assert_eq!(all[2].app_type, AppType::Command);
    let autos = s.start_plan(true);
    let ids: Vec<String> = autos.iter().map(|i| i.id.clone()).collect();
    assert_eq!(ids, vec![auto.id.clone(), late.id.clone()]);
    s.record_spawned(&auto.id, 3, 3, "自动", 1);
    assert_eq!(s.start_plan(true).len(), 1);
}

#[test]
fn watch_dirs_choice() {
    let mut s = AppState::new();
    let mut p = params("a");
    p.watch_restart = Some(true);
    p.watch_dirs = Some(vec!["  src ".to_string(), "   ".to_string(), "lib".to_string()]);
    p.work_dir = Some("/proj".to_string());
    let a = s.add_app(p).unwrap();
    assert_eq!(s.watch_dirs(&a.id), Some(vec!["src".to_string(), "lib".to_string()]));

    let mut p = params("b");
    p.watch_restart = Some(true);
    p.watch_dirs = Some(vec![" ".to_string()]);
    p.work_dir = Some(" /proj ".to_string());
    let b = s.add_app(p).unwrap();
    assert_eq!(s.watch_dirs(&b.id), Some(vec!["/proj".to_string()]));

    let mut p = params("c");
    p.watch_restart = Some(true);
    p.work_dir = Some("  ".to_string());
    let c = s.add_app(p).unwrap();
    assert_eq!(s.watch_dirs(&c.id), None);

    let mut p = params("d");
    p.watch_dirs = Some(vec!["src".to_string()]);
    let d = s.add_app(p).unwrap();
    assert_eq!(s.watch_dirs(&d.id), None);
    assert_eq!(s.watch_dirs("missing"), None);
}

#[test]
fn watch_restart_steps() {
    let mut s = AppState::new();
    let a = s.add_app(params("a")).unwrap();
    assert_eq!(s.begin_watch_restart("missing", 1), WatchStep::Stop);
    assert_eq!(s.begin_watch_restart(&a.id, 1), WatchStep::Ignore);
    s.record_spawned(&a.id, 4, 4, "", 1);
    assert_eq!(s.begin_watch_restart(&a.id, 2), WatchStep::Restart(AppType::Command));
    let inst = s.get_app(&a.id).unwrap();
    assert!(!inst.running);
    assert_eq!(inst.exit_reason.as_deref(), Some("文件变更自动重启"));
    assert_eq!(s.get_app_logs(&a.id).last().unwrap().content, "文件变更，准备自动重启...");
}

#[test]
fn watcher_reactions() {
    assert_eq!(watch_reaction(WatchInput::FileEvent { changes: true }, WATCH_DEBOUNCE_MS, true), WatchReaction::Handle);
    assert_eq!(watch_reaction(WatchInput::FileEvent { changes: true }, 1999, true), WatchReaction::Wait);
    assert_eq!(watch_reaction(WatchInput::FileEvent { changes: false }, 5000, true), WatchReaction::Wait);
    assert_eq!(watch_reaction(WatchInput::WatchError, 5000, true), WatchReaction::Wait);
    assert_eq!(watch_reaction(WatchInput::Timeout, 0, true), WatchReaction::Wait);
    assert_eq!(watch_reaction(WatchInput::Timeout, 0, false), WatchReaction::End);
    assert_eq!(watch_reaction(WatchInput::Closed, 0, true), WatchReaction::End);
}
