use app_m::lifecycle::{ExitObservation, Probe, Selector};
use app_m::models::{AddAppParams, AppInstance, ProcessStats};
use app_m::registry::{AppState, Change};

fn params(name: &str, exit_restart: bool) -> AddAppParams {
    AddAppParams {
        name: name.to_string(),
        app_type: None,
        command: "run".to_string(),
        work_dir: Some("/w".to_string()),
        description: Some("d".to_string()),
        color: None,
        auto_start: Some(true),
        group: Some("g".to_string()),
        env_vars: None,
        delay_seconds: Some(2),
        static_server: None,
        url: None,
        watch_restart: None,
        watch_dirs: None,
        exit_restart: Some(exit_restart),
    }
}

fn same_config(a: &AppInstance, b: &AppInstance) -> bool {
    a.config.id == b.config.id
        && a.config.name == b.config.name
        && a.config.command == b.config.command
        && a.config.work_dir == b.config.work_dir
        && a.config.sort_order == b.config.sort_order
        && a.config.delay_seconds == b.config.delay_seconds
        && a.config.auto_start == b.config.auto_start
        && a.config.exit_restart == b.config.exit_restart
        && a.config.group == b.config.group
}

#[test]
fn run_time_changes_keep_configuration() {
    let mut s = AppState::new();
    let c = s.add_app(params("a", true)).unwrap();
    let before = s.get_app(&c.id).unwrap();
    s.record_spawned(&c.id, 5, 4, "", 1);
    assert!(same_config(&before, &s.get_app(&c.id).unwrap()));
    s.observe(&c.id, Probe::Alive(ProcessStats { pid: 0, cpu_hundredths: 0, memory_bytes: 1, busy: false }), 2);
    assert!(same_config(&before, &s.get_app(&c.id).unwrap()));
    s.change_app(&c.id, Change::Restarting);
    assert!(same_config(&before, &s.get_app(&c.id).unwrap()));
    s.change_app(&c.id, Change::FilesChanged);
    assert!(same_config(&before, &s.get_app(&c.id).unwrap()));
}

#[test]
fn manual_stop_is_not_restarted_but_exit_is() {
    let mut s = AppState::new();
    let a = s.add_app(params("a", true)).unwrap();
    let b = s.add_app(params("b", true)).unwrap();
    let c = s.add_app(params("c", false)).unwrap();
    for (id, pid) in [(&a.id, 1u32), (&b.id, 2), (&c.id, 3)] {
        s.record_spawned(id, pid, pid, "", 1);
    }
    assert!(s.finish_stop(&a.id, true, true, 2));
    assert!(s.observe(&b.id, Probe::Gone(ExitObservation::Signal), 3));
    assert!(s.observe(&c.id, Probe::Gone(ExitObservation::Signal), 3));
    assert_eq!(s.ids_where(Selector::RestartCandidates), vec![b.id.clone()]);
    assert_eq!(s.get_app(&c.id).unwrap().exit_reason.as_deref(), Some("进程被信号终止"));
    assert_eq!(s.get_app(&b.id).unwrap().exit_reason.as_deref(), Some("进程被信号终止 (自动重启中...)"));
}

#[test]
fn update_keeps_id_and_position_only() {
    let mut s = AppState::new();
    let _ = s.add_app(params("a", false)).unwrap();
    let c = s.add_app(params("b", false)).unwrap();
    let e = s
        .update_app(app_m::models::UpdateAppParams {
            id: c.id.clone(),
            name: "new".to_string(),
            app_type: None,
            command: "other".to_string(),
            work_dir: None,
            description: None,
            color: None,
            auto_start: None,
            group: None,
            env_vars: None,
            delay_seconds: None,
            static_server: None,
            url: None,
            watch_restart: None,
            watch_dirs: None,
            exit_restart: None,
        })
        .unwrap();
    assert_eq!(e.id, c.id);
    assert_eq!(e.sort_order, 1);
    assert!(!e.auto_start);
    assert_eq!(e.delay_seconds, 0);
    assert!(e.work_dir.is_none());
    assert!(e.group.is_none());
}
