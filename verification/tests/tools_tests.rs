use app_m::hosts::{parse_hosts, parse_netstat_line, render_hosts, HostsEntryParams, WriteHostsParams};
use app_m::monitor::{MetricSample, Monitor, HISTORY_SECS};
use app_m::process::{
    deepest_descendant, launch_spec, read_process_io, resolve_real_process, ResolveProgress, StopAction, StopSequence,
};
use app_m::text::{decimal_string, parse_unsigned_chars, signed_decimal_string};
use app_m::tools::{contains_chars, find_processes, ProcessRow};
use app_m::models::{AddAppParams, LogEntry};
use app_m::logs::{now_ts, seconds_or_zero, push_log, push_log_at, push_to_buffer, push_to_buffer_at, LogBuffers, MAX_LOGS};
use app_m::registry::AppState;

fn entry(ip: &str, host: &str, enabled: bool) -> HostsEntryParams {
    HostsEntryParams { ip: ip.to_string(), host: host.to_string(), enabled }
}

#[test]
fn hosts_parse_lines() {
    let content = "# comment\n127.0.0.1 localhost\n\n  10.0.0.1\tdev.local   api.local  \nbroken\r\n::1 ip6-localhost\r\n";
    let e = parse_hosts(content);
    assert_eq!(e.len(), 3);
    assert_eq!(e[0].ip, "127.0.0.1");
    assert_eq!(e[0].host, "localhost");
    assert_eq!(e[0].line_number, 2);
    assert!(e[0].enabled);
    assert_eq!(e[1].host, "dev.local api.local");
    assert_eq!(e[1].original_line, "  10.0.0.1\tdev.local   api.local  ");
    assert_eq!(e[1].line_number, 4);
    assert_eq!(e[2].ip, "::1");
    assert_eq!(e[2].original_line, "::1 ip6-localhost");
    assert_eq!(e[2].line_number, 6);
}

#[test]
fn hosts_render_keeps_comments() {
    let original = "# header\n127.0.0.1 localhost\n\n# tail\n";
    let params = WriteHostsParams { entries: vec![entry("10.0.0.1", "a.local", true), entry("10.0.0.2", "b.local", false)] };
    let out = render_hosts(original, &params.entries);
    assert_eq!(out, "# header\n\n# tail\n\n10.0.0.1 a.local\n# 10.0.0.2 b.local\n");
    let fresh = render_hosts("", &params.entries);
    assert_eq!(fresh, "10.0.0.1 a.local\n# 10.0.0.2 b.local\n");
}

#[test]
fn hosts_render_then_parse() {
    let es = vec![entry("10.0.0.1", "a.local", true), entry("10.0.0.2", "b.local", false), entry("10.0.0.3", "c.local", true)];
    let parsed = parse_hosts(&render_hosts("# keep\n1.1.1.1 gone\n", &es));
    assert_eq!(parsed.len(), 2);
    assert_eq!((parsed[0].ip.as_str(), parsed[0].host.as_str()), ("10.0.0.1", "a.local"));
    assert_eq!((parsed[1].ip.as_str(), parsed[1].host.as_str()), ("10.0.0.3", "c.local"));
}

#[test]
fn netstat_lines() {
    let m = parse_netstat_line("  TCP    0.0.0.0:8080           0.0.0.0:0              LISTENING       4321", 8080).unwrap();
    assert_eq!(m.protocol, "TCP");
    assert_eq!(m.local_addr, "0.0.0.0:8080");
    assert_eq!(m.port, 8080);
    assert_eq!(m.pid, 4321);
    assert_eq!(m.state, "LISTENING");
    assert_eq!(m.process_name, "");
    let v6 = parse_netstat_line("  TCP    [::]:443               [::]:0                 LISTENING       4", 443).unwrap();
    assert_eq!(v6.local_addr, "[::]:443");
    assert!(parse_netstat_line("  TCP    0.0.0.0:8080    0.0.0.0:0   LISTENING   4321", 80).is_none());
    assert!(parse_netstat_line("Active Connections", 80).is_none());
    assert!(parse_netstat_line("  Proto  Local Address          Foreign Address        State           PID", 80).is_none());
    assert!(parse_netstat_line("  TCP    0.0.0.0:8080    0.0.0.0:0   LISTENING   x", 8080).is_none());
}

#[test]
fn text_numbers() {
    assert_eq!(decimal_string(0), "0");
    assert_eq!(decimal_string(1234567890), "1234567890");
    assert_eq!(signed_decimal_string(-42), "-42");
    let c: Vec<char> = "+65535".chars().collect();
    assert_eq!(parse_unsigned_chars(&c, 65535), Some(65535));
    let c: Vec<char> = "65536".chars().collect();
    assert_eq!(parse_unsigned_chars(&c, 65535), None);
    let c: Vec<char> = "".chars().collect();
    assert_eq!(parse_unsigned_chars(&c, 10), None);
}

#[test]
fn launch_through_shell() {
    let mut s = AppState::new();
    let p = AddAppParams {
        name: "a".to_string(),
        app_type: None,
        command: "npm run dev".to_string(),
        work_dir: Some(String::new()),
        description: None,
        color: None,
        auto_start: None,
        group: None,
        env_vars: Some(vec![("PORT".to_string(), "3000".to_string())]),
        delay_seconds: None,
        static_server: None,
        url: None,
        watch_restart: None,
        watch_dirs: None,
        exit_restart: None,
    };
    let c = s.add_app(p).unwrap();
    let unix = launch_spec(&c, false);
    assert_eq!(unix.program, "sh");
    assert_eq!(unix.args, vec!["-c".to_string(), "npm run dev".to_string()]);
    assert!(unix.work_dir.is_none());
    assert_eq!(unix.env, vec![("PORT".to_string(), "3000".to_string())]);
    let win = launch_spec(&c, true);
    assert_eq!(win.program, "cmd");
    assert_eq!(win.args[0], "/C");
}

#[test]
fn real_process_search() {
    assert_eq!(resolve_real_process(1234), 1234);
    assert_eq!(read_process_io(1), (0, 0));
    let table = vec![(100, 1), (200, 100), (150, 100), (300, 200), (999, 5)];
    assert_eq!(deepest_descendant(&table, 100), (300, 2));
    assert_eq!(deepest_descendant(&table, 999), (999, 0));
    let mut p = ResolveProgress::new(100);
    assert!(!p.step(&vec![]));
    assert_eq!(p.result(), 100);
    assert!(!p.step(&vec![(200, 100)]));
    assert_eq!(p.result(), 200);
    assert!(!p.step(&table));
    assert!(!p.step(&table));
    assert!(p.step(&table));
    assert_eq!(p.result(), 300);
}

#[test]
fn real_process_search_depth_limit() {
    let mut table = Vec::new();
    for i in 0..20u32 {
        table.push((i + 1, i));
    }
    assert_eq!(deepest_descendant(&table, 0), (11, 11));
}

#[test]
fn monitor_history_and_rates() {
    let mut m = Monitor::new();
    assert!(m.get_monitoring());
    let s = |ts: i64| MetricSample { ts, cpu_hundredths: 1, mem: 2, net_in_hundredths: 0, net_out_hundredths: 0 };
    m.record_metric("a", s(100));
    m.record_metric("a", s(200));
    m.record_metric("a", s(100 + HISTORY_SECS + 50));
    let h = m.get_metrics("a");
    assert_eq!(h.len(), 2);
    assert_eq!(h[0].ts, 200);
    assert_eq!(m.get_metrics("b").len(), 0);
    assert_eq!(m.io_rates("a", 10, 1000, 500), None);
    assert_eq!(m.last_io_reading("a"), Some((10, 1000, 500)));
    assert_eq!(m.io_rates("a", 14, 3000, 400), Some((2000, 0, 4)));
    assert_eq!(m.io_rates("a", 14, 3000, 400), Some((0, 0, 1)));
    assert!(!m.toggle_monitoring(false));
    assert!(!m.get_monitoring());
    assert_eq!(m.get_metrics("a").len(), 0);
    assert_eq!(m.last_io_reading("a"), None);
}

fn row(pid: u32, name: &str, cpu: u64) -> ProcessRow {
    ProcessRow { pid, name: name.to_string(), cpu_hundredths: cpu, memory_bytes: 0 }
}

#[test]
fn process_search() {
    let rows = vec![row(1, "Chrome.exe", 50), row(2, "node", 900), row(3, "chromedriver", 50), row(4, "CHROME", 700)];
    let r = find_processes(&rows, "chrome");
    let pids: Vec<u32> = r.iter().map(|x| x.pid).collect();
    assert_eq!(pids, vec![4, 1, 3]);
    assert_eq!(find_processes(&rows, "").len(), 0);
    assert_eq!(find_processes(&rows, "python").len(), 0);
    let a: Vec<char> = "hello".chars().collect();
    let b: Vec<char> = "ll".chars().collect();
    assert!(contains_chars(&a, &b));
    assert!(contains_chars(&a, &[]));
    assert!(!contains_chars(&b, &a));
}

#[test]
fn log_buffer_cap() {
    let mut logs: Vec<LogEntry> = Vec::new();
    for i in 0..(MAX_LOGS + 3) {
        push_log_at(&mut logs, i as i64, "info", &i.to_string());
    }
    assert_eq!(logs.len(), MAX_LOGS);
    assert_eq!(logs[0].content, "3");
    push_log(&mut logs, "error", "last");
    assert_eq!(logs.len(), MAX_LOGS);
    assert_eq!(logs[MAX_LOGS - 1].content, "last");
    assert_eq!(logs[MAX_LOGS - 1].level, "error");
    assert!(logs[MAX_LOGS - 1].timestamp >= 0);
    assert!(now_ts() > 1_600_000_000);
}

#[test]
fn buffer_of_known_app_only() {
    let mut buffers: LogBuffers = LogBuffers::new();
    buffers.insert("a".to_string(), Vec::new());
    push_to_buffer_at(&mut buffers, "a", 5, "warn", "disk full");
    push_to_buffer(&mut buffers, "a", "info", "ok");
    push_to_buffer(&mut buffers, "b", "info", "lost");
    let a = buffers.get("a").unwrap();
    assert_eq!(a.len(), 2);
    assert_eq!(a[0].timestamp, 5);
    assert_eq!(a[0].level, "warn");
    assert_eq!(a[1].content, "ok");
    assert!(buffers.get("b").is_none());
    assert_eq!(buffers.len(), 1);
}

#[test]
fn hosts_entries_read_back() {
    let es = vec![
        entry("10.0.0.1", "a.local b.local", true),
        entry("10.0.0.2", "x\ny", false),
        entry("10.0.0.3", "c.local", true),
    ];
    let parsed = parse_hosts(&render_hosts("", &es));
    let pairs: Vec<(String, String)> = parsed.iter().map(|e| (e.ip.clone(), e.host.clone())).collect();
    assert_eq!(
        pairs,
        vec![
            ("10.0.0.1".to_string(), "a.local b.local".to_string()),
            ("10.0.0.3".to_string(), "c.local".to_string())
        ]
    );
    assert_eq!(parsed[1].line_number, 4);
}

#[test]
fn monitoring_gate() {
    let mut m = Monitor::new();
    assert_eq!(m.sample_io("a", 10, 100, 50), Some(None));
    assert_eq!(m.sample_io("a", 12, 300, 50), Some(Some((200, 0, 2))));
    m.toggle_monitoring(false);
    assert_eq!(m.sample_io("a", 14, 900, 90), None);
    assert_eq!(m.last_io_reading("a"), None);
}

#[test]
fn stop_sequences() {
    let mut forced = StopSequence::new(10, true, Some(20));
    assert_eq!(forced.next(false, false), StopAction::KillTree(10));
    assert_eq!(forced.next(true, false), StopAction::Finished(true));

    let mut gentle = StopSequence::new(10, false, Some(20));
    assert_eq!(gentle.next(false, false), StopAction::AskToClose(20));
    assert_eq!(gentle.next(true, false), StopAction::WaitAndCheck(20));
    assert_eq!(gentle.next(true, false), StopAction::WaitAndCheck(20));
    assert_eq!(gentle.next(false, false), StopAction::Finished(true));

    let mut stubborn = StopSequence::new(10, false, None);
    assert_eq!(stubborn.next(false, false), StopAction::AskToClose(10));
    assert_eq!(stubborn.next(true, false), StopAction::WaitAndCheck(10));
    assert_eq!(stubborn.next(true, true), StopAction::EndProcess(10));
    assert_eq!(stubborn.next(true, false), StopAction::Finished(false));

    let mut refused = StopSequence::new(10, false, Some(30));
    assert_eq!(refused.next(false, false), StopAction::AskToClose(30));
    assert_eq!(refused.next(false, false), StopAction::EndProcess(30));
    assert_eq!(refused.next(false, false), StopAction::Finished(true));
}

#[test]
fn clock_reading_to_stamp() {
    assert_eq!(seconds_or_zero(Some(1_700_000_123)), 1_700_000_123);
    assert_eq!(seconds_or_zero(Some(0)), 0);
    assert_eq!(seconds_or_zero(None), 0);
}
