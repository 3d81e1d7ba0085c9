use ttop::counters::{CpuTimes, MemorySnapshot, NetCounters};
use ttop::input::{InputMode, Key, ModalState, Signal};
use ttop::state::{
    centered_rect, filter_mode_label, scroll_step, sent_signal_message, visible_range,
    wait_timeout_ms, App, RawProcess, Rect, SystemSnapshot,
};

fn times(user: u64, idle: u64) -> CpuTimes {
    CpuTimes {
        user,
        nice: 0,
        system: 0,
        idle,
        iowait: 0,
        irq: 0,
        softirq: 0,
        steal: 0,
    }
}

fn raw(pid: u32, parent: Option<u32>, name: &str, ticks: u64, mem: u64) -> RawProcess {
    RawProcess {
        pid,
        parent,
        name: String::from(name),
        command: String::new(),
        user: String::from("-"),
        mem_bytes: mem,
        threads: 1,
        cpu_ticks: ticks,
    }
}

fn snapshot(now_ms: u64, cpu: Option<CpuTimes>, procs: Option<Vec<RawProcess>>) -> SystemSnapshot {
    SystemSnapshot {
        now_ms,
        cpu,
        core_usages_centi: vec![0, 0],
        avg_freq_mhz: 2000,
        uptime_secs: 100,
        mem: MemorySnapshot {
            used_bytes: 500,
            total_bytes: 1000,
            swap_used_bytes: 0,
            swap_total_bytes: 0,
        },
        net: vec![
            NetCounters { name: String::from("lo"), total_rx: 9999999, total_tx: 9999999 },
            NetCounters { name: String::from("eth0"), total_rx: 1000, total_tx: 2000 },
        ],
        procs,
        gpu_probe: None,
    }
}

#[test]
fn first_update_reports_zero_cpu() {
    let mut app = App::new();
    app.update(snapshot(1000, Some(times(500, 500)), None));
    assert_eq!(app.cpu_usage_centi, 0);
    let before = app.cpu_usage_centi;
    assert!(before <= 10000);
}

#[test]
fn second_update_derives_cpu_share() {
    let mut app = App::new();
    app.update(snapshot(1000, Some(times(200, 800)), None));
    app.update(snapshot(2000, Some(times(250, 850)), None));
    assert_eq!(app.cpu_usage_centi, 5000);
    assert_eq!(app.cpu_history.last().copied(), Some(50));
}

#[test]
fn update_populates_process_table() {
    let mut app = App::new();
    let procs = vec![
        raw(1, None, "init", 0, 100),
        raw(50, Some(1), "worker", 0, 300),
        raw(7, Some(1), "sshd", 0, 200),
    ];
    app.update(snapshot(1000, Some(times(0, 1000)), Some(procs)));
    assert_eq!(app.all_process_rows.len(), 3);
    assert_eq!(app.process_rows.len(), 3);
    // default sort: cpu, all equal, memory descending breaks the tie
    let pids: Vec<u32> = app.process_rows.iter().map(|r| r.pid).collect();
    assert_eq!(pids, vec![50, 7, 1]);
    // memory share of the worker: 300 of 1000 bytes
    assert_eq!(app.process_rows[0].mem_centi, 3000);
}

#[test]
fn update_picks_busiest_non_loopback_interface() {
    let mut app = App::new();
    app.update(snapshot(1000, None, None));
    assert_eq!(app.net_iface, "eth0");
    assert_eq!(app.net_rx_total, 1000);
    // second sample: 4000 more rx bytes over 2 seconds
    let mut snap = snapshot(3000, None, None);
    snap.net[1].total_rx = 5000;
    app.update(snap);
    assert_eq!(app.net_rx_rate, 2000);
    assert_eq!(app.net_rx_top, 2000);
}

#[test]
fn selection_stays_valid_under_navigation() {
    let mut app = App::new();
    // navigation on an empty list keeps the selection pinned at zero
    app.jump_bottom();
    app.queue_scroll(10);
    app.flush_pending_scroll(5);
    assert_eq!(app.selected_process, 0);
    let procs = vec![raw(1, None, "a", 0, 0), raw(2, None, "b", 0, 0), raw(3, None, "c", 0, 0)];
    app.update(snapshot(1000, None, Some(procs)));
    app.jump_bottom();
    assert_eq!(app.selected_process, 2);
    app.queue_scroll(100);
    app.flush_pending_scroll(50);
    assert!(app.selected_process < app.process_rows.len());
    app.jump_top();
    assert_eq!(app.selected_process, 0);
}

#[test]
fn coalesced_scroll_is_bounded_per_cycle() {
    let mut app = App::new();
    let procs = (1..=20u32).map(|p| raw(p, None, "p", 0, 0)).collect();
    app.update(snapshot(1000, None, Some(procs)));
    app.queue_scroll(9);
    app.flush_pending_scroll(3);
    assert_eq!(app.selected_process, 3);
    assert_eq!(app.pending_scroll, 6);
    app.flush_pending_scroll(3);
    app.flush_pending_scroll(3);
    // every queued step was eventually honored
    assert_eq!(app.selected_process, 9);
    assert_eq!(app.pending_scroll, 0);
}

#[test]
fn scroll_alignment_is_idempotent() {
    let mut app = App::new();
    let procs = (1..=30u32).map(|p| raw(p, None, "p", 0, 0)).collect();
    app.update(snapshot(1000, None, Some(procs)));
    app.jump_bottom();
    app.align_scroll_to_selection(10);
    // the selection became the last visible row
    assert_eq!(app.process_scroll, 20);
    let before = app.process_scroll;
    app.align_scroll_to_selection(10);
    assert_eq!(app.process_scroll, before);
}

#[test]
fn terminate_confirmation_requests_signal_once() {
    let mut app = App::new();
    let procs = vec![raw(50, None, "victim", 0, 0)];
    app.update(snapshot(1000, None, Some(procs)));
    assert_eq!(app.process_rows[app.selected_process].pid, 50);
    // 't' opens the terminate confirmation for the selected process
    let (quit, request) = app.handle_key(Key::Char('t'));
    assert!(!quit);
    assert!(request.is_none());
    assert!(app.modal.is_some());
    // confirming delivers the request exactly once and closes the modal
    let (quit, request) = app.handle_key(Key::Enter);
    assert!(!quit);
    assert_eq!(request, Some((50, Signal::Term)));
    assert!(app.modal.is_none());
    // a further confirm key produces nothing
    let (_, request) = app.handle_key(Key::Enter);
    assert!(request.is_none());
}

#[test]
fn declined_confirmation_sends_nothing() {
    let mut app = App::new();
    let procs = vec![raw(50, None, "victim", 0, 0)];
    app.update(snapshot(1000, None, Some(procs)));
    app.handle_key(Key::Char('k'));
    let (_, request) = app.handle_key(Key::Char('n'));
    assert!(request.is_none());
    assert!(app.modal.is_none());
}

#[test]
fn signal_picker_navigates_and_confirms() {
    let mut app = App::new();
    let procs = vec![raw(50, None, "victim", 0, 0)];
    app.update(snapshot(1000, None, Some(procs)));
    app.handle_key(Key::Char('s'));
    match app.modal {
        Some(ModalState::SignalPicker { selected }) => assert_eq!(selected, 0),
        _ => panic!("expected the signal picker"),
    }
    app.handle_key(Key::Down);
    app.handle_key(Key::Down);
    let (_, request) = app.handle_key(Key::Enter);
    assert!(request.is_none());
    // the picker turned into a confirmation for SIGINT (third entry)
    match &app.modal {
        Some(ModalState::Confirm { pid, signal, .. }) => {
            assert_eq!(*pid, 50);
            assert_eq!(*signal, Signal::Int);
        },
        _ => panic!("expected a confirmation"),
    }
    let (_, request) = app.handle_key(Key::Char('y'));
    assert_eq!(request, Some((50, Signal::Int)));
}

#[test]
fn filter_entry_edits_query_and_rebuilds() {
    let mut app = App::new();
    let procs = vec![raw(10, None, "sshd", 0, 0), raw(11, None, "bash", 0, 0)];
    app.update(snapshot(1000, None, Some(procs)));
    assert_eq!(app.process_rows.len(), 2);
    app.handle_key(Key::Char('/'));
    assert_eq!(app.input_mode, InputMode::Filter);
    app.handle_key(Key::Char('s'));
    app.handle_key(Key::Char('s'));
    app.handle_key(Key::Char('h'));
    assert_eq!(app.filter_query, "ssh");
    assert_eq!(app.process_rows.len(), 1);
    assert_eq!(app.process_rows[0].pid, 10);
    app.handle_key(Key::Backspace);
    assert_eq!(app.filter_query, "ss");
    app.handle_key(Key::Enter);
    assert_eq!(app.input_mode, InputMode::Normal);
    // 'x' clears the filter and every row returns
    app.handle_key(Key::Char('x'));
    assert_eq!(app.filter_query, "");
    assert_eq!(app.process_rows.len(), 2);
}

#[test]
fn rebuild_is_idempotent_on_unchanged_state() {
    let mut app = App::new();
    let procs = vec![
        raw(1, None, "a", 0, 5),
        raw(2, Some(1), "b", 0, 9),
        raw(3, Some(1), "c", 0, 1),
    ];
    app.update(snapshot(1000, None, Some(procs)));
    app.handle_key(Key::Char('w'));
    app.jump_bottom();
    let pids_before: Vec<u32> = app.process_rows.iter().map(|r| r.pid).collect();
    let selected_pid = app.process_rows[app.selected_process].pid;
    app.rebuild_process_rows();
    let pids_after: Vec<u32> = app.process_rows.iter().map(|r| r.pid).collect();
    assert_eq!(pids_before, pids_after);
    assert_eq!(app.process_rows[app.selected_process].pid, selected_pid);
}

#[test]
fn selection_follows_pid_across_sort_changes() {
    let mut app = App::new();
    let procs = vec![raw(5, None, "e", 0, 100), raw(9, None, "a", 0, 900)];
    app.update(snapshot(1000, None, Some(procs)));
    // cpu sort, all shares equal: memory breaks the tie, pid 9 first
    assert_eq!(app.process_rows[0].pid, 9);
    app.jump_bottom();
    assert_eq!(app.process_rows[app.selected_process].pid, 5);
    app.handle_key(Key::Char('n'));
    // name sort: pid 9 ("a") first again, and pid 5 stays selected
    assert_eq!(app.process_rows[0].pid, 9);
    assert_eq!(app.process_rows[app.selected_process].pid, 5);
    app.handle_key(Key::Char('r'));
    assert_eq!(app.process_rows[app.selected_process].pid, 5);
}

#[test]
fn quit_keys() {
    let mut app = App::new();
    assert!(app.handle_key(Key::Char('q')).0);
    assert!(app.handle_key(Key::CtrlC).0);
    assert!(!app.handle_key(Key::Char('z')).0);
}

#[test]
fn tick_rate_stays_in_range() {
    let mut app = App::new();
    assert_eq!(app.tick_rate_ms, 1000);
    for _ in 0..100 {
        app.speed_up_refresh();
    }
    assert_eq!(app.tick_rate_ms, 200);
    for _ in 0..100 {
        app.slow_down_refresh();
    }
    assert_eq!(app.tick_rate_ms, 5000);
}

#[test]
fn status_labels() {
    let mut app = App::new();
    app.handle_key(Key::Char('e'));
    assert_eq!(app.status_msg, "per-core off");
    app.handle_key(Key::Char('w'));
    assert_eq!(app.status_msg, "tree on");
    app.handle_key(Key::Char('l'));
    assert_eq!(app.status_msg, "lazy off");
    assert_eq!(filter_mode_label(&app), "filter off");
    app.handle_key(Key::Char('/'));
    assert_eq!(filter_mode_label(&app), "f _◄");
    app.handle_key(Key::Char('a'));
    assert_eq!(filter_mode_label(&app), "f a◄");
    assert_eq!(sent_signal_message(Signal::Term, 50), "Sent SIGTERM to pid 50");
}

#[test]
fn event_loop_helpers() {
    assert_eq!(wait_timeout_ms(true, 100, 16), 16);
    assert_eq!(wait_timeout_ms(true, 10, 16), 10);
    assert_eq!(wait_timeout_ms(false, 100, 16), 100);
    assert_eq!(scroll_step(30), 10);
    assert_eq!(scroll_step(2), 1);
    assert_eq!(visible_range(5, 30, 10), (5, 15));
    assert_eq!(visible_range(28, 30, 10), (28, 30));
    assert_eq!(visible_range(50, 30, 10), (30, 30));
    let r = centered_rect(50, 8, Rect { x: 0, y: 0, width: 100, height: 40 });
    assert_eq!(r, Rect { x: 25, y: 16, width: 50, height: 8 });
}

#[test]
fn process_refresh_cadence() {
    let mut app = App::new();
    // nothing read yet: refresh at once
    assert!(app.should_refresh_processes(0));
    let procs = vec![raw(1, None, "a", 0, 0)];
    app.update(snapshot(1000, None, Some(procs)));
    // lazy cadence: not due again right away
    assert!(!app.should_refresh_processes(1100));
    assert!(app.should_refresh_processes(2600));
    // fresh input defers the refresh
    app.note_input(2500);
    assert!(!app.should_refresh_processes(2600));
    // but never beyond the staleness ceiling
    assert!(app.should_refresh_processes(6100));
}

#[test]
fn confirm_without_selection_reports_status() {
    let mut app = App::new();
    // no rows at all: the modal never opens, the status line explains
    let (_, request) = app.handle_key(Key::Char('t'));
    assert!(request.is_none());
    assert!(app.modal.is_none());
    assert_eq!(app.status_msg, "No process selected");
}
