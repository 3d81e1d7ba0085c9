use ttop::row::{matches_filter, sort_name, ProcessRow, SortMode};
use ttop::sort::sort_rows;
use ttop::text::lower_chars;
use ttop::tree::tree_order_rows;

fn row(pid: u32, parent: Option<u32>, name: &str, cpu_raw: u32, mem: u32) -> ProcessRow {
    ProcessRow {
        pid,
        parent,
        name: String::from(name),
        name_lc: lower_chars(name),
        command: String::from(name),
        user: String::from("-"),
        cpu_raw_centi: cpu_raw,
        cpu_core_centi: cpu_raw,
        mem_centi: mem,
        mem_bytes: mem as u64,
        threads: 1,
        tree_prefix: String::new(),
    }
}

#[test]
fn sort_mode_cycle() {
    assert_eq!(SortMode::Cpu.next(), SortMode::Mem);
    assert_eq!(SortMode::Mem.next(), SortMode::Pid);
    assert_eq!(SortMode::Pid.next(), SortMode::Name);
    assert_eq!(SortMode::Name.next(), SortMode::Cpu);
    assert_eq!(SortMode::Cpu.prev(), SortMode::Name);
    assert_eq!(SortMode::Name.prev(), SortMode::Pid);
    assert_eq!(sort_name(SortMode::Cpu), "cpu");
    assert_eq!(sort_name(SortMode::Name), "name");
}

#[test]
fn filter_matches_name_and_pid() {
    // "ssh" matches a row named sshd, but not one named bash
    let sshd = row(10, None, "sshd", 0, 0);
    let bash = row(11, None, "bash", 0, 0);
    let q: Vec<char> = "ssh".chars().collect();
    let ql: Vec<char> = "ssh".chars().collect();
    assert!(matches_filter(&sshd, &q, &ql));
    assert!(!matches_filter(&bash, &q, &ql));
    // case-insensitive against the name
    let upper = row(12, None, "SSHD", 0, 0);
    assert!(matches_filter(&upper, &q, &ql));
    // "123" matches pid 1234 as a substring but not pid 42
    let p1234 = row(1234, None, "one", 0, 0);
    let p42 = row(42, None, "two", 0, 0);
    let q2: Vec<char> = "123".chars().collect();
    assert!(matches_filter(&p1234, &q2, &q2.clone()));
    assert!(!matches_filter(&p42, &q2, &q2.clone()));
    // the empty query keeps everything
    let empty: Vec<char> = Vec::new();
    assert!(matches_filter(&p42, &empty, &empty.clone()));
}

#[test]
fn cpu_sort_descending_with_tie_breaks() {
    let rows = vec![
        row(3, None, "c", 100, 5),
        row(1, None, "a", 900, 1),
        row(2, None, "b", 100, 9),
    ];
    let sorted = sort_rows(rows, SortMode::Cpu, false);
    let pids: Vec<u32> = sorted.iter().map(|r| r.pid).collect();
    // highest cpu first; equal cpu broken by memory descending
    assert_eq!(pids, vec![1, 2, 3]);
}

#[test]
fn name_sort_is_lexicographic() {
    let rows = vec![
        row(1, None, "zsh", 0, 0),
        row(2, None, "bash", 0, 0),
        row(3, None, "bash", 0, 0),
    ];
    let sorted = sort_rows(rows, SortMode::Name, false);
    let pids: Vec<u32> = sorted.iter().map(|r| r.pid).collect();
    // equal names fall back to pid order
    assert_eq!(pids, vec![2, 3, 1]);
}

#[test]
fn pid_sort_ascending() {
    let rows = vec![row(30, None, "c", 0, 0), row(10, None, "a", 0, 0), row(20, None, "b", 0, 0)];
    let sorted = sort_rows(rows, SortMode::Pid, false);
    let pids: Vec<u32> = sorted.iter().map(|r| r.pid).collect();
    assert_eq!(pids, vec![10, 20, 30]);
}

#[test]
fn three_rows_tree_scenario() {
    // rows {1, no parent}, {2, parent 1}, {3, parent 1} in tree mode:
    // order 1, 2, 3; 2 and 3 carry child connectors, 3 as last child.
    let rows = vec![
        row(3, Some(1), "three", 0, 0),
        row(1, None, "one", 0, 0),
        row(2, Some(1), "two", 0, 0),
    ];
    let ordered = tree_order_rows(sort_rows(rows, SortMode::Pid, false));
    let pids: Vec<u32> = ordered.iter().map(|r| r.pid).collect();
    assert_eq!(pids, vec![1, 2, 3]);
    assert_eq!(ordered[0].tree_prefix, "");
    assert_eq!(ordered[1].tree_prefix, "├─ ");
    assert_eq!(ordered[2].tree_prefix, "└─ ");
}

#[test]
fn nested_tree_prefixes() {
    let rows = vec![
        row(1, None, "root", 0, 0),
        row(2, Some(1), "mid", 0, 0),
        row(3, Some(2), "leaf", 0, 0),
    ];
    let ordered = tree_order_rows(sort_rows(rows, SortMode::Pid, false));
    let pids: Vec<u32> = ordered.iter().map(|r| r.pid).collect();
    assert_eq!(pids, vec![1, 2, 3]);
    assert_eq!(ordered[1].tree_prefix, "└─ ");
    assert_eq!(ordered[2].tree_prefix, "   └─ ");
}

#[test]
fn tree_keeps_every_row_of_a_parent_cycle() {
    // two rows naming each other as parent are unreachable from any
    // root; the completing pass still emits them exactly once
    let rows = vec![
        row(1, None, "root", 0, 0),
        row(5, Some(6), "five", 0, 0),
        row(6, Some(5), "six", 0, 0),
    ];
    let ordered = tree_order_rows(sort_rows(rows, SortMode::Pid, false));
    let mut pids: Vec<u32> = ordered.iter().map(|r| r.pid).collect();
    assert_eq!(pids.len(), 3);
    pids.sort();
    assert_eq!(pids, vec![1, 5, 6]);
}

#[test]
fn tree_orphan_parent_is_a_root() {
    // a parent pid absent from the set makes the row a root
    let rows = vec![row(4, Some(999), "orphan", 0, 0), row(2, None, "plain", 0, 0)];
    let ordered = tree_order_rows(sort_rows(rows, SortMode::Pid, false));
    let pids: Vec<u32> = ordered.iter().map(|r| r.pid).collect();
    assert_eq!(pids, vec![2, 4]);
}
