use ttop::counters::{CpuTimes, GpuSnapshot, NetCounters};
use ttop::sampler::{external_probe_due, MetricsSampler};

fn times(user: u64, idle: u64) -> CpuTimes {
    CpuTimes {
        user,
        nice: 0,
        system: 0,
        idle,
        iowait: 0,
        irq: 0,
        softirq: 0,
        steal: 0,
    }
}

#[test]
fn first_sample_reports_zero() {
    let mut s = MetricsSampler::new();
    let (used, delta) = s.cpu_sample(times(500, 500));
    assert_eq!(used, 0);
    assert_eq!(delta, 0);
}

#[test]
fn fifty_percent_scenario() {
    // previous total=1000 idle=800; current total=1100 idle=850:
    // total delta 100, idle delta 50, so 50% is used.
    let mut s = MetricsSampler::new();
    s.cpu_sample(times(200, 800));
    let (used, delta) = s.cpu_sample(times(250, 850));
    assert_eq!(delta, 100);
    assert_eq!(used, 5000);
    assert_eq!(used / 100, 50);
}

#[test]
fn counter_reset_yields_zero() {
    let mut s = MetricsSampler::new();
    s.cpu_sample(times(1000, 1000));
    let (used, delta) = s.cpu_sample(times(10, 10));
    assert_eq!(used, 0);
    assert_eq!(delta, 0);
}

#[test]
fn usage_stays_in_scale() {
    let mut s = MetricsSampler::new();
    s.cpu_sample(times(0, 100));
    // idle counter ran backwards: the idle delta is floored, the
    // share still ends within the scale
    let (used, _) = s.cpu_sample(times(50, 40));
    assert!(used <= 10000);
}

#[test]
fn process_share_needs_baseline() {
    let mut s = MetricsSampler::new();
    assert_eq!(s.proc_cpu_centi(42, 500, 100, 4), 0);
    s.replace_proc_ticks(vec![(42, 100)]);
    // 50 of 100 global ticks on 4 cores: 50% raw
    assert_eq!(s.proc_cpu_centi(42, 150, 100, 4), 5000);
    // a share beyond the multi-core scale clamps at 100% per core
    assert_eq!(s.proc_cpu_centi(42, u64::MAX, 1, 4), 40000);
    // unknown pid has no baseline
    assert_eq!(s.proc_cpu_centi(7, 150, 100, 4), 0);
}

#[test]
fn stale_pids_are_dropped_wholesale() {
    let mut s = MetricsSampler::new();
    s.replace_proc_ticks(vec![(1, 10), (2, 20)]);
    s.replace_proc_ticks(vec![(2, 30)]);
    // pid 1 vanished with the replacement, so it reads as fresh
    assert_eq!(s.proc_cpu_centi(1, 100, 100, 1), 0);
    assert_eq!(s.proc_cpu_centi(2, 80, 100, 1), 5000);
}

#[test]
fn net_rates_against_previous_counters() {
    let mut s = MetricsSampler::new();
    let name = String::from("eth0");
    let (rx, tx) = s.net_rates(&name, 1000, 2000, 1000);
    assert_eq!((rx, tx), (0, 0));
    s.replace_net(vec![NetCounters { name: String::from("eth0"), total_rx: 1000, total_tx: 2000 }]);
    let (rx, tx) = s.net_rates(&name, 3000, 2500, 1000);
    assert_eq!(rx, 2000);
    assert_eq!(tx, 500);
    // a reset counter reads as zero, never negative
    let (rx, _) = s.net_rates(&name, 500, 2500, 1000);
    assert_eq!(rx, 0);
}

#[test]
fn gpu_cache_keeps_last_success() {
    let mut s = MetricsSampler::new();
    assert!(s.last_gpu.is_none());
    s.note_gpu(Some(GpuSnapshot {
        name: String::from("gpu0"),
        usage_centi: Some(2500),
        memory_used: Some(1024),
        memory_total: Some(4096),
        temperature: Some(60),
    }));
    s.note_gpu(None);
    let g = s.last_gpu.as_ref().unwrap();
    assert_eq!(g.usage_centi, Some(2500));
}

#[test]
fn external_probe_cadence() {
    assert!(external_probe_due(0, 10));
    assert!(!external_probe_due(5, 10));
    assert!(external_probe_due(10, 10));
    // a zero period degenerates to probing every sample
    assert!(external_probe_due(3, 0));
}
