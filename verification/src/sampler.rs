//! The metrics sampler: derives percentages and rates from successive
//! counter snapshots.
//!
//! The sampler owns the previous snapshot of every delta-based metric.
//! Each derived figure is clamped into its scale: a counter that runs
//! backwards (reset or wraparound) contributes a delta of zero, and the
//! very first sample after construction reports zero because there is
//! no baseline to compare against.

use vstd::prelude::*;

use crate::counters::{CpuTimes, GpuSnapshot, NetCounters};
use crate::percent::{counter_rate, rate_spec};

verus! {

/// CPU utilization in centi-percent derived from two total/idle tick
/// pairs.  Deltas are floored at zero, the idle delta is capped by the
/// total delta, and a zero total delta yields zero.
pub open spec fn used_centi_spec(pt: int, pi: int, ct: int, ci: int) -> int {
    let td = if ct >= pt {
        ct - pt
    } else {
        0
    };
    let id0 = if ci >= pi {
        ci - pi
    } else {
        0
    };
    let id = if id0 > td {
        td
    } else {
        id0
    };
    if td == 0 {
        0
    } else {
        (td - id) * 10000 / td
    }
}

/// First cumulative tick count recorded for `pid`, if any.
pub open spec fn lookup_ticks(m: Seq<(u32, u64)>, pid: u32) -> Option<u64>
    decreases m.len(),
{
    if m.len() == 0 {
        Option::None
    } else if m[0].0 == pid {
        Option::Some(m[0].1)
    } else {
        lookup_ticks(m.drop_first(), pid)
    }
}

/// CPU share of one process over the same global tick delta, in
/// centi-percent, clamped to `0..=10000*cores`; zero without a
/// baseline for that pid or without a global delta.
pub open spec fn proc_centi_spec(
    prev: Option<u64>,
    cur: int,
    total_delta: int,
    cores: int,
) -> int {
    match prev {
        Option::None => 0,
        Option::Some(p) => {
            let d = if cur >= p {
                cur - p
            } else {
                0
            };
            if total_delta <= 0 {
                0
            } else if d * 10000 / total_delta > 10000 * cores {
                10000 * cores
            } else {
                d * 10000 / total_delta
            }
        },
    }
}

/// Cumulative counters of the previous sample, plus the last GPU
/// snapshot that any probe produced.
pub struct MetricsSampler {
    /// Aggregate CPU ticks of the previous sample.
    pub prev_cpu: Option<CpuTimes>,
    /// Per-process cumulative ticks of the previous sample; replaced
    /// wholesale every sample so departed pids never linger.
    pub prev_proc: Vec<(u32, u64)>,
    /// Per-interface cumulative byte counters of the previous sample.
    pub prev_net: Vec<NetCounters>,
    /// Most recent successful GPU probe, kept across failed probes.
    pub last_gpu: Option<GpuSnapshot>,
}

/// First previously recorded (rx, tx) counters of the interface called
/// `name`, if any.
pub open spec fn lookup_net(m: Seq<NetCounters>, name: Seq<char>) -> Option<(u64, u64)>
    decreases m.len(),
{
    if m.len() == 0 {
        Option::None
    } else if m[0].name@ == name {
        Option::Some((m[0].total_rx, m[0].total_tx))
    } else {
        lookup_net(m.drop_first(), name)
    }
}

impl MetricsSampler {
    /// Any retained CPU snapshot is well formed.
    pub open spec fn wf(self) -> bool {
        match self.prev_cpu {
            Option::Some(p) => p.wf(),
            Option::None => true,
        }
    }

    /// A sampler with no baseline: every first figure will be zero.
    pub fn new() -> (s: MetricsSampler)
        ensures
            s.prev_cpu is None,
            s.prev_proc@.len() == 0,
            s.prev_net@.len() == 0,
            s.last_gpu is None,
            s.wf(),
    {
        MetricsSampler {
            prev_cpu: Option::None,
            prev_proc: Vec::new(),
            prev_net: Vec::new(),
            last_gpu: Option::None,
        }
    }

    /// Consumes one aggregate CPU snapshot and returns the utilization
    /// in centi-percent together with the global tick delta that all
    /// per-process shares of this sample must be divided by.  The
    /// first call after construction returns `(0, 0)`.
    pub fn cpu_sample(&mut self, cur: CpuTimes) -> (r: (u32, u64))
        requires
            cur.wf(),
            old(self).wf(),
        ensures
            final(self).wf(),
            final(self).prev_cpu == Option::Some(cur),
            final(self).prev_proc == old(self).prev_proc,
            final(self).prev_net == old(self).prev_net,
            final(self).last_gpu == old(self).last_gpu,
            old(self).prev_cpu is None ==> r.0 == 0 && r.1 == 0,
            match old(self).prev_cpu {
                Option::None => r.0 == 0 && r.1 == 0,
                Option::Some(p) => {
                    &&& r.0 == used_centi_spec(
                        p.total_spec(),
                        p.idle_total_spec(),
                        cur.total_spec(),
                        cur.idle_total_spec(),
                    )
                    &&& r.1 == (if cur.total_spec() >= p.total_spec() {
                        cur.total_spec() - p.total_spec()
                    } else {
                        0
                    })
                },
            },
            r.0 <= 10000,
            match old(self).prev_cpu {
                Option::None => true,
                Option::Some(p) => cur.total_spec() < p.total_spec() ==> r.0 == 0 && r.1 == 0,
            },
    {
        let r: (u32, u64) = match &self.prev_cpu {
            Option::None => (0, 0),
            Option::Some(p) => {
                let pt = p.total();
                let pi = p.idle_total();
                let ct = cur.total();
                let ci = cur.idle_total();
                let td: u64 = if ct >= pt {
                    ct - pt
                } else {
                    0
                };
                let id0: u64 = if ci >= pi {
                    ci - pi
                } else {
                    0
                };
                let id: u64 = if id0 > td {
                    td
                } else {
                    id0
                };
                if td == 0 {
                    (0, 0)
                } else {
                    let wide: u128 = ((td - id) as u128) * 10000 / (td as u128);
                    proof {
                        assert((td - id) * 10000 <= td * 10000) by (nonlinear_arith)
                            requires
                                0 <= id <= td,
                        ;
                        assert((td - id) * 10000 / (td as int) <= 10000) by (nonlinear_arith)
                            requires
                                0 < td,
                                (td - id) * 10000 <= td * 10000,
                        ;
                    }
                    ((wide as u32), td)
                }
            },
        };
        self.prev_cpu = Option::Some(cur);
        r
    }

    /// CPU share of one process against the previous sample, in
    /// centi-percent; see [`proc_centi_spec`].
    pub fn proc_cpu_centi(&self, pid: u32, cur_ticks: u64, total_delta: u64, cores: u32) -> (r:
        u32)
        requires
            1 <= cores <= 4096,
        ensures
            r == proc_centi_spec(
                lookup_ticks(self.prev_proc@, pid),
                cur_ticks as int,
                total_delta as int,
                cores as int,
            ),
            r <= 10000 * cores,
    {
        let cap: u64 = 10000 * (cores as u64);
        let mut i: usize = 0;
        let n = self.prev_proc.len();
        let mut prev: Option<u64> = Option::None;
        proof {
            assert(self.prev_proc@.subrange(0, n as int) =~= self.prev_proc@);
        }
        while i < n && prev.is_none()
            invariant
                i <= n,
                n == self.prev_proc@.len(),
                lookup_ticks(self.prev_proc@, pid) == (match prev {
                    Option::None => lookup_ticks(
                        self.prev_proc@.subrange(i as int, n as int),
                        pid,
                    ),
                    Option::Some(v) => Option::Some(v),
                }),
            decreases n - i, (if prev is None { 1int } else { 0int }),
        {
            let e = self.prev_proc[i];
            proof {
                let suf = self.prev_proc@.subrange(i as int, n as int);
                assert(suf[0] == self.prev_proc@[i as int]);
                assert(suf.drop_first() =~= self.prev_proc@.subrange(i + 1, n as int));
            }
            if e.0 == pid {
                prev = Option::Some(e.1);
            } else {
                i = i + 1;
            }
        }
        proof {
            if prev is None {
                assert(self.prev_proc@.subrange(n as int, n as int) =~= Seq::<(u32, u64)>::empty());
            }
        }
        match prev {
            Option::None => 0,
            Option::Some(p) => {
                let d: u64 = if cur_ticks >= p {
                    cur_ticks - p
                } else {
                    0
                };
                if total_delta == 0 {
                    0
                } else {
                    let wide: u128 = (d as u128) * 10000 / (total_delta as u128);
                    if wide > cap as u128 {
                        proof {
                            assert(10000 * (cores as int) <= 10000 * 4096) by (nonlinear_arith)
                                requires
                                    cores <= 4096,
                            ;
                        }
                        cap as u32
                    } else {
                        proof {
                            assert(10000 * (cores as int) <= 10000 * 4096) by (nonlinear_arith)
                                requires
                                    cores <= 4096,
                            ;
                        }
                        wide as u32
                    }
                }
            },
        }
    }

    /// Replaces the per-process tick baseline with the current one;
    /// pids that disappeared are forgotten with it.
    pub fn replace_proc_ticks(&mut self, cur: Vec<(u32, u64)>)
        ensures
            final(self).prev_proc == cur,
            final(self).prev_cpu == old(self).prev_cpu,
            final(self).prev_net == old(self).prev_net,
            final(self).last_gpu == old(self).last_gpu,
    {
        self.prev_proc = cur;
    }

    /// Receive and transmit rates of the interface called `name`,
    /// derived from its previous cumulative counters over
    /// `elapsed_ms`; zero without a baseline for that name.
    pub fn net_rates(&self, name: &String, cur_rx: u64, cur_tx: u64, elapsed_ms: u64) -> (r: (
        u64,
        u64,
    ))
        ensures
            match lookup_net(self.prev_net@, name@) {
                Option::None => r.0 == 0 && r.1 == 0,
                Option::Some(p) => r.0 == rate_spec(p.0 as int, cur_rx as int, elapsed_ms as int)
                    && r.1 == rate_spec(p.1 as int, cur_tx as int, elapsed_ms as int),
            },
    {
        let mut i: usize = 0;
        let n = self.prev_net.len();
        let mut prev: Option<(u64, u64)> = Option::None;
        proof {
            assert(self.prev_net@.subrange(0, n as int) =~= self.prev_net@);
        }
        while i < n && prev.is_none()
            invariant
                i <= n,
                n == self.prev_net@.len(),
                lookup_net(self.prev_net@, name@) == (match prev {
                    Option::None => lookup_net(
                        self.prev_net@.subrange(i as int, n as int),
                        name@,
                    ),
                    Option::Some(v) => Option::Some(v),
                }),
            decreases n - i, (if prev is None { 1int } else { 0int }),
        {
            proof {
                let suf = self.prev_net@.subrange(i as int, n as int);
                assert(suf[0] == self.prev_net@[i as int]);
                assert(suf.drop_first() =~= self.prev_net@.subrange(i + 1, n as int));
            }
            if self.prev_net[i].name.eq(name) {
                prev = Option::Some((self.prev_net[i].total_rx, self.prev_net[i].total_tx));
            } else {
                i = i + 1;
            }
        }
        proof {
            if prev is None {
                assert(self.prev_net@.subrange(n as int, n as int) =~= Seq::<NetCounters>::empty());
            }
        }
        match prev {
            Option::None => (0, 0),
            Option::Some(p) => (
                counter_rate(p.0, cur_rx, elapsed_ms),
                counter_rate(p.1, cur_tx, elapsed_ms),
            ),
        }
    }

    /// Replaces the per-interface counter baseline.
    pub fn replace_net(&mut self, cur: Vec<NetCounters>)
        ensures
            final(self).prev_net == cur,
            final(self).prev_cpu == old(self).prev_cpu,
            final(self).prev_proc == old(self).prev_proc,
            final(self).last_gpu == old(self).last_gpu,
    {
        self.prev_net = cur;
    }

    /// Records a GPU probe outcome: a success replaces the cached
    /// snapshot, a failure keeps the previous one.
    pub fn note_gpu(&mut self, probe: Option<GpuSnapshot>)
        ensures
            match probe {
                Option::Some(g) => final(self).last_gpu == Option::Some(g),
                Option::None => final(self).last_gpu == old(self).last_gpu,
            },
            final(self).prev_cpu == old(self).prev_cpu,
            final(self).prev_proc == old(self).prev_proc,
            final(self).prev_net == old(self).prev_net,
    {
        match probe {
            Option::Some(g) => {
                self.last_gpu = Option::Some(g);
            },
            Option::None => {},
        }
    }
}

/// Whether the costly external GPU probe is due: it runs only once
/// every `period` samples while cheap probes run every sample.
pub fn external_probe_due(sample_index: u64, period: u64) -> (r: bool)
    ensures
        r == (sample_index % (if period == 0 {
            1
        } else {
            period
        }) == 0),
{
    let p: u64 = if period == 0 {
        1
    } else {
        period
    };
    sample_index % p == 0
}

} // verus!
