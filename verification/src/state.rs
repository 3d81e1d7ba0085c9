//! The engine state: everything the renderer projects and every
//! transition the event loop can request.
//!
//! The selection invariant ([`App::inv`]) holds after construction
//! and across every operation: with a non-empty visible row list the
//! selected index and the scroll offset address rows inside it, and
//! with an empty list both are zero.

use vstd::prelude::*;

use crate::counters::{CpuTimes, GpuSnapshot, MemorySnapshot, NetCounters};
use crate::input::{InputMode, Key, ModalState, Signal, SIGNAL_COUNT};
use crate::percent::{pct, pct_spec, rate_spec};
use crate::row::{models, ProcessRow, RowModel, SortMode};
use crate::sampler::{lookup_net, lookup_ticks, proc_centi_spec, used_centi_spec, MetricsSampler};
use crate::table::{find_pid, idx_of_pid_m, rebuild_rows, rebuild_spec};
use crate::text::{lower_chars, lower_seq, trim_spec, trim_text};
use crate::tree::distinct_pids_m;

verus! {

/// Samples kept for the CPU history graph.
pub const MAX_CPU_HISTORY: usize = 240;

/// Samples kept for each network history graph.
pub const MAX_NET_HISTORY: usize = 180;

/// Fastest allowed sampling interval, in milliseconds.
pub const MIN_TICK_MS: u64 = 200;

/// Slowest allowed sampling interval, in milliseconds.
pub const MAX_TICK_MS: u64 = 5000;

/// Step of one sampling-interval adjustment, in milliseconds.
pub const TICK_STEP_MS: u64 = 100;

/// Render frame budget, in milliseconds.
pub const FRAME_BUDGET_MS: u64 = 16;

/// Most input events drained in one cycle.
pub const MAX_INPUT_EVENTS_PER_CYCLE: usize = 64;

/// Largest magnitude the pending coalesced scroll can accumulate.
pub const PENDING_SCROLL_CAP: i64 = 100000;

/// The whole engine state.
pub struct App {
    /// Baselines for every delta-derived metric.
    pub sampler: MetricsSampler,
    /// Core count the per-process figures were scaled with.
    pub cpu_count: u32,
    /// Global CPU utilization, centi-percent.
    pub cpu_usage_centi: u32,
    /// Per-core utilization, centi-percent each.
    pub core_usages_centi: Vec<u32>,
    /// Recent global CPU samples, whole percent, oldest first.
    pub cpu_history: Vec<u64>,
    pub avg_freq_mhz: u64,
    pub uptime_secs: u64,
    pub mem: MemorySnapshot,
    pub net_iface: String,
    pub net_rx_rate: u64,
    pub net_tx_rate: u64,
    pub net_rx_top: u64,
    pub net_tx_top: u64,
    pub net_rx_total: u64,
    pub net_tx_total: u64,
    pub net_rx_history: Vec<u64>,
    pub net_tx_history: Vec<u64>,
    /// Every process of the last refresh, unfiltered, distinct pids.
    pub all_process_rows: Vec<ProcessRow>,
    /// The visible list: filtered, ordered, possibly reversed.
    pub process_rows: Vec<ProcessRow>,
    pub selected_process: usize,
    pub process_scroll: usize,
    pub sort_mode: SortMode,
    pub sort_reverse: bool,
    pub per_core: bool,
    pub tree_mode: bool,
    pub proc_lazy: bool,
    pub filter_query: String,
    pub input_mode: InputMode,
    pub modal: Option<ModalState>,
    pub status_msg: String,
    pub dirty: bool,
    /// Rows the table showed at the last render; the page size.
    pub last_table_visible_rows: usize,
    /// Sampling interval, milliseconds.
    pub tick_rate_ms: u64,
    /// Coalesced scroll input not yet applied.
    pub pending_scroll: i64,
    pub last_sample_ms: u64,
    pub last_process_refresh_ms: u64,
    pub last_input_ms: u64,
}

/// An index clamped into a list of `len` rows (0 when empty).
pub open spec fn clamp_sel_spec(sel: int, len: int) -> int {
    if len == 0 {
        0
    } else if sel < 0 {
        0
    } else if sel >= len {
        len - 1
    } else {
        sel
    }
}

/// One process as the counter reader delivers it: raw cumulative
/// ticks, bytes and identifiers, before any rate is derived.
pub struct RawProcess {
    pub pid: u32,
    pub parent: Option<u32>,
    pub name: String,
    pub command: String,
    pub user: String,
    pub mem_bytes: u64,
    pub threads: u64,
    /// Cumulative CPU ticks of this process since it started.
    pub cpu_ticks: u64,
}

/// Everything one sampling cycle reads from the OS, as plain values.
/// Each member is independently optional or empty where its read
/// failed; a failure degrades only that metric.
pub struct SystemSnapshot {
    pub now_ms: u64,
    /// Aggregate CPU ticks; `None` when the counter was unreadable.
    pub cpu: Option<CpuTimes>,
    /// Per-core utilization, centi-percent, one entry per core.
    pub core_usages_centi: Vec<u32>,
    pub avg_freq_mhz: u64,
    pub uptime_secs: u64,
    pub mem: MemorySnapshot,
    /// Cumulative counters of every interface.
    pub net: Vec<NetCounters>,
    /// The process list, when this cycle refreshed it.
    pub procs: Option<Vec<RawProcess>>,
    /// What the GPU probe returned, when one ran and succeeded.
    pub gpu_probe: Option<GpuSnapshot>,
}

/// The row derived from one raw process: name trimmed for display,
/// lowercase cached, command falling back to the name, and the CPU
/// share computed against the previous tick baseline over the global
/// tick delta.
pub open spec fn row_from_raw_m(
    raw: RawProcess,
    prev: Option<u64>,
    total_delta: int,
    cores: int,
    total_mem: int,
) -> RowModel {
    let raw_centi = proc_centi_spec(prev, raw.cpu_ticks as int, total_delta, cores);
    RowModel {
        pid: raw.pid,
        parent: raw.parent,
        name: trim_spec(raw.name@, 18),
        name_lc: lower_seq(trim_spec(raw.name@, 18)),
        command: if raw.command@.len() == 0 {
            trim_spec(raw.name@, 18)
        } else {
            trim_spec(raw.command@, 54)
        },
        user: raw.user@,
        cpu_raw_centi: raw_centi as u32,
        cpu_core_centi: (if raw_centi / cores > 10000 {
            10000int
        } else {
            raw_centi / cores
        }) as u32,
        mem_centi: pct_spec(raw.mem_bytes as int, total_mem) as u32,
        mem_bytes: raw.mem_bytes,
        threads: raw.threads,
        tree_prefix: Seq::empty(),
    }
}

/// Whether an earlier raw entry already carries this pid.
pub open spec fn has_raw_pid(s: Seq<RawProcess>, pid: u32) -> bool {
    exists|k: int| 0 <= k < s.len() && (#[trigger] s[k]).pid == pid
}

/// The rows derived from a raw process list, keeping only the first
/// entry of any repeated pid.
pub open spec fn build_rows_m(
    raws: Seq<RawProcess>,
    prev: Seq<(u32, u64)>,
    total_delta: int,
    cores: int,
    total_mem: int,
) -> Seq<RowModel>
    decreases raws.len(),
{
    if raws.len() == 0 {
        Seq::empty()
    } else {
        let rest = build_rows_m(raws.drop_last(), prev, total_delta, cores, total_mem);
        if has_raw_pid(raws.drop_last(), raws.last().pid) {
            rest
        } else {
            rest + seq![
                row_from_raw_m(
                    raws.last(),
                    lookup_ticks(prev, raws.last().pid),
                    total_delta,
                    cores,
                    total_mem,
                ),
            ]
        }
    }
}

/// The interface name begins with `lo` (loopback, excluded from the
/// traffic pick).
pub open spec fn starts_lo(s: Seq<char>) -> bool {
    s.len() >= 2 && s[0] == 'l' && s[1] == 'o'
}

/// First non-loopback interface with the strictly largest cumulative
/// traffic among entries at or past `j`, starting from candidate
/// `cur`.
pub open spec fn best_iface(net: Seq<NetCounters>, j: int, cur: Option<int>) -> Option<int>
    decreases net.len() - j,
{
    if j < 0 || j >= net.len() {
        cur
    } else {
        let better = !starts_lo(net[j].name@) && (match cur {
            Option::None => true,
            Option::Some(c) => net[j].total_rx + net[j].total_tx > net[c].total_rx
                + net[c].total_tx,
        });
        best_iface(
            net,
            j + 1,
            if better {
                Option::Some(j)
            } else {
                cur
            },
        )
    }
}

/// The interface whose rates the engine shows: the busiest
/// non-loopback one, else the first one, else none.
pub open spec fn pick_iface(net: Seq<NetCounters>) -> Option<int> {
    match best_iface(net, 0, Option::None) {
        Option::Some(i) => Option::Some(i),
        Option::None => if net.len() > 0 {
            Option::Some(0)
        } else {
            Option::None
        },
    }
}

/// What one rebuild does to a state `pre`: the visible rows become
/// [`rebuild_spec`] of the full set and the settings; the previously
/// selected pid is looked up again in the new list, falling back to
/// the clamped previous index when it is gone; the scroll offset is
/// clamped; everything else is untouched and a redraw is owed.
pub open spec fn rebuild_rel(pre: App, post: App) -> bool {
    let new_m = rebuild_spec(
        models(pre.all_process_rows@),
        pre.filter_query@,
        pre.sort_mode,
        pre.per_core,
        pre.sort_reverse,
        pre.tree_mode,
    );
    let newlen = new_m.len() as int;
    let prev_pid: Option<u32> = if pre.selected_process < pre.process_rows@.len() {
        Option::Some(pre.process_rows@[pre.selected_process as int]@.pid)
    } else {
        Option::None
    };
    let sel1 = clamp_sel_spec(pre.selected_process as int, newlen);
    let sel2 = match prev_pid {
        Option::Some(p) => match idx_of_pid_m(new_m, p) {
            Option::Some(j) => j,
            Option::None => sel1,
        },
        Option::None => sel1,
    };
    let scr = if newlen == 0 {
        0int
    } else if pre.process_scroll >= newlen {
        sel1
    } else {
        pre.process_scroll as int
    };
    &&& models(post.process_rows@) == new_m
    &&& post.selected_process == sel2
    &&& post.process_scroll == scr
    &&& post == (App {
        process_rows: post.process_rows,
        selected_process: post.selected_process,
        process_scroll: post.process_scroll,
        dirty: true,
        ..pre
    })
}

/// What opening a confirmation does: with a selected row the modal
/// carries its pid, its name and the chosen signal; without one only
/// the status line reports the lack of a selection.
pub open spec fn confirm_opened(pre: App, post: App, signal: Signal) -> bool {
    if pre.selected_process < pre.process_rows@.len() {
        &&& (match post.modal {
            Option::Some(ModalState::Confirm { pid, name, signal: s }) => {
                &&& pid == pre.process_rows@[pre.selected_process as int]@.pid
                &&& name@ == pre.process_rows@[pre.selected_process as int]@.name
                &&& s == signal
            },
            _ => false,
        })
        &&& post == (App { modal: post.modal, dirty: true, ..pre })
    } else {
        &&& post.status_msg@ == "No process selected"@
        &&& post == (App { status_msg: post.status_msg, dirty: true, ..pre })
    }
}

impl App {
    /// The selection invariant plus the range of every bounded field.
    pub open spec fn inv(self) -> bool {
        &&& if self.process_rows@.len() == 0 {
            self.selected_process == 0 && self.process_scroll == 0
        } else {
            self.selected_process < self.process_rows@.len() && self.process_scroll
                < self.process_rows@.len()
        }
        &&& 1 <= self.cpu_count <= 4096
        &&& self.cpu_usage_centi <= 10000
        &&& MIN_TICK_MS <= self.tick_rate_ms <= MAX_TICK_MS
        &&& self.last_table_visible_rows >= 1
        &&& -PENDING_SCROLL_CAP <= self.pending_scroll <= PENDING_SCROLL_CAP
        &&& self.cpu_history@.len() <= MAX_CPU_HISTORY
        &&& self.net_rx_history@.len() <= MAX_NET_HISTORY
        &&& self.net_tx_history@.len() <= MAX_NET_HISTORY
        &&& self.sampler.wf()
        &&& distinct_pids_m(models(self.all_process_rows@))
        &&& match self.modal {
            Option::Some(ModalState::SignalPicker { selected }) => selected < SIGNAL_COUNT,
            _ => true,
        }
    }

    /// A fresh engine: empty lists, default view settings, nothing
    /// sampled yet.
    pub fn new() -> (app: App)
        ensures
            app.inv(),
            app.process_rows@.len() == 0,
            app.all_process_rows@.len() == 0,
            app.selected_process == 0,
            app.process_scroll == 0,
            app.sort_mode == SortMode::Cpu,
            !app.sort_reverse,
            app.per_core,
            !app.tree_mode,
            app.proc_lazy,
            app.filter_query@.len() == 0,
            app.input_mode == InputMode::Normal,
            app.modal is None,
            app.dirty,
            app.tick_rate_ms == 1000,
            app.pending_scroll == 0,
            app.sampler.prev_cpu is None,
            app.cpu_usage_centi == 0,
    {
        proof {
            reveal_strlit("-");
        }
        App {
            sampler: MetricsSampler::new(),
            cpu_count: 1,
            cpu_usage_centi: 0,
            core_usages_centi: Vec::new(),
            cpu_history: Vec::new(),
            avg_freq_mhz: 0,
            uptime_secs: 0,
            mem: MemorySnapshot {
                used_bytes: 0,
                total_bytes: 0,
                swap_used_bytes: 0,
                swap_total_bytes: 0,
            },
            net_iface: "-".to_owned(),
            net_rx_rate: 0,
            net_tx_rate: 0,
            net_rx_top: 0,
            net_tx_top: 0,
            net_rx_total: 0,
            net_tx_total: 0,
            net_rx_history: Vec::new(),
            net_tx_history: Vec::new(),
            all_process_rows: Vec::new(),
            process_rows: Vec::new(),
            selected_process: 0,
            process_scroll: 0,
            sort_mode: SortMode::Cpu,
            sort_reverse: false,
            per_core: true,
            tree_mode: false,
            proc_lazy: true,
            filter_query: String::new(),
            input_mode: InputMode::Normal,
            modal: Option::None,
            status_msg: String::new(),
            dirty: true,
            last_table_visible_rows: 24,
            tick_rate_ms: 1000,
            pending_scroll: 0,
            last_sample_ms: 0,
            last_process_refresh_ms: 0,
            last_input_ms: 0,
        }
    }

    /// Number of visible rows.
    pub fn process_count(&self) -> (r: usize)
        ensures
            r == self.process_rows@.len(),
    {
        self.process_rows.len()
    }

    /// Pulls the selection and the scroll offset back inside the
    /// (possibly empty) row list.
    pub fn clamp_selection(&mut self)
        ensures
            *final(self) == (App {
                selected_process: clamp_sel_spec(
                    old(self).selected_process as int,
                    old(self).process_rows@.len() as int,
                ) as usize,
                process_scroll: (if old(self).process_rows@.len() == 0 {
                    0int
                } else if old(self).process_scroll >= old(self).process_rows@.len() {
                    clamp_sel_spec(
                        old(self).selected_process as int,
                        old(self).process_rows@.len() as int,
                    )
                } else {
                    old(self).process_scroll as int
                }) as usize,
                ..*old(self)
            }),
            final(self).process_rows@.len() == 0 || (final(self).selected_process < final(self).process_rows@.len()
                && final(self).process_scroll < final(self).process_rows@.len()),
    {
        let count = self.process_rows.len();
        if count == 0 {
            self.selected_process = 0;
            self.process_scroll = 0;
            return ;
        }
        if self.selected_process >= count {
            self.selected_process = count - 1;
        }
        if self.process_scroll >= count {
            self.process_scroll = self.selected_process;
        }
    }

    /// Moves the selection to the first row.
    pub fn jump_top(&mut self)
        requires
            old(self).inv(),
        ensures
            final(self).inv(),
            *final(self) == (App {
                selected_process: 0,
                dirty: old(self).selected_process != 0 || old(self).dirty,
                ..*old(self)
            }),
    {
        if self.selected_process != 0 {
            self.selected_process = 0;
            self.dirty = true;
        }
    }

    /// Moves the selection to the last row.
    pub fn jump_bottom(&mut self)
        requires
            old(self).inv(),
        ensures
            final(self).inv(),
            *final(self) == (App {
                selected_process: (if old(self).process_rows@.len() == 0 {
                    old(self).selected_process as int
                } else {
                    old(self).process_rows@.len() - 1
                }) as usize,
                dirty: (old(self).process_rows@.len() > 0 && old(self).selected_process != old(
                    self,
                ).process_rows@.len() - 1) || old(self).dirty,
                ..*old(self)
            }),
    {
        let count = self.process_rows.len();
        if count > 0 && self.selected_process != count - 1 {
            self.selected_process = count - 1;
            self.dirty = true;
        }
    }

    /// Adds a navigation step to the pending coalesced scroll, capped
    /// so a flood of input cannot overflow it.
    pub fn queue_scroll(&mut self, delta: i64)
        requires
            old(self).inv(),
        ensures
            final(self).inv(),
            *final(self) == (App {
                pending_scroll: (if old(self).pending_scroll + delta > PENDING_SCROLL_CAP {
                    PENDING_SCROLL_CAP as int
                } else if old(self).pending_scroll + delta < -PENDING_SCROLL_CAP {
                    -(PENDING_SCROLL_CAP as int)
                } else {
                    old(self).pending_scroll + delta
                }) as i64,
                dirty: true,
                ..*old(self)
            }),
    {
        let wide: i128 = (self.pending_scroll as i128) + (delta as i128);
        let next: i64 = if wide > PENDING_SCROLL_CAP as i128 {
            PENDING_SCROLL_CAP
        } else if wide < -(PENDING_SCROLL_CAP as i128) {
            -PENDING_SCROLL_CAP
        } else {
            wide as i64
        };
        self.pending_scroll = next;
        self.dirty = true;
    }

    /// Applies at most `max_step` rows of the pending scroll to the
    /// selection; the rest stays queued for later cycles, so a burst
    /// of input moves the selection by a bounded amount per cycle
    /// while every queued step is eventually honored.
    pub fn flush_pending_scroll(&mut self, max_step: usize)
        requires
            old(self).inv(),
            max_step <= 1000000,
        ensures
            final(self).inv(),
            old(self).pending_scroll == 0 || old(self).process_rows@.len() == 0 || max_step == 0
                ==> *final(self) == *old(self),
            old(self).pending_scroll != 0 && old(self).process_rows@.len() > 0 && max_step > 0
                ==> {
                let applied = if old(self).pending_scroll > 0 {
                    if old(self).pending_scroll > max_step {
                        max_step as int
                    } else {
                        old(self).pending_scroll as int
                    }
                } else {
                    if old(self).pending_scroll < -(max_step as int) {
                        -(max_step as int)
                    } else {
                        old(self).pending_scroll as int
                    }
                };
                let next = clamp_sel_spec(
                    old(self).selected_process + applied,
                    old(self).process_rows@.len() as int,
                );
                *final(self) == (App {
                    pending_scroll: (old(self).pending_scroll - applied) as i64,
                    selected_process: next as usize,
                    dirty: old(self).dirty || next != old(self).selected_process,
                    ..*old(self)
                })
            },
    {
        if self.pending_scroll == 0 || self.process_rows.len() == 0 || max_step == 0 {
            return ;
        }
        let step: i64 = max_step as i64;
        let applied: i64 = if self.pending_scroll > 0 {
            if self.pending_scroll > step {
                step
            } else {
                self.pending_scroll
            }
        } else {
            if self.pending_scroll < -step {
                -step
            } else {
                self.pending_scroll
            }
        };
        self.pending_scroll = self.pending_scroll - applied;
        let count = self.process_rows.len();
        let wide: i128 = (self.selected_process as i128) + (applied as i128);
        let next: usize = if wide <= 0 {
            0
        } else if wide >= count as i128 {
            count - 1
        } else {
            wide as usize
        };
        if next != self.selected_process {
            self.selected_process = next;
            self.dirty = true;
        }
    }

    /// Scrolls just enough that the selection is visible in a window
    /// of `visible_rows` rows: up to meet it, or down so it becomes
    /// the last visible row.  When the selection is already inside
    /// the window nothing changes, so alignment is idempotent.
    pub fn align_scroll_to_selection(&mut self, visible_rows: usize)
        requires
            old(self).inv(),
        ensures
            final(self).inv(),
            ({
                let page = if visible_rows == 0 {
                    1int
                } else {
                    visible_rows as int
                };
                *final(self) == (App {
                    process_scroll: (if old(self).selected_process < old(self).process_scroll {
                        old(self).selected_process as int
                    } else if old(self).selected_process >= old(self).process_scroll + page {
                        old(self).selected_process + 1 - page
                    } else {
                        old(self).process_scroll as int
                    }) as usize,
                    ..*old(self)
                })
            }),
            old(self).process_scroll <= old(self).selected_process < old(self).process_scroll + (
            if visible_rows == 0 {
                1int
            } else {
                visible_rows as int
            }) ==> *final(self) == *old(self),
    {
        let page: usize = if visible_rows == 0 {
            1
        } else {
            visible_rows
        };
        if self.selected_process < self.process_scroll {
            self.process_scroll = self.selected_process;
        } else if self.selected_process - self.process_scroll >= page {
            self.process_scroll = self.selected_process - page + 1;
        }
    }

    /// Shortens the sampling interval by one step, not below the
    /// floor.
    pub fn speed_up_refresh(&mut self)
        requires
            old(self).inv(),
        ensures
            final(self).inv(),
            ({
                let next = if old(self).tick_rate_ms - TICK_STEP_MS > MIN_TICK_MS {
                    old(self).tick_rate_ms - TICK_STEP_MS
                } else {
                    MIN_TICK_MS as int
                };
                *final(self) == (App {
                    tick_rate_ms: next as u64,
                    dirty: old(self).dirty || next != old(self).tick_rate_ms,
                    ..*old(self)
                })
            }),
    {
        let ms = self.tick_rate_ms;
        let next: u64 = if ms >= TICK_STEP_MS && ms - TICK_STEP_MS > MIN_TICK_MS {
            ms - TICK_STEP_MS
        } else {
            MIN_TICK_MS
        };
        if next != ms {
            self.tick_rate_ms = next;
            self.dirty = true;
        }
    }

    /// Lengthens the sampling interval by one step, not above the
    /// ceiling.
    pub fn slow_down_refresh(&mut self)
        requires
            old(self).inv(),
        ensures
            final(self).inv(),
            ({
                let next = if old(self).tick_rate_ms + TICK_STEP_MS < MAX_TICK_MS {
                    old(self).tick_rate_ms + TICK_STEP_MS
                } else {
                    MAX_TICK_MS as int
                };
                *final(self) == (App {
                    tick_rate_ms: next as u64,
                    dirty: old(self).dirty || next != old(self).tick_rate_ms,
                    ..*old(self)
                })
            }),
    {
        let ms = self.tick_rate_ms;
        let next: u64 = if ms + TICK_STEP_MS < MAX_TICK_MS {
            ms + TICK_STEP_MS
        } else {
            MAX_TICK_MS
        };
        if next != ms {
            self.tick_rate_ms = next;
            self.dirty = true;
        }
    }

    /// The selected row, while one exists.
    pub fn selected_process_row(&self) -> (r: Option<&ProcessRow>)
        ensures
            match r {
                Option::Some(row) => self.process_rows@.len() > 0 && self.selected_process
                    < self.process_rows@.len() && *row == self.process_rows@[self.selected_process as int],
                Option::None => self.selected_process >= self.process_rows@.len(),
            },
    {
        if self.selected_process < self.process_rows.len() {
            Option::Some(&self.process_rows[self.selected_process])
        } else {
            Option::None
        }
    }

    /// Rebuilds the visible list and re-resolves the selection; see
    /// [`rebuild_rel`].
    pub fn rebuild_process_rows(&mut self)
        requires
            old(self).inv(),
        ensures
            final(self).inv(),
            rebuild_rel(*old(self), *final(self)),
    {
        let prev_pid: Option<u32> = if self.selected_process < self.process_rows.len() {
            Option::Some(self.process_rows[self.selected_process].pid)
        } else {
            Option::None
        };
        let rows = rebuild_rows(
            &self.all_process_rows,
            &self.filter_query,
            self.sort_mode,
            self.per_core,
            self.sort_reverse,
            self.tree_mode,
        );
        self.process_rows = rows;
        self.clamp_selection();
        match prev_pid {
            Option::Some(pid) => {
                match find_pid(&self.process_rows, pid) {
                    Option::Some(idx) => {
                        proof {
                            crate::table::lemma_idx_of_pid_m_props(
                                models(self.process_rows@),
                                pid,
                            );
                        }
                        self.selected_process = idx;
                    },
                    Option::None => {},
                }
            },
            Option::None => {},
        }
        self.clamp_selection();
        self.dirty = true;
    }

    /// Flips the whole-list reversal and rebuilds.
    pub fn toggle_reverse(&mut self)
        requires
            old(self).inv(),
        ensures
            final(self).inv(),
            final(self).sort_reverse == !old(self).sort_reverse,
            rebuild_rel(App { sort_reverse: !old(self).sort_reverse, ..*old(self) }, *final(self)),
    {
        self.sort_reverse = !self.sort_reverse;
        self.rebuild_process_rows();
    }

    /// Switches to a given sort key and rebuilds.
    pub fn set_sort_mode(&mut self, mode: SortMode)
        requires
            old(self).inv(),
        ensures
            final(self).inv(),
            final(self).sort_mode == mode,
            rebuild_rel(App { sort_mode: mode, ..*old(self) }, *final(self)),
    {
        self.sort_mode = mode;
        self.rebuild_process_rows();
    }

    /// Advances the sort key one step in its cycle and rebuilds.
    pub fn cycle_sort_mode(&mut self)
        requires
            old(self).inv(),
        ensures
            final(self).inv(),
            final(self).sort_mode == old(self).sort_mode.next_spec(),
            rebuild_rel(
                App { sort_mode: old(self).sort_mode.next_spec(), ..*old(self) },
                *final(self),
            ),
    {
        let m = self.sort_mode.next();
        self.set_sort_mode(m);
    }

    /// Steps the sort key backwards in its cycle and rebuilds.
    pub fn cycle_sort_mode_prev(&mut self)
        requires
            old(self).inv(),
        ensures
            final(self).inv(),
            final(self).sort_mode == old(self).sort_mode.prev_spec(),
            rebuild_rel(
                App { sort_mode: old(self).sort_mode.prev_spec(), ..*old(self) },
                *final(self),
            ),
    {
        let m = self.sort_mode.prev();
        self.set_sort_mode(m);
    }

    /// Flips per-core display, notes it in the status line, rebuilds.
    pub fn toggle_per_core(&mut self)
        requires
            old(self).inv(),
        ensures
            final(self).inv(),
            final(self).per_core == !old(self).per_core,
            final(self).status_msg@ == (if !old(self).per_core {
                "per-core on"@
            } else {
                "per-core off"@
            }),
            rebuild_rel(
                App {
                    per_core: !old(self).per_core,
                    status_msg: final(self).status_msg,
                    ..*old(self)
                },
                *final(self),
            ),
    {
        self.per_core = !self.per_core;
        self.status_msg = if self.per_core {
            "per-core on".to_owned()
        } else {
            "per-core off".to_owned()
        };
        self.rebuild_process_rows();
    }

    /// Flips tree ordering, notes it in the status line, rebuilds.
    pub fn toggle_tree_mode(&mut self)
        requires
            old(self).inv(),
        ensures
            final(self).inv(),
            final(self).tree_mode == !old(self).tree_mode,
            final(self).status_msg@ == (if !old(self).tree_mode {
                "tree on"@
            } else {
                "tree off"@
            }),
            rebuild_rel(
                App {
                    tree_mode: !old(self).tree_mode,
                    status_msg: final(self).status_msg,
                    ..*old(self)
                },
                *final(self),
            ),
    {
        self.tree_mode = !self.tree_mode;
        self.status_msg = if self.tree_mode {
            "tree on".to_owned()
        } else {
            "tree off".to_owned()
        };
        self.rebuild_process_rows();
    }

    /// Flips the lazier process-refresh cadence.
    pub fn toggle_proc_lazy(&mut self)
        requires
            old(self).inv(),
        ensures
            final(self).inv(),
            *final(self) == (App {
                proc_lazy: !old(self).proc_lazy,
                status_msg: final(self).status_msg,
                dirty: true,
                ..*old(self)
            }),
            final(self).status_msg@ == (if !old(self).proc_lazy {
                "lazy on"@
            } else {
                "lazy off"@
            }),
    {
        self.proc_lazy = !self.proc_lazy;
        self.status_msg = if self.proc_lazy {
            "lazy on".to_owned()
        } else {
            "lazy off".to_owned()
        };
        self.dirty = true;
    }

    /// Enters filter-entry mode: printable keys now extend the query.
    pub fn start_filter_input(&mut self)
        requires
            old(self).inv(),
        ensures
            final(self).inv(),
            *final(self) == (App { input_mode: InputMode::Filter, dirty: true, ..*old(self) }),
    {
        self.input_mode = InputMode::Filter;
        self.dirty = true;
    }

    /// Clears the filter query and rebuilds.
    pub fn clear_filter(&mut self)
        requires
            old(self).inv(),
        ensures
            final(self).inv(),
            final(self).filter_query@ == Seq::<char>::empty(),
            rebuild_rel(
                App { filter_query: final(self).filter_query, ..*old(self) },
                *final(self),
            ),
    {
        self.filter_query = String::new();
        self.rebuild_process_rows();
    }

    /// One key in filter-entry mode: confirm or cancel ends the mode,
    /// backspace removes the last character, and any printable
    /// character extends the query; each edit rebuilds at once.
    pub fn handle_filter_key(&mut self, key: Key)
        requires
            old(self).inv(),
        ensures
            final(self).inv(),
            final(self).dirty,
            (key == Key::Esc || key == Key::Enter) ==> *final(self) == (App {
                input_mode: InputMode::Normal,
                dirty: true,
                ..*old(self)
            }),
            key == Key::Backspace ==> {
                &&& final(self).filter_query@ == (if old(self).filter_query@.len() == 0 {
                    old(self).filter_query@
                } else {
                    old(self).filter_query@.drop_last()
                })
                &&& rebuild_rel(
                    App { filter_query: final(self).filter_query, ..*old(self) },
                    *final(self),
                )
            },
            (match key {
                Key::Char(c) => !crate::input::is_control_char(c),
                _ => false,
            }) ==> {
                &&& final(self).filter_query@ == old(self).filter_query@.push(key->Char_0)
                &&& rebuild_rel(
                    App { filter_query: final(self).filter_query, ..*old(self) },
                    *final(self),
                )
            },
    {
        match key {
            Key::Esc | Key::Enter => {
                self.input_mode = InputMode::Normal;
                self.dirty = true;
            },
            Key::Backspace => {
                let n = self.filter_query.as_str().unicode_len();
                if n > 0 {
                    self.filter_query = self.filter_query.as_str().substring_char(
                        0,
                        n - 1,
                    ).to_owned();
                    proof {
                        assert(self.filter_query@ =~= old(self).filter_query@.drop_last());
                    }
                }
                self.rebuild_process_rows();
                self.dirty = true;
            },
            Key::Char(c) => {
                if !crate::input::control_char(c) {
                    crate::text::push_char(&mut self.filter_query, c);
                    self.rebuild_process_rows();
                }
                self.dirty = true;
            },
            _ => {
                self.dirty = true;
            },
        }
    }

    /// Opens a confirmation for sending `signal` to the selected row;
    /// without a selection only the status line changes.
    pub fn open_confirm_for_selected(&mut self, signal: Signal)
        requires
            old(self).inv(),
        ensures
            final(self).inv(),
            confirm_opened(*old(self), *final(self), signal),
    {
        proof {
            reveal_strlit("No process selected");
        }
        if self.selected_process < self.process_rows.len() {
            let row = &self.process_rows[self.selected_process];
            self.modal = Option::Some(
                ModalState::Confirm { pid: row.pid, name: row.name.clone(), signal },
            );
        } else {
            self.status_msg = "No process selected".to_owned();
        }
        self.dirty = true;
    }

    /// One key while a modal is open.  A confirmation answered yes
    /// clears the modal and returns the signal request exactly once;
    /// answered no it just closes.  The picker navigates with clamped
    /// steps, closes on cancel, and turns into a confirmation for the
    /// selected row on confirm.
    pub fn handle_modal_key(&mut self, key: Key) -> (request: Option<(u32, Signal)>)
        requires
            old(self).inv(),
            old(self).modal is Some,
        ensures
            final(self).inv(),
            final(self).dirty,
            match old(self).modal {
                Option::Some(ModalState::Confirm { pid, name, signal }) => {
                    if key == Key::Enter || key == Key::Char('y') {
                        &&& request == Option::Some((pid, signal))
                        &&& final(self).modal is None
                        &&& *final(self) == (App {
                            modal: Option::None,
                            dirty: true,
                            ..*old(self)
                        })
                    } else if key == Key::Esc || key == Key::Char('n') {
                        &&& request is None
                        &&& *final(self) == (App {
                            modal: Option::None,
                            dirty: true,
                            ..*old(self)
                        })
                    } else {
                        &&& request is None
                        &&& *final(self) == (App { dirty: true, ..*old(self) })
                    }
                },
                Option::Some(ModalState::SignalPicker { selected }) => {
                    &&& request is None
                    &&& if key == Key::Esc {
                        *final(self) == (App { modal: Option::None, dirty: true, ..*old(self) })
                    } else if key == Key::Down {
                        *final(self) == (App {
                            modal: Option::Some(
                                ModalState::SignalPicker {
                                    selected: (if selected + 1 < SIGNAL_COUNT {
                                        selected + 1
                                    } else {
                                        (SIGNAL_COUNT - 1) as int
                                    }) as usize,
                                },
                            ),
                            dirty: true,
                            ..*old(self)
                        })
                    } else if key == Key::Up {
                        *final(self) == (App {
                            modal: Option::Some(
                                ModalState::SignalPicker {
                                    selected: (if selected > 0 {
                                        selected - 1
                                    } else {
                                        0int
                                    }) as usize,
                                },
                            ),
                            dirty: true,
                            ..*old(self)
                        })
                    } else if key == Key::Enter {
                        confirm_opened(
                            App { modal: Option::None, ..*old(self) },
                            *final(self),
                            crate::input::signal_at_spec(selected as int),
                        )
                    } else {
                        *final(self) == (App { dirty: true, ..*old(self) })
                    }
                },
                Option::None => false,
            },
    {
        let mut request: Option<(u32, Signal)> = Option::None;
        match &self.modal {
            Option::Some(ModalState::Confirm { pid, signal, .. }) => {
                let pid: u32 = *pid;
                let signal: Signal = *signal;
                match key {
                    Key::Esc | Key::Char('n') => {
                        self.modal = Option::None;
                    },
                    Key::Enter | Key::Char('y') => {
                        self.modal = Option::None;
                        request = Option::Some((pid, signal));
                    },
                    _ => {},
                }
            },
            Option::Some(ModalState::SignalPicker { selected }) => {
                let sel: usize = *selected;
                match key {
                    Key::Esc => {
                        self.modal = Option::None;
                    },
                    Key::Down => {
                        let next: usize = if sel + 1 < SIGNAL_COUNT {
                            sel + 1
                        } else {
                            SIGNAL_COUNT - 1
                        };
                        self.modal = Option::Some(ModalState::SignalPicker { selected: next });
                    },
                    Key::Up => {
                        let next: usize = if sel > 0 {
                            sel - 1
                        } else {
                            0
                        };
                        self.modal = Option::Some(ModalState::SignalPicker { selected: next });
                    },
                    Key::Enter => {
                        self.modal = Option::None;
                        self.open_confirm_for_selected(Signal::at_index(sel));
                    },
                    _ => {},
                }
            },
            Option::None => {},
        }
        self.dirty = true;
        request
    }

    /// One key in normal mode.  Returns whether the user asked to
    /// quit; every other key maps to exactly one navigation or view
    /// transition, unknown keys to none.
    pub fn handle_normal_key(&mut self, key: Key) -> (quit: bool)
        requires
            old(self).inv(),
        ensures
            final(self).inv(),
            quit == (key == Key::Char('q') || key == Key::CtrlC),
            quit ==> *final(self) == *old(self),
            final(self).sort_mode == (match key {
                Key::Char('o') | Key::Right => old(self).sort_mode.next_spec(),
                Key::Left => old(self).sort_mode.prev_spec(),
                Key::Char('c') => SortMode::Cpu,
                Key::Char('m') => SortMode::Mem,
                Key::Char('p') => SortMode::Pid,
                Key::Char('n') => SortMode::Name,
                _ => old(self).sort_mode,
            }),
            final(self).sort_reverse == (if key == Key::Char('r') {
                !old(self).sort_reverse
            } else {
                old(self).sort_reverse
            }),
            final(self).per_core == (if key == Key::Char('e') {
                !old(self).per_core
            } else {
                old(self).per_core
            }),
            final(self).tree_mode == (if key == Key::Char('w') {
                !old(self).tree_mode
            } else {
                old(self).tree_mode
            }),
            final(self).proc_lazy == (if key == Key::Char('l') {
                !old(self).proc_lazy
            } else {
                old(self).proc_lazy
            }),
            final(self).input_mode == (if key == Key::Char('/') {
                InputMode::Filter
            } else {
                old(self).input_mode
            }),
            key == Key::Char('x') ==> final(self).filter_query@.len() == 0,
            key == Key::Home ==> final(self).pending_scroll == 0 && final(self).selected_process
                == 0,
            key == Key::End ==> final(self).pending_scroll == 0 && final(self).selected_process
                == (if old(self).process_rows@.len() == 0 {
                0int
            } else {
                old(self).process_rows@.len() - 1
            }) as usize,
            key == Key::Char('s') ==> final(self).modal == Option::Some(
                ModalState::SignalPicker { selected: 0 },
            ),
            key == Key::Char('t') ==> confirm_opened(*old(self), *final(self), Signal::Term),
            key == Key::Char('k') ==> confirm_opened(*old(self), *final(self), Signal::Kill),
    {
        let page: usize = if self.last_table_visible_rows == 0 {
            1
        } else {
            self.last_table_visible_rows
        };
        match key {
            Key::Char('q') => true,
            Key::CtrlC => true,
            Key::Down => {
                self.queue_scroll(1);
                false
            },
            Key::Up => {
                self.queue_scroll(-1);
                false
            },
            Key::PageDown => {
                let step: i64 = if page > 100000 {
                    100000
                } else {
                    page as i64
                };
                self.queue_scroll(step);
                false
            },
            Key::PageUp => {
                let step: i64 = if page > 100000 {
                    100000
                } else {
                    page as i64
                };
                self.queue_scroll(-step);
                false
            },
            Key::Home => {
                self.pending_scroll = 0;
                self.jump_top();
                false
            },
            Key::End => {
                self.pending_scroll = 0;
                self.jump_bottom();
                false
            },
            Key::Char('/') => {
                self.start_filter_input();
                false
            },
            Key::Char('x') => {
                self.clear_filter();
                false
            },
            Key::Char('t') => {
                self.open_confirm_for_selected(Signal::Term);
                false
            },
            Key::Char('k') => {
                self.open_confirm_for_selected(Signal::Kill);
                false
            },
            Key::Char('s') => {
                self.modal = Option::Some(ModalState::SignalPicker { selected: 0 });
                self.dirty = true;
                false
            },
            Key::Char('o') => {
                self.cycle_sort_mode();
                false
            },
            Key::Left => {
                self.cycle_sort_mode_prev();
                false
            },
            Key::Right => {
                self.cycle_sort_mode();
                false
            },
            Key::Char('r') => {
                self.toggle_reverse();
                false
            },
            Key::Char('e') => {
                self.toggle_per_core();
                false
            },
            Key::Char('w') => {
                self.toggle_tree_mode();
                false
            },
            Key::Char('l') => {
                self.toggle_proc_lazy();
                false
            },
            Key::Char('c') => {
                self.set_sort_mode(SortMode::Cpu);
                false
            },
            Key::Char('m') => {
                self.set_sort_mode(SortMode::Mem);
                false
            },
            Key::Char('p') => {
                self.set_sort_mode(SortMode::Pid);
                false
            },
            Key::Char('n') => {
                self.set_sort_mode(SortMode::Name);
                false
            },
            Key::Char('+') | Key::Char('=') => {
                self.speed_up_refresh();
                false
            },
            Key::Char('-') | Key::Char('_') => {
                self.slow_down_refresh();
                false
            },
            _ => false,
        }
    }

    /// Routes one key to the open modal, the filter-entry handler or
    /// the normal-mode handler, in that priority.  A signal request
    /// surfaces exactly from a confirmed confirmation modal.
    pub fn handle_key(&mut self, key: Key) -> (r: (bool, Option<(u32, Signal)>))
        requires
            old(self).inv(),
        ensures
            final(self).inv(),
            r.0 ==> old(self).modal is None && old(self).input_mode == InputMode::Normal,
            r.0 == (old(self).modal is None && old(self).input_mode == InputMode::Normal && (key
                == Key::Char('q') || key == Key::CtrlC)),
            r.1 == (match old(self).modal {
                Option::Some(ModalState::Confirm { pid, name, signal }) => {
                    if key == Key::Enter || key == Key::Char('y') {
                        Option::Some((pid, signal))
                    } else {
                        Option::<(u32, Signal)>::None
                    }
                },
                _ => Option::<(u32, Signal)>::None,
            }),
    {
        if self.modal.is_some() {
            let request = self.handle_modal_key(key);
            (false, request)
        } else {
            match self.input_mode {
                InputMode::Filter => {
                    self.handle_filter_key(key);
                    (false, Option::None)
                },
                InputMode::Normal => {
                    let quit = self.handle_normal_key(key);
                    (quit, Option::None)
                },
            }
        }
    }

    /// Records when input last arrived, for the refresh-cadence
    /// decision.
    pub fn note_input(&mut self, now_ms: u64)
        requires
            old(self).inv(),
        ensures
            final(self).inv(),
            *final(self) == (App { last_input_ms: now_ms, ..*old(self) }),
    {
        self.last_input_ms = now_ms;
    }

    /// Whether this cycle should re-read the process list: always
    /// when none was read yet, else on the lazy or responsive cadence,
    /// deferred while input is arriving but never beyond a staleness
    /// ceiling.
    pub fn should_refresh_processes(&self, now_ms: u64) -> (r: bool)
        ensures
            r == {
                let interval: int = if self.proc_lazy {
                    1500
                } else {
                    600
                };
                let since_refresh: int = if now_ms >= self.last_process_refresh_ms {
                    now_ms - self.last_process_refresh_ms
                } else {
                    0
                };
                let since_input: int = if now_ms >= self.last_input_ms {
                    now_ms - self.last_input_ms
                } else {
                    0
                };
                self.all_process_rows@.len() == 0 || (since_refresh >= interval && (since_input
                    >= 300 || since_refresh >= 5000))
            },
    {
        let interval: u64 = if self.proc_lazy {
            1500
        } else {
            600
        };
        let since_refresh: u64 = if now_ms >= self.last_process_refresh_ms {
            now_ms - self.last_process_refresh_ms
        } else {
            0
        };
        let since_input: u64 = if now_ms >= self.last_input_ms {
            now_ms - self.last_input_ms
        } else {
            0
        };
        self.all_process_rows.len() == 0 || (since_refresh >= interval && (since_input >= 300
            || since_refresh >= 5000))
    }

    /// Folds one counter snapshot into the state: derives every rate
    /// and percentage against the previous sample, rebuilds the
    /// process table when a fresh process list came along, and owes a
    /// redraw.  Each missing snapshot member leaves its metric as it
    /// was.
    pub fn update(&mut self, snap: SystemSnapshot)
        requires
            old(self).inv(),
            match snap.cpu {
                Option::Some(t) => t.wf(),
                Option::None => true,
            },
        ensures
            final(self).inv(),
            final(self).dirty,
            final(self).mem == snap.mem,
            final(self).uptime_secs == snap.uptime_secs,
            final(self).avg_freq_mhz == snap.avg_freq_mhz,
            final(self).last_sample_ms == snap.now_ms,
            final(self).core_usages_centi@ == snap.core_usages_centi@.map_values(
                |v: u32|
                    if v > 10000 {
                        10000u32
                    } else {
                        v
                    },
            ),
            // CPU: no snapshot leaves the figure; a first snapshot reads 0;
            // later ones the delta-derived share, never negative nor above
            // the scale, and zero again on a counter reset.
            snap.cpu is None ==> final(self).cpu_usage_centi == old(self).cpu_usage_centi
                && final(self).cpu_history == old(self).cpu_history && final(self).sampler.prev_cpu
                == old(self).sampler.prev_cpu,
            match snap.cpu {
                Option::Some(ct) => {
                    &&& final(self).sampler.prev_cpu == Option::Some(ct)
                    &&& final(self).cpu_usage_centi == (match old(self).sampler.prev_cpu {
                        Option::None => 0int,
                        Option::Some(p) => used_centi_spec(
                            p.total_spec(),
                            p.idle_total_spec(),
                            ct.total_spec(),
                            ct.idle_total_spec(),
                        ),
                    })
                    &&& final(self).cpu_usage_centi <= 10000
                    &&& final(self).cpu_history@ == pushed_capped(
                        old(self).cpu_history@,
                        (final(self).cpu_usage_centi / 100) as u64,
                        MAX_CPU_HISTORY as int,
                    )
                },
                Option::None => true,
            },
            // Processes: a fresh list replaces the full set wholesale
            // (first entry of any repeated pid kept), the tick baseline
            // with it, and the visible list is rebuilt; otherwise both
            // lists stay.
            snap.procs is None ==> final(self).all_process_rows == old(self).all_process_rows
                && final(self).process_rows == old(self).process_rows
                && final(self).sampler.prev_proc == old(self).sampler.prev_proc
                && final(self).last_process_refresh_ms == old(self).last_process_refresh_ms,
            match snap.procs {
                Option::Some(raws) => {
                    &&& models(final(self).all_process_rows@) == build_rows_m(
                        raws@,
                        old(self).sampler.prev_proc@,
                        total_delta_spec(old(self).sampler.prev_cpu, snap.cpu),
                        clamp_cores_spec(snap.core_usages_centi@.len() as int),
                        snap.mem.total_bytes as int,
                    )
                    &&& final(self).sampler.prev_proc@ == raws@.map_values(
                        |r: RawProcess| (r.pid, r.cpu_ticks),
                    )
                    &&& models(final(self).process_rows@) == rebuild_spec(
                        models(final(self).all_process_rows@),
                        old(self).filter_query@,
                        old(self).sort_mode,
                        old(self).per_core,
                        old(self).sort_reverse,
                        old(self).tree_mode,
                    )
                    &&& final(self).last_process_refresh_ms == snap.now_ms
                },
                Option::None => true,
            },
            // Network: rates for the picked interface against its previous
            // counters (zero without a baseline), tops ratcheted, the
            // per-interface baseline replaced wholesale.
            final(self).sampler.prev_net == snap.net,
            match pick_iface(snap.net@) {
                Option::Some(i) => {
                    let elapsed: int = if snap.now_ms >= old(self).last_sample_ms {
                        snap.now_ms - old(self).last_sample_ms
                    } else {
                        0
                    };
                    let rates = match lookup_net(
                        old(self).sampler.prev_net@,
                        snap.net@[i].name@,
                    ) {
                        Option::None => (0int, 0int),
                        Option::Some(p) => (
                            rate_spec(p.0 as int, snap.net@[i].total_rx as int, elapsed),
                            rate_spec(p.1 as int, snap.net@[i].total_tx as int, elapsed),
                        ),
                    };
                    &&& final(self).net_iface@ == snap.net@[i].name@
                    &&& final(self).net_rx_rate == rates.0
                    &&& final(self).net_tx_rate == rates.1
                    &&& final(self).net_rx_top == (if rates.0 > old(self).net_rx_top {
                        rates.0
                    } else {
                        old(self).net_rx_top as int
                    })
                    &&& final(self).net_tx_top == (if rates.1 > old(self).net_tx_top {
                        rates.1
                    } else {
                        old(self).net_tx_top as int
                    })
                    &&& final(self).net_rx_total == snap.net@[i].total_rx
                    &&& final(self).net_tx_total == snap.net@[i].total_tx
                    &&& final(self).net_rx_history@ == pushed_capped(
                        old(self).net_rx_history@,
                        rates.0 as u64,
                        MAX_NET_HISTORY as int,
                    )
                    &&& final(self).net_tx_history@ == pushed_capped(
                        old(self).net_tx_history@,
                        rates.1 as u64,
                        MAX_NET_HISTORY as int,
                    )
                },
                Option::None => final(self).net_rx_rate == old(self).net_rx_rate
                    && final(self).net_tx_rate == old(self).net_tx_rate,
            },
            // GPU: a successful probe replaces the cached snapshot, a
            // failed or skipped one keeps it.
            match snap.gpu_probe {
                Option::Some(g) => final(self).sampler.last_gpu == Option::Some(g),
                Option::None => final(self).sampler.last_gpu == old(self).sampler.last_gpu,
            },
    {
        let now = snap.now_ms;
        let elapsed: u64 = if now >= self.last_sample_ms {
            now - self.last_sample_ms
        } else {
            0
        };
        let ncores = snap.core_usages_centi.len();
        let cores: u32 = if ncores == 0 {
            1
        } else if ncores > 4096 {
            4096
        } else {
            ncores as u32
        };
        self.cpu_count = cores;

        let total_delta: u64 = match snap.cpu {
            Option::Some(ct) => {
                let r = self.sampler.cpu_sample(ct);
                self.cpu_usage_centi = r.0;
                push_capped(&mut self.cpu_history, (r.0 / 100) as u64, MAX_CPU_HISTORY);
                r.1
            },
            Option::None => 0,
        };

        let mut clamped: Vec<u32> = Vec::new();
        let mut i: usize = 0;
        while i < snap.core_usages_centi.len()
            invariant
                i <= snap.core_usages_centi@.len(),
                clamped@ =~= snap.core_usages_centi@.subrange(0, i as int).map_values(
                    |v: u32|
                        if v > 10000 {
                            10000u32
                        } else {
                            v
                        },
                ),
            decreases snap.core_usages_centi@.len() - i,
        {
            let v = snap.core_usages_centi[i];
            clamped.push(
                if v > 10000 {
                    10000
                } else {
                    v
                },
            );
            i = i + 1;
            proof {
                assert(clamped@ =~= snap.core_usages_centi@.subrange(0, i as int).map_values(
                    |v: u32|
                        if v > 10000 {
                            10000u32
                        } else {
                            v
                        },
                ));
            }
        }
        proof {
            assert(snap.core_usages_centi@.subrange(0, snap.core_usages_centi@.len() as int)
                =~= snap.core_usages_centi@);
        }
        self.core_usages_centi = clamped;
        self.avg_freq_mhz = snap.avg_freq_mhz;
        self.uptime_secs = snap.uptime_secs;
        self.mem = snap.mem;

        match &snap.procs {
            Option::Some(raws) => {
                let rows = build_all_rows(
                    raws,
                    &self.sampler,
                    total_delta,
                    cores,
                    snap.mem.total_bytes,
                );
                let mut ticks: Vec<(u32, u64)> = Vec::new();
                let mut j: usize = 0;
                while j < raws.len()
                    invariant
                        j <= raws@.len(),
                        ticks@ =~= raws@.subrange(0, j as int).map_values(
                            |r: RawProcess| (r.pid, r.cpu_ticks),
                        ),
                    decreases raws@.len() - j,
                {
                    ticks.push((raws[j].pid, raws[j].cpu_ticks));
                    j = j + 1;
                    proof {
                        assert(ticks@ =~= raws@.subrange(0, j as int).map_values(
                            |r: RawProcess| (r.pid, r.cpu_ticks),
                        ));
                    }
                }
                proof {
                    assert(raws@.subrange(0, raws@.len() as int) =~= raws@);
                }
                self.all_process_rows = rows;
                self.sampler.replace_proc_ticks(ticks);
                self.last_process_refresh_ms = now;
                self.rebuild_process_rows();
            },
            Option::None => {},
        }

        match pick_iface_exec(&snap.net) {
            Option::Some(i) => {
                let name = snap.net[i].name.clone();
                let rates = self.sampler.net_rates(
                    &name,
                    snap.net[i].total_rx,
                    snap.net[i].total_tx,
                    elapsed,
                );
                self.net_iface = name;
                self.net_rx_rate = rates.0;
                self.net_tx_rate = rates.1;
                if rates.0 > self.net_rx_top {
                    self.net_rx_top = rates.0;
                }
                if rates.1 > self.net_tx_top {
                    self.net_tx_top = rates.1;
                }
                self.net_rx_total = snap.net[i].total_rx;
                self.net_tx_total = snap.net[i].total_tx;
                push_capped(&mut self.net_rx_history, rates.0, MAX_NET_HISTORY);
                push_capped(&mut self.net_tx_history, rates.1, MAX_NET_HISTORY);
            },
            Option::None => {},
        }
        self.sampler.replace_net(snap.net);
        self.sampler.note_gpu(snap.gpu_probe);
        self.last_sample_ms = now;
        self.dirty = true;
    }
}

/// A bounded history after one appended sample: the oldest entry
/// leaves once the buffer is full.
pub open spec fn pushed_capped(old_h: Seq<u64>, x: u64, cap: int) -> Seq<u64> {
    if old_h.len() < cap {
        old_h.push(x)
    } else {
        old_h.drop_first().push(x)
    }
}

/// The global tick delta two successive CPU snapshots span (zero
/// without both, and zero on a counter reset).
pub open spec fn total_delta_spec(prev: Option<CpuTimes>, cur: Option<CpuTimes>) -> int {
    match (prev, cur) {
        (Option::Some(p), Option::Some(c)) => if c.total_spec() >= p.total_spec() {
            c.total_spec() - p.total_spec()
        } else {
            0
        },
        _ => 0,
    }
}

/// Core count clamped into its working range.
pub open spec fn clamp_cores_spec(n: int) -> int {
    if n == 0 {
        1
    } else if n > 4096 {
        4096
    } else {
        n
    }
}

/// Appends one sample to a bounded history.
fn push_capped(v: &mut Vec<u64>, x: u64, cap: usize)
    requires
        cap >= 1,
        old(v)@.len() <= cap,
    ensures
        final(v)@ == pushed_capped(old(v)@, x, cap as int),
        final(v)@.len() <= cap,
{
    if v.len() >= cap {
        v.remove(0);
        proof {
            assert(v@ =~= old(v)@.drop_first());
        }
    }
    v.push(x);
}

/// Builds the full row set from a raw process list; repeated pids
/// keep their first entry only, so the set always has distinct pids.
fn build_all_rows(
    raws: &Vec<RawProcess>,
    sampler: &MetricsSampler,
    total_delta: u64,
    cores: u32,
    total_mem: u64,
) -> (out: Vec<ProcessRow>)
    requires
        1 <= cores <= 4096,
    ensures
        models(out@) == build_rows_m(
            raws@,
            sampler.prev_proc@,
            total_delta as int,
            cores as int,
            total_mem as int,
        ),
        distinct_pids_m(models(out@)),
{
    let n = raws.len();
    let mut out: Vec<ProcessRow> = Vec::new();
    let mut i: usize = 0;
    proof {
        assert(raws@.subrange(0, 0) =~= Seq::<RawProcess>::empty());
        assert(models(out@) =~= build_rows_m(
            raws@.subrange(0, 0),
            sampler.prev_proc@,
            total_delta as int,
            cores as int,
            total_mem as int,
        ));
    }
    while i < n
        invariant
            i <= n,
            n == raws@.len(),
            1 <= cores <= 4096,
            models(out@) == build_rows_m(
                raws@.subrange(0, i as int),
                sampler.prev_proc@,
                total_delta as int,
                cores as int,
                total_mem as int,
            ),
            forall|t: int|
                0 <= t < out@.len() ==> has_raw_pid(
                    raws@.subrange(0, i as int),
                    (#[trigger] models(out@)[t]).pid,
                ),
            distinct_pids_m(models(out@)),
        decreases n - i,
    {
        let ghost pre = raws@.subrange(0, i as int);
        let ghost post = raws@.subrange(0, i + 1);
        proof {
            assert(post.drop_last() =~= pre);
            assert(post.last() == raws@[i as int]);
        }
        let mut dup = false;
        let mut j: usize = 0;
        while j < i && !dup
            invariant
                j <= i,
                i < n,
                n == raws@.len(),
                pre == raws@.subrange(0, i as int),
                dup ==> has_raw_pid(pre, raws@[i as int].pid),
                !dup ==> forall|k: int| 0 <= k < j ==> (#[trigger] pre[k]).pid != raws@[i as int].pid,
            decreases i - j, (if dup { 0int } else { 1int }),
        {
            if raws[j].pid == raws[i].pid {
                proof {
                    assert(pre[j as int].pid == raws@[i as int].pid);
                }
                dup = true;
            } else {
                j = j + 1;
            }
        }
        if !dup {
            proof {
                assert(!has_raw_pid(pre, raws@[i as int].pid));
            }
            let row = build_process_row(&raws[i], sampler, total_delta, cores, total_mem);
            let ghost before = out@;
            out.push(row);
            proof {
                assert(models(out@) =~= models(before) + seq![row@]);
                assert forall|t: int|
                    0 <= t < out@.len() implies has_raw_pid(
                    post,
                    (#[trigger] models(out@)[t]).pid,
                ) by {
                    if t < before.len() {
                        assert(has_raw_pid(pre, models(before)[t].pid));
                        let k = choose|k: int|
                            0 <= k < pre.len() && (#[trigger] pre[k]).pid == models(before)[t].pid;
                        assert(post[k].pid == models(out@)[t].pid);
                    } else {
                        assert(post[i as int].pid == models(out@)[t].pid);
                    }
                }
                assert forall|a: int, b: int|
                    0 <= a < b < models(out@).len() implies (#[trigger] models(out@)[a]).pid != (
                #[trigger] models(out@)[b]).pid by {
                    if b == models(out@).len() - 1 {
                        assert(has_raw_pid(pre, models(before)[a].pid));
                    }
                }
            }
        } else {
            proof {
                assert forall|t: int|
                    0 <= t < out@.len() implies has_raw_pid(
                    post,
                    (#[trigger] models(out@)[t]).pid,
                ) by {
                    assert(has_raw_pid(pre, models(out@)[t].pid));
                    let k = choose|k: int|
                        0 <= k < pre.len() && (#[trigger] pre[k]).pid == models(out@)[t].pid;
                    assert(post[k].pid == models(out@)[t].pid);
                }
            }
        }
        i = i + 1;
    }
    proof {
        assert(raws@.subrange(0, n as int) =~= raws@);
    }
    out
}

/// Derives one display row from one raw process.
fn build_process_row(
    raw: &RawProcess,
    sampler: &MetricsSampler,
    total_delta: u64,
    cores: u32,
    total_mem: u64,
) -> (r: ProcessRow)
    requires
        1 <= cores <= 4096,
    ensures
        r@ == row_from_raw_m(
            *raw,
            lookup_ticks(sampler.prev_proc@, raw.pid),
            total_delta as int,
            cores as int,
            total_mem as int,
        ),
        r.wf(),
{
    let name = trim_text(raw.name.as_str(), 18);
    let name_lc = lower_chars(name.as_str());
    let command = if raw.command.as_str().unicode_len() == 0 {
        name.clone()
    } else {
        trim_text(raw.command.as_str(), 54)
    };
    let raw_centi = sampler.proc_cpu_centi(raw.pid, raw.cpu_ticks, total_delta, cores);
    let d: u32 = raw_centi / cores;
    let core_centi: u32 = if d > 10000 {
        10000
    } else {
        d
    };
    let mem_centi = pct(raw.mem_bytes, total_mem);
    ProcessRow {
        pid: raw.pid,
        parent: raw.parent,
        name,
        name_lc,
        command,
        user: raw.user.clone(),
        cpu_raw_centi: raw_centi,
        cpu_core_centi: core_centi,
        mem_centi,
        mem_bytes: raw.mem_bytes,
        threads: raw.threads,
        tree_prefix: String::new(),
    }
}

/// The interface the display follows; see [`pick_iface`].
fn pick_iface_exec(net: &Vec<NetCounters>) -> (r: Option<usize>)
    ensures
        match r {
            Option::Some(i) => pick_iface(net@) == Option::Some(i as int) && i < net@.len(),
            Option::None => pick_iface(net@) is None,
        },
{
    let n = net.len();
    let mut best: Option<usize> = Option::None;
    let mut j: usize = 0;
    while j < n
        invariant
            j <= n,
            n == net@.len(),
            match best {
                Option::Some(b) => b < j && best_iface(net@, j as int, Option::Some(b as int))
                    == best_iface(net@, 0, Option::None),
                Option::None => best_iface(net@, j as int, Option::None) == best_iface(
                    net@,
                    0,
                    Option::None,
                ),
            },
        decreases n - j,
    {
        let lo = is_lo_iface(&net[j].name);
        let better: bool = !lo && (match &best {
            Option::None => true,
            Option::Some(b) => {
                let cand: u128 = (net[j].total_rx as u128) + (net[j].total_tx as u128);
                let cur: u128 = (net[*b].total_rx as u128) + (net[*b].total_tx as u128);
                cand > cur
            },
        });
        if better {
            best = Option::Some(j);
        }
        j = j + 1;
    }
    match best {
        Option::Some(b) => Option::Some(b),
        Option::None => {
            if n > 0 {
                Option::Some(0)
            } else {
                Option::None
            }
        },
    }
}

/// Whether an interface name starts with `lo`.
fn is_lo_iface(name: &String) -> (r: bool)
    ensures
        r == starts_lo(name@),
{
    let n = name.as_str().unicode_len();
    n >= 2 && name.as_str().get_char(0) == 'l' && name.as_str().get_char(1) == 'o'
}

/// The event loop's wait bound: until the next sample is due, and no
/// later than the next frame while a redraw is owed.
pub fn wait_timeout_ms(dirty: bool, tick_remaining_ms: u64, frame_remaining_ms: u64) -> (r: u64)
    ensures
        r == (if dirty {
            if frame_remaining_ms < tick_remaining_ms {
                frame_remaining_ms
            } else {
                tick_remaining_ms
            }
        } else {
            tick_remaining_ms
        }),
{
    if dirty {
        if frame_remaining_ms < tick_remaining_ms {
            frame_remaining_ms
        } else {
            tick_remaining_ms
        }
    } else {
        tick_remaining_ms
    }
}

/// Cap on selection movement per processing cycle: a third of the
/// visible page, at least one row.
pub fn scroll_step(visible_rows: usize) -> (r: usize)
    ensures
        r == (if visible_rows / 3 == 0 {
            1int
        } else {
            (visible_rows / 3) as int
        }),
{
    let s = visible_rows / 3;
    if s == 0 {
        1
    } else {
        s
    }
}

/// Label of the filter state for the table title.
pub open spec fn filter_mode_label_spec(mode: InputMode, q: Seq<char>) -> Seq<char> {
    match mode {
        InputMode::Filter => if q.len() == 0 {
            "f _◄"@
        } else {
            "f "@ + q + "◄"@
        },
        InputMode::Normal => if q.len() == 0 {
            "filter off"@
        } else {
            "filter "@ + q
        },
    }
}

/// Renders the filter state: the query under edit with a cursor mark,
/// or the applied filter, or `filter off`.
pub fn filter_mode_label(app: &App) -> (r: String)
    ensures
        r@ == filter_mode_label_spec(app.input_mode, app.filter_query@),
{
    match app.input_mode {
        InputMode::Filter => {
            if app.filter_query.as_str().unicode_len() == 0 {
                "f _◄".to_owned()
            } else {
                "f ".to_owned().concat(app.filter_query.as_str()).concat("◄")
            }
        },
        InputMode::Normal => {
            if app.filter_query.as_str().unicode_len() == 0 {
                "filter off".to_owned()
            } else {
                "filter ".to_owned().concat(app.filter_query.as_str())
            }
        },
    }
}

/// Status line confirming a delivered signal.
pub fn sent_signal_message(signal: Signal, pid: u32) -> (r: String)
    ensures
        r@ == "Sent SIG"@ + crate::input::signal_name_spec(signal) + " to pid "@
            + crate::text::dec_spec(pid as nat),
{
    let num = crate::text::u32_to_string(pid);
    "Sent SIG".to_owned().concat(signal.name()).concat(" to pid ").concat(num.as_str())
}

/// A screen region, in terminal cells.
#[derive(Clone, Copy, PartialEq, Eq, Structural, Debug)]
pub struct Rect {
    pub x: u16,
    pub y: u16,
    pub width: u16,
    pub height: u16,
}

/// A modal box centered in `area`: `percent_x` of its width, `height`
/// rows clamped to fit with a small margin, never under three rows.
pub fn centered_rect(percent_x: u16, height: u16, area: Rect) -> (r: Rect)
    requires
        area.x + area.width <= u16::MAX,
        area.y + area.height <= u16::MAX,
    ensures
        r.width == (if area.width * percent_x > u16::MAX {
            (u16::MAX as int) / 100
        } else {
            (area.width * percent_x) / 100
        }),
        r.height == ({
            let avail = if area.height >= 2 {
                area.height - 2
            } else {
                0int
            };
            let h = if height < avail {
                height as int
            } else {
                avail
            };
            if h < 3 {
                3int
            } else {
                h
            }
        }),
        r.x == area.x + (if area.width >= r.width {
            (area.width - r.width) / 2
        } else {
            0int
        }),
        r.y == area.y + (if area.height >= r.height {
            (area.height - r.height) / 2
        } else {
            0int
        }),
{
    proof {
        assert((area.width as int) * (percent_x as int) <= 65535 * 65535) by (nonlinear_arith)
            requires
                area.width <= 65535,
                percent_x <= 65535,
        ;
    }
    let wide: u32 = (area.width as u32) * (percent_x as u32);
    let capped: u32 = if wide > u16::MAX as u32 {
        u16::MAX as u32
    } else {
        wide
    };
    let width: u16 = (capped / 100) as u16;
    let avail: u16 = if area.height >= 2 {
        area.height - 2
    } else {
        0
    };
    let h0: u16 = if height < avail {
        height
    } else {
        avail
    };
    let h: u16 = if h0 < 3 {
        3
    } else {
        h0
    };
    let x: u16 = area.x + (if area.width >= width {
        (area.width - width) / 2
    } else {
        0
    });
    let y: u16 = area.y + (if area.height >= h {
        (area.height - h) / 2
    } else {
        0
    });
    Rect { x, y, width, height: h }
}

/// The slice of rows a window of `visible` rows starting at `scroll`
/// shows of a `count`-row list.
pub fn visible_range(scroll: usize, count: usize, visible: usize) -> (r: (usize, usize))
    ensures
        r.0 == (if scroll < count {
            scroll as int
        } else {
            count as int
        }),
        r.1 == (if r.0 + visible < count {
            r.0 + visible
        } else {
            count as int
        }),
        r.0 <= r.1 <= count,
{
    let start = if scroll < count {
        scroll
    } else {
        count
    };
    let end = if visible < count - start {
        start + visible
    } else {
        count
    };
    (start, end)
}

} // verus!
