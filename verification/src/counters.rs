//! Raw counter snapshots as plain values, and the checks that make
//! them safe to aggregate.
//!
//! The embedding binary reads the OS counter files and hands their
//! fields over as integers; everything here validates and models that
//! data.  A whole snapshot is immutable once built.

use vstd::prelude::*;

verus! {

/// Aggregate CPU time counters in ticks since boot.
#[derive(Clone, Copy)]
pub struct CpuTimes {
    pub user: u64,
    pub nice: u64,
    pub system: u64,
    pub idle: u64,
    pub iowait: u64,
    pub irq: u64,
    pub softirq: u64,
    pub steal: u64,
}

impl CpuTimes {
    /// Sum of all accounted tick classes.
    pub open spec fn total_spec(self) -> int {
        self.user + self.nice + self.system + self.idle + self.iowait + self.irq + self.softirq
            + self.steal
    }

    /// Ticks spent idle, waiting for IO counted as idle.
    pub open spec fn idle_total_spec(self) -> int {
        self.idle + self.iowait
    }

    /// The snapshot is usable: its total fits the machine word.
    pub open spec fn wf(self) -> bool {
        self.total_spec() <= u64::MAX
    }

    pub fn total(&self) -> (r: u64)
        requires
            self.wf(),
        ensures
            r == self.total_spec(),
    {
        self.user + self.nice + self.system + self.idle + self.iowait + self.irq + self.softirq
            + self.steal
    }

    pub fn idle_total(&self) -> (r: u64)
        requires
            self.wf(),
        ensures
            r == self.idle_total_spec(),
    {
        self.idle + self.iowait
    }
}

/// Builds a CPU snapshot from the numeric fields of the aggregate CPU
/// counter line, in their file order starting at `user`.  Fewer than
/// four fields, or a total beyond `u64::MAX`, is rejected.
pub fn cpu_times_from_fields(fields: &Vec<u64>) -> (r: Option<CpuTimes>)
    ensures
        match r {
            Some(t) => {
                &&& fields@.len() >= 4
                &&& t.wf()
                &&& t.user == fields@[0]
                &&& t.nice == fields@[1]
                &&& t.system == fields@[2]
                &&& t.idle == fields@[3]
                &&& t.iowait == (if fields@.len() > 4 {
                    fields@[4]
                } else {
                    0
                })
                &&& t.irq == (if fields@.len() > 5 {
                    fields@[5]
                } else {
                    0
                })
                &&& t.softirq == (if fields@.len() > 6 {
                    fields@[6]
                } else {
                    0
                })
                &&& t.steal == (if fields@.len() > 7 {
                    fields@[7]
                } else {
                    0
                })
            },
            None => fields@.len() < 4 || fields@[0] + fields@[1] + fields@[2] + fields@[3] + (
            if fields@.len() > 4 {
                fields@[4] as int
            } else {
                0
            }) + (if fields@.len() > 5 {
                fields@[5] as int
            } else {
                0
            }) + (if fields@.len() > 6 {
                fields@[6] as int
            } else {
                0
            }) + (if fields@.len() > 7 {
                fields@[7] as int
            } else {
                0
            }) > u64::MAX,
        },
{
    if fields.len() < 4 {
        return None;
    }
    let t = CpuTimes {
        user: fields[0],
        nice: fields[1],
        system: fields[2],
        idle: fields[3],
        iowait: if fields.len() > 4 {
            fields[4]
        } else {
            0
        },
        irq: if fields.len() > 5 {
            fields[5]
        } else {
            0
        },
        softirq: if fields.len() > 6 {
            fields[6]
        } else {
            0
        },
        steal: if fields.len() > 7 {
            fields[7]
        } else {
            0
        },
    };
    let wide: u128 = (t.user as u128) + (t.nice as u128) + (t.system as u128) + (t.idle as u128) + (
    t.iowait as u128) + (t.irq as u128) + (t.softirq as u128) + (t.steal as u128);
    if wide > u64::MAX as u128 {
        None
    } else {
        Some(t)
    }
}

/// System memory and swap, in bytes, recomputed fully each sample.
#[derive(Clone, Copy)]
pub struct MemorySnapshot {
    pub used_bytes: u64,
    pub total_bytes: u64,
    pub swap_used_bytes: u64,
    pub swap_total_bytes: u64,
}

/// Cumulative traffic counters of one network interface.
#[derive(Clone)]
pub struct NetCounters {
    pub name: String,
    pub total_rx: u64,
    pub total_tx: u64,
}

/// What a GPU probe reported; any field may be unknown.
#[derive(Clone)]
pub struct GpuSnapshot {
    pub name: String,
    pub usage_centi: Option<u32>,
    pub memory_used: Option<u64>,
    pub memory_total: Option<u64>,
    pub temperature: Option<u32>,
}

/// Decimal digit test.
pub open spec fn is_digit(c: char) -> bool {
    '0' <= c <= '9'
}

pub open spec fn digit_val(c: char) -> int {
    c as int - '0' as int
}

/// Value of a digit string, most significant first.
pub open spec fn digits_val(s: Seq<char>) -> int
    decreases s.len(),
{
    if s.len() == 0 {
        0
    } else {
        digits_val(s.drop_last()) * 10 + digit_val(s.last())
    }
}

pub proof fn lemma_digits_val_nonneg(s: Seq<char>)
    requires
        forall|i: int| 0 <= i < s.len() ==> is_digit(#[trigger] s[i]),
    ensures
        digits_val(s) >= 0,
    decreases s.len(),
{
    if s.len() > 0 {
        lemma_digits_val_nonneg(s.drop_last());
    }
}

/// Parses an unsigned decimal counter field.  Returns the value
/// exactly when the text is one or more digits and the value fits in
/// `u64`.
pub fn parse_u64(s: &str) -> (r: Option<u64>)
    ensures
        match r {
            Some(v) => {
                &&& s@.len() > 0
                &&& forall|i: int| 0 <= i < s@.len() ==> is_digit(#[trigger] s@[i])
                &&& v == digits_val(s@)
            },
            None => s@.len() == 0 || (exists|i: int| 0 <= i < s@.len() && !is_digit(#[trigger] s@[i]))
                || digits_val(s@) > u64::MAX,
        },
{
    let n = s.unicode_len();
    if n == 0 {
        return None;
    }
    let mut acc: u64 = 0;
    let mut i: usize = 0;
    while i < n
        invariant
            i <= n,
            n == s@.len(),
            forall|k: int| 0 <= k < i ==> is_digit(#[trigger] s@[k]),
            acc == digits_val(s@.subrange(0, i as int)),
        decreases n - i,
    {
        let c = s.get_char(i);
        if c < '0' || c > '9' {
            return None;
        }
        let d: u64 = (c as u32 as u64) - 48;
        proof {
            assert(d == digit_val(c));
        }
        if acc > (u64::MAX - d) / 10 {
            proof {
                let cur = s@.subrange(0, i as int);
                let next = s@.subrange(0, i + 1);
                assert(next.drop_last() =~= cur);
                assert(digits_val(next) == acc * 10 + d);
                assert(digits_val(next) > u64::MAX);
                if forall|k: int| 0 <= k < s@.len() ==> is_digit(#[trigger] s@[k]) {
                    lemma_digits_prefix_le(s@, i + 1);
                }
            }
            return None;
        }
        acc = acc * 10 + d;
        i = i + 1;
        proof {
            let cur = s@.subrange(0, i as int);
            assert(cur.drop_last() =~= s@.subrange(0, i - 1));
            assert(acc == digits_val(cur));
        }
    }
    proof {
        assert(s@.subrange(0, n as int) =~= s@);
    }
    Some(acc)
}

/// A digit string is worth at least any of its prefixes.
proof fn lemma_digits_prefix_le(s: Seq<char>, i: int)
    requires
        0 <= i <= s.len(),
        forall|k: int| 0 <= k < s.len() ==> is_digit(#[trigger] s[k]),
    ensures
        digits_val(s.subrange(0, i)) <= digits_val(s),
    decreases s.len() - i,
{
    if i < s.len() {
        let a = s.subrange(0, i);
        let b = s.subrange(0, i + 1);
        assert(b.drop_last() =~= a);
        assert(forall|k: int| 0 <= k < b.len() ==> is_digit(#[trigger] b[k]));
        lemma_digits_val_nonneg(a);
        assert(digit_val(b.last()) >= 0);
        assert(digits_val(b) == digits_val(a) * 10 + digit_val(b.last()));
        assert(digits_val(a) * 10 >= digits_val(a)) by (nonlinear_arith)
            requires
                digits_val(a) >= 0,
        ;
        lemma_digits_prefix_le(s, i + 1);
        assert(s.subrange(0, s.len() as int) =~= s);
    } else {
        assert(s.subrange(0, s.len() as int) =~= s);
    }
}

} // verus!
