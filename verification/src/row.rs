//! Process rows: the data shown per process, the filter that keeps a
//! row visible, and the total order that each sort mode induces.

use vstd::prelude::*;

use crate::text::{contains_chars, dec_chars, dec_spec, is_substring, lower_seq};

verus! {

/// Key the process table is sorted by.
#[derive(Clone, Copy, PartialEq, Eq, Structural, Debug)]
pub enum SortMode {
    Cpu,
    Mem,
    Pid,
    Name,
}

impl SortMode {
    /// The mode that follows in the fixed cycle Cpu, Mem, Pid, Name.
    pub open spec fn next_spec(self) -> SortMode {
        match self {
            SortMode::Cpu => SortMode::Mem,
            SortMode::Mem => SortMode::Pid,
            SortMode::Pid => SortMode::Name,
            SortMode::Name => SortMode::Cpu,
        }
    }

    /// The mode that precedes in the same cycle.
    pub open spec fn prev_spec(self) -> SortMode {
        match self {
            SortMode::Cpu => SortMode::Name,
            SortMode::Mem => SortMode::Cpu,
            SortMode::Pid => SortMode::Mem,
            SortMode::Name => SortMode::Pid,
        }
    }

    /// The following mode in the fixed cycle Cpu, Mem, Pid, Name.
    pub fn next(self) -> (r: Self)
        ensures
            r == self.next_spec(),
    {
        match self {
            Self::Cpu => Self::Mem,
            Self::Mem => Self::Pid,
            Self::Pid => Self::Name,
            Self::Name => Self::Cpu,
        }
    }

    /// The preceding mode in the same cycle.
    pub fn prev(self) -> (r: Self)
        ensures
            r == self.prev_spec(),
    {
        match self {
            Self::Cpu => Self::Name,
            Self::Mem => Self::Cpu,
            Self::Pid => Self::Mem,
            Self::Name => Self::Pid,
        }
    }
}

/// Label of a sort mode.
pub open spec fn sort_name_spec(mode: SortMode) -> Seq<char> {
    match mode {
        SortMode::Cpu => "cpu"@,
        SortMode::Mem => "mem"@,
        SortMode::Pid => "pid"@,
        SortMode::Name => "name"@,
    }
}

pub fn sort_name(mode: SortMode) -> (r: &'static str)
    ensures
        r@ == sort_name_spec(mode),
{
    match mode {
        SortMode::Cpu => "cpu",
        SortMode::Mem => "mem",
        SortMode::Pid => "pid",
        SortMode::Name => "name",
    }
}

/// One process as the table shows it.  CPU figures are centi-percent:
/// `cpu_raw_centi` on the multi-core scale `0..=10000*cores`,
/// `cpu_core_centi` the same figure divided by the core count, so both
/// display modes derive from one measurement.
pub struct ProcessRow {
    pub pid: u32,
    pub parent: Option<u32>,
    pub name: String,
    /// `name` in ASCII lowercase, kept for filtering.
    pub name_lc: Vec<char>,
    pub command: String,
    pub user: String,
    pub cpu_raw_centi: u32,
    pub cpu_core_centi: u32,
    pub mem_centi: u32,
    pub mem_bytes: u64,
    pub threads: u64,
    /// Connector drawn before the name in tree mode.
    pub tree_prefix: String,
}

/// The mathematical content of a [`ProcessRow`]: every text field as
/// its character sequence.  Contracts that rebuild strings (and so
/// cannot promise a particular `String` allocation) speak of rows at
/// this level.
pub ghost struct RowModel {
    pub pid: u32,
    pub parent: Option<u32>,
    pub name: Seq<char>,
    pub name_lc: Seq<char>,
    pub command: Seq<char>,
    pub user: Seq<char>,
    pub cpu_raw_centi: u32,
    pub cpu_core_centi: u32,
    pub mem_centi: u32,
    pub mem_bytes: u64,
    pub threads: u64,
    pub tree_prefix: Seq<char>,
}

impl View for ProcessRow {
    type V = RowModel;

    open spec fn view(&self) -> RowModel {
        RowModel {
            pid: self.pid,
            parent: self.parent,
            name: self.name@,
            name_lc: self.name_lc@,
            command: self.command@,
            user: self.user@,
            cpu_raw_centi: self.cpu_raw_centi,
            cpu_core_centi: self.cpu_core_centi,
            mem_centi: self.mem_centi,
            mem_bytes: self.mem_bytes,
            threads: self.threads,
            tree_prefix: self.tree_prefix@,
        }
    }
}

/// The models of a sequence of rows.
pub open spec fn models(s: Seq<ProcessRow>) -> Seq<RowModel> {
    s.map_values(|r: ProcessRow| r@)
}

impl ProcessRow {
    /// The cached lowercase name matches the name, and the per-core
    /// scaled figures are within their scales.
    pub open spec fn wf(self) -> bool {
        &&& self.name_lc@ == lower_seq(self.name@)
        &&& self.cpu_core_centi <= 10000
        &&& self.mem_centi <= 10000
    }

    /// The raw figure shown when a display mode is chosen: the
    /// per-core normalized value in per-core mode, else the raw
    /// multi-core value.
    pub open spec fn display_cpu_spec(self, per_core: bool) -> u32 {
        if per_core {
            self.cpu_core_centi
        } else {
            self.cpu_raw_centi
        }
    }

    pub fn display_cpu(&self, per_core: bool) -> (r: u32)
        ensures
            r == self.display_cpu_spec(per_core),
    {
        if per_core {
            self.cpu_core_centi
        } else {
            self.cpu_raw_centi
        }
    }

    /// A fresh row with the same model.
    pub fn duplicate(&self) -> (r: ProcessRow)
        ensures
            r@ == self@,
    {
        let r = ProcessRow {
            pid: self.pid,
            parent: self.parent,
            name: self.name.clone(),
            name_lc: self.name_lc.clone(),
            command: self.command.clone(),
            user: self.user.clone(),
            cpu_raw_centi: self.cpu_raw_centi,
            cpu_core_centi: self.cpu_core_centi,
            mem_centi: self.mem_centi,
            mem_bytes: self.mem_bytes,
            threads: self.threads,
            tree_prefix: self.tree_prefix.clone(),
        };
        proof {
            assert(r.name_lc@ =~= self.name_lc@);
        }
        r
    }
}

/// Whether a row stays visible under filter query `q`: an empty query
/// keeps everything; otherwise the lowercase name must contain the
/// lowercase query, or the decimal pid string must contain the query
/// as typed.
pub open spec fn row_matches(name_lc: Seq<char>, pid: u32, q: Seq<char>) -> bool {
    ||| q.len() == 0
    ||| is_substring(name_lc, lower_seq(q))
    ||| is_substring(dec_spec(pid as nat), q)
}

/// Filter test for one row; `q_lower` must be the lowercase of the
/// query as typed, which the caller computes once per rebuild.
pub fn matches_filter(row: &ProcessRow, q_raw: &Vec<char>, q_lower: &Vec<char>) -> (r: bool)
    requires
        q_lower@ == lower_seq(q_raw@),
    ensures
        r == row_matches(row.name_lc@, row.pid, q_raw@),
{
    if q_raw.len() == 0 {
        return true;
    }
    if contains_chars(&row.name_lc, q_lower) {
        return true;
    }
    let pid_digits = dec_chars(row.pid as u64);
    contains_chars(&pid_digits, q_raw)
}

/// Lexicographic order on character sequences (by code point, which
/// for UTF-8 text coincides with byte order).
pub open spec fn lex_le(a: Seq<char>, b: Seq<char>) -> bool
    decreases a.len(),
{
    if a.len() == 0 {
        true
    } else if b.len() == 0 {
        false
    } else if a[0] != b[0] {
        (a[0] as int) < (b[0] as int)
    } else {
        lex_le(a.drop_first(), b.drop_first())
    }
}

pub proof fn lemma_lex_le_connected(a: Seq<char>, b: Seq<char>)
    ensures
        lex_le(a, b) || lex_le(b, a),
    decreases a.len(),
{
    if a.len() > 0 && b.len() > 0 && a[0] == b[0] {
        lemma_lex_le_connected(a.drop_first(), b.drop_first());
    }
}

pub proof fn lemma_lex_le_antisym(a: Seq<char>, b: Seq<char>)
    requires
        lex_le(a, b),
        lex_le(b, a),
    ensures
        a == b,
    decreases a.len(),
{
    if a.len() == 0 {
        assert(b.len() == 0);
        assert(a =~= b);
    } else {
        assert(a[0] == b[0]);
        lemma_lex_le_antisym(a.drop_first(), b.drop_first());
        assert(a =~= Seq::<char>::empty().push(a[0]) + a.drop_first());
        assert(b =~= Seq::<char>::empty().push(b[0]) + b.drop_first());
    }
}

pub proof fn lemma_lex_le_trans(a: Seq<char>, b: Seq<char>, c: Seq<char>)
    requires
        lex_le(a, b),
        lex_le(b, c),
    ensures
        lex_le(a, c),
    decreases a.len(),
{
    if a.len() > 0 && b.len() > 0 && c.len() > 0 {
        if a[0] == b[0] && b[0] == c[0] {
            lemma_lex_le_trans(a.drop_first(), b.drop_first(), c.drop_first());
        }
    }
}

/// Exec lexicographic comparison of two strings.
pub fn str_lex_le(a: &str, b: &str) -> (r: bool)
    ensures
        r == lex_le(a@, b@),
{
    let an = a.unicode_len();
    let bn = b.unicode_len();
    proof {
        assert(a@.subrange(0, an as int) =~= a@);
        assert(b@.subrange(0, bn as int) =~= b@);
    }
    let mut i: usize = 0;
    loop
        invariant
            i <= an,
            i <= bn,
            an == a@.len(),
            bn == b@.len(),
            forall|k: int| 0 <= k < i ==> a@[k] == b@[k],
            lex_le(a@, b@) == lex_le(
                a@.subrange(i as int, an as int),
                b@.subrange(i as int, bn as int),
            ),
        decreases an - i,
    {
        proof {
            let sa = a@.subrange(i as int, an as int);
            let sb = b@.subrange(i as int, bn as int);
            if i < an && i < bn {
                assert(sa[0] == a@[i as int]);
                assert(sb[0] == b@[i as int]);
                assert(sa.drop_first() =~= a@.subrange(i + 1, an as int));
                assert(sb.drop_first() =~= b@.subrange(i + 1, bn as int));
            }
        }
        if i >= an {
            return true;
        }
        if i >= bn {
            return false;
        }
        let ca = a.get_char(i);
        let cb = b.get_char(i);
        if ca != cb {
            return (ca as u32) < (cb as u32);
        }
        i = i + 1;
    }
}

/// The CPU figure a row model shows under a display mode.
pub open spec fn display_cpu_m(r: RowModel, per_core: bool) -> u32 {
    if per_core {
        r.cpu_core_centi
    } else {
        r.cpu_raw_centi
    }
}

/// The order sort mode `mode` puts rows in; always a tie-break chain
/// ending at the pid, so rows with different pids never compare equal
/// both ways.  CPU and memory sort descending, pid and name ascending.
pub open spec fn row_le(mode: SortMode, per_core: bool, a: RowModel, b: RowModel) -> bool {
    match mode {
        SortMode::Cpu => {
            if display_cpu_m(a, per_core) != display_cpu_m(b, per_core) {
                display_cpu_m(a, per_core) > display_cpu_m(b, per_core)
            } else if a.mem_centi != b.mem_centi {
                a.mem_centi > b.mem_centi
            } else {
                a.pid <= b.pid
            }
        },
        SortMode::Mem => {
            if a.mem_centi != b.mem_centi {
                a.mem_centi > b.mem_centi
            } else if a.cpu_core_centi != b.cpu_core_centi {
                a.cpu_core_centi > b.cpu_core_centi
            } else {
                a.pid <= b.pid
            }
        },
        SortMode::Pid => a.pid <= b.pid,
        SortMode::Name => {
            if a.name != b.name {
                lex_le(a.name, b.name)
            } else {
                a.pid <= b.pid
            }
        },
    }
}

/// `row_le` relates any two rows one way or the other.
pub proof fn lemma_row_le_connected(mode: SortMode, per_core: bool, a: RowModel, b: RowModel)
    ensures
        row_le(mode, per_core, a, b) || row_le(mode, per_core, b, a),
{
    match mode {
        SortMode::Name => {
            if a.name != b.name {
                lemma_lex_le_connected(a.name, b.name);
            }
        },
        _ => {},
    }
}

/// `row_le` is transitive.
pub proof fn lemma_row_le_trans(
    mode: SortMode,
    per_core: bool,
    a: RowModel,
    b: RowModel,
    c: RowModel,
)
    requires
        row_le(mode, per_core, a, b),
        row_le(mode, per_core, b, c),
    ensures
        row_le(mode, per_core, a, c),
{
    match mode {
        SortMode::Name => {
            if a.name != b.name && b.name != c.name {
                lemma_lex_le_trans(a.name, b.name, c.name);
                if a.name == c.name {
                    lemma_lex_le_antisym(a.name, b.name);
                }
            }
        },
        _ => {},
    }
}

/// Exec comparison deciding `row_le` on the rows' models.
pub fn row_le_exec(mode: SortMode, per_core: bool, a: &ProcessRow, b: &ProcessRow) -> (r: bool)
    ensures
        r == row_le(mode, per_core, a@, b@),
{
    match mode {
        SortMode::Cpu => {
            let da = a.display_cpu(per_core);
            let db = b.display_cpu(per_core);
            if da != db {
                da > db
            } else if a.mem_centi != b.mem_centi {
                a.mem_centi > b.mem_centi
            } else {
                a.pid <= b.pid
            }
        },
        SortMode::Mem => {
            if a.mem_centi != b.mem_centi {
                a.mem_centi > b.mem_centi
            } else if a.cpu_core_centi != b.cpu_core_centi {
                a.cpu_core_centi > b.cpu_core_centi
            } else {
                a.pid <= b.pid
            }
        },
        SortMode::Pid => a.pid <= b.pid,
        SortMode::Name => {
            let le_ab = str_lex_le(a.name.as_str(), b.name.as_str());
            let le_ba = str_lex_le(b.name.as_str(), a.name.as_str());
            if le_ab && le_ba {
                proof {
                    lemma_lex_le_antisym(a.name@, b.name@);
                }
                a.pid <= b.pid
            } else {
                proof {
                    if a.name@ == b.name@ {
                        lemma_lex_le_connected(a.name@, b.name@);
                    }
                }
                le_ab
            }
        },
    }
}

} // verus!
