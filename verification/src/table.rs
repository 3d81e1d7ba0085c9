//! The process table pipeline: filter, order, reverse, and the
//! re-resolution of the selected row.
//!
//! [`rebuild_spec`] is the whole pipeline as one function of the row
//! models and the view settings, so rebuilding twice from unchanged
//! state provably changes nothing.

use vstd::prelude::*;

use crate::row::{matches_filter, models, row_matches, ProcessRow, RowModel, SortMode};
use crate::sort::{mode_le, sort_rows, sort_rows_spec};
use crate::text::{lower_chars, lower_seq, str_chars};
use crate::tree::{distinct_pids_m, pids_of_m, tree_order_rows, tree_spec};

verus! {

/// The rows that survive filter query `q`, in their input order.
pub open spec fn filter_m(s: Seq<RowModel>, q: Seq<char>) -> Seq<RowModel>
    decreases s.len(),
{
    if s.len() == 0 {
        Seq::empty()
    } else {
        filter_m(s.drop_last(), q) + (if row_matches(s.last().name_lc, s.last().pid, q) {
            seq![s.last()]
        } else {
            Seq::empty()
        })
    }
}

/// The full pipeline: filter, then pid-ordered tree walk or mode
/// order, then an optional whole-list reversal.
pub open spec fn rebuild_spec(
    all: Seq<RowModel>,
    q: Seq<char>,
    mode: SortMode,
    per_core: bool,
    reverse: bool,
    tree: bool,
) -> Seq<RowModel> {
    let f = filter_m(all, q);
    let ordered = if tree {
        tree_spec(sort_rows_spec(f, mode_le(SortMode::Pid, per_core)))
    } else {
        sort_rows_spec(f, mode_le(mode, per_core))
    };
    if reverse {
        ordered.reverse()
    } else {
        ordered
    }
}

/// Copies the rows that match the filter query.
fn filter_rows(all: &Vec<ProcessRow>, q: &String) -> (out: Vec<ProcessRow>)
    ensures
        models(out@) == filter_m(models(all@), q@),
{
    let q_raw = str_chars(q.as_str());
    let q_lower = lower_chars(q.as_str());
    proof {
        assert(q_lower@ == lower_seq(q_raw@));
    }
    let n = all.len();
    let mut out: Vec<ProcessRow> = Vec::new();
    let mut i: usize = 0;
    proof {
        assert(models(all@).subrange(0, 0) =~= Seq::<RowModel>::empty());
        assert(models(out@) =~= filter_m(models(all@).subrange(0, 0), q@));
    }
    while i < n
        invariant
            i <= n,
            n == all@.len(),
            q_raw@ == q@,
            q_lower@ == lower_seq(q_raw@),
            models(out@) == filter_m(models(all@).subrange(0, i as int), q@),
        decreases n - i,
    {
        let ghost pre = models(all@).subrange(0, i as int);
        let ghost post = models(all@).subrange(0, i + 1);
        proof {
            assert(post.drop_last() =~= pre);
            assert(post.last() == all@[i as int]@);
        }
        if matches_filter(&all[i], &q_raw, &q_lower) {
            let ghost before = out@;
            out.push(all[i].duplicate());
            proof {
                assert(models(out@) =~= models(before) + seq![all@[i as int]@]);
                assert(models(out@) =~= filter_m(post, q@));
            }
        } else {
            proof {
                assert(models(out@) + Seq::<RowModel>::empty() =~= models(out@));
                assert(models(out@) =~= filter_m(post, q@));
            }
        }
        i = i + 1;
    }
    proof {
        assert(models(all@).subrange(0, n as int) =~= models(all@));
    }
    out
}

/// Reverses a row vector.
fn reverse_rows(rows: Vec<ProcessRow>) -> (out: Vec<ProcessRow>)
    ensures
        out@.len() == rows@.len(),
        models(out@) == models(rows@).reverse(),
{
    let ghost orig = rows@;
    let mut src = rows;
    let mut out: Vec<ProcessRow> = Vec::new();
    while src.len() > 0
        invariant
            src@.len() + out@.len() == orig.len(),
            src@ =~= orig.subrange(0, src@.len() as int),
            forall|t: int|
                0 <= t < out@.len() ==> #[trigger] out@[t] == orig[orig.len() - 1 - t],
        decreases src@.len(),
    {
        let ghost m = src@.len() as int;
        let x = src.pop().unwrap();
        proof {
            assert(x == orig[m - 1]);
            assert(src@ =~= orig.subrange(0, m - 1));
        }
        out.push(x);
    }
    proof {
        assert(models(out@) =~= models(orig).reverse());
    }
    out
}

/// Rebuilds the visible row list from the full set and the current
/// view settings; the result is exactly [`rebuild_spec`].
pub fn rebuild_rows(
    all: &Vec<ProcessRow>,
    q: &String,
    mode: SortMode,
    per_core: bool,
    reverse: bool,
    tree: bool,
) -> (out: Vec<ProcessRow>)
    ensures
        models(out@) == rebuild_spec(models(all@), q@, mode, per_core, reverse, tree),
{
    let filtered = filter_rows(all, q);
    let ordered = if tree {
        tree_order_rows(sort_rows(filtered, SortMode::Pid, per_core))
    } else {
        sort_rows(filtered, mode, per_core)
    };
    if reverse {
        reverse_rows(ordered)
    } else {
        ordered
    }
}

/// First index holding pid `pid`, if any.
pub open spec fn idx_of_pid_m(s: Seq<RowModel>, pid: u32) -> Option<int>
    decreases s.len(),
{
    if s.len() == 0 {
        Option::None
    } else if s[0].pid == pid {
        Option::Some(0)
    } else {
        match idx_of_pid_m(s.drop_first(), pid) {
            Option::Some(j) => Option::Some(j + 1),
            Option::None => Option::None,
        }
    }
}

pub proof fn lemma_idx_of_pid_m_props(s: Seq<RowModel>, pid: u32)
    ensures
        match idx_of_pid_m(s, pid) {
            Option::Some(j) => 0 <= j < s.len() && s[j].pid == pid && forall|k: int|
                0 <= k < j ==> (#[trigger] s[k]).pid != pid,
            Option::None => forall|k: int| 0 <= k < s.len() ==> (#[trigger] s[k]).pid != pid,
        },
    decreases s.len(),
{
    if s.len() > 0 && s[0].pid != pid {
        lemma_idx_of_pid_m_props(s.drop_first(), pid);
        let d = s.drop_first();
        match idx_of_pid_m(d, pid) {
            Option::Some(j) => {
                assert forall|k: int| 0 <= k < j + 1 implies (#[trigger] s[k]).pid != pid by {
                    if k > 0 {
                        assert(d[k - 1] == s[k]);
                    }
                }
            },
            Option::None => {
                assert forall|k: int| 0 <= k < s.len() implies (#[trigger] s[k]).pid != pid by {
                    if k > 0 {
                        assert(d[k - 1] == s[k]);
                    }
                }
            },
        }
    }
}

/// With distinct pids, looking up the pid found at an index gives
/// that index back.
pub proof fn lemma_idx_of_pid_m_self(s: Seq<RowModel>, i: int)
    requires
        distinct_pids_m(s),
        0 <= i < s.len(),
    ensures
        idx_of_pid_m(s, s[i].pid) == Option::Some(i),
    decreases i,
{
    if i == 0 {
    } else {
        assert(s[0].pid != s[i].pid);
        assert(distinct_pids_m(s.drop_first())) by {
            assert(forall|a: int, b: int|
                0 <= a < b < s.drop_first().len() ==> (#[trigger] s.drop_first()[a]).pid != (
                #[trigger] s.drop_first()[b]).pid);
        }
        lemma_idx_of_pid_m_self(s.drop_first(), i - 1);
    }
}

/// First index of `pid` in the visible rows.
pub fn find_pid(rows: &Vec<ProcessRow>, pid: u32) -> (r: Option<usize>)
    ensures
        match r {
            Option::Some(i) => idx_of_pid_m(models(rows@), pid) == Option::Some(i as int),
            Option::None => idx_of_pid_m(models(rows@), pid) is None,
        },
{
    let n = rows.len();
    let mut i: usize = 0;
    while i < n
        invariant
            i <= n,
            n == rows@.len(),
            forall|k: int| 0 <= k < i ==> (#[trigger] models(rows@)[k]).pid != pid,
        decreases n - i,
    {
        if rows[i].pid == pid {
            proof {
                lemma_idx_of_pid_m_first(models(rows@), pid, i as int);
            }
            return Option::Some(i);
        }
        i = i + 1;
    }
    proof {
        lemma_idx_of_pid_m_props(models(rows@), pid);
        if idx_of_pid_m(models(rows@), pid) is Some {
            let j = idx_of_pid_m(models(rows@), pid)->Some_0;
            assert(models(rows@)[j].pid == pid);
        }
    }
    Option::None
}

/// A pid present first at index `i` is found there.
proof fn lemma_idx_of_pid_m_first(s: Seq<RowModel>, pid: u32, i: int)
    requires
        0 <= i < s.len(),
        s[i].pid == pid,
        forall|k: int| 0 <= k < i ==> (#[trigger] s[k]).pid != pid,
    ensures
        idx_of_pid_m(s, pid) == Option::Some(i),
    decreases i,
{
    if i > 0 {
        lemma_idx_of_pid_m_first(s.drop_first(), pid, i - 1);
    }
}

/// Filtering keeps only input rows and preserves pid distinctness.
pub proof fn lemma_filter_m_distinct(s: Seq<RowModel>, q: Seq<char>)
    ensures
        forall|x: RowModel| #[trigger] filter_m(s, q).contains(x) ==> s.contains(x),
        distinct_pids_m(s) ==> distinct_pids_m(filter_m(s, q)),
        filter_m(s, q).len() <= s.len(),
    decreases s.len(),
{
    if s.len() == 0 {
    } else {
        let d = s.drop_last();
        lemma_filter_m_distinct(d, q);
        let f = filter_m(s, q);
        let fd = filter_m(d, q);
        assert forall|x: RowModel| #[trigger] f.contains(x) implies s.contains(x) by {
            let t = choose|t: int| 0 <= t < f.len() && f[t] == x;
            if t < fd.len() {
                assert(fd.contains(x));
                let u = choose|u: int| 0 <= u < d.len() && d[u] == x;
                assert(s[u] == x);
            } else {
                assert(x == s.last());
                assert(s[s.len() - 1] == x);
            }
        }
        if distinct_pids_m(s) {
            assert(distinct_pids_m(d)) by {
                assert(forall|a: int, b: int|
                    0 <= a < b < d.len() ==> (#[trigger] d[a]).pid != (#[trigger] d[b]).pid);
            }
            assert forall|a: int, b: int|
                0 <= a < b < f.len() implies (#[trigger] f[a]).pid != (#[trigger] f[b]).pid by {
                if b < fd.len() {
                } else {
                    assert(f[b] == s.last());
                    assert(fd.contains(f[a]));
                    let u = choose|u: int| 0 <= u < d.len() && d[u] == f[a];
                    assert(s[u].pid != s[s.len() - 1].pid);
                }
            }
        }
    }
}

/// Element-level permutation preserves pid distinctness.
proof fn lemma_distinct_m_from_multiset(x: Seq<RowModel>, y: Seq<RowModel>)
    requires
        x.to_multiset() == y.to_multiset(),
        distinct_pids_m(x),
    ensures
        distinct_pids_m(y),
{
    broadcast use vstd::seq_lib::group_to_multiset_ensures, vstd::multiset::group_multiset_axioms;

    assert forall|i: int, j: int|
        0 <= i < j < y.len() implies (#[trigger] y[i]).pid != (#[trigger] y[j]).pid by {
        if y[i] == y[j] {
            let s0 = y.subrange(0, j);
            let s1 = y.subrange(j, y.len() as int);
            assert(y =~= s0 + s1);
            vstd::seq_lib::lemma_multiset_commutative(s0, s1);
            assert(s0[i] == y[i]);
            assert(s0.contains(y[i]));
            assert(s0.to_multiset().count(y[i]) > 0);
            assert(s1[0] == y[j]);
            assert(s1.contains(y[j]));
            assert(s1.to_multiset().count(y[j]) > 0);
            assert(y.to_multiset().count(y[i]) >= 2);
            assert(x.to_multiset().count(y[i]) >= 2);
            let a = choose|a: int| 0 <= a < x.len() && x[a] == y[i];
            let x2 = x.remove(a);
            assert(x2.to_multiset() =~= x.to_multiset().remove(x[a]));
            assert(x2.to_multiset().count(y[i]) >= 1);
            assert(x2.contains(y[i]));
            let b2 = choose|b2: int| 0 <= b2 < x2.len() && x2[b2] == y[i];
            let b = if b2 < a {
                b2
            } else {
                b2 + 1
            };
            assert(x[b] == x2[b2]);
            assert(b != a);
            if a < b {
                assert(x[a].pid != x[b].pid);
            } else {
                assert(x[b].pid != x[a].pid);
            }
        } else {
            assert(y.contains(y[i]));
            assert(y.contains(y[j]));
            assert(x.to_multiset().count(y[i]) > 0);
            assert(x.to_multiset().count(y[j]) > 0);
            assert(x.contains(y[i]));
            assert(x.contains(y[j]));
            let a = choose|a: int| 0 <= a < x.len() && x[a] == y[i];
            let b = choose|b: int| 0 <= b < x.len() && x[b] == y[j];
            assert(a != b);
            if a < b {
                assert(x[a].pid != x[b].pid);
            } else {
                assert(x[b].pid != x[a].pid);
            }
        }
    }
}

/// Pid-level permutation preserves pid distinctness.
proof fn lemma_distinct_m_from_pid_multiset(x: Seq<RowModel>, y: Seq<RowModel>)
    requires
        pids_of_m(x).to_multiset() == pids_of_m(y).to_multiset(),
        distinct_pids_m(x),
    ensures
        distinct_pids_m(y),
{
    broadcast use vstd::seq_lib::group_to_multiset_ensures, vstd::multiset::group_multiset_axioms;

    let px = pids_of_m(x);
    let py = pids_of_m(y);
    assert(px.no_duplicates()) by {
        assert forall|a: int, b: int|
            0 <= a < px.len() && 0 <= b < px.len() && a != b implies px[a] != px[b] by {
            if a < b {
                assert(x[a].pid != x[b].pid);
            } else {
                assert(x[b].pid != x[a].pid);
            }
        }
    }
    px.lemma_multiset_has_no_duplicates();
    assert(forall|p: u32| #[trigger] py.to_multiset().contains(p) ==> py.to_multiset().count(p) == 1);
    py.lemma_multiset_has_no_duplicates_conv();
    assert forall|i: int, j: int|
        0 <= i < j < y.len() implies (#[trigger] y[i]).pid != (#[trigger] y[j]).pid by {
        assert(py[i] == y[i].pid);
        assert(py[j] == y[j].pid);
    }
}

/// The rebuilt list has distinct pids whenever the full set does.
pub proof fn lemma_rebuild_distinct(
    all: Seq<RowModel>,
    q: Seq<char>,
    mode: SortMode,
    per_core: bool,
    reverse: bool,
    tree: bool,
)
    requires
        distinct_pids_m(all),
    ensures
        distinct_pids_m(rebuild_spec(all, q, mode, per_core, reverse, tree)),
{
    let f = filter_m(all, q);
    lemma_filter_m_distinct(all, q);
    let sorted_tree = sort_rows_spec(f, mode_le(SortMode::Pid, per_core));
    let sorted_flat = sort_rows_spec(f, mode_le(mode, per_core));
    let ordered = if tree {
        tree_spec(sorted_tree)
    } else {
        sorted_flat
    };
    if tree {
        crate::sort::lemma_sort_rows_spec_props(f, SortMode::Pid, per_core);
        lemma_distinct_m_from_multiset(f, sorted_tree);
        crate::tree::lemma_tree_pids(sorted_tree);
        lemma_distinct_m_from_pid_multiset(sorted_tree, tree_spec(sorted_tree));
    } else {
        crate::sort::lemma_sort_rows_spec_props(f, mode, per_core);
        lemma_distinct_m_from_multiset(f, sorted_flat);
    }
    if reverse {
        assert forall|i: int, j: int|
            0 <= i < j < ordered.reverse().len() implies (#[trigger] ordered.reverse()[i]).pid != (
            #[trigger] ordered.reverse()[j]).pid by {
            assert(ordered.reverse()[i] == ordered[ordered.len() - 1 - i]);
            assert(ordered.reverse()[j] == ordered[ordered.len() - 1 - j]);
        }
    }
}

/// Rebuilding is idempotent: the pipeline is a function of the full
/// row set and the view settings, so an unchanged state rebuilds to
/// the same row order; and with distinct pids, re-resolving the pid
/// selected at any index finds exactly that index again, so the
/// selected pid never moves.
pub proof fn lemma_rebuild_idempotent(
    all: Seq<RowModel>,
    q: Seq<char>,
    mode: SortMode,
    per_core: bool,
    reverse: bool,
    tree: bool,
    prev_idx: int,
)
    requires
        distinct_pids_m(all),
        0 <= prev_idx < rebuild_spec(all, q, mode, per_core, reverse, tree).len(),
    ensures
        idx_of_pid_m(
            rebuild_spec(all, q, mode, per_core, reverse, tree),
            rebuild_spec(all, q, mode, per_core, reverse, tree)[prev_idx].pid,
        ) == Option::Some(prev_idx),
{
    lemma_rebuild_distinct(all, q, mode, per_core, reverse, tree);
    lemma_idx_of_pid_m_self(rebuild_spec(all, q, mode, per_core, reverse, tree), prev_idx);
}

} // verus!
