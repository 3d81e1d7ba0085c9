//! Tree ordering of the process table: a depth-first pre-order walk of
//! the parent/child forest.
//!
//! [`tree_spec`] defines the order mathematically, as an explicit-stack
//! walk over row models: roots (rows without a valid parent in the
//! set) are visited in pid order, every visited row is followed by its
//! remaining children in pid order, and a second pass over all rows
//! picks up anything a parent cycle kept unreachable, so no row is
//! ever dropped.  The executable walk is proved to emit exactly that
//! sequence.

use vstd::prelude::*;
use vstd::multiset::Multiset;

use crate::row::{models, ProcessRow, RowModel};

verus! {

/// A pending visit: the row index, the prefix its subtree inherits,
/// and whether the row is the last child of its parent.
pub ghost struct Frame {
    pub i: int,
    pub prefix: Seq<char>,
    pub is_last: bool,
}

/// What one walk leaves behind: the rows emitted, and which rows are
/// still unvisited.
pub ghost struct WalkOut {
    pub out: Seq<RowModel>,
    pub rem: Seq<bool>,
}

/// How many rows are still unvisited.
pub open spec fn count_rem(rem: Seq<bool>) -> nat
    decreases rem.len(),
{
    if rem.len() == 0 {
        0
    } else {
        count_rem(rem.drop_last()) + if rem.last() {
            1nat
        } else {
            0nat
        }
    }
}

pub proof fn lemma_count_rem_update(rem: Seq<bool>, i: int)
    requires
        0 <= i < rem.len(),
        rem[i],
    ensures
        count_rem(rem) >= 1,
        count_rem(rem.update(i, false)) == count_rem(rem) - 1,
    decreases rem.len(),
{
    let u = rem.update(i, false);
    if i == rem.len() - 1 {
        assert(u.drop_last() =~= rem.drop_last());
        lemma_count_rem_nonneg(rem.drop_last());
    } else {
        lemma_count_rem_update(rem.drop_last(), i);
        assert(u.drop_last() =~= rem.drop_last().update(i, false));
        assert(u.last() == rem.last());
    }
}

pub proof fn lemma_count_rem_nonneg(rem: Seq<bool>)
    ensures
        count_rem(rem) >= 0,
{
}

/// The row points at another pid as its parent.
pub open spec fn node_has_parent(r: RowModel) -> bool {
    match r.parent {
        Option::Some(p) => p != r.pid,
        Option::None => false,
    }
}

/// Some row in the set carries this pid.
pub open spec fn has_pid(rows: Seq<RowModel>, pid: u32) -> bool {
    exists|k: int| 0 <= k < rows.len() && (#[trigger] rows[k]).pid == pid
}

/// The row's parent pid names another row of the set.
pub open spec fn valid_parent(rows: Seq<RowModel>, i: int) -> bool {
    match rows[i].parent {
        Option::Some(p) => p != rows[i].pid && has_pid(rows, p),
        Option::None => false,
    }
}

/// Connector prefix written before the row itself.
pub open spec fn emit_prefix(r: RowModel, prefix: Seq<char>, is_last: bool) -> Seq<char> {
    if node_has_parent(r) {
        prefix + (if is_last {
            "└─ "@
        } else {
            "├─ "@
        })
    } else {
        Seq::empty()
    }
}

/// Prefix the row's children inherit.
pub open spec fn child_prefix(r: RowModel, prefix: Seq<char>, is_last: bool) -> Seq<char> {
    if node_has_parent(r) {
        prefix + (if is_last {
            "   "@
        } else {
            "│  "@
        })
    } else {
        Seq::empty()
    }
}

/// The row as the walk emits it: unchanged but for its prefix.
pub open spec fn emit_row_m(r: RowModel, prefix: Seq<char>, is_last: bool) -> RowModel {
    RowModel { tree_prefix: emit_prefix(r, prefix, is_last), ..r }
}

/// Row `j` is an unvisited child of the row with pid `pid`.
pub open spec fn is_child(rows: Seq<RowModel>, rem: Seq<bool>, j: int, pid: u32) -> bool {
    &&& 0 <= j < rows.len()
    &&& rem[j]
    &&& match rows[j].parent {
        Option::Some(p) => p == pid && rows[j].pid != pid,
        Option::None => false,
    }
}

/// Indices `>= from` of the unvisited children of `pid`, ascending.
pub open spec fn child_idxs(rows: Seq<RowModel>, rem: Seq<bool>, pid: u32, from: int) -> Seq<int>
    decreases rows.len() - from,
{
    if from < 0 || from >= rows.len() {
        Seq::empty()
    } else if is_child(rows, rem, from, pid) {
        seq![from] + child_idxs(rows, rem, pid, from + 1)
    } else {
        child_idxs(rows, rem, pid, from + 1)
    }
}

/// Visit frames for a child list: all share the inherited prefix, and
/// only the final child is marked last.
pub open spec fn child_frames(idxs: Seq<int>, cpre: Seq<char>) -> Seq<Frame> {
    Seq::new(
        idxs.len(),
        |k: int| Frame { i: idxs[k], prefix: cpre, is_last: k == idxs.len() - 1 },
    )
}

/// Runs the walk to completion: pops the top frame, skips it when the
/// row was already visited, otherwise emits the row and stacks its
/// unvisited children so the first child is visited next.
pub open spec fn run_walk(rows: Seq<RowModel>, rem: Seq<bool>, stack: Seq<Frame>) -> WalkOut
    decreases count_rem(rem), stack.len(),
    via run_walk_dec
{
    if stack.len() == 0 {
        WalkOut { out: Seq::empty(), rem }
    } else {
        let fr = stack.last();
        let rest = stack.drop_last();
        if fr.i < 0 || fr.i >= rows.len() || fr.i >= rem.len() || !rem[fr.i] {
            run_walk(rows, rem, rest)
        } else {
            let rem1 = rem.update(fr.i, false);
            let kids = child_idxs(rows, rem1, rows[fr.i].pid, 0);
            let kframes = child_frames(kids, child_prefix(rows[fr.i], fr.prefix, fr.is_last));
            let w = run_walk(rows, rem1, rest + kframes.reverse());
            WalkOut {
                out: seq![emit_row_m(rows[fr.i], fr.prefix, fr.is_last)] + w.out,
                rem: w.rem,
            }
        }
    }
}

#[via_fn]
proof fn run_walk_dec(rows: Seq<RowModel>, rem: Seq<bool>, stack: Seq<Frame>) {
    if stack.len() > 0 {
        let fr = stack.last();
        if !(fr.i < 0 || fr.i >= rows.len() || fr.i >= rem.len() || !rem[fr.i]) {
            lemma_count_rem_update(rem, fr.i);
        }
    }
}

/// Frames for the roots among indices below `upto`, stacked so the
/// smallest index is popped first.
pub open spec fn root_stack(rows: Seq<RowModel>, upto: int) -> Seq<Frame>
    decreases upto,
{
    if upto <= 0 {
        Seq::empty()
    } else if !valid_parent(rows, upto - 1) {
        seq![Frame { i: upto - 1, prefix: Seq::empty(), is_last: true }] + root_stack(
            rows,
            upto - 1,
        )
    } else {
        root_stack(rows, upto - 1)
    }
}

/// Frames for every index below `upto`, stacked so the smallest index
/// is popped first.
pub open spec fn all_stack(upto: int) -> Seq<Frame>
    decreases upto,
{
    if upto <= 0 {
        Seq::empty()
    } else {
        seq![Frame { i: upto - 1, prefix: Seq::empty(), is_last: true }] + all_stack(upto - 1)
    }
}

/// The tree order of a row set: a root-first walk, completed by a
/// walk seeded at every remaining row.
pub open spec fn tree_spec(rows: Seq<RowModel>) -> Seq<RowModel> {
    let rem0 = Seq::new(rows.len(), |i: int| true);
    let w1 = run_walk(rows, rem0, root_stack(rows, rows.len() as int));
    let w2 = run_walk(rows, w1.rem, all_stack(rows.len() as int));
    w1.out + w2.out
}

/// The pids of a row model sequence, in order.
pub open spec fn pids_of_m(s: Seq<RowModel>) -> Seq<u32> {
    s.map_values(|r: RowModel| r.pid)
}

/// No two row models carry the same pid.
pub open spec fn distinct_pids_m(s: Seq<RowModel>) -> bool {
    forall|i: int, j: int| 0 <= i < j < s.len() ==> (#[trigger] s[i]).pid != (#[trigger] s[j]).pid
}

/// The bag of pids of the rows still unvisited.
pub open spec fn rem_pids(rows: Seq<RowModel>, rem: Seq<bool>) -> Multiset<u32>
    decreases rem.len(),
{
    if rem.len() == 0 || rem.len() > rows.len() {
        Multiset::empty()
    } else {
        let rest = rem_pids(rows, rem.drop_last());
        if rem.last() {
            rest.insert(rows[rem.len() - 1].pid)
        } else {
            rest
        }
    }
}

proof fn lemma_rem_pids_update(rows: Seq<RowModel>, rem: Seq<bool>, i: int)
    requires
        rem.len() == rows.len(),
        0 <= i < rem.len(),
        rem[i],
    ensures
        rem_pids(rows, rem).count(rows[i].pid) >= 1,
        rem_pids(rows, rem.update(i, false)) =~= rem_pids(rows, rem).remove(rows[i].pid),
    decreases rem.len(),
{
    broadcast use vstd::multiset::group_multiset_axioms;

    let u = rem.update(i, false);
    if i == rem.len() - 1 {
        assert(u.drop_last() =~= rem.drop_last());
    } else {
        lemma_rem_pids_update_inner(rows, rem.drop_last(), i);
        assert(u.drop_last() =~= rem.drop_last().update(i, false));
        assert(u.last() == rem.last());
    }
}

/// Same as [`lemma_rem_pids_update`] but for a shorter unvisited mask
/// over the same row set.
proof fn lemma_rem_pids_update_inner(rows: Seq<RowModel>, rem: Seq<bool>, i: int)
    requires
        rem.len() <= rows.len(),
        0 <= i < rem.len(),
        rem[i],
    ensures
        rem_pids(rows, rem).count(rows[i].pid) >= 1,
        rem_pids(rows, rem.update(i, false)) =~= rem_pids(rows, rem).remove(rows[i].pid),
    decreases rem.len(),
{
    broadcast use vstd::multiset::group_multiset_axioms;

    let u = rem.update(i, false);
    if i == rem.len() - 1 {
        assert(u.drop_last() =~= rem.drop_last());
    } else {
        lemma_rem_pids_update_inner(rows, rem.drop_last(), i);
        assert(u.drop_last() =~= rem.drop_last().update(i, false));
        assert(u.last() == rem.last());
    }
}

proof fn lemma_rem_pids_all_true(rows: Seq<RowModel>, upto: int)
    requires
        0 <= upto <= rows.len(),
    ensures
        rem_pids(rows, Seq::new(upto as nat, |t: int| true)) =~= pids_of_m(
            rows.subrange(0, upto),
        ).to_multiset(),
    decreases upto,
{
    broadcast use vstd::multiset::group_multiset_axioms, vstd::seq_lib::group_to_multiset_ensures;

    let rem = Seq::new(upto as nat, |t: int| true);
    if upto == 0 {
        assert(pids_of_m(rows.subrange(0, 0)) =~= Seq::<u32>::empty());
        assert(Seq::<u32>::empty().to_multiset() =~= Multiset::<u32>::empty());
    } else {
        lemma_rem_pids_all_true(rows, upto - 1);
        assert(rem.drop_last() =~= Seq::new((upto - 1) as nat, |t: int| true));
        let shorter = pids_of_m(rows.subrange(0, upto - 1));
        assert(pids_of_m(rows.subrange(0, upto)) =~= shorter.push(rows[upto - 1].pid));
        assert(shorter.push(rows[upto - 1].pid).to_multiset() =~= shorter.to_multiset().insert(
            rows[upto - 1].pid,
        ));
    }
}

proof fn lemma_rem_pids_none(rows: Seq<RowModel>, rem: Seq<bool>)
    requires
        rem.len() <= rows.len(),
        forall|k: int| 0 <= k < rem.len() ==> !(#[trigger] rem[k]),
    ensures
        rem_pids(rows, rem) =~= Multiset::empty(),
    decreases rem.len(),
{
    if rem.len() > 0 {
        lemma_rem_pids_none(rows, rem.drop_last());
    }
}

/// One walk removes from the unvisited bag exactly the pids it emits.
proof fn lemma_run_walk_pids(rows: Seq<RowModel>, rem: Seq<bool>, stack: Seq<Frame>)
    requires
        rem.len() == rows.len(),
    ensures
        run_walk(rows, rem, stack).rem.len() == rem.len(),
        forall|k: int|
            0 <= k < rem.len() && (#[trigger] run_walk(rows, rem, stack).rem[k]) ==> rem[k],
        pids_of_m(run_walk(rows, rem, stack).out).to_multiset().add(
            rem_pids(rows, run_walk(rows, rem, stack).rem),
        ) =~= rem_pids(rows, rem),
    decreases count_rem(rem), stack.len(),
{
    broadcast use vstd::multiset::group_multiset_axioms, vstd::seq_lib::group_to_multiset_ensures;

    let w = run_walk(rows, rem, stack);
    if stack.len() == 0 {
        assert(pids_of_m(w.out) =~= Seq::<u32>::empty());
        assert(Seq::<u32>::empty().to_multiset() =~= Multiset::<u32>::empty());
    } else {
        let fr = stack.last();
        let rest = stack.drop_last();
        if fr.i < 0 || fr.i >= rows.len() || fr.i >= rem.len() || !rem[fr.i] {
            lemma_run_walk_pids(rows, rem, rest);
        } else {
            lemma_count_rem_update(rem, fr.i);
            lemma_rem_pids_update(rows, rem, fr.i);
            let rem1 = rem.update(fr.i, false);
            let kids = child_idxs(rows, rem1, rows[fr.i].pid, 0);
            let kframes = child_frames(kids, child_prefix(rows[fr.i], fr.prefix, fr.is_last));
            let w1 = run_walk(rows, rem1, rest + kframes.reverse());
            lemma_run_walk_pids(rows, rem1, rest + kframes.reverse());
            let e = emit_row_m(rows[fr.i], fr.prefix, fr.is_last);
            assert(pids_of_m(w.out) =~= seq![e.pid] + pids_of_m(w1.out));
            vstd::seq_lib::lemma_multiset_commutative(seq![e.pid], pids_of_m(w1.out));
            assert(seq![e.pid].to_multiset() =~= Multiset::<u32>::empty().insert(e.pid));
            assert(e.pid == rows[fr.i].pid);
            assert(pids_of_m(w.out).to_multiset().add(rem_pids(rows, w.rem)) =~= rem_pids(
                rows,
                rem1,
            ).insert(rows[fr.i].pid));
            assert(rem_pids(rows, rem1).insert(rows[fr.i].pid) =~= rem_pids(rows, rem));
        }
    }
}

/// Every in-range index that appears on the stack is visited by the
/// end of the walk, and a row visited during the walk has all its
/// children visited by the end of it.
proof fn lemma_run_walk_covers(rows: Seq<RowModel>, rem: Seq<bool>, stack: Seq<Frame>)
    requires
        rem.len() == rows.len(),
    ensures
        forall|t: int|
            0 <= t < stack.len() && 0 <= (#[trigger] stack[t]).i < rows.len() ==> !run_walk(
                rows,
                rem,
                stack,
            ).rem[stack[t].i],
        forall|k: int, c: int|
            #![trigger run_walk(rows, rem, stack).rem[k], run_walk(rows, rem, stack).rem[c]]
            0 <= k < rows.len() && 0 <= c < rows.len() && rem[k] && !run_walk(
                rows,
                rem,
                stack,
            ).rem[k] && (match rows[c].parent {
                Option::Some(p) => p == rows[k].pid && rows[c].pid != rows[k].pid,
                Option::None => false,
            }) ==> !run_walk(rows, rem, stack).rem[c],
    decreases count_rem(rem), stack.len(),
{
    let w = run_walk(rows, rem, stack);
    if stack.len() == 0 {
    } else {
        let fr = stack.last();
        let rest = stack.drop_last();
        if fr.i < 0 || fr.i >= rows.len() || fr.i >= rem.len() || !rem[fr.i] {
            lemma_run_walk_covers(rows, rem, rest);
            lemma_run_walk_pids(rows, rem, rest);
            assert forall|t: int|
                0 <= t < stack.len() && 0 <= (#[trigger] stack[t]).i < rows.len() implies !w.rem[stack[t].i] by {
                assert(w.rem == run_walk(rows, rem, rest).rem);
                if t < stack.len() - 1 {
                    assert(rest[t] == stack[t]);
                } else {
                    assert(!rem[fr.i]);
                    if w.rem[fr.i] {
                        assert(rem[fr.i]);
                    }
                }
            }
        } else {
            lemma_count_rem_update(rem, fr.i);
            let rem1 = rem.update(fr.i, false);
            let kids = child_idxs(rows, rem1, rows[fr.i].pid, 0);
            let kframes = child_frames(kids, child_prefix(rows[fr.i], fr.prefix, fr.is_last));
            let stack2 = rest + kframes.reverse();
            lemma_run_walk_covers(rows, rem1, stack2);
            lemma_run_walk_pids(rows, rem1, stack2);
            assert forall|t: int|
                0 <= t < stack.len() && 0 <= (#[trigger] stack[t]).i < rows.len() implies !w.rem[stack[t].i] by {
                assert(w.rem == run_walk(rows, rem1, stack2).rem);
                if t < stack.len() - 1 {
                    assert(stack2[t] == stack[t]);
                } else {
                    assert(!rem1[fr.i]);
                    if w.rem[fr.i] {
                        assert(rem1[fr.i]);
                    }
                }
            }
            assert forall|k: int, c: int|
                #![trigger w.rem[k], w.rem[c]]
                0 <= k < rows.len() && 0 <= c < rows.len() && rem[k] && !w.rem[k] && (
                match rows[c].parent {
                    Option::Some(p) => p == rows[k].pid && rows[c].pid != rows[k].pid,
                    Option::None => false,
                }) implies !w.rem[c] by {
                if rem1[k] {
                    // visited inside the recursive walk
                } else {
                    assert(k == fr.i);
                    if rem1[c] {
                        assert(is_child(rows, rem1, c, rows[fr.i].pid));
                        lemma_child_idxs_complete(rows, rem1, rows[fr.i].pid, c, 0);
                        let t = choose|t: int|
                            0 <= t < kids.len() && #[trigger] kids[t] == c;
                        assert(kframes.reverse()[kids.len() - 1 - t] == kframes[t]);
                        assert(stack2[rest.len() + kids.len() - 1 - t].i == c);
                    }
                }
            }
        }
    }
}

/// Every unvisited child of `pid` at or past `from` appears in the
/// child index list.
proof fn lemma_child_idxs_complete(
    rows: Seq<RowModel>,
    rem: Seq<bool>,
    pid: u32,
    c: int,
    from: int,
)
    requires
        0 <= from <= c,
        is_child(rows, rem, c, pid),
    ensures
        exists|t: int|
            0 <= t < child_idxs(rows, rem, pid, from).len() && #[trigger] child_idxs(
                rows,
                rem,
                pid,
                from,
            )[t] == c,
    decreases rows.len() - from,
{
    if from == c {
        assert(child_idxs(rows, rem, pid, from)[0] == c);
    } else {
        lemma_child_idxs_complete(rows, rem, pid, c, from + 1);
        let t = choose|t: int|
            0 <= t < child_idxs(rows, rem, pid, from + 1).len() && #[trigger] child_idxs(
                rows,
                rem,
                pid,
                from + 1,
            )[t] == c;
        if is_child(rows, rem, from, pid) {
            assert(child_idxs(rows, rem, pid, from)[t + 1] == c);
        } else {
            assert(child_idxs(rows, rem, pid, from)[t] == c);
        }
    }
}

proof fn lemma_all_stack_index(upto: int, t: int)
    requires
        0 <= t < upto,
    ensures
        all_stack(upto).len() == upto,
        all_stack(upto)[t] == (Frame { i: upto - 1 - t, prefix: Seq::empty(), is_last: true }),
    decreases upto,
{
    if t > 0 {
        lemma_all_stack_index(upto - 1, t - 1);
    } else if upto > 1 {
        lemma_all_stack_index(upto - 1, 0);
    }
}

proof fn lemma_all_stack_len(upto: int)
    requires
        upto >= 0,
    ensures
        all_stack(upto).len() == upto,
    decreases upto,
{
    if upto > 0 {
        lemma_all_stack_len(upto - 1);
    }
}

/// After the completing pass, nothing is left unvisited.
proof fn lemma_phase2_all_visited(rows: Seq<RowModel>, rem: Seq<bool>)
    requires
        rem.len() == rows.len(),
    ensures
        forall|k: int|
            0 <= k < rem.len() ==> !(#[trigger] run_walk(
                rows,
                rem,
                all_stack(rows.len() as int),
            ).rem[k]),
{
    let n = rows.len() as int;
    lemma_all_stack_len(n);
    lemma_run_walk_covers(rows, rem, all_stack(n));
    assert forall|k: int|
        0 <= k < rem.len() implies !(#[trigger] run_walk(rows, rem, all_stack(n)).rem[k]) by {
        lemma_all_stack_index(n, n - 1 - k);
        assert(all_stack(n)[n - 1 - k].i == k);
    }
}

/// The pid bag of the tree order is exactly that of its input: no row
/// is dropped or duplicated.
pub proof fn lemma_tree_pids(rows: Seq<RowModel>)
    ensures
        pids_of_m(tree_spec(rows)).to_multiset() =~= pids_of_m(rows).to_multiset(),
        tree_spec(rows).len() == rows.len(),
{
    broadcast use vstd::multiset::group_multiset_axioms, vstd::seq_lib::group_to_multiset_ensures;

    let n = rows.len() as int;
    let rem0 = Seq::new(rows.len(), |t: int| true);
    let w1 = run_walk(rows, rem0, root_stack(rows, n));
    let w2 = run_walk(rows, w1.rem, all_stack(n));
    lemma_run_walk_pids(rows, rem0, root_stack(rows, n));
    lemma_run_walk_pids(rows, w1.rem, all_stack(n));
    lemma_phase2_all_visited(rows, w1.rem);
    lemma_rem_pids_none(rows, w2.rem);
    lemma_rem_pids_all_true(rows, n);
    assert(rows.subrange(0, n) =~= rows);
    assert(pids_of_m(tree_spec(rows)) =~= pids_of_m(w1.out) + pids_of_m(w2.out));
    vstd::seq_lib::lemma_multiset_commutative(pids_of_m(w1.out), pids_of_m(w2.out));
    assert(pids_of_m(w2.out).to_multiset().add(Multiset::<u32>::empty()) =~= pids_of_m(
        w2.out,
    ).to_multiset());
    assert(pids_of_m(tree_spec(rows)).to_multiset() =~= pids_of_m(rows).to_multiset());
    assert(pids_of_m(tree_spec(rows)).to_multiset().len() == pids_of_m(
        rows,
    ).to_multiset().len());
}

/// The parent pid a row names, where it names one.
pub open spec fn parent_pid_of(rows: Seq<RowModel>, i: int) -> u32 {
    match rows[i].parent {
        Option::Some(p) => p,
        Option::None => 0,
    }
}

/// The row carrying pid `p` was already visited before the walk.
pub open spec fn pre_emitted(rows: Seq<RowModel>, rem: Seq<bool>, p: u32) -> bool {
    exists|k: int| 0 <= k < rows.len() && (#[trigger] rows[k]).pid == p && !rem[k]
}

/// If row `i` has a valid parent, every row carrying that parent pid
/// is already visited.
pub open spec fn parent_ok(rows: Seq<RowModel>, rem: Seq<bool>, i: int) -> bool {
    valid_parent(rows, i) ==> forall|k: int|
        0 <= k < rows.len() && (#[trigger] rows[k]).pid == parent_pid_of(rows, i) ==> !rem[k]
}

/// Row `t` of `out` respects parent order: a valid parent either
/// appears earlier in `out` or was visited before the walk began.
pub open spec fn order_ok_at(
    rows: Seq<RowModel>,
    rem0: Seq<bool>,
    out: Seq<RowModel>,
    t: int,
) -> bool {
    match out[t].parent {
        Option::Some(p) => (p != out[t].pid && has_pid(rows, p)) ==> ((exists|j: int|
            0 <= j < t && (#[trigger] out[j]).pid == p) || pre_emitted(rows, rem0, p)),
        Option::None => true,
    }
}

/// Children of `pid` in the child index list really are its children.
proof fn lemma_child_idxs_sound(rows: Seq<RowModel>, rem: Seq<bool>, pid: u32, from: int)
    ensures
        forall|t: int|
            0 <= t < child_idxs(rows, rem, pid, from).len() ==> is_child(
                rows,
                rem,
                #[trigger] child_idxs(rows, rem, pid, from)[t],
                pid,
            ),
    decreases rows.len() - from,
{
    if from < 0 || from >= rows.len() {
    } else {
        lemma_child_idxs_sound(rows, rem, pid, from + 1);
        assert forall|t: int|
            0 <= t < child_idxs(rows, rem, pid, from).len() implies is_child(
            rows,
            rem,
            #[trigger] child_idxs(rows, rem, pid, from)[t],
            pid,
        ) by {
            if is_child(rows, rem, from, pid) {
                if t > 0 {
                    assert(child_idxs(rows, rem, pid, from)[t] == child_idxs(
                        rows,
                        rem,
                        pid,
                        from + 1,
                    )[t - 1]);
                }
            } else {
                assert(child_idxs(rows, rem, pid, from)[t] == child_idxs(
                    rows,
                    rem,
                    pid,
                    from + 1,
                )[t]);
            }
        }
    }
}

/// Every row the walk emits respects parent order, provided every
/// stacked frame's row has its parent already visited (roots satisfy
/// this vacuously).
proof fn lemma_run_walk_order(rows: Seq<RowModel>, rem: Seq<bool>, stack: Seq<Frame>)
    requires
        rem.len() == rows.len(),
        distinct_pids_m(rows),
        forall|t: int|
            0 <= t < stack.len() && 0 <= (#[trigger] stack[t]).i < rows.len() ==> parent_ok(
                rows,
                rem,
                stack[t].i,
            ),
    ensures
        forall|t: int|
            0 <= t < run_walk(rows, rem, stack).out.len() ==> #[trigger] order_ok_at(
                rows,
                rem,
                run_walk(rows, rem, stack).out,
                t,
            ),
    decreases count_rem(rem), stack.len(),
{
    let w = run_walk(rows, rem, stack);
    if stack.len() == 0 {
    } else {
        let fr = stack.last();
        let rest = stack.drop_last();
        if fr.i < 0 || fr.i >= rows.len() || fr.i >= rem.len() || !rem[fr.i] {
            assert(forall|t: int| 0 <= t < rest.len() ==> rest[t] == #[trigger] stack[t]);
            lemma_run_walk_order(rows, rem, rest);
            assert(w == run_walk(rows, rem, rest));
            assert forall|t: int| 0 <= t < w.out.len() implies #[trigger] order_ok_at(
                rows,
                rem,
                w.out,
                t,
            ) by {
                assert(order_ok_at(rows, rem, run_walk(rows, rem, rest).out, t));
            }
        } else {
            lemma_count_rem_update(rem, fr.i);
            let rem1 = rem.update(fr.i, false);
            let kids = child_idxs(rows, rem1, rows[fr.i].pid, 0);
            let kframes = child_frames(kids, child_prefix(rows[fr.i], fr.prefix, fr.is_last));
            let stack2 = rest + kframes.reverse();
            lemma_child_idxs_sound(rows, rem1, rows[fr.i].pid, 0);
            assert forall|t: int|
                0 <= t < stack2.len() && 0 <= (#[trigger] stack2[t]).i < rows.len() implies parent_ok(
                rows,
                rem1,
                stack2[t].i,
            ) by {
                if t < rest.len() {
                    assert(stack2[t] == stack[t]);
                    assert(parent_ok(rows, rem, stack[t].i));
                } else {
                    let u = t - rest.len();
                    assert(stack2[t] == kframes.reverse()[u]);
                    assert(kframes.reverse()[u] == kframes[kids.len() - 1 - u]);
                    let c = kids[kids.len() - 1 - u];
                    assert(is_child(rows, rem1, c, rows[fr.i].pid));
                    if valid_parent(rows, c) {
                        assert(parent_pid_of(rows, c) == rows[fr.i].pid);
                        assert forall|k: int|
                            0 <= k < rows.len() && (#[trigger] rows[k]).pid == parent_pid_of(
                                rows,
                                c,
                            ) implies !rem1[k] by {
                            if k != fr.i {
                                if k < fr.i {
                                    assert(rows[k].pid != rows[fr.i].pid);
                                } else {
                                    assert(rows[fr.i].pid != rows[k].pid);
                                }
                            }
                        }
                    }
                }
            }
            lemma_run_walk_order(rows, rem1, stack2);
            let w1 = run_walk(rows, rem1, stack2);
            let e = emit_row_m(rows[fr.i], fr.prefix, fr.is_last);
            assert(w.out == seq![e] + w1.out);
            assert forall|t: int| 0 <= t < w.out.len() implies #[trigger] order_ok_at(
                rows,
                rem,
                w.out,
                t,
            ) by {
                if t == 0 {
                    match e.parent {
                        Option::Some(p) => {
                            if p != e.pid && has_pid(rows, p) {
                                assert(valid_parent(rows, fr.i));
                                assert(parent_ok(rows, rem, fr.i));
                                let k = choose|k: int|
                                    0 <= k < rows.len() && (#[trigger] rows[k]).pid == p;
                                assert(parent_pid_of(rows, fr.i) == p);
                                assert(!rem[k]);
                                assert(pre_emitted(rows, rem, p));
                            }
                        },
                        Option::None => {},
                    }
                } else {
                    assert(order_ok_at(rows, rem1, w1.out, t - 1));
                    match w.out[t].parent {
                        Option::Some(p) => {
                            if p != w.out[t].pid && has_pid(rows, p) {
                                assert(w.out[t] == w1.out[t - 1]);
                                if exists|j: int|
                                    0 <= j < t - 1 && (#[trigger] w1.out[j]).pid == p {
                                    let j = choose|j: int|
                                        0 <= j < t - 1 && (#[trigger] w1.out[j]).pid == p;
                                    assert(w.out[j + 1].pid == p);
                                } else {
                                    assert(pre_emitted(rows, rem1, p));
                                    let k = choose|k: int|
                                        0 <= k < rows.len() && (#[trigger] rows[k]).pid == p
                                            && !rem1[k];
                                    if rem[k] {
                                        assert(k == fr.i);
                                        assert(w.out[0].pid == p);
                                    } else {
                                        assert(pre_emitted(rows, rem, p));
                                    }
                                }
                            }
                        },
                        Option::None => {},
                    }
                }
            }
        }
    }
}

/// Whenever all roots sit below `upto`, each root index is on the
/// root stack.
proof fn lemma_root_stack_covers(rows: Seq<RowModel>, upto: int, i: int)
    requires
        0 <= i < upto,
        !valid_parent(rows, i),
    ensures
        exists|t: int|
            0 <= t < root_stack(rows, upto).len() && #[trigger] root_stack(rows, upto)[t] == (Frame {
                i,
                prefix: Seq::empty(),
                is_last: true,
            }),
    decreases upto,
{
    if i == upto - 1 {
        assert(root_stack(rows, upto)[0] == (Frame { i, prefix: Seq::empty(), is_last: true }));
    } else {
        lemma_root_stack_covers(rows, upto - 1, i);
        let t = choose|t: int|
            0 <= t < root_stack(rows, upto - 1).len() && #[trigger] root_stack(rows, upto - 1)[t]
                == (Frame { i, prefix: Seq::empty(), is_last: true });
        if !valid_parent(rows, upto - 1) {
            assert(root_stack(rows, upto)[t + 1] == root_stack(rows, upto - 1)[t]);
        } else {
            assert(root_stack(rows, upto)[t] == root_stack(rows, upto - 1)[t]);
        }
    }
}

/// The depth map witnesses that parent links are acyclic: each valid
/// parent sits at a strictly smaller depth.
pub open spec fn depth_ok(rows: Seq<RowModel>, d: Map<u32, int>) -> bool {
    &&& forall|i: int| 0 <= i < rows.len() ==> d[(#[trigger] rows[i]).pid] >= 0
    &&& forall|i: int, k: int|
        0 <= i < rows.len() && 0 <= k < rows.len() && (match rows[i].parent {
            Option::Some(p) => p == (#[trigger] rows[k]).pid && p != (#[trigger] rows[i]).pid,
            Option::None => false,
        }) ==> d[rows[k].pid] < d[rows[i].pid]
}

/// Under an acyclic parent relation, the root-first pass visits every
/// row: by induction over the depth map.
proof fn lemma_depth_visited(rows: Seq<RowModel>, d: Map<u32, int>, w1rem: Seq<bool>, i: int)
    requires
        distinct_pids_m(rows),
        depth_ok(rows, d),
        w1rem.len() == rows.len(),
        0 <= i < rows.len(),
        forall|k: int|
            0 <= k < rows.len() && !valid_parent(rows, k) ==> !(#[trigger] w1rem[k]),
        forall|k: int, c: int|
            #![trigger w1rem[k], w1rem[c]]
            0 <= k < rows.len() && 0 <= c < rows.len() && !w1rem[k] && (match rows[c].parent {
                Option::Some(p) => p == rows[k].pid && rows[c].pid != rows[k].pid,
                Option::None => false,
            }) ==> !w1rem[c],
    ensures
        !w1rem[i],
    decreases d[rows[i].pid],
{
    if !valid_parent(rows, i) {
    } else {
        let p = parent_pid_of(rows, i);
        let k = choose|k: int| 0 <= k < rows.len() && (#[trigger] rows[k]).pid == p;
        assert(d[rows[k].pid] < d[rows[i].pid]);
        lemma_depth_visited(rows, d, w1rem, k);
        assert(rows[i].pid != rows[k].pid);
    }
}

/// Tree order puts every valid parent before its children, whenever
/// the parent relation is acyclic (witnessed by a depth map `d`).  A
/// parent cycle among rows has no tree order that could satisfy this,
/// so such inputs are excluded; the walk still emits them, after
/// everything reachable from a root.
pub proof fn lemma_tree_parent_order(rows: Seq<RowModel>, d: Map<u32, int>)
    requires
        distinct_pids_m(rows),
        depth_ok(rows, d),
    ensures
        forall|t: int|
            0 <= t < tree_spec(rows).len() ==> (match (#[trigger] tree_spec(rows)[t]).parent {
                Option::Some(p) => (p != tree_spec(rows)[t].pid && has_pid(rows, p)) ==> exists|
                    j: int,
                |
                    0 <= j < t && (#[trigger] tree_spec(rows)[j]).pid == p,
                Option::None => true,
            }),
{
    let n = rows.len() as int;
    let rem0 = Seq::new(rows.len(), |t: int| true);
    let roots = root_stack(rows, n);
    let w1 = run_walk(rows, rem0, roots);
    lemma_run_walk_pids(rows, rem0, roots);
    lemma_run_walk_covers(rows, rem0, roots);
    lemma_root_stack_all_roots(rows, n);
    assert forall|t: int|
        0 <= t < roots.len() && 0 <= (#[trigger] roots[t]).i < rows.len() implies parent_ok(
        rows,
        rem0,
        roots[t].i,
    ) by {
        assert(!valid_parent(rows, roots[t].i));
    }
    lemma_run_walk_order(rows, rem0, roots);
    assert forall|k: int|
        0 <= k < rows.len() && !valid_parent(rows, k) implies !(#[trigger] w1.rem[k]) by {
        lemma_root_stack_covers(rows, n, k);
        let t = choose|t: int|
            0 <= t < roots.len() && #[trigger] roots[t] == (Frame {
                i: k,
                prefix: Seq::empty(),
                is_last: true,
            });
    }
    assert forall|i: int| 0 <= i < rows.len() implies !(#[trigger] w1.rem[i]) by {
        lemma_depth_visited(rows, d, w1.rem, i);
    }
    let w2 = run_walk(rows, w1.rem, all_stack(n));
    lemma_run_walk_no_rem(rows, w1.rem, all_stack(n));
    assert(tree_spec(rows) =~= w1.out);
    assert forall|t: int|
        0 <= t < tree_spec(rows).len() implies (match (#[trigger] tree_spec(rows)[t]).parent {
        Option::Some(p) => (p != tree_spec(rows)[t].pid && has_pid(rows, p)) ==> exists|j: int|
            0 <= j < t && (#[trigger] tree_spec(rows)[j]).pid == p,
        Option::None => true,
    }) by {
        assert(order_ok_at(rows, rem0, w1.out, t));
        match w1.out[t].parent {
            Option::Some(p) => {
                if p != w1.out[t].pid && has_pid(rows, p) {
                    assert(!pre_emitted(rows, rem0, p));
                }
            },
            Option::None => {},
        }
    }
}

/// Every frame on the root stack is a root.
proof fn lemma_root_stack_all_roots(rows: Seq<RowModel>, upto: int)
    ensures
        forall|t: int|
            0 <= t < root_stack(rows, upto).len() ==> !valid_parent(
                rows,
                (#[trigger] root_stack(rows, upto)[t]).i,
            ) && 0 <= root_stack(rows, upto)[t].i < upto,
    decreases upto,
{
    if upto > 0 {
        lemma_root_stack_all_roots(rows, upto - 1);
        assert forall|t: int|
            0 <= t < root_stack(rows, upto).len() implies !valid_parent(
            rows,
            (#[trigger] root_stack(rows, upto)[t]).i,
        ) && 0 <= root_stack(rows, upto)[t].i < upto by {
            if !valid_parent(rows, upto - 1) {
                if t > 0 {
                    assert(root_stack(rows, upto)[t] == root_stack(rows, upto - 1)[t - 1]);
                }
            } else {
                assert(root_stack(rows, upto)[t] == root_stack(rows, upto - 1)[t]);
            }
        }
    }
}

/// A walk over nothing unvisited emits nothing.
proof fn lemma_run_walk_no_rem(rows: Seq<RowModel>, rem: Seq<bool>, stack: Seq<Frame>)
    requires
        forall|k: int| 0 <= k < rem.len() ==> !(#[trigger] rem[k]),
    ensures
        run_walk(rows, rem, stack).out =~= Seq::<RowModel>::empty(),
        run_walk(rows, rem, stack).rem == rem,
    decreases count_rem(rem), stack.len(),
{
    if stack.len() > 0 {
        lemma_run_walk_no_rem(rows, rem, stack.drop_last());
    }
}

/// Which slots still hold their row.
pub open spec fn rem_of(opts: Seq<Option<ProcessRow>>) -> Seq<bool> {
    opts.map_values(|o: Option<ProcessRow>| o is Some)
}

/// The ghost frames of an executable visit stack.
pub open spec fn frames_view(s: Seq<(usize, String, bool)>) -> Seq<Frame> {
    s.map_values(|f: (usize, String, bool)| Frame { i: f.0 as int, prefix: f.1@, is_last: f.2 })
}

/// The integer view of an index vector.
pub open spec fn idxs_view(s: Seq<usize>) -> Seq<int> {
    s.map_values(|u: usize| u as int)
}

/// `meta` carries pid and parent pid of every row, in row order.
pub open spec fn meta_matches(meta: Seq<(u32, Option<u32>)>, rows_m: Seq<RowModel>) -> bool {
    &&& meta.len() == rows_m.len()
    &&& forall|j: int|
        0 <= j < meta.len() ==> (#[trigger] meta[j]).0 == rows_m[j].pid && meta[j].1
            == rows_m[j].parent
}

/// Each surviving slot holds a row whose model is the one the walk
/// was specified against.
pub open spec fn opts_match(opts: Seq<Option<ProcessRow>>, rows_m: Seq<RowModel>) -> bool {
    &&& opts.len() == rows_m.len()
    &&& forall|j: int|
        0 <= j < opts.len() ==> match #[trigger] opts[j] {
            Option::Some(r) => r@ == rows_m[j],
            Option::None => true,
        }
}

/// Takes the row out of slot `i`, leaving the slot empty.
fn take_row(opts: &mut Vec<Option<ProcessRow>>, i: usize) -> (r: ProcessRow)
    requires
        i < old(opts)@.len(),
        old(opts)@[i as int] is Some,
    ensures
        final(opts)@ == old(opts)@.update(i as int, Option::None),
        Option::Some(r) == old(opts)@[i as int],
{
    let x = opts.remove(i);
    opts.insert(i, Option::None);
    proof {
        assert(final(opts)@ =~= old(opts)@.update(i as int, Option::None));
    }
    x.unwrap()
}

/// The unvisited children of `pid`, in index (hence pid) order.
fn collect_children(
    meta: &Vec<(u32, Option<u32>)>,
    opts: &Vec<Option<ProcessRow>>,
    pid: u32,
    Ghost(rows_m): Ghost<Seq<RowModel>>,
) -> (kids: Vec<usize>)
    requires
        meta_matches(meta@, rows_m),
        opts_match(opts@, rows_m),
    ensures
        idxs_view(kids@) == child_idxs(rows_m, rem_of(opts@), pid, 0),
        forall|k: int| 0 <= k < kids@.len() ==> (#[trigger] kids@[k]) < rows_m.len(),
{
    let n = meta.len();
    let mut kids: Vec<usize> = Vec::new();
    let ghost rem = rem_of(opts@);
    let mut j: usize = 0;
    proof {
        assert(idxs_view(kids@) + child_idxs(rows_m, rem, pid, 0) =~= child_idxs(
            rows_m,
            rem,
            pid,
            0,
        ));
    }
    while j < n
        invariant
            j <= n,
            n == rows_m.len(),
            rem == rem_of(opts@),
            meta_matches(meta@, rows_m),
            opts_match(opts@, rows_m),
            idxs_view(kids@) + child_idxs(rows_m, rem, pid, j as int) == child_idxs(
                rows_m,
                rem,
                pid,
                0,
            ),
            forall|k: int| 0 <= k < kids@.len() ==> (#[trigger] kids@[k]) < rows_m.len(),
        decreases n - j,
    {
        let present = opts[j].is_some();
        let wanted = match meta[j].1 {
            Option::Some(p) => p == pid && meta[j].0 != pid,
            Option::None => false,
        };
        proof {
            assert(rem[j as int] == present);
            assert(is_child(rows_m, rem, j as int, pid) == (present && wanted));
        }
        if present && wanted {
            kids.push(j);
            proof {
                assert(idxs_view(kids@) =~= idxs_view(kids@.drop_last()) + seq![j as int]);
                assert(idxs_view(kids@) + child_idxs(rows_m, rem, pid, j + 1) =~= idxs_view(
                    kids@.drop_last(),
                ) + child_idxs(rows_m, rem, pid, j as int));
            }
        }
        j = j + 1;
    }
    kids
}

/// Runs one walk to completion over the executable state; emits into
/// `out` exactly the rows [`run_walk`] emits.
fn walk_phase(
    meta: &Vec<(u32, Option<u32>)>,
    opts: &mut Vec<Option<ProcessRow>>,
    out: &mut Vec<ProcessRow>,
    stack: Vec<(usize, String, bool)>,
    Ghost(rows_m): Ghost<Seq<RowModel>>,
) -> (r: Ghost<WalkOut>)
    requires
        meta_matches(meta@, rows_m),
        opts_match(old(opts)@, rows_m),
        forall|k: int| 0 <= k < stack@.len() ==> (#[trigger] stack@[k]).0 < rows_m.len(),
    ensures
        r@ == run_walk(rows_m, rem_of(old(opts)@), frames_view(stack@)),
        opts_match(final(opts)@, rows_m),
        models(final(out)@) == models(old(out)@) + r@.out,
        rem_of(final(opts)@) == r@.rem,
{
    let ghost total = run_walk(rows_m, rem_of(old(opts)@), frames_view(stack@));
    let mut stack = stack;
    while stack.len() > 0
        invariant
            meta_matches(meta@, rows_m),
            opts_match(opts@, rows_m),
            forall|k: int| 0 <= k < stack@.len() ==> (#[trigger] stack@[k]).0 < rows_m.len(),
            models(out@) + run_walk(rows_m, rem_of(opts@), frames_view(stack@)).out =~= models(
                old(out)@,
            ) + total.out,
            run_walk(rows_m, rem_of(opts@), frames_view(stack@)).rem == total.rem,
        decreases count_rem(rem_of(opts@)), stack@.len(),
    {
        let ghost stack_before = stack@;
        let ghost rem_before = rem_of(opts@);
        let (i, prefix, is_last) = stack.pop().unwrap();
        let ghost fr = Frame { i: i as int, prefix: prefix@, is_last };
        proof {
            assert(frames_view(stack_before).last() == fr);
            assert(frames_view(stack_before).drop_last() =~= frames_view(stack@));
        }
        if opts[i].is_some() {
            proof {
                assert(rem_before[i as int]);
                lemma_count_rem_update(rem_before, i as int);
            }
            let row = take_row(opts, i);
            let ghost rem1 = rem_of(opts@);
            proof {
                assert(rem1 =~= rem_before.update(i as int, false));
                assert(row@ == rows_m[i as int]);
            }
            let has_par = match row.parent {
                Option::Some(p) => p != row.pid,
                Option::None => false,
            };
            let eprefix: String = if has_par {
                if is_last {
                    prefix.clone().concat("└─ ")
                } else {
                    prefix.clone().concat("├─ ")
                }
            } else {
                String::new()
            };
            let cprefix: String = if has_par {
                if is_last {
                    prefix.concat("   ")
                } else {
                    prefix.concat("│  ")
                }
            } else {
                String::new()
            };
            proof {
                assert(eprefix@ == emit_prefix(rows_m[i as int], fr.prefix, is_last));
                assert(cprefix@ == child_prefix(rows_m[i as int], fr.prefix, is_last));
            }
            let pid = row.pid;
            let mut emitted = row;
            emitted.tree_prefix = eprefix;
            proof {
                assert(emitted@ == emit_row_m(rows_m[i as int], fr.prefix, is_last));
            }
            let ghost out_mid = out@;
            out.push(emitted);
            proof {
                assert(models(out@) =~= models(out_mid) + seq![
                    emit_row_m(rows_m[i as int], fr.prefix, is_last),
                ]);
            }
            let kids = collect_children(meta, opts, pid, Ghost(rows_m));
            let ghost kidxs = child_idxs(rows_m, rem1, pid, 0);
            let ghost kframes = child_frames(kidxs, cprefix@);
            let ghost rest = stack@;
            let kn = kids.len();
            let mut k = kn;
            while k > 0
                invariant
                    k <= kn,
                    kn == kids@.len(),
                    idxs_view(kids@) == kidxs,
                    kframes == child_frames(kidxs, cprefix@),
                    forall|t: int| 0 <= t < kids@.len() ==> (#[trigger] kids@[t]) < rows_m.len(),
                    frames_view(stack@) =~= frames_view(rest) + kframes.reverse().subrange(
                        0,
                        kn - k,
                    ),
                    forall|t: int| 0 <= t < stack@.len() ==> (#[trigger] stack@[t]).0 < rows_m.len(),
                decreases k,
            {
                let ghost stack_prev = stack@;
                stack.push((kids[k - 1], cprefix.clone(), k == kn));
                proof {
                    assert(idxs_view(kids@)[k - 1] == kids@[k - 1] as int);
                    assert(kframes.reverse()[kn - k] == kframes[k - 1]);
                    assert(kframes[k - 1] == Frame {
                        i: kidxs[k - 1],
                        prefix: cprefix@,
                        is_last: k == kn,
                    });
                    assert(frames_view(stack@) =~= frames_view(stack_prev) + seq![
                        Frame { i: kids@[k - 1] as int, prefix: cprefix@, is_last: k == kn },
                    ]);
                    assert(kframes.reverse().subrange(0, kn - k + 1) =~= kframes.reverse().subrange(
                        0,
                        kn - k,
                    ).push(kframes.reverse()[kn - k]));
                    assert(frames_view(stack@) =~= frames_view(rest)
                        + kframes.reverse().subrange(0, kn - k + 1));
                }
                k = k - 1;
            }
            proof {
                assert(kframes.reverse().subrange(0, kn as int) =~= kframes.reverse());
                assert(frames_view(stack@) =~= frames_view(rest) + kframes.reverse());
                assert(run_walk(rows_m, rem_before, frames_view(stack_before)) == WalkOut {
                    out: seq![emit_row_m(rows_m[i as int], fr.prefix, is_last)] + run_walk(
                        rows_m,
                        rem1,
                        frames_view(stack@),
                    ).out,
                    rem: run_walk(rows_m, rem1, frames_view(stack@)).rem,
                });
                assert(models(out@) + run_walk(rows_m, rem1, frames_view(stack@)).out =~= models(
                    out_mid,
                ) + run_walk(rows_m, rem_before, frames_view(stack_before)).out);
            }
        } else {
            proof {
                assert(!rem_before[i as int]);
                assert(run_walk(rows_m, rem_before, frames_view(stack_before)) == run_walk(
                    rows_m,
                    rem_before,
                    frames_view(stack@),
                ));
            }
        }
    }
    proof {
        assert(frames_view(stack@) =~= Seq::<Frame>::empty());
        assert(models(out@) + Seq::<RowModel>::empty() =~= models(out@));
        assert(models(out@) =~= models(old(out)@) + total.out);
    }
    Ghost(total)
}

/// Whether some row carries `pid`.
fn pid_present(meta: &Vec<(u32, Option<u32>)>, pid: u32, Ghost(rows_m): Ghost<Seq<RowModel>>) -> (r:
    bool)
    requires
        meta_matches(meta@, rows_m),
    ensures
        r == has_pid(rows_m, pid),
{
    let n = meta.len();
    let mut j: usize = 0;
    while j < n
        invariant
            j <= n,
            n == rows_m.len(),
            meta_matches(meta@, rows_m),
            forall|k: int| 0 <= k < j ==> (#[trigger] rows_m[k]).pid != pid,
        decreases n - j,
    {
        if meta[j].0 == pid {
            return true;
        }
        j = j + 1;
    }
    false
}

/// Whether row `i` has a valid parent: a parent pid that is not its
/// own and that another row of the set carries.
fn valid_parent_exec(
    meta: &Vec<(u32, Option<u32>)>,
    i: usize,
    Ghost(rows_m): Ghost<Seq<RowModel>>,
) -> (r: bool)
    requires
        meta_matches(meta@, rows_m),
        i < meta@.len(),
    ensures
        r == valid_parent(rows_m, i as int),
{
    match meta[i].1 {
        Option::Some(p) => p != meta[i].0 && pid_present(meta, p, Ghost(rows_m)),
        Option::None => false,
    }
}

/// Reorders rows as a parent/child forest walk; the result is exactly
/// [`tree_spec`] of the input models.
pub fn tree_order_rows(rows: Vec<ProcessRow>) -> (out: Vec<ProcessRow>)
    ensures
        models(out@) == tree_spec(models(rows@)),
{
    let ghost rows_m = models(rows@);
    let n = rows.len();

    let mut meta: Vec<(u32, Option<u32>)> = Vec::new();
    let mut i: usize = 0;
    while i < n
        invariant
            i <= n,
            n == rows@.len(),
            rows_m == models(rows@),
            meta@.len() == i,
            forall|j: int|
                0 <= j < i ==> (#[trigger] meta@[j]).0 == rows_m[j].pid && meta@[j].1
                    == rows_m[j].parent,
        decreases n - i,
    {
        meta.push((rows[i].pid, rows[i].parent));
        i = i + 1;
    }
    proof {
        assert(meta_matches(meta@, rows_m));
    }

    let ghost orig = rows@;
    let mut src = rows;
    let mut opts: Vec<Option<ProcessRow>> = Vec::new();
    while src.len() > 0
        invariant
            opts@.len() + src@.len() == n,
            n == orig.len(),
            src@ =~= orig.subrange(opts@.len() as int, n as int),
            forall|t: int| 0 <= t < opts@.len() ==> #[trigger] opts@[t] == Option::Some(orig[t]),
        decreases src@.len(),
    {
        let ghost k = opts@.len() as int;
        let x = src.remove(0);
        proof {
            assert(x == orig[k]);
            assert(src@ =~= orig.subrange(k + 1, n as int));
        }
        opts.push(Option::Some(x));
    }
    proof {
        assert(opts_match(opts@, rows_m));
        assert(rem_of(opts@) =~= Seq::new(rows_m.len(), |t: int| true));
    }

    let mut roots: Vec<(usize, String, bool)> = Vec::new();
    let mut i: usize = n;
    while i > 0
        invariant
            i <= n,
            n == rows_m.len(),
            meta_matches(meta@, rows_m),
            frames_view(roots@) + root_stack(rows_m, i as int) =~= root_stack(rows_m, n as int),
            forall|t: int| 0 <= t < roots@.len() ==> (#[trigger] roots@[t]).0 < rows_m.len(),
        decreases i,
    {
        i = i - 1;
        if !valid_parent_exec(&meta, i, Ghost(rows_m)) {
            let ghost prev = roots@;
            roots.push((i, String::new(), true));
            proof {
                assert(frames_view(roots@) =~= frames_view(prev) + seq![
                    Frame { i: i as int, prefix: Seq::empty(), is_last: true },
                ]);
                assert(root_stack(rows_m, i + 1) == seq![
                    Frame { i: i as int, prefix: Seq::empty(), is_last: true },
                ] + root_stack(rows_m, i as int));
            }
        } else {
            proof {
                assert(root_stack(rows_m, i + 1) == root_stack(rows_m, i as int));
            }
        }
    }
    proof {
        assert(root_stack(rows_m, 0) =~= Seq::<Frame>::empty());
        assert(frames_view(roots@) =~= root_stack(rows_m, n as int));
    }

    let mut out: Vec<ProcessRow> = Vec::new();
    let w1g = walk_phase(&meta, &mut opts, &mut out, roots, Ghost(rows_m));
    let ghost w1 = w1g@;

    let mut all: Vec<(usize, String, bool)> = Vec::new();
    let mut i: usize = n;
    while i > 0
        invariant
            i <= n,
            n == rows_m.len(),
            frames_view(all@) + all_stack(i as int) =~= all_stack(n as int),
            forall|t: int| 0 <= t < all@.len() ==> (#[trigger] all@[t]).0 < rows_m.len(),
        decreases i,
    {
        i = i - 1;
        let ghost prev = all@;
        all.push((i, String::new(), true));
        proof {
            assert(frames_view(all@) =~= frames_view(prev) + seq![
                Frame { i: i as int, prefix: Seq::empty(), is_last: true },
            ]);
            assert(all_stack(i + 1) == seq![
                Frame { i: i as int, prefix: Seq::empty(), is_last: true },
            ] + all_stack(i as int));
        }
    }
    proof {
        assert(all_stack(0) =~= Seq::<Frame>::empty());
        assert(frames_view(all@) =~= all_stack(n as int));
    }

    let ghost out_mid = out@;
    let w2g = walk_phase(&meta, &mut opts, &mut out, all, Ghost(rows_m));
    let ghost w2 = w2g@;
    proof {
        assert(models(out_mid) =~= Seq::<RowModel>::empty() + w1.out);
        assert(models(out@) =~= tree_spec(rows_m));
    }
    out
}

} // verus!
