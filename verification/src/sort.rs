//! Sorting of process rows.
//!
//! [`sort_rows_spec`] is the mathematical definition of the order the
//! table shows: an insertion sort of row models under [`row_le`],
//! which makes the result a function of the input models alone.  The
//! executable sort is proved to return exactly that sequence, which in
//! turn is proved to be a sorted permutation of its input.

use vstd::prelude::*;
use vstd::multiset::Multiset;
use vstd::relations::sorted_by;
use vstd::seq_lib::lemma_multiset_commutative;

use crate::row::{
    lemma_row_le_connected, lemma_row_le_trans, models, row_le, row_le_exec, ProcessRow, RowModel,
    SortMode,
};

verus! {

broadcast use vstd::seq_lib::group_to_multiset_ensures, vstd::multiset::group_multiset_axioms;

/// The comparison of one sort mode as a binary relation.
pub open spec fn mode_le(mode: SortMode, per_core: bool) -> spec_fn(RowModel, RowModel) -> bool {
    |a: RowModel, b: RowModel| row_le(mode, per_core, a, b)
}

/// `x` placed before the first element it compares at-or-before.
pub open spec fn insert_sorted(
    x: RowModel,
    s: Seq<RowModel>,
    le: spec_fn(RowModel, RowModel) -> bool,
) -> Seq<RowModel>
    decreases s.len(),
{
    if s.len() == 0 {
        seq![x]
    } else if le(x, s.first()) {
        seq![x] + s
    } else {
        seq![s.first()] + insert_sorted(x, s.drop_first(), le)
    }
}

/// The table order: every element inserted into the sorted rest.
pub open spec fn sort_rows_spec(
    s: Seq<RowModel>,
    le: spec_fn(RowModel, RowModel) -> bool,
) -> Seq<RowModel>
    decreases s.len(),
{
    if s.len() == 0 {
        Seq::empty()
    } else {
        insert_sorted(s.first(), sort_rows_spec(s.drop_first(), le), le)
    }
}

/// Where the insertion lands: before index `j`, where `j` is the first
/// position whose element `x` compares at-or-before.
proof fn lemma_insert_sorted_at(
    x: RowModel,
    s: Seq<RowModel>,
    le: spec_fn(RowModel, RowModel) -> bool,
    j: int,
)
    requires
        0 <= j <= s.len(),
        forall|k: int| 0 <= k < j ==> !le(x, #[trigger] s[k]),
        j < s.len() ==> le(x, s[j]),
    ensures
        insert_sorted(x, s, le) =~= s.subrange(0, j) + seq![x] + s.subrange(j, s.len() as int),
    decreases s.len(),
{
    if s.len() == 0 {
    } else if le(x, s.first()) {
        assert(j == 0);
    } else {
        assert(j >= 1);
        let d = s.drop_first();
        assert(forall|k: int| 0 <= k < j - 1 ==> !le(x, #[trigger] d[k]));
        lemma_insert_sorted_at(x, d, le, j - 1);
        assert(d.subrange(0, j - 1) =~= s.subrange(1, j));
        assert(d.subrange(j - 1, d.len() as int) =~= s.subrange(j, s.len() as int));
    }
}

/// Inserting into a sorted sequence keeps it sorted, adds exactly the
/// new element to the multiset, and introduces no foreign elements.
proof fn lemma_insert_sorted_props(x: RowModel, s: Seq<RowModel>, mode: SortMode, per_core: bool)
    requires
        sorted_by(s, mode_le(mode, per_core)),
    ensures
        sorted_by(insert_sorted(x, s, mode_le(mode, per_core)), mode_le(mode, per_core)),
        insert_sorted(x, s, mode_le(mode, per_core)).to_multiset() =~= s.to_multiset().insert(x),
        insert_sorted(x, s, mode_le(mode, per_core)).len() == s.len() + 1,
        forall|k: int|
            0 <= k < insert_sorted(x, s, mode_le(mode, per_core)).len() ==> insert_sorted(
                x,
                s,
                mode_le(mode, per_core),
            )[k] == x || s.contains(#[trigger] insert_sorted(x, s, mode_le(mode, per_core))[k]),
    decreases s.len(),
{
    let le = mode_le(mode, per_core);
    let r = insert_sorted(x, s, le);
    if s.len() == 0 {
        assert(seq![x].to_multiset() =~= s.to_multiset().insert(x));
    } else if le(x, s.first()) {
        assert(r =~= seq![x] + s);
        assert forall|i: int, j: int| 0 <= i < j < r.len() implies le(r[i], r[j]) by {
            if i == 0 {
                if j == 1 {
                    assert(le(x, s[0]));
                } else {
                    assert(le(s[0], s[j - 1]));
                    lemma_row_le_trans(mode, per_core, x, s[0], s[j - 1]);
                }
            } else {
                assert(le(s[i - 1], s[j - 1]));
            }
        }
        lemma_multiset_commutative(seq![x], s);
        assert(seq![x].to_multiset() =~= Multiset::<RowModel>::empty().insert(x));
        assert(r.to_multiset() =~= s.to_multiset().insert(x));
        assert forall|k: int| 0 <= k < r.len() implies r[k] == x || s.contains(#[trigger] r[k]) by {
            if k > 0 {
                assert(r[k] == s[k - 1]);
            }
        }
    } else {
        let d = s.drop_first();
        assert(sorted_by(d, le)) by {
            assert forall|i: int, j: int| 0 <= i < j < d.len() implies le(d[i], d[j]) by {
                assert(le(s[i + 1], s[j + 1]));
            }
        }
        lemma_insert_sorted_props(x, d, mode, per_core);
        let rd = insert_sorted(x, d, le);
        assert(r =~= seq![s.first()] + rd);
        lemma_row_le_connected(mode, per_core, x, s.first());
        assert(le(s.first(), x));
        assert forall|i: int, j: int| 0 <= i < j < r.len() implies le(r[i], r[j]) by {
            if i == 0 {
                assert(r[j] == rd[j - 1]);
                if rd[j - 1] == x {
                } else {
                    assert(d.contains(rd[j - 1]));
                    let w = choose|w: int| 0 <= w < d.len() && d[w] == rd[j - 1];
                    assert(le(s[0], s[w + 1]));
                }
            } else {
                assert(le(rd[i - 1], rd[j - 1]));
            }
        }
        lemma_multiset_commutative(seq![s.first()], rd);
        assert(seq![s.first()].to_multiset() =~= Multiset::<RowModel>::empty().insert(s.first()));
        assert(seq![s.first()] + d =~= s);
        lemma_multiset_commutative(seq![s.first()], d);
        assert(r.to_multiset() =~= s.to_multiset().insert(x));
        assert forall|k: int| 0 <= k < r.len() implies r[k] == x || s.contains(#[trigger] r[k]) by {
            if k == 0 {
                assert(s.contains(s.first()));
            } else {
                assert(r[k] == rd[k - 1]);
                if rd[k - 1] != x {
                    assert(d.contains(rd[k - 1]));
                    let w = choose|w: int| 0 <= w < d.len() && d[w] == rd[k - 1];
                    assert(s[w + 1] == d[w]);
                }
            }
        }
    }
}

/// The table order is a sorted permutation of its input.
pub proof fn lemma_sort_rows_spec_props(s: Seq<RowModel>, mode: SortMode, per_core: bool)
    ensures
        sorted_by(sort_rows_spec(s, mode_le(mode, per_core)), mode_le(mode, per_core)),
        sort_rows_spec(s, mode_le(mode, per_core)).to_multiset() =~= s.to_multiset(),
        sort_rows_spec(s, mode_le(mode, per_core)).len() == s.len(),
    decreases s.len(),
{
    let le = mode_le(mode, per_core);
    if s.len() == 0 {
    } else {
        lemma_sort_rows_spec_props(s.drop_first(), mode, per_core);
        lemma_insert_sorted_props(s.first(), sort_rows_spec(s.drop_first(), le), mode, per_core);
        assert(seq![s.first()] + s.drop_first() =~= s);
        lemma_multiset_commutative(seq![s.first()], s.drop_first());
        assert(seq![s.first()].to_multiset() =~= Multiset::<RowModel>::empty().insert(s.first()));
    }
}

/// Inserts `x` into the sorted vector `out` at its [`insert_sorted`]
/// position.
fn insert_row(out: &mut Vec<ProcessRow>, x: ProcessRow, mode: SortMode, per_core: bool)
    ensures
        models(final(out)@) == insert_sorted(x@, models(old(out)@), mode_le(mode, per_core)),
{
    let ghost le = mode_le(mode, per_core);
    let mut j: usize = 0;
    while j < out.len() && !row_le_exec(mode, per_core, &x, &out[j])
        invariant
            le == mode_le(mode, per_core),
            j <= out@.len(),
            out@ == old(out)@,
            forall|k: int| 0 <= k < j ==> !le(x@, (#[trigger] out@[k])@),
        decreases out@.len() - j,
    {
        j = j + 1;
    }
    proof {
        assert(forall|k: int| 0 <= k < j ==> !le(x@, #[trigger] models(out@)[k]));
        assert((j as int) < models(out@).len() ==> le(x@, models(out@)[j as int]));
        lemma_insert_sorted_at(x@, models(out@), le, j as int);
    }
    let ghost before = out@;
    out.insert(j, x);
    proof {
        assert(out@ =~= before.subrange(0, j as int) + seq![x] + before.subrange(
            j as int,
            before.len() as int,
        ));
        assert(models(out@) =~= models(before).subrange(0, j as int) + seq![x@] + models(
            before,
        ).subrange(j as int, models(before).len() as int));
    }
}

/// Sorts rows under the order of `mode`; the models of the result are
/// exactly [`sort_rows_spec`] of the input models, hence a
/// deterministic function of them.
pub fn sort_rows(rows: Vec<ProcessRow>, mode: SortMode, per_core: bool) -> (out: Vec<ProcessRow>)
    ensures
        models(out@) == sort_rows_spec(models(rows@), mode_le(mode, per_core)),
        sorted_by(models(out@), mode_le(mode, per_core)),
        models(out@).to_multiset() == models(rows@).to_multiset(),
        out@.len() == rows@.len(),
{
    let ghost le = mode_le(mode, per_core);
    let ghost orig = models(rows@);
    let mut src = rows;
    let mut out: Vec<ProcessRow> = Vec::new();
    proof {
        assert(models(src@) =~= orig.subrange(0, models(src@).len() as int));
        assert(orig.subrange(orig.len() as int, orig.len() as int) =~= Seq::<RowModel>::empty());
    }
    while src.len() > 0
        invariant
            le == mode_le(mode, per_core),
            src@.len() <= orig.len(),
            models(src@) =~= orig.subrange(0, src@.len() as int),
            models(out@) == sort_rows_spec(orig.subrange(src@.len() as int, orig.len() as int), le),
        decreases src@.len(),
    {
        let ghost m = src@.len() as int;
        let ghost src_before = src@;
        let x = src.pop().unwrap();
        proof {
            assert(models(src@) =~= orig.subrange(0, m - 1));
            assert(x == src_before[m - 1]);
            assert(models(src_before)[m - 1] == src_before[m - 1]@);
            assert(x@ == orig[m - 1]);
            let tail = orig.subrange(m - 1, orig.len() as int);
            assert(tail.first() == orig[m - 1]);
            assert(tail.drop_first() =~= orig.subrange(m, orig.len() as int));
        }
        insert_row(&mut out, x, mode, per_core);
    }
    proof {
        assert(orig.subrange(0, orig.len() as int) =~= orig);
        lemma_sort_rows_spec_props(orig, mode, per_core);
        assert(models(out@).len() == out@.len());
    }
    out
}

} // verus!
