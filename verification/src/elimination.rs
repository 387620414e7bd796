//! The row operations that Gaussian elimination performs, as a function of
//! the matrix.
//!
//! Columns are taken left to right. In each, the first row at or after the
//! next pivot row that holds a one is swapped into the pivot row, and the
//! pivot row is then added to the other rows that hold a one in the
//! column, from top to bottom: to those below it, and for a full reduction
//! to those above it as well.

use vstd::prelude::*;
use crate::gf2::{apply_col_ops, apply_op, apply_ops, RowOp};

verus! {

/// The first row at or after `from` that holds a one in column `c`; the
/// number of rows where there is none.
pub open spec fn first_one(m: Seq<Seq<bool>>, c: int, from: int) -> int
    decreases m.len() - from,
{
    if from >= m.len() {
        m.len() as int
    } else if m[from][c] {
        from
    } else {
        first_one(m, c, from + 1)
    }
}

/// The additions of the pivot row `r` to the rows from `from` up to
/// `upto`, other than `r`, that hold a one in column `c`.
pub open spec fn clearing_ops(m: Seq<Seq<bool>>, c: int, r: int, from: int, upto: int) -> Seq<RowOp>
    decreases upto - from,
{
    if upto <= from {
        Seq::empty()
    } else {
        let rest = clearing_ops(m, c, r, from, upto - 1);
        if upto - 1 != r && m[upto - 1][c] {
            rest.push(RowOp::Add { src: r, dst: upto - 1 })
        } else {
            rest
        }
    }
}

/// The swap that brings the row `p` into the pivot row `r`, if the two
/// differ.
pub open spec fn pivot_swap(r: int, p: int) -> Seq<RowOp> {
    if p != r {
        seq![RowOp::Swap(r, p)]
    } else {
        Seq::empty()
    }
}

/// The row operations for column `c` where `r` pivots have been found.
pub open spec fn column_ops(m: Seq<Seq<bool>>, c: int, r: int, full: bool) -> Seq<RowOp> {
    let p = first_one(m, c, r);
    if p >= m.len() {
        Seq::empty()
    } else {
        pivot_swap(r, p) + clearing_ops(
            apply_ops(m, pivot_swap(r, p)),
            c,
            r,
            if full {
                0
            } else {
                r + 1
            },
            m.len() as int,
        )
    }
}

/// The row operations of the elimination from column `c` on, where `r`
/// pivots have been found in the columns before.
pub open spec fn elimination_ops(m: Seq<Seq<bool>>, cols: nat, c: int, r: int, full: bool) -> Seq<
    RowOp,
>
    decreases cols - c,
{
    if c >= cols || r >= m.len() {
        Seq::empty()
    } else {
        let ops = column_ops(m, c, r, full);
        let next = if first_one(m, c, r) < m.len() {
            r + 1
        } else {
            r
        };
        ops + elimination_ops(apply_ops(m, ops), cols, c + 1, next, full)
    }
}

/// The row operations of Gaussian elimination on the matrix `m` of `cols`
/// columns, in the order performed.
pub open spec fn gauss_ops(m: Seq<Seq<bool>>, cols: nat, full: bool) -> Seq<RowOp> {
    elimination_ops(m, cols, 0, 0, full)
}

/// Applying one list of operations and then another is applying the two
/// joined.
pub proof fn lemma_apply_ops_concat(m: Seq<Seq<bool>>, a: Seq<RowOp>, b: Seq<RowOp>)
    ensures
        apply_ops(m, a + b) == apply_ops(apply_ops(m, a), b),
        apply_col_ops(m, a + b) == apply_col_ops(apply_col_ops(m, a), b),
    decreases b.len(),
{
    if b.len() == 0 {
        assert(a + b =~= a);
    } else {
        assert((a + b).drop_last() =~= a + b.drop_last());
        lemma_apply_ops_concat(m, a, b.drop_last());
    }
}

/// Applying a list of one operation is applying the operation.
pub proof fn lemma_apply_single(m: Seq<Seq<bool>>, op: RowOp)
    ensures
        apply_ops(m, seq![op]) == apply_op(m, op),
{
    assert(seq![op].drop_last() =~= Seq::<RowOp>::empty());
    assert(apply_ops(m, Seq::<RowOp>::empty()) == m);
}

/// The search for the first one may skip rows that hold none.
pub proof fn lemma_first_one_skip(m: Seq<Seq<bool>>, c: int, from: int, to: int)
    requires
        0 <= from <= to <= m.len(),
        forall|t: int| from <= t < to ==> !m[t][c],
    ensures
        first_one(m, c, from) == first_one(m, c, to),
    decreases to - from,
{
    if from < to {
        lemma_first_one_skip(m, c, from + 1, to);
    }
}

/// The additions that clear a column depend only on the column and on the
/// rows they are about.
pub proof fn lemma_clearing_ops_congruent(
    m1: Seq<Seq<bool>>,
    m2: Seq<Seq<bool>>,
    c: int,
    r: int,
    from: int,
    upto: int,
)
    requires
        0 <= from,
        forall|t: int| from <= t < upto ==> m1[t][c] == m2[t][c],
    ensures
        clearing_ops(m1, c, r, from, upto) == clearing_ops(m2, c, r, from, upto),
    decreases upto - from,
{
    if upto > from {
        lemma_clearing_ops_congruent(m1, m2, c, r, from, upto - 1);
    }
}

} // verus!
