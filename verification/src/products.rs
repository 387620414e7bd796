//! Lemmas about matrix products over GF(2) and how row operations act on
//! them.

use vstd::prelude::*;
use crate::gf2::{
    apply_col_op, apply_col_ops, apply_op, apply_ops, column, dot_upto, identity, is_matrix,
    mat_mul, op_valid, ops_valid, strictly_increasing, unit_row, RowOp,
};
use crate::gf2_lemmas::{
    lemma_dot_upto_congruent, lemma_dot_upto_differ, lemma_dot_upto_one_term,
    lemma_dot_upto_xor, lemma_ops_shape,
};

verus! {

/// Two inner products whose terms agree everywhere but at `p` and `q`
/// differ by the differences of their terms there.
pub proof fn lemma_dot_upto_differ_twice(
    a1: Seq<bool>,
    b1: Seq<bool>,
    a2: Seq<bool>,
    b2: Seq<bool>,
    n: nat,
    p: int,
    q: int,
)
    requires
        0 <= p < n,
        0 <= q < n,
        p != q,
        forall|k: int| 0 <= k < n && k != p && k != q ==> (a1[k] && b1[k]) == (a2[k] && b2[k]),
    ensures
        (dot_upto(a1, b1, n) != dot_upto(a2, b2, n)) == (((a1[p] && b1[p]) != (a2[p] && b2[p])) != (
        (a1[q] && b1[q]) != (a2[q] && b2[q]))),
    decreases n,
{
    if n - 1 == p {
        lemma_dot_upto_differ(a1, b1, a2, b2, (n - 1) as nat, q);
    } else if n - 1 == q {
        lemma_dot_upto_differ(a1, b1, a2, b2, (n - 1) as nat, p);
    } else {
        lemma_dot_upto_differ_twice(a1, b1, a2, b2, (n - 1) as nat, p, q);
    }
}

/// A row operation on the left factor is the same operation on the product.
pub proof fn lemma_op_mul(
    a: Seq<Seq<bool>>,
    op: RowOp,
    b: Seq<Seq<bool>>,
    rows: nat,
    n: nat,
    cols: nat,
)
    requires
        is_matrix(a, rows, n),
        op_valid(op, rows),
    ensures
        mat_mul(apply_op(a, op), b, cols) == apply_op(mat_mul(a, b, cols), op),
{
    let l = mat_mul(apply_op(a, op), b, cols);
    let m = mat_mul(a, b, cols);
    let r = apply_op(m, op);
    assert forall|i: int| 0 <= i < rows implies #[trigger] l[i] =~= r[i] by {
        match op {
            RowOp::Swap(s, t) => {},
            RowOp::Add { src, dst } => {
                if i == dst {
                    assert forall|j: int| 0 <= j < cols implies l[i][j] == r[i][j] by {
                        lemma_dot_upto_xor(a[dst], a[src], column(b, j), n);
                    }
                }
            },
        }
    }
    assert(l =~= r);
}

/// Row operations on the left factor are the same operations on the product.
pub proof fn lemma_ops_mul(
    a: Seq<Seq<bool>>,
    ops: Seq<RowOp>,
    b: Seq<Seq<bool>>,
    rows: nat,
    n: nat,
    cols: nat,
)
    requires
        is_matrix(a, rows, n),
        ops_valid(ops, rows),
    ensures
        mat_mul(apply_ops(a, ops), b, cols) == apply_ops(mat_mul(a, b, cols), ops),
    decreases ops.len(),
{
    if ops.len() > 0 {
        lemma_ops_mul(a, ops.drop_last(), b, rows, n, cols);
        lemma_ops_shape(a, ops.drop_last(), rows, n);
        lemma_op_mul(apply_ops(a, ops.drop_last()), ops.last(), b, rows, n, cols);
    }
}

/// The identity is neutral on the left.
pub proof fn lemma_identity_left(m: Seq<Seq<bool>>, rows: nat, cols: nat)
    requires
        is_matrix(m, rows, cols),
    ensures
        mat_mul(identity(rows), m, cols) == m,
{
    let l = mat_mul(identity(rows), m, cols);
    assert forall|i: int| 0 <= i < rows implies #[trigger] l[i] =~= m[i] by {
        assert forall|j: int| 0 <= j < cols implies l[i][j] == m[i][j] by {
            lemma_dot_upto_one_term(unit_row(rows, i), column(m, j), rows, i);
        }
    }
    assert(l =~= m);
}

/// A valid row operation undoes itself.
pub proof fn lemma_op_involution(m: Seq<Seq<bool>>, op: RowOp, rows: nat, cols: nat)
    requires
        is_matrix(m, rows, cols),
        op_valid(op, rows),
    ensures
        apply_op(apply_op(m, op), op) == m,
{
    let m2 = apply_op(apply_op(m, op), op);
    assert forall|i: int| 0 <= i < rows implies #[trigger] m2[i] =~= m[i] by {}
    assert(m2 =~= m);
}

/// Applying `op` and then `rest` is applying the list made of both.
pub proof fn lemma_apply_ops_prepend(m: Seq<Seq<bool>>, op: RowOp, rest: Seq<RowOp>)
    ensures
        apply_ops(m, seq![op] + rest) == apply_ops(apply_op(m, op), rest),
    decreases rest.len(),
{
    let all = seq![op] + rest;
    if rest.len() == 0 {
        assert(all.drop_last() =~= Seq::<RowOp>::empty());
        assert(apply_ops(m, all.drop_last()) == m);
    } else {
        assert(all.drop_last() =~= seq![op] + rest.drop_last());
        lemma_apply_ops_prepend(m, op, rest.drop_last());
    }
}

/// Valid row operations are undone by the same operations in reverse order.
pub proof fn lemma_ops_undo(m: Seq<Seq<bool>>, ops: Seq<RowOp>, rows: nat, cols: nat)
    requires
        is_matrix(m, rows, cols),
        ops_valid(ops, rows),
    ensures
        ops_valid(ops.reverse(), rows),
        apply_ops(apply_ops(m, ops), ops.reverse()) == m,
    decreases ops.len(),
{
    if ops.len() > 0 {
        let front = ops.drop_last();
        let op = ops.last();
        let mid = apply_ops(m, front);
        lemma_ops_undo(m, front, rows, cols);
        lemma_ops_shape(m, front, rows, cols);
        lemma_op_involution(mid, op, rows, cols);
        assert(ops.reverse() =~= seq![op] + front.reverse());
        lemma_apply_ops_prepend(apply_op(mid, op), op, front.reverse());
    }
}

/// A row operation on the right factor together with the column operation
/// that undoes it on the left factor leaves the product as it was.
pub proof fn lemma_col_op_product(
    y: Seq<Seq<bool>>,
    a: Seq<Seq<bool>>,
    op: RowOp,
    yrows: nat,
    rows: nat,
    cols: nat,
)
    requires
        is_matrix(y, yrows, rows),
        is_matrix(a, rows, cols),
        op_valid(op, rows),
    ensures
        mat_mul(apply_col_op(y, op), apply_op(a, op), cols) == mat_mul(y, a, cols),
        is_matrix(apply_col_op(y, op), yrows, rows),
{
    let y2 = apply_col_op(y, op);
    let a2 = apply_op(a, op);
    let l = mat_mul(y2, a2, cols);
    let r = mat_mul(y, a, cols);
    assert forall|i: int| 0 <= i < yrows implies #[trigger] l[i] =~= r[i] by {
        assert forall|j: int| 0 <= j < cols implies l[i][j] == r[i][j] by {
            match op {
                RowOp::Swap(s, t) => {
                    if s != t {
                        lemma_dot_upto_differ_twice(
                            y2[i],
                            column(a2, j),
                            y[i],
                            column(a, j),
                            rows,
                            s,
                            t,
                        );
                    } else {
                        lemma_dot_upto_congruent(y2[i], column(a2, j), y[i], column(a, j), rows);
                    }
                },
                RowOp::Add { src, dst } => {
                    lemma_dot_upto_differ_twice(
                        y2[i],
                        column(a2, j),
                        y[i],
                        column(a, j),
                        rows,
                        src,
                        dst,
                    );
                },
            }
        }
    }
    assert(l =~= r);
}

/// Row operations on the right factor together with the column operations
/// that undo them on the left factor leave the product as it was.
pub proof fn lemma_col_ops_product(
    y: Seq<Seq<bool>>,
    a: Seq<Seq<bool>>,
    ops: Seq<RowOp>,
    yrows: nat,
    rows: nat,
    cols: nat,
)
    requires
        is_matrix(y, yrows, rows),
        is_matrix(a, rows, cols),
        ops_valid(ops, rows),
    ensures
        mat_mul(apply_col_ops(y, ops), apply_ops(a, ops), cols) == mat_mul(y, a, cols),
        is_matrix(apply_col_ops(y, ops), yrows, rows),
    decreases ops.len(),
{
    if ops.len() > 0 {
        lemma_col_ops_product(y, a, ops.drop_last(), yrows, rows, cols);
        lemma_ops_shape(a, ops.drop_last(), rows, cols);
        lemma_col_op_product(
            apply_col_ops(y, ops.drop_last()),
            apply_ops(a, ops.drop_last()),
            ops.last(),
            yrows,
            rows,
            cols,
        );
    }
}

/// A growing list of `n` columns below `n` lists every column at its own
/// place.
pub proof fn lemma_full_pivots(p: Seq<usize>, n: nat)
    requires
        p.len() == n,
        strictly_increasing(p),
        forall|i: int| 0 <= i < n ==> (#[trigger] p[i]) < n,
    ensures
        forall|i: int| 0 <= i < n ==> (#[trigger] p[i]) == i,
{
    assert forall|i: int| 0 <= i < n implies (#[trigger] p[i]) == i by {
        lemma_increasing_lower(p, i);
        lemma_increasing_upper(p, n, i);
    }
}

/// The entry at `i` of a growing list is at least `i`.
proof fn lemma_increasing_lower(p: Seq<usize>, i: int)
    requires
        strictly_increasing(p),
        0 <= i < p.len(),
    ensures
        p[i] >= i,
    decreases i,
{
    if i > 0 {
        lemma_increasing_lower(p, i - 1);
        assert(p[i - 1] < p[i]);
    }
}

/// The entry at `i` of a growing list of `n` columns below `n` is at most `i`.
proof fn lemma_increasing_upper(p: Seq<usize>, n: nat, i: int)
    requires
        p.len() == n,
        strictly_increasing(p),
        forall|k: int| 0 <= k < n ==> (#[trigger] p[k]) < n,
        0 <= i < n,
    ensures
        p[i] <= i,
    decreases n - i,
{
    if i < n - 1 {
        lemma_increasing_upper(p, n, i + 1);
        assert(p[i] < p[i + 1]);
    }
}

} // verus!
