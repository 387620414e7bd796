//! Lemmas about inner products and row operations over GF(2).

use vstd::prelude::*;
use crate::gf2::{
    apply_col_op, apply_col_ops, apply_op, apply_ops, col_dependent, dependency, dot, dot_upto,
    in_null, is_matrix, is_pivot_col, op_valid, ops_valid, pivot_set, matrix_rank, row_xor, RowOp,
};

verus! {

/// Two inner products whose terms agree below `n` agree.
pub proof fn lemma_dot_upto_congruent(
    a1: Seq<bool>,
    b1: Seq<bool>,
    a2: Seq<bool>,
    b2: Seq<bool>,
    n: nat,
)
    requires
        forall|k: int| 0 <= k < n ==> (a1[k] && b1[k]) == (a2[k] && b2[k]),
    ensures
        dot_upto(a1, b1, n) == dot_upto(a2, b2, n),
    decreases n,
{
    if n > 0 {
        lemma_dot_upto_congruent(a1, b1, a2, b2, (n - 1) as nat);
    }
}

/// An inner product all of whose terms vanish is zero.
pub proof fn lemma_dot_upto_zero(a: Seq<bool>, b: Seq<bool>, n: nat)
    requires
        forall|k: int| 0 <= k < n ==> !(a[k] && b[k]),
    ensures
        !dot_upto(a, b, n),
    decreases n,
{
    if n > 0 {
        lemma_dot_upto_zero(a, b, (n - 1) as nat);
    }
}

/// Two inner products whose terms agree everywhere but at `p` differ by
/// the difference of their terms at `p`.
pub proof fn lemma_dot_upto_differ(
    a1: Seq<bool>,
    b1: Seq<bool>,
    a2: Seq<bool>,
    b2: Seq<bool>,
    n: nat,
    p: int,
)
    requires
        0 <= p < n,
        forall|k: int| 0 <= k < n && k != p ==> (a1[k] && b1[k]) == (a2[k] && b2[k]),
    ensures
        (dot_upto(a1, b1, n) != dot_upto(a2, b2, n)) == ((a1[p] && b1[p]) != (a2[p] && b2[p])),
    decreases n,
{
    if n - 1 == p {
        lemma_dot_upto_congruent(a1, b1, a2, b2, (n - 1) as nat);
    } else {
        lemma_dot_upto_differ(a1, b1, a2, b2, (n - 1) as nat, p);
    }
}

/// An inner product with one term that may not vanish equals that term.
pub proof fn lemma_dot_upto_one_term(a: Seq<bool>, b: Seq<bool>, n: nat, p: int)
    requires
        0 <= p < n,
        forall|k: int| 0 <= k < n && k != p ==> !(a[k] && b[k]),
    ensures
        dot_upto(a, b, n) == (a[p] && b[p]),
{
    let z = Seq::new(n, |k: int| false);
    lemma_dot_upto_zero(z, b, n);
    lemma_dot_upto_differ(a, b, z, b, n, p);
}

/// An inner product with two terms that may not vanish is their sum.
pub proof fn lemma_dot_upto_two_terms(a: Seq<bool>, b: Seq<bool>, n: nat, p: int, q: int)
    requires
        0 <= p < n,
        0 <= q < n,
        p != q,
        forall|k: int| 0 <= k < n && k != p && k != q ==> !(a[k] && b[k]),
    ensures
        dot_upto(a, b, n) == ((a[p] && b[p]) != (a[q] && b[q])),
{
    let a2 = Seq::new(n, |k: int| k == p && a[k]);
    lemma_dot_upto_one_term(a2, b, n, p);
    lemma_dot_upto_differ(a, b, a2, b, n, q);
}

/// The inner product is additive in its first argument.
pub proof fn lemma_dot_upto_xor(a: Seq<bool>, b: Seq<bool>, x: Seq<bool>, n: nat)
    requires
        n <= a.len(),
    ensures
        dot_upto(row_xor(a, b), x, n) == (dot_upto(a, x, n) != dot_upto(b, x, n)),
    decreases n,
{
    if n > 0 {
        lemma_dot_upto_xor(a, b, x, (n - 1) as nat);
    }
}

/// The inner product is additive in its second argument.
pub proof fn lemma_dot_upto_xor_right(a: Seq<bool>, x: Seq<bool>, y: Seq<bool>, n: nat)
    requires
        n <= x.len(),
    ensures
        dot_upto(a, row_xor(x, y), n) == (dot_upto(a, x, n) != dot_upto(a, y, n)),
    decreases n,
{
    if n > 0 {
        lemma_dot_upto_xor_right(a, x, y, (n - 1) as nat);
    }
}

/// The inner product is symmetric.
pub proof fn lemma_dot_upto_symmetric(a: Seq<bool>, b: Seq<bool>, n: nat)
    ensures
        dot_upto(a, b, n) == dot_upto(b, a, n),
    decreases n,
{
    if n > 0 {
        lemma_dot_upto_symmetric(a, b, (n - 1) as nat);
    }
}

/// A valid row operation keeps the shape of a matrix.
pub proof fn lemma_op_shape(m: Seq<Seq<bool>>, op: RowOp, rows: nat, cols: nat)
    requires
        is_matrix(m, rows, cols),
        op_valid(op, rows),
    ensures
        is_matrix(apply_op(m, op), rows, cols),
{
}

/// Valid row operations keep the shape of a matrix.
pub proof fn lemma_ops_shape(m: Seq<Seq<bool>>, ops: Seq<RowOp>, rows: nat, cols: nat)
    requires
        is_matrix(m, rows, cols),
        ops_valid(ops, rows),
    ensures
        is_matrix(apply_ops(m, ops), rows, cols),
    decreases ops.len(),
{
    if ops.len() > 0 {
        lemma_ops_shape(m, ops.drop_last(), rows, cols);
        lemma_op_shape(apply_ops(m, ops.drop_last()), ops.last(), rows, cols);
    }
}

/// Appending one operation applies it last.
pub proof fn lemma_apply_ops_push(m: Seq<Seq<bool>>, ops: Seq<RowOp>, op: RowOp)
    ensures
        apply_ops(m, ops.push(op)) == apply_op(apply_ops(m, ops), op),
        apply_col_ops(m, ops.push(op)) == apply_col_op(apply_col_ops(m, ops), op),
{
    assert(ops.push(op).drop_last() =~= ops);
}

/// A valid row operation keeps the nullspace.
pub proof fn lemma_op_null(m: Seq<Seq<bool>>, op: RowOp, rows: nat, cols: nat, x: Seq<bool>)
    requires
        is_matrix(m, rows, cols),
        op_valid(op, rows),
    ensures
        in_null(apply_op(m, op), x) == in_null(m, x),
{
    let m2 = apply_op(m, op);
    match op {
        RowOp::Swap(i, j) => {
            if in_null(m, x) {
                assert forall|r: int| 0 <= r < m2.len() implies !dot(#[trigger] m2[r], x) by {
                    if r == j {
                        assert(m2[r] == m[i]);
                    } else if r == i {
                        assert(m2[r] == m[j]);
                    } else {
                        assert(m2[r] == m[r]);
                    }
                }
            }
            if in_null(m2, x) {
                assert forall|r: int| 0 <= r < m.len() implies !dot(#[trigger] m[r], x) by {
                    if r == j {
                        assert(m2[i] == m[j] || i == j);
                        assert(m2[j] == m[i]);
                    } else if r == i {
                        assert(m2[j] == m[i]);
                    } else {
                        assert(m2[r] == m[r]);
                    }
                }
            }
        },
        RowOp::Add { src, dst } => {
            lemma_dot_upto_xor(m[dst], m[src], x, cols);
            assert(m2[dst] == row_xor(m[dst], m[src]));
            assert(m2[src] == m[src]);
            if in_null(m, x) {
                assert forall|r: int| 0 <= r < m2.len() implies !dot(#[trigger] m2[r], x) by {
                    if r != dst {
                        assert(m2[r] == m[r]);
                    }
                }
            }
            if in_null(m2, x) {
                assert forall|r: int| 0 <= r < m.len() implies !dot(#[trigger] m[r], x) by {
                    if r != dst {
                        assert(m2[r] == m[r]);
                    }
                }
            }
        },
    }
}

/// Valid row operations keep the nullspace.
pub proof fn lemma_ops_null(m: Seq<Seq<bool>>, ops: Seq<RowOp>, rows: nat, cols: nat, x: Seq<bool>)
    requires
        is_matrix(m, rows, cols),
        ops_valid(ops, rows),
    ensures
        in_null(apply_ops(m, ops), x) == in_null(m, x),
    decreases ops.len(),
{
    if ops.len() > 0 {
        lemma_ops_null(m, ops.drop_last(), rows, cols, x);
        lemma_ops_shape(m, ops.drop_last(), rows, cols);
        lemma_op_null(apply_ops(m, ops.drop_last()), ops.last(), rows, cols, x);
    }
}

/// Valid row operations keep which columns depend on columns to their left,
/// and so the pivot columns and the rank.
pub proof fn lemma_ops_pivots(m: Seq<Seq<bool>>, ops: Seq<RowOp>, rows: nat, cols: nat)
    requires
        is_matrix(m, rows, cols),
        ops_valid(ops, rows),
    ensures
        forall|j: int| col_dependent(apply_ops(m, ops), cols, j) == col_dependent(m, cols, j),
        forall|j: int| is_pivot_col(apply_ops(m, ops), cols, j) == is_pivot_col(m, cols, j),
        pivot_set(apply_ops(m, ops), cols) == pivot_set(m, cols),
        matrix_rank(apply_ops(m, ops), cols) == matrix_rank(m, cols),
{
    let e = apply_ops(m, ops);
    assert forall|j: int| col_dependent(e, cols, j) == col_dependent(m, cols, j) by {
        if col_dependent(e, cols, j) {
            let x = choose|x: Seq<bool>| dependency(e, cols, j, x);
            lemma_ops_null(m, ops, rows, cols, x);
            assert(dependency(m, cols, j, x));
        }
        if col_dependent(m, cols, j) {
            let x = choose|x: Seq<bool>| dependency(m, cols, j, x);
            lemma_ops_null(m, ops, rows, cols, x);
            assert(dependency(e, cols, j, x));
        }
    }
    assert(pivot_set(e, cols) =~= pivot_set(m, cols));
}

} // verus!
