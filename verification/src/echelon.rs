//! What a row echelon form says of the matrix it came from: its pivot
//! columns, its rank and its nullspace.

use vstd::prelude::*;
use vstd::set_lib::{lemma_int_range, lemma_len_subset, set_int_range};
use crate::gf2::{
    apply_ops, col_dependent, dependency, dot, dot_from, dot_upto, echelon, has_col, is_matrix,
    is_pivot_col, lists_pivots, matrix_rank, ops_valid, pivot_set, unit_row, RowOp,
};
use crate::gf2_lemmas::{
    lemma_dot_upto_congruent, lemma_dot_upto_one_term, lemma_dot_upto_zero, lemma_ops_pivots,
};

verus! {

/// An inner product splits at any point into its head and its tail.
pub proof fn lemma_dot_split(a: Seq<bool>, b: Seq<bool>, s: int, n: nat)
    requires
        0 <= s <= n,
    ensures
        dot_upto(a, b, n) == (dot_upto(a, b, s as nat) != dot_from(a, b, s, n)),
    decreases n,
{
    if n > s {
        lemma_dot_split(a, b, s, (n - 1) as nat);
    }
}

/// Two tails whose terms agree agree.
pub proof fn lemma_dot_from_congruent(
    a1: Seq<bool>,
    b1: Seq<bool>,
    a2: Seq<bool>,
    b2: Seq<bool>,
    s: int,
    n: nat,
)
    requires
        0 <= s,
        forall|k: int| s <= k < n ==> (a1[k] && b1[k]) == (a2[k] && b2[k]),
    ensures
        dot_from(a1, b1, s, n) == dot_from(a2, b2, s, n),
    decreases n,
{
    if n > s {
        lemma_dot_from_congruent(a1, b1, a2, b2, s, (n - 1) as nat);
    }
}

/// A tail all of whose terms vanish is zero.
pub proof fn lemma_dot_from_zero(a: Seq<bool>, b: Seq<bool>, s: int, n: nat)
    requires
        0 <= s,
        forall|k: int| s <= k < n ==> !(a[k] && b[k]),
    ensures
        !dot_from(a, b, s, n),
    decreases n,
{
    if n > s {
        lemma_dot_from_zero(a, b, s, (n - 1) as nat);
    }
}

/// In an echelon form, every row after row `i` has a zero in the pivot
/// column of row `i`.
pub proof fn lemma_echelon_below_pivot(
    e: Seq<Seq<bool>>,
    rows: nat,
    cols: nat,
    p: Seq<usize>,
    i: int,
    r: int,
)
    requires
        is_matrix(e, rows, cols),
        echelon(e, cols, p),
        0 <= i < p.len(),
        i < r < rows,
    ensures
        !e[r][p[i] as int],
{
    if r < p.len() {
        assert(p[i] < p[r]);
    }
}

/// One step of back substitution: setting the pivot entry of row `i` to the
/// tail of that row's inner product makes the row orthogonal to the vector
/// and leaves the products of the rows below as they were.
pub proof fn lemma_back_sub_step(
    e: Seq<Seq<bool>>,
    rows: nat,
    cols: nat,
    p: Seq<usize>,
    i: int,
    x1: Seq<bool>,
)
    requires
        is_matrix(e, rows, cols),
        echelon(e, cols, p),
        0 <= i < p.len(),
        x1.len() == cols,
    ensures
        ({
            let x = x1.update(p[i] as int, dot_from(e[i], x1, p[i] + 1, cols));
            &&& !dot(e[i], x)
            &&& forall|r: int| i < r < rows ==> dot(#[trigger] e[r], x) == dot(e[r], x1)
        }),
{
    let c = p[i] as int;
    let v = dot_from(e[i], x1, c + 1, cols);
    let x = x1.update(c, v);
    lemma_dot_split(e[i], x, c + 1, cols);
    lemma_dot_from_congruent(e[i], x, e[i], x1, c + 1, cols);
    lemma_dot_upto_zero(e[i], x, c as nat);
    assert(e[i][c]);
    assert(dot_upto(e[i], x, (c + 1) as nat) == v);
    assert forall|r: int| i < r < rows implies dot(#[trigger] e[r], x) == dot(e[r], x1) by {
        lemma_echelon_below_pivot(e, rows, cols, p, i, r);
        lemma_dot_upto_congruent(e[r], x, e[r], x1, cols);
    }
}

/// Back substitution from the unit vector at a column `j` without pivot,
/// through the pivot rows from the last up to row `i`: the vector that
/// results has its last one at `j`, zeros at the other columns without
/// pivot, and is orthogonal to every row from `i` on.
pub proof fn lemma_back_substitute(
    e: Seq<Seq<bool>>,
    rows: nat,
    cols: nat,
    p: Seq<usize>,
    j: int,
    i: int,
) -> (x: Seq<bool>)
    requires
        is_matrix(e, rows, cols),
        echelon(e, cols, p),
        0 <= j < cols,
        !has_col(p, j),
        0 <= i <= p.len(),
    ensures
        x.len() == cols,
        x[j],
        forall|k: int| j < k < cols ==> !#[trigger] x[k],
        forall|f: int| 0 <= f < cols && f != j && !has_col(p, f) ==> !#[trigger] x[f],
        forall|r: int| i <= r < rows ==> !dot(#[trigger] e[r], x),
    decreases p.len() - i,
{
    if i == p.len() {
        let x = unit_row(cols, j);
        assert forall|r: int| i <= r < rows implies !dot(#[trigger] e[r], x) by {
            assert forall|k: int| 0 <= k < cols implies !(e[r][k] && x[k]) by {
                assert(!e[r][k]);
            }
            lemma_dot_upto_zero(e[r], x, cols);
        }
        x
    } else {
        let x1 = lemma_back_substitute(e, rows, cols, p, j, i + 1);
        let c = p[i] as int;
        let v = dot_from(e[i], x1, c + 1, cols);
        let x = x1.update(c, v);
        lemma_back_sub_step(e, rows, cols, p, i, x1);
        assert(has_col(p, c));
        assert(c != j);
        if c > j {
            lemma_dot_from_zero(e[i], x1, c + 1, cols);
        }
        assert forall|f: int| 0 <= f < cols && f != j && !has_col(p, f) implies !#[trigger] x[f] by {
            assert(f != c);
        }
        x
    }
}

/// A vector with its last one in the pivot column of row `i` is not
/// orthogonal to that row.
pub proof fn lemma_pivot_row_detects(
    e: Seq<Seq<bool>>,
    rows: nat,
    cols: nat,
    p: Seq<usize>,
    i: int,
    x: Seq<bool>,
)
    requires
        is_matrix(e, rows, cols),
        echelon(e, cols, p),
        0 <= i < p.len(),
        x.len() == cols,
        x[p[i] as int],
        forall|k: int| p[i] < k < cols ==> !#[trigger] x[k],
    ensures
        dot(e[i], x),
{
    lemma_dot_upto_one_term(e[i], x, cols, p[i] as int);
}

/// The pivots of an echelon form are its pivot columns.
pub proof fn lemma_echelon_lists_pivots(e: Seq<Seq<bool>>, rows: nat, cols: nat, p: Seq<usize>)
    requires
        is_matrix(e, rows, cols),
        echelon(e, cols, p),
    ensures
        lists_pivots(e, cols, p),
{
    assert forall|j: int| is_pivot_col(e, cols, j) <==> has_col(p, j) by {
        if has_col(p, j) {
            let i = choose|i: int| 0 <= i < p.len() && #[trigger] p[i] == j;
            assert(0 <= j < cols);
        }
        if 0 <= j < cols {
            if has_col(p, j) {
                let i = choose|i: int| 0 <= i < p.len() && #[trigger] p[i] == j;
                if col_dependent(e, cols, j) {
                    let x = choose|x: Seq<bool>| dependency(e, cols, j, x);
                    lemma_pivot_row_detects(e, rows, cols, p, i, x);
                    assert(!dot(e[i], x));
                }
            } else {
                let x = lemma_back_substitute(e, rows, cols, p, j, 0);
                assert(dependency(e, cols, j, x));
            }
        }
    }
}

/// A list of the pivot columns is as long as the rank, which the column
/// count bounds.
pub proof fn lemma_lists_pivots_rank(m: Seq<Seq<bool>>, cols: nat, p: Seq<usize>)
    requires
        lists_pivots(m, cols, p),
    ensures
        matrix_rank(m, cols) == p.len(),
        p.len() <= cols,
        pivot_set(m, cols).finite(),
{
    let s = p.map_values(|c: usize| c as int);
    assert(s.no_duplicates()) by {
        assert forall|a: int, b: int| 0 <= a < s.len()
            && 0 <= b < s.len()
            && a != b implies s[a] != s[b] by {
            if a < b {
                assert(p[a] < p[b]);
            } else {
                assert(p[b] < p[a]);
            }
        }
    }
    s.unique_seq_to_set();
    assert(s.to_set() =~= pivot_set(m, cols)) by {
        assert forall|j: int| s.to_set().contains(j) <==> pivot_set(m, cols).contains(j) by {
            if s.to_set().contains(j) {
                let i = choose|i: int| 0 <= i < s.len() && s[i] == j;
                assert(p[i] == j);
                assert(has_col(p, j));
            }
            if pivot_set(m, cols).contains(j) {
                assert(has_col(p, j));
                let i = choose|i: int| 0 <= i < p.len() && #[trigger] p[i] == j;
                assert(s[i] == j);
            }
        }
    }
    lemma_int_range(0, cols as int);
    assert(pivot_set(m, cols).subset_of(set_int_range(0, cols as int)));
    lemma_len_subset(pivot_set(m, cols), set_int_range(0, cols as int));
}

/// What elimination by row operations finds: the pivots of the echelon form
/// are the pivot columns of the matrix it began with, and their number is
/// its rank.
pub proof fn lemma_elimination_pivots(
    m: Seq<Seq<bool>>,
    ops: Seq<RowOp>,
    rows: nat,
    cols: nat,
    p: Seq<usize>,
)
    requires
        is_matrix(m, rows, cols),
        ops_valid(ops, rows),
        echelon(apply_ops(m, ops), cols, p),
    ensures
        lists_pivots(m, cols, p),
        matrix_rank(m, cols) == p.len(),
        p.len() <= cols,
{
    let e = apply_ops(m, ops);
    crate::gf2_lemmas::lemma_ops_shape(m, ops, rows, cols);
    lemma_echelon_lists_pivots(e, rows, cols, p);
    lemma_ops_pivots(m, ops, rows, cols);
    lemma_lists_pivots_rank(m, cols, p);
}

} // verus!
