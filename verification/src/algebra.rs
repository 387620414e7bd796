//! Algebraic laws of matrices over GF(2).

use vstd::prelude::*;
use vstd::set_lib::{lemma_int_range, lemma_set_disjoint_lens, set_int_range};
use crate::gf2::{
    basis_vector, col_dependent, column, combination, dependency, dot, dot_upto, has_col,
    identity, in_null, independent, is_matrix, is_pivot_col, is_zero, lists_free, mat_add,
    mat_mul, matrix_rank, nullspace_basis, pivot_set, row_xor, strictly_increasing, unit_row,
    zero_matrix, zero_row,
};
use crate::gf2_lemmas::{
    lemma_dot_upto_one_term, lemma_dot_upto_symmetric, lemma_dot_upto_xor,
    lemma_dot_upto_xor_right, lemma_dot_upto_zero,
};

verus! {

/// Addition of matrices is commutative: `a + b == b + a`.
pub proof fn lemma_mat_add_commutative(a: Seq<Seq<bool>>, b: Seq<Seq<bool>>, rows: nat, cols: nat)
    requires
        is_matrix(a, rows, cols),
        is_matrix(b, rows, cols),
    ensures
        mat_add(a, b) == mat_add(b, a),
{
    assert forall|i: int| 0 <= i < rows implies #[trigger] mat_add(a, b)[i] =~= mat_add(b, a)[i] by {}
    assert(mat_add(a, b) =~= mat_add(b, a));
}

/// Every matrix is its own negative: `a + a` is the zero matrix.
pub proof fn lemma_mat_add_self(a: Seq<Seq<bool>>, rows: nat, cols: nat)
    requires
        is_matrix(a, rows, cols),
    ensures
        mat_add(a, a) == zero_matrix(rows, cols),
{
    assert forall|i: int| 0 <= i < rows implies #[trigger] mat_add(a, a)[i] =~= zero_matrix(
        rows,
        cols,
    )[i] by {}
    assert(mat_add(a, a) =~= zero_matrix(rows, cols));
}

/// A scalar moves out of an inner product.
pub proof fn lemma_dot_upto_scale(s: bool, v: Seq<bool>, w: Seq<bool>, n: nat)
    requires
        n <= v.len(),
    ensures
        dot_upto(Seq::new(v.len(), |l: int| s && v[l]), w, n) == (s && dot_upto(v, w, n)),
    decreases n,
{
    if n > 0 {
        lemma_dot_upto_scale(s, v, w, (n - 1) as nat);
    }
}

/// The row vector `u * b`, with the sum cut off after `k` terms.
pub open spec fn row_times(u: Seq<bool>, b: Seq<Seq<bool>>, cols: nat, k: nat) -> Seq<bool> {
    Seq::new(cols, |l: int| dot_upto(u, column(b, l), k))
}

/// `(u * b) . w == u . (b * w)` for a row vector `u`, a matrix `b` and a
/// column vector `w`, with the sum over the rows of `b` cut off after `k`
/// terms.
pub proof fn lemma_row_times_dot(
    u: Seq<bool>,
    b: Seq<Seq<bool>>,
    w: Seq<bool>,
    n: nat,
    m: nat,
    k: nat,
)
    requires
        is_matrix(b, n, m),
        k <= n,
    ensures
        dot_upto(row_times(u, b, m, k), w, m) == dot_upto(
            u,
            Seq::new(n, |t: int| dot(b[t], w)),
            k,
        ),
    decreases k,
{
    let bw = Seq::new(n, |t: int| dot(b[t], w));
    if k == 0 {
        lemma_dot_upto_zero(row_times(u, b, m, 0), w, m);
    } else {
        let k1 = (k - 1) as nat;
        lemma_row_times_dot(u, b, w, n, m, k1);
        let prev = row_times(u, b, m, k1);
        let step = Seq::new(m, |l: int| u[k - 1] && b[k - 1][l]);
        assert(row_times(u, b, m, k) =~= row_xor(prev, step));
        lemma_dot_upto_xor(prev, step, w, m);
        lemma_dot_upto_scale(u[k - 1], b[k - 1], w, m);
        assert(step =~= Seq::new(b[k - 1].len(), |l: int| u[k - 1] && b[k - 1][l]));
    }
}

/// Multiplication of matrices is associative: `(a * b) * c == a * (b * c)`
/// where the shapes compose.
pub proof fn lemma_mat_mul_associative(
    a: Seq<Seq<bool>>,
    b: Seq<Seq<bool>>,
    c: Seq<Seq<bool>>,
    r: nat,
    n: nat,
    m: nat,
    p: nat,
)
    requires
        is_matrix(a, r, n),
        is_matrix(b, n, m),
        is_matrix(c, m, p),
    ensures
        mat_mul(mat_mul(a, b, m), c, p) == mat_mul(a, mat_mul(b, c, p), p),
{
    let ab = mat_mul(a, b, m);
    let bc = mat_mul(b, c, p);
    let l = mat_mul(ab, c, p);
    let rr = mat_mul(a, bc, p);
    assert forall|i: int| 0 <= i < r implies #[trigger] l[i] =~= rr[i] by {
        assert forall|j: int| 0 <= j < p implies l[i][j] == rr[i][j] by {
            let w = column(c, j);
            lemma_row_times_dot(a[i], b, w, n, m, n);
            assert(ab[i] =~= row_times(a[i], b, m, n));
            assert(column(bc, j) =~= Seq::new(n, |t: int| dot(b[t], w)));
        }
    }
    assert(l =~= rr);
}

/// The identity matrix has full rank.
pub proof fn lemma_rank_identity(n: nat)
    ensures
        matrix_rank(identity(n), n) == n,
{
    let id = identity(n);
    assert forall|j: int| 0 <= j < n implies is_pivot_col(id, n, j) by {
        if col_dependent(id, n, j) {
            let x = choose|x: Seq<bool>| dependency(id, n, j, x);
            lemma_dot_upto_one_term(unit_row(n, j), x, n, j);
            assert(id[j] == unit_row(n, j));
            assert(!dot(id[j], x));
        }
    }
    assert(pivot_set(id, n) =~= set_int_range(0, n as int));
    lemma_int_range(0, n as int);
}

/// A zero matrix has rank 0.
pub proof fn lemma_rank_zero(rows: nat, cols: nat)
    ensures
        matrix_rank(zero_matrix(rows, cols), cols) == 0,
{
    let z = zero_matrix(rows, cols);
    assert forall|j: int| 0 <= j < cols implies col_dependent(z, cols, j) by {
        let x = unit_row(cols, j);
        assert forall|i: int| 0 <= i < z.len() implies !dot(#[trigger] z[i], x) by {
            assert(z[i] == zero_row(cols));
            lemma_dot_upto_zero(z[i], x, cols);
        }
        assert(dependency(z, cols, j, x));
    }
    assert(pivot_set(z, cols) =~= Set::<int>::empty());
}

/// A column vector lies in the nullspace of `m` exactly where `m` times it
/// is the zero vector.
pub proof fn lemma_null_as_product(m: Seq<Seq<bool>>, v: Seq<Seq<bool>>, rows: nat, cols: nat)
    requires
        is_matrix(m, rows, cols),
        is_matrix(v, cols, 1),
    ensures
        in_null(m, column(v, 0)) <==> mat_mul(m, v, 1) == zero_matrix(rows, 1),
{
    let prod = mat_mul(m, v, 1);
    if in_null(m, column(v, 0)) {
        assert forall|i: int| 0 <= i < rows implies #[trigger] prod[i] =~= zero_matrix(rows, 1)[i] by {
            assert(!dot(m[i], column(v, 0)));
        }
        assert(prod =~= zero_matrix(rows, 1));
    }
    if prod == zero_matrix(rows, 1) {
        assert forall|i: int| 0 <= i < m.len() implies !dot(#[trigger] m[i], column(v, 0)) by {
            assert(prod[i][0] == dot(m[i], column(v, 0)));
            assert(zero_matrix(rows, 1)[i] == zero_row(1));
            assert(!zero_row(1)[0]);
        }
    }
}

/// The vectors that belong to the free columns are linearly independent:
/// no sum of some of them is zero.
pub proof fn lemma_basis_independent(m: Seq<Seq<bool>>, cols: nat, vs: Seq<Seq<bool>>)
    requires
        nullspace_basis(m, cols, vs),
    ensures
        independent(vs, cols),
{
    let free = choose|free: Seq<usize>|
        {
            &&& #[trigger] lists_free(m, cols, free)
            &&& free.len() == vs.len()
            &&& forall|k: int|
                0 <= k < vs.len() ==> basis_vector(m, cols, free[k] as int, #[trigger] vs[k])
        };
    assert forall|c: Seq<bool>|
        c.len() == vs.len() && is_zero(#[trigger] combination(vs, c, cols)) implies is_zero(c) by {
        assert forall|k: int| 0 <= k < c.len() implies !#[trigger] c[k] by {
            let f = free[k] as int;
            assert(basis_vector(m, cols, f, vs[k]));
            let col = column(vs, f);
            assert forall|t: int| 0 <= t < vs.len() && t != k implies !(c[t] && col[t]) by {
                assert(basis_vector(m, cols, free[t] as int, vs[t]));
                if t < k {
                    assert(free[t] < free[k]);
                } else {
                    assert(free[k] < free[t]);
                }
                assert(has_col(free, f));
                assert(!is_pivot_col(m, cols, f));
                assert(!vs[t][f]);
            }
            lemma_dot_upto_one_term(c, col, c.len(), k);
            assert(combination(vs, c, cols)[f] == dot(c, col));
            assert(col[k] == vs[k][f]);
        }
    }
}

/// The place of the last one of a vector that is not zero.
proof fn lemma_last_one(y: Seq<bool>, n: nat) -> (j: int)
    requires
        n <= y.len(),
        exists|k: int| 0 <= k < n && y[k],
    ensures
        0 <= j < n,
        y[j],
        forall|k: int| j < k < n ==> !y[k],
    decreases n,
{
    if y[n - 1] {
        n - 1
    } else {
        let k = choose|k: int| 0 <= k < n && y[k];
        assert(0 <= k < n - 1 && y[k]);
        lemma_last_one(y, (n - 1) as nat)
    }
}

/// A sum of vectors of the nullspace lies in the nullspace.
pub proof fn lemma_combination_in_null(
    m: Seq<Seq<bool>>,
    rows: nat,
    cols: nat,
    vs: Seq<Seq<bool>>,
    c: Seq<bool>,
)
    requires
        is_matrix(m, rows, cols),
        is_matrix(vs, vs.len(), cols),
        c.len() == vs.len(),
        forall|t: int| 0 <= t < vs.len() ==> in_null(m, #[trigger] vs[t]),
    ensures
        in_null(m, combination(vs, c, cols)),
{
    let n = vs.len();
    let sum = combination(vs, c, cols);
    assert forall|i: int| 0 <= i < m.len() implies !dot(#[trigger] m[i], sum) by {
        let w = m[i];
        lemma_row_times_dot(c, vs, w, n, cols, n);
        assert(sum =~= row_times(c, vs, cols, n));
        let inner = Seq::new(n, |t: int| dot(vs[t], w));
        assert forall|t: int| 0 <= t < n implies !(c[t] && inner[t]) by {
            lemma_dot_upto_symmetric(vs[t], w, cols);
            assert(in_null(m, vs[t]));
            assert(!dot(m[i], vs[t]));
        }
        lemma_dot_upto_zero(c, inner, n);
        lemma_dot_upto_symmetric(sum, w, cols);
    }
}

/// The vectors that belong to the free columns span the nullspace: every
/// vector of the nullspace is the sum of those among them whose free
/// column holds a one in it.
pub proof fn lemma_basis_spans(
    m: Seq<Seq<bool>>,
    rows: nat,
    cols: nat,
    vs: Seq<Seq<bool>>,
    x: Seq<bool>,
)
    requires
        is_matrix(m, rows, cols),
        nullspace_basis(m, cols, vs),
        x.len() == cols,
        in_null(m, x),
    ensures
        exists|c: Seq<bool>| c.len() == vs.len() && #[trigger] combination(vs, c, cols) == x,
{
    let free = choose|free: Seq<usize>|
        {
            &&& #[trigger] lists_free(m, cols, free)
            &&& free.len() == vs.len()
            &&& forall|k: int|
                0 <= k < vs.len() ==> basis_vector(m, cols, free[k] as int, #[trigger] vs[k])
        };
    let n = vs.len();
    let c = Seq::new(n, |k: int| x[free[k] as int]);
    let sum = combination(vs, c, cols);
    assert forall|t: int| 0 <= t < n implies (#[trigger] vs[t]).len() == cols && in_null(m, vs[t]) by {
        assert(basis_vector(m, cols, free[t] as int, vs[t]));
    }
    lemma_combination_in_null(m, rows, cols, vs, c);
    let y = row_xor(x, sum);
    assert(in_null(m, y)) by {
        assert forall|i: int| 0 <= i < m.len() implies !dot(#[trigger] m[i], y) by {
            lemma_dot_upto_xor_right(m[i], x, sum, cols);
        }
    }
    assert forall|k: int| 0 <= k < n implies !y[#[trigger] free[k] as int] by {
        let f = free[k] as int;
        assert(basis_vector(m, cols, f, vs[k]));
        let col = column(vs, f);
        assert forall|t: int| 0 <= t < n && t != k implies !(c[t] && col[t]) by {
            assert(basis_vector(m, cols, free[t] as int, vs[t]));
            if t < k {
                assert(free[t] < free[k]);
            } else {
                assert(free[k] < free[t]);
            }
            assert(has_col(free, f));
            assert(!is_pivot_col(m, cols, f));
        }
        lemma_dot_upto_one_term(c, col, n, k);
        assert(sum[f] == dot(c, col));
    }
    if exists|k: int| 0 <= k < cols && y[k] {
        let j = lemma_last_one(y, cols);
        if is_pivot_col(m, cols, j) {
            assert(dependency(m, cols, j, y));
        } else {
            assert(has_col(free, j));
            let k = choose|k: int| 0 <= k < free.len() && #[trigger] free[k] == j;
            assert(!y[free[k] as int]);
        }
        assert(false);
    }
    assert(sum =~= x) by {
        assert forall|k: int| 0 <= k < cols implies sum[k] == x[k] by {
            assert(!y[k]);
        }
    }
}

/// Two growing lists with the same entries are the same list.
proof fn lemma_increasing_lists_equal(a: Seq<usize>, b: Seq<usize>)
    requires
        strictly_increasing(a),
        strictly_increasing(b),
        forall|j: int| has_col(a, j) <==> has_col(b, j),
    ensures
        a == b,
    decreases a.len(),
{
    if a.len() == 0 {
        if b.len() > 0 {
            assert(has_col(b, b[0] as int));
            let i = choose|i: int| 0 <= i < a.len() && #[trigger] a[i] == b[0];
        }
        assert(a =~= b);
    } else {
        let x = a.last();
        assert(has_col(a, x as int));
        let ib = choose|i: int| 0 <= i < b.len() && #[trigger] b[i] == x;
        // x is the greatest entry of both lists, so it is the last of b
        if ib < b.len() - 1 {
            let y = b.last();
            assert(b[ib] < b[b.len() - 1]);
            assert(has_col(b, y as int));
            let ia = choose|i: int| 0 <= i < a.len() && #[trigger] a[i] == y;
            if ia < a.len() - 1 {
                assert(a[ia] < a[a.len() - 1]);
            }
            assert(false);
        }
        let a1 = a.drop_last();
        let b1 = b.drop_last();
        assert forall|j: int| has_col(a1, j) <==> has_col(b1, j) by {
            if has_col(a1, j) {
                let i = choose|i: int| 0 <= i < a1.len() && #[trigger] a1[i] == j;
                assert(a[i] == j);
                assert(a[i] < a[a.len() - 1]);
                assert(has_col(a, j));
                let k = choose|k: int| 0 <= k < b.len() && #[trigger] b[k] == j;
                assert(k != b.len() - 1);
                assert(b1[k] == j);
            }
            if has_col(b1, j) {
                let i = choose|i: int| 0 <= i < b1.len() && #[trigger] b1[i] == j;
                assert(b[i] == j);
                assert(b[i] < b[b.len() - 1]);
                assert(has_col(b, j));
                let k = choose|k: int| 0 <= k < a.len() && #[trigger] a[k] == j;
                assert(k != a.len() - 1);
                assert(a1[k] == j);
            }
        }
        assert(strictly_increasing(a1)) by {
            assert forall|p: int, q: int| 0 <= p < q < a1.len() implies a1[p] < a1[q] by {
                assert(a[p] < a[q]);
            }
        }
        assert(strictly_increasing(b1)) by {
            assert forall|p: int, q: int| 0 <= p < q < b1.len() implies b1[p] < b1[q] by {
                assert(b[p] < b[q]);
            }
        }
        lemma_increasing_lists_equal(a1, b1);
        assert(a =~= a1.push(x));
        assert(b =~= b1.push(x));
    }
}

/// A vector of the nullspace that is zero at every free column is zero.
pub proof fn lemma_null_vector_zero(m: Seq<Seq<bool>>, cols: nat, y: Seq<bool>)
    requires
        y.len() == cols,
        in_null(m, y),
        forall|j: int| 0 <= j < cols && !is_pivot_col(m, cols, j) ==> !#[trigger] y[j],
    ensures
        is_zero(y),
{
    if exists|k: int| 0 <= k < cols && y[k] {
        let j = lemma_last_one(y, cols);
        assert(dependency(m, cols, j, y));
        assert(false);
    }
}

/// The nullspace has one basis of the kind that `nullspace` returns: the
/// free columns and the ones and zeros asked for at them fix each vector.
pub proof fn lemma_basis_unique(
    m: Seq<Seq<bool>>,
    rows: nat,
    cols: nat,
    vs: Seq<Seq<bool>>,
    ws: Seq<Seq<bool>>,
)
    requires
        is_matrix(m, rows, cols),
        nullspace_basis(m, cols, vs),
        nullspace_basis(m, cols, ws),
    ensures
        vs == ws,
{
    let f = choose|free: Seq<usize>|
        {
            &&& #[trigger] lists_free(m, cols, free)
            &&& free.len() == vs.len()
            &&& forall|k: int|
                0 <= k < vs.len() ==> basis_vector(m, cols, free[k] as int, #[trigger] vs[k])
        };
    let g = choose|free: Seq<usize>|
        {
            &&& #[trigger] lists_free(m, cols, free)
            &&& free.len() == ws.len()
            &&& forall|k: int|
                0 <= k < ws.len() ==> basis_vector(m, cols, free[k] as int, #[trigger] ws[k])
        };
    lemma_increasing_lists_equal(f, g);
    assert forall|k: int| 0 <= k < vs.len() implies #[trigger] vs[k] =~= ws[k] by {
        let v = vs[k];
        let w = ws[k];
        assert(basis_vector(m, cols, f[k] as int, v));
        assert(basis_vector(m, cols, f[k] as int, w));
        let y = row_xor(v, w);
        assert(in_null(m, y)) by {
            assert forall|i: int| 0 <= i < m.len() implies !dot(#[trigger] m[i], y) by {
                lemma_dot_upto_xor_right(m[i], v, w, cols);
            }
        }
        lemma_null_vector_zero(m, cols, y);
        assert forall|j: int| 0 <= j < cols implies v[j] == w[j] by {
            assert(!y[j]);
        }
    }
    assert(vs =~= ws);
}

/// The basis of the nullspace has as many vectors as the matrix has
/// columns beyond its rank.
pub proof fn lemma_basis_count(m: Seq<Seq<bool>>, cols: nat, vs: Seq<Seq<bool>>)
    requires
        nullspace_basis(m, cols, vs),
    ensures
        vs.len() + matrix_rank(m, cols) == cols,
{
    let free = choose|free: Seq<usize>|
        {
            &&& #[trigger] lists_free(m, cols, free)
            &&& free.len() == vs.len()
            &&& forall|k: int|
                0 <= k < vs.len() ==> basis_vector(m, cols, free[k] as int, #[trigger] vs[k])
        };
    let s = free.map_values(|c: usize| c as int);
    assert(s.no_duplicates()) by {
        assert forall|a: int, b: int| 0 <= a < s.len() && 0 <= b < s.len() && a != b implies s[a]
            != s[b] by {
            if a < b {
                assert(free[a] < free[b]);
            } else {
                assert(free[b] < free[a]);
            }
        }
    }
    s.unique_seq_to_set();
    let frees = s.to_set();
    let pivots = pivot_set(m, cols);
    assert forall|j: int| frees.contains(j) <==> (0 <= j < cols && !is_pivot_col(m, cols, j)) by {
        if frees.contains(j) {
            let i = choose|i: int| 0 <= i < s.len() && s[i] == j;
            assert(free[i] == j);
            assert(has_col(free, j));
        }
        if 0 <= j < cols && !is_pivot_col(m, cols, j) {
            assert(has_col(free, j));
            let i = choose|i: int| 0 <= i < free.len() && #[trigger] free[i] == j;
            assert(s[i] == j);
        }
    }
    assert(frees + pivots =~= set_int_range(0, cols as int));
    assert(frees.disjoint(pivots));
    lemma_int_range(0, cols as int);
    vstd::set_lib::lemma_set_union_finite_implies_sets_finite(frees, pivots);
    lemma_set_disjoint_lens(frees, pivots);
}

} // verus!
