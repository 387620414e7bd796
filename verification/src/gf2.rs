//! Linear algebra over GF(2), as a mathematical model.
//!
//! A vector is a `Seq<bool>`, a matrix a `Seq<Seq<bool>>` of rows. Addition
//! is exclusive or (written `!=` on booleans), multiplication is `&&`.
//! Where a matrix may have no rows its column count is passed explicitly.

use vstd::prelude::*;

verus! {

/// The sum over GF(2) of `a[k] && b[k]` for `k < n`.
pub open spec fn dot_upto(a: Seq<bool>, b: Seq<bool>, n: nat) -> bool
    decreases n,
{
    if n == 0 {
        false
    } else {
        dot_upto(a, b, (n - 1) as nat) != (a[n - 1] && b[n - 1])
    }
}

/// The sum over GF(2) of `a[k] && b[k]` for `s <= k < n`.
pub open spec fn dot_from(a: Seq<bool>, b: Seq<bool>, s: int, n: nat) -> bool
    decreases n,
{
    if n == 0 || n <= s {
        false
    } else {
        dot_from(a, b, s, (n - 1) as nat) != (a[n - 1] && b[n - 1])
    }
}

/// The inner product of `a` and `b` over the whole length of `a`.
pub open spec fn dot(a: Seq<bool>, b: Seq<bool>) -> bool {
    dot_upto(a, b, a.len())
}

/// The entrywise sum of two vectors, with the length of `a`.
pub open spec fn row_xor(a: Seq<bool>, b: Seq<bool>) -> Seq<bool> {
    Seq::new(a.len(), |k: int| a[k] != b[k])
}

/// The vector of `n` zeros.
pub open spec fn zero_row(n: nat) -> Seq<bool> {
    Seq::new(n, |k: int| false)
}

/// The vector of length `n` whose only one stands at `j`.
pub open spec fn unit_row(n: nat, j: int) -> Seq<bool> {
    Seq::new(n, |k: int| k == j)
}

/// Every entry of `v` is zero.
pub open spec fn is_zero(v: Seq<bool>) -> bool {
    forall|k: int| 0 <= k < v.len() ==> !#[trigger] v[k]
}

/// `m` has `rows` rows of `cols` entries each.
pub open spec fn is_matrix(m: Seq<Seq<bool>>, rows: nat, cols: nat) -> bool {
    &&& m.len() == rows
    &&& forall|i: int| 0 <= i < m.len() ==> (#[trigger] m[i]).len() == cols
}

/// Column `j` of `m`, from top to bottom.
pub open spec fn column(m: Seq<Seq<bool>>, j: int) -> Seq<bool> {
    Seq::new(m.len(), |i: int| m[i][j])
}

/// The `rows` by `cols` zero matrix.
pub open spec fn zero_matrix(rows: nat, cols: nat) -> Seq<Seq<bool>> {
    Seq::new(rows, |i: int| zero_row(cols))
}

/// The `n` by `n` identity matrix.
pub open spec fn identity(n: nat) -> Seq<Seq<bool>> {
    Seq::new(n, |i: int| unit_row(n, i))
}

/// The entrywise sum of two matrices of one shape.
pub open spec fn mat_add(a: Seq<Seq<bool>>, b: Seq<Seq<bool>>) -> Seq<Seq<bool>> {
    Seq::new(a.len(), |i: int| row_xor(a[i], b[i]))
}

/// The product of `a` with `b`, where `b` has `cols` columns.
pub open spec fn mat_mul(a: Seq<Seq<bool>>, b: Seq<Seq<bool>>, cols: nat) -> Seq<Seq<bool>> {
    Seq::new(a.len(), |i: int| Seq::new(cols, |j: int| dot(a[i], column(b, j))))
}

/// `x` lies in the nullspace of `m`: every row of `m` is orthogonal to it.
pub open spec fn in_null(m: Seq<Seq<bool>>, x: Seq<bool>) -> bool {
    forall|i: int| 0 <= i < m.len() ==> !dot(#[trigger] m[i], x)
}

/// `a` beside `b`: row `i` is row `i` of `a` followed by row `i` of `b`.
pub open spec fn hstack(a: Seq<Seq<bool>>, b: Seq<Seq<bool>>) -> Seq<Seq<bool>> {
    Seq::new(a.len(), |i: int| a[i] + b[i])
}

/// An elementary row operation.
pub enum RowOp {
    /// Exchange two rows.
    Swap(int, int),
    /// Add row `src` to row `dst`; the two differ.
    Add { src: int, dst: int },
}

/// Both rows that `op` names exist among `rows` rows, and an addition names two.
pub open spec fn op_valid(op: RowOp, rows: nat) -> bool {
    match op {
        RowOp::Swap(i, j) => 0 <= i < rows && 0 <= j < rows,
        RowOp::Add { src, dst } => 0 <= src < rows && 0 <= dst < rows && src != dst,
    }
}

/// Every operation of `ops` is valid for `rows` rows.
pub open spec fn ops_valid(ops: Seq<RowOp>, rows: nat) -> bool {
    forall|t: int| 0 <= t < ops.len() ==> op_valid(#[trigger] ops[t], rows)
}

/// `m` after the row operation `op`.
pub open spec fn apply_op(m: Seq<Seq<bool>>, op: RowOp) -> Seq<Seq<bool>> {
    match op {
        RowOp::Swap(i, j) => m.update(i, m[j]).update(j, m[i]),
        RowOp::Add { src, dst } => m.update(dst, row_xor(m[dst], m[src])),
    }
}

/// `m` after the operations of `ops`, taken first to last.
pub open spec fn apply_ops(m: Seq<Seq<bool>>, ops: Seq<RowOp>) -> Seq<Seq<bool>>
    decreases ops.len(),
{
    if ops.len() == 0 {
        m
    } else {
        apply_op(apply_ops(m, ops.drop_last()), ops.last())
    }
}

/// `m` with columns `a` and `b` exchanged.
pub open spec fn swap_columns(m: Seq<Seq<bool>>, a: int, b: int) -> Seq<Seq<bool>> {
    Seq::new(m.len(), |i: int| m[i].update(a, m[i][b]).update(b, m[i][a]))
}

/// `m` with column `src` added to column `dst`.
pub open spec fn add_column(m: Seq<Seq<bool>>, src: int, dst: int) -> Seq<Seq<bool>> {
    Seq::new(m.len(), |i: int| m[i].update(dst, m[i][dst] != m[i][src]))
}

/// The column operation that undoes `op` from the right: if `op` turns `a`
/// into `g * a`, this turns `y` into `y * g^-1`.
pub open spec fn apply_col_op(y: Seq<Seq<bool>>, op: RowOp) -> Seq<Seq<bool>> {
    match op {
        RowOp::Swap(i, j) => swap_columns(y, i, j),
        RowOp::Add { src, dst } => add_column(y, dst, src),
    }
}

/// `y` after the column operations that belong to `ops`, taken first to last.
pub open spec fn apply_col_ops(y: Seq<Seq<bool>>, ops: Seq<RowOp>) -> Seq<Seq<bool>>
    decreases ops.len(),
{
    if ops.len() == 0 {
        y
    } else {
        apply_col_op(apply_col_ops(y, ops.drop_last()), ops.last())
    }
}

/// The entries of `p` grow strictly.
pub open spec fn strictly_increasing(p: Seq<usize>) -> bool {
    forall|a: int, b: int| 0 <= a < b < p.len() ==> p[a] < p[b]
}

/// `e` is in row echelon form with its pivots in the columns `p`: row `i`
/// has its leading one in column `p[i]`, and the rows after the last pivot
/// row are zero.
pub open spec fn echelon(e: Seq<Seq<bool>>, cols: nat, p: Seq<usize>) -> bool {
    &&& p.len() <= e.len()
    &&& strictly_increasing(p)
    &&& forall|i: int| 0 <= i < p.len() ==> (#[trigger] p[i]) < cols
    &&& forall|i: int| 0 <= i < p.len() ==> e[i][#[trigger] p[i] as int]
    &&& forall|i: int, k: int| 0 <= i < p.len() && 0 <= k < p[i] ==> !#[trigger] e[i][k]
    &&& forall|i: int, k: int| p.len() <= i < e.len() && 0 <= k < cols ==> !#[trigger] e[i][k]
}

/// `e` is in echelon form as far as its first `c` columns go: the pivot
/// rows are as in `echelon`, and the rows after them are zero before
/// column `c`.
pub open spec fn echelon_upto(e: Seq<Seq<bool>>, p: Seq<usize>, c: int) -> bool {
    &&& p.len() <= e.len()
    &&& strictly_increasing(p)
    &&& forall|i: int| 0 <= i < p.len() ==> (#[trigger] p[i]) < c
    &&& forall|i: int| 0 <= i < p.len() ==> e[i][#[trigger] p[i] as int]
    &&& forall|i: int, k: int| 0 <= i < p.len() && 0 <= k < p[i] ==> !#[trigger] e[i][k]
    &&& forall|i: int, k: int| p.len() <= i < e.len() && 0 <= k < c ==> !#[trigger] e[i][k]
}

/// In each pivot column of `e` the pivot is the only one.
pub open spec fn reduced(e: Seq<Seq<bool>>, p: Seq<usize>) -> bool {
    forall|i: int, r: int|
        0 <= i < p.len() && 0 <= r < e.len() && r != i ==> !#[trigger] e[r][p[i] as int]
}

/// `x` shows that column `j` of `m` is a sum of columns to its left: it has
/// a one at `j`, zeros after it, and lies in the nullspace.
pub open spec fn dependency(m: Seq<Seq<bool>>, cols: nat, j: int, x: Seq<bool>) -> bool {
    &&& x.len() == cols
    &&& 0 <= j < cols
    &&& x[j]
    &&& forall|k: int| j < k < cols ==> !#[trigger] x[k]
    &&& in_null(m, x)
}

/// Column `j` of `m` is a sum of columns to its left.
pub open spec fn col_dependent(m: Seq<Seq<bool>>, cols: nat, j: int) -> bool {
    exists|x: Seq<bool>| dependency(m, cols, j, x)
}

/// Column `j` of `m` is a pivot column: it is no sum of columns to its left.
pub open spec fn is_pivot_col(m: Seq<Seq<bool>>, cols: nat, j: int) -> bool {
    0 <= j < cols && !col_dependent(m, cols, j)
}

/// The pivot columns of `m`.
pub open spec fn pivot_set(m: Seq<Seq<bool>>, cols: nat) -> Set<int> {
    Set::new(|j: int| is_pivot_col(m, cols, j))
}

/// The rank of `m`: the number of its pivot columns.
pub open spec fn matrix_rank(m: Seq<Seq<bool>>, cols: nat) -> nat {
    pivot_set(m, cols).len()
}

/// The column `j` occurs in the list `p`.
pub open spec fn has_col(p: Seq<usize>, j: int) -> bool {
    exists|i: int| 0 <= i < p.len() && #[trigger] p[i] == j
}

/// `p` lists the pivot columns of `m` in growing order.
pub open spec fn lists_pivots(m: Seq<Seq<bool>>, cols: nat, p: Seq<usize>) -> bool {
    &&& strictly_increasing(p)
    &&& forall|j: int| is_pivot_col(m, cols, j) <==> has_col(p, j)
}

/// `f` lists the columns of `m` that are no pivot columns, in growing order.
pub open spec fn lists_free(m: Seq<Seq<bool>>, cols: nat, f: Seq<usize>) -> bool {
    &&& strictly_increasing(f)
    &&& forall|j: int| (0 <= j < cols && !is_pivot_col(m, cols, j)) <==> has_col(f, j)
}

/// `v` is the vector of the nullspace of `m` that has a one at the free
/// column `f` and zeros at the other free columns.
pub open spec fn basis_vector(m: Seq<Seq<bool>>, cols: nat, f: int, v: Seq<bool>) -> bool {
    &&& v.len() == cols
    &&& 0 <= f < cols
    &&& in_null(m, v)
    &&& v[f]
    &&& forall|j: int| 0 <= j < cols && j != f && !is_pivot_col(m, cols, j) ==> !#[trigger] v[j]
}

/// `vs` holds, for each free column of `m` in growing order, the vector of
/// the nullspace that belongs to it.
pub open spec fn nullspace_basis(m: Seq<Seq<bool>>, cols: nat, vs: Seq<Seq<bool>>) -> bool {
    exists|free: Seq<usize>|
        {
            &&& #[trigger] lists_free(m, cols, free)
            &&& free.len() == vs.len()
            &&& forall|k: int|
                0 <= k < vs.len() ==> basis_vector(m, cols, free[k] as int, #[trigger] vs[k])
        }
}

/// The sum of the vectors of `vs` that `c` selects, as a vector of `len`
/// entries.
pub open spec fn combination(vs: Seq<Seq<bool>>, c: Seq<bool>, len: nat) -> Seq<bool> {
    Seq::new(len, |j: int| dot(c, column(vs, j)))
}

/// No selection of vectors of `vs` sums to zero but the empty one.
pub open spec fn independent(vs: Seq<Seq<bool>>, len: nat) -> bool {
    forall|c: Seq<bool>|
        c.len() == vs.len() && is_zero(#[trigger] combination(vs, c, len)) ==> is_zero(c)
}

} // verus!
