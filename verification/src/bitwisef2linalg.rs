//! Dense matrices over GF(2) with each row packed into a bit vector.

use vstd::prelude::*;
use crate::algebra::lemma_basis_independent;
use crate::bits::{
    append_bits, bits_of, copy_bits, get_bit, max_bits, same_bits, set_bit, xor_bits, zero_bits,
    BitRow,
};
use crate::echelon::lemma_elimination_pivots;
use crate::elimination::{
    clearing_ops, column_ops, elimination_ops, first_one, gauss_ops, lemma_apply_ops_concat,
    lemma_apply_single, lemma_first_one_skip, pivot_swap,
};
use crate::gf2::{
    add_column, apply_op, apply_ops, basis_vector, column, dot, dot_upto, echelon, echelon_upto,
    has_col, hstack, identity, in_null, independent, is_matrix, is_pivot_col, lists_free,
    lists_pivots, mat_add, mat_mul, matrix_rank, nullspace_basis, ops_valid, reduced, row_xor,
    strictly_increasing, swap_columns, unit_row, zero_matrix, zero_row, RowOp,
};
use crate::gf2_lemmas::{
    lemma_apply_ops_push, lemma_dot_upto_two_terms, lemma_dot_upto_zero, lemma_ops_null,
};
use crate::pivots::free_columns;

verus! {

/// The matrix that rows of bits stand for.
pub open spec fn rows_bits(d: Seq<BitRow>) -> Seq<Seq<bool>> {
    Seq::new(d.len(), |i: int| bits_of(d[i]))
}

/// The bits that rows of bytes stand for: a one wherever the byte is not 0.
pub open spec fn bytes_to_bits(d: Seq<Seq<u8>>) -> Seq<Seq<bool>> {
    Seq::new(d.len(), |i: int| Seq::new(d[i].len(), |j: int| d[i][j] != 0))
}

/// The bytes that write a matrix down: 1 for a one, 0 for a zero.
pub open spec fn bits_to_bytes(m: Seq<Seq<bool>>) -> Seq<Seq<u8>> {
    Seq::new(m.len(), |i: int| Seq::new(m[i].len(), |j: int| if m[i][j] { 1u8 } else { 0u8 }))
}

/// The rows of bytes that a vector of vectors holds.
pub open spec fn byte_rows(d: Seq<Vec<u8>>) -> Seq<Seq<u8>> {
    Seq::new(d.len(), |i: int| d[i]@)
}

/// The first `n` bits of a row as text: `1` for a one and `.` for a zero,
/// each followed by a blank.
pub open spec fn bits_text(r: Seq<bool>, n: nat) -> Seq<char>
    decreases n,
{
    if n == 0 {
        Seq::empty()
    } else {
        bits_text(r, (n - 1) as nat) + (if r[n - 1] {
            "1 "@
        } else {
            ". "@
        })
    }
}

/// The first `n` rows of a matrix as text, each on a line of its own.
pub open spec fn matrix_text(m: Seq<Seq<bool>>, n: nat) -> Seq<char>
    decreases n,
{
    if n == 0 {
        Seq::empty()
    } else {
        matrix_text(m, (n - 1) as nat) + bits_text(m[n - 1], m[n - 1].len()) + "\n"@
    }
}

/// A matrix over GF(2), stored as bit vectors, one for each row.
#[derive(Debug)]
pub struct Mat2 {
    rows: usize,
    cols: usize,
    data: Vec<BitRow>,
}

impl View for Mat2 {
    type V = Seq<Seq<bool>>;

    closed spec fn view(&self) -> Seq<Seq<bool>> {
        rows_bits(self.data@)
    }
}

impl Mat2 {
    /// The number of rows.
    pub closed spec fn spec_rows(&self) -> nat {
        self.rows as nat
    }

    /// The number of columns.
    pub closed spec fn spec_cols(&self) -> nat {
        self.cols as nat
    }

    /// There are as many bit vectors as rows, each as long as there are
    /// columns, and no more columns than a bit vector can hold.
    pub closed spec fn wf(&self) -> bool {
        &&& self.data@.len() == self.rows
        &&& self.cols <= max_bits()
        &&& forall|i: int| 0 <= i < self.data@.len()
            ==> bits_of(#[trigger] self.data@[i]).len() == self.cols
    }

    /// A well-formed matrix is a matrix of its row and column counts, each
    /// of which fits a machine word.
    pub proof fn lemma_shape(&self)
        requires
            self.wf(),
        ensures
            is_matrix(self@, self.spec_rows(), self.spec_cols()),
            self.spec_rows() <= usize::MAX,
            self.spec_cols() <= max_bits(),
    {
        assert forall|i: int| 0 <= i < self@.len() implies
            (#[trigger] self@[i]).len() == self.spec_cols() by {
            assert(bits_of(self.data@[i]).len() == self.cols);
        }
    }

    /// Writing a matrix down as bytes and reading the bytes gives the
    /// matrix back: `from_u8(to_u8_vec(m)) == m`, for every matrix `m` but
    /// one without rows and with columns, whose bytes do not tell the number
    /// of its columns. `bytes` is what `to_u8_vec` returns on `m`, and `back`
    /// what `from_u8` returns on `bytes`, which it accepts.
    pub proof fn lemma_round_trip(m: Mat2, bytes: Vec<Vec<u8>>, back: Mat2)
        requires
            m.wf(),
            m.spec_rows() > 0 || m.spec_cols() == 0,
            byte_rows(bytes@) == bits_to_bytes(m@),
            back.spec_rows() == bytes@.len(),
            back.spec_cols() == if bytes@.len() == 0 {
                0
            } else {
                bytes@[0]@.len()
            },
            back@ == bytes_to_bits(byte_rows(bytes@)),
        ensures
            forall|i: int| 0 <= i < bytes@.len() ==> (#[trigger] bytes@[i])@.len() == bytes@[0]@.len(),
            bytes@.len() > 0 ==> bytes@[0]@.len() <= max_bits(),
            back@ == m@,
            back.spec_rows() == m.spec_rows(),
            back.spec_cols() == m.spec_cols(),
    {
        m.lemma_shape();
        let b = byte_rows(bytes@);
        assert(b.len() == m@.len());
        assert forall|i: int| 0 <= i < bytes@.len() implies (#[trigger] bytes@[i])@.len()
            == m.spec_cols() by {
            assert(b[i] == bytes@[i]@);
            assert(bits_to_bytes(m@)[i].len() == m@[i].len());
        }
        if bytes@.len() > 0 {
            assert(bytes@[0]@.len() == m.spec_cols());
        }
        assert(back@ =~~= m@) by {
            assert forall|i: int| 0 <= i < m@.len() implies #[trigger] back@[i] =~= m@[i] by {
                assert(b[i] == bits_to_bytes(m@)[i]);
                assert forall|j: int| 0 <= j < m@[i].len() implies back@[i][j] == m@[i][j] by {
                    assert(b[i][j] == bits_to_bytes(m@)[i][j]);
                }
            }
        }
    }

    /// The zero matrix of `rows` rows and `cols` columns.
    pub fn new(rows: usize, cols: usize) -> (m: Mat2)
        requires
            cols <= max_bits(),
        ensures
            m.wf(),
            m.spec_rows() == rows,
            m.spec_cols() == cols,
            m@ == zero_matrix(rows as nat, cols as nat),
    {
        let mut data: Vec<BitRow> = Vec::new();
        let mut i: usize = 0;
        while i < rows
            invariant
                i <= rows,
                cols <= max_bits(),
                data@.len() == i,
                forall|t: int| 0 <= t < i ==> bits_of(#[trigger] data@[t]) == zero_row(cols as nat),
            decreases rows - i,
        {
            let r = zero_bits(cols);
            assert(bits_of(r) =~= zero_row(cols as nat));
            data.push(r);
            i += 1;
        }
        let m = Mat2 { rows, cols, data };
        assert(m@ =~= zero_matrix(rows as nat, cols as nat));
        m
    }

    /// The matrix with a one wherever `data` holds a byte other than 0.
    /// Every row of `data` is as long as the first.
    pub fn from_u8(data: Vec<Vec<u8>>) -> (m: Mat2)
        requires
            forall|i: int| 0 <= i < data@.len() ==> (#[trigger] data@[i])@.len() == data@[0]@.len(),
            data@.len() > 0 ==> data@[0]@.len() <= max_bits(),
        ensures
            m.wf(),
            m.spec_rows() == data@.len(),
            m.spec_cols() == if data@.len() == 0 { 0 } else { data@[0]@.len() },
            m@ == bytes_to_bits(byte_rows(data@)),
    {
        if data.len() == 0 {
            let m = Mat2::new(0, 0);
            assert(m@ =~= bytes_to_bits(byte_rows(data@)));
            return m;
        }
        let rows = data.len();
        let cols = data[0].len();
        let mut mat = Mat2::new(rows, cols);
        let mut i: usize = 0;
        while i < rows
            invariant
                i <= rows,
                rows == data@.len(),
                cols == data@[0]@.len(),
                forall|t: int| 0 <= t < data@.len() ==> (#[trigger] data@[t])@.len() == cols,
                mat.wf(),
                mat.rows == rows,
                mat.cols == cols,
                forall|t: int, c: int|
                    0 <= t < i && 0 <= c < cols ==> (#[trigger] mat@[t][c]) == (data@[t]@[c] != 0),
            decreases rows - i,
        {
            let src = &data[i];
            let mut j: usize = 0;
            while j < cols
                invariant
                    j <= cols,
                    i < rows,
                    src@ == data@[i as int]@,
                    src@.len() == cols,
                    mat.wf(),
                    mat.rows == rows,
                    mat.cols == cols,
                    forall|t: int, c: int|
                        0 <= t < i && 0 <= c < cols ==> (#[trigger] mat@[t][c]) == (data@[t]@[c]
                            != 0),
                    forall|c: int| 0 <= c < j ==> (#[trigger] mat@[i as int][c]) == (src@[c] != 0),
                decreases cols - j,
            {
                mat.set(i, j, src[j] != 0);
                j += 1;
            }
            i += 1;
        }
        proof {
            assert(mat@ =~~= bytes_to_bits(byte_rows(data@))) by {
                assert forall|t: int| 0 <= t < mat@.len() implies #[trigger] mat@[t] =~= bytes_to_bits(
                    byte_rows(data@),
                )[t] by {
                    assert(bits_of(mat.data@[t]).len() == cols);
                    assert(data@[t]@.len() == cols);
                }
            }
        }
        mat
    }

    /// The `n` by `n` identity matrix.
    pub fn id(n: usize) -> (m: Mat2)
        requires
            n <= max_bits(),
        ensures
            m.wf(),
            m.spec_rows() == n,
            m.spec_cols() == n,
            m@ == identity(n as nat),
    {
        let mut mat = Mat2::new(n, n);
        let mut i: usize = 0;
        while i < n
            invariant
                i <= n,
                mat.wf(),
                mat.rows == n,
                mat.cols == n,
                forall|t: int| 0 <= t < i ==> #[trigger] mat@[t] == unit_row(n as nat, t),
                forall|t: int| i <= t < n ==> #[trigger] mat@[t] == zero_row(n as nat),
            decreases n - i,
        {
            mat.set(i, i, true);
            proof {
                assert(mat@[i as int] =~= unit_row(n as nat, i as int));
            }
            i += 1;
        }
        assert(mat@ =~= identity(n as nat));
        mat
    }

    /// The zero matrix of `m` rows and `n` columns.
    pub fn zeros(m: usize, n: usize) -> (z: Mat2)
        requires
            n <= max_bits(),
        ensures
            z.wf(),
            z.spec_rows() == m,
            z.spec_cols() == n,
            z@ == zero_matrix(m as nat, n as nat),
    {
        Mat2::new(m, n)
    }

    /// The row vector of `d` entries whose only one stands at `i`.
    pub fn unit_vector(d: usize, i: usize) -> (m: Mat2)
        requires
            i < d <= max_bits(),
        ensures
            m.wf(),
            m.spec_rows() == 1,
            m.spec_cols() == d,
            m@ == seq![unit_row(d as nat, i as int)],
    {
        let mut mat = Mat2::zeros(1, d);
        mat.set(0, i, true);
        proof {
            assert(mat@[0] =~= unit_row(d as nat, i as int));
            assert(mat@ =~= seq![unit_row(d as nat, i as int)]);
        }
        mat
    }

    /// The number of rows.
    pub fn rows(&self) -> (r: usize)
        ensures
            r == self.spec_rows(),
    {
        self.rows
    }

    /// The number of columns.
    pub fn cols(&self) -> (c: usize)
        ensures
            c == self.spec_cols(),
    {
        self.cols
    }

    /// The entry at `(row, col)`.
    pub fn get(&self, row: usize, col: usize) -> (b: bool)
        requires
            self.wf(),
            row < self.spec_rows(),
            col < self.spec_cols(),
        ensures
            b == self@[row as int][col as int],
    {
        get_bit(&self.data[row], col)
    }

    /// Writes `value` at `(row, col)`.
    pub fn set(&mut self, row: usize, col: usize, value: bool)
        requires
            old(self).wf(),
            row < old(self).spec_rows(),
            col < old(self).spec_cols(),
        ensures
            final(self).wf(),
            final(self).spec_rows() == old(self).spec_rows(),
            final(self).spec_cols() == old(self).spec_cols(),
            final(self)@ == old(self)@.update(
                row as int,
                old(self)@[row as int].update(col as int, value),
            ),
    {
        set_bit(&mut self.data[row], col, value);
        proof {
            assert(self@ =~= old(self)@.update(
                row as int,
                old(self)@[row as int].update(col as int, value),
            ));
            assert forall|i: int| 0 <= i < self.data@.len() implies
                bits_of(#[trigger] self.data@[i]).len()
                == self.cols by {
                assert(bits_of(old(self).data@[i]).len() == self.cols);
            }
        }
    }

    /// `self` above `other`; both have the same number of columns.
    pub fn vstack(&self, other: &Mat2) -> (m: Mat2)
        requires
            self.wf(),
            other.wf(),
            self.spec_cols() == other.spec_cols(),
        ensures
            m.wf(),
            m.spec_rows() == self.spec_rows() + other.spec_rows(),
            m.spec_cols() == self.spec_cols(),
            m@ == self@ + other@,
    {
        let mut data: Vec<BitRow> = Vec::new();
        let mut i: usize = 0;
        while i < self.rows
            invariant
                i <= self.rows,
                self.wf(),
                data@.len() == i,
                forall|t: int| 0 <= t < i ==> bits_of(#[trigger] data@[t]) == bits_of(self.data@[t]),
            decreases self.rows - i,
        {
            data.push(copy_bits(&self.data[i]));
            i += 1;
        }
        let mut k: usize = 0;
        while k < other.rows
            invariant
                k <= other.rows,
                self.wf(),
                other.wf(),
                data@.len() == self.rows + k,
                forall|t: int|
                    0 <= t < self.rows ==> bits_of(#[trigger] data@[t]) == bits_of(self.data@[t]),
                forall|t: int|
                    0 <= t < k ==> bits_of(#[trigger] data@[self.rows + t]) == bits_of(other.data@[t]),
            decreases other.rows - k,
        {
            data.push(copy_bits(&other.data[k]));
            k += 1;
        }
        let m = Mat2 { rows: data.len(), cols: self.cols, data };
        proof {
            assert forall|t: int| 0 <= t < m.data@.len() implies bits_of(#[trigger] m.data@[t])
                == (self@ + other@)[t] by {
                if t >= self.rows {
                    assert(bits_of(m.data@[self.rows + (t - self.rows)]) == bits_of(
                        other.data@[t - self.rows],
                    ));
                }
            }
            assert(m@ =~= self@ + other@);
            assert forall|t: int| 0 <= t < m.data@.len() implies bits_of(#[trigger] m.data@[t]).len()
                == m.cols by {
                if t >= self.rows {
                    assert(bits_of(other.data@[t - self.rows]).len() == other.cols);
                } else {
                    assert(bits_of(self.data@[t]).len() == self.cols);
                }
            }
        }
        m
    }

    /// `self` beside `other`; both have the same number of rows.
    pub fn hstack(&self, other: &Mat2) -> (m: Mat2)
        requires
            self.wf(),
            other.wf(),
            self.spec_rows() == other.spec_rows(),
            self.spec_cols() + other.spec_cols() <= max_bits(),
        ensures
            m.wf(),
            m.spec_rows() == self.spec_rows(),
            m.spec_cols() == self.spec_cols() + other.spec_cols(),
            m@ == hstack(self@, other@),
    {
        let mut data: Vec<BitRow> = Vec::new();
        let mut i: usize = 0;
        while i < self.rows
            invariant
                i <= self.rows,
                self.wf(),
                other.wf(),
                self.rows == other.rows,
                self.cols + other.cols <= max_bits(),
                data@.len() == i,
                forall|t: int|
                    0 <= t < i ==> bits_of(#[trigger] data@[t])
                        == bits_of(self.data@[t]) + bits_of(other.data@[t]),
            decreases self.rows - i,
        {
            let mut row = copy_bits(&self.data[i]);
            assert(bits_of(self.data@[i as int]).len() == self.cols);
            assert(bits_of(other.data@[i as int]).len() == other.cols);
            append_bits(&mut row, &other.data[i]);
            data.push(row);
            i += 1;
        }
        let m = Mat2 { rows: self.rows, cols: self.cols + other.cols, data };
        proof {
            assert(m@ =~= hstack(self@, other@));
            assert forall|t: int| 0 <= t < m.data@.len() implies bits_of(#[trigger] m.data@[t]).len()
                == m.cols by {
                assert(bits_of(self.data@[t]).len() == self.cols);
                assert(bits_of(other.data@[t]).len() == other.cols);
            }
        }
        m
    }

    /// Adds row `r0` to row `r1`. With `r0 == r1` the row becomes zero, as
    /// every vector is its own negative.
    pub fn row_add(&mut self, r0: usize, r1: usize)
        requires
            old(self).wf(),
            r0 < old(self).spec_rows(),
            r1 < old(self).spec_rows(),
        ensures
            final(self).wf(),
            final(self).spec_rows() == old(self).spec_rows(),
            final(self).spec_cols() == old(self).spec_cols(),
            r0 != r1 ==> final(self)@ == apply_op(
                old(self)@,
                RowOp::Add { src: r0 as int, dst: r1 as int },
            ),
            r0 == r1 ==> final(self)@ == old(self)@.update(
                r1 as int,
                zero_row(old(self).spec_cols()),
            ),
    {
        let src = copy_bits(&self.data[r0]);
        assert(bits_of(self.data@[r0 as int]).len() == self.cols);
        assert(bits_of(self.data@[r1 as int]).len() == self.cols);
        xor_bits(&mut self.data[r1], &src);
        proof {
            let new_row = bits_of(self.data@[r1 as int]);
            if r0 != r1 {
                assert(new_row =~= row_xor(old(self)@[r1 as int], old(self)@[r0 as int]));
                assert(self@ =~= apply_op(
                    old(self)@,
                    RowOp::Add { src: r0 as int, dst: r1 as int },
                ));
            } else {
                assert(new_row =~= zero_row(self.cols as nat));
                assert(self@ =~= old(self)@.update(r1 as int, zero_row(old(self).spec_cols())));
            }
            assert forall|i: int| 0 <= i < self.data@.len() implies
                bits_of(#[trigger] self.data@[i]).len()
                == self.cols by {
                assert(bits_of(old(self).data@[i]).len() == self.cols);
            }
        }
    }

    /// Adds column `c0` to column `c1`. With `c0 == c1` the column becomes
    /// zero.
    pub fn col_add(&mut self, c0: usize, c1: usize)
        requires
            old(self).wf(),
            c0 < old(self).spec_cols(),
            c1 < old(self).spec_cols(),
        ensures
            final(self).wf(),
            final(self).spec_rows() == old(self).spec_rows(),
            final(self).spec_cols() == old(self).spec_cols(),
            final(self)@ == add_column(old(self)@, c0 as int, c1 as int),
    {
        let mut i: usize = 0;
        while i < self.rows
            invariant
                i <= self.rows,
                self.wf(),
                self.rows == old(self).rows,
                self.cols == old(self).cols,
                old(self).wf(),
                c0 < self.cols,
                c1 < self.cols,
                forall|t: int| i <= t < self.rows ==> #[trigger] self@[t] == old(self)@[t],
                forall|t: int|
                    0 <= t < i ==> #[trigger] self@[t] == old(self)@[t].update(
                        c1 as int,
                        old(self)@[t][c1 as int] != old(self)@[t][c0 as int],
                    ),
            decreases self.rows - i,
        {
            let ghost before = self@;
            let a = self.get(i, c0);
            let b = self.get(i, c1);
            self.set(i, c1, a != b);
            proof {
                assert forall|t: int| i + 1 <= t < self.rows implies
                    #[trigger] self@[t] == old(self)@[t] by {
                    assert(self@[t] == before[t]);
                }
                assert forall|t: int| 0 <= t < i + 1 implies #[trigger] self@[t] == old(self)@[t].update(
                    c1 as int,
                    old(self)@[t][c1 as int] != old(self)@[t][c0 as int],
                ) by {
                    if t < i {
                        assert(self@[t] == before[t]);
                    }
                }
            }
            i += 1;
        }
        proof {
            assert(self@ =~= add_column(old(self)@, c0 as int, c1 as int));
        }
    }

    /// Exchanges rows `r0` and `r1`.
    pub fn row_swap(&mut self, r0: usize, r1: usize)
        requires
            old(self).wf(),
            r0 < old(self).spec_rows(),
            r1 < old(self).spec_rows(),
        ensures
            final(self).wf(),
            final(self).spec_rows() == old(self).spec_rows(),
            final(self).spec_cols() == old(self).spec_cols(),
            final(self)@ == apply_op(old(self)@, RowOp::Swap(r0 as int, r1 as int)),
    {
        self.data.swap(r0, r1);
        proof {
            assert(self@ =~= apply_op(old(self)@, RowOp::Swap(r0 as int, r1 as int)));
            assert forall|i: int| 0 <= i < self.data@.len() implies
                bits_of(#[trigger] self.data@[i]).len()
                == self.cols by {
                assert(bits_of(old(self).data@[i]).len() == self.cols);
                assert(bits_of(old(self).data@[r0 as int]).len() == self.cols);
                assert(bits_of(old(self).data@[r1 as int]).len() == self.cols);
            }
        }
    }

    /// Exchanges columns `c0` and `c1`.
    pub fn col_swap(&mut self, c0: usize, c1: usize)
        requires
            old(self).wf(),
            c0 < old(self).spec_cols(),
            c1 < old(self).spec_cols(),
        ensures
            final(self).wf(),
            final(self).spec_rows() == old(self).spec_rows(),
            final(self).spec_cols() == old(self).spec_cols(),
            final(self)@ == swap_columns(old(self)@, c0 as int, c1 as int),
    {
        let mut i: usize = 0;
        while i < self.rows
            invariant
                i <= self.rows,
                self.wf(),
                self.rows == old(self).rows,
                self.cols == old(self).cols,
                old(self).wf(),
                c0 < self.cols,
                c1 < self.cols,
                forall|t: int| i <= t < self.rows ==> #[trigger] self@[t] == old(self)@[t],
                forall|t: int|
                    0 <= t < i ==> #[trigger] self@[t] == old(self)@[t].update(
                        c0 as int,
                        old(self)@[t][c1 as int],
                    ).update(c1 as int, old(self)@[t][c0 as int]),
            decreases self.rows - i,
        {
            let ghost before = self@;
            let a = self.get(i, c0);
            let b = self.get(i, c1);
            self.set(i, c0, b);
            let ghost mid = self@;
            self.set(i, c1, a);
            proof {
                assert forall|t: int| i + 1 <= t < self.rows implies
                    #[trigger] self@[t] == old(self)@[t] by {
                    assert(mid[t] == before[t]);
                    assert(self@[t] == mid[t]);
                }
                assert forall|t: int| 0 <= t < i + 1 implies #[trigger] self@[t] == old(self)@[t].update(
                    c0 as int,
                    old(self)@[t][c1 as int],
                ).update(c1 as int, old(self)@[t][c0 as int]) by {
                    if t < i {
                        assert(mid[t] == before[t]);
                        assert(self@[t] == mid[t]);
                    }
                }
            }
            i += 1;
        }
        proof {
            assert(self@ =~= swap_columns(old(self)@, c0 as int, c1 as int));
        }
    }

    /// The matrix as text: each row on a line of its own, as `1 . 1 `.
    pub fn to_string(&self) -> (r: String)
        requires
            self.wf(),
        ensures
            r@ == matrix_text(self@, self.spec_rows()),
    {
        let mut out = String::new();
        let mut i: usize = 0;
        proof {
            self.lemma_shape();
        }
        while i < self.rows
            invariant
                i <= self.rows,
                self.wf(),
                is_matrix(self@, self.rows as nat, self.cols as nat),
                out@ == matrix_text(self@, i as nat),
            decreases self.rows - i,
        {
            let ghost before = out@;
            let mut j: usize = 0;
            while j < self.cols
                invariant
                    j <= self.cols,
                    i < self.rows,
                    self.wf(),
                    is_matrix(self@, self.rows as nat, self.cols as nat),
                    out@ == before + bits_text(self@[i as int], j as nat),
                decreases self.cols - j,
            {
                if self.get(i, j) {
                    out.append("1 ");
                } else {
                    out.append(". ");
                }
                proof {
                    assert(out@ =~= before + bits_text(self@[i as int], (j + 1) as nat));
                }
                j += 1;
            }
            out.append("\n");
            proof {
                assert(self@[i as int].len() == self.cols);
                assert(out@ =~= before + bits_text(self@[i as int], self@[i as int].len()) + "\n"@);
            }
            i += 1;
        }
        out
    }

    /// The matrix written as bytes: 1 for a one, 0 for a zero.
    pub fn to_u8_vec(&self) -> (out: Vec<Vec<u8>>)
        requires
            self.wf(),
        ensures
            byte_rows(out@) == bits_to_bytes(self@),
    {
        let mut out: Vec<Vec<u8>> = Vec::new();
        let mut i: usize = 0;
        while i < self.rows
            invariant
                i <= self.rows,
                self.wf(),
                out@.len() == i,
                forall|t: int| 0 <= t < i ==> (#[trigger] out@[t])@ == bits_to_bytes(self@)[t],
            decreases self.rows - i,
        {
            let mut row: Vec<u8> = Vec::new();
            let mut j: usize = 0;
            proof {
                assert(bits_of(self.data@[i as int]).len() == self.cols);
            }
            while j < self.cols
                invariant
                    j <= self.cols,
                    i < self.rows,
                    self.wf(),
                    row@.len() == j,
                    forall|c: int|
                        0 <= c < j ==> #[trigger] row@[c] == if self@[i as int][c] {
                            1u8
                        } else {
                            0u8
                        },
                decreases self.cols - j,
            {
                row.push(if self.get(i, j) { 1 } else { 0 });
                j += 1;
            }
            assert(row@ =~= bits_to_bytes(self@)[i as int]);
            out.push(row);
            i += 1;
        }
        assert(byte_rows(out@) =~= bits_to_bytes(self@));
        out
    }

    /// Gaussian elimination with the tracker given as a plain reference and
    /// a flag; returns the rank and the row operations performed.
    fn eliminate(
        &mut self,
        full_reduce: bool,
        x: &mut Mat2,
        track_x: bool,
        pivot_cols: &mut Vec<usize>,
    ) -> (res: (usize, Ghost<Seq<RowOp>>))
        requires
            old(self).wf(),
            track_x ==> old(x).wf() && old(x).spec_rows() == old(self).spec_rows(),
        ensures
            final(self).wf(),
            final(self).spec_rows() == old(self).spec_rows(),
            final(self).spec_cols() == old(self).spec_cols(),
            ops_valid(res.1@, old(self).spec_rows()),
            final(self)@ == apply_ops(old(self)@, res.1@),
            track_x ==> final(x).wf()
                && final(x).spec_rows() == old(x).spec_rows()
                && final(x).spec_cols() == old(x).spec_cols()
                && final(x)@ == apply_ops(old(x)@, res.1@),
            !track_x ==> *final(x) == *old(x),
            echelon(final(self)@, old(self).spec_cols(), final(pivot_cols)@),
            full_reduce ==> reduced(final(self)@, final(pivot_cols)@),
            res.0 == final(pivot_cols)@.len(),
            res.1@ == gauss_ops(old(self)@, old(self).spec_cols(), full_reduce),
    {
        let rows = self.rows();
        let cols = self.cols();
        pivot_cols.clear();
        let mut rank: usize = 0;
        let ghost mut ops: Seq<RowOp> = Seq::empty();
        let mut c: usize = 0;
        proof {
            self.lemma_shape();
            assert(ops + elimination_ops(self@, cols as nat, 0, 0, full_reduce) =~= gauss_ops(
                self@,
                cols as nat,
                full_reduce,
            ));
        }
        while c < cols && rank < rows
            invariant
                self.wf(),
                self.spec_rows() == rows,
                self.spec_cols() == cols,
                rows == old(self).spec_rows(),
                cols == old(self).spec_cols(),
                is_matrix(self@, rows as nat, cols as nat),
                c <= cols,
                rank <= rows,
                rank == pivot_cols@.len(),
                ops_valid(ops, rows as nat),
                self@ == apply_ops(old(self)@, ops),
                track_x ==> x.wf() && x.spec_rows() == rows && x.spec_cols() == old(x).spec_cols()
                    && x@ == apply_ops(old(x)@, ops),
                !track_x ==> *x == *old(x),
                echelon_upto(self@, pivot_cols@, c as int),
                full_reduce ==> reduced(self@, pivot_cols@),
                gauss_ops(old(self)@, cols as nat, full_reduce) == ops + elimination_ops(
                    self@,
                    cols as nat,
                    c as int,
                    rank as int,
                    full_reduce,
                ),
            decreases cols - c,
        {
            let ghost m_col = self@;
            let ghost base_ops = ops;
            let ghost start: int = if full_reduce { 0 } else { rank + 1 };
            let mut pr: usize = rank;
            while pr < rows && !self.get(pr, c)
                invariant
                    self.wf(),
                    self.spec_rows() == rows,
                    self.spec_cols() == cols,
                    c < cols,
                    rank <= pr <= rows,
                    forall|r: int| rank <= r < pr ==> !self@[r][c as int],
                decreases rows - pr,
            {
                pr += 1;
            }
            proof {
                lemma_first_one_skip(m_col, c as int, rank as int, pr as int);
                assert(first_one(m_col, c as int, rank as int) == pr);
            }
            let ghost sw = pivot_swap(rank as int, pr as int);
            if pr < rows {
                if pr != rank {
                    self.row_swap(rank, pr);
                    if track_x {
                        x.row_swap(rank, pr);
                    }
                    proof {
                        lemma_apply_ops_push(old(self)@, ops, RowOp::Swap(rank as int, pr as int));
                        lemma_apply_ops_push(old(x)@, ops, RowOp::Swap(rank as int, pr as int));
                        ops = ops.push(RowOp::Swap(rank as int, pr as int));
                        self.lemma_shape();
                    }
                }
                assert(self@[rank as int][c as int]);
                let ghost m1 = self@;
                proof {
                    if pr != rank {
                        lemma_apply_single(m_col, RowOp::Swap(rank as int, pr as int));
                        assert(ops =~= base_ops + sw);
                    } else {
                        assert(ops =~= base_ops + sw);
                    }
                    assert(m1 == apply_ops(m_col, sw));
                    assert(ops =~= base_ops + (sw + clearing_ops(
                        m1,
                        c as int,
                        rank as int,
                        start,
                        start,
                    )));
                }
                let mut r: usize = if full_reduce { 0 } else { rank + 1 };
                while r < rows
                    invariant
                        self.wf(),
                        self.spec_rows() == rows,
                        self.spec_cols() == cols,
                        rows == old(self).spec_rows(),
                        is_matrix(self@, rows as nat, cols as nat),
                        c < cols,
                        rank < rows,
                        r <= rows,
                        !full_reduce ==> r > rank,
                        rank == pivot_cols@.len(),
                        ops_valid(ops, rows as nat),
                        self@ == apply_ops(old(self)@, ops),
                        track_x ==> x.wf()
                            && x.spec_rows() == rows
                            && x.spec_cols() == old(x).spec_cols()
                            && x@ == apply_ops(old(x)@, ops),
                        !track_x ==> *x == *old(x),
                        echelon_upto(self@, pivot_cols@, c as int),
                        full_reduce ==> reduced(self@, pivot_cols@),
                        self@[rank as int][c as int],
                        forall|t: int|
                            (if full_reduce { 0 } else { rank + 1 }) <= t < r && t != rank
                                ==> !#[trigger] self@[t][c as int],
                        start == (if full_reduce { 0int } else { rank + 1 }),
                        start <= r,
                        ops == base_ops + (sw + clearing_ops(
                            m1,
                            c as int,
                            rank as int,
                            start,
                            r as int,
                        )),
                        forall|t: int| r <= t < rows ==> #[trigger] self@[t] == m1[t],
                        self@[rank as int] == m1[rank as int],
                    decreases rows - r,
                {
                    if r != rank && self.get(r, c) {
                        let ghost before = self@;
                        self.row_add(rank, r);
                        if track_x {
                            x.row_add(rank, r);
                        }
                        proof {
                            let op = RowOp::Add { src: rank as int, dst: r as int };
                            lemma_apply_ops_push(old(self)@, ops, op);
                            lemma_apply_ops_push(old(x)@, ops, op);
                            ops = ops.push(op);
                            assert(ops =~= base_ops + (sw + clearing_ops(
                                m1,
                                c as int,
                                rank as int,
                                start,
                                r + 1,
                            )));
                            assert forall|t: int| r + 1 <= t < rows implies #[trigger] self@[t]
                                == m1[t] by {
                                assert(self@[t] == before[t]);
                            }
                            assert(self@[rank as int] == before[rank as int]);
                            self.lemma_shape();
                            assert(self@[r as int] == row_xor(before[r as int], before[rank as int]));
                            assert forall|i: int, k: int| 0 <= i < rows && 0 <= k < c implies (
                            #[trigger] self@[i][k]) == before[i][k] by {
                                assert(!before[rank as int][k]);
                            }
                            assert(echelon_upto(self@, pivot_cols@, c as int));
                            if full_reduce {
                                assert(reduced(self@, pivot_cols@)) by {
                                    assert forall|i: int, t: int|
                                        0 <= i < pivot_cols@.len() && 0 <= t < self@.len() && t
                                            != i implies !#[trigger] self@[t][pivot_cols@[i] as int] by {
                                        assert(!before[t][pivot_cols@[i] as int]);
                                    }
                                }
                            }
                            assert forall|t: int|
                                (if full_reduce { 0 } else { rank + 1 }) <= t < r + 1 && t
                                    != rank implies !#[trigger] self@[t][c as int] by {
                                if t != r {
                                    assert(self@[t] == before[t]);
                                }
                            }
                        }
                    }
                    r += 1;
                }
                proof {
                    let col = column_ops(m_col, c as int, rank as int, full_reduce);
                    assert(col == sw + clearing_ops(m1, c as int, rank as int, start, rows as int));
                    assert(ops == base_ops + col);
                    lemma_apply_ops_concat(old(self)@, base_ops, col);
                    assert(self@ == apply_ops(m_col, col));
                    let rest = elimination_ops(
                        self@,
                        cols as nat,
                        c + 1,
                        rank + 1,
                        full_reduce,
                    );
                    assert(elimination_ops(
                        m_col,
                        cols as nat,
                        c as int,
                        rank as int,
                        full_reduce,
                    ) == col + rest);
                    assert(base_ops + (col + rest) =~= ops + rest);
                }
                proof {
                    let grown = pivot_cols@.push(c);
                    assert(echelon_upto(self@, grown, c + 1)) by {
                        assert forall|i: int| 0 <= i < grown.len() implies
                            self@[i][#[trigger] grown[i] as int] by {
                            if i < pivot_cols@.len() {
                                assert(grown[i] == pivot_cols@[i]);
                            }
                        }
                        assert forall|i: int, k: int|
                            0 <= i < grown.len() && 0 <= k < grown[i] implies !#[trigger] self@[i][k] by {
                            if i < pivot_cols@.len() {
                                assert(grown[i] == pivot_cols@[i]);
                            }
                        }
                    }
                    if full_reduce {
                        assert(reduced(self@, grown)) by {
                            assert forall|i: int, t: int|
                                0 <= i < grown.len()
                                    && 0 <= t < self@.len()
                                    && t != i implies !#[trigger] self@[t][grown[i] as int] by {
                                if i < pivot_cols@.len() {
                                    assert(grown[i] == pivot_cols@[i]);
                                }
                            }
                        }
                    }
                }
                pivot_cols.push(c);
                rank += 1;
            } else {
                proof {
                    let col = column_ops(m_col, c as int, rank as int, full_reduce);
                    assert(col =~= Seq::<RowOp>::empty());
                    assert(apply_ops(m_col, col) == m_col);
                    let rest = elimination_ops(
                        m_col,
                        cols as nat,
                        c + 1,
                        rank as int,
                        full_reduce,
                    );
                    assert(elimination_ops(
                        m_col,
                        cols as nat,
                        c as int,
                        rank as int,
                        full_reduce,
                    ) == col + rest);
                    assert(base_ops + (col + rest) =~= ops + rest);
                }
            }
            c += 1;
        }
        proof {
            assert(ops + elimination_ops(
                self@,
                cols as nat,
                c as int,
                rank as int,
                full_reduce,
            ) =~= ops);
        }
        (rank, Ghost(ops))
    }

    /// Gaussian elimination in place, to row echelon form, and with
    /// `full_reduce` to reduced row echelon form.
    ///
    /// Columns are scanned left to right. In each, the first row at or below
    /// the current pivot row that holds a one is swapped into the pivot row and
    /// added to every row below that holds a one in the column, and with
    /// `full_reduce` to every row above as well. Each row operation is
    /// replayed on `x`. `y` is left as it is. `pivot_cols` is emptied and then
    /// filled with the pivot columns in the order found. `blocksize` has no
    /// influence on the result. Returns the rank.
    pub fn gauss(
        &mut self,
        full_reduce: bool,
        x: Option<&mut Mat2>,
        y: Option<&mut Mat2>,
        blocksize: usize,
        pivot_cols: &mut Vec<usize>,
    ) -> (rank: usize)
        requires
            old(self).wf(),
            x matches Some(m) ==> m.wf() && m.spec_rows() == old(self).spec_rows(),
        ensures
            final(self).wf(),
            final(self).spec_rows() == old(self).spec_rows(),
            final(self).spec_cols() == old(self).spec_cols(),
            x matches Some(m) ==> final(m).wf()
                && final(m).spec_rows() == m.spec_rows()
                && final(m).spec_cols() == m.spec_cols(),
            y matches Some(m) ==> *final(m) == *m,
            ops_valid(
                gauss_ops(old(self)@, old(self).spec_cols(), full_reduce),
                old(self).spec_rows(),
            ),
            final(self)@ == apply_ops(
                old(self)@,
                gauss_ops(old(self)@, old(self).spec_cols(), full_reduce),
            ),
            x matches Some(m) ==> final(m)@ == apply_ops(
                m@,
                gauss_ops(old(self)@, old(self).spec_cols(), full_reduce),
            ),
            echelon(final(self)@, old(self).spec_cols(), final(pivot_cols)@),
            full_reduce ==> reduced(final(self)@, final(pivot_cols)@),
            lists_pivots(old(self)@, old(self).spec_cols(), final(pivot_cols)@),
            rank == final(pivot_cols)@.len(),
            rank == matrix_rank(old(self)@, old(self).spec_cols()),
    {
        let ghost m0 = self@;
        let ghost rows = self.spec_rows();
        let ghost cols = self.spec_cols();
        proof {
            self.lemma_shape();
        }
        let (rank, Ghost(ops)) = match x {
            Some(xm) => self.eliminate(full_reduce, xm, true, pivot_cols),
            None => {
                let mut spare = Mat2::new(0, 0);
                self.eliminate(full_reduce, &mut spare, false, pivot_cols)
            },
        };
        proof {
            lemma_elimination_pivots(m0, ops, rows, cols, pivot_cols@);
        }
        rank
    }

    /// The rank of the matrix.
    pub fn rank(&self) -> (r: usize)
        requires
            self.wf(),
        ensures
            r == matrix_rank(self@, self.spec_cols()),
    {
        let mut mat = self.clone();
        let mut pivots: Vec<usize> = Vec::new();
        mat.gauss(false, None, None, 0, &mut pivots)
    }

    /// A basis of the nullspace: for each column without pivot, in growing
    /// order, the row vector with a one there, zeros at the other columns
    /// without pivot, and the pivot entries that make every row of the matrix
    /// vanish on it. `should_copy` has no influence: `self` is never changed.
    pub fn nullspace(&self, should_copy: bool) -> (basis: Vec<Mat2>)
        requires
            self.wf(),
        ensures
            basis@.len() == self.spec_cols() - matrix_rank(self@, self.spec_cols()),
            forall|k: int|
                0 <= k < basis@.len() ==> (#[trigger] basis@[k]).wf() && basis@[k].spec_rows() == 1
                    && basis@[k].spec_cols() == self.spec_cols(),
            forall|k: int| 0 <= k < basis@.len() ==> in_null(self@, (#[trigger] basis@[k])@[0]),
            nullspace_basis(self@, self.spec_cols(), Seq::new(basis@.len(), |k: int| basis@[k]@[0])),
            independent(Seq::new(basis@.len(), |k: int| basis@[k]@[0]), self.spec_cols()),
    {
        let mut mat = self.clone();
        let mut pivot_cols: Vec<usize> = Vec::new();
        let rank = mat.gauss(true, None, None, 0, &mut pivot_cols);
        let n = self.cols();
        let ghost rows = self.spec_rows();
        let ghost ops = gauss_ops(self@, self.spec_cols(), true);
        proof {
            self.lemma_shape();
            mat.lemma_shape();
        }
        let free_vars = free_columns(&pivot_cols, n);
        proof {
            assert(lists_free(self@, n as nat, free_vars@)) by {
                assert forall|j: int|
                    (0 <= j < n && !is_pivot_col(self@, n as nat, j)) <==> has_col(free_vars@, j) by {}
            }
        }
        let mut basis: Vec<Mat2> = Vec::new();
        let mut k: usize = 0;
        while k < free_vars.len()
            invariant
                k <= free_vars@.len(),
                basis@.len() == k,
                self.wf(),
                mat.wf(),
                rows == mat.spec_rows(),
                n == mat.spec_cols(),
                rows == self.spec_rows(),
                n == self.spec_cols(),
                n <= max_bits(),
                is_matrix(self@, rows, n as nat),
                is_matrix(mat@, rows, n as nat),
                ops_valid(ops, rows),
                mat@ == apply_ops(self@, ops),
                echelon(mat@, n as nat, pivot_cols@),
                reduced(mat@, pivot_cols@),
                lists_pivots(self@, n as nat, pivot_cols@),
                rank == pivot_cols@.len(),
                strictly_increasing(free_vars@),
                forall|j: int| has_col(free_vars@, j) <==> (0 <= j < n && !has_col(pivot_cols@, j)),
                forall|t: int|
                    0 <= t < k ==> (#[trigger] basis@[t]).wf() && basis@[t].spec_rows() == 1
                        && basis@[t].spec_cols() == n,
                forall|t: int|
                    0 <= t < k ==> basis_vector(
                        self@,
                        n as nat,
                        free_vars@[t] as int,
                        (#[trigger] basis@[t])@[0],
                    ),
            decreases free_vars@.len() - k,
        {
            let free_var = free_vars[k];
            proof {
                assert(has_col(free_vars@, free_var as int));
            }
            let mut vec = Mat2::zeros(1, n);
            vec.set(0, free_var, true);
            proof {
                assert(vec@[0] =~= unit_row(n as nat, free_var as int));
            }
            let mut row: usize = rank;
            while row > 0
                invariant
                    row <= rank,
                    rank == pivot_cols@.len(),
                    mat.wf(),
                    rows == mat.spec_rows(),
                    n == mat.spec_cols(),
                    is_matrix(mat@, rows, n as nat),
                    echelon(mat@, n as nat, pivot_cols@),
                    free_var < n,
                    !has_col(pivot_cols@, free_var as int),
                    vec.wf(),
                    vec.spec_rows() == 1,
                    vec.spec_cols() == n,
                    vec@[0].len() == n,
                    vec@[0][free_var as int],
                    forall|j: int|
                        0 <= j < n
                            && j != free_var
                            && !has_col(pivot_cols@, j) ==> !#[trigger] vec@[0][j],
                    forall|t: int|
                        0 <= t < row ==> !vec@[0][#[trigger] pivot_cols@[t] as int],
                    forall|t: int|
                        row <= t < rank ==> vec@[0][#[trigger] pivot_cols@[t] as int] == (
                        pivot_cols@[t] < free_var && mat@[t][free_var as int]),
                decreases row,
            {
                row -= 1;
                let pivot_col = pivot_cols[row];
                let ghost before = vec@[0];
                if free_var > pivot_col && mat.get(row, free_var) {
                    vec.set(0, pivot_col, true);
                }
                proof {
                    vec.lemma_shape();
                    assert(has_col(pivot_cols@, pivot_col as int));
                    assert forall|t: int| 0 <= t < row implies
                        !vec@[0][#[trigger] pivot_cols@[t] as int] by {
                        assert(pivot_cols@[t] < pivot_cols@[row as int]);
                        assert(!before[pivot_cols@[t] as int]);
                    }
                    assert forall|t: int| row <= t < rank implies
                        vec@[0][#[trigger] pivot_cols@[t] as int]
                        == (pivot_cols@[t] < free_var && mat@[t][free_var as int]) by {
                        if t > row {
                            assert(pivot_cols@[row as int] < pivot_cols@[t]);
                            assert(before[pivot_cols@[t] as int] == (pivot_cols@[t] < free_var
                                && mat@[t][free_var as int]));
                        } else {
                            assert(!before[pivot_cols@[row as int] as int]);
                        }
                    }
                }
            }
            proof {
                let v = vec@[0];
                let f = free_var as int;
                assert forall|i: int| 0 <= i < rows implies !dot(#[trigger] mat@[i], v) by {
                    if i < rank {
                        let pc = pivot_cols@[i] as int;
                        assert forall|c: int| 0 <= c < n && c != f && c != pc implies !(mat@[i][c]
                            && v[c]) by {
                            if has_col(pivot_cols@, c) {
                                let u = choose|u: int|
                                    0 <= u < pivot_cols@.len() && #[trigger] pivot_cols@[u] == c;
                                assert(u != i);
                                assert(!mat@[i][pivot_cols@[u] as int]);
                            }
                        }
                        assert(has_col(pivot_cols@, pc));
                        lemma_dot_upto_two_terms(mat@[i], v, n as nat, f, pc);
                        assert(mat@[i][pc]);
                        assert(v[pc] == (pc < f && mat@[i][f]));
                        if pc > f {
                            assert(!mat@[i][f]);
                        }
                    } else {
                        assert forall|c: int| 0 <= c < n implies !(mat@[i][c] && v[c]) by {
                            assert(!mat@[i][c]);
                        }
                        lemma_dot_upto_zero(mat@[i], v, n as nat);
                    }
                }
                assert(in_null(mat@, v));
                lemma_ops_null(self@, ops, rows, n as nat, v);
                assert(basis_vector(self@, n as nat, f, v));
            }
            basis.push(vec);
            k += 1;
        }
        proof {
            let vs = Seq::new(basis@.len(), |k: int| basis@[k]@[0]);
            assert forall|t: int| 0 <= t < vs.len() implies basis_vector(
                self@,
                n as nat,
                free_vars@[t] as int,
                #[trigger] vs[t],
            ) by {
                assert(basis_vector(self@, n as nat, free_vars@[t] as int, basis@[t]@[0]));
            }
            assert(nullspace_basis(self@, n as nat, vs));
            lemma_basis_independent(self@, n as nat, vs);
        }
        basis
    }
}

impl Clone for Mat2 {
    /// A copy with the same bits.
    fn clone(&self) -> (m: Mat2)
        ensures
            m@ == self@,
            m.wf() == self.wf(),
            m.spec_rows() == self.spec_rows(),
            m.spec_cols() == self.spec_cols(),
    {
        let mut data: Vec<BitRow> = Vec::new();
        let mut i: usize = 0;
        while i < self.data.len()
            invariant
                i <= self.data@.len(),
                data@.len() == i,
                forall|t: int| 0 <= t < i ==> bits_of(#[trigger] data@[t]) == bits_of(self.data@[t]),
            decreases self.data@.len() - i,
        {
            data.push(copy_bits(&self.data[i]));
            i += 1;
        }
        let m = Mat2 { rows: self.rows, cols: self.cols, data };
        proof {
            assert(m@ =~= self@);
            if self.wf() {
                assert forall|t: int| 0 <= t < m.data@.len() implies bits_of(#[trigger] m.data@[t]).len()
                    == m.cols by {
                    assert(bits_of(self.data@[t]).len() == self.cols);
                }
            }
            if m.wf() {
                assert forall|t: int| 0 <= t < self.data@.len() implies
                    bits_of(#[trigger] self.data@[t]).len()
                    == self.cols by {
                    assert(bits_of(m.data@[t]).len() == m.cols);
                }
            }
        }
        m
    }
}

impl std::ops::Add for Mat2 {
    type Output = Mat2;

    /// The entrywise sum of two matrices of one shape.
    fn add(self, other: Mat2) -> (r: Mat2)
        ensures
            r.wf(),
            r.spec_rows() == self.spec_rows(),
            r.spec_cols() == self.spec_cols(),
            r@ == mat_add(self@, other@),
    {
        let mut out = self;
        let mut i: usize = 0;
        while i < out.rows
            invariant
                i <= out.rows,
                out.wf(),
                other.wf(),
                out.rows == self.rows,
                out.cols == self.cols,
                out.rows == other.rows,
                out.cols == other.cols,
                out.data@.len() == self.data@.len(),
                forall|t: int| 0 <= t < i
                    ==> bits_of(#[trigger] out.data@[t]) == row_xor(self@[t], other@[t]),
                forall|t: int| i <= t < out.rows ==> bits_of(#[trigger] out.data@[t]) == self@[t],
            decreases out.rows - i,
        {
            assert(bits_of(out.data@[i as int]).len() == out.cols);
            assert(bits_of(other.data@[i as int]).len() == other.cols);
            xor_bits(&mut out.data[i], &other.data[i]);
            proof {
                assert(bits_of(out.data@[i as int]) =~= row_xor(self@[i as int], other@[i as int]));
            }
            i += 1;
        }
        proof {
            assert(out@ =~= mat_add(self@, other@));
        }
        out
    }
}

impl vstd::std_specs::ops::AddSpecImpl for Mat2 {
    /// The sum is stated, over the views, on `add` itself.
    open spec fn obeys_add_spec() -> bool {
        false
    }

    open spec fn add_req(self, other: Mat2) -> bool {
        &&& self.wf()
        &&& other.wf()
        &&& self.spec_rows() == other.spec_rows()
        &&& self.spec_cols() == other.spec_cols()
    }

    open spec fn add_spec(self, other: Mat2) -> Mat2 {
        self
    }
}

impl std::ops::Mul for Mat2 {
    type Output = Mat2;

    /// The matrix product; `other` has as many rows as `self` has columns.
    fn mul(self, other: Mat2) -> (r: Mat2)
        ensures
            r.wf(),
            r.spec_rows() == self.spec_rows(),
            r.spec_cols() == other.spec_cols(),
            r@ == mat_mul(self@, other@, other.spec_cols()),
    {
        let mut result = Mat2::new(self.rows, other.cols);
        proof {
            self.lemma_shape();
            other.lemma_shape();
        }
        let mut i: usize = 0;
        while i < self.rows
            invariant
                i <= self.rows,
                self.wf(),
                other.wf(),
                self.cols == other.rows,
                result.wf(),
                result.rows == self.rows,
                result.cols == other.cols,
                is_matrix(self@, self.rows as nat, self.cols as nat),
                is_matrix(other@, other.rows as nat, other.cols as nat),
                forall|t: int, c: int|
                    0 <= t < i && 0 <= c < other.cols ==> #[trigger] result@[t][c] == dot(
                        self@[t],
                        column(other@, c),
                    ),
                forall|t: int| i <= t < self.rows
                    ==> #[trigger] result@[t] == zero_row(other.cols as nat),
            decreases self.rows - i,
        {
            let mut k: usize = 0;
            while k < self.cols
                invariant
                    k <= self.cols,
                    i < self.rows,
                    self.wf(),
                    other.wf(),
                    self.cols == other.rows,
                    result.wf(),
                    result.rows == self.rows,
                    result.cols == other.cols,
                    is_matrix(self@, self.rows as nat, self.cols as nat),
                    is_matrix(other@, other.rows as nat, other.cols as nat),
                    forall|t: int, c: int|
                        0 <= t < i && 0 <= c < other.cols ==> #[trigger] result@[t][c] == dot(
                            self@[t],
                            column(other@, c),
                        ),
                    forall|t: int|
                        i < t < self.rows ==> #[trigger] result@[t] == zero_row(other.cols as nat),
                    forall|c: int|
                        0 <= c < other.cols ==> #[trigger] result@[i as int][c] == dot_upto(
                            self@[i as int],
                            column(other@, c),
                            k as nat,
                        ),
                decreases self.cols - k,
            {
                if self.get(i, k) {
                    let ghost before = result@;
                    assert(bits_of(result.data@[i as int]).len() == result.cols);
                    assert(bits_of(other.data@[k as int]).len() == other.cols);
                    xor_bits(&mut result.data[i], &other.data[k]);
                    proof {
                        assert forall|t: int| 0 <= t < result.data@.len() implies
                            bits_of(#[trigger] result.data@[t]).len() == result.cols by {
                            if t != i {
                                assert(bits_of(result.data@[t]) == before[t]);
                            }
                        }
                        assert forall|t: int, c: int|
                            0 <= t < i && 0 <= c < other.cols implies #[trigger] result@[t][c] == dot(
                            self@[t],
                            column(other@, c),
                        ) by {
                            assert(result@[t] == before[t]);
                        }
                        assert forall|t: int| i < t < self.rows implies
                            #[trigger] result@[t] == zero_row(
                            other.cols as nat,
                        ) by {
                            assert(result@[t] == before[t]);
                        }
                        assert forall|c: int| 0 <= c < other.cols implies #[trigger] result@[i as int][c]
                            == dot_upto(self@[i as int], column(other@, c), (k + 1) as nat) by {
                            assert(result@[i as int][c] == (before[i as int][c] != other@[k as int][c]));
                        }
                    }
                }
                k += 1;
            }
            proof {
                assert(self@[i as int].len() == self.cols);
            }
            i += 1;
        }
        proof {
            result.lemma_shape();
            assert(result@ =~~= mat_mul(self@, other@, other.spec_cols()));
        }
        result
    }
}

impl vstd::std_specs::ops::MulSpecImpl for Mat2 {
    /// The product is stated, over the views, on `mul` itself.
    open spec fn obeys_mul_spec() -> bool {
        false
    }

    open spec fn mul_req(self, other: Mat2) -> bool {
        &&& self.wf()
        &&& other.wf()
        &&& self.spec_cols() == other.spec_rows()
    }

    open spec fn mul_spec(self, other: Mat2) -> Mat2 {
        self
    }
}

impl PartialEq for Mat2 {
    /// Two matrices are equal where they have the same shape and the same
    /// bits.
    fn eq(&self, other: &Mat2) -> (r: bool) {
        if self.rows != other.rows || self.cols != other.cols {
            return false;
        }
        if self.data.len() != other.data.len() {
            proof {
                assert(self@.len() != other@.len());
            }
            return false;
        }
        let mut i: usize = 0;
        while i < self.data.len()
            invariant
                i <= self.data@.len(),
                self.data@.len() == other.data@.len(),
                forall|t: int| 0 <= t < i
                    ==> bits_of(#[trigger] self.data@[t]) == bits_of(other.data@[t]),
            decreases self.data@.len() - i,
        {
            if !same_bits(&self.data[i], &other.data[i]) {
                proof {
                    assert(self@[i as int] != other@[i as int]);
                }
                return false;
            }
            i += 1;
        }
        proof {
            assert(self@ =~= other@);
        }
        true
    }
}

impl vstd::std_specs::cmp::PartialEqSpecImpl for Mat2 {
    open spec fn obeys_eq_spec() -> bool {
        true
    }

    open spec fn eq_spec(&self, other: &Mat2) -> bool {
        &&& self.spec_rows() == other.spec_rows()
        &&& self.spec_cols() == other.spec_cols()
        &&& self@ == other@
    }
}

impl Eq for Mat2 {

}

} // verus!
