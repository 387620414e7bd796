//! Dense matrices over GF(2), one field element per cell.

use vstd::prelude::*;
use crate::algebra::{lemma_basis_independent, lemma_null_as_product};
use crate::echelon::{
    lemma_back_sub_step, lemma_dot_from_zero, lemma_dot_split, lemma_elimination_pivots,
};
use crate::elimination::{
    clearing_ops, column_ops, elimination_ops, first_one, gauss_ops, lemma_apply_ops_concat,
    lemma_apply_single, lemma_first_one_skip, pivot_swap,
};
use crate::gf2::{
    add_column, apply_col_ops, apply_op, apply_ops, basis_vector, column, dot, dot_from,
    dot_upto, echelon, echelon_upto, has_col, hstack, identity, in_null, independent, is_matrix,
    is_pivot_col, lists_free, lists_pivots, mat_add, mat_mul, matrix_rank, nullspace_basis,
    ops_valid, reduced, row_xor, strictly_increasing, swap_columns, unit_row, zero_matrix,
    zero_row, RowOp,
};
use crate::gf2_lemmas::{
    lemma_apply_ops_push, lemma_dot_upto_congruent, lemma_dot_upto_one_term,
    lemma_dot_upto_zero, lemma_ops_null, lemma_ops_shape,
};
use crate::pivots::free_columns;
use crate::products::{
    lemma_col_ops_product, lemma_full_pivots, lemma_identity_left, lemma_ops_mul,
    lemma_ops_undo,
};

verus! {

/// An element of the field with two elements.
#[derive(Clone, Copy, Debug, PartialEq, Eq, Hash, Structural)]
pub enum F2 {
    Zero,
    One,
}

impl F2 {
    /// The element as a boolean: `true` for one.
    pub open spec fn bit(self) -> bool {
        self == F2::One
    }

    /// The element that stands for the boolean `b`.
    pub open spec fn of_bit(b: bool) -> F2 {
        if b {
            F2::One
        } else {
            F2::Zero
        }
    }

    /// Zero for 0, one for every other byte.
    pub fn from_u8(n: u8) -> (r: F2)
        ensures
            r == F2::of_bit(n != 0),
    {
        if n == 0 {
            F2::Zero
        } else {
            F2::One
        }
    }

    /// The digit that writes the element: `0` or `1`.
    pub open spec fn digit(self) -> Seq<char> {
        if self.bit() {
            "1"@
        } else {
            "0"@
        }
    }

    /// The element as text: `0` or `1`.
    pub fn to_string(&self) -> (r: String)
        ensures
            r@ == self.digit(),
    {
        match self {
            F2::Zero => String::from_str("0"),
            F2::One => String::from_str("1"),
        }
    }

    /// 0 for zero, 1 for one.
    pub fn to_u8(self) -> (r: u8)
        ensures
            r == if self.bit() { 1u8 } else { 0u8 },
    {
        match self {
            F2::Zero => 0,
            F2::One => 1,
        }
    }
}

impl std::ops::Add for F2 {
    type Output = F2;

    /// Addition in GF(2): exclusive or.
    fn add(self, other: F2) -> (r: F2) {
        match (self, other) {
            (F2::Zero, F2::Zero) => F2::Zero,
            (F2::Zero, F2::One) => F2::One,
            (F2::One, F2::Zero) => F2::One,
            (F2::One, F2::One) => F2::Zero,
        }
    }
}

impl vstd::std_specs::ops::AddSpecImpl for F2 {
    open spec fn obeys_add_spec() -> bool {
        true
    }

    open spec fn add_req(self, other: F2) -> bool {
        true
    }

    open spec fn add_spec(self, other: F2) -> F2 {
        F2::of_bit(self.bit() != other.bit())
    }
}

impl std::ops::Mul for F2 {
    type Output = F2;

    /// Multiplication in GF(2): conjunction.
    fn mul(self, other: F2) -> (r: F2) {
        match (self, other) {
            (F2::Zero, _) => F2::Zero,
            (_, F2::Zero) => F2::Zero,
            (F2::One, F2::One) => F2::One,
        }
    }
}

impl vstd::std_specs::ops::MulSpecImpl for F2 {
    open spec fn obeys_mul_spec() -> bool {
        true
    }

    open spec fn mul_req(self, other: F2) -> bool {
        true
    }

    open spec fn mul_spec(self, other: F2) -> F2 {
        F2::of_bit(self.bit() && other.bit())
    }
}

/// The booleans that a row of field elements stands for.
pub open spec fn row_bits(r: Seq<F2>) -> Seq<bool> {
    Seq::new(r.len(), |j: int| r[j].bit())
}

/// The matrix that rows of field elements stand for.
pub open spec fn data_bits(d: Seq<Vec<F2>>) -> Seq<Seq<bool>> {
    Seq::new(d.len(), |i: int| row_bits(d[i]@))
}

/// The matrix that rows of bytes stand for: a one wherever the byte is not 0.
pub open spec fn byte_bits(d: Seq<Vec<u8>>) -> Seq<Seq<bool>> {
    Seq::new(d.len(), |i: int| Seq::new(d[i]@.len(), |j: int| d[i]@[j] != 0))
}

/// The first `n` cells of a row as text: each digit followed by a blank.
pub open spec fn cells_text(r: Seq<F2>, n: nat) -> Seq<char>
    decreases n,
{
    if n == 0 {
        Seq::empty()
    } else {
        cells_text(r, (n - 1) as nat) + r[n - 1].digit() + " "@
    }
}

/// The first `n` rows as text: each row in square brackets on a line of
/// its own.
pub open spec fn rows_text(d: Seq<Vec<F2>>, n: nat) -> Seq<char>
    decreases n,
{
    if n == 0 {
        Seq::empty()
    } else {
        rows_text(d, (n - 1) as nat) + "[ "@ + cells_text(d[n - 1]@, d[n - 1]@.len()) + "]\n"@
    }
}

/// A matrix over GF(2), stored as a vector of rows.
#[derive(Debug)]
pub struct Mat2 {
    pub data: Vec<Vec<F2>>,
}

impl View for Mat2 {
    type V = Seq<Seq<bool>>;

    open spec fn view(&self) -> Seq<Seq<bool>> {
        data_bits(self.data@)
    }
}

/// A fresh row of `n` zeros.
fn zero_cells(n: usize) -> (r: Vec<F2>)
    ensures
        r@.len() == n,
        row_bits(r@) == zero_row(n as nat),
{
    let mut r: Vec<F2> = Vec::new();
    let mut j: usize = 0;
    while j < n
        invariant
            j <= n,
            r@.len() == j,
            forall|k: int| 0 <= k < j ==> r@[k] == F2::Zero,
        decreases n - j,
    {
        r.push(F2::Zero);
        j += 1;
    }
    assert(row_bits(r@) =~= zero_row(n as nat));
    r
}

/// A copy of a row.
fn copy_cells(src: &Vec<F2>) -> (r: Vec<F2>)
    ensures
        r@ == src@,
{
    let mut r: Vec<F2> = Vec::new();
    let mut j: usize = 0;
    while j < src.len()
        invariant
            j <= src.len(),
            r@ == src@.take(j as int),
        decreases src.len() - j,
    {
        r.push(src[j]);
        assert(src@.take(j + 1) =~= src@.take(j as int).push(src@[j as int]));
        j += 1;
    }
    assert(src@.take(src.len() as int) =~= src@);
    r
}

impl Mat2 {
    /// The number of rows.
    pub open spec fn spec_rows(&self) -> nat {
        self.data.len() as nat
    }

    /// The number of columns: the length of the first row, 0 without rows.
    pub open spec fn spec_cols(&self) -> nat {
        if self.data.len() == 0 {
            0
        } else {
            self.data[0].len() as nat
        }
    }

    /// Every row has as many entries as the first.
    pub open spec fn wf(&self) -> bool {
        forall|i: int| 0 <= i < self.data.len() ==> (#[trigger] self.data[i]).len() == self.spec_cols()
    }

    /// A well-formed matrix is a matrix of its row and column counts.
    pub proof fn lemma_wf_is_matrix(&self)
        ensures
            self.wf() <==> is_matrix(self@, self.spec_rows(), self.spec_cols()),
            self@.len() == self.spec_rows(),
    {
        if self.wf() {
            assert forall|i: int| 0 <= i < self@.len() implies
                (#[trigger] self@[i]).len() == self.spec_cols() by {
                assert(self.data[i].len() == self.spec_cols());
            }
        }
        if is_matrix(self@, self.spec_rows(), self.spec_cols()) {
            assert forall|i: int| 0 <= i < self.data.len() implies
                (#[trigger] self.data[i]).len() == self.spec_cols() by {
                assert(self@[i].len() == self.spec_cols());
            }
        }
    }

    /// The matrix as text: each row on a line of its own, as `[ 1 0 1 ]`.
    pub fn to_string(&self) -> (r: String)
        ensures
            r@ == rows_text(self.data@, self.data@.len()),
    {
        let mut out = String::new();
        let mut i: usize = 0;
        while i < self.data.len()
            invariant
                i <= self.data@.len(),
                out@ == rows_text(self.data@, i as nat),
            decreases self.data@.len() - i,
        {
            let row = &self.data[i];
            let ghost before = out@;
            out.append("[ ");
            let mut j: usize = 0;
            while j < row.len()
                invariant
                    j <= row@.len(),
                    out@ == before + "[ "@ + cells_text(row@, j as nat),
                decreases row@.len() - j,
            {
                let ghost so_far = out@;
                let digit = row[j].to_string();
                out.append(digit.as_str());
                out.append(" ");
                proof {
                    assert(out@ =~= before + "[ "@ + (cells_text(row@, j as nat) + row@[j as int].digit()
                        + " "@));
                }
                j += 1;
            }
            out.append("]\n");
            proof {
                assert(out@ =~= before + "[ "@ + cells_text(row@, row@.len()) + "]\n"@);
            }
            i += 1;
        }
        out
    }

    /// The matrix with the rows `data`.
    pub fn new(data: Vec<Vec<F2>>) -> (m: Mat2)
        ensures
            m.data == data,
    {
        Mat2 { data }
    }

    /// The matrix with a one wherever `data` holds a byte other than 0.
    pub fn from_u8(data: Vec<Vec<u8>>) -> (m: Mat2)
        ensures
            m@ == byte_bits(data@),
            m.data.len() == data.len(),
            forall|i: int| 0 <= i < data.len() ==> (#[trigger] m.data[i]).len() == data[i].len(),
    {
        let mut out: Vec<Vec<F2>> = Vec::new();
        let mut i: usize = 0;
        while i < data.len()
            invariant
                i <= data.len(),
                out@.len() == i,
                forall|r: int| 0 <= r < i ==> (#[trigger] out@[r])@.len() == data@[r]@.len(),
                forall|r: int, c: int|
                    0 <= r < i && 0 <= c < data@[r]@.len() ==> (#[trigger] out@[r]@[c]).bit() == (
                    data@[r]@[c] != 0),
            decreases data.len() - i,
        {
            let src = &data[i];
            let mut row: Vec<F2> = Vec::new();
            let mut j: usize = 0;
            while j < src.len()
                invariant
                    j <= src.len(),
                    row@.len() == j,
                    forall|c: int| 0 <= c < j ==> (#[trigger] row@[c]).bit() == (src@[c] != 0),
                decreases src.len() - j,
            {
                row.push(F2::from_u8(src[j]));
                j += 1;
            }
            out.push(row);
            i += 1;
        }
        let m = Mat2 { data: out };
        assert(m@ =~~= byte_bits(data@));
        m
    }

    /// The `n` by `n` identity matrix.
    pub fn id(n: usize) -> (m: Mat2)
        ensures
            m@ == identity(n as nat),
            m.wf(),
            m.spec_rows() == n,
            m.spec_cols() == n,
    {
        let mut out: Vec<Vec<F2>> = Vec::new();
        let mut i: usize = 0;
        while i < n
            invariant
                i <= n,
                out@.len() == i,
                forall|r: int| 0 <= r < i ==> row_bits((#[trigger] out@[r])@) == unit_row(n as nat, r),
                forall|r: int| 0 <= r < i ==> (#[trigger] out@[r])@.len() == n,
            decreases n - i,
        {
            let mut row = zero_cells(n);
            row[i] = F2::One;
            assert(row_bits(row@) =~= unit_row(n as nat, i as int)) by {
                assert forall|k: int| 0 <= k < n implies row_bits(row@)[k] == (k == i) by {
                    if k != i {
                        assert(zero_row(n as nat)[k] == false);
                    }
                }
            }
            out.push(row);
            i += 1;
        }
        let m = Mat2 { data: out };
        assert(m@ =~= identity(n as nat));
        m
    }

    /// The `m` by `n` zero matrix.
    pub fn zeros(m: usize, n: usize) -> (z: Mat2)
        ensures
            z@ == zero_matrix(m as nat, n as nat),
            z.wf(),
            z.data.len() == m,
            forall|i: int| 0 <= i < m ==> (#[trigger] z.data[i]).len() == n,
    {
        let mut out: Vec<Vec<F2>> = Vec::new();
        let mut i: usize = 0;
        while i < m
            invariant
                i <= m,
                out@.len() == i,
                forall|r: int| 0 <= r < i ==> row_bits((#[trigger] out@[r])@) == zero_row(n as nat),
                forall|r: int| 0 <= r < i ==> (#[trigger] out@[r])@.len() == n,
            decreases m - i,
        {
            out.push(zero_cells(n));
            i += 1;
        }
        let z = Mat2 { data: out };
        assert(z@ =~= zero_matrix(m as nat, n as nat));
        z
    }

    /// The column vector of `d` entries whose only one stands at `i`; the
    /// zero vector where `i` is not below `d`.
    pub fn unit_vector(d: usize, i: usize) -> (m: Mat2)
        ensures
            m@ == Seq::new(d as nat, |k: int| seq![k == i]),
            m.wf(),
            m.data.len() == d,
    {
        let mut out: Vec<Vec<F2>> = Vec::new();
        let mut k: usize = 0;
        while k < d
            invariant
                k <= d,
                out@.len() == k,
                forall|r: int| 0 <= r < k ==> (#[trigger] out@[r])@ == seq![F2::of_bit(r == i)],
            decreases d - k,
        {
            let mut row: Vec<F2> = Vec::new();
            row.push(if k == i { F2::One } else { F2::Zero });
            assert(row@ =~= seq![F2::of_bit(k == i)]);
            out.push(row);
            k += 1;
        }
        let m = Mat2 { data: out };
        assert(m@ =~~= Seq::new(d as nat, |k: int| seq![k == i]));
        m
    }

    /// The number of rows.
    pub fn rows(&self) -> (r: usize)
        ensures
            r == self.spec_rows(),
    {
        self.data.len()
    }

    /// The number of columns.
    pub fn cols(&self) -> (c: usize)
        ensures
            c == self.spec_cols(),
    {
        if self.data.len() == 0 {
            0
        } else {
            self.data[0].len()
        }
    }

    /// The entry at `(row, col)`, or `None` where there is no such cell.
    pub fn get(&self, row: usize, col: usize) -> (r: Option<F2>)
        ensures
            r == if row < self.data.len() && col < self.data[row as int].len() {
                Some(self.data[row as int][col as int])
            } else {
                None
            },
    {
        if row < self.data.len() {
            if col < self.data[row].len() {
                return Some(self.data[row][col]);
            }
        }
        None
    }

    /// Writes `value` at `(row, col)` and returns `true`; where there is no
    /// such cell, returns `false` and changes nothing.
    pub fn set(&mut self, row: usize, col: usize, value: F2) -> (done: bool)
        ensures
            done == (row < old(self).data.len() && col < old(self).data[row as int].len()),
            done ==> final(self).data@.len() == old(self).data@.len()
                && final(self).data[row as int]@ == old(self).data[row as int]@.update(col as int, value)
               
                    && forall|i: int| 0 <= i < old(self).data.len()
                    && i != row ==> final(self).data[i] == old(self).data[i],
            done ==> final(self)@
                == old(self)@.update(row as int, old(self)@[row as int].update(col as int, value.bit())),
            !done ==> *final(self) == *old(self),
            old(self).wf() ==> final(self).wf(),
            final(self).spec_rows() == old(self).spec_rows(),
            final(self).spec_cols() == old(self).spec_cols(),
    {
        if row < self.data.len() {
            if col < self.data[row].len() {
                let cells = &mut self.data[row];
                cells[col] = value;
                proof {
                    assert(self@ =~~= old(self)@.update(
                        row as int,
                        old(self)@[row as int].update(col as int, value.bit()),
                    ));
                }
                return true;
            }
        }
        false
    }

    /// The block of `rows` by `cols` cells whose top left cell is
    /// `(start_row, start_col)`, or `None` where the block does not lie
    /// within the matrix.
    pub fn submatrix(&self, start_row: usize, start_col: usize, rows: usize, cols: usize) -> (r:
        Option<Mat2>)
        requires
            self.wf(),
        ensures
            r is Some <==> start_row + rows <= self.spec_rows() && start_col + cols
                <= self.spec_cols(),
            r matches Some(m) ==> {
                &&& m.wf()
                &&& m.data.len() == rows
                &&& forall|i: int| 0 <= i < rows ==> (#[trigger] m.data[i]).len() == cols
                &&& m@ == Seq::new(
                    rows as nat,
                    |i: int| self@[start_row + i].subrange(start_col as int, start_col + cols),
                )
            },
    {
        let total_rows = self.rows();
        let total_cols = self.cols();
        if rows > total_rows || start_row > total_rows - rows {
            return None;
        }
        if cols > total_cols || start_col > total_cols - cols {
            return None;
        }
        let mut out: Vec<Vec<F2>> = Vec::new();
        let mut i: usize = 0;
        while i < rows
            invariant
                i <= rows,
                self.wf(),
                total_cols == self.spec_cols(),
                start_row + rows <= self.data.len(),
                start_col + cols <= total_cols,
                out@.len() == i,
                forall|r: int|
                    0 <= r < i ==> (#[trigger] out@[r])@ == self.data[start_row + r]@.subrange(
                        start_col as int,
                        start_col + cols,
                    ),
            decreases rows - i,
        {
            let src = &self.data[start_row + i];
            let mut row: Vec<F2> = Vec::new();
            let mut j: usize = 0;
            while j < cols
                invariant
                    j <= cols,
                    start_col + cols <= src@.len(),
                    src@.len() <= usize::MAX,
                    row@ == src@.subrange(start_col as int, start_col + j),
                decreases cols - j,
            {
                row.push(src[start_col + j]);
                assert(src@.subrange(start_col as int, start_col + j + 1) =~= src@.subrange(
                    start_col as int,
                    start_col + j,
                ).push(src@[start_col + j]));
                j += 1;
            }
            out.push(row);
            i += 1;
        }
        let m = Mat2 { data: out };
        assert(m@ =~~= Seq::new(
            rows as nat,
            |i: int| self@[start_row + i].subrange(start_col as int, start_col + cols),
        ));
        Some(m)
    }

    /// `self` above `other`; both have the same number of columns.
    pub fn vstack(&self, other: &Mat2) -> (m: Mat2)
        requires
            self.wf(),
            other.wf(),
            self.spec_cols() == other.spec_cols(),
        ensures
            m.wf(),
            m@ == self@ + other@,
            m.spec_rows() == self.spec_rows() + other.spec_rows(),
            m.spec_cols() == self.spec_cols(),
    {
        let mut out: Vec<Vec<F2>> = Vec::new();
        let mut i: usize = 0;
        while i < self.data.len()
            invariant
                i <= self.data.len(),
                out@.len() == i,
                forall|r: int| 0 <= r < i ==> (#[trigger] out@[r])@ == self.data[r]@,
            decreases self.data.len() - i,
        {
            out.push(copy_cells(&self.data[i]));
            i += 1;
        }
        let mut k: usize = 0;
        while k < other.data.len()
            invariant
                k <= other.data.len(),
                out@.len() == self.data.len() + k,
                forall|r: int| 0 <= r < self.data.len() ==> (#[trigger] out@[r])@ == self.data[r]@,
                forall|r: int|
                    0 <= r < k ==> (#[trigger] out@[self.data.len() + r])@ == other.data[r]@,
            decreases other.data.len() - k,
        {
            out.push(copy_cells(&other.data[k]));
            k += 1;
        }
        let m = Mat2 { data: out };
        proof {
            assert(m@ =~~= self@ + other@) by {
                assert forall|r: int| 0 <= r < m@.len() implies
                    #[trigger] m@[r] == (self@ + other@)[r] by {
                    if r >= self.data.len() {
                        assert(m.data[self.data.len() + (r - self.data.len())]@ == other.data[r
                            - self.data.len()]@);
                    }
                }
            }
            if self.data.len() == 0 {
                if other.data.len() > 0 {
                    assert(m.data[self.data.len() + 0]@ == other.data[0]@);
                }
            } else {
                assert(m.data[0]@ == self.data[0]@);
            }
            assert forall|r: int| 0 <= r < m.data.len() implies (#[trigger] m.data[r]).len()
                == m.spec_cols() by {
                if r >= self.data.len() {
                    assert(m.data[self.data.len() + (r - self.data.len())]@ == other.data[r
                        - self.data.len()]@);
                    assert(other.data[r - self.data.len()].len() == other.spec_cols());
                } else {
                    assert(m.data[r]@ == self.data[r]@);
                    assert(self.data[r].len() == self.spec_cols());
                }
            }
        }
        m
    }

    /// `self` beside `other`; both have the same number of rows.
    pub fn hstack(&self, other: &Mat2) -> (m: Mat2)
        requires
            self.wf(),
            other.wf(),
            self.spec_rows() == other.spec_rows(),
        ensures
            m.wf(),
            m@ == hstack(self@, other@),
            m.spec_rows() == self.spec_rows(),
            m.spec_cols() == self.spec_cols() + other.spec_cols(),
    {
        let mut out: Vec<Vec<F2>> = Vec::new();
        let mut i: usize = 0;
        while i < self.data.len()
            invariant
                i <= self.data.len(),
                self.data.len() == other.data.len(),
                out@.len() == i,
                forall|r: int|
                    0 <= r < i ==> (#[trigger] out@[r])@ == self.data[r]@ + other.data[r]@,
            decreases self.data.len() - i,
        {
            let mut row = copy_cells(&self.data[i]);
            let src = &other.data[i];
            let mut j: usize = 0;
            while j < src.len()
                invariant
                    j <= src.len(),
                    row@ == self.data[i as int]@ + src@.take(j as int),
                decreases src.len() - j,
            {
                row.push(src[j]);
                assert(src@.take(j + 1) =~= src@.take(j as int).push(src@[j as int]));
                assert(row@ =~= self.data[i as int]@ + src@.take(j + 1));
                j += 1;
            }
            assert(src@.take(src.len() as int) =~= src@);
            out.push(row);
            i += 1;
        }
        let m = Mat2 { data: out };
        proof {
            assert(m@ =~~= hstack(self@, other@));
        }
        m
    }

    /// Adds row `r0` to row `r1`. With `r0 == r1` the row becomes zero, as
    /// every vector is its own negative.
    pub fn row_add(&mut self, r0: usize, r1: usize)
        requires
            old(self).wf(),
            r0 < old(self).spec_rows(),
            r1 < old(self).spec_rows(),
        ensures
            final(self).wf(),
            final(self).spec_rows() == old(self).spec_rows(),
            final(self).spec_cols() == old(self).spec_cols(),
            r0 != r1 ==> final(self)@ == apply_op(
                old(self)@,
                RowOp::Add { src: r0 as int, dst: r1 as int },
            ),
            r0 == r1 ==> final(self)@ == old(self)@.update(
                r1 as int,
                zero_row(old(self).spec_cols()),
            ),
    {
        let n = self.data[0].len();
        let mut i: usize = 0;
        while i < n
            invariant
                i <= n,
                r0 < self.data.len(),
                r1 < self.data.len(),
                n == old(self).spec_cols(),
                old(self).wf(),
                self.data.len() == old(self).data.len(),
                forall|r: int|
                    0 <= r < self.data.len()
                        && r != r1 ==> (#[trigger] self.data[r])@ == old(self).data[r]@,
                self.data[r1 as int]@.len() == n,
                forall|k: int|
                    0 <= k < i ==> (#[trigger] self.data[r1 as int]@[k]).bit()
                        == (old(self).data[r1 as int]@[k].bit() != old(self).data[r0 as int]@[k].bit()),
                forall|k: int|
                    i <= k < n ==> #[trigger] self.data[r1 as int]@[k] == old(self).data[r1 as int]@[k],
            decreases n - i,
        {
            let a = if r0 == r1 {
                self.data[r1][i]
            } else {
                self.data[r0][i]
            };
            if a == F2::One {
                let cells = &mut self.data[r1];
                let b = cells[i];
                cells[i] = if b == F2::One { F2::Zero } else { F2::One };
            }
            i += 1;
        }
        proof {
            if r0 != r1 {
                assert(self@ =~~= apply_op(
                    old(self)@,
                    RowOp::Add { src: r0 as int, dst: r1 as int },
                ));
            } else {
                assert(self@ =~~= old(self)@.update(r1 as int, zero_row(old(self).spec_cols())));
            }
            assert forall|r: int| 0 <= r < self.data.len() implies (#[trigger] self.data[r]).len()
                == self.spec_cols() by {
                assert(old(self).data[r].len() == old(self).spec_cols());
                assert(old(self).data[0].len() == old(self).spec_cols());
            }
        }
    }

    /// Adds column `c0` to column `c1`. With `c0 == c1` the column becomes
    /// zero.
    pub fn col_add(&mut self, c0: usize, c1: usize)
        requires
            old(self).wf(),
            c0 < old(self).spec_cols(),
            c1 < old(self).spec_cols(),
        ensures
            final(self).wf(),
            final(self).spec_rows() == old(self).spec_rows(),
            final(self).spec_cols() == old(self).spec_cols(),
            final(self)@ == add_column(old(self)@, c0 as int, c1 as int),
    {
        let m = self.data.len();
        let mut i: usize = 0;
        while i < m
            invariant
                i <= m,
                m == self.data.len(),
                old(self).wf(),
                c0 < old(self).spec_cols(),
                c1 < old(self).spec_cols(),
                self.data.len() == old(self).data.len(),
                forall|r: int|
                    i <= r < m ==> (#[trigger] self.data[r])@ == old(self).data[r]@,
                forall|r: int|
                    0 <= r < i ==> (#[trigger] self.data[r])@ == old(self).data[r]@.update(
                        c1 as int,
                        F2::of_bit(
                            old(self).data[r]@[c1 as int].bit() != old(self).data[r]@[c0 as int].bit(),
                        ),
                    ),
            decreases m - i,
        {
            assert(old(self).data[i as int].len() == old(self).spec_cols());
            let cells = &mut self.data[i];
            if cells[c0] == F2::One {
                let b = cells[c1];
                cells[c1] = if b == F2::One { F2::Zero } else { F2::One };
            }
            proof {
                assert(self.data[i as int]@ =~= old(self).data[i as int]@.update(
                    c1 as int,
                    F2::of_bit(
                        old(self).data[i as int]@[c1 as int].bit()
                            != old(self).data[i as int]@[c0 as int].bit(),
                    ),
                ));
            }
            i += 1;
        }
        proof {
            assert forall|r: int| 0 <= r < self.data.len() implies (#[trigger] self.data[r]).len()
                == old(self).spec_cols() by {
                assert(old(self).data[r].len() == old(self).spec_cols());
            }
            assert(self@ =~~= add_column(old(self)@, c0 as int, c1 as int)) by {
                assert forall|r: int| 0 <= r < self@.len() implies #[trigger] self@[r]
                    =~= add_column(old(self)@, c0 as int, c1 as int)[r] by {
                    assert(old(self).data[r].len() == old(self).spec_cols());
                }
            }
        }
    }

    /// Exchanges rows `r0` and `r1`.
    pub fn row_swap(&mut self, r0: usize, r1: usize)
        requires
            old(self).wf(),
            r0 < old(self).spec_rows(),
            r1 < old(self).spec_rows(),
        ensures
            final(self).wf(),
            final(self).spec_rows() == old(self).spec_rows(),
            final(self).spec_cols() == old(self).spec_cols(),
            final(self)@ == apply_op(old(self)@, RowOp::Swap(r0 as int, r1 as int)),
    {
        self.data.swap(r0, r1);
        proof {
            assert(old(self).data[r0 as int].len() == old(self).spec_cols());
            assert(old(self).data[r1 as int].len() == old(self).spec_cols());
            assert(old(self).data[0].len() == old(self).spec_cols());
            assert forall|r: int| 0 <= r < self.data.len() implies (#[trigger] self.data[r]).len()
                == old(self).spec_cols() by {
                assert(old(self).data[r].len() == old(self).spec_cols());
            }
            assert(self@ =~~= apply_op(old(self)@, RowOp::Swap(r0 as int, r1 as int)));
        }
    }

    /// Exchanges columns `c0` and `c1`.
    pub fn col_swap(&mut self, c0: usize, c1: usize)
        requires
            old(self).wf(),
            c0 < old(self).spec_cols(),
            c1 < old(self).spec_cols(),
        ensures
            final(self).wf(),
            final(self).spec_rows() == old(self).spec_rows(),
            final(self).spec_cols() == old(self).spec_cols(),
            final(self)@ == swap_columns(old(self)@, c0 as int, c1 as int),
    {
        let m = self.data.len();
        let mut i: usize = 0;
        while i < m
            invariant
                i <= m,
                m == self.data.len(),
                old(self).wf(),
                c0 < old(self).spec_cols(),
                c1 < old(self).spec_cols(),
                self.data.len() == old(self).data.len(),
                forall|r: int|
                    i <= r < m ==> (#[trigger] self.data[r])@ == old(self).data[r]@,
                forall|r: int|
                    0 <= r < i ==> (#[trigger] self.data[r])@ == old(self).data[r]@.update(
                        c0 as int,
                        old(self).data[r]@[c1 as int],
                    ).update(c1 as int, old(self).data[r]@[c0 as int]),
            decreases m - i,
        {
            assert(old(self).data[i as int].len() == old(self).spec_cols());
            let cells = &mut self.data[i];
            cells.swap(c0, c1);
            i += 1;
        }
        proof {
            assert forall|r: int| 0 <= r < self.data.len() implies (#[trigger] self.data[r]).len()
                == old(self).spec_cols() by {
                assert(old(self).data[r].len() == old(self).spec_cols());
            }
            assert(self@ =~~= swap_columns(old(self)@, c0 as int, c1 as int)) by {
                assert forall|r: int| 0 <= r < self@.len() implies #[trigger] self@[r]
                    =~= swap_columns(old(self)@, c0 as int, c1 as int)[r] by {
                    assert(old(self).data[r].len() == old(self).spec_cols());
                }
            }
        }
    }

    /// Row `i` becomes the old row `p[i]` for each `i` that `p` covers; the
    /// rows after those become zero.
    pub fn permute_rows(&mut self, p: &[usize])
        requires
            old(self).wf(),
            p@.len() <= old(self).spec_rows(),
            forall|i: int| 0 <= i < p@.len() ==> (#[trigger] p@[i]) < old(self).spec_rows(),
        ensures
            final(self).wf(),
            final(self).spec_rows() == old(self).spec_rows(),
            final(self).spec_cols() == old(self).spec_cols(),
            final(self)@ == Seq::new(
                old(self).spec_rows(),
                |i: int|
                    if i < p@.len() {
                        old(self)@[p@[i] as int]
                    } else {
                        zero_row(old(self).spec_cols())
                    },
            ),
    {
        let rows = self.rows();
        let cols = self.cols();
        let mut out: Vec<Vec<F2>> = Vec::new();
        let mut i: usize = 0;
        while i < rows
            invariant
                i <= rows,
                rows == self.data.len(),
                cols == self.spec_cols(),
                self.wf(),
                p@.len() <= rows,
                forall|k: int| 0 <= k < p@.len() ==> (#[trigger] p@[k]) < rows,
                out@.len() == i,
                forall|r: int| 0 <= r < i ==> (#[trigger] out@[r])@.len() == cols,
                forall|r: int|
                    0 <= r < i ==> row_bits((#[trigger] out@[r])@) == if r < p@.len() {
                        self@[p@[r] as int]
                    } else {
                        zero_row(cols as nat)
                    },
            decreases rows - i,
        {
            if i < p.len() {
                assert(self.data[p@[i as int] as int].len() == cols);
                out.push(copy_cells(&self.data[p[i]]));
            } else {
                out.push(zero_cells(cols));
            }
            i += 1;
        }
        self.data = out;
        proof {
            assert(self@ =~= Seq::new(
                old(self).spec_rows(),
                |i: int|
                    if i < p@.len() {
                        old(self)@[p@[i] as int]
                    } else {
                        zero_row(old(self).spec_cols())
                    },
            ));
        }
    }

    /// Column `j` becomes the old column `p[j]` for each `j` that `p`
    /// covers; the columns after those become zero.
    pub fn permute_cols(&mut self, p: &[usize])
        requires
            old(self).wf(),
            p@.len() <= old(self).spec_cols(),
            forall|j: int| 0 <= j < p@.len() ==> (#[trigger] p@[j]) < old(self).spec_cols(),
        ensures
            final(self).wf(),
            final(self).spec_rows() == old(self).spec_rows(),
            final(self).spec_cols() == old(self).spec_cols(),
            final(self)@ == Seq::new(
                old(self).spec_rows(),
                |i: int|
                    Seq::new(
                        old(self).spec_cols(),
                        |j: int| j < p@.len() && old(self)@[i][p@[j] as int],
                    ),
            ),
    {
        let rows = self.rows();
        let cols = self.cols();
        let mut out: Vec<Vec<F2>> = Vec::new();
        let mut i: usize = 0;
        while i < rows
            invariant
                i <= rows,
                rows == self.data.len(),
                cols == self.spec_cols(),
                self.wf(),
                p@.len() <= cols,
                forall|k: int| 0 <= k < p@.len() ==> (#[trigger] p@[k]) < cols,
                out@.len() == i,
                forall|r: int| 0 <= r < i ==> (#[trigger] out@[r])@.len() == cols,
                forall|r: int, j: int|
                    0 <= r < i && 0 <= j < cols ==> (#[trigger] out@[r]@[j]).bit() == (j < p@.len()
                        && self@[r][p@[j] as int]),
            decreases rows - i,
        {
            let src = &self.data[i];
            assert(src.len() == cols);
            let mut row: Vec<F2> = Vec::new();
            let mut j: usize = 0;
            while j < cols
                invariant
                    j <= cols,
                    src@.len() == cols,
                    src@ == self.data[i as int]@,
                    p@.len() <= cols,
                    forall|k: int| 0 <= k < p@.len() ==> (#[trigger] p@[k]) < cols,
                    row@.len() == j,
                    forall|c: int|
                        0 <= c < j ==> (#[trigger] row@[c]).bit() == (c < p@.len()
                            && src@[p@[c] as int].bit()),
                decreases cols - j,
            {
                if j < p.len() {
                    row.push(src[p[j]]);
                } else {
                    row.push(F2::Zero);
                }
                j += 1;
            }
            out.push(row);
            i += 1;
        }
        self.data = out;
        proof {
            assert(self@ =~~= Seq::new(
                old(self).spec_rows(),
                |i: int|
                    Seq::new(
                        old(self).spec_cols(),
                        |j: int| j < p@.len() && old(self)@[i][p@[j] as int],
                    ),
            ));
        }
    }

    /// Gaussian elimination with the trackers given as plain references and
    /// flags; returns the rank and the row operations performed.
    fn eliminate(
        &mut self,
        full_reduce: bool,
        x: &mut Mat2,
        track_x: bool,
        y: &mut Mat2,
        track_y: bool,
        pivot_cols: &mut Vec<usize>,
    ) -> (res: (usize, Ghost<Seq<RowOp>>))
        requires
            old(self).wf(),
            track_x ==> old(x).wf() && old(x).spec_rows() == old(self).spec_rows(),
            track_y ==> old(y).wf() && old(y).spec_cols() == old(self).spec_rows(),
        ensures
            final(self).wf(),
            final(self).spec_rows() == old(self).spec_rows(),
            final(self).spec_cols() == old(self).spec_cols(),
            ops_valid(res.1@, old(self).spec_rows()),
            final(self)@ == apply_ops(old(self)@, res.1@),
            track_x ==> final(x).wf()
                && final(x).spec_rows() == old(x).spec_rows()
                && final(x).spec_cols() == old(x).spec_cols()
                && final(x)@ == apply_ops(old(x)@, res.1@),
            !track_x ==> *final(x) == *old(x),
            track_y ==> final(y).wf()
                && final(y).spec_rows() == old(y).spec_rows()
                && final(y).spec_cols() == old(y).spec_cols()
                && final(y)@ == apply_col_ops(old(y)@, res.1@),
            !track_y ==> *final(y) == *old(y),
            echelon(final(self)@, old(self).spec_cols(), final(pivot_cols)@),
            full_reduce ==> reduced(final(self)@, final(pivot_cols)@),
            res.0 == final(pivot_cols)@.len(),
            res.1@ == gauss_ops(old(self)@, old(self).spec_cols(), full_reduce),
    {
        let rows = self.rows();
        let cols = self.cols();
        pivot_cols.clear();
        let mut rank: usize = 0;
        let ghost mut ops: Seq<RowOp> = Seq::empty();
        let mut c: usize = 0;
        proof {
            assert(ops + elimination_ops(self@, cols as nat, 0, 0, full_reduce) =~= gauss_ops(
                self@,
                cols as nat,
                full_reduce,
            ));
        }
        while c < cols && rank < rows
            invariant
                self.wf(),
                self.spec_rows() == rows,
                self.spec_cols() == cols,
                rows == old(self).spec_rows(),
                cols == old(self).spec_cols(),
                c <= cols,
                rank <= rows,
                rank == pivot_cols@.len(),
                ops_valid(ops, rows as nat),
                self@ == apply_ops(old(self)@, ops),
                track_x ==> x.wf() && x.spec_rows() == rows && x.spec_cols() == old(x).spec_cols()
                    && x@ == apply_ops(old(x)@, ops),
                !track_x ==> *x == *old(x),
                track_y ==> y.wf() && y.spec_rows() == old(y).spec_rows() && y.spec_cols() == rows
                    && y@ == apply_col_ops(old(y)@, ops),
                !track_y ==> *y == *old(y),
                echelon_upto(self@, pivot_cols@, c as int),
                full_reduce ==> reduced(self@, pivot_cols@),
                gauss_ops(old(self)@, cols as nat, full_reduce) == ops + elimination_ops(
                    self@,
                    cols as nat,
                    c as int,
                    rank as int,
                    full_reduce,
                ),
            decreases cols - c,
        {
            let ghost m_col = self@;
            let ghost base_ops = ops;
            let ghost start: int = if full_reduce { 0 } else { rank + 1 };
            let mut pr: usize = rank;
            while pr < rows && self.cell(pr, c) != F2::One
                invariant
                    self.wf(),
                    self.spec_rows() == rows,
                    self.spec_cols() == cols,
                    c < cols,
                    rank <= pr <= rows,
                    forall|r: int| rank <= r < pr ==> !self@[r][c as int],
                decreases rows - pr,
            {
                pr += 1;
            }
            proof {
                lemma_first_one_skip(m_col, c as int, rank as int, pr as int);
                assert(first_one(m_col, c as int, rank as int) == pr);
            }
            let ghost sw = pivot_swap(rank as int, pr as int);
            if pr < rows {
                if pr != rank {
                    self.row_swap(rank, pr);
                    if track_x {
                        x.row_swap(rank, pr);
                    }
                    if track_y {
                        y.col_swap(rank, pr);
                    }
                    proof {
                        lemma_apply_ops_push(old(self)@, ops, RowOp::Swap(rank as int, pr as int));
                        lemma_apply_ops_push(old(x)@, ops, RowOp::Swap(rank as int, pr as int));
                        lemma_apply_ops_push(old(y)@, ops, RowOp::Swap(rank as int, pr as int));
                        ops = ops.push(RowOp::Swap(rank as int, pr as int));
                    }
                }
                assert(self@[rank as int][c as int]);
                let ghost m1 = self@;
                proof {
                    if pr != rank {
                        lemma_apply_single(m_col, RowOp::Swap(rank as int, pr as int));
                        assert(ops =~= base_ops + sw);
                    } else {
                        assert(ops =~= base_ops + sw);
                    }
                    assert(m1 == apply_ops(m_col, sw));
                    assert(ops =~= base_ops + (sw + clearing_ops(
                        m1,
                        c as int,
                        rank as int,
                        start,
                        start,
                    )));
                }
                let mut r: usize = if full_reduce { 0 } else { rank + 1 };
                while r < rows
                    invariant
                        self.wf(),
                        self.spec_rows() == rows,
                        self.spec_cols() == cols,
                        rows == old(self).spec_rows(),
                        c < cols,
                        rank < rows,
                        r <= rows,
                        !full_reduce ==> r > rank,
                        rank == pivot_cols@.len(),
                        ops_valid(ops, rows as nat),
                        self@ == apply_ops(old(self)@, ops),
                        track_x ==> x.wf()
                            && x.spec_rows() == rows
                            && x.spec_cols() == old(x).spec_cols()
                            && x@ == apply_ops(old(x)@, ops),
                        !track_x ==> *x == *old(x),
                        track_y ==> y.wf() && y.spec_rows() == old(y).spec_rows() && y.spec_cols()
                            == rows && y@ == apply_col_ops(old(y)@, ops),
                        !track_y ==> *y == *old(y),
                        echelon_upto(self@, pivot_cols@, c as int),
                        full_reduce ==> reduced(self@, pivot_cols@),
                        self@[rank as int][c as int],
                        forall|t: int|
                            (if full_reduce { 0 } else { rank + 1 }) <= t < r && t != rank
                                ==> !#[trigger] self@[t][c as int],
                        start == (if full_reduce { 0int } else { rank + 1 }),
                        start <= r,
                        ops == base_ops + (sw + clearing_ops(
                            m1,
                            c as int,
                            rank as int,
                            start,
                            r as int,
                        )),
                        forall|t: int| r <= t < rows ==> #[trigger] self@[t] == m1[t],
                        self@[rank as int] == m1[rank as int],
                    decreases rows - r,
                {
                    if r != rank && self.cell(r, c) == F2::One {
                        let ghost before = self@;
                        self.row_add(rank, r);
                        if track_x {
                            x.row_add(rank, r);
                        }
                        if track_y {
                            y.col_add(r, rank);
                        }
                        proof {
                            let op = RowOp::Add { src: rank as int, dst: r as int };
                            lemma_apply_ops_push(old(self)@, ops, op);
                            lemma_apply_ops_push(old(x)@, ops, op);
                            lemma_apply_ops_push(old(y)@, ops, op);
                            ops = ops.push(op);
                            assert(ops =~= base_ops + (sw + clearing_ops(
                                m1,
                                c as int,
                                rank as int,
                                start,
                                r + 1,
                            )));
                            assert forall|t: int| r + 1 <= t < rows implies #[trigger] self@[t]
                                == m1[t] by {
                                assert(self@[t] == before[t]);
                            }
                            assert(self@[rank as int] == before[rank as int]);
                            assert(self@[r as int] == row_xor(before[r as int], before[rank as int]));
                            assert forall|i: int, k: int| 0 <= i < rows && 0 <= k < c implies (
                            #[trigger] self@[i][k]) == before[i][k] by {
                                assert(!before[rank as int][k]);
                            }
                            assert(echelon_upto(self@, pivot_cols@, c as int));
                            if full_reduce {
                                assert(reduced(self@, pivot_cols@)) by {
                                    assert forall|i: int, t: int|
                                        0 <= i < pivot_cols@.len() && 0 <= t < self@.len() && t
                                            != i implies !#[trigger] self@[t][pivot_cols@[i] as int] by {
                                        assert(!before[t][pivot_cols@[i] as int]);
                                    }
                                }
                            }
                            assert forall|t: int|
                                (if full_reduce { 0 } else { rank + 1 }) <= t < r + 1 && t
                                    != rank implies !#[trigger] self@[t][c as int] by {
                                if t != r {
                                    assert(self@[t] == before[t]);
                                }
                            }
                        }
                    }
                    r += 1;
                }
                proof {
                    let col = column_ops(m_col, c as int, rank as int, full_reduce);
                    assert(col == sw + clearing_ops(m1, c as int, rank as int, start, rows as int));
                    assert(ops == base_ops + col);
                    lemma_apply_ops_concat(old(self)@, base_ops, col);
                    assert(self@ == apply_ops(m_col, col));
                    let rest = elimination_ops(
                        self@,
                        cols as nat,
                        c + 1,
                        rank + 1,
                        full_reduce,
                    );
                    assert(elimination_ops(
                        m_col,
                        cols as nat,
                        c as int,
                        rank as int,
                        full_reduce,
                    ) == col + rest);
                    assert(base_ops + (col + rest) =~= ops + rest);
                }
                proof {
                    let grown = pivot_cols@.push(c);
                    assert(echelon_upto(self@, grown, c + 1)) by {
                        assert forall|i: int| 0 <= i < grown.len() implies
                            self@[i][#[trigger] grown[i] as int] by {
                            if i < pivot_cols@.len() {
                                assert(grown[i] == pivot_cols@[i]);
                            }
                        }
                        assert forall|i: int, k: int|
                            0 <= i < grown.len() && 0 <= k < grown[i] implies !#[trigger] self@[i][k] by {
                            if i < pivot_cols@.len() {
                                assert(grown[i] == pivot_cols@[i]);
                            }
                        }
                    }
                    if full_reduce {
                        assert(reduced(self@, grown)) by {
                            assert forall|i: int, t: int|
                                0 <= i < grown.len()
                                    && 0 <= t < self@.len()
                                    && t != i implies !#[trigger] self@[t][grown[i] as int] by {
                                if i < pivot_cols@.len() {
                                    assert(grown[i] == pivot_cols@[i]);
                                }
                            }
                        }
                    }
                }
                pivot_cols.push(c);
                rank += 1;
            } else {
                proof {
                    let col = column_ops(m_col, c as int, rank as int, full_reduce);
                    assert(col =~= Seq::<RowOp>::empty());
                    assert(apply_ops(m_col, col) == m_col);
                    let rest = elimination_ops(
                        m_col,
                        cols as nat,
                        c + 1,
                        rank as int,
                        full_reduce,
                    );
                    assert(elimination_ops(
                        m_col,
                        cols as nat,
                        c as int,
                        rank as int,
                        full_reduce,
                    ) == col + rest);
                    assert(base_ops + (col + rest) =~= ops + rest);
                }
            }
            c += 1;
        }
        proof {
            assert(ops + elimination_ops(
                self@,
                cols as nat,
                c as int,
                rank as int,
                full_reduce,
            ) =~= ops);
        }
        (rank, Ghost(ops))
    }

    /// The entry at `(r, c)` of a well-formed matrix.
    fn cell(&self, r: usize, c: usize) -> (v: F2)
        requires
            self.wf(),
            r < self.spec_rows(),
            c < self.spec_cols(),
        ensures
            v.bit() == self@[r as int][c as int],
            v == self.data[r as int][c as int],
    {
        self.data[r][c]
    }

    /// Gaussian elimination in place, to row echelon form, and with
    /// `full_reduce` to reduced row echelon form.
    ///
    /// Columns are scanned left to right. In each, the first row at or below
    /// the current pivot row that holds a one is swapped into the pivot row and
    /// added to every row below that holds a one in the column, and with
    /// `full_reduce` to every row above as well. Each row operation is replayed
    /// on `x`, and its inverse, as a column operation, on `y`. `pivot_cols` is
    /// emptied and then filled with the pivot columns in the order found.
    /// `blocksize` is a hint for processing columns in blocks and has no
    /// influence on the result. Returns the rank.
    pub fn gauss(
        &mut self,
        full_reduce: bool,
        x: Option<&mut Mat2>,
        y: Option<&mut Mat2>,
        blocksize: usize,
        pivot_cols: &mut Vec<usize>,
    ) -> (rank: usize)
        requires
            old(self).wf(),
            x matches Some(m) ==> m.wf() && m.spec_rows() == old(self).spec_rows(),
            y matches Some(m) ==> m.wf() && m.spec_cols() == old(self).spec_rows(),
        ensures
            final(self).wf(),
            final(self).spec_rows() == old(self).spec_rows(),
            final(self).spec_cols() == old(self).spec_cols(),
            x matches Some(m) ==> final(m).wf()
                && final(m).spec_rows() == m.spec_rows()
                && final(m).spec_cols() == m.spec_cols(),
            y matches Some(m) ==> final(m).wf()
                && final(m).spec_rows() == m.spec_rows()
                && final(m).spec_cols() == m.spec_cols(),
            ops_valid(
                gauss_ops(old(self)@, old(self).spec_cols(), full_reduce),
                old(self).spec_rows(),
            ),
            final(self)@ == apply_ops(
                old(self)@,
                gauss_ops(old(self)@, old(self).spec_cols(), full_reduce),
            ),
            x matches Some(m) ==> final(m)@ == apply_ops(
                m@,
                gauss_ops(old(self)@, old(self).spec_cols(), full_reduce),
            ),
            y matches Some(m) ==> final(m)@ == apply_col_ops(
                m@,
                gauss_ops(old(self)@, old(self).spec_cols(), full_reduce),
            ),
            echelon(final(self)@, old(self).spec_cols(), final(pivot_cols)@),
            full_reduce ==> reduced(final(self)@, final(pivot_cols)@),
            lists_pivots(old(self)@, old(self).spec_cols(), final(pivot_cols)@),
            rank == final(pivot_cols)@.len(),
            rank == matrix_rank(old(self)@, old(self).spec_cols()),
    {
        let ghost m0 = self@;
        let ghost rows = self.spec_rows();
        let ghost cols = self.spec_cols();
        proof {
            self.lemma_wf_is_matrix();
        }
        let (rank, Ghost(ops)) = match (x, y) {
            (Some(xm), Some(ym)) => self.eliminate(full_reduce, xm, true, ym, true, pivot_cols),
            (Some(xm), None) => {
                let mut spare = Mat2 { data: Vec::new() };
                self.eliminate(full_reduce, xm, true, &mut spare, false, pivot_cols)
            },
            (None, Some(ym)) => {
                let mut spare = Mat2 { data: Vec::new() };
                self.eliminate(full_reduce, &mut spare, false, ym, true, pivot_cols)
            },
            (None, None) => {
                let mut spare = Mat2 { data: Vec::new() };
                let mut spare2 = Mat2 { data: Vec::new() };
                self.eliminate(full_reduce, &mut spare, false, &mut spare2, false, pivot_cols)
            },
        };
        proof {
            lemma_elimination_pivots(m0, ops, rows, cols, pivot_cols@);
        }
        rank
    }

    /// The rank of the matrix.
    pub fn rank(&self) -> (r: usize)
        requires
            self.wf(),
        ensures
            r == matrix_rank(self@, self.spec_cols()),
    {
        let mut m = self.clone();
        let mut pivots: Vec<usize> = Vec::new();
        m.gauss(false, None, None, 6, &mut pivots)
    }

    /// A basis of the nullspace: for each column without pivot, in growing
    /// order, the column vector with a one there, zeros at the other columns
    /// without pivot, and the pivot entries that make every row vanish on it.
    /// `should_copy` has no influence: `self` is never changed.
    pub fn nullspace(&self, should_copy: bool) -> (basis: Vec<Mat2>)
        requires
            self.wf(),
        ensures
            basis@.len() == self.spec_cols() - matrix_rank(self@, self.spec_cols()),
            forall|k: int|
                0 <= k < basis@.len() ==> (#[trigger] basis@[k]).wf() && basis@[k].spec_rows()
                    == self.spec_cols() && basis@[k].spec_cols() == 1,
            forall|k: int| 0 <= k < basis@.len() ==> in_null(self@, column((#[trigger] basis@[k])@, 0)),
            forall|k: int|
                0 <= k < basis@.len() ==> mat_mul(self@, (#[trigger] basis@[k])@, 1) == zero_matrix(
                    self.spec_rows(),
                    1,
                ),
            nullspace_basis(
                self@,
                self.spec_cols(),
                Seq::new(basis@.len(), |k: int| column(basis@[k]@, 0)),
            ),
            independent(Seq::new(basis@.len(), |k: int| column(basis@[k]@, 0)), self.spec_cols()),
    {
        let mut m = self.clone();
        let mut pivot_cols: Vec<usize> = Vec::new();
        let rank = m.gauss(true, None, None, 6, &mut pivot_cols);
        let rows = m.rows();
        let cols = m.cols();
        let ghost ops = gauss_ops(self@, self.spec_cols(), true);
        proof {
            self.lemma_wf_is_matrix();
            m.lemma_wf_is_matrix();
        }
        let free = free_columns(&pivot_cols, cols);
        proof {
            assert(lists_free(self@, cols as nat, free@)) by {
                assert forall|j: int|
                    (0 <= j < cols && !is_pivot_col(self@, cols as nat, j)) <==> has_col(
                        free@,
                        j,
                    ) by {}
            }
        }
        let mut basis: Vec<Mat2> = Vec::new();
        let mut k: usize = 0;
        while k < free.len()
            invariant
                k <= free@.len(),
                basis@.len() == k,
                self.wf(),
                m.wf(),
                rows == m.spec_rows(),
                cols == m.spec_cols(),
                rows == self.spec_rows(),
                cols == self.spec_cols(),
                is_matrix(self@, rows as nat, cols as nat),
                is_matrix(m@, rows as nat, cols as nat),
                ops_valid(ops, rows as nat),
                m@ == apply_ops(self@, ops),
                echelon(m@, cols as nat, pivot_cols@),
                lists_pivots(self@, cols as nat, pivot_cols@),
                rank == pivot_cols@.len(),
                strictly_increasing(free@),
                forall|j: int| has_col(free@, j) <==> (0 <= j < cols && !has_col(pivot_cols@, j)),
                forall|t: int|
                    0 <= t < k ==> (#[trigger] basis@[t]).wf() && basis@[t].spec_rows() == cols
                        && basis@[t].spec_cols() == 1,
                forall|t: int|
                    0 <= t < k ==> basis_vector(
                        self@,
                        cols as nat,
                        free@[t] as int,
                        column((#[trigger] basis@[t])@, 0),
                    ),
                forall|t: int|
                    0 <= t < k ==> mat_mul(self@, (#[trigger] basis@[t])@, 1) == zero_matrix(
                        rows as nat,
                        1,
                    ),
            decreases free@.len() - k,
        {
            let f = free[k];
            proof {
                assert(has_col(free@, f as int));
            }
            let mut v = zero_cells(cols);
            v[f] = F2::One;
            proof {
                assert forall|r: int| rank <= r < rows implies !dot(#[trigger] m@[r], row_bits(v@)) by {
                    assert forall|c: int| 0 <= c < cols implies !(m@[r][c] && row_bits(v@)[c]) by {
                        assert(!m@[r][c]);
                    }
                    lemma_dot_upto_zero(m@[r], row_bits(v@), cols as nat);
                }
                assert forall|j: int|
                    0 <= j < cols
                        && j != f
                        && !has_col(pivot_cols@, j) implies !#[trigger] row_bits(v@)[j] by {
                    assert(!zero_row(cols as nat)[j]);
                }
            }
            let mut i: usize = rank;
            while i > 0
                invariant
                    i <= rank,
                    rank == pivot_cols@.len(),
                    m.wf(),
                    rows == m.spec_rows(),
                    cols == m.spec_cols(),
                    is_matrix(m@, rows as nat, cols as nat),
                    echelon(m@, cols as nat, pivot_cols@),
                    f < cols,
                    !has_col(pivot_cols@, f as int),
                    v@.len() == cols,
                    row_bits(v@)[f as int],
                    forall|j: int|
                        0 <= j < cols
                            && j != f
                            && !has_col(pivot_cols@, j) ==> !#[trigger] row_bits(v@)[j],
                    forall|r: int| i <= r < rows ==> !dot(#[trigger] m@[r], row_bits(v@)),
                decreases i,
            {
                i -= 1;
                let pc = pivot_cols[i];
                let ghost v1 = row_bits(v@);
                let mut sum = F2::Zero;
                let mut j: usize = pc + 1;
                while j < cols
                    invariant
                        pc + 1 <= j <= cols,
                        pc < cols,
                        i < rank,
                        rank <= rows,
                        m.wf(),
                        rows == m.spec_rows(),
                        cols == m.spec_cols(),
                        v@.len() == cols,
                        v1 == row_bits(v@),
                        sum.bit() == dot_from(m@[i as int], v1, pc + 1, j as nat),
                    decreases cols - j,
                {
                    if m.cell(i, j) == F2::One {
                        sum = sum + v[j];
                    }
                    j += 1;
                }
                v[pc] = sum;
                proof {
                    lemma_back_sub_step(m@, rows as nat, cols as nat, pivot_cols@, i as int, v1);
                    assert(row_bits(v@) =~= v1.update(pc as int, sum.bit()));
                    assert(has_col(pivot_cols@, pc as int));
                }
            }
            let mut out: Vec<Vec<F2>> = Vec::new();
            let mut t: usize = 0;
            while t < cols
                invariant
                    t <= cols,
                    v@.len() == cols,
                    out@.len() == t,
                    forall|r: int| 0 <= r < t ==> (#[trigger] out@[r])@ == seq![v@[r]],
                decreases cols - t,
            {
                let mut cell: Vec<F2> = Vec::new();
                cell.push(v[t]);
                assert(cell@ =~= seq![v@[t as int]]);
                out.push(cell);
                t += 1;
            }
            let b = Mat2 { data: out };
            proof {
                assert(column(b@, 0) =~= row_bits(v@));
                lemma_ops_null(self@, ops, rows as nat, cols as nat, row_bits(v@));
                assert(in_null(m@, row_bits(v@)));
                assert(basis_vector(self@, cols as nat, f as int, column(b@, 0)));
                assert(b.wf());
                b.lemma_wf_is_matrix();
                if cols > 0 {
                    assert(b.data[0]@ == seq![v@[0]]);
                }
                lemma_null_as_product(self@, b@, rows as nat, cols as nat);
            }
            basis.push(b);
            k += 1;
        }
        proof {
            let vs = Seq::new(basis@.len(), |k: int| column(basis@[k]@, 0));
            assert(lists_free(self@, cols as nat, free@));
            assert forall|t: int| 0 <= t < vs.len() implies basis_vector(
                self@,
                cols as nat,
                free@[t] as int,
                #[trigger] vs[t],
            ) by {
                assert(basis_vector(self@, cols as nat, free@[t] as int, column(basis@[t]@, 0)));
            }
            assert(nullspace_basis(self@, cols as nat, vs));
            lemma_basis_independent(self@, cols as nat, vs);
        }
        basis
    }

    /// A solution `x` of `self * x = b` for a column vector `b`: the one
    /// that is zero at every column without pivot. `None` where the system
    /// has no solution.
    pub fn solve(&self, b: &Mat2) -> (r: Option<Mat2>)
        requires
            self.wf(),
            is_matrix(b@, self.spec_rows(), 1),
        ensures
            r matches Some(x) ==> {
                &&& x.wf()
                &&& is_matrix(x@, self.spec_cols(), 1)
                &&& mat_mul(self@, x@, 1) == b@
                &&& forall|j: int|
                    0 <= j < self.spec_cols() && !is_pivot_col(self@, self.spec_cols(), j)
                        ==> !#[trigger] x@[j][0]
            },
            r is None ==> forall|x: Seq<Seq<bool>>|
                is_matrix(x, self.spec_cols(), 1) ==> #[trigger] mat_mul(self@, x, 1) != b@,
    {
        let mut m = self.clone();
        let mut b1 = b.clone();
        let ghost rows = self.spec_rows();
        let ghost cols = self.spec_cols();
        proof {
            self.lemma_wf_is_matrix();
            b.lemma_wf_is_matrix();
            b1.lemma_wf_is_matrix();
            if rows > 0 {
                assert(b@[0].len() == 1);
                assert(b.data[0].len() == 1);
            }
            assert forall|i: int| 0 <= i < b.data.len() implies (#[trigger] b.data[i]).len()
                == b.spec_cols() by {
                assert(b@[i].len() == 1);
            }
            assert(b.wf());
        }
        let mut pivot_cols: Vec<usize> = Vec::new();
        let rank = m.gauss(true, Some(&mut b1), None, 6, &mut pivot_cols);
        let ghost ops = gauss_ops(self@, cols, true);
        proof {
            m.lemma_wf_is_matrix();
            b1.lemma_wf_is_matrix();
            lemma_ops_shape(b@, ops, rows, 1);
        }
        let n_rows = m.rows();
        let n_cols = m.cols();
        let mut x = Mat2::zeros(n_cols, 1);
        let mut i: usize = 0;
        while i < n_rows
            invariant
                i <= n_rows,
                n_rows == rows,
                n_cols == cols,
                self.wf(),
                rows == self.spec_rows(),
                cols == self.spec_cols(),
                m.wf(),
                m.spec_rows() == rows,
                m.spec_cols() == cols,
                is_matrix(self@, rows, cols),
                is_matrix(m@, rows, cols),
                is_matrix(b@, rows, 1),
                is_matrix(b1@, rows, 1),
                b1.wf(),
                b1.spec_rows() == rows,
                ops_valid(ops, rows),
                m@ == apply_ops(self@, ops),
                b1@ == apply_ops(b@, ops),
                echelon(m@, cols, pivot_cols@),
                reduced(m@, pivot_cols@),
                lists_pivots(self@, cols, pivot_cols@),
                rank == pivot_cols@.len(),
                x.wf(),
                is_matrix(x@, cols, 1),
                x.data.len() == n_cols,
                forall|t: int| 0 <= t < n_cols ==> (#[trigger] x.data[t]).len() == 1,
                forall|j: int| 0 <= j < cols && !has_col(pivot_cols@, j) ==> !#[trigger] x@[j][0],
                forall|t: int| i <= t < rank ==> !x@[#[trigger] pivot_cols@[t] as int][0],
                forall|t: int|
                    0 <= t < i && t < rank ==> x@[#[trigger] pivot_cols@[t] as int][0] == b1@[t][0],
                forall|t: int| rank <= t < i ==> !(#[trigger] b1@[t])[0],
            decreases n_rows - i,
        {
            assert(b1@[i as int].len() == 1);
            assert(b1.spec_cols() == 1) by {
                assert(b1@[0].len() == 1);
            }
            let rhs = b1.cell(i, 0);
            if i < rank {
                let pc = pivot_cols[i];
                let ghost before = x@;
                let done = x.set(pc, 0, rhs);
                proof {
                    assert(done);
                    assert forall|t: int| i + 1 <= t < rank implies
                        !x@[#[trigger] pivot_cols@[t] as int][0] by {
                        assert(pivot_cols@[i as int] < pivot_cols@[t]);
                        assert(!before[pivot_cols@[t] as int][0]);
                    }
                    assert forall|t: int| 0 <= t < i + 1
                        && t < rank implies x@[#[trigger] pivot_cols@[t] as int][0]
                        == b1@[t][0] by {
                        if t < i {
                            assert(pivot_cols@[t] < pivot_cols@[i as int]);
                            assert(before[pivot_cols@[t] as int][0] == b1@[t][0]);
                        }
                    }
                    assert forall|j: int| 0 <= j < cols
                        && !has_col(pivot_cols@, j) implies !#[trigger] x@[j][0] by {
                        assert(has_col(pivot_cols@, pc as int));
                        assert(!before[j][0]);
                    }
                    assert forall|t: int| 0 <= t < n_cols implies (#[trigger] x.data[t]).len() == 1 by {
                        if t == pc {
                            assert(x.data[t]@.len() == 1);
                        }
                    }
                    assert(is_matrix(x@, cols, 1)) by {
                        assert forall|t: int| 0 <= t < x@.len() implies
                            (#[trigger] x@[t]).len() == 1 by {
                            assert(x.data[t].len() == 1);
                        }
                    }
                }
            } else if rhs == F2::One {
                proof {
                    assert forall|xs: Seq<Seq<bool>>| is_matrix(xs, cols, 1) implies #[trigger] mat_mul(
                        self@,
                        xs,
                        1,
                    ) != b@ by {
                        if mat_mul(self@, xs, 1) == b@ {
                            lemma_ops_mul(self@, ops, xs, rows, cols, 1);
                            let prod = mat_mul(m@, xs, 1);
                            assert(prod == b1@);
                            assert(prod[i as int][0] == dot(m@[i as int], column(xs, 0)));
                            assert forall|c: int| 0 <= c < cols implies !(m@[i as int][c] && column(
                                xs,
                                0,
                            )[c]) by {
                                assert(!m@[i as int][c]);
                            }
                            lemma_dot_upto_zero(m@[i as int], column(xs, 0), cols);
                            assert(false);
                        }
                    }
                }
                return None;
            }
            i += 1;
        }
        proof {
            let xs = x@;
            let xc = column(xs, 0);
            let prod = mat_mul(m@, xs, 1);
            assert forall|t: int| 0 <= t < rows implies #[trigger] prod[t] =~= b1@[t] by {
                assert(prod[t][0] == dot(m@[t], xc));
                if t < rank {
                    let pc = pivot_cols@[t] as int;
                    assert forall|c: int| 0 <= c < cols && c != pc implies !(m@[t][c] && xc[c]) by {
                        if has_col(pivot_cols@, c) {
                            let u = choose|u: int| 0 <= u < pivot_cols@.len()
                                && #[trigger] pivot_cols@[u] == c;
                            assert(u != t);
                            assert(!m@[t][pivot_cols@[u] as int]);
                        } else {
                            assert(!xs[c][0]);
                        }
                    }
                    lemma_dot_upto_one_term(m@[t], xc, cols, pc);
                    assert(m@[t][pc]);
                    assert(xc[pc] == b1@[t][0]);
                } else {
                    assert forall|c: int| 0 <= c < cols implies !(m@[t][c] && xc[c]) by {
                        assert(!m@[t][c]);
                    }
                    lemma_dot_upto_zero(m@[t], xc, cols);
                    assert(!b1@[t][0]);
                }
                assert(b1@[t].len() == 1);
            }
            assert(prod =~= b1@);
            lemma_ops_mul(self@, ops, xs, rows, cols, 1);
            let mx = mat_mul(self@, xs, 1);
            assert(apply_ops(mx, ops) == apply_ops(b@, ops));
            lemma_ops_undo(mx, ops, rows, 1);
            lemma_ops_undo(b@, ops, rows, 1);
            assert(mx == b@);
            assert forall|j: int| 0 <= j < cols
                && !is_pivot_col(self@, cols, j) implies !#[trigger] x@[j][0] by {
                assert(!has_col(pivot_cols@, j));
            }
        }
        Some(x)
    }

    /// The inverse, where the matrix is square and of full rank; `None`
    /// otherwise.
    pub fn inverse(&self) -> (r: Option<Mat2>)
        requires
            self.wf(),
        ensures
            r is Some <==> self.spec_rows() == self.spec_cols() && matrix_rank(
                self@,
                self.spec_cols(),
            ) == self.spec_cols(),
            r matches Some(inv) ==> {
                &&& inv.wf()
                &&& is_matrix(inv@, self.spec_rows(), self.spec_rows())
                &&& mat_mul(self@, inv@, self.spec_rows()) == identity(self.spec_rows())
                &&& mat_mul(inv@, self@, self.spec_rows()) == identity(self.spec_rows())
            },
    {
        if self.rows() != self.cols() {
            return None;
        }
        let n = self.rows();
        let mut m = self.clone();
        let mut inv = Mat2::id(n);
        let mut pivot_cols: Vec<usize> = Vec::new();
        let rank = m.gauss(true, Some(&mut inv), None, 6, &mut pivot_cols);
        if rank < n {
            return None;
        }
        proof {
            let nn = n as nat;
            let ops = gauss_ops(self@, nn, true);
            self.lemma_wf_is_matrix();
            m.lemma_wf_is_matrix();
            inv.lemma_wf_is_matrix();
            lemma_full_pivots(pivot_cols@, nn);
            assert(m@ =~~= identity(nn)) by {
                assert forall|i: int, k: int| 0 <= i < nn
                    && 0 <= k < nn implies m@[i][k] == (k == i) by {
                    assert(pivot_cols@[i] == i);
                    assert(pivot_cols@[k] == k);
                    if k < i {
                        assert(!m@[i][k]);
                    } else if k > i {
                        assert(!m@[i][pivot_cols@[k] as int]);
                    } else {
                        assert(m@[i][pivot_cols@[i] as int]);
                    }
                }
                assert forall|i: int| 0 <= i < nn implies #[trigger] m@[i] =~= identity(nn)[i] by {
                    assert(m@[i].len() == nn);
                }
            }
            lemma_ops_mul(identity(nn), ops, self@, nn, nn, nn);
            lemma_identity_left(self@, nn, nn);
            assert(mat_mul(inv@, self@, nn) == identity(nn));
            let rev = ops.reverse();
            lemma_ops_undo(self@, ops, nn, nn);
            lemma_ops_undo(identity(nn), ops, nn, nn);
            let back = apply_ops(identity(nn), rev);
            assert(self@ == back);
            lemma_ops_mul(identity(nn), rev, inv@, nn, nn, nn);
            lemma_ops_shape(identity(nn), ops, nn, nn);
            lemma_identity_left(inv@, nn, nn);
            assert(mat_mul(self@, inv@, nn) == identity(nn));
        }
        Some(inv)
    }

    /// Two factors `(m0, m1)` of the matrix, `m0 * m1 == self`, whose
    /// common inner dimension is the rank.
    pub fn factor(&self) -> (r: (Mat2, Mat2))
        requires
            self.wf(),
        ensures
            r.0.wf(),
            r.1.wf(),
            is_matrix(r.0@, self.spec_rows(), matrix_rank(self@, self.spec_cols())),
            is_matrix(r.1@, matrix_rank(self@, self.spec_cols()), self.spec_cols()),
            mat_mul(r.0@, r.1@, self.spec_cols()) == self@,
            r.1@ == apply_ops(self@, gauss_ops(self@, self.spec_cols(), false)).take(
                matrix_rank(self@, self.spec_cols()) as int,
            ),
            r.0@ == Seq::new(
                self.spec_rows(),
                |i: int|
                    apply_col_ops(
                        identity(self.spec_rows()),
                        gauss_ops(self@, self.spec_cols(), false),
                    )[i].take(matrix_rank(self@, self.spec_cols()) as int),
            ),
    {
        let n_rows = self.rows();
        let n_cols = self.cols();
        let mut m0 = Mat2::id(n_rows);
        let mut m1 = self.clone();
        let mut pivot_cols: Vec<usize> = Vec::new();
        let rank = m1.gauss(false, None, Some(&mut m0), 6, &mut pivot_cols);
        let ghost rows = n_rows as nat;
        let ghost cols = n_cols as nat;
        let ghost ops = gauss_ops(self@, cols, false);
        proof {
            self.lemma_wf_is_matrix();
            m0.lemma_wf_is_matrix();
            m1.lemma_wf_is_matrix();
            lemma_col_ops_product(identity(rows), self@, ops, rows, rows, cols);
            lemma_identity_left(self@, rows, cols);
            assert(mat_mul(m0@, m1@, cols) == self@);
        }
        let mut left: Vec<Vec<F2>> = Vec::new();
        let mut i: usize = 0;
        while i < n_rows
            invariant
                i <= n_rows,
                rank <= n_rows,
                m0.wf(),
                m0.spec_rows() == n_rows,
                m0.spec_cols() == n_rows,
                left@.len() == i,
                forall|t: int| 0 <= t < i ==> (#[trigger] left@[t])@ == m0.data[t]@.take(rank as int),
            decreases n_rows - i,
        {
            let src = &m0.data[i];
            assert(src.len() == n_rows);
            let mut row: Vec<F2> = Vec::new();
            let mut j: usize = 0;
            while j < rank
                invariant
                    j <= rank,
                    rank <= src@.len(),
                    row@ == src@.take(j as int),
                decreases rank - j,
            {
                row.push(src[j]);
                assert(src@.take(j + 1) =~= src@.take(j as int).push(src@[j as int]));
                j += 1;
            }
            left.push(row);
            i += 1;
        }
        let mut right: Vec<Vec<F2>> = Vec::new();
        let mut k: usize = 0;
        while k < rank
            invariant
                k <= rank,
                rank <= n_rows,
                m1.spec_rows() == n_rows,
                right@.len() == k,
                forall|t: int| 0 <= t < k ==> (#[trigger] right@[t])@ == m1.data[t]@,
            decreases rank - k,
        {
            right.push(copy_cells(&m1.data[k]));
            k += 1;
        }
        let f0 = Mat2 { data: left };
        let f1 = Mat2 { data: right };
        proof {
            assert(is_matrix(f0@, rows, rank as nat)) by {
                assert forall|t: int| 0 <= t < f0@.len() implies (#[trigger] f0@[t]).len() == rank by {
                    assert(f0.data[t]@ == m0.data[t]@.take(rank as int));
                    assert(m0.data[t].len() == n_rows);
                }
            }
            assert(is_matrix(f1@, rank as nat, cols)) by {
                assert forall|t: int| 0 <= t < f1@.len() implies (#[trigger] f1@[t]).len() == cols by {
                    assert(f1.data[t]@ == m1.data[t]@);
                    assert(m1@[t].len() == cols);
                }
            }
            f0.lemma_wf_is_matrix();
            f1.lemma_wf_is_matrix();
            if rows > 0 {
                assert(f0.data[0]@ == m0.data[0]@.take(rank as int));
            }
            if rank > 0 {
                assert(f1.data[0]@ == m1.data[0]@);
                assert(m1@[0].len() == cols);
            }
            assert forall|t: int| 0 <= t < f0.data.len() implies
                (#[trigger] f0.data[t]).len() == f0.spec_cols() by {
                assert(f0@[t].len() == rank);
                assert(f0@[0].len() == rank);
            }
            assert forall|t: int| 0 <= t < f1.data.len() implies
                (#[trigger] f1.data[t]).len() == f1.spec_cols() by {
                assert(f1@[t].len() == cols);
                assert(f1@[0].len() == cols);
            }
            let prod = mat_mul(f0@, f1@, cols);
            let full = mat_mul(m0@, m1@, cols);
            assert forall|t: int| 0 <= t < rows implies #[trigger] prod[t] =~= full[t] by {
                assert forall|c: int| 0 <= c < cols implies prod[t][c] == full[t][c] by {
                    let a = m0@[t];
                    let bcol = column(m1@, c);
                    assert(f0.data[t]@ == m0.data[t]@.take(rank as int));
                    assert(m0.data[t].len() == n_rows);
                    lemma_dot_split(a, bcol, rank as int, rows);
                    assert forall|u: int| rank <= u < rows implies !(a[u] && bcol[u]) by {
                        assert(!m1@[u][c]);
                    }
                    lemma_dot_from_zero(a, bcol, rank as int, rows);
                    assert forall|u: int| 0 <= u < rank implies (f0@[t][u] && column(f1@, c)[u]) == (a[u]
                        && bcol[u]) by {
                        assert(f1.data[u]@ == m1.data[u]@);
                    }
                    lemma_dot_upto_congruent(f0@[t], column(f1@, c), a, bcol, rank as nat);
                    assert(f0@[t].len() == rank);
                    assert(a.len() == rows);
                }
            }
            assert(prod =~= full);
            assert(f1@ =~= m1@.take(rank as int)) by {
                assert forall|t: int| 0 <= t < rank implies #[trigger] f1@[t] == m1@[t] by {
                    assert(f1.data[t]@ == m1.data[t]@);
                }
            }
            assert(f0@ =~= Seq::new(rows, |i: int| m0@[i].take(rank as int))) by {
                assert forall|t: int| 0 <= t < rows implies #[trigger] f0@[t] =~= m0@[t].take(
                    rank as int,
                ) by {
                    assert(f0.data[t]@ == m0.data[t]@.take(rank as int));
                    assert(m0.data[t].len() == n_rows);
                }
            }
        }
        (f0, f1)
    }
}

impl Clone for Mat2 {
    /// A copy with the same cells.
    fn clone(&self) -> (m: Mat2)
        ensures
            m.data@.len() == self.data@.len(),
            forall|i: int| 0 <= i < self.data@.len() ==> (#[trigger] m.data@[i])@ == self.data@[i]@,
            m@ == self@,
            m.wf() == self.wf(),
            m.spec_rows() == self.spec_rows(),
            m.spec_cols() == self.spec_cols(),
    {
        let mut out: Vec<Vec<F2>> = Vec::new();
        let mut i: usize = 0;
        while i < self.data.len()
            invariant
                i <= self.data.len(),
                out@.len() == i,
                forall|r: int| 0 <= r < i ==> (#[trigger] out@[r])@ == self.data[r]@,
            decreases self.data.len() - i,
        {
            out.push(copy_cells(&self.data[i]));
            i += 1;
        }
        let m = Mat2 { data: out };
        proof {
            assert(m@ =~~= self@);
            if self.data.len() > 0 {
                assert(m.data[0]@ == self.data[0]@);
            }
            if self.wf() {
                assert forall|r: int| 0 <= r < m.data.len() implies (#[trigger] m.data[r]).len()
                    == m.spec_cols() by {
                    assert(m.data[r]@ == self.data[r]@);
                    assert(self.data[r].len() == self.spec_cols());
                }
            }
            if m.wf() {
                assert forall|r: int| 0 <= r < self.data.len() implies (#[trigger] self.data[r]).len()
                    == self.spec_cols() by {
                    assert(m.data[r]@ == self.data[r]@);
                    assert(m.data[r].len() == m.spec_cols());
                }
            }
        }
        m
    }
}

impl std::ops::Add for Mat2 {
    type Output = Mat2;

    /// The entrywise sum of two matrices of one shape.
    fn add(self, other: Mat2) -> (r: Mat2)
        ensures
            r@ == mat_add(self@, other@),
            r.wf(),
            r.spec_rows() == self.spec_rows(),
            r.spec_cols() == self.spec_cols(),
    {
        let mut out: Vec<Vec<F2>> = Vec::new();
        let mut i: usize = 0;
        proof {
            self.lemma_wf_is_matrix();
            other.lemma_wf_is_matrix();
        }
        while i < self.data.len()
            invariant
                i <= self.data.len(),
                self.wf(),
                other.wf(),
                self.spec_rows() == other.spec_rows(),
                self.spec_cols() == other.spec_cols(),
                out@.len() == i,
                forall|t: int| 0 <= t < i
                    ==> row_bits((#[trigger] out@[t])@) == row_xor(self@[t], other@[t]),
                forall|t: int| 0 <= t < i ==> (#[trigger] out@[t])@.len() == self.spec_cols(),
            decreases self.data.len() - i,
        {
            let a = &self.data[i];
            let b = &other.data[i];
            assert(a.len() == self.spec_cols());
            assert(b.len() == other.spec_cols());
            let mut row: Vec<F2> = Vec::new();
            let mut j: usize = 0;
            while j < a.len()
                invariant
                    j <= a@.len(),
                    a@.len() == b@.len(),
                    row@.len() == j,
                    forall|c: int| 0 <= c < j
                        ==> (#[trigger] row@[c]).bit() == (a@[c].bit() != b@[c].bit()),
                decreases a@.len() - j,
            {
                row.push(a[j] + b[j]);
                j += 1;
            }
            assert(row_bits(row@) =~= row_xor(self@[i as int], other@[i as int]));
            out.push(row);
            i += 1;
        }
        let r = Mat2 { data: out };
        proof {
            assert(r@ =~= mat_add(self@, other@));
            if r.data.len() > 0 {
                assert(r.data[0]@.len() == self.spec_cols());
            }
        }
        r
    }
}

impl vstd::std_specs::ops::AddSpecImpl for Mat2 {
    /// The sum is stated, over the views, on `add` itself.
    open spec fn obeys_add_spec() -> bool {
        false
    }

    open spec fn add_req(self, other: Mat2) -> bool {
        &&& self.wf()
        &&& other.wf()
        &&& self.spec_rows() == other.spec_rows()
        &&& self.spec_cols() == other.spec_cols()
    }

    open spec fn add_spec(self, other: Mat2) -> Mat2 {
        self
    }
}

impl std::ops::Mul for Mat2 {
    type Output = Mat2;

    /// The matrix product; `other` has as many rows as `self` has columns.
    fn mul(self, other: Mat2) -> (r: Mat2)
        ensures
            r@ == mat_mul(self@, other@, other.spec_cols()),
            r.wf(),
            r.spec_rows() == self.spec_rows(),
            self.spec_rows() > 0 ==> r.spec_cols() == other.spec_cols(),
    {
        let n = self.cols();
        let p = other.cols();
        let mut out: Vec<Vec<F2>> = Vec::new();
        let mut i: usize = 0;
        while i < self.data.len()
            invariant
                i <= self.data.len(),
                self.wf(),
                other.wf(),
                n == self.spec_cols(),
                p == other.spec_cols(),
                self.spec_rows() == 0 || n == other.spec_rows(),
                out@.len() == i,
                forall|t: int| 0 <= t < i ==> (#[trigger] out@[t])@.len() == p,
                forall|t: int, c: int|
                    0 <= t < i && 0 <= c < p ==> (#[trigger] out@[t]@[c]).bit() == dot(
                        self@[t],
                        column(other@, c),
                    ),
            decreases self.data.len() - i,
        {
            let mut row: Vec<F2> = Vec::new();
            let mut j: usize = 0;
            while j < p
                invariant
                    j <= p,
                    i < self.data.len(),
                    self.wf(),
                    other.wf(),
                    n == self.spec_cols(),
                    p == other.spec_cols(),
                    n == other.spec_rows(),
                    row@.len() == j,
                    forall|c: int|
                        0 <= c < j ==> (#[trigger] row@[c]).bit() == dot(
                            self@[i as int],
                            column(other@, c),
                        ),
                decreases p - j,
            {
                let mut sum = F2::Zero;
                let mut k: usize = 0;
                while k < n
                    invariant
                        k <= n,
                        i < self.data.len(),
                        j < p,
                        self.wf(),
                        other.wf(),
                        n == self.spec_cols(),
                        p == other.spec_cols(),
                        n == other.spec_rows(),
                        sum.bit() == dot_upto(self@[i as int], column(other@, j as int), k as nat),
                    decreases n - k,
                {
                    sum = sum + self.cell(i, k) * other.cell(k, j);
                    k += 1;
                }
                assert(self@[i as int].len() == n);
                row.push(sum);
                j += 1;
            }
            out.push(row);
            i += 1;
        }
        let r = Mat2 { data: out };
        proof {
            assert(r@ =~~= mat_mul(self@, other@, other.spec_cols()));
            if r.data.len() > 0 {
                assert(r.data[0]@.len() == p);
            }
        }
        r
    }
}

impl vstd::std_specs::ops::MulSpecImpl for Mat2 {
    /// The product is stated, over the views, on `mul` itself.
    open spec fn obeys_mul_spec() -> bool {
        false
    }

    open spec fn mul_req(self, other: Mat2) -> bool {
        &&& self.wf()
        &&& other.wf()
        &&& (self.spec_rows() == 0 || self.spec_cols() == other.spec_rows())
    }

    open spec fn mul_spec(self, other: Mat2) -> Mat2 {
        self
    }
}

impl PartialEq for Mat2 {
    /// Two matrices are equal where they have the same rows.
    fn eq(&self, other: &Mat2) -> (r: bool) {
        if self.data.len() != other.data.len() {
            proof {
                assert(self@.len() != other@.len());
            }
            return false;
        }
        let mut i: usize = 0;
        while i < self.data.len()
            invariant
                i <= self.data.len(),
                self.data.len() == other.data.len(),
                forall|t: int| 0 <= t < i
                    ==> row_bits((#[trigger] self.data[t])@) == row_bits(other.data[t]@),
            decreases self.data.len() - i,
        {
            let a = &self.data[i];
            let b = &other.data[i];
            if a.len() != b.len() {
                proof {
                    assert(self@[i as int].len() != other@[i as int].len());
                }
                return false;
            }
            let mut j: usize = 0;
            while j < a.len()
                invariant
                    j <= a@.len(),
                    i < self.data.len(),
                    self.data.len() == other.data.len(),
                    a@.len() == b@.len(),
                    a@ == self.data[i as int]@,
                    b@ == other.data[i as int]@,
                    forall|c: int| 0 <= c < j ==> (#[trigger] a@[c]).bit() == b@[c].bit(),
                decreases a@.len() - j,
            {
                if a[j] != b[j] {
                    proof {
                        assert(self@[i as int][j as int] != other@[i as int][j as int]);
                    }
                    return false;
                }
                j += 1;
            }
            assert(row_bits(a@) =~= row_bits(b@));
            i += 1;
        }
        proof {
            assert(self@ =~= other@);
        }
        true
    }
}

impl vstd::std_specs::cmp::PartialEqSpecImpl for Mat2 {
    open spec fn obeys_eq_spec() -> bool {
        true
    }

    open spec fn eq_spec(&self, other: &Mat2) -> bool {
        self@ == other@
    }
}

} // verus!
