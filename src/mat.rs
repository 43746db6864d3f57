//! A dense, row-major, rectangular matrix of rational numbers.
//!
//! A matrix is modelled by the sequence of its rows, each a sequence of the
//! `(numerator, denominator)` pairs of its entries. All rows have the same
//! length, and every entry is in lowest terms.
use vstd::prelude::*;
use crate::rnum::{RNum, q_mul, q_new, fits, is_canonical};

verus! {

/// Why a matrix refused a change.
#[derive(Debug, Clone, Copy, PartialEq, Eq, Structural)]
pub enum RNMatError {
    /// The new row's length differs from the column count.
    RowDismatch,
    /// The new column's length differs from the row count.
    ColDismatch,
    /// A row index is out of bounds.
    InvalidIndex,
}

impl RNMatError {
    /// The variant's name, which is how the error reads when shown.
    pub fn as_str(&self) -> (r: &'static str)
        ensures
            *self == RNMatError::RowDismatch ==> r@ == "RowDismatch"@,
            *self == RNMatError::ColDismatch ==> r@ == "ColDismatch"@,
            *self == RNMatError::InvalidIndex ==> r@ == "InvalidIndex"@,
    {
        match self {
            RNMatError::RowDismatch => "RowDismatch",
            RNMatError::ColDismatch => "ColDismatch",
            RNMatError::InvalidIndex => "InvalidIndex",
        }
    }
}

/// Every entry of the row is well formed.
pub open spec fn all_wf(row: Seq<RNum>) -> bool {
    forall|j: int| 0 <= j < row.len() ==> (#[trigger] row[j]).wf()
}

/// The values of a row's entries.
pub open spec fn row_view(row: Seq<RNum>) -> Seq<(int, int)> {
    row.map_values(|e: RNum| e@)
}

/// The values of a sequence of rows.
pub open spec fn rows_view(rows: Seq<Vec<RNum>>) -> Seq<Seq<(int, int)>> {
    rows.map_values(|r: Vec<RNum>| row_view(r@))
}

/// All rows have the length of the first one, and every entry is well formed.
pub open spec fn rows_ok(rows: Seq<Vec<RNum>>) -> bool {
    forall|i: int|
        0 <= i < rows.len() ==> (#[trigger] rows[i])@.len() == rows[0]@.len() && all_wf(
            rows[i]@,
        )
}

/// All rows have the same length.
pub open spec fn is_rect(m: Seq<Seq<(int, int)>>) -> bool {
    forall|i: int| 0 <= i < m.len() ==> (#[trigger] m[i]).len() == m[0].len()
}

/// The column count: the length of the first row, 0 without rows.
pub open spec fn cols(m: Seq<Seq<(int, int)>>) -> nat {
    if m.len() == 0 {
        0
    } else {
        m[0].len()
    }
}

/// Rows `i` and `j` exchanged.
pub open spec fn swap_spec(m: Seq<Seq<(int, int)>>, i: int, j: int) -> Seq<Seq<(int, int)>> {
    m.update(i, m[j]).update(j, m[i])
}

/// Every row of the grid has the length of the first one.
pub open spec fn grid_is_rect(g: Seq<Vec<(i32, i32)>>) -> bool {
    forall|i: int| 0 <= i < g.len() ==> (#[trigger] g[i])@.len() == g[0]@.len()
}

/// No pair of the grid has a zero denominator.
pub open spec fn grid_denominators_nonzero(g: Seq<Vec<(i32, i32)>>) -> bool {
    forall|i: int, j: int|
        0 <= i < g.len() && 0 <= j < g[i]@.len() ==> (#[trigger] g[i]@[j]).1 != 0
}

/// The values that the grid's `(numerator, denominator)` pairs stand for.
pub open spec fn grid_view(g: Seq<Vec<(i32, i32)>>) -> Seq<Seq<(int, int)>> {
    g.map_values(|r: Vec<(i32, i32)>| r@.map_values(|p: (i32, i32)| q_new(p.0 as int, p.1 as int)))
}

/// A sequence of rows is refused as a grid when two of its rows differ in
/// length.
pub proof fn law_ragged_grid_refused(g: Seq<Vec<(i32, i32)>>, i: int, j: int)
    requires
        0 <= i < g.len(),
        0 <= j < g.len(),
        g[i]@.len() != g[j]@.len(),
    ensures
        !grid_is_rect(g),
{
}

/// Two matrices without rows have the same value, so they compare equal.
pub proof fn law_empty_matrices_equal(a: RNMat, b: RNMat)
    requires
        a@.len() == 0,
        b@.len() == 0,
    ensures
        a@ == b@,
{
    assert(a@ =~= b@);
}

/// Swapping the same two rows twice gives the matrix back.
pub proof fn law_swap_twice(m: Seq<Seq<(int, int)>>, i: int, j: int)
    requires
        0 <= i < m.len(),
        0 <= j < m.len(),
    ensures
        swap_spec(swap_spec(m, i, j), i, j) == m,
{
    assert(swap_spec(swap_spec(m, i, j), i, j) =~= m);
}

/// A dense matrix of rationals, stored row by row.
#[derive(Debug)]
pub struct RNMat {
    mat: Vec<Vec<RNum>>,
}

impl View for RNMat {
    type V = Seq<Seq<(int, int)>>;

    closed spec fn view(&self) -> Seq<Seq<(int, int)>> {
        rows_view(self.mat@)
    }
}

/// The view of well-formed rows is rectangular and holds canonical values.
proof fn lemma_rows_view(rows: Seq<Vec<RNum>>)
    requires
        rows_ok(rows),
    ensures
        is_rect(rows_view(rows)),
        forall|i: int, j: int|
            0 <= i < rows.len() && 0 <= j < rows[i]@.len() ==> is_canonical(
                #[trigger] rows_view(rows)[i][j],
            ),
{
    assert forall|i: int, j: int|
        0 <= i < rows.len() && 0 <= j < rows[i]@.len() implies is_canonical(
            #[trigger] rows_view(rows)[i][j],
        ) by {
        assert(rows[i]@[j].wf());
        rows[i]@[j].lemma_wf_canonical();
    }
}

impl RNMat {
    #[verifier::type_invariant]
    spec fn inv(self) -> bool {
        rows_ok(self.mat@)
    }

    /// Moves the rows out, leaving the matrix empty.
    fn take_rows(&mut self) -> (rows: Vec<Vec<RNum>>)
        ensures
            rows@ == old(self).mat@,
            rows_ok(rows@),
            final(self).mat@.len() == 0,
    {
        proof {
            use_type_invariant(&*self);
        }
        let mut rows: Vec<Vec<RNum>> = Vec::new();
        std::mem::swap(&mut rows, &mut self.mat);
        rows
    }

    /// An empty matrix: no rows, no columns.
    pub fn new() -> (r: RNMat)
        ensures
            r@ == Seq::<Seq<(int, int)>>::empty(),
    {
        let r = RNMat { mat: Vec::new() };
        assert(r@ =~= Seq::<Seq<(int, int)>>::empty());
        r
    }

    /// The matrix whose entry `(i, j)` is `n / d` for the pair `(n, d)` at
    /// `vecs[i][j]`. The rows must all have one length and no denominator may
    /// be zero.
    pub fn from(vecs: Vec<Vec<(i32, i32)>>) -> (r: RNMat)
        requires
            grid_is_rect(vecs@),
            grid_denominators_nonzero(vecs@),
        ensures
            r@ == grid_view(vecs@),
    {
        let mut rows: Vec<Vec<RNum>> = Vec::new();
        let mut i: usize = 0;
        while i < vecs.len()
            invariant
                i <= vecs@.len(),
                grid_is_rect(vecs@),
                grid_denominators_nonzero(vecs@),
                rows@.len() == i,
                forall|k: int| 0 <= k < i ==> (#[trigger] rows@[k])@.len() == vecs@[k]@.len(),
                forall|k: int| 0 <= k < i ==> all_wf((#[trigger] rows@[k])@),
                forall|k: int, l: int|
                    0 <= k < i && 0 <= l < vecs@[k]@.len() ==> (#[trigger] rows@[k]@[l])@ == q_new(
                        vecs@[k]@[l].0 as int,
                        vecs@[k]@[l].1 as int,
                    ),
            decreases vecs@.len() - i,
        {
            let mut row: Vec<RNum> = Vec::new();
            let mut j: usize = 0;
            while j < vecs[i].len()
                invariant
                    i < vecs@.len(),
                    j <= vecs@[i as int]@.len(),
                    grid_denominators_nonzero(vecs@),
                    row@.len() == j,
                    all_wf(row@),
                    forall|l: int|
                        0 <= l < j ==> (#[trigger] row@[l])@ == q_new(
                            vecs@[i as int]@[l].0 as int,
                            vecs@[i as int]@[l].1 as int,
                        ),
                decreases vecs@[i as int]@.len() - j,
            {
                let p = vecs[i][j];
                assert(p == vecs@[i as int]@[j as int]);
                row.push(RNum::new(p.0, p.1));
                j += 1;
            }
            rows.push(row);
            i += 1;
        }
        assert(rows_ok(rows@)) by {
            assert forall|k: int| 0 <= k < rows@.len() implies (#[trigger] rows@[k])@.len()
                == rows@[0]@.len() && all_wf(rows@[k]@) by {
                assert(vecs@[k]@.len() == vecs@[0]@.len());
            }
        }
        let r = RNMat { mat: rows };
        assert(r@ =~= grid_view(vecs@)) by {
            assert forall|k: int| 0 <= k < rows@.len() implies #[trigger] r@[k] == grid_view(
                vecs@,
            )[k] by {
                assert(r@[k] =~= grid_view(vecs@)[k]);
            }
        }
        r
    }

    /// The number of rows.
    pub fn row_num(&self) -> (r: usize)
        ensures
            r == self@.len(),
    {
        self.mat.len()
    }

    /// The number of columns; 0 for a matrix without rows.
    pub fn col_num(&self) -> (r: usize)
        ensures
            r == cols(self@),
    {
        if self.mat.len() == 0 {
            0
        } else {
            self.mat[0].len()
        }
    }

    /// Appends `row` as the new last row, unless the matrix has rows and
    /// `row`'s length differs from the column count.
    pub fn push_row(&mut self, row: Vec<RNum>) -> (r: Result<(), RNMatError>)
        requires
            all_wf(row@),
        ensures
            old(self)@.len() > 0 && row@.len() != cols(old(self)@) ==> r == Err::<(), RNMatError>(
                RNMatError::RowDismatch,
            ) && final(self)@ == old(self)@,
            !(old(self)@.len() > 0 && row@.len() != cols(old(self)@)) ==> r == Ok::<(), RNMatError>(())
                && final(self)@ == old(self)@.push(row_view(row@)),
    {
        proof {
            use_type_invariant(&*self);
        }
        if self.mat.len() > 0 && self.mat[0].len() != row.len() {
            return Err(RNMatError::RowDismatch);
        }
        let mut rows = self.take_rows();
        rows.push(row);
        assert(rows_ok(rows@));
        self.mat = rows;
        assert(self@ =~= old(self)@.push(row_view(row@)));
        Ok(())
    }

    /// Appends `col` as a new last column. On a matrix without rows each entry
    /// of `col` becomes a row of its own; otherwise `col`'s length must be the
    /// row count, and entry `i` goes to the end of row `i`.
    pub fn push_col(&mut self, col: Vec<RNum>) -> (r: Result<(), RNMatError>)
        requires
            all_wf(col@),
        ensures
            old(self)@.len() == 0 ==> r == Ok::<(), RNMatError>(()) && final(self)@ == Seq::new(
                col@.len(),
                |i: int| seq![col@[i]@],
            ),
            old(self)@.len() > 0 && col@.len() != old(self)@.len() ==> r == Err::<(), RNMatError>(
                RNMatError::ColDismatch,
            ) && final(self)@ == old(self)@,
            old(self)@.len() > 0 && col@.len() == old(self)@.len() ==> r == Ok::<(), RNMatError>(())
                && final(self)@ == Seq::new(old(self)@.len(), |i: int| old(self)@[i].push(col@[i]@)),
    {
        proof {
            use_type_invariant(&*self);
        }
        let row_cnt = self.mat.len();
        if row_cnt == 0 {
            let mut rows: Vec<Vec<RNum>> = Vec::new();
            let mut i: usize = 0;
            while i < col.len()
                invariant
                    i <= col@.len(),
                    all_wf(col@),
                    rows@.len() == i,
                    forall|k: int| 0 <= k < i ==> (#[trigger] rows@[k])@ == seq![col@[k]],
                decreases col@.len() - i,
            {
                let mut row: Vec<RNum> = Vec::new();
                row.push(col[i]);
                rows.push(row);
                i += 1;
            }
            assert(rows_ok(rows@));
            self.mat = rows;
            assert(self@ =~= Seq::new(col@.len(), |i: int| seq![col@[i]@])) by {
                assert forall|k: int| 0 <= k < col@.len() implies #[trigger] self@[k]
                    == seq![col@[k]@] by {
                    assert(self@[k] =~= seq![col@[k]@]);
                }
            }
            Ok(())
        } else {
            if row_cnt != col.len() {
                return Err(RNMatError::ColDismatch);
            }
            let mut rows = self.take_rows();
            let ghost orig = rows@;
            let mut i: usize = 0;
            while i < row_cnt
                invariant
                    i <= row_cnt,
                    row_cnt == orig.len(),
                    row_cnt == col@.len(),
                    all_wf(col@),
                    rows_ok(orig),
                    rows@.len() == row_cnt,
                    forall|k: int| 0 <= k < i ==> (#[trigger] rows@[k])@ == orig[k]@.push(col@[k]),
                    forall|k: int| i <= k < row_cnt ==> #[trigger] rows@[k] == orig[k],
                decreases row_cnt - i,
            {
                rows[i].push(col[i]);
                i += 1;
            }
            assert(rows_ok(rows@)) by {
                assert forall|k: int| 0 <= k < rows@.len() implies (#[trigger] rows@[k])@.len()
                    == rows@[0]@.len() && all_wf(rows@[k]@) by {
                    assert(orig[k]@.len() == orig[0]@.len());
                    assert(all_wf(orig[k]@));
                }
            }
            self.mat = rows;
            assert(self@ =~= Seq::new(old(self)@.len(), |i: int| old(self)@[i].push(col@[i]@)))
                by {
                assert forall|k: int| 0 <= k < row_cnt implies #[trigger] self@[k]
                    == old(self)@[k].push(col@[k]@) by {
                    assert(self@[k] =~= old(self)@[k].push(col@[k]@));
                }
            }
            Ok(())
        }
    }

    /// Exchanges rows `rindex_a` and `rindex_b`; both must be in bounds.
    pub fn swap_row(&mut self, rindex_a: usize, rindex_b: usize) -> (r: Result<(), RNMatError>)
        ensures
            rindex_a >= old(self)@.len() || rindex_b >= old(self)@.len() ==> r == Err::<
                (),
                RNMatError,
            >(RNMatError::InvalidIndex) && final(self)@ == old(self)@,
            rindex_a < old(self)@.len() && rindex_b < old(self)@.len() ==> r == Ok::<(), RNMatError>(())
                && final(self)@ == swap_spec(old(self)@, rindex_a as int, rindex_b as int),
    {
        proof {
            use_type_invariant(&*self);
        }
        let leng = self.mat.len();
        if leng <= rindex_a || leng <= rindex_b {
            return Err(RNMatError::InvalidIndex);
        }
        if rindex_a == rindex_b {
            assert(swap_spec(self@, rindex_a as int, rindex_b as int) =~= self@);
            return Ok(());
        }
        let mut rows = self.take_rows();
        let ghost orig = rows@;
        let mut tmp: Vec<RNum> = Vec::new();
        std::mem::swap(&mut tmp, &mut rows[rindex_a]);
        std::mem::swap(&mut tmp, &mut rows[rindex_b]);
        std::mem::swap(&mut tmp, &mut rows[rindex_a]);
        assert(rows@ =~= orig.update(rindex_a as int, orig[rindex_b as int]).update(
            rindex_b as int,
            orig[rindex_a as int],
        ));
        assert(rows_ok(rows@)) by {
            assert forall|k: int| 0 <= k < rows@.len() implies (#[trigger] rows@[k])@.len()
                == rows@[0]@.len() && all_wf(rows@[k]@) by {
                assert(orig[k]@.len() == orig[0]@.len());
                assert(all_wf(orig[k]@));
                assert(orig[rindex_a as int]@.len() == orig[0]@.len());
                assert(orig[rindex_b as int]@.len() == orig[0]@.len());
                assert(all_wf(orig[rindex_a as int]@));
                assert(all_wf(orig[rindex_b as int]@));
            }
        }
        self.mat = rows;
        assert(self@ =~= swap_spec(old(self)@, rindex_a as int, rindex_b as int));
        Ok(())
    }

    /// Multiplies every entry of row `index` by `factor`, in place; the index
    /// must be in bounds.
    pub fn row_mul_scalar(&mut self, factor: RNum, index: usize) -> (r: Result<(), RNMatError>)
        requires
            factor.wf(),
            index < old(self)@.len() ==> forall|j: int|
                0 <= j < old(self)@[index as int].len() ==> fits(
                    q_mul(#[trigger] old(self)@[index as int][j], factor@),
                ),
        ensures
            index >= old(self)@.len() ==> r == Err::<(), RNMatError>(RNMatError::InvalidIndex)
                && final(self)@ == old(self)@,
            index < old(self)@.len() ==> r == Ok::<(), RNMatError>(()) && final(self)@ == old(
                self,
            )@.update(
                index as int,
                Seq::new(
                    old(self)@[index as int].len(),
                    |j: int| q_mul(old(self)@[index as int][j], factor@),
                ),
            ),
    {
        proof {
            use_type_invariant(&*self);
        }
        if self.mat.len() <= index {
            return Err(RNMatError::InvalidIndex);
        }
        let mut rows = self.take_rows();
        let ghost orig = rows@;
        let mut row: Vec<RNum> = Vec::new();
        std::mem::swap(&mut row, &mut rows[index]);
        let ghost orig_row = row@;
        assert(all_wf(orig_row));
        assert forall|k: int| 0 <= k < orig_row.len() implies fits(
            q_mul(#[trigger] orig_row[k]@, factor@),
        ) by {
            assert(old(self)@[index as int][k] == orig_row[k]@);
        }
        let mut j: usize = 0;
        while j < row.len()
            invariant
                j <= row@.len(),
                row@.len() == orig_row.len(),
                factor.wf(),
                all_wf(orig_row),
                orig_row == orig[index as int]@,
                index < orig.len(),
                rows_view(orig) == old(self)@,
                forall|k: int|
                    0 <= k < orig_row.len() ==> fits(q_mul(#[trigger] orig_row[k]@, factor@)),
                forall|k: int|
                    0 <= k < j ==> (#[trigger] row@[k]).wf() && row@[k]@ == q_mul(
                        orig_row[k]@,
                        factor@,
                    ),
                forall|k: int| j <= k < row@.len() ==> #[trigger] row@[k] == orig_row[k],
            decreases row@.len() - j,
        {
            assert(orig_row[j as int]@ == old(self)@[index as int][j as int]);
            let e = row[j] * factor;
            row[j] = e;
            j += 1;
        }
        rows[index] = row;
        assert(rows_ok(rows@)) by {
            assert forall|k: int| 0 <= k < rows@.len() implies (#[trigger] rows@[k])@.len()
                == rows@[0]@.len() && all_wf(rows@[k]@) by {
                assert(orig[k]@.len() == orig[0]@.len());
                assert(all_wf(orig[k]@));
            }
        }
        self.mat = rows;
        assert(self@ =~= old(self)@.update(
            index as int,
            Seq::new(
                old(self)@[index as int].len(),
                |j: int| q_mul(old(self)@[index as int][j], factor@),
            ),
        )) by {
            assert(self@[index as int] =~= Seq::new(
                old(self)@[index as int].len(),
                |j: int| q_mul(old(self)@[index as int][j], factor@),
            ));
        }
        Ok(())
    }

    /// The matrices can be multiplied in this order: both have no rows, or
    /// this one's column count is the other's row count.
    pub fn is_valid_dimension(&self, other: &RNMat) -> (r: bool)
        ensures
            r == ((self@.len() == 0 && other@.len() == 0) || cols(self@) == other@.len()),
    {
        (self.mat.len() == 0 && other.mat.len() == 0) || (self.col_num() == other.mat.len())
    }
}

impl PartialEq for RNMat {
    /// Same row count and, with rows, same column count and equal entries.
    fn eq(&self, other: &RNMat) -> (r: bool)
        ensures
            r == (self@ == other@),
    {
        proof {
            use_type_invariant(self);
            use_type_invariant(other);
            lemma_rows_view(self.mat@);
            lemma_rows_view(other.mat@);
        }
        let row_cnt = self.mat.len();
        if row_cnt != other.mat.len() {
            return false;
        }
        if row_cnt == 0 {
            assert(self@ =~= other@);
            return true;
        }
        let col_cnt = self.mat[0].len();
        if col_cnt != other.mat[0].len() {
            assert(self@[0].len() != other@[0].len());
            return false;
        }
        let mut i: usize = 0;
        while i < row_cnt
            invariant
                i <= row_cnt,
                row_cnt == self.mat@.len(),
                row_cnt == other.mat@.len(),
                rows_ok(self.mat@),
                rows_ok(other.mat@),
                col_cnt == self.mat@[0]@.len(),
                col_cnt == other.mat@[0]@.len(),
                forall|k: int| 0 <= k < i ==> #[trigger] self@[k] == other@[k],
            decreases row_cnt - i,
        {
            let mut j: usize = 0;
            assert(self.mat@[i as int]@.len() == col_cnt);
            assert(other.mat@[i as int]@.len() == col_cnt);
            while j < col_cnt
                invariant
                    i < row_cnt,
                    j <= col_cnt,
                    row_cnt == self.mat@.len(),
                    row_cnt == other.mat@.len(),
                    rows_ok(self.mat@),
                    rows_ok(other.mat@),
                    self.mat@[i as int]@.len() == col_cnt,
                    other.mat@[i as int]@.len() == col_cnt,
                    forall|l: int| 0 <= l < j ==> #[trigger] self@[i as int][l] == other@[i as int][l],
                decreases col_cnt - j,
            {
                if !(self.mat[i][j] == other.mat[i][j]) {
                    proof {
                        assert(all_wf(self.mat@[i as int]@));
                        assert(all_wf(other.mat@[i as int]@));
                        RNum::lemma_view_determines(
                            self.mat@[i as int]@[j as int],
                            other.mat@[i as int]@[j as int],
                        );
                        assert(self@[i as int][j as int] != other@[i as int][j as int]);
                    }
                    return false;
                }
                j += 1;
            }
            assert(self@[i as int] =~= other@[i as int]);
            i += 1;
        }
        assert(self@ =~= other@);
        true
    }
}

impl vstd::std_specs::cmp::PartialEqSpecImpl for RNMat {
    open spec fn obeys_eq_spec() -> bool {
        true
    }

    open spec fn eq_spec(&self, other: &RNMat) -> bool {
        self@ == other@
    }
}

} // verus!
