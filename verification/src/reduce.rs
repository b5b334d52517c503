use vstd::prelude::*;
use crate::scalar::Operations;
use crate::error::LinAlgError;
use crate::matrix::{Matrix, row_div, row_sub_scaled};

verus! {

/// The table with rows `a` and `b` exchanged.
pub open spec fn swap_spec<K>(m: Seq<Seq<K>>, a: int, b: int) -> Seq<Seq<K>> {
    m.update(a, m[b]).update(b, m[a])
}

/// The first row at or below `from` (and below `rows`) whose cell in column
/// `pc` is nonzero; `rows` if there is none.
pub open spec fn find_pivot<K: Operations>(m: Seq<Seq<K>>, pc: int, from: int, rows: int) -> int
    decreases rows - from,
{
    if from < 0 || from >= rows {
        rows
    } else if m[from][pc] != K::sp_zero() {
        from
    } else {
        find_pivot(m, pc, from + 1, rows)
    }
}

/// One pivot step at `(curr, pc)`: divide row `curr` by its pivot cell, then
/// clear column `pc` in every other row by subtracting that row's own cell in
/// the pivot column times the normalized pivot row.
pub open spec fn eliminate<K: Operations>(m: Seq<Seq<K>>, curr: int, pc: int) -> Seq<Seq<K>> {
    let norm = m.update(curr, row_div(m[curr], m[curr][pc]));
    Seq::new(
        norm.len(),
        |r: int|
            if r == curr {
                norm[curr]
            } else {
                row_sub_scaled(norm[r], norm[r][pc], norm[curr])
            },
    )
}

/// The remainder of the row-echelon reduction started at target row `curr`
/// and pivot column `pc`: scan the pivot column for a nonzero cell at or
/// below the target row; if none exists move to the next column, otherwise
/// swap the found row up, eliminate, and move to the next row and column.
pub open spec fn rref_from<K: Operations>(
    m: Seq<Seq<K>>,
    curr: int,
    pc: int,
    rows: int,
    cols: int,
) -> Seq<Seq<K>>
    decreases rows - curr, cols - pc,
{
    if curr < 0 || pc < 0 || curr >= rows || pc >= cols {
        m
    } else {
        let nz = find_pivot(m, pc, curr, rows);
        if nz >= rows {
            rref_from(m, curr, pc + 1, rows, cols)
        } else {
            rref_from(eliminate(swap_spec(m, curr, nz), curr, pc), curr + 1, pc + 1, rows, cols)
        }
    }
}

/// The reduced row-echelon form of a rectangular table; a table with no
/// rows is its own reduced form.
pub open spec fn spec_rref<K: Operations>(m: Seq<Seq<K>>) -> Seq<Seq<K>> {
    rref_from(m, 0, 0, m.len() as int, m[0].len() as int)
}

/// `find_pivot` returns the first qualifying row.
pub proof fn lemma_find_pivot<K: Operations>(m: Seq<Seq<K>>, pc: int, from: int, rows: int, nz: int)
    requires
        0 <= from <= nz <= rows,
        forall|k: int| from <= k < nz ==> m[k][pc] == K::sp_zero(),
        nz < rows ==> m[nz][pc] != K::sp_zero(),
    ensures
        find_pivot(m, pc, from, rows) == nz,
    decreases nz - from,
{
    if from < nz {
        lemma_find_pivot(m, pc, from + 1, rows, nz);
    }
}

/// What holds of whatever `find_pivot` returns: it is the first row at or
/// below `from` with a nonzero cell in the pivot column, or `rows` when
/// every such cell is zero.
pub proof fn lemma_find_pivot_props<K: Operations>(m: Seq<Seq<K>>, pc: int, from: int, rows: int)
    requires
        0 <= from,
    ensures
        from <= find_pivot(m, pc, from, rows) || rows <= find_pivot(m, pc, from, rows),
        find_pivot(m, pc, from, rows) <= rows || rows <= from,
        find_pivot(m, pc, from, rows) < rows ==> m[find_pivot(m, pc, from, rows)][pc]
            != K::sp_zero(),
        forall|k: int|
            from <= k < find_pivot(m, pc, from, rows) && k < rows ==> #[trigger] m[k][pc]
                == K::sp_zero(),
    decreases rows - from,
{
    if from < rows {
        if m[from][pc] != K::sp_zero() {
        } else {
            lemma_find_pivot_props(m, pc, from + 1, rows);
        }
    }
}

impl<K: Operations> Matrix<K> {
    /// The reduced row-echelon form, as a new matrix of the same shape:
    /// Gauss-Jordan elimination with the pivot chosen as the first nonzero
    /// cell found scanning down the pivot column.
    pub fn row_echelon(&self) -> (r: Matrix<K>)
        requires
            self.wf(),
        ensures
            r.wf(),
            r.spec_rows() == self.spec_rows(),
            r.spec_cols() == self.spec_cols(),
            r@ == spec_rref(self@),
    {
        let (rows, cols) = self.shape();
        let mut m = self.duplicate();
        proof {
            self.lemma_view_shape();
            m.lemma_view_shape();
            if rows == 0 {
                assert(spec_rref(self@) == self@);
                assert(rref_from(m@, 0, 0, rows as int, cols as int) == m@);
            }
        }
        let mut curr: usize = 0;
        let mut pc: usize = 0;
        while curr < rows && pc < cols
            invariant
                m.wf(),
                m.spec_rows() == rows,
                m.spec_cols() == cols,
                m@.len() == rows,
                forall|k: int| 0 <= k < rows ==> #[trigger] m@[k].len() == cols,
                curr <= rows,
                pc <= cols,
                spec_rref(self@) == rref_from(
                    m@,
                    curr as int,
                    pc as int,
                    rows as int,
                    cols as int,
                ),
            decreases rows + cols - curr - pc,
        {
            let mut nz = curr;
            while nz < rows && m.get(nz, pc).eq(K::zero())
                invariant
                    m.wf(),
                    m.spec_rows() == rows,
                    m.spec_cols() == cols,
                    m@.len() == rows,
                    forall|k: int| 0 <= k < rows ==> #[trigger] m@[k].len() == cols,
                    curr <= nz <= rows,
                    curr < rows,
                    pc < cols,
                    forall|k: int| curr <= k < nz ==> #[trigger] m@[k][pc as int] == K::sp_zero(),
                decreases rows - nz,
            {
                nz = nz + 1;
            }
            proof {
                m.lemma_view_shape();
            }
            if nz == rows {
                proof {
                    lemma_find_pivot(m@, pc as int, curr as int, rows as int, rows as int);
                }
                pc = pc + 1;
            } else {
                proof {
                    lemma_find_pivot(m@, pc as int, curr as int, rows as int, nz as int);
                }
                let ghost m0 = m@;
                m.swap_rows(curr, nz);
                proof {
                    assert(m@ == swap_spec(m0, curr as int, nz as int));
                    assert(m@[curr as int] == m0[nz as int]);
                }
                let d = m.get(curr, pc);
                m.div_row(curr, d);
                proof {
                    m.lemma_view_shape();
                }
                let ghost m2 = m@;
                let mut r2: usize = 0;
                while r2 < rows
                    invariant
                        m.wf(),
                        m.spec_rows() == rows,
                        m.spec_cols() == cols,
                        m@.len() == rows,
                        curr < rows,
                        pc < cols,
                        r2 <= rows,
                        m2.len() == rows,
                        forall|k: int|
                            0 <= k < r2 && k != curr ==> #[trigger] m@[k] == row_sub_scaled(
                                m2[k],
                                m2[k][pc as int],
                                m2[curr as int],
                            ),
                        forall|k: int|
                            0 <= k < rows && (r2 <= k || k == curr) ==> #[trigger] m@[k] == m2[k],
                    decreases rows - r2,
                {
                    if r2 != curr {
                        let f = m.get(r2, pc);
                        m.sub_scaled_row(r2, f, curr);
                        proof {
                            assert(m@[r2 as int] == row_sub_scaled(
                                m2[r2 as int],
                                m2[r2 as int][pc as int],
                                m2[curr as int],
                            ));
                            m.lemma_view_shape();
                        }
                    }
                    r2 = r2 + 1;
                }
                proof {
                    let after = eliminate(swap_spec(m0, curr as int, nz as int), curr as int, pc as int);
                    assert(m2 == swap_spec(m0, curr as int, nz as int).update(
                        curr as int,
                        row_div(
                            swap_spec(m0, curr as int, nz as int)[curr as int],
                            swap_spec(m0, curr as int, nz as int)[curr as int][pc as int],
                        ),
                    ));
                    assert(m@ =~= after);
                    m.lemma_view_shape();
                }
                curr = curr + 1;
                pc = pc + 1;
            }
        }
        m
    }

    /// The determinant, by the closed form for a `2 x 2` matrix and by
    /// Laplace expansion along the first row for anything larger. Returns
    /// `NotSquare` if and only if the shape is not square.
    pub fn determinant(&self) -> (r: Result<K, LinAlgError>)
        requires
            self.wf(),
        ensures
            match r {
                Ok(k) => self.spec_rows() == self.spec_cols() && k == spec_det(self@),
                Err(e) => {
                    &&& e == LinAlgError::NotSquare
                    &&& self.spec_rows() != self.spec_cols()
                },
            },
        decreases self.spec_rows(),
    {
        let (rows, cols) = self.shape();
        if rows != cols {
            return Err(LinAlgError::NotSquare);
        }
        proof {
            self.lemma_view_shape();
        }
        if rows == 0 {
            return Ok(K::zero());
        }
        if rows == 1 {
            return Ok(self.get(0, 0));
        }
        if rows == 2 {
            let ad = self.get(0, 0).mul(self.get(1, 1));
            let bc = self.get(0, 1).mul(self.get(1, 0));
            return Ok(ad.sub(bc));
        }
        let mut negative = false;
        let mut sum = K::zero();
        let mut col: usize = 0;
        while col < cols
            invariant
                self.wf(),
                rows == self.spec_rows(),
                cols == self.spec_cols(),
                rows == cols,
                rows >= 3,
                self@.len() == rows,
                forall|k: int| 0 <= k < rows ==> #[trigger] self@[k].len() == cols,
                col <= cols,
                negative == (col as int % 2 == 1),
                sum == det_expand(self@, col as int),
            decreases cols - col,
        {
            let mut mdata: Vec<K> = Vec::new();
            let mut mr: usize = 1;
            while mr < rows
                invariant
                    self.wf(),
                    rows == self.spec_rows(),
                    cols == self.spec_cols(),
                    rows == cols,
                    rows >= 3,
                    self@.len() == rows,
                    forall|k: int| 0 <= k < rows ==> #[trigger] self@[k].len() == cols,
                    col < cols,
                    1 <= mr <= rows,
                    mdata@.len() == (mr - 1) * (cols - 1),
                    forall|k: int, j: int|
                        0 <= k < mr - 1 && 0 <= j < cols - 1
                            ==> #[trigger] mdata@[k * (cols - 1) + j] == (if j < col {
                            self@[k + 1][j]
                        } else {
                            self@[k + 1][j + 1]
                        }),
                decreases rows - mr,
            {
                let mut j: usize = 0;
                while j < cols - 1
                    invariant
                        self.wf(),
                        rows == self.spec_rows(),
                        cols == self.spec_cols(),
                        rows == cols,
                        rows >= 3,
                        self@.len() == rows,
                        forall|k: int| 0 <= k < rows ==> #[trigger] self@[k].len() == cols,
                        col < cols,
                        1 <= mr < rows,
                        j <= cols - 1,
                        mdata@.len() == (mr - 1) * (cols - 1) + j,
                        forall|k: int, j2: int|
                            0 <= k < mr - 1 && 0 <= j2 < cols - 1
                                ==> #[trigger] mdata@[k * (cols - 1) + j2] == (if j2 < col {
                                self@[k + 1][j2]
                            } else {
                                self@[k + 1][j2 + 1]
                            }),
                        forall|j2: int|
                            0 <= j2 < j ==> #[trigger] mdata@[(mr - 1) * (cols - 1) + j2] == (
                            if j2 < col {
                                self@[mr as int][j2]
                            } else {
                                self@[mr as int][j2 + 1]
                            }),
                    decreases cols - 1 - j,
                {
                    proof {
                        assert forall|k: int, j2: int|
                            0 <= k < mr - 1 && 0 <= j2 < cols - 1
                                implies #[trigger] (k * (cols - 1) + j2) < (mr - 1) * (cols
                                - 1) by {
                            crate::matrix::lemma_index(mr - 1, cols - 1, k, j2);
                        }
                    }
                    let src = if j < col {
                        j
                    } else {
                        j + 1
                    };
                    let value = self.get(mr, src);
                    mdata.push(value);
                    j = j + 1;
                }
                proof {
                    assert((mr as int) * (cols - 1) == (mr - 1) * (cols - 1) + (cols - 1))
                        by (nonlinear_arith);
                    assert forall|k: int, j2: int|
                        0 <= k < mr && 0 <= j2 < cols - 1
                            implies #[trigger] mdata@[k * (cols - 1) + j2] == (if j2 < col {
                            self@[k + 1][j2]
                        } else {
                            self@[k + 1][j2 + 1]
                        }) by {
                        if k < mr - 1 {
                            crate::matrix::lemma_index(mr - 1, cols - 1, k, j2);
                        } else {
                            crate::matrix::lemma_index(mr as int, cols - 1, k, j2);
                        }
                    }
                }
                mr = mr + 1;
            }
            let minor = Matrix::build(rows - 1, cols - 1, mdata);
            proof {
                let target = minor_spec(self@, col as int);
                minor.lemma_view_shape();
                assert forall|k: int| 0 <= k < rows - 1 implies minor@[k] =~= target[k] by {
                    assert forall|j: int| 0 <= j < cols - 1
                        implies minor@[k][j] == target[k][j] by {
                        crate::matrix::lemma_index(rows - 1, cols - 1, k, j);
                    }
                }
                assert(minor@ =~~= target);
            }
            let sd = match minor.determinant() {
                Ok(v) => v,
                Err(_) => {
                    proof {
                        assert(false);
                    }
                    K::zero()
                },
            };
            let t = self.get(0, col).mul(sd);
            if negative {
                sum = sum.sub(t);
            } else {
                sum = sum.add(t);
            }
            negative = !negative;
            col = col + 1;
        }
        Ok(sum)
    }

    /// The inverse, where one exists: the right half of the reduced
    /// row-echelon form of the augmented matrix `[A | I]`, whose identity
    /// block carries `det / det` on the diagonal so that the construction
    /// stays generic over the scalar type. Returns `NotSquare` if and only
    /// if the shape is not square, and `Singular` if and only if the shape
    /// is square but the determinant is the capability's zero.
    pub fn inverse(&self) -> (r: Result<Matrix<K>, LinAlgError>)
        requires
            self.wf(),
        ensures
            match r {
                Ok(inv) => {
                    &&& self.spec_rows() == self.spec_cols()
                    &&& spec_det(self@) != K::sp_zero()
                    &&& inv.wf()
                    &&& inv.spec_rows() == self.spec_rows()
                    &&& inv.spec_cols() == self.spec_cols()
                    &&& inv@ == right_half(
                        spec_rref(augmented(self@, spec_det(self@))),
                        self.spec_rows() as int,
                    )
                },
                Err(e) => {
                    ||| (e == LinAlgError::NotSquare && self.spec_rows() != self.spec_cols())
                    ||| (e == LinAlgError::Singular && self.spec_rows() == self.spec_cols()
                        && spec_det(self@) == K::sp_zero())
                },
            },
    {
        let (rows, cols) = self.shape();
        if rows != cols {
            return Err(LinAlgError::NotSquare);
        }
        let det = match self.determinant() {
            Ok(v) => v,
            Err(_) => {
                proof {
                    assert(false);
                }
                K::zero()
            },
        };
        if det.eq(K::zero()) {
            return Err(LinAlgError::Singular);
        }
        proof {
            self.lemma_view_shape();
            self.lemma_size();
            if rows == 0 {
                assert(spec_det(self@) == K::sp_zero());
            }
            if rows >= 2 {
                assert(2 * (rows as int) <= (rows as int) * (rows as int)) by (nonlinear_arith)
                    requires rows >= 2;
            }
        }
        let n = rows;
        let two_n = n * 2;
        let one = det.div(det);
        let mut adata: Vec<K> = Vec::new();
        let mut r: usize = 0;
        while r < n
            invariant
                self.wf(),
                n == self.spec_rows(),
                n == self.spec_cols(),
                n >= 1,
                two_n == 2 * n,
                self@.len() == n,
                forall|k: int| 0 <= k < n ==> #[trigger] self@[k].len() == n,
                one == spec_det(self@).sp_div(spec_det(self@)),
                r <= n,
                adata@.len() == r * two_n,
                forall|k: int, j: int|
                    0 <= k < r && 0 <= j < two_n
                        ==> #[trigger] adata@[k * two_n + j] == augmented(
                        self@,
                        spec_det(self@),
                    )[k][j],
            decreases n - r,
        {
            let mut j: usize = 0;
            while j < two_n
                invariant
                    self.wf(),
                    n == self.spec_rows(),
                    n == self.spec_cols(),
                    n >= 1,
                    two_n == 2 * n,
                    self@.len() == n,
                    forall|k: int| 0 <= k < n ==> #[trigger] self@[k].len() == n,
                    one == spec_det(self@).sp_div(spec_det(self@)),
                    r < n,
                    j <= two_n,
                    adata@.len() == r * two_n + j,
                    forall|k: int, j2: int|
                        0 <= k < r && 0 <= j2 < two_n
                            ==> #[trigger] adata@[k * two_n + j2] == augmented(
                            self@,
                            spec_det(self@),
                        )[k][j2],
                    forall|j2: int|
                        0 <= j2 < j ==> #[trigger] adata@[r * two_n + j2] == augmented(
                            self@,
                            spec_det(self@),
                        )[r as int][j2],
                decreases two_n - j,
            {
                proof {
                    assert forall|k: int, j2: int|
                        0 <= k < r && 0 <= j2 < two_n
                            implies #[trigger] (k * two_n + j2) < r * two_n by {
                        crate::matrix::lemma_index(r as int, two_n as int, k, j2);
                    }
                }
                let value = if j < n {
                    self.get(r, j)
                } else if j == n + r {
                    one
                } else {
                    K::zero()
                };
                adata.push(value);
                j = j + 1;
            }
            proof {
                assert((r + 1) * two_n == r * two_n + two_n) by (nonlinear_arith);
                assert forall|k: int, j2: int|
                    0 <= k < r + 1 && 0 <= j2 < two_n
                        implies #[trigger] adata@[k * two_n + j2] == augmented(
                        self@,
                        spec_det(self@),
                    )[k][j2] by {
                    if k < r {
                        crate::matrix::lemma_index(r as int, two_n as int, k, j2);
                    } else {
                        crate::matrix::lemma_index(r as int + 1, two_n as int, k, j2);
                    }
                }
            }
            r = r + 1;
        }
        let aug = Matrix::build(n, two_n, adata);
        proof {
            let target = augmented(self@, spec_det(self@));
            aug.lemma_view_shape();
            assert forall|k: int| 0 <= k < n as int implies aug@[k] =~= target[k] by {
                assert forall|j: int| 0 <= j < two_n as int
                    implies aug@[k][j] == target[k][j] by {
                    crate::matrix::lemma_index(n as int, two_n as int, k, j);
                }
            }
            assert(aug@ =~~= target);
        }
        let red = aug.row_echelon();
        proof {
            red.lemma_view_shape();
        }
        let mut idata: Vec<K> = Vec::new();
        let mut r: usize = 0;
        while r < n
            invariant
                red.wf(),
                n >= 1,
                two_n == 2 * n,
                red.spec_rows() == n,
                red.spec_cols() == two_n,
                red@.len() == n,
                r <= n,
                idata@.len() == r * n,
                forall|k: int, j: int|
                    0 <= k < r && 0 <= j < n ==> #[trigger] idata@[k * n + j] == red@[k][j + n],
            decreases n - r,
        {
            let mut j: usize = 0;
            while j < n
                invariant
                    red.wf(),
                    n >= 1,
                    two_n == 2 * n,
                    red.spec_rows() == n,
                    red.spec_cols() == two_n,
                    red@.len() == n,
                    r < n,
                    j <= n,
                    idata@.len() == r * n + j,
                    forall|k: int, j2: int|
                        0 <= k < r && 0 <= j2 < n ==> #[trigger] idata@[k * n + j2] == red@[k][j2
                            + n],
                    forall|j2: int|
                        0 <= j2 < j ==> #[trigger] idata@[r * n + j2] == red@[r as int][j2 + n],
                decreases n - j,
            {
                proof {
                    assert forall|k: int, j2: int|
                        0 <= k < r && 0 <= j2 < n implies #[trigger] (k * n + j2) < r * n by {
                        crate::matrix::lemma_index(r as int, n as int, k, j2);
                    }
                }
                let value = red.get(r, n + j);
                idata.push(value);
                j = j + 1;
            }
            proof {
                assert((r + 1) * n == r * n + n) by (nonlinear_arith);
                assert forall|k: int, j2: int|
                    0 <= k < r + 1 && 0 <= j2 < n
                        implies #[trigger] idata@[k * n + j2] == red@[k][j2 + n] by {
                    if k < r {
                        crate::matrix::lemma_index(r as int, n as int, k, j2);
                    } else {
                        crate::matrix::lemma_index(r as int + 1, n as int, k, j2);
                    }
                }
            }
            r = r + 1;
        }
        let inv = Matrix::build(n, n, idata);
        proof {
            let target = right_half(spec_rref(augmented(self@, spec_det(self@))), n as int);
            inv.lemma_view_shape();
            assert forall|k: int| 0 <= k < n as int implies inv@[k] =~= target[k] by {
                assert forall|j: int| 0 <= j < n as int
                    implies inv@[k][j] == target[k][j] by {
                    crate::matrix::lemma_index(n as int, n as int, k, j);
                }
            }
            assert(inv@ =~~= target);
        }
        Ok(inv)
    }

    /// The rank: the number of rows of the reduced row-echelon form that
    /// keep at least one nonzero cell.
    pub fn rank(&self) -> (r: usize)
        requires
            self.wf(),
        ensures
            r == count_nonzero(spec_rref(self@), self.spec_rows() as int),
            r <= self.spec_rows(),
    {
        let (rows, cols) = self.shape();
        let red = self.row_echelon();
        proof {
            red.lemma_view_shape();
        }
        let mut count: usize = 0;
        let mut i: usize = 0;
        while i < rows
            invariant
                red.wf(),
                red.spec_rows() == rows,
                red.spec_cols() == cols,
                red@.len() == rows,
                forall|k: int| 0 <= k < rows ==> #[trigger] red@[k].len() == cols,
                i <= rows,
                count <= i,
                count == count_nonzero(red@, i as int),
            decreases rows - i,
        {
            let mut c: usize = 0;
            let mut found = false;
            while c < cols && !found
                invariant
                    red.wf(),
                    red.spec_rows() == rows,
                    red.spec_cols() == cols,
                    red@.len() == rows,
                    forall|k: int| 0 <= k < rows ==> #[trigger] red@[k].len() == cols,
                    i < rows,
                    c <= cols,
                    !found ==> forall|c2: int|
                        0 <= c2 < c ==> #[trigger] red@[i as int][c2] == K::sp_zero(),
                    found ==> row_nonzero(red@[i as int]),
                decreases cols - c, 1int - (if found { 1int } else { 0int }),
            {
                if !red.get(i, c).eq(K::zero()) {
                    found = true;
                    proof {
                        assert(red@[i as int][c as int] != K::sp_zero());
                    }
                } else {
                    c = c + 1;
                }
            }
            proof {
                if !found {
                    assert(!row_nonzero(red@[i as int]));
                }
            }
            if found {
                count = count + 1;
            }
            i = i + 1;
        }
        count
    }
}

/// A row with at least one nonzero cell.
pub open spec fn row_nonzero<K: Operations>(row: Seq<K>) -> bool {
    exists|c: int| 0 <= c < row.len() && row[c] != K::sp_zero()
}

/// How many of the first `n` rows have at least one nonzero cell.
pub open spec fn count_nonzero<K: Operations>(m: Seq<Seq<K>>, n: int) -> int
    decreases n,
{
    if n <= 0 {
        0
    } else {
        count_nonzero(m, n - 1) + (if row_nonzero(m[n - 1]) {
            1int
        } else {
            0int
        })
    }
}

/// The matrix `[A | I]`: `A` on the left, and on the right the identity with
/// `d / d` on the diagonal and zero elsewhere.
pub open spec fn augmented<K: Operations>(m: Seq<Seq<K>>, d: K) -> Seq<Seq<K>> {
    Seq::new(
        m.len(),
        |r: int|
            Seq::new(
                2 * m.len(),
                |c: int|
                    if c < m.len() {
                        m[r][c]
                    } else if c == m.len() + r {
                        d.sp_div(d)
                    } else {
                        K::sp_zero()
                    },
            ),
    )
}

/// The right `n` columns of a table.
pub open spec fn right_half<K>(m: Seq<Seq<K>>, n: int) -> Seq<Seq<K>> {
    Seq::new(m.len(), |r: int| Seq::new(n as nat, |c: int| m[r][c + n]))
}

/// The submatrix that deletes row `0` and column `col`.
pub open spec fn minor_spec<K>(m: Seq<Seq<K>>, col: int) -> Seq<Seq<K>> {
    Seq::new(
        (m.len() - 1) as nat,
        |r: int|
            Seq::new(
                (m[r + 1].len() - 1) as nat,
                |c: int|
                    if c < col {
                        m[r + 1][c]
                    } else {
                        m[r + 1][c + 1]
                    },
            ),
    )
}

/// The determinant: the closed form for one and two rows, Laplace expansion
/// along the first row above that.
pub open spec fn spec_det<K: Operations>(m: Seq<Seq<K>>) -> K
    decreases m.len(), m.len() + 1,
{
    if m.len() == 0 {
        K::sp_zero()
    } else if m.len() == 1 {
        m[0][0]
    } else if m.len() == 2 {
        (m[0][0].sp_mul(m[1][1])).sp_sub(m[0][1].sp_mul(m[1][0]))
    } else {
        det_expand(m, m.len() as int)
    }
}

/// The first `j` terms of the Laplace expansion along the first row,
/// accumulated from zero with alternating signs starting positive.
pub open spec fn det_expand<K: Operations>(m: Seq<Seq<K>>, j: int) -> K
    decreases m.len(), j,
{
    if j <= 0 || m.len() == 0 {
        K::sp_zero()
    } else {
        let t = m[0][j - 1].sp_mul(spec_det(minor_spec(m, j - 1)));
        if (j - 1) % 2 == 0 {
            det_expand(m, j - 1).sp_add(t)
        } else {
            det_expand(m, j - 1).sp_sub(t)
        }
    }
}

} // verus!
