use vstd::prelude::*;
use crate::scalar::Operations;
use crate::matrix::{mat_add, mat_sub, mat_transpose, col_of, row_div, row_sub_scaled};
use crate::vector::dot_sum;
use crate::reduce::{
    spec_det,
    det_expand,
    minor_spec,
    spec_rref,
    rref_from,
    find_pivot,
    swap_spec,
    eliminate,
    count_nonzero,
    lemma_find_pivot,
    lemma_find_pivot_props,
};

verus! {

/// Adding a matrix and then subtracting it again gives back the original,
/// cell for cell: `(A + B) - B == A` for same-shape `A` and `B`.
pub proof fn lemma_add_sub_cancel<K: Operations>(a: Seq<Seq<K>>, b: Seq<Seq<K>>)
    requires
        a.len() == b.len(),
        forall|i: int| 0 <= i < a.len() ==> #[trigger] a[i].len() == b[i].len(),
    ensures
        mat_sub(mat_add(a, b), b) == a,
{
    let s = mat_sub(mat_add(a, b), b);
    assert forall|i: int| 0 <= i < a.len() implies s[i] =~= a[i] by {
        assert forall|j: int| 0 <= j < a[i].len() implies s[i][j] == a[i][j] by {
            K::lemma_add_sub(a[i][j], b[i][j]);
        }
    }
    assert(s =~~= a);
}

/// Transposing twice gives back the original: `transpose(transpose(A)) == A`
/// for any rectangular `A` whose rows are `cols` long.
pub proof fn lemma_transpose_involution<K: Operations>(a: Seq<Seq<K>>, cols: nat)
    requires
        forall|i: int| 0 <= i < a.len() ==> #[trigger] a[i].len() == cols,
    ensures
        mat_transpose(mat_transpose(a, cols), a.len()) == a,
{
    let t = mat_transpose(a, cols);
    let u = mat_transpose(t, a.len());
    assert forall|i: int| 0 <= i < a.len() implies u[i] =~= a[i] by {
        assert forall|j: int| 0 <= j < a[i].len() implies u[i][j] == a[i][j] by {
            assert(t[j][i] == a[i][j]);
        }
    }
    assert(u =~~= a);
}

/// The `n x n` identity over the capability's zero and one.
pub open spec fn identity<K: Operations>(n: int) -> Seq<Seq<K>> {
    Seq::new(
        n as nat,
        |r: int|
            Seq::new(
                n as nat,
                |c: int|
                    if r == c {
                        K::sp_one()
                    } else {
                        K::sp_zero()
                    },
            ),
    )
}

/// The dot product of `u` with the `j`-th unit column, cut off after `k`
/// terms: once the `one` at position `j` has been passed it is `u[j]`, and
/// before that it is still zero.
proof fn lemma_dot_unit_right<K: Operations>(u: Seq<K>, n: int, j: int, k: int)
    requires
        0 <= j < n,
        u.len() == n,
        0 <= k <= n,
    ensures
        dot_sum(u, col_of(identity::<K>(n), j), k) == if k > j {
            u[j]
        } else {
            K::sp_zero()
        },
    decreases k,
{
    if k > 0 {
        lemma_dot_unit_right(u, n, j, k - 1);
        let e = col_of(identity::<K>(n), j);
        if k - 1 == j {
            K::lemma_mul_one(u[j]);
            K::lemma_add_zero(u[j]);
        } else {
            K::lemma_mul_zero(u[k - 1]);
            K::lemma_add_zero(dot_sum(u, e, k - 1));
        }
    }
}

/// The dot product of the `i`-th unit row with a column `w`, cut off after
/// `k` terms: once the `one` at position `i` has been passed it is `w[i]`.
proof fn lemma_dot_unit_left<K: Operations>(w: Seq<K>, n: int, i: int, k: int)
    requires
        0 <= i < n,
        w.len() == n,
        0 <= k <= n,
    ensures
        dot_sum(identity::<K>(n)[i], w, k) == if k > i {
            w[i]
        } else {
            K::sp_zero()
        },
    decreases k,
{
    if k > 0 {
        lemma_dot_unit_left(w, n, i, k - 1);
        let e = identity::<K>(n)[i];
        if k - 1 == i {
            K::lemma_mul_one(w[i]);
            K::lemma_add_zero(w[i]);
        } else {
            K::lemma_mul_zero(w[k - 1]);
            K::lemma_add_zero(dot_sum(e, w, k - 1));
        }
    }
}

/// The identity is neutral for matrix multiplication on a square matrix:
/// every cell of `A * I` and of `I * A` is the matching cell of `A`. The
/// cells are stated through the same dot products that `mul_mat` promises,
/// so the law carries over to the executable product.
pub proof fn lemma_mul_identity<K: Operations>(a: Seq<Seq<K>>, n: int)
    requires
        n >= 1,
        a.len() == n,
        forall|i: int| 0 <= i < n ==> #[trigger] a[i].len() == n,
    ensures
        forall|i: int, j: int|
            0 <= i < n && 0 <= j < n ==> crate::vector::spec_dot(
                a[i],
                col_of(identity::<K>(n), j),
            ) == a[i][j],
        forall|i: int, j: int|
            0 <= i < n && 0 <= j < n ==> crate::vector::spec_dot(
                identity::<K>(n)[i],
                col_of(a, j),
            ) == a[i][j],
{
    assert forall|i: int, j: int|
        0 <= i < n && 0 <= j < n implies crate::vector::spec_dot(
        a[i],
        col_of(identity::<K>(n), j),
    ) == a[i][j] by {
        lemma_dot_unit_right(a[i], n, j, n);
    }
    assert forall|i: int, j: int|
        0 <= i < n && 0 <= j < n implies crate::vector::spec_dot(
        identity::<K>(n)[i],
        col_of(a, j),
    ) == a[i][j] by {
        lemma_dot_unit_left(col_of(a, j), n, i, n);
    }
}

/// The partial Laplace expansion of a matrix with an all-zero row stays
/// zero, term by term.
proof fn lemma_det_expand_zero_row<K: Operations>(m: Seq<Seq<K>>, z: int, j: int)
    requires
        m.len() >= 1,
        forall|i: int| 0 <= i < m.len() ==> #[trigger] m[i].len() == m.len(),
        0 <= z < m.len(),
        forall|c: int| 0 <= c < m.len() ==> #[trigger] m[z][c] == K::sp_zero(),
        0 <= j <= m.len(),
    ensures
        det_expand(m, j) == K::sp_zero(),
    decreases m.len(), j,
{
    if j > 0 {
        lemma_det_expand_zero_row(m, z, j - 1);
        let t = m[0][j - 1].sp_mul(spec_det(minor_spec(m, j - 1)));
        if z == 0 {
            K::lemma_mul_zero(spec_det(minor_spec(m, j - 1)));
        } else {
            let minor = minor_spec(m, j - 1);
            assert(minor.len() == m.len() - 1);
            assert forall|i: int| 0 <= i < minor.len()
                implies #[trigger] minor[i].len() == minor.len() by {}
            assert forall|c: int| 0 <= c < minor.len()
                implies #[trigger] minor[z - 1][c] == K::sp_zero() by {}
            if minor.len() >= 1 {
                lemma_det_zero_row(minor, z - 1);
            }
            K::lemma_mul_zero(m[0][j - 1]);
        }
        K::lemma_add_zero(det_expand(m, j - 1));
        K::lemma_sub_zero(det_expand(m, j - 1));
    }
}

/// The determinant of a square matrix with an all-zero row is zero.
pub proof fn lemma_det_zero_row<K: Operations>(m: Seq<Seq<K>>, z: int)
    requires
        m.len() >= 1,
        forall|i: int| 0 <= i < m.len() ==> #[trigger] m[i].len() == m.len(),
        0 <= z < m.len(),
        forall|c: int| 0 <= c < m.len() ==> #[trigger] m[z][c] == K::sp_zero(),
    ensures
        spec_det(m) == K::sp_zero(),
    decreases m.len(), m.len() + 1,
{
    if m.len() == 1 {
        assert(m[0][0] == K::sp_zero());
    } else if m.len() == 2 {
        if z == 0 {
            K::lemma_mul_zero(m[1][1]);
            K::lemma_mul_zero(m[1][0]);
        } else {
            K::lemma_mul_zero(m[0][0]);
            K::lemma_mul_zero(m[0][1]);
        }
        K::lemma_sub_zero(K::sp_zero());
    } else {
        lemma_det_expand_zero_row(m, z, m.len() as int);
    }
}


/// The reduction run started at `(curr, pc)` finds nothing left to do: in
/// every pivot column it either finds no candidate, or finds the target row
/// itself already normalized to one with the rest of the column zero.
pub open spec fn stable_from<K: Operations>(
    m: Seq<Seq<K>>,
    curr: int,
    pc: int,
    rows: int,
    cols: int,
) -> bool
    decreases rows - curr, cols - pc,
{
    if curr < 0 || pc < 0 || curr >= rows || pc >= cols {
        true
    } else {
        let nz = find_pivot(m, pc, curr, rows);
        if nz >= rows {
            stable_from(m, curr, pc + 1, rows, cols)
        } else {
            &&& nz == curr
            &&& m[curr][pc] == K::sp_one()
            &&& forall|i: int| 0 <= i < rows && i != curr ==> #[trigger] m[i][pc] == K::sp_zero()
            &&& stable_from(m, curr + 1, pc + 1, rows, cols)
        }
    }
}

/// A stable matrix is a fixed point of the reduction: every pivot it meets
/// is already one, every elimination factor is already zero, so each step
/// leaves the matrix as it is.
proof fn lemma_stable_run<K: Operations>(m: Seq<Seq<K>>, curr: int, pc: int, rows: int, cols: int)
    requires
        rows == m.len(),
        forall|i: int| 0 <= i < rows ==> #[trigger] m[i].len() == cols,
        0 <= curr,
        0 <= pc,
        stable_from(m, curr, pc, rows, cols),
    ensures
        rref_from(m, curr, pc, rows, cols) == m,
    decreases rows - curr, cols - pc,
{
    if curr >= rows || pc >= cols {
    } else {
        let nz = find_pivot(m, pc, curr, rows);
        if nz >= rows {
            lemma_stable_run(m, curr, pc + 1, rows, cols);
        } else {
            let sw = swap_spec(m, curr, nz);
            assert(sw =~~= m);
            let norm = m.update(curr, row_div(m[curr], m[curr][pc]));
            assert forall|c: int| 0 <= c < cols
                implies #[trigger] row_div(m[curr], m[curr][pc])[c] == m[curr][c] by {
                K::lemma_div_one(m[curr][c]);
            }
            assert(row_div(m[curr], m[curr][pc]) =~= m[curr]);
            assert(norm =~~= m);
            let e = eliminate(sw, curr, pc);
            assert forall|r: int| 0 <= r < rows implies e[r] =~= m[r] by {
                if r != curr {
                    assert forall|c: int| 0 <= c < cols
                        implies #[trigger] row_sub_scaled(m[r], m[r][pc], m[curr])[c]
                            == m[r][c] by {
                        K::lemma_mul_zero(m[curr][c]);
                        K::lemma_sub_zero(m[r][c]);
                    }
                }
            }
            assert(e =~~= m);
            lemma_stable_run(m, curr + 1, pc + 1, rows, cols);
            assert(rref_from(m, curr, pc, rows, cols) == rref_from(e, curr + 1, pc + 1, rows, cols));
        }
    }
}


/// The run from `(curr, pc)` never writes into the columns left of `pc`:
/// rows above the target row keep their cells there, and the rows at or
/// below it — all zero there to begin with — stay zero. The shape is kept
/// as well.
proof fn lemma_run_frame<K: Operations>(m: Seq<Seq<K>>, curr: int, pc: int, rows: int, cols: int)
    requires
        rows == m.len(),
        forall|i: int| 0 <= i < rows ==> #[trigger] m[i].len() == cols,
        0 <= curr,
        0 <= pc <= cols,
        forall|i: int, c: int|
            curr <= i < rows && 0 <= c < pc ==> #[trigger] m[i][c] == K::sp_zero(),
    ensures
        rref_from(m, curr, pc, rows, cols).len() == rows,
        forall|i: int|
            0 <= i < rows ==> #[trigger] rref_from(m, curr, pc, rows, cols)[i].len() == cols,
        forall|i: int, c: int|
            0 <= i < curr && i < rows && 0 <= c < pc ==> #[trigger] rref_from(
                m,
                curr,
                pc,
                rows,
                cols,
            )[i][c] == m[i][c],
        forall|i: int, c: int|
            curr <= i < rows && 0 <= c < pc ==> #[trigger] rref_from(m, curr, pc, rows, cols)[i][c]
                == K::sp_zero(),
    decreases rows - curr, cols - pc,
{
    if curr >= rows || pc >= cols {
    } else {
        lemma_find_pivot_props(m, pc, curr, rows);
        let nz = find_pivot(m, pc, curr, rows);
        if nz >= rows {
            assert forall|i: int, c: int|
                curr <= i < rows && 0 <= c < pc + 1 implies #[trigger] m[i][c]
                    == K::sp_zero() by {}
            lemma_run_frame(m, curr, pc + 1, rows, cols);
        } else {
            let m1 = swap_spec(m, curr, nz);
            let d = m1[curr][pc];
            let norm = m1.update(curr, row_div(m1[curr], d));
            let m3 = eliminate(m1, curr, pc);
            assert(d != K::sp_zero());
            assert(m1.len() == rows);
            assert forall|i: int| 0 <= i < rows implies #[trigger] m1[i].len() == cols by {}
            assert(m3.len() == rows);
            assert forall|i: int| 0 <= i < rows implies #[trigger] m3[i].len() == cols by {}
            // the pivot row, and every row at or below the target, is zero
            // left of the pivot column both before and after the step
            assert forall|i: int, c: int|
                curr <= i < rows && 0 <= c < pc implies #[trigger] m1[i][c] == K::sp_zero() by {}
            assert forall|c: int|
                0 <= c < pc implies #[trigger] norm[curr][c] == K::sp_zero() by {
                K::lemma_div_one(d);
            }
            assert(norm[curr][pc] == K::sp_one()) by {
                K::lemma_div_one(d);
            }
            assert forall|i: int, c: int|
                0 <= i < rows && 0 <= c < pc implies #[trigger] m3[i][c] == (if i < curr {
                    m[i][c]
                } else {
                    K::sp_zero()
                }) by {
                if i == curr {
                } else {
                    assert(m3[i][c] == norm[i][c].sp_sub(norm[i][pc].sp_mul(norm[curr][c])));
                    K::lemma_mul_zero(norm[i][pc]);
                    K::lemma_sub_zero(norm[i][c]);
                    if i > curr {
                        assert(m1[i][c] == K::sp_zero());
                    }
                }
            }
            assert forall|i: int|
                curr + 1 <= i < rows implies #[trigger] m3[i][pc] == K::sp_zero() by {
                assert(m3[i][pc] == norm[i][pc].sp_sub(norm[i][pc].sp_mul(norm[curr][pc])));
                K::lemma_mul_one(norm[i][pc]);
                K::lemma_sub_zero(norm[i][pc]);
            }
            assert forall|i: int, c: int|
                curr + 1 <= i < rows && 0 <= c < pc + 1 implies #[trigger] m3[i][c]
                    == K::sp_zero() by {}
            lemma_run_frame(m3, curr + 1, pc + 1, rows, cols);
        }
    }
}

/// Whatever the reduction run returns is stable: every pivot it placed is a
/// one standing alone in its column, and every column it skipped has no
/// candidate left.
proof fn lemma_run_stable<K: Operations>(m: Seq<Seq<K>>, curr: int, pc: int, rows: int, cols: int)
    requires
        rows == m.len(),
        forall|i: int| 0 <= i < rows ==> #[trigger] m[i].len() == cols,
        0 <= curr,
        0 <= pc <= cols,
        forall|i: int, c: int|
            curr <= i < rows && 0 <= c < pc ==> #[trigger] m[i][c] == K::sp_zero(),
    ensures
        stable_from(rref_from(m, curr, pc, rows, cols), curr, pc, rows, cols),
    decreases rows - curr, cols - pc,
{
    let r = rref_from(m, curr, pc, rows, cols);
    if curr >= rows || pc >= cols {
    } else {
        lemma_find_pivot_props(m, pc, curr, rows);
        let nz = find_pivot(m, pc, curr, rows);
        if nz >= rows {
            assert forall|i: int, c: int|
                curr <= i < rows && 0 <= c < pc + 1 implies #[trigger] m[i][c]
                    == K::sp_zero() by {}
            lemma_run_stable(m, curr, pc + 1, rows, cols);
            lemma_run_frame(m, curr, pc + 1, rows, cols);
            // column pc still has no candidate in the result
            assert forall|k: int| curr <= k < rows implies #[trigger] r[k][pc] == K::sp_zero() by {}
            lemma_find_pivot(r, pc, curr, rows, rows);
        } else {
            let m1 = swap_spec(m, curr, nz);
            let d = m1[curr][pc];
            let norm = m1.update(curr, row_div(m1[curr], d));
            let m3 = eliminate(m1, curr, pc);
            assert(d != K::sp_zero());
            assert(m3.len() == rows);
            assert forall|i: int| 0 <= i < rows implies #[trigger] m3[i].len() == cols by {}
            assert(norm[curr][pc] == K::sp_one()) by {
                K::lemma_div_one(d);
            }
            // after the step, the pivot column holds a lone one at the
            // target row
            assert(m3[curr][pc] == K::sp_one());
            assert forall|i: int|
                0 <= i < rows && i != curr implies #[trigger] m3[i][pc] == K::sp_zero() by {
                assert(m3[i][pc] == norm[i][pc].sp_sub(norm[i][pc].sp_mul(norm[curr][pc])));
                K::lemma_mul_one(norm[i][pc]);
                K::lemma_sub_zero(norm[i][pc]);
            }
            // rows at or below the next target are zero left of the next
            // pivot column
            assert forall|i: int, c: int|
                curr <= i < rows && 0 <= c < pc implies #[trigger] m1[i][c] == K::sp_zero() by {}
            assert forall|c: int|
                0 <= c < pc implies #[trigger] norm[curr][c] == K::sp_zero() by {
                K::lemma_div_one(d);
            }
            assert forall|i: int, c: int|
                curr + 1 <= i < rows && 0 <= c < pc + 1 implies #[trigger] m3[i][c]
                    == K::sp_zero() by {
                if c < pc {
                    assert(m3[i][c] == norm[i][c].sp_sub(norm[i][pc].sp_mul(norm[curr][c])));
                    K::lemma_mul_zero(norm[i][pc]);
                    K::lemma_sub_zero(norm[i][c]);
                    assert(m1[i][c] == K::sp_zero());
                }
            }
            lemma_run_stable(m3, curr + 1, pc + 1, rows, cols);
            lemma_run_frame(m3, curr + 1, pc + 1, rows, cols);
            // the rest of the run keeps the pivot column as it is
            assert(r == rref_from(m3, curr + 1, pc + 1, rows, cols));
            assert(r[curr][pc] == K::sp_one());
            assert forall|i: int|
                0 <= i < rows && i != curr implies #[trigger] r[i][pc] == K::sp_zero() by {
                if i < curr + 1 {
                    assert(r[i][pc] == m3[i][pc]);
                }
            }
            K::lemma_mul_one(d);
            assert(K::sp_one() != K::sp_zero());
            lemma_find_pivot(r, pc, curr, rows, curr);
        }
    }
}

/// Row-echelon reduction is idempotent: reducing a reduced matrix gives it
/// back unchanged.
pub proof fn lemma_rref_idempotent<K: Operations>(m: Seq<Seq<K>>)
    requires
        forall|i: int| 0 <= i < m.len() ==> #[trigger] m[i].len() == m[0].len(),
    ensures
        spec_rref(spec_rref(m)) == spec_rref(m),
{
    if m.len() == 0 {
        assert(spec_rref(m) == m);
    } else {
        let rows = m.len() as int;
        let cols = m[0].len() as int;
        let r = rref_from(m, 0, 0, rows, cols);
        lemma_run_stable(m, 0, 0, rows, cols);
        lemma_run_frame(m, 0, 0, rows, cols);
        lemma_stable_run(r, 0, 0, rows, cols);
    }
}

/// The rank of a matrix equals the rank of its row-echelon form: both count
/// the nonzero rows of the same reduced matrix, by idempotence.
pub proof fn lemma_rank_row_echelon<K: Operations>(m: Seq<Seq<K>>)
    requires
        forall|i: int| 0 <= i < m.len() ==> #[trigger] m[i].len() == m[0].len(),
    ensures
        count_nonzero(spec_rref(spec_rref(m)), m.len() as int) == count_nonzero(
            spec_rref(m),
            m.len() as int,
        ),
{
    lemma_rref_idempotent(m);
}

} // verus!
