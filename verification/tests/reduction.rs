use linalg::{LinAlgError, Matrix};

fn mat(rows: Vec<Vec<i64>>) -> Matrix<i64> {
    Matrix::from_rows(rows).unwrap()
}

#[test]
fn row_echelon_of_invertible_two_by_two() {
    let m = mat(vec![vec![1, 2], vec![3, 4]]);
    let r = m.row_echelon();
    assert_eq!(r.flat(), vec![1, 0, 0, 1]);
}

#[test]
fn row_echelon_leaves_zero_rows_last() {
    let m = mat(vec![vec![0, 0], vec![0, 0]]);
    let r = m.row_echelon();
    assert_eq!(r.flat(), vec![0, 0, 0, 0]);
}

#[test]
fn row_echelon_skips_all_zero_columns() {
    let m = mat(vec![vec![0, 2, 4], vec![0, 1, 3]]);
    let r = m.row_echelon();
    assert_eq!(r.flat(), vec![0, 1, 0, 0, 0, 1]);
}

#[test]
fn row_echelon_is_idempotent_on_examples() {
    for rows in [
        vec![vec![1, 2], vec![3, 4]],
        vec![vec![1, 2, 0, 0], vec![2, 4, 0, 0], vec![-1, 2, 1, 1]],
        vec![vec![0, 0], vec![0, 0]],
        vec![vec![2, 3, 5], vec![0, 0, 7]],
    ] {
        let once = mat(rows).row_echelon();
        let twice = once.row_echelon();
        assert_eq!(twice.flat(), once.flat());
        assert_eq!(twice.shape(), once.shape());
    }
}

#[test]
fn determinant_of_two_by_two() {
    let m = mat(vec![vec![1, 2], vec![3, 4]]);
    assert_eq!(m.determinant().unwrap(), -2);
}

#[test]
fn determinant_of_scaled_identity() {
    let m = mat(vec![vec![2, 0, 0], vec![0, 2, 0], vec![0, 0, 2]]);
    assert_eq!(m.determinant().unwrap(), 8);
}

#[test]
fn determinant_of_four_by_four() {
    let m = mat(vec![
        vec![8, 5, -2, 4],
        vec![4, 2, 5, 7],
        vec![7, 6, 9, 8],
        vec![1, 3, 9, 6],
    ]);
    assert_eq!(m.determinant().unwrap(), -406);
}

#[test]
fn determinant_with_zero_row_is_zero() {
    let m = mat(vec![vec![1, 2, 3], vec![0, 0, 0], vec![7, 8, 9]]);
    assert_eq!(m.determinant().unwrap(), 0);
    let m = mat(vec![vec![0, 0], vec![5, 7]]);
    assert_eq!(m.determinant().unwrap(), 0);
}

#[test]
fn determinant_needs_a_square_matrix() {
    let m = mat(vec![vec![1, 2, 3], vec![4, 5, 6]]);
    assert_eq!(m.determinant().unwrap_err(), LinAlgError::NotSquare);
}

#[test]
fn inverse_of_unit_lower_triangular() {
    let m = mat(vec![vec![1, 0], vec![1, 1]]);
    let inv = m.inverse().unwrap();
    assert_eq!(inv.flat(), vec![1, 0, -1, 1]);
    let product = m.mul_mat(inv).unwrap();
    assert_eq!(product.flat(), vec![1, 0, 0, 1]);
}

#[test]
fn inverse_times_original_is_identity_when_exact() {
    // a permutation matrix is its own inverse
    let p = mat(vec![vec![0, 1], vec![1, 0]]);
    let inv = p.inverse().unwrap();
    assert_eq!(inv.flat(), vec![0, 1, 1, 0]);
    assert_eq!(inv.mul_mat(p).unwrap().flat(), vec![1, 0, 0, 1]);
    // a unit lower-triangular matrix reduces without any rounding division
    let m = mat(vec![vec![1, 0, 0], vec![2, 1, 0], vec![3, 4, 1]]);
    let inv = m.inverse().unwrap();
    assert_eq!(inv.flat(), vec![1, 0, 0, -2, 1, 0, 5, -4, 1]);
    assert_eq!(
        inv.mul_mat(m).unwrap().flat(),
        vec![1, 0, 0, 0, 1, 0, 0, 0, 1]
    );
}

#[test]
fn inverse_of_identity_is_identity() {
    let id = mat(vec![vec![1, 0, 0], vec![0, 1, 0], vec![0, 0, 1]]);
    let inv = id.inverse().unwrap();
    assert_eq!(inv.flat(), vec![1, 0, 0, 0, 1, 0, 0, 0, 1]);
}

#[test]
fn inverse_of_singular_matrix_is_an_error() {
    let m = mat(vec![vec![1, 2], vec![2, 4]]);
    assert_eq!(m.inverse().unwrap_err(), LinAlgError::Singular);
    let m = mat(vec![vec![0, 0], vec![0, 0]]);
    assert_eq!(m.inverse().unwrap_err(), LinAlgError::Singular);
}

#[test]
fn inverse_needs_a_square_matrix() {
    let m = mat(vec![vec![1, 2, 3], vec![4, 5, 6]]);
    assert_eq!(m.inverse().unwrap_err(), LinAlgError::NotSquare);
}

#[test]
fn rank_counts_independent_rows() {
    let m = mat(vec![vec![1, 2, 0, 0], vec![2, 4, 0, 0], vec![-1, 2, 1, 1]]);
    assert_eq!(m.rank(), 2);
    let id = mat(vec![vec![1, 0, 0], vec![0, 1, 0], vec![0, 0, 1]]);
    assert_eq!(id.rank(), 3);
    let z = mat(vec![vec![0, 0], vec![0, 0]]);
    assert_eq!(z.rank(), 0);
}

#[test]
fn rank_equals_rank_of_row_echelon() {
    for rows in [
        vec![vec![1, 2, 0, 0], vec![2, 4, 0, 0], vec![-1, 2, 1, 1]],
        vec![vec![1, 0], vec![1, 1]],
        vec![vec![0, 0, 7]],
    ] {
        let m = mat(rows);
        assert_eq!(m.rank(), m.row_echelon().rank());
    }
}

#[test]
fn rank_is_kept_under_a_row_swap() {
    let a = mat(vec![vec![1, 2, 0, 0], vec![2, 4, 0, 0], vec![-1, 2, 1, 1]]);
    let mut b = a.duplicate();
    b.swap_rows(0, 1);
    assert_eq!(a.rank(), b.rank());
    let c = mat(vec![vec![1, 2], vec![2, 4]]);
    let mut d = c.duplicate();
    d.swap_rows(0, 1);
    assert_eq!(c.rank(), d.rank());
}
