use linalg::{LinAlgError, Matrix, Vector};

fn mat(rows: Vec<Vec<i64>>) -> Matrix<i64> {
    Matrix::from_rows(rows).unwrap()
}

#[test]
fn from_rows_builds_row_major() {
    let m = mat(vec![vec![1, 2, 3], vec![4, 5, 6]]);
    assert_eq!(m.shape(), (2, 3));
    assert_eq!(m.flat(), vec![1, 2, 3, 4, 5, 6]);
    assert_eq!(m.get(0, 2), 3);
    assert_eq!(m.get(1, 0), 4);
}

#[test]
fn from_rows_rejects_ragged_and_empty() {
    assert_eq!(
        Matrix::<i64>::from_rows(vec![vec![1, 2], vec![3]]).unwrap_err(),
        LinAlgError::MalformedInput
    );
    assert_eq!(
        Matrix::<i64>::from_rows(vec![]).unwrap_err(),
        LinAlgError::MalformedInput
    );
}

#[test]
fn from_rows_accepts_empty_rows() {
    let m = Matrix::<i64>::from_rows(vec![vec![], vec![]]).unwrap();
    assert_eq!(m.shape(), (2, 0));
    assert_eq!(m.flat(), vec![]);
    assert_eq!(m.rank(), 0);
}

#[test]
fn from_flat_reads_column_major() {
    let m = Matrix::from_flat(vec![1, 2, 3, 4, 5, 6], (3, 2)).unwrap();
    assert_eq!(m.shape(), (3, 2));
    assert_eq!(m.get(0, 0), 1);
    assert_eq!(m.get(1, 0), 2);
    assert_eq!(m.get(2, 0), 3);
    assert_eq!(m.get(0, 1), 4);
    assert_eq!(m.get(1, 1), 5);
    assert_eq!(m.get(2, 1), 6);
}

#[test]
fn from_flat_rejects_size_mismatch() {
    assert_eq!(
        Matrix::from_flat(vec![1i64, 2, 3], (2, 2)).unwrap_err(),
        LinAlgError::MalformedInput
    );
    assert_eq!(
        Matrix::from_flat(vec![1i64], (0, 0)).unwrap_err(),
        LinAlgError::MalformedInput
    );
}

#[test]
fn from_flat_accepts_degenerate_shapes() {
    let m = Matrix::<i64>::from_flat(vec![], (0, 0)).unwrap();
    assert_eq!(m.shape(), (0, 0));
    assert_eq!(m.trace().unwrap(), 0);
    assert_eq!(m.determinant().unwrap(), 0);
    assert_eq!(m.inverse().unwrap_err(), LinAlgError::Singular);
    assert_eq!(m.rank(), 0);
    let m = Matrix::<i64>::from_flat(vec![], (0, 3)).unwrap();
    assert_eq!(m.shape(), (0, 3));
    assert_eq!(m.transpose().shape(), (3, 0));
    assert_eq!(m.row_echelon().shape(), (0, 3));
}

#[test]
fn set_replaces_one_cell() {
    let mut m = mat(vec![vec![1, 2], vec![3, 4]]);
    m.set(0, 1, 9);
    assert_eq!(m.flat(), vec![1, 9, 3, 4]);
}

#[test]
fn reshape_keeps_the_store() {
    let mut m = mat(vec![vec![1, 2, 3], vec![4, 5, 6]]);
    m.reshape((3, 2)).unwrap();
    assert_eq!(m.shape(), (3, 2));
    assert_eq!(m.flat(), vec![1, 2, 3, 4, 5, 6]);
    assert_eq!(m.get(0, 1), 2);
    assert_eq!(m.reshape((4, 2)).unwrap_err(), LinAlgError::MalformedInput);
}

#[test]
fn add_and_sub_are_elementwise() {
    let mut u = mat(vec![vec![1, 2], vec![3, 4]]);
    let v = mat(vec![vec![7, 4], vec![-2, 2]]);
    u.add(&v).unwrap();
    assert_eq!(u.flat(), vec![8, 6, 1, 6]);
    let mut u = mat(vec![vec![1, 2], vec![3, 4]]);
    u.sub(&v).unwrap();
    assert_eq!(u.flat(), vec![-6, -2, 5, 2]);
}

#[test]
fn add_rejects_shape_mismatch() {
    let mut u = mat(vec![vec![1, 2], vec![3, 4]]);
    let v = mat(vec![vec![1, 2, 3], vec![4, 5, 6]]);
    assert_eq!(u.add(&v).unwrap_err(), LinAlgError::ShapeMismatch);
    assert_eq!(u.sub(&v).unwrap_err(), LinAlgError::ShapeMismatch);
    assert_eq!(u.flat(), vec![1, 2, 3, 4]);
}

#[test]
fn add_then_sub_gives_back_the_original() {
    let a = mat(vec![vec![3, -1, 7], vec![0, 5, 2]]);
    let b = mat(vec![vec![10, 20, 30], vec![-4, -5, -6]]);
    let mut m = a.duplicate();
    m.add(&b).unwrap();
    m.sub(&b).unwrap();
    assert_eq!(m.flat(), a.flat());
    assert_eq!(m.shape(), a.shape());
}

#[test]
fn scl_multiplies_every_cell() {
    let mut u = mat(vec![vec![1, 2], vec![3, 4], vec![5, 6]]);
    u.scl(2);
    assert_eq!(u.flat(), vec![2, 4, 6, 8, 10, 12]);
}

#[test]
fn transpose_flips_the_shape() {
    let m = mat(vec![vec![1, 2, 3], vec![4, 5, 6]]);
    let t = m.transpose();
    assert_eq!(t.shape(), (3, 2));
    assert_eq!(t.flat(), vec![1, 4, 2, 5, 3, 6]);
}

#[test]
fn transpose_twice_is_the_identity() {
    let m = mat(vec![vec![1, -2, 3], vec![4, 0, -6]]);
    let back = m.transpose().transpose();
    assert_eq!(back.shape(), m.shape());
    assert_eq!(back.flat(), m.flat());
}

#[test]
fn mul_vec_weights_the_columns() {
    let m = mat(vec![vec![1, 2], vec![3, 4]]);
    let v = Vector::from_vec(vec![1, 1]);
    let w = m.mul_vec(v).unwrap();
    assert_eq!(w.flat(), vec![3, 7]);
    let v = Vector::from_vec(vec![1, 1, 1]);
    assert_eq!(m.mul_vec(v).unwrap_err(), LinAlgError::ShapeMismatch);
}

#[test]
fn mul_mat_is_the_matrix_product() {
    let a = mat(vec![vec![1, 2], vec![3, 4]]);
    let b = mat(vec![vec![5, 6], vec![7, 8]]);
    let p = a.mul_mat(b).unwrap();
    assert_eq!(p.flat(), vec![19, 22, 43, 50]);
    let c = mat(vec![vec![1, 2, 3]]);
    assert_eq!(a.mul_mat(c).unwrap_err(), LinAlgError::ShapeMismatch);
}

#[test]
fn identity_is_neutral_for_mul_mat() {
    let a = mat(vec![vec![3, 1, 4], vec![1, 5, 9], vec![2, 6, 5]]);
    let id = mat(vec![vec![1, 0, 0], vec![0, 1, 0], vec![0, 0, 1]]);
    let right = a.mul_mat(id.duplicate()).unwrap();
    assert_eq!(right.flat(), a.flat());
    let left = id.mul_mat(a.duplicate()).unwrap();
    assert_eq!(left.flat(), a.flat());
}

#[test]
fn trace_sums_the_diagonal() {
    let m = mat(vec![vec![1, 2], vec![3, 4]]);
    assert_eq!(m.trace().unwrap(), 5);
    let m = mat(vec![vec![2, -5, 0], vec![4, 3, 7], vec![-2, 3, 4]]);
    assert_eq!(m.trace().unwrap(), 9);
    let m = mat(vec![vec![1, 2, 3]]);
    assert_eq!(m.trace().unwrap_err(), LinAlgError::NotSquare);
}
