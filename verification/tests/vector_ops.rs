use linalg::functions::{angle_cos, cross_product, linear_combination};
use linalg::{LinAlgError, Matrix, Vector};

fn vecn(data: Vec<i64>) -> Vector<i64> {
    Vector::from_vec(data)
}

#[test]
fn from_vec_accepts_the_empty_list() {
    let v = Vector::<i64>::from_vec(vec![]);
    assert_eq!(v.shape(), (0, 1));
    assert_eq!(v.flat(), vec![]);
    assert_eq!(v.norm_1(), 0);
    assert_eq!(v.norm(), 0);
    assert_eq!(v.norm_inf(), 0);
}

#[test]
fn vector_reshape_keeps_the_column_shape() {
    let mut v = vecn(vec![1, 2, 3]);
    v.reshape((3, 1)).unwrap();
    assert_eq!(v.shape(), (3, 1));
    assert_eq!(v.flat(), vec![1, 2, 3]);
    assert_eq!(
        v.reshape((1, 3)).unwrap_err(),
        LinAlgError::DimensionMismatch
    );
    assert_eq!(v.reshape((4, 1)).unwrap_err(), LinAlgError::MalformedInput);
    assert_eq!(v.flat(), vec![1, 2, 3]);
}

#[test]
fn vector_accessors() {
    let mut v = vecn(vec![5, 6, 7]);
    assert_eq!(v.shape(), (3, 1));
    assert_eq!(v.flat(), vec![5, 6, 7]);
    assert_eq!(v.get(1), 6);
    v.set(1, 9);
    assert_eq!(v.flat(), vec![5, 9, 7]);
    assert!(!v.is_square());
    assert!(vecn(vec![3]).is_square());
}

#[test]
fn vector_wraps_a_single_column_matrix() {
    let v = vecn(vec![1, 2, 3]);
    let m = v.as_matrix();
    assert_eq!(m.shape(), (3, 1));
    assert_eq!(m.flat(), vec![1, 2, 3]);
    let w = Vector::from_matrix(m.duplicate()).unwrap();
    assert_eq!(w.flat(), vec![1, 2, 3]);
    let wide = Matrix::from_rows(vec![vec![1, 2], vec![3, 4]]).unwrap();
    assert_eq!(
        Vector::from_matrix(wide).unwrap_err(),
        LinAlgError::DimensionMismatch
    );
}

#[test]
fn vector_add_sub_scl() {
    let mut u = vecn(vec![2, 3]);
    let v = vecn(vec![5, 7]);
    u.add(&v).unwrap();
    assert_eq!(u.flat(), vec![7, 10]);
    let mut u = vecn(vec![2, 3]);
    u.sub(&v).unwrap();
    assert_eq!(u.flat(), vec![-3, -4]);
    let mut u = vecn(vec![2, 3]);
    u.scl(2);
    assert_eq!(u.flat(), vec![4, 6]);
    let w = vecn(vec![1, 2, 3]);
    let mut u = vecn(vec![2, 3]);
    assert_eq!(u.add(&w).unwrap_err(), LinAlgError::ShapeMismatch);
}

#[test]
fn dot_products() {
    assert_eq!(vecn(vec![0, 0]).dot(vecn(vec![1, 1])).unwrap(), 0);
    assert_eq!(vecn(vec![1, 1]).dot(vecn(vec![1, 1])).unwrap(), 2);
    assert_eq!(vecn(vec![-1, 6]).dot(vecn(vec![3, 2])).unwrap(), 9);
    assert_eq!(
        vecn(vec![1, 2]).dot(vecn(vec![1, 2, 3])).unwrap_err(),
        LinAlgError::ShapeMismatch
    );
}

#[test]
fn norms_over_integers() {
    assert_eq!(vecn(vec![-1, -2]).norm_1(), 3);
    assert_eq!(vecn(vec![1, 2, 3]).norm_1(), 6);
    // The Euclidean norm of an integer vector is the integer square root of
    // the sum of squares: here the floor of sqrt(14).
    assert_eq!(vecn(vec![1, 2, 3]).norm(), 3);
    assert_eq!(vecn(vec![3, 4]).norm(), 5);
    assert_eq!(vecn(vec![1, -5, 3]).norm_inf(), 5);
    assert_eq!(vecn(vec![0, 0]).norm_inf(), 0);
}

#[test]
fn cosine_of_the_angle() {
    let u = vecn(vec![1, 0]);
    let v = vecn(vec![1, 0]);
    assert_eq!(angle_cos(&u, &v).unwrap(), 1);
    let u = vecn(vec![1, 0]);
    let v = vecn(vec![0, 1]);
    assert_eq!(angle_cos(&u, &v).unwrap(), 0);
    let u = vecn(vec![1, 0]);
    let v = vecn(vec![0, 1, 2]);
    assert_eq!(angle_cos(&u, &v).unwrap_err(), LinAlgError::ShapeMismatch);
    let z = vecn(vec![0, 0]);
    let v = vecn(vec![1, 0]);
    assert_eq!(
        angle_cos(&z, &v).unwrap_err(),
        LinAlgError::InvalidScalarOperation
    );
}

#[test]
fn cross_products() {
    let u = vecn(vec![0, 0, 1]);
    let v = vecn(vec![1, 0, 0]);
    assert_eq!(cross_product(&u, &v).unwrap().flat(), vec![0, 1, 0]);
    let u = vecn(vec![1, 2, 3]);
    let v = vecn(vec![4, 5, 6]);
    assert_eq!(cross_product(&u, &v).unwrap().flat(), vec![-3, 6, -3]);
    let u = vecn(vec![4, 2, -3]);
    let v = vecn(vec![-2, -5, 16]);
    assert_eq!(cross_product(&u, &v).unwrap().flat(), vec![17, -58, -16]);
    let short = vecn(vec![1, 2]);
    assert_eq!(
        cross_product(&short, &v).unwrap_err(),
        LinAlgError::DimensionMismatch
    );
}

#[test]
fn linear_combinations() {
    let e1 = vecn(vec![1, 0, 0]);
    let e2 = vecn(vec![0, 1, 0]);
    let e3 = vecn(vec![0, 0, 1]);
    let r = linear_combination(&vec![e1, e2, e3], &vec![10, -2, 5]).unwrap();
    assert_eq!(r.flat(), vec![10, -2, 5]);

    let v1 = vecn(vec![1, 2, 3]);
    let v2 = vecn(vec![0, 10, -100]);
    let r = linear_combination(&vec![v1, v2], &vec![10, -2]).unwrap();
    assert_eq!(r.flat(), vec![10, 0, 230]);
}

#[test]
fn linear_combination_errors() {
    let v1 = vecn(vec![1, 2]);
    assert_eq!(
        linear_combination(&vec![v1], &vec![1, 2]).unwrap_err(),
        LinAlgError::DimensionMismatch
    );
    assert_eq!(
        linear_combination::<i64>(&vec![], &vec![]).unwrap_err(),
        LinAlgError::MalformedInput
    );
    let v1 = vecn(vec![1, 2]);
    let v2 = vecn(vec![1, 2, 3]);
    assert_eq!(
        linear_combination(&vec![v1, v2], &vec![1, 2]).unwrap_err(),
        LinAlgError::ShapeMismatch
    );
}
