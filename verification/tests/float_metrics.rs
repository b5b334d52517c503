//! The capability is open to callers: a floating-point scalar defined here
//! exercises the generic metrics with real-valued results.

use linalg::functions::angle_cos;
use linalg::{Operations, Vector};

#[derive(Clone, Copy, Debug, PartialEq)]
struct Real(f64);

impl Operations for Real {
    // The capability's specification-level items are erased when the library
    // is compiled, so the bodies below are never run; they only satisfy the
    // trait's surface.
    fn sp_add(self, _other: Self) -> Self {
        self
    }

    fn sp_sub(self, _other: Self) -> Self {
        self
    }

    fn sp_mul(self, _other: Self) -> Self {
        self
    }

    fn sp_div(self, _other: Self) -> Self {
        self
    }

    fn sp_neg(self) -> Self {
        self
    }

    fn sp_abs(self) -> Self {
        self
    }

    fn sp_sqrt(self) -> Self {
        self
    }

    fn sp_zero() -> Self {
        Real(0.0)
    }

    fn sp_one() -> Self {
        Real(1.0)
    }

    fn sp_lt(self, _other: Self) -> bool {
        false
    }

    fn lemma_add_zero(_a: Self) {
    }

    fn lemma_sub_zero(_a: Self) {
    }

    fn lemma_add_sub(_a: Self, _b: Self) {
    }

    fn lemma_mul_one(_a: Self) {
    }

    fn lemma_mul_zero(_a: Self) {
    }

    fn lemma_div_one(_a: Self) {
    }

    fn add(self, other: Self) -> Self {
        Real(self.0 + other.0)
    }

    fn sub(self, other: Self) -> Self {
        Real(self.0 - other.0)
    }

    fn mul(self, other: Self) -> Self {
        Real(self.0 * other.0)
    }

    fn div(self, other: Self) -> Self {
        Real(self.0 / other.0)
    }

    fn neg(self) -> Self {
        Real(-self.0)
    }

    fn eq(self, other: Self) -> bool {
        self.0 == other.0
    }

    fn zero() -> Self {
        Real(0.0)
    }

    fn abs(self) -> Self {
        Real(self.0.abs())
    }

    fn sqrt(self) -> Self {
        Real(self.0.sqrt())
    }

    fn lt(self, other: Self) -> bool {
        self.0 < other.0
    }
}

fn rvec(data: Vec<f64>) -> Vector<Real> {
    Vector::from_vec(data.into_iter().map(Real).collect())
}

#[test]
fn euclidean_norm_over_reals() {
    let n = rvec(vec![1.0, 2.0, 3.0]).norm();
    assert!((n.0 - 3.7416575).abs() < 1e-6);
    let n = rvec(vec![-1.0, -2.0]).norm_1();
    assert!((n.0 - 3.0).abs() < 1e-12);
    let n = rvec(vec![1.0, -5.0, 3.0]).norm_inf();
    assert!((n.0 - 5.0).abs() < 1e-12);
}

#[test]
fn cosine_over_reals() {
    let u = rvec(vec![1.0, 2.0, 3.0]);
    let v = rvec(vec![4.0, 5.0, 6.0]);
    let c = angle_cos(&u, &v).unwrap();
    assert!((c.0 - 0.974631846).abs() < 1e-6);
    let u = rvec(vec![-1.0, 1.0]);
    let v = rvec(vec![1.0, -1.0]);
    let c = angle_cos(&u, &v).unwrap();
    assert!((c.0 + 1.0).abs() < 1e-9);
}

#[test]
fn dot_over_reals() {
    let u = rvec(vec![2.0, 1.0]);
    let v = rvec(vec![4.0, 2.0]);
    let d = u.dot(v).unwrap();
    assert!((d.0 - 10.0).abs() < 1e-12);
}
