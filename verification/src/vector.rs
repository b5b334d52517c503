use vstd::prelude::*;
use crate::scalar::Operations;
use crate::error::LinAlgError;
use crate::matrix::Matrix;

verus! {

/// A column vector: a matrix constrained to shape `(n, 1)`. All operations
/// delegate to the wrapped matrix; its mathematical value (the view `@`) is
/// the sequence of its `n` scalars.
#[derive(Debug)]
pub struct Vector<K: Operations> {
    matrix: Matrix<K>,
}

/// The elementwise sum of two same-length columns.
pub open spec fn vec_add<K: Operations>(u: Seq<K>, v: Seq<K>) -> Seq<K> {
    Seq::new(u.len(), |i: int| u[i].sp_add(v[i]))
}

/// The elementwise difference of two same-length columns.
pub open spec fn vec_sub<K: Operations>(u: Seq<K>, v: Seq<K>) -> Seq<K> {
    Seq::new(u.len(), |i: int| u[i].sp_sub(v[i]))
}

/// The column with every entry multiplied by the scalar `s`.
pub open spec fn vec_scale<K: Operations>(u: Seq<K>, s: K) -> Seq<K> {
    Seq::new(u.len(), |i: int| u[i].sp_mul(s))
}

/// The sum of the first `n` products `u[i] * v[i]`, accumulated from zero.
pub open spec fn dot_sum<K: Operations>(u: Seq<K>, v: Seq<K>, n: int) -> K
    decreases n,
{
    if n <= 0 {
        K::sp_zero()
    } else {
        dot_sum(u, v, n - 1).sp_add(u[n - 1].sp_mul(v[n - 1]))
    }
}

/// The dot product of two same-length columns.
pub open spec fn spec_dot<K: Operations>(u: Seq<K>, v: Seq<K>) -> K {
    dot_sum(u, v, u.len() as int)
}

/// The sum of the first `n` absolute values, accumulated from zero.
pub open spec fn abs_sum<K: Operations>(u: Seq<K>, n: int) -> K
    decreases n,
{
    if n <= 0 {
        K::sp_zero()
    } else {
        abs_sum(u, n - 1).sp_add(u[n - 1].sp_abs())
    }
}

/// The largest of the first `n` absolute values and zero, under the
/// capability's order.
pub open spec fn abs_max<K: Operations>(u: Seq<K>, n: int) -> K
    decreases n,
{
    if n <= 0 {
        K::sp_zero()
    } else {
        let m = abs_max(u, n - 1);
        if m.sp_lt(u[n - 1].sp_abs()) {
            u[n - 1].sp_abs()
        } else {
            m
        }
    }
}

impl<K: Operations> View for Vector<K> {
    type V = Seq<K>;

    closed spec fn view(&self) -> Seq<K> {
        Seq::new(self.matrix@.len(), |i: int| self.matrix@[i][0])
    }
}

impl<K: Operations> Vector<K> {
    /// The number of entries.
    pub closed spec fn spec_len(&self) -> nat {
        self.matrix.spec_rows()
    }

    /// Well-formed: a well-formed single-column matrix.
    pub closed spec fn wf(&self) -> bool {
        self.matrix.wf() && self.matrix.spec_cols() == 1
    }

    /// The view has one scalar per entry.
    pub proof fn lemma_view_len(&self)
        ensures
            self@.len() == self.spec_len(),
    {
        self.matrix.lemma_view_shape();
    }

    /// How the view reads the wrapped matrix.
    proof fn lemma_cells(&self)
        requires
            self.wf(),
        ensures
            self@.len() == self.spec_len(),
            self.matrix@.len() == self.spec_len(),
            forall|i: int|
                0 <= i < self.spec_len() ==> #[trigger] self.matrix@[i].len() == 1,
            forall|i: int|
                0 <= i < self.spec_len() ==> #[trigger] self@[i] == self.matrix@[i][0],
    {
        self.matrix.lemma_view_shape();
    }

    /// Crate-internal constructor: wraps a matrix already known to be a
    /// single column.
    pub(crate) fn wrap(m: Matrix<K>) -> (v: Vector<K>)
        requires
            m.wf(),
            m.spec_cols() == 1,
        ensures
            v.wf(),
            v.spec_len() == m.spec_rows(),
            v@.len() == m.spec_rows(),
            forall|i: int| 0 <= i < m.spec_rows() ==> #[trigger] v@[i] == m@[i][0],
    {
        let v = Vector { matrix: m };
        proof {
            v.lemma_cells();
        }
        v
    }

    /// A well-formed copy of this vector.
    pub fn duplicate(&self) -> (v: Vector<K>)
        requires
            self.wf(),
        ensures
            v.wf(),
            v.spec_len() == self.spec_len(),
            v@ == self@,
    {
        let copy = Vector { matrix: self.matrix.duplicate() };
        proof {
            copy.lemma_cells();
            self.lemma_cells();
            assert(copy@ =~= self@);
        }
        copy
    }

    /// The wrapped matrix: a well-formed `(n, 1)` column.
    pub fn as_matrix(&self) -> (m: &Matrix<K>)
        requires
            self.wf(),
        ensures
            m.wf(),
            m.spec_rows() == self.spec_len(),
            m.spec_cols() == 1,
            forall|i: int| 0 <= i < self.spec_len() ==> #[trigger] m@[i][0] == self@[i],
    {
        proof {
            self.lemma_cells();
        }
        &self.matrix
    }

    /// Wraps a list of scalars, possibly empty, as a column vector of its
    /// length.
    pub fn from_vec(data: Vec<K>) -> (v: Vector<K>)
        ensures
            v.wf(),
            v.spec_len() == data@.len(),
            v@ == data@,
    {
        let n = data.len();
        let ghost d = data@;
        let m = Matrix::build(n, 1, data);
        let v = Vector { matrix: m };
        proof {
            v.lemma_cells();
            assert forall|i: int| 0 <= i < n as int implies v@[i] == d[i] by {
                assert(v.matrix@[i][0] == d[i * 1 + 0]);
            }
            assert(v@ =~= d);
        }
        v
    }

    /// Wraps a well-formed `(n, 1)` matrix as a vector. Returns
    /// `DimensionMismatch` if and only if the matrix does not have exactly
    /// one column.
    pub fn from_matrix(m: Matrix<K>) -> (r: Result<Vector<K>, LinAlgError>)
        requires
            m.wf(),
        ensures
            match r {
                Ok(v) => {
                    &&& m.spec_cols() == 1
                    &&& v.wf()
                    &&& v.spec_len() == m.spec_rows()
                    &&& forall|i: int| 0 <= i < m.spec_rows() ==> #[trigger] v@[i] == m@[i][0]
                },
                Err(e) => e == LinAlgError::DimensionMismatch && m.spec_cols() != 1,
            },
    {
        let (_, cols) = m.shape();
        if cols != 1 {
            return Err(LinAlgError::DimensionMismatch);
        }
        let v = Vector { matrix: m };
        proof {
            v.lemma_cells();
        }
        Ok(v)
    }

    /// The `(n, 1)` shape of the underlying matrix.
    pub fn shape(&self) -> (r: (usize, usize))
        requires
            self.wf(),
        ensures
            r.0 == self.spec_len(),
            r.1 == 1,
    {
        self.matrix.shape()
    }

    /// A copy of the entries, in order.
    pub fn flat(&self) -> (r: Vec<K>)
        requires
            self.wf(),
        ensures
            r@ == self@,
    {
        let out = self.matrix.flat();
        proof {
            self.lemma_cells();
            assert forall|i: int| 0 <= i < self.spec_len() implies out@[i] == self@[i] by {
                assert(out@[i * 1 + 0] == self.matrix@[i][0]);
            }
            assert(out@ =~= self@);
        }
        out
    }

    /// Whether the underlying matrix is square, that is, a single entry.
    pub fn is_square(&self) -> (r: bool)
        requires
            self.wf(),
        ensures
            r == (self.spec_len() == 1),
    {
        self.matrix.is_square()
    }

    /// Gives the vector a new shape, which for a vector can only be its own
    /// `(n, 1)`. Returns `DimensionMismatch` if and only if the target has a
    /// second dimension other than one, and `MalformedInput` if and only if
    /// it asks for a different entry count; the vector is never changed.
    pub fn reshape(&mut self, shape: (usize, usize)) -> (r: Result<(), LinAlgError>)
        requires
            old(self).wf(),
        ensures
            final(self).wf(),
            final(self).spec_len() == old(self).spec_len(),
            final(self)@ == old(self)@,
            match r {
                Ok(()) => shape.1 == 1 && shape.0 == old(self).spec_len(),
                Err(e) => {
                    &&& *final(self) == *old(self)
                    &&& (e == LinAlgError::DimensionMismatch <==> shape.1 != 1)
                    &&& (e == LinAlgError::MalformedInput <==> shape.1 == 1 && shape.0 != old(
                        self,
                    ).spec_len())
                },
            },
    {
        if shape.1 != 1 {
            return Err(LinAlgError::DimensionMismatch);
        }
        let r = self.matrix.reshape(shape);
        proof {
            Matrix::lemma_view_eq(self.matrix, old(self).matrix);
            self.lemma_cells();
            old(self).lemma_cells();
            assert(self@ =~= old(self)@);
        }
        r
    }

    /// The entry at position `i`; the position must be in range.
    pub fn get(&self, i: usize) -> (v: K)
        requires
            self.wf(),
            i < self.spec_len(),
        ensures
            v == self@[i as int],
    {
        proof {
            self.lemma_cells();
        }
        self.matrix.get(i, 0)
    }

    /// Replaces the entry at position `i`; the position must be in range.
    pub fn set(&mut self, i: usize, value: K)
        requires
            old(self).wf(),
            i < old(self).spec_len(),
        ensures
            final(self).wf(),
            final(self).spec_len() == old(self).spec_len(),
            final(self)@ == old(self)@.update(i as int, value),
    {
        self.matrix.set(i, 0, value);
        proof {
            self.lemma_cells();
            old(self).lemma_cells();
            assert forall|k: int| 0 <= k < self@.len()
                implies self@[k] == old(self)@.update(i as int, value)[k] by {
                if k == i as int {
                    assert(self.matrix@[k][0] == value);
                } else {
                    assert(self.matrix@[k][0] == old(self).matrix@[k][0]);
                }
            }
            assert(self@ =~= old(self)@.update(i as int, value));
        }
    }

    /// Elementwise sum, in place. Returns `ShapeMismatch` (leaving the
    /// vector unchanged) if and only if the lengths differ.
    pub fn add(&mut self, v: &Vector<K>) -> (r: Result<(), LinAlgError>)
        requires
            old(self).wf(),
            v.wf(),
        ensures
            final(self).wf(),
            final(self).spec_len() == old(self).spec_len(),
            match r {
                Ok(()) => {
                    &&& old(self).spec_len() == v.spec_len()
                    &&& final(self)@ == vec_add(old(self)@, v@)
                },
                Err(e) => {
                    &&& e == LinAlgError::ShapeMismatch
                    &&& old(self).spec_len() != v.spec_len()
                    &&& *final(self) == *old(self)
                },
            },
    {
        let r = self.matrix.add(&v.matrix);
        proof {
            self.lemma_cells();
            old(self).lemma_cells();
            v.lemma_cells();
            if r is Ok {
                assert(self@ =~= vec_add(old(self)@, v@));
            }
        }
        r
    }

    /// Elementwise difference, in place. Returns `ShapeMismatch` (leaving
    /// the vector unchanged) if and only if the lengths differ.
    pub fn sub(&mut self, v: &Vector<K>) -> (r: Result<(), LinAlgError>)
        requires
            old(self).wf(),
            v.wf(),
        ensures
            final(self).wf(),
            final(self).spec_len() == old(self).spec_len(),
            match r {
                Ok(()) => {
                    &&& old(self).spec_len() == v.spec_len()
                    &&& final(self)@ == vec_sub(old(self)@, v@)
                },
                Err(e) => {
                    &&& e == LinAlgError::ShapeMismatch
                    &&& old(self).spec_len() != v.spec_len()
                    &&& *final(self) == *old(self)
                },
            },
    {
        let r = self.matrix.sub(&v.matrix);
        proof {
            self.lemma_cells();
            old(self).lemma_cells();
            v.lemma_cells();
            if r is Ok {
                assert(self@ =~= vec_sub(old(self)@, v@));
            }
        }
        r
    }

    /// Multiplies every entry by the scalar `a`, in place.
    pub fn scl(&mut self, a: K)
        requires
            old(self).wf(),
        ensures
            final(self).wf(),
            final(self).spec_len() == old(self).spec_len(),
            final(self)@ == vec_scale(old(self)@, a),
    {
        self.matrix.scl(a);
        proof {
            self.lemma_cells();
            old(self).lemma_cells();
            assert(self@ =~= vec_scale(old(self)@, a));
        }
    }

    /// The dot product: the sum of the elementwise products. Returns
    /// `ShapeMismatch` if and only if the lengths differ.
    pub fn dot(&self, v: Vector<K>) -> (r: Result<K, LinAlgError>)
        requires
            self.wf(),
            v.wf(),
        ensures
            match r {
                Ok(k) => self.spec_len() == v.spec_len() && k == spec_dot(self@, v@),
                Err(e) => {
                    &&& e == LinAlgError::ShapeMismatch
                    &&& self.spec_len() != v.spec_len()
                },
            },
    {
        let (n, _) = self.shape();
        let (m, _) = v.shape();
        if n != m {
            return Err(LinAlgError::ShapeMismatch);
        }
        let mut sum = K::zero();
        let mut i: usize = 0;
        while i < n
            invariant
                self.wf(),
                v.wf(),
                n == self.spec_len(),
                n == v.spec_len(),
                i <= n,
                sum == dot_sum(self@, v@, i as int),
            decreases n - i,
        {
            proof {
                self.lemma_cells();
                v.lemma_cells();
            }
            sum = sum.add(self.get(i).mul(v.get(i)));
            i = i + 1;
        }
        proof {
            self.lemma_view_len();
        }
        Ok(sum)
    }

    /// The Manhattan norm: the sum of the absolute values of the entries.
    pub fn norm_1(&self) -> (r: K)
        requires
            self.wf(),
        ensures
            r == abs_sum(self@, self.spec_len() as int),
    {
        let (n, _) = self.shape();
        let mut sum = K::zero();
        let mut i: usize = 0;
        while i < n
            invariant
                self.wf(),
                n == self.spec_len(),
                i <= n,
                sum == abs_sum(self@, i as int),
            decreases n - i,
        {
            proof {
                self.lemma_cells();
            }
            sum = sum.add(self.get(i).abs());
            i = i + 1;
        }
        sum
    }

    /// The Euclidean norm: the square root of the sum of the squares of the
    /// entries.
    pub fn norm(&self) -> (r: K)
        requires
            self.wf(),
        ensures
            r == spec_dot(self@, self@).sp_sqrt(),
    {
        let (n, _) = self.shape();
        let mut sum = K::zero();
        let mut i: usize = 0;
        while i < n
            invariant
                self.wf(),
                n == self.spec_len(),
                i <= n,
                sum == dot_sum(self@, self@, i as int),
            decreases n - i,
        {
            proof {
                self.lemma_cells();
            }
            let x = self.get(i);
            sum = sum.add(x.mul(x));
            i = i + 1;
        }
        proof {
            self.lemma_view_len();
        }
        sum.sqrt()
    }

    /// The supremum norm: the largest absolute value of an entry (never
    /// below zero, the value it starts from).
    pub fn norm_inf(&self) -> (r: K)
        requires
            self.wf(),
        ensures
            r == abs_max(self@, self.spec_len() as int),
    {
        let (n, _) = self.shape();
        let mut max = K::zero();
        let mut i: usize = 0;
        while i < n
            invariant
                self.wf(),
                n == self.spec_len(),
                i <= n,
                max == abs_max(self@, i as int),
            decreases n - i,
        {
            proof {
                self.lemma_cells();
            }
            let a = self.get(i).abs();
            if max.lt(a) {
                max = a;
            }
            i = i + 1;
        }
        max
    }
}

} // verus!
