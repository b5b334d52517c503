use vstd::prelude::*;
use crate::scalar::Operations;
use crate::error::LinAlgError;
use crate::vector::{Vector, vec_add, vec_scale, spec_dot};

verus! {

/// The views of a sequence of vectors.
pub open spec fn vec_views<K: Operations>(vs: Seq<Vector<K>>) -> Seq<Seq<K>> {
    Seq::new(vs.len(), |i: int| vs[i]@)
}

/// The coefficient-weighted sum of the first `n` columns, accumulated left
/// to right from the first scaled column.
pub open spec fn lincomb<K: Operations>(vs: Seq<Seq<K>>, cs: Seq<K>, n: int) -> Seq<K>
    decreases n,
{
    if n <= 1 {
        vec_scale(vs[0], cs[0])
    } else {
        vec_add(lincomb(vs, cs, n - 1), vec_scale(vs[n - 1], cs[n - 1]))
    }
}

/// The coefficient-weighted sum of the given vectors. Returns
/// `DimensionMismatch` if and only if the two lists differ in length,
/// `MalformedInput` if and only if they are empty, and `ShapeMismatch` if
/// and only if the vectors themselves do not all have one length.
pub fn linear_combination<K: Operations>(vectors: &Vec<Vector<K>>, coeffs: &Vec<K>) -> (r: Result<
    Vector<K>,
    LinAlgError,
>)
    requires
        forall|i: int| 0 <= i < vectors@.len() ==> (#[trigger] vectors@[i]).wf(),
    ensures
        match r {
            Ok(w) => {
                &&& vectors@.len() == coeffs@.len()
                &&& vectors@.len() >= 1
                &&& forall|i: int|
                    0 <= i < vectors@.len() ==> (#[trigger] vectors@[i]).spec_len()
                        == vectors@[0].spec_len()
                &&& w.wf()
                &&& w.spec_len() == vectors@[0].spec_len()
                &&& w@ == lincomb(vec_views(vectors@), coeffs@, vectors@.len() as int)
            },
            Err(e) => {
                ||| (e == LinAlgError::DimensionMismatch && vectors@.len() != coeffs@.len())
                ||| (e == LinAlgError::MalformedInput && vectors@.len() == coeffs@.len()
                    && vectors@.len() == 0)
                ||| (e == LinAlgError::ShapeMismatch && vectors@.len() == coeffs@.len()
                    && vectors@.len() >= 1 && exists|i: int|
                    0 <= i < vectors@.len() && (#[trigger] vectors@[i]).spec_len()
                        != vectors@[0].spec_len())
            },
        },
{
    if vectors.len() != coeffs.len() {
        return Err(LinAlgError::DimensionMismatch);
    }
    if vectors.len() == 0 {
        return Err(LinAlgError::MalformedInput);
    }
    let n = vectors.len();
    let mut accum = vectors[0].duplicate();
    accum.scl(coeffs[0]);
    let mut i: usize = 1;
    while i < n
        invariant
            n == vectors@.len(),
            n == coeffs@.len(),
            n >= 1,
            forall|k: int| 0 <= k < n ==> (#[trigger] vectors@[k]).wf(),
            1 <= i <= n,
            forall|k: int|
                0 <= k < i ==> (#[trigger] vectors@[k]).spec_len() == vectors@[0].spec_len(),
            accum.wf(),
            accum.spec_len() == vectors@[0].spec_len(),
            accum@ == lincomb(vec_views(vectors@), coeffs@, i as int),
        decreases n - i,
    {
        let mut current = vectors[i].duplicate();
        current.scl(coeffs[i]);
        match accum.add(&current) {
            Ok(()) => {},
            Err(e) => {
                return Err(e);
            },
        }
        i = i + 1;
    }
    Ok(accum)
}

/// The cosine of the angle between `u` and `v`: their dot product divided by
/// the product of their Euclidean norms. Returns `ShapeMismatch` if and only
/// if the lengths differ, and `InvalidScalarOperation` if and only if the
/// norm product is the capability's zero, where the division is undefined.
pub fn angle_cos<K: Operations>(u: &Vector<K>, v: &Vector<K>) -> (r: Result<K, LinAlgError>)
    requires
        u.wf(),
        v.wf(),
    ensures
        match r {
            Ok(k) => {
                &&& u.spec_len() == v.spec_len()
                &&& spec_dot(u@, u@).sp_sqrt().sp_mul(spec_dot(v@, v@).sp_sqrt())
                    != K::sp_zero()
                &&& k == spec_dot(u@, v@).sp_div(
                    spec_dot(u@, u@).sp_sqrt().sp_mul(spec_dot(v@, v@).sp_sqrt()),
                )
            },
            Err(e) => {
                ||| (e == LinAlgError::ShapeMismatch && u.spec_len() != v.spec_len())
                ||| (e == LinAlgError::InvalidScalarOperation && u.spec_len() == v.spec_len()
                    && spec_dot(u@, u@).sp_sqrt().sp_mul(spec_dot(v@, v@).sp_sqrt())
                    == K::sp_zero())
            },
        },
{
    let d = match u.dot(v.duplicate()) {
        Ok(k) => k,
        Err(e) => {
            return Err(e);
        },
    };
    let denom = u.norm().mul(v.norm());
    if denom.eq(K::zero()) {
        return Err(LinAlgError::InvalidScalarOperation);
    }
    Ok(d.div(denom))
}

/// The cross product of two length-3 vectors, by the determinant-expansion
/// formula. Returns `DimensionMismatch` if and only if either vector does
/// not have exactly three entries.
pub fn cross_product<K: Operations>(u: &Vector<K>, v: &Vector<K>) -> (r: Result<
    Vector<K>,
    LinAlgError,
>)
    requires
        u.wf(),
        v.wf(),
    ensures
        match r {
            Ok(w) => {
                &&& u.spec_len() == 3
                &&& v.spec_len() == 3
                &&& w.wf()
                &&& w@.len() == 3
                &&& w@[0] == u@[1].sp_mul(v@[2]).sp_sub(u@[2].sp_mul(v@[1]))
                &&& w@[1] == u@[2].sp_mul(v@[0]).sp_sub(u@[0].sp_mul(v@[2]))
                &&& w@[2] == u@[0].sp_mul(v@[1]).sp_sub(u@[1].sp_mul(v@[0]))
            },
            Err(e) => {
                &&& e == LinAlgError::DimensionMismatch
                &&& (u.spec_len() != 3 || v.spec_len() != 3)
            },
        },
{
    let (un, _) = u.shape();
    let (vn, _) = v.shape();
    if un != 3 || vn != 3 {
        return Err(LinAlgError::DimensionMismatch);
    }
    let a0 = u.get(0);
    let a1 = u.get(1);
    let a2 = u.get(2);
    let b0 = v.get(0);
    let b1 = v.get(1);
    let b2 = v.get(2);
    let mut out: Vec<K> = Vec::new();
    out.push(a1.mul(b2).sub(a2.mul(b1)));
    out.push(a2.mul(b0).sub(a0.mul(b2)));
    out.push(a0.mul(b1).sub(a1.mul(b0)));
    let w = Vector::from_vec(out);
    proof {
        w.lemma_view_len();
    }
    Ok(w)
}

} // verus!
