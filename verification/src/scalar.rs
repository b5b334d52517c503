use vstd::prelude::*;

verus! {

/// The capability every element type of a matrix or vector must provide:
/// arithmetic, equality, negation, a zero value, an absolute value, a square
/// root, and an ordering test for the supremum norm.
///
/// Each operation comes in two parts. The `sp_*` spec functions give the
/// mathematical meaning of the operation for the implementing type, and the
/// executable methods promise to return exactly that value. The `lemma_*`
/// proof obligations pin down the little algebra the matrix algorithms rely
/// on: zero is neutral for addition, one is neutral for multiplication and
/// division, addition is cancelled by subtraction, and a nonzero value divided
/// by itself is one. Every implementation must prove these laws, and every
/// generic result of the library holds for every implementation that does.
pub trait Operations: Sized + Copy {
    /// The value the executable `add` returns.
    spec fn sp_add(self, other: Self) -> Self;

    /// The value the executable `sub` returns.
    spec fn sp_sub(self, other: Self) -> Self;

    /// The value the executable `mul` returns.
    spec fn sp_mul(self, other: Self) -> Self;

    /// The value the executable `div` returns, meaningful only for a nonzero
    /// divisor.
    spec fn sp_div(self, other: Self) -> Self;

    /// The value the executable `neg` returns.
    spec fn sp_neg(self) -> Self;

    /// The value the executable `abs` returns.
    spec fn sp_abs(self) -> Self;

    /// The value the executable `sqrt` returns; it need only be meaningful
    /// for values that are squares of the type's own values.
    spec fn sp_sqrt(self) -> Self;

    /// The canonical zero of the type.
    spec fn sp_zero() -> Self;

    /// The canonical one of the type: the multiplicative unit the laws below
    /// speak of. It is not part of the executable surface; algorithms that
    /// need a one build it as `x.div(x)` for a nonzero `x`.
    spec fn sp_one() -> Self;

    /// The strict order the supremum norm maximizes over.
    spec fn sp_lt(self, other: Self) -> bool;

    fn add(self, other: Self) -> (r: Self)
        ensures
            r == self.sp_add(other),
    ;

    fn sub(self, other: Self) -> (r: Self)
        ensures
            r == self.sp_sub(other),
    ;

    fn mul(self, other: Self) -> (r: Self)
        ensures
            r == self.sp_mul(other),
    ;

    /// Division by the capability's zero is undefined and excluded here.
    fn div(self, other: Self) -> (r: Self)
        requires
            other != Self::sp_zero(),
        ensures
            r == self.sp_div(other),
    ;

    fn neg(self) -> (r: Self)
        ensures
            r == self.sp_neg(),
    ;

    /// Value equality; it agrees with mathematical equality of the values.
    fn eq(self, other: Self) -> (r: bool)
        ensures
            r == (self == other),
    ;

    fn zero() -> (r: Self)
        ensures
            r == Self::sp_zero(),
    ;

    fn abs(self) -> (r: Self)
        ensures
            r == self.sp_abs(),
    ;

    fn sqrt(self) -> (r: Self)
        ensures
            r == self.sp_sqrt(),
    ;

    fn lt(self, other: Self) -> (r: bool)
        ensures
            r == self.sp_lt(other),
    ;

    /// Zero is neutral for addition, on both sides.
    proof fn lemma_add_zero(a: Self)
        ensures
            a.sp_add(Self::sp_zero()) == a,
            Self::sp_zero().sp_add(a) == a,
    ;

    /// Subtracting zero does nothing, and subtracting a value from itself
    /// yields zero.
    proof fn lemma_sub_zero(a: Self)
        ensures
            a.sp_sub(Self::sp_zero()) == a,
            a.sp_sub(a) == Self::sp_zero(),
    ;

    /// Subtraction cancels addition.
    proof fn lemma_add_sub(a: Self, b: Self)
        ensures
            a.sp_add(b).sp_sub(b) == a,
    ;

    /// One is neutral for multiplication, on both sides, and differs from
    /// zero.
    proof fn lemma_mul_one(a: Self)
        ensures
            a.sp_mul(Self::sp_one()) == a,
            Self::sp_one().sp_mul(a) == a,
            Self::sp_one() != Self::sp_zero(),
    ;

    /// Multiplying by zero yields zero, on both sides.
    proof fn lemma_mul_zero(a: Self)
        ensures
            a.sp_mul(Self::sp_zero()) == Self::sp_zero(),
            Self::sp_zero().sp_mul(a) == Self::sp_zero(),
    ;

    /// A nonzero value divided by itself is one, dividing by one does
    /// nothing, and zero divided by anything nonzero stays zero.
    proof fn lemma_div_one(a: Self)
        ensures
            a != Self::sp_zero() ==> a.sp_div(a) == Self::sp_one(),
            a.sp_div(Self::sp_one()) == a,
            a != Self::sp_zero() ==> Self::sp_zero().sp_div(a) == Self::sp_zero(),
    ;
}

} // verus!
