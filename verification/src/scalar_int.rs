use vstd::prelude::*;
use crate::scalar::Operations;
use crate::isqrt::{nat_sqrt, lemma_nat_sqrt_bounds, isqrt_u64, isqrt_u128};
use vstd::arithmetic::div_mod::{
    lemma_fundamental_div_mod,
    lemma_mod_bound,
    lemma_div_basics,
    lemma_small_mod,
};
use vstd::wrapping::{i64_specs, i32_specs, i128_specs, u64_specs, u32_specs, u128_specs};

verus! {

/// `signed_crop` is the identity on values already in the `i64` range.
proof fn lemma_i64_crop_id(x: int)
    requires
        i64::MIN <= x <= i64::MAX,
    ensures
        i64_specs::signed_crop(x) == x,
{
    let range = 0x1_0000_0000_0000_0000;
    lemma_fundamental_div_mod(x, range);
    lemma_mod_bound(x, range);
}

/// The capability over `i64`. Addition, subtraction and multiplication wrap
/// around on overflow, which keeps every operation total; division truncates
/// toward zero as the machine division does; the square root is the exact
/// integer square root, and zero below zero.
impl Operations for i64 {
    open spec fn sp_add(self, other: Self) -> Self {
        i64_specs::wrapping_add(self, other)
    }

    open spec fn sp_sub(self, other: Self) -> Self {
        i64_specs::wrapping_sub(self, other)
    }

    open spec fn sp_mul(self, other: Self) -> Self {
        i64_specs::wrapping_mul(self, other)
    }

    open spec fn sp_div(self, other: Self) -> Self {
        if self == i64::MIN && other == -1 {
            i64::MIN
        } else if self >= 0 {
            (self / other) as i64
        } else {
            (-((-self) / (other as int))) as i64
        }
    }

    open spec fn sp_neg(self) -> Self {
        if self == i64::MIN {
            i64::MIN
        } else {
            (-self) as i64
        }
    }

    open spec fn sp_abs(self) -> Self {
        if self == i64::MIN {
            i64::MIN
        } else if self < 0 {
            (-self) as i64
        } else {
            self
        }
    }

    open spec fn sp_sqrt(self) -> Self {
        if self <= 0 {
            0
        } else {
            nat_sqrt(self as nat) as i64
        }
    }

    open spec fn sp_zero() -> Self {
        0
    }

    open spec fn sp_one() -> Self {
        1
    }

    open spec fn sp_lt(self, other: Self) -> bool {
        self < other
    }

    fn add(self, other: Self) -> (r: Self) {
        self.wrapping_add(other)
    }

    fn sub(self, other: Self) -> (r: Self) {
        self.wrapping_sub(other)
    }

    fn mul(self, other: Self) -> (r: Self) {
        self.wrapping_mul(other)
    }

    fn div(self, other: Self) -> (r: Self) {
        if self == i64::MIN && other == -1 {
            i64::MIN
        } else {
            self / other
        }
    }

    fn neg(self) -> (r: Self) {
        if self == i64::MIN {
            i64::MIN
        } else {
            -self
        }
    }

    fn eq(self, other: Self) -> (r: bool) {
        self == other
    }

    fn zero() -> (r: Self) {
        0
    }

    fn abs(self) -> (r: Self) {
        if self == i64::MIN {
            i64::MIN
        } else if self < 0 {
            -self
        } else {
            self
        }
    }

    fn sqrt(self) -> (r: Self) {
        if self <= 0 {
            0
        } else {
            let s = isqrt_u64(self as u64);
            proof {
                lemma_nat_sqrt_bounds(self as nat);
                assert(nat_sqrt(self as nat) < 0x1_0000_0000) by (nonlinear_arith)
                    requires
                        nat_sqrt(self as nat) * nat_sqrt(self as nat) <= self as nat
                            && (self as nat) < 0x8000_0000_0000_0000;
            }
            s as i64
        }
    }

    fn lt(self, other: Self) -> (r: bool) {
        self < other
    }

    proof fn lemma_add_zero(a: Self) {
    }

    proof fn lemma_sub_zero(a: Self) {
    }

    proof fn lemma_add_sub(a: Self, b: Self) {
    }

    proof fn lemma_mul_one(a: Self) {
        lemma_i64_crop_id(a as int);
    }

    proof fn lemma_mul_zero(a: Self) {
        lemma_i64_crop_id(0);
    }

    proof fn lemma_div_one(a: Self) {
        lemma_div_basics(a as int);
        lemma_div_basics(-(a as int));
        if a < 0 {
            assert((-a) / (a as int) == -1) by (nonlinear_arith)
                requires a < 0;
        }
    }
}

/// `signed_crop` is the identity on values already in the `i32` range.
proof fn lemma_i32_crop_id(x: int)
    requires
        i32::MIN <= x <= i32::MAX,
    ensures
        i32_specs::signed_crop(x) == x,
{
    let range = 0x1_0000_0000;
    lemma_fundamental_div_mod(x, range);
    lemma_mod_bound(x, range);
}

/// The capability over `i32`, with the same conventions as the `i64`
/// implementation.
impl Operations for i32 {
    open spec fn sp_add(self, other: Self) -> Self {
        i32_specs::wrapping_add(self, other)
    }

    open spec fn sp_sub(self, other: Self) -> Self {
        i32_specs::wrapping_sub(self, other)
    }

    open spec fn sp_mul(self, other: Self) -> Self {
        i32_specs::wrapping_mul(self, other)
    }

    open spec fn sp_div(self, other: Self) -> Self {
        if self == i32::MIN && other == -1 {
            i32::MIN
        } else if self >= 0 {
            (self / other) as i32
        } else {
            (-((-self) / (other as int))) as i32
        }
    }

    open spec fn sp_neg(self) -> Self {
        if self == i32::MIN {
            i32::MIN
        } else {
            (-self) as i32
        }
    }

    open spec fn sp_abs(self) -> Self {
        if self == i32::MIN {
            i32::MIN
        } else if self < 0 {
            (-self) as i32
        } else {
            self
        }
    }

    open spec fn sp_sqrt(self) -> Self {
        if self <= 0 {
            0
        } else {
            nat_sqrt(self as nat) as i32
        }
    }

    open spec fn sp_zero() -> Self {
        0
    }

    open spec fn sp_one() -> Self {
        1
    }

    open spec fn sp_lt(self, other: Self) -> bool {
        self < other
    }

    fn add(self, other: Self) -> (r: Self) {
        self.wrapping_add(other)
    }

    fn sub(self, other: Self) -> (r: Self) {
        self.wrapping_sub(other)
    }

    fn mul(self, other: Self) -> (r: Self) {
        self.wrapping_mul(other)
    }

    fn div(self, other: Self) -> (r: Self) {
        if self == i32::MIN && other == -1 {
            i32::MIN
        } else {
            self / other
        }
    }

    fn neg(self) -> (r: Self) {
        if self == i32::MIN {
            i32::MIN
        } else {
            -self
        }
    }

    fn eq(self, other: Self) -> (r: bool) {
        self == other
    }

    fn zero() -> (r: Self) {
        0
    }

    fn abs(self) -> (r: Self) {
        if self == i32::MIN {
            i32::MIN
        } else if self < 0 {
            -self
        } else {
            self
        }
    }

    fn sqrt(self) -> (r: Self) {
        if self <= 0 {
            0
        } else {
            let s = isqrt_u64(self as u64);
            proof {
                lemma_nat_sqrt_bounds(self as nat);
                assert(nat_sqrt(self as nat) < 0x1_0000) by (nonlinear_arith)
                    requires
                        nat_sqrt(self as nat) * nat_sqrt(self as nat) <= self as nat
                            && (self as nat) < 0x8000_0000;
            }
            s as i32
        }
    }

    fn lt(self, other: Self) -> (r: bool) {
        self < other
    }

    proof fn lemma_add_zero(a: Self) {
    }

    proof fn lemma_sub_zero(a: Self) {
    }

    proof fn lemma_add_sub(a: Self, b: Self) {
    }

    proof fn lemma_mul_one(a: Self) {
        lemma_i32_crop_id(a as int);
    }

    proof fn lemma_mul_zero(a: Self) {
        lemma_i32_crop_id(0);
    }

    proof fn lemma_div_one(a: Self) {
        lemma_div_basics(a as int);
        lemma_div_basics(-(a as int));
        if a < 0 {
            assert((-a) / (a as int) == -1) by (nonlinear_arith)
                requires a < 0;
        }
    }
}

/// The capability over `u64`: wrapping arithmetic, with negation as the
/// two's-complement wrap and the absolute value as the value itself.
impl Operations for u64 {
    open spec fn sp_add(self, other: Self) -> Self {
        u64_specs::wrapping_add(self, other)
    }

    open spec fn sp_sub(self, other: Self) -> Self {
        u64_specs::wrapping_sub(self, other)
    }

    open spec fn sp_mul(self, other: Self) -> Self {
        u64_specs::wrapping_mul(self, other)
    }

    open spec fn sp_div(self, other: Self) -> Self {
        (self / other) as u64
    }

    open spec fn sp_neg(self) -> Self {
        u64_specs::wrapping_sub(0, self)
    }

    open spec fn sp_abs(self) -> Self {
        self
    }

    open spec fn sp_sqrt(self) -> Self {
        nat_sqrt(self as nat) as u64
    }

    open spec fn sp_zero() -> Self {
        0
    }

    open spec fn sp_one() -> Self {
        1
    }

    open spec fn sp_lt(self, other: Self) -> bool {
        self < other
    }

    fn add(self, other: Self) -> (r: Self) {
        self.wrapping_add(other)
    }

    fn sub(self, other: Self) -> (r: Self) {
        self.wrapping_sub(other)
    }

    fn mul(self, other: Self) -> (r: Self) {
        self.wrapping_mul(other)
    }

    fn div(self, other: Self) -> (r: Self) {
        self / other
    }

    fn neg(self) -> (r: Self) {
        0u64.wrapping_sub(self)
    }

    fn eq(self, other: Self) -> (r: bool) {
        self == other
    }

    fn zero() -> (r: Self) {
        0
    }

    fn abs(self) -> (r: Self) {
        self
    }

    fn sqrt(self) -> (r: Self) {
        isqrt_u64(self)
    }

    fn lt(self, other: Self) -> (r: bool) {
        self < other
    }

    proof fn lemma_add_zero(a: Self) {
    }

    proof fn lemma_sub_zero(a: Self) {
    }

    proof fn lemma_add_sub(a: Self, b: Self) {
    }

    proof fn lemma_mul_one(a: Self) {
        lemma_small_mod(a as nat, 0x1_0000_0000_0000_0000);
    }

    proof fn lemma_mul_zero(a: Self) {
        lemma_small_mod(0, 0x1_0000_0000_0000_0000);
    }

    proof fn lemma_div_one(a: Self) {
        lemma_div_basics(a as int);
    }
}

/// The capability over `u32`, with the same conventions as the `u64`
/// implementation.
impl Operations for u32 {
    open spec fn sp_add(self, other: Self) -> Self {
        u32_specs::wrapping_add(self, other)
    }

    open spec fn sp_sub(self, other: Self) -> Self {
        u32_specs::wrapping_sub(self, other)
    }

    open spec fn sp_mul(self, other: Self) -> Self {
        u32_specs::wrapping_mul(self, other)
    }

    open spec fn sp_div(self, other: Self) -> Self {
        (self / other) as u32
    }

    open spec fn sp_neg(self) -> Self {
        u32_specs::wrapping_sub(0, self)
    }

    open spec fn sp_abs(self) -> Self {
        self
    }

    open spec fn sp_sqrt(self) -> Self {
        nat_sqrt(self as nat) as u32
    }

    open spec fn sp_zero() -> Self {
        0
    }

    open spec fn sp_one() -> Self {
        1
    }

    open spec fn sp_lt(self, other: Self) -> bool {
        self < other
    }

    fn add(self, other: Self) -> (r: Self) {
        self.wrapping_add(other)
    }

    fn sub(self, other: Self) -> (r: Self) {
        self.wrapping_sub(other)
    }

    fn mul(self, other: Self) -> (r: Self) {
        self.wrapping_mul(other)
    }

    fn div(self, other: Self) -> (r: Self) {
        self / other
    }

    fn neg(self) -> (r: Self) {
        0u32.wrapping_sub(self)
    }

    fn eq(self, other: Self) -> (r: bool) {
        self == other
    }

    fn zero() -> (r: Self) {
        0
    }

    fn abs(self) -> (r: Self) {
        self
    }

    fn sqrt(self) -> (r: Self) {
        let s = isqrt_u64(self as u64);
        proof {
            lemma_nat_sqrt_bounds(self as nat);
            assert(nat_sqrt(self as nat) < 0x1_0000) by (nonlinear_arith)
                requires
                    nat_sqrt(self as nat) * nat_sqrt(self as nat) <= self as nat
                        && (self as nat) < 0x1_0000_0000;
        }
        s as u32
    }

    fn lt(self, other: Self) -> (r: bool) {
        self < other
    }

    proof fn lemma_add_zero(a: Self) {
    }

    proof fn lemma_sub_zero(a: Self) {
    }

    proof fn lemma_add_sub(a: Self, b: Self) {
    }

    proof fn lemma_mul_one(a: Self) {
        lemma_small_mod(a as nat, 0x1_0000_0000);
    }

    proof fn lemma_mul_zero(a: Self) {
        lemma_small_mod(0, 0x1_0000_0000);
    }

    proof fn lemma_div_one(a: Self) {
        lemma_div_basics(a as int);
    }
}


/// `signed_crop` is the identity on values already in the `i128` range.
proof fn lemma_i128_crop_id(x: int)
    requires
        i128::MIN <= x <= i128::MAX,
    ensures
        i128_specs::signed_crop(x) == x,
{
    let range: int = u128::MAX as int + 1;
    lemma_fundamental_div_mod(x, range);
    lemma_mod_bound(x, range);
}

/// The capability over `i128`, with the same conventions as the `i64`
/// implementation.
impl Operations for i128 {
    open spec fn sp_add(self, other: Self) -> Self {
        i128_specs::wrapping_add(self, other)
    }

    open spec fn sp_sub(self, other: Self) -> Self {
        i128_specs::wrapping_sub(self, other)
    }

    open spec fn sp_mul(self, other: Self) -> Self {
        i128_specs::wrapping_mul(self, other)
    }

    open spec fn sp_div(self, other: Self) -> Self {
        if self == i128::MIN && other == -1 {
            i128::MIN
        } else if self >= 0 {
            (self / other) as i128
        } else {
            (-((-self) / (other as int))) as i128
        }
    }

    open spec fn sp_neg(self) -> Self {
        if self == i128::MIN {
            i128::MIN
        } else {
            (-self) as i128
        }
    }

    open spec fn sp_abs(self) -> Self {
        if self == i128::MIN {
            i128::MIN
        } else if self < 0 {
            (-self) as i128
        } else {
            self
        }
    }

    open spec fn sp_sqrt(self) -> Self {
        if self <= 0 {
            0
        } else {
            nat_sqrt(self as nat) as i128
        }
    }

    open spec fn sp_zero() -> Self {
        0
    }

    open spec fn sp_one() -> Self {
        1
    }

    open spec fn sp_lt(self, other: Self) -> bool {
        self < other
    }

    fn add(self, other: Self) -> (r: Self) {
        self.wrapping_add(other)
    }

    fn sub(self, other: Self) -> (r: Self) {
        self.wrapping_sub(other)
    }

    fn mul(self, other: Self) -> (r: Self) {
        self.wrapping_mul(other)
    }

    fn div(self, other: Self) -> (r: Self) {
        if self == i128::MIN && other == -1 {
            i128::MIN
        } else {
            self / other
        }
    }

    fn neg(self) -> (r: Self) {
        if self == i128::MIN {
            i128::MIN
        } else {
            -self
        }
    }

    fn eq(self, other: Self) -> (r: bool) {
        self == other
    }

    fn zero() -> (r: Self) {
        0
    }

    fn abs(self) -> (r: Self) {
        if self == i128::MIN {
            i128::MIN
        } else if self < 0 {
            -self
        } else {
            self
        }
    }

    fn sqrt(self) -> (r: Self) {
        if self <= 0 {
            0
        } else {
            let s = isqrt_u128(self as u128);
            proof {
                lemma_nat_sqrt_bounds(self as nat);
                assert(nat_sqrt(self as nat) < 0x1_0000_0000_0000_0000) by (nonlinear_arith)
                    requires
                        nat_sqrt(self as nat) * nat_sqrt(self as nat) <= self as nat
                            && (self as nat) < i128::MAX as nat + 1;
            }
            s as i128
        }
    }

    fn lt(self, other: Self) -> (r: bool) {
        self < other
    }

    proof fn lemma_add_zero(a: Self) {
    }

    proof fn lemma_sub_zero(a: Self) {
    }

    proof fn lemma_add_sub(a: Self, b: Self) {
    }

    proof fn lemma_mul_one(a: Self) {
        lemma_i128_crop_id(a as int);
    }

    proof fn lemma_mul_zero(a: Self) {
        lemma_i128_crop_id(0);
    }

    proof fn lemma_div_one(a: Self) {
        lemma_div_basics(a as int);
        lemma_div_basics(-(a as int));
        if a < 0 {
            assert((-a) / (a as int) == -1) by (nonlinear_arith)
                requires a < 0;
        }
    }
}

/// The capability over `u128`, with the same conventions as the `u64`
/// implementation.
impl Operations for u128 {
    open spec fn sp_add(self, other: Self) -> Self {
        u128_specs::wrapping_add(self, other)
    }

    open spec fn sp_sub(self, other: Self) -> Self {
        u128_specs::wrapping_sub(self, other)
    }

    open spec fn sp_mul(self, other: Self) -> Self {
        u128_specs::wrapping_mul(self, other)
    }

    open spec fn sp_div(self, other: Self) -> Self {
        (self / other) as u128
    }

    open spec fn sp_neg(self) -> Self {
        u128_specs::wrapping_sub(0, self)
    }

    open spec fn sp_abs(self) -> Self {
        self
    }

    open spec fn sp_sqrt(self) -> Self {
        nat_sqrt(self as nat) as u128
    }

    open spec fn sp_zero() -> Self {
        0
    }

    open spec fn sp_one() -> Self {
        1
    }

    open spec fn sp_lt(self, other: Self) -> bool {
        self < other
    }

    fn add(self, other: Self) -> (r: Self) {
        self.wrapping_add(other)
    }

    fn sub(self, other: Self) -> (r: Self) {
        self.wrapping_sub(other)
    }

    fn mul(self, other: Self) -> (r: Self) {
        self.wrapping_mul(other)
    }

    fn div(self, other: Self) -> (r: Self) {
        self / other
    }

    fn neg(self) -> (r: Self) {
        0u128.wrapping_sub(self)
    }

    fn eq(self, other: Self) -> (r: bool) {
        self == other
    }

    fn zero() -> (r: Self) {
        0
    }

    fn abs(self) -> (r: Self) {
        self
    }

    fn sqrt(self) -> (r: Self) {
        isqrt_u128(self)
    }

    fn lt(self, other: Self) -> (r: bool) {
        self < other
    }

    proof fn lemma_add_zero(a: Self) {
    }

    proof fn lemma_sub_zero(a: Self) {
    }

    proof fn lemma_add_sub(a: Self, b: Self) {
    }

    proof fn lemma_mul_one(a: Self) {
        lemma_small_mod(a as nat, u128::MAX as nat + 1);
    }

    proof fn lemma_mul_zero(a: Self) {
        lemma_small_mod(0, u128::MAX as nat + 1);
    }

    proof fn lemma_div_one(a: Self) {
        lemma_div_basics(a as int);
    }
}

} // verus!
