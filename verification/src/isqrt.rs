use vstd::prelude::*;
use vstd::arithmetic::mul::lemma_mul_inequality;

verus! {

/// The integer square root: the largest natural number whose square does not
/// exceed `n`. The integer scalar types use it to implement the capability's
/// square root.
pub open spec fn nat_sqrt(n: nat) -> nat
    decreases n,
{
    if n == 0 {
        0
    } else {
        let r = nat_sqrt((n - 1) as nat);
        if (r + 1) * (r + 1) <= n {
            r + 1
        } else {
            r
        }
    }
}

/// `nat_sqrt(n)` is the floor of the square root of `n`.
pub proof fn lemma_nat_sqrt_bounds(n: nat)
    ensures
        nat_sqrt(n) * nat_sqrt(n) <= n,
        n < (nat_sqrt(n) + 1) * (nat_sqrt(n) + 1),
    decreases n,
{
    if n > 0 {
        let m = (n - 1) as nat;
        lemma_nat_sqrt_bounds(m);
        let r = nat_sqrt(m);
        assert(r * r <= m && m < (r + 1) * (r + 1));
        if (r + 1) * (r + 1) <= n {
            assert(nat_sqrt(n) == r + 1);
            assert(n <= (r + 1) * (r + 1));
            assert((r + 1) * (r + 1) < (r + 2) * (r + 2)) by (nonlinear_arith);
            assert(nat_sqrt(n) * nat_sqrt(n) <= n);
            assert(n < (nat_sqrt(n) + 1) * (nat_sqrt(n) + 1));
        } else {
            assert(nat_sqrt(n) == r);
            assert(nat_sqrt(n) * nat_sqrt(n) <= n);
            assert(n < (nat_sqrt(n) + 1) * (nat_sqrt(n) + 1));
        }
    } else {
        assert(nat_sqrt(n) == 0);
        assert(nat_sqrt(n) * nat_sqrt(n) <= n);
        assert((nat_sqrt(n) + 1) * (nat_sqrt(n) + 1) == 1) by (nonlinear_arith)
            requires nat_sqrt(n) == 0;
        assert(n < (nat_sqrt(n) + 1) * (nat_sqrt(n) + 1));
    }
}

/// Any natural number whose square window contains `n` is `nat_sqrt(n)`.
pub proof fn lemma_nat_sqrt_unique(n: nat, s: nat)
    requires
        s * s <= n,
        n < (s + 1) * (s + 1),
    ensures
        s == nat_sqrt(n),
{
    let r = nat_sqrt(n);
    lemma_nat_sqrt_bounds(n);
    if s < r {
        lemma_mul_inequality(s as int + 1, r as int, s as int + 1);
        lemma_mul_inequality(s as int + 1, r as int, r as int);
    }
    if r < s {
        lemma_mul_inequality(r as int + 1, s as int, r as int + 1);
        lemma_mul_inequality(r as int + 1, s as int, s as int);
    }
}

/// Binary search for the integer square root of a 64-bit value.
pub fn isqrt_u64(n: u64) -> (r: u64)
    ensures
        r == nat_sqrt(n as nat),
{
    let mut lo: u64 = 0;
    let mut hi: u64 = 4294967296;
    assert((n as int) < (hi as int) * (hi as int)) by (nonlinear_arith)
        requires n <= 0xffff_ffff_ffff_ffff && hi == 4294967296;
    while lo + 1 < hi
        invariant
            lo < hi <= 4294967296,
            (lo as int) * (lo as int) <= n as int,
            (n as int) < (hi as int) * (hi as int),
        decreases hi - lo,
    {
        let mid: u64 = lo + (hi - lo) / 2;
        assert((mid as int) * (mid as int) <= 0x1_0000_0000_0000_0000) by (nonlinear_arith)
            requires mid <= 0x1_0000_0000;
        if (mid as u128) * (mid as u128) <= n as u128 {
            lo = mid;
        } else {
            hi = mid;
        }
    }
    proof {
        lemma_nat_sqrt_unique(n as nat, lo as nat);
    }
    lo
}

/// Binary search for the integer square root of a 128-bit value; the
/// midpoint stays below two to the sixty-fourth, so its square fits.
pub fn isqrt_u128(n: u128) -> (r: u128)
    ensures
        r == nat_sqrt(n as nat),
{
    let mut lo: u128 = 0;
    let mut hi: u128 = 0x1_0000_0000_0000_0000;
    assert((n as int) < (hi as int) * (hi as int)) by (nonlinear_arith)
        requires
            n <= 0xffff_ffff_ffff_ffff_ffff_ffff_ffff_ffff
                && hi == 0x1_0000_0000_0000_0000;
    while lo + 1 < hi
        invariant
            lo < hi <= 0x1_0000_0000_0000_0000,
            (lo as int) * (lo as int) <= n as int,
            (n as int) < (hi as int) * (hi as int),
        decreases hi - lo,
    {
        let mid: u128 = lo + (hi - lo) / 2;
        assert((mid as int) * (mid as int)
            < 0x1_0000_0000_0000_0000_0000_0000_0000_0000) by (nonlinear_arith)
            requires mid < 0x1_0000_0000_0000_0000;
        if mid * mid <= n {
            lo = mid;
        } else {
            hi = mid;
        }
    }
    proof {
        lemma_nat_sqrt_unique(n as nat, lo as nat);
    }
    lo
}

} // verus!
