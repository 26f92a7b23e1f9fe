//! Integer arithmetic that the standard operators do not offer.

use vstd::arithmetic::div_mod::*;
use vstd::prelude::*;

verus! {

/// The smaller of two integers.
pub open spec fn imin(a: int, b: int) -> int {
    if a <= b {
        a
    } else {
        b
    }
}

/// The larger of two integers.
pub open spec fn imax(a: int, b: int) -> int {
    if a >= b {
        a
    } else {
        b
    }
}

/// `a / b`, rounded up.
pub open spec fn ceil_div(a: int, b: int) -> int {
    if a % b == 0 {
        a / b
    } else {
        a / b + 1
    }
}

/// The product of two machine words fits a double word.
pub proof fn lemma_product_fits(a: u64, b: u64)
    ensures
        0 <= a * b <= 0xffff_ffff_ffff_ffff * 0xffff_ffff_ffff_ffff,
        0xffff_ffff_ffff_ffff * 0xffff_ffff_ffff_ffff <= u128::MAX,
{
    assert(0 <= a * b <= 0xffff_ffff_ffff_ffff * 0xffff_ffff_ffff_ffff) by (nonlinear_arith)
        requires
            0 <= a <= 0xffff_ffff_ffff_ffff,
            0 <= b <= 0xffff_ffff_ffff_ffff,
    ;
}

/// The product of two machine words, held exactly.
pub fn wide_mul(a: u64, b: u64) -> (out: u128)
    ensures
        out == a * b,
{
    proof {
        lemma_product_fits(a, b);
    }
    (a as u128) * (b as u128)
}

/// The product, held down to the largest `u64`.
pub fn saturating_product(a: u64, b: u64) -> (out: u64)
    ensures
        out == imin(a * b, u64::MAX as int),
{
    let wide: u128 = wide_mul(a, b);
    if wide > 0xffff_ffff_ffff_ffff {
        0xffff_ffff_ffff_ffff
    } else {
        wide as u64
    }
}

/// The quotient, rounded up.
pub fn div_ceil(a: u64, b: u64) -> (out: u64)
    requires
        b > 0,
    ensures
        out == ceil_div(a as int, b as int),
{
    let q: u64 = a / b;
    if a % b == 0 {
        q
    } else {
        proof {
            lemma_fundamental_div_mod(a as int, b as int);
            if b == 1 {
                assert(a as int % 1 == 0);
            }
            assert(q < a) by (nonlinear_arith)
                requires
                    b >= 2,
                    a == b * q + a as int % b as int,
                    a as int % b as int >= 1,
                    q >= 0,
            ;
        }
        q + 1
    }
}

} // verus!
