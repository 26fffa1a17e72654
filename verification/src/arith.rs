//! Arithmetic that stops at the largest number instead of overflowing.
use vstd::prelude::*;

verus! {

/// The smaller of `x` and `limit`.
pub open spec fn capped(x: int, limit: int) -> int {
    if x <= limit {
        x
    } else {
        limit
    }
}

/// The product, or the largest `usize`.
pub fn saturating_mul_usize(a: usize, b: usize) -> (r: usize)
    ensures
        r == capped(a * b, usize::MAX as int),
{
    match a.checked_mul(b) {
        Some(p) => p,
        None => usize::MAX,
    }
}

/// The product, or the largest `u64`.
pub fn saturating_mul_u64(a: u64, b: u64) -> (r: u64)
    ensures
        r == capped(a * b, u64::MAX as int),
{
    match a.checked_mul(b) {
        Some(p) => p,
        None => u64::MAX,
    }
}

/// `a / b` rounded up.
pub open spec fn ceil_div(a: int, b: int) -> int {
    if a % b == 0 {
        a / b
    } else {
        a / b + 1
    }
}

/// `a / b` rounded up.
pub fn div_ceil_usize(a: usize, b: usize) -> (r: usize)
    requires
        b > 0,
    ensures
        r == ceil_div(a as int, b as int),
{
    let q: usize = a / b;
    if a % b == 0 {
        q
    } else {
        assert(q < usize::MAX) by {
            if b == 1 {
                assert(a % 1 == 0);
            } else {
                assert(a / b <= a / 2) by (nonlinear_arith)
                    requires
                        b >= 2,
                        a >= 0,
                ;
            }
        }
        q + 1
    }
}

} // verus!
