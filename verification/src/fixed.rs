//! Fixed-point arithmetic: sixteen fractional bits in a signed 32-bit word,
//! with wide intermediates and results that saturate.
use vstd::prelude::*;

verus! {

/// The fixed-point representation of one world unit.
pub const ONE: i32 = 65536;

/// The value nearest to `v` that a coordinate can hold.
pub open spec fn clamp_coord(v: int) -> i32 {
    if v < i32::MIN {
        i32::MIN
    } else if v > i32::MAX {
        i32::MAX
    } else {
        v as i32
    }
}

/// The quotient of `a` by `b`, rounded toward zero.
pub open spec fn div_trunc(a: int, b: int) -> int
    recommends
        b > 0,
{
    if a >= 0 {
        a / b
    } else {
        -((-a) / b)
    }
}

/// Whether `r` is the integer square root of `n`.
pub open spec fn is_sqrt(n: int, r: int) -> bool {
    0 <= r && r * r <= n < (r + 1) * (r + 1)
}

/// The largest integer whose square does not exceed `n`.
pub open spec fn sqrt_floor(n: int) -> int {
    choose|r: int| is_sqrt(n, r)
}

/// A number has at most one integer square root.
pub proof fn lemma_sqrt_unique(n: int, r: int, s: int)
    requires
        is_sqrt(n, r),
        is_sqrt(n, s),
    ensures
        r == s,
{
    if r < s {
        assert((r + 1) * (r + 1) <= s * s) by (nonlinear_arith)
            requires
                0 <= r,
                r + 1 <= s,
        ;
    }
    if s < r {
        assert((s + 1) * (s + 1) <= r * r) by (nonlinear_arith)
            requires
                0 <= s,
                s + 1 <= r,
        ;
    }
}

/// Every number that is not negative has an integer square root.
pub proof fn lemma_sqrt_exists(n: int)
    requires
        n >= 0,
    ensures
        is_sqrt(n, sqrt_floor(n)),
    decreases n,
{
    if n == 0 {
        assert(is_sqrt(0, 0));
    } else {
        lemma_sqrt_exists(n - 1);
        let r = sqrt_floor(n - 1);
        if (r + 1) * (r + 1) <= n {
            assert(is_sqrt(n, r + 1)) by (nonlinear_arith)
                requires
                    0 <= r,
                    n - 1 < (r + 1) * (r + 1),
                    (r + 1) * (r + 1) <= n,
            ;
        } else {
            assert(is_sqrt(n, r));
        }
    }
}

/// Rounding toward zero commutes with negation.
pub proof fn lemma_div_trunc_neg(n: int, d: int)
    requires
        d > 0,
    ensures
        div_trunc(-n, d) == -div_trunc(n, d),
{
    if n == 0 {
        assert(0int / d == 0) by (nonlinear_arith)
            requires
                d > 0,
        ;
    }
}

/// Brings a wide intermediate result back into the coordinate range.
pub fn saturate(v: i128) -> (r: i32)
    ensures
        r == clamp_coord(v as int),
{
    if v < -2147483648i128 {
        i32::MIN
    } else if v > 2147483647i128 {
        i32::MAX
    } else {
        v as i32
    }
}

/// Division rounded toward zero, on wide intermediates.
pub fn quotient(a: i128, b: i128) -> (q: i128)
    requires
        b > 0,
        a > i128::MIN,
    ensures
        q == div_trunc(a as int, b as int),
        a >= 0 ==> 0 <= q <= a,
        a <= 0 ==> a <= q <= 0,
{
    if a >= 0 {
        assert(0 <= a / b <= a) by (nonlinear_arith)
            requires
                a >= 0,
                b >= 1,
        ;
        a / b
    } else {
        let n: i128 = -a;
        assert(0 <= n / b <= n) by (nonlinear_arith)
            requires
                n >= 0,
                b >= 1,
        ;
        -(n / b)
    }
}

/// The integer square root, found by bisection.
pub fn isqrt(n: u64) -> (r: u64)
    ensures
        is_sqrt(n as int, r as int),
        r == sqrt_floor(n as int),
        r < 0x1_0000_0000,
{
    let mut lo: u64 = 0;
    let mut hi: u64 = 0x1_0000_0000;
    while hi - lo > 1
        invariant
            lo < hi <= 0x1_0000_0000,
            lo * lo <= n < hi * hi,
        decreases hi - lo,
    {
        let mid: u64 = lo + (hi - lo) / 2;
        assert(mid * mid < 0x1_0000_0000_0000_0000) by (nonlinear_arith)
            requires
                mid < 0x1_0000_0000,
        ;
        if mid * mid <= n {
            lo = mid;
        } else {
            hi = mid;
        }
    }
    proof {
        let witness = sqrt_floor(n as int);
        assert(is_sqrt(n as int, lo as int));
        lemma_sqrt_unique(n as int, lo as int, witness);
    }
    lo
}

} // verus!
