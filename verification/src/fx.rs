//! Saturating fixed-point arithmetic over unsigned integers.
//!
//! A raw feature weight is a `u64` carrying [`FX_ONE`] per unit; a similarity
//! score carries [`FX_ONE32`] per unit.  Every operation either is exact or
//! saturates at `u64::MAX`, and its result is pinned exactly by [`sat64`]
//! over the mathematical integers.

use vstd::prelude::*;

verus! {

/// One unit in the weight scale (2^16).
pub const FX_ONE: u64 = 65536;

/// One unit in the similarity scale (2^32).
pub const FX_ONE32: u64 = 4294967296;

/// Clamp a non-negative mathematical integer into the `u64` range.
pub open spec fn sat64(x: int) -> int {
    if x > u64::MAX as int {
        u64::MAX as int
    } else {
        x
    }
}

/// Saturating addition.
pub fn add_sat(a: u64, b: u64) -> (r: u64)
    ensures
        r as int == sat64(a as int + b as int),
{
    if a > u64::MAX - b {
        u64::MAX
    } else {
        a + b
    }
}

/// `a * b / c`, exact over the integers, saturated at `u64::MAX`.
pub fn mul_div(a: u64, b: u64, c: u64) -> (r: u64)
    requires
        c > 0,
    ensures
        r as int == sat64(a as int * b as int / c as int),
{
    proof {
        assert((a as int) * (b as int) <= u128::MAX as int) by (nonlinear_arith)
            requires
                a <= u64::MAX,
                b <= u64::MAX,
        ;
        assert((a as int) * (b as int) >= 0) by (nonlinear_arith)
            requires
                a >= 0,
                b >= 0,
        ;
    }
    let p: u128 = (a as u128) * (b as u128) / (c as u128);
    proof {
        assert(p as int == (a as int) * (b as int) / (c as int));
    }
    if p > u64::MAX as u128 {
        u64::MAX
    } else {
        p as u64
    }
}

/// Whether `r` is the floor of the square root of `n`.
pub open spec fn is_sqrt_floor(n: int, r: int) -> bool {
    0 <= r && r * r <= n && n < (r + 1) * (r + 1)
}

/// The floor of the square root of `n`.
pub open spec fn sqrt_floor(n: int) -> int {
    choose|r: int| is_sqrt_floor(n, r)
}

/// The floor of the square root is unique.
pub proof fn lemma_sqrt_floor_unique(n: int, r: int)
    requires
        is_sqrt_floor(n, r),
    ensures
        sqrt_floor(n) == r,
{
    let r2 = choose|r2: int| is_sqrt_floor(n, r2);
    assert(is_sqrt_floor(n, r2));
    assert(r2 == r) by (nonlinear_arith)
        requires
            0 <= r,
            r * r <= n,
            n < (r + 1) * (r + 1),
            0 <= r2,
            r2 * r2 <= n,
            n < (r2 + 1) * (r2 + 1),
    ;
}

/// Any value whose square is at most `n` is at most the square root of `n`.
pub proof fn lemma_sqrt_floor_lower(n: int, w: int, r: int)
    requires
        is_sqrt_floor(n, r),
        0 <= w,
        w * w <= n,
    ensures
        w <= r,
{
    assert(w <= r) by (nonlinear_arith)
        requires
            0 <= w,
            w * w <= n,
            0 <= r,
            n < (r + 1) * (r + 1),
    ;
}

/// The integer square root: the greatest `r` with `r * r <= n`.
pub fn isqrt128(n: u128) -> (r: u64)
    ensures
        (r as int) * (r as int) <= n as int,
        (n as int) < (r as int + 1) * (r as int + 1),
        r as int == sqrt_floor(n as int),
{
    let mut lo: u128 = 0;
    let mut hi: u128 = if n > u64::MAX as u128 {
        u64::MAX as u128
    } else {
        n
    };
    proof {
        assert((hi as int + 1) * (hi as int + 1) > (n as int)) by (nonlinear_arith)
            requires
                hi as int == if n > u64::MAX as int { u64::MAX as int } else { n as int },
                n <= u128::MAX,
        ;
    }
    while lo < hi
        invariant
            lo <= hi <= u64::MAX,
            (lo as int) * (lo as int) <= n as int,
            (n as int) < (hi as int + 1) * (hi as int + 1),
        decreases hi - lo,
    {
        let mid: u128 = lo + (hi - lo + 1) / 2;
        proof {
            assert((mid as int) * (mid as int) <= u128::MAX as int) by (nonlinear_arith)
                requires
                    0 <= mid <= u64::MAX,
            ;
        }
        if mid * mid <= n {
            lo = mid;
        } else {
            hi = mid - 1;
        }
    }
    proof {
        lemma_sqrt_floor_unique(n as int, lo as int);
    }
    lo as u64
}

/// The saturating fixed-point power: `exp` factors of `base`, in the scale
/// where `one` is the unit.
pub open spec fn spec_fx_pow(base: u64, exp: nat, one: u64) -> int
    decreases exp,
{
    if exp == 0 {
        one as int
    } else {
        sat64(base as int * spec_fx_pow(base, (exp - 1) as nat, one) / one as int)
    }
}

/// `spec_fx_pow` stays within the `u64` range.
pub proof fn lemma_fx_pow_range(base: u64, exp: nat, one: u64)
    requires
        one > 0,
    ensures
        0 <= spec_fx_pow(base, exp, one) <= u64::MAX,
    decreases exp,
{
    if exp > 0 {
        lemma_fx_pow_range(base, (exp - 1) as nat, one);
        let prev = spec_fx_pow(base, (exp - 1) as nat, one);
        assert(base as int * prev >= 0) by (nonlinear_arith)
            requires
                base >= 0,
                prev >= 0,
        ;
        assert(base as int * prev / one as int >= 0) by (nonlinear_arith)
            requires
                base as int * prev >= 0,
                one > 0,
        ;
    }
}

/// Raise a fixed-point value to a non-negative integer power, saturating.
pub fn fx_pow(base: u64, exp: u32, one: u64) -> (r: u64)
    requires
        one > 0,
    ensures
        r as int == spec_fx_pow(base, exp as nat, one),
{
    let mut r: u64 = one;
    let mut i: u32 = 0;
    while i < exp
        invariant
            one > 0,
            i <= exp,
            r as int == spec_fx_pow(base, i as nat, one),
        decreases exp - i,
    {
        proof {
            lemma_fx_pow_range(base, i as nat, one);
        }
        r = mul_div(base, r, one);
        i = i + 1;
    }
    r
}

} // verus!
