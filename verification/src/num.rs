//! Exact integer division with the roundings the pipeline uses.
use vstd::prelude::*;

verus! {

/// `num / den` rounded to nearest, ties away from zero.
pub open spec fn nearest(num: int, den: int) -> int
    recommends
        den > 0,
{
    if num >= 0 {
        (2 * num + den) / (2 * den)
    } else {
        -((2 * (-num) + den) / (2 * den))
    }
}

/// `num / den` rounded to nearest, ties away from zero, for a denominator of
/// either sign.
pub open spec fn nearest_signed(num: int, den: int) -> int
    recommends
        den != 0,
{
    if den > 0 {
        nearest(num, den)
    } else {
        nearest(-num, -den)
    }
}

/// `num / den` rounded to nearest, ties away from zero.
pub fn div_round_nearest(num: i128, den: i128) -> (q: i128)
    requires
        den != 0,
        num != i128::MIN,
        den != i128::MIN,
    ensures
        q == nearest_signed(num as int, den as int),
{
    let n: u128 = if num < 0 {
        (-num) as u128
    } else {
        num as u128
    };
    let d: u128 = if den < 0 {
        (-den) as u128
    } else {
        den as u128
    };
    let t: u128 = n / d;
    let r: u128 = n % d;
    let up = 2 * r >= d;
    let m: u128 = if up {
        t + 1
    } else {
        t
    };
    proof {
        lemma_nearest(n as int, d as int, t as int, r as int);
    }
    if (num < 0) == (den < 0) {
        m as i128
    } else {
        -(m as i128)
    }
}

proof fn lemma_nearest(n: int, d: int, t: int, r: int)
    requires
        n >= 0,
        d > 0,
        t == n / d,
        r == n % d,
    ensures
        nearest(n, d) == if 2 * r >= d {
            t + 1
        } else {
            t
        },
        0 <= nearest(n, d) <= n,
{
    vstd::arithmetic::div_mod::lemma_fundamental_div_mod(n, d);
    assert(n == d * t + r);
    assert(0 <= r < d);
    assert(0 <= t && d * t >= t) by (nonlinear_arith)
        requires
            n >= 0,
            d > 0,
            t == n / d,
    ;
    if 2 * r >= d {
        assert((2 * n + d) / (2 * d) == t + 1) by (nonlinear_arith)
            requires
                n == d * t + r,
                d > 0,
                0 <= r < d,
                2 * r >= d,
        ;
    } else {
        assert((2 * n + d) / (2 * d) == t) by (nonlinear_arith)
            requires
                n == d * t + r,
                d > 0,
                0 <= r < d,
                2 * r < d,
        ;
    }
}

/// Rounding treats both signs alike.
pub proof fn nearest_is_symmetric(num: int, den: int)
    requires
        den > 0,
    ensures
        nearest(-num, den) == -nearest(num, den),
{
    if num == 0 {
        assert(den / (2 * den) == 0) by (nonlinear_arith)
            requires
                den > 0,
        ;
    }
}

/// The rounded quotient is at most half a step off.
pub proof fn nearest_is_close(num: int, den: int)
    requires
        den > 0,
    ensures
        -den <= 2 * (num - den * nearest(num, den)) <= den,
{
    let n = if num >= 0 {
        num
    } else {
        -num
    };
    let q = (2 * n + den) / (2 * den);
    vstd::arithmetic::div_mod::lemma_fundamental_div_mod(2 * n + den, 2 * den);
    assert((2 * den) * q == 2 * (den * q)) by (nonlinear_arith);
    assert(den * (-q) == -(den * q)) by (nonlinear_arith);
}

/// Rounding to nearest is monotone and fixes integers, so a mean stays within
/// the bounds of what it averages.
pub proof fn lemma_nearest_bounds(num: int, den: int, lo: int, hi: int)
    requires
        den > 0,
        lo * den <= num <= hi * den,
    ensures
        lo <= nearest(num, den) <= hi,
{
    nearest_is_close(num, den);
    let q = nearest(num, den);
    assert(lo <= q) by (nonlinear_arith)
        requires
            den > 0,
            lo * den <= num,
            2 * (num - den * q) <= den,
    ;
    assert(q <= hi) by (nonlinear_arith)
        requires
            den > 0,
            num <= hi * den,
            -den <= 2 * (num - den * q),
    ;
}

// ---------------------------------------------------------------------------
// Square roots
// ---------------------------------------------------------------------------

/// `r` is the square root of `n`, rounded down.
pub open spec fn is_floor_root(r: int, n: int) -> bool {
    0 <= r && r * r <= n < (r + 1) * (r + 1)
}

/// `r` is the square root of `n`, rounded up.
pub open spec fn is_ceil_root(r: int, n: int) -> bool {
    0 <= r && n <= r * r && (r > 0 ==> (r - 1) * (r - 1) < n)
}

/// `r` is the integer nearest to the square root of `n`. Halfway cases do not
/// occur.
pub open spec fn is_nearest_root(r: int, n: int) -> bool {
    0 <= r && n <= r * r + r && (r > 0 ==> r * r - r < n)
}

/// The square root of `n`, rounded down.
pub fn floor_sqrt(n: u128) -> (r: u128)
    ensures
        is_floor_root(r as int, n as int),
        r < 0x1_0000_0000_0000_0000,
{
    let mut lo: u128 = 0;
    let mut hi: u128 = 0x1_0000_0000_0000_0000;
    assert(n < hi * hi) by (nonlinear_arith)
        requires
            n <= 0xffff_ffff_ffff_ffff_ffff_ffff_ffff_ffff,
            hi == 0x1_0000_0000_0000_0000,
    ;
    while hi - lo > 1
        invariant
            0 <= lo < hi <= 0x1_0000_0000_0000_0000,
            lo * lo <= n < hi * hi,
        decreases hi - lo,
    {
        let mid: u128 = lo + (hi - lo) / 2;
        assert(0 <= mid * mid <= 0xffff_ffff_ffff_ffff * 0xffff_ffff_ffff_ffff) by (nonlinear_arith)
            requires
                0 <= mid <= 0xffff_ffff_ffff_ffff,
        ;
        if mid * mid <= n {
            lo = mid;
        } else {
            hi = mid;
        }
    }
    lo
}

/// The square root of `n`, rounded up.
pub fn ceil_sqrt(n: u128) -> (r: u128)
    ensures
        is_ceil_root(r as int, n as int),
        r <= 0x1_0000_0000_0000_0000,
{
    let r: u128 = floor_sqrt(n);
    assert(0 <= r * r <= n);
    if r * r == n {
        proof {
            assert(r > 0 ==> (r - 1) * (r - 1) < r * r) by (nonlinear_arith);
        }
        r
    } else {
        r + 1
    }
}

/// The integer nearest to the square root of `n`.
pub fn nearest_sqrt(n: u128) -> (r: u128)
    ensures
        is_nearest_root(r as int, n as int),
        r <= 0x1_0000_0000_0000_0000,
{
    let r: u128 = floor_sqrt(n);
    assert(0 <= r * r <= n);
    let rest: u128 = n - r * r;
    proof {
        assert((r + 1) * (r + 1) == r * r + 2 * r + 1) by (nonlinear_arith);
        assert((r + 1) * (r + 1) + (r + 1) >= (r + 1) * (r + 1)) by (nonlinear_arith)
            requires
                r >= 0,
        ;
    }
    if rest > r {
        r + 1
    } else {
        r
    }
}

/// Halves are rounded away from zero.
pub proof fn nearest_rounds_halves_away(num: int, den: int)
    requires
        den > 0,
    ensures
        num >= 0 ==> -den <= 2 * (num - den * nearest(num, den)) < den,
        num <= 0 ==> -den < 2 * (num - den * nearest(num, den)) <= den,
{
    let n = if num >= 0 {
        num
    } else {
        -num
    };
    let q = (2 * n + den) / (2 * den);
    vstd::arithmetic::div_mod::lemma_fundamental_div_mod(2 * n + den, 2 * den);
    assert((2 * den) * q == 2 * (den * q)) by (nonlinear_arith);
    assert(den * (-q) == -(den * q)) by (nonlinear_arith);
    if num == 0 {
        assert(q == 0) by (nonlinear_arith)
            requires
                q == den / (2 * den),
                den > 0,
        ;
        assert(den * 0 == 0);
    }
}

/// The rounded roots of a number lie where they are said to: the first below it,
/// the second above it, the third no farther from it than half.
pub proof fn roots_lie_about_the_number(r: int, n: int)
    ensures
        is_floor_root(r, n) <==> 0 <= r && r * r <= n < (r + 1) * (r + 1),
        is_ceil_root(r, n) && r > 0 ==> (r - 1) * (r - 1) < n <= r * r,
        is_nearest_root(r, n) ==> 4 * n < (2 * r + 1) * (2 * r + 1),
        is_nearest_root(r, n) && r > 0 ==> (2 * r - 1) * (2 * r - 1) < 4 * n,
{
    assert((2 * r + 1) * (2 * r + 1) == 4 * (r * r + r) + 1) by (nonlinear_arith);
    assert((2 * r - 1) * (2 * r - 1) == 4 * (r * r - r) + 1) by (nonlinear_arith);
}

} // verus!
