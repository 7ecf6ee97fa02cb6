//! Comparison of products that exceed the machine's widest integers.
use vstd::prelude::*;

verus! {

/// The product of two words as a high and a low word.
fn product(a: u128, b: u128) -> (r: (u128, u128))
    ensures
        r.0 * 0x1_0000_0000_0000_0000_0000_0000_0000_0000int + r.1 == a * b,
{
    let m: u128 = 0x1_0000_0000_0000_0000;
    let a1: u128 = a / m;
    let a0: u128 = a % m;
    let b1: u128 = b / m;
    let b0: u128 = b % m;
    proof {
        lemma_half(a0, b0);
        lemma_half(a0, b1);
        lemma_half(a1, b0);
        lemma_half(a1, b1);
    }
    let p00: u128 = a0 * b0;
    let p01: u128 = a0 * b1;
    let p10: u128 = a1 * b0;
    let p11: u128 = a1 * b1;
    let middle: u128 = p01 + p00 / m;
    let second: u128 = p10 + middle % m;
    let low: u128 = (second % m) * m + p00 % m;
    proof {
        let mi = m as int;
        assert(a * b == (a1 * mi + a0) * (b1 * mi + b0));
        assert((a1 * mi + a0) * (b1 * mi + b0) == (a1 * b1) * (mi * mi) + (a0 * b1 + a1 * b0) * mi
            + a0 * b0) by (nonlinear_arith);
        assert(mi * mi == 0x1_0000_0000_0000_0000_0000_0000_0000_0000int);
        let high = p11 + middle / m + second / m;
        assert(high * (mi * mi) + low == a * b) by (nonlinear_arith)
            requires
                mi == 0x1_0000_0000_0000_0000int,
                high == p11 + middle / m + second / m,
                low == (second % m) * mi + p00 % m,
                middle == p01 + p00 / m,
                second == p10 + middle % m,
                p00 == (p00 / m) * mi + p00 % m,
                middle == (middle / m) * mi + middle % m,
                second == (second / m) * mi + second % m,
                a * b == p11 * (mi * mi) + (p01 + p10) * mi + p00,
        ;
        assert(a * b <= u128::MAX * u128::MAX) by (nonlinear_arith)
            requires
                0 <= a <= u128::MAX,
                0 <= b <= u128::MAX,
        ;
        assert(high <= u128::MAX) by (nonlinear_arith)
            requires
                high * 0x1_0000_0000_0000_0000_0000_0000_0000_0000int <= u128::MAX * u128::MAX,
        ;
    }
    (p11 + middle / m + second / m, low)
}

proof fn lemma_half(a: u128, b: u128)
    requires
        a < 0x1_0000_0000_0000_0000,
        b < 0x1_0000_0000_0000_0000,
    ensures
        0 <= a * b <= 0xffff_ffff_ffff_ffff * 0xffff_ffff_ffff_ffff,
{
    assert(0 <= a * b <= 0xffff_ffff_ffff_ffff * 0xffff_ffff_ffff_ffff) by (nonlinear_arith)
        requires
            a < 0x1_0000_0000_0000_0000,
            b < 0x1_0000_0000_0000_0000,
    ;
}

/// Whether `a * b <= c * d`.
pub fn product_le(a: u128, b: u128, c: u128, d: u128) -> (r: bool)
    ensures
        r == (a * b <= c * d),
{
    let left = product(a, b);
    let right = product(c, d);
    left.0 < right.0 || (left.0 == right.0 && left.1 <= right.1)
}

} // verus!
