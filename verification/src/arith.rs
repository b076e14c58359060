//! Integer arithmetic shared by the cost model: rounded division and
//! integer square roots.

use vstd::prelude::*;

verus! {

/// The quotient `a / b` rounded to the nearest integer, halves rounded up.
pub open spec fn round_div(a: nat, b: nat) -> nat
    recommends
        b > 0,
{
    (2 * a + b) / (2 * b)
}

/// `round_div(a, b)` is the one integer within half a unit of `a / b`.
pub proof fn lemma_round_div_nearest(a: nat, b: nat)
    requires
        b > 0,
    ensures
        2 * b * round_div(a, b) <= 2 * a + b < 2 * b * (round_div(a, b) + 1),
{
    let q = round_div(a, b);
    let d = 2 * b;
    let x = 2 * a + b;
    assert(x == d * (x / d) + x % d && 0 <= x % d < d) by {
        vstd::arithmetic::div_mod::lemma_fundamental_div_mod(x as int, d as int);
        vstd::arithmetic::div_mod::lemma_mod_bound(x as int, d as int);
    }
    assert(d * (q + 1) == d * q + d) by (nonlinear_arith);
}

/// A rounded quotient never exceeds its numerator.
pub proof fn lemma_round_div_le(a: nat, b: nat)
    requires
        b > 0,
    ensures
        round_div(a, b) <= a,
{
    lemma_round_div_nearest(a, b);
    let q = round_div(a, b);
    if q > a {
        assert(2 * b * q >= 2 * b * (a + 1)) by (nonlinear_arith)
            requires
                q >= a + 1,
                b > 0,
        ;
        assert(2 * b * (a + 1) >= 2 * a + 2 * b) by (nonlinear_arith)
            requires
                b > 0,
        ;
    }
}

/// A rounded quotient of at most `k * b` by `b` is at most `k`.
pub proof fn lemma_round_div_bounded(a: nat, b: nat, k: nat)
    requires
        b > 0,
        a <= k * b,
    ensures
        round_div(a, b) <= k,
{
    lemma_round_div_nearest(a, b);
    let q = round_div(a, b);
    if q > k {
        assert(2 * b * q >= 2 * b * (k + 1)) by (nonlinear_arith)
            requires
                q >= k + 1,
                b > 0,
        ;
        assert(2 * b * (k + 1) == 2 * (k * b) + 2 * b) by (nonlinear_arith);
    }
}

/// Computes `a / b` rounded to the nearest integer, halves rounded up.
pub fn rounded_quotient(a: u128, b: u128) -> (r: u128)
    requires
        b > 0,
        2 * a + 2 * b <= u128::MAX,
    ensures
        r == round_div(a as nat, b as nat),
{
    (2 * a + b) / (2 * b)
}

/// `r` is the square root of `x` rounded down.
pub open spec fn is_floor_sqrt(x: nat, r: nat) -> bool {
    r * r <= x < (r + 1) * (r + 1)
}

/// The square root of `x` rounded down.
pub open spec fn floor_sqrt(x: nat) -> nat {
    choose|r: nat| is_floor_sqrt(x, r)
}

/// Zero is its own square root.
pub proof fn lemma_floor_sqrt_zero()
    ensures
        is_floor_sqrt(0, 0),
        floor_sqrt(0) == 0,
{
    let z: nat = 0;
    assert(z * z == 0 && (z + 1) * (z + 1) == 1) by (nonlinear_arith)
        requires
            z == 0,
    ;
    assert(is_floor_sqrt(0, z));
    lemma_floor_sqrt_unique(0, 0);
}

/// Squaring is monotone on the naturals.
pub proof fn lemma_square_monotone(a: nat, b: nat)
    requires
        a <= b,
    ensures
        a * a <= b * b,
{
    assert(a * a <= b * b) by (nonlinear_arith)
        requires
            a <= b,
    ;
}

/// There is exactly one rounded-down square root.
pub proof fn lemma_floor_sqrt_unique(x: nat, r: nat)
    requires
        is_floor_sqrt(x, r),
    ensures
        floor_sqrt(x) == r,
{
    let s = floor_sqrt(x);
    assert(is_floor_sqrt(x, s));
    if s < r {
        lemma_square_monotone(s + 1, r);
    }
    if r < s {
        lemma_square_monotone(r + 1, s);
    }
}

/// A root is at most `b` when its argument is at most `b * b`.
pub proof fn lemma_floor_sqrt_bound(x: nat, b: nat)
    requires
        is_floor_sqrt(x, floor_sqrt(x)),
        x <= b * b,
    ensures
        floor_sqrt(x) <= b,
{
    let s = floor_sqrt(x);
    if s > b {
        lemma_square_monotone(b + 1, s);
        assert((b + 1) * (b + 1) > b * b) by (nonlinear_arith);
    }
}

/// Computes the square root of `x` rounded down, by bisection.
pub fn isqrt(x: u64) -> (r: u64)
    ensures
        is_floor_sqrt(x as nat, r as nat),
        r as nat == floor_sqrt(x as nat),
        r < 0x1_0000_0000,
{
    let mut lo: u64 = 0;
    let mut hi: u64 = 0x1_0000_0000;
    assert(0x1_0000_0000 * 0x1_0000_0000 > x) by (nonlinear_arith)
        requires
            x <= u64::MAX,
    ;
    while hi - lo > 1
        invariant
            lo < hi <= 0x1_0000_0000,
            lo * lo <= x < hi * hi,
        decreases hi - lo,
    {
        let mid: u64 = lo + (hi - lo) / 2;
        assert(mid * mid <= 0xffff_ffff * 0xffff_ffff) by (nonlinear_arith)
            requires
                0 <= mid <= 0xffff_ffff,
        ;
        if mid * mid <= x {
            lo = mid;
        } else {
            hi = mid;
        }
    }
    proof {
        assert(hi == lo + 1);
        lemma_floor_sqrt_unique(x as nat, lo as nat);
    }
    lo
}

} // verus!
