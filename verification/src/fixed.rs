//! Integer arithmetic on thousandths: rounded division and square roots.

use vstd::prelude::*;

verus! {

/// How many thousandths make one unit.
pub const UNIT: i64 = 1000;

/// The square of [`UNIT`]: the divisor after two fixed-point factors.
pub const UNIT_SQUARED: i64 = 1_000_000;

/// The quotient of `a` by a positive `b`, rounded toward zero.
pub open spec fn div_toward_zero(a: int, b: int) -> int
    recommends
        b > 0,
{
    if a >= 0 {
        a / b
    } else {
        -((-a) / b)
    }
}

/// The quotient of `a` by a positive `b`, rounded away from zero.
pub open spec fn div_away_from_zero(a: int, b: int) -> int
    recommends
        b > 0,
{
    if a >= 0 {
        (a + b - 1) / b
    } else {
        -((-a + b - 1) / b)
    }
}

/// The absolute value of `a`.
pub open spec fn magnitude(a: int) -> int {
    if a >= 0 {
        a
    } else {
        -a
    }
}

/// Rounding toward zero divides the magnitude and keeps the sign.
pub proof fn lemma_div_toward_zero(a: int, b: int)
    requires
        b > 0,
    ensures
        magnitude(div_toward_zero(a, b)) == magnitude(a) / b,
        a >= 0 ==> div_toward_zero(a, b) >= 0,
        a <= 0 ==> div_toward_zero(a, b) <= 0,
{
    let m: int = magnitude(a);
    assert(m / b >= 0) by (nonlinear_arith)
        requires
            m >= 0,
            b > 0,
    ;
    assert(0int / b == 0) by (nonlinear_arith)
        requires
            b > 0,
    ;
}

/// Whether `r` is the integer part of the square root of `n`.
pub open spec fn is_floor_sqrt(n: nat, r: nat) -> bool {
    r * r <= n < (r + 1) * (r + 1)
}

/// The integer part of the square root of `n`.
pub open spec fn floor_sqrt(n: nat) -> nat {
    choose|r: nat| is_floor_sqrt(n, r)
}

/// The least natural number whose square is at least `n`.
pub open spec fn ceil_sqrt(n: nat) -> nat {
    let r = floor_sqrt(n);
    if r * r == n {
        r
    } else {
        r + 1
    }
}

proof fn lemma_floor_sqrt_witness(n: nat) -> (r: nat)
    ensures
        is_floor_sqrt(n, r),
    decreases n,
{
    if n == 0 {
        assert(is_floor_sqrt(0, 0)) by (nonlinear_arith);
        0
    } else {
        let p: nat = lemma_floor_sqrt_witness((n - 1) as nat);
        let q: nat = p + 1;
        if q * q <= n {
            assert((q + 1) * (q + 1) == q * q + 2 * q + 1) by (nonlinear_arith);
            q
        } else {
            p
        }
    }
}

/// Squaring keeps the order of natural numbers.
pub proof fn lemma_square_le(a: int, b: int)
    requires
        0 <= a <= b,
    ensures
        a * a <= b * b,
{
    assert(a * a <= b * b) by (nonlinear_arith)
        requires
            0 <= a <= b,
    ;
}

/// Squaring keeps the strict order of natural numbers.
pub proof fn lemma_square_lt(a: int, b: int)
    requires
        0 <= a < b,
    ensures
        a * a < b * b,
{
    assert(a * a < b * b) by (nonlinear_arith)
        requires
            0 <= a < b,
    ;
}

/// Every natural number has exactly one integer square root.
pub proof fn lemma_floor_sqrt_unique(n: nat, a: nat, b: nat)
    requires
        is_floor_sqrt(n, a),
        is_floor_sqrt(n, b),
    ensures
        a == b,
{
    if a < b {
        lemma_square_le((a + 1) as int, b as int);
    } else if b < a {
        lemma_square_le((b + 1) as int, a as int);
    }
}

/// `floor_sqrt(n)` squared is at most `n`, and the next square is above `n`.
pub proof fn lemma_floor_sqrt(n: nat)
    ensures
        is_floor_sqrt(n, floor_sqrt(n)),
{
    let r = lemma_floor_sqrt_witness(n);
}

/// A number that brackets `n` between its square and the next is the root.
pub proof fn lemma_floor_sqrt_is(n: nat, r: nat)
    requires
        is_floor_sqrt(n, r),
    ensures
        floor_sqrt(n) == r,
{
    lemma_floor_sqrt(n);
    lemma_floor_sqrt_unique(n, r, floor_sqrt(n));
}

/// `ceil_sqrt(n)` squared is at least `n`, and it exceeds the integer root
/// by at most one.
pub proof fn lemma_ceil_sqrt(n: nat)
    ensures
        n <= ceil_sqrt(n) * ceil_sqrt(n),
        floor_sqrt(n) <= ceil_sqrt(n) <= floor_sqrt(n) + 1,
        n > 0 ==> ceil_sqrt(n) > 0,
        n > 0 ==> (ceil_sqrt(n) - 1) * (ceil_sqrt(n) - 1) < n,
{
    lemma_floor_sqrt(n);
    let r = floor_sqrt(n);
    if r * r == n && n > 0 {
        assert(r > 0) by (nonlinear_arith)
            requires
                r * r == n,
                n > 0,
        ;
        lemma_square_lt(r - 1, r as int);
    }
}

/// The integer part of the square root of `n`.
pub fn isqrt(n: u128) -> (r: u64)
    ensures
        r == floor_sqrt(n as nat),
{
    let mut lo: u128 = 0;
    let mut hi: u128 = 0x1_0000_0000_0000_0000;
    while hi - lo > 1
        invariant
            lo < hi <= 0x1_0000_0000_0000_0000,
            lo * lo <= n,
            n < hi * hi,
        decreases hi - lo,
    {
        let mid: u128 = lo + (hi - lo) / 2;
        assert(mid * mid <= 0xffff_ffff_ffff_ffff * 0xffff_ffff_ffff_ffff) by (nonlinear_arith)
            requires
                0 <= mid <= 0xffff_ffff_ffff_ffff,
        ;
        if mid * mid <= n {
            lo = mid;
        } else {
            hi = mid;
        }
    }
    proof {
        lemma_floor_sqrt_is(n as nat, lo as nat);
    }
    lo as u64
}

/// The least number whose square is at least `n`.
pub fn isqrt_ceil(n: u128) -> (r: u128)
    ensures
        r == ceil_sqrt(n as nat),
        r <= 0x1_0000_0000_0000_0000,
{
    let root: u64 = isqrt(n);
    let low: u128 = root as u128;
    assert(low * low <= n) by {
        lemma_floor_sqrt(n as nat);
    }
    if low * low == n {
        low
    } else {
        low + 1
    }
}

/// `a / b` rounded toward zero.
pub fn div_inward(a: i128, b: i128) -> (q: i128)
    requires
        b > 0,
    ensures
        q == div_toward_zero(a as int, b as int),
{
    a / b
}

/// `a / b` rounded away from zero.
pub fn div_outward(a: i128, b: i128) -> (q: i128)
    requires
        b > 0,
        magnitude(a as int) + b <= i128::MAX,
    ensures
        q == div_away_from_zero(a as int, b as int),
{
    if a >= 0 {
        (a + b - 1) / b
    } else {
        -((-a + b - 1) / b)
    }
}

} // verus!
