//! Small integer helpers shared by the geometry and physics modules:
//! floor division and remainder with a positive divisor, clamping, and an
//! integer square root.

use vstd::arithmetic::div_mod::*;
use vstd::arithmetic::mul::*;
use vstd::prelude::*;

verus! {

/// One simulation unit expressed in milli-units, the fixed-point scale used
/// for every scalar in this crate (positions, velocities, angles, trig values).
pub const MILLI: i64 = 1000;

/// Floor quotient and remainder for a positive divisor, matching the
/// mathematical `/` and `%` of specifications.
pub fn divmod_floor(a: i128, b: i128) -> (qr: (i128, i128))
    requires
        b > 0,
        a > i128::MIN,
    ensures
        qr.0 == a as int / b as int,
        qr.1 == a as int % b as int,
        0 <= qr.1 < b,
        a >= 0 ==> 0 <= qr.0 <= a,
        a < 0 ==> a <= qr.0 < 0,
{
    let ub = b as u128;
    if a >= 0 {
        let q0: u128 = (a as u128) / ub;
        let r0: u128 = (a as u128) % ub;
        proof {
            lemma_fundamental_div_mod(a as int, b as int);
            lemma_mul_is_commutative(b as int, q0 as int);
            lemma_fundamental_div_mod_converse(a as int, b as int, q0 as int, r0 as int);
            lemma_div_nonincreasing(a as int, b as int);
            lemma_div_pos_is_pos(a as int, b as int);
        }
        (q0 as i128, r0 as i128)
    } else {
        let na: u128 = (-a) as u128;
        let q0: u128 = na / ub;
        let r0: u128 = na % ub;
        proof {
            lemma_fundamental_div_mod(na as int, b as int);
            lemma_div_nonincreasing(na as int, b as int);
            lemma_div_pos_is_pos(na as int, b as int);
        }
        if r0 == 0 {
            proof {
                assert((-(q0 as int)) * (b as int) == -((q0 as int) * (b as int)))
                    by (nonlinear_arith);
                lemma_fundamental_div_mod_converse(a as int, b as int, -(q0 as int), 0);
                assert(q0 >= 1) by (nonlinear_arith)
                    requires
                        na as int == (b as int) * (q0 as int) + (r0 as int),
                        r0 == 0,
                        na >= 1,
                        b >= 1,
                        q0 >= 0,
                ;
            }
            (-(q0 as i128), 0)
        } else {
            proof {
                assert((-(q0 as int) - 1) * (b as int) == -((q0 as int) * (b as int)) - b)
                    by (nonlinear_arith);
                lemma_fundamental_div_mod_converse(
                    a as int,
                    b as int,
                    -(q0 as int) - 1,
                    b - r0,
                );
                assert(q0 as int <= na - 1) by (nonlinear_arith)
                    requires
                        na as int == (b as int) * (q0 as int) + (r0 as int),
                        r0 >= 1,
                        b >= 1,
                        q0 >= 0,
                ;
            }
            (-(q0 as i128) - 1, b - (r0 as i128))
        }
    }
}

/// Floor division (the mathematical quotient) for a positive divisor.
pub fn div_floor(a: i128, b: i128) -> (q: i128)
    requires
        b > 0,
        a > i128::MIN,
    ensures
        q == a as int / b as int,
        a >= 0 ==> 0 <= q <= a,
        a < 0 ==> a <= q < 0,
{
    divmod_floor(a, b).0
}

/// A product of bounded factors is bounded: `|x| <= bx` and `|y| <= by` give
/// `|x * y| <= bx * by`.
pub proof fn lemma_mul_bounds(x: int, y: int, bx: int, by: int)
    by (nonlinear_arith)
    requires
        0 <= bx,
        0 <= by,
        -bx <= x <= bx,
        -by <= y <= by,
    ensures
        -(bx * by) <= x * y <= bx * by,
{
}

/// Remainder paired with `div_floor`: always in `[0, b)` for `b > 0`.
pub fn rem_floor(a: i128, b: i128) -> (r: i128)
    requires
        b > 0,
        a > i128::MIN,
    ensures
        r == a as int % b as int,
        0 <= r < b,
{
    divmod_floor(a, b).1
}

/// Division rounding toward zero, as a spec over the mathematical `/`.
pub open spec fn tdiv(a: int, d: int) -> int {
    if a >= 0 {
        a / d
    } else {
        -((-a) / d)
    }
}

/// Division by a positive divisor rounding toward zero.
pub fn div_trunc(a: i128, b: i128) -> (q: i128)
    requires
        b > 0,
        a > i128::MIN,
    ensures
        q == tdiv(a as int, b as int),
        a >= 0 ==> 0 <= q <= a,
        a < 0 ==> a <= q <= 0,
{
    if a >= 0 {
        div_floor(a, b)
    } else {
        -div_floor(-a, b)
    }
}

/// A floor quotient of a value within `[-m * d, m * d]` lies within `[-m, m]`.
pub proof fn lemma_div_range(a: int, d: int, m: int)
    requires
        d > 0,
        m >= 0,
        -(m * d) <= a <= m * d,
    ensures
        -m <= a / d <= m,
        -m <= tdiv(a, d) <= m,
{
    lemma_div_is_ordered(a, m * d, d);
    lemma_div_is_ordered(-(m * d), a, d);
    lemma_div_multiples_vanish(m, d);
    lemma_div_multiples_vanish(-m, d);
    assert(d * m == m * d) by (nonlinear_arith);
    assert(d * -m == -(m * d)) by (nonlinear_arith);
    if a < 0 {
        lemma_div_is_ordered(-a, m * d, d);
        lemma_div_pos_is_pos(-a, d);
    }
}

/// Clamps `x` into `[lo, hi]`.
pub fn clamp_i64(x: i64, lo: i64, hi: i64) -> (r: i64)
    requires
        lo <= hi,
    ensures
        r == clamp_spec(x as int, lo as int, hi as int),
{
    if x < lo {
        lo
    } else if x > hi {
        hi
    } else {
        x
    }
}

pub open spec fn clamp_spec(x: int, lo: int, hi: int) -> int {
    if x < lo {
        lo
    } else if x > hi {
        hi
    } else {
        x
    }
}

/// Floor of the square root, as a mathematical definition.
pub open spec fn sqrt_floor(n: nat) -> nat
    decreases n,
{
    if n == 0 {
        0
    } else {
        let r = sqrt_floor((n - 1) as nat);
        if (r + 1) * (r + 1) <= n {
            r + 1
        } else {
            r
        }
    }
}

/// `sqrt_floor(n)` is the greatest `r` with `r * r <= n`.
pub proof fn lemma_sqrt_floor_bracket(n: nat)
    ensures
        sqrt_floor(n) * sqrt_floor(n) <= n < (sqrt_floor(n) + 1) * (sqrt_floor(n) + 1),
    decreases n,
{
    if n == 0 {
        assert(sqrt_floor(0) == 0);
        assert((sqrt_floor(0) + 1) * (sqrt_floor(0) + 1) == 1) by (nonlinear_arith)
            requires
                sqrt_floor(0) == 0,
        ;
    } else {
        lemma_sqrt_floor_bracket((n - 1) as nat);
        let r = sqrt_floor((n - 1) as nat);
        if (r + 1) * (r + 1) <= n {
            assert(n < ((r + 1) + 1) * ((r + 1) + 1)) by (nonlinear_arith)
                requires
                    n - 1 < (r + 1) * (r + 1),
                    r >= 0,
            ;
        }
    }
}

/// Any `r` satisfying the bracket is `sqrt_floor(n)`.
pub proof fn lemma_sqrt_floor_unique(n: nat, r: nat)
    requires
        r * r <= n < (r + 1) * (r + 1),
    ensures
        r == sqrt_floor(n),
{
    lemma_sqrt_floor_bracket(n);
    let s = sqrt_floor(n);
    if r < s {
        assert((r + 1) * (r + 1) <= s * s) by (nonlinear_arith)
            requires
                0 <= r < s,
        ;
    }
    if s < r {
        assert((s + 1) * (s + 1) <= r * r) by (nonlinear_arith)
            requires
                0 <= s < r,
        ;
    }
}

/// Integer square root: the greatest `r` with `r * r <= n`.
pub fn isqrt(n: u128) -> (r: u128)
    requires
        n < (1u128 << 96),
    ensures
        r * r <= n < (r + 1) * (r + 1),
        r < 281_474_976_710_656,
        r == sqrt_floor(n as nat),
{
    proof {
        lemma_sqrt_floor_bracket(n as nat);
    }
    proof {
        assert((1u128 << 48) == 281_474_976_710_656u128) by (bit_vector);
    }
    let mut lo: u128 = 0;
    let mut hi: u128 = 1u128 << 48;
    assert((1u128 << 48) * (1u128 << 48) == (1u128 << 96)) by (bit_vector);
    while hi - lo > 1
        invariant
            lo < hi <= (1u128 << 48),
            lo * lo <= n,
            hi * hi > n,
        decreases hi - lo,
    {
        let mid = lo + (hi - lo) / 2;
        proof {
            assert(mid * mid <= (1u128 << 48) * (1u128 << 48)) by (nonlinear_arith)
                requires
                    0 <= mid <= (1u128 << 48),
            ;
            assert((1u128 << 48) * (1u128 << 48) == (1u128 << 96)) by (bit_vector);
        }
        if mid * mid <= n {
            lo = mid;
        } else {
            hi = mid;
        }
    }
    assert(hi == lo + 1);
    proof {
        lemma_sqrt_floor_unique(n as nat, lo as nat);
    }
    lo
}

} // verus!
