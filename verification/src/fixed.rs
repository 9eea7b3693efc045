//! Q16 fixed-point arithmetic: truncating division, integer square root,
//! trigonometric and exponential curves, and a binary logarithm whose
//! monotonicity is proved for the quantization law.

use vstd::prelude::*;
use vstd::arithmetic::div_mod::lemma_div_is_ordered;
use vstd::arithmetic::div_mod::lemma_div_multiples_vanish;
use vstd::arithmetic::div_mod::lemma_div_pos_is_pos;

verus! {

/// One unit of 1.0 in the Q16 representation.
pub const ONE: i64 = 65536;

/// Angle units of half a turn (pi radians).
pub const HALF_TURN: i64 = 32768;

/// Angle units of a quarter turn (pi/2 radians).
pub const QUARTER_TURN: i64 = 16384;

/// Truncating division (rounding toward zero) by a positive divisor,
/// matching what `/` does on machine integers.
pub open spec fn tdiv(a: int, b: int) -> int {
    if a >= 0 {
        a / b
    } else {
        -((-a) / b)
    }
}

/// `0 <= num <= den * c` with `den > 0` bounds the quotient by `c`.
pub proof fn lemma_div_bound(num: int, den: int, c: int)
    requires
        den > 0,
        0 <= num,
        num <= den * c,
    ensures
        0 <= num / den <= c,
{
    lemma_div_pos_is_pos(num, den);
    lemma_div_is_ordered(num, den * c, den);
    lemma_div_multiples_vanish(c, den);
}

/// Absolute value.
pub open spec fn iabs(a: int) -> int {
    if a >= 0 {
        a
    } else {
        -a
    }
}

/// Absolute value of an `i64` above the minimum.
pub fn abs_i64(a: i64) -> (r: i64)
    requires
        a > i64::MIN,
    ensures
        r == iabs(a as int),
{
    if a >= 0 {
        a
    } else {
        -a
    }
}

/// A truncating quotient is bounded by `c` when the numerator is within
/// `b * c` of zero.
pub proof fn lemma_tdiv_bound(a: int, b: int, c: int)
    requires
        b > 0,
        0 <= c,
        iabs(a) <= b * c,
    ensures
        -c <= tdiv(a, b) <= c,
{
    if a >= 0 {
        lemma_div_bound(a, b, c);
    } else {
        lemma_div_bound(-a, b, c);
    }
}

/// Truncating division of a Q16 value by a positive divisor.
pub fn div_trunc(a: i64, b: i64) -> (r: i64)
    requires
        b >= 1,
        a > i64::MIN,
    ensures
        r == tdiv(a as int, b as int),
        a >= 0 ==> 0 <= r <= a,
        a < 0 ==> a <= r <= 0,
{
    if a >= 0 {
        proof {
            assert(a as int <= (b as int) * (a as int)) by (nonlinear_arith)
                requires
                    b >= 1,
                    a >= 0,
            ;
            lemma_div_bound(a as int, b as int, a as int);
        }
        ((a as u64) / (b as u64)) as i64
    } else {
        let n: u64 = (-a) as u64;
        proof {
            assert(n as int <= (b as int) * (n as int)) by (nonlinear_arith)
                requires
                    b >= 1,
            ;
            lemma_div_bound(n as int, b as int, n as int);
        }
        let q: u64 = n / (b as u64);
        -(q as i64)
    }
}

/// `r` is the integer square root of `x`.
pub open spec fn is_sqrt(x: int, r: int) -> bool {
    0 <= r && r * r <= x && x < (r + 1) * (r + 1)
}

/// The integer square root as a mathematical value.
pub open spec fn sqrt_floor(x: int) -> int {
    choose|r: int| is_sqrt(x, r)
}

/// Two integer square roots of the same value are equal.
pub proof fn lemma_sqrt_unique(x: int, a: int, b: int) by (nonlinear_arith)
    requires
        is_sqrt(x, a),
        is_sqrt(x, b),
    ensures
        a == b,
{
}

/// Integer square root by bisection.
pub fn usqrt(x: u128) -> (r: u64)
    requires
        x < 0x4000_0000_0000_0000_0000_0000_0000_0000u128,
    ensures
        is_sqrt(x as int, r as int),
        r == sqrt_floor(x as int),
{
    let mut lo: u64 = 0;
    let mut hi: u64 = 0x8000_0000_0000_0000u64;
    while lo + 1 < hi
        invariant
            (lo as int) * (lo as int) <= x as int,
            (x as int) < (hi as int) * (hi as int),
            lo < hi,
            hi <= 0x8000_0000_0000_0000u64,
        decreases hi - lo,
    {
        let mid = lo + (hi - lo) / 2;
        proof {
            assert((mid as int) * (mid as int) <= 0x4000_0000_0000_0000_0000_0000_0000_0000int)
                by (nonlinear_arith)
                requires
                    mid <= 0x8000_0000_0000_0000u64,
            ;
        }
        if (mid as u128) * (mid as u128) <= x {
            lo = mid;
        } else {
            hi = mid;
        }
    }
    proof {
        assert(is_sqrt(x as int, lo as int));
        assert(exists|r: int| is_sqrt(x as int, r));
        lemma_sqrt_unique(x as int, lo as int, sqrt_floor(x as int));
    }
    lo
}

/// Q16 sine of `u` angle units over the first half turn, by the rational
/// approximation `sin(pi u/H) ~= 16 p / (5 H^2 - 4 p)` with `p = u (H - u)`.
pub open spec fn half_sine(u: int) -> int {
    16 * (u * (32768 - u)) * 65536 / (5368709120 - 4 * (u * (32768 - u)))
}

/// The half-turn sine stays within `[0, ONE]`.
pub proof fn lemma_half_sine_bounds(u: int)
    requires
        0 <= u <= 32768,
    ensures
        0 <= half_sine(u) <= 65536,
{
    let p = u * (32768 - u);
    assert(0 <= p <= 268435456) by (nonlinear_arith)
        requires
            0 <= u <= 32768,
            p == u * (32768 - u),
    ;
    let num = 16 * p * 65536;
    let den = 5368709120 - 4 * p;
    lemma_div_bound(num, den, 65536);
}

/// Q16 sine of `t` angle units, `t` in `[0, 65536]` (one full turn).
pub open spec fn sin_turn_spec(t: int) -> int {
    if t <= 32768 {
        half_sine(t)
    } else {
        -half_sine(t - 32768)
    }
}

/// Q16 cosine of `t` angle units, a quarter turn ahead of the sine.
pub open spec fn cos_turn_spec(t: int) -> int {
    sin_turn_spec(
        if t < 49152 {
            t + 16384
        } else {
            t - 49152
        },
    )
}

/// The full-turn sine stays within `[-ONE, ONE]`.
pub proof fn lemma_sin_turn_bounds(t: int)
    requires
        0 <= t <= 65536,
    ensures
        -65536 <= sin_turn_spec(t) <= 65536,
{
    if t <= 32768 {
        lemma_half_sine_bounds(t);
    } else {
        lemma_half_sine_bounds(t - 32768);
    }
}

/// The full-turn cosine stays within `[-ONE, ONE]`.
pub proof fn lemma_cos_turn_bounds(t: int)
    requires
        0 <= t <= 65536,
    ensures
        -65536 <= cos_turn_spec(t) <= 65536,
{
    if t < 49152 {
        lemma_sin_turn_bounds(t + 16384);
    } else {
        lemma_sin_turn_bounds(t - 49152);
    }
}

/// Sine over the first half turn, `u` in `[0, HALF_TURN]`.
pub fn sin_half(u: i64) -> (r: i64)
    requires
        0 <= u <= 32768,
    ensures
        r == half_sine(u as int),
        0 <= r <= ONE,
{
    proof {
        assert(0 <= (u as int) * (32768 - u as int) <= 268435456) by (nonlinear_arith)
            requires
                0 <= u <= 32768,
        ;
    }
    let p: i64 = u * (32768 - u);
    let num: i64 = 16 * p * 65536;
    let den: i64 = 5368709120 - 4 * p;
    proof {
        lemma_div_bound(num as int, den as int, 65536);
    }
    ((num as u64) / (den as u64)) as i64
}

/// Sine of `t` angle units over one turn, `t` in `[0, TURN]`.
pub fn sin_turn(t: i64) -> (r: i64)
    requires
        0 <= t <= 65536,
    ensures
        r == sin_turn_spec(t as int),
        -ONE <= r <= ONE,
{
    if t <= 32768 {
        sin_half(t)
    } else {
        -sin_half(t - 32768)
    }
}

/// Cosine of `t` angle units over one turn, `t` in `[0, TURN]`.
/// `cos_turn(0) == cos_turn(TURN) == ONE` exactly.
pub fn cos_turn(t: i64) -> (r: i64)
    requires
        0 <= t <= 65536,
    ensures
        r == cos_turn_spec(t as int),
        -ONE <= r <= ONE,
        t == 0 ==> r == ONE,
        t == 65536 ==> r == ONE,
{
    let r = if t < 49152 {
        sin_turn(t + 16384)
    } else {
        sin_turn(t - 49152)
    };
    proof {
        if t == 0 || t == 65536 {
            assert(r == half_sine(16384));
            assert(16384int * (32768 - 16384) == 268435456);
            assert(16 * 268435456int * 65536 == 281474976710656);
            assert(5368709120 - 4 * 268435456int == 4294967296);
            assert(281474976710656int / 4294967296int == 65536);
        }
    }
    r
}

/// Q16 decaying exponential `exp(-z/ONE)` by a truncated reciprocal
/// Taylor series; exactly `ONE` at zero and zero far out.
pub open spec fn exp_neg(z: int) -> int {
    if z >= 1048576 {
        0
    } else {
        let t2 = z * z / 131072;
        let t3 = t2 * z / 196608;
        let t4 = t3 * z / 262144;
        4294967296int / (65536 + z + t2 + t3 + t4)
    }
}

/// Decaying exponential of a nonnegative Q16 argument.
pub fn exp_q16(z: i64) -> (r: i64)
    requires
        0 <= z,
    ensures
        r == exp_neg(z as int),
        0 <= r <= ONE,
        z == 0 ==> r == ONE,
{
    if z >= 1048576 {
        0
    } else {
        proof {
            assert((z as int) * (z as int) <= 1099511627776int) by (nonlinear_arith)
                requires
                    0 <= z < 1048576,
            ;
        }
        let zz: i64 = z * z;
        let t2: i64 = ((zz as u64) / 131072u64) as i64;
        proof {
            assert((t2 as int) * (z as int) <= 8796093022208int) by (nonlinear_arith)
                requires
                    0 <= t2 <= 8388608,
                    0 <= z < 1048576,
            ;
        }
        let t3: i64 = (((t2 * z) as u64) / 196608u64) as i64;
        proof {
            assert((t3 as int) * (z as int) <= 46912496118784int) by (nonlinear_arith)
                requires
                    0 <= t3 <= 44739242,
                    0 <= z < 1048576,
            ;
        }
        let t4: i64 = (((t3 * z) as u64) / 262144u64) as i64;
        let den: i64 = 65536 + z + t2 + t3 + t4;
        proof {
            lemma_div_bound(4294967296, den as int, 65536);
            if z == 0 {
                assert(den == 65536);
                assert(4294967296int / 65536int == 65536int);
            }
        }
        ((4294967296u64) / (den as u64)) as i64
    }
}

} // verus!
