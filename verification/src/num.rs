//! Integer arithmetic helpers: truncating signed division, integer square
//! root, and fixed-point trigonometry over millidegrees.
use vstd::prelude::*;

verus! {

/// The binary fixed-point scale used for trigonometry and texture
/// coordinates: a value of `SCALE` stands for one.
pub const SCALE: i64 = 65536;

/// One full turn, in millidegrees.
pub const FULL_TURN: i64 = 360000;

/// Truncating division (rounds toward zero), as machine division does.
pub open spec fn sdiv(a: int, d: int) -> int {
    if a >= 0 {
        a / d
    } else {
        -((-a) / d)
    }
}

/// Truncating half, the shift used by centring computations.
pub open spec fn shalf(a: int) -> int {
    sdiv(a, 2)
}

/// Executable truncating division of `a` by a positive divisor `d`.
pub fn div_trunc(a: i64, d: i64) -> (r: i64)
    requires
        d > 0,
        a > i64::MIN,
    ensures
        r == sdiv(a as int, d as int),
{
    a / d
}

/// The integer square root: the largest `r` with `r * r <= n`.
pub open spec fn is_isqrt(n: int, r: int) -> bool {
    r >= 0 && r * r <= n && (r + 1) * (r + 1) > n
}

/// Truncating division never grows the magnitude.
pub proof fn lemma_sdiv_bound(a: int, d: int)
    requires
        d >= 1,
    ensures
        a >= 0 ==> 0 <= sdiv(a, d) <= a,
        a < 0 ==> a <= sdiv(a, d) <= 0,
{
    if a >= 0 {
        vstd::arithmetic::div_mod::lemma_div_nonincreasing(a, d);
        vstd::arithmetic::div_mod::lemma_div_pos_is_pos(a, d);
    } else {
        vstd::arithmetic::div_mod::lemma_div_nonincreasing(-a, d);
        vstd::arithmetic::div_mod::lemma_div_pos_is_pos(-a, d);
    }
}

/// Dividing an exact multiple truncates nothing.
pub proof fn lemma_sdiv_mul_exact(a: int, d: int)
    requires
        d > 0,
    ensures
        sdiv(a * d, d) == a,
{
    if a >= 0 {
        vstd::arithmetic::div_mod::lemma_div_by_multiple(a, d);
    } else {
        vstd::arithmetic::div_mod::lemma_div_by_multiple(-a, d);
        assert(-(a * d) == (-a) * d) by (nonlinear_arith);
        assert(a * d < 0) by (nonlinear_arith)
            requires a < 0 && d > 0;
    }
}

/// The integer square root as a function: the largest `r` with `r * r <= n`.
pub open spec fn sqrt_floor(n: int) -> int
    decreases n,
{
    if n < 1 {
        0
    } else {
        let r = sqrt_floor(n - 1);
        if (r + 1) * (r + 1) <= n {
            r + 1
        } else {
            r
        }
    }
}

/// The recursive square root meets the bounding characterization.
pub proof fn lemma_sqrt_floor_is_isqrt(n: int)
    requires
        n >= 0,
    ensures
        is_isqrt(n, sqrt_floor(n)),
    decreases n,
{
    if n == 0 {
        assert(sqrt_floor(0) == 0);
    } else {
        lemma_sqrt_floor_is_isqrt(n - 1);
        let r = sqrt_floor(n - 1);
        if (r + 1) * (r + 1) <= n {
            assert((r + 2) * (r + 2) > n) by (nonlinear_arith)
                requires r >= 0 && (r + 1) * (r + 1) > n - 1;
        }
    }
}

/// Two integers both meeting the square root characterization are equal.
pub proof fn lemma_isqrt_unique(n: int, a: int, b: int)
    requires
        is_isqrt(n, a),
        is_isqrt(n, b),
    ensures
        a == b,
{
    if a < b {
        assert((a + 1) * (a + 1) <= b * b) by (nonlinear_arith)
            requires 0 <= a && a + 1 <= b;
    }
    if b < a {
        assert((b + 1) * (b + 1) <= a * a) by (nonlinear_arith)
            requires 0 <= b && b + 1 <= a;
    }
}

/// Executable integer square root by bisection.
pub fn isqrt(n: u128) -> (r: u128)
    ensures
        is_isqrt(n as int, r as int),
        r == sqrt_floor(n as int),
        r <= u64::MAX,
{
    let mut lo: u128 = 0;
    let mut hi: u128 = 0x1_0000_0000_0000_0000;
    proof {
        assert((hi as int) * (hi as int) > n) by (nonlinear_arith)
            requires hi == 0x1_0000_0000_0000_0000 && n <= u128::MAX;
    }
    while lo + 1 < hi
        invariant
            0 <= lo < hi <= 0x1_0000_0000_0000_0000,
            (lo as int) * (lo as int) <= n as int,
            (hi as int) * (hi as int) > n as int,
        decreases hi - lo,
    {
        let mid: u128 = lo + (hi - lo) / 2;
        proof {
            assert((mid as int) * (mid as int) <= u128::MAX) by (nonlinear_arith)
                requires 0 < mid < 0x1_0000_0000_0000_0000;
        }
        if mid * mid <= n {
            lo = mid;
        } else {
            hi = mid;
        }
    }
    proof {
        lemma_sqrt_floor_is_isqrt(n as int);
        lemma_isqrt_unique(n as int, lo as int, sqrt_floor(n as int));
    }
    lo
}

/// The millidegree angle `a` brought into one turn, to `[0, 360000)`.
pub open spec fn norm_mdeg(a: int) -> int {
    a % 360000
}

/// Executable normalization of a millidegree angle into one turn.
pub fn normalize_mdeg(a: i64) -> (r: u64)
    requires
        a > i64::MIN,
    ensures
        r == norm_mdeg(a as int),
        r < 360000,
{
    let t: i64 = a % FULL_TURN;
    let u: i64 = (t + FULL_TURN) % FULL_TURN;
    proof {
        lemma_trunc_rem_matches_euclid(a as int);
    }
    u as u64
}

/// Truncating remainder by a full turn agrees with the mathematical one
/// after a shift back into range.
proof fn lemma_trunc_rem_matches_euclid(a: int)
    ensures
        ({
            let t = if a >= 0 { a % 360000 } else { -((-a) % 360000) };
            (t + 360000) % 360000 == a % 360000
        }),
{
    if a < 0 {
        let t = -((-a) % 360000);
        assert(((-a) % 360000) == (-a) - ((-a) / 360000) * 360000) by {
            vstd::arithmetic::div_mod::lemma_fundamental_div_mod(-a, 360000);
        }
        assert((t + 360000) % 360000 == a % 360000) by {
            vstd::arithmetic::div_mod::lemma_mod_multiples_vanish(
                (-a) / 360000 + 1, a, 360000);
        }
    }
}

/// The quarter-wave rational approximation of the sine, for angles in
/// `[0, 180000]` millidegrees, scaled by [`SCALE`].
pub open spec fn sin_half_turn(x: int) -> int {
    (65536 * 4 * x * (180000 - x)) / (40500000000 - x * (180000 - x))
}

/// The fixed-point sine of a millidegree angle.
pub open spec fn sin_mdeg(a: int) -> int {
    let n = norm_mdeg(a);
    if n <= 180000 {
        sin_half_turn(n)
    } else {
        -sin_half_turn(n - 180000)
    }
}

/// The fixed-point cosine of a millidegree angle: the sine a quarter turn on.
pub open spec fn cos_mdeg(a: int) -> int {
    sin_mdeg(a + 90000)
}

/// The product `x * (180000 - x)` stays below one quarter of a half turn
/// squared, and the approximation stays within the fixed-point unit.
proof fn lemma_sin_half_turn_bounds(x: int)
    requires
        0 <= x <= 180000,
    ensures
        0 <= x * (180000 - x) <= 8100000000,
        0 <= sin_half_turn(x) <= 65536,
        sin_half_turn(x) == (65536 * 4 * (x * (180000 - x))) / (40500000000 - x * (180000 - x)),
{
    let p = x * (180000 - x);
    assert(0 <= p <= 8100000000) by (nonlinear_arith)
        requires 0 <= x <= 180000 && p == x * (180000 - x);
    let num = 65536 * 4 * p;
    let den = 40500000000 - p;
    assert(den >= 32400000000);
    assert(num >= 0) by (nonlinear_arith)
        requires p >= 0 && num == 65536 * 4 * p;
    vstd::arithmetic::div_mod::lemma_div_pos_is_pos(num, den);
    assert(num <= 65536 * den) by (nonlinear_arith)
        requires 0 <= p <= 8100000000 && num == 65536 * 4 * p && den == 40500000000 - p;
    assert(num / den <= (65536 * den) / den) by {
        vstd::arithmetic::div_mod::lemma_div_is_ordered(num, 65536 * den, den);
    }
    assert((65536 * den) / den == 65536) by {
        vstd::arithmetic::div_mod::lemma_div_by_multiple(65536, den);
    }
    assert(65536 * 4 * x * (180000 - x) == num) by (nonlinear_arith)
        requires num == 65536 * 4 * p && p == x * (180000 - x);
    assert(sin_half_turn(x) == num / den);
}

/// Executable quarter-wave sine approximation.
fn sin_half_turn_exec(x: u64) -> (r: i64)
    requires
        x <= 180000,
    ensures
        r == sin_half_turn(x as int),
        0 <= r <= SCALE,
{
    proof {
        lemma_sin_half_turn_bounds(x as int);
    }
    let p: u64 = x * (180000 - x);
    assert(p <= 8100000000);
    assert(65536 * 4 * (p as int) <= 2123366400000000) by (nonlinear_arith)
        requires p <= 8100000000;
    let num: u64 = 65536 * 4 * p;
    let den: u64 = 40500000000 - p;
    (num / den) as i64
}

/// The fixed-point sine of a millidegree angle, scaled by [`SCALE`].
pub fn sin_fp(a: i64) -> (r: i64)
    requires
        a > i64::MIN,
    ensures
        r == sin_mdeg(a as int),
        -SCALE <= r <= SCALE,
{
    let n: u64 = normalize_mdeg(a);
    if n <= 180000 {
        sin_half_turn_exec(n)
    } else {
        -sin_half_turn_exec(n - 180000)
    }
}

/// The fixed-point cosine of a millidegree angle, scaled by [`SCALE`].
pub fn cos_fp(a: i64) -> (r: i64)
    requires
        a > i64::MIN,
        a <= i64::MAX - 90000,
    ensures
        r == cos_mdeg(a as int),
        -SCALE <= r <= SCALE,
{
    sin_fp(a + 90000)
}

/// The sine of a zero angle is zero, and its cosine is the fixed-point one:
/// a zero rotation is the identity of the rotation step.
pub proof fn lemma_trig_zero()
    ensures
        sin_mdeg(0) == 0,
        cos_mdeg(0) == SCALE,
{
    assert(norm_mdeg(0) == 0);
    assert(sin_half_turn(0) == 0);
    assert(norm_mdeg(90000) == 90000) by {
        vstd::arithmetic::div_mod::lemma_small_mod(90000nat, 360000nat);
    }
    assert(90000 * (180000 - 90000) == 8100000000);
    assert(65536 * 4 * 8100000000 == 2123366400000000);
    assert(40500000000 - 8100000000 == 32400000000);
    assert(2123366400000000int / 32400000000int == 65536) by {
        vstd::arithmetic::div_mod::lemma_div_by_multiple(65536, 32400000000);
        assert(65536 * 32400000000 == 2123366400000000);
    }
    assert(sin_half_turn(90000) == 65536);
}

} // verus!
