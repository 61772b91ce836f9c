//! Exact integer arithmetic shared by the modules: means, truncated quotients
//! and absolute differences over mathematical integers.
use vstd::prelude::*;
use vstd::arithmetic::div_mod::{lemma_fundamental_div_mod, lemma_fundamental_div_mod_converse};

verus! {

/// The mean of `n` values that add up to `sum`, rounded down.
pub open spec fn mean(sum: int, n: int) -> int {
    sum / n
}

/// The quotient rounded toward zero.
pub open spec fn quot(a: int, b: int) -> int {
    if a >= 0 {
        a / b
    } else {
        -((-a) / b)
    }
}

pub open spec fn abs(a: int) -> int {
    if a < 0 {
        -a
    } else {
        a
    }
}

pub open spec fn max(a: int, b: int) -> int {
    if a < b {
        b
    } else {
        a
    }
}

pub open spec fn min(a: int, b: int) -> int {
    if a < b {
        a
    } else {
        b
    }
}

pub open spec fn clamp(v: int, lo: int, hi: int) -> int {
    if v < lo {
        lo
    } else if v > hi {
        hi
    } else {
        v
    }
}

/// A mean lies between any bounds on the values it is taken of.
pub proof fn lemma_mean_bounds(sum: int, n: int, lo: int, hi: int)
    requires
        n > 0,
        lo * n <= sum <= hi * n,
    ensures
        lo <= mean(sum, n) <= hi,
{
    let q = sum / n;
    lemma_fundamental_div_mod(sum, n);
    assert(lo <= q <= hi) by (nonlinear_arith)
        requires
            sum == n * q + sum % n,
            0 <= sum % n < n,
            lo * n <= sum <= hi * n,
            n > 0,
    ;
}

/// Rounding toward zero never grows a bound on the magnitude.
pub proof fn lemma_quot_bounds(a: int, b: int, m: int)
    requires
        b > 0,
        0 <= m,
        -m * b <= a <= m * b,
    ensures
        -m <= quot(a, b) <= m,
{
    if a >= 0 {
        assert(0 * b <= a) by (nonlinear_arith)
            requires
                a >= 0,
        ;
        lemma_mean_bounds(a, b, 0, m);
    } else {
        assert(0 * b <= -a <= m * b) by (nonlinear_arith)
            requires
                a < 0,
                -m * b <= a,
        ;
        lemma_mean_bounds(-a, b, 0, m);
    }
}

/// The value `t` of `d` parts of the way from `a` to `b`, rounded toward `a`.
pub open spec fn part_way(a: int, b: int, t: int, d: int) -> int {
    a + quot((b - a) * t, d)
}

/// A part of the way lies between the two ends.
pub proof fn lemma_part_way(a: int, b: int, t: int, d: int)
    requires
        0 < d,
        0 <= t <= d,
    ensures
        min(a, b) <= part_way(a, b, t, d) <= max(a, b),
{
    let v = b - a;
    if v >= 0 {
        assert(0 <= v * t <= v * d) by (nonlinear_arith)
            requires
                0 <= t <= d,
                v >= 0,
        ;
        lemma_mean_bounds(v * t, d, 0, v);
    } else {
        assert(v * d <= v * t <= 0) by (nonlinear_arith)
            requires
                0 <= t <= d,
                v < 0,
        ;
        assert(0 * d <= -(v * t) <= (-v) * d) by (nonlinear_arith)
            requires
                v * d <= v * t <= 0,
        ;
        lemma_mean_bounds(-(v * t), d, 0, -v);
        if v * t == 0 {
            assert(0int / d == 0) by (nonlinear_arith)
                requires
                    d > 0,
            ;
        }
    }
}

/// Parts in the whole way from one end of a segment to the other.
pub const WHOLE: u32 = 1_000_000;

/// The value `t` millionths of the way from `a` to `b`, rounded toward `a`.
pub(crate) fn along(a: i64, b: i64, t: u32) -> (out: i64)
    requires
        t <= WHOLE,
    ensures
        out == part_way(a as int, b as int, t as int, WHOLE as int),
        min(a as int, b as int) <= out <= max(a as int, b as int),
{
    let v: i128 = b as i128 - a as i128;
    proof {
        lemma_part_way(a as int, b as int, t as int, WHOLE as int);
        assert(-0x1_0000_0000_0000_0000 * 1_000_000 <= v * t <= 0x1_0000_0000_0000_0000 * 1_000_000)
            by (nonlinear_arith)
            requires
                -0x1_0000_0000_0000_0000 <= v <= 0x1_0000_0000_0000_0000,
                0 <= t <= 1_000_000,
        ;
    }
    let part: i128 = quot_of(v * (t as i128), WHOLE as u128);
    (a as i128 + part) as i64
}

/// The mean of `n` values adding up to `sum`, rounded down.
pub(crate) fn mean_of(sum: i128, n: u64, Ghost(lo): Ghost<int>, Ghost(hi): Ghost<int>) -> (out: i64)
    requires
        n > 0,
        i64::MIN <= lo,
        hi <= i64::MAX,
        lo * n <= sum <= hi * n,
    ensures
        out == mean(sum as int, n as int),
        lo <= out <= hi,
{
    proof {
        lemma_mean_bounds(sum as int, n as int, lo, hi);
        assert(-0x8000_0000_0000_0000_0000_0000_0000_0000 < sum) by (nonlinear_arith)
            requires
                lo * n <= sum,
                lo >= -0x8000_0000_0000_0000,
                0 < n <= 0xffff_ffff_ffff_ffff,
        ;
    }
    let d: u128 = n as u128;
    if sum >= 0 {
        let q: u128 = (sum as u128) / d;
        q as i64
    } else {
        let a: u128 = (-sum) as u128;
        let up: u128 = (a - 1) / d + 1;
        proof {
            let q = (a - 1) / (d as int);
            lemma_fundamental_div_mod(a - 1, d as int);
            let r = (a - 1) % (d as int);
            assert(sum == -(q + 1) * d + (d - 1 - r)) by (nonlinear_arith)
                requires
                    a - 1 == d * q + r,
                    sum == -a,
            ;
            lemma_fundamental_div_mod_converse(sum as int, d as int, -(q + 1), d - 1 - r);
            assert(up <= 0x8000_0000_0000_0000);
        }
        (-(up as i128)) as i64
    }
}

/// The quotient rounded toward zero.
pub(crate) fn quot_of(a: i128, b: u128) -> (q: i128)
    requires
        b > 0,
        a > i128::MIN,
    ensures
        q == quot(a as int, b as int),
{
    if a >= 0 {
        let q: u128 = (a as u128) / b;
        proof {
            assert(a as int / (b as int) <= a) by (nonlinear_arith)
                requires
                    a >= 0,
                    b >= 1,
            ;
        }
        q as i128
    } else {
        let m: u128 = (-a) as u128;
        let q: u128 = m / b;
        proof {
            assert(m as int / (b as int) <= m) by (nonlinear_arith)
                requires
                    m >= 0,
                    b >= 1,
            ;
        }
        -(q as i128)
    }
}

/// The quotient rounded to the nearest whole number, halves away from zero.
pub open spec fn nearest(a: int, b: int) -> int {
    if a >= 0 {
        (2 * a + b) / (2 * b)
    } else {
        -((-2 * a + b) / (2 * b))
    }
}

/// Rounding to the nearest stays between whole bounds.
pub proof fn lemma_nearest_bounds(a: int, b: int, lo: int, hi: int)
    requires
        b > 0,
        lo * b <= a <= hi * b,
    ensures
        lo <= nearest(a, b) <= hi,
{
    if a >= 0 {
        let q = (2 * a + b) / (2 * b);
        lemma_fundamental_div_mod(2 * a + b, 2 * b);
        assert(lo <= q <= hi) by (nonlinear_arith)
            requires
                2 * a + b == (2 * b) * q + (2 * a + b) % (2 * b),
                0 <= (2 * a + b) % (2 * b) < 2 * b,
                lo * b <= a <= hi * b,
                b > 0,
        ;
    } else {
        let q = (-2 * a + b) / (2 * b);
        lemma_fundamental_div_mod(-2 * a + b, 2 * b);
        assert(lo <= -q <= hi) by (nonlinear_arith)
            requires
                -2 * a + b == (2 * b) * q + (-2 * a + b) % (2 * b),
                0 <= (-2 * a + b) % (2 * b) < 2 * b,
                lo * b <= a <= hi * b,
                b > 0,
        ;
    }
}

/// Equal fractions round alike.
pub proof fn lemma_nearest_is_of_the_value(x: int, d: int, y: int, c: int)
    requires
        0 < d,
        0 < c,
        x * c == y * d,
    ensures
        nearest(x, d) == nearest(y, c),
{
    assert(x >= 0 <==> y >= 0) by (nonlinear_arith)
        requires
            0 < d,
            0 < c,
            x * c == y * d,
    ;
    if x >= 0 {
        lemma_halves_alike(x, d, y, c);
    } else {
        assert((-x) * c == (-y) * d) by (nonlinear_arith)
            requires
                x * c == y * d,
        ;
        lemma_halves_alike(-x, d, -y, c);
    }
}

proof fn lemma_halves_alike(x: int, d: int, y: int, c: int)
    requires
        0 <= x,
        0 <= y,
        0 < d,
        0 < c,
        x * c == y * d,
    ensures
        (2 * x + d) / (2 * d) == (2 * y + c) / (2 * c),
{
    let q = (2 * x + d) / (2 * d);
    lemma_fundamental_div_mod(2 * x + d, 2 * d);
    let r = (2 * y + c) - q * (2 * c);
    assert(0 <= r * d < (2 * c) * d) by {
        let rest = (2 * x + d) % (2 * d);
        assert(2 * x + d == (2 * d) * q + rest);
        assert(r * d == rest * c) by (nonlinear_arith)
            requires
                r == (2 * y + c) - q * (2 * c),
                2 * x + d == (2 * d) * q + rest,
                x * c == y * d,
        ;
        assert(0 <= rest * c < (2 * d) * c) by (nonlinear_arith)
            requires
                0 <= rest < 2 * d,
                0 < c,
        ;
        assert((2 * d) * c == (2 * c) * d) by (nonlinear_arith);
    }
    assert(0 <= r < 2 * c) by (nonlinear_arith)
        requires
            0 <= r * d < (2 * c) * d,
            0 < d,
    ;
    lemma_fundamental_div_mod_converse(2 * y + c, 2 * c, q, r);
}

/// The quotient rounded to the nearest whole number, halves away from zero.
pub(crate) fn nearest_of(a: i128, b: u64) -> (q: i128)
    requires
        b > 0,
        -0x1000_0000_0000_0000_0000_0000_0000_0000 <= a
            <= 0x1000_0000_0000_0000_0000_0000_0000_0000,
    ensures
        q == nearest(a as int, b as int),
{
    let d: u128 = 2 * (b as u128);
    if a >= 0 {
        let n: u128 = 2 * (a as u128) + b as u128;
        let q: u128 = n / d;
        proof {
            assert(n as int / (d as int) <= n) by (nonlinear_arith)
                requires
                    n >= 0,
                    d >= 1,
            ;
        }
        q as i128
    } else {
        let n: u128 = 2 * ((-a) as u128) + b as u128;
        let q: u128 = n / d;
        proof {
            assert(n as int / (d as int) <= n) by (nonlinear_arith)
                requires
                    n >= 0,
                    d >= 1,
            ;
        }
        -(q as i128)
    }
}

/// How far apart two values are.
pub(crate) fn distance(a: i64, b: i64) -> (d: u64)
    ensures
        d == abs(a - b),
{
    if a >= b {
        (a as i128 - b as i128) as u64
    } else {
        (b as i128 - a as i128) as u64
    }
}

/// A mean is the whole number at or below the exact one.
pub proof fn a_mean_is_rounded_down(sum: int, n: int)
    requires
        n > 0,
    ensures
        mean(sum, n) * n <= sum < (mean(sum, n) + 1) * n,
{
    lemma_fundamental_div_mod(sum, n);
    let q = sum / n;
    assert(q * n <= sum < (q + 1) * n) by (nonlinear_arith)
        requires
            sum == n * q + sum % n,
            0 <= sum % n < n,
    ;
}

/// A quotient is the exact one with its fraction cut off.
pub proof fn a_quotient_is_cut_toward_zero(a: int, b: int)
    requires
        b > 0,
    ensures
        a >= 0 ==> quot(a, b) * b <= a < (quot(a, b) + 1) * b,
        a < 0 ==> (quot(a, b) - 1) * b < a <= quot(a, b) * b,
{
    if a >= 0 {
        a_mean_is_rounded_down(a, b);
    } else {
        a_mean_is_rounded_down(-a, b);
        let q = (-a) / b;
        assert((-q - 1) * b < a <= (-q) * b) by (nonlinear_arith)
            requires
                q * b <= -a < (q + 1) * b,
        ;
    }
}

/// A part of the way is within one of the exact one, on the near side of it,
/// and is the one end or the other where the part is nothing or all.
pub proof fn a_part_of_the_way_is_in_proportion(a: int, b: int, t: int, d: int)
    requires
        0 < d,
        0 <= t <= d,
    ensures
        -d < (part_way(a, b, t, d) - a) * d - (b - a) * t < d,
        abs((part_way(a, b, t, d) - a) * d) <= abs((b - a) * t),
        t == 0 ==> part_way(a, b, t, d) == a,
        t == d ==> part_way(a, b, t, d) == b,
{
    let v = (b - a) * t;
    a_quotient_is_cut_toward_zero(v, d);
    let q = quot(v, d);
    assert(a + q - a == q);
    assert((q + 1) * d == q * d + d && (q - 1) * d == q * d - d) by (nonlinear_arith);
    if v >= 0 {
        assert(q >= 0) by (nonlinear_arith)
            requires
                (q + 1) * d > v,
                v >= 0,
                d > 0,
        ;
        assert(q * d >= 0) by (nonlinear_arith)
            requires
                q >= 0,
                d > 0,
        ;
    } else {
        assert(q <= 0) by (nonlinear_arith)
            requires
                (q - 1) * d < v,
                v < 0,
                d > 0,
        ;
        assert(q * d <= 0) by (nonlinear_arith)
            requires
                q <= 0,
                d > 0,
        ;
    }
    if t == 0 {
        assert(v == 0) by (nonlinear_arith)
            requires
                v == (b - a) * t,
                t == 0,
        ;
        assert(q == 0) by (nonlinear_arith)
            requires
                q * d <= 0 < q * d + d,
                d > 0,
        ;
    }
    if t == d {
        assert(q == b - a) by (nonlinear_arith)
            requires
                v == (b - a) * t,
                t == d,
                d > 0,
                -d < q * d - v < d,
        ;
    }
}

/// Rounding to the nearest is off by half at most, a half going away from zero.
pub proof fn the_nearest_is_off_by_half_at_most(a: int, b: int)
    requires
        b > 0,
    ensures
        a >= 0 ==> -b < 2 * (a - nearest(a, b) * b) < b || 2 * (a - nearest(a, b) * b) == -b,
        a < 0 ==> -b < 2 * (a - nearest(a, b) * b) < b || 2 * (a - nearest(a, b) * b) == b,
{
    if a >= 0 {
        let q = (2 * a + b) / (2 * b);
        lemma_fundamental_div_mod(2 * a + b, 2 * b);
        let r = (2 * a + b) % (2 * b);
        assert(2 * (a - q * b) == r - b) by (nonlinear_arith)
            requires
                2 * a + b == (2 * b) * q + r,
        ;
    } else {
        let q = (-2 * a + b) / (2 * b);
        lemma_fundamental_div_mod(-2 * a + b, 2 * b);
        let r = (-2 * a + b) % (2 * b);
        assert(2 * (a - (-q) * b) == b - r) by (nonlinear_arith)
            requires
                -2 * a + b == (2 * b) * q + r,
        ;
    }
}

/// A value brought into a range is in it, and is the value where that was.
pub proof fn a_clamped_value_is_the_nearest_in_range(v: int, lo: int, hi: int)
    requires
        lo <= hi,
    ensures
        lo <= clamp(v, lo, hi) <= hi,
        lo <= v <= hi ==> clamp(v, lo, hi) == v,
        v < lo ==> clamp(v, lo, hi) == lo,
        v > hi ==> clamp(v, lo, hi) == hi,
{
}

/// Of two values the lesser and the greater are the two in order, and how far
/// one is from nought does not depend on its sign.
pub proof fn the_lesser_and_the_greater_are_the_two(a: int, b: int)
    ensures
        min(a, b) <= a <= max(a, b),
        min(a, b) <= b <= max(a, b),
        min(a, b) == a || min(a, b) == b,
        min(a, b) + max(a, b) == a + b,
        abs(a) >= 0 && (abs(a) == a || abs(a) == -a),
{
}

/// What values add up to.
pub open spec fn total(v: Seq<int>) -> int
    decreases v.len(),
{
    if v.len() == 0 {
        0
    } else {
        total(v.drop_last()) + v.last()
    }
}

} // verus!
