//! Whole-number arithmetic that the vector operations are built from:
//! rounding quotients and the integer square root.

use vstd::prelude::*;

verus! {

/// One world unit. A raw value `v` stands for the quantity `v / UNIT`.
pub const UNIT: i64 = 1_000_000;

/// The quotient of `a` by a positive `b`, rounded toward zero.
pub open spec fn div_toward_zero(a: int, b: int) -> int {
    if a >= 0 {
        a / b
    } else {
        -((-a) / b)
    }
}

/// The quotient of `a` by a positive `b`, rounded away from zero.
pub open spec fn div_away_from_zero(a: int, b: int) -> int {
    if a >= 0 {
        (a + b - 1) / b
    } else {
        -((-a + b - 1) / b)
    }
}

/// `r` is the least natural number whose square reaches `n`.
pub open spec fn is_ceil_sqrt(n: int, r: int) -> bool {
    &&& r >= 0
    &&& r * r >= n
    &&& r > 0 ==> (r - 1) * (r - 1) < n
}

/// The square root of `n`, rounded up; 0 for a negative `n`.
pub open spec fn ceil_sqrt(n: int) -> int {
    choose|r: int| is_ceil_sqrt(n, r)
}

/// The square root of `n`, rounded down.
pub open spec fn floor_sqrt(n: int) -> int {
    if ceil_sqrt(n) * ceil_sqrt(n) == n {
        ceil_sqrt(n)
    } else {
        ceil_sqrt(n) - 1
    }
}

/// Squares grow with their base on the natural numbers.
pub proof fn lemma_square_monotone(a: int, b: int)
    requires
        0 <= a <= b,
    ensures
        a * a <= b * b,
{
    assert(a * a <= b * b) by (nonlinear_arith)
        requires
            0 <= a <= b,
    ;
}

/// At most one number is the rounded-up square root of `n`.
pub proof fn lemma_ceil_sqrt_unique(n: int, a: int, b: int)
    requires
        is_ceil_sqrt(n, a),
        is_ceil_sqrt(n, b),
    ensures
        a == b,
{
    if a < b {
        lemma_square_monotone(a, b - 1);
    }
    if b < a {
        lemma_square_monotone(b, a - 1);
    }
}

/// A number that meets the definition is the rounded-up square root.
pub proof fn lemma_ceil_sqrt_is(n: int, r: int)
    requires
        is_ceil_sqrt(n, r),
    ensures
        ceil_sqrt(n) == r,
{
    lemma_ceil_sqrt_unique(n, ceil_sqrt(n), r);
}

/// From any `r` whose predecessor's square is still below `n`, the search
/// upward ends at the rounded-up square root.
proof fn lemma_ceil_sqrt_from(n: int, r: int)
    requires
        r >= 0,
        r > 0 ==> (r - 1) * (r - 1) < n,
    ensures
        exists|s: int| is_ceil_sqrt(n, s),
    decreases n - r,
{
    if r * r >= n {
        assert(is_ceil_sqrt(n, r));
    } else {
        assert(r < n) by (nonlinear_arith)
            requires
                r >= 0,
                r * r < n,
        ;
        lemma_ceil_sqrt_from(n, r + 1);
    }
}

/// Every number has a rounded-up square root, and `ceil_sqrt` is it.
pub proof fn lemma_ceil_sqrt_exists(n: int)
    ensures
        is_ceil_sqrt(n, ceil_sqrt(n)),
{
    lemma_ceil_sqrt_from(n, 0);
}

/// The rounded-up square root of a positive number is positive.
pub proof fn lemma_ceil_sqrt_positive(n: int)
    requires
        n > 0,
    ensures
        ceil_sqrt(n) > 0,
        ceil_sqrt(n) * ceil_sqrt(n) >= n,
{
    lemma_ceil_sqrt_exists(n);
    assert(0 * 0 == 0) by (nonlinear_arith);
}

/// The rounded-down square root of a positive number is positive, and `n`
/// lies between its square and the next.
pub proof fn lemma_floor_sqrt_bounds(n: int)
    requires
        n > 0,
    ensures
        floor_sqrt(n) > 0,
        floor_sqrt(n) * floor_sqrt(n) <= n,
        n < (floor_sqrt(n) + 1) * (floor_sqrt(n) + 1),
        floor_sqrt(n) <= ceil_sqrt(n),
{
    lemma_ceil_sqrt_exists(n);
    assert(0 * 0 == 0) by (nonlinear_arith);
    let c = ceil_sqrt(n);
    if c * c != n {
        assert(c >= 2) by (nonlinear_arith)
            requires
                c >= 0,
                c * c > n,
                n > 0,
                (c - 1) * (c - 1) < n,
        ;
    } else {
        assert((c + 1) * (c + 1) > c * c) by (nonlinear_arith)
            requires
                c >= 0,
        ;
    }
}

/// The rounded-up square root of `n`, found by bisection.
pub fn isqrt_ceil(n: u128) -> (r: u128)
    ensures
        r == ceil_sqrt(n as int),
        is_ceil_sqrt(n as int, r as int),
        r <= 0x1_0000_0000_0000_0000,
{
    let mut lo: u128 = 0;
    let mut hi: u128 = 0x1_0000_0000_0000_0000;
    assert(hi * hi >= n) by (nonlinear_arith)
        requires
            hi == 0x1_0000_0000_0000_0000,
            n <= u128::MAX,
    ;
    while lo < hi
        invariant
            lo <= hi <= 0x1_0000_0000_0000_0000,
            hi * hi >= n,
            lo > 0 ==> (lo - 1) * (lo - 1) < n,
        decreases hi - lo,
    {
        let mid: u128 = lo + (hi - lo) / 2;
        assert(mid * mid <= u128::MAX) by (nonlinear_arith)
            requires
                0 <= mid < 0x1_0000_0000_0000_0000,
        ;
        if mid * mid >= n {
            hi = mid;
        } else {
            lo = mid + 1;
        }
    }
    proof {
        lemma_ceil_sqrt_is(n as int, lo as int);
    }
    lo
}

/// The rounded-down square root of `n`.
pub fn isqrt_floor(n: u128) -> (r: u128)
    ensures
        r == floor_sqrt(n as int),
        r < 0x1_0000_0000_0000_0000,
{
    let up: u128 = isqrt_ceil(n);
    if up == 0x1_0000_0000_0000_0000 {
        proof {
            assert(up * up > n) by (nonlinear_arith)
                requires
                    up == 0x1_0000_0000_0000_0000,
                    n <= u128::MAX,
            ;
        }
        up - 1
    } else {
        assert(up * up <= u128::MAX && (up == 0 ==> up * up == 0)) by (nonlinear_arith)
            requires
                0 <= up < 0x1_0000_0000_0000_0000,
        ;
        if up * up == n {
            up
        } else {
            up - 1
        }
    }
}

/// The distance of `a` from zero.
pub open spec fn magnitude_of(a: int) -> int {
    if a >= 0 {
        a
    } else {
        -a
    }
}

/// A number and its distance from zero have the same square.
pub proof fn lemma_magnitude_square(a: int)
    ensures
        magnitude_of(a) * magnitude_of(a) == a * a,
        magnitude_of(a) >= 0,
{
    assert((-a) * (-a) == a * a) by (nonlinear_arith);
}

/// A number whose square is at most `r * r` lies within `r` of zero.
pub proof fn lemma_magnitude_below_root(a: int, r: int)
    requires
        r >= 0,
        a * a <= r * r,
    ensures
        magnitude_of(a) <= r,
{
    lemma_magnitude_square(a);
    if magnitude_of(a) > r {
        let m = magnitude_of(a);
        assert(m * m > r * r) by (nonlinear_arith)
            requires
                m > r >= 0,
        ;
    }
}

/// A number whose square is below `r * r` lies closer to zero than `r`.
pub proof fn lemma_magnitude_strictly_below_root(a: int, r: int)
    requires
        r >= 0,
        a * a < r * r,
    ensures
        magnitude_of(a) < r,
{
    lemma_magnitude_square(a);
    if magnitude_of(a) >= r {
        lemma_square_monotone(r, magnitude_of(a));
    }
}

/// What rounding toward zero keeps: the quotient has the sign of `a`, and
/// times `den` it does not pass `a * num`.
pub proof fn lemma_toward_zero_bounds(a: int, num: int, den: int)
    requires
        num >= 0,
        den > 0,
    ensures
        a >= 0 ==> div_toward_zero(a * num, den) >= 0,
        a <= 0 ==> div_toward_zero(a * num, den) <= 0,
        magnitude_of(div_toward_zero(a * num, den)) == magnitude_of(a) * num / den,
        magnitude_of(div_toward_zero(a * num, den)) * den <= magnitude_of(a) * num,
        magnitude_of(a) * num < magnitude_of(div_toward_zero(a * num, den)) * den + den,
        magnitude_of(a) <= den ==> magnitude_of(div_toward_zero(a * num, den)) <= num,
{
    let m = magnitude_of(a);
    let p = m * num;
    assert(p >= 0 && (a >= 0 ==> p == a * num) && (a <= 0 ==> p == -(a * num))) by (nonlinear_arith)
        requires
            m == magnitude_of(a),
            num >= 0,
            p == m * num,
    ;
    let q = p / den;
    vstd::arithmetic::div_mod::lemma_fundamental_div_mod(p, den);
    vstd::arithmetic::div_mod::lemma_div_pos_is_pos(p, den);
    assert(q * den == den * q) by (nonlinear_arith);
    assert(0 <= p % den < den) by {
        vstd::arithmetic::div_mod::lemma_mod_bound(p, den);
    }
    if p == 0 {
        vstd::arithmetic::div_mod::lemma_basic_div(0, den);
    }
    if m <= den {
        assert(q <= num) by (nonlinear_arith)
            requires
                q * den <= m * num,
                0 <= m <= den,
                den > 0,
                num >= 0,
                q >= 0,
        ;
    }
}

/// What rounding away from zero keeps: the quotient has the sign of `a`, and
/// times `den` it reaches `a * num`.
pub proof fn lemma_away_from_zero_bounds(a: int, num: int, den: int)
    requires
        num >= 0,
        den > 0,
    ensures
        a >= 0 ==> div_away_from_zero(a * num, den) >= 0,
        a <= 0 ==> div_away_from_zero(a * num, den) <= 0,
        magnitude_of(div_away_from_zero(a * num, den)) == (magnitude_of(a) * num + den - 1) / den,
        magnitude_of(div_away_from_zero(a * num, den)) * den >= magnitude_of(a) * num,
        magnitude_of(div_away_from_zero(a * num, den)) * den < magnitude_of(a) * num + den,
        magnitude_of(a) <= den ==> magnitude_of(div_away_from_zero(a * num, den)) <= num,
{
    let m = magnitude_of(a);
    let p = m * num;
    assert(p >= 0 && (a >= 0 ==> p == a * num) && (a <= 0 ==> p == -(a * num))) by (nonlinear_arith)
        requires
            m == magnitude_of(a),
            num >= 0,
            p == m * num,
    ;
    let t = p + den - 1;
    let q = t / den;
    vstd::arithmetic::div_mod::lemma_fundamental_div_mod(t, den);
    vstd::arithmetic::div_mod::lemma_div_pos_is_pos(t, den);
    assert(q * den == den * q) by (nonlinear_arith);
    assert(0 <= t % den < den) by {
        vstd::arithmetic::div_mod::lemma_mod_bound(t, den);
    }
    if p == 0 {
        vstd::arithmetic::div_mod::lemma_basic_div(den - 1, den);
    }
    if m <= den {
        assert(q <= num) by (nonlinear_arith)
            requires
                q * den <= m * num + den - 1,
                0 <= m <= den,
                den > 0,
                num >= 0,
                q >= 0,
        ;
    }
}

/// The distance of `a` from zero, which always fits in 128 bits.
pub fn magnitude(a: i64) -> (r: u128)
    ensures
        r == magnitude_of(a as int),
        r <= 0x8000_0000_0000_0000,
{
    if a >= 0 {
        a as u128
    } else {
        (-(a as i128)) as u128
    }
}

/// `a * num / den`, rounded toward zero, computed without overflow.
pub fn mul_div_toward_zero(a: i64, num: i64, den: u128) -> (r: i64)
    requires
        num >= 0,
        den > 0,
        magnitude_of(a as int) * num / (den as int) <= i64::MAX,
    ensures
        r == div_toward_zero(a * num, den as int),
{
    let m: u128 = magnitude(a);
    let k: u128 = num as u128;
    assert(0 <= m * k <= u128::MAX && (a >= 0 ==> m * k == a * num) && (a < 0 ==> m * k == -(a
        * num))) by (nonlinear_arith)
        requires
            m == magnitude_of(a as int),
            0 <= m <= 0x8000_0000_0000_0000,
            0 <= k <= 0x7fff_ffff_ffff_ffff,
            k == num,
    ;
    let q: u128 = m * k / den;
    if a >= 0 {
        q as i64
    } else {
        -(q as i64)
    }
}

/// `a * num / den`, rounded away from zero, computed without overflow.
pub fn mul_div_away_from_zero(a: i64, num: i64, den: u128) -> (r: i64)
    requires
        num >= 0,
        0 < den <= 0x1_0000_0000_0000_0000,
        (magnitude_of(a as int) * num + den - 1) / (den as int) <= i64::MAX,
    ensures
        r == div_away_from_zero(a * num, den as int),
{
    let m: u128 = magnitude(a);
    let k: u128 = num as u128;
    assert(0 <= m * k <= 0x4000_0000_0000_0000_0000_0000_0000_0000 && (a >= 0 ==> m * k == a * num)
        && (a < 0 ==> m * k == -(a * num))) by (nonlinear_arith)
        requires
            m == magnitude_of(a as int),
            0 <= m <= 0x8000_0000_0000_0000,
            0 <= k <= 0x7fff_ffff_ffff_ffff,
            k == num,
    ;
    let q: u128 = (m * k + (den - 1)) / den;
    proof {
        if m * k == 0 {
            vstd::arithmetic::div_mod::lemma_basic_div(den - 1, den as int);
        }
    }
    if a >= 0 {
        q as i64
    } else {
        -(q as i64)
    }
}

/// The share of `total` that falls to each of `count`, rounded toward zero.
pub fn share_toward_zero(total: i128, count: usize) -> (r: i64)
    requires
        count > 0,
        magnitude_of(total as int) <= i64::MAX * count,
    ensures
        r == div_toward_zero(total as int, count as int),
        magnitude_of(r as int) == magnitude_of(total as int) / (count as int),
{
    let m: u128 = if total >= 0 {
        total as u128
    } else {
        (-total) as u128
    };
    let q: u128 = m / (count as u128);
    proof {
        vstd::arithmetic::div_mod::lemma_fundamental_div_mod(m as int, count as int);
        vstd::arithmetic::div_mod::lemma_mod_bound(m as int, count as int);
        assert(q <= i64::MAX) by (nonlinear_arith)
            requires
                (count as int) * q <= m,
                m <= i64::MAX * count,
                count > 0,
        ;
        if m == 0 {
            vstd::arithmetic::div_mod::lemma_basic_div(0, count as int);
        }
    }
    if total >= 0 {
        q as i64
    } else {
        -(q as i64)
    }
}

} // verus!
