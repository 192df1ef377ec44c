//! Vectors of the plane, their lengths, and the operations that bound a length.

use crate::scalar::{
    ceil_sqrt, div_away_from_zero, div_toward_zero, floor_sqrt, isqrt_ceil, isqrt_floor,
    lemma_away_from_zero_bounds, lemma_ceil_sqrt_exists, lemma_ceil_sqrt_positive,
    lemma_floor_sqrt_bounds,
    lemma_magnitude_below_root, lemma_magnitude_square, lemma_magnitude_strictly_below_root,
    lemma_square_monotone, lemma_toward_zero_bounds, magnitude, magnitude_of,
    mul_div_away_from_zero, mul_div_toward_zero, UNIT,
};
use vstd::prelude::*;

verus! {

/// A vector with whole-number coordinates: what a `Vec2` stands for in contracts.
pub struct Vector {
    pub x: int,
    pub y: int,
}

impl Vector {
    pub open spec fn zero() -> Vector {
        Vector { x: 0, y: 0 }
    }

    pub open spec fn plus(self, other: Vector) -> Vector {
        Vector { x: self.x + other.x, y: self.y + other.y }
    }

    pub open spec fn minus(self, other: Vector) -> Vector {
        Vector { x: self.x - other.x, y: self.y - other.y }
    }

    /// The square of the Euclidean length, which is exact.
    pub open spec fn length_squared(self) -> int {
        self.x * self.x + self.y * self.y
    }

    /// The Euclidean length, rounded up to a whole number.
    pub open spec fn length(self) -> int {
        ceil_sqrt(self.length_squared())
    }

    /// Each coordinate times `num` over `den`, rounded toward zero.
    pub open spec fn scaled_toward_zero(self, num: int, den: int) -> Vector {
        Vector { x: div_toward_zero(self.x * num, den), y: div_toward_zero(self.y * num, den) }
    }

    /// Each coordinate times `num` over `den`, rounded away from zero.
    pub open spec fn scaled_away_from_zero(self, num: int, den: int) -> Vector {
        Vector {
            x: div_away_from_zero(self.x * num, den),
            y: div_away_from_zero(self.y * num, den),
        }
    }

    /// Each coordinate's share among `count`, rounded toward zero.
    pub open spec fn divided_by(self, count: int) -> Vector {
        Vector { x: div_toward_zero(self.x, count), y: div_toward_zero(self.y, count) }
    }

    /// The vector of the same length that points the other way.
    pub open spec fn negated(self) -> Vector {
        Vector { x: -self.x, y: -self.y }
    }

    /// The product with the fixed-point number `factor`.
    pub open spec fn times(self, factor: int) -> Vector {
        self.scaled_toward_zero(factor, UNIT as int)
    }

    /// By how much a vector is stretched before its direction is taken: a
    /// vector shorter than one unit by `UNIT`, so that its length is known to
    /// the millionth of a millionth of a unit; any other not at all.
    pub open spec fn magnification(self) -> int {
        if self.length_squared() < UNIT * UNIT {
            UNIT as int
        } else {
            1
        }
    }

    /// The vector, stretched by its magnification: of the same direction,
    /// and at least one unit long where it is not zero.
    pub open spec fn magnified(self) -> Vector {
        Vector { x: self.x * self.magnification(), y: self.y * self.magnification() }
    }

    /// The direction of the vector: of its own direction and one unit long,
    /// less what rounding toward zero takes, which is under three millionths;
    /// zero for the zero vector.
    pub open spec fn normalize_or_zero(self) -> Vector {
        if self.length_squared() == 0 {
            Vector::zero()
        } else {
            self.magnified().scaled_toward_zero(UNIT as int, self.magnified().length())
        }
    }

    /// The vector itself where it is no longer than `max`, else shortened to
    /// at most `max` along its direction.
    pub open spec fn clamp_length_max(self, max: int) -> Vector {
        if self.length_squared() > max * max {
            self.scaled_toward_zero(max, self.length())
        } else {
            self
        }
    }

    /// The vector scaled by `min` over its rounded-down length, away from
    /// zero: at least `min` long.
    pub open spec fn stretched(self, min: int) -> Vector {
        self.scaled_away_from_zero(min, floor_sqrt(self.length_squared()))
    }

    /// The vector itself where it is no shorter than `min`, else lengthened to
    /// at least `min` along its direction, in two steps: the first reaches
    /// `min` and may pass it by much where the vector is a few millionths
    /// long; the second starts from what the first gave and passes `min` by
    /// less than three millionths. The zero vector has no direction and is
    /// given that of the x axis.
    pub open spec fn clamp_length_min(self, min: int) -> Vector {
        if self.length_squared() >= min * min {
            self
        } else if self.length_squared() == 0 {
            Vector { x: min, y: 0 }
        } else {
            self.stretched(min).stretched(min)
        }
    }
}

/// The square of a product is the product of the squares.
proof fn lemma_square_of_product(a: int, b: int)
    ensures
        (a * b) * (a * b) == (a * a) * (b * b),
{
    assert((a * b) * (a * b) == (a * a) * (b * b)) by (nonlinear_arith);
}

/// A squared length is never negative, and no less than the square of either
/// coordinate.
pub proof fn lemma_length_squared_sign(v: Vector)
    ensures
        v.length_squared() >= 0,
        v.x * v.x <= v.length_squared(),
        v.y * v.y <= v.length_squared(),
        v.length_squared() == 0 <==> v == Vector::zero(),
{
    assert(v.x * v.x >= 0 && v.y * v.y >= 0 && (v.x != 0 ==> v.x * v.x > 0) && (v.y != 0 ==> v.y
        * v.y > 0)) by (nonlinear_arith);
}

/// No coordinate is longer than the vector.
pub proof fn lemma_coordinates_within(v: Vector, r: int)
    requires
        r >= 0,
        r * r >= v.length_squared(),
    ensures
        magnitude_of(v.x) <= r,
        magnitude_of(v.y) <= r,
{
    assert(v.x * v.x >= 0 && v.y * v.y >= 0) by (nonlinear_arith);
    lemma_magnitude_below_root(v.x, r);
    lemma_magnitude_below_root(v.y, r);
}

/// Scaled toward zero by `num` over a denominator that is no less than its
/// length, a vector is no longer than `num`.
pub proof fn lemma_scaled_toward_zero_length(v: Vector, num: int, den: int)
    requires
        num >= 0,
        den > 0,
        den * den >= v.length_squared(),
    ensures
        v.scaled_toward_zero(num, den).length_squared() <= num * num,
        magnitude_of(v.scaled_toward_zero(num, den).x) <= num,
        magnitude_of(v.scaled_toward_zero(num, den).y) <= num,
{
    let w = v.scaled_toward_zero(num, den);
    let (ax, ay) = (magnitude_of(v.x), magnitude_of(v.y));
    let (qx, qy) = (magnitude_of(w.x), magnitude_of(w.y));
    lemma_coordinates_within(v, den);
    lemma_toward_zero_bounds(v.x, num, den);
    lemma_toward_zero_bounds(v.y, num, den);
    lemma_magnitude_square(v.x);
    lemma_magnitude_square(v.y);
    lemma_magnitude_square(w.x);
    lemma_magnitude_square(w.y);
    assert(qx * den >= 0 && qy * den >= 0) by (nonlinear_arith)
        requires
            qx >= 0,
            qy >= 0,
            den > 0,
    ;
    lemma_square_monotone(qx * den, ax * num);
    lemma_square_monotone(qy * den, ay * num);
    lemma_square_of_product(qx, den);
    lemma_square_of_product(qy, den);
    lemma_square_of_product(ax, num);
    lemma_square_of_product(ay, num);
    let (d2, n2) = (den * den, num * num);
    assert(d2 > 0 && n2 >= 0) by (nonlinear_arith)
        requires
            d2 == den * den,
            n2 == num * num,
            den > 0,
    ;
    let (sx, sy) = (v.x * v.x, v.y * v.y);
    let (tx, ty) = (w.x * w.x, w.y * w.y);
    assert(tx * d2 <= sx * n2);
    assert(ty * d2 <= sy * n2);
    assert(tx + ty <= n2) by (nonlinear_arith)
        requires
            tx * d2 <= sx * n2,
            ty * d2 <= sy * n2,
            sx + sy <= d2,
            d2 > 0,
            n2 >= 0,
    ;
}

/// Scaled away from zero by `num` over a positive denominator that is no more
/// than its length, a vector is no shorter than `num`.
pub proof fn lemma_scaled_away_from_zero_length(v: Vector, num: int, den: int)
    requires
        num >= 0,
        den > 0,
        den * den <= v.length_squared(),
    ensures
        v.scaled_away_from_zero(num, den).length_squared() >= num * num,
{
    let w = v.scaled_away_from_zero(num, den);
    let (ax, ay) = (magnitude_of(v.x), magnitude_of(v.y));
    let (qx, qy) = (magnitude_of(w.x), magnitude_of(w.y));
    lemma_away_from_zero_bounds(v.x, num, den);
    lemma_away_from_zero_bounds(v.y, num, den);
    lemma_magnitude_square(v.x);
    lemma_magnitude_square(v.y);
    lemma_magnitude_square(w.x);
    lemma_magnitude_square(w.y);
    assert(ax * num >= 0 && ay * num >= 0) by (nonlinear_arith)
        requires
            ax >= 0,
            ay >= 0,
            num >= 0,
    ;
    lemma_square_monotone(ax * num, qx * den);
    lemma_square_monotone(ay * num, qy * den);
    lemma_square_of_product(qx, den);
    lemma_square_of_product(qy, den);
    lemma_square_of_product(ax, num);
    lemma_square_of_product(ay, num);
    let (d2, n2) = (den * den, num * num);
    assert(d2 > 0 && n2 >= 0) by (nonlinear_arith)
        requires
            d2 == den * den,
            n2 == num * num,
            den > 0,
    ;
    let (sx, sy) = (v.x * v.x, v.y * v.y);
    let (tx, ty) = (w.x * w.x, w.y * w.y);
    assert(tx * d2 >= sx * n2);
    assert(ty * d2 >= sy * n2);
    assert(tx + ty >= n2) by (nonlinear_arith)
        requires
            tx * d2 >= sx * n2,
            ty * d2 >= sy * n2,
            sx + sy >= d2,
            d2 > 0,
            n2 >= 0,
    ;
}

/// The sum of two natural numbers is less than twice a bound whose square
/// the sum of their squares does not pass.
proof fn lemma_sum_below_twice(a: int, b: int, bound: int)
    requires
        a >= 0,
        b >= 0,
        bound > 0,
        a * a + b * b <= bound * bound,
    ensures
        a + b < 2 * bound,
{
    let t = a + b;
    assert(t * t <= 2 * (a * a + b * b)) by (nonlinear_arith)
        requires
            t == a + b,
    ;
    if t >= 2 * bound {
        lemma_square_monotone(2 * bound, t);
        assert((2 * bound) * (2 * bound) == 4 * (bound * bound)) by (nonlinear_arith);
        assert(bound * bound > 0) by (nonlinear_arith)
            requires
                bound > 0,
        ;
    }
}

/// Scaled toward zero by `num` over its own rounded-up length, which is no
/// less than `num`, a vector is shorter than `num` by less than three.
pub proof fn lemma_scaled_toward_zero_reach(v: Vector, num: int, den: int)
    requires
        num >= 3,
        den >= num,
        den * den >= v.length_squared(),
        (den - 1) * (den - 1) < v.length_squared(),
    ensures
        v.scaled_toward_zero(num, den).length_squared() >= (num - 3) * (num - 3),
{
    let w = v.scaled_toward_zero(num, den);
    let (a, b) = (magnitude_of(v.x), magnitude_of(v.y));
    let (qa, qb) = (magnitude_of(w.x), magnitude_of(w.y));
    lemma_toward_zero_bounds(v.x, num, den);
    lemma_toward_zero_bounds(v.y, num, den);
    lemma_magnitude_square(v.x);
    lemma_magnitude_square(v.y);
    lemma_magnitude_square(w.x);
    lemma_magnitude_square(w.y);
    let n = v.length_squared();
    let s = w.length_squared();
    // One more than each quotient, times the length, passes the product.
    let (ua, ub) = ((qa + 1) * den, (qb + 1) * den);
    let (pa, pb) = (a * num, b * num);
    assert(pa >= 0 && pb >= 0) by (nonlinear_arith)
        requires
            pa == a * num,
            pb == b * num,
            a >= 0,
            b >= 0,
            num >= 0,
    ;
    vstd::arithmetic::div_mod::lemma_fundamental_div_mod(pa, den);
    vstd::arithmetic::div_mod::lemma_fundamental_div_mod(pb, den);
    vstd::arithmetic::div_mod::lemma_mod_bound(pa, den);
    vstd::arithmetic::div_mod::lemma_mod_bound(pb, den);
    assert(ua == den * qa + den && ub == den * qb + den) by (nonlinear_arith)
        requires
            ua == (qa + 1) * den,
            ub == (qb + 1) * den,
    ;
    assert(ua >= pa + 1 && ub >= pb + 1);
    lemma_square_monotone(pa + 1, ua);
    lemma_square_monotone(pb + 1, ub);
    assert((pa + 1) * (pa + 1) > pa * pa && (pb + 1) * (pb + 1) > pb * pb) by (nonlinear_arith)
        requires
            pa >= 0,
            pb >= 0,
    ;
    lemma_square_of_product(qa + 1, den);
    lemma_square_of_product(qb + 1, den);
    lemma_square_of_product(a, num);
    lemma_square_of_product(b, num);
    let (d2, n2) = (den * den, num * num);
    assert(d2 > 0 && n2 >= 0) by (nonlinear_arith)
        requires
            d2 == den * den,
            n2 == num * num,
            den > 0,
    ;
    let reach = (qa + 1) * (qa + 1) + (qb + 1) * (qb + 1);
    assert(reach * d2 > n * n2) by (nonlinear_arith)
        requires
            reach == (qa + 1) * (qa + 1) + (qb + 1) * (qb + 1),
            ((qa + 1) * (qa + 1)) * d2 > (a * a) * n2,
            ((qb + 1) * (qb + 1)) * d2 > (b * b) * n2,
            n == a * a + b * b,
    ;
    // The length less one, times `num`, is no less than the length times
    // `num` less one.
    let (lo, hi) = (den * (num - 1), (den - 1) * num);
    assert(0 <= lo <= hi) by (nonlinear_arith)
        requires
            lo == den * (num - 1),
            hi == (den - 1) * num,
            den >= num,
            num >= 3,
    ;
    lemma_square_monotone(lo, hi);
    lemma_square_of_product(den, num - 1);
    lemma_square_of_product(den - 1, num);
    let m1 = (num - 1) * (num - 1);
    assert(n * n2 >= d2 * m1) by (nonlinear_arith)
        requires
            n > (den - 1) * (den - 1),
            n2 >= 0,
            ((den - 1) * (den - 1)) * n2 >= d2 * m1,
            n2 == num * num,
    ;
    assert(reach > m1) by (nonlinear_arith)
        requires
            reach * d2 > d2 * m1,
            d2 > 0,
    ;
    // Were the result shorter, the quotients could not reach that far.
    lemma_length_squared_sign(w);
    if num == 3 {
        assert((num - 3) * (num - 3) == 0) by (nonlinear_arith)
            requires
                num == 3,
        ;
    } else if s < (num - 3) * (num - 3) {
        lemma_sum_below_twice(qa, qb, num - 3);
        assert(reach == s + 2 * (qa + qb) + 2) by (nonlinear_arith)
            requires
                reach == (qa + 1) * (qa + 1) + (qb + 1) * (qb + 1),
                s == qa * qa + qb * qb,
        ;
        assert((num - 3) * (num - 3) + 4 * (num - 3) + 2 < m1) by (nonlinear_arith)
            requires
                m1 == (num - 1) * (num - 1),
        ;
    }
}

/// Scaled away from zero by `num` over its own rounded-down length, which is
/// no less than `num`, a vector is longer than `num` by less than three.
pub proof fn lemma_scaled_away_from_zero_reach(v: Vector, num: int, den: int)
    requires
        num >= 0,
        den > 0,
        den >= num,
        den * den <= v.length_squared(),
        v.length_squared() < (den + 1) * (den + 1),
    ensures
        v.scaled_away_from_zero(num, den).length_squared() <= (num + 3) * (num + 3),
{
    let w = v.scaled_away_from_zero(num, den);
    let (a, b) = (magnitude_of(v.x), magnitude_of(v.y));
    let (qa, qb) = (magnitude_of(w.x), magnitude_of(w.y));
    lemma_away_from_zero_bounds(v.x, num, den);
    lemma_away_from_zero_bounds(v.y, num, den);
    lemma_magnitude_square(v.x);
    lemma_magnitude_square(v.y);
    lemma_magnitude_square(w.x);
    lemma_magnitude_square(w.y);
    let n = v.length_squared();
    let s = w.length_squared();
    // One less than each quotient, times the length, stays below the product.
    let (ka, kb): (int, int) = (if qa > 0 {
        qa - 1
    } else {
        0
    }, if qb > 0 {
        qb - 1
    } else {
        0
    });
    let (pa, pb) = (a * num, b * num);
    assert(pa >= 0 && pb >= 0) by (nonlinear_arith)
        requires
            pa == a * num,
            pb == b * num,
            a >= 0,
            b >= 0,
            num >= 0,
    ;
    vstd::arithmetic::div_mod::lemma_fundamental_div_mod(pa + den - 1, den);
    vstd::arithmetic::div_mod::lemma_fundamental_div_mod(pb + den - 1, den);
    vstd::arithmetic::div_mod::lemma_mod_bound(pa + den - 1, den);
    vstd::arithmetic::div_mod::lemma_mod_bound(pb + den - 1, den);
    let (la, lb) = (ka * den, kb * den);
    assert(0 <= la <= pa && 0 <= lb <= pb) by (nonlinear_arith)
        requires
            la == ka * den,
            lb == kb * den,
            ka >= 0,
            kb >= 0,
            den > 0,
            pa >= 0,
            pb >= 0,
            qa > 0 ==> ka == qa - 1 && den * qa <= pa + den - 1,
            qb > 0 ==> kb == qb - 1 && den * qb <= pb + den - 1,
            qa <= 0 ==> ka == 0,
            qb <= 0 ==> kb == 0,
    ;
    lemma_square_monotone(la, pa);
    lemma_square_monotone(lb, pb);
    lemma_square_of_product(ka, den);
    lemma_square_of_product(kb, den);
    lemma_square_of_product(a, num);
    lemma_square_of_product(b, num);
    let (d2, n2) = (den * den, num * num);
    assert(d2 > 0 && n2 >= 0) by (nonlinear_arith)
        requires
            d2 == den * den,
            n2 == num * num,
            den > 0,
    ;
    let t = ka * ka + kb * kb;
    assert(t * d2 <= n * n2) by (nonlinear_arith)
        requires
            t == ka * ka + kb * kb,
            (ka * ka) * d2 <= (a * a) * n2,
            (kb * kb) * d2 <= (b * b) * n2,
            n == a * a + b * b,
    ;
    // The length plus one, times `num`, is no more than the length times
    // `num` plus one.
    let (lo, hi) = ((den + 1) * num, den * (num + 1));
    assert(0 <= lo <= hi) by (nonlinear_arith)
        requires
            lo == (den + 1) * num,
            hi == den * (num + 1),
            den >= num,
            num >= 0,
    ;
    lemma_square_monotone(lo, hi);
    lemma_square_of_product(den + 1, num);
    lemma_square_of_product(den, num + 1);
    let m1 = (num + 1) * (num + 1);
    assert(n * n2 <= d2 * m1) by (nonlinear_arith)
        requires
            n <= (den + 1) * (den + 1),
            n2 >= 0,
            ((den + 1) * (den + 1)) * n2 <= d2 * m1,
            n2 == num * num,
    ;
    assert(t <= m1) by (nonlinear_arith)
        requires
            t * d2 <= d2 * m1,
            d2 > 0,
    ;
    lemma_sum_below_twice(ka, kb, num + 1);
    lemma_square_monotone(qa, ka + 1);
    lemma_square_monotone(qb, kb + 1);
    assert((ka + 1) * (ka + 1) + (kb + 1) * (kb + 1) == t + 2 * (ka + kb) + 2) by (nonlinear_arith)
        requires
            t == ka * ka + kb * kb,
    ;
    assert(m1 + 2 * (2 * num + 1) + 2 <= (num + 3) * (num + 3)) by (nonlinear_arith)
        requires
            m1 == (num + 1) * (num + 1),
    ;
}

/// A vector that is not zero, magnified, is at least one unit long, and as
/// many times longer than before as its magnification says.
pub proof fn lemma_magnified(v: Vector)
    requires
        v.length_squared() != 0,
    ensures
        v.magnified().length_squared() >= UNIT * UNIT,
        v.magnified().length_squared() == v.length_squared() * (v.magnification()
            * v.magnification()),
        v.magnified().length() >= UNIT,
        v.magnified().length() >= v.magnification(),
        v.length_squared() < UNIT * UNIT ==> magnitude_of(v.x) < UNIT && magnitude_of(v.y) < UNIT,
{
    lemma_length_squared_sign(v);
    let m = v.magnification();
    let n = v.length_squared();
    let w = v.magnified();
    assert(w.length_squared() == n * (m * m)) by (nonlinear_arith)
        requires
            w.length_squared() == (v.x * m) * (v.x * m) + (v.y * m) * (v.y * m),
            n == v.x * v.x + v.y * v.y,
    ;
    assert(UNIT * UNIT == 1_000_000_000_000) by (nonlinear_arith);
    if n < UNIT * UNIT {
        assert(n * (m * m) >= UNIT * UNIT) by (nonlinear_arith)
            requires
                n >= 1,
                m == UNIT,
        ;
        lemma_magnitude_strictly_below_root(v.x, UNIT as int);
        lemma_magnitude_strictly_below_root(v.y, UNIT as int);
    } else {
        assert(n * (m * m) == n) by (nonlinear_arith)
            requires
                m == 1,
        ;
    }
    lemma_ceil_sqrt_positive(w.length_squared());
    if w.length() < UNIT {
        lemma_square_monotone(w.length(), UNIT - 1);
        assert((UNIT - 1) * (UNIT - 1) < UNIT * UNIT) by (nonlinear_arith);
    }
}

/// A direction is one unit long, less under three millionths; only the zero
/// vector has none.
pub proof fn lemma_normalize_length(v: Vector)
    ensures
        v.normalize_or_zero().length_squared() <= UNIT * UNIT,
        v.length_squared() != 0 ==> v.normalize_or_zero().length_squared() >= (UNIT - 3) * (UNIT
            - 3),
        magnitude_of(v.normalize_or_zero().x) <= UNIT,
        magnitude_of(v.normalize_or_zero().y) <= UNIT,
{
    if v.length_squared() != 0 {
        lemma_magnified(v);
        let w = v.magnified();
        lemma_ceil_sqrt_positive(w.length_squared());
        lemma_ceil_sqrt_exists(w.length_squared());
        lemma_scaled_toward_zero_length(w, UNIT as int, w.length());
        lemma_scaled_toward_zero_reach(w, UNIT as int, w.length());
    }
}

/// Taking the direction of a short vector is taking that of the vector
/// stretched by `UNIT`: the length of a vector does not count in its
/// direction.
pub proof fn lemma_normalize_magnified(v: Vector)
    ensures
        v.normalize_or_zero() == v.magnified().normalize_or_zero(),
{
    lemma_length_squared_sign(v);
    if v.length_squared() != 0 {
        lemma_magnified(v);
        let w = v.magnified();
        assert(w.magnified() == w);
    } else {
        assert(v.magnified() == v) by (nonlinear_arith)
            requires
                v.x == 0,
                v.y == 0,
                v.magnified().x == v.x * v.magnification(),
                v.magnified().y == v.y * v.magnification(),
        ;
    }
}

/// A direction points as its vector does: each coordinate has the sign of
/// the vector's, and the two are parallel but for the rounding, which turns
/// the direction by less than two millionths of the full angle: the cross
/// product of the two is no more than the sum of the vector's coordinates,
/// where it is as much as the product of the lengths for a right angle.
pub proof fn lemma_normalize_direction(v: Vector)
    ensures
        v.x >= 0 ==> v.normalize_or_zero().x >= 0,
        v.x <= 0 ==> v.normalize_or_zero().x <= 0,
        v.y >= 0 ==> v.normalize_or_zero().y >= 0,
        v.y <= 0 ==> v.normalize_or_zero().y <= 0,
        magnitude_of(v.normalize_or_zero().x * v.y - v.normalize_or_zero().y * v.x) <= magnitude_of(
            v.x,
        ) + magnitude_of(v.y),
{
    let d = v.normalize_or_zero();
    lemma_length_squared_sign(v);
    if v.length_squared() == 0 {
        assert(d.x * v.y - d.y * v.x == 0) by (nonlinear_arith)
            requires
                d.x == 0,
                d.y == 0,
        ;
    } else {
        lemma_magnified(v);
        let m = v.magnification();
        let w = v.magnified();
        let len = w.length();
        lemma_toward_zero_bounds(w.x, UNIT as int, len);
        lemma_toward_zero_bounds(w.y, UNIT as int, len);
        let (a, b) = (magnitude_of(v.x), magnitude_of(v.y));
        let (aw, bw) = (magnitude_of(w.x), magnitude_of(w.y));
        let (qa, qb) = (magnitude_of(d.x), magnitude_of(d.y));
        assert(aw == m * a && bw == m * b && (v.x >= 0 ==> w.x >= 0) && (v.x <= 0 ==> w.x <= 0) && (
        v.y >= 0 ==> w.y >= 0) && (v.y <= 0 ==> w.y <= 0)) by (nonlinear_arith)
            requires
                m >= 1,
                w.x == v.x * m,
                w.y == v.y * m,
                a == magnitude_of(v.x),
                b == magnitude_of(v.y),
                aw == magnitude_of(w.x),
                bw == magnitude_of(w.y),
        ;
        // What rounding took of each coordinate, times the length.
        let (ea, eb) = (aw * UNIT - qa * len, bw * UNIT - qb * len);
        assert(0 <= ea < len && 0 <= eb < len);
        let c = qa * b - qb * a;
        let (ka, kb) = (qa * len, qb * len);
        let u = UNIT as int;
        assert(eb * aw - ea * bw == ka * bw - kb * aw) by (nonlinear_arith)
            requires
                ea == aw * u - ka,
                eb == bw * u - kb,
        ;
        assert(ka * bw == (m * len) * (qa * b)) by (nonlinear_arith)
            requires
                ka == qa * len,
                bw == m * b,
        ;
        assert(kb * aw == (m * len) * (qb * a)) by (nonlinear_arith)
            requires
                kb == qb * len,
                aw == m * a,
        ;
        assert((m * len) * c == (m * len) * (qa * b) - (m * len) * (qb * a)) by (nonlinear_arith)
            requires
                c == qa * b - qb * a,
        ;
        assert(-(len * bw) <= eb * aw - ea * bw <= len * aw) by (nonlinear_arith)
            requires
                0 <= ea < len,
                0 <= eb < len,
                aw >= 0,
                bw >= 0,
        ;
        assert(-(a + b) <= c <= a + b) by (nonlinear_arith)
            requires
                -(len * bw) <= (m * len) * c <= len * aw,
                aw == m * a,
                bw == m * b,
                a >= 0,
                b >= 0,
                m >= 1,
                len >= 1,
        ;
        // The cross product is `c` or its opposite, as the signs fall.
        let cross = d.x * v.y - d.y * v.x;
        assert(cross == c || cross == -c) by (nonlinear_arith)
            requires
                cross == d.x * v.y - d.y * v.x,
                c == qa * b - qb * a,
                qa == magnitude_of(d.x),
                qb == magnitude_of(d.y),
                a == magnitude_of(v.x),
                b == magnitude_of(v.y),
                v.x >= 0 ==> d.x >= 0,
                v.x <= 0 ==> d.x <= 0,
                v.y >= 0 ==> d.y >= 0,
                v.y <= 0 ==> d.y <= 0,
        ;
    }
}

/// Clamped from above, a vector is no longer than the bound; and where it was
/// shortened, it is shorter than the bound by less than three.
pub proof fn lemma_clamp_length_max(v: Vector, max: int)
    requires
        max >= 0,
    ensures
        v.clamp_length_max(max).length_squared() <= max * max,
        magnitude_of(v.clamp_length_max(max).x) <= max,
        magnitude_of(v.clamp_length_max(max).y) <= max,
        max >= 3 && v.length_squared() > max * max ==> v.clamp_length_max(max).length_squared() >= (
        max - 3) * (max - 3),
{
    if v.length_squared() > max * max {
        assert(max * max >= 0) by (nonlinear_arith);
        lemma_ceil_sqrt_positive(v.length_squared());
        lemma_ceil_sqrt_exists(v.length_squared());
        lemma_scaled_toward_zero_length(v, max, v.length());
        if max >= 3 {
            if v.length() < max {
                lemma_square_monotone(v.length(), max);
            }
            lemma_scaled_toward_zero_reach(v, max, v.length());
        }
    } else {
        lemma_coordinates_within(v, max);
    }
}

/// Scaled away from zero, a vector is parallel to what it was but for the
/// rounding: the cross product of the two is no more than the sum of the
/// coordinates of the vector.
proof fn lemma_stretched_direction(v: Vector, num: int, den: int)
    requires
        num >= 0,
        den > 0,
    ensures
        magnitude_of(
            v.scaled_away_from_zero(num, den).x * v.y - v.scaled_away_from_zero(num, den).y * v.x,
        ) <= magnitude_of(v.x) + magnitude_of(v.y),
{
    let d = v.scaled_away_from_zero(num, den);
    lemma_away_from_zero_bounds(v.x, num, den);
    lemma_away_from_zero_bounds(v.y, num, den);
    let (a, b) = (magnitude_of(v.x), magnitude_of(v.y));
    let (qa, qb) = (magnitude_of(d.x), magnitude_of(d.y));
    let (ka, kb) = (qa * den, qb * den);
    // What rounding added to each coordinate, times the denominator.
    let (ea, eb) = (ka - a * num, kb - b * num);
    assert(0 <= ea < den && 0 <= eb < den);
    let c = qa * b - qb * a;
    assert(den * c == ka * b - kb * a) by (nonlinear_arith)
        requires
            c == qa * b - qb * a,
            ka == qa * den,
            kb == qb * den,
    ;
    assert(ka * b - kb * a == ea * b - eb * a) by (nonlinear_arith)
        requires
            ea == ka - a * num,
            eb == kb - b * num,
    ;
    assert(-(den * a) <= ea * b - eb * a <= den * b) by (nonlinear_arith)
        requires
            0 <= ea < den,
            0 <= eb < den,
            a >= 0,
            b >= 0,
    ;
    assert(-(a + b) <= c <= a + b) by (nonlinear_arith)
        requires
            -(den * a) <= den * c <= den * b,
            a >= 0,
            b >= 0,
            den >= 1,
    ;
    let cross = d.x * v.y - d.y * v.x;
    assert(cross == c || cross == -c) by (nonlinear_arith)
        requires
            cross == d.x * v.y - d.y * v.x,
            c == qa * b - qb * a,
            qa == magnitude_of(d.x),
            qb == magnitude_of(d.y),
            a == magnitude_of(v.x),
            b == magnitude_of(v.y),
            v.x >= 0 ==> d.x >= 0,
            v.x <= 0 ==> d.x <= 0,
            v.y >= 0 ==> d.y >= 0,
            v.y <= 0 ==> d.y <= 0,
    ;
}

/// Stretched to `min`, a vector that is not zero is no shorter than `min`
/// and has no coordinate beyond `min`; and where it was no shorter than `min`
/// before, it is longer than `min` by less than three. It points as before:
/// each coordinate keeps its sign, and the cross product with what it was is
/// no more than the sum of the coordinates that it had.
pub proof fn lemma_stretched(v: Vector, min: int)
    requires
        min >= 0,
        v.length_squared() != 0,
    ensures
        v.stretched(min).length_squared() >= min * min,
        magnitude_of(v.stretched(min).x) <= min,
        magnitude_of(v.stretched(min).y) <= min,
        v.length_squared() >= min * min ==> v.stretched(min).length_squared() <= (min + 3) * (min
            + 3),
        v.x >= 0 ==> v.stretched(min).x >= 0,
        v.x <= 0 ==> v.stretched(min).x <= 0,
        v.y >= 0 ==> v.stretched(min).y >= 0,
        v.y <= 0 ==> v.stretched(min).y <= 0,
        magnitude_of(v.stretched(min).x * v.y - v.stretched(min).y * v.x) <= magnitude_of(v.x)
            + magnitude_of(v.y),
{
    let n = v.length_squared();
    lemma_length_squared_sign(v);
    lemma_floor_sqrt_bounds(n);
    let f = floor_sqrt(n);
    lemma_stretched_direction(v, min, f);
    lemma_scaled_away_from_zero_length(v, min, f);
    lemma_magnitude_strictly_below_root(v.x, f + 1);
    lemma_magnitude_strictly_below_root(v.y, f + 1);
    lemma_away_from_zero_bounds(v.x, min, f);
    lemma_away_from_zero_bounds(v.y, min, f);
    if n >= min * min {
        if f < min {
            lemma_square_monotone(f + 1, min);
        }
        lemma_scaled_away_from_zero_reach(v, min, f);
    }
}

/// Clamped from below, a vector is no shorter than the bound; and where it
/// was lengthened, it is longer than the bound by less than three, and none
/// of its coordinates is beyond the bound. A vector that is not zero keeps
/// the sign of each coordinate; each of the two steps that lengthen it turns
/// it by no more than `lemma_stretched` says.
pub proof fn lemma_clamp_length_min(v: Vector, min: int)
    requires
        min >= 0,
    ensures
        v.clamp_length_min(min).length_squared() >= min * min,
        v.length_squared() < min * min ==> v.clamp_length_min(min).length_squared() <= (min + 3) * (
        min + 3),
        v.length_squared() < min * min ==> magnitude_of(v.clamp_length_min(min).x) <= min
            && magnitude_of(v.clamp_length_min(min).y) <= min,
        v.length_squared() != 0 ==> {
            &&& v.x >= 0 ==> v.clamp_length_min(min).x >= 0
            &&& v.x <= 0 ==> v.clamp_length_min(min).x <= 0
            &&& v.y >= 0 ==> v.clamp_length_min(min).y >= 0
            &&& v.y <= 0 ==> v.clamp_length_min(min).y <= 0
        },
{
    let n = v.length_squared();
    if n < min * min {
        if n == 0 {
            assert(0 * 0 == 0) by (nonlinear_arith);
            assert(min * min <= (min + 3) * (min + 3)) by (nonlinear_arith)
                requires
                    min >= 0,
            ;
        } else {
            lemma_stretched(v, min);
            let rough = v.stretched(min);
            lemma_length_squared_sign(v);
            assert(min * min > 0);
            lemma_stretched(rough, min);
        }
    }
}

/// A vector of the plane in fixed-point coordinates.
#[derive(Clone, Copy, Debug, PartialEq, Eq, Structural)]
pub struct Vec2 {
    pub x: i64,
    pub y: i64,
}

impl View for Vec2 {
    type V = Vector;

    open spec fn view(&self) -> Vector {
        Vector { x: self.x as int, y: self.y as int }
    }
}

impl Vec2 {
    pub fn new(x: i64, y: i64) -> (v: Vec2)
        ensures
            v.x == x,
            v.y == y,
    {
        Vec2 { x, y }
    }

    pub fn zero() -> (v: Vec2)
        ensures
            v@ == Vector::zero(),
    {
        Vec2 { x: 0, y: 0 }
    }

    /// The square of the length: exact, and what distances are compared by.
    pub fn length_squared(self) -> (n: u128)
        ensures
            n == self@.length_squared(),
    {
        let mx: u128 = magnitude(self.x);
        let my: u128 = magnitude(self.y);
        proof {
            lemma_magnitude_square(self.x as int);
            lemma_magnitude_square(self.y as int);
            assert(mx * mx <= 0x4000_0000_0000_0000_0000_0000_0000_0000 && my * my
                <= 0x4000_0000_0000_0000_0000_0000_0000_0000) by (nonlinear_arith)
                requires
                    0 <= mx <= 0x8000_0000_0000_0000,
                    0 <= my <= 0x8000_0000_0000_0000,
            ;
        }
        mx * mx + my * my
    }

    /// The length, rounded up.
    pub fn length(self) -> (r: u128)
        ensures
            r == self@.length(),
    {
        isqrt_ceil(self.length_squared())
    }

    /// By how much the vector is stretched before its direction is taken.
    pub fn magnification(self) -> (m: i64)
        ensures
            m == self@.magnification(),
    {
        assert(UNIT * UNIT == 1_000_000_000_000) by (nonlinear_arith);
        if self.length_squared() < 1_000_000_000_000 {
            UNIT
        } else {
            1
        }
    }

    /// The vector, stretched by its magnification.
    pub fn magnified(self) -> (w: Vec2)
        ensures
            w@ == self@.magnified(),
    {
        assert(UNIT * UNIT == 1_000_000_000_000) by (nonlinear_arith);
        if self.length_squared() < 1_000_000_000_000 {
            proof {
                lemma_length_squared_sign(self@);
                lemma_magnitude_strictly_below_root(self.x as int, UNIT as int);
                lemma_magnitude_strictly_below_root(self.y as int, UNIT as int);
            }
            Vec2 { x: self.x * UNIT, y: self.y * UNIT }
        } else {
            assert(self.x * 1 == self.x && self.y * 1 == self.y);
            self
        }
    }

    /// The direction of the vector, or zero for the zero vector.
    pub fn normalize_or_zero(self) -> (d: Vec2)
        ensures
            d@ == self@.normalize_or_zero(),
            d@.length_squared() <= UNIT * UNIT,
            self@.length_squared() != 0 ==> d@.length_squared() >= (UNIT - 3) * (UNIT - 3),
            magnitude_of(d.x as int) <= UNIT,
            magnitude_of(d.y as int) <= UNIT,
    {
        let n: u128 = self.length_squared();
        proof {
            lemma_normalize_length(self@);
        }
        if n == 0 {
            Vec2 { x: 0, y: 0 }
        } else {
            let w = self.magnified();
            let len: u128 = w.length();
            proof {
                lemma_magnified(self@);
                lemma_ceil_sqrt_exists(w@.length_squared());
                lemma_coordinates_within(w@, len as int);
                lemma_toward_zero_bounds(w.x as int, UNIT as int, len as int);
                lemma_toward_zero_bounds(w.y as int, UNIT as int, len as int);
            }
            Vec2 {
                x: mul_div_toward_zero(w.x, UNIT, len),
                y: mul_div_toward_zero(w.y, UNIT, len),
            }
        }
    }

    /// The vector, shortened along its direction where it is longer than `max`.
    pub fn clamp_length_max(self, max: i64) -> (c: Vec2)
        requires
            max >= 0,
        ensures
            c@ == self@.clamp_length_max(max as int),
            c@.length_squared() <= max * max,
            max >= 3 && self@.length_squared() > max * max ==> c@.length_squared() >= (max - 3) * (
            max - 3),
            magnitude_of(c.x as int) <= max,
            magnitude_of(c.y as int) <= max,
    {
        let n: u128 = self.length_squared();
        let bound: u128 = max as u128;
        proof {
            lemma_clamp_length_max(self@, max as int);
            assert(bound * bound <= u128::MAX) by (nonlinear_arith)
                requires
                    0 <= bound <= 0x7fff_ffff_ffff_ffff,
            ;
        }
        if n > bound * bound {
            let len: u128 = isqrt_ceil(n);
            proof {
                assert(bound * bound >= 0) by (nonlinear_arith);
                lemma_ceil_sqrt_positive(n as int);
                lemma_coordinates_within(self@, len as int);
                lemma_toward_zero_bounds(self.x as int, max as int, len as int);
                lemma_toward_zero_bounds(self.y as int, max as int, len as int);
            }
            Vec2 {
                x: mul_div_toward_zero(self.x, max, len),
                y: mul_div_toward_zero(self.y, max, len),
            }
        } else {
            self
        }
    }

    /// The vector scaled by `min` over its rounded-down length, away from
    /// zero.
    fn stretched(self, min: i64) -> (c: Vec2)
        requires
            min >= 0,
            self@.length_squared() != 0,
        ensures
            c@ == self@.stretched(min as int),
    {
        let down: u128 = isqrt_floor(self.length_squared());
        proof {
            lemma_stretched(self@, min as int);
            lemma_length_squared_sign(self@);
            lemma_floor_sqrt_bounds(self@.length_squared());
            lemma_magnitude_strictly_below_root(self.x as int, down + 1);
            lemma_magnitude_strictly_below_root(self.y as int, down + 1);
            lemma_away_from_zero_bounds(self.x as int, min as int, down as int);
            lemma_away_from_zero_bounds(self.y as int, min as int, down as int);
        }
        Vec2 {
            x: mul_div_away_from_zero(self.x, min, down),
            y: mul_div_away_from_zero(self.y, min, down),
        }
    }

    /// The vector, lengthened along its direction where it is shorter than
    /// `min`; the zero vector becomes `(min, 0)`.
    pub fn clamp_length_min(self, min: i64) -> (c: Vec2)
        requires
            min >= 0,
        ensures
            c@ == self@.clamp_length_min(min as int),
            c@.length_squared() >= min * min,
            self@.length_squared() < min * min ==> c@.length_squared() <= (min + 3) * (min + 3),
    {
        let n: u128 = self.length_squared();
        let bound: u128 = min as u128;
        proof {
            lemma_clamp_length_min(self@, min as int);
            assert(bound * bound <= u128::MAX) by (nonlinear_arith)
                requires
                    0 <= bound <= 0x7fff_ffff_ffff_ffff,
            ;
        }
        if n >= bound * bound {
            self
        } else if n == 0 {
            Vec2 { x: min, y: 0 }
        } else {
            let rough = self.stretched(min);
            proof {
                lemma_stretched(self@, min as int);
                lemma_length_squared_sign(self@);
            }
            rough.stretched(min)
        }
    }

    /// The product with the fixed-point number `factor`.
    pub fn times(self, factor: i64) -> (p: Vec2)
        requires
            factor >= 0,
            magnitude_of(self.x as int) * factor / (UNIT as int) <= i64::MAX,
            magnitude_of(self.y as int) * factor / (UNIT as int) <= i64::MAX,
        ensures
            p@ == self@.times(factor as int),
    {
        Vec2 {
            x: mul_div_toward_zero(self.x, factor, UNIT as u128),
            y: mul_div_toward_zero(self.y, factor, UNIT as u128),
        }
    }
}

} // verus!
