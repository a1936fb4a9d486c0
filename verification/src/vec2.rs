//! Plane vectors: the mathematical [`Vector`] and its machine form [`Vec2`].

use vstd::prelude::*;
use vstd::arithmetic::div_mod::lemma_fundamental_div_mod;
use crate::fixed::{
    ceil_sqrt, div_away_from_zero, div_inward, div_outward, div_toward_zero, floor_sqrt,
    is_floor_sqrt, isqrt, isqrt_ceil, lemma_ceil_sqrt, lemma_floor_sqrt, lemma_floor_sqrt_is,
    lemma_square_le, lemma_square_lt, magnitude,
};

verus! {

/// A vector of the plane with integer coordinates, counted in thousandths.
pub struct Vector {
    pub x: int,
    pub y: int,
}

impl Vector {
    /// The vector with both coordinates zero.
    pub open spec fn zero() -> Vector {
        Vector { x: 0, y: 0 }
    }

    /// The sum of two vectors.
    pub open spec fn plus(self, other: Vector) -> Vector {
        Vector { x: self.x + other.x, y: self.y + other.y }
    }

    /// The difference of two vectors.
    pub open spec fn minus(self, other: Vector) -> Vector {
        Vector { x: self.x - other.x, y: self.y - other.y }
    }

    /// The vector multiplied by the integer `k`.
    pub open spec fn times(self, k: int) -> Vector {
        Vector { x: self.x * k, y: self.y * k }
    }

    /// The vector divided by a positive `d`, each coordinate rounded toward
    /// zero.
    pub open spec fn over(self, d: int) -> Vector {
        Vector { x: div_toward_zero(self.x, d), y: div_toward_zero(self.y, d) }
    }

    /// The scalar product of two vectors.
    pub open spec fn dot(self, other: Vector) -> int {
        self.x * other.x + self.y * other.y
    }

    /// The cross product of two vectors: zero where they lie on one line,
    /// and else the product of their lengths and the sine of the angle
    /// between them.
    pub open spec fn cross(self, other: Vector) -> int {
        self.x * other.y - self.y * other.x
    }

    /// The square of the vector's length.
    pub open spec fn norm_squared(self) -> nat {
        (self.x * self.x + self.y * self.y) as nat
    }

    /// Whether neither coordinate exceeds `limit` in absolute value.
    pub open spec fn within(self, limit: int) -> bool {
        -limit <= self.x <= limit && -limit <= self.y <= limit
    }

    /// Whether each coordinate lies between that of `lo` and that of `hi`.
    pub open spec fn between(self, lo: Vector, hi: Vector) -> bool {
        lo.x <= self.x <= hi.x && lo.y <= self.y <= hi.y
    }

    /// The vector multiplied by `target` and divided by its length: the
    /// length is rounded up and each coordinate toward zero, so the result
    /// is never longer than `target`. It is shorter by less than three where
    /// the vector is at least as long as `target`.
    pub open spec fn scaled_down_to(self, target: nat) -> Vector {
        let len = ceil_sqrt(self.norm_squared());
        if len == 0 {
            Vector::zero()
        } else {
            Vector {
                x: div_toward_zero(self.x * target, len as int),
                y: div_toward_zero(self.y * target, len as int),
            }
        }
    }

    /// The vector multiplied by `target` and divided by its length: the
    /// length is rounded down and each coordinate away from zero, so the
    /// result is never shorter than `target`. It is longer by less than
    /// three where the vector is at least as long as `target`. The zero
    /// vector has no direction and stays zero.
    pub open spec fn scaled_up_to(self, target: nat) -> Vector {
        let len = floor_sqrt(self.norm_squared());
        if len == 0 {
            Vector::zero()
        } else {
            Vector {
                x: div_away_from_zero(self.x * target, len as int),
                y: div_away_from_zero(self.y * target, len as int),
            }
        }
    }

    /// The vector magnified so that its length, unless it is zero, has at
    /// least thirty-three binary digits: rounding the length to a whole
    /// number then changes it by less than one part in four thousand
    /// million.
    pub open spec fn magnified(self) -> Vector {
        self.times(magnification(self.norm_squared()) as int)
    }

    /// The vector turned to the length `target`, or less than three
    /// thousandths below it, without changing its direction: the magnified
    /// vector multiplied by `target` and divided by its length, the length
    /// rounded up and each coordinate toward zero. The zero vector stays
    /// zero.
    pub open spec fn shortened_to(self, target: nat) -> Vector {
        self.magnified().scaled_down_to(target)
    }

    /// The vector turned to the length `target`, or less than three
    /// thousandths above it, without changing its direction: the magnified
    /// vector multiplied by `target` and divided by its length, the length
    /// rounded down and each coordinate away from zero. The zero vector
    /// stays zero.
    pub open spec fn lengthened_to(self, target: nat) -> Vector {
        self.magnified().scaled_up_to(target)
    }
}

/// The factor by which a vector of squared length `n` is magnified before
/// it is rescaled: two to the thirty-second below a length of two to the
/// thirty-second, and one from there on.
pub open spec fn magnification(n: nat) -> nat {
    if n < 0x1_0000_0000_0000_0000 {
        0x1_0000_0000
    } else {
        1
    }
}

/// A vector of the plane in machine integers, counted in thousandths.
#[derive(Clone, Copy, Debug, PartialEq, Eq, Structural)]
pub struct Vec2 {
    pub x: i64,
    pub y: i64,
}

impl View for Vec2 {
    type V = Vector;

    open spec fn view(&self) -> Vector {
        Vector { x: self.x as int, y: self.y as int }
    }
}

/// The product of a coordinate's magnitude by a target, divided by a length
/// no shorter than the coordinate and rounded down, stays below the target
/// and, squared and multiplied back, below the squared product.
proof fn lemma_scaled_down(x: int, t: int, s: int)
    requires
        s > 0,
        t >= 0,
        x * x <= s * s,
    ensures
        magnitude(div_toward_zero(x * t, s)) == (magnitude(x) * t) / s,
        0 <= (magnitude(x) * t) / s <= t,
        ((magnitude(x) * t) / s) * ((magnitude(x) * t) / s) * (s * s) <= x * x * (t * t),
        x >= 0 ==> div_toward_zero(x * t, s) >= 0,
        x <= 0 ==> div_toward_zero(x * t, s) <= 0,
{
    let m: int = magnitude(x);
    let big: int = m * t;
    let q: int = big / s;
    assert(m * m == x * x) by (nonlinear_arith)
        requires
            m == magnitude(x),
    ;
    assert(m <= s) by {
        if m > s {
            lemma_square_lt(s, m);
        }
    }
    assert(0 <= big <= s * t) by (nonlinear_arith)
        requires
            big == m * t,
            0 <= m <= s,
            t >= 0,
    ;
    lemma_fundamental_div_mod(big, s);
    assert(0 <= q && q * s <= big) by (nonlinear_arith)
        requires
            big == s * q + big % s,
            0 <= big % s < s,
            0 <= big,
            s > 0,
    ;
    assert(q <= t) by (nonlinear_arith)
        requires
            q * s <= big,
            big <= s * t,
            s > 0,
    ;
    lemma_square_le(q * s, big);
    assert(q * q * (s * s) == (q * s) * (q * s)) by (nonlinear_arith);
    assert(big * big == x * x * (t * t)) by (nonlinear_arith)
        requires
            big == m * t,
            m * m == x * x,
    ;
    if x == 0 {
        assert(big == 0) by (nonlinear_arith)
            requires
                big == m * t,
                m == 0,
        ;
    }
    if big == 0 {
        assert(q == 0) by (nonlinear_arith)
            requires
                0 <= q,
                q * s <= big,
                big == 0,
                s > 0,
        ;
    }
    let prod: int = x * t;
    if x >= 0 {
        assert(prod == big);
        assert(div_toward_zero(prod, s) == q);
    } else {
        assert(prod == -big) by (nonlinear_arith)
            requires
                prod == x * t,
                big == m * t,
                m == -x,
        ;
        if big == 0 {
            assert(div_toward_zero(prod, s) == q);
        } else {
            assert(-prod == big);
            assert(div_toward_zero(prod, s) == -q);
        }
    }
}

/// The product of a coordinate's magnitude by a target, divided by a
/// positive length and rounded up, is at least the exact quotient.
proof fn lemma_scaled_up(x: int, t: int, s: int)
    requires
        s > 0,
        t >= 0,
    ensures
        magnitude(div_away_from_zero(x * t, s)) == (magnitude(x) * t + s - 1) / s,
        0 <= (magnitude(x) * t + s - 1) / s,
        ((magnitude(x) * t + s - 1) / s) * ((magnitude(x) * t + s - 1) / s) * (s * s) >= x * x * (t
            * t),
        x * x <= s * s ==> (magnitude(x) * t + s - 1) / s <= t,
        x > 0 && t > 0 ==> div_away_from_zero(x * t, s) > 0,
        x < 0 && t > 0 ==> div_away_from_zero(x * t, s) < 0,
        x == 0 ==> div_away_from_zero(x * t, s) == 0,
        x >= 0 ==> div_away_from_zero(x * t, s) >= 0,
        x <= 0 ==> div_away_from_zero(x * t, s) <= 0,
{
    let m: int = magnitude(x);
    let big: int = m * t;
    let q: int = (big + s - 1) / s;
    assert(m * m == x * x) by (nonlinear_arith)
        requires
            m == magnitude(x),
    ;
    assert(0 <= big) by (nonlinear_arith)
        requires
            big == m * t,
            0 <= m,
            t >= 0,
    ;
    lemma_fundamental_div_mod(big + s - 1, s);
    assert(0 <= q && q * s >= big && q * s <= big + s - 1) by (nonlinear_arith)
        requires
            big + s - 1 == s * q + (big + s - 1) % s,
            0 <= (big + s - 1) % s < s,
            0 <= big,
            s > 0,
    ;
    lemma_square_le(big, q * s);
    assert(q * q * (s * s) == (q * s) * (q * s)) by (nonlinear_arith);
    assert(big * big == x * x * (t * t)) by (nonlinear_arith)
        requires
            big == m * t,
            m * m == x * x,
    ;
    if x * x <= s * s {
        assert(m <= s) by {
            if m > s {
                lemma_square_lt(s, m);
            }
        }
        assert(q <= t) by (nonlinear_arith)
            requires
                q * s <= big + s - 1,
                big == m * t,
                0 <= m <= s,
                t >= 0,
                s > 0,
        ;
    }
    if big > 0 {
        assert(q > 0) by (nonlinear_arith)
            requires
                q * s >= big,
                big > 0,
                s > 0,
        ;
    } else {
        assert(q == 0) by (nonlinear_arith)
            requires
                big == 0,
                q * s <= big + s - 1,
                0 <= q,
                s > 0,
        ;
    }
    if x > 0 && t > 0 {
        assert(big > 0) by (nonlinear_arith)
            requires
                big == m * t,
                m > 0,
                t > 0,
        ;
    }
    if x < 0 && t > 0 {
        assert(big > 0) by (nonlinear_arith)
            requires
                big == m * t,
                m > 0,
                t > 0,
        ;
    }
    let prod: int = x * t;
    if x >= 0 {
        assert(prod == big);
        assert(div_away_from_zero(prod, s) == q);
    } else {
        assert(prod == -big) by (nonlinear_arith)
            requires
                prod == x * t,
                big == m * t,
                m == -x,
        ;
        if big == 0 {
            assert(div_away_from_zero(prod, s) == q);
        } else {
            assert(-prod == big);
            assert(div_away_from_zero(prod, s) == -q);
        }
    }
}

/// A sum that is bounded after multiplying by a positive factor is bounded.
proof fn lemma_cancel_le(p: int, q: int, k: int)
    requires
        k > 0,
        p * k <= q * k,
    ensures
        p <= q,
{
    assert(p <= q) by (nonlinear_arith)
        requires
            k > 0,
            p * k <= q * k,
    ;
}

impl Vector {
    /// A vector no longer than `limit` has no coordinate beyond `limit`.
    pub proof fn lemma_coordinates_within_length(self, limit: nat)
        requires
            self.norm_squared() <= limit * limit,
        ensures
            self.within(limit as int),
    {
        assert(self.x * self.x >= 0 && self.y * self.y >= 0) by (nonlinear_arith);
        if magnitude(self.x) > limit {
            lemma_square_lt(limit as int, magnitude(self.x));
            assert(magnitude(self.x) * magnitude(self.x) == self.x * self.x) by (nonlinear_arith);
        }
        if magnitude(self.y) > limit {
            lemma_square_lt(limit as int, magnitude(self.y));
            assert(magnitude(self.y) * magnitude(self.y) == self.y * self.y) by (nonlinear_arith);
        }
    }

    /// A vector scaled down is no longer than its target, keeps the sign of
    /// each coordinate, and fits in the target's square.
    pub proof fn lemma_scaled_down_to(self, target: nat)
        ensures
            self.scaled_down_to(target).norm_squared() <= target * target,
            self.scaled_down_to(target).within(target as int),
            self.x >= 0 ==> self.scaled_down_to(target).x >= 0,
            self.x <= 0 ==> self.scaled_down_to(target).x <= 0,
            self.y >= 0 ==> self.scaled_down_to(target).y >= 0,
            self.y <= 0 ==> self.scaled_down_to(target).y <= 0,
            self.scaled_down_to(target).dot(self) >= 0,
    {
        let n: nat = self.norm_squared();
        let s: int = ceil_sqrt(n) as int;
        let t: int = target as int;
        let r: Vector = self.scaled_down_to(target);
        lemma_ceil_sqrt(n);
        assert(self.x * self.x >= 0 && self.y * self.y >= 0) by (nonlinear_arith);
        if s == 0 {
            assert(0 <= t * t) by (nonlinear_arith);
        } else {
            lemma_scaled_down(self.x, t, s);
            lemma_scaled_down(self.y, t, s);
            let a: int = (magnitude(self.x) * t) / s;
            let b: int = (magnitude(self.y) * t) / s;
            assert(r.x * r.x == a * a) by (nonlinear_arith)
                requires
                    magnitude(r.x) == a,
            ;
            assert(r.y * r.y == b * b) by (nonlinear_arith)
                requires
                    magnitude(r.y) == b,
            ;
            let xx: int = self.x * self.x;
            let yy: int = self.y * self.y;
            let tt: int = t * t;
            let ss: int = s * s;
            assert(0 <= tt) by (nonlinear_arith)
                requires
                    tt == t * t,
            ;
            assert((xx + yy) * tt <= ss * tt) by (nonlinear_arith)
                requires
                    xx + yy <= ss,
                    0 <= tt,
            ;
            assert((xx + yy) * tt == xx * tt + yy * tt) by (nonlinear_arith);
            assert((a * a + b * b) * ss == a * a * ss + b * b * ss) by (nonlinear_arith);
            assert(ss * tt == tt * ss) by (nonlinear_arith);
            assert(s * s > 0) by (nonlinear_arith)
                requires
                    s > 0,
            ;
            lemma_cancel_le(a * a + b * b, t * t, s * s);
            assert(a * a >= 0 && b * b >= 0) by (nonlinear_arith);
        }
        assert(r.x * self.x >= 0) by (nonlinear_arith)
            requires
                self.x >= 0 ==> r.x >= 0,
                self.x <= 0 ==> r.x <= 0,
        ;
        assert(r.y * self.y >= 0) by (nonlinear_arith)
            requires
                self.y >= 0 ==> r.y >= 0,
                self.y <= 0 ==> r.y <= 0,
        ;
    }

    /// A vector scaled up that was not zero is at least as long as its
    /// target, keeps the sign of each coordinate, and fits in the target's
    /// square.
    pub proof fn lemma_scaled_up_to(self, target: nat)
        ensures
            self != Vector::zero() ==> self.scaled_up_to(target).norm_squared() >= target
                * target,
            self.scaled_up_to(target).within(target as int),
            self.x >= 0 ==> self.scaled_up_to(target).x >= 0,
            self.x <= 0 ==> self.scaled_up_to(target).x <= 0,
            self.y >= 0 ==> self.scaled_up_to(target).y >= 0,
            self.y <= 0 ==> self.scaled_up_to(target).y <= 0,
    {
        let n: nat = self.norm_squared();
        let s: int = floor_sqrt(n) as int;
        let t: int = target as int;
        let r: Vector = self.scaled_up_to(target);
        lemma_floor_sqrt(n);
        assert(self.x * self.x >= 0 && self.y * self.y >= 0) by (nonlinear_arith);
        if s == 0 {
            assert(n == 0) by (nonlinear_arith)
                requires
                    n < (s + 1) * (s + 1),
                    s == 0,
            ;
            assert(self.x == 0) by (nonlinear_arith)
                requires
                    self.x * self.x + self.y * self.y == 0,
                    self.y * self.y >= 0,
            ;
            assert(self.y == 0) by (nonlinear_arith)
                requires
                    self.x * self.x + self.y * self.y == 0,
                    self.x * self.x >= 0,
            ;
        } else {
            assert(self.x * self.x < (s + 1) * (s + 1) && self.y * self.y < (s + 1) * (s + 1));
            assert(self.x * self.x <= s * s) by {
                if magnitude(self.x) > s {
                    lemma_square_le(s + 1, magnitude(self.x));
                    assert(magnitude(self.x) * magnitude(self.x) == self.x * self.x)
                        by (nonlinear_arith);
                }
                lemma_square_le(magnitude(self.x), s);
                assert(magnitude(self.x) * magnitude(self.x) == self.x * self.x)
                    by (nonlinear_arith);
            }
            assert(self.y * self.y <= s * s) by {
                if magnitude(self.y) > s {
                    lemma_square_le(s + 1, magnitude(self.y));
                    assert(magnitude(self.y) * magnitude(self.y) == self.y * self.y)
                        by (nonlinear_arith);
                }
                lemma_square_le(magnitude(self.y), s);
                assert(magnitude(self.y) * magnitude(self.y) == self.y * self.y)
                    by (nonlinear_arith);
            }
            lemma_scaled_up(self.x, t, s);
            lemma_scaled_up(self.y, t, s);
            let a: int = (magnitude(self.x) * t + s - 1) / s;
            let b: int = (magnitude(self.y) * t + s - 1) / s;
            assert(r.x * r.x == a * a) by (nonlinear_arith)
                requires
                    magnitude(r.x) == a,
            ;
            assert(r.y * r.y == b * b) by (nonlinear_arith)
                requires
                    magnitude(r.y) == b,
            ;
            let xx: int = self.x * self.x;
            let yy: int = self.y * self.y;
            let tt: int = t * t;
            let ss: int = s * s;
            assert(0 <= tt) by (nonlinear_arith)
                requires
                    tt == t * t,
            ;
            assert((xx + yy) * tt >= ss * tt) by (nonlinear_arith)
                requires
                    xx + yy >= ss,
                    0 <= tt,
            ;
            assert((xx + yy) * tt == xx * tt + yy * tt) by (nonlinear_arith);
            assert((a * a + b * b) * ss == a * a * ss + b * b * ss) by (nonlinear_arith);
            assert(ss * tt == tt * ss) by (nonlinear_arith);
            assert(s * s > 0) by (nonlinear_arith)
                requires
                    s > 0,
            ;
            lemma_cancel_le(t * t, a * a + b * b, s * s);
        }
    }

    /// A vector that is at least as long as the target is scaled down to
    /// less than three below the target.
    pub proof fn lemma_scaled_down_close(self, target: nat)
        requires
            3 <= target <= ceil_sqrt(self.norm_squared()),
        ensures
            self.scaled_down_to(target).norm_squared() >= (target - 3) * (target - 3),
    {
        let n: nat = self.norm_squared();
        let c: int = ceil_sqrt(n) as int;
        let t: int = target as int;
        let r: Vector = self.scaled_down_to(target);
        let mx: int = magnitude(self.x);
        let my: int = magnitude(self.y);
        lemma_ceil_sqrt(n);
        lemma_floor_sqrt(n);
        assert(mx * mx == self.x * self.x && my * my == self.y * self.y) by (nonlinear_arith)
            requires
                mx == magnitude(self.x),
                my == magnitude(self.y),
        ;
        assert(mx * mx >= 0 && my * my >= 0) by (nonlinear_arith);
        assert(n > 0) by {
            if n == 0 {
                assert(is_floor_sqrt(0, 0)) by (nonlinear_arith);
                lemma_floor_sqrt_is(0, 0);
                assert(0int * 0int == 0) by (nonlinear_arith);
            }
        }
        lemma_scaled_down(self.x, t, c);
        lemma_scaled_down(self.y, t, c);
        let big_x: int = mx * t;
        let big_y: int = my * t;
        let a: int = big_x / c;
        let b: int = big_y / c;
        assert(big_x >= 0 && big_y >= 0) by (nonlinear_arith)
            requires
                big_x == mx * t,
                big_y == my * t,
                mx >= 0,
                my >= 0,
                t >= 0,
        ;
        assert(big_x * big_x + big_y * big_y == (mx * mx + my * my) * (t * t))
            by (nonlinear_arith)
            requires
                big_x == mx * t,
                big_y == my * t,
        ;
        let low: int = (c - 1) * t;
        assert(low * low == (c - 1) * (c - 1) * (t * t)) by (nonlinear_arith)
            requires
                low == (c - 1) * t,
        ;
        assert((mx * mx + my * my) * (t * t) > (c - 1) * (c - 1) * (t * t)) by (nonlinear_arith)
            requires
                mx * mx + my * my > (c - 1) * (c - 1),
                t >= 1,
        ;
        lemma_floors_close(big_x, big_y, c, t);
        assert(r.x * r.x == a * a && r.y * r.y == b * b) by (nonlinear_arith)
            requires
                magnitude(r.x) == a,
                magnitude(r.y) == b,
        ;
    }

    /// A vector that is at least as long as the target is scaled up to less
    /// than three above the target.
    pub proof fn lemma_scaled_up_close(self, target: nat)
        requires
            target <= floor_sqrt(self.norm_squared()),
        ensures
            self.scaled_up_to(target).norm_squared() <= (target + 3) * (target + 3),
    {
        let n: nat = self.norm_squared();
        let l: int = floor_sqrt(n) as int;
        let t: int = target as int;
        let r: Vector = self.scaled_up_to(target);
        let mx: int = magnitude(self.x);
        let my: int = magnitude(self.y);
        lemma_floor_sqrt(n);
        assert(mx * mx == self.x * self.x && my * my == self.y * self.y) by (nonlinear_arith)
            requires
                mx == magnitude(self.x),
                my == magnitude(self.y),
        ;
        assert(mx * mx >= 0 && my * my >= 0) by (nonlinear_arith);
        assert(0 <= (t + 3) * (t + 3)) by (nonlinear_arith);
        if l == 0 {
            assert(r.x * r.x + r.y * r.y == 0) by (nonlinear_arith)
                requires
                    r.x == 0,
                    r.y == 0,
            ;
        } else {
            lemma_scaled_up(self.x, t, l);
            lemma_scaled_up(self.y, t, l);
            let big_x: int = mx * t;
            let big_y: int = my * t;
            let a: int = (big_x + l - 1) / l;
            let b: int = (big_y + l - 1) / l;
            assert(big_x >= 0 && big_y >= 0) by (nonlinear_arith)
                requires
                    big_x == mx * t,
                    big_y == my * t,
                    mx >= 0,
                    my >= 0,
                    t >= 0,
            ;
            assert(big_x * big_x + big_y * big_y == (mx * mx + my * my) * (t * t))
                by (nonlinear_arith)
                requires
                    big_x == mx * t,
                    big_y == my * t,
            ;
            let high: int = (l + 1) * t;
            assert(high * high == (l + 1) * (l + 1) * (t * t)) by (nonlinear_arith)
                requires
                    high == (l + 1) * t,
            ;
            assert(r.x * r.x == a * a && r.y * r.y == b * b) by (nonlinear_arith)
                requires
                    magnitude(r.x) == a,
                    magnitude(r.y) == b,
            ;
            if t == 0 {
                assert(a == 0 && b == 0) by (nonlinear_arith)
                    requires
                        big_x == mx * t,
                        big_y == my * t,
                        t == 0,
                        a == (big_x + l - 1) / l,
                        b == (big_y + l - 1) / l,
                        l > 0,
                ;
                assert(a * a + b * b == 0) by (nonlinear_arith)
                    requires
                        a == 0,
                        b == 0,
                ;
            } else {
                assert((mx * mx + my * my) * (t * t) < (l + 1) * (l + 1) * (t * t))
                    by (nonlinear_arith)
                    requires
                        mx * mx + my * my < (l + 1) * (l + 1),
                        t >= 1,
                ;
                lemma_ceilings_close(big_x, big_y, l, t);
            }
        }
    }

    /// A vector scaled down or up points the way it did: its cross product
    /// with the vector is no greater than the vector's coordinates added,
    /// so the sine of the angle between them is below one and a half
    /// divided by the new length.
    pub proof fn lemma_scaled_direction(self, target: nat)
        ensures
            magnitude(self.scaled_down_to(target).cross(self)) <= magnitude(self.x) + magnitude(
                self.y,
            ),
            magnitude(self.scaled_up_to(target).cross(self)) <= magnitude(self.x) + magnitude(
                self.y,
            ),
    {
        let n: nat = self.norm_squared();
        let t: int = target as int;
        let mx: int = magnitude(self.x);
        let my: int = magnitude(self.y);
        lemma_ceil_sqrt(n);
        lemma_floor_sqrt(n);
        assert(mx * mx == self.x * self.x && my * my == self.y * self.y) by (nonlinear_arith)
            requires
                mx == magnitude(self.x),
                my == magnitude(self.y),
        ;
        assert(mx * mx >= 0 && my * my >= 0) by (nonlinear_arith);
        assert(0int * self.y - 0int * self.x == 0) by (nonlinear_arith);
        let c: int = ceil_sqrt(n) as int;
        if c > 0 {
            let r: Vector = self.scaled_down_to(target);
            lemma_scaled_down(self.x, t, c);
            lemma_scaled_down(self.y, t, c);
            let a: int = (mx * t) / c;
            let b: int = (my * t) / c;
            lemma_fundamental_div_mod(mx * t, c);
            lemma_fundamental_div_mod(my * t, c);
            assert(mx * t - c < a * c < mx * t + c) by (nonlinear_arith)
                requires
                    mx * t == c * a + (mx * t) % c,
                    0 <= (mx * t) % c < c,
            ;
            assert(my * t - c < b * c < my * t + c) by (nonlinear_arith)
                requires
                    my * t == c * b + (my * t) % c,
                    0 <= (my * t) % c < c,
            ;
            lemma_quotients_aligned(mx, my, t, c, a, b);
            lemma_cross_of_magnitudes(r, self, a, b);
        }
        let l: int = floor_sqrt(n) as int;
        if l > 0 {
            let r: Vector = self.scaled_up_to(target);
            lemma_scaled_up(self.x, t, l);
            lemma_scaled_up(self.y, t, l);
            let a: int = (mx * t + l - 1) / l;
            let b: int = (my * t + l - 1) / l;
            lemma_fundamental_div_mod(mx * t + l - 1, l);
            lemma_fundamental_div_mod(my * t + l - 1, l);
            assert(mx * t - l < a * l < mx * t + l) by (nonlinear_arith)
                requires
                    mx * t + l - 1 == l * a + (mx * t + l - 1) % l,
                    0 <= (mx * t + l - 1) % l < l,
            ;
            assert(my * t - l < b * l < my * t + l) by (nonlinear_arith)
                requires
                    my * t + l - 1 == l * b + (my * t + l - 1) % l,
                    0 <= (my * t + l - 1) % l < l,
            ;
            lemma_quotients_aligned(mx, my, t, l, a, b);
            lemma_cross_of_magnitudes(r, self, a, b);
        }
    }

    /// The magnified vector points the way the vector does, and unless the
    /// vector is zero it is at least two to the thirty-second long.
    pub proof fn lemma_magnified(self)
        ensures
            self.magnified().norm_squared() == self.norm_squared() * magnification(
                self.norm_squared(),
            ) * magnification(self.norm_squared()),
            self.x >= 0 ==> self.magnified().x >= 0,
            self.x <= 0 ==> self.magnified().x <= 0,
            self.y >= 0 ==> self.magnified().y >= 0,
            self.y <= 0 ==> self.magnified().y <= 0,
            self == Vector::zero() <==> self.magnified() == Vector::zero(),
            self != Vector::zero() ==> floor_sqrt(self.magnified().norm_squared())
                >= 0x1_0000_0000,
            self != Vector::zero() ==> ceil_sqrt(self.magnified().norm_squared())
                >= 0x1_0000_0000,
    {
        let n: nat = self.norm_squared();
        let k: int = magnification(n) as int;
        let m: Vector = self.magnified();
        assert(self.x * self.x >= 0 && self.y * self.y >= 0) by (nonlinear_arith);
        assert(m.x * m.x + m.y * m.y == (self.x * self.x + self.y * self.y) * k * k)
            by (nonlinear_arith)
            requires
                m.x == self.x * k,
                m.y == self.y * k,
        ;
        assert(m.x * m.x >= 0 && m.y * m.y >= 0) by (nonlinear_arith);
        assert((self.x >= 0 ==> m.x >= 0) && (self.x <= 0 ==> m.x <= 0) && (self.x != 0 ==> m.x
            != 0)) by (nonlinear_arith)
            requires
                m.x == self.x * k,
                k >= 1,
        ;
        assert((self.y >= 0 ==> m.y >= 0) && (self.y <= 0 ==> m.y <= 0) && (self.y != 0 ==> m.y
            != 0)) by (nonlinear_arith)
            requires
                m.y == self.y * k,
                k >= 1,
        ;
        if self != Vector::zero() {
            assert(n >= 1) by {
                if self.x != 0 {
                    assert(self.x * self.x >= 1) by (nonlinear_arith)
                        requires
                            self.x != 0,
                    ;
                } else {
                    assert(self.y * self.y >= 1) by (nonlinear_arith)
                        requires
                            self.y != 0,
                    ;
                }
            }
            let big: nat = m.norm_squared();
            assert(big >= 0x1_0000_0000_0000_0000) by (nonlinear_arith)
                requires
                    big == n * k * k,
                    n >= 1,
                    (k == 0x1_0000_0000) || (k == 1 && n >= 0x1_0000_0000_0000_0000),
            ;
            lemma_floor_sqrt(big);
            lemma_ceil_sqrt(big);
            let root: int = floor_sqrt(big) as int;
            if root < 0x1_0000_0000 {
                lemma_square_le(root + 1, 0x1_0000_0000);
            }
        }
    }

    /// A shortened vector is no longer than its target and, unless the
    /// vector is zero, less than three shorter; it keeps the sign of each
    /// coordinate and fits in the target's square.
    pub proof fn lemma_shortened(self, target: nat)
        ensures
            self.shortened_to(target).norm_squared() <= target * target,
            self != Vector::zero() && 3 <= target < 0x1_0000_0000 ==> self.shortened_to(
                target,
            ).norm_squared() >= (target - 3) * (target - 3),
            self.shortened_to(target).within(target as int),
            self.x >= 0 ==> self.shortened_to(target).x >= 0,
            self.x <= 0 ==> self.shortened_to(target).x <= 0,
            self.y >= 0 ==> self.shortened_to(target).y >= 0,
            self.y <= 0 ==> self.shortened_to(target).y <= 0,
            self.shortened_to(target).dot(self) >= 0,
            magnitude(self.shortened_to(target).cross(self)) <= magnitude(self.x) + magnitude(
                self.y,
            ),
    {
        let m: Vector = self.magnified();
        let r: Vector = self.shortened_to(target);
        self.lemma_magnified();
        m.lemma_scaled_down_to(target);
        m.lemma_scaled_direction(target);
        lemma_cross_magnified(r, self);
        if self != Vector::zero() && 3 <= target < 0x1_0000_0000 {
            m.lemma_scaled_down_close(target);
        }
        assert(r.x * self.x >= 0) by (nonlinear_arith)
            requires
                self.x >= 0 ==> r.x >= 0,
                self.x <= 0 ==> r.x <= 0,
        ;
        assert(r.y * self.y >= 0) by (nonlinear_arith)
            requires
                self.y >= 0 ==> r.y >= 0,
                self.y <= 0 ==> r.y <= 0,
        ;
    }

    /// A lengthened vector that was not zero is at least as long as its
    /// target and less than three longer; it keeps the sign of each
    /// coordinate and fits in the target's square. The zero vector stays
    /// zero.
    pub proof fn lemma_lengthened(self, target: nat)
        ensures
            self != Vector::zero() ==> self.lengthened_to(target).norm_squared() >= target
                * target,
            target < 0x1_0000_0000 ==> self.lengthened_to(target).norm_squared() <= (target + 3)
                * (target + 3),
            self == Vector::zero() ==> self.lengthened_to(target) == Vector::zero(),
            self.lengthened_to(target).within(target as int),
            self.x >= 0 ==> self.lengthened_to(target).x >= 0,
            self.x <= 0 ==> self.lengthened_to(target).x <= 0,
            self.y >= 0 ==> self.lengthened_to(target).y >= 0,
            self.y <= 0 ==> self.lengthened_to(target).y <= 0,
            magnitude(self.lengthened_to(target).cross(self)) <= magnitude(self.x) + magnitude(
                self.y,
            ),
    {
        let m: Vector = self.magnified();
        self.lemma_magnified();
        m.lemma_scaled_up_to(target);
        m.lemma_scaled_direction(target);
        lemma_cross_magnified(self.lengthened_to(target), self);
        if self == Vector::zero() {
            assert(m.norm_squared() == 0) by (nonlinear_arith)
                requires
                    m.x == 0,
                    m.y == 0,
            ;
            assert(is_floor_sqrt(0, 0)) by (nonlinear_arith);
            lemma_floor_sqrt_is(0, 0);
            assert(0 <= (target + 3) * (target + 3)) by (nonlinear_arith);
        } else if target < 0x1_0000_0000 {
            m.lemma_scaled_up_close(target);
        }
    }
}

/// A cross product with the magnified vector that is within the magnified
/// coordinates added is within the coordinates added with the vector.
proof fn lemma_cross_magnified(r: Vector, v: Vector)
    requires
        magnitude(r.cross(v.magnified())) <= magnitude(v.magnified().x) + magnitude(
            v.magnified().y,
        ),
    ensures
        magnitude(r.cross(v)) <= magnitude(v.x) + magnitude(v.y),
{
    let k: int = magnification(v.norm_squared()) as int;
    let m: Vector = v.magnified();
    let c: int = r.cross(v);
    let mx: int = magnitude(v.x);
    let my: int = magnitude(v.y);
    assert(r.cross(m) == k * c) by (nonlinear_arith)
        requires
            m.x == v.x * k,
            m.y == v.y * k,
            c == r.x * v.y - r.y * v.x,
            r.cross(m) == r.x * m.y - r.y * m.x,
    ;
    assert(magnitude(m.x) == k * mx && magnitude(m.y) == k * my) by (nonlinear_arith)
        requires
            m.x == v.x * k,
            m.y == v.y * k,
            k >= 1,
            mx == magnitude(v.x),
            my == magnitude(v.y),
    ;
    assert(magnitude(k * c) == k * magnitude(c)) by (nonlinear_arith)
        requires
            k >= 1,
    ;
    assert(magnitude(c) <= mx + my) by (nonlinear_arith)
        requires
            k * magnitude(c) <= k * mx + k * my,
            k >= 1,
    ;
}

/// Two coordinates multiplied by one number and divided by another, each
/// rounded to a whole number either way, stay in the ratio of the
/// coordinates to within their sum.
proof fn lemma_quotients_aligned(mx: int, my: int, t: int, l: int, a: int, b: int)
    requires
        l > 0,
        mx >= 0,
        my >= 0,
        mx * t - l < a * l < mx * t + l,
        my * t - l < b * l < my * t + l,
    ensures
        -(mx + my) <= a * my - b * mx <= mx + my,
{
    let al: int = a * l;
    let bl: int = b * l;
    let xt: int = mx * t;
    let yt: int = my * t;
    assert(al * my <= (xt + l) * my && al * my >= (xt - l) * my) by (nonlinear_arith)
        requires
            xt - l < al < xt + l,
            my >= 0,
    ;
    assert(bl * mx <= (yt + l) * mx && bl * mx >= (yt - l) * mx) by (nonlinear_arith)
        requires
            yt - l < bl < yt + l,
            mx >= 0,
    ;
    assert((xt + l) * my == xt * my + l * my && (xt - l) * my == xt * my - l * my)
        by (nonlinear_arith);
    assert((yt + l) * mx == yt * mx + l * mx && (yt - l) * mx == yt * mx - l * mx)
        by (nonlinear_arith);
    assert(xt * my == yt * mx) by (nonlinear_arith)
        requires
            xt == mx * t,
            yt == my * t,
    ;
    let d: int = a * my - b * mx;
    assert(l * d == al * my - bl * mx) by (nonlinear_arith)
        requires
            d == a * my - b * mx,
            al == a * l,
            bl == b * l,
    ;
    assert(l * (mx + my) == l * my + l * mx) by (nonlinear_arith);
    assert(d <= mx + my) by (nonlinear_arith)
        requires
            l * d <= l * (mx + my),
            l > 0,
    ;
    assert(-(mx + my) <= d) by (nonlinear_arith)
        requires
            l * d >= -(l * (mx + my)),
            l > 0,
    ;
}

/// The cross product of a vector with one whose coordinates have the same
/// signs is, up to its sign, the cross product of the magnitudes.
proof fn lemma_cross_of_magnitudes(r: Vector, v: Vector, a: int, b: int)
    requires
        magnitude(r.x) == a,
        magnitude(r.y) == b,
        v.x >= 0 ==> r.x >= 0,
        v.x <= 0 ==> r.x <= 0,
        v.y >= 0 ==> r.y >= 0,
        v.y <= 0 ==> r.y <= 0,
    ensures
        magnitude(r.cross(v)) == magnitude(a * magnitude(v.y) - b * magnitude(v.x)),
{
    let mx: int = magnitude(v.x);
    let my: int = magnitude(v.y);
    let d: int = a * my - b * mx;
    if v.x >= 0 && v.y >= 0 {
        assert(r.x * v.y - r.y * v.x == d) by (nonlinear_arith)
            requires
                r.x == a,
                r.y == b,
                v.x == mx,
                v.y == my,
                d == a * my - b * mx,
        ;
    } else if v.x >= 0 && v.y < 0 {
        assert(r.x * v.y - r.y * v.x == -d) by (nonlinear_arith)
            requires
                r.x == a,
                r.y == -b,
                v.x == mx,
                v.y == -my,
                d == a * my - b * mx,
        ;
    } else if v.x < 0 && v.y >= 0 {
        assert(r.x * v.y - r.y * v.x == -d) by (nonlinear_arith)
            requires
                r.x == -a,
                r.y == b,
                v.x == -mx,
                v.y == my,
                d == a * my - b * mx,
        ;
    } else {
        assert(r.x * v.y - r.y * v.x == d) by (nonlinear_arith)
            requires
                r.x == -a,
                r.y == -b,
                v.x == -mx,
                v.y == -my,
                d == a * my - b * mx,
        ;
    }
}

/// Two quotients rounded down, of numbers whose squares add up to more than
/// the square of `(c - 1) * t`, have squares that add up to at least the
/// square of `t - 3`.
proof fn lemma_floors_close(big_x: int, big_y: int, c: int, t: int)
    requires
        0 <= big_x,
        0 <= big_y,
        3 <= t <= c,
        big_x * big_x + big_y * big_y > ((c - 1) * t) * ((c - 1) * t),
    ensures
        (big_x / c) * (big_x / c) + (big_y / c) * (big_y / c) >= (t - 3) * (t - 3),
{
    let a: int = big_x / c;
    let b: int = big_y / c;
    let m: int = t - 3;
    lemma_fundamental_div_mod(big_x, c);
    lemma_fundamental_div_mod(big_y, c);
    assert(0 <= a && big_x < (a + 1) * c) by (nonlinear_arith)
        requires
            big_x == c * a + big_x % c,
            0 <= big_x % c < c,
            0 <= big_x,
            c > 0,
    ;
    assert(0 <= b && big_y < (b + 1) * c) by (nonlinear_arith)
        requires
            big_y == c * b + big_y % c,
            0 <= big_y % c < c,
            0 <= big_y,
            c > 0,
    ;
    lemma_square_lt(big_x, (a + 1) * c);
    lemma_square_lt(big_y, (b + 1) * c);
    let cc: int = c * c;
    let aa: int = (a + 1) * (a + 1);
    let bb: int = (b + 1) * (b + 1);
    assert(((a + 1) * c) * ((a + 1) * c) == aa * cc) by (nonlinear_arith)
        requires
            aa == (a + 1) * (a + 1),
            cc == c * c,
    ;
    assert(((b + 1) * c) * ((b + 1) * c) == bb * cc) by (nonlinear_arith)
        requires
            bb == (b + 1) * (b + 1),
            cc == c * c,
    ;
    let low: int = (c - 1) * t;
    let base: int = (t - 1) * c;
    assert(0 <= base <= low) by (nonlinear_arith)
        requires
            base == (t - 1) * c,
            low == (c - 1) * t,
            1 <= t <= c,
    ;
    lemma_square_le(base, low);
    let tt: int = (t - 1) * (t - 1);
    assert(base * base == tt * cc) by (nonlinear_arith)
        requires
            base == (t - 1) * c,
            tt == (t - 1) * (t - 1),
            cc == c * c,
    ;
    assert((aa + bb) * cc == aa * cc + bb * cc) by (nonlinear_arith);
    assert(cc > 0) by (nonlinear_arith)
        requires
            cc == c * c,
            c > 0,
    ;
    assert(aa + bb > tt) by (nonlinear_arith)
        requires
            (aa + bb) * cc > tt * cc,
            cc > 0,
    ;
    let sq: int = a * a + b * b;
    assert(aa + bb == sq + 2 * (a + b) + 2) by (nonlinear_arith)
        requires
            aa == (a + 1) * (a + 1),
            bb == (b + 1) * (b + 1),
            sq == a * a + b * b,
    ;
    assert(tt == m * m + 4 * m + 4) by (nonlinear_arith)
        requires
            tt == (t - 1) * (t - 1),
            m == t - 3,
    ;
    if sq < m * m {
        lemma_sum_below(a, b, m);
        assert(false);
    }
}

/// Where the squares of two natural numbers add up to less than the square
/// of `m`, twice their sum is less than three times `m`.
proof fn lemma_sum_below(a: int, b: int, m: int)
    requires
        0 <= a,
        0 <= b,
        0 <= m,
        a * a + b * b < m * m,
    ensures
        2 * (a + b) < 3 * m,
{
    let s: int = a + b;
    assert(s * s <= 2 * (a * a + b * b)) by (nonlinear_arith)
        requires
            s == a + b,
    ;
    if 2 * s >= 3 * m {
        lemma_square_le(3 * m, 2 * s);
        assert((3 * m) * (3 * m) == 9 * (m * m)) by (nonlinear_arith);
        assert((2 * s) * (2 * s) == 4 * (s * s)) by (nonlinear_arith);
        assert(m * m >= 0) by (nonlinear_arith);
        assert(false);
    }
}

/// Two quotients rounded up, of numbers whose squares add up to less than
/// the square of `(l + 1) * t`, have squares that add up to at most the
/// square of `t + 3`.
proof fn lemma_ceilings_close(big_x: int, big_y: int, l: int, t: int)
    requires
        0 <= big_x,
        0 <= big_y,
        1 <= t <= l,
        big_x * big_x + big_y * big_y < ((l + 1) * t) * ((l + 1) * t),
    ensures
        ((big_x + l - 1) / l) * ((big_x + l - 1) / l) + ((big_y + l - 1) / l) * ((big_y + l - 1)
            / l) <= (t + 3) * (t + 3),
{
    let a: int = (big_x + l - 1) / l;
    let b: int = (big_y + l - 1) / l;
    lemma_fundamental_div_mod(big_x + l - 1, l);
    lemma_fundamental_div_mod(big_y + l - 1, l);
    assert(0 <= a && a * l <= big_x + l - 1) by (nonlinear_arith)
        requires
            big_x + l - 1 == l * a + (big_x + l - 1) % l,
            0 <= (big_x + l - 1) % l < l,
            0 <= big_x,
            l > 0,
    ;
    assert(0 <= b && b * l <= big_y + l - 1) by (nonlinear_arith)
        requires
            big_y + l - 1 == l * b + (big_y + l - 1) % l,
            0 <= (big_y + l - 1) % l < l,
            0 <= big_y,
            l > 0,
    ;
    let a1: int = if a >= 1 {
        a - 1
    } else {
        0
    };
    let b1: int = if b >= 1 {
        b - 1
    } else {
        0
    };
    assert(0 <= a1 * l <= big_x) by (nonlinear_arith)
        requires
            a1 == a - 1 || a1 == 0,
            a1 >= 0,
            a * l <= big_x + l - 1,
            0 <= big_x,
            l > 0,
    ;
    assert(0 <= b1 * l <= big_y) by (nonlinear_arith)
        requires
            b1 == b - 1 || b1 == 0,
            b1 >= 0,
            b * l <= big_y + l - 1,
            0 <= big_y,
            l > 0,
    ;
    lemma_square_le(a1 * l, big_x);
    lemma_square_le(b1 * l, big_y);
    let ll: int = l * l;
    let aa: int = a1 * a1;
    let bb: int = b1 * b1;
    assert((a1 * l) * (a1 * l) == aa * ll && (b1 * l) * (b1 * l) == bb * ll)
        by (nonlinear_arith)
        requires
            aa == a1 * a1,
            bb == b1 * b1,
            ll == l * l,
    ;
    let high: int = (l + 1) * t;
    let top: int = (t + 1) * l;
    assert(0 <= high <= top) by (nonlinear_arith)
        requires
            high == (l + 1) * t,
            top == (t + 1) * l,
            1 <= t <= l,
    ;
    lemma_square_le(high, top);
    let tt: int = (t + 1) * (t + 1);
    assert(top * top == tt * ll) by (nonlinear_arith)
        requires
            top == (t + 1) * l,
            tt == (t + 1) * (t + 1),
            ll == l * l,
    ;
    assert((aa + bb) * ll == aa * ll + bb * ll) by (nonlinear_arith);
    assert(ll > 0) by (nonlinear_arith)
        requires
            ll == l * l,
            l > 0,
    ;
    assert(aa + bb < tt) by (nonlinear_arith)
        requires
            (aa + bb) * ll < tt * ll,
            ll > 0,
    ;
    lemma_sum_below(a1, b1, t + 1);
    lemma_square_le(a, a1 + 1);
    lemma_square_le(b, b1 + 1);
    assert((a1 + 1) * (a1 + 1) + (b1 + 1) * (b1 + 1) == aa + bb + 2 * (a1 + b1) + 2)
        by (nonlinear_arith)
        requires
            aa == a1 * a1,
            bb == b1 * b1,
    ;
    assert(tt == t * t + 2 * t + 1 && (t + 3) * (t + 3) == t * t + 6 * t + 9)
        by (nonlinear_arith)
        requires
            tt == (t + 1) * (t + 1),
    ;
}

impl Vec2 {
    /// The vector with the given coordinates.
    pub fn new(x: i64, y: i64) -> (v: Vec2)
        ensures
            v.x == x,
            v.y == y,
    {
        Vec2 { x, y }
    }

    /// The zero vector.
    pub fn zero() -> (v: Vec2)
        ensures
            v@ == Vector::zero(),
    {
        Vec2 { x: 0, y: 0 }
    }

    /// Whether both coordinates are zero.
    pub fn is_zero(&self) -> (b: bool)
        ensures
            b == (self@ == Vector::zero()),
    {
        self.x == 0 && self.y == 0
    }

    /// Whether neither coordinate exceeds `limit` in absolute value.
    pub fn fits(&self, limit: i64) -> (b: bool)
        ensures
            b == self@.within(limit as int),
    {
        let low: i128 = -(limit as i128);
        low <= self.x as i128 && self.x <= limit && low <= self.y as i128 && self.y <= limit
    }

    /// The square of the vector's length.
    pub fn norm_squared(&self) -> (n: u128)
        ensures
            n == self@.norm_squared(),
    {
        let ax: u128 = if self.x >= 0 {
            self.x as u128
        } else {
            (-(self.x as i128)) as u128
        };
        let ay: u128 = if self.y >= 0 {
            self.y as u128
        } else {
            (-(self.y as i128)) as u128
        };
        assert(ax * ax <= 0x8000_0000_0000_0000 * 0x8000_0000_0000_0000 && ax * ax == self.x
            * self.x) by (nonlinear_arith)
            requires
                ax == magnitude(self.x as int),
                ax <= 0x8000_0000_0000_0000,
        ;
        assert(ay * ay <= 0x8000_0000_0000_0000 * 0x8000_0000_0000_0000 && ay * ay == self.y
            * self.y) by (nonlinear_arith)
            requires
                ay == magnitude(self.y as int),
                ay <= 0x8000_0000_0000_0000,
        ;
        ax * ax + ay * ay
    }

    /// The magnified vector, for a vector of squared length `n`.
    fn magnified(&self, n: u128) -> (m: (i128, i128, u128))
        requires
            n == self@.norm_squared(),
        ensures
            m.0 == self@.magnified().x,
            m.1 == self@.magnified().y,
            m.2 == self@.magnified().norm_squared(),
            -0x1_0000_0000_0000_0000 <= m.0 <= 0x1_0000_0000_0000_0000,
            -0x1_0000_0000_0000_0000 <= m.1 <= 0x1_0000_0000_0000_0000,
    {
        proof {
            self@.lemma_magnified();
            assert(self.x * self.x >= 0 && self.y * self.y >= 0) by (nonlinear_arith);
        }
        if n < 0x1_0000_0000_0000_0000 {
            proof {
                if magnitude(self.x as int) >= 0x1_0000_0000 {
                    lemma_square_le(0x1_0000_0000, magnitude(self.x as int));
                    assert(magnitude(self.x as int) * magnitude(self.x as int) == self.x * self.x)
                        by (nonlinear_arith);
                }
                if magnitude(self.y as int) >= 0x1_0000_0000 {
                    lemma_square_le(0x1_0000_0000, magnitude(self.y as int));
                    assert(magnitude(self.y as int) * magnitude(self.y as int) == self.y * self.y)
                        by (nonlinear_arith);
                }
                assert(n * 0x1_0000_0000 * 0x1_0000_0000 == n * 0x1_0000_0000_0000_0000)
                    by (nonlinear_arith);
                let k: int = magnification(n as nat) as int;
                assert(self.x * k == self.x * 0x1_0000_0000 && self.y * k == self.y
                    * 0x1_0000_0000) by (nonlinear_arith)
                    requires
                        k == 0x1_0000_0000,
                ;
            }
            (
                self.x as i128 * 0x1_0000_0000,
                self.y as i128 * 0x1_0000_0000,
                n * 0x1_0000_0000_0000_0000,
            )
        } else {
            proof {
                assert(n * 1 * 1 == n) by (nonlinear_arith);
                let k: int = magnification(n as nat) as int;
                assert(self.x * k == self.x && self.y * k == self.y) by (nonlinear_arith)
                    requires
                        k == 1,
                ;
            }
            (self.x as i128, self.y as i128, n)
        }
    }

    /// The vector turned to the length `target`, or less than three
    /// thousandths below it, in the same direction.
    pub fn shortened_to(&self, target: u32) -> (r: Vec2)
        ensures
            r@ == self@.shortened_to(target as nat),
    {
        let n: u128 = self.norm_squared();
        let (mx, my, big) = self.magnified(n);
        let len: u128 = isqrt_ceil(big);
        if len == 0 {
            return Vec2::zero();
        }
        let s: i128 = len as i128;
        let t: i128 = target as i128;
        proof {
            lemma_ceil_sqrt(big as nat);
            assert(mx * mx >= 0 && my * my >= 0) by (nonlinear_arith);
            lemma_scaled_down(mx as int, t as int, s as int);
            lemma_scaled_down(my as int, t as int, s as int);
        }
        assert(-0x1_0000_0000_0000_0000 * 0x1_0000_0000 <= mx * t <= 0x1_0000_0000_0000_0000
            * 0x1_0000_0000) by (nonlinear_arith)
            requires
                -0x1_0000_0000_0000_0000 <= mx <= 0x1_0000_0000_0000_0000,
                0 <= t <= 0x1_0000_0000,
        ;
        assert(-0x1_0000_0000_0000_0000 * 0x1_0000_0000 <= my * t <= 0x1_0000_0000_0000_0000
            * 0x1_0000_0000) by (nonlinear_arith)
            requires
                -0x1_0000_0000_0000_0000 <= my <= 0x1_0000_0000_0000_0000,
                0 <= t <= 0x1_0000_0000,
        ;
        let x: i128 = div_inward(mx * t, s);
        let y: i128 = div_inward(my * t, s);
        Vec2 { x: x as i64, y: y as i64 }
    }

    /// The vector turned to the length `target`, or less than three
    /// thousandths above it, in the same direction; the zero vector stays
    /// zero.
    pub fn lengthened_to(&self, target: u32) -> (r: Vec2)
        ensures
            r@ == self@.lengthened_to(target as nat),
    {
        let n: u128 = self.norm_squared();
        let (mx, my, big) = self.magnified(n);
        let root: u64 = isqrt(big);
        if root == 0 {
            return Vec2::zero();
        }
        let s: i128 = root as i128;
        let t: i128 = target as i128;
        proof {
            self@.magnified().lemma_scaled_up_to(target as nat);
        }
        assert(-0x1_0000_0000_0000_0000 * 0x1_0000_0000 <= mx * t <= 0x1_0000_0000_0000_0000
            * 0x1_0000_0000) by (nonlinear_arith)
            requires
                -0x1_0000_0000_0000_0000 <= mx <= 0x1_0000_0000_0000_0000,
                0 <= t <= 0x1_0000_0000,
        ;
        assert(-0x1_0000_0000_0000_0000 * 0x1_0000_0000 <= my * t <= 0x1_0000_0000_0000_0000
            * 0x1_0000_0000) by (nonlinear_arith)
            requires
                -0x1_0000_0000_0000_0000 <= my <= 0x1_0000_0000_0000_0000,
                0 <= t <= 0x1_0000_0000,
        ;
        let x: i128 = div_outward(mx * t, s);
        let y: i128 = div_outward(my * t, s);
        Vec2 { x: x as i64, y: y as i64 }
    }
}

} // verus!
