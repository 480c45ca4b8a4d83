//! Short Weierstrass curves `y^2 = x^3 + a*x + b` over the integers modulo
//! `p`, together with the elliptic-curve group law.  The modulus may be
//! composite, so a slope denominator can fail to be invertible; that failure
//! is surfaced as a point at infinity rather than an error, and is the
//! signal the factor search exploits.

use vstd::prelude::*;

verus! {

use vstd::arithmetic::div_mod::*;
use vstd::math::abs;
use crate::arith::gcd_nat;
use crate::arith::inverse_mod;
use crate::arith::mod_inv;
use crate::arith::mod_mul;
use crate::arith::eucl_rem;

/// Largest modulus the curve arithmetic accepts; keeps every intermediate
/// product of the slope computation within `i128`.
pub const MAX_MODULUS: i128 = 0x2000000000000000;

/// A short Weierstrass curve over the integers modulo `p`.
#[derive(Clone, Copy, PartialEq, Eq, Structural)]
pub struct WeierStrass {
    pub a: i128,
    pub b: i128,
    pub p: i128,
}

/// The curve is singular modulo `p` exactly when `4a^3 + 27b^2` vanishes
/// modulo `p`.
pub open spec fn singular(a: int, b: int, p: int) -> bool {
    (4 * (a * a * a) + 27 * (b * b)) % p == 0
}

/// A curve with both coefficients zero is singular for every modulus.
pub proof fn lemma_zero_curve_singular(p: int)
    requires
        p >= 1,
    ensures
        singular(0, 0, p),
{
    lemma_small_mod(0, p as nat);
}

impl WeierStrass {
    /// Bounds under which all curve arithmetic is free of overflow.
    pub open spec fn wf(self) -> bool {
        &&& 1 <= self.p <= MAX_MODULUS
        &&& -MAX_MODULUS <= self.a <= MAX_MODULUS
        &&& -MAX_MODULUS <= self.b <= MAX_MODULUS
    }

    /// Builds the curve, failing exactly when it is singular modulo `p`.
    pub fn new(a: i128, b: i128, p: i128) -> (r: Option<WeierStrass>)
        requires
            1 <= p <= MAX_MODULUS,
            -MAX_MODULUS <= a <= MAX_MODULUS,
            -MAX_MODULUS <= b <= MAX_MODULUS,
        ensures
            r.is_some() <==> !singular(a as int, b as int, p as int),
            r.is_some() ==> r.unwrap() == (WeierStrass { a, b, p }),
            r.is_some() ==> r.unwrap().wf(),
    {
        let a2 = mod_mul(a, a, p);
        let a3 = mod_mul(a2, a, p);
        let b2 = mod_mul(b, b, p);
        let d = (4 * a3 + 27 * b2) % p;
        proof {
            let ai = a as int;
            let bi = b as int;
            let pi = p as int;
            assert(a3 == (ai * ai * ai) % pi) by {
                lemma_mul_mod_noop_left(ai * ai, ai, pi);
            }
            assert(4 * (a3 as int) % pi == 4 * (ai * ai * ai) % pi) by {
                lemma_mul_mod_noop_right(4, ai * ai * ai, pi);
            }
            assert(27 * (b2 as int) % pi == 27 * (bi * bi) % pi) by {
                lemma_mul_mod_noop_right(27, bi * bi, pi);
            }
            assert((4 * (a3 as int) + 27 * (b2 as int)) % pi == (4 * (ai * ai * ai) + 27 * (bi
                * bi)) % pi) by {
                lemma_add_mod_noop(4 * (a3 as int), 27 * (b2 as int), pi);
                lemma_add_mod_noop(4 * (ai * ai * ai), 27 * (bi * bi), pi);
            }
        }
        if d == 0 {
            None
        } else {
            Some(WeierStrass { a, b, p })
        }
    }
}

/// An affine point or the point at infinity on a given curve.  An infinite
/// point carries a sentinel in `y` that the arithmetic never reads.
#[derive(Clone, Copy, PartialEq, Eq, Structural)]
pub struct WeierStrassPoint {
    pub x: i128,
    pub y: i128,
    pub y_infinite: bool,
    pub curve: WeierStrass,
}

/// The point at infinity with the given `x` tag, as the group law builds it.
pub open spec fn infinite_point(x: int, curve: WeierStrass) -> WeierStrassPoint {
    WeierStrassPoint { x: x as i128, y: i128::MAX, y_infinite: true, curve }
}

/// Denominator of the slope between two points: the tangent denominator
/// `2y` when the points are equal, the chord denominator otherwise.
pub open spec fn slope_den(p1: WeierStrassPoint, p2: WeierStrassPoint) -> int {
    if p1 == p2 {
        2 * p1.y
    } else {
        p2.x - p1.x
    }
}

/// Numerator of the slope, reduced modulo `p` times the denominator to
/// preserve precision before the division.
pub open spec fn slope_num(p1: WeierStrassPoint, p2: WeierStrassPoint) -> int {
    let m = abs(p1.curve.p * slope_den(p1, p2)) as int;
    if p1 == p2 {
        (3 * ((p1.x * p1.x) % m) + p1.curve.a) % m
    } else {
        (p2.y - p1.y) % m
    }
}

/// The slope exists when the denominator is nonzero and invertible modulo
/// `p`.  Over a composite modulus the second condition can fail even for a
/// nonzero denominator: that failure reveals a factor of `p`.
pub open spec fn has_slope(p1: WeierStrassPoint, p2: WeierStrassPoint) -> bool {
    &&& slope_den(p1, p2) != 0
    &&& gcd_nat((slope_den(p1, p2) % (p1.curve.p as int)) as nat, p1.curve.p as nat) == 1
}

/// The slope itself, reduced into `[0, p)`.
pub open spec fn slope_val(p1: WeierStrassPoint, p2: WeierStrassPoint) -> int {
    (slope_num(p1, p2) * inverse_mod(slope_den(p1, p2), p1.curve.p as int)) % (
    p1.curve.p as int)
}

/// The group law, as a total function on pairs of points.  Addition fails
/// only on a curve mismatch; an absent slope yields the point at infinity.
pub open spec fn point_add(p1: WeierStrassPoint, p2: WeierStrassPoint) -> Option<
    WeierStrassPoint,
> {
    if p1.curve != p2.curve {
        None
    } else if p1.y_infinite || p2.y_infinite {
        Some(infinite_point(p1.x as int, p1.curve))
    } else if !has_slope(p1, p2) {
        Some(infinite_point(p2.x as int, p1.curve))
    } else {
        let p = p1.curve.p as int;
        let s = slope_val(p1, p2);
        let x3 = (s * s - p1.x - p2.x) % p;
        let y3 = (s * (p1.x - x3) - p1.y) % p;
        Some(WeierStrassPoint { x: x3 as i128, y: y3 as i128, y_infinite: false, curve: p1.curve })
    }
}

/// Multiplying a reduced slope back by its denominator restores the
/// numerator's residue class.
proof fn lemma_slope_cancels(num: int, inv: int, den: int, p: int)
    requires
        p >= 1,
        crate::arith::is_inverse(inv, den, p),
    ensures
        (((num * inv) % p) * den) % p == num % p,
{
    lemma_mul_mod_noop_left(num * inv, den, p);
    assert(((num * inv) * den) % p == (num * (inv * den)) % p) by {
        vstd::arithmetic::mul::lemma_mul_is_associative(num, inv, den);
    }
    lemma_mul_mod_noop_right(num, inv * den, p);
    lemma_mul_mod_noop_right(num, 1, p);
    assert((inv * den) % p == 1int % p);
    assert((num * ((inv * den) % p)) % p == (num * (1int % p)) % p);
    assert(num * 1 == num);
}

/// Two reduced values with the same product against an invertible
/// denominator are equal.
proof fn lemma_same_residue(s1: int, s2: int, den: int, inv: int, p: int)
    requires
        p >= 1,
        crate::arith::is_inverse(inv, den, p),
        0 <= s1 < p,
        0 <= s2 < p,
        (s1 * den) % p == (s2 * den) % p,
    ensures
        s1 == s2,
{
    lemma_residue_recovers(s1, den, inv, p);
    lemma_residue_recovers(s2, den, inv, p);
}

/// Multiplying by the denominator and then by its inverse recovers a
/// reduced value.
proof fn lemma_residue_recovers(s: int, den: int, inv: int, p: int)
    requires
        p >= 1,
        crate::arith::is_inverse(inv, den, p),
        0 <= s < p,
    ensures
        (((s * den) % p) * inv) % p == s,
{
    lemma_mul_mod_noop_left(s * den, inv, p);
    assert(((s * den) * inv) % p == (s * (den * inv)) % p) by {
        vstd::arithmetic::mul::lemma_mul_is_associative(s, den, inv);
    }
    lemma_mul_mod_noop_right(s, den * inv, p);
    lemma_mul_mod_noop_right(s, 1, p);
    assert((inv * den) % p == 1int % p);
    assert((den * inv) % p == 1int % p) by {
        vstd::arithmetic::mul::lemma_mul_is_commutative(den, inv);
    }
    assert((s * ((den * inv) % p)) % p == (s * (1int % p)) % p);
    assert(s * 1 == s);
    lemma_small_mod(s as nat, p as nat);
}

/// A congruence modulo a multiple of `p` holds modulo `p` itself.
proof fn lemma_mod_of_multiple(v: int, p: int, d: int)
    requires
        p >= 1,
        d != 0,
    ensures
        (v % (abs(p * d) as int)) % p == v % p,
{
    let m = abs(p * d) as int;
    let ad = abs(d as int) as int;
    assert(m == p * ad) by (nonlinear_arith)
        requires
            p >= 1,
            d != 0,
            ad == abs(d as int),
            m == abs(p * d),
    ;
    lemma_mod_mod(v, p, ad);
}

/// The group law is commutative for finite points on one curve, except
/// where the operands differ in `x` and the chord denominator is not
/// invertible: there the infinite results carry different `x` tags.
pub proof fn lemma_addition_commutes(p1: WeierStrassPoint, p2: WeierStrassPoint)
    requires
        p1.wf(),
        p2.wf(),
        p1.curve == p2.curve,
        !p1.y_infinite,
        !p2.y_infinite,
        p1.x == p2.x || has_slope(p1, p2),
    ensures
        point_add(p1, p2) == point_add(p2, p1),
{
    let p = p1.curve.p as int;
    if p1 == p2 {
        // both sides are literally the same expression
    } else if p1.x == p2.x {
        // vertical chord on both sides; the infinite points share the tag
        assert(slope_den(p1, p2) == 0);
        assert(slope_den(p2, p1) == 0);
    } else {
        let den = slope_den(p1, p2);
        assert(den == p2.x - p1.x);
        assert(slope_den(p2, p1) == -den);
        assert(has_slope(p1, p2));
        crate::arith::lemma_gcd_neg_mod(den, p);
        assert(has_slope(p2, p1));
        let inv1 = inverse_mod(den, p);
        let inv2 = inverse_mod(-den, p);
        crate::arith::lemma_inverse_exists(den, p);
        crate::arith::lemma_inverse_exists(-den, p);
        let num1 = slope_num(p1, p2);
        let num2 = slope_num(p2, p1);
        let m = abs(p * den) as int;
        assert(abs(p * -den) as int == m) by {
            assert(p * -den == -(p * den)) by (nonlinear_arith);
        }
        assert(num1 == (p2.y - p1.y) % m);
        assert(num2 == (p1.y - p2.y) % m);
        let s1 = slope_val(p1, p2);
        let s2 = slope_val(p2, p1);
        lemma_mod_bound(num1 * inv1, p);
        lemma_mod_bound(num2 * inv2, p);
        // s1 * den and s2 * den both land in the residue class of y2 - y1
        lemma_slope_cancels(num1, inv1, den, p);
        lemma_slope_cancels(num2, inv2, -den, p);
        lemma_mod_of_multiple(p2.y - p1.y, p, den);
        lemma_mod_of_multiple(p1.y - p2.y, p, den);
        lemma_mod_twice(p2.y - p1.y, p);
        lemma_mod_twice(p1.y - p2.y, p);
        assert((s1 * den) % p == (p2.y - p1.y) % p);
        assert((s2 * -den) % p == (p1.y - p2.y) % p);
        assert((s2 * den) % p == (p2.y - p1.y) % p) by {
            assert(s2 * den == -(s2 * -den)) by (nonlinear_arith);
            lemma_sub_mod_noop(0, s2 * -den, p);
            lemma_sub_mod_noop(0, p1.y - p2.y, p);
            assert((0 - (s2 * -den)) % p == (0 - (p1.y - p2.y)) % p);
        }
        lemma_same_residue(s1, s2, den, inv1, p);
        // equal slopes give equal sums; the y coordinates agree because the
        // slope carries one operand's y into the other's
        let x3 = (s1 * s1 - p1.x - p2.x) % p;
        assert((s1 * s1 - p2.x - p1.x) % p == x3);
        let y3a = (s1 * (p1.x - x3) - p1.y) % p;
        let y3b = (s1 * (p2.x - x3) - p2.y) % p;
        assert(y3a == y3b) by {
            assert(s1 * (p1.x - x3) - (s1 * (p2.x - x3)) == -(s1 * den)) by (nonlinear_arith)
                requires
                    den == p2.x - p1.x,
            ;
            // subtracting the two y expressions leaves s1*den - (y2 - y1),
            // a multiple of p
            let diff = (s1 * (p1.x - x3) - p1.y) - (s1 * (p2.x - x3) - p2.y);
            assert(diff == -(s1 * den) + (p2.y - p1.y));
            assert(diff % p == 0) by {
                lemma_sub_mod_noop(p2.y - p1.y, s1 * den, p);
                assert(((p2.y - p1.y) - s1 * den) % p == ((p2.y - p1.y) % p - (s1 * den) % p)
                    % p);
                assert((0int) % p == 0) by {
                    lemma_small_mod(0, p as nat);
                }
                lemma_mod_twice(p2.y - p1.y, p);
                assert(((p2.y - p1.y) % p - (s1 * den) % p) == 0);
                assert(diff == (p2.y - p1.y) - s1 * den);
            }
            lemma_fundamental_div_mod(diff, p);
            let k = diff / p;
            assert(s1 * (p1.x - x3) - p1.y == (s1 * (p2.x - x3) - p2.y) + p * k);
            lemma_mod_multiples_vanish(k, s1 * (p2.x - x3) - p2.y, p);
            assert((p * k + (s1 * (p2.x - x3) - p2.y)) % p == y3b);
        }
    }
}

impl WeierStrassPoint {
    /// A point is well formed when its curve is and its coordinates are
    /// reduced modulo `p`.
    pub open spec fn wf(self) -> bool {
        &&& self.curve.wf()
        &&& 0 <= self.x < self.curve.p
        &&& self.y_infinite ==> self.y == i128::MAX
        &&& !self.y_infinite ==> 0 <= self.y < self.curve.p
    }

    /// An affine point on the given curve.
    pub fn new(x: i128, y: i128, curve: WeierStrass) -> (r: WeierStrassPoint)
        requires
            curve.wf(),
            0 <= x < curve.p,
            0 <= y < curve.p,
        ensures
            r == (WeierStrassPoint { x, y, y_infinite: false, curve }),
            r.wf(),
    {
        WeierStrassPoint { x, y, y_infinite: false, curve }
    }

    /// The point at infinity on the given curve.
    pub fn new_infinite(x: i128, curve: WeierStrass) -> (r: WeierStrassPoint)
        requires
            curve.wf(),
            0 <= x < curve.p,
        ensures
            r == infinite_point(x as int, curve),
            r.wf(),
    {
        WeierStrassPoint { x, y: i128::MAX, y_infinite: true, curve }
    }

    /// Whether this is the point at infinity.
    pub fn is_infinite(&self) -> (r: bool)
        ensures
            r == self.y_infinite,
    {
        self.y_infinite
    }

    /// Slope of the line through `self` and `other` (the tangent when they
    /// are equal), or absence when the denominator is zero or shares a
    /// factor with the modulus.
    pub fn get_slope(&self, other: &WeierStrassPoint) -> (r: Option<i128>)
        requires
            self.wf(),
            other.wf(),
            self.curve == other.curve,
            !self.y_infinite,
            !other.y_infinite,
        ensures
            r.is_some() <==> has_slope(*self, *other),
            r.is_some() ==> r.unwrap() == slope_val(*self, *other),
            r.is_some() ==> 0 <= r.unwrap() < self.curve.p,
    {
        let p = self.curve.p;
        let denominator: i128;
        let numerator: i128;
        if *self == *other {
            // point doubling: tangent slope
            denominator = 2 * self.y;
            if denominator == 0 {
                return None;
            }
            proof {
                assert(1 * 1 <= (p as int) * (denominator as int) && (p as int) * (
                denominator as int) <= MAX_MODULUS * (2 * MAX_MODULUS)) by (nonlinear_arith)
                    requires
                        1 <= p <= MAX_MODULUS,
                        1 <= denominator <= 2 * MAX_MODULUS,
                ;
            }
            let modulo = p * denominator;
            let t = mod_mul(self.x, self.x, modulo);
            numerator = eucl_rem(3 * t + self.curve.a, modulo);
        } else {
            // point addition: chord slope
            denominator = other.x - self.x;
            if denominator == 0 {
                return None;
            }
            proof {
                assert(-(MAX_MODULUS * MAX_MODULUS) <= (p as int) * (denominator as int) <= (
                MAX_MODULUS * MAX_MODULUS) && (p as int) * (denominator as int) != 0)
                    by (nonlinear_arith)
                    requires
                        1 <= p <= MAX_MODULUS,
                        denominator != 0,
                        -MAX_MODULUS <= denominator <= MAX_MODULUS,
                ;
            }
            let modulo = p * denominator;
            numerator = eucl_rem(other.y - self.y, modulo);
        }
        match mod_inv(denominator, p) {
            Some(inverse) => Some(mod_mul(numerator, inverse, p)),
            None => None,
        }
    }

    /// The group law.  Fails only when the operands live on different
    /// curves; an absent slope is the designed factor-discovery path and
    /// yields the point at infinity.  When either operand is already the
    /// point at infinity the sum is again the point at infinity: this
    /// deliberately keeps the behaviour the factor search is built on,
    /// rather than the standard group law in which the identity would
    /// leave the other operand unchanged.
    pub fn addition(self, other: WeierStrassPoint) -> (r: Option<WeierStrassPoint>)
        requires
            self.wf(),
            other.wf(),
        ensures
            r == point_add(self, other),
            r.is_some() ==> r.unwrap().wf(),
            self.curve == other.curve ==> r.is_some(),
    {
        if self.curve != other.curve {
            return None;
        }
        if self.is_infinite() {
            return Some(WeierStrassPoint::new_infinite(self.x, self.curve));
        }
        if other.is_infinite() {
            return Some(WeierStrassPoint::new_infinite(self.x, self.curve));
        }
        match self.get_slope(&other) {
            Some(slope) => {
                let p = self.curve.p;
                proof {
                    assert(0 <= (slope as int) * (slope as int) && (slope as int) * (
                    slope as int) <= MAX_MODULUS * MAX_MODULUS) by (nonlinear_arith)
                        requires
                            0 <= slope < p <= MAX_MODULUS,
                    ;
                }
                let x = eucl_rem(slope * slope - self.x - other.x, p);
                proof {
                    assert(-(MAX_MODULUS * MAX_MODULUS) <= (slope as int) * ((self.x as int) - (
                    x as int)) <= MAX_MODULUS * MAX_MODULUS) by (nonlinear_arith)
                        requires
                            0 <= slope < p <= MAX_MODULUS,
                            0 <= x < p,
                            0 <= self.x < p,
                    ;
                }
                let y = eucl_rem(slope * (self.x - x) - self.y, p);
                Some(WeierStrassPoint::new(x, y, self.curve))
            },
            None => Some(WeierStrassPoint::new_infinite(other.x, self.curve)),
        }
    }
}

} // verus!
