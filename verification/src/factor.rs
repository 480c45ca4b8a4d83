//! The randomized factor search: repeated scalar multiplication of random
//! curve points, watching for the group-law failure that reveals a factor.

use vstd::prelude::*;

use integer_sqrt::IntegerSquareRoot;
use rand::Rng;

verus! {

use vstd::arithmetic::div_mod::*;
use crate::arith::eucl_rem;
use crate::arith::gcd;
use crate::arith::gcd_nat;
use crate::arith::lemma_gcd_divides;
use crate::arith::mod_pow;
use crate::curve::MAX_MODULUS;
use crate::curve::WeierStrass;
use crate::curve::WeierStrassPoint;
use crate::curve::point_add;

/// Smoothness bound for one Lenstra attempt: the accumulator point is
/// scalar-multiplied by every integer up to this bound.
pub const MAX_FACTOR: i128 = 1000;

/// Number of random curve/point pairs tried before giving up.
pub const MAX_ITERATIONS: u32 = 10000;

/// Relies on `integer_sqrt::IntegerSquareRoot` for `i128`: returns the
/// floor square root of a nonnegative number.
#[verifier::external_body]
fn isqrt(number: i128) -> (r: i128)
    requires
        0 <= number,
    ensures
        0 <= r,
        r * r <= number,
        number < (r + 1) * (r + 1),
{
    number.integer_sqrt()
}

/// Relies on `rand::Rng::gen_range` on the thread-local generator: returns
/// a value of the nonempty range `0..bound`.  Nothing is assumed about
/// which one comes back.
#[verifier::external_body]
fn rand_below(bound: i128) -> (r: i128)
    requires
        1 <= bound,
    ensures
        0 <= r < bound,
{
    rand::thread_rng().gen_range(0..bound)
}

/// Doubling `pw` until it passes `half`: the value the bit-position scan
/// of the scalar starts from.
pub open spec fn grow_pow(pw: int, half: int) -> int
    decreases
            (if pw <= half {
                half - pw + 1
            } else {
                0
            }),
    when 1 <= pw
{
    if pw <= half {
        grow_pow(2 * pw, half)
    } else {
        pw
    }
}

/// The scan over the bits of the scalar at positions `pw, pw/2, .., 1`:
/// each step doubles the accumulator and, on a set bit, adds the seed.
/// Stops at the first point at infinity, keeping the last finite
/// accumulator beside it.
pub open spec fn lenstra_scan(
    seed: WeierStrassPoint,
    point: WeierStrassPoint,
    next: WeierStrassPoint,
    scalar: int,
    pw: int,
) -> (WeierStrassPoint, WeierStrassPoint, bool)
    decreases pw,
    when 0 <= pw
{
    if pw < 1 {
        (point, next, false)
    } else {
        let doubled = point_add(point, point).unwrap();
        if doubled.y_infinite {
            (point, doubled, true)
        } else if (scalar / pw) % 2 == 1 {
            let added = point_add(doubled, seed).unwrap();
            if added.y_infinite {
                (doubled, added, true)
            } else {
                lenstra_scan(seed, added, added, scalar, pw / 2)
            }
        } else {
            lenstra_scan(seed, doubled, doubled, scalar, pw / 2)
        }
    }
}

/// One whole scalar step: the scan starting below the most significant
/// bit of the scalar.
pub open spec fn lenstra_step_spec(
    seed: WeierStrassPoint,
    start: WeierStrassPoint,
    scalar: int,
) -> (WeierStrassPoint, WeierStrassPoint, bool) {
    lenstra_scan(seed, start, start, scalar, grow_pow(1, scalar / 2) / 2)
}

/// One scalar step of the search: a modified double-and-add over the bits
/// of `scalar` below its most significant one.  Doubling advances the
/// accumulator by self-addition; each set bit additionally adds the
/// original seed point.  Stops as soon as a step yields the point at
/// infinity, handing back the last finite accumulator with it.
fn lenstra_step(seed: &WeierStrassPoint, start: WeierStrassPoint, scalar: i128) -> (res: (
    WeierStrassPoint,
    WeierStrassPoint,
    bool,
))
    requires
        seed.wf(),
        start.wf(),
        seed.curve == start.curve,
        1 <= scalar,
    ensures
        res == lenstra_step_spec(*seed, start, scalar as int),
        res.0.wf(),
        res.1.wf(),
        res.0.curve == seed.curve,
        res.1.curve == seed.curve,
{
    let mut point = start;
    let mut next_point = start;
    let half = scalar / 2;
    let mut pw: i128 = 1;
    while pw <= half
        invariant
            scalar >= 1,
            half == scalar as int / 2,
            1 <= pw,
            pw == 1 || pw <= scalar,
            grow_pow(pw as int, half as int) == grow_pow(1, half as int),
        decreases scalar - pw,
    {
        proof {
            assert(grow_pow(pw as int, half as int) == grow_pow(2 * pw as int, half as int));
        }
        pw = pw * 2;
    }
    proof {
        assert(grow_pow(pw as int, half as int) == pw as int);
    }
    pw = pw / 2;
    while pw >= 1
        invariant
            seed.wf(),
            point.wf(),
            next_point.wf(),
            point.curve == seed.curve,
            next_point.curve == seed.curve,
            scalar >= 1,
            0 <= pw,
            lenstra_scan(*seed, point, next_point, scalar as int, pw as int)
                == lenstra_step_spec(*seed, start, scalar as int),
        decreases pw,
    {
        let ghost pt0 = point;
        let ghost nx0 = next_point;
        let ghost pw0 = pw as int;
        // double
        next_point = point.addition(point).unwrap();
        proof {
            assert(point_add(pt0, pt0) == Some(next_point));
        }
        if next_point.is_infinite() {
            proof {
                assert(lenstra_scan(*seed, pt0, nx0, scalar as int, pw0) == (
                    pt0,
                    next_point,
                    true,
                ));
            }
            return (point, next_point, true);
        }
        point = next_point;
        // add the original seed on a set bit
        if (scalar / pw) % 2 == 1 {
            let ghost dbl = point;
            next_point = point.addition(*seed).unwrap();
            proof {
                assert(point_add(dbl, *seed) == Some(next_point));
            }
            if next_point.is_infinite() {
                proof {
                    assert(lenstra_scan(*seed, pt0, nx0, scalar as int, pw0) == (
                        point,
                        next_point,
                        true,
                    ));
                }
                return (point, next_point, true);
            }
            point = next_point;
            proof {
                assert(lenstra_scan(*seed, pt0, nx0, scalar as int, pw0) == lenstra_scan(
                    *seed,
                    point,
                    next_point,
                    scalar as int,
                    pw0 / 2,
                ));
            }
        } else {
            proof {
                assert(lenstra_scan(*seed, pt0, nx0, scalar as int, pw0) == lenstra_scan(
                    *seed,
                    point,
                    next_point,
                    scalar as int,
                    pw0 / 2,
                ));
            }
        }
        pw = pw / 2;
    }
    proof {
        assert(lenstra_scan(*seed, point, next_point, scalar as int, 0) == (
            point,
            next_point,
            false,
        ));
    }
    (point, next_point, false)
}

/// The decision taken at the first point at infinity: the gcd of the gap
/// between the last two accumulator positions and the modulus, accepted
/// only when it is a nontrivial factor.
pub open spec fn lenstra_verdict(
    seed: WeierStrassPoint,
    point: WeierStrassPoint,
    next: WeierStrassPoint,
) -> Option<i128> {
    let p = seed.curve.p as int;
    let diff = (point.x - next.x) % p;
    let g = if diff == 0 {
        p
    } else {
        gcd_nat(diff as nat, seed.curve.p as nat) as int
    };
    if 1 < g < p {
        Some(g as i128)
    } else {
        None
    }
}

/// The whole search from scalar `k` up to the smoothness bound: run one
/// scalar step per `k`; at the first point at infinity stop with the
/// verdict, and report absence when the bound is exhausted.
pub open spec fn lenstra_search(seed: WeierStrassPoint, point: WeierStrassPoint, k: int) -> Option<
    i128,
>
    decreases
            (if k <= MAX_FACTOR {
                MAX_FACTOR + 1 - k
            } else {
                0
            }),
    when 2 <= k
{
    if k > MAX_FACTOR {
        None
    } else {
        let res = lenstra_step_spec(seed, point, k);
        if res.2 {
            lenstra_verdict(seed, res.0, res.1)
        } else {
            lenstra_search(seed, res.0, k + 1)
        }
    }
}

impl WeierStrassPoint {
    /// One full Lenstra attempt for this (curve, point) pair: approximates
    /// multiplying the point by the factorial of the smoothness bound, and
    /// on a group-law failure extracts a gcd from the last two accumulator
    /// positions.  The search is deterministic in the seed point: the
    /// result is exactly `lenstra_search`, and any value returned is a
    /// nontrivial divisor of the modulus.
    pub fn lenstra(&self) -> (r: Option<i128>)
        requires
            self.wf(),
        ensures
            r == lenstra_search(*self, *self, 2),
            r.is_some() ==> 1 < r.unwrap() < self.curve.p,
            r.is_some() ==> (self.curve.p as int) % (r.unwrap() as int) == 0,
    {
        let mut point = *self;
        let mut next_point = *self;
        let p = self.curve.p;
        let mut factorial: i128 = 2;
        while factorial <= MAX_FACTOR
            invariant
                self.wf(),
                point.wf(),
                next_point.wf(),
                point.curve == self.curve,
                next_point.curve == self.curve,
                p == self.curve.p,
                2 <= factorial <= MAX_FACTOR + 1,
                lenstra_search(*self, point, factorial as int) == lenstra_search(*self, *self, 2),
            decreases MAX_FACTOR - factorial + 1,
        {
            let ghost pt0 = point;
            let ghost k0 = factorial as int;
            let res = lenstra_step(self, point, factorial);
            point = res.0;
            next_point = res.1;
            if res.2 {
                let diff = eucl_rem(point.x - next_point.x, p);
                let result = gcd(diff, p);
                proof {
                    if diff != 0 {
                        lemma_gcd_divides(diff as nat, p as nat);
                    }
                    assert(lenstra_search(*self, pt0, k0) == lenstra_verdict(
                        *self,
                        point,
                        next_point,
                    ));
                }
                // avoid returning p or 1: those reveal nothing
                if p > result && result > 1 {
                    return Some(result);
                } else {
                    return None;
                }
            }
            proof {
                assert(lenstra_search(*self, pt0, k0) == lenstra_search(*self, point, k0 + 1));
            }
            factorial = factorial + 1;
        }
        proof {
            assert(lenstra_search(*self, point, factorial as int) == None::<i128>);
        }
        None
    }
}

/// Lenstra's elliptic-curve factorization.  An even number immediately
/// yields its half; otherwise random curves through random points are
/// searched, and absence is returned when the iteration budget runs out.
/// Any value returned divides `number` exactly.
pub fn factorize(number: i128) -> (r: Option<i128>)
    requires
        1 <= number <= MAX_MODULUS,
    ensures
        r.is_some() ==> 1 <= r.unwrap() && (number as int) % (r.unwrap() as int) == 0,
        number % 2 == 0 ==> r == Some((number / 2) as i128),
        number % 2 != 0 && r.is_some() ==> 1 < r.unwrap() < number,
{
    if number % 2 == 0 {
        let halfv = number / 2;
        proof {
            lemma_fundamental_div_mod(number as int, 2);
            lemma_mod_multiples_basic(2, halfv as int);
        }
        return Some(halfv);
    }
    let mut i: u32 = 0;
    while i < MAX_ITERATIONS
        invariant
            1 <= number <= MAX_MODULUS,
            (number as int) % 2 != 0,
        decreases MAX_ITERATIONS - i,
    {
        // a random curve through a random point: pick x, y and a, then
        // solve for b so that (x, y) lies on the curve by construction
        let root = isqrt(number);
        proof {
            assert(1 <= root && root <= number) by (nonlinear_arith)
                requires
                    0 <= root,
                    (root as int) * (root as int) <= number,
                    number < ((root as int) + 1) * ((root as int) + 1),
                    1 <= number,
            ;
        }
        let x = rand_below(root);
        let y = rand_below(root);
        let a = rand_below(root);
        proof {
            assert((number as int) * (number as int) <= i128::MAX && (number as int) * (
            y as int) <= i128::MAX && (number as int) * (x as int) <= i128::MAX && (a as int) * (
            x as int) <= number) by (nonlinear_arith)
                requires
                    1 <= number <= MAX_MODULUS,
                    0 <= y < root,
                    0 <= x < root,
                    0 <= a < root,
                    (root as int) * (root as int) <= number,
            ;
        }
        let y2 = mod_pow(y, 2, number);
        let x3 = mod_pow(x, 3, number);
        let b = eucl_rem(y2 - x3 - a * x, number);
        match WeierStrass::new(a, b, number) {
            Some(curve) => {
                let point = WeierStrassPoint::new(x, y, curve);
                match point.lenstra() {
                    Some(factor) => {
                        return Some(factor);
                    },
                    None => {},
                }
            },
            None => {},
        }
        i = i + 1;
    }
    None
}

} // verus!
