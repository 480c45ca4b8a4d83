//! Modular arithmetic primitives: overflow-safe modular multiplication and
//! exponentiation, the extended Euclidean algorithm, and modular inverses.

use vstd::prelude::*;

verus! {

use vstd::arithmetic::div_mod::*;
use vstd::arithmetic::mul::*;
use vstd::arithmetic::power::pow;
use vstd::arithmetic::power::lemma_pow_adds;
use vstd::arithmetic::power::lemma_pow0;
use vstd::arithmetic::power::lemma_pow1;
use vstd::arithmetic::power2::pow2;
use vstd::arithmetic::power2::lemma_pow2_unfold;
use vstd::arithmetic::power2::lemma_pow2;
use vstd::math::abs;

/// Greatest common divisor of two natural numbers, by the Euclidean
/// recursion that the executable code mirrors.
pub open spec fn gcd_nat(a: nat, b: nat) -> nat
    decreases a,
{
    if a == 0 {
        b
    } else {
        gcd_nat(b % a, a)
    }
}

/// The gcd of two naturals is positive as soon as one of them is, and it
/// divides both.
pub proof fn lemma_gcd_divides(a: nat, b: nat)
    ensures
        a > 0 ==> gcd_nat(a, b) > 0,
        b > 0 ==> gcd_nat(a, b) > 0,
        gcd_nat(a, b) > 0 ==> a % gcd_nat(a, b) == 0 && b % gcd_nat(a, b) == 0,
    decreases a,
{
    if a == 0 {
        if b > 0 {
            lemma_mod_self_0(b as int);
            assert(0int % (b as int) == 0) by {
                lemma_small_mod(0, b);
            }
        }
    } else {
        lemma_gcd_divides(b % a, a);
        let g = gcd_nat(a, b);
        assert(g == gcd_nat(b % a, a));
        assert(g > 0);
        assert(a % g == 0);
        assert((b % a) % g == 0);
        lemma_fundamental_div_mod(b as int, a as int);
        lemma_fundamental_div_mod(a as int, g as int);
        // b == a * (b / a) + b % a, and a is a multiple of g.
        let q = b as int / a as int;
        let k = a as int / g as int;
        assert(a as int == g as int * k);
        assert(a as int * q == g as int * (k * q)) by {
            lemma_mul_is_associative(g as int, k, q);
        }
        assert((g as int * (k * q)) % (g as int) == 0) by {
            lemma_mod_multiples_basic(k * q, g as int);
            lemma_mul_is_commutative(g as int, k * q);
        }
        assert(b as int == a as int * q + (b % a)) by {
            lemma_mul_is_commutative(a as int, q);
        }
        assert((b as int) % (g as int) == 0) by {
            lemma_add_mod_noop(a as int * q, (b % a) as int, g as int);
        }
    }
}

/// Any common divisor of `a` and `b` divides their gcd.
pub proof fn lemma_gcd_greatest(a: nat, b: nat, c: nat)
    requires
        c > 0,
        a % c == 0,
        b % c == 0,
    ensures
        gcd_nat(a, b) % c == 0,
    decreases a,
{
    if a == 0 {
    } else {
        // b % a is also a multiple of c, since b and a are.
        lemma_fundamental_div_mod(b as int, a as int);
        lemma_fundamental_div_mod(a as int, c as int);
        let q = b as int / a as int;
        let k = a as int / c as int;
        assert(a as int == c as int * k);
        assert(a as int * q == c as int * (k * q)) by {
            lemma_mul_is_associative(c as int, k, q);
        }
        assert((a as int * q) % (c as int) == 0) by {
            lemma_mod_multiples_basic(k * q, c as int);
            lemma_mul_is_commutative(c as int, k * q);
        }
        assert((b % a) as int == b as int - a as int * q);
        assert(((b % a) as int) % (c as int) == 0) by {
            lemma_sub_mod_noop(b as int, a as int * q, c as int);
            assert((b as int - a as int * q) % (c as int) == (0int - 0int) % (c as int));
            lemma_small_mod(0, c);
        }
        lemma_gcd_greatest(b % a, a, c);
    }
}

/// A positive divisor of a positive number is no larger than it.
pub proof fn lemma_divisor_le(n: nat, c: nat)
    requires
        c > 0,
        n > 0,
        n % c == 0,
    ensures
        c <= n,
{
    lemma_fundamental_div_mod(n as int, c as int);
    let q = n as int / c as int;
    if q <= 0 {
        assert(c as int * q <= 0) by {
            lemma_mul_inequality(q, 0, c as int);
            lemma_mul_is_commutative(c as int, q);
        }
    } else {
        assert(c as int * 1 <= c as int * q) by {
            lemma_mul_inequality(1, q, c as int);
            lemma_mul_is_commutative(c as int, q);
        }
    }
}

/// Euclidean remainder: reduces `n` into `[0, |m|)`.
pub(crate) fn eucl_rem(n: i128, m: i128) -> (r: i128)
    requires
        m != 0,
        m > i128::MIN,
    ensures
        0 <= r < abs(m as int),
        r == (n as int) % (abs(m as int) as int),
{
    let ma: i128 = if m < 0 {
        -m
    } else {
        m
    };
    let t = n % ma;
    if t < 0 {
        proof {
            let s = -(t as int);
            let q = (-(n as int)) / (ma as int);
            lemma_fundamental_div_mod(-(n as int), ma as int);
            assert(-(n as int) == (ma as int) * q + s);
            assert(n as int == (-q - 1) * (ma as int) + ((ma as int) - s)) by {
                lemma_mul_is_distributive_sub_other_way(ma as int, -q, 1);
                lemma_mul_unary_negation(ma as int, q);
                lemma_mul_is_commutative(ma as int, -q);
            }
            lemma_fundamental_div_mod_converse_mod(
                n as int,
                ma as int,
                -q - 1,
                (ma as int) - s,
            );
        }
        t + ma
    } else {
        proof {
            if n < 0 {
                let s = -(t as int);
                let q = (-(n as int)) / (ma as int);
                lemma_fundamental_div_mod(-(n as int), ma as int);
                assert(s == 0);
                assert(n as int == (-q) * (ma as int) + 0) by {
                    lemma_mul_unary_negation(ma as int, q);
                    lemma_mul_is_commutative(ma as int, -q);
                }
                lemma_fundamental_div_mod_converse_mod(n as int, ma as int, -q, 0);
            }
        }
        t
    }
}

/// Overflow-safe modular multiplication by binary doubling and adding.
/// The result is reduced into `[0, |modulo|)` for operands of any sign.
pub fn mod_mul(base: i128, factor: i128, modulo: i128) -> (r: i128)
    requires
        modulo != 0,
        modulo > i128::MIN,
        base > i128::MIN,
        factor > i128::MIN,
        2 * abs(modulo as int) <= i128::MAX,
    ensures
        0 <= r < abs(modulo as int),
        r == (base as int) * (factor as int) % (abs(modulo as int) as int),
{
    let ghost am = abs(modulo as int) as int;
    // Scan the bits of the smaller operand; this is for speed, not
    // correctness.
    let ab: i128 = if base < 0 {
        -base
    } else {
        base
    };
    let af: i128 = if factor < 0 {
        -factor
    } else {
        factor
    };
    let mut b0 = base;
    let mut f0 = factor;
    if af > ab {
        b0 = factor;
        f0 = base;
    }
    if f0 < 0 {
        b0 = -b0;
        f0 = -f0;
    }
    assert((b0 as int) * (f0 as int) == (base as int) * (factor as int)) by (nonlinear_arith)
        requires
            (b0 == base && f0 == factor) || (b0 == factor && f0 == base) || (b0 == -(base as int)
                && f0 == -(factor as int)) || (b0 == -(factor as int) && f0 == -(base as int)),
    ;
    let ma: i128 = if modulo < 0 {
        -modulo
    } else {
        modulo
    };
    let mut acc: i128 = 0;
    let mut cur: i128 = eucl_rem(b0, modulo);
    let mut f: i128 = f0;
    proof {
        assert((0 + (cur as int) * (f0 as int)) % am == ((b0 as int) * (f0 as int)) % am) by {
            lemma_mul_mod_noop_left(b0 as int, f0 as int, am);
        }
    }
    while f > 0
        invariant
            0 <= f,
            ma == am,
            1 <= ma,
            2 * (ma as int) <= i128::MAX,
            0 <= acc < ma,
            0 <= cur < ma,
            ((acc as int) + (cur as int) * (f as int)) % am == ((base as int) * (factor as int))
                % am,
        decreases f,
    {
        let ghost acc0 = acc as int;
        let ghost cur0 = cur as int;
        let ghost f_old = f as int;
        let ghost bit = f_old % 2;
        if f % 2 == 1 {
            acc = (acc + cur) % ma;
            proof {
                assert(bit == 1);
                assert(acc as int == (acc0 + bit * cur0) % am);
            }
        } else {
            proof {
                assert(bit == 0);
                lemma_small_mod(acc0 as nat, am as nat);
                assert(acc as int == (acc0 + bit * cur0) % am);
            }
        }
        cur = (cur + cur) % ma;
        f = f / 2;
        proof {
            lemma_fundamental_div_mod(f_old, 2);
            assert(f_old == 2 * (f as int) + bit);
            assert(acc as int == (acc0 + bit * cur0) % am);
            assert(cur as int == (2 * cur0) % am);
            // (acc' + cur' * f') == (acc0 + bit*cur0 + 2*cur0*f') (mod am)
            assert(((acc as int) + (cur as int) * (f as int)) % am == (acc0 + bit * cur0 + (2
                * cur0) * (f as int)) % am) by {
                lemma_mul_mod_noop_left(2 * cur0, f as int, am);
                lemma_add_mod_noop((acc0 + bit * cur0) % am, ((2 * cur0) % am) * (f as int), am);
                lemma_add_mod_noop(acc0 + bit * cur0, (2 * cur0) * (f as int), am);
                lemma_mod_twice(acc0 + bit * cur0, am);
            }
            assert(acc0 + bit * cur0 + (2 * cur0) * (f as int) == acc0 + cur0 * f_old)
                by (nonlinear_arith)
                requires
                    f_old == 2 * (f as int) + bit,
            ;
        }
    }
    proof {
        lemma_small_mod(acc as nat, am as nat);
    }
    acc
}

/// A truncating remainder (the value of Rust's `%`) lies within
/// `(-am, am)` and keeps the residue class modulo `am`.
proof fn lemma_trunc_rem(v: int, am: int, t: int)
    requires
        am >= 1,
        v >= 0 ==> t == v % am,
        v < 0 ==> t == -((-v) % am),
    ensures
        -am < t < am,
        t % am == v % am,
        v >= 0 ==> t >= 0,
{
    if v >= 0 {
        lemma_mod_twice(v, am);
        lemma_mod_bound(v, am);
    } else {
        let s = (-v) % am;
        let q = (-v) / am;
        lemma_mod_bound(-v, am);
        lemma_fundamental_div_mod(-v, am);
        if s == 0 {
            assert(v == (-q) * am + 0) by {
                lemma_mul_unary_negation(am, q);
                lemma_mul_is_commutative(am, -q);
            }
            lemma_fundamental_div_mod_converse_mod(v, am, -q, 0);
            lemma_small_mod(0, am as nat);
        } else {
            assert(v == (-q - 1) * am + (am - s)) by {
                lemma_mul_is_distributive_sub_other_way(am, -q, 1);
                lemma_mul_unary_negation(am, q);
                lemma_mul_is_commutative(am, -q);
            }
            lemma_fundamental_div_mod_converse_mod(v, am, -q - 1, am - s);
            assert(t == -s);
            assert(t == (-1) * am + (am - s)) by {
                lemma_mul_is_commutative(am, -1);
                lemma_mul_unary_negation(am, 1);
            }
            lemma_fundamental_div_mod_converse_mod(t, am, -1, am - s);
        }
    }
}

/// Modular exponentiation by square-and-multiply, scanning the exponent
/// from its most significant bit down.  The result is reduced by the
/// truncating remainder, as the repeated squaring is, so it is negative
/// only when the base is.
pub fn mod_pow(base: i128, exponent: i128, modulo: i128) -> (r: i128)
    requires
        exponent >= 0,
        modulo != 0,
        abs(modulo as int) * abs(modulo as int) <= i128::MAX,
        abs(modulo as int) * abs(base as int) <= i128::MAX,
    ensures
        -abs(modulo as int) < r < abs(modulo as int),
        (r as int) % (abs(modulo as int) as int) == pow(base as int, exponent as nat) % (abs(
            modulo as int,
        ) as int),
        base >= 0 ==> r == pow(base as int, exponent as nat) % (abs(modulo as int) as int),
        exponent == 0 ==> r == 1int % (abs(modulo as int) as int),
{
    let ghost am = abs(modulo as int) as int;
    proof {
        assert(modulo != i128::MIN) by {
            if modulo == i128::MIN {
                assert(am * am > i128::MAX) by (nonlinear_arith)
                    requires
                        am >= 0x10000000000000000int,
                ;
            }
        }
    }
    let ma: i128 = if modulo < 0 {
        -modulo
    } else {
        modulo
    };
    // Find the largest power of two that is at most the exponent (1 when
    // the exponent is 0): its position is the most significant bit.
    let half = exponent / 2;
    let mut pw: i128 = 1;
    let ghost mut k: nat = 0;
    proof {
        lemma_pow2(0);
        lemma_pow0(2);
    }
    while pw <= half
        invariant
            exponent >= 0,
            half == exponent as int / 2,
            1 <= pw,
            pw == pow2(k),
            pw == 1 || pw <= exponent,
        decreases exponent - pw,
    {
        proof {
            lemma_pow2_unfold(k + 1);
            lemma_fundamental_div_mod(exponent as int, 2);
            lemma_mod_bound(exponent as int, 2);
            k = k + 1;
        }
        pw = pw * 2;
    }
    proof {
        lemma_fundamental_div_mod(exponent as int, 2);
        lemma_mod_bound(exponent as int, 2);
        assert(exponent < 2 * (pw as int));
        lemma_basic_div(exponent as int, 2 * pw as int);
        lemma_pow0(base as int);
    }
    let mut result: i128 = 1;
    while pw >= 1
        invariant
            exponent >= 0,
            modulo != 0,
            am == abs(modulo as int),
            1 <= ma,
            ma == am,
            am * am <= i128::MAX,
            am * abs(base as int) <= i128::MAX,
            0 <= pw,
            (-am < result < am) || (result == 1 && pw >= 1),
            base >= 0 ==> result >= 0,
            exponent == 0 ==> result >= 0,
            pw >= 1 ==> pw == pow2(k),
            pw >= 1 ==> (result as int) % am == pow(
                base as int,
                (exponent as int / (2 * pw as int)) as nat,
            ) % am,
            pw == 0 ==> (result as int) % am == pow(base as int, exponent as nat) % am,
        decreases pw,
    {
        let ghost h = (exponent as int / (2 * pw as int)) as nat;
        let ghost r0 = result as int;
        proof {
            assert(0 <= r0 * r0 && r0 * r0 <= am * am) by (nonlinear_arith)
                requires
                    (-am < r0 < am) || (r0 == 1 && am >= 1),
            ;
            assert(r0 * r0 < am * am || r0 * r0 == am * am);
        }
        let sq = result * result;
        result = sq % ma;
        proof {
            lemma_mod_bound(sq as int, am);
            lemma_mod_twice(sq as int, am);
            let pb = pow(base as int, h);
            assert((result as int) % am == pow(base as int, h + h) % am) by {
                lemma_mul_mod_noop_general(r0, r0, am);
                lemma_mul_mod_noop_general(pb, pb, am);
                lemma_pow_adds(base as int, h, h);
            }
        }
        let q = exponent / pw;
        let ghost bit = (q as int) % 2;
        proof {
            lemma_div_denominator(exponent as int, pw as int, 2);
            assert((exponent as int / pw as int) / 2 == exponent as int / (pw as int * 2));
            lemma_fundamental_div_mod(q as int, 2);
            lemma_mod_bound(q as int, 2);
            assert(q as int == 2 * (h as int) + bit);
        }
        if q % 2 == 1 {
            let ghost r1 = result as int;
            proof {
                assert(bit == 1);
                assert(exponent != 0) by {
                    if exponent == 0 {
                        lemma_div_of0(pw as int);
                    }
                }
                assert(-(am * (abs(base as int) as int)) <= r1 * base && r1 * base <= am * (abs(
                    base as int,
                ) as int)) by (nonlinear_arith)
                    requires
                        0 <= r1 < am,
                        -(abs(base as int) as int) <= base as int <= abs(base as int) as int,
                ;
            }
            let pr = result * base;
            result = pr % ma;
            proof {
                lemma_trunc_rem(pr as int, am, result as int);
                assert((result as int) % am == pow(base as int, h + h + 1) % am) by {
                    lemma_mul_mod_noop_general(r1, base as int, am);
                    lemma_mul_mod_noop_general(pow(base as int, h + h), base as int, am);
                    lemma_pow_adds(base as int, h + h, 1);
                    lemma_pow1(base as int);
                }
            }
        } else {
            proof {
                assert(bit == 0);
            }
        }
        let ghost pw_old = pw as int;
        proof {
            if pw >= 2 {
                if k == 0 {
                    lemma_pow2(0);
                    lemma_pow0(2);
                }
                lemma_pow2_unfold(k);
                assert(pw as int / 2 == pow2((k - 1) as nat)) by {
                    lemma_div_multiples_vanish(pow2((k - 1) as nat) as int, 2);
                }
                k = (k - 1) as nat;
            }
        }
        pw = pw / 2;
        proof {
            if pw == 0 {
                assert(pw_old == 1);
                assert(exponent as int / 1 == exponent as int) by {
                    lemma_div_basics(exponent as int);
                }
                assert((result as int) % am == pow(base as int, exponent as nat) % am);
            } else {
                assert(2 * (pw as int) == pw_old);
                assert(exponent as int / (2 * pw as int) == q as int);
            }
        }
    }
    proof {
        if base >= 0 || exponent == 0 {
            lemma_small_mod(result as nat, am as nat);
            lemma_pow0(base as int);
        }
    }
    result
}

/// Extended Euclidean algorithm on nonnegative inputs.  Returns the gcd
/// together with Bezout coefficients; the coefficient bounds rule out
/// overflow in the recursion.
fn ext_gcd(a: i128, b: i128) -> (res: (i128, i128, i128))
    requires
        0 <= a,
        0 <= b,
    ensures
        res.0 == gcd_nat(a as nat, b as nat),
        res.1 * a + res.2 * b == res.0,
        a == 0 ==> res.1 == 0 && res.2 == 1,
        -(if b == 0 { 1int } else { b as int }) <= res.1 <= (if b == 0 { 1int } else { b as int }),
        -(if a == 0 { 1int } else { a as int }) <= res.2 <= (if a == 0 { 1int } else { a as int }),
    decreases a,
{
    if a == 0 {
        (b, 0, 1)
    } else {
        let r = b % a;
        let q = b / a;
        proof {
            lemma_fundamental_div_mod(b as int, a as int);
            assert(gcd_nat(a as nat, b as nat) == gcd_nat((b as nat) % (a as nat), a as nat));
        }
        let res0 = ext_gcd(r, a);
        let g = res0.0;
        let x1 = res0.1;
        let y1 = res0.2;
        proof {
            assert(q * (a as int) == b - r) by {
                lemma_fundamental_div_mod(b as int, a as int);
                lemma_mul_is_commutative(a as int, q as int);
            }
            if r == 0 {
                assert(x1 == 0 && y1 == 1);
            } else {
                assert(-(q * (a as int)) <= q * (x1 as int) <= q * (a as int))
                    by (nonlinear_arith)
                    requires
                        0 <= q,
                        -(a as int) <= x1 <= a as int,
                ;
            }
        }
        let qx = q * x1;
        let x = y1 - qx;
        proof {
            assert((x as int) * (a as int) + (x1 as int) * (b as int) == g as int)
                by (nonlinear_arith)
                requires
                    x == y1 - q * x1,
                    b == q * a + r,
                    (x1 as int) * (r as int) + (y1 as int) * (a as int) == g as int,
            ;
        }
        (g, x, x1)
    }
}

/// Extended Euclidean gcd for arbitrary signed inputs: the result `(g, x, y)`
/// satisfies `x * number1 + y * number2 == g`, with the base case
/// `(number2, 0, 1)` when `number1` is zero.
pub fn euclid_gcd(number1: i128, number2: i128) -> (res: (i128, i128, i128))
    requires
        number1 > i128::MIN,
        number2 > i128::MIN,
    ensures
        res.1 * number1 + res.2 * number2 == res.0,
        number1 == 0 ==> res.0 == number2 && res.1 == 0 && res.2 == 1,
        number1 != 0 ==> res.0 == gcd_nat(abs(number1 as int), abs(number2 as int)),
        number1 != 0 ==> res.0 >= 1,
{
    if number1 == 0 {
        return (number2, 0, 1);
    }
    let a: i128 = if number1 < 0 {
        -number1
    } else {
        number1
    };
    let b: i128 = if number2 < 0 {
        -number2
    } else {
        number2
    };
    let res0 = ext_gcd(a, b);
    let g = res0.0;
    let x0 = res0.1;
    let y0 = res0.2;
    let x: i128 = if number1 < 0 {
        -x0
    } else {
        x0
    };
    let y: i128 = if number2 < 0 {
        -y0
    } else {
        y0
    };
    proof {
        lemma_gcd_divides(a as nat, b as nat);
        assert((x as int) * (number1 as int) == (x0 as int) * (a as int)) by (nonlinear_arith)
            requires
                (x == x0 && number1 == a) || (x == -(x0 as int) && number1 == -(a as int)),
        ;
        assert((y as int) * (number2 as int) == (y0 as int) * (b as int)) by (nonlinear_arith)
            requires
                (y == y0 && number2 == b) || (y == -(y0 as int) && number2 == -(b as int)),
        ;
    }
    (g, x, y)
}

/// The gcd itself: the first component of `euclid_gcd`.
pub fn gcd(number1: i128, number2: i128) -> (r: i128)
    requires
        number1 > i128::MIN,
        number2 > i128::MIN,
    ensures
        number1 != 0 ==> r == gcd_nat(abs(number1 as int), abs(number2 as int)),
        number1 == 0 ==> r == number2,
{
    euclid_gcd(number1, number2).0
}

/// `r` is the inverse of `n` modulo `m`, reduced into `[0, m)`.
pub open spec fn is_inverse(r: int, n: int, m: int) -> bool {
    0 <= r < m && (r * n) % m == 1int % m
}

/// The reduced modular inverse, when one exists.
pub open spec fn inverse_mod(n: int, m: int) -> int {
    choose|r: int| is_inverse(r, n, m)
}

/// A reduced modular inverse is unique.
pub proof fn lemma_inverse_unique(n: int, m: int, r1: int, r2: int)
    requires
        m >= 1,
        is_inverse(r1, n, m),
        is_inverse(r2, n, m),
    ensures
        r1 == r2,
{
    assert(r1 * (r2 * n) == r2 * (r1 * n)) by (nonlinear_arith);
    assert((r1 * (r2 * n)) % m == r1 % m) by {
        lemma_mul_mod_noop_right(r1, r2 * n, m);
        lemma_mul_mod_noop_right(r1, 1, m);
        assert((r1 * ((r2 * n) % m)) % m == (r1 * (1int % m)) % m);
        assert(r1 * 1 == r1);
    }
    assert((r2 * (r1 * n)) % m == r2 % m) by {
        lemma_mul_mod_noop_right(r2, r1 * n, m);
        lemma_mul_mod_noop_right(r2, 1, m);
        assert(r2 * 1 == r2);
    }
    lemma_small_mod(r1 as nat, m as nat);
    lemma_small_mod(r2 as nat, m as nat);
}

/// `x` and `y` witness Bezout's identity for `a` and `b`.
pub open spec fn is_bezout(x: int, y: int, a: nat, b: nat) -> bool {
    x * (a as int) + y * (b as int) == gcd_nat(a, b)
}

/// Bezout's identity: the gcd is an integer combination of its arguments.
pub proof fn lemma_bezout(a: nat, b: nat)
    ensures
        exists|x: int, y: int| #[trigger] is_bezout(x, y, a, b),
    decreases a,
{
    if a == 0 {
        assert(is_bezout(0, 1, a, b));
    } else {
        lemma_bezout(b % a, a);
        let (x1, y1): (int, int) = choose|x: int, y: int| #[trigger] is_bezout(x, y, b % a, a);
        lemma_fundamental_div_mod(b as int, a as int);
        let q = b as int / a as int;
        assert(is_bezout(y1 - q * x1, x1, a, b)) by {
            assert(gcd_nat(a, b) == gcd_nat(b % a, a));
            assert((y1 - q * x1) * (a as int) + x1 * (b as int) == x1 * ((b % a) as int) + y1 * (
            a as int)) by (nonlinear_arith)
                requires
                    b as int == (a as int) * q + ((b % a) as int),
            ;
        }
    }
}

/// When `n` is invertible modulo `m`, the chosen `inverse_mod` value really
/// is an inverse.
pub proof fn lemma_inverse_exists(n: int, m: int)
    requires
        m >= 1,
        gcd_nat((n % m) as nat, m as nat) == 1,
    ensures
        is_inverse(inverse_mod(n, m), n, m),
{
    let a = (n % m) as nat;
    lemma_bezout(a, m as nat);
    let (x, y): (int, int) = choose|x: int, y: int| #[trigger] is_bezout(x, y, a, m as nat);
    assert(x * (a as int) + y * m == 1);
    let r = x % m;
    lemma_mod_bound(x, m);
    assert((r * n) % m == 1int % m) by {
        lemma_mul_mod_noop_right(r, n, m);
        assert((r * (n % m)) % m == (r * n) % m);
        lemma_mul_mod_noop_left(x, a as int, m);
        assert((r * (a as int)) % m == (x * (a as int)) % m);
        lemma_mod_multiples_vanish(-y, 1, m);
        assert(m * (-y) + 1 == x * (a as int)) by {
            assert(m * (-y) == -(y * m)) by (nonlinear_arith);
        }
    }
    assert(is_inverse(r, n, m));
    assert(is_inverse(inverse_mod(n, m), n, m)) by {
        assert(exists|rr: int| is_inverse(rr, n, m));
    }
}

/// Negating a number does not change the gcd of its residue with the
/// modulus.
pub proof fn lemma_gcd_neg_mod(d: int, m: int)
    requires
        m >= 1,
    ensures
        gcd_nat(((-d) % m) as nat, m as nat) == gcd_nat((d % m) as nat, m as nat),
{
    let e = d % m;
    let q = d / m;
    lemma_mod_bound(d, m);
    lemma_fundamental_div_mod(d, m);
    if e == 0 {
        assert(-d == (-q) * m + 0) by {
            assert((-q) * m == -(m * q)) by (nonlinear_arith);
        }
        lemma_fundamental_div_mod_converse_mod(-d, m, -q, 0);
    } else {
        assert(-d == (-q - 1) * m + (m - e)) by {
            assert((-q - 1) * m == -(m * q) - m) by (nonlinear_arith);
        }
        lemma_fundamental_div_mod_converse_mod(-d, m, -q - 1, m - e);
        assert((-d) % m == m - e);
        let g1 = gcd_nat((m - e) as nat, m as nat);
        let g2 = gcd_nat(e as nat, m as nat);
        lemma_gcd_divides((m - e) as nat, m as nat);
        lemma_gcd_divides(e as nat, m as nat);
        // g1 divides e == m - (m - e), so it divides g2; and symmetrically.
        assert((e as int) % (g1 as int) == 0) by {
            lemma_sub_mod_noop(m, m - e, g1 as int);
            assert((m - (m - e)) % (g1 as int) == (0int - 0int) % (g1 as int));
            lemma_small_mod(0, g1);
        }
        lemma_gcd_greatest(e as nat, m as nat, g1);
        assert(((m - e) as int) % (g2 as int) == 0) by {
            lemma_sub_mod_noop(m, e, g2 as int);
            assert((m - e) % (g2 as int) == (0int - 0int) % (g2 as int));
            lemma_small_mod(0, g2);
        }
        lemma_gcd_greatest((m - e) as nat, m as nat, g2);
        lemma_divisor_le(g2, g1);
        lemma_divisor_le(g1, g2);
    }
}

/// Modular inverse of `number` modulo `modulo`, if it exists.  Absence of the
/// inverse is meaningful output: it is how the curve arithmetic signals that
/// a denominator shares a factor with the modulus.
pub fn mod_inv(number: i128, modulo: i128) -> (r: Option<i128>)
    requires
        modulo != 0,
        modulo > i128::MIN,
    ensures
        modulo != -1 ==> (r.is_some() <==> gcd_nat(
            ((number as int) % (abs(modulo as int) as int)) as nat,
            abs(modulo as int),
        ) == 1),
        modulo == -1 ==> r.is_none(),
        r.is_some() ==> is_inverse(
            r.unwrap() as int,
            number as int,
            abs(modulo as int) as int,
        ),
        r.is_some() ==> r.unwrap() == inverse_mod(number as int, abs(modulo as int) as int),
{
    let ghost am = abs(modulo as int) as int;
    let nm = eucl_rem(number, modulo);
    let res = euclid_gcd(nm, modulo);
    let g = res.0;
    let x = res.1;
    proof {
        if nm == 0 {
            assert(gcd_nat(0, am as nat) == am);
        } else {
            assert(g == gcd_nat(nm as nat, am as nat));
        }
    }
    if g == 1 {
        let inv = eucl_rem(x, modulo);
        proof {
            let xi = x as int;
            let yi = res.2 as int;
            let ni = number as int;
            let mi = modulo as int;
            assert(xi * (nm as int) + yi * mi == 1);
            // 1 - yi * modulo is congruent to 1 modulo |modulo|.
            assert((xi * (nm as int)) % am == 1int % am) by {
                if mi >= 1 {
                    lemma_mod_multiples_vanish(-yi, 1, am);
                    assert(am * (-yi) + 1 == xi * (nm as int)) by {
                        assert(am == mi);
                        assert(mi * (-yi) == -(yi * mi)) by (nonlinear_arith);
                    }
                } else {
                    lemma_mod_multiples_vanish(yi, 1, am);
                    assert(am * yi + 1 == xi * (nm as int)) by {
                        assert(am == -mi);
                        assert((-mi) * yi == -(yi * mi)) by (nonlinear_arith);
                    }
                }
            }
            assert(((inv as int) * ni) % am == 1int % am) by {
                lemma_mul_mod_noop_general(xi, nm as int, am);
                assert(((xi % am) * ((nm as int) % am)) % am == (xi * (nm as int)) % am);
                lemma_small_mod(nm as nat, am as nat);
                assert((nm as int) % am == nm as int);
                assert(((inv as int) * (nm as int)) % am == 1int % am);
                lemma_mul_mod_noop_right(inv as int, ni, am);
                assert(ni % am == nm as int);
                assert(((inv as int) * (ni % am)) % am == ((inv as int) * ni) % am);
            }
            assert(is_inverse(inv as int, ni, am));
            let w = inverse_mod(ni, am);
            assert(is_inverse(w, ni, am));
            lemma_inverse_unique(ni, am, w, inv as int);
        }
        Some(inv)
    } else {
        None
    }
}

} // verus!
