use lenstra::euclid_gcd;
use lenstra::factorize;
use lenstra::gcd;
use lenstra::mod_inv;
use lenstra::mod_mul;
use lenstra::mod_pow;
use lenstra::WeierStrass;
use lenstra::WeierStrassPoint;

#[test]
fn mod_pow_small_exponents() {
    assert_eq!(mod_pow(2, 10, 1000), 24);
    assert_eq!(mod_pow(3, 0, 7), 1);
    assert_eq!(mod_pow(5, 3, 13), 8);
    assert_eq!(mod_pow(10, 5, 100000), 0);
}

#[test]
fn mod_pow_matches_repeated_multiplication() {
    let m: i128 = 11;
    for b in 0..8i128 {
        let mut acc: i128 = 1;
        for e in 0..6i128 {
            assert_eq!(mod_pow(b, e, m), acc % m);
            acc *= b;
        }
    }
}

#[test]
fn mod_pow_negative_base_keeps_residue() {
    let r = mod_pow(-2, 3, 5);
    assert!(-5 < r && r < 5);
    assert_eq!(r.rem_euclid(5), (-8i128).rem_euclid(5));
}

#[test]
fn mod_mul_reduces_into_range() {
    assert_eq!(mod_mul(7, 8, 5), 1);
    assert_eq!(mod_mul(-3, 7, 5), 4);
    assert_eq!(mod_mul(3, -7, 5), 4);
    assert_eq!(mod_mul(-3, -7, 5), 1);
    assert_eq!(mod_mul(0, 12345, 7), 0);
    let big: i128 = 123_456_789_123_456_789;
    let r = mod_mul(big, big, 1_000_000_007);
    assert_eq!(r, (big % 1_000_000_007) * (big % 1_000_000_007) % 1_000_000_007);
}

#[test]
fn mod_pow_large_exponent() {
    assert_eq!(mod_pow(2, 100, 1_000_000_007), 976_371_285);
}

#[test]
fn mod_mul_wide_operands_stay_exact() {
    // the plain product of these operands would overflow a 128-bit integer
    let m: i128 = (1i128 << 100) + 3;
    let v: i128 = 1i128 << 70;
    assert_eq!(mod_mul(v, v, m), 1_267_650_600_228_229_398_198_168_322_051);
    assert_eq!(mod_mul(-v, v, m), 3_298_534_883_328);
}

#[test]
fn mod_mul_negative_modulus() {
    assert_eq!(mod_mul(7, 8, -5), 1);
    assert_eq!(mod_mul(-7, 8, -5), 4);
}

#[test]
fn gcd_examples() {
    assert_eq!(gcd(12, 18), 6);
    assert_eq!(gcd(0, 5), 5);
    assert_eq!(gcd(-12, 18), 6);
    assert_eq!(gcd(17, 5), 1);
    assert_eq!(gcd(861629, 593), 593);
}

#[test]
fn euclid_gcd_bezout_identity() {
    let (g, x, y) = euclid_gcd(240, 46);
    assert_eq!(g, 2);
    assert_eq!(x * 240 + y * 46, g);
    let (g2, x2, y2) = euclid_gcd(-15, 35);
    assert_eq!(g2, 5);
    assert_eq!(x2 * -15 + y2 * 35, g2);
    let (g3, x3, y3) = euclid_gcd(0, -7);
    assert_eq!((g3, x3, y3), (-7, 0, 1));
}

#[test]
fn mod_inv_exists_for_coprime() {
    assert_eq!(mod_inv(3, 7), Some(5));
    for n in 1..11i128 {
        let inv = mod_inv(n, 11).expect("inverse must exist for coprime operands");
        assert_eq!((inv * n).rem_euclid(11), 1);
        assert!(0 <= inv && inv < 11);
    }
}

#[test]
fn mod_inv_absent_for_shared_factor() {
    assert!(mod_inv(2, 4).is_none());
    assert!(mod_inv(6, 9).is_none());
    assert!(mod_inv(0, 5).is_none());
    assert!(mod_inv(861629, 593).is_none());
}

#[test]
fn singular_curve_rejected() {
    for p in [2i128, 3, 5, 7, 97, 861_629] {
        assert!(WeierStrass::new(0, 0, p).is_none());
    }
}

#[test]
fn nonsingular_curve_accepted() {
    assert!(WeierStrass::new(2, 3, 97).is_some());
    assert!(WeierStrass::new(1, 1, 101).is_some());
}

#[test]
fn addition_commutes_for_finite_points() {
    let curve = WeierStrass::new(2, 3, 97).unwrap();
    let p = WeierStrassPoint::new(1, 2, curve);
    let q = WeierStrassPoint::new(3, 4, curve);
    let pq = p.addition(q).unwrap();
    let qp = q.addition(p).unwrap();
    assert!(pq == qp);
}

#[test]
fn addition_rejects_curve_mismatch() {
    let c1 = WeierStrass::new(2, 3, 97).unwrap();
    let c2 = WeierStrass::new(1, 1, 101).unwrap();
    let p = WeierStrassPoint::new(1, 2, c1);
    let q = WeierStrassPoint::new(3, 4, c2);
    assert!(p.addition(q).is_none());
}

#[test]
fn infinite_operand_yields_infinite_sum() {
    let curve = WeierStrass::new(2, 3, 97).unwrap();
    let p = WeierStrassPoint::new(1, 2, curve);
    let inf = WeierStrassPoint::new_infinite(5, curve);
    assert!(!p.is_infinite());
    assert!(inf.is_infinite());
    assert!(inf.addition(p).unwrap().is_infinite());
    assert!(p.addition(inf).unwrap().is_infinite());
}

#[test]
fn lenstra_returns_only_nontrivial_divisors() {
    // deterministic search on a fixed curve over a composite modulus: the
    // point (1, 1) lies on y^2 = x^3 + x + 14 over the integers mod 15
    let curve = WeierStrass::new(1, 14, 15).unwrap();
    let point = WeierStrassPoint::new(1, 1, curve);
    match point.lenstra() {
        Some(f) => {
            assert!(f == 3 || f == 5);
            assert_eq!(15 % f, 0);
        }
        None => {}
    }
}

#[test]
fn factorize_even_returns_half_immediately() {
    assert_eq!(factorize(12), Some(6));
    assert_eq!(factorize(100), Some(50));
    assert_eq!(factorize(2), Some(1));
}

#[test]
fn factorize_finds_known_factor() {
    let n: i128 = 593 * 1453;
    assert_eq!(n, 861_629);
    let f = factorize(n).expect("a factor should turn up within the budget");
    assert!(f == 593 || f == 1453);
}

#[test]
fn factorize_prime_reports_absence() {
    assert_eq!(factorize(3), None);
}

#[test]
fn factor_divides_input() {
    for n in [15i128, 35, 77, 91] {
        if let Some(f) = factorize(n) {
            assert_eq!(n % f, 0);
            assert!(1 < f && f < n);
        }
    }
}
