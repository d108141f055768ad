use num_bigint::BigInt;
use rlwe::crt::Crt;
use rlwe::poly_ring::{mod_ring, Modulo, PolynomialRing};
use rlwe::polynomial::Polynomial;

fn big(v: &[i64]) -> Vec<BigInt> {
    v.iter().map(|x| BigInt::from(*x)).collect()
}

#[test]
fn mod_cyc() {
    let mut poly = Polynomial::new(vec![0, 77, 7, 11, 12, 1]);
    poly.mod_cyc(4);
    assert_eq!(Polynomial::new(vec![-12, 76, 7, 11]), poly)
}

#[test]
fn test_add() {
    let a = Polynomial::new(vec![7, 0, 1, 1]);
    let b = Polynomial::new(vec![0, 11, 1]);
    let c = a.add(b);
    assert_eq!(Polynomial::new(vec![7, 11, 2, 1]), c);
}

#[test]
fn test_mul() {
    let a = Polynomial::new(vec![7, 0, 1, 1]);
    let b = Polynomial::new(vec![0, 11, 1]);
    let c = a.mul(b);
    assert_eq!(Polynomial::new(vec![0, 77, 7, 11, 12, 1]), c);
}

#[test]
fn mul_crt() {
    let log_modulus = 10;
    let modulus: i64 = 1 << log_modulus;

    let prime_size = 30;

    let log_poly_degree = 2;
    let poly_degree: u64 = 1 << log_poly_degree;

    let num_primes = (2 + log_poly_degree + 4 * log_modulus + prime_size - 1) / prime_size;
    println!("Num of primes: {}", num_primes);

    let crt = Crt::new(num_primes, prime_size, poly_degree).unwrap();

    let a = big(&[0, 1, 4, 5]);
    let b = big(&[1, 2, 4, 3]);
    let a_ex = PolynomialRing::new(poly_degree as usize, a.clone());
    let b_ex = PolynomialRing::new(poly_degree as usize, b.clone());

    let a = PolynomialRing::new_with_crt(poly_degree as usize, a, &crt);
    let b = PolynomialRing::new_with_crt(poly_degree as usize, b, &crt);

    let q = BigInt::from(modulus);
    let c_ex = a_ex.mul(&b_ex).rem(&q);

    let c = a.mul(&b).rem(&q);

    println!("{:?}", c_ex);
    println!("{:?}", c);
    assert_eq!(c_ex, c);
}

#[test]
fn sub() {
    let a = PolynomialRing::new(4, big(&[1; 4]));
    let b = PolynomialRing::new(4, big(&[0; 3]));
    let c = a.sub(&b).rem(&BigInt::from(13));
    assert_eq!(PolynomialRing::new(4, big(&[1; 4])), c);
}

#[test]
fn sub_longer_operand_is_negated() {
    let a = PolynomialRing::new(4, big(&[5]));
    let b = PolynomialRing::new(4, big(&[1, 2, 3]));
    assert_eq!(a.sub(&b), PolynomialRing::new(4, big(&[4, -2, -3])));
}

#[test]
fn mul_mod_cyc() {
    let a = Polynomial::new(vec![7, 0, 1, 1]);
    let b = Polynomial::new(vec![0, 11, 1]);
    let mut c = a.mul(b);
    c.mod_cyc(4);
    assert_eq!(Polynomial::new(vec![-12, 76, 7, 11]), c)
}

#[test]
fn add_field_mod_cyc() {
    let a = Polynomial::new(vec![7, 0, 1, 1]);
    let b = Polynomial::new(vec![0, 11, 1]);
    let mut c = a.add(b);
    c.mod_cyc(4);
    c.rem_euclid(5);
    assert_eq!(Polynomial::new(vec![2, 1, 2, 1]), c)
}

#[test]
fn mul_field_mod_cyc() {
    let a = Polynomial::new(vec![7, 0, 1, 1]);
    let b = Polynomial::new(vec![0, 11, 1]);
    let mut c = a.mul(b);
    c.mod_cyc(4);
    c.rem_euclid(5);
    assert_eq!(Polynomial::new(vec![3, 1, 2, 1]), c)
}

#[test]
fn mod_cyc_wraps_twice() {
    // x^8 = (x^4)^2 = 1 and x^9 = x modulo x^4 + 1.
    let mut poly = Polynomial::new(vec![0, 0, 0, 0, 0, 0, 0, 0, 2, 3]);
    poly.mod_cyc(4);
    assert_eq!(Polynomial::new(vec![2, 3, 0, 0]), poly);
    let mut again = Polynomial::new(vec![2, 3, 0, 0]);
    again.mod_cyc(4);
    assert_eq!(poly, again);
}

#[test]
fn ring_mod_cyc() {
    let p = PolynomialRing::new(4, big(&[0, 77, 7, 11, 12, 1])).mod_cyc();
    assert_eq!(p, PolynomialRing::new(4, big(&[-12, 76, 7, 11])));
    assert_eq!(p.mod_cyc(), PolynomialRing::new(4, big(&[-12, 76, 7, 11])));
}

#[test]
fn test_modulo() {
    let q = BigInt::from(13);

    let x = big(&[1, 6, 7, 13, 14, 26, 27, -26, -14, -13, -7, -6, -1]);
    let y: Vec<BigInt> = x.iter().map(|a| a.mod_ring(&q)).collect();

    let expected = big(&[1, 6, -6, 0, 1, 0, 1, 0, -1, 0, 6, -6, -1]);
    assert_eq!(expected, y);
    assert_eq!(mod_ring(&BigInt::from(-7), &q), BigInt::from(6));
}

#[test]
fn rlwe() {
    let n = 2 * 2; // n = 2^k = len(a)
    let q = BigInt::from(13); // q = 1 mod 2n

    let a = PolynomialRing::new(n, big(&[10, 11, 1, 4])).rem(&q);
    let s = PolynomialRing::new(n, big(&[11, 11, 9, 6])).rem(&q);
    let e = PolynomialRing::new(n, big(&[1, 1, -1, 0])).rem(&q);

    let c = a.mul(&s).rem(&q).add(&e).rem(&q);

    assert_eq!(PolynomialRing::new(n, big(&[5, -5, 2, 6])), c);
}

#[test]
fn overflow_add() {
    let n = 4;
    let q = BigInt::from(13);

    let max = BigInt::from(i32::MAX);

    let a = PolynomialRing::new(n, vec![max.clone(), max]).rem(&q);
    let b = PolynomialRing::new(n, big(&[1, 2]));

    let c = a.add(&b).rem(&q);

    assert_eq!(PolynomialRing::new(n, big(&[-2, -1])), c);
}

#[test]
fn overflow_mul() {
    let n = 4;
    let q = BigInt::from(13);

    let max = BigInt::from(i32::MAX);

    let a = PolynomialRing::new(n, vec![max.clone(), max]).rem(&q);
    let b = PolynomialRing::new(n, big(&[2, 2]));

    let c = a.mul(&b).rem(&q);

    assert_eq!(PolynomialRing::new(n, big(&[-6, 1, -6])), c);
}

#[test]
fn clean_and_scale() {
    let p = PolynomialRing::new(4, big(&[3, 0, -2, 0, 0])).clean();
    assert_eq!(p, PolynomialRing::new(4, big(&[3, 0, -2])));
    assert_eq!(p.scale(&BigInt::from(7)), PolynomialRing::new(4, big(&[21, 0, -14])));
    assert_eq!(p.div_each(&BigInt::from(2)), PolynomialRing::new(4, big(&[1, 0, -1])));
    assert_eq!(p.neg(), PolynomialRing::new(4, big(&[-3, 0, 2])));
}

#[test]
fn random_polynomials_in_range() {
    let b = PolynomialRing::rand_binary(8, 8);
    assert_eq!(b.len(), 8);
    assert!(b.coef.iter().all(|c| *c == BigInt::from(0) || *c == BigInt::from(1)));
    let q = BigInt::from(1000);
    let u = PolynomialRing::rand_uniform(&q, 8, 6);
    assert_eq!(u.len(), 6);
    assert!(u.coef.iter().all(|c| *c >= BigInt::from(0) && *c < q));
}

#[test]
fn reduction_commutes_with_ring_operations() {
    let n = 4;
    let q = BigInt::from(13);
    let a = PolynomialRing::new(n, big(&[100, -37, 12, 999, 5, -8]));
    let b = PolynomialRing::new(n, big(&[-250, 41, 7]));
    let aq = a.rem(&q);
    let bq = b.rem(&q);
    assert_eq!(a.add(&b).rem(&q), aq.add(&bq).rem(&q));
    assert_eq!(a.sub(&b).rem(&q), aq.sub(&bq).rem(&q));
    assert_eq!(a.mul(&b).rem(&q), aq.mul(&bq).rem(&q));
    assert_eq!(a.add(&b).rem(&q), PolynomialRing::new(n, big(&[1, -1, 6, -2])));
}

#[test]
fn ring_rem_euclid() {
    let q = BigInt::from(13);
    let p = PolynomialRing::new(4, big(&[-1, 14, 7, -26]));
    assert_eq!(p.rem_euclid(&q), PolynomialRing::new(4, big(&[12, 1, 7, 0])));
}

#[test]
fn mul_crt_falls_back_when_coefficients_are_too_large() {
    let crt = Crt::new(1, 10, 4).unwrap();
    let a = big(&[1000, -2000, 3, 4]);
    let b = big(&[5, 6, -7000, 8]);
    let plain = PolynomialRing::new(4, a.clone()).mul(&PolynomialRing::new(4, b.clone()));
    let with_crt = PolynomialRing::new_with_crt(4, a, &crt).mul(&PolynomialRing::new(4, b));
    assert_eq!(plain, with_crt);
}
