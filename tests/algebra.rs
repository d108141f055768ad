use num_bigint::BigInt;
use rlwe::bits::bit_reverse_vec;
use rlwe::crt::Crt;
use rlwe::ntt::Ntt;
use rlwe::utils::{
    generate_primes, generator, invmod, is_prime_u64, powmod, root_of_unity, rotation_group,
};

#[test]
fn powmod_test() {
    assert_eq!(powmod(3, 1, 7), 3);
    assert_eq!(powmod(3, 2, 7), 2);
    assert_eq!(powmod(3, 3, 7), 6);
    assert_eq!(powmod(3, 4, 7), 4);
    assert_eq!(powmod(3, 5, 7), 5);
    assert_eq!(powmod(3, 6, 7), 1);
    assert_eq!(powmod(3, 7, 7), 3);
}

#[test]
fn generator_test() {
    let primes = [5, 7, 11, 13, 17, 59, 73];

    for p in primes {
        let res = generator(p).unwrap();
        // A generator raised to p - 1 gives 1.
        assert_eq!(powmod(res, p - 1, p), 1);
    }
}

#[test]
fn generator_is_smallest_primitive_root() {
    assert_eq!(generator(7), Some(3));
    assert_eq!(generator(73), Some(5));
    assert_eq!(generator(17), Some(3));
}

#[test]
fn root_of_unity_order() {
    let w = root_of_unity(8, 73).unwrap();
    assert_eq!(w, 10);
    assert_eq!(powmod(w, 8, 73), 1);
    assert_ne!(powmod(w, 4, 73), 1);
}

#[test]
fn invmod_is_inverse() {
    for a in 1..13u64 {
        assert_eq!(a * invmod(a, 13).unwrap() % 13, 1);
    }
    assert_eq!(invmod(0, 13), None);
    assert_eq!(invmod(26, 13), None);
}

#[test]
fn primality() {
    let primes: Vec<u64> = (0..40).filter(|n| is_prime_u64(*n)).collect();
    assert_eq!(primes, vec![2, 3, 5, 7, 11, 13, 17, 19, 23, 29, 31, 37]);
    assert!(is_prime_u64(1_000_000_007));
    assert!(!is_prime_u64(1_000_000_007 * 3));
}

#[test]
fn generated_primes() {
    let primes = generate_primes(3, 10, 8);
    assert_eq!(primes, vec![521, 569, 577]);
    for p in &primes {
        assert_eq!(p % 8, 1);
    }
    // Among 4-bit numbers only 9 is 1 modulo 8, and it is not prime.
    assert_eq!(generate_primes(5, 4, 8), Vec::<u64>::new());
}

#[test]
fn ntt_test() {
    let poly_degree = 4;
    let coeff_modulus = 73;
    let ntt = Ntt::new(poly_degree, coeff_modulus).unwrap();

    let input: Vec<u64> = vec![0, 1, 4, 5];

    let fwd = ntt.ntt(&input, &ntt.roots_of_unity);

    let expected: Vec<u64> = vec![10, 34, 71, 31];

    assert_eq!(expected, fwd);
}

#[test]
fn ntt_inv_test() {
    let poly_degree = 4;
    let coeff_modulus = 73;
    let ntt = Ntt::new(poly_degree, coeff_modulus).unwrap();

    let input: Vec<u64> = vec![10, 34, 71, 31]
        .iter()
        .map(|x| (x * -18i128).rem_euclid(73) as u64)
        .collect();

    let inv = ntt.ntt(&input, &ntt.roots_of_unity_inv);

    let expected: Vec<u64> = vec![0, 1, 4, 5];
    assert_eq!(expected, inv);
}

#[test]
fn ntt_rejects_bad_parameters() {
    assert!(Ntt::new(3, 73).is_none());
    assert!(Ntt::new(8, 73).is_none());
    assert!(Ntt::new(4, 73).is_some());
    // 9 is not prime, although 9 = 1 + 2 * 4.
    assert!(Ntt::new(2, 9).is_none());
    assert!(Ntt::new(4, 65).is_none());
}

#[test]
fn ntt_tables() {
    let ntt = Ntt::new(4, 73).unwrap();
    assert_eq!(ntt.roots_of_unity, vec![1, 10, 27, 51]);
    assert_eq!(ntt.roots_of_unity_inv, vec![1, 22, 46, 63]);
    assert_eq!(powmod(ntt.root, 4, 73), 72);
    assert_eq!(ntt.root * ntt.root_inv % 73, 1);
}

#[test]
fn fft_round_trip() {
    let ntt = Ntt::new(4, 73).unwrap();
    let a: Vec<u64> = vec![3, 0, 72, 9];
    let back = ntt.fft_inv(&ntt.fft_fwd(&a));
    assert_eq!(back, a);
}

#[test]
fn fft_negacyclic_product() {
    // (1 + x) * x^3 = x^3 + x^4 = -1 + x^3 modulo x^4 + 1.
    let ntt = Ntt::new(4, 73).unwrap();
    let a = ntt.fft_fwd(&vec![1, 1, 0, 0]);
    let b = ntt.fft_fwd(&vec![0, 0, 0, 1]);
    let c: Vec<u64> = a.iter().zip(&b).map(|(x, y)| x * y % 73).collect();
    assert_eq!(ntt.fft_inv(&c), vec![72, 0, 0, 1]);
}

#[test]
fn reverse_bits() {
    let x = 6;
    assert_eq!(rlwe::bits::reverse_bits(x, 5), 12);
}

#[test]
fn reverse_bits_edges() {
    assert_eq!(rlwe::bits::reverse_bits(1, 1), 1);
    assert_eq!(rlwe::bits::reverse_bits(0b1011, 4), 0b1101);
    assert_eq!(rlwe::bits::reverse_bits(0b111, 0), 0);
    assert_eq!(rlwe::bits::reverse_bits(1, 64), 1 << 63);
}

#[test]
fn bit_reverse_permutation() {
    let v: Vec<u32> = (0..16).collect();
    let r = bit_reverse_vec(&v);
    assert_eq!(r, vec![0, 8, 4, 12, 2, 10, 6, 14, 1, 9, 5, 13, 3, 11, 7, 15]);
    assert_eq!(bit_reverse_vec(&r), v);
}

#[test]
fn crt_round_trip() {
    let crt = Crt::new(3, 20, 4).unwrap();
    let a: i128 = 123_456_789_012_345;
    let residues = crt.crt(a);
    assert_eq!(crt.reconstruct(residues), BigInt::from(a));
    let split = crt.split(&BigInt::from(-5));
    assert_eq!(split.len(), 3);
    let as_i128: Vec<i128> = split.iter().map(|x| *x as i128).collect();
    assert_eq!(crt.reconstruct(as_i128), &crt.modulus - BigInt::from(5));
    let q = crt.modulus.clone();
    let r = crt.reconstruct(vec![1, 2, 3]);
    assert!(r >= BigInt::from(0) && r < q);
    for (i, p) in crt.primes.iter().enumerate() {
        assert_eq!(&r % BigInt::from(*p), BigInt::from(i as u64 + 1));
    }
    let product: BigInt = crt.primes.iter().map(|p| BigInt::from(*p)).product();
    assert_eq!(product, q);
}

#[test]
fn crt_rejects_bad_parameters() {
    assert!(Crt::new(0, 30, 4).is_none());
    assert!(Crt::new(2, 63, 4).is_none());
    assert!(Crt::new(2, 30, 6).is_none());
    // Among 4-bit numbers no prime is 1 modulo 8.
    assert!(Crt::new(1, 4, 4).is_none());
}

#[test]
fn rotation_group_powers_of_five() {
    assert_eq!(rotation_group(4, 16), vec![1, 5, 9, 13]);
    assert_eq!(rotation_group(0, 16), Vec::<u64>::new());
}
