use num_bigint::BigInt;
use num_complex::Complex64;
use num_rational::Ratio;
use num_traits::{FromPrimitive, ToPrimitive, Zero};
use rand_distr::Distribution;
use rlwe::bits::bit_reverse_vec;
use rlwe::crt::Crt;
use rlwe::poly_ring::PolynomialRing;
use rlwe::rlwe::{decrypt, encrypt, encrypt_with, PlainText, PublicKey, Rwle};

const FOUR_IMG: [u8; 28 * 28] = [
    0, 0, 0, 0, 0, 0, 0, 0, 0, 0, 0, 0, 0, 0, 0, 0, 0, 0, 0, 0, 0, 0, 0, 0, 0, 0, 0, 0,
    0, 0, 0, 0, 0, 0, 0, 0, 0, 0, 0, 0, 0, 0, 0, 0, 0, 0, 0, 0, 0, 0, 0, 0, 0, 0, 0, 0,
    0, 0, 0, 0, 0, 0, 0, 0, 0, 0, 0, 0, 0, 0, 0, 0, 0, 0, 0, 0, 0, 0, 0, 0, 0, 0, 0, 0,
    0, 0, 0, 0, 0, 0, 0, 0, 0, 0, 0, 0, 0, 0, 0, 0, 0, 0, 0, 0, 0, 0, 0, 0, 0, 0, 0, 0,
    0, 0, 0, 0, 0, 0, 0, 0, 0, 0, 0, 0, 0, 0, 0, 0, 0, 0, 0, 0, 0, 0, 0, 0, 0, 0, 0, 0,
    0, 0, 0, 0, 0, 0, 0, 0, 0, 0, 0, 0, 0, 0, 0, 0, 0, 0, 0, 0, 67, 232, 39, 0, 0, 0, 0, 0,
    0, 0, 0, 0, 62, 81, 0, 0, 0, 0, 0, 0, 0, 0, 0, 0, 0, 0, 0, 0, 120, 180, 39, 0, 0, 0, 0, 0,
    0, 0, 0, 0, 126, 163, 0, 0, 0, 0, 0, 0, 0, 0, 0, 0, 0, 0, 0, 2, 153, 210, 40, 0, 0, 0, 0, 0,
    0, 0, 0, 0, 220, 163, 0, 0, 0, 0, 0, 0, 0, 0, 0, 0, 0, 0, 0, 27, 254, 162, 0, 0, 0, 0, 0, 0,
    0, 0, 0, 0, 222, 163, 0, 0, 0, 0, 0, 0, 0, 0, 0, 0, 0, 0, 0, 183, 254, 125, 0, 0, 0, 0, 0, 0,
    0, 0, 0, 46, 245, 163, 0, 0, 0, 0, 0, 0, 0, 0, 0, 0, 0, 0, 0, 198, 254, 56, 0, 0, 0, 0, 0, 0,
    0, 0, 0, 120, 254, 163, 0, 0, 0, 0, 0, 0, 0, 0, 0, 0, 0, 0, 23, 231, 254, 29, 0, 0, 0, 0, 0, 0,
    0, 0, 0, 159, 254, 120, 0, 0, 0, 0, 0, 0, 0, 0, 0, 0, 0, 0, 163, 254, 216, 16, 0, 0, 0, 0, 0, 0,
    0, 0, 0, 159, 254, 67, 0, 0, 0, 0, 0, 0, 0, 0, 0, 14, 86, 178, 248, 254, 91, 0, 0, 0, 0, 0, 0, 0,
    0, 0, 0, 159, 254, 85, 0, 0, 0, 47, 49, 116, 144, 150, 241, 243, 234, 179, 241, 252, 40, 0, 0, 0, 0, 0, 0, 0,
    0, 0, 0, 150, 253, 237, 207, 207, 207, 253, 254, 250, 240, 198, 143, 91, 28, 5, 233, 250, 0, 0, 0, 0, 0, 0, 0, 0,
    0, 0, 0, 0, 119, 177, 177, 177, 177, 177, 98, 56, 0, 0, 0, 0, 0, 102, 254, 220, 0, 0, 0, 0, 0, 0, 0, 0,
    0, 0, 0, 0, 0, 0, 0, 0, 0, 0, 0, 0, 0, 0, 0, 0, 0, 169, 254, 137, 0, 0, 0, 0, 0, 0, 0, 0,
    0, 0, 0, 0, 0, 0, 0, 0, 0, 0, 0, 0, 0, 0, 0, 0, 0, 169, 254, 57, 0, 0, 0, 0, 0, 0, 0, 0,
    0, 0, 0, 0, 0, 0, 0, 0, 0, 0, 0, 0, 0, 0, 0, 0, 0, 169, 254, 57, 0, 0, 0, 0, 0, 0, 0, 0,
    0, 0, 0, 0, 0, 0, 0, 0, 0, 0, 0, 0, 0, 0, 0, 0, 0, 169, 255, 94, 0, 0, 0, 0, 0, 0, 0, 0,
    0, 0, 0, 0, 0, 0, 0, 0, 0, 0, 0, 0, 0, 0, 0, 0, 0, 169, 254, 96, 0, 0, 0, 0, 0, 0, 0, 0,
    0, 0, 0, 0, 0, 0, 0, 0, 0, 0, 0, 0, 0, 0, 0, 0, 0, 169, 254, 153, 0, 0, 0, 0, 0, 0, 0, 0,
    0, 0, 0, 0, 0, 0, 0, 0, 0, 0, 0, 0, 0, 0, 0, 0, 0, 169, 255, 153, 0, 0, 0, 0, 0, 0, 0, 0,
    0, 0, 0, 0, 0, 0, 0, 0, 0, 0, 0, 0, 0, 0, 0, 0, 0, 96, 254, 153, 0, 0, 0, 0, 0, 0, 0, 0,
    0, 0, 0, 0, 0, 0, 0, 0, 0, 0, 0, 0, 0, 0, 0, 0, 0, 0, 0, 0, 0, 0, 0, 0, 0, 0, 0, 0,
    0, 0, 0, 0, 0, 0, 0, 0, 0, 0, 0, 0, 0, 0, 0, 0, 0, 0, 0, 0, 0, 0, 0, 0, 0, 0, 0, 0,
    0, 0, 0, 0, 0, 0, 0, 0, 0, 0, 0, 0, 0, 0, 0, 0, 0, 0, 0, 0, 0, 0, 0, 0, 0, 0, 0, 0,
];

/// The canonical embedding of CKKS, with the 5-power rotation group.
struct CKKSEncoder {
    roots_of_unity: Vec<Complex64>,
    roots_of_unity_inv: Vec<Complex64>,
    rot_group: Vec<i64>,
    fft_length: usize,
}

impl CKKSEncoder {
    fn new(fft_length: usize) -> CKKSEncoder {
        let angles: Vec<f64> = (0..fft_length)
            .map(|i| 2. * std::f64::consts::PI * i as f64 / fft_length as f64)
            .collect();
        let roots_of_unity = angles.iter().map(|a| Complex64::new(a.cos(), a.sin())).collect();
        let roots_of_unity_inv = angles
            .iter()
            .map(|a| Complex64::new((-a).cos(), (-a).sin()))
            .collect();
        let num_slots = fft_length / 4;
        let mut rot_group = vec![1i64; num_slots];
        for i in 1..num_slots {
            rot_group[i] = (5 * rot_group[i - 1]).rem_euclid(fft_length as i64);
        }
        CKKSEncoder { roots_of_unity, roots_of_unity_inv, rot_group, fft_length }
    }

    fn embedding(&self, coeffs: &Vec<Complex64>) -> Vec<Complex64> {
        let num_coeffs = coeffs.len();
        let mut result = bit_reverse_vec(coeffs);
        let log_num_coeffs = num_coeffs.trailing_zeros() as usize;
        for logm in 1..log_num_coeffs + 1 {
            let idx_mod = 1 << (logm + 2);
            let gap = self.fft_length / idx_mod;
            for j in (0..num_coeffs).step_by(1 << logm) {
                for i in 0..(1 << (logm - 1)) {
                    let index_even = j + i;
                    let index_odd = j + i + (1 << (logm - 1));
                    let rou_idx = (self.rot_group[i].rem_euclid(idx_mod as i64)) * gap as i64;
                    let omega_factor = self.roots_of_unity[rou_idx as usize] * result[index_odd];
                    let butterfly_plus = result[index_even] + omega_factor;
                    let butterfly_minus = result[index_even] - omega_factor;
                    result[index_even] = butterfly_plus;
                    result[index_odd] = butterfly_minus;
                }
            }
        }
        result
    }

    fn embedding_inv(&self, coeffs: &Vec<Complex64>) -> Vec<Complex64> {
        let num_coeffs = coeffs.len();
        let mut result = coeffs.clone();
        let log_num_coeffs = num_coeffs.trailing_zeros() as usize;
        for logm in (1..log_num_coeffs + 1).rev() {
            let idx_mod = 1 << (logm + 2);
            let gap = self.fft_length / idx_mod;
            for j in (0..num_coeffs).step_by(1 << logm) {
                for i in 0..(1 << (logm - 1)) {
                    let index_even = j + i;
                    let index_odd = j + i + (1 << (logm - 1));
                    let rou_idx = (self.rot_group[i].rem_euclid(idx_mod as i64)) * gap as i64;
                    let butterfly_plus = result[index_even] + result[index_odd];
                    let mut butterfly_minus = result[index_even] - result[index_odd];
                    butterfly_minus *= self.roots_of_unity_inv[rou_idx as usize];
                    result[index_even] = butterfly_plus;
                    result[index_odd] = butterfly_minus;
                }
            }
        }
        bit_reverse_vec(&result).iter().map(|x| x / num_coeffs as f64).collect()
    }
}

fn encode<'a>(message: &[f64], scaling_factor: usize, encoder: &CKKSEncoder) -> PlainText<'a> {
    let num_values = message.len();
    let plain_len = num_values << 1;
    let message: Vec<Complex64> = message.iter().map(|&x| Complex64::new(x, 0.)).collect();
    let to_scale = encoder.embedding_inv(&message);
    let mut coef = vec![BigInt::zero(); plain_len];
    for i in 0..num_values {
        coef[i] = BigInt::from_f64((to_scale[i].re * scaling_factor as f64 + 0.5).floor()).unwrap();
        coef[i + num_values] = BigInt::from_f64((to_scale[i].im * scaling_factor as f64 + 0.5).floor()).unwrap();
    }
    PlainText::new(PolynomialRing::new(plain_len, coef), BigInt::from(scaling_factor))
}

fn decode(plain: PlainText, encoder: &CKKSEncoder) -> Vec<Complex64> {
    let scaling_factor = plain.scaling_factor.clone();
    let num_values = plain.poly.len() >> 1;
    let mut coef = vec![Complex64::zero(); num_values];
    for i in 0..num_values {
        let r1 = Ratio::new(plain.poly.coef[i].clone(), scaling_factor.clone());
        let r2 = Ratio::new(plain.poly.coef[i + num_values].clone(), scaling_factor.clone());
        coef[i] = Complex64::new(r1.to_f64().unwrap(), r2.to_f64().unwrap());
    }
    encoder.embedding(&coef)
}

/// Discrete Gaussian noise of standard deviation 2, truncated toward zero.
fn rand_normal<'a>(poly_degree: usize, size: usize) -> PolynomialRing<'a> {
    let mut rng = rand::thread_rng();
    let n = rand_distr::Normal::new(0., 2.).unwrap();
    let coef = (0..size).map(|_| BigInt::from_f64(n.sample(&mut rng)).unwrap()).collect();
    PolynomialRing::new(poly_degree, coef)
}

fn keygen<'a>(q: &BigInt, n: usize) -> Rwle<'a> {
    Rwle::keygen(q, n, n, &rand_normal(n, n))
}

fn enc<'a>(key: &PublicKey<'a>, q: &BigInt, plain: &PlainText<'a>) -> rlwe::rlwe::CipherText<'a, 2> {
    let n = plain.poly.poly_degree;
    encrypt(key, q, plain, &rand_normal(n, n), &rand_normal(n, n))
}

fn close(a: f64, b: f64, eps: f64) -> bool {
    (a - b).abs() <= eps
}

#[test]
fn encoder() {
    let n = 8;

    let encoder = CKKSEncoder::new(n as usize * 2);

    let x = [0.5, 0.3, 0.78, 0.88];
    let plainx = encode(&x, 1usize << 30, &encoder);

    println!("{:?}", plainx.poly);
    let back = decode(plainx, &encoder);
    for (a, b) in x.iter().zip(&back) {
        assert!(close(*a, b.re, 1e-6));
    }
}

#[test]
fn encrypt_decrypt() {
    let n = 8;
    let q = BigInt::from(1) << 600;

    let encoder = CKKSEncoder::new(n as usize * 2);

    // Create a keypair 100 times
    for _ in 0..100 {
        let key = keygen(&q, n);

        // Create our data with a single datapoint
        let x = 0.02_f64;
        let data = vec![x; n / 2 as usize];

        let plain = encode(data.as_slice(), 1usize << 30, &encoder);

        let cipher1 = enc(key.public(), &q, &plain);

        let out = decrypt(key.private(), cipher1);

        let decode = decode(out, &encoder);

        assert!(close(x, decode[0].re, 1e-4));
    }
}

#[test]
fn add() {
    let n = 8;

    let q = BigInt::from(1) << 600;

    let key = keygen(&q, n);
    let encoder = CKKSEncoder::new(n as usize * 2);

    let x = [0.05, 0.1, 1.0, 0.005];
    let y = [0.1, 0.02, 0.5, 0.3];

    let plainx = encode(&x, 1usize << 30, &encoder);
    let plainy = encode(&y, 1usize << 30, &encoder);

    let cipherx = enc(key.public(), &q, &plainx);
    let ciphery = enc(key.public(), &q, &plainy);

    let cipherz = cipherx.add(&ciphery).unwrap();

    let plainz = decrypt(key.private(), cipherz);

    let z = decode(plainz, &encoder);

    let expected_z: Vec<f64> = x.iter().zip(&y).map(|(a, b)| a + b).collect();

    for (&x, y) in expected_z.iter().zip(z) {
        assert!(close(x, y.re, 1e-4))
    }
}

#[test]
fn sub_ciphertexts() {
    let n = 8;
    let q = BigInt::from(1) << 600;
    let key = keygen(&q, n);
    let encoder = CKKSEncoder::new(n * 2);
    let x = [0.05, 0.1, 1.0, 0.005];
    let y = [0.1, 0.02, 0.5, 0.3];
    let cx = enc(key.public(), &q, &encode(&x, 1usize << 30, &encoder));
    let cy = enc(key.public(), &q, &encode(&y, 1usize << 30, &encoder));
    let z = decode(decrypt(key.private(), cx.sub(&cy).unwrap()), &encoder);
    for ((a, b), c) in x.iter().zip(&y).zip(z) {
        assert!(close(a - b, c.re, 1e-4));
    }
}

#[test]
fn modulus_mismatch_is_refused() {
    let n = 8;
    let q = BigInt::from(1) << 600;
    let q2 = BigInt::from(1) << 500;
    let key = keygen(&q, n);
    let encoder = CKKSEncoder::new(n * 2);
    let plain = encode(&[0.1, 0.2, 0.3, 0.4], 1usize << 30, &encoder);
    let a = enc(key.public(), &q, &plain);
    let b = enc(key.public(), &q2, &plain);
    assert!(a.add(&b).is_none());
    assert!(a.sub(&b).is_none());
    assert!(a.mul(&b).is_none());
    assert_eq!(a.dim(), 2);
}

#[test]
fn mul() {
    let poly_degree = 4 * 2;
    let ciph_modulus = BigInt::from(1) << 600;
    let scaling_factor = 1_usize << 30;

    let key = keygen(&ciph_modulus, poly_degree);
    let encoder = CKKSEncoder::new(poly_degree as usize * 2);

    let x = [0.05, 0.1, 1.0, 0.005];
    let y = [0.1, 0.02, 0.5, 0.3];
    let plainx = encode(&x, scaling_factor, &encoder);
    let plainy = encode(&y, scaling_factor, &encoder);

    let cipherx = enc(key.public(), &ciph_modulus, &plainx);
    let ciphery = enc(key.public(), &ciph_modulus, &plainy);

    let cipherz = cipherx.mul(&ciphery).unwrap();
    assert_eq!(cipherz.dim(), 3);

    let plainz = decrypt(key.private(), cipherz);

    let z = decode(plainz, &encoder);
    let expected_z: Vec<f64> = x.iter().zip(&y).map(|(a, b)| a * b).collect();

    for (&x, y) in expected_z.iter().zip(z) {
        assert!(close(x, y.re, 1e-4))
    }
}

#[test]
fn mul_relin() {
    let poly_degree = 4 * 2;
    let ciph_modulus = BigInt::from(1) << 600;
    let big_modulus = BigInt::from(1) << 1200;
    let scaling_factor = 1_usize << 30;

    let key = keygen(&ciph_modulus, poly_degree);
    let relin_key = key.relin_key(&big_modulus, &rand_normal(poly_degree, poly_degree));
    let encoder = CKKSEncoder::new(poly_degree as usize * 2);

    let x = [0.05, 0.1, 1.0, 0.005];
    let y = [0.1, 0.02, 0.5, 0.3];
    let plainx = encode(&x, scaling_factor, &encoder);
    let plainy = encode(&y, scaling_factor, &encoder);

    let cipherx = enc(key.public(), &ciph_modulus, &plainx);
    let ciphery = enc(key.public(), &ciph_modulus, &plainy);

    let prod = cipherx.mul(&ciphery).unwrap();
    let cipherz_relin = prod.relin(&relin_key, &big_modulus);
    assert_eq!(cipherz_relin.dim(), 2);
    let plainz_relin = decrypt(key.private(), cipherz_relin);
    let z_relin = decode(plainz_relin, &encoder);

    let expected_z: Vec<f64> = x.iter().zip(&y).map(|(a, b)| a * b).collect();
    for (&x, y) in expected_z.iter().zip(z_relin) {
        assert!(close(x, y.re, 1e-4))
    }
}

#[test]
fn decryption_without_noise_is_exact() {
    // With u = 0 and no noise the ciphertext is (m, 0), and decryption gives m back.
    let n = 4;
    let q = BigInt::from(97);
    let key = keygen(&q, n);
    let m = PolynomialRing::new(n, vec![BigInt::from(3), BigInt::from(-5), BigInt::from(0), BigInt::from(7)]);
    let plain = PlainText::new(m, BigInt::from(1));
    let zero = PolynomialRing::new(n, vec![BigInt::from(0); n]);
    let ct = encrypt_with(key.public(), &q, &plain, &zero, &zero, &zero);
    let out = decrypt(key.private(), ct);
    assert_eq!(out.poly, PolynomialRing::new(n, vec![BigInt::from(3), BigInt::from(-5), BigInt::from(0), BigInt::from(7)]));
}

fn mnist_round_trip(crt: Option<&Crt>) {
    let mut four_img_f64 = [0f64; 28 * 28];
    for i in 0..28 * 28 {
        four_img_f64[i] = FOUR_IMG[i] as f64 / 255f64;
    }
    let poly_degree: usize = 1 << 11;
    let ciph_modulus = BigInt::from(1) << 600;
    let scaling_factor = 1_usize << 30;
    let key = keygen(&ciph_modulus, poly_degree);
    let key = match crt {
        Some(c) => key.add_crt(c),
        None => key,
    };
    let encoder = CKKSEncoder::new(poly_degree * 2);
    let mut padded_message = [0f64; 1024];
    padded_message[..28 * 28].copy_from_slice(&four_img_f64);
    let plain = encode(&padded_message, scaling_factor, &encoder);
    let cipher = enc(key.public(), &ciph_modulus, &plain);
    let out = decrypt(key.private(), cipher);
    let img = decode(out, &encoder);
    let mut img: Vec<u8> = img.iter().map(|x| (x.re * 255.) as u8).collect();
    img.truncate(28 * 28);
    // Check if the decoded image is within +-1 pixel value of original image
    for i in 0..28 * 28 {
        assert!((FOUR_IMG[i] as i32 - img[i] as i32).abs() <= 1);
    }
}

#[test]
fn mnist() {
    mnist_round_trip(None);
}

#[test]
fn mnist_crt() {
    let log_poly_degree = 11;
    let poly_degree = 1 << log_poly_degree;
    let log_modulus = 600;
    let prime_size = 30;
    let num_primes = (2 + log_poly_degree + 4 * log_modulus + prime_size - 1) / prime_size;
    let crt = Crt::new(num_primes, prime_size, poly_degree).unwrap();
    mnist_round_trip(Some(&crt));
}
