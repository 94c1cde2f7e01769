use rlwe::rlwe::RLWE;
use rlwe::rq::Rq;

const N: usize = 8;
const P: i64 = 67108289;
const T: i64 = 37;

fn noise(c: [i64; 8]) -> Rq {
    Rq::new(c.to_vec(), P)
}

fn setup() -> (RLWE, Rq, (Rq, Rq)) {
    let rlwe = RLWE::new(N, P, T);
    let s = noise([1, 0, 0, 1, 0, 0, 0, 0]);
    let e = noise([0, 1, 0, 0, 0, 0, 0, 0]);
    let (sk, pk) = rlwe.generate_keys(s, e);
    (rlwe, sk, pk)
}

fn encrypt(rlwe: &RLWE, m: &Rq, pk: &(Rq, Rq)) -> Vec<Rq> {
    let e0 = noise([0, 0, 1, 0, 0, 0, 0, 0]);
    let e1 = noise([0, 0, 0, 0, 1, 0, 0, 0]);
    let e2 = noise([1, 0, 0, 0, 0, 0, 0, 0]);
    let (c0, c1) = rlwe.encrypt(m.clone(), vec![pk.0.clone(), pk.1.clone()], e0, e1, e2);
    vec![c0, c1]
}

#[test]
fn public_key_relation() {
    let rlwe = RLWE::new(N, P, T);
    let s = noise([1, 0, 0, 1, 0, 0, 0, 0]);
    let e = noise([0, 1, 0, 0, 0, 0, 0, 0]);
    let a1 = noise([5, -3, 100, 0, 7, 8, 9, -11]);
    let (sk, (a0, a1)) = rlwe.keys_from(s.clone(), e.clone(), a1);
    let expected = a1.mul(&sk).add(&e.mul_scalar(T)).mul_scalar(-1);
    assert_eq!(a0.coeffs(), expected.coeffs());
    assert_eq!(sk.coeffs(), s.coeffs());
}

#[test]
fn round_trip() {
    let (rlwe, sk, pk) = setup();
    let m = Rq::new(vec![0, 1, 5, 36, 20, 18, 19, 7], T);
    let c = encrypt(&rlwe, &m, &pk);
    let d = rlwe.decrypt(c, sk);
    assert_eq!(d.coeffs(), m.coeffs());
    assert_eq!(d.modulus(), T);
}

#[test]
fn additive_homomorphism() {
    let (rlwe, sk, pk) = setup();
    let m0 = Rq::new(vec![3, 30, 1, 0, 12, 36, 2, 9], T);
    let m1 = Rq::new(vec![34, 10, 0, 5, 25, 1, 17, 18], T);
    let c = rlwe.add(encrypt(&rlwe, &m0, &pk), encrypt(&rlwe, &m1, &pk));
    assert_eq!(c.len(), 2);
    let d = rlwe.decrypt(c, sk);
    assert_eq!(d.coeffs(), m0.add(&m1).coeffs());
}

#[test]
fn multiplicative_homomorphism() {
    let (rlwe, sk, pk) = setup();
    let m0 = Rq::new(vec![3, 30, 1, 0, 12, 36, 2, 9], T);
    let m1 = Rq::new(vec![34, 10, 0, 5, 25, 1, 17, 18], T);
    let c = rlwe.mul(encrypt(&rlwe, &m0, &pk), encrypt(&rlwe, &m1, &pk));
    assert_eq!(c.len(), 3);
    let d = rlwe.decrypt(c, sk);
    assert_eq!(d.coeffs(), m0.mul(&m1).coeffs());
}

#[test]
fn degree_growth() {
    let (rlwe, _sk, pk) = setup();
    let m = Rq::new(vec![1, 2, 3, 4, 5, 6, 7, 8], T);
    let c2 = encrypt(&rlwe, &m, &pk);
    let c3 = rlwe.mul(c2.clone(), c2.clone());
    assert_eq!(c3.len(), 3);
    assert_eq!(rlwe.mul(c3.clone(), c2.clone()).len(), 4);
    assert_eq!(rlwe.mul(c3.clone(), c3.clone()).len(), 5);
    assert_eq!(rlwe.add(c3.clone(), c2.clone()).len(), 3);
    assert_eq!(rlwe.add(c2.clone(), c3.clone()).len(), 3);
}

#[test]
fn add_pads_with_zero() {
    let rlwe = RLWE::new(2, 101, 7);
    let a = vec![Rq::new(vec![1, 2], 101)];
    let b = vec![Rq::new(vec![3, 4], 101), Rq::new(vec![60, 5], 101)];
    let c = rlwe.add(a, b);
    assert_eq!(c[0].coeffs(), &vec![4, 6]);
    assert_eq!(c[1].coeffs(), &vec![-41, 5]);
}

#[test]
fn mul_convolves_terms() {
    // [a0, a1] * [b0] = [a0 b0, a1 b0] in the ring of degree 2
    let rlwe = RLWE::new(2, 101, 7);
    let x = Rq::new(vec![0, 1], 101);
    let a = vec![Rq::new(vec![1, 2], 101), Rq::new(vec![3, 0], 101)];
    let c = rlwe.mul(a, vec![x]);
    assert_eq!(c.len(), 2);
    assert_eq!(c[0].coeffs(), &vec![-2, 1]);
    assert_eq!(c[1].coeffs(), &vec![0, 3]);
}

#[test]
fn decrypt_evaluates_power_series() {
    // c0 + c1 s + c2 s^2 with s = x in degree 2: 1 + x*x + 1*x^2 = 1 - 1 - 1 = -1
    let rlwe = RLWE::new(2, 101, 7);
    let s = Rq::new(vec![0, 1], 101);
    let c = vec![
        Rq::new(vec![1, 0], 101),
        Rq::new(vec![0, 1], 101),
        Rq::new(vec![1, 0], 101),
    ];
    let d = rlwe.decrypt(c, s);
    assert_eq!(d.coeffs(), &vec![-1, 0]);
    assert_eq!(d.modulus(), 7);
}
