use rlwe::rq::{crange, poly_div, pow_rq, Rq};
use rlwe::sampler::discrete_uniform;

#[test]
fn test_poly_div() {
    // (x^2 - 2x + 1) / (x - 1) = (x - 1, 0)
    let dividend = vec![1, -2, 1];
    let divisor = vec![-1, 1];
    let (q, r) = poly_div(&dividend, &divisor);
    assert_eq!(q, vec![-1, 1]);
    assert_eq!(r, vec![0]);

    // (2 x^3 + 3 x^2 + 4x + 3) / (x + 1) = (2 x^2 + x + 3, 0)
    let dividend = vec![3, 4, 3, 2];
    let divisor = vec![1, 1];
    let (q, r) = poly_div(&dividend, &divisor);
    assert_eq!(q, vec![3, 1, 2]);
    assert_eq!(r, vec![0]);

    let dividend = vec![2];
    let divisor = vec![1, 1];
    let (q, r) = poly_div(&dividend, &divisor);
    assert_eq!(q, vec![0]);
    assert_eq!(r, vec![2]);
}

#[test]
fn poly_div_with_remainder() {
    // (x^3 + 2) / (x^2 + 1) = (x, -x + 2)
    let (q, r) = poly_div(&vec![2, 0, 0, 1], &vec![1, 0, 1]);
    assert_eq!(q, vec![0, 1]);
    assert_eq!(r, vec![2, -1]);
}

#[test]
fn construction_centers_coefficients() {
    let r = Rq::new(vec![5, 6, -1, 13, -6, 11], 11);
    assert_eq!(r.coeffs(), &vec![5, -5, -1, 2, 5, 0]);
    assert_eq!(r.modulus(), 11);
    let r = Rq::new(vec![i64::MIN, i64::MAX], 1 << 40);
    for &c in r.coeffs() {
        assert!(-(1i64 << 39) < c && c <= 1 << 39);
    }
}

#[test]
fn crange_shifts_upper_half() {
    assert_eq!(crange(vec![0, 3, 4, 6], 7), vec![0, 3, -3, -1]);
    assert_eq!(crange(vec![0, 1, 2, 3], 4), vec![0, 1, 2, -1]);
}

#[test]
fn ring_reduction_x_times_x() {
    let x = Rq::new(vec![0, 1], 17);
    assert_eq!(x.mul(&x).coeffs(), &vec![-1, 0]);
}

#[test]
fn ring_multiplication() {
    // (1 + 2x)(3 + x) = 3 + 7x + 2x^2 = 1 + 7x (mod x^2 + 1)
    let a = Rq::new(vec![1, 2], 17);
    let b = Rq::new(vec![3, 1], 17);
    assert_eq!(a.mul(&b).coeffs(), &vec![1, 7]);
    // with q = 13, 7 is centered as -6
    let a = Rq::new(vec![1, 2], 13);
    let b = Rq::new(vec![3, 1], 13);
    assert_eq!(a.mul(&b).coeffs(), &vec![1, -6]);
}

#[test]
fn ring_addition_pads_shorter() {
    let a = Rq::new(vec![1, 2, 3], 7);
    let b = Rq::new(vec![3], 7);
    assert_eq!(a.add(&b).coeffs(), &vec![-3, 2, 3]);
    assert_eq!(b.add(&a).coeffs(), &vec![-3, 2, 3]);
}

#[test]
fn scalar_multiplication() {
    let a = Rq::new(vec![3, -2], 7);
    assert_eq!(a.mul_scalar(4).coeffs(), &vec![-2, -1]);
    assert_eq!(a.mul_scalar(-1).coeffs(), &vec![-3, 2]);
    let big = Rq::new(vec![(1 << 61) - 1], (1 << 62) - 1);
    let r = big.mul_scalar(i64::MAX);
    assert_eq!(r.coeffs().len(), 1);
}

#[test]
fn scalar_distributes_over_addition() {
    let q = 97;
    let a = Rq::new(vec![10, -40, 33, 7], q);
    let b = Rq::new(vec![45, 48, -12], q);
    for k in [-5i64, 0, 3, 29, 1000] {
        let lhs = a.add(&b).mul_scalar(k);
        let rhs = a.mul_scalar(k).add(&b.mul_scalar(k));
        assert_eq!(lhs.coeffs(), rhs.coeffs());
    }
}

#[test]
fn powers() {
    let x = Rq::new(vec![0, 1], 17);
    assert_eq!(pow_rq(&x, 0).coeffs(), &vec![1]);
    assert_eq!(pow_rq(&x, 1).coeffs(), &vec![0, 1]);
    assert_eq!(pow_rq(&x, 2).coeffs(), &vec![-1, 0]);
    assert_eq!(pow_rq(&x, 3).coeffs(), &vec![0, -1]);
    assert_eq!(pow_rq(&x, 4).coeffs(), &vec![1, 0]);
}

#[test]
fn display_text() {
    let r = Rq::new(vec![1, 2], 7);
    assert_eq!(r.to_string(), "Rq: 1+2*x (mod 7), reminder range: (-3, 3)");
    let z = Rq::new(vec![0, 7], 7);
    assert_eq!(z.to_string(), "Rq: 0 (mod 7), reminder range: (-3, 3)");
}

#[test]
fn uniform_sampler_ranges() {
    let r = discrete_uniform(16, 101, None, None);
    assert_eq!(r.coeffs().len(), 16);
    assert_eq!(r.modulus(), 101);
    for &c in r.coeffs() {
        assert!(-50 <= c && c <= 50);
    }
    let r = discrete_uniform(32, 101, Some(3), Some(5));
    for &c in r.coeffs() {
        assert!(3 <= c && c <= 5);
    }
}

fn mul_add(q: &[i64], v: &[i64], r: &[i64]) -> Vec<i128> {
    let mut out = vec![0i128; q.len() + v.len() - 1];
    for (i, &a) in q.iter().enumerate() {
        for (j, &b) in v.iter().enumerate() {
            out[i + j] += a as i128 * b as i128;
        }
    }
    for (k, &c) in r.iter().enumerate() {
        out[k] += c as i128;
    }
    out
}

#[test]
fn poly_div_leading_minus_one() {
    // (x^2 - 1) / (1 - x) = (-1 - x, 0)
    let (q, r) = poly_div(&vec![-1, 0, 1], &vec![1, -1]);
    assert_eq!(q, vec![-1, -1]);
    assert_eq!(r, vec![0]);
}

#[test]
fn poly_div_short_dividend_keeps_it() {
    let (q, r) = poly_div(&vec![i64::MAX], &vec![1, 1]);
    assert_eq!(q, vec![0]);
    assert_eq!(r, vec![i64::MAX]);
}

#[test]
fn poly_div_long_dividend() {
    let dividend = vec![2i64; 62];
    let divisor = vec![1, 1];
    let (q, r) = poly_div(&dividend, &divisor);
    assert_eq!(q.len(), 61);
    assert_eq!(r.len(), 1);
    let back = mul_add(&q, &divisor, &r);
    assert_eq!(back, dividend.iter().map(|&c| c as i128).collect::<Vec<_>>());
}

#[test]
fn poly_div_by_ring_polynomial() {
    // a raw convolution of two degree-8 elements with q = 67108289, reduced by x^8 + 1
    let n = 8;
    let dividend: Vec<i64> = (0..2 * n - 1).map(|k| 9_000_000_000_000_000 - 1_000_000_007 * k as i64).collect();
    let mut f = vec![0i64; n + 1];
    f[0] = 1;
    f[n] = 1;
    let (q, r) = poly_div(&dividend, &f);
    assert_eq!(r.len(), n);
    for k in 0..n {
        let expected = dividend[k] - if k + n < dividend.len() { dividend[k + n] } else { 0 };
        assert_eq!(r[k], expected);
    }
    assert_eq!(mul_add(&q, &f, &r), dividend.iter().map(|&c| c as i128).collect::<Vec<_>>());
}

#[test]
fn ring_product_keeps_degree() {
    let a = Rq::new(vec![3, -1, 4, 1, -5, 9, 2, -6], 97);
    let b = Rq::new(vec![5, 3, -5, 8, 9, -7, 9, 3], 97);
    let c = a.mul(&b);
    assert_eq!(c.coeffs().len(), 8);
    for &x in c.coeffs() {
        assert!(-97 < 2 * x && 2 * x <= 97);
    }
}
