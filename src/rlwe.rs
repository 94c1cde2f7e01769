use crate::rq::{
    add_spec, center_all, cmod, is_centered, lemma_cmod_centered, lemma_cmod_of_centered,
    lemma_cmod_residue, lemma_mul_distributes, lemma_mul_spec_len, mul_spec, pow_rq, pow_spec,
    scale_spec, Rq,
};
use vstd::arithmetic::div_mod::{lemma_add_mod_noop, lemma_mod_multiples_vanish};
use crate::sampler::{discrete_uniform, drawn_from};
use vstd::arithmetic::div_mod::lemma_small_mod;
use vstd::prelude::*;

verus! {

/// Whether `n` is a power of two.
pub open spec fn is_pow2(n: nat) -> bool
    decreases n,
{
    if n <= 1 {
        n == 1
    } else {
        n % 2 == 0 && is_pow2(n / 2)
    }
}

/// The coefficient sequences of a ciphertext's ring elements.
pub open spec fn views(cs: Seq<Rq>) -> Seq<Seq<int>> {
    cs.map_values(|r: Rq| r@)
}

/// Term `i` of a ciphertext, the zero polynomial past its end.
pub open spec fn term(cs: Seq<Seq<int>>, i: int) -> Seq<int> {
    if 0 <= i < cs.len() {
        cs[i]
    } else {
        seq![0int]
    }
}

/// `sum_{i < k} c_i * s^i` in the ring of modulus `p`, summed from `i = 0` up.
pub open spec fn dec_sum(cs: Seq<Seq<int>>, s: Seq<int>, p: int, k: nat) -> Seq<int>
    decreases k,
{
    if k <= 1 {
        mul_spec(cs[0], pow_spec(s, p, 0), p)
    } else {
        add_spec(
            dec_sum(cs, s, p, (k - 1) as nat),
            mul_spec(cs[k - 1], pow_spec(s, p, (k - 1) as nat), p),
            p,
        )
    }
}

/// `sum_{j < m} c[j] * d[i - j]`, summed from zero with `j = 0` first: term `i` of
/// the product of two ciphertexts seen as polynomials in the secret key.
pub open spec fn mul_term(c: Seq<Seq<int>>, d: Seq<Seq<int>>, i: int, m: nat, p: int) -> Seq<int>
    decreases m,
{
    if m == 0 {
        seq![0int]
    } else {
        add_spec(
            mul_term(c, d, i, (m - 1) as nat, p),
            mul_spec(term(c, m - 1), term(d, i - (m - 1)), p),
            p,
        )
    }
}

/// The public key `a0` for secret `s`, noise `e` and uniform `a1`: `-(a1 s + t e)`.
pub open spec fn public_a0(a1: Seq<int>, s: Seq<int>, e: Seq<int>, p: int, t: int) -> Seq<int> {
    scale_spec(add_spec(mul_spec(a1, s, p), scale_spec(e, t, p), p), -1, p)
}

/// Sums of ring elements of one length may be regrouped: `(a + b) + (c + d) == (a + c) + (b + d)`.
proof fn lemma_add_regroup(a: Seq<int>, b: Seq<int>, c: Seq<int>, d: Seq<int>, q: int)
    requires
        q > 0,
        a.len() == b.len(),
        a.len() == c.len(),
        a.len() == d.len(),
    ensures
        add_spec(add_spec(a, b, q), add_spec(c, d, q), q) == add_spec(
            add_spec(a, c, q),
            add_spec(b, d, q),
            q,
        ),
{
    let lhs = add_spec(add_spec(a, b, q), add_spec(c, d, q), q);
    let rhs = add_spec(add_spec(a, c, q), add_spec(b, d, q), q);
    assert forall|i: int| 0 <= i < lhs.len() implies lhs[i] == rhs[i] by {
        lemma_cmod_centered(a[i] + b[i], q);
        lemma_cmod_centered(c[i] + d[i], q);
        lemma_cmod_centered(a[i] + c[i], q);
        lemma_cmod_centered(b[i] + d[i], q);
        lemma_add_mod_noop(cmod(a[i] + b[i], q), cmod(c[i] + d[i], q), q);
        lemma_add_mod_noop(a[i] + b[i], c[i] + d[i], q);
        lemma_add_mod_noop(cmod(a[i] + c[i], q), cmod(b[i] + d[i], q), q);
        lemma_add_mod_noop(a[i] + c[i], b[i] + d[i], q);
        assert((a[i] + b[i]) + (c[i] + d[i]) == (a[i] + c[i]) + (b[i] + d[i]));
        lemma_cmod_residue(
            cmod(a[i] + b[i], q) + cmod(c[i] + d[i], q),
            cmod(a[i] + c[i], q) + cmod(b[i] + d[i], q),
            q,
        );
    }
    assert(lhs =~= rhs);
}

/// Powers of a nonempty element have one coefficient for `s^0` and its length after.
proof fn lemma_pow_len(s: Seq<int>, q: int, e: nat)
    requires
        q > 0,
        s.len() > 0,
    ensures
        pow_spec(s, q, e).len() == if e == 0 {
            1
        } else {
            s.len()
        },
    decreases e,
{
    if e >= 2 {
        lemma_pow_len(s, q, (e - 1) as nat);
        lemma_mul_spec_len(pow_spec(s, q, (e - 1) as nat), s, q);
    }
}

/// `dec_sum` of termwise sums of two ciphertexts whose terms all have length `n` is
/// the sum of their `dec_sum`s.
proof fn lemma_dec_sum_additive(
    v0: Seq<Seq<int>>,
    v1: Seq<Seq<int>>,
    w: Seq<Seq<int>>,
    s: Seq<int>,
    q: int,
    n: nat,
    k: nat,
)
    requires
        q > 0,
        n > 0,
        s.len() > 0,
        1 <= k <= v0.len(),
        v0.len() == v1.len(),
        w.len() == v0.len(),
        forall|i: int| 0 <= i < v0.len() ==> (#[trigger] v0[i]).len() == n,
        forall|i: int| 0 <= i < v1.len() ==> (#[trigger] v1[i]).len() == n,
        forall|i: int| 0 <= i < w.len() ==> #[trigger] w[i] == add_spec(v0[i], v1[i], q),
    ensures
        dec_sum(w, s, q, k) == add_spec(dec_sum(v0, s, q, k), dec_sum(v1, s, q, k), q),
        dec_sum(v0, s, q, k).len() == n,
        dec_sum(v1, s, q, k).len() == n,
    decreases k,
{
    let pw = pow_spec(s, q, (k - 1) as nat);
    lemma_pow_len(s, q, (k - 1) as nat);
    lemma_mul_distributes(v0[k - 1], v1[k - 1], pw, q);
    lemma_mul_spec_len(v0[k - 1], pw, q);
    lemma_mul_spec_len(v1[k - 1], pw, q);
    if k > 1 {
        lemma_dec_sum_additive(v0, v1, w, s, q, n, (k - 1) as nat);
        lemma_add_regroup(
            dec_sum(v0, s, q, (k - 1) as nat),
            dec_sum(v1, s, q, (k - 1) as nat),
            mul_spec(v0[k - 1], pw, q),
            mul_spec(v1[k - 1], pw, q),
            q,
        );
    }
}

/// Decryption is additive before its reduction modulo `t`: for ciphertexts `c0` and
/// `c1` of one length whose elements all have `n` coefficients, and `sum` their
/// termwise sum as `add` returns it, `sum_i sum_i s^i == sum_i c0_i s^i + sum_i c1_i s^i`
/// in the ring of modulus `p`. Whether the following reduction modulo `t` yields
/// `m0 + m1` depends on the size of the noise.
pub proof fn lemma_decrypt_additive(r: RLWE, c0: Seq<Rq>, c1: Seq<Rq>, sum: Seq<Rq>, s: Rq)
    requires
        r.wf(),
        r.ciphertext(c0),
        r.ciphertext(c1),
        r.element(s),
        c0.len() == c1.len(),
        forall|i: int| 0 <= i < c0.len() ==> (#[trigger] c0[i])@.len() == r.spec_n(),
        forall|i: int| 0 <= i < c1.len() ==> (#[trigger] c1[i])@.len() == r.spec_n(),
        sum.len() == c0.len(),
        forall|i: int|
            0 <= i < sum.len() ==> #[trigger] sum[i]@ == add_spec(
                term(views(c0), i),
                term(views(c1), i),
                r.spec_p(),
            ),
    ensures
        dec_sum(views(sum), s@, r.spec_p(), sum.len()) == add_spec(
            dec_sum(views(c0), s@, r.spec_p(), c0.len()),
            dec_sum(views(c1), s@, r.spec_p(), c1.len()),
            r.spec_p(),
        ),
{
    let v0 = views(c0);
    let v1 = views(c1);
    let w = views(sum);
    assert forall|i: int| 0 <= i < w.len() implies #[trigger] w[i] == add_spec(v0[i], v1[i], r.spec_p()) by {
        assert(w[i] == sum[i]@);
    }
    assert forall|i: int| 0 <= i < v0.len() implies (#[trigger] v0[i]).len() == r.spec_n() by {
        assert(v0[i] == c0[i]@);
    }
    assert forall|i: int| 0 <= i < v1.len() implies (#[trigger] v1[i]).len() == r.spec_n() by {
        assert(v1[i] == c1[i]@);
    }
    lemma_dec_sum_additive(v0, v1, w, s@, r.spec_p(), r.spec_n(), c0.len());
}

/// Additive homomorphism within the noise budget. Let `c0` and `c1` be ciphertexts of
/// one length whose elements all have `n` coefficients, and `sum` their termwise sum
/// as `add` returns it. If, before the reduction modulo `t`, `c0` decrypts to exactly
/// `m0 + t e0` and `c1` to `m1 + t e1`, and `m0 + m1 + t (e0 + e1)` has centered
/// coefficients modulo `p` (no wrap-around), then `sum` decrypts to `m0 + m1` modulo `t`:
/// the coefficients of `decrypt(sum, s)` are those of `Rq::new(m0 + m1, t)`.
pub proof fn lemma_add_homomorphic(
    r: RLWE,
    c0: Seq<Rq>,
    c1: Seq<Rq>,
    sum: Seq<Rq>,
    s: Rq,
    m0: Seq<int>,
    m1: Seq<int>,
    e0: Seq<int>,
    e1: Seq<int>,
)
    requires
        r.wf(),
        r.ciphertext(c0),
        r.ciphertext(c1),
        r.element(s),
        c0.len() == c1.len(),
        forall|i: int| 0 <= i < c0.len() ==> (#[trigger] c0[i])@.len() == r.spec_n(),
        forall|i: int| 0 <= i < c1.len() ==> (#[trigger] c1[i])@.len() == r.spec_n(),
        sum.len() == c0.len(),
        forall|i: int|
            0 <= i < sum.len() ==> #[trigger] sum[i]@ == add_spec(
                term(views(c0), i),
                term(views(c1), i),
                r.spec_p(),
            ),
        m0.len() == r.spec_n(),
        m1.len() == r.spec_n(),
        e0.len() == r.spec_n(),
        e1.len() == r.spec_n(),
        forall|k: int|
            0 <= k < r.spec_n() ==> #[trigger] dec_sum(views(c0), s@, r.spec_p(), c0.len())[k]
                == m0[k] + r.spec_t() * e0[k],
        forall|k: int|
            0 <= k < r.spec_n() ==> #[trigger] dec_sum(views(c1), s@, r.spec_p(), c1.len())[k]
                == m1[k] + r.spec_t() * e1[k],
        forall|k: int|
            0 <= k < r.spec_n() ==> is_centered(
                #[trigger] (m0[k] + m1[k] + r.spec_t() * (e0[k] + e1[k])),
                r.spec_p(),
            ),
    ensures
        center_all(dec_sum(views(sum), s@, r.spec_p(), sum.len()), r.spec_t()) == add_spec(
            m0,
            m1,
            r.spec_t(),
        ),
{
    let p = r.spec_p();
    let t = r.spec_t();
    lemma_decrypt_additive(r, c0, c1, sum, s);
    let v0 = views(c0);
    let v1 = views(c1);
    assert forall|i: int| 0 <= i < v0.len() implies (#[trigger] v0[i]).len() == r.spec_n() by {
        assert(v0[i] == c0[i]@);
    }
    assert forall|i: int| 0 <= i < v1.len() implies (#[trigger] v1[i]).len() == r.spec_n() by {
        assert(v1[i] == c1[i]@);
    }
    let w = views(sum);
    assert forall|i: int| 0 <= i < w.len() implies #[trigger] w[i] == add_spec(v0[i], v1[i], p) by {
        assert(w[i] == sum[i]@);
    }
    lemma_dec_sum_additive(v0, v1, w, s@, p, r.spec_n(), c0.len());
    let d0 = dec_sum(v0, s@, p, c0.len());
    let d1 = dec_sum(v1, s@, p, c1.len());
    let lhs = center_all(dec_sum(w, s@, p, sum.len()), t);
    let rhs = add_spec(m0, m1, t);
    assert forall|k: int| 0 <= k < lhs.len() implies lhs[k] == rhs[k] by {
        let x = m0[k] + m1[k] + t * (e0[k] + e1[k]);
        assert(d0[k] + d1[k] == x) by (nonlinear_arith)
            requires
                d0[k] == m0[k] + t * e0[k],
                d1[k] == m1[k] + t * e1[k],
                x == m0[k] + m1[k] + t * (e0[k] + e1[k]),
        ;
        lemma_cmod_of_centered(x, p);
        lemma_mod_multiples_vanish(e0[k] + e1[k], m0[k] + m1[k], t);
        lemma_cmod_residue(x, m0[k] + m1[k], t);
    }
    assert(lhs =~= rhs);
}

/// Ring-LWE with ring degree `n`, ciphertext modulus `p` and plaintext modulus `t`.
pub struct RLWE {
    n: usize,
    p: i64,
    t: i64,
}

impl RLWE {
    /// The ring degree.
    pub closed spec fn spec_n(&self) -> nat {
        self.n as nat
    }

    /// The ciphertext modulus.
    pub closed spec fn spec_p(&self) -> int {
        self.p as int
    }

    /// The plaintext modulus.
    pub closed spec fn spec_t(&self) -> int {
        self.t as int
    }

    /// Valid parameters.
    pub open spec fn wf(&self) -> bool {
        &&& is_pow2(self.spec_n())
        &&& self.spec_n() * 2 <= usize::MAX
        &&& self.spec_p() > 0
        &&& self.spec_t() > 0
    }

    /// A ring element of the ciphertext ring: modulus `p`, at most `n` coefficients.
    pub open spec fn element(&self, r: Rq) -> bool {
        &&& r.wf()
        &&& r.spec_modulus() == self.spec_p()
        &&& r@.len() <= self.spec_n()
    }

    /// A ciphertext: a nonempty sequence of elements of the ciphertext ring.
    pub open spec fn ciphertext(&self, c: Seq<Rq>) -> bool {
        &&& c.len() >= 1
        &&& forall|i: int| 0 <= i < c.len() ==> self.element(#[trigger] c[i])
    }

    /// The scheme with ring degree `n` (a power of two), ciphertext modulus `p` and
    /// plaintext modulus `t`.
    pub fn new(n: usize, p: i64, t: i64) -> (r: RLWE)
        requires
            is_pow2(n as nat),
            n <= usize::MAX / 2,
            p > 0,
            t > 0,
        ensures
            r.wf(),
            r.spec_n() == n,
            r.spec_p() == p,
            r.spec_t() == t,
    {
        RLWE { n, p, t }
    }

    /// The zero element `[0]` of the ciphertext ring.
    fn zero(&self) -> (r: Rq)
        requires
            self.wf(),
        ensures
            self.element(r),
            r@ == seq![0int],
    {
        let r = Rq::new(vec![0], self.p);
        proof {
            lemma_small_mod(0, self.p as nat);
            assert(r@[0] == cmod(0, self.p as int));
        }
        assert(r@ =~= seq![0int]);
        r
    }

    /// The key pair for secret `s`, noise `e` and uniform `a1`: the secret `s` and
    /// the public pair `(a0, a1)` with `a0 = -(a1 s + t e)`.
    pub fn keys_from(&self, s: Rq, e: Rq, a1: Rq) -> (r: (Rq, (Rq, Rq)))
        requires
            self.wf(),
            self.element(s),
            self.element(e),
            self.element(a1),
        ensures
            r.0 == s,
            r.1.1 == a1,
            r.1.0@ == public_a0(a1@, s@, e@, self.spec_p(), self.spec_t()),
            self.element(r.1.0),
    {
        proof {
            lemma_mul_spec_len(a1@, s@, self.p as int);
        }
        let a0 = a1.mul(&s).add(&e.mul_scalar(self.t)).mul_scalar(-1);
        (s, (a0, a1))
    }

    /// Generates a key pair from the secret `s` and the noise `e`, both sampled by the
    /// caller; `a1` is drawn uniformly from `[0, p]` here.
    pub fn generate_keys(&self, s: Rq, e: Rq) -> (r: (Rq, (Rq, Rq)))
        requires
            self.wf(),
            self.element(s),
            self.element(e),
            s@.len() == self.spec_n(),
        ensures
            r.0 == s,
            self.element(r.1.1),
            r.1.1@.len() == self.spec_n(),
            forall|i: int|
                0 <= i < self.spec_n() ==> drawn_from(
                    #[trigger] r.1.1@[i],
                    0,
                    self.spec_p(),
                    self.spec_p(),
                ),
            r.1.0@ == public_a0(r.1.1@, s@, e@, self.spec_p(), self.spec_t()),
            self.element(r.1.0),
    {
        let a1 = discrete_uniform(self.n, self.p, None, None);
        self.keys_from(s, e, a1)
    }

    /// Encrypts `m` under the public key `a = [a0, a1]` with the noise `e0, e1, e2`:
    /// `(m + a0 e0 + t e2, a1 e0 + t e1)`, with `m` read modulo `p`.
    pub fn encrypt(&self, m: Rq, a: Vec<Rq>, e0: Rq, e1: Rq, e2: Rq) -> (r: (Rq, Rq))
        requires
            self.wf(),
            m.wf(),
            m@.len() <= self.spec_n(),
            a@.len() == 2,
            self.element(a@[0]),
            self.element(a@[1]),
            self.element(e0),
            self.element(e1),
            self.element(e2),
        ensures
            r.0@ == add_spec(
                add_spec(center_all(m@, self.spec_p()), mul_spec(a@[0]@, e0@, self.spec_p()), self.spec_p()),
                scale_spec(e2@, self.spec_t(), self.spec_p()),
                self.spec_p(),
            ),
            r.1@ == add_spec(
                mul_spec(a@[1]@, e0@, self.spec_p()),
                scale_spec(e1@, self.spec_t(), self.spec_p()),
                self.spec_p(),
            ),
            self.element(r.0),
            self.element(r.1),
    {
        let a0 = &a[0];
        let a1 = &a[1];
        let coeffs = m.coeffs();
        let mp = Rq::new(coeffs.clone(), self.p);
        assert(coeffs@.map_values(|c: i64| c as int) =~= m@);
        proof {
            lemma_mul_spec_len(a0@, e0@, self.p as int);
            lemma_mul_spec_len(a1@, e0@, self.p as int);
        }
        let c0 = mp.add(&a0.mul(&e0)).add(&e2.mul_scalar(self.t));
        let c1 = a1.mul(&e0).add(&e1.mul_scalar(self.t));
        (c0, c1)
    }

    /// Decrypts `c` with the secret `s`: `sum_i c_i s^i` in the ring of modulus `p`,
    /// then its coefficients read modulo `t`.
    pub fn decrypt(&self, c: Vec<Rq>, s: Rq) -> (r: Rq)
        requires
            self.wf(),
            self.ciphertext(c@),
            self.element(s),
        ensures
            r@ == center_all(dec_sum(views(c@), s@, self.spec_p(), c@.len()), self.spec_t()),
            r.spec_modulus() == self.spec_t(),
            r.wf(),
    {
        let ghost cv = views(c@);
        let p0 = pow_rq(&s, 0);
        proof {
            lemma_mul_spec_len(c@[0]@, p0@, self.p as int);
        }
        let mut m = c[0].mul(&p0);
        let mut i: usize = 1;
        while i < c.len()
            invariant
                self.wf(),
                self.ciphertext(c@),
                self.element(s),
                cv == views(c@),
                1 <= i <= c@.len(),
                self.element(m),
                m@ == dec_sum(cv, s@, self.p as int, i as nat),
            decreases c@.len() - i,
        {
            assert(self.element(c@[i as int]));
            let pw = pow_rq(&s, i);
            proof {
                lemma_mul_spec_len(c@[i as int]@, pw@, self.p as int);
            }
            let term = c[i].mul(&pw);
            m = m.add(&term);
            i += 1;
        }
        let coeffs = m.coeffs();
        let r = Rq::new(coeffs.clone(), self.t);
        assert(coeffs@.map_values(|c: i64| c as int) =~= m@);
        r
    }

    /// Homomorphic addition: the shorter ciphertext is padded with zero elements and
    /// the two are added term by term. The result is as long as the longer one.
    pub fn add(&self, c0: Vec<Rq>, c1: Vec<Rq>) -> (r: Vec<Rq>)
        requires
            self.wf(),
            self.ciphertext(c0@),
            self.ciphertext(c1@),
        ensures
            r@.len() == if c0@.len() >= c1@.len() {
                c0@.len()
            } else {
                c1@.len()
            },
            self.ciphertext(r@),
            forall|i: int|
                0 <= i < r@.len() ==> #[trigger] r@[i]@ == add_spec(
                    term(views(c0@), i),
                    term(views(c1@), i),
                    self.spec_p(),
                ),
    {
        let k0 = c0.len();
        let k1 = c1.len();
        let len = if k0 >= k1 {
            k0
        } else {
            k1
        };
        let zero = self.zero();
        let mut c: Vec<Rq> = Vec::new();
        let mut i: usize = 0;
        while i < len
            invariant
                self.wf(),
                self.ciphertext(c0@),
                self.ciphertext(c1@),
                self.element(zero),
                zero@ == seq![0int],
                k0 == c0@.len(),
                k1 == c1@.len(),
                len == if k0 >= k1 {
                    k0
                } else {
                    k1
                },
                i <= len,
                c@.len() == i,
                forall|j: int| 0 <= j < i ==> self.element(#[trigger] c@[j]),
                forall|j: int|
                    0 <= j < i ==> #[trigger] c@[j]@ == add_spec(
                        term(views(c0@), j),
                        term(views(c1@), j),
                        self.p as int,
                    ),
            decreases len - i,
        {
            let x: &Rq = if i < k0 {
                assert(self.element(c0@[i as int]));
                &c0[i]
            } else {
                &zero
            };
            let y: &Rq = if i < k1 {
                assert(self.element(c1@[i as int]));
                &c1[i]
            } else {
                &zero
            };
            c.push(x.add(y));
            i += 1;
        }
        c
    }

    /// Homomorphic multiplication: the ciphertexts are multiplied as polynomials in
    /// the secret key. For lengths `k0 + 1` and `k1 + 1`, term `i` of the result, for
    /// `i` up to `k0 + k1`, is `sum_{j <= i} c0[j] * c1[i - j]` (missing terms are zero).
    pub fn mul(&self, c0: Vec<Rq>, c1: Vec<Rq>) -> (r: Vec<Rq>)
        requires
            self.wf(),
            self.ciphertext(c0@),
            self.ciphertext(c1@),
            c0@.len() + c1@.len() <= usize::MAX,
        ensures
            r@.len() == c0@.len() + c1@.len() - 1,
            self.ciphertext(r@),
            forall|i: int|
                0 <= i < r@.len() ==> #[trigger] r@[i]@ == mul_term(
                    views(c0@),
                    views(c1@),
                    i,
                    (i + 1) as nat,
                    self.spec_p(),
                ),
    {
        let k0 = c0.len() - 1;
        let k1 = c1.len() - 1;
        let zero = self.zero();
        let total = k0 + k1 + 1;
        let mut c: Vec<Rq> = Vec::new();
        let mut i: usize = 0;
        while i < total
            invariant
                total == k0 + k1 + 1,
                self.wf(),
                self.ciphertext(c0@),
                self.ciphertext(c1@),
                self.element(zero),
                zero@ == seq![0int],
                k0 + 1 == c0@.len(),
                k1 + 1 == c1@.len(),
                i <= k0 + k1 + 1,
                c@.len() == i,
                forall|j: int| 0 <= j < i ==> self.element(#[trigger] c@[j]),
                forall|j: int|
                    0 <= j < i ==> #[trigger] c@[j]@ == mul_term(
                        views(c0@),
                        views(c1@),
                        j,
                        (j + 1) as nat,
                        self.p as int,
                    ),
            decreases k0 + k1 + 1 - i,
        {
            let mut acc = self.zero();
            let mut j: usize = 0;
            while j <= i
                invariant
                    self.wf(),
                    self.ciphertext(c0@),
                    self.ciphertext(c1@),
                    self.element(zero),
                    zero@ == seq![0int],
                    k0 + 1 == c0@.len(),
                    k1 + 1 == c1@.len(),
                    i < k0 + k1 + 1,
                    total == k0 + k1 + 1,
                    j <= i + 1,
                    self.element(acc),
                    acc@ == mul_term(views(c0@), views(c1@), i as int, j as nat, self.p as int),
                decreases i + 1 - j,
            {
                let x: &Rq = if j < c0.len() {
                    assert(self.element(c0@[j as int]));
                    &c0[j]
                } else {
                    &zero
                };
                let y: &Rq = if i - j < c1.len() {
                    assert(self.element(c1@[(i - j) as int]));
                    &c1[i - j]
                } else {
                    &zero
                };
                proof {
                    lemma_mul_spec_len(x@, y@, self.p as int);
                }
                acc = acc.add(&x.mul(y));
                j += 1;
            }
            c.push(acc);
            i += 1;
        }
        c
    }
}

} // verus!
