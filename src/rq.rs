use vstd::arithmetic::div_mod::*;
use polynomial::Polynomial;
use vstd::prelude::*;
use vstd::string::*;

verus! {

/// The centered representative of `x` modulo `q`: `x mod q` taken in `[0, q)`,
/// then moved down by `q` when it exceeds `q / 2`.
pub open spec fn cmod(x: int, q: int) -> int {
    let r = x % q;
    if r <= q / 2 {
        r
    } else {
        r - q
    }
}

/// Whether `c` is a centered representative modulo `q`: `-q/2 < c <= q/2`.
pub open spec fn is_centered(c: int, q: int) -> bool {
    c * 2 > -q && c <= q / 2
}

/// The centered representative is centered and congruent to `x` modulo `q`.
pub proof fn lemma_cmod_centered(x: int, q: int)
    requires
        q > 0,
    ensures
        is_centered(cmod(x, q), q),
        cmod(x, q) % q == x % q,
{
    let r = x % q;
    assert(0 <= r < q);
    if r > q / 2 {
        assert((r - q) % q == r) by {
            lemma_fundamental_div_mod_converse(r - q, q, -1, r);
        }
    } else {
        assert(r % q == r) by {
            lemma_fundamental_div_mod_converse(r, q, 0, r);
        }
    }
    assert(r % q == x % q) by {
        lemma_fundamental_div_mod_converse(r, q, 0, r);
    }
}

/// The remainder of `x` modulo `q` in `[0, q)`.
fn mod_floor(x: i128, q: i64) -> (r: i128)
    requires
        q > 0,
        x > i128::MIN,
    ensures
        r as int == (x as int) % (q as int),
        0 <= r < q,
{
    let qq = q as u128;
    if x >= 0 {
        let a = (x as u128) % qq;
        a as i128
    } else {
        let y = (-x) as u128;
        let a = y % qq;
        let k = y / qq;
        proof {
            lemma_fundamental_div_mod(y as int, q as int);
            assert(y as int == (q as int) * (k as int) + (a as int));
        }
        if a == 0 {
            proof {
                assert(x as int == (-(k as int)) * (q as int) + 0) by (nonlinear_arith)
                    requires
                        x as int == -(y as int),
                        y as int == (q as int) * (k as int),
                ;
                lemma_fundamental_div_mod_converse(x as int, q as int, -(k as int), 0);
            }
            0
        } else {
            proof {
                assert(x as int == (-(k as int) - 1) * (q as int) + (q - a)) by (nonlinear_arith)
                    requires
                        x as int == -(y as int),
                        y as int == (q as int) * (k as int) + (a as int),
                ;
                lemma_fundamental_div_mod_converse(x as int, q as int, -(k as int) - 1, q - a);
            }
            (q as i128) - (a as i128)
        }
    }
}

/// Centered representative of an integer modulo `q`.
pub fn center(x: i128, q: i64) -> (r: i64)
    requires
        q > 0,
        x > i128::MIN,
    ensures
        r == cmod(x as int, q as int),
        is_centered(r as int, q as int),
{
    proof {
        lemma_cmod_centered(x as int, q as int);
    }
    let m = mod_floor(x, q);
    if m <= (q / 2) as i128 {
        m as i64
    } else {
        (m - q as i128) as i64
    }
}

/// Coefficient `i` of `s`, zero outside its range.
pub open spec fn coef(s: Seq<int>, i: int) -> int {
    if 0 <= i < s.len() {
        s[i]
    } else {
        0
    }
}

/// Every coefficient of `s` replaced by its centered representative modulo `q`.
pub open spec fn center_all(s: Seq<int>, q: int) -> Seq<int> {
    Seq::new(s.len(), |i: int| cmod(s[i], q))
}

/// Coefficientwise sum; the shorter operand counts as padded with zeros.
pub open spec fn poly_add(a: Seq<int>, b: Seq<int>) -> Seq<int> {
    let len = if a.len() >= b.len() {
        a.len()
    } else {
        b.len()
    };
    Seq::new(len, |i: int| coef(a, i) + coef(b, i))
}

/// Every coefficient of `a` multiplied by `k`.
pub open spec fn poly_scale(a: Seq<int>, k: int) -> Seq<int> {
    Seq::new(a.len(), |i: int| a[i] * k)
}

/// `sum_{i < m} a[i] * b[k - i]`.
pub open spec fn conv_upto(a: Seq<int>, b: Seq<int>, k: int, m: nat) -> int
    decreases m,
{
    if m == 0 {
        0
    } else {
        conv_upto(a, b, k, (m - 1) as nat) + coef(a, m - 1) * coef(b, k - (m - 1))
    }
}

/// The product of two polynomials over the integers (their convolution), of length
/// `a.len() + b.len() - 1`.
pub open spec fn poly_mul(a: Seq<int>, b: Seq<int>) -> Seq<int> {
    Seq::new((a.len() + b.len() - 1) as nat, |k: int| conv_upto(a, b, k, a.len()))
}

/// The remainder of `s` divided by `x^n + 1` by long division: while the degree is at
/// least `n`, the leading term `c x^k` is removed by subtracting `c x^(k-n) (x^n + 1)`.
pub open spec fn ring_rem(s: Seq<int>, n: nat) -> Seq<int>
    decreases s.len(),
{
    if s.len() <= n || n == 0 {
        s
    } else {
        let top = s.len() - 1;
        ring_rem(s.drop_last().update(top - n, s[top - n] - s[top]), n)
    }
}

/// Coefficients of the sum of two ring elements of modulus `q`.
pub open spec fn add_spec(a: Seq<int>, b: Seq<int>, q: int) -> Seq<int> {
    center_all(poly_add(a, b), q)
}

/// Coefficients of `a * b` in `Z_q[x] / (x^n + 1)`, with `n` the length of `a`.
pub open spec fn mul_spec(a: Seq<int>, b: Seq<int>, q: int) -> Seq<int> {
    center_all(ring_rem(poly_mul(a, b), a.len()), q)
}

/// Coefficients of `a * k` for an integer `k`, modulo `q`.
pub open spec fn scale_spec(a: Seq<int>, k: int, q: int) -> Seq<int> {
    center_all(poly_scale(a, k), q)
}

/// Coefficients of `a^e`; `a^0` is the constant `1` and `a^1` is `a` itself.
pub open spec fn pow_spec(a: Seq<int>, q: int, e: nat) -> Seq<int>
    decreases e,
{
    if e == 0 {
        center_all(seq![1int], q)
    } else if e == 1 {
        a
    } else {
        mul_spec(pow_spec(a, q, (e - 1) as nat), a, q)
    }
}

/// Moves each residue in `[0, q)` above `q / 2` down by `q`, giving its centered
/// representative.
pub fn crange(coeffs: Vec<i64>, q: i64) -> (r: Vec<i64>)
    requires
        q > 0,
        forall|i: int| 0 <= i < coeffs@.len() ==> 0 <= #[trigger] coeffs@[i] < q,
    ensures
        r@.len() == coeffs@.len(),
        forall|i: int| 0 <= i < r@.len() ==> #[trigger] r@[i] == cmod(coeffs@[i] as int, q as int),
{
    let mut coeffs = coeffs;
    let ghost orig = coeffs@;
    let mut i: usize = 0;
    while i < coeffs.len()
        invariant
            q > 0,
            coeffs@.len() == orig.len(),
            i <= orig.len(),
            forall|j: int| 0 <= j < orig.len() ==> 0 <= #[trigger] orig[j] < q,
            forall|j: int| 0 <= j < i ==> #[trigger] coeffs@[j] == cmod(orig[j] as int, q as int),
            forall|j: int| i <= j < orig.len() ==> #[trigger] coeffs@[j] == orig[j],
        decreases orig.len() - i,
    {
        proof {
            lemma_small_mod(orig[i as int] as nat, q as nat);
        }
        if !(coeffs[i] >= 0 && coeffs[i] <= q / 2) {
            let c = coeffs[i] - q;
            coeffs.set(i, c);
        }
        i += 1;
    }
    coeffs
}

/// A vector's items as integers.
pub open spec fn ints(v: Seq<i64>) -> Seq<int> {
    v.map_values(|c: i64| c as int)
}

/// Reducing congruent polynomials by `x^n + 1` gives congruent remainders, of length
/// `min(len, n)`.
proof fn lemma_ring_rem_congruent(s: Seq<int>, t: Seq<int>, n: nat, q: int)
    requires
        q > 0,
        n > 0,
        s.len() == t.len(),
        forall|i: int| 0 <= i < s.len() ==> #[trigger] s[i] % q == t[i] % q,
    ensures
        ring_rem(s, n).len() == ring_rem(t, n).len(),
        ring_rem(s, n).len() == if s.len() <= n {
            s.len()
        } else {
            n
        },
        forall|i: int|
            0 <= i < ring_rem(s, n).len() ==> #[trigger] ring_rem(s, n)[i] % q == ring_rem(t, n)[i]
                % q,
    decreases s.len(),
{
    if s.len() > n {
        let top = s.len() - 1;
        let s2 = s.drop_last().update(top - n, s[top - n] - s[top]);
        let t2 = t.drop_last().update(top - n, t[top - n] - t[top]);
        assert forall|i: int| 0 <= i < s2.len() implies #[trigger] s2[i] % q == t2[i] % q by {
            if i == top - n {
                lemma_sub_mod_noop(s[top - n], s[top], q);
                lemma_sub_mod_noop(t[top - n], t[top], q);
            }
        }
        lemma_ring_rem_congruent(s2, t2, n, q);
    }
}

/// A centered value is its own centered representative.
pub proof fn lemma_cmod_of_centered(x: int, q: int)
    requires
        q > 0,
        is_centered(x, q),
    ensures
        cmod(x, q) == x,
{
    if x >= 0 {
        lemma_fundamental_div_mod_converse(x, q, 0, x);
    } else {
        lemma_fundamental_div_mod_converse(x, q, -1, x + q);
    }
}

/// The centered representative depends on the residue alone.
pub proof fn lemma_cmod_residue(x: int, y: int, q: int)
    requires
        q > 0,
        x % q == y % q,
    ensures
        cmod(x, q) == cmod(y, q),
{
}

/// What `Polynomial::pretty("x")` prints for the coefficients `c`, lowest degree first.
pub uninterp spec fn pretty_of(c: Seq<int>) -> Seq<char>;

/// Relies on polynomial's `Polynomial::pretty`: the polynomial with coefficients `c`
/// written in the variable `x`; the text depends on the coefficients alone.
#[verifier::external_body]
fn pretty(c: &Vec<i64>) -> (r: String)
    ensures
        r@ == pretty_of(ints(c@)),
{
    Polynomial::new(c.clone()).pretty("x")
}

/// The decimal digit `d`.
pub open spec fn digit_char(d: int) -> char {
    if d == 0 {
        '0'
    } else if d == 1 {
        '1'
    } else if d == 2 {
        '2'
    } else if d == 3 {
        '3'
    } else if d == 4 {
        '4'
    } else if d == 5 {
        '5'
    } else if d == 6 {
        '6'
    } else if d == 7 {
        '7'
    } else if d == 8 {
        '8'
    } else {
        '9'
    }
}

/// The decimal digits of `n`, without leading zeros.
pub open spec fn nat_decimal(n: nat) -> Seq<char>
    decreases n,
{
    if n < 10 {
        seq![digit_char(n as int)]
    } else {
        nat_decimal(n / 10).push(digit_char((n % 10) as int))
    }
}

/// `x` in decimal, with a leading `-` when negative.
pub open spec fn decimal_of(x: int) -> Seq<char> {
    if x < 0 {
        seq!['-'] + nat_decimal((-x) as nat)
    } else {
        nat_decimal(x as nat)
    }
}

/// Relies on std's `Display` for `i64` (through `to_string`): the decimal digits,
/// with a leading `-` for a negative value.
#[verifier::external_body]
fn decimal(x: i64) -> (r: String)
    ensures
        r@ == decimal_of(x as int),
{
    x.to_string()
}

/// An element of `Z_q[x] / (x^n + 1)`, where `n` is the number of coefficients it
/// was built from. Each coefficient is held as its centered representative.
#[derive(Clone, Debug)]
pub struct Rq {
    q: i64,
    poly: Vec<i64>,
}

impl View for Rq {
    type V = Seq<int>;

    closed spec fn view(&self) -> Seq<int> {
        self.poly@.map_values(|c: i64| c as int)
    }
}

impl Rq {
    /// The modulus `q`.
    pub closed spec fn spec_modulus(&self) -> int {
        self.q as int
    }

    /// A positive modulus, at least one coefficient, each of them centered.
    pub open spec fn wf(&self) -> bool {
        &&& self.spec_modulus() > 0
        &&& self@.len() > 0
        &&& forall|i: int| 0 <= i < self@.len() ==> is_centered(#[trigger] self@[i], self.spec_modulus())
    }

    /// Builds the ring element with the given coefficients modulo `q`.
    pub fn new(coeffs: Vec<i64>, q: i64) -> (r: Rq)
        requires
            q > 0,
            coeffs.len() > 0,
        ensures
            r@ == center_all(coeffs@.map_values(|c: i64| c as int), q as int),
            r.spec_modulus() == q,
            r.wf(),
    {
        let mut reduced: Vec<i64> = Vec::new();
        let mut i: usize = 0;
        while i < coeffs.len()
            invariant
                q > 0,
                i <= coeffs.len(),
                reduced@.len() == i,
                forall|j: int|
                    0 <= j < i ==> #[trigger] reduced@[j] as int == (coeffs@[j] as int) % (q as int),
                forall|j: int| 0 <= j < i ==> 0 <= #[trigger] reduced@[j] < q,
            decreases coeffs.len() - i,
        {
            reduced.push(mod_floor(coeffs[i] as i128, q) as i64);
            i += 1;
        }
        let poly = crange(reduced, q);
        let r = Rq { q, poly };
        proof {
            assert forall|j: int| 0 <= j < r@.len() implies is_centered(#[trigger] r@[j], q as int) by {
                lemma_cmod_centered(coeffs@[j] as int, q as int);
                lemma_mod_twice(coeffs@[j] as int, q as int);
                lemma_cmod_residue(reduced@[j] as int, coeffs@[j] as int, q as int);
            }
            assert forall|j: int| 0 <= j < r@.len() implies #[trigger] r@[j] == cmod(coeffs@[j] as int, q as int) by {
                lemma_mod_twice(coeffs@[j] as int, q as int);
                lemma_cmod_residue(reduced@[j] as int, coeffs@[j] as int, q as int);
            }
            assert(r@ =~= center_all(coeffs@.map_values(|c: i64| c as int), q as int));
        }
        r
    }

    /// The modulus `q`.
    pub fn modulus(&self) -> (r: i64)
        ensures
            r == self.spec_modulus(),
    {
        self.q
    }

    /// A readable form: `Rq: <poly> (mod q), reminder range: (-q/2, q/2)`.
    pub fn to_string(&self) -> (r: String)
        requires
            self.wf(),
        ensures
            r@ == "Rq: "@ + pretty_of(self@) + " (mod "@ + decimal_of(self.spec_modulus())
                + "), reminder range: ("@ + decimal_of(-(self.spec_modulus() / 2)) + ", "@
                + decimal_of(self.spec_modulus() / 2) + ")"@,
    {
        let mut line = String::from_str("Rq: ");
        line.append(pretty(&self.poly).as_str());
        line.append(" (mod ");
        line.append(decimal(self.q).as_str());
        line.append("), reminder range: (");
        line.append(decimal(-(self.q / 2)).as_str());
        line.append(", ");
        line.append(decimal(self.q / 2).as_str());
        line.append(")");
        line
    }

    /// The centered coefficients, lowest degree first.
    pub fn coeffs(&self) -> (r: &Vec<i64>)
        ensures
            r@.map_values(|c: i64| c as int) == self@,
    {
        &self.poly
    }

    /// Coefficient `i`, zero past the end.
    fn coef_at(&self, i: usize) -> (r: i64)
        ensures
            r as int == coef(self@, i as int),
    {
        if i < self.poly.len() {
            self.poly[i]
        } else {
            0
        }
    }

    /// The sum of two ring elements: coefficientwise, re-centered modulo `self`'s
    /// modulus. The result is as long as the longer operand.
    pub fn add(&self, other: &Rq) -> (r: Rq)
        requires
            self.wf(),
            other.wf(),
        ensures
            r@ == add_spec(self@, other@, self.spec_modulus()),
            r.spec_modulus() == self.spec_modulus(),
            r.wf(),
    {
        let len = if self.poly.len() >= other.poly.len() {
            self.poly.len()
        } else {
            other.poly.len()
        };
        let ghost sum = poly_add(self@, other@);
        let mut poly: Vec<i64> = Vec::new();
        let mut i: usize = 0;
        while i < len
            invariant
                self.wf(),
                other.wf(),
                len == sum.len(),
                sum == poly_add(self@, other@),
                i <= len,
                poly@.len() == i,
                forall|j: int|
                    0 <= j < i ==> #[trigger] poly@[j] as int == cmod(sum[j], self.q as int),
                forall|j: int|
                    0 <= j < i ==> is_centered(#[trigger] poly@[j] as int, self.q as int),
            decreases len - i,
        {
            let a = self.coef_at(i);
            let b = other.coef_at(i);
            let c = center(a as i128 + b as i128, self.q);
            poly.push(c);
            i += 1;
        }
        let r = Rq { q: self.q, poly };
        assert(r@ =~= add_spec(self@, other@, self.q as int));
        r
    }

    /// Every coefficient multiplied by the integer `k`, re-centered modulo `q`.
    pub fn mul_scalar(&self, k: i64) -> (r: Rq)
        requires
            self.wf(),
        ensures
            r@ == scale_spec(self@, k as int, self.spec_modulus()),
            r.spec_modulus() == self.spec_modulus(),
            r.wf(),
    {
        let mut poly: Vec<i64> = Vec::new();
        let mut i: usize = 0;
        while i < self.poly.len()
            invariant
                self.wf(),
                i <= self@.len(),
                poly@.len() == i,
                forall|j: int|
                    0 <= j < i ==> #[trigger] poly@[j] as int == cmod(
                        self@[j] * k,
                        self.q as int,
                    ),
                forall|j: int|
                    0 <= j < i ==> is_centered(#[trigger] poly@[j] as int, self.q as int),
            decreases self@.len() - i,
        {
            let a = self.poly[i];
            assert(is_centered(self@[i as int], self.q as int));
            let ghost ai = a as int;
            assert(-0x4000_0000_0000_0000 <= ai <= 0x4000_0000_0000_0000);
            assert(-0x4000_0000_0000_0000_0000_0000_0000_0000 <= ai * (k as int)
                <= 0x4000_0000_0000_0000_0000_0000_0000_0000) by (nonlinear_arith)
                requires
                    -0x4000_0000_0000_0000 <= ai <= 0x4000_0000_0000_0000,
                    -0x8000_0000_0000_0000 <= k <= 0x7fff_ffff_ffff_ffff,
            ;
            let p = a as i128 * k as i128;
            poly.push(center(p, self.q));
            i += 1;
        }
        let r = Rq { q: self.q, poly };
        assert(r@ =~= scale_spec(self@, k as int, self.q as int));
        r
    }

    /// The product of two ring elements: the integer convolution of the coefficients,
    /// reduced by `x^n + 1` with `n` the length of `self`, re-centered modulo `q`.
    /// The reduction runs on residues modulo `q`, which leaves the result unchanged.
    pub fn mul(&self, other: &Rq) -> (r: Rq)
        requires
            self.wf(),
            other.wf(),
            self@.len() + other@.len() <= usize::MAX,
        ensures
            r@ == mul_spec(self@, other@, self.spec_modulus()),
            r@.len() == self@.len(),
            r.spec_modulus() == self.spec_modulus(),
            r.wf(),
    {
        proof {
            lemma_mul_spec_len(self@, other@, self.q as int);
        }
        let q = self.q;
        let la = self.poly.len();
        let lb = other.poly.len();
        let ghost a = self@;
        let ghost b = other@;
        let ghost prod = poly_mul(a, b);
        let total = la + lb - 1;
        let mut d: Vec<i64> = Vec::new();
        let mut k: usize = 0;
        while k < total
            invariant
                self.wf(),
                other.wf(),
                q == self.q,
                a == self@,
                b == other@,
                la == a.len(),
                lb == b.len(),
                prod == poly_mul(a, b),
                total == prod.len(),
                k <= total,
                d@.len() == k,
                forall|j: int| 0 <= j < k ==> 0 <= #[trigger] d@[j] < q,
                forall|j: int| 0 <= j < k ==> #[trigger] d@[j] as int == prod[j] % (q as int),
            decreases total - k,
        {
            let mut acc: i128 = 0;
            let mut i: usize = 0;
            proof {
                lemma_small_mod(0, q as nat);
            }
            while i < la
                invariant
                    self.wf(),
                    other.wf(),
                    q == self.q,
                    a == self@,
                    b == other@,
                    la == a.len(),
                    lb == b.len(),
                    i <= la,
                    0 <= acc < q,
                    acc as int == conv_upto(a, b, k as int, i as nat) % (q as int),
                decreases la - i,
            {
                if i <= k && k - i < lb {
                    let x = self.poly[i];
                    let y = other.poly[k - i];
                    let ghost xi = x as int;
                    let ghost yi = y as int;
                    assert(is_centered(a[i as int], q as int));
                    assert(is_centered(b[(k - i) as int], other.q as int));
                    assert(-0x4000_0000_0000_0000_0000_0000_0000_0000 <= xi * yi
                        <= 0x4000_0000_0000_0000_0000_0000_0000_0000) by (nonlinear_arith)
                        requires
                            -0x4000_0000_0000_0000 <= xi <= 0x4000_0000_0000_0000,
                            -0x4000_0000_0000_0000 <= yi <= 0x4000_0000_0000_0000,
                    ;
                    let p = x as i128 * y as i128;
                    proof {
                        let c = conv_upto(a, b, k as int, i as nat);
                        lemma_add_mod_noop_right(p as int, c, q as int);
                        assert(conv_upto(a, b, k as int, (i + 1) as nat) == c + xi * yi);
                    }
                    acc = mod_floor(acc + p, q);
                } else {
                    assert(coef(b, k - i) == 0);
                    assert(conv_upto(a, b, k as int, (i + 1) as nat) == conv_upto(
                        a,
                        b,
                        k as int,
                        i as nat,
                    ));
                }
                i += 1;
            }
            d.push(acc as i64);
            k += 1;
        }
        let n = la;
        let ghost rem = ring_rem(prod, n as nat);
        proof {
            assert forall|i: int| 0 <= i < prod.len() implies #[trigger] ints(d@)[i] % (q as int)
                == prod[i] % (q as int) by {
                lemma_mod_twice(prod[i], q as int);
            }
            lemma_ring_rem_congruent(ints(d@), prod, n as nat, q as int);
        }
        while d.len() > n
            invariant
                q == self.q,
                q > 0,
                n >= 1,
                forall|j: int| 0 <= j < d@.len() ==> 0 <= #[trigger] d@[j] < q,
                ring_rem(ints(d@), n as nat).len() == rem.len(),
                forall|i: int|
                    0 <= i < rem.len() ==> #[trigger] ring_rem(ints(d@), n as nat)[i] % (q as int)
                        == rem[i] % (q as int),
            decreases d.len(),
        {
            let ghost before = ints(d@);
            let top = d.pop().unwrap();
            let idx = d.len() - n;
            let v = mod_floor(d[idx] as i128 - top as i128, q);
            d.set(idx, v as i64);
            proof {
                let t = before.len() - 1;
                let stepped = before.drop_last().update(t - n, before[t - n] - before[t]);
                assert(ring_rem(before, n as nat) == ring_rem(stepped, n as nat));
                assert(ints(d@).len() == stepped.len());
                assert forall|i: int| 0 <= i < stepped.len() implies #[trigger] ints(d@)[i] % (
                q as int) == stepped[i] % (q as int) by {
                    if i != t - n {
                        assert(ints(d@)[i] == stepped[i]);
                    } else {
                        lemma_mod_twice(stepped[i], q as int);
                        lemma_small_mod(v as nat, q as nat);
                    }
                }
                lemma_ring_rem_congruent(ints(d@), stepped, n as nat, q as int);
            }
        }
        proof {
            assert(ring_rem(ints(d@), n as nat) == ints(d@));
        }
        let r = Rq::new(d, q);
        proof {
            assert forall|i: int| 0 <= i < r@.len() implies #[trigger] r@[i] == mul_spec(a, b, q as int)[i] by {
                lemma_cmod_residue(ints(d@)[i], rem[i], q as int);
            }
            assert(r@ =~= mul_spec(a, b, q as int));
        }
        r
    }
}

/// `mul_spec` keeps the length of its left operand.
pub proof fn lemma_mul_spec_len(a: Seq<int>, b: Seq<int>, q: int)
    requires
        q > 0,
        a.len() > 0,
        b.len() > 0,
    ensures
        mul_spec(a, b, q).len() == a.len(),
{
    let p = poly_mul(a, b);
    lemma_ring_rem_congruent(p, p, a.len(), q);
}

/// `x` raised to the power `n` by repeated ring multiplication; `x^0` is the
/// constant `1`.
pub fn pow_rq(x: &Rq, n: usize) -> (r: Rq)
    requires
        x.wf(),
        x@.len() * 2 <= usize::MAX,
    ensures
        r@ == pow_spec(x@, x.spec_modulus(), n as nat),
        r@.len() == if n == 0 {
            1
        } else {
            x@.len()
        },
        r.spec_modulus() == x.spec_modulus(),
        r.wf(),
{
    if n == 0 {
        return Rq::new(vec![1], x.q);
    }
    let mut ret = Rq { q: x.q, poly: x.poly.clone() };
    assert(ret@ =~= x@);
    let mut i: usize = 1;
    while i < n
        invariant
            x.wf(),
            x@.len() * 2 <= usize::MAX,
            1 <= i <= n,
            ret.wf(),
            ret@.len() == x@.len(),
            ret.spec_modulus() == x.spec_modulus(),
            ret@ == pow_spec(x@, x.spec_modulus(), i as nat),
        decreases n - i,
    {
        proof {
            lemma_mul_spec_len(ret@, x@, x.q as int);
        }
        ret = ret.mul(x);
        i += 1;
    }
    ret
}

/// Setting a zero coefficient of `a` to `c` adds `c * b[k - dd]` to the sums of
/// `conv_upto` that reach index `dd`.
proof fn lemma_conv_set(a: Seq<int>, b: Seq<int>, k: int, m: nat, dd: int, c: int)
    requires
        0 <= dd < a.len(),
        a[dd] == 0,
    ensures
        conv_upto(a.update(dd, c), b, k, m) == conv_upto(a, b, k, m) + if dd < m {
            c * coef(b, k - dd)
        } else {
            0
        },
    decreases m,
{
    if m > 0 {
        lemma_conv_set(a, b, k, (m - 1) as nat, dd, c);
    }
}

/// `conv_upto` over a sequence of zeros is zero.
proof fn lemma_conv_zero(a: Seq<int>, b: Seq<int>, k: int, m: nat)
    requires
        forall|j: int| 0 <= j < a.len() ==> #[trigger] a[j] == 0,
    ensures
        conv_upto(a, b, k, m) == 0,
    decreases m,
{
    if m > 0 {
        lemma_conv_zero(a, b, k, (m - 1) as nat);
    }
}

/// Whether `x` is a value of `i64`.
pub open spec fn fits_i64(x: int) -> bool {
    i64::MIN <= x <= i64::MAX
}

/// The quotient term that removes the leading coefficient of `d`, for a divisor `v`
/// whose leading coefficient is `1` or `-1`.
pub open spec fn div_lead(d: Seq<int>, v: Seq<int>) -> int {
    d.last() * v.last()
}

/// One step of long division: `d - lead * x^(len d - len v) * v`, whose leading
/// coefficient is zero, without that coefficient.
pub open spec fn div_step(d: Seq<int>, v: Seq<int>) -> Seq<int> {
    let dd = d.len() - v.len();
    Seq::new(
        (d.len() - 1) as nat,
        |k: int|
            d[k] - if dd <= k {
                div_lead(d, v) * v[k - dd]
            } else {
                0
            },
    )
}

/// Whether every value that long division of `d` by `v` computes (each quotient term,
/// each product with a divisor coefficient, each difference) fits in `i64`.
pub open spec fn div_fits(d: Seq<int>, v: Seq<int>) -> bool
    decreases d.len(),
{
    if v.len() == 0 || d.len() < v.len() {
        true
    } else {
        let dd = d.len() - v.len();
        &&& fits_i64(div_lead(d, v))
        &&& forall|i: int|
            0 <= i < v.len() ==> fits_i64(#[trigger] (div_lead(d, v) * v[i])) && fits_i64(
                d[dd + i] - div_lead(d, v) * v[i],
            )
        &&& div_fits(div_step(d, v), v)
    }
}

/// Long division of `dividend` by a `divisor` whose leading coefficient is `1` or
/// `-1`, both lowest degree first. Returns `(quotient, remainder)` with
/// `dividend = quotient * divisor + remainder`; the remainder has one coefficient
/// fewer than the divisor. A dividend shorter than the divisor gives the quotient
/// `[0]` and itself as the remainder. Every value the division computes fits in `i64`.
pub fn poly_div(dividend: &Vec<i64>, divisor: &Vec<i64>) -> (r: (Vec<i64>, Vec<i64>))
    requires
        divisor@.len() >= 1,
        divisor@[divisor@.len() - 1] == 1 || divisor@[divisor@.len() - 1] == -1,
        div_fits(ints(dividend@), ints(divisor@)),
    ensures
        dividend@.len() < divisor@.len() ==> r.0@ == seq![0i64] && r.1@ == dividend@,
        dividend@.len() >= divisor@.len() ==> {
            &&& r.0@.len() == dividend@.len() - divisor@.len() + 1
            &&& r.1@.len() == divisor@.len() - 1
            &&& ints(dividend@) == poly_add(poly_mul(ints(r.0@), ints(divisor@)), ints(r.1@))
        },
{
    let len = dividend.len();
    let dl = divisor.len();
    if len < dl {
        let mut zero: Vec<i64> = Vec::new();
        zero.push(0);
        assert(zero@ =~= seq![0i64]);
        return (zero, dividend.clone());
    }
    let ghost orig = ints(dividend@);
    let ghost vv = ints(divisor@);
    let mut d = dividend.clone();
    assert(d@ =~= dividend@);
    let qlen = len - dl + 1;
    let mut quot: Vec<i64> = Vec::new();
    while quot.len() < qlen
        invariant
            quot@.len() <= qlen,
            forall|j: int| 0 <= j < quot@.len() ==> #[trigger] quot@[j] == 0,
        decreases qlen - quot@.len(),
    {
        quot.push(0);
    }
    proof {
        assert forall|k: int| 0 <= k < len implies orig[k] == conv_upto(ints(quot@), vv, k, qlen as nat)
            + coef(ints(d@), k) by {
            lemma_conv_zero(ints(quot@), vv, k, qlen as nat);
        }
    }
    while d.len() >= dl
        invariant
            dl == divisor@.len(),
            dl >= 1,
            len == dividend@.len(),
            dl <= len,
            qlen == len - dl + 1,
            orig == ints(dividend@),
            vv == ints(divisor@),
            divisor@[dl - 1] == 1 || divisor@[dl - 1] == -1,
            dl - 1 <= d@.len() <= len,
            quot@.len() == qlen,
            forall|j: int| 0 <= j && j + dl <= d@.len() ==> #[trigger] quot@[j] == 0,
            forall|k: int|
                0 <= k < len ==> #[trigger] orig[k] == conv_upto(ints(quot@), vv, k, qlen as nat)
                    + coef(ints(d@), k),
            div_fits(ints(d@), vv),
        decreases d@.len(),
    {
        let top = d.len() - 1;
        let ghost before = d@;
        let ghost bi = ints(before);
        let ghost vt = divisor@[dl - 1] as int;
        assert(bi.last() == before[top as int] as int);
        assert(vv.last() == vt);
        // the divisor's leading coefficient is 1 or -1, its own inverse
        let lead = if divisor[dl - 1] == 1 {
            d[top]
        } else {
            -d[top]
        };
        assert(lead as int == div_lead(bi, vv));
        let dd = d.len() - dl;
        let ghost qbefore = quot@;
        quot.set(dd, lead);
        let mut i: usize = 0;
        while i < dl
            invariant
                dl == divisor@.len(),
                vv == ints(divisor@),
                bi == ints(before),
                dd + dl == before.len(),
                top == before.len() - 1,
                lead as int == div_lead(bi, vv),
                i <= dl,
                d@.len() == before.len(),
                forall|j: int|
                    0 <= j < dl ==> fits_i64(#[trigger] (div_lead(bi, vv) * vv[j])) && fits_i64(
                        bi[dd + j] - div_lead(bi, vv) * vv[j],
                    ),
                forall|k: int|
                    0 <= k < before.len() ==> #[trigger] d@[k] as int == before[k] as int - if dd
                        <= k < dd + i {
                        (lead as int) * (divisor@[k - dd] as int)
                    } else {
                        0
                    },
            decreases dl - i,
        {
            assert(fits_i64(div_lead(bi, vv) * vv[i as int]));
            assert(fits_i64(bi[(dd + i) as int] - div_lead(bi, vv) * vv[i as int]));
            let v = d[dd + i] - lead * divisor[i];
            d.set(dd + i, v);
            i += 1;
        }
        let ghost stepped = d@;
        d.pop();
        proof {
            assert(vt * vt == 1);
            assert(ints(d@) =~= div_step(bi, vv));
            assert forall|k: int| 0 <= k < len implies #[trigger] coef(ints(d@), k) == coef(
                ints(before),
                k,
            ) - (lead as int) * coef(vv, k - dd) by {
                if k < top {
                    assert(ints(d@)[k] == stepped[k]);
                } else if k == top {
                    assert(k - dd == dl - 1);
                    assert(stepped[k] as int == before[k] as int - (lead as int) * vt);
                    assert((lead as int) * vt == (before[k] as int) * vt * vt) by (nonlinear_arith)
                        requires
                            lead as int == (before[k] as int) * vt,
                    ;
                    assert((before[k] as int) * vt * vt == before[k] as int) by (nonlinear_arith)
                        requires
                            vt * vt == 1,
                    ;
                    assert(stepped[k] == 0);
                }
            }
            assert forall|k: int| 0 <= k < len implies #[trigger] orig[k] == conv_upto(
                ints(quot@),
                vv,
                k,
                qlen as nat,
            ) + coef(ints(d@), k) by {
                assert(ints(quot@) == ints(qbefore).update(dd as int, lead as int));
                lemma_conv_set(ints(qbefore), vv, k, qlen as nat, dd as int, lead as int);
            }
        }
    }
    proof {
        let qv = ints(quot@);
        let rv = ints(d@);
        assert(ints(dividend@) =~= poly_add(poly_mul(qv, vv), rv));
    }
    (quot, d)
}

/// Multiplication by an integer distributes over addition in `Z_q[x] / (x^n + 1)`:
/// `(a + b) k == a k + b k` for ring elements `a`, `b` of one modulus and any integer `k`.
pub proof fn lemma_scalar_distributes(a: Rq, b: Rq, k: int)
    requires
        a.wf(),
        b.wf(),
        a.spec_modulus() == b.spec_modulus(),
    ensures
        scale_spec(add_spec(a@, b@, a.spec_modulus()), k, a.spec_modulus()) == add_spec(
            scale_spec(a@, k, a.spec_modulus()),
            scale_spec(b@, k, a.spec_modulus()),
            a.spec_modulus(),
        ),
{
    let q = a.spec_modulus();
    let lhs = scale_spec(add_spec(a@, b@, q), k, q);
    let rhs = add_spec(scale_spec(a@, k, q), scale_spec(b@, k, q), q);
    assert forall|i: int| 0 <= i < lhs.len() implies lhs[i] == rhs[i] by {
        let x = coef(a@, i);
        let y = coef(b@, i);
        lemma_small_mod(0, q as nat);
        assert(coef(scale_spec(a@, k, q), i) == cmod(x * k, q));
        assert(coef(scale_spec(b@, k, q), i) == cmod(y * k, q));
        lemma_cmod_centered(x + y, q);
        lemma_cmod_centered(x * k, q);
        lemma_cmod_centered(y * k, q);
        lemma_mul_mod_noop_left(cmod(x + y, q), k, q);
        lemma_mul_mod_noop_left(x + y, k, q);
        lemma_add_mod_noop(cmod(x * k, q), cmod(y * k, q), q);
        lemma_add_mod_noop(x * k, y * k, q);
        assert((x + y) * k == x * k + y * k) by (nonlinear_arith);
        lemma_cmod_residue(cmod(x + y, q) * k, cmod(x * k, q) + cmod(y * k, q), q);
    }
    assert(lhs =~= rhs);
}

/// `conv_upto` is additive in its first argument.
proof fn lemma_conv_add(a: Seq<int>, b: Seq<int>, c: Seq<int>, k: int, m: nat)
    requires
        a.len() == b.len(),
    ensures
        conv_upto(poly_add(a, b), c, k, m) == conv_upto(a, c, k, m) + conv_upto(b, c, k, m),
    decreases m,
{
    if m > 0 {
        lemma_conv_add(a, b, c, k, (m - 1) as nat);
        let x = coef(a, m - 1);
        let y = coef(b, m - 1);
        let z = coef(c, k - (m - 1));
        assert(coef(poly_add(a, b), m - 1) == x + y);
        assert((x + y) * z == x * z + y * z) by (nonlinear_arith);
    }
}

/// `conv_upto` keeps congruence modulo `q` in its first argument.
proof fn lemma_conv_congruent(a: Seq<int>, b: Seq<int>, c: Seq<int>, k: int, m: nat, q: int)
    requires
        q > 0,
        a.len() == b.len(),
        forall|i: int| 0 <= i < a.len() ==> #[trigger] a[i] % q == b[i] % q,
    ensures
        conv_upto(a, c, k, m) % q == conv_upto(b, c, k, m) % q,
    decreases m,
{
    if m > 0 {
        lemma_conv_congruent(a, b, c, k, (m - 1) as nat, q);
        let z = coef(c, k - (m - 1));
        lemma_mul_mod_noop_left(coef(a, m - 1), z, q);
        lemma_mul_mod_noop_left(coef(b, m - 1), z, q);
        lemma_add_mod_noop(conv_upto(a, c, k, (m - 1) as nat), coef(a, m - 1) * z, q);
        lemma_add_mod_noop(conv_upto(b, c, k, (m - 1) as nat), coef(b, m - 1) * z, q);
    }
}

/// Reduction by `x^n + 1` is additive.
proof fn lemma_ring_rem_add(s: Seq<int>, t: Seq<int>, n: nat)
    requires
        n > 0,
        s.len() == t.len(),
    ensures
        ring_rem(poly_add(s, t), n) == poly_add(ring_rem(s, n), ring_rem(t, n)),
    decreases s.len(),
{
    lemma_ring_rem_congruent(s, s, n, 1);
    lemma_ring_rem_congruent(t, t, n, 1);
    if s.len() <= n {
        assert(ring_rem(poly_add(s, t), n) == poly_add(s, t));
    } else {
        let top = s.len() - 1;
        let u = poly_add(s, t);
        let s2 = s.drop_last().update(top - n, s[top - n] - s[top]);
        let t2 = t.drop_last().update(top - n, t[top - n] - t[top]);
        let u2 = u.drop_last().update(top - n, u[top - n] - u[top]);
        assert(u2 =~= poly_add(s2, t2));
        lemma_ring_rem_add(s2, t2, n);
    }
}

/// Ring multiplication distributes over addition: `(a + b) c == a c + b c` for `a`
/// and `b` of one ring degree.
pub proof fn lemma_mul_distributes(a: Seq<int>, b: Seq<int>, c: Seq<int>, q: int)
    requires
        q > 0,
        a.len() == b.len(),
        a.len() > 0,
        c.len() > 0,
    ensures
        mul_spec(add_spec(a, b, q), c, q) == add_spec(mul_spec(a, c, q), mul_spec(b, c, q), q),
{
    let n = a.len();
    let ab = add_spec(a, b, q);
    let s = poly_add(a, b);
    assert forall|i: int| 0 <= i < n implies #[trigger] ab[i] % q == s[i] % q by {
        lemma_cmod_centered(s[i], q);
    }
    let pab = poly_mul(ab, c);
    let ps = poly_mul(s, c);
    assert forall|k: int| 0 <= k < pab.len() implies #[trigger] pab[k] % q == ps[k] % q by {
        lemma_conv_congruent(ab, s, c, k, n, q);
    }
    lemma_ring_rem_congruent(pab, ps, n, q);
    let pa = poly_mul(a, c);
    let pb = poly_mul(b, c);
    assert forall|k: int| 0 <= k < ps.len() implies #[trigger] ps[k] == poly_add(pa, pb)[k] by {
        lemma_conv_add(a, b, c, k, n);
    }
    assert(ps =~= poly_add(pa, pb));
    lemma_ring_rem_add(pa, pb, n);
    let ra = ring_rem(pa, n);
    let rb = ring_rem(pb, n);
    lemma_ring_rem_congruent(pa, pa, n, q);
    lemma_ring_rem_congruent(pb, pb, n, q);
    let lhs = mul_spec(ab, c, q);
    let rhs = add_spec(mul_spec(a, c, q), mul_spec(b, c, q), q);
    assert forall|k: int| 0 <= k < lhs.len() implies lhs[k] == rhs[k] by {
        lemma_cmod_centered(ra[k], q);
        lemma_cmod_centered(rb[k], q);
        lemma_add_mod_noop(cmod(ra[k], q), cmod(rb[k], q), q);
        lemma_add_mod_noop(ra[k], rb[k], q);
        lemma_cmod_residue(ring_rem(pab, n)[k], cmod(ra[k], q) + cmod(rb[k], q), q);
    }
    assert(lhs =~= rhs);
}

} // verus!
