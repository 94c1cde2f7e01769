use crate::rq::{cmod, Rq};
use rand::Rng;
use vstd::prelude::*;

verus! {

/// Relies on rand's `thread_rng().gen_range(lo..=hi)`: a uniformly drawn value in
/// `[lo, hi]`. It panics on an empty range, which `lo <= hi` rules out.
#[verifier::external_body]
fn draw_between(lo: i64, hi: i64) -> (r: i64)
    requires
        lo <= hi,
    ensures
        lo <= r <= hi,
{
    rand::thread_rng().gen_range(lo..=hi)
}

/// Whether `c` is the centered residue modulo `q` of some integer in `[lo, hi]`.
pub open spec fn drawn_from(c: int, lo: int, hi: int, q: int) -> bool {
    exists|v: int| lo <= v <= hi && c == #[trigger] cmod(v, q)
}

/// A ring element of `n` coefficients, each drawn uniformly from `[min, max]`
/// (by default `[0, q]`) and reduced modulo `q`.
pub fn discrete_uniform(n: usize, q: i64, min: Option<i64>, max: Option<i64>) -> (r: Rq)
    requires
        n >= 1,
        q > 0,
        min.unwrap_or(0) <= max.unwrap_or(q),
    ensures
        r.wf(),
        r.spec_modulus() == q,
        r@.len() == n,
        forall|i: int|
            0 <= i < n ==> drawn_from(#[trigger] r@[i], min.unwrap_or(0) as int, max.unwrap_or(q) as int, q as int),
{
    let lo = min.unwrap_or(0);
    let hi = max.unwrap_or(q);
    let mut coeffs: Vec<i64> = Vec::new();
    let mut i: usize = 0;
    while i < n
        invariant
            i <= n,
            lo <= hi,
            lo == min.unwrap_or(0),
            hi == max.unwrap_or(q),
            coeffs@.len() == i,
            forall|j: int| 0 <= j < i ==> lo <= #[trigger] coeffs@[j] <= hi,
        decreases n - i,
    {
        coeffs.push(draw_between(lo, hi));
        i += 1;
    }
    let ghost drawn = coeffs@;
    let r = Rq::new(coeffs, q);
    assert forall|i: int| 0 <= i < n implies drawn_from(#[trigger] r@[i], lo as int, hi as int, q as int) by {
        let v = drawn[i] as int;
        assert(lo <= v <= hi && r@[i] == cmod(v, q as int));
    }
    r
}

} // verus!
