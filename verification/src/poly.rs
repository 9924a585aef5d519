//! The executable engine: a polynomial as a vector of `BigInt`
//! coefficients, with evaluation, root search and synthetic division
//! modulo a positive integer, verified against the model in
//! `crate::model`.

use vstd::prelude::*;
use num_bigint::BigInt;
use crate::bigint::{
    big_add, big_clone, big_from_u32, big_is_one, big_is_positive, big_is_zero, big_mod_floor,
    big_mul, big_neg, big_one, big_to_u32, big_value, big_zero,
};
use crate::model::{
    eval_from, factor_seq, is_monic_linear, lemma_cong_add, lemma_cong_mul, lemma_eval_from_push,
    linear_factor_coeffs, poly_eval, poly_eval_mod, quotient_coeffs, recovered_root, roots_below,
    strip_trailing_zeros, synth_quotient,
};
use vstd::arithmetic::power::{lemma_pow0, lemma_pow1, lemma_pow_adds, pow};
use vstd::arithmetic::div_mod::{
    lemma_mod_bound, lemma_mod_multiples_basic, lemma_mod_twice, lemma_small_mod,
};

verus! {

/// The mathematical coefficient sequence of a vector of `BigInt`s.
pub open spec fn coeffs_view(v: Seq<BigInt>) -> Seq<int> {
    v.map_values(|b: BigInt| big_value(b))
}

/// The coefficient sequences of a sequence of polynomials.
pub open spec fn factors_views(s: Seq<Polynomial>) -> Seq<Seq<int>> {
    s.map_values(|f: Polynomial| f@)
}

/// A polynomial with arbitrary-precision integer coefficients, stored
/// densely, lowest degree first: `coeffs[i]` is the coefficient of `x^i`.
pub struct Polynomial {
    pub coeffs: Vec<BigInt>,
}

impl View for Polynomial {
    type V = Seq<int>;

    open spec fn view(&self) -> Seq<int> {
        coeffs_view(self.coeffs@)
    }
}

/// Why an operation refused its inputs.
#[derive(Clone, Copy, Debug, PartialEq, Eq)]
pub enum FactorError {
    /// The modulus is zero or negative where a positive one is required.
    DomainError,
    /// The modulus exceeds the range the root search can iterate over.
    RangeError,
    /// The divisor is not a monic linear factor.
    PreconditionViolation,
}

impl Polynomial {
    /// Wraps a coefficient vector, lowest degree first.
    pub fn new(coeffs: Vec<BigInt>) -> (p: Polynomial)
        ensures
            p@ == coeffs_view(coeffs@),
    {
        Polynomial { coeffs }
    }

    /// Evaluates the polynomial at `x` modulo the positive `p`, by
    /// Horner-style accumulation with every intermediate sum and power
    /// reduced into `[0, p)`.
    pub(crate) fn eval_mod(&self, x: &BigInt, p: &BigInt) -> (r: BigInt)
        requires
            big_value(*p) > 0,
        ensures
            big_value(r) == poly_eval_mod(self@, big_value(*x), big_value(*p)),
            0 <= big_value(r) < big_value(*p),
    {
        let ghost cv = self@;
        let ghost xv = big_value(*x);
        let ghost pv = big_value(*p);
        let mut acc = big_zero();
        let mut xp = big_one();
        let n = self.coeffs.len();
        let mut i: usize = 0;
        proof {
            lemma_mod_multiples_basic(0, pv);
            assert(cv.take(0) =~= Seq::<int>::empty());
            lemma_pow0(xv);
        }
        while i < n
            invariant
                big_value(*p) == pv,
                pv > 0,
                big_value(*x) == xv,
                self@ == cv,
                n == self.coeffs.len(),
                i <= n,
                0 <= big_value(acc) < pv,
                big_value(acc) % pv == poly_eval(cv.take(i as int), xv) % pv,
                big_value(xp) % pv == pow(xv, i as nat) % pv,
            decreases n - i,
        {
            let ghost old_acc = big_value(acc);
            let ghost old_xp = big_value(xp);
            let t = big_mul(&self.coeffs[i], &xp);
            let s = big_add(&acc, &t);
            acc = big_mod_floor(&s, p);
            let u = big_mul(&xp, x);
            xp = big_mod_floor(&u, p);
            proof {
                let ci = cv[i as int];
                assert(ci == big_value(self.coeffs@[i as int]));
                lemma_cong_mul(ci, ci, old_xp, pow(xv, i as nat), pv);
                lemma_cong_add(
                    old_acc,
                    poly_eval(cv.take(i as int), xv),
                    ci * old_xp,
                    ci * pow(xv, i as nat),
                    pv,
                );
                lemma_eval_from_push(cv.take(i as int), ci, xv, 0);
                assert(cv.take(i + 1) =~= cv.take(i as int).push(ci));
                lemma_mod_twice(old_acc + ci * old_xp, pv);
                lemma_mod_bound(old_acc + ci * old_xp, pv);
                lemma_cong_mul(old_xp, pow(xv, i as nat), xv, xv, pv);
                lemma_pow_adds(xv, i as nat, 1);
                lemma_pow1(xv);
                lemma_mod_twice(old_xp * xv, pv);
            }
            i += 1;
        }
        proof {
            assert(cv.take(n as int) =~= cv);
            lemma_small_mod(big_value(acc) as nat, pv as nat);
        }
        acc
    }

    /// Finds the linear factors `(x - r)` of the polynomial modulo `p`
    /// by testing every candidate `r` in `[0, p)` in ascending order:
    /// exactly the roots are listed, each once, as factors
    /// `[(-r) mod p, 1]`, in ascending order of `r`. Refuses a modulus
    /// that is not positive with `DomainError`, and one beyond the
    /// iteration range of the search with `RangeError`.
    pub fn find_linear_factors(&self, p: &BigInt) -> (result: Result<
        Vec<Polynomial>,
        FactorError,
    >)
        ensures
            match result {
                Ok(fs) => big_value(*p) > 0 && big_value(*p) <= u32::MAX as int && factors_views(
                    fs@,
                ) == factor_seq(self@, big_value(*p), big_value(*p) as nat),
                Err(e) => (big_value(*p) <= 0 && e == FactorError::DomainError) || (big_value(*p)
                    > u32::MAX as int && e == FactorError::RangeError),
            },
    {
        let ghost cv = self@;
        let ghost pv = big_value(*p);
        if !big_is_positive(p) {
            return Err(FactorError::DomainError);
        }
        let pn = match big_to_u32(p) {
            Some(v) => v,
            None => {
                return Err(FactorError::RangeError);
            },
        };
        let mut factors: Vec<Polynomial> = Vec::new();
        let mut r: u32 = 0;
        proof {
            assert(factors_views(factors@) =~= factor_seq(cv, pv, 0));
        }
        while r < pn
            invariant
                big_value(*p) == pv,
                pv == pn as int,
                pv > 0,
                self@ == cv,
                r <= pn,
                factors_views(factors@) == factor_seq(cv, pv, r as nat),
            decreases pn - r,
        {
            let ghost old_factors = factors@;
            let x = big_from_u32(r);
            let v = self.eval_mod(&x, p);
            if big_is_zero(&v) {
                let c0 = big_mod_floor(&big_neg(&x), p);
                let one = big_one();
                let factor = Polynomial { coeffs: vec![c0, one] };
                proof {
                    assert(factor@ =~= linear_factor_coeffs(r as int, pv));
                }
                factors.push(factor);
            }
            proof {
                let roots_new = roots_below(cv, pv, (r + 1) as nat);
                let roots_old = roots_below(cv, pv, r as nat);
                if poly_eval_mod(cv, r as int, pv) == 0 {
                    assert(roots_new == roots_old.push(r as int));
                    assert(factor_seq(cv, pv, (r + 1) as nat) =~= factor_seq(
                        cv,
                        pv,
                        r as nat,
                    ).push(linear_factor_coeffs(r as int, pv)));
                    assert(factors_views(factors@) =~= factors_views(old_factors).push(
                        factors@.last()@,
                    ));
                } else {
                    assert(roots_new == roots_old);
                    assert(factor_seq(cv, pv, (r + 1) as nat) =~= factor_seq(cv, pv, r as nat));
                }
            }
            r += 1;
        }
        Ok(factors)
    }

    /// Evaluates the polynomial at `x` modulo `p`: the value of the
    /// polynomial at `x`, reduced into `[0, p)` by floor modulo, or
    /// `DomainError` when `p` is not positive.
    pub fn evaluate(&self, x: &BigInt, p: &BigInt) -> (result: Result<BigInt, FactorError>)
        ensures
            match result {
                Ok(v) => big_value(*p) > 0 && big_value(v) == poly_eval_mod(
                    self@,
                    big_value(*x),
                    big_value(*p),
                ) && 0 <= big_value(v) < big_value(*p),
                Err(e) => big_value(*p) <= 0 && e == FactorError::DomainError,
            },
    {
        if big_is_positive(p) {
            Ok(self.eval_mod(x, p))
        } else {
            Err(FactorError::DomainError)
        }
    }

    /// Divides the polynomial by the monic linear factor `[c0, 1]`,
    /// which stands for `(x - r)` with `r = -c0` recovered by negation
    /// and normalized into `[0, p)`. Synthetic division processes the
    /// coefficients from highest degree to lowest; the final remainder,
    /// the polynomial's own value at `r`, is discarded, so the caller is
    /// answerable for the factor being a genuine root. The quotient's
    /// coefficients are reduced into `[0, p)` and stripped of trailing
    /// zeros, never below one coefficient. Refuses a factor that is not
    /// monic linear with `PreconditionViolation`, and then a modulus
    /// that is not positive with `DomainError`.
    pub fn divide_by_linear_factor(&self, factor: &Polynomial, p: &BigInt) -> (result: Result<
        Polynomial,
        FactorError,
    >)
        ensures
            match result {
                Ok(q) => {
                    &&& is_monic_linear(factor@)
                    &&& big_value(*p) > 0
                    &&& q@ == quotient_coeffs(
                        self@,
                        recovered_root(factor@[0], big_value(*p)),
                        big_value(*p),
                    )
                    &&& q@.len() >= 1
                    &&& (q@.len() == 1 || q@.last() != 0)
                },
                Err(e) => match e {
                    FactorError::PreconditionViolation => !is_monic_linear(factor@),
                    FactorError::DomainError => is_monic_linear(factor@) && big_value(*p) <= 0,
                    FactorError::RangeError => false,
                },
            },
    {
        let ghost cv = self@;
        let ghost pv = big_value(*p);
        if !(factor.coeffs.len() == 2 && big_is_one(&factor.coeffs[1])) {
            proof {
                assert(factor@.len() == factor.coeffs@.len());
            }
            return Err(FactorError::PreconditionViolation);
        }
        if !big_is_positive(p) {
            return Err(FactorError::DomainError);
        }
        let rn = big_mod_floor(&big_neg(&factor.coeffs[0]), p);
        let ghost rr = recovered_root(factor@[0], pv);
        let n = self.coeffs.len();
        if n <= 1 {
            let q = Polynomial { coeffs: vec![big_zero()] };
            proof {
                assert(q@ =~= seq![0int]);
                assert(cv.len() <= 1);
            }
            return Ok(q);
        }
        let ghost qs = synth_quotient(cv, rr, pv);
        let mut rev_q: Vec<BigInt> = Vec::new();
        let mut rem = big_zero();
        let mut i: usize = 0;
        while i < n
            invariant
                big_value(*p) == pv,
                pv > 0,
                self@ == cv,
                n == self.coeffs.len(),
                2 <= n,
                cv.len() == n,
                i <= n,
                big_value(rn) == rr,
                qs == synth_quotient(cv, rr, pv),
                qs.len() == n - 1,
                rev_q@.len() == (if i < n { i as int } else { n - 1 }),
                forall|t: int|
                    0 <= t < rev_q@.len() ==> big_value(#[trigger] rev_q@[t]) == qs[n - 2 - t],
                i == 0 ==> big_value(rem) == 0,
                i >= 1 ==> big_value(rem) == eval_from(cv, rr, (n - i) as nat) % pv,
            decreases n - i,
        {
            let ghost old_rem = big_value(rem);
            let t1 = big_mul(&rem, &rn);
            let t2 = big_add(&t1, &self.coeffs[n - 1 - i]);
            rem = big_mod_floor(&t2, p);
            proof {
                let k = (n - 1 - i) as nat;
                let ci = cv[k as int];
                assert(ci == big_value(self.coeffs@[k as int]));
                let tail = eval_from(cv, rr, (k + 1) as nat);
                assert(eval_from(cv, rr, k) == ci + rr * tail);
                if i == 0 {
                    assert(tail == 0);
                    assert(old_rem * rr + ci == ci + rr * tail) by (nonlinear_arith)
                        requires
                            old_rem == 0,
                            tail == 0,
                    ;
                } else {
                    lemma_mod_twice(tail, pv);
                    lemma_cong_mul(old_rem, tail, rr, rr, pv);
                    lemma_cong_add(old_rem * rr, tail * rr, ci, ci, pv);
                    assert(tail * rr + ci == ci + rr * tail) by (nonlinear_arith);
                }
                assert(big_value(rem) == eval_from(cv, rr, k) % pv);
            }
            if i < n - 1 {
                rev_q.push(big_clone(&rem));
                proof {
                    assert(qs[n - 2 - i] == eval_from(cv, rr, (n - 1 - i) as nat) % pv);
                }
            }
            i += 1;
        }
        let m = rev_q.len();
        let mut q: Vec<BigInt> = Vec::new();
        let mut j: usize = 0;
        while j < m
            invariant
                m == rev_q@.len(),
                m == n - 1,
                2 <= n,
                qs.len() == m,
                j <= m,
                q@.len() == j,
                forall|t: int|
                    0 <= t < rev_q@.len() ==> big_value(#[trigger] rev_q@[t]) == qs[n - 2 - t],
                forall|t: int| 0 <= t < j ==> big_value(#[trigger] q@[t]) == qs[t],
            decreases m - j,
        {
            q.push(big_clone(&rev_q[m - 1 - j]));
            j += 1;
        }
        proof {
            assert(coeffs_view(q@) =~= qs);
        }
        while q.len() > 1 && big_is_zero(&q[q.len() - 1])
            invariant
                q@.len() >= 1,
                strip_trailing_zeros(coeffs_view(q@)) == strip_trailing_zeros(qs),
            decreases q.len(),
        {
            let ghost vpre = coeffs_view(q@);
            proof {
                assert(vpre.last() == big_value(q@[q@.len() - 1]));
                assert(strip_trailing_zeros(vpre) == strip_trailing_zeros(vpre.drop_last()));
            }
            let _ = q.pop();
            proof {
                assert(coeffs_view(q@) =~= vpre.drop_last());
            }
        }
        proof {
            let v = coeffs_view(q@);
            assert(v.len() == 1 || v.last() == big_value(q@[q@.len() - 1]));
            assert(strip_trailing_zeros(v) == v);
            assert(quotient_coeffs(cv, rr, pv) == strip_trailing_zeros(qs));
        }
        Ok(Polynomial { coeffs: q })
    }
}

} // verus!
