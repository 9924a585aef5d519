//! The mathematical model: polynomials as sequences of integers,
//! lowest-degree coefficient first, with evaluation, root enumeration
//! and synthetic division defined over `int`, and the lemmas that the
//! executable engine and its callers rely on.

use vstd::prelude::*;
use vstd::arithmetic::power::pow;
use vstd::arithmetic::div_mod::{
    lemma_add_mod_noop, lemma_mod_multiples_basic, lemma_mod_twice, lemma_mul_mod_noop_general,
    lemma_small_mod, lemma_sub_mod_noop,
};

verus! {

/// Value at `x` of the polynomial whose coefficients are `c[k..]`,
/// by Horner's rule: the sum of `c[j] * x^(j - k)` for `k <= j < c.len()`.
pub open spec fn eval_from(c: Seq<int>, x: int, k: nat) -> int
    decreases c.len() - k,
{
    if k >= c.len() {
        0
    } else {
        c[k as int] + x * eval_from(c, x, (k + 1) as nat)
    }
}

/// Value of the polynomial `c` at `x`, over the integers.
pub open spec fn poly_eval(c: Seq<int>, x: int) -> int {
    eval_from(c, x, 0)
}

/// Value of the polynomial `c` at `x`, reduced into `[0, p)` for `p > 0`.
pub open spec fn poly_eval_mod(c: Seq<int>, x: int, p: int) -> int {
    poly_eval(c, x) % p
}

/// The ascending sequence of the roots of `c` modulo `p` that lie in
/// `[0, n)`: each `r` with `poly_eval_mod(c, r, p) == 0`, each exactly once.
pub open spec fn roots_below(c: Seq<int>, p: int, n: nat) -> Seq<int>
    decreases n,
{
    if n == 0 {
        Seq::empty()
    } else {
        let prev = roots_below(c, p, (n - 1) as nat);
        if poly_eval_mod(c, (n - 1) as int, p) == 0 {
            prev.push((n - 1) as int)
        } else {
            prev
        }
    }
}

/// Coefficients of the linear factor `(x - r)`, with the constant term
/// normalized into `[0, p)`.
pub open spec fn linear_factor_coeffs(r: int, p: int) -> Seq<int> {
    seq![(-r) % p, 1]
}

/// The linear factors of `c` modulo `p` for the roots in `[0, n)`,
/// in ascending order of the root.
pub open spec fn factor_seq(c: Seq<int>, p: int, n: nat) -> Seq<Seq<int>> {
    roots_below(c, p, n).map_values(|r: int| linear_factor_coeffs(r, p))
}

/// The root that a linear factor `[c0, 1]` stands for, recovered by
/// negating the constant term and normalizing into `[0, p)`.
pub open spec fn recovered_root(c0: int, p: int) -> int {
    (-c0) % p
}

/// Whether `f` is the coefficient sequence of a monic linear factor.
pub open spec fn is_monic_linear(f: Seq<int>) -> bool {
    f.len() == 2 && f[1] == 1
}

/// Quotient of the synthetic division of `c` by `(x - r)`, before any
/// reduction: entry `j` holds the Horner value of `c[j + 1 ..]` at `r`.
pub open spec fn synth_quotient_raw(c: Seq<int>, r: int) -> Seq<int> {
    if c.len() == 0 {
        Seq::empty()
    } else {
        Seq::new((c.len() - 1) as nat, |j: int| eval_from(c, r, (j + 1) as nat))
    }
}

/// Quotient of the synthetic division of `c` by `(x - r)`, each entry
/// reduced into `[0, p)`.
pub open spec fn synth_quotient(c: Seq<int>, r: int, p: int) -> Seq<int> {
    if c.len() == 0 {
        Seq::empty()
    } else {
        Seq::new((c.len() - 1) as nat, |j: int| eval_from(c, r, (j + 1) as nat) % p)
    }
}

/// `c` with its trailing (highest-degree) zero coefficients removed,
/// but never shortened below one coefficient.
pub open spec fn strip_trailing_zeros(c: Seq<int>) -> Seq<int>
    decreases c.len(),
{
    if c.len() <= 1 {
        c
    } else if c.last() == 0 {
        strip_trailing_zeros(c.drop_last())
    } else {
        c
    }
}

/// The coefficient sequence that dividing `c` by the linear factor of
/// root `r` yields: the reduced synthetic quotient, stripped of trailing
/// zeros; the single zero coefficient when `c` has no degree to lose.
pub open spec fn quotient_coeffs(c: Seq<int>, r: int, p: int) -> Seq<int> {
    if c.len() <= 1 {
        seq![0]
    } else {
        strip_trailing_zeros(synth_quotient(c, r, p))
    }
}

/// Congruent summands give congruent sums.
pub proof fn lemma_cong_add(a: int, b: int, x: int, y: int, p: int)
    requires
        p > 0,
        a % p == b % p,
        x % p == y % p,
    ensures
        (a + x) % p == (b + y) % p,
{
    lemma_add_mod_noop(a, x, p);
    lemma_add_mod_noop(b, y, p);
}

/// Congruent factors give congruent products.
pub proof fn lemma_cong_mul(a: int, b: int, x: int, y: int, p: int)
    requires
        p > 0,
        a % p == b % p,
        x % p == y % p,
    ensures
        (a * x) % p == (b * y) % p,
{
    lemma_mul_mod_noop_general(a, x, p);
    lemma_mul_mod_noop_general(b, y, p);
}

/// Appending a coefficient adds its monomial to the value.
pub proof fn lemma_eval_from_push(s: Seq<int>, a: int, x: int, k: nat)
    requires
        k <= s.len(),
    ensures
        eval_from(s.push(a), x, k) == eval_from(s, x, k) + a * pow(x, (s.len() - k) as nat),
    decreases s.len() - k,
{
    reveal(pow);
    if k == s.len() {
        assert(s.push(a)[k as int] == a);
        assert(eval_from(s.push(a), x, (k + 1) as nat) == 0);
        assert(pow(x, 0) == 1);
    } else {
        lemma_eval_from_push(s, a, x, (k + 1) as nat);
        assert(s.push(a)[k as int] == s[k as int]);
        let u = eval_from(s, x, (k + 1) as nat);
        let e = (s.len() - k - 1) as nat;
        assert(eval_from(s.push(a), x, k) == s[k as int] + x * (u + a * pow(x, e)));
        assert(pow(x, (s.len() - k) as nat) == x * pow(x, e));
        assert(x * (u + a * pow(x, e)) == x * u + a * (x * pow(x, e))) by (nonlinear_arith);
    }
}

/// Every entry that the root search lists is a root: evaluating the
/// polynomial there modulo `p` gives zero.
pub proof fn lemma_roots_sound(c: Seq<int>, p: int, n: nat)
    ensures
        forall|j: int|
            0 <= j < roots_below(c, p, n).len() ==> poly_eval_mod(
                c,
                #[trigger] roots_below(c, p, n)[j],
                p,
            ) == 0,
    decreases n,
{
    if n > 0 {
        lemma_roots_sound(c, p, (n - 1) as nat);
        let prev = roots_below(c, p, (n - 1) as nat);
        let cur = roots_below(c, p, n);
        assert forall|j: int| 0 <= j < cur.len() implies poly_eval_mod(c, cur[j], p) == 0 by {
            if j < prev.len() {
                assert(cur[j] == prev[j]);
            } else {
                assert(cur == prev.push((n - 1) as int));
                assert(cur[j] == (n - 1) as int);
            }
        }
    }
}

/// The root search is exhaustive: `r` is listed exactly when it lies in
/// `[0, n)` and the polynomial evaluates to zero at `r` modulo `p`.
pub proof fn lemma_roots_complete(c: Seq<int>, p: int, n: nat, r: int)
    ensures
        roots_below(c, p, n).contains(r) <==> (0 <= r < n && poly_eval_mod(c, r, p) == 0),
    decreases n,
{
    if n > 0 {
        lemma_roots_complete(c, p, (n - 1) as nat, r);
        let prev = roots_below(c, p, (n - 1) as nat);
        let cur = roots_below(c, p, n);
        if poly_eval_mod(c, (n - 1) as int, p) == 0 {
            assert(cur == prev.push((n - 1) as int));
            if prev.contains(r) {
                let j = choose|j: int| 0 <= j < prev.len() && prev[j] == r;
                assert(cur[j] == r);
                assert(cur.contains(r));
            }
            if r == n - 1 {
                assert(cur[cur.len() - 1] == r);
                assert(cur.contains(r));
            }
            if cur.contains(r) {
                let j = choose|j: int| 0 <= j < cur.len() && cur[j] == r;
                if j < prev.len() {
                    assert(prev[j] == r);
                    assert(prev.contains(r));
                } else {
                    assert(r == n - 1);
                }
            }
        }
    }
}

/// The listed roots lie in `[0, n)` and come in strictly ascending order,
/// so each root appears exactly once.
pub proof fn lemma_roots_ascending(c: Seq<int>, p: int, n: nat)
    ensures
        forall|j: int|
            0 <= j < roots_below(c, p, n).len() ==> 0 <= #[trigger] roots_below(c, p, n)[j] < n,
        forall|i: int, j: int|
            0 <= i < j < roots_below(c, p, n).len() ==> #[trigger] roots_below(c, p, n)[i]
                < #[trigger] roots_below(c, p, n)[j],
    decreases n,
{
    if n > 0 {
        lemma_roots_ascending(c, p, (n - 1) as nat);
        let prev = roots_below(c, p, (n - 1) as nat);
        let cur = roots_below(c, p, n);
        assert forall|j: int| 0 <= j < cur.len() implies 0 <= #[trigger] cur[j] < n by {
            if j < prev.len() {
                assert(cur[j] == prev[j]);
            } else {
                assert(cur == prev.push((n - 1) as int));
                assert(cur[j] == (n - 1) as int);
            }
        }
        assert forall|i: int, j: int|
            #![trigger cur[i], cur[j]]
            0 <= i < j < cur.len() implies cur[i] < cur[j] by {
            if j < prev.len() {
                assert(cur[i] == prev[i] && cur[j] == prev[j]);
            } else {
                assert(cur == prev.push((n - 1) as int));
                assert(cur[i] == prev[i] && cur[j] == (n - 1) as int);
                assert(prev[i] < n - 1);
            }
        }
    }
}

/// Removing a trailing zero coefficient does not change the value.
proof fn lemma_eval_from_drop_last_zero(c: Seq<int>, x: int, k: nat)
    requires
        c.len() >= 1,
        c.last() == 0,
        k <= c.len() - 1,
    ensures
        eval_from(c.drop_last(), x, k) == eval_from(c, x, k),
    decreases c.len() - k,
{
    if k < c.len() - 1 {
        lemma_eval_from_drop_last_zero(c, x, (k + 1) as nat);
        assert(c.drop_last()[k as int] == c[k as int]);
    } else {
        assert(eval_from(c.drop_last(), x, k) == 0);
        assert(eval_from(c, x, (k + 1) as nat) == 0);
        assert(eval_from(c, x, k) == c[k as int] + x * 0);
        assert(c[k as int] == c.last());
    }
}

/// Stripping trailing zeros does not change the value anywhere.
pub proof fn lemma_strip_eval(c: Seq<int>, x: int)
    ensures
        poly_eval(strip_trailing_zeros(c), x) == poly_eval(c, x),
    decreases c.len(),
{
    if c.len() > 1 && c.last() == 0 {
        lemma_eval_from_drop_last_zero(c, x, 0);
        lemma_strip_eval(c.drop_last(), x);
    }
}

/// A factor built for a root `r` in `[0, p)` stands for that root: the
/// division step, which recovers the root from the factor's constant
/// term by negation, recovers exactly `r`.
pub proof fn lemma_recovered_root_roundtrip(r: int, p: int)
    requires
        p > 0,
        0 <= r < p,
    ensures
        recovered_root(linear_factor_coeffs(r, p)[0], p) == r,
{
    let a = (-r) % p;
    lemma_mod_twice(-r, p);
    lemma_sub_mod_noop(0, a, p);
    lemma_sub_mod_noop(0, -r, p);
    assert((0int - a) % p == (0int - (-r)) % p);
    lemma_small_mod(r as nat, p as nat);
}

/// The exact synthetic-division identity over the integers, for every
/// tail of the coefficients: the dividend's tail value equals
/// `(x - r)` times the raw quotient's tail value plus the remainder
/// carried at that position, which is the dividend's tail value at `r`.
proof fn lemma_synth_identity_from(c: Seq<int>, r: int, x: int, k: nat)
    requires
        k < c.len(),
    ensures
        eval_from(c, x, k) == (x - r) * eval_from(synth_quotient_raw(c, r), x, k) + eval_from(
            c,
            r,
            k,
        ),
    decreases c.len() - k,
{
    let q = synth_quotient_raw(c, r);
    if k == c.len() - 1 {
        assert(eval_from(q, x, k) == 0);
        assert(eval_from(c, x, (k + 1) as nat) == 0);
        assert(eval_from(c, r, (k + 1) as nat) == 0);
        assert(eval_from(c, x, k) == c[k as int]);
        assert(eval_from(c, r, k) == c[k as int]);
    } else {
        lemma_synth_identity_from(c, r, x, (k + 1) as nat);
        let qx = eval_from(q, x, (k + 1) as nat);
        let er = eval_from(c, r, (k + 1) as nat);
        assert(q[k as int] == er);
        assert(eval_from(c, x, k) == c[k as int] + x * ((x - r) * qx + er));
        assert(eval_from(q, x, k) == er + x * qx);
        assert(eval_from(c, r, k) == c[k as int] + r * er);
        assert(c[k as int] + x * ((x - r) * qx + er) == (x - r) * (er + x * qx) + (c[k as int]
            + r * er)) by (nonlinear_arith);
    }
}

/// The synthetic-division identity at the level of whole polynomials:
/// dividend equals `(x - r)` times the raw quotient plus the remainder
/// `poly_eval(c, r)`, exactly, at every `x`.
pub proof fn lemma_synth_division(c: Seq<int>, r: int, x: int)
    requires
        c.len() >= 1,
    ensures
        poly_eval(c, x) == (x - r) * poly_eval(synth_quotient_raw(c, r), x) + poly_eval(c, r),
{
    lemma_synth_identity_from(c, r, x, 0);
}

/// Coefficientwise congruent polynomials have congruent values.
proof fn lemma_eval_from_cong(a: Seq<int>, b: Seq<int>, x: int, p: int, k: nat)
    requires
        p > 0,
        a.len() == b.len(),
        forall|j: int| 0 <= j < a.len() ==> #[trigger] a[j] % p == b[j] % p,
    ensures
        eval_from(a, x, k) % p == eval_from(b, x, k) % p,
    decreases a.len() - k,
{
    if k < a.len() {
        lemma_eval_from_cong(a, b, x, p, (k + 1) as nat);
        let ea = eval_from(a, x, (k + 1) as nat);
        let eb = eval_from(b, x, (k + 1) as nat);
        lemma_cong_mul(x, x, ea, eb, p);
        lemma_cong_add(a[k as int], b[k as int], x * ea, x * eb, p);
    }
}

/// The reduced synthetic quotient is coefficientwise congruent to the
/// raw one, so its value is congruent everywhere.
proof fn lemma_synth_quotient_cong(c: Seq<int>, r: int, p: int, x: int)
    requires
        p > 0,
    ensures
        poly_eval(synth_quotient(c, r, p), x) % p == poly_eval(synth_quotient_raw(c, r), x) % p,
{
    let qq = synth_quotient(c, r, p);
    let qr = synth_quotient_raw(c, r);
    assert forall|j: int| 0 <= j < qq.len() implies #[trigger] qq[j] % p == qr[j] % p by {
        lemma_mod_twice(eval_from(c, r, (j + 1) as nat), p);
    }
    lemma_eval_from_cong(qq, qr, x, p, 0);
}

/// Division correctness: when `r` is a genuine root of `c` modulo `p`,
/// multiplying the returned quotient back by `(x - r)` reproduces the
/// value of `c` modulo `p` at every `x`.
pub proof fn lemma_division_reconstructs(c: Seq<int>, r: int, p: int, x: int)
    requires
        p > 0,
        poly_eval_mod(c, r, p) == 0,
    ensures
        (poly_eval(quotient_coeffs(c, r, p), x) * (x - r)) % p == poly_eval_mod(c, x, p),
{
    lemma_mod_multiples_basic(0, p);
    assert(0int % p == 0);
    if c.len() <= 1 {
        assert(quotient_coeffs(c, r, p) =~= seq![0int]);
        assert(eval_from(seq![0int], x, 1) == 0);
        assert(poly_eval(seq![0int], x) == 0);
        let lhs = poly_eval(quotient_coeffs(c, r, p), x);
        assert(lhs == 0);
        assert(lhs * (x - r) == 0) by (nonlinear_arith)
            requires
                lhs == 0,
        ;
        assert((lhs * (x - r)) % p == 0);
        if c.len() == 0 {
            assert(poly_eval(c, x) == 0);
        } else {
            assert(eval_from(c, x, 1) == 0);
            assert(eval_from(c, r, 1) == 0);
            assert(poly_eval(c, x) == c[0] + x * 0);
            assert(poly_eval(c, r) == c[0] + r * 0);
            assert(poly_eval_mod(c, x, p) == c[0] % p);
            assert(c[0] % p == 0);
        }
    } else {
        let qr = synth_quotient_raw(c, r);
        let qq = synth_quotient(c, r, p);
        let qs = strip_trailing_zeros(qq);
        lemma_synth_division(c, r, x);
        assert(poly_eval(c, x) == (x - r) * poly_eval(qr, x) + poly_eval(c, r));
        // Drop the remainder: it is congruent to zero.
        lemma_cong_add(
            (x - r) * poly_eval(qr, x),
            (x - r) * poly_eval(qr, x),
            poly_eval(c, r),
            0,
            p,
        );
        assert(poly_eval(c, x) % p == ((x - r) * poly_eval(qr, x) + 0) % p);
        // Replace the raw quotient by the reduced, stripped one.
        lemma_synth_quotient_cong(c, r, p, x);
        lemma_strip_eval(qq, x);
        assert(poly_eval(qs, x) % p == poly_eval(qr, x) % p);
        lemma_cong_mul(poly_eval(qs, x), poly_eval(qr, x), x - r, x - r, p);
        assert((poly_eval(qs, x) * (x - r)) % p == (poly_eval(qr, x) * (x - r)) % p);
        assert((x - r) * poly_eval(qr, x) + 0 == poly_eval(qr, x) * (x - r)) by (nonlinear_arith);
        assert(quotient_coeffs(c, r, p) == qs);
        assert((poly_eval(qs, x) * (x - r)) % p == poly_eval(c, x) % p);
    }
}

/// Degree law: when the dividend has at least two coefficients and its
/// leading coefficient is not divisible by `p`, the quotient has exactly
/// one coefficient fewer than the dividend.
pub proof fn lemma_division_degree(c: Seq<int>, r: int, p: int)
    requires
        p > 0,
        c.len() >= 2,
        c.last() % p != 0,
    ensures
        quotient_coeffs(c, r, p).len() == c.len() - 1,
{
    let qq = synth_quotient(c, r, p);
    assert(qq.len() == c.len() - 1);
    assert(eval_from(c, r, c.len() as nat) == 0);
    assert(eval_from(c, r, (c.len() - 1) as nat) == c.last());
    assert(qq.last() == c.last() % p);
    lemma_mod_twice(c.last(), p);
    if qq.len() > 1 {
        assert(strip_trailing_zeros(qq) == qq);
    }
}

} // verus!

