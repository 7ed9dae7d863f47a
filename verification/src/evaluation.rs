//! How evaluation behaves under the arithmetic of polynomials.

use vstd::prelude::*;
use vstd::arithmetic::div_mod::lemma_small_mod;
use crate::field::{
    congruent, fadd, fmul, fneg, fpow, fsub, lemma_congruent_add, lemma_congruent_equal,
    lemma_congruent_mul, lemma_congruent_neg, lemma_congruent_sub, lemma_distributive,
    lemma_modulus_positive, lemma_mul_assoc, lemma_pow_reduced, lemma_reduced, lemma_sub_zero,
    lemma_zero, modulus,
};
use crate::poly::{
    coeff, conv, eval_upto, poly_add, poly_eval, poly_mul, poly_sub, resized,
    root_factor, zeros,
};

verus! {

/// A partial convolution sum is reduced.
pub proof fn lemma_conv_reduced(p: Seq<nat>, q: Seq<nat>, k: int, n: nat)
    ensures
        conv(p, q, k, n) < modulus(),
    decreases n,
{
    lemma_modulus_positive();
    if n > 0 {
        lemma_reduced(
            conv(p, q, k, (n - 1) as nat),
            fmul(coeff(p, n - 1), coeff(q, k - (n - 1))),
        );
    }
}

/// A partial evaluation sum is reduced.
pub proof fn lemma_eval_reduced(p: Seq<nat>, x: nat, n: nat)
    ensures
        eval_upto(p, x, n) < modulus(),
    decreases n,
{
    lemma_modulus_positive();
    if n > 0 {
        lemma_reduced(
            eval_upto(p, x, (n - 1) as nat),
            fmul(coeff(p, n - 1), fpow(x, (n - 1) as nat)),
        );
    }
}

/// Terms beyond the last coefficient add nothing to the value.
pub proof fn lemma_eval_past_end(p: Seq<nat>, x: nat, n: nat)
    requires
        n >= p.len(),
    ensures
        eval_upto(p, x, n) == poly_eval(p, x),
    decreases n,
{
    if n > p.len() {
        lemma_eval_past_end(p, x, (n - 1) as nat);
        lemma_zero(fpow(x, (n - 1) as nat));
        lemma_eval_reduced(p, x, (n - 1) as nat);
        lemma_zero(eval_upto(p, x, (n - 1) as nat));
    }
}

/// The zero polynomial is zero everywhere.
pub proof fn lemma_eval_zeros(len: nat, x: nat, n: nat)
    ensures
        eval_upto(zeros(len), x, n) == 0,
    decreases n,
{
    if n > 0 {
        lemma_eval_zeros(len, x, (n - 1) as nat);
        lemma_zero(fpow(x, (n - 1) as nat));
        lemma_zero(0);
    }
}

proof fn lemma_add_step(ep: nat, eq: nat, cp: nat, cq: nat, w: nat)
    ensures
        fadd(fadd(ep, eq), fmul(fadd(cp, cq), w)) == fadd(
            fadd(ep, fmul(cp, w)),
            fadd(eq, fmul(cq, w)),
        ),
{
    let (a, b, c, d, v) = (ep as int, eq as int, cp as int, cq as int, w as int);
    lemma_congruent_add(ep, eq, a, b);
    lemma_congruent_add(cp, cq, c, d);
    lemma_congruent_mul(fadd(cp, cq), w, c + d, v);
    lemma_congruent_add(fadd(ep, eq), fmul(fadd(cp, cq), w), a + b, (c + d) * v);
    lemma_congruent_mul(cp, w, c, v);
    lemma_congruent_mul(cq, w, d, v);
    lemma_congruent_add(ep, fmul(cp, w), a, c * v);
    lemma_congruent_add(eq, fmul(cq, w), b, d * v);
    lemma_congruent_add(fadd(ep, fmul(cp, w)), fadd(eq, fmul(cq, w)), a + c * v, b + d * v);
    assert((a + b) + (c + d) * v == (a + c * v) + (b + d * v)) by (nonlinear_arith);
    lemma_reduced(fadd(ep, eq), fmul(fadd(cp, cq), w));
    lemma_reduced(fadd(ep, fmul(cp, w)), fadd(eq, fmul(cq, w)));
    lemma_congruent_equal(
        fadd(fadd(ep, eq), fmul(fadd(cp, cq), w)),
        fadd(fadd(ep, fmul(cp, w)), fadd(eq, fmul(cq, w))),
        (a + b) + (c + d) * v,
    );
}

/// The value of a sum is the sum of the values, term by term.
pub proof fn lemma_eval_add_upto(p: Seq<nat>, q: Seq<nat>, x: nat, n: nat)
    requires
        n <= poly_add(p, q).len(),
    ensures
        eval_upto(poly_add(p, q), x, n) == fadd(eval_upto(p, x, n), eval_upto(q, x, n)),
    decreases n,
{
    if n == 0 {
        lemma_zero(0);
    } else {
        let m = (n - 1) as nat;
        lemma_eval_add_upto(p, q, x, m);
        assert(coeff(poly_add(p, q), m as int) == fadd(coeff(p, m as int), coeff(q, m as int)));
        lemma_add_step(
            eval_upto(p, x, m),
            eval_upto(q, x, m),
            coeff(p, m as int),
            coeff(q, m as int),
            fpow(x, m),
        );
    }
}

/// The value of a sum of two polynomials is the sum of their values.
pub proof fn lemma_eval_add(p: Seq<nat>, q: Seq<nat>, x: nat)
    ensures
        poly_eval(poly_add(p, q), x) == fadd(poly_eval(p, x), poly_eval(q, x)),
{
    let n = poly_add(p, q).len();
    lemma_eval_add_upto(p, q, x, n);
    lemma_eval_past_end(p, x, n);
    lemma_eval_past_end(q, x, n);
}

proof fn lemma_scale_step(ep: nat, cp: nat, s: nat, w: nat)
    ensures
        fadd(fmul(ep, s), fmul(fmul(cp, s), w)) == fmul(fadd(ep, fmul(cp, w)), s),
{
    let (a, c, t, v) = (ep as int, cp as int, s as int, w as int);
    lemma_congruent_mul(ep, s, a, t);
    lemma_congruent_mul(cp, s, c, t);
    lemma_congruent_mul(fmul(cp, s), w, c * t, v);
    lemma_congruent_add(fmul(ep, s), fmul(fmul(cp, s), w), a * t, (c * t) * v);
    lemma_congruent_mul(cp, w, c, v);
    lemma_congruent_add(ep, fmul(cp, w), a, c * v);
    lemma_congruent_mul(fadd(ep, fmul(cp, w)), s, a + c * v, t);
    assert(a * t + (c * t) * v == (a + c * v) * t) by (nonlinear_arith);
    lemma_reduced(fmul(ep, s), fmul(fmul(cp, s), w));
    lemma_reduced(fadd(ep, fmul(cp, w)), s);
    lemma_congruent_equal(
        fadd(fmul(ep, s), fmul(fmul(cp, s), w)),
        fmul(fadd(ep, fmul(cp, w)), s),
        a * t + (c * t) * v,
    );
}

/// The value of a polynomial whose coefficients are those of `p` times `s` is
/// the value of `p` times `s`.
pub proof fn lemma_eval_scaled(p: Seq<nat>, q: Seq<nat>, s: nat, x: nat, n: nat)
    requires
        q.len() == p.len(),
        forall|k: int| 0 <= k < p.len() ==> q[k] == fmul(p[k], s),
        n <= p.len(),
    ensures
        eval_upto(q, x, n) == fmul(eval_upto(p, x, n), s),
    decreases n,
{
    if n == 0 {
        lemma_zero(s);
    } else {
        let m = (n - 1) as nat;
        lemma_eval_scaled(p, q, s, x, m);
        lemma_scale_step(eval_upto(p, x, m), p[m as int], s, fpow(x, m));
    }
}

/// A coefficient of the product with a two-term polynomial is made of at
/// most two products.
pub proof fn lemma_conv_linear(p: Seq<nat>, f: Seq<nat>, k: int, n: nat)
    requires
        f.len() == 2,
        n <= p.len(),
        0 <= k,
    ensures
        conv(p, f, k, n) == fadd(
            if 1 <= k <= n { fmul(p[k - 1], f[1]) } else { 0 },
            if k < n { fmul(p[k], f[0]) } else { 0 },
        ),
    decreases n,
{
    lemma_modulus_positive();
    lemma_zero(0);
    if n > 0 {
        let i = n - 1;
        lemma_conv_linear(p, f, k, i as nat);
        lemma_conv_reduced(p, f, k, i as nat);
        if i == k - 1 {
            assert(coeff(f, k - i) == f[1]);
        } else if i == k {
            assert(coeff(f, k - i) == f[0]);
            if k >= 1 {
                lemma_reduced(p[k - 1], f[1]);
                lemma_zero(fmul(p[k - 1], f[1]));
            }
        } else {
            assert(coeff(f, k - i) == 0);
            lemma_zero(p[i]);
            lemma_zero(conv(p, f, k, i as nat));
        }
    }
}

proof fn lemma_linear_first_step(c0: nat, a: nat, x: nat)
    ensures
        fadd(0, fmul(fadd(0, fmul(c0, fneg(a))), 1)) == fadd(
            fmul(x, 0),
            fmul(fneg(a), fadd(0, fmul(c0, 1))),
        ),
{
    let (c, na, v) = (c0 as int, -(a as int), x as int);
    lemma_congruent_neg(a, a as int);
    lemma_congruent_mul(c0, fneg(a), c, na);
    lemma_congruent_add(0, fmul(c0, fneg(a)), 0, c * na);
    lemma_congruent_mul(fadd(0, fmul(c0, fneg(a))), 1, 0 + c * na, 1);
    lemma_congruent_add(0, fmul(fadd(0, fmul(c0, fneg(a))), 1), 0, (0 + c * na) * 1);
    lemma_congruent_mul(x, 0, v, 0);
    lemma_congruent_mul(c0, 1, c, 1);
    lemma_congruent_add(0, fmul(c0, 1), 0, c * 1);
    lemma_congruent_mul(fneg(a), fadd(0, fmul(c0, 1)), na, 0 + c * 1);
    lemma_congruent_add(
        fmul(x, 0),
        fmul(fneg(a), fadd(0, fmul(c0, 1))),
        v * 0,
        na * (0 + c * 1),
    );
    assert(0 + (0 + c * na) * 1 == v * 0 + na * (0 + c * 1)) by (nonlinear_arith);
    lemma_reduced(0, fmul(fadd(0, fmul(c0, fneg(a))), 1));
    lemma_reduced(fmul(x, 0), fmul(fneg(a), fadd(0, fmul(c0, 1))));
    lemma_congruent_equal(
        fadd(0, fmul(fadd(0, fmul(c0, fneg(a))), 1)),
        fadd(fmul(x, 0), fmul(fneg(a), fadd(0, fmul(c0, 1)))),
        0 + (0 + c * na) * 1,
    );
}

proof fn lemma_linear_step(a1: nat, c1: nat, c0: nat, w1: nat, a: nat, x: nat, y: nat)
    requires
        congruent(y, (c0 as int) * (-(a as int))),
    ensures
        ({
            let na = fneg(a);
            let ak = fadd(a1, fmul(c1, w1));
            let wk = fmul(x, w1);
            fadd(fadd(fmul(x, a1), fmul(na, ak)), fmul(fadd(fmul(c1, 1), y), wk)) == fadd(
                fmul(x, ak),
                fmul(na, fadd(ak, fmul(c0, wk))),
            )
        }),
{
    let na = fneg(a);
    let ak = fadd(a1, fmul(c1, w1));
    let wk = fmul(x, w1);
    let (ia1, ic1, ic0, iw1, ina, ix) = (
        a1 as int,
        c1 as int,
        c0 as int,
        w1 as int,
        -(a as int),
        x as int,
    );
    let iak = ak as int;
    lemma_congruent_neg(a, a as int);
    lemma_congruent_mul(c1, w1, ic1, iw1);
    lemma_congruent_add(a1, fmul(c1, w1), ia1, ic1 * iw1);
    lemma_congruent_mul(x, w1, ix, iw1);
    // left
    lemma_congruent_mul(x, a1, ix, ia1);
    lemma_congruent_mul(na, ak, ina, iak);
    lemma_congruent_add(fmul(x, a1), fmul(na, ak), ix * ia1, ina * iak);
    lemma_congruent_mul(c1, 1, ic1, 1);
    lemma_congruent_add(fmul(c1, 1), y, ic1 * 1, ic0 * ina);
    lemma_congruent_mul(fadd(fmul(c1, 1), y), wk, ic1 * 1 + ic0 * ina, ix * iw1);
    let left = fadd(fadd(fmul(x, a1), fmul(na, ak)), fmul(fadd(fmul(c1, 1), y), wk));
    let ileft = (ix * ia1 + ina * iak) + (ic1 * 1 + ic0 * ina) * (ix * iw1);
    lemma_congruent_add(
        fadd(fmul(x, a1), fmul(na, ak)),
        fmul(fadd(fmul(c1, 1), y), wk),
        ix * ia1 + ina * iak,
        (ic1 * 1 + ic0 * ina) * (ix * iw1),
    );
    // right
    lemma_congruent_mul(x, ak, ix, ia1 + ic1 * iw1);
    lemma_congruent_mul(c0, wk, ic0, ix * iw1);
    lemma_congruent_add(ak, fmul(c0, wk), iak, ic0 * (ix * iw1));
    lemma_congruent_mul(na, fadd(ak, fmul(c0, wk)), ina, iak + ic0 * (ix * iw1));
    let right = fadd(fmul(x, ak), fmul(na, fadd(ak, fmul(c0, wk))));
    let iright = ix * (ia1 + ic1 * iw1) + ina * (iak + ic0 * (ix * iw1));
    lemma_congruent_add(
        fmul(x, ak),
        fmul(na, fadd(ak, fmul(c0, wk))),
        ix * (ia1 + ic1 * iw1),
        ina * (iak + ic0 * (ix * iw1)),
    );
    let prod = ix * iw1;
    assert((ic1 * 1 + ic0 * ina) * prod == ic1 * prod + (ic0 * ina) * prod) by (nonlinear_arith);
    assert(ix * (ia1 + ic1 * iw1) == ix * ia1 + ix * (ic1 * iw1)) by (nonlinear_arith);
    assert(ix * (ic1 * iw1) == ic1 * prod) by (nonlinear_arith)
        requires
            prod == ix * iw1,
    ;
    assert(ina * (iak + ic0 * prod) == ina * iak + ina * (ic0 * prod)) by (nonlinear_arith);
    assert(ina * (ic0 * prod) == (ic0 * ina) * prod) by (nonlinear_arith);
    assert(ileft == iright);
    lemma_reduced(fadd(fmul(x, a1), fmul(na, ak)), fmul(fadd(fmul(c1, 1), y), wk));
    lemma_reduced(fmul(x, ak), fmul(na, fadd(ak, fmul(c0, wk))));
    lemma_congruent_equal(left, right, ileft);
}

/// The partial values of the product of `p` with `x - a`, in terms of those
/// of `p`.
pub proof fn lemma_eval_linear_upto(p: Seq<nat>, a: nat, x: nat, m: nat)
    requires
        p.len() >= 1,
        m <= p.len() + 1,
    ensures
        eval_upto(poly_mul(p, root_factor(a)), x, m) == fadd(
            if m == 0 { 0 } else { fmul(x, eval_upto(p, x, (m - 1) as nat)) },
            fmul(fneg(a), eval_upto(p, x, m)),
        ),
    decreases m,
{
    let f = root_factor(a);
    let product = poly_mul(p, f);
    let len = p.len();
    lemma_modulus_positive();
    if m == 0 {
        lemma_zero(fneg(a));
        lemma_zero(0);
    } else {
        let k = (m - 1) as nat;
        lemma_eval_linear_upto(p, a, x, k);
        lemma_conv_linear(p, f, k as int, len);
        assert(coeff(product, k as int) == conv(p, f, k as int, len));
        let c0 = coeff(p, k as int);
        let y = if k < len { fmul(p[k as int], fneg(a)) } else { 0 };
        assert(congruent(y, (c0 as int) * (-(a as int)))) by {
            lemma_congruent_neg(a, a as int);
            if k < len {
                lemma_congruent_mul(p[k as int], fneg(a), c0 as int, -(a as int));
            } else {
                assert((c0 as int) * (-(a as int)) == 0) by (nonlinear_arith)
                    requires
                        c0 == 0,
                ;
            }
        }
        if k == 0 {
            assert(y == fmul(c0, fneg(a)));
            lemma_linear_first_step(c0, a, x);
        } else {
            let j = (k - 1) as nat;
            lemma_linear_step(eval_upto(p, x, j), p[j as int], c0, fpow(x, j), a, x, y);
        }
    }
}

proof fn lemma_linear_total(e: nat, a: nat, x: nat)
    ensures
        fadd(fmul(x, e), fmul(fneg(a), e)) == fmul(e, fsub(x, a)),
{
    let (ie, ia, ix) = (e as int, a as int, x as int);
    lemma_congruent_neg(a, ia);
    lemma_congruent_mul(x, e, ix, ie);
    lemma_congruent_mul(fneg(a), e, -ia, ie);
    lemma_congruent_add(fmul(x, e), fmul(fneg(a), e), ix * ie, (-ia) * ie);
    lemma_congruent_sub(x, a, ix, ia);
    lemma_congruent_mul(e, fsub(x, a), ie, ix - ia);
    assert(ix * ie + (-ia) * ie == ie * (ix - ia)) by (nonlinear_arith);
    lemma_reduced(fmul(x, e), fmul(fneg(a), e));
    lemma_reduced(e, fsub(x, a));
    lemma_congruent_equal(
        fadd(fmul(x, e), fmul(fneg(a), e)),
        fmul(e, fsub(x, a)),
        ix * ie + (-ia) * ie,
    );
}

/// The value of the product of `p` with `x - a` is the value of `p` times
/// `x - a`.
pub proof fn lemma_eval_linear(p: Seq<nat>, a: nat, x: nat)
    requires
        p.len() >= 1,
    ensures
        poly_mul(p, root_factor(a)).len() == p.len() + 1,
        poly_eval(poly_mul(p, root_factor(a)), x) == fmul(poly_eval(p, x), fsub(x, a)),
{
    lemma_eval_linear_upto(p, a, x, p.len() + 1);
    lemma_eval_past_end(p, x, p.len() + 1);
    lemma_linear_total(poly_eval(p, x), a, x);
}

/// Partial values depend on the coefficients alone.
pub proof fn lemma_eval_same_coeffs(a: Seq<nat>, b: Seq<nat>, x: nat, m: nat)
    requires
        forall|i: int| 0 <= i < m ==> coeff(a, i) == coeff(b, i),
    ensures
        eval_upto(a, x, m) == eval_upto(b, x, m),
    decreases m,
{
    if m > 0 {
        lemma_eval_same_coeffs(a, b, x, (m - 1) as nat);
    }
}

/// Padding with zero coefficients does not change the value.
pub proof fn lemma_eval_resized(p: Seq<nat>, n: nat, x: nat)
    requires
        n >= p.len(),
    ensures
        poly_eval(resized(p, n), x) == poly_eval(p, x),
{
    lemma_eval_same_coeffs(resized(p, n), p, x, n);
    lemma_eval_past_end(p, x, n);
}

proof fn lemma_sub_step(ep: nat, eq: nat, cp: nat, cq: nat, w: nat)
    ensures
        fadd(fsub(ep, eq), fmul(fsub(cp, cq), w)) == fsub(
            fadd(ep, fmul(cp, w)),
            fadd(eq, fmul(cq, w)),
        ),
{
    let (a, b, c, d, v) = (ep as int, eq as int, cp as int, cq as int, w as int);
    lemma_congruent_sub(ep, eq, a, b);
    lemma_congruent_sub(cp, cq, c, d);
    lemma_congruent_mul(fsub(cp, cq), w, c - d, v);
    lemma_congruent_add(fsub(ep, eq), fmul(fsub(cp, cq), w), a - b, (c - d) * v);
    lemma_congruent_mul(cp, w, c, v);
    lemma_congruent_mul(cq, w, d, v);
    lemma_congruent_add(ep, fmul(cp, w), a, c * v);
    lemma_congruent_add(eq, fmul(cq, w), b, d * v);
    lemma_congruent_sub(fadd(ep, fmul(cp, w)), fadd(eq, fmul(cq, w)), a + c * v, b + d * v);
    assert((a - b) + (c - d) * v == (a + c * v) - (b + d * v)) by (nonlinear_arith);
    lemma_reduced(fsub(ep, eq), fmul(fsub(cp, cq), w));
    lemma_reduced(fadd(ep, fmul(cp, w)), fadd(eq, fmul(cq, w)));
    lemma_congruent_equal(
        fadd(fsub(ep, eq), fmul(fsub(cp, cq), w)),
        fsub(fadd(ep, fmul(cp, w)), fadd(eq, fmul(cq, w))),
        (a - b) + (c - d) * v,
    );
}

/// The partial values of a difference are the differences of the partial
/// values.
pub proof fn lemma_eval_sub_upto(p: Seq<nat>, q: Seq<nat>, x: nat, n: nat)
    requires
        p.len() == q.len(),
        n <= p.len(),
    ensures
        eval_upto(poly_sub(p, q), x, n) == fsub(eval_upto(p, x, n), eval_upto(q, x, n)),
    decreases n,
{
    lemma_modulus_positive();
    if n == 0 {
        lemma_sub_zero(0, 0);
    } else {
        let m = (n - 1) as nat;
        lemma_eval_sub_upto(p, q, x, m);
        assert(coeff(poly_sub(p, q), m as int) == fsub(p[m as int], q[m as int]));
        lemma_sub_step(eval_upto(p, x, m), eval_upto(q, x, m), p[m as int], q[m as int], fpow(x, m));
    }
}

/// The value of a difference of two polynomials of one length is the
/// difference of their values.
pub proof fn lemma_eval_sub(p: Seq<nat>, q: Seq<nat>, x: nat)
    requires
        p.len() == q.len(),
    ensures
        poly_eval(poly_sub(p, q), x) == fsub(poly_eval(p, x), poly_eval(q, x)),
{
    lemma_eval_sub_upto(p, q, x, p.len());
}

/// Powers of one element multiply by adding their exponents.
pub proof fn lemma_pow_add(x: nat, a: nat, b: nat)
    ensures
        fpow(x, a + b) == fmul(fpow(x, a), fpow(x, b)),
    decreases a,
{
    lemma_modulus_positive();
    if a == 0 {
        lemma_pow_reduced(x, b);
        assert(1 * fpow(x, b) == fpow(x, b));
        lemma_small_mod(fpow(x, b), modulus());
    } else {
        lemma_pow_add(x, (a - 1) as nat, b);
        assert(fpow(x, a + b) == fmul(x, fpow(x, ((a - 1) as nat) + b)));
        lemma_mul_assoc(x, fpow(x, (a - 1) as nat), fpow(x, b));
    }
}

proof fn lemma_shift_term(prev: nat, c: nat, xs: nat, a: nat, qj: nat, w: nat)
    requires
        congruent(prev, ((c as int) * (xs as int)) * (a as int)),
    ensures
        fadd(prev, fmul(fmul(c, qj), fmul(xs, w))) == fmul(fmul(c, xs), fadd(a, fmul(qj, w))),
{
    let (ic, ix, ia, iq, iw) = (c as int, xs as int, a as int, qj as int, w as int);
    lemma_congruent_mul(c, qj, ic, iq);
    lemma_congruent_mul(xs, w, ix, iw);
    lemma_congruent_mul(fmul(c, qj), fmul(xs, w), ic * iq, ix * iw);
    lemma_congruent_add(prev, fmul(fmul(c, qj), fmul(xs, w)), (ic * ix) * ia, (ic * iq) * (ix * iw));
    lemma_congruent_mul(c, xs, ic, ix);
    lemma_congruent_mul(qj, w, iq, iw);
    lemma_congruent_add(a, fmul(qj, w), ia, iq * iw);
    lemma_congruent_mul(fmul(c, xs), fadd(a, fmul(qj, w)), ic * ix, ia + iq * iw);
    assert((ic * ix) * ia + (ic * iq) * (ix * iw) == (ic * ix) * (ia + iq * iw))
        by (nonlinear_arith);
    lemma_reduced(prev, fmul(fmul(c, qj), fmul(xs, w)));
    lemma_reduced(fmul(c, xs), fadd(a, fmul(qj, w)));
    lemma_congruent_equal(
        fadd(prev, fmul(fmul(c, qj), fmul(xs, w))),
        fmul(fmul(c, xs), fadd(a, fmul(qj, w))),
        (ic * ix) * ia + (ic * iq) * (ix * iw),
    );
}

/// The partial values of `c * x^s * q`, given by its coefficients.
pub proof fn lemma_eval_shifted(q: Seq<nat>, t: Seq<nat>, c: nat, s: nat, x: nat, m: nat)
    requires
        forall|k: int| 0 <= k < t.len() ==> t[k] == fmul(c, coeff(q, k - s)),
        m <= t.len(),
    ensures
        eval_upto(t, x, m) == if m <= s {
            0
        } else {
            fmul(fmul(c, fpow(x, s)), eval_upto(q, x, (m - s) as nat))
        },
    decreases m,
{
    lemma_modulus_positive();
    if m > 0 {
        let j = (m - 1) as nat;
        lemma_eval_shifted(q, t, c, s, x, j);
        let prev = eval_upto(t, x, j);
        assert(t[j as int] == fmul(c, coeff(q, j - s)));
        if j < s {
            lemma_zero(c);
            lemma_zero(fpow(x, j));
            lemma_zero(0);
        } else {
            let a = eval_upto(q, x, (j - s) as nat);
            let xs = fpow(x, s);
            let w = fpow(x, (j - s) as nat);
            lemma_pow_add(x, s, (j - s) as nat);
            assert(fpow(x, j) == fmul(xs, w));
            if j == s {
                assert(a == 0);
                assert(((c as int) * (xs as int)) * 0 == 0);
                lemma_small_mod(0, modulus());
            } else {
                lemma_congruent_mul(c, xs, c as int, xs as int);
                lemma_congruent_mul(fmul(c, xs), a, (c as int) * (xs as int), a as int);
            }
            lemma_shift_term(prev, c, xs, a, coeff(q, j - s), w);
        }
    }
}

/// A convolution sum depends only on the coefficients it reaches.
pub proof fn lemma_conv_same_coeffs(a: Seq<nat>, b: Seq<nat>, q: Seq<nat>, k: int, n: nat)
    requires
        forall|i: int| 0 <= i < n ==> coeff(a, i) == coeff(b, i),
    ensures
        conv(a, q, k, n) == conv(b, q, k, n),
    decreases n,
{
    if n > 0 {
        lemma_conv_same_coeffs(a, b, q, k, (n - 1) as nat);
    }
}

/// A convolution sum is zero where it reaches past the second factor.
pub proof fn lemma_conv_beyond(p: Seq<nat>, q: Seq<nat>, k: int, n: nat)
    requires
        k >= n - 1 + q.len(),
    ensures
        conv(p, q, k, n) == 0,
    decreases n,
{
    if n > 0 {
        lemma_conv_beyond(p, q, k, (n - 1) as nat);
        lemma_zero(coeff(p, n - 1));
        lemma_zero(0);
    }
}

/// The value of a product is the product of the values.
pub proof fn lemma_eval_mul(p: Seq<nat>, q: Seq<nat>, x: nat)
    requires
        q.len() >= 1,
    ensures
        poly_eval(poly_mul(p, q), x) == fmul(poly_eval(p, x), poly_eval(q, x)),
    decreases p.len(),
{
    let e = poly_eval(q, x);
    let product = poly_mul(p, q);
    if p.len() == 0 {
        assert(product =~= zeros(product.len()));
        lemma_eval_zeros(product.len(), x, product.len());
        lemma_zero(e);
    } else {
        let s = (p.len() - 1) as nat;
        let head = p.drop_last();
        let c = p.last();
        lemma_eval_mul(head, q, x);
        let first = poly_mul(head, q);
        let second = Seq::new(product.len(), |k: int| fmul(c, coeff(q, k - s)));
        assert(first.len() == product.len() - 1);
        assert forall|k: int| 0 <= k < product.len() implies product[k] == fadd(
            coeff(first, k),
            second[k],
        ) by {
            lemma_conv_same_coeffs(p, head, q, k, s);
            if k >= first.len() {
                lemma_conv_beyond(head, q, k, s);
            }
        }
        assert(product =~= poly_add(first, second));
        lemma_eval_add(first, second, x);
        lemma_eval_shifted(q, second, c, s, x, second.len());
        lemma_eval_past_end(q, x, (second.len() - s) as nat);
        lemma_eval_same_coeffs(p, head, x, s);
        lemma_distributive(poly_eval(head, x), fmul(c, fpow(x, s)), e);
    }
}

} // verus!
