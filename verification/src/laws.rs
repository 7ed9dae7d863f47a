//! Laws that relate the operations of the scheme to one another.

use vstd::prelude::*;
use vstd::arithmetic::div_mod::{lemma_mod_self_0, lemma_small_mod};
use crate::evaluation::{
    lemma_conv_reduced, lemma_eval_add, lemma_eval_linear, lemma_eval_reduced,
    lemma_eval_scaled, lemma_eval_zeros,
};
use crate::field::{
    congruent, fadd, fdiv, finv, fmul, fneg, fpow, fsub, is_inverse, lemma_add_sub_cancel, lemma_add_swap,
    lemma_congruent_add, lemma_congruent_equal, lemma_congruent_mul, lemma_congruent_sub,
    lemma_div_mul_cancel, lemma_inverse_unique, lemma_modulus_positive, lemma_reduced,
    lemma_sub_zero, lemma_zero, modulus,
};
use crate::kzg::{lagrange_of, multi_open_quotient, open_numerator, open_quotient, KZG};
use crate::poly::{
    all_reduced, basis_denominator, basis_numerator, basis_value, coeff, conv,
    denominators_invertible, distinct, eliminate, eval_upto, is_zero_poly, lagrange_sum,
    effective_len, lagrange_term, lemma_basis_numerator_len, lemma_effective_len,
    lemma_trimmed_full, long_division, long_remainder, poly_add, poly_div, trimmed,
    poly_eval, poly_evals, poly_interpolate, poly_mul, poly_rem, poly_sub, resized, root_factor,
    vanishing, zeros,
};

verus! {

/// The product of the zero polynomial with any polynomial is zero.
pub proof fn lemma_conv_zeros(len: nat, q: Seq<nat>, k: int, n: nat)
    ensures
        conv(zeros(len), q, k, n) == 0,
    decreases n,
{
    if n > 0 {
        lemma_conv_zeros(len, q, k, (n - 1) as nat);
        lemma_zero(coeff(q, k - (n - 1)));
        lemma_zero(0);
    }
}

/// Setting a zero coefficient of the first factor to `c` adds `c` times the
/// matching coefficient of the second factor to the convolution sum.
pub proof fn lemma_conv_update(q: Seq<nat>, d: Seq<nat>, k: int, n: nat, pos: int, c: nat)
    requires
        0 <= pos < q.len(),
        q[pos] == 0,
    ensures
        conv(q.update(pos, c), d, k, n) == if n <= pos {
            conv(q, d, k, n)
        } else {
            fadd(conv(q, d, k, n), fmul(c, coeff(d, k - pos)))
        },
    decreases n,
{
    if n > 0 {
        let m = (n - 1) as nat;
        let u = q.update(pos, c);
        lemma_conv_update(q, d, k, m, pos, c);
        let x = fmul(c, coeff(d, k - pos));
        let t = fmul(coeff(q, m as int), coeff(d, k - m));
        if m < pos {
            assert(coeff(u, m as int) == coeff(q, m as int));
        } else if m == pos {
            assert(coeff(u, m as int) == c);
            assert(coeff(q, m as int) == 0);
            lemma_zero(coeff(d, k - m));
            lemma_conv_reduced(q, d, k, m);
            lemma_zero(conv(q, d, k, m));
        } else {
            assert(coeff(u, m as int) == coeff(q, m as int));
            lemma_add_swap(conv(q, d, k, m), x, t);
        }
    }
}

/// What holds between the numerator, the quotient and the remainder at every
/// step of a long division: each coefficient of the numerator is the one of
/// quotient times denominator plus the one of the remainder.
pub open spec fn division_invariant(n: Seq<nat>, d: Seq<nat>, quot: Seq<nat>, rem: Seq<nat>) -> bool {
    forall|k: int|
        0 <= k < n.len() ==> n[k] == fadd(#[trigger] conv(quot, d, k, quot.len()), coeff(rem, k))
}

/// One step of long division keeps the invariant.
proof fn lemma_division_step(n: Seq<nat>, d: Seq<nat>, quot: Seq<nat>, rem: Seq<nat>)
    requires
        d.len() >= 1,
        all_reduced(d),
        all_reduced(rem),
        is_inverse(d.last(), finv(d.last())),
        d.len() <= rem.len() <= n.len(),
        quot.len() == n.len() - d.len() + 1,
        forall|j: int| 0 <= j <= rem.len() - d.len() ==> quot[j] == 0,
        division_invariant(n, d, quot, rem),
    ensures
        ({
            let c = fdiv(rem.last(), d.last());
            let pos = rem.len() - d.len();
            let next = eliminate(rem, d, c, pos).drop_last();
            &&& all_reduced(next)
            &&& division_invariant(n, d, quot.update(pos, c), next)
        }),
{
    let c = fdiv(rem.last(), d.last());
    let pos = rem.len() - d.len();
    let next = eliminate(rem, d, c, pos).drop_last();
    let after = quot.update(pos, c);
    let top = rem.len() - 1;
    lemma_modulus_positive();
    assert forall|i: int| 0 <= i < next.len() implies next[i] < modulus() by {
        if pos <= i {
            lemma_reduced(rem[i], fmul(d[i - pos], c));
        }
    }
    lemma_div_mul_cancel(rem.last(), d.last());
    assert forall|k: int| 0 <= k < n.len() implies n[k] == fadd(
        #[trigger] conv(after, d, k, after.len()),
        coeff(next, k),
    ) by {
        let a = conv(quot, d, k, quot.len());
        lemma_conv_update(quot, d, k, quot.len(), pos, c);
        lemma_conv_reduced(quot, d, k, quot.len());
        assert(conv(after, d, k, after.len()) == fadd(a, fmul(c, coeff(d, k - pos))));
        assert(n[k] == fadd(a, coeff(rem, k)));
        if k < pos || k > top {
            lemma_zero(c);
            lemma_zero(a);
            assert(coeff(d, k - pos) == 0);
            assert(coeff(next, k) == coeff(rem, k));
        } else if k == top {
            assert(coeff(d, k - pos) == d.last());
            assert(fmul(c, d.last()) == rem.last());
            assert(coeff(next, k) == 0);
            lemma_reduced(a, rem.last());
            lemma_zero(fadd(a, rem.last()));
        } else {
            let t = fmul(c, d[k - pos]);
            assert(c * d[k - pos] == d[k - pos] * c) by (nonlinear_arith);
            lemma_reduced(c, d[k - pos]);
            assert(next[k] == fsub(rem[k], fmul(d[k - pos], c)));
            lemma_add_sub_cancel(a, rem[k], t);
        }
    }
}

/// Long division keeps the invariant from any step to its end, and leaves a
/// remainder shorter than the denominator.
proof fn lemma_division_steps(n: Seq<nat>, d: Seq<nat>, quot: Seq<nat>, rem: Seq<nat>)
    requires
        d.len() >= 1,
        all_reduced(d),
        all_reduced(rem),
        is_inverse(d.last(), finv(d.last())),
        d.len() - 1 <= rem.len() <= n.len(),
        quot.len() == n.len() - d.len() + 1,
        forall|j: int| 0 <= j <= rem.len() - d.len() ==> quot[j] == 0,
        division_invariant(n, d, quot, rem),
    ensures
        division_invariant(n, d, long_division(rem, d, quot), long_remainder(rem, d)),
        long_division(rem, d, quot).len() == quot.len(),
        long_remainder(rem, d).len() == d.len() - 1,
        all_reduced(long_remainder(rem, d)),
    decreases rem.len(),
{
    if rem.len() >= d.len() {
        let c = fdiv(rem.last(), d.last());
        let pos = rem.len() - d.len();
        lemma_division_step(n, d, quot, rem);
        lemma_division_steps(n, d, quot.update(pos, c), eliminate(rem, d, c, pos).drop_last());
    }
}

/// Long division from the whole numerator is exact up to its remainder.
proof fn lemma_long_division_exact(n: Seq<nat>, d: Seq<nat>)
    requires
        all_reduced(n),
        all_reduced(d),
        1 <= d.len() <= n.len(),
        is_inverse(d.last(), finv(d.last())),
    ensures
        ({
            let q = long_division(n, d, zeros((n.len() - d.len() + 1) as nat));
            let r = long_remainder(n, d);
            &&& poly_add(poly_mul(q, d), r) == n
            &&& r.len() == d.len() - 1
            &&& q.len() == n.len() - d.len() + 1
            &&& all_reduced(r)
        }),
{
    let start = zeros((n.len() - d.len() + 1) as nat);
    assert forall|k: int| 0 <= k < n.len() implies n[k] == fadd(
        #[trigger] conv(start, d, k, start.len()),
        coeff(n, k),
    ) by {
        lemma_conv_zeros(start.len(), d, k, start.len());
        lemma_zero(n[k]);
    }
    lemma_division_steps(n, d, start, n);
    let q = long_division(n, d, start);
    let r = long_remainder(n, d);
    assert(division_invariant(n, d, q, r));
    let product = poly_mul(q, d);
    assert(product.len() == n.len());
    assert forall|k: int| 0 <= k < n.len() implies #[trigger] poly_add(product, r)[k] == n[k] by {
        assert(product[k] == conv(q, d, k, q.len()));
    }
    assert(poly_add(product, r) =~= n);
}

/// Division is exact up to its remainder: for a numerator at least as long as
/// the denominator, and a denominator whose last coefficient that is not zero
/// has an inverse, the quotient times the trimmed denominator plus the
/// remainder is the numerator, and the remainder is shorter than the trimmed
/// denominator.
pub proof fn lemma_division_exact(n: Seq<nat>, d: Seq<nat>)
    requires
        all_reduced(n),
        all_reduced(d),
        d.len() <= n.len(),
        !is_zero_poly(d),
        is_inverse(trimmed(d).last(), finv(trimmed(d).last())),
    ensures
        poly_add(poly_mul(poly_div(n, d), trimmed(d)), poly_rem(n, d)) == n,
        poly_rem(n, d).len() == effective_len(d) - 1,
        poly_div(n, d).len() == n.len() - effective_len(d) + 1,
        all_reduced(poly_rem(n, d)),
{
    lemma_effective_len(d);
    lemma_long_division_exact(n, trimmed(d));
}

/// A remainder is zero at a root: when `z` is a root of `n`, the division of
/// `n` by `x - z` leaves no remainder but zero coefficients.
pub proof fn lemma_remainder_at_root(n: Seq<nat>, z: nat)
    requires
        all_reduced(n),
        z < modulus(),
        poly_eval(n, z) == 0,
    ensures
        is_zero_poly(poly_rem(n, root_factor(z))),
{
    let d = root_factor(z);
    lemma_modulus_positive();
    lemma_small_mod(1, modulus());
    assert(1nat * 1nat == 1nat);
    if n.len() >= 2 {
        lemma_inverse_of_one();
        lemma_reduced(z, z);
        assert(all_reduced(d));
        lemma_trimmed_full(d);
        lemma_division_exact(n, d);
        let q = poly_div(n, d);
        let r = poly_rem(n, d);
        lemma_eval_add(poly_mul(q, d), r, z);
        lemma_eval_linear(q, z, z);
        lemma_sub_zero(z, z);
        lemma_zero(poly_eval(q, z));
        lemma_constant_eval(r, z);
        lemma_zero(r[0]);
        assert(r[0] == 0);
    } else {
        assert(poly_rem(n, d) == n);
        if n.len() == 1 {
            lemma_constant_eval(n, z);
        }
    }
}

/// The value of a reduced one-coefficient polynomial is that coefficient.
pub proof fn lemma_constant_eval(p: Seq<nat>, x: nat)
    requires
        p.len() == 1,
        p[0] < modulus(),
    ensures
        poly_eval(p, x) == p[0],
{
    lemma_modulus_positive();
    lemma_small_mod(1, modulus());
    assert(1nat * 1nat == 1nat);
    assert(p[0] * 1 == p[0]);
    lemma_small_mod(p[0], modulus());
    assert(eval_upto(p, x, 1) == fadd(eval_upto(p, x, 0), fmul(coeff(p, 0), fpow(x, 0))));
}

/// The value of a basis numerator is the product of the differences.
pub proof fn lemma_basis_eval(points: Seq<nat>, i: int, n: nat, x: nat)
    requires
        n <= points.len(),
    ensures
        poly_eval(basis_numerator(points, i, n), x) == basis_value(points, i, n, x),
    decreases n,
{
    lemma_modulus_positive();
    if n == 0 {
        lemma_constant_eval(seq![1nat], x);
    } else {
        lemma_basis_eval(points, i, (n - 1) as nat, x);
        if n - 1 != i {
            lemma_basis_numerator_len(points, i, (n - 1) as nat);
            lemma_eval_linear(basis_numerator(points, i, (n - 1) as nat), points[n - 1], x);
        }
    }
}

/// At its own point a basis numerator takes the value of its denominator.
pub proof fn lemma_basis_at_own_point(points: Seq<nat>, i: int, n: nat)
    requires
        0 <= i < points.len(),
        n <= points.len(),
    ensures
        basis_value(points, i, n, points[i]) == basis_denominator(points, i, n),
    decreases n,
{
    if n > 0 {
        lemma_basis_at_own_point(points, i, (n - 1) as nat);
    }
}

/// At every other point a basis numerator is zero.
pub proof fn lemma_basis_at_other_point(points: Seq<nat>, i: int, n: nat, m: int)
    requires
        all_reduced(points),
        0 <= m < n <= points.len(),
        m != i,
    ensures
        basis_value(points, i, n, points[m]) == 0,
    decreases n,
{
    let x = points[m];
    if n - 1 == m {
        lemma_sub_zero(x, x);
        lemma_zero(basis_value(points, i, (n - 1) as nat, x));
    } else {
        lemma_basis_at_other_point(points, i, (n - 1) as nat, m);
        if n - 1 != i {
            lemma_zero(fsub(x, points[n - 1]));
        }
    }
}

/// A product with an invertible element, times its inverse, is the other
/// factor.
pub proof fn lemma_mul_inverse_cancel(d: nat, v: nat)
    requires
        v < modulus(),
        is_inverse(d, finv(d)),
    ensures
        fmul(fmul(d, v), finv(d)) == v,
{
    let inv = finv(d);
    let (id, iv, ii) = (d as int, v as int, inv as int);
    lemma_modulus_positive();
    lemma_small_mod(1, modulus());
    lemma_small_mod(v, modulus());
    lemma_congruent_mul(d, v, id, iv);
    lemma_congruent_mul(fmul(d, v), inv, id * iv, ii);
    lemma_congruent_mul(d, inv, id, ii);
    assert(congruent(1, id * ii));
    lemma_congruent_mul(1, v, id * ii, iv);
    assert(1nat * v == v);
    assert(fmul(1, v) == v);
    assert((id * iv) * ii == (id * ii) * iv) by (nonlinear_arith);
    lemma_reduced(fmul(d, v), inv);
    lemma_congruent_equal(fmul(fmul(d, v), inv), v, (id * iv) * ii);
}

/// The value of a scaled basis polynomial.
pub proof fn lemma_term_eval(points: Seq<nat>, vals: Seq<nat>, i: int, x: nat)
    requires
        0 <= i < points.len(),
        points.len() == vals.len(),
    ensures
        poly_eval(lagrange_term(points, vals, i), x) == fmul(
            fmul(basis_value(points, i, points.len(), x), vals[i]),
            finv(basis_denominator(points, i, points.len())),
        ),
        lagrange_term(points, vals, i).len() == points.len(),
{
    let num = basis_numerator(points, i, points.len());
    let inv = finv(basis_denominator(points, i, points.len()));
    let mid = Seq::new(num.len(), |k: int| fmul(num[k], vals[i]));
    let term = lagrange_term(points, vals, i);
    lemma_basis_numerator_len(points, i, points.len());
    lemma_eval_scaled(num, mid, vals[i], x, num.len());
    lemma_eval_scaled(mid, term, inv, x, num.len());
    lemma_basis_eval(points, i, points.len(), x);
}

/// The sum of the first `n` scaled basis polynomials takes `vals[m]` at
/// `points[m]` for `m < n`, and zero at the later points.
pub proof fn lemma_sum_eval(points: Seq<nat>, vals: Seq<nat>, n: nat, m: int)
    requires
        all_reduced(points),
        all_reduced(vals),
        points.len() == vals.len(),
        n <= points.len(),
        0 <= m < points.len(),
        denominators_invertible(points, n),
    ensures
        poly_eval(lagrange_sum(points, vals, n), points[m]) == if m < n {
            vals[m]
        } else {
            0
        },
    decreases n,
{
    let x = points[m];
    let len = points.len();
    if n == 0 {
        lemma_eval_zeros(len, x, len);
    } else {
        let i = n - 1;
        let before = lagrange_sum(points, vals, i as nat);
        let term = lagrange_term(points, vals, i);
        lemma_sum_eval(points, vals, i as nat, m);
        lemma_eval_add(before, term, x);
        lemma_term_eval(points, vals, i, x);
        let den = basis_denominator(points, i, len);
        assert(is_inverse(den, finv(den)));
        if i == m {
            lemma_basis_at_own_point(points, i, len);
            lemma_mul_inverse_cancel(den, vals[i]);
            lemma_zero(vals[i]);
        } else {
            lemma_basis_at_other_point(points, i, len, m);
            lemma_zero(vals[i]);
            lemma_zero(finv(den));
            if m < i {
                lemma_zero(vals[m]);
            } else {
                lemma_zero(0);
            }
        }
    }
}

/// Interpolation fidelity: the interpolation through points whose basis
/// denominators have inverses takes the value `vals[i]` at `points[i]`.
pub proof fn lemma_interpolation_fidelity(points: Seq<nat>, vals: Seq<nat>, i: int)
    requires
        all_reduced(points),
        all_reduced(vals),
        points.len() == vals.len(),
        0 <= i < points.len(),
        denominators_invertible(points, points.len()),
    ensures
        poly_eval(poly_interpolate(points, vals), points[i]) == vals[i],
{
    lemma_sum_eval(points, vals, points.len(), i);
}

proof fn lemma_shift_base(c: nat, v: nat)
    ensures
        fadd(0, fmul(fsub(c, v), 1)) == fsub(fadd(0, fmul(c, 1)), v),
{
    let (ic, iv) = (c as int, v as int);
    lemma_congruent_sub(c, v, ic, iv);
    lemma_congruent_mul(fsub(c, v), 1, ic - iv, 1);
    lemma_congruent_add(0, fmul(fsub(c, v), 1), 0, (ic - iv) * 1);
    lemma_congruent_mul(c, 1, ic, 1);
    lemma_congruent_add(0, fmul(c, 1), 0, ic * 1);
    lemma_congruent_sub(fadd(0, fmul(c, 1)), v, 0 + ic * 1, iv);
    assert(0 + (ic - iv) * 1 == (0 + ic * 1) - iv) by (nonlinear_arith);
    lemma_reduced(0, fmul(fsub(c, v), 1));
    lemma_reduced(fadd(0, fmul(c, 1)), v);
    lemma_congruent_equal(
        fadd(0, fmul(fsub(c, v), 1)),
        fsub(fadd(0, fmul(c, 1)), v),
        0 + (ic - iv) * 1,
    );
}

proof fn lemma_shift_step(e: nat, t: nat, v: nat)
    ensures
        fadd(fsub(e, v), t) == fsub(fadd(e, t), v),
{
    let (ie, it, iv) = (e as int, t as int, v as int);
    lemma_congruent_sub(e, v, ie, iv);
    lemma_congruent_add(fsub(e, v), t, ie - iv, it);
    lemma_congruent_add(e, t, ie, it);
    lemma_congruent_sub(fadd(e, t), v, ie + it, iv);
    lemma_reduced(fsub(e, v), t);
    lemma_reduced(fadd(e, t), v);
    lemma_congruent_equal(fadd(fsub(e, v), t), fsub(fadd(e, t), v), (ie - iv) + it);
}

/// The partial values of an opening's numerator at the opened point are those
/// of the polynomial less its value there.
pub proof fn lemma_open_numerator_upto(p: Seq<nat>, z: nat, n: nat)
    requires
        1 <= n <= p.len(),
    ensures
        eval_upto(open_numerator(p, z), z, n) == fsub(eval_upto(p, z, n), poly_eval(p, z)),
    decreases n,
{
    let q = open_numerator(p, z);
    let v = poly_eval(p, z);
    if n == 1 {
        assert(eval_upto(q, z, 0) == 0);
        assert(eval_upto(p, z, 0) == 0);
        assert(coeff(q, 0) == fsub(p[0], v));
        lemma_shift_base(p[0], v);
    } else {
        let m = (n - 1) as nat;
        lemma_open_numerator_upto(p, z, m);
        assert(coeff(q, m as int) == coeff(p, m as int));
        lemma_shift_step(eval_upto(p, z, m), fmul(coeff(p, m as int), fpow(z, m)), v);
    }
}

/// The opened point is a root of an opening's numerator, so the division by
/// `x - z` that an opening makes leaves the remainder zero.
pub proof fn lemma_open_exact(p: Seq<nat>, z: nat)
    requires
        all_reduced(p),
        z < modulus(),
    ensures
        poly_eval(open_numerator(p, z), z) == 0,
        is_zero_poly(poly_rem(open_numerator(p, z), root_factor(z))),
{
    let q = open_numerator(p, z);
    if p.len() >= 1 {
        lemma_open_numerator_upto(p, z, p.len());
        lemma_eval_reduced(p, z, p.len());
        lemma_sub_zero(poly_eval(p, z), poly_eval(p, z));
        lemma_reduced(p[0], poly_eval(p, z));
    }
    assert(all_reduced(q));
    lemma_remainder_at_root(q, z);
}

/// One is its own inverse.
pub proof fn lemma_inverse_of_one()
    ensures
        finv(1) == 1,
        is_inverse(1, 1),
{
    lemma_modulus_positive();
    lemma_small_mod(1, modulus());
    assert(1nat * 1nat == 1nat);
    assert(is_inverse(1, 1));
    lemma_inverse_unique(1, 1, finv(1));
}

/// Taking zero from a reduced element leaves it as it is.
pub proof fn lemma_sub_nothing(a: nat)
    requires
        a < modulus(),
    ensures
        fsub(a, 0) == a,
{
    lemma_modulus_positive();
    lemma_small_mod(0, modulus());
    lemma_mod_self_0(modulus() as int);
    assert(fneg(0) == 0);
    lemma_small_mod(a, modulus());
}

/// The interpolation through one point is the constant polynomial of its
/// value.
pub proof fn lemma_interpolate_one_point(z: nat, v: nat)
    requires
        v < modulus(),
    ensures
        poly_interpolate(seq![z], seq![v]) == seq![v],
{
    let points = seq![z];
    let vals = seq![v];
    lemma_modulus_positive();
    lemma_inverse_of_one();
    lemma_small_mod(v, modulus());
    assert(basis_numerator(points, 0, 1) == basis_numerator(points, 0, 0));
    assert(basis_numerator(points, 0, 0) == seq![1nat]);
    assert(basis_denominator(points, 0, 1) == basis_denominator(points, 0, 0));
    assert(basis_denominator(points, 0, 0) == 1);
    assert(1nat * v == v);
    assert(v * 1nat == v);
    assert(fmul(fmul(1, v), 1) == v);
    let term = lagrange_term(points, vals, 0);
    assert(term =~= seq![v]);
    assert(lagrange_sum(points, vals, 0) == zeros(1));
    assert(fadd(0, v) == v);
    assert(poly_add(zeros(1), term) =~= seq![v]);
    assert(lagrange_sum(points, vals, 1) == poly_add(lagrange_sum(points, vals, 0), term));
}

/// A multi-point opening at a single point is the single-point opening at that
/// point: the two are refused on the same inputs, and commit to the same
/// quotient otherwise.
pub proof fn lemma_single_point_reduction(kzg: KZG, p: Seq<nat>, z: nat)
    requires
        all_reduced(p),
    ensures
        kzg.multi_open_refusal(p, seq![z]) == kzg.open_refusal(p),
        multi_open_quotient(p, seq![z]) == open_quotient(p, z),
        kzg.g1_commitment(multi_open_quotient(p, seq![z])) == kzg.g1_commitment(
            open_quotient(p, z),
        ),
{
    let points = seq![z];
    let v = poly_eval(p, z);
    lemma_eval_reduced(p, z, p.len());
    lemma_interpolate_one_point(z, v);
    assert(distinct(points));
    assert(poly_evals(p, points) =~= seq![v]);
    assert(vanishing(points, 1) == root_factor(z));
    let lagrange = lagrange_of(p, points);
    assert(lagrange == resized(seq![v], p.len()));
    let numerator = poly_sub(p, lagrange);
    assert forall|i: int| 0 <= i < p.len() implies #[trigger] numerator[i] == open_numerator(
        p,
        z,
    )[i] by {
        if i > 0 {
            lemma_sub_nothing(p[i]);
        }
    }
    assert(numerator =~= open_numerator(p, z));
}

} // verus!
